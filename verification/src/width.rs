//! Display widths of text in terminal cells, from the `unicode-width` crate.

use vstd::prelude::*;

verus! {

/// The display width of a string, as `UnicodeWidthStr::width` measures it.
pub uninterp spec fn display_width(s: Seq<char>) -> usize;

/// `unicode_width::UnicodeWidthStr::width`: the number of terminal columns
/// that `s` occupies. This library names that result `display_width`; the
/// source shows that a string of printable ASCII characters is as wide as it
/// is long (each such character adds one column and none starts a sequence).
/// Other widths come from Unicode tables that are not modelled here.
#[verifier::external_body]
pub fn str_width(s: &str) -> (r: usize)
    ensures
        r == display_width(s@),
        (forall|i: int| 0 <= i < s@.len() ==> ' ' <= #[trigger] s@[i] <= '~') ==> r == s@.len(),
{
    unicode_width::UnicodeWidthStr::width(s)
}

/// The display width of one character, as `UnicodeWidthChar::width` gives it.
pub uninterp spec fn char_width(c: char) -> Option<usize>;

/// `unicode_width::UnicodeWidthChar::width`: the columns `c` occupies, or
/// `None` for a control character. The source shows that printable ASCII is
/// one column wide, that the C0 and C1 controls and DEL give `None`, and that
/// no width exceeds 3; other widths come from Unicode tables that are not
/// modelled here.
#[verifier::external_body]
pub fn char_width_of(c: char) -> (r: Option<usize>)
    ensures
        r == char_width(c),
        ' ' <= c < '\u{7f}' ==> r == Some(1usize),
        (c < ' ' || ('\u{7f}' <= c < '\u{a0}')) ==> r is None,
        r matches Some(w) ==> w <= 3,
{
    unicode_width::UnicodeWidthChar::width(c)
}

/// The display width of a character sequence.
pub fn width_of(v: &[char]) -> (r: usize)
    ensures
        r == display_width(v@),
        (forall|i: int| 0 <= i < v@.len() ==> ' ' <= #[trigger] v@[i] <= '~') ==> r == v@.len(),
{
    let s = crate::text::string_of(v);
    str_width(s.as_str())
}

} // verus!
