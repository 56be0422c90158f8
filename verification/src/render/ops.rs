//! Padding, truncation and repetition measured in display columns.

use vstd::prelude::*;
use crate::width::{char_width, char_width_of, display_width, width_of};

verus! {

/// `n` spaces.
pub open spec fn spaces(n: int) -> Seq<char> {
    Seq::new(n as nat, |i: int| ' ')
}

/// `c` repeated `n` times.
pub open spec fn repeat_char(c: char, n: int) -> Seq<char> {
    Seq::new(n as nat, |i: int| c)
}

pub fn repeat_char_of(c: char, n: usize) -> (r: Vec<char>)
    ensures
        r@ == repeat_char(c, n as int),
{
    let mut r: Vec<char> = Vec::new();
    let mut i: usize = 0;
    while i < n
        invariant
            i <= n,
            r@ == repeat_char(c, i as int),
        decreases n - i,
    {
        r.push(c);
        i = i + 1;
        assert(r@ =~= repeat_char(c, i as int));
    }
    r
}

pub fn spaces_of(n: usize) -> (r: Vec<char>)
    ensures
        r@ == spaces(n as int),
{
    let r = repeat_char_of(' ', n);
    assert(r@ =~= spaces(n as int));
    r
}

/// The columns a character takes when text is truncated: its width, or one
/// for a control character.
pub open spec fn trunc_width(c: char) -> int {
    match char_width(c) {
        Some(w) => w as int,
        None => 1,
    }
}

/// The longest prefix of `s` that fits in `width` columns, stopping at the
/// first character that does not fit.
pub open spec fn truncate(s: Seq<char>, width: int) -> Seq<char>
    decreases s.len(),
{
    if s.len() == 0 || trunc_width(s[0]) > width {
        Seq::empty()
    } else {
        seq![s[0]] + truncate(s.drop_first(), width - trunc_width(s[0]))
    }
}

/// `s` truncated to `width` columns and padded with spaces to fill them:
/// on the right when `left`, else on both sides (the extra space on the right).
pub open spec fn pad(s: Seq<char>, width: int, left: bool) -> Seq<char> {
    let t = truncate(s, width);
    pad_fit(t, display_width(t) as int, width, left)
}

/// Text `t` that takes `w` columns, padded with spaces to `width` columns.
pub open spec fn pad_fit(t: Seq<char>, w: int, width: int, left: bool) -> Seq<char> {
    if w >= width {
        t
    } else if left {
        t + spaces(width - w)
    } else {
        spaces((width - w) / 2) + t + spaces(width - w - (width - w) / 2)
    }
}

/// Pads text `t`, which takes `w` columns, with spaces to `width` columns.
pub fn pad_measured(t: &[char], w: usize, width: usize, left: bool) -> (r: Vec<char>)
    ensures
        r@ == pad_fit(t@, w as int, width as int, left),
{
    if w >= width {
        return crate::text::copy_of(t);
    }
    let padding = width - w;
    if left {
        crate::text::concat(t, spaces_of(padding).as_slice())
    } else {
        let l = padding / 2;
        let r = padding - l;
        let a = crate::text::concat(spaces_of(l).as_slice(), t);
        crate::text::concat(a.as_slice(), spaces_of(r).as_slice())
    }
}

/// The prefix of `s` that fits in `width` columns.
pub fn truncate_to_width(s: &[char], width: usize) -> (r: Vec<char>)
    ensures
        r@ == truncate(s@, width as int),
{
    let mut out: Vec<char> = Vec::new();
    let mut cur: usize = 0;
    let mut i: usize = 0;
    assert(s@.skip(0) =~= s@);
    while i < s.len()
        invariant
            i <= s@.len(),
            cur <= width,
            truncate(s@, width as int) == out@ + truncate(s@.skip(i as int), (width - cur) as int),
        decreases s@.len() - i,
    {
        let c = s[i];
        let cw = match char_width_of(c) {
            Some(w) => w,
            None => 1,
        };
        assert(s@.skip(i as int)[0] == c);
        assert(s@.skip(i as int).drop_first() =~= s@.skip(i + 1));
        if cw > width - cur {
            assert(out@ + Seq::<char>::empty() =~= out@);
            return out;
        }
        let ghost before = out@;
        out.push(c);
        assert(before + (seq![c] + truncate(s@.skip(i + 1), (width - cur - cw) as int)) =~= out@ + truncate(
            s@.skip(i + 1),
            (width - cur - cw) as int,
        ));
        cur = cur + cw;
        i = i + 1;
    }
    assert(truncate(s@.skip(i as int), (width - cur) as int) =~= Seq::<char>::empty());
    assert(out@ + Seq::<char>::empty() =~= out@);
    out
}

/// `s` fitted to `width` columns, left-aligned or centred.
pub fn pad_string_with_alignment(s: &[char], width: usize, left: bool) -> (r: Vec<char>)
    ensures
        r@ == pad(s@, width as int, left),
{
    let truncated = truncate_to_width(s, width);
    let s_width = width_of(truncated.as_slice());
    pad_measured(truncated.as_slice(), s_width, width, left)
}

/// `s` centred in `width` columns.
pub fn pad_string(s: &[char], width: usize) -> (r: Vec<char>)
    ensures
        r@ == pad(s@, width as int, false),
{
    pad_string_with_alignment(s, width, false)
}

/// `s` left-aligned in `width` columns.
pub fn pad_string_left(s: &[char], width: usize) -> (r: Vec<char>)
    ensures
        r@ == pad(s@, width as int, true),
{
    pad_string_with_alignment(s, width, true)
}

} // verus!
