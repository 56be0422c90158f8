//! Styled output: text spans tagged with the role they play, and their
//! rendering with or without color.

use vstd::prelude::*;
use crate::theme::{Color, ColorMode, Theme, ThemeType, ThemeV, ansi256, fg_escape, theme_spec};
use crate::text::{chars_of, concat, decimal, lemma_decimal_digits};

verus! {

/// The semantic role of a piece of output; a theme colors each role.
#[derive(Debug, Clone, Copy, PartialEq, Eq, Structural)]
pub enum Role {
    /// Whitespace, newlines and anything left uncolored.
    Plain,
    /// Node boxes and their text.
    NodeFg,
    /// Edge wires, arrows and relationship legends.
    Edge,
    /// Edge and message labels.
    EdgeLabel,
    /// Start and end markers.
    StartEnd,
}

/// A piece of output text and its role.
#[derive(Debug, Clone)]
pub struct Span {
    pub text: Vec<char>,
    pub role: Role,
}

pub struct SpanV {
    pub text: Seq<char>,
    pub role: Role,
}

impl View for Span {
    type V = SpanV;

    open spec fn view(&self) -> SpanV {
        SpanV { text: self.text@, role: self.role }
    }
}

pub open spec fn spans_v(v: Seq<Span>) -> Seq<SpanV> {
    v.map_values(|s: Span| s@)
}

pub open spec fn span(text: Seq<char>, role: Role) -> SpanV {
    SpanV { text, role }
}

/// The color a theme gives a role.
pub open spec fn role_color(t: ThemeV, r: Role) -> Option<Color> {
    match r {
        Role::Plain => None,
        Role::NodeFg => t.node_fg,
        Role::Edge => t.edge,
        Role::EdgeLabel => t.edge_label,
        Role::StartEnd => t.start_end,
    }
}

/// The reset sequence.
pub open spec fn reset() -> Seq<char> {
    "\x1b[0m"@
}

/// `text` in color `c`: wrapped in the color's escape and a reset, unless
/// there is no color to apply or no text to apply it to.
pub open spec fn paint(text: Seq<char>, c: Option<Color>, mode: ColorMode) -> Seq<char> {
    match c {
        Some(col) => if mode == ColorMode::NoColor || text.len() == 0 {
            text
        } else {
            fg_escape(col, mode) + text + reset()
        },
        None => text,
    }
}

/// The output of a span sequence under a theme and color mode.
pub open spec fn emit(spans: Seq<SpanV>, t: ThemeV, mode: ColorMode) -> Seq<char>
    decreases spans.len(),
{
    if spans.len() == 0 {
        Seq::empty()
    } else {
        paint(spans[0].text, role_color(t, spans[0].role), mode) + emit(spans.drop_first(), t, mode)
    }
}

/// The text of a span sequence, without any color.
pub open spec fn plain(spans: Seq<SpanV>) -> Seq<char>
    decreases spans.len(),
{
    if spans.len() == 0 {
        Seq::empty()
    } else {
        spans[0].text + plain(spans.drop_first())
    }
}

/// `s` after the first `m` (empty when there is none).
pub open spec fn after_m(s: Seq<char>) -> Seq<char>
    decreases s.len(),
{
    if s.len() == 0 {
        s
    } else if s[0] == 'm' {
        s.drop_first()
    } else {
        after_m(s.drop_first())
    }
}

pub proof fn lemma_after_m_len(s: Seq<char>)
    ensures
        after_m(s).len() <= s.len(),
    decreases s.len(),
{
    if s.len() > 0 && s[0] != 'm' {
        lemma_after_m_len(s.drop_first());
    }
}

/// `s` with each escape sequence (an ESC up to and including the next `m`) removed.
pub open spec fn strip_ansi(s: Seq<char>) -> Seq<char>
    decreases s.len(),
{
    if s.len() == 0 {
        s
    } else if s[0] == '\x1b' {
        proof {
            lemma_after_m_len(s.drop_first());
        }
        strip_ansi(after_m(s.drop_first()))
    } else {
        seq![s[0]] + strip_ansi(s.drop_first())
    }
}

/// `s` holds no escape character.
pub open spec fn no_esc(s: Seq<char>) -> bool {
    forall|i: int| 0 <= i < s.len() ==> s[i] != '\x1b'
}

/// No span text holds an escape character.
pub open spec fn spans_no_esc(spans: Seq<SpanV>) -> bool {
    forall|i: int| 0 <= i < spans.len() ==> no_esc(#[trigger] spans[i].text)
}

proof fn lemma_strip_text(t: Seq<char>, r: Seq<char>)
    requires
        no_esc(t),
    ensures
        strip_ansi(t + r) == t + strip_ansi(r),
    decreases t.len(),
{
    if t.len() == 0 {
        assert(t + r =~= r);
        assert(t + strip_ansi(r) =~= strip_ansi(r));
    } else {
        assert((t + r)[0] == t[0]);
        assert((t + r).drop_first() =~= t.drop_first() + r);
        lemma_strip_text(t.drop_first(), r);
        assert(t =~= seq![t[0]] + t.drop_first());
        assert(seq![t[0]] + (t.drop_first() + strip_ansi(r)) =~= t + strip_ansi(r));
    }
}

proof fn lemma_after_m_body(body: Seq<char>, r: Seq<char>)
    requires
        forall|i: int| 0 <= i < body.len() ==> body[i] != 'm',
    ensures
        after_m(body + seq!['m'] + r) == r,
    decreases body.len(),
{
    if body.len() == 0 {
        assert(body + seq!['m'] + r =~= seq!['m'] + r);
        assert((seq!['m'] + r).drop_first() =~= r);
    } else {
        assert((body + seq!['m'] + r).drop_first() =~= body.drop_first() + seq!['m'] + r);
        lemma_after_m_body(body.drop_first(), r);
    }
}

/// An escape sequence: ESC, then characters other than `m`, then `m`.
pub open spec fn is_escape(e: Seq<char>) -> bool {
    &&& e.len() >= 2
    &&& e[0] == '\x1b'
    &&& e.last() == 'm'
    &&& forall|i: int| 1 <= i < e.len() - 1 ==> e[i] != 'm'
}

proof fn lemma_strip_escape(e: Seq<char>, r: Seq<char>)
    requires
        is_escape(e),
    ensures
        strip_ansi(e + r) == strip_ansi(r),
{
    let body = e.subrange(1, e.len() - 1);
    assert(e =~= seq!['\x1b'] + body + seq!['m']);
    assert((e + r)[0] == '\x1b');
    assert((e + r).drop_first() =~= body + seq!['m'] + r);
    lemma_after_m_body(body, r);
}

proof fn lemma_fg_is_escape(c: Color, mode: ColorMode)
    requires
        mode != ColorMode::NoColor,
    ensures
        is_escape(fg_escape(c, mode)),
{
    reveal_strlit("\x1b[38;5;");
    reveal_strlit("\x1b[38;2;");
    reveal_strlit(";");
    reveal_strlit("m");
    lemma_decimal_digits(ansi256(c) as nat);
    lemma_decimal_digits(c.r as nat);
    lemma_decimal_digits(c.g as nat);
    lemma_decimal_digits(c.b as nat);
    let e = fg_escape(c, mode);
    if mode == ColorMode::Ansi256 {
        let d = decimal(ansi256(c) as nat);
        assert forall|i: int| 1 <= i < e.len() - 1 implies e[i] != 'm' by {
            if i >= 7 {
                assert(e[i] == d[i - 7]);
            }
        }
    } else {
        let dr = decimal(c.r as nat);
        let dg = decimal(c.g as nat);
        let db = decimal(c.b as nat);
        assert forall|i: int| 1 <= i < e.len() - 1 implies e[i] != 'm' by {
            let a = 7 + dr.len();
            let b = a + 1 + dg.len();
            if 7 <= i < a {
                assert(e[i] == dr[i - 7]);
            } else if a + 1 <= i < b {
                assert(e[i] == dg[i - a - 1]);
            } else if b + 1 <= i < b + 1 + db.len() {
                assert(e[i] == db[i - b - 1]);
            }
        }
    }
}

proof fn lemma_strip_paint(text: Seq<char>, c: Option<Color>, mode: ColorMode, r: Seq<char>)
    requires
        no_esc(text),
    ensures
        strip_ansi(paint(text, c, mode) + r) == text + strip_ansi(r),
{
    match c {
        Some(col) => {
            if mode == ColorMode::NoColor || text.len() == 0 {
                lemma_strip_text(text, r);
            } else {
                reveal_strlit("\x1b[0m");
                lemma_fg_is_escape(col, mode);
                let e = fg_escape(col, mode);
                assert(paint(text, c, mode) + r =~= e + (text + (reset() + r)));
                lemma_strip_escape(e, text + (reset() + r));
                lemma_strip_text(text, reset() + r);
                assert(is_escape(reset()));
                lemma_strip_escape(reset(), r);
            }
        },
        None => {
            lemma_strip_text(text, r);
        },
    }
}

/// Removing the escape sequences from colored output leaves the monochrome
/// output: color never adds, drops or moves a character.
pub proof fn law_strip_colored_output(spans: Seq<SpanV>, t: ThemeV, mode: ColorMode)
    requires
        spans_no_esc(spans),
    ensures
        strip_ansi(emit(spans, t, mode)) == plain(spans),
    decreases spans.len(),
{
    if spans.len() == 0 {
    } else {
        assert(no_esc(spans[0].text));
        assert forall|i: int| 0 <= i < spans.drop_first().len() implies no_esc(#[trigger] spans.drop_first()[i].text) by {
            assert(spans.drop_first()[i] == spans[i + 1]);
        }
        law_strip_colored_output(spans.drop_first(), t, mode);
        lemma_strip_paint(spans[0].text, role_color(t, spans[0].role), mode, emit(spans.drop_first(), t, mode));
    }
}

/// With color off, output is the monochrome output.
pub proof fn law_no_color_is_plain(spans: Seq<SpanV>, t: ThemeV)
    ensures
        emit(spans, t, ColorMode::NoColor) == plain(spans),
    decreases spans.len(),
{
    if spans.len() > 0 {
        law_no_color_is_plain(spans.drop_first(), t);
    }
}

/// The default theme colors nothing, whatever the color mode.
pub proof fn law_default_theme_is_plain(spans: Seq<SpanV>, mode: ColorMode)
    ensures
        emit(spans, theme_spec(ThemeType::Default), mode) == plain(spans),
    decreases spans.len(),
{
    if spans.len() > 0 {
        law_default_theme_is_plain(spans.drop_first(), mode);
    }
}

pub proof fn lemma_no_esc_concat(a: Seq<char>, b: Seq<char>)
    requires
        no_esc(a),
        no_esc(b),
    ensures
        no_esc(a + b),
{
    assert forall|i: int| 0 <= i < (a + b).len() implies (a + b)[i] != '\x1b' by {
        if i < a.len() {
            assert((a + b)[i] == a[i]);
        } else {
            assert((a + b)[i] == b[i - a.len()]);
        }
    }
}

/// Monochrome output holds no escape character when no span text does.
pub proof fn law_plain_has_no_escape(spans: Seq<SpanV>)
    requires
        spans_no_esc(spans),
    ensures
        no_esc(plain(spans)),
    decreases spans.len(),
{
    if spans.len() > 0 {
        assert(no_esc(spans[0].text));
        assert forall|i: int| 0 <= i < spans.drop_first().len() implies no_esc(#[trigger] spans.drop_first()[i].text) by {
            assert(spans.drop_first()[i] == spans[i + 1]);
        }
        law_plain_has_no_escape(spans.drop_first());
        lemma_no_esc_concat(spans[0].text, plain(spans.drop_first()));
    }
}

/// Span texts hold no escape character when their monochrome output holds none.
pub proof fn lemma_plain_no_esc(spans: Seq<SpanV>)
    requires
        no_esc(plain(spans)),
    ensures
        spans_no_esc(spans),
    decreases spans.len(),
{
    if spans.len() > 0 {
        let rest = plain(spans.drop_first());
        assert forall|i: int| 0 <= i < spans[0].text.len() implies spans[0].text[i] != '\x1b' by {
            assert(plain(spans)[i] == spans[0].text[i]);
        }
        assert forall|i: int| 0 <= i < rest.len() implies rest[i] != '\x1b' by {
            assert(plain(spans)[spans[0].text.len() + i] == rest[i]);
        }
        lemma_plain_no_esc(spans.drop_first());
        assert forall|i: int| 0 <= i < spans.len() implies no_esc(#[trigger] spans[i].text) by {
            if i > 0 {
                assert(spans[i] == spans.drop_first()[i - 1]);
            }
        }
    }
}

fn role_color_of(t: &Theme, r: Role) -> (c: Option<Color>)
    ensures
        c == role_color(t@, r),
{
    match r {
        Role::Plain => None,
        Role::NodeFg => t.node_fg,
        Role::Edge => t.edge,
        Role::EdgeLabel => t.edge_label,
        Role::StartEnd => t.start_end,
    }
}

fn paint_of(text: &[char], c: Option<Color>, mode: ColorMode) -> (r: Vec<char>)
    ensures
        r@ == paint(text@, c, mode),
{
    match c {
        Some(col) => if mode == ColorMode::NoColor || text.len() == 0 {
            crate::text::copy_of(text)
        } else {
            let e = col.fg_chars(mode);
            let a = concat(e.as_slice(), text);
            let rs = chars_of("\x1b[0m");
            concat(a.as_slice(), rs.as_slice())
        },
        None => crate::text::copy_of(text),
    }
}

/// The output of `spans` under theme `t` in color mode `mode`.
pub fn emit_of(spans: &Vec<Span>, t: &Theme, mode: ColorMode) -> (r: Vec<char>)
    ensures
        r@ == emit(spans_v(spans@), t@, mode),
{
    let ghost sv = spans_v(spans@);
    let mut out: Vec<char> = Vec::new();
    let mut i: usize = 0;
    assert(sv.skip(0) =~= sv);
    while i < spans.len()
        invariant
            sv == spans_v(spans@),
            i <= spans@.len(),
            emit(sv, t@, mode) == out@ + emit(sv.skip(i as int), t@, mode),
        decreases spans@.len() - i,
    {
        let p = paint_of(spans[i].text.as_slice(), role_color_of(t, spans[i].role), mode);
        assert(sv.skip(i as int).drop_first() =~= sv.skip(i + 1));
        assert(sv.skip(i as int)[0] == spans@[i as int]@);
        let ghost old_out = out@;
        out = concat(out.as_slice(), p.as_slice());
        assert(old_out + (p@ + emit(sv.skip(i + 1), t@, mode)) =~= out@ + emit(sv.skip(i + 1), t@, mode));
        i = i + 1;
    }
    assert(emit(sv.skip(i as int), t@, mode) =~= Seq::<char>::empty());
    assert(out@ + Seq::<char>::empty() =~= out@);
    out
}

/// Appends a span.
pub fn push_span(doc: &mut Vec<Span>, text: Vec<char>, role: Role)
    ensures
        spans_v(final(doc)@) == spans_v(old(doc)@).push(span(text@, role)),
{
    let ghost old_v = spans_v(doc@);
    doc.push(Span { text, role });
    assert(spans_v(doc@) =~= old_v.push(span(text@, role)));
}

} // verus!
