//! The decisions of the command-line front end: the color policy, the
//! metadata reported with JSON output, and the hints shown with errors.

use vstd::prelude::*;
use crate::diagram::{Diagram, DiagramType, DiagramV};
use crate::text::{
    all_digits, chars_of, contains, contains_of, digits_value, find, find_of, is_digit, lines,
    lines_of, slice_of, string_of, trim_end, trim_end_of,
};
use crate::theme::{ColorMode, ThemeType};
use crate::width::{display_width, width_of};

verus! {

// ---------------------------------------------------------------- color

/// When to emit color, as asked on the command line.
#[derive(Debug, Clone, Copy, PartialEq, Eq, Structural)]
pub enum ColorChoice {
    Auto,
    Always,
    Never,
}

/// The facts about the environment that gate color.
#[derive(Debug, Clone, Copy)]
pub struct ColorEnv {
    pub stdout_is_tty: bool,
    pub no_color: bool,
    pub term_dumb: bool,
    pub truecolor: bool,
}

/// JSON output is never colored; `Always` forces color, `Auto` needs a
/// capable terminal; the depth is truecolor when the terminal says so.
pub open spec fn color_mode_for(choice: ColorChoice, json_mode: bool, env: ColorEnv) -> ColorMode {
    let want = match choice {
        ColorChoice::Never => false,
        ColorChoice::Always => true,
        ColorChoice::Auto => env.stdout_is_tty && !env.no_color && !env.term_dumb,
    };
    if json_mode || !want {
        ColorMode::NoColor
    } else if env.truecolor {
        ColorMode::TrueColor
    } else {
        ColorMode::Ansi256
    }
}

/// JSON output is never colored, whatever was asked.
pub proof fn law_json_uncolored(choice: ColorChoice, env: ColorEnv)
    ensures
        color_mode_for(choice, true, env) == ColorMode::NoColor,
{
}

/// `Always` gives color even when `NO_COLOR` is set or the terminal is dumb
/// or not a terminal; `Never` never does.
pub proof fn law_explicit_choice_wins(env: ColorEnv)
    ensures
        color_mode_for(ColorChoice::Always, false, env) != ColorMode::NoColor,
        color_mode_for(ColorChoice::Never, false, env) == ColorMode::NoColor,
{
}

/// Resolves the color mode.
pub fn decide_color_mode(choice: ColorChoice, json_mode: bool, env: &ColorEnv) -> (r: ColorMode)
    ensures
        r == color_mode_for(choice, json_mode, *env),
{
    if json_mode {
        return ColorMode::NoColor;
    }
    let want_color = match choice {
        ColorChoice::Never => false,
        ColorChoice::Always => true,
        ColorChoice::Auto => env.stdout_is_tty && !env.no_color && !env.term_dumb,
    };
    if !want_color {
        return ColorMode::NoColor;
    }
    if env.truecolor {
        ColorMode::TrueColor
    } else {
        ColorMode::Ansi256
    }
}

// ---------------------------------------------------------------- names

pub open spec fn theme_name_spec(t: ThemeType) -> Seq<char> {
    match t {
        ThemeType::Default => "default"@,
        ThemeType::Terra => "terra"@,
        ThemeType::Neon => "neon"@,
        ThemeType::Mono => "mono"@,
        ThemeType::Amber => "amber"@,
        ThemeType::Phosphor => "phosphor"@,
    }
}

/// The name a theme is selected by.
pub fn theme_name(t: ThemeType) -> (r: &'static str)
    ensures
        r@ == theme_name_spec(t),
{
    match t {
        ThemeType::Default => "default",
        ThemeType::Terra => "terra",
        ThemeType::Neon => "neon",
        ThemeType::Mono => "mono",
        ThemeType::Amber => "amber",
        ThemeType::Phosphor => "phosphor",
    }
}

pub open spec fn type_label_spec(t: DiagramType) -> Seq<char> {
    match t {
        DiagramType::Flowchart => "flowchart"@,
        DiagramType::Sequence => "sequence"@,
        DiagramType::Class => "class"@,
        DiagramType::State => "state"@,
        DiagramType::ER => "er"@,
        DiagramType::Pie => "pie"@,
        DiagramType::GitGraph => "gitgraph"@,
        DiagramType::Block => "block"@,
        DiagramType::Treemap => "treemap"@,
        DiagramType::Unknown => "unknown"@,
    }
}

/// The diagram type as reported in JSON metadata: its name in lower case.
pub fn type_label(t: DiagramType) -> (r: &'static str)
    ensures
        r@ == type_label_spec(t),
{
    match t {
        DiagramType::Flowchart => "flowchart",
        DiagramType::Sequence => "sequence",
        DiagramType::Class => "class",
        DiagramType::State => "state",
        DiagramType::ER => "er",
        DiagramType::Pie => "pie",
        DiagramType::GitGraph => "gitgraph",
        DiagramType::Block => "block",
        DiagramType::Treemap => "treemap",
        DiagramType::Unknown => "unknown",
    }
}

// ---------------------------------------------------------------- counts

/// The "nodes" of a diagram in the sense that fits its type.
pub open spec fn node_count_spec(d: DiagramV) -> int {
    match d.diagram_type {
        DiagramType::ER => d.entities.len() as int,
        DiagramType::Sequence => d.participants.len() as int,
        _ => d.nodes.len() as int,
    }
}

/// The connections of a diagram: relationships count too for class and ER
/// diagrams.
pub open spec fn edge_count_spec(d: DiagramV) -> int {
    match d.diagram_type {
        DiagramType::Class | DiagramType::ER => (d.edges.len() + d.relationships.len()) as int,
        _ => d.edges.len() as int,
    }
}

pub fn node_count(d: &Diagram) -> (r: usize)
    ensures
        r == node_count_spec(d@),
{
    match d.diagram_type {
        DiagramType::ER => d.entities.len(),
        DiagramType::Sequence => d.participants.len(),
        _ => d.nodes.len(),
    }
}

pub fn edge_count(d: &Diagram) -> (r: usize)
    requires
        d@.edges.len() + d@.relationships.len() <= usize::MAX,
    ensures
        r == edge_count_spec(d@),
{
    match d.diagram_type {
        DiagramType::Class | DiagramType::ER => d.edges.len() + d.relationships.len(),
        _ => d.edges.len(),
    }
}

// ---------------------------------------------------------------- dimensions

/// The number of lines up to the last one that is not empty.
pub open spec fn used_lines(ls: Seq<Seq<char>>) -> int
    decreases ls.len(),
{
    if ls.len() == 0 {
        0
    } else if ls.last().len() > 0 {
        ls.len() as int
    } else {
        used_lines(ls.drop_last())
    }
}

/// The widest line, in display columns.
pub open spec fn widest_line(ls: Seq<Seq<char>>) -> int
    decreases ls.len(),
{
    if ls.len() == 0 {
        0
    } else {
        let w = display_width(ls.last()) as int;
        let m = widest_line(ls.drop_last());
        if w > m { w } else { m }
    }
}

/// The visible size of rendered output: columns and rows, trailing
/// whitespace and trailing blank lines left out.
pub open spec fn dimensions(s: Seq<char>) -> (int, int) {
    let ls = lines(s).map_values(|l: Seq<char>| trim_end(l));
    let h = used_lines(ls);
    (widest_line(ls.take(h)), h)
}

proof fn lemma_used_lines_bound(ls: Seq<Seq<char>>)
    ensures
        0 <= used_lines(ls) <= ls.len(),
    decreases ls.len(),
{
    if ls.len() > 0 {
        lemma_used_lines_bound(ls.drop_last());
    }
}

/// Measures rendered output.
pub fn output_dimensions(output: &str) -> (r: (usize, usize))
    ensures
        (r.0 as int, r.1 as int) == dimensions(output@),
{
    let c = chars_of(output);
    let raw = lines_of(c.as_slice());
    let ghost ls = lines(output@).map_values(|l: Seq<char>| trim_end(l));
    let mut t: Vec<Vec<char>> = Vec::new();
    let mut i: usize = 0;
    while i < raw.len()
        invariant
            i <= raw@.len(),
            raw@.map_values(|v: Vec<char>| v@) == lines(output@),
            ls == lines(output@).map_values(|l: Seq<char>| trim_end(l)),
            t@.map_values(|v: Vec<char>| v@) == ls.take(i as int),
        decreases raw@.len() - i,
    {
        let ghost before = t@.map_values(|v: Vec<char>| v@);
        assert(raw@[i as int]@ == lines(output@)[i as int]);
        let l = trim_end_of(raw[i].as_slice());
        t.push(l);
        assert(t@.map_values(|v: Vec<char>| v@) =~= before.push(ls[i as int]));
        assert(ls.take(i + 1) =~= ls.take(i as int).push(ls[i as int]));
        i = i + 1;
    }
    assert(ls.take(ls.len() as int) =~= ls);
    let ghost tv = t@.map_values(|v: Vec<char>| v@);
    let mut h = t.len();
    while h > 0 && t[h - 1].len() == 0
        invariant
            h <= t@.len(),
            tv == t@.map_values(|v: Vec<char>| v@),
            used_lines(tv) == used_lines(tv.take(h as int)),
        decreases h,
    {
        assert(tv.take(h as int).drop_last() =~= tv.take(h - 1));
        assert(tv[h - 1] == t@[h - 1]@);
        h = h - 1;
    }
    assert(h > 0 ==> tv.take(h as int).last() == t@[h - 1]@);
    assert(used_lines(tv.take(h as int)) == h);
    let mut w: usize = 0;
    let mut k: usize = 0;
    while k < h
        invariant
            k <= h <= t@.len(),
            tv == t@.map_values(|v: Vec<char>| v@),
            w as int == widest_line(tv.take(k as int)),
        decreases h - k,
    {
        assert(tv.take(k + 1).drop_last() =~= tv.take(k as int));
        assert(tv[k as int] == t@[k as int]@);
        let lw = width_of(t[k].as_slice());
        if lw > w {
            w = lw;
        }
        k = k + 1;
    }
    assert(tv.take(h as int).take(h as int) =~= tv.take(h as int));
    (w, h)
}

// ---------------------------------------------------------------- error positions

/// The index of the first character of `s` from `i` on that is not an ASCII digit.
pub open spec fn first_nondigit(s: Seq<char>, i: int) -> Option<int>
    decreases s.len() - i,
{
    if i < 0 || i >= s.len() {
        None
    } else if !is_digit(s[i]) {
        Some(i)
    } else {
        first_nondigit(s, i + 1)
    }
}

/// The number written right after the first occurrence of `pat` in `e`: the
/// run of digits there, up to the first other character or the end of `e`,
/// when it is not empty and fits in a `usize`.
pub open spec fn number_after(e: Seq<char>, pat: Seq<char>) -> Option<nat> {
    match find(e, pat) {
        Some(idx) => {
            let rest = e.skip(idx + pat.len());
            let end = match first_nondigit(rest, 0) {
                Some(k) => k,
                None => rest.len() as int,
            };
            if end > 0 && digits_value(rest.take(end)) <= usize::MAX {
                Some(digits_value(rest.take(end)))
            } else {
                None
            }
        },
        None => None,
    }
}

/// The number after the first of `pats` that is followed by one.
pub open spec fn first_number(e: Seq<char>, pats: Seq<Seq<char>>) -> Option<usize>
    decreases pats.len(),
{
    if pats.len() == 0 {
        None
    } else {
        match number_after(e, pats[0]) {
            Some(n) => Some(n as usize),
            None => first_number(e, pats.drop_first()),
        }
    }
}

pub open spec fn line_patterns() -> Seq<Seq<char>> {
    seq!["line "@, "at line "@, "line: "@]
}

pub open spec fn column_patterns() -> Seq<Seq<char>> {
    seq!["column "@, "col "@, "position "@]
}

/// The digits of `s` as a `usize`, when they are digits and fit.
fn parse_usize(s: &[char]) -> (r: Option<usize>)
    requires
        all_digits(s@),
    ensures
        r matches Some(v) ==> s@.len() > 0 && v == digits_value(s@),
        r is None ==> s@.len() == 0 || digits_value(s@) > usize::MAX,
{
    if s.len() == 0 {
        return None;
    }
    let mut v: usize = 0;
    let mut i: usize = 0;
    while i < s.len()
        invariant
            i <= s@.len(),
            all_digits(s@),
            v == digits_value(s@.take(i as int)),
        decreases s@.len() - i,
    {
        assert(s@.take(i + 1).drop_last() =~= s@.take(i as int));
        assert(is_digit(s@[i as int]));
        let d = (s[i] as u32 - '0' as u32) as usize;
        if v > (usize::MAX - d) / 10 {
            proof {
                lemma_digits_grow(s@, i as int + 1);
            }
            return None;
        }
        v = v * 10 + d;
        i = i + 1;
    }
    assert(s@.take(s@.len() as int) =~= s@);
    Some(v)
}

/// A longer prefix of digits denotes a number at least as large.
proof fn lemma_digits_grow(s: Seq<char>, i: int)
    requires
        0 <= i <= s.len(),
    ensures
        digits_value(s.take(i)) <= digits_value(s),
    decreases s.len() - i,
{
    if i < s.len() {
        lemma_digits_grow(s, i + 1);
        assert(s.take(i + 1).drop_last() =~= s.take(i));
    } else {
        assert(s.take(i) =~= s);
    }
}

fn first_nondigit_of(s: &[char]) -> (r: Option<usize>)
    ensures
        r matches Some(i) ==> first_nondigit(s@, 0) == Some(i as int) && i < s@.len() && all_digits(s@.take(i as int)),
        r is None ==> first_nondigit(s@, 0) is None && all_digits(s@),
{
    let mut i: usize = 0;
    while i < s.len()
        invariant
            i <= s@.len(),
            first_nondigit(s@, 0) == first_nondigit(s@, i as int),
            all_digits(s@.take(i as int)),
        decreases s@.len() - i,
    {
        if !('0' <= s[i] && s[i] <= '9') {
            return Some(i);
        }
        assert(all_digits(s@.take(i + 1))) by {
            assert forall|k: int| 0 <= k < i + 1 implies is_digit(#[trigger] s@.take(i + 1)[k]) by {
                if k < i {
                    assert(s@.take(i + 1)[k] == s@.take(i as int)[k]);
                }
            }
        }
        i = i + 1;
    }
    assert(s@.take(s@.len() as int) =~= s@);
    None
}

fn number_after_of(e: &[char], pat: &str) -> (r: Option<usize>)
    ensures
        r matches Some(v) ==> number_after(e@, pat@) == Some(v as nat),
        r is None ==> number_after(e@, pat@) is None,
{
    let p = chars_of(pat);
    match find_of(e, p.as_slice()) {
        Some(idx) => {
            let n = e.len();
            let rest = slice_of(e, idx + p.len(), n);
            assert(rest@ =~= e@.skip(idx + p@.len()));
            match first_nondigit_of(rest.as_slice()) {
                Some(end) => {
                    let digits = slice_of(rest.as_slice(), 0, end);
                    assert(digits@ =~= rest@.take(end as int));
                    parse_usize(digits.as_slice())
                },
                None => {
                    assert(rest@.take(rest@.len() as int) =~= rest@);
                    parse_usize(rest.as_slice())
                },
            }
        },
        None => None,
    }
}

/// The line and column numbers an error message mentions, if any.
pub fn parse_error_position(error: &str) -> (r: (Option<usize>, Option<usize>))
    ensures
        r.0 == first_number(error@, line_patterns()),
        r.1 == first_number(error@, column_patterns()),
{
    let e = chars_of(error);
    let line = match number_after_of(e.as_slice(), "line ") {
        Some(n) => Some(n),
        None => match number_after_of(e.as_slice(), "at line ") {
            Some(n) => Some(n),
            None => number_after_of(e.as_slice(), "line: "),
        },
    };
    let col = match number_after_of(e.as_slice(), "column ") {
        Some(n) => Some(n),
        None => match number_after_of(e.as_slice(), "col ") {
            Some(n) => Some(n),
            None => number_after_of(e.as_slice(), "position "),
        },
    };
    proof {
        reveal_with_fuel(first_number, 4);
        let lp = line_patterns();
        assert(lp[0] == "line "@ && lp.drop_first()[0] == "at line "@ && lp.drop_first().drop_first()[0] == "line: "@);
        assert(lp.drop_first() =~= seq!["at line "@, "line: "@]);
        assert(lp.drop_first().drop_first() =~= seq!["line: "@]);
        assert(lp.drop_first().drop_first().drop_first() =~= Seq::<Seq<char>>::empty());
        let cp = column_patterns();
        assert(cp[0] == "column "@ && cp.drop_first()[0] == "col "@ && cp.drop_first().drop_first()[0] == "position "@);
        assert(cp.drop_first() =~= seq!["col "@, "position "@]);
        assert(cp.drop_first().drop_first() =~= seq!["position "@]);
        assert(cp.drop_first().drop_first().drop_first() =~= Seq::<Seq<char>>::empty());
    }
    (line, col)
}

// ---------------------------------------------------------------- hints

/// `str::to_lowercase`: the lower-case form of `s` by the Unicode
/// `Lowercase` property.
pub uninterp spec fn lowercase(s: Seq<char>) -> Seq<char>;

/// `str::to_lowercase`, whose result this library names `lowercase` and
/// states nothing more of: the Unicode case tables it uses are not modelled.
#[verifier::external_body]
fn to_lowercase(s: &str) -> (r: String)
    ensures
        r@ == lowercase(s@),
{
    s.to_lowercase()
}

/// The hint for an error message already in lower case.
pub open spec fn suggestion_spec(lower: Seq<char>) -> Option<Seq<char>> {
    if contains(lower, "unknown diagram type"@) || contains(lower, "parse error"@) {
        Some("check the diagram type keyword: graph, sequenceDiagram, classDiagram, stateDiagram-v2, erDiagram, pie"@)
    } else if contains(lower, "syntax"@) {
        Some("verify Mermaid syntax at https://mermaid.js.org/intro/"@)
    } else if contains(lower, "unexpected token"@) {
        Some("check for typos or invalid characters in the diagram source"@)
    } else if contains(lower, "empty"@) {
        Some("provide non-empty Mermaid diagram source"@)
    } else {
        None
    }
}

fn has(s: &[char], p: &str) -> (r: bool)
    ensures
        r == contains(s@, p@),
{
    let pc = chars_of(p);
    contains_of(s, pc.as_slice())
}

/// The hint for an error message already in lower case.
pub fn suggestion_for(lower: &str) -> (r: Option<String>)
    ensures
        match r {
            Some(s) => suggestion_spec(lower@) == Some(s@),
            None => suggestion_spec(lower@) is None,
        },
{
    let l = chars_of(lower);
    let text = if has(l.as_slice(), "unknown diagram type") || has(l.as_slice(), "parse error") {
        "check the diagram type keyword: graph, sequenceDiagram, classDiagram, stateDiagram-v2, erDiagram, pie"
    } else if has(l.as_slice(), "syntax") {
        "verify Mermaid syntax at https://mermaid.js.org/intro/"
    } else if has(l.as_slice(), "unexpected token") {
        "check for typos or invalid characters in the diagram source"
    } else if has(l.as_slice(), "empty") {
        "provide non-empty Mermaid diagram source"
    } else {
        return None;
    };
    Some(string_of(chars_of(text).as_slice()))
}

/// A helpful hint for an error message, matched case-insensitively.
pub fn generate_suggestion(error: &str) -> (r: Option<String>)
    ensures
        match r {
            Some(s) => suggestion_spec(lowercase(error@)) == Some(s@),
            None => suggestion_spec(lowercase(error@)) is None,
        },
{
    let lower = to_lowercase(error);
    suggestion_for(lower.as_str())
}

} // verus!
