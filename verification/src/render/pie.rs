//! Pie charts: one bar per slice, scaled to the slice's share of the total.
//!
//! A slice's value is read exactly, in units of 10⁻⁹, from a decimal numeral:
//! an optional sign, digits, and at most one decimal point. The shares and
//! their rounding are then computed on those exact integers.

use vstd::prelude::*;
use crate::arith::lemma_round_half_up;
use crate::diagram::{Diagram, Node, NodeV};
use crate::render::lists::newline;
use crate::render::ops::{repeat_char, repeat_char_of, spaces, spaces_of};
use crate::render::style::{Role, Span, SpanV, push_span, span, spans_v};
use crate::text::{
    all_digits, digits_value, is_digit,
    chars_of, concat, decimal, decimal_of, digit, find_char, find_char_of, rfind_char,
    rfind_char_of, slice_of, trim, trim_of,
};
use crate::width::{display_width, width_of};

verus! {

/// One unit of a slice's value is 10⁻⁹; this many units make 1.
pub const UNIT: u128 = 1_000_000_000;

/// Integer parts from this bound up are not read as numbers.
pub const INT_LIMIT: u128 = 1_000_000_000_000_000_000_000_000;

/// The widest bar, in cells.
pub const MAX_BAR: u128 = 40;

/// The decimal digits after the point, as a count of 10⁻⁹ units: the first
/// nine digits, padded with zeros.
pub open spec fn frac_units(f: Seq<char>) -> nat {
    digits_value((f + repeat_char('0', 9)).take(9))
}

/// A numeral without its leading sign.
pub open spec fn unsigned_part(t: Seq<char>) -> Seq<char> {
    if t.len() > 0 && (t[0] == '+' || t[0] == '-') {
        t.drop_first()
    } else {
        t
    }
}

/// The digits before the decimal point of an unsigned numeral.
pub open spec fn int_digits(b: Seq<char>) -> Seq<char> {
    match find_char(b, '.') {
        Some(i) => b.take(i),
        None => b,
    }
}

/// The digits after the decimal point of an unsigned numeral.
pub open spec fn frac_digits(b: Seq<char>) -> Seq<char> {
    match find_char(b, '.') {
        Some(i) => b.skip(i + 1),
        None => Seq::empty(),
    }
}

/// The value of a slice's numeral in 10⁻⁹ units. A negative number counts as
/// zero, and so does text that is not a numeral (or whose integer part
/// reaches `INT_LIMIT`).
pub open spec fn slice_value(t: Seq<char>) -> nat {
    let b = unsigned_part(t);
    let ip = int_digits(b);
    let fp = frac_digits(b);
    if t.len() > 0 && t[0] == '-' {
        0
    } else if ip.len() + fp.len() == 0 || !all_digits(ip) || !all_digits(fp) || digits_value(ip)
        >= INT_LIMIT {
        0
    } else {
        digits_value(ip) * (UNIT as nat) + frac_units(fp)
    }
}

/// A slice's label and value, read from a node label `label: value`: split at
/// the last colon, both sides trimmed. Without a colon the value is zero.
pub open spec fn pie_slice(label: Seq<char>) -> (Seq<char>, nat) {
    match rfind_char(label, ':') {
        Some(i) => (trim(label.take(i)), slice_value(trim(label.skip(i + 1)))),
        None => (label, 0),
    }
}

pub open spec fn pie_slices(nodes: Seq<NodeV>) -> Seq<(Seq<char>, nat)> {
    nodes.map_values(|n: NodeV| pie_slice(n.label))
}

/// `x`, or `u128::MAX` when it is larger.
pub open spec fn cap(x: nat) -> nat {
    if x > u128::MAX { u128::MAX as nat } else { x }
}

/// The sum of the slice values, capped at `u128::MAX`.
pub open spec fn pie_total(s: Seq<(Seq<char>, nat)>) -> nat
    decreases s.len(),
{
    if s.len() == 0 {
        0
    } else {
        cap(pie_total(s.drop_last()) + s.last().1)
    }
}

/// The widest label, in display columns.
pub open spec fn label_width(s: Seq<(Seq<char>, nat)>) -> nat
    decreases s.len(),
{
    if s.len() == 0 {
        0
    } else {
        let w = display_width(s.last().0) as nat;
        let m = label_width(s.drop_last());
        if w > m { w } else { m }
    }
}

/// The bar length of a share `v / t`: `40 · v / t` rounded half up, at most 40.
pub open spec fn bar_len(v: nat, t: nat) -> nat {
    let b = (80 * v + t) / (2 * t);
    if b > 40 { 40 } else { b }
}

/// The share `v / t` in tenths of a percent, rounded half to even, as `{:.1}`
/// rounds.
pub open spec fn tenths(v: nat, t: nat) -> nat {
    let q = 1000 * v / t;
    let r = 1000 * v % t;
    if 2 * r > t {
        q + 1
    } else if 2 * r < t {
        q
    } else if q % 2 == 0 {
        q
    } else {
        q + 1
    }
}

/// A count of tenths as a percentage with one decimal: `12.5%`.
pub open spec fn percent_text(x: nat) -> Seq<char> {
    decimal(x / 10) + seq!['.', digit(x % 10), '%']
}

/// The bar glyph and the separator between label and bar.
pub open spec fn pie_glyphs(ascii: bool) -> (char, char) {
    if ascii { ('#', '|') } else { ('█', '┃') }
}

/// One slice's line: the label right-aligned to `lw` columns, the separator
/// and bar, then the percentage.
pub open spec fn slice_spans(label: Seq<char>, v: nat, t: nat, lw: nat, ascii: bool) -> Seq<SpanV> {
    let (bar, sep) = pie_glyphs(ascii);
    let w = display_width(label) as int;
    seq![
        span(spaces(if lw >= w { lw - w } else { 0 }), Role::Plain),
        span(label, Role::NodeFg),
        span(seq![sep] + repeat_char(bar, bar_len(v, t) as int), Role::Edge),
        span(seq![' '], Role::Plain),
        span(percent_text(tenths(v, t)), Role::EdgeLabel),
        newline(),
    ]
}

pub open spec fn slices_spans(s: Seq<(Seq<char>, nat)>, t: nat, lw: nat, ascii: bool) -> Seq<SpanV>
    decreases s.len(),
{
    if s.len() == 0 {
        Seq::empty()
    } else {
        slices_spans(s.drop_last(), t, lw, ascii) + slice_spans(s.last().0, s.last().1, t, lw, ascii)
    }
}

/// A pie chart: one line per slice, or a notice when the total is zero.
pub open spec fn pie_doc(nodes: Seq<NodeV>, ascii: bool) -> Seq<SpanV> {
    let s = pie_slices(nodes);
    let t = pie_total(s);
    if t == 0 {
        seq![span("No data to display\n"@, Role::Plain)]
    } else {
        slices_spans(s, t, label_width(s), ascii)
    }
}

// ---------------------------------------------------------------- lemmas

/// Bars are clamped to 40 cells, negative values count as zero, and a share
/// of at most the whole is at most 100.0%.
pub proof fn law_pie_clamps(v: nat, t: nat, numeral: Seq<char>)
    requires
        t > 0,
        v <= t,
        numeral.len() > 0 && numeral[0] == '-',
    ensures
        bar_len(v, t) <= 40,
        slice_value(numeral) == 0,
        tenths(v, t) <= 1000,
{
    lemma_tenths_bound(v, t);
}

proof fn lemma_digits_prefix(s: Seq<char>, i: int)
    requires
        0 <= i <= s.len(),
    ensures
        digits_value(s.take(i)) <= digits_value(s),
    decreases s.len(),
{
    if i < s.len() {
        assert(s.drop_last().take(i) =~= s.take(i));
        lemma_digits_prefix(s.drop_last(), i);
    } else {
        assert(s.take(i) =~= s);
    }
}

proof fn lemma_digits_bound(s: Seq<char>, k: nat, p: nat)
    requires
        all_digits(s),
        s.len() == k,
        p == pow10(k),
    ensures
        digits_value(s) < p,
    decreases k,
{
    if k > 0 {
        let s2 = s.drop_last();
        assert(all_digits(s2)) by {
            assert forall|i: int| 0 <= i < s2.len() implies is_digit(#[trigger] s2[i]) by {
                assert(s2[i] == s[i]);
            }
        }
        assert(is_digit(s[s.len() - 1]));
        lemma_digits_bound(s2, (k - 1) as nat, pow10((k - 1) as nat));
    }
}

pub open spec fn pow10(k: nat) -> nat
    decreases k,
{
    if k == 0 { 1 } else { 10 * pow10((k - 1) as nat) }
}

/// A share of at most the whole is at most 1000 tenths.
proof fn lemma_tenths_bound(v: nat, t: nat)
    requires
        t > 0,
        v <= t,
    ensures
        tenths(v, t) <= 1000,
{
    let a = 1000 * v;
    let q = (a / t) as int;
    let r = (a % t) as int;
    vstd::arithmetic::div_mod::lemma_fundamental_div_mod(a as int, t as int);
    assert(a == t * q + r);
    assert(0 <= r < t);
    assert(q <= 1000) by (nonlinear_arith)
        requires a == t * q + r, 0 <= r, t > 0, a == 1000 * v, v <= t;
    if q == 1000 {
        assert(r == 0) by (nonlinear_arith)
            requires a == t * q + r, q == 1000, a == 1000 * v, v <= t, 0 <= r;
    }
}

/// Every slice value is at most the capped total, and the totals of longer
/// prefixes are no smaller.
proof fn lemma_total_bounds(s: Seq<(Seq<char>, nat)>, i: int)
    requires
        0 <= i < s.len(),
        forall|k: int| 0 <= k < s.len() ==> #[trigger] s[k].1 <= u128::MAX,
    ensures
        s[i].1 <= pie_total(s),
    decreases s.len(),
{
    if i == s.len() - 1 {
    } else {
        let s2 = s.drop_last();
        assert(forall|k: int| 0 <= k < s2.len() ==> #[trigger] s2[k].1 == s[k].1);
        lemma_total_bounds(s2, i);
    }
}

// ---------------------------------------------------------------- exec

/// The value of a digit string, when it is one and is below `INT_LIMIT`.
fn parse_digits(s: &[char]) -> (r: Option<u128>)
    ensures
        r matches Some(v) ==> all_digits(s@) && v == digits_value(s@) && v < INT_LIMIT,
        r is None ==> !all_digits(s@) || digits_value(s@) >= INT_LIMIT,
{
    let mut v: u128 = 0;
    let mut i: usize = 0;
    while i < s.len()
        invariant
            i <= s@.len(),
            all_digits(s@.take(i as int)),
            v == digits_value(s@.take(i as int)),
            v < INT_LIMIT,
        decreases s@.len() - i,
    {
        let c = s[i];
        assert(s@.take(i + 1).drop_last() =~= s@.take(i as int));
        if !('0' <= c && c <= '9') {
            assert(!is_digit(s@[i as int]));
            return None;
        }
        let d = (c as u32 - '0' as u32) as u128;
        v = v * 10 + d;
        assert(all_digits(s@.take(i + 1))) by {
            assert forall|k: int| 0 <= k < i + 1 implies is_digit(#[trigger] s@.take(i + 1)[k]) by {
                if k < i {
                    assert(s@.take(i + 1)[k] == s@.take(i as int)[k]);
                }
            }
        }
        if v >= INT_LIMIT {
            proof {
                lemma_digits_prefix(s@, i + 1);
            }
            return None;
        }
        i = i + 1;
    }
    assert(s@.take(s@.len() as int) =~= s@);
    Some(v)
}

fn all_digits_of(s: &[char]) -> (r: bool)
    ensures
        r == all_digits(s@),
{
    let mut i: usize = 0;
    while i < s.len()
        invariant
            i <= s@.len(),
            forall|k: int| 0 <= k < i ==> is_digit(#[trigger] s@[k]),
        decreases s@.len() - i,
    {
        if !('0' <= s[i] && s[i] <= '9') {
            return false;
        }
        i = i + 1;
    }
    true
}

/// The value of a slice's (trimmed) numeral, in 10⁻⁹ units.
fn slice_value_of(t: &[char]) -> (r: u128)
    ensures
        r == slice_value(t@),
        r < INT_LIMIT * UNIT + UNIT,
{
    let n = t.len();
    if n > 0 && t[0] == '-' {
        return 0;
    }
    let b = if n > 0 && t[0] == '+' { slice_of(t, 1, n) } else { slice_of(t, 0, n) };
    assert(b@ =~= unsigned_part(t@));
    let bn = b.len();
    let (ip, fp) = match find_char_of(b.as_slice(), '.') {
        Some(i) => (slice_of(b.as_slice(), 0, i), slice_of(b.as_slice(), i + 1, bn)),
        None => (slice_of(b.as_slice(), 0, bn), Vec::new()),
    };
    assert(ip@ =~= int_digits(b@));
    assert(fp@ =~= frac_digits(b@));
    if ip.len() + fp.len() == 0 {
        return 0;
    }
    let iv = match parse_digits(ip.as_slice()) {
        Some(v) => v,
        None => {
            return 0;
        },
    };
    // The first nine fraction digits, padded with zeros.
    let mut g: Vec<char> = Vec::new();
    let mut k: usize = 0;
    let ghost padded = fp@ + repeat_char('0', 9);
    while k < 9
        invariant
            k <= 9,
            g@ == padded.take(k as int),
            padded == fp@ + repeat_char('0', 9),
        decreases 9 - k,
    {
        if k < fp.len() {
            g.push(fp[k]);
        } else {
            g.push('0');
        }
        assert(g@ =~= padded.take(k + 1));
        k = k + 1;
    }
    let fv = if fp.len() == 0 {
        0
    } else {
        if !all_digits_of(fp.as_slice()) {
            return 0;
        }
        match parse_digits(g.as_slice()) {
            Some(x) => x,
            None => 0,
        }
    };
    proof {
        if fp@.len() == 0 {
            assert(padded =~= repeat_char('0', 9));
            assert(all_digits(padded.take(9)));
            assert(digits_value(padded.take(9)) == 0) by {
                lemma_zero_digits(padded.take(9));
            }
        } else {
            assert(all_digits(fp@));
        }
        assert(all_digits(g@)) by {
            assert forall|j: int| 0 <= j < g@.len() implies is_digit(#[trigger] g@[j]) by {
                if j < fp@.len() {
                    assert(g@[j] == fp@[j]);
                }
            }
        }
        assert(pow10(9) == 1_000_000_000) by {
            reveal_with_fuel(pow10, 10);
        }
        lemma_digits_bound(g@, 9, pow10(9));
    }
    assert(fv == frac_units(fp@));
    iv * UNIT + fv
}

proof fn lemma_zero_digits(s: Seq<char>)
    requires
        forall|i: int| 0 <= i < s.len() ==> #[trigger] s[i] == '0',
    ensures
        digits_value(s) == 0,
    decreases s.len(),
{
    if s.len() > 0 {
        lemma_zero_digits(s.drop_last());
    }
}

/// A slice's label and value, read from a node's label.
fn pie_slice_of(label: &[char]) -> (r: (Vec<char>, u128))
    ensures
        (r.0@, r.1 as nat) == pie_slice(label@),
        r.1 < INT_LIMIT * UNIT + UNIT,
{
    let n = label.len();
    match rfind_char_of(label, ':') {
        Some(i) => {
            let l = slice_of(label, 0, i);
            let v = slice_of(label, i + 1, n);
            assert(l@ =~= label@.take(i as int));
            assert(v@ =~= label@.skip(i + 1));
            let tv = trim_of(v.as_slice());
            (trim_of(l.as_slice()), slice_value_of(tv.as_slice()))
        },
        None => (slice_of(label, 0, n), 0),
    }
}

/// Renders a pie chart from the diagram's nodes, each labelled `label: value`.
pub fn render_pie(d: &Diagram, ascii: bool) -> (r: Vec<Span>)
    ensures
        spans_v(r@) == pie_doc(d@.nodes, ascii),
{
    let ghost nv = d@.nodes;
    let ghost sv = pie_slices(nv);
    let nodes = &d.nodes;
    let n = nodes.len();
    let mut labels: Vec<Vec<char>> = Vec::new();
    let mut values: Vec<u128> = Vec::new();
    let mut i: usize = 0;
    while i < n
        invariant
            n == nodes@.len(),
            nv == nodes@.map_values(|x: Node| x@),
            sv == pie_slices(nv),
            i <= n,
            labels@.len() == i,
            values@.len() == i,
            forall|k: int| 0 <= k < i ==> (#[trigger] labels@[k]@, values@[k] as nat) == sv[k],
            forall|k: int| 0 <= k < i ==> #[trigger] values@[k] < INT_LIMIT * UNIT + UNIT,
        decreases n - i,
    {
        let lc = chars_of(nodes[i].label.as_str());
        let (l, v) = pie_slice_of(lc.as_slice());
        assert(nv[i as int].label == nodes@[i as int].label@);
        labels.push(l);
        values.push(v);
        i = i + 1;
    }
    assert forall|k: int| 0 <= k < n implies values@[k] as nat == (#[trigger] sv[k]).1 by {
        assert((labels@[k]@, values@[k] as nat) == sv[k]);
    }
    // The total, capped at u128::MAX.
    let mut t: u128 = 0;
    i = 0;
    while i < n
        invariant
            n == values@.len(),
            n == sv.len(),
            i <= n,
            forall|k: int| 0 <= k < n ==> values@[k] as nat == (#[trigger] sv[k]).1,
            t as nat == pie_total(sv.take(i as int)),
        decreases n - i,
    {
        assert(sv.take(i + 1).drop_last() =~= sv.take(i as int));
        let v = values[i];
        if v > u128::MAX - t {
            t = u128::MAX;
        } else {
            t = t + v;
        }
        i = i + 1;
    }
    assert(sv.take(n as int) =~= sv);
    let mut doc: Vec<Span> = Vec::new();
    if t == 0 {
        push_span(&mut doc, chars_of("No data to display\n"), Role::Plain);
        assert(spans_v(doc@) =~= pie_doc(nv, ascii));
        return doc;
    }
    // The widest label.
    let mut lw: usize = 0;
    i = 0;
    while i < n
        invariant
            n == labels@.len(),
            n == sv.len(),
            i <= n,
            forall|k: int| 0 <= k < n ==> (#[trigger] labels@[k])@ == sv[k].0,
            lw as nat == label_width(sv.take(i as int)),
        decreases n - i,
    {
        assert(sv.take(i + 1).drop_last() =~= sv.take(i as int));
        let w = width_of(labels[i].as_slice());
        if w > lw {
            lw = w;
        }
        i = i + 1;
    }
    assert(sv.take(n as int) =~= sv);
    proof {
        assert forall|k: int| 0 <= k < sv.len() implies #[trigger] sv[k].1 <= u128::MAX by {
            assert(values@[k] as nat == sv[k].1);
        }
    }
    let (bar, sep) = if ascii { ('#', '|') } else { ('█', '┃') };
    i = 0;
    assert(spans_v(doc@) =~= slices_spans(sv.take(0), t as nat, lw as nat, ascii));
    while i < n
        invariant
            n == labels@.len(),
            n == values@.len(),
            n == sv.len(),
            i <= n,
            t > 0,
            t as nat == pie_total(sv),
            lw as nat == label_width(sv),
            (bar, sep) == pie_glyphs(ascii),
            forall|k: int| 0 <= k < n ==> (#[trigger] labels@[k])@ == sv[k].0,
            forall|k: int| 0 <= k < n ==> values@[k] as nat == (#[trigger] sv[k]).1,
            forall|k: int| 0 <= k < n ==> #[trigger] values@[k] < INT_LIMIT * UNIT + UNIT,
            forall|k: int| 0 <= k < sv.len() ==> #[trigger] sv[k].1 <= u128::MAX,
            spans_v(doc@) == slices_spans(sv.take(i as int), t as nat, lw as nat, ascii),
        decreases n - i,
    {
        let ghost before = spans_v(doc@);
        assert(sv.take(i + 1).drop_last() =~= sv.take(i as int));
        let v = values[i];
        proof {
            lemma_total_bounds(sv, i as int);
        }
        assert(v <= t);
        // Bar: 40·v/t rounded half up.
        let a = 40 * v;
        let q = a / t;
        let rem = a % t;
        let mut b = if rem >= t - rem { q + 1 } else { q };
        proof {
            lemma_round_half_up(a as nat, t as nat);
            assert(2 * (a as nat) + t == 80 * v + t);
        }
        if b > 40 {
            b = 40;
        }
        // Percentage: 1000·v/t tenths, rounded half to even.
        let a2 = 1000 * v;
        let q2 = a2 / t;
        let r2 = a2 % t;
        let x = if r2 > t - r2 {
            q2 + 1
        } else if r2 < t - r2 {
            q2
        } else if q2 % 2 == 0 {
            q2
        } else {
            q2 + 1
        };
        proof {
            lemma_tenths_bound(v as nat, t as nat);
        }
        assert(x == tenths(v as nat, t as nat));
        let w = width_of(labels[i].as_slice());
        proof {
            lemma_label_width_max(sv, i as int);
        }
        push_span(&mut doc, spaces_of(lw - w), Role::Plain);
        push_span(&mut doc, copy_label(&labels[i]), Role::NodeFg);
        let s1 = vec![sep];
        let bars = repeat_char_of(bar, b as usize);
        let sb = concat(s1.as_slice(), bars.as_slice());
        assert(s1@ =~= seq![sep]);
        push_span(&mut doc, sb, Role::Edge);
        let sp = chars_of(" ");
        proof {
            reveal_strlit(" ");
        }
        assert(sp@ =~= seq![' ']);
        push_span(&mut doc, sp, Role::Plain);
        let ip = decimal_of((x / 10) as u64);
        let tail = vec!['.', digit_char((x % 10) as u64), '%'];
        assert(tail@ =~= seq!['.', digit((x % 10) as nat), '%']);
        let pct = concat(ip.as_slice(), tail.as_slice());
        assert(pct@ == percent_text(x as nat));
        push_span(&mut doc, pct, Role::EdgeLabel);
        let nl = vec!['\n'];
        assert(nl@ =~= seq!['\n']);
        push_span(&mut doc, nl, Role::Plain);
        assert(b == bar_len(v as nat, t as nat));
        assert(sb@ == seq![sep] + repeat_char(bar, bar_len(v as nat, t as nat) as int));
        assert(spans_v(doc@) =~= before + slice_spans(sv[i as int].0, sv[i as int].1, t as nat, lw as nat, ascii));
        i = i + 1;
    }
    assert(sv.take(n as int) =~= sv);
    doc
}

fn copy_label(l: &Vec<char>) -> (r: Vec<char>)
    ensures
        r@ == l@,
{
    crate::text::copy_of(l.as_slice())
}

fn digit_char(d: u64) -> (r: char)
    requires
        d < 10,
    ensures
        r == digit(d as nat),
{
    let v = decimal_of(d);
    v[0]
}

proof fn lemma_label_width_max(s: Seq<(Seq<char>, nat)>, i: int)
    requires
        0 <= i < s.len(),
    ensures
        display_width(s[i].0) <= label_width(s),
    decreases s.len(),
{
    if i < s.len() - 1 {
        lemma_label_width_max(s.drop_last(), i);
        assert(s.drop_last()[i] == s[i]);
    }
}

} // verus!
