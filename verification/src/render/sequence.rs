//! Sequence diagrams: participant heads, lifelines and one line per message.

use vstd::prelude::*;
use crate::arith::{max_int, sadd, sat_add, sat_mul, smul};
use crate::diagram::{Diagram, Edge, EdgeStyle, EdgeV};
use crate::render::lists::newline;
use crate::render::ops::{pad, pad_string, spaces, spaces_of, repeat_char, repeat_char_of};
use crate::render::style::{Role, Span, SpanV, plain, push_span, span, spans_v};
use crate::render::canvas::{joined, lemma_plain_add, lemma_plain_one};
use crate::text::{chars_of, slice_of, string_is, trim_end, trim_end_of};
use crate::width::{display_width, width_of};

verus! {

/// The widest participant name, at least `w`.
pub open spec fn widest(ps: Seq<Seq<char>>, w: int) -> int
    decreases ps.len(),
{
    if ps.len() == 0 {
        w
    } else {
        max_int(widest(ps.drop_last(), w), display_width(ps.last()) as int)
    }
}

/// The width of a participant's column: the widest name (at least 8) plus 4.
pub open spec fn participant_width(ps: Seq<Seq<char>>) -> int {
    sat_add(max_int(widest(ps, 0), 8), 4)
}

pub const GAP: usize = 6;

/// The participant heads, centred in their columns.
pub open spec fn head_spans(ps: Seq<Seq<char>>, n: int, pw: int) -> Seq<SpanV>
    decreases ps.len(),
{
    if ps.len() == 0 {
        Seq::empty()
    } else {
        let i = ps.len() - 1;
        head_spans(ps.drop_last(), n, pw) + seq![span(pad(ps.last(), pw, false), Role::NodeFg)] + if i < n
            - 1 {
            seq![span(spaces(6), Role::Plain)]
        } else {
            Seq::empty()
        }
    }
}

/// The lifelines, one bar in the middle of each column.
pub open spec fn lifeline_spans(k: int, n: int, pw: int, bar: char) -> Seq<SpanV>
    decreases k,
{
    if k <= 0 {
        Seq::empty()
    } else {
        let i = k - 1;
        lifeline_spans(k - 1, n, pw, bar) + seq![
            span(spaces(pw / 2), Role::Plain),
            span(seq![bar], Role::Edge),
            span(spaces(pw - pw / 2 - 1), Role::Plain),
        ] + if i < n - 1 {
            seq![span(spaces(6), Role::Plain)]
        } else {
            Seq::empty()
        }
    }
}

/// The index of the first participant named `p` (0 when there is none).
pub open spec fn lane_of(ps: Seq<Seq<char>>, p: Seq<char>, i: int) -> int
    decreases ps.len() - i,
{
    if i < 0 || i >= ps.len() {
        0
    } else if ps[i] == p {
        i
    } else {
        lane_of(ps, p, i + 1)
    }
}

/// `line` with `content` written over it from column `start`, as far as it reaches.
pub open spec fn overwrite(line: Seq<char>, start: int, content: Seq<char>) -> Seq<char> {
    Seq::new(line.len(), |k: int| if start <= k < start + content.len() { content[k - start] } else { line[k] })
}

/// The glyphs of a message line: solid, dashed, right head, left head,
/// sender on the left, sender on the right, self message.
pub open spec fn seq_glyphs(ascii: bool) -> (char, char, char, char, char, char, char) {
    if ascii {
        ('-', '.', '>', '<', '|', '|', '@')
    } else {
        ('─', '┄', '▶', '◀', '├', '┤', '↺')
    }
}

/// The arrow line of a message, before trailing blanks are trimmed.
pub open spec fn message_line(fc: int, tc: int, from_idx: int, to_idx: int, dotted: bool, ascii: bool) -> Seq<char> {
    let (solid, dashed, head_r, head_l, conn_from, conn_to, self_msg) = seq_glyphs(ascii);
    let lo = if fc <= tc { fc } else { tc };
    let hi = if fc <= tc { tc } else { fc };
    let lc = if dotted { dashed } else { solid };
    let blank = spaces(sat_add(hi, 1));
    if from_idx == to_idx {
        overwrite(blank, fc, seq![self_msg])
    } else {
        let run = if hi > lo + 1 { overwrite(blank, lo + 1, repeat_char(lc, hi - lo - 1)) } else { blank };
        if from_idx < to_idx {
            overwrite(overwrite(run, fc, seq![conn_from]), tc, seq![head_r])
        } else {
            overwrite(overwrite(run, fc, seq![conn_to]), tc, seq![head_l])
        }
    }
}

/// The number of leading spaces of `s`.
pub open spec fn leading_spaces(s: Seq<char>) -> int
    decreases s.len(),
{
    if s.len() == 0 || s[0] != ' ' {
        0
    } else {
        1 + leading_spaces(s.drop_first())
    }
}

/// One message: its arrow line (leading blanks uncolored), then its label.
pub open spec fn message_spans(e: EdgeV, ps: Seq<Seq<char>>, pw: int, ascii: bool) -> Seq<SpanV> {
    let lane = sat_add(pw, 6);
    let fi = lane_of(ps, e.from, 0);
    let ti = lane_of(ps, e.to, 0);
    let fc = sat_add(sat_mul(fi, lane), pw / 2);
    let tc = sat_add(sat_mul(ti, lane), pw / 2);
    let line = trim_end(message_line(fc, tc, fi, ti, e.style == EdgeStyle::Dotted, ascii));
    let k = leading_spaces(line);
    let label = match e.label {
        Some(l) => if l.len() > 0 {
            seq![span(" "@, Role::Plain), span(l, Role::EdgeLabel)]
        } else {
            Seq::empty()
        },
        None => Seq::empty(),
    };
    seq![span(line.take(k), Role::Plain), span(line.skip(k), Role::Edge)] + label + seq![newline()]
}

pub open spec fn message_spans_all(es: Seq<EdgeV>, ps: Seq<Seq<char>>, pw: int, ascii: bool) -> Seq<SpanV>
    decreases es.len(),
{
    if es.len() == 0 {
        Seq::empty()
    } else {
        message_spans_all(es.drop_last(), ps, pw, ascii) + message_spans(es.last(), ps, pw, ascii)
    }
}

/// A sequence diagram: heads, lifelines, a blank line, then the messages;
/// nothing at all when there are no participants.
pub open spec fn sequence_doc(ps: Seq<Seq<char>>, es: Seq<EdgeV>, ascii: bool) -> Seq<SpanV> {
    if ps.len() == 0 {
        Seq::empty()
    } else {
        let pw = participant_width(ps);
        let bar = if ascii { '|' } else { '│' };
        head_spans(ps, ps.len() as int, pw) + seq![newline()] + lifeline_spans(ps.len() as int, ps.len() as int, pw, bar)
            + seq![span(seq!['\n', '\n'], Role::Plain)] + message_spans_all(es, ps, pw, ascii)
    }
}

/// A message's arrow line: the sender's connector at the sender's column and
/// the arrow head at the receiver's, the solid or dashed line strictly
/// between them and blanks elsewhere; a message to oneself is one loop glyph
/// at its column. The line ends at the further of the two columns.
pub proof fn law_message_line(fc: int, tc: int, from_idx: int, to_idx: int, dotted: bool, ascii: bool)
    requires
        0 <= fc,
        0 <= tc,
        fc < usize::MAX,
        tc < usize::MAX,
        (from_idx == to_idx) == (fc == tc),
    ensures
        ({
            let l = message_line(fc, tc, from_idx, to_idx, dotted, ascii);
            let (solid, dashed, head_r, head_l, conn_from, conn_to, self_msg) = seq_glyphs(ascii);
            let lo = if fc <= tc { fc } else { tc };
            let hi = if fc <= tc { tc } else { fc };
            &&& l.len() == hi + 1
            &&& from_idx == to_idx ==> l[fc] == self_msg && forall|k: int| 0 <= k < fc ==> l[k] == ' '
            &&& from_idx != to_idx ==> {
                &&& l[fc] == (if from_idx < to_idx { conn_from } else { conn_to })
                &&& l[tc] == (if from_idx < to_idx { head_r } else { head_l })
                &&& forall|k: int| lo < k < hi ==> l[k] == (if dotted { dashed } else { solid })
                &&& forall|k: int| 0 <= k < lo ==> l[k] == ' '
            }
        }),
{
    let (solid, dashed, head_r, head_l, conn_from, conn_to, self_msg) = seq_glyphs(ascii);
    let lo = if fc <= tc { fc } else { tc };
    let hi = if fc <= tc { tc } else { fc };
    let lc = if dotted { dashed } else { solid };
    let blank = spaces(sat_add(hi, 1));
    assert(sat_add(hi, 1) == hi + 1);
    if from_idx != to_idx {
        let run = if hi > lo + 1 { overwrite(blank, lo + 1, repeat_char(lc, hi - lo - 1)) } else { blank };
        assert(run.len() == hi + 1);
        assert forall|k: int| lo < k < hi implies run[k] == lc by {}
        assert forall|k: int| 0 <= k < lo implies run[k] == ' ' by {}
    }
}

/// `line` with `content` written over it from column `start`.
pub fn overwrite_at(line: &mut Vec<char>, start: usize, content: &[char])
    ensures
        final(line)@ == overwrite(old(line)@, start as int, content@),
{
    let ghost orig = line@;
    let mut i: usize = 0;
    while i < content.len()
        invariant
            i <= content@.len(),
            line@.len() == orig.len(),
            forall|k: int| 0 <= k < line@.len() ==> #[trigger] line@[k] == if start <= k < start + i {
                content@[k - start]
            } else {
                orig[k]
            },
        decreases content@.len() - i,
    {
        if start <= line.len() && i < line.len() - start {
            line[start + i] = content[i];
        }
        i = i + 1;
    }
    assert(line@ =~= overwrite(orig, start as int, content@));
}

fn lane_of_exec(ps: &Vec<String>, p: &String) -> (r: usize)
    ensures
        r as int == lane_of(ps@.map_values(|s: String| s@), p@, 0),
{
    let ghost pv = ps@.map_values(|s: String| s@);
    let pc = chars_of(p.as_str());
    let mut i: usize = 0;
    while i < ps.len()
        invariant
            pv == ps@.map_values(|s: String| s@),
            pc@ == p@,
            i <= ps@.len(),
            lane_of(pv, p@, 0) == lane_of(pv, p@, i as int),
        decreases ps@.len() - i,
    {
        assert(pv[i as int] == ps@[i as int]@);
        if string_is(&ps[i], pc.as_slice()) {
            return i;
        }
        i = i + 1;
    }
    0
}

fn leading_spaces_of(s: &[char]) -> (k: usize)
    ensures
        k as int == leading_spaces(s@),
        k <= s@.len(),
{
    let mut k: usize = 0;
    assert(s@.skip(0) =~= s@);
    while k < s.len() && s[k] == ' '
        invariant
            k <= s@.len(),
            leading_spaces(s@) == k + leading_spaces(s@.skip(k as int)),
        decreases s@.len() - k,
    {
        assert(s@.skip(k as int).drop_first() =~= s@.skip(k + 1));
        k = k + 1;
    }
    k
}

fn push_message(doc: &mut Vec<Span>, e: &Edge, ps: &Vec<String>, pw: usize, ascii: bool)
    ensures
        spans_v(final(doc)@) == spans_v(old(doc)@) + message_spans(e@, ps@.map_values(|s: String| s@), pw as int, ascii),
{
    let ghost before = spans_v(doc@);
    let (solid, dashed, head_r, head_l, conn_from, conn_to, self_msg) = if ascii {
        ('-', '.', '>', '<', '|', '|', '@')
    } else {
        ('─', '┄', '▶', '◀', '├', '┤', '↺')
    };
    let lane = sadd(pw, GAP);
    let fi = lane_of_exec(ps, &e.from);
    let ti = lane_of_exec(ps, &e.to);
    let fc = sadd(smul(fi, lane), pw / 2);
    let tc = sadd(smul(ti, lane), pw / 2);
    let lo = if fc <= tc { fc } else { tc };
    let hi = if fc <= tc { tc } else { fc };
    let lc = if e.style == EdgeStyle::Dotted { dashed } else { solid };
    let mut line = spaces_of(sadd(hi, 1));
    if fi == ti {
        let g = vec![self_msg];
        assert(g@ =~= seq![self_msg]);
        overwrite_at(&mut line, fc, g.as_slice());
    } else {
        if hi - lo > 1 {
            overwrite_at(&mut line, lo + 1, repeat_char_of(lc, hi - lo - 1).as_slice());
        }
        if fi < ti {
            let g1 = vec![conn_from];
            let g2 = vec![head_r];
            assert(g1@ =~= seq![conn_from] && g2@ =~= seq![head_r]);
            overwrite_at(&mut line, fc, g1.as_slice());
            overwrite_at(&mut line, tc, g2.as_slice());
        } else {
            let g1 = vec![conn_to];
            let g2 = vec![head_l];
            assert(g1@ =~= seq![conn_to] && g2@ =~= seq![head_l]);
            overwrite_at(&mut line, fc, g1.as_slice());
            overwrite_at(&mut line, tc, g2.as_slice());
        }
    }
    assert(line@ == message_line(fc as int, tc as int, fi as int, ti as int, e.style == EdgeStyle::Dotted, ascii));
    let t = trim_end_of(line.as_slice());
    let k = leading_spaces_of(t.as_slice());
    let n = t.len();
    let a = slice_of(t.as_slice(), 0, k);
    let b = slice_of(t.as_slice(), k, n);
    assert(a@ =~= t@.take(k as int));
    assert(b@ =~= t@.skip(k as int));
    push_span(doc, a, Role::Plain);
    push_span(doc, b, Role::Edge);
    let ghost mid = spans_v(doc@);
    match &e.label {
        Some(l) => {
            let lc = chars_of(l.as_str());
            if lc.len() > 0 {
                push_span(doc, chars_of(" "), Role::Plain);
                push_span(doc, lc, Role::EdgeLabel);
            }
        },
        None => {},
    }
    let nl = vec!['\n'];
    assert(nl@ =~= seq!['\n']);
    push_span(doc, nl, Role::Plain);
    assert(spans_v(doc@) =~= before + message_spans(e@, ps@.map_values(|s: String| s@), pw as int, ascii));
}

pub fn render_sequence(d: &Diagram, ascii: bool) -> (r: Vec<Span>)
    ensures
        spans_v(r@) == sequence_doc(d@.participants, d@.edges, ascii),
{
    let mut doc: Vec<Span> = Vec::new();
    assert(spans_v(doc@) =~= Seq::<SpanV>::empty());
    let ps = &d.participants;
    let ghost pv = d@.participants;
    let n = ps.len();
    if n == 0 {
        return doc;
    }
    let mut w: usize = 0;
    let mut i: usize = 0;
    while i < n
        invariant
            n == ps@.len(),
            pv == ps@.map_values(|s: String| s@),
            i <= n,
            w as int == widest(pv.take(i as int), 0),
        decreases n - i,
    {
        assert(pv.take(i + 1).drop_last() =~= pv.take(i as int));
        let pw_i = width_of(chars_of(ps[i].as_str()).as_slice());
        if pw_i > w {
            w = pw_i;
        }
        i = i + 1;
    }
    assert(pv.take(n as int) =~= pv);
    let pw = sadd(if w > 8 { w } else { 8 }, 4);
    let bar = if ascii { '|' } else { '│' };
    i = 0;
    while i < n
        invariant
            n == ps@.len(),
            pv == ps@.map_values(|s: String| s@),
            i <= n,
            spans_v(doc@) == head_spans(pv.take(i as int), n as int, pw as int),
        decreases n - i,
    {
        let ghost before = spans_v(doc@);
        assert(pv.take(i + 1).drop_last() =~= pv.take(i as int));
        push_span(&mut doc, pad_string(chars_of(ps[i].as_str()).as_slice(), pw), Role::NodeFg);
        if i < n - 1 {
            push_span(&mut doc, spaces_of(GAP), Role::Plain);
        }
        assert(spans_v(doc@) =~= head_spans(pv.take(i + 1), n as int, pw as int));
        i = i + 1;
    }
    assert(pv.take(n as int) =~= pv);
    let nl = vec!['\n'];
    assert(nl@ =~= seq!['\n']);
    push_span(&mut doc, nl, Role::Plain);
    let ghost start = spans_v(doc@);
    i = 0;
    assert(start + lifeline_spans(0, n as int, pw as int, bar) =~= start);
    while i < n
        invariant
            n == ps@.len(),
            i <= n,
            pw >= 12,
            spans_v(doc@) == start + lifeline_spans(i as int, n as int, pw as int, bar),
        decreases n - i,
    {
        let ghost before = spans_v(doc@);
        push_span(&mut doc, spaces_of(pw / 2), Role::Plain);
        let b = vec![bar];
        assert(b@ =~= seq![bar]);
        push_span(&mut doc, b, Role::Edge);
        push_span(&mut doc, spaces_of(pw - pw / 2 - 1), Role::Plain);
        if i < n - 1 {
            push_span(&mut doc, spaces_of(GAP), Role::Plain);
        }
        assert(spans_v(doc@) =~= start + lifeline_spans(i + 1, n as int, pw as int, bar));
        i = i + 1;
    }
    let nn = vec!['\n', '\n'];
    assert(nn@ =~= seq!['\n', '\n']);
    push_span(&mut doc, nn, Role::Plain);
    let ghost start2 = spans_v(doc@);
    let ghost ev = d@.edges;
    let mut j: usize = 0;
    assert(start2 + message_spans_all(ev.take(0), pv, pw as int, ascii) =~= start2);
    while j < d.edges.len()
        invariant
            pv == ps@.map_values(|s: String| s@),
            ev == d.edges@.map_values(|e: Edge| e@),
            j <= d.edges@.len(),
            spans_v(doc@) == start2 + message_spans_all(ev.take(j as int), pv, pw as int, ascii),
        decreases d.edges@.len() - j,
    {
        push_message(&mut doc, &d.edges[j], ps, pw, ascii);
        assert(ev.take(j + 1).drop_last() =~= ev.take(j as int));
        assert(start2 + message_spans_all(ev.take(j + 1), pv, pw as int, ascii) =~= start2 + message_spans_all(
            ev.take(j as int),
            pv,
            pw as int,
            ascii,
        ) + message_spans(ev[j as int], pv, pw as int, ascii));
        j = j + 1;
    }
    assert(ev.take(ev.len() as int) =~= ev);
    assert(spans_v(doc@) =~= sequence_doc(pv, ev, ascii));
    doc
}

// ---------------------------------------------------------------- the shape of sequence output

/// The heads line: each name centred in its column, columns 6 apart.
pub open spec fn head_text(ps: Seq<Seq<char>>, n: int, pw: int) -> Seq<char>
    decreases ps.len(),
{
    if ps.len() == 0 {
        Seq::empty()
    } else {
        head_text(ps.drop_last(), n, pw) + pad(ps.last(), pw, false) + if ps.len() - 1 < n - 1 {
            spaces(6)
        } else {
            Seq::empty()
        }
    }
}

/// The lifelines line: one bar in the middle of each column.
pub open spec fn lifeline_text(k: int, n: int, pw: int, bar: char) -> Seq<char>
    decreases k,
{
    if k <= 0 {
        Seq::empty()
    } else {
        lifeline_text(k - 1, n, pw, bar) + spaces(pw / 2) + seq![bar] + spaces(pw - pw / 2 - 1) + if k - 1 < n - 1 {
            spaces(6)
        } else {
            Seq::empty()
        }
    }
}

/// The column of participant `i`'s lifeline.
pub open spec fn lane_column(i: int, pw: int) -> int {
    sat_add(sat_mul(i, sat_add(pw, 6)), pw / 2)
}

/// A message's line: its arrow line from the sender's lifeline to the
/// receiver's, trailing blanks dropped, then ` label` when it has one.
pub open spec fn message_text(e: EdgeV, ps: Seq<Seq<char>>, pw: int, ascii: bool) -> Seq<char> {
    let fi = lane_of(ps, e.from, 0);
    let ti = lane_of(ps, e.to, 0);
    let line = trim_end(message_line(lane_column(fi, pw), lane_column(ti, pw), fi, ti, e.style == EdgeStyle::Dotted, ascii));
    line + match e.label {
        Some(l) => if l.len() > 0 { " "@ + l } else { Seq::empty() },
        None => Seq::empty(),
    }
}

/// The lines of a sequence diagram: heads, lifelines, an empty line, then
/// one line per message; no lines at all without participants.
pub open spec fn sequence_lines(ps: Seq<Seq<char>>, es: Seq<EdgeV>, ascii: bool) -> Seq<Seq<char>> {
    if ps.len() == 0 {
        Seq::empty()
    } else {
        let pw = participant_width(ps);
        let bar = if ascii { '|' } else { '│' };
        seq![head_text(ps, ps.len() as int, pw), lifeline_text(ps.len() as int, ps.len() as int, pw, bar), Seq::<char>::empty()]
            + es.map_values(|e: EdgeV| message_text(e, ps, pw, ascii))
    }
}

proof fn lemma_plain_empty()
    ensures
        plain(Seq::<SpanV>::empty()) == Seq::<char>::empty(),
{
}

proof fn lemma_head_text(ps: Seq<Seq<char>>, n: int, pw: int)
    ensures
        plain(head_spans(ps, n, pw)) == head_text(ps, n, pw),
    decreases ps.len(),
{
    if ps.len() > 0 {
        lemma_head_text(ps.drop_last(), n, pw);
        let a = head_spans(ps.drop_last(), n, pw);
        let b = seq![span(pad(ps.last(), pw, false), Role::NodeFg)];
        let c: Seq<SpanV> = if ps.len() - 1 < n - 1 { seq![span(spaces(6), Role::Plain)] } else { Seq::empty() };
        lemma_plain_add(a, b);
        lemma_plain_add(a + b, c);
        lemma_plain_one(span(pad(ps.last(), pw, false), Role::NodeFg));
        lemma_plain_one(span(spaces(6), Role::Plain));
        lemma_plain_empty();
    }
}

proof fn lemma_lifeline_text(k: int, n: int, pw: int, bar: char)
    ensures
        plain(lifeline_spans(k, n, pw, bar)) == lifeline_text(k, n, pw, bar),
    decreases k,
{
    if k > 0 {
        lemma_lifeline_text(k - 1, n, pw, bar);
        let a = lifeline_spans(k - 1, n, pw, bar);
        let s1 = span(spaces(pw / 2), Role::Plain);
        let s2 = span(seq![bar], Role::Edge);
        let s3 = span(spaces(pw - pw / 2 - 1), Role::Plain);
        let c: Seq<SpanV> = if k - 1 < n - 1 { seq![span(spaces(6), Role::Plain)] } else { Seq::empty() };
        assert(seq![s1, s2, s3] =~= seq![s1] + seq![s2] + seq![s3]);
        lemma_plain_add(seq![s1], seq![s2]);
        lemma_plain_add(seq![s1] + seq![s2], seq![s3]);
        lemma_plain_one(s1);
        lemma_plain_one(s2);
        lemma_plain_one(s3);
        lemma_plain_add(a, seq![s1, s2, s3]);
        lemma_plain_add(a + seq![s1, s2, s3], c);
        lemma_plain_one(span(spaces(6), Role::Plain));
        lemma_plain_empty();
        assert(lifeline_text(k, n, pw, bar) =~= lifeline_text(k - 1, n, pw, bar) + (spaces(pw / 2) + seq![bar] + spaces(
            pw - pw / 2 - 1,
        )) + (if k - 1 < n - 1 { spaces(6) } else { Seq::empty() }));
    }
}

proof fn lemma_message_text(e: EdgeV, ps: Seq<Seq<char>>, pw: int, ascii: bool)
    ensures
        plain(message_spans(e, ps, pw, ascii)) == message_text(e, ps, pw, ascii) + seq!['\n'],
{
    let fi = lane_of(ps, e.from, 0);
    let ti = lane_of(ps, e.to, 0);
    let line = trim_end(message_line(lane_column(fi, pw), lane_column(ti, pw), fi, ti, e.style == EdgeStyle::Dotted, ascii));
    let k = leading_spaces(line);
    lemma_leading_spaces_bound(line);
    let s1 = span(line.take(k), Role::Plain);
    let s2 = span(line.skip(k), Role::Edge);
    let label: Seq<SpanV> = match e.label {
        Some(l) => if l.len() > 0 {
            seq![span(" "@, Role::Plain), span(l, Role::EdgeLabel)]
        } else {
            Seq::empty()
        },
        None => Seq::empty(),
    };
    let lt: Seq<char> = match e.label {
        Some(l) => if l.len() > 0 { " "@ + l } else { Seq::empty() },
        None => Seq::empty(),
    };
    lemma_plain_empty();
    if let Some(l) = e.label {
        if l.len() > 0 {
            lemma_plain_add(seq![span(" "@, Role::Plain)], seq![span(l, Role::EdgeLabel)]);
            assert(label =~= seq![span(" "@, Role::Plain)] + seq![span(l, Role::EdgeLabel)]);
            lemma_plain_one(span(" "@, Role::Plain));
            lemma_plain_one(span(l, Role::EdgeLabel));
        }
    }
    assert(plain(label) == lt);
    lemma_plain_add(seq![s1], seq![s2]);
    lemma_plain_one(s1);
    lemma_plain_one(s2);
    assert(line.take(k) + line.skip(k) =~= line);
    assert(seq![s1, s2] =~= seq![s1] + seq![s2]);
    lemma_plain_add(seq![s1, s2], label);
    lemma_plain_add(seq![s1, s2] + label, seq![newline()]);
    lemma_plain_one(newline());
}

proof fn lemma_leading_spaces_bound(s: Seq<char>)
    ensures
        0 <= leading_spaces(s) <= s.len(),
    decreases s.len(),
{
    if s.len() > 0 && s[0] == ' ' {
        lemma_leading_spaces_bound(s.drop_first());
    }
}

proof fn lemma_messages_text(es: Seq<EdgeV>, ps: Seq<Seq<char>>, pw: int, ascii: bool)
    ensures
        plain(message_spans_all(es, ps, pw, ascii)) == joined(es.map_values(|e: EdgeV| message_text(e, ps, pw, ascii))),
    decreases es.len(),
{
    if es.len() > 0 {
        lemma_messages_text(es.drop_last(), ps, pw, ascii);
        lemma_message_text(es.last(), ps, pw, ascii);
        lemma_plain_add(message_spans_all(es.drop_last(), ps, pw, ascii), message_spans(es.last(), ps, pw, ascii));
        let m = es.map_values(|e: EdgeV| message_text(e, ps, pw, ascii));
        assert(m.drop_last() =~= es.drop_last().map_values(|e: EdgeV| message_text(e, ps, pw, ascii)));
        assert(m.last() == message_text(es.last(), ps, pw, ascii));
    }
}

proof fn lemma_joined_add(a: Seq<Seq<char>>, b: Seq<Seq<char>>)
    ensures
        joined(a + b) == joined(a) + joined(b),
    decreases b.len(),
{
    if b.len() == 0 {
        assert(a + b =~= a);
        assert(joined(a) + Seq::<char>::empty() =~= joined(a));
    } else {
        assert((a + b).drop_last() =~= a + b.drop_last());
        lemma_joined_add(a, b.drop_last());
        assert((a + b).last() == b.last());
        assert(joined(a) + joined(b.drop_last()) + b.last() + seq!['\n'] =~= joined(a) + (joined(b.drop_last())
            + b.last() + seq!['\n']));
    }
}

/// The text of a sequence diagram is its lines, each followed by a newline:
/// with participants, 3 + (number of messages) lines, the third of them
/// empty; without, nothing. Each message line is its arrow line
/// (`law_message_line`) from the sender's lifeline column to the receiver's,
/// then ` label` when the label is not empty.
pub proof fn law_sequence_lines(ps: Seq<Seq<char>>, es: Seq<EdgeV>, ascii: bool)
    ensures
        plain(sequence_doc(ps, es, ascii)) == joined(sequence_lines(ps, es, ascii)),
        sequence_lines(ps, es, ascii).len() == if ps.len() == 0 { 0 } else { 3 + es.len() },
        ps.len() > 0 ==> sequence_lines(ps, es, ascii)[2].len() == 0,
        forall|k: int| 0 <= k < es.len() && ps.len() > 0 ==> #[trigger] sequence_lines(ps, es, ascii)[3 + k] == message_text(
            es[k],
            ps,
            participant_width(ps),
            ascii,
        ),
{
    if ps.len() == 0 {
        lemma_plain_empty();
    } else {
        let pw = participant_width(ps);
        let n = ps.len() as int;
        let bar = if ascii { '|' } else { '│' };
        lemma_head_text(ps, n, pw);
        lemma_lifeline_text(n, n, pw, bar);
        lemma_messages_text(es, ps, pw, ascii);
        let a = head_spans(ps, n, pw);
        let b = lifeline_spans(n, n, pw, bar);
        let g = span(seq!['\n', '\n'], Role::Plain);
        let m = message_spans_all(es, ps, pw, ascii);
        lemma_plain_add(a, seq![newline()]);
        lemma_plain_add(a + seq![newline()], b);
        lemma_plain_add(a + seq![newline()] + b, seq![g]);
        lemma_plain_add(a + seq![newline()] + b + seq![g], m);
        lemma_plain_one(newline());
        lemma_plain_one(g);
        let h = head_text(ps, n, pw);
        let lf = lifeline_text(n, n, pw, bar);
        let first = seq![h, lf, Seq::<char>::empty()];
        let msgs = es.map_values(|e: EdgeV| message_text(e, ps, pw, ascii));
        lemma_joined_add(first, msgs);
        reveal_with_fuel(joined, 4);
        assert(first.drop_last() =~= seq![h, lf]);
        assert(seq![h, lf].drop_last() =~= seq![h]);
        assert(seq![h].drop_last() =~= Seq::<Seq<char>>::empty());
        assert(joined(first) =~= h + seq!['\n'] + lf + seq!['\n'] + seq!['\n']);
        assert(seq!['\n'] + seq!['\n'] =~= seq!['\n', '\n']);
        assert(plain(sequence_doc(ps, es, ascii)) =~= h + seq!['\n'] + lf + seq!['\n', '\n'] + joined(msgs));
        let sl = sequence_lines(ps, es, ascii);
        assert forall|k: int| 0 <= k < es.len() implies #[trigger] sl[3 + k] == message_text(es[k], ps, pw, ascii) by {
            assert(sl[3 + k] == msgs[k]);
        }
    }
}

/// An arrow line ends in a glyph, so dropping trailing blanks leaves it whole.
pub proof fn lemma_message_line_untrimmed(fc: int, tc: int, from_idx: int, to_idx: int, dotted: bool, ascii: bool)
    requires
        0 <= fc,
        0 <= tc,
        fc < usize::MAX,
        tc < usize::MAX,
        (from_idx == to_idx) == (fc == tc),
    ensures
        trim_end(message_line(fc, tc, from_idx, to_idx, dotted, ascii)) == message_line(fc, tc, from_idx, to_idx, dotted, ascii),
{
    law_message_line(fc, tc, from_idx, to_idx, dotted, ascii);
    let l = message_line(fc, tc, from_idx, to_idx, dotted, ascii);
    let hi = if fc <= tc { tc } else { fc };
    assert(l.last() == l[hi]);
    assert(!crate::text::is_ws(l[hi]));
}

} // verus!
