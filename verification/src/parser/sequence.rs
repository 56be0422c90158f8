//! Sequence diagrams: participant declarations and messages.

use vstd::prelude::*;
use crate::diagram::{Diagram, DiagramType, DiagramV, Edge, EdgeStyle, EdgeV, empty_diagram_v};
use crate::parser::flowchart::edges_v;
use crate::text::{
    chars_of, contains, contains_of, find, find_char, find_char_of, find_of, lines,
    lines_of, slice_of, starts_with, starts_with_of, string_is, string_of, trim, trim_of, words,
    words_of,
};

verus! {

/// What a sequence diagram has gathered so far.
pub struct SeqState {
    pub participants: Seq<Seq<char>>,
    pub edges: Seq<EdgeV>,
}

/// Adds a participant unless it is blank or already known.
pub open spec fn add_participant(ps: Seq<Seq<char>>, p: Seq<char>) -> Seq<Seq<char>> {
    if p.len() > 0 && !ps.contains(p) {
        ps.push(p)
    } else {
        ps
    }
}

/// The message arrow of a line, longest token first.
pub open spec fn message_arrow(line: Seq<char>) -> Option<Seq<char>> {
    if contains(line, "-->>"@) {
        Some("-->>"@)
    } else if contains(line, "->>"@) {
        Some("->>"@)
    } else if contains(line, "-->"@) {
        Some("-->"@)
    } else if contains(line, "->"@) {
        Some("->"@)
    } else {
        None
    }
}

/// The part of `s` before the first `c` and the part after it.
pub open spec fn split_once(s: Seq<char>, c: char) -> Option<(Seq<char>, Seq<char>)> {
    match find_char(s, c) {
        Some(i) => Some((s.take(i), s.skip(i + 1))),
        None => None,
    }
}

/// One line of a sequence diagram.
pub open spec fn seq_line(st: SeqState, raw: Seq<char>) -> SeqState {
    let line = trim(raw);
    if line.len() == 0 || starts_with(line, "%%"@) {
        st
    } else if starts_with(line, "participant"@) || starts_with(line, "actor"@) {
        let w = words(line);
        if w.len() > 1 {
            SeqState { participants: add_participant(st.participants, trim(w[1])), ..st }
        } else {
            st
        }
    } else {
        match message_arrow(line) {
            Some(a) => match find(line, a) {
                Some(pos) => {
                    let style = if starts_with(a, "--"@) { EdgeStyle::Dotted } else { EdgeStyle::Solid };
                    let from = trim(line.take(pos));
                    let rest = line.skip(pos + a.len());
                    let (to, msg) = match split_once(rest, ':') {
                        Some((t, m)) => (trim(t), trim(m)),
                        None => (trim(rest), Seq::empty()),
                    };
                    let ps = add_participant(add_participant(st.participants, from), to);
                    SeqState {
                        participants: ps,
                        edges: st.edges.push(EdgeV { from, to, label: Some(msg), style }),
                    }
                },
                None => st,
            },
            None => st,
        }
    }
}

/// The sequence diagram that `source` describes.
pub open spec fn parse_sequence(source: Seq<char>) -> DiagramV {
    let st = lines(source).fold_left(
        SeqState { participants: Seq::empty(), edges: Seq::empty() },
        |st: SeqState, l: Seq<char>| seq_line(st, l),
    );
    DiagramV {
        participants: st.participants,
        edges: st.edges,
        ..empty_diagram_v(DiagramType::Sequence)
    }
}

pub open spec fn strings_v(v: Seq<String>) -> Seq<Seq<char>> {
    v.map_values(|s: String| s@)
}

/// `p` is one of the strings of `ps`.
pub fn has_string(ps: &Vec<String>, p: &[char]) -> (r: bool)
    ensures
        r == strings_v(ps@).contains(p@),
{
    let mut i: usize = 0;
    while i < ps.len()
        invariant
            i <= ps@.len(),
            forall|k: int| 0 <= k < i ==> ps@[k]@ != p@,
        decreases ps@.len() - i,
    {
        if string_is(&ps[i], p) {
            assert(strings_v(ps@)[i as int] == p@);
            return true;
        }
        i = i + 1;
    }
    assert(!strings_v(ps@).contains(p@)) by {
        if strings_v(ps@).contains(p@) {
            let k = choose|k: int| 0 <= k < strings_v(ps@).len() && strings_v(ps@)[k] == p@;
            assert(ps@[k]@ == p@);
        }
    }
    false
}

fn add_participant_exec(ps: &mut Vec<String>, p: &[char])
    ensures
        strings_v(final(ps)@) == add_participant(strings_v(old(ps)@), p@),
{
    if p.len() > 0 && !has_string(ps, p) {
        let ghost old_v = strings_v(ps@);
        ps.push(string_of(p));
        assert(strings_v(ps@) =~= old_v.push(p@));
    }
}

fn message_arrow_of(line: &[char]) -> (r: Option<Vec<char>>)
    ensures
        match r {
            Some(a) => message_arrow(line@) == Some(a@),
            None => message_arrow(line@) is None,
        },
{
    let a1 = chars_of("-->>");
    if contains_of(line, a1.as_slice()) {
        return Some(a1);
    }
    let a2 = chars_of("->>");
    if contains_of(line, a2.as_slice()) {
        return Some(a2);
    }
    let a3 = chars_of("-->");
    if contains_of(line, a3.as_slice()) {
        return Some(a3);
    }
    let a4 = chars_of("->");
    if contains_of(line, a4.as_slice()) {
        return Some(a4);
    }
    None
}

/// The part of `s` before the first `c` and the part after it.
pub fn split_once_of(s: &[char], c: char) -> (r: Option<(Vec<char>, Vec<char>)>)
    ensures
        match r {
            Some((a, b)) => split_once(s@, c) == Some((a@, b@)),
            None => split_once(s@, c) is None,
        },
{
    match find_char_of(s, c) {
        Some(i) => {
            let a = slice_of(s, 0, i);
            let n = s.len();
            let b = slice_of(s, i + 1, n);
            assert(a@ =~= s@.take(i as int));
            assert(b@ =~= s@.skip(i + 1));
            Some((a, b))
        },
        None => None,
    }
}

struct SeqExec {
    participants: Vec<String>,
    edges: Vec<Edge>,
}

impl SeqExec {
    spec fn model(&self) -> SeqState {
        SeqState { participants: strings_v(self.participants@), edges: edges_v(self.edges@) }
    }
}

fn seq_line_exec(st: &mut SeqExec, raw: &[char])
    ensures
        final(st).model() == seq_line(old(st).model(), raw@),
{
    let line = trim_of(raw);
    let comment = chars_of("%%");
    if line.len() == 0 || starts_with_of(line.as_slice(), comment.as_slice()) {
        return;
    }
    let kw_p = chars_of("participant");
    let kw_a = chars_of("actor");
    if starts_with_of(line.as_slice(), kw_p.as_slice()) || starts_with_of(line.as_slice(), kw_a.as_slice()) {
        let w = words_of(line.as_slice());
        if w.len() > 1 {
            let p = trim_of(w[1].as_slice());
            add_participant_exec(&mut st.participants, p.as_slice());
        }
        return;
    }
    match message_arrow_of(line.as_slice()) {
        Some(a) => match find_of(line.as_slice(), a.as_slice()) {
            Some(pos) => {
                proof {
                    crate::parser::flowchart::lemma_find_from_bound(line@, a@, 0);
                }
                let dashes = chars_of("--");
                let style = if starts_with_of(a.as_slice(), dashes.as_slice()) {
                    EdgeStyle::Dotted
                } else {
                    EdgeStyle::Solid
                };
                let head = slice_of(line.as_slice(), 0, pos);
                assert(head@ =~= line@.take(pos as int));
                let from = trim_of(head.as_slice());
                let rest = slice_of(line.as_slice(), pos + a.len(), line.len());
                assert(rest@ =~= line@.skip(pos + a@.len()));
                let (to, msg) = match split_once_of(rest.as_slice(), ':') {
                    Some((t, m)) => (trim_of(t.as_slice()), trim_of(m.as_slice())),
                    None => (trim_of(rest.as_slice()), Vec::new()),
                };
                add_participant_exec(&mut st.participants, from.as_slice());
                add_participant_exec(&mut st.participants, to.as_slice());
                let e = Edge {
                    from: string_of(from.as_slice()),
                    to: string_of(to.as_slice()),
                    label: Some(string_of(msg.as_slice())),
                    style,
                };
                let ghost old_edges = st.edges@;
                st.edges.push(e);
                assert(edges_v(st.edges@) =~= edges_v(old_edges).push(e@));
            },
            None => {},
        },
        None => {},
    }
}

/// Parses sequence-diagram source (already trimmed) into a diagram.
pub fn parse_sequence_of(source: &[char]) -> (r: Diagram)
    ensures
        r@ == parse_sequence(source@),
{
    let mut st = SeqExec { participants: Vec::new(), edges: Vec::new() };
    let ghost init = SeqState { participants: Seq::empty(), edges: Seq::empty() };
    assert(st.model() == init) by {
        assert(st.model().participants =~= init.participants);
        assert(st.model().edges =~= init.edges);
    }
    let ls = lines_of(source);
    let ghost lv = lines(source@);
    let mut i: usize = 0;
    while i < ls.len()
        invariant
            ls@.len() == lv.len(),
            forall|k: int| 0 <= k < ls@.len() ==> #[trigger] ls@[k]@ == lv[k],
            i <= ls@.len(),
            st.model() == lv.take(i as int).fold_left(init, |st: SeqState, l: Seq<char>| seq_line(st, l)),
        decreases ls@.len() - i,
    {
        seq_line_exec(&mut st, ls[i].as_slice());
        assert(lv.take(i + 1).drop_last() =~= lv.take(i as int));
        i = i + 1;
    }
    assert(lv.take(lv.len() as int) =~= lv);
    let mut d = Diagram::empty_of(DiagramType::Sequence);
    d.participants = st.participants;
    d.edges = st.edges;
    d
}

// ---------------------------------------------------------------- laws

/// Participants are distinct and never blank, and every message end that is
/// not blank is a participant.
pub open spec fn seq_ok(ps: Seq<Seq<char>>, edges: Seq<EdgeV>) -> bool {
    &&& forall|i: int, j: int| 0 <= i < j < ps.len() ==> ps[i] != ps[j]
    &&& forall|i: int| 0 <= i < ps.len() ==> (#[trigger] ps[i]).len() > 0
    &&& forall|i: int| 0 <= i < edges.len() ==> ((#[trigger] edges[i]).from.len() > 0 ==> ps.contains(edges[i].from))
        && (edges[i].to.len() > 0 ==> ps.contains(edges[i].to))
}

proof fn lemma_add_participant(ps: Seq<Seq<char>>, p: Seq<char>)
    requires
        forall|i: int, j: int| 0 <= i < j < ps.len() ==> ps[i] != ps[j],
        forall|i: int| 0 <= i < ps.len() ==> (#[trigger] ps[i]).len() > 0,
    ensures
        forall|i: int, j: int| 0 <= i < j < add_participant(ps, p).len() ==> add_participant(ps, p)[i] != add_participant(ps, p)[j],
        forall|i: int| 0 <= i < add_participant(ps, p).len() ==> (#[trigger] add_participant(ps, p)[i]).len() > 0,
        forall|q: Seq<char>| ps.contains(q) ==> add_participant(ps, p).contains(q),
        p.len() > 0 ==> add_participant(ps, p).contains(p),
{
    let r = add_participant(ps, p);
    if p.len() > 0 && !ps.contains(p) {
        assert(r[ps.len() as int] == p);
        assert forall|q: Seq<char>| ps.contains(q) implies r.contains(q) by {
            let k = choose|k: int| 0 <= k < ps.len() && ps[k] == q;
            assert(r[k] == q);
        }
        assert forall|i: int, j: int| 0 <= i < j < r.len() implies r[i] != r[j] by {
            if j == ps.len() {
                assert(r[i] == ps[i]);
                assert(ps.contains(ps[i]));
            }
        }
    }
}

proof fn lemma_seq_line(st: SeqState, raw: Seq<char>)
    requires
        seq_ok(st.participants, st.edges),
    ensures
        seq_ok(seq_line(st, raw).participants, seq_line(st, raw).edges),
{
    let line = trim(raw);
    if line.len() == 0 || starts_with(line, "%%"@) {
    } else if starts_with(line, "participant"@) || starts_with(line, "actor"@) {
        let w = words(line);
        if w.len() > 1 {
            lemma_add_participant(st.participants, trim(w[1]));
            let r = seq_line(st, raw);
            assert forall|i: int| 0 <= i < r.edges.len() implies ((#[trigger] r.edges[i]).from.len() > 0
                ==> r.participants.contains(r.edges[i].from)) && (r.edges[i].to.len() > 0 ==> r.participants.contains(
                r.edges[i].to,
            )) by {
                assert(r.edges[i] == st.edges[i]);
            }
        }
    } else {
        match message_arrow(line) {
            Some(a) => match find(line, a) {
                Some(pos) => {
                    let style = if starts_with(a, "--"@) { EdgeStyle::Dotted } else { EdgeStyle::Solid };
                    let from = trim(line.take(pos));
                    let rest = line.skip(pos + a.len());
                    let (to, msg) = match split_once(rest, ':') {
                        Some((t, m)) => (trim(t), trim(m)),
                        None => (trim(rest), Seq::empty()),
                    };
                    let p1 = add_participant(st.participants, from);
                    lemma_add_participant(st.participants, from);
                    lemma_add_participant(p1, to);
                    let ps = add_participant(p1, to);
                    let e = EdgeV { from, to, label: Some(msg), style };
                    let edges = st.edges.push(e);
                    assert(seq_line(st, raw) == SeqState { participants: ps, edges });
                    assert forall|i: int| 0 <= i < edges.len() implies ((#[trigger] edges[i]).from.len() > 0
                        ==> ps.contains(edges[i].from)) && (edges[i].to.len() > 0 ==> ps.contains(edges[i].to)) by {
                        if i < st.edges.len() {
                            assert(edges[i] == st.edges[i]);
                        }
                    }
                },
                None => {},
            },
            None => {},
        }
    }
}

proof fn lemma_seq_lines(st: SeqState, ls: Seq<Seq<char>>)
    requires
        seq_ok(st.participants, st.edges),
    ensures
        ({
            let r = ls.fold_left(st, |st: SeqState, l: Seq<char>| seq_line(st, l));
            seq_ok(r.participants, r.edges)
        }),
    decreases ls.len(),
{
    if ls.len() > 0 {
        lemma_seq_lines(st, ls.drop_last());
        lemma_seq_line(ls.drop_last().fold_left(st, |st: SeqState, l: Seq<char>| seq_line(st, l)), ls.last());
    }
}

/// Parsing a sequence diagram lists each participant once (never blank), and
/// every message end that is not blank is one of them: a participant named
/// only in a message is added by it.
pub proof fn law_sequence_participants(source: Seq<char>)
    ensures
        seq_ok(parse_sequence(source).participants, parse_sequence(source).edges),
{
    lemma_seq_lines(SeqState { participants: Seq::empty(), edges: Seq::empty() }, lines(source));
}

// ---------------------------------------------------------------- arrow styles

proof fn lemma_find_from_some(s: Seq<char>, p: Seq<char>, i: int, k: int)
    requires
        0 <= i <= k,
        crate::text::occurs_at(s, p, k),
    ensures
        crate::text::find_from(s, p, i) is Some,
    decreases k - i,
{
    if !crate::text::occurs_at(s, p, i) {
        lemma_find_from_some(s, p, i + 1, k);
    }
}

/// A text that holds `-->>` holds `-->`.
proof fn lemma_contains_dotted(s: Seq<char>)
    ensures
        contains(s, "-->>"@) ==> contains(s, "-->"@),
{
    reveal_strlit("-->>");
    reveal_strlit("-->");
    crate::parser::flowchart::lemma_find_from_bound(s, "-->>"@, 0);
    if let Some(k) = find(s, "-->>"@) {
        assert(s.subrange(k, k + 3) =~= s.subrange(k, k + 4).take(3));
        assert("-->>"@.take(3) =~= "-->"@);
        lemma_find_from_some(s, "-->"@, 0, k);
    }
}

/// A message whose arrow begins with `--` (`-->>` or `-->`) is dotted, and
/// one whose arrow begins with a single `-` (`->>` or `->`) is solid: a line
/// holding `-->>`, or `-->` without `->>`, gives a dotted message, and a line
/// without `-->` a solid one. Either way exactly one message is added, from
/// the text before the arrow to the text after it.
pub proof fn law_message_style(st: SeqState, raw: Seq<char>)
    requires
        trim(raw).len() > 0,
        !starts_with(trim(raw), "%%"@),
        !starts_with(trim(raw), "participant"@),
        !starts_with(trim(raw), "actor"@),
        contains(trim(raw), "->"@),
    ensures
        seq_line(st, raw).edges.len() == st.edges.len() + 1,
        contains(trim(raw), "-->>"@) || (contains(trim(raw), "-->"@) && !contains(trim(raw), "->>"@))
            ==> seq_line(st, raw).edges.last().style == EdgeStyle::Dotted,
        !contains(trim(raw), "-->"@) ==> seq_line(st, raw).edges.last().style == EdgeStyle::Solid,
{
    let line = trim(raw);
    reveal_strlit("-->>");
    reveal_strlit("->>");
    reveal_strlit("-->");
    reveal_strlit("->");
    reveal_strlit("--");
    lemma_contains_dotted(line);
    assert("-->>"@.take(2) =~= "--"@);
    assert("-->"@.take(2) =~= "--"@);
    assert("->>"@.take(2) != "--"@) by {
        assert("->>"@.take(2)[1] == '>');
    }
    assert("->"@.take(2) != "--"@) by {
        assert("->"@.take(2)[1] == '>');
    }
    assert(starts_with("-->>"@, "--"@) && starts_with("-->"@, "--"@));
    assert(!starts_with("->>"@, "--"@) && !starts_with("->"@, "--"@));
    let a = message_arrow(line)->0;
    assert(contains(line, a));
    let r = seq_line(st, raw);
    assert(r.edges == st.edges.push(r.edges.last()));
}

} // verus!
