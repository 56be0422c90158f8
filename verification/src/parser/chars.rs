//! Where the text of a parsed diagram comes from: every character of every
//! text a renderer shows is a character of the source, or printable ASCII
//! that the parser adds itself (a newline, a `:` or a relationship token).

use vstd::prelude::*;
use crate::render::charset::{basic, lemma_rfind_char_bound, lemma_text_add, lemma_text_sub, lemma_trim, text_in};
use crate::text::{
    find, find_char, find_from, lines, rfind_char, split_char, strip_cr, trim, trim_end, trim_end_set, trim_start,
    trim_start_set, words,
};
use crate::diagram::{EdgeV, NodeShape, NodeV, node_v};
use crate::parser::flowchart::{
    FlowState, chain, decl_openers, extract_edge_label, flow_edge, flow_init, flow_line, flow_stmt, index_of_id,
    lemma_find_any_from_bound, lemma_find_from_bound, lemma_index_of_id_bound, parse_flowchart, parse_node_token,
    shape_from, shape_openers, split_arrows, style_from_arrow, upsert,
};
use crate::render::charset::{edge_in, node_in};
use crate::parser::sequence::{SeqState, add_participant, message_arrow, parse_sequence, seq_line, split_once};
use crate::parser::state::{StateState, parse_state, state_line};
use crate::parser::pie::{parse_pie, pie_line, pie_slice, unquote};
use crate::parser::class::{
    ClassState, before_char, class_from, class_members, class_relationship, class_step, close_index, ensure_class,
    first_rel_token, first_unquoted, gather, last_unquoted, member_line, parse_class, rel_tokens,
};
use crate::parser::er::{
    ErState, er_attr, er_block, er_body, er_from, er_relationship, er_step, parse_er, right_card_of, right_cards,
};
use crate::diagram::{AttributeV, EntityV, MemberV, RelationshipV};
use crate::render::charset::{diagram_in, entity_in, rel_in};
use crate::parser::{parse_as, parse_mermaid_spec};
use crate::diagram::DiagramV;

verus! {

// ---------------------------------------------------------------- pieces of text

/// Every text of `ps` is in `ok`.
pub open spec fn all_in(ps: Seq<Seq<char>>, ok: spec_fn(char) -> bool) -> bool {
    forall|k: int| 0 <= k < ps.len() ==> text_in(#[trigger] ps[k], ok)
}

pub proof fn lemma_take(s: Seq<char>, i: int, ok: spec_fn(char) -> bool)
    requires
        basic(ok),
        text_in(s, ok),
        0 <= i <= s.len(),
    ensures
        text_in(s.take(i), ok),
        text_in(s.skip(i), ok),
{
    lemma_text_sub(s, 0, i, ok);
    lemma_text_sub(s, i, s.len() as int, ok);
    assert(s.take(i) == s.subrange(0, i));
    assert(s.skip(i) == s.subrange(i, s.len() as int));
}

pub proof fn lemma_ends(s: Seq<char>, ok: spec_fn(char) -> bool)
    requires
        basic(ok),
        text_in(s, ok),
        s.len() > 0,
    ensures
        text_in(s.drop_last(), ok),
        text_in(s.drop_first(), ok),
{
    lemma_text_sub(s, 0, s.len() - 1, ok);
    lemma_text_sub(s, 1, s.len() as int, ok);
    assert(s.drop_last() == s.subrange(0, s.len() - 1));
    assert(s.drop_first() == s.subrange(1, s.len() as int));
}

/// What `find` finds lies inside the text.
pub proof fn lemma_find(s: Seq<char>, p: Seq<char>)
    ensures
        find(s, p) matches Some(k) ==> 0 <= k && k + p.len() <= s.len(),
{
    lemma_find_from_bound(s, p, 0);
}

pub proof fn lemma_find_char(s: Seq<char>, c: char)
    ensures
        find_char(s, c) matches Some(k) ==> 0 <= k < s.len(),
        rfind_char(s, c) matches Some(k) ==> 0 <= k < s.len(),
{
    lemma_find_from_bound(s, seq![c], 0);
    lemma_rfind_char_bound(s, c);
}

pub proof fn lemma_trims(s: Seq<char>, ok: spec_fn(char) -> bool)
    requires
        basic(ok),
        text_in(s, ok),
    ensures
        text_in(trim(s), ok),
        text_in(trim_start(s), ok),
        text_in(trim_end(s), ok),
        text_in(strip_cr(s), ok),
{
    lemma_trim(s, ok);
    if s.len() > 0 {
        lemma_ends(s, ok);
    }
}

pub proof fn lemma_trim_sets(s: Seq<char>, set: Seq<char>, ok: spec_fn(char) -> bool)
    requires
        basic(ok),
        text_in(s, ok),
    ensures
        text_in(trim_start_set(s, set), ok),
        text_in(trim_end_set(s, set), ok),
    decreases s.len(),
{
    if s.len() > 0 {
        lemma_ends(s, ok);
        lemma_trim_sets(s.drop_first(), set, ok);
        lemma_trim_sets(s.drop_last(), set, ok);
    }
}

pub proof fn lemma_split_char(s: Seq<char>, c: char, ok: spec_fn(char) -> bool)
    requires
        basic(ok),
        text_in(s, ok),
    ensures
        all_in(split_char(s, c), ok),
    decreases s.len(),
{
    if s.len() > 0 {
        lemma_ends(s, ok);
        lemma_split_char(s.drop_last(), c, ok);
        let w = split_char(s.drop_last(), c);
        crate::text::lemma_split_char_nonempty(s.drop_last(), c);
        if s.last() == c {
            assert forall|k: int| 0 <= k < w.push(Seq::<char>::empty()).len() implies text_in(
                #[trigger] w.push(Seq::<char>::empty())[k],
                ok,
            ) by {
                if k < w.len() {
                    assert(w.push(Seq::<char>::empty())[k] == w[k]);
                }
            }
        } else {
            assert(text_in(w[w.len() - 1], ok));
            assert(s[s.len() - 1] == s.last());
            lemma_text_add(w.last(), seq![s.last()], ok);
            assert(w.last().push(s.last()) == w.last() + seq![s.last()]);
            let u = w.update(w.len() - 1, w.last().push(s.last()));
            assert forall|k: int| 0 <= k < u.len() implies text_in(#[trigger] u[k], ok) by {
                if k < w.len() - 1 {
                    assert(u[k] == w[k]);
                }
            }
        }
    }
}

pub proof fn lemma_lines(s: Seq<char>, ok: spec_fn(char) -> bool)
    requires
        basic(ok),
        text_in(s, ok),
    ensures
        all_in(lines(s), ok),
{
    lemma_split_char(s, '\n', ok);
    let p = split_char(s, '\n');
    if s.len() > 0 {
        crate::text::lemma_split_char_nonempty(s, '\n');
        let q = p.drop_last().map_values(|l: Seq<char>| strip_cr(l));
        assert forall|k: int| 0 <= k < q.len() implies text_in(#[trigger] q[k], ok) by {
            assert(text_in(p[k], ok));
            lemma_trims(p[k], ok);
        }
        assert(text_in(p[p.len() - 1], ok));
        assert forall|k: int| 0 <= k < q.push(p.last()).len() implies text_in(#[trigger] q.push(p.last())[k], ok) by {
            if k < q.len() {
                assert(q.push(p.last())[k] == q[k]);
            }
        }
    }
}

pub proof fn lemma_words(s: Seq<char>, ok: spec_fn(char) -> bool)
    requires
        basic(ok),
        text_in(s, ok),
    ensures
        all_in(words(s), ok),
    decreases s.len(),
{
    if s.len() > 0 {
        lemma_ends(s, ok);
        lemma_words(s.drop_last(), ok);
        let w = words(s.drop_last());
        assert(s[s.len() - 1] == s.last());
        if crate::text::is_ws(s.last()) {
        } else if s.len() >= 2 && !crate::text::is_ws(s[s.len() - 2]) {
            crate::text::lemma_words_open(s.drop_last());
            assert(text_in(w[w.len() - 1], ok));
            lemma_text_add(w.last(), seq![s.last()], ok);
            assert(w.last().push(s.last()) == w.last() + seq![s.last()]);
            let u = w.update(w.len() - 1, w.last().push(s.last()));
            assert forall|k: int| 0 <= k < u.len() implies text_in(#[trigger] u[k], ok) by {
                if k < w.len() - 1 {
                    assert(u[k] == w[k]);
                }
            }
        } else {
            let u = w.push(seq![s.last()]);
            assert forall|k: int| 0 <= k < u.len() implies text_in(#[trigger] u[k], ok) by {
                if k < w.len() {
                    assert(u[k] == w[k]);
                }
            }
        }
    }
}

// ---------------------------------------------------------------- flowcharts

/// Every node's label and member names are in `ok`.
pub open spec fn nodes_in(ns: Seq<NodeV>, ok: spec_fn(char) -> bool) -> bool {
    forall|k: int| 0 <= k < ns.len() ==> node_in(#[trigger] ns[k], ok)
}

/// Every edge's ends and label are in `ok`.
pub open spec fn edges_in(es: Seq<EdgeV>, ok: spec_fn(char) -> bool) -> bool {
    forall|k: int| 0 <= k < es.len() ==> edge_in(#[trigger] es[k], ok)
}

proof fn lemma_shape_from(w: Seq<char>, i: int, ok: spec_fn(char) -> bool)
    requires
        basic(ok),
        text_in(w, ok),
    ensures
        text_in(shape_from(w, i).0, ok),
    decreases crate::parser::flowchart::shape_table().len() - i,
{
    let table = crate::parser::flowchart::shape_table();
    if i < 0 || i >= table.len() {
        let set = crate::parser::flowchart::bracket_set();
        lemma_trim_sets(w, set, ok);
        lemma_trim_sets(trim_start_set(w, set), set, ok);
        lemma_trims(trim_end_set(trim_start_set(w, set), set), ok);
    } else {
        let (open, close, shape) = table[i];
        if w.len() >= open.len() + close.len() && crate::text::starts_with(w, open) && crate::text::ends_with(w, close) {
            lemma_text_sub(w, open.len() as int, w.len() - close.len(), ok);
            lemma_trims(w.subrange(open.len() as int, w.len() - close.len()), ok);
        } else {
            lemma_shape_from(w, i + 1, ok);
        }
    }
}

pub proof fn lemma_node_token(token: Seq<char>, ok: spec_fn(char) -> bool)
    requires
        basic(ok),
        text_in(token, ok),
    ensures
        text_in(parse_node_token(token).0, ok),
        text_in(parse_node_token(token).1, ok),
{
    let t = trim(token);
    lemma_trims(token, ok);
    if t.len() > 0 {
        lemma_find_any_from_bound(t, shape_openers(), 0);
        if let Some(pos) = crate::text::find_any(t, shape_openers()) {
            lemma_take(t, pos, ok);
            lemma_trims(t.take(pos), ok);
            lemma_shape_from(t.skip(pos), 0, ok);
        }
    }
}

pub proof fn lemma_edge_label(segment: Seq<char>, ok: spec_fn(char) -> bool)
    requires
        basic(ok),
        text_in(segment, ok),
    ensures
        extract_edge_label(segment).0 matches Some(l) ==> text_in(l, ok),
        text_in(extract_edge_label(segment).1, ok),
{
    let t = trim_start(segment);
    lemma_trims(segment, ok);
    if t.len() > 0 && t[0] == '|' {
        lemma_ends(t, ok);
        let rest = t.drop_first();
        lemma_find_char(rest, '|');
        if let Some(end) = find_char(rest, '|') {
            lemma_take(rest, end, ok);
            lemma_take(rest, end + 1, ok);
            lemma_trims(rest.take(end), ok);
            lemma_trims(rest.skip(end + 1), ok);
        }
    }
}

proof fn lemma_split_arrows(s: Seq<char>, ok: spec_fn(char) -> bool)
    requires
        basic(ok),
        text_in(s, ok),
    ensures
        all_in(split_arrows(s).0, ok),
    decreases s.len(),
{
    match crate::parser::flowchart::best_arrow(s) {
        Some((pos, a)) => {
            if 0 <= pos && pos + a.len() <= s.len() && a.len() > 0 {
                lemma_take(s, pos, ok);
                lemma_take(s, pos + a.len(), ok);
                lemma_split_arrows(s.skip(pos + a.len()), ok);
                let rest = split_arrows(s.skip(pos + a.len()));
                let q = seq![s.take(pos)] + rest.0;
                assert forall|k: int| 0 <= k < q.len() implies text_in(#[trigger] q[k], ok) by {
                    if k > 0 {
                        assert(q[k] == rest.0[k - 1]);
                    }
                }
            }
        },
        None => {},
    }
}

proof fn lemma_upsert_in(nodes: Seq<NodeV>, id: Seq<char>, label: Seq<char>, shape: NodeShape, ok: spec_fn(char) -> bool)
    requires
        nodes_in(nodes, ok),
        text_in(label, ok),
    ensures
        nodes_in(upsert(nodes, id, label, shape), ok),
{
    lemma_index_of_id_bound(nodes, id, 0);
    let r = upsert(nodes, id, label, shape);
    assert forall|k: int| 0 <= k < r.len() implies node_in(#[trigger] r[k], ok) by {
        if k < nodes.len() {
            assert(node_in(nodes[k], ok));
        }
    }
}

pub open spec fn flow_in(st: FlowState, ok: spec_fn(char) -> bool) -> bool {
    nodes_in(st.nodes, ok) && edges_in(st.edges, ok)
}

proof fn lemma_chain_in(
    st: FlowState,
    prev: Seq<char>,
    segs: Seq<Seq<char>>,
    arrs: Seq<Seq<char>>,
    i: int,
    ok: spec_fn(char) -> bool,
)
    requires
        basic(ok),
        flow_in(st, ok),
        text_in(prev, ok),
        all_in(segs, ok),
    ensures
        flow_in(chain(st, prev, segs, arrs, i), ok),
    decreases segs.len() - i,
{
    if 1 <= i < segs.len() {
        assert(text_in(segs[i], ok));
        lemma_edge_label(segs[i], ok);
        let (label, node_str) = extract_edge_label(segs[i]);
        lemma_node_token(node_str, ok);
        let (to_id, to_label, to_shape) = parse_node_token(node_str);
        if to_id.len() == 0 {
            lemma_chain_in(st, prev, segs, arrs, i + 1, ok);
        } else {
            lemma_upsert_in(st.nodes, to_id, to_label, to_shape, ok);
            let e = EdgeV { from: prev, to: to_id, label, style: style_from_arrow(arrs[i - 1]) };
            let edges = st.edges.push(e);
            assert forall|k: int| 0 <= k < edges.len() implies edge_in(#[trigger] edges[k], ok) by {
                if k < st.edges.len() {
                    assert(edges[k] == st.edges[k]);
                }
            }
            lemma_chain_in(
                FlowState { nodes: upsert(st.nodes, to_id, to_label, to_shape), edges, ..st },
                to_id,
                segs,
                arrs,
                i + 1,
                ok,
            );
        }
    }
}

proof fn lemma_flow_stmt_in(st: FlowState, raw: Seq<char>, ok: spec_fn(char) -> bool)
    requires
        basic(ok),
        flow_in(st, ok),
        text_in(raw, ok),
    ensures
        flow_in(flow_stmt(st, raw), ok),
{
    let stmt = trim(raw);
    lemma_trims(raw, ok);
    if stmt.len() == 0 || crate::text::starts_with(stmt, "%%"@) || crate::text::starts_with(stmt, "{"@) {
    } else if crate::text::starts_with(stmt, "flowchart"@) || crate::text::starts_with(stmt, "graph"@) {
    } else if crate::parser::flowchart::has_arrow_from(stmt, 0) {
        lemma_split_arrows(stmt, ok);
        let (segs, arrs) = split_arrows(stmt);
        if segs.len() >= 2 {
            assert(text_in(segs[0], ok));
            lemma_node_token(segs[0], ok);
            let (id, label, shape) = parse_node_token(segs[0]);
            if id.len() > 0 {
                lemma_upsert_in(st.nodes, id, label, shape, ok);
                lemma_chain_in(FlowState { nodes: upsert(st.nodes, id, label, shape), ..st }, id, segs, arrs, 1, ok);
            }
        }
    } else if words(stmt).len() == 1 || crate::text::find_any(stmt, decl_openers()) is Some {
        lemma_node_token(stmt, ok);
        let (id, label, shape) = parse_node_token(stmt);
        if id.len() > 0 {
            lemma_upsert_in(st.nodes, id, label, shape, ok);
        }
    }
}

proof fn lemma_flow_stmts_in(st: FlowState, ss: Seq<Seq<char>>, ok: spec_fn(char) -> bool)
    requires
        basic(ok),
        flow_in(st, ok),
        all_in(ss, ok),
    ensures
        flow_in(ss.fold_left(st, |st: FlowState, s: Seq<char>| flow_stmt(st, s)), ok),
    decreases ss.len(),
{
    if ss.len() > 0 {
        assert(text_in(ss[ss.len() - 1], ok));
        assert forall|k: int| 0 <= k < ss.drop_last().len() implies text_in(#[trigger] ss.drop_last()[k], ok) by {
            assert(ss.drop_last()[k] == ss[k]);
        }
        lemma_flow_stmts_in(st, ss.drop_last(), ok);
        lemma_flow_stmt_in(ss.drop_last().fold_left(st, |st: FlowState, s: Seq<char>| flow_stmt(st, s)), ss.last(), ok);
    }
}

proof fn lemma_flow_lines_in(st: FlowState, ls: Seq<Seq<char>>, ok: spec_fn(char) -> bool)
    requires
        basic(ok),
        flow_in(st, ok),
        all_in(ls, ok),
    ensures
        flow_in(ls.fold_left(st, |st: FlowState, l: Seq<char>| flow_line(st, l)), ok),
    decreases ls.len(),
{
    if ls.len() > 0 {
        assert(text_in(ls[ls.len() - 1], ok));
        assert forall|k: int| 0 <= k < ls.drop_last().len() implies text_in(#[trigger] ls.drop_last()[k], ok) by {
            assert(ls.drop_last()[k] == ls[k]);
        }
        lemma_flow_lines_in(st, ls.drop_last(), ok);
        let before = ls.drop_last().fold_left(st, |st: FlowState, l: Seq<char>| flow_line(st, l));
        lemma_split_char(ls.last(), ';', ok);
        lemma_flow_stmts_in(before, split_char(ls.last(), ';'), ok);
    }
}

pub proof fn lemma_parse_flowchart_in(source: Seq<char>, ok: spec_fn(char) -> bool)
    requires
        basic(ok),
        text_in(source, ok),
    ensures
        nodes_in(parse_flowchart(source).nodes, ok),
        edges_in(parse_flowchart(source).edges, ok),
{
    lemma_lines(source, ok);
    lemma_flow_lines_in(flow_init(), lines(source), ok);
}

// ---------------------------------------------------------------- sequence, state, pie

proof fn lemma_split_once(s: Seq<char>, c: char, ok: spec_fn(char) -> bool)
    requires
        basic(ok),
        text_in(s, ok),
    ensures
        split_once(s, c) matches Some((a, b)) ==> text_in(a, ok) && text_in(b, ok),
{
    lemma_find_char(s, c);
    if let Some(i) = find_char(s, c) {
        lemma_take(s, i, ok);
        lemma_take(s, i + 1, ok);
    }
}

proof fn lemma_seq_line_in(st: SeqState, raw: Seq<char>, ok: spec_fn(char) -> bool)
    requires
        basic(ok),
        all_in(st.participants, ok),
        edges_in(st.edges, ok),
        text_in(raw, ok),
    ensures
        all_in(seq_line(st, raw).participants, ok),
        edges_in(seq_line(st, raw).edges, ok),
{
    let line = trim(raw);
    lemma_trims(raw, ok);
    if line.len() == 0 || crate::text::starts_with(line, "%%"@) {
    } else if crate::text::starts_with(line, "participant"@) || crate::text::starts_with(line, "actor"@) {
        let w = words(line);
        lemma_words(line, ok);
        if w.len() > 1 {
            assert(text_in(w[1], ok));
            lemma_trims(w[1], ok);
            lemma_add_in(st.participants, trim(w[1]), ok);
        }
    } else {
        if let Some(a) = message_arrow(line) {
            lemma_find(line, a);
            if let Some(pos) = find(line, a) {
                let from = trim(line.take(pos));
                let rest = line.skip(pos + a.len());
                lemma_take(line, pos, ok);
                lemma_take(line, pos + a.len(), ok);
                lemma_trims(line.take(pos), ok);
                lemma_split_once(rest, ':', ok);
                lemma_trims(rest, ok);
                let (to, msg) = match split_once(rest, ':') {
                    Some((t, m)) => (trim(t), trim(m)),
                    None => (trim(rest), Seq::empty()),
                };
                if let Some((t, m)) = split_once(rest, ':') {
                    lemma_trims(t, ok);
                    lemma_trims(m, ok);
                }
                lemma_add_in(st.participants, from, ok);
                lemma_add_in(add_participant(st.participants, from), to, ok);
                let style = if crate::text::starts_with(a, "--"@) {
                    crate::diagram::EdgeStyle::Dotted
                } else {
                    crate::diagram::EdgeStyle::Solid
                };
                let edges = st.edges.push(EdgeV { from, to, label: Some(msg), style });
                assert forall|k: int| 0 <= k < edges.len() implies edge_in(#[trigger] edges[k], ok) by {
                    if k < st.edges.len() {
                        assert(edges[k] == st.edges[k]);
                    }
                }
            }
        }
    }
}

proof fn lemma_add_in(ps: Seq<Seq<char>>, p: Seq<char>, ok: spec_fn(char) -> bool)
    requires
        all_in(ps, ok),
        text_in(p, ok),
    ensures
        all_in(add_participant(ps, p), ok),
{
    let r = add_participant(ps, p);
    assert forall|k: int| 0 <= k < r.len() implies text_in(#[trigger] r[k], ok) by {
        if k < ps.len() {
            assert(r[k] == ps[k]);
        }
    }
}

proof fn lemma_seq_lines_in(st: SeqState, ls: Seq<Seq<char>>, ok: spec_fn(char) -> bool)
    requires
        basic(ok),
        all_in(st.participants, ok),
        edges_in(st.edges, ok),
        all_in(ls, ok),
    ensures
        ({
            let r = ls.fold_left(st, |st: SeqState, l: Seq<char>| seq_line(st, l));
            all_in(r.participants, ok) && edges_in(r.edges, ok)
        }),
    decreases ls.len(),
{
    if ls.len() > 0 {
        assert(text_in(ls[ls.len() - 1], ok));
        assert forall|k: int| 0 <= k < ls.drop_last().len() implies text_in(#[trigger] ls.drop_last()[k], ok) by {
            assert(ls.drop_last()[k] == ls[k]);
        }
        lemma_seq_lines_in(st, ls.drop_last(), ok);
        lemma_seq_line_in(ls.drop_last().fold_left(st, |st: SeqState, l: Seq<char>| seq_line(st, l)), ls.last(), ok);
    }
}

pub proof fn lemma_parse_sequence_in(source: Seq<char>, ok: spec_fn(char) -> bool)
    requires
        basic(ok),
        text_in(source, ok),
    ensures
        all_in(parse_sequence(source).participants, ok),
        edges_in(parse_sequence(source).edges, ok),
{
    lemma_lines(source, ok);
    lemma_seq_lines_in(SeqState { participants: Seq::empty(), edges: Seq::empty() }, lines(source), ok);
}

proof fn lemma_state_line_in(st: StateState, raw: Seq<char>, ok: spec_fn(char) -> bool)
    requires
        basic(ok),
        nodes_in(st.nodes, ok),
        edges_in(st.edges, ok),
        text_in(raw, ok),
    ensures
        nodes_in(state_line(st, raw).nodes, ok),
        edges_in(state_line(st, raw).edges, ok),
{
    let line = trim(raw);
    lemma_trims(raw, ok);
    if crate::text::starts_with(line, "%%"@) || line.len() == 0 || crate::text::starts_with(line, "stateDiagram"@) {
    } else {
        lemma_find(line, "-->"@);
        if let Some(pos) = find(line, "-->"@) {
            let from = trim(line.take(pos));
            let rest = trim(line.skip(pos + "-->"@.len()));
            lemma_take(line, pos, ok);
            lemma_take(line, pos + "-->"@.len(), ok);
            lemma_trims(line.take(pos), ok);
            lemma_trims(line.skip(pos + "-->"@.len()), ok);
            lemma_split_once(rest, ':', ok);
            if let Some((t, l)) = split_once(rest, ':') {
                lemma_trims(t, ok);
                lemma_trims(l, ok);
            }
            let r = state_line(st, raw);
            assert forall|k: int| 0 <= k < r.nodes.len() implies node_in(#[trigger] r.nodes[k], ok) by {
                if k < st.nodes.len() {
                    assert(r.nodes[k] == st.nodes[k]);
                }
            }
            assert forall|k: int| 0 <= k < r.edges.len() implies edge_in(#[trigger] r.edges[k], ok) by {
                if k < st.edges.len() {
                    assert(r.edges[k] == st.edges[k]);
                }
            }
        }
    }
}

proof fn lemma_state_lines_in(st: StateState, ls: Seq<Seq<char>>, ok: spec_fn(char) -> bool)
    requires
        basic(ok),
        nodes_in(st.nodes, ok),
        edges_in(st.edges, ok),
        all_in(ls, ok),
    ensures
        ({
            let r = ls.fold_left(st, |st: StateState, l: Seq<char>| state_line(st, l));
            nodes_in(r.nodes, ok) && edges_in(r.edges, ok)
        }),
    decreases ls.len(),
{
    if ls.len() > 0 {
        assert(text_in(ls[ls.len() - 1], ok));
        assert forall|k: int| 0 <= k < ls.drop_last().len() implies text_in(#[trigger] ls.drop_last()[k], ok) by {
            assert(ls.drop_last()[k] == ls[k]);
        }
        lemma_state_lines_in(st, ls.drop_last(), ok);
        lemma_state_line_in(ls.drop_last().fold_left(st, |st: StateState, l: Seq<char>| state_line(st, l)), ls.last(), ok);
    }
}

pub proof fn lemma_parse_state_in(source: Seq<char>, ok: spec_fn(char) -> bool)
    requires
        basic(ok),
        text_in(source, ok),
    ensures
        nodes_in(parse_state(source).nodes, ok),
        edges_in(parse_state(source).edges, ok),
{
    lemma_lines(source, ok);
    lemma_state_lines_in(StateState { nodes: Seq::empty(), edges: Seq::empty() }, lines(source), ok);
}

proof fn lemma_pie_line_in(nodes: Seq<NodeV>, raw: Seq<char>, ok: spec_fn(char) -> bool)
    requires
        basic(ok),
        nodes_in(nodes, ok),
        text_in(raw, ok),
    ensures
        nodes_in(pie_line(nodes, raw), ok),
{
    let line = trim(raw);
    lemma_trims(raw, ok);
    lemma_find_char(line, ':');
    if let Some((label, value)) = pie_slice(raw) {
        let i = rfind_char(line, ':')->0;
        lemma_take(line, i, ok);
        lemma_take(line, i + 1, ok);
        lemma_trims(line.take(i), ok);
        let q = crate::text::trim(line.take(i));
        lemma_trim_sets(q, seq!['"'], ok);
        lemma_trim_sets(trim_start_set(q, seq!['"']), seq!['"'], ok);
        lemma_trims(unquote(q), ok);
        lemma_trims(line.skip(i + 1), ok);
        reveal_strlit(": ");
        lemma_text_add(label, ": "@, ok);
        lemma_text_add(label + ": "@, value, ok);
        let r = pie_line(nodes, raw);
        assert forall|k: int| 0 <= k < r.len() implies node_in(#[trigger] r[k], ok) by {
            if k < nodes.len() {
                assert(r[k] == nodes[k]);
            }
        }
    }
}

proof fn lemma_pie_lines_in(nodes: Seq<NodeV>, ls: Seq<Seq<char>>, ok: spec_fn(char) -> bool)
    requires
        basic(ok),
        nodes_in(nodes, ok),
        all_in(ls, ok),
    ensures
        nodes_in(ls.fold_left(nodes, |n: Seq<NodeV>, l: Seq<char>| pie_line(n, l)), ok),
    decreases ls.len(),
{
    if ls.len() > 0 {
        assert(text_in(ls[ls.len() - 1], ok));
        assert forall|k: int| 0 <= k < ls.drop_last().len() implies text_in(#[trigger] ls.drop_last()[k], ok) by {
            assert(ls.drop_last()[k] == ls[k]);
        }
        lemma_pie_lines_in(nodes, ls.drop_last(), ok);
        lemma_pie_line_in(ls.drop_last().fold_left(nodes, |n: Seq<NodeV>, l: Seq<char>| pie_line(n, l)), ls.last(), ok);
    }
}

pub proof fn lemma_parse_pie_in(source: Seq<char>, ok: spec_fn(char) -> bool)
    requires
        basic(ok),
        text_in(source, ok),
    ensures
        nodes_in(parse_pie(source).nodes, ok),
{
    lemma_lines(source, ok);
    lemma_pie_lines_in(Seq::empty(), lines(source), ok);
}

// ---------------------------------------------------------------- class diagrams

proof fn lemma_before_char(s: Seq<char>, c: char, ok: spec_fn(char) -> bool)
    requires
        basic(ok),
        text_in(s, ok),
    ensures
        text_in(before_char(s, c), ok),
{
    lemma_find_char(s, c);
    if let Some(i) = find_char(s, c) {
        lemma_take(s, i, ok);
    }
}

proof fn lemma_member_line_in(ms: Seq<MemberV>, raw: Seq<char>, ok: spec_fn(char) -> bool)
    requires
        basic(ok),
        forall|k: int| 0 <= k < ms.len() ==> text_in(#[trigger] ms[k].name, ok),
        text_in(raw, ok),
    ensures
        forall|k: int| 0 <= k < member_line(ms, raw).len() ==> text_in(#[trigger] member_line(ms, raw)[k].name, ok),
{
    let line = trim(raw);
    lemma_trims(raw, ok);
    let l = trim_start_set(line, crate::parser::class::markers());
    lemma_trim_sets(line, crate::parser::class::markers(), ok);
    lemma_before_char(l, '(', ok);
    lemma_before_char(l, ':', ok);
    lemma_trims(before_char(l, '('), ok);
    lemma_trims(before_char(l, ':'), ok);
    lemma_trims(l, ok);
    let r = member_line(ms, raw);
    assert forall|k: int| 0 <= k < r.len() implies text_in(#[trigger] r[k].name, ok) by {
        if k < ms.len() {
            assert(r[k] == ms[k]);
        }
    }
}

proof fn lemma_member_lines_in(ls: Seq<Seq<char>>, ok: spec_fn(char) -> bool)
    requires
        basic(ok),
        all_in(ls, ok),
    ensures
        ({
            let r = ls.fold_left(Seq::<MemberV>::empty(), |m: Seq<MemberV>, l: Seq<char>| member_line(m, l));
            forall|k: int| 0 <= k < r.len() ==> text_in(#[trigger] r[k].name, ok)
        }),
    decreases ls.len(),
{
    if ls.len() > 0 {
        assert(text_in(ls[ls.len() - 1], ok));
        assert forall|k: int| 0 <= k < ls.drop_last().len() implies text_in(#[trigger] ls.drop_last()[k], ok) by {
            assert(ls.drop_last()[k] == ls[k]);
        }
        lemma_member_lines_in(ls.drop_last(), ok);
        lemma_member_line_in(
            ls.drop_last().fold_left(Seq::<MemberV>::empty(), |m: Seq<MemberV>, l: Seq<char>| member_line(m, l)),
            ls.last(),
            ok,
        );
    }
}

proof fn lemma_close_index(rest: Seq<char>, k: int, depth: int)
    ensures
        close_index(rest, k, depth) matches Some(e) ==> 0 <= e < rest.len(),
    decreases rest.len() - k,
{
    if 0 <= k < rest.len() {
        let d1 = if rest[k] == '{' { depth + 1 } else { depth };
        let d2 = if rest[k] == '}' { d1 - 1 } else { d1 };
        if d2 != 0 {
            lemma_close_index(rest, k + 1, d2);
        }
    }
}

proof fn lemma_class_members(def: Seq<char>, ok: spec_fn(char) -> bool)
    requires
        basic(ok),
        text_in(def, ok),
    ensures
        forall|k: int| 0 <= k < class_members(def).len() ==> text_in(#[trigger] class_members(def)[k].name, ok),
{
    lemma_find_char(def, '{');
    if let Some(start) = find_char(def, '{') {
        let rest = def.skip(start + 1);
        lemma_take(def, start + 1, ok);
        lemma_close_index(rest, 0, 1);
        if let Some(end) = close_index(rest, 0, 1) {
            lemma_take(rest, end, ok);
            lemma_lines(rest.take(end), ok);
            lemma_member_lines_in(lines(rest.take(end)), ok);
        }
    }
}

proof fn lemma_gather(ls: Seq<Seq<char>>, i: int, def: Seq<char>, ok: spec_fn(char) -> bool)
    requires
        basic(ok),
        all_in(ls, ok),
        text_in(def, ok),
    ensures
        text_in(gather(ls, i, def).1, ok),
    decreases ls.len() - i,
{
    if crate::text::count_char(def, '{') > crate::text::count_char(def, '}') && 0 <= i && i + 1 < ls.len() {
        assert(text_in(ls[i + 1], ok));
        lemma_trims(ls[i + 1], ok);
        lemma_text_add(def, seq!['\n'], ok);
        lemma_text_add(def + seq!['\n'], trim(ls[i + 1]), ok);
        lemma_gather(ls, i + 1, def + seq!['\n'] + trim(ls[i + 1]), ok);
    }
}

proof fn lemma_last_unquoted(ws: Seq<Seq<char>>, ok: spec_fn(char) -> bool)
    requires
        all_in(ws, ok),
    ensures
        text_in(last_unquoted(ws), ok),
    decreases ws.len(),
{
    if ws.len() > 0 {
        assert(text_in(ws[ws.len() - 1], ok));
        assert forall|k: int| 0 <= k < ws.drop_last().len() implies text_in(#[trigger] ws.drop_last()[k], ok) by {
            assert(ws.drop_last()[k] == ws[k]);
        }
        lemma_last_unquoted(ws.drop_last(), ok);
    }
}

proof fn lemma_first_unquoted(ws: Seq<Seq<char>>, i: int, ok: spec_fn(char) -> bool)
    requires
        all_in(ws, ok),
    ensures
        text_in(first_unquoted(ws, i), ok),
    decreases ws.len() - i,
{
    if 0 <= i < ws.len() {
        assert(text_in(ws[i], ok));
        lemma_first_unquoted(ws, i + 1, ok);
    }
}

proof fn lemma_rel_tokens(ok: spec_fn(char) -> bool)
    requires
        basic(ok),
    ensures
        all_in(rel_tokens(), ok),
{
    reveal_strlit("..|>");
    reveal_strlit("..>");
    reveal_strlit("<|--");
    reveal_strlit("--|>");
    reveal_strlit("*--");
    reveal_strlit("o--");
    reveal_strlit("-->");
    reveal_strlit("--");
    let t = rel_tokens();
    assert forall|k: int| 0 <= k < t.len() implies text_in(#[trigger] t[k], ok) by {
        assert(text_in(t[k], ok));
    }
}

proof fn lemma_first_rel_token(line: Seq<char>, i: int, ok: spec_fn(char) -> bool)
    requires
        all_in(rel_tokens(), ok),
    ensures
        first_rel_token(line, i) matches Some(t) ==> text_in(t, ok),
    decreases rel_tokens().len() - i,
{
    if 0 <= i < rel_tokens().len() {
        assert(text_in(rel_tokens()[i], ok));
        lemma_first_rel_token(line, i + 1, ok);
    }
}

proof fn lemma_class_relationship(line: Seq<char>, ok: spec_fn(char) -> bool)
    requires
        basic(ok),
        text_in(line, ok),
    ensures
        class_relationship(line) matches Some(r) ==> rel_in(r, ok),
{
    lemma_rel_tokens(ok);
    lemma_first_rel_token(line, 0, ok);
    if let Some(token) = first_rel_token(line, 0) {
        lemma_find(line, token);
        if let Some(pos) = find(line, token) {
            lemma_take(line, pos, ok);
            lemma_take(line, pos + token.len(), ok);
            lemma_words(line.take(pos), ok);
            lemma_last_unquoted(words(line.take(pos)), ok);
            lemma_before_char(line.skip(pos + token.len()), ':', ok);
            lemma_words(before_char(line.skip(pos + token.len()), ':'), ok);
            lemma_first_unquoted(words(before_char(line.skip(pos + token.len()), ':')), 0, ok);
        }
    }
}

proof fn lemma_ensure_in(nodes: Seq<NodeV>, name: Seq<char>, ok: spec_fn(char) -> bool)
    requires
        nodes_in(nodes, ok),
        text_in(name, ok),
    ensures
        nodes_in(ensure_class(nodes, name), ok),
{
    let r = ensure_class(nodes, name);
    assert forall|k: int| 0 <= k < r.len() implies node_in(#[trigger] r[k], ok) by {
        if k < nodes.len() {
            assert(r[k] == nodes[k]);
        }
    }
}

pub open spec fn rels_in(rs: Seq<RelationshipV>, ok: spec_fn(char) -> bool) -> bool {
    forall|k: int| 0 <= k < rs.len() ==> rel_in(#[trigger] rs[k], ok)
}

proof fn lemma_class_step_in(ls: Seq<Seq<char>>, i: int, st: ClassState, ok: spec_fn(char) -> bool)
    requires
        basic(ok),
        all_in(ls, ok),
        0 <= i < ls.len(),
        nodes_in(st.nodes, ok),
        rels_in(st.rels, ok),
    ensures
        nodes_in(class_step(ls, i, st).1.nodes, ok),
        rels_in(class_step(ls, i, st).1.rels, ok),
{
    assert(text_in(ls[i], ok));
    let line = trim(ls[i]);
    lemma_trims(ls[i], ok);
    lemma_words(line, ok);
    let w = words(line);
    if crate::text::starts_with(line, "%%"@) || line.len() == 0 || crate::text::starts_with(line, "classDiagram"@) {
    } else if crate::text::starts_with(line, "class"@) && crate::text::contains(line, "{"@) {
        let name = if w.len() > 1 { trim(w[1]) } else { Seq::empty() };
        if w.len() > 1 {
            assert(text_in(w[1], ok));
            lemma_trims(w[1], ok);
        }
        if name.len() > 0 {
            let (j, def) = gather(ls, i, line);
            lemma_gather(ls, i, line, ok);
            lemma_class_members(def, ok);
            let nodes = ensure_class(st.nodes, name);
            lemma_ensure_in(st.nodes, name, ok);
            lemma_index_of_id_bound(nodes, name, 0);
            lemma_index_of_id_bound(st.nodes, name, 0);
            if index_of_id(st.nodes, name, 0) is None {
                assert(nodes[nodes.len() - 1].id == name);
            }
            assert(index_of_id(nodes, name, 0) is Some);
            let idx = index_of_id(nodes, name, 0)->0;
            let n2 = nodes.update(idx, NodeV { members: class_members(def), ..nodes[idx] });
            assert forall|k: int| 0 <= k < n2.len() implies node_in(#[trigger] n2[k], ok) by {
                assert(node_in(nodes[k], ok));
            }
        }
    } else if crate::text::starts_with(line, "class"@) {
        if w.len() > 1 {
            assert(text_in(w[1], ok));
            lemma_ensure_in(st.nodes, w[1], ok);
        }
    } else {
        lemma_class_relationship(line, ok);
        if let Some(r) = class_relationship(line) {
            lemma_ensure_in(st.nodes, r.from, ok);
            lemma_ensure_in(ensure_class(st.nodes, r.from), r.to, ok);
            let rels = st.rels.push(r);
            assert forall|k: int| 0 <= k < rels.len() implies rel_in(#[trigger] rels[k], ok) by {
                if k < st.rels.len() {
                    assert(rels[k] == st.rels[k]);
                }
            }
        }
    }
}

proof fn lemma_class_from_in(ls: Seq<Seq<char>>, i: int, st: ClassState, ok: spec_fn(char) -> bool)
    requires
        basic(ok),
        all_in(ls, ok),
        nodes_in(st.nodes, ok),
        rels_in(st.rels, ok),
    ensures
        nodes_in(class_from(ls, i, st).nodes, ok),
        rels_in(class_from(ls, i, st).rels, ok),
    decreases ls.len() - i,
{
    if 0 <= i < ls.len() {
        lemma_class_step_in(ls, i, st, ok);
        let (j, next) = class_step(ls, i, st);
        if i < j <= ls.len() {
            lemma_class_from_in(ls, j, next, ok);
        }
    }
}

pub proof fn lemma_parse_class_in(source: Seq<char>, ok: spec_fn(char) -> bool)
    requires
        basic(ok),
        text_in(source, ok),
    ensures
        nodes_in(parse_class(source).nodes, ok),
        rels_in(parse_class(source).relationships, ok),
{
    lemma_lines(source, ok);
    lemma_class_from_in(lines(source), 0, ClassState { nodes: Seq::empty(), rels: Seq::empty() }, ok);
}

// ---------------------------------------------------------------- ER diagrams

proof fn lemma_er_block(ls: Seq<Seq<char>>, i: int, segment: Seq<char>, body: Seq<char>, ok: spec_fn(char) -> bool)
    requires
        basic(ok),
        all_in(ls, ok),
        text_in(segment, ok),
        text_in(body, ok),
    ensures
        text_in(er_block(ls, i, segment, body).1, ok),
    decreases ls.len() - i,
{
    lemma_find_char(segment, '}');
    match find_char(segment, '}') {
        Some(c) => {
            lemma_take(segment, c, ok);
            lemma_text_add(body, segment.take(c), ok);
        },
        None => {
            lemma_text_add(body, segment, ok);
            lemma_text_add(body + segment, seq!['\n'], ok);
            if 0 <= i && i + 1 < ls.len() {
                assert(text_in(ls[i + 1], ok));
                lemma_trims(ls[i + 1], ok);
                lemma_er_block(ls, i + 1, trim(ls[i + 1]), body + segment + seq!['\n'], ok);
            }
        },
    }
}

proof fn lemma_er_attrs_in(ls: Seq<Seq<char>>, ok: spec_fn(char) -> bool)
    requires
        basic(ok),
        all_in(ls, ok),
    ensures
        ({
            let r = ls.fold_left(Seq::<AttributeV>::empty(), |a: Seq<AttributeV>, l: Seq<char>| er_attr(a, l));
            forall|k: int| 0 <= k < r.len() ==> text_in(#[trigger] r[k].name, ok)
        }),
    decreases ls.len(),
{
    if ls.len() > 0 {
        assert(text_in(ls[ls.len() - 1], ok));
        assert forall|k: int| 0 <= k < ls.drop_last().len() implies text_in(#[trigger] ls.drop_last()[k], ok) by {
            assert(ls.drop_last()[k] == ls[k]);
        }
        lemma_er_attrs_in(ls.drop_last(), ok);
        let a = ls.drop_last().fold_left(Seq::<AttributeV>::empty(), |a: Seq<AttributeV>, l: Seq<char>| er_attr(a, l));
        let line = trim(ls.last());
        lemma_trims(ls.last(), ok);
        lemma_words(line, ok);
        let r = er_attr(a, ls.last());
        assert forall|k: int| 0 <= k < r.len() implies text_in(#[trigger] r[k].name, ok) by {
            if k < a.len() {
                assert(r[k] == a[k]);
            } else {
                assert(text_in(words(line)[1], ok));
            }
        }
    }
}

proof fn lemma_right_card(s: Seq<char>, i: int, ok: spec_fn(char) -> bool)
    requires
        basic(ok),
    ensures
        right_card_of(s, i) matches Some(c) ==> text_in(c, ok),
    decreases right_cards().len() - i,
{
    reveal_strlit("||");
    reveal_strlit("|{");
    reveal_strlit("|o");
    reveal_strlit("o|");
    reveal_strlit("o{");
    if 0 <= i < right_cards().len() {
        assert(text_in(right_cards()[i], ok));
        lemma_right_card(s, i + 1, ok);
    }
}

proof fn lemma_right_card_len(s: Seq<char>, i: int)
    ensures
        right_card_of(s, i) matches Some(c) ==> c.len() <= s.len(),
    decreases right_cards().len() - i,
{
    if 0 <= i < right_cards().len() && !crate::text::starts_with(s, right_cards()[i]) {
        lemma_right_card_len(s, i + 1);
    }
}

proof fn lemma_er_relationship(line: Seq<char>, ok: spec_fn(char) -> bool)
    requires
        basic(ok),
        text_in(line, ok),
    ensures
        er_relationship(line) matches Some(r) ==> rel_in(r, ok),
{
    reveal_strlit("--");
    lemma_find(line, "--"@);
    if let Some(d) = find(line, "--"@) {
        lemma_take(line, d, ok);
        lemma_take(line, d + 2, ok);
        let before = words(line.take(d));
        lemma_words(line.take(d), ok);
        let after = line.skip(d + 2);
        lemma_right_card(after, 0, ok);
        if before.len() > 0 {
            assert(text_in(before[0], ok));
            let left = if before.len() > 1 { before[1] } else { Seq::empty() };
            if before.len() > 1 {
                assert(text_in(before[1], ok));
            }
            if let Some(rc) = right_card_of(after, 0) {
                lemma_right_card_len(after, 0);
                lemma_take(after, rc.len() as int, ok);
                lemma_trims(after.skip(rc.len() as int), ok);
                let rest = words(trim_start(after.skip(rc.len() as int)));
                lemma_words(trim_start(after.skip(rc.len() as int)), ok);
                if rest.len() > 0 {
                    assert(text_in(rest[0], ok));
                }
                lemma_text_add(left, "--"@, ok);
                lemma_text_add(left + "--"@, rc, ok);
            }
        }
    }
}

pub open spec fn entities_in(es: Seq<EntityV>, ok: spec_fn(char) -> bool) -> bool {
    forall|k: int| 0 <= k < es.len() ==> entity_in(#[trigger] es[k], ok)
}

proof fn lemma_er_step_in(ls: Seq<Seq<char>>, i: int, st: ErState, ok: spec_fn(char) -> bool)
    requires
        basic(ok),
        all_in(ls, ok),
        0 <= i < ls.len(),
        entities_in(st.entities, ok),
        rels_in(st.rels, ok),
    ensures
        entities_in(er_step(ls, i, st).1.entities, ok),
        rels_in(er_step(ls, i, st).1.rels, ok),
{
    assert(text_in(ls[i], ok));
    let line = trim(ls[i]);
    lemma_trims(ls[i], ok);
    if line.len() == 0 || crate::text::starts_with(line, "%%"@) || crate::text::starts_with(line, "erDiagram"@) {
    } else if find_char(line, '{') is Some && !crate::text::contains(line, "--"@) {
        lemma_find_char(line, '{');
        let b = find_char(line, '{')->0;
        lemma_take(line, b, ok);
        lemma_take(line, b + 1, ok);
        lemma_trims(line.take(b), ok);
        lemma_er_block(ls, i, line.skip(b + 1), Seq::empty(), ok);
        let (j, body) = er_block(ls, i, line.skip(b + 1), Seq::empty());
        lemma_lines(body, ok);
        lemma_er_attrs_in(lines(body), ok);
        let r = er_step(ls, i, st).1;
        assert forall|k: int| 0 <= k < r.entities.len() implies entity_in(#[trigger] r.entities[k], ok) by {
            if k < st.entities.len() {
                assert(r.entities[k] == st.entities[k]);
            } else {
                assert(er_body(body) == lines(body).fold_left(
                    Seq::<AttributeV>::empty(),
                    |a: Seq<AttributeV>, l: Seq<char>| er_attr(a, l),
                ));
            }
        }
    } else {
        lemma_er_relationship(line, ok);
        if let Some(rr) = er_relationship(line) {
            let rels = st.rels.push(rr);
            assert forall|k: int| 0 <= k < rels.len() implies rel_in(#[trigger] rels[k], ok) by {
                if k < st.rels.len() {
                    assert(rels[k] == st.rels[k]);
                }
            }
        }
    }
}

proof fn lemma_er_from_in(ls: Seq<Seq<char>>, i: int, st: ErState, ok: spec_fn(char) -> bool)
    requires
        basic(ok),
        all_in(ls, ok),
        entities_in(st.entities, ok),
        rels_in(st.rels, ok),
    ensures
        entities_in(er_from(ls, i, st).entities, ok),
        rels_in(er_from(ls, i, st).rels, ok),
    decreases ls.len() - i,
{
    if 0 <= i < ls.len() {
        lemma_er_step_in(ls, i, st, ok);
        let (j, next) = er_step(ls, i, st);
        if i < j <= ls.len() {
            lemma_er_from_in(ls, j, next, ok);
        }
    }
}

pub proof fn lemma_parse_er_in(source: Seq<char>, ok: spec_fn(char) -> bool)
    requires
        basic(ok),
        text_in(source, ok),
    ensures
        entities_in(parse_er(source).entities, ok),
        rels_in(parse_er(source).relationships, ok),
{
    lemma_lines(source, ok);
    lemma_er_from_in(lines(source), 0, ErState { entities: Seq::empty(), rels: Seq::empty() }, ok);
}

// ---------------------------------------------------------------- whole sources

/// A parsed diagram shows only characters of its source, besides printable
/// ASCII that the parser adds: when `ok` holds the source's characters and
/// printable ASCII, it holds every text of the diagram that a renderer shows.
pub proof fn lemma_parse_mermaid_in(source: Seq<char>, ok: spec_fn(char) -> bool)
    requires
        basic(ok),
        text_in(source, ok),
    ensures
        parse_mermaid_spec(source) matches Ok(d) ==> diagram_in(d, ok),
{
    let s = trim(source);
    lemma_trims(source, ok);
    let t = crate::parser::detect_diagram_type(s);
    let d = parse_as(t, s);
    match t {
        crate::diagram::DiagramType::Sequence => lemma_parse_sequence_in(s, ok),
        crate::diagram::DiagramType::Class => lemma_parse_class_in(s, ok),
        crate::diagram::DiagramType::State => lemma_parse_state_in(s, ok),
        crate::diagram::DiagramType::ER => lemma_parse_er_in(s, ok),
        crate::diagram::DiagramType::Pie => lemma_parse_pie_in(s, ok),
        _ => lemma_parse_flowchart_in(s, ok),
    }
    assert(nodes_in(d.nodes, ok));
    assert(diagram_in(d, ok));
}

} // verus!
