//! State diagrams: `A --> B: label` transitions, `[*]` kept as a marker.

use vstd::prelude::*;
use crate::diagram::{Diagram, DiagramType, DiagramV, Edge, EdgeV, Node, NodeV, edge_v, empty_diagram_v, node_v};
use crate::parser::flowchart::{edges_v, nodes_v};
use crate::parser::sequence::{split_once, split_once_of};
use crate::text::{
    chars_of, find, find_of, lines, lines_of, slice_of, starts_with,
    starts_with_of, string_of, trim, trim_of,
};

verus! {

pub struct StateState {
    pub nodes: Seq<NodeV>,
    pub edges: Seq<EdgeV>,
}

/// One line of a state diagram.
pub open spec fn state_line(st: StateState, raw: Seq<char>) -> StateState {
    let line = trim(raw);
    if starts_with(line, "%%"@) || line.len() == 0 || starts_with(line, "stateDiagram"@) {
        st
    } else {
        match find(line, "-->"@) {
            Some(pos) => {
                let from = trim(line.take(pos));
                let rest = trim(line.skip(pos + "-->"@.len()));
                let (to, label) = match split_once(rest, ':') {
                    Some((t, l)) => (trim(t), Some(trim(l))),
                    None => (rest, None),
                };
                let n1 = if from.len() > 0 { st.nodes.push(node_v(from, from)) } else { st.nodes };
                let n2 = if to.len() > 0 { n1.push(node_v(to, to)) } else { n1 };
                StateState { nodes: n2, edges: st.edges.push(EdgeV { label, ..edge_v(from, to) }) }
            },
            None => st,
        }
    }
}

/// The state diagram that `source` describes.
pub open spec fn parse_state(source: Seq<char>) -> DiagramV {
    let st = lines(source).fold_left(
        StateState { nodes: Seq::empty(), edges: Seq::empty() },
        |st: StateState, l: Seq<char>| state_line(st, l),
    );
    DiagramV { nodes: st.nodes, edges: st.edges, ..empty_diagram_v(DiagramType::State) }
}

fn opt_chars_string(o: Option<Vec<char>>) -> (r: Option<String>)
    ensures
        crate::diagram::opt_view(r) == match o {
            Some(v) => Some(v@),
            None => None,
        },
{
    match o {
        Some(v) => Some(string_of(v.as_slice())),
        None => None,
    }
}

fn state_line_exec(nodes: &mut Vec<Node>, edges: &mut Vec<Edge>, raw: &[char])
    ensures
        (StateState { nodes: nodes_v(final(nodes)@), edges: edges_v(final(edges)@) }) == state_line(
            StateState { nodes: nodes_v(old(nodes)@), edges: edges_v(old(edges)@) },
            raw@,
        ),
{
    let line = trim_of(raw);
    let comment = chars_of("%%");
    let kw = chars_of("stateDiagram");
    if starts_with_of(line.as_slice(), comment.as_slice()) || line.len() == 0 || starts_with_of(
        line.as_slice(),
        kw.as_slice(),
    ) {
        return;
    }
    let arrow = chars_of("-->");
    match find_of(line.as_slice(), arrow.as_slice()) {
        Some(pos) => {
            let n = line.len();
            let head = slice_of(line.as_slice(), 0, pos);
            assert(head@ =~= line@.take(pos as int));
            let from = trim_of(head.as_slice());
            let tail = slice_of(line.as_slice(), pos + arrow.len(), n);
            assert(tail@ =~= line@.skip(pos + arrow@.len()));
            let rest = trim_of(tail.as_slice());
            let (to, label) = match split_once_of(rest.as_slice(), ':') {
                Some((t, l)) => (trim_of(t.as_slice()), Some(trim_of(l.as_slice()))),
                None => (rest, None),
            };
            let ghost n0 = nodes_v(nodes@);
            if from.len() > 0 {
                nodes.push(Node::new(string_of(from.as_slice()), string_of(from.as_slice())));
            }
            let ghost n1 = if from@.len() > 0 { n0.push(node_v(from@, from@)) } else { n0 };
            assert(nodes_v(nodes@) =~= n1);
            if to.len() > 0 {
                nodes.push(Node::new(string_of(to.as_slice()), string_of(to.as_slice())));
            }
            let ghost n2 = if to@.len() > 0 { n1.push(node_v(to@, to@)) } else { n1 };
            assert(nodes_v(nodes@) =~= n2);
            let mut e = Edge::new(string_of(from.as_slice()), string_of(to.as_slice()));
            e.label = opt_chars_string(label);
            let ghost e0 = edges_v(edges@);
            edges.push(e);
            assert(edges_v(edges@) =~= e0.push(e@));
        },
        None => {},
    }
}

/// Parses state-diagram source (already trimmed) into a diagram.
pub fn parse_state_of(source: &[char]) -> (r: Diagram)
    ensures
        r@ == parse_state(source@),
{
    let mut nodes: Vec<Node> = Vec::new();
    let mut edges: Vec<Edge> = Vec::new();
    let ghost init = StateState { nodes: Seq::empty(), edges: Seq::empty() };
    assert(nodes_v(nodes@) =~= init.nodes);
    assert(edges_v(edges@) =~= init.edges);
    let ls = lines_of(source);
    let ghost lv = lines(source@);
    let mut i: usize = 0;
    while i < ls.len()
        invariant
            ls@.len() == lv.len(),
            forall|k: int| 0 <= k < ls@.len() ==> #[trigger] ls@[k]@ == lv[k],
            i <= ls@.len(),
            (StateState { nodes: nodes_v(nodes@), edges: edges_v(edges@) }) == lv.take(i as int).fold_left(
                init,
                |st: StateState, l: Seq<char>| state_line(st, l),
            ),
        decreases ls@.len() - i,
    {
        state_line_exec(&mut nodes, &mut edges, ls[i].as_slice());
        assert(lv.take(i + 1).drop_last() =~= lv.take(i as int));
        i = i + 1;
    }
    assert(lv.take(lv.len() as int) =~= lv);
    let mut d = Diagram::empty_of(DiagramType::State);
    d.nodes = nodes;
    d.edges = edges;
    d
}

} // verus!
