//! Pie charts: `"label" : value` lines become nodes labelled `label: value`.

use vstd::prelude::*;
use crate::diagram::{Diagram, DiagramType, DiagramV, Node, NodeV, empty_diagram_v, node_v};
use crate::parser::flowchart::nodes_v;
use crate::text::{
    chars_of, concat, lines, lines_of, rfind_char, rfind_char_of, slice_of, starts_with,
    starts_with_of, string_of, trim, trim_end_set, trim_end_set_of, trim_of, trim_start_set,
    trim_start_set_of,
};

verus! {

/// `s` without the double quotes at either end.
pub open spec fn unquote(s: Seq<char>) -> Seq<char> {
    trim_end_set(trim_start_set(s, seq!['"']), seq!['"'])
}

/// One line of a pie chart: the label and value of a slice, split at the
/// last colon, when the line is one.
pub open spec fn pie_slice(raw: Seq<char>) -> Option<(Seq<char>, Seq<char>)> {
    let line = trim(raw);
    if starts_with(line, "pie"@) || starts_with(line, "title"@) || starts_with(line, "%%"@)
        || line.len() == 0 {
        None
    } else {
        match rfind_char(line, ':') {
            Some(i) => {
                let label = trim(unquote(trim(line.take(i))));
                let value = trim(line.skip(i + 1));
                if label.len() > 0 {
                    Some((label, value))
                } else {
                    None
                }
            },
            None => None,
        }
    }
}

pub open spec fn pie_line(nodes: Seq<NodeV>, raw: Seq<char>) -> Seq<NodeV> {
    match pie_slice(raw) {
        Some((label, value)) => nodes.push(node_v(label, label + ": "@ + value)),
        None => nodes,
    }
}

/// The pie chart that `source` describes.
pub open spec fn parse_pie(source: Seq<char>) -> DiagramV {
    DiagramV {
        nodes: lines(source).fold_left(Seq::empty(), |n: Seq<NodeV>, l: Seq<char>| pie_line(n, l)),
        ..empty_diagram_v(DiagramType::Pie)
    }
}

fn pie_slice_of(raw: &[char]) -> (r: Option<(Vec<char>, Vec<char>)>)
    ensures
        match r {
            Some((l, v)) => pie_slice(raw@) == Some((l@, v@)),
            None => pie_slice(raw@) is None,
        },
{
    let line = trim_of(raw);
    let k1 = chars_of("pie");
    let k2 = chars_of("title");
    let k3 = chars_of("%%");
    if starts_with_of(line.as_slice(), k1.as_slice()) || starts_with_of(line.as_slice(), k2.as_slice())
        || starts_with_of(line.as_slice(), k3.as_slice()) || line.len() == 0 {
        return None;
    }
    match rfind_char_of(line.as_slice(), ':') {
        Some(i) => {
            let n = line.len();
            let head = slice_of(line.as_slice(), 0, i);
            assert(head@ =~= line@.take(i as int));
            let quote = vec!['"'];
            assert(quote@ =~= seq!['"']);
            let a = trim_of(head.as_slice());
            let b = trim_start_set_of(a.as_slice(), quote.as_slice());
            let c = trim_end_set_of(b.as_slice(), quote.as_slice());
            let label = trim_of(c.as_slice());
            let tail = slice_of(line.as_slice(), i + 1, n);
            assert(tail@ =~= line@.skip(i + 1));
            let value = trim_of(tail.as_slice());
            if label.len() > 0 {
                Some((label, value))
            } else {
                None
            }
        },
        None => None,
    }
}

/// Parses pie-chart source (already trimmed) into a diagram.
pub fn parse_pie_of(source: &[char]) -> (r: Diagram)
    ensures
        r@ == parse_pie(source@),
{
    let mut nodes: Vec<Node> = Vec::new();
    assert(nodes_v(nodes@) =~= Seq::<NodeV>::empty());
    let ls = lines_of(source);
    let ghost lv = lines(source@);
    let mut i: usize = 0;
    while i < ls.len()
        invariant
            ls@.len() == lv.len(),
            forall|k: int| 0 <= k < ls@.len() ==> #[trigger] ls@[k]@ == lv[k],
            i <= ls@.len(),
            nodes_v(nodes@) == lv.take(i as int).fold_left(Seq::<NodeV>::empty(), |n: Seq<NodeV>, l: Seq<char>| pie_line(n, l)),
        decreases ls@.len() - i,
    {
        let ghost before = nodes_v(nodes@);
        match pie_slice_of(ls[i].as_slice()) {
            Some((label, value)) => {
                let sep = chars_of(": ");
                let a = concat(label.as_slice(), sep.as_slice());
                let full = concat(a.as_slice(), value.as_slice());
                nodes.push(Node::new(string_of(label.as_slice()), string_of(full.as_slice())));
                assert(nodes_v(nodes@) =~= before.push(node_v(label@, label@ + ": "@ + value@)));
            },
            None => {},
        }
        assert(lv.take(i + 1).drop_last() =~= lv.take(i as int));
        i = i + 1;
    }
    assert(lv.take(lv.len() as int) =~= lv);
    let mut d = Diagram::empty_of(DiagramType::Pie);
    d.nodes = nodes;
    d
}

} // verus!
