//! Flowchart statements: direction headers, node declarations and chained
//! edges with shapes and `|label|` segments.

use vstd::prelude::*;
use crate::diagram::{
    Diagram, DiagramType, DiagramV, Edge, EdgeStyle, EdgeV, Node, NodeShape, NodeV, edges_closed, empty_diagram_v,
    has_node, ids_distinct, ids_nonempty, node_v,
};
use crate::text::{
    chars_of, lines, lines_of, split_char, split_char_of, string_is, string_of, words, words_of,
    contains, contains_of, copy_of, ends_with, ends_with_of, find, find_any,
    find_any_from, find_any_of, find_char, find_char_of, find_from, find_of, occurs_at, same,
    slice_of, starts_with, starts_with_of, trim, trim_end_set, trim_end_set_of, trim_of,
    trim_start, trim_start_of, trim_start_set, trim_start_set_of,
};

verus! {

// ---------------------------------------------------------------- shapes

/// The shape delimiters, longest and most specific first.
pub open spec fn shape_table() -> Seq<(Seq<char>, Seq<char>, NodeShape)> {
    seq![
        ("(["@, "])"@, NodeShape::Stadium),
        ("[["@, "]]"@, NodeShape::Subroutine),
        ("[("@, ")]"@, NodeShape::Cylinder),
        ("(("@, "))"@, NodeShape::Circle),
        ("{{"@, "}}"@, NodeShape::Hexagon),
        ("[/"@, "\\]"@, NodeShape::Trapezoid),
        ("[/"@, "/]"@, NodeShape::Parallelogram),
        ("["@, "]"@, NodeShape::Rectangle),
        ("("@, ")"@, NodeShape::Rounded),
        ("{"@, "}"@, NodeShape::Diamond),
        (">"@, "]"@, NodeShape::Asymmetric),
    ]
}

/// The characters stripped from an unbalanced shape wrapper.
pub open spec fn bracket_set() -> Seq<char> {
    seq!['[', ']', '(', ')', '{', '}', '>']
}

/// The label and shape of a wrapper such as `[Start]`, trying the table
/// entries from index `i` on.
pub open spec fn shape_from(w: Seq<char>, i: int) -> (Seq<char>, NodeShape)
    decreases shape_table().len() - i,
{
    if i < 0 || i >= shape_table().len() {
        (trim(trim_end_set(trim_start_set(w, bracket_set()), bracket_set())), NodeShape::Rectangle)
    } else {
        let (open, close, shape) = shape_table()[i];
        if w.len() >= open.len() + close.len() && starts_with(w, open) && ends_with(w, close) {
            (trim(w.subrange(open.len() as int, w.len() - close.len())), shape)
        } else {
            shape_from(w, i + 1)
        }
    }
}

pub open spec fn parse_shape(w: Seq<char>) -> (Seq<char>, NodeShape) {
    shape_from(w, 0)
}

fn shape_entry(i: usize) -> (r: (Vec<char>, Vec<char>, NodeShape))
    requires
        i < 11,
    ensures
        r.0@ == shape_table()[i as int].0,
        r.1@ == shape_table()[i as int].1,
        r.2 == shape_table()[i as int].2,
{
    if i == 0 {
        (chars_of("(["), chars_of("])"), NodeShape::Stadium)
    } else if i == 1 {
        (chars_of("[["), chars_of("]]"), NodeShape::Subroutine)
    } else if i == 2 {
        (chars_of("[("), chars_of(")]"), NodeShape::Cylinder)
    } else if i == 3 {
        (chars_of("(("), chars_of("))"), NodeShape::Circle)
    } else if i == 4 {
        (chars_of("{{"), chars_of("}}"), NodeShape::Hexagon)
    } else if i == 5 {
        (chars_of("[/"), chars_of("\\]"), NodeShape::Trapezoid)
    } else if i == 6 {
        (chars_of("[/"), chars_of("/]"), NodeShape::Parallelogram)
    } else if i == 7 {
        (chars_of("["), chars_of("]"), NodeShape::Rectangle)
    } else if i == 8 {
        (chars_of("("), chars_of(")"), NodeShape::Rounded)
    } else if i == 9 {
        (chars_of("{"), chars_of("}"), NodeShape::Diamond)
    } else {
        (chars_of(">"), chars_of("]"), NodeShape::Asymmetric)
    }
}

/// Splits a shape wrapper like `([Done])` into its trimmed label and shape.
pub fn parse_shape_of(w: &[char]) -> (r: (Vec<char>, NodeShape))
    ensures
        (r.0@, r.1) == parse_shape(w@),
{
    let mut i: usize = 0;
    while i < 11
        invariant
            i <= 11,
            parse_shape(w@) == shape_from(w@, i as int),
        decreases 11 - i,
    {
        let (open, close, shape) = shape_entry(i);
        if open.len() <= w.len() && close.len() <= w.len() - open.len() && starts_with_of(w, open.as_slice())
            && ends_with_of(w, close.as_slice()) {
            let inner = slice_of(w, open.len(), w.len() - close.len());
            return (trim_of(inner.as_slice()), shape);
        }
        i = i + 1;
    }
    let set = vec!['[', ']', '(', ')', '{', '}', '>'];
    assert(set@ =~= bracket_set());
    let a = trim_start_set_of(w, set.as_slice());
    let b = trim_end_set_of(a.as_slice(), set.as_slice());
    (trim_of(b.as_slice()), NodeShape::Rectangle)
}

// ---------------------------------------------------------------- node tokens

/// The characters that open a shape wrapper in a node token.
pub open spec fn shape_openers() -> Seq<char> {
    seq!['[', '(', '{', '>']
}

/// `(id, label, shape)` of a node token like `A[Start]`; a plain token keeps
/// `id == label` and a rectangle, and an empty token gives an empty id.
pub open spec fn parse_node_token(token: Seq<char>) -> (Seq<char>, Seq<char>, NodeShape) {
    let t = trim(token);
    if t.len() == 0 {
        (Seq::empty(), Seq::empty(), NodeShape::Rectangle)
    } else {
        match find_any(t, shape_openers()) {
            None => (t, t, NodeShape::Rectangle),
            Some(pos) => {
                let id_part = trim(t.take(pos));
                let (label, shape) = parse_shape(t.skip(pos));
                (if id_part.len() == 0 { label } else { id_part }, label, shape)
            },
        }
    }
}

pub proof fn lemma_find_any_from_bound(s: Seq<char>, set: Seq<char>, i: int)
    ensures
        find_any_from(s, set, i) matches Some(p) ==> i <= p < s.len() && set.contains(s[p]),
    decreases s.len() - i,
{
    if 0 <= i < s.len() && !set.contains(s[i]) {
        lemma_find_any_from_bound(s, set, i + 1);
    }
}

pub fn parse_node_token_of(token: &[char]) -> (r: (Vec<char>, Vec<char>, NodeShape))
    ensures
        (r.0@, r.1@, r.2) == parse_node_token(token@),
{
    let t = trim_of(token);
    if t.len() == 0 {
        return (Vec::new(), Vec::new(), NodeShape::Rectangle);
    }
    let openers = vec!['[', '(', '{', '>'];
    assert(openers@ =~= shape_openers());
    match find_any_of(t.as_slice(), openers.as_slice()) {
        None => (copy_of(t.as_slice()), t, NodeShape::Rectangle),
        Some(pos) => {
            proof {
                lemma_find_any_from_bound(t@, shape_openers(), 0);
            }
            let head = slice_of(t.as_slice(), 0, pos);
            assert(head@ =~= t@.take(pos as int));
            let id_part = trim_of(head.as_slice());
            let tail = slice_of(t.as_slice(), pos, t.len());
            assert(tail@ =~= t@.skip(pos as int));
            let (label, shape) = parse_shape_of(tail.as_slice());
            if id_part.len() == 0 {
                (copy_of(label.as_slice()), label, shape)
            } else {
                (id_part, label, shape)
            }
        },
    }
}

// ---------------------------------------------------------------- edge labels

/// A leading `|label|` of a segment, split off: the label (if non-blank) and
/// the trimmed rest.
pub open spec fn extract_edge_label(segment: Seq<char>) -> (Option<Seq<char>>, Seq<char>) {
    let t = trim_start(segment);
    if t.len() > 0 && t[0] == '|' {
        let rest = t.drop_first();
        match find_char(rest, '|') {
            Some(end) => {
                let label = trim(rest.take(end));
                (if label.len() == 0 { None } else { Some(label) }, trim(rest.skip(end + 1)))
            },
            None => (None, trim(segment)),
        }
    } else {
        (None, trim(segment))
    }
}

pub proof fn lemma_find_from_bound(s: Seq<char>, p: Seq<char>, i: int)
    ensures
        find_from(s, p, i) matches Some(k) ==> i <= k && k + p.len() <= s.len() && occurs_at(s, p, k),
    decreases s.len() + 1 - i,
{
    if !(i < 0 || i + p.len() > s.len()) && !occurs_at(s, p, i) {
        lemma_find_from_bound(s, p, i + 1);
    }
}

pub fn extract_edge_label_of(segment: &[char]) -> (r: (Option<Vec<char>>, Vec<char>))
    ensures
        (match r.0 {
            Some(v) => Some(v@),
            None => None,
        }, r.1@) == extract_edge_label(segment@),
{
    let t = trim_start_of(segment);
    if t.len() > 0 && t[0] == '|' {
        let rest = slice_of(t.as_slice(), 1, t.len());
        assert(rest@ =~= t@.drop_first());
        match find_char_of(rest.as_slice(), '|') {
            Some(end) => {
                proof {
                    lemma_find_from_bound(rest@, seq!['|'], 0);
                }
                let lab = slice_of(rest.as_slice(), 0, end);
                assert(lab@ =~= rest@.take(end as int));
                let label = trim_of(lab.as_slice());
                let node = slice_of(rest.as_slice(), end + 1, rest.len());
                assert(node@ =~= rest@.skip(end + 1));
                let node = trim_of(node.as_slice());
                if label.len() == 0 {
                    return (None, node);
                } else {
                    return (Some(label), node);
                }
            },
            None => {},
        }
    }
    (None, trim_of(segment))
}

// ---------------------------------------------------------------- arrows

/// The flowchart arrow tokens.
pub open spec fn arrow_table() -> Seq<Seq<char>> {
    seq!["-.->"@, "==>"@, "-->"@, "--x"@, "--o"@]
}

fn arrow_entry(i: usize) -> (r: Vec<char>)
    requires
        i < 5,
    ensures
        r@ == arrow_table()[i as int],
{
    if i == 0 {
        chars_of("-.->")
    } else if i == 1 {
        chars_of("==>")
    } else if i == 2 {
        chars_of("-->")
    } else if i == 3 {
        chars_of("--x")
    } else {
        chars_of("--o")
    }
}

/// Some arrow of the table, from index `i` on, occurs in `s`.
pub open spec fn has_arrow_from(s: Seq<char>, i: int) -> bool
    decreases arrow_table().len() - i,
{
    if i < 0 || i >= arrow_table().len() {
        false
    } else {
        contains(s, arrow_table()[i]) || has_arrow_from(s, i + 1)
    }
}

pub fn has_arrow_of(s: &[char]) -> (r: bool)
    ensures
        r == has_arrow_from(s@, 0),
{
    let mut i: usize = 0;
    while i < 5
        invariant
            i <= 5,
            has_arrow_from(s@, 0) == has_arrow_from(s@, i as int),
        decreases 5 - i,
    {
        let a = arrow_entry(i);
        if contains_of(s, a.as_slice()) {
            return true;
        }
        i = i + 1;
    }
    false
}

/// The leftmost arrow in `s` (the longer one on a tie), scanning the table
/// from index `i` with `best` found so far.
pub open spec fn best_arrow_from(s: Seq<char>, i: int, best: Option<(int, Seq<char>)>) -> Option<
    (int, Seq<char>),
>
    decreases arrow_table().len() - i,
{
    if i < 0 || i >= arrow_table().len() {
        best
    } else {
        let a = arrow_table()[i];
        let next = match find(s, a) {
            Some(pos) => {
                let replace = match best {
                    None => true,
                    Some((bp, ba)) => pos < bp || (pos == bp && a.len() > ba.len()),
                };
                if replace {
                    Some((pos, a))
                } else {
                    best
                }
            },
            None => best,
        };
        best_arrow_from(s, i + 1, next)
    }
}

pub open spec fn best_arrow(s: Seq<char>) -> Option<(int, Seq<char>)> {
    best_arrow_from(s, 0, None)
}

fn best_arrow_of(s: &[char]) -> (r: Option<(usize, Vec<char>)>)
    ensures
        match r {
            Some((p, a)) => best_arrow(s@) == Some((p as int, a@)),
            None => best_arrow(s@) is None,
        },
{
    let mut best: Option<(usize, Vec<char>)> = None;
    let mut i: usize = 0;
    while i < 5
        invariant
            i <= 5,
            best_arrow(s@) == best_arrow_from(
                s@,
                i as int,
                match best {
                    Some((p, a)) => Some((p as int, a@)),
                    None => None,
                },
            ),
        decreases 5 - i,
    {
        let a = arrow_entry(i);
        match find_of(s, a.as_slice()) {
            Some(pos) => {
                let replace = match &best {
                    None => true,
                    Some((bp, ba)) => pos < *bp || (pos == *bp && a.len() > ba.len()),
                };
                if replace {
                    best = Some((pos, a));
                }
            },
            None => {},
        }
        i = i + 1;
    }
    best
}

/// The node segments of a statement and the arrow tokens between them.
pub open spec fn split_arrows(s: Seq<char>) -> (Seq<Seq<char>>, Seq<Seq<char>>)
    decreases s.len(),
{
    match best_arrow(s) {
        Some((pos, a)) => {
            if 0 <= pos && pos + a.len() <= s.len() && a.len() > 0 {
                let rest = split_arrows(s.skip(pos + a.len()));
                (seq![s.take(pos)] + rest.0, seq![a] + rest.1)
            } else {
                (seq![s], Seq::empty())
            }
        },
        None => (seq![s], Seq::empty()),
    }
}

pub proof fn lemma_split_arrows_len(s: Seq<char>)
    ensures
        split_arrows(s).0.len() == split_arrows(s).1.len() + 1,
    decreases s.len(),
{
    match best_arrow(s) {
        Some((pos, a)) => {
            if 0 <= pos && pos + a.len() <= s.len() && a.len() > 0 {
                lemma_split_arrows_len(s.skip(pos + a.len()));
            }
        },
        None => {},
    }
}

fn split_arrows_of(line: &[char]) -> (r: (Vec<Vec<char>>, Vec<Vec<char>>))
    ensures
        r.0@.len() == split_arrows(line@).0.len(),
        r.1@.len() == split_arrows(line@).1.len(),
        forall|k: int| 0 <= k < r.0@.len() ==> #[trigger] r.0@[k]@ == split_arrows(line@).0[k],
        forall|k: int| 0 <= k < r.1@.len() ==> #[trigger] r.1@[k]@ == split_arrows(line@).1[k],
{
    let mut segs: Vec<Vec<char>> = Vec::new();
    let mut arrs: Vec<Vec<char>> = Vec::new();
    let mut rem = copy_of(line);
    let ghost sv: Seq<Seq<char>> = Seq::empty();
    let ghost av: Seq<Seq<char>> = Seq::empty();
    loop
        invariant
            segs@.len() == sv.len(),
            arrs@.len() == av.len(),
            forall|k: int| 0 <= k < segs@.len() ==> #[trigger] segs@[k]@ == sv[k],
            forall|k: int| 0 <= k < arrs@.len() ==> #[trigger] arrs@[k]@ == av[k],
            split_arrows(line@) == (sv + split_arrows(rem@).0, av + split_arrows(rem@).1),
        decreases rem@.len(),
    {
        match best_arrow_of(rem.as_slice()) {
            Some((pos, a)) => {
                if pos <= rem.len() && a.len() <= rem.len() - pos && a.len() > 0 {
                    let head = slice_of(rem.as_slice(), 0, pos);
                    assert(head@ =~= rem@.take(pos as int));
                    let next = slice_of(rem.as_slice(), pos + a.len(), rem.len());
                    assert(next@ =~= rem@.skip(pos + a@.len()));
                    proof {
                        let rest = split_arrows(next@);
                        assert(sv + (seq![head@] + rest.0) =~= sv.push(head@) + rest.0);
                        assert(av + (seq![a@] + rest.1) =~= av.push(a@) + rest.1);
                        sv = sv.push(head@);
                        av = av.push(a@);
                    }
                    segs.push(head);
                    arrs.push(a);
                    rem = next;
                } else {
                    proof {
                        assert(sv + seq![rem@] =~= sv.push(rem@));
                        assert(av + Seq::<Seq<char>>::empty() =~= av);
                    }
                    segs.push(rem);
                    return (segs, arrs);
                }
            },
            None => {
                proof {
                    assert(sv + seq![rem@] =~= sv.push(rem@));
                    assert(av + Seq::<Seq<char>>::empty() =~= av);
                }
                segs.push(rem);
                return (segs, arrs);
            },
        }
    }
}

/// The edge style an arrow token stands for.
pub open spec fn style_from_arrow(a: Seq<char>) -> EdgeStyle {
    if a == "==>"@ {
        EdgeStyle::Thick
    } else if a == "-.->"@ {
        EdgeStyle::Dotted
    } else if a == "--x"@ {
        EdgeStyle::CrossEnd
    } else if a == "--o"@ {
        EdgeStyle::CircleEnd
    } else {
        EdgeStyle::Solid
    }
}

pub fn style_from_arrow_of(a: &[char]) -> (r: EdgeStyle)
    ensures
        r == style_from_arrow(a@),
{
    let thick = chars_of("==>");
    let dotted = chars_of("-.->");
    let cross = chars_of("--x");
    let circle = chars_of("--o");
    if same(a, thick.as_slice()) {
        EdgeStyle::Thick
    } else if same(a, dotted.as_slice()) {
        EdgeStyle::Dotted
    } else if same(a, cross.as_slice()) {
        EdgeStyle::CrossEnd
    } else if same(a, circle.as_slice()) {
        EdgeStyle::CircleEnd
    } else {
        EdgeStyle::Solid
    }
}


// ---------------------------------------------------------------- statements

/// What a flowchart has gathered so far.
pub struct FlowState {
    pub direction: Seq<char>,
    pub nodes: Seq<NodeV>,
    pub edges: Seq<EdgeV>,
}

/// The first index at or after `i` of a node with this id.
pub open spec fn index_of_id(nodes: Seq<NodeV>, id: Seq<char>, i: int) -> Option<int>
    decreases nodes.len() - i,
{
    if i < 0 || i >= nodes.len() {
        None
    } else if nodes[i].id == id {
        Some(i)
    } else {
        index_of_id(nodes, id, i + 1)
    }
}

pub proof fn lemma_index_of_id_bound(nodes: Seq<NodeV>, id: Seq<char>, i: int)
    requires
        0 <= i,
    ensures
        index_of_id(nodes, id, i) matches Some(k) ==> i <= k < nodes.len() && nodes[k].id == id,
        index_of_id(nodes, id, i) is None ==> forall|k: int| i <= k < nodes.len() ==> nodes[k].id != id,
    decreases nodes.len() - i,
{
    if 0 <= i < nodes.len() && nodes[i].id != id {
        lemma_index_of_id_bound(nodes, id, i + 1);
    }
}

/// Inserts a node in first-seen order; a node first seen as a bare reference
/// (`label == id`) takes the label and shape of a later declaration.
pub open spec fn upsert(nodes: Seq<NodeV>, id: Seq<char>, label: Seq<char>, shape: NodeShape) -> Seq<NodeV> {
    match index_of_id(nodes, id, 0) {
        Some(i) => if nodes[i].label == nodes[i].id && label != id {
            nodes.update(i, NodeV { label, shape, ..nodes[i] })
        } else {
            nodes
        },
        None => nodes.push(NodeV { shape, ..node_v(id, label) }),
    }
}

pub open spec fn nodes_v(v: Seq<Node>) -> Seq<NodeV> {
    v.map_values(|n: Node| n@)
}

pub open spec fn edges_v(v: Seq<Edge>) -> Seq<EdgeV> {
    v.map_values(|e: Edge| e@)
}

fn upsert_node(nodes: &mut Vec<Node>, id: &[char], label: &[char], shape: NodeShape)
    ensures
        nodes_v(final(nodes)@) == upsert(nodes_v(old(nodes)@), id@, label@, shape),
{
    let ghost old_v = nodes_v(nodes@);
    let mut k: usize = 0;
    while k < nodes.len()
        invariant
            nodes@ == old(nodes)@,
            old_v == nodes_v(nodes@),
            k <= nodes@.len(),
            index_of_id(old_v, id@, 0) == index_of_id(old_v, id@, k as int),
        decreases nodes@.len() - k,
    {
        if string_is(&nodes[k].id, id) {
            if nodes[k].label == nodes[k].id && !same(label, id) {
                let lab = string_of(label);
                nodes[k].label = lab;
                nodes[k].shape = shape;
                assert(nodes_v(nodes@) =~= old_v.update(k as int, NodeV { label: label@, shape, ..old_v[k as int] }));
            }
            return;
        }
        k = k + 1;
    }
    let mut n = Node::new(string_of(id), string_of(label));
    n.shape = shape;
    nodes.push(n);
    assert(nodes_v(nodes@) =~= old_v.push(NodeV { shape, ..node_v(id@, label@) }));
}

/// Draws the edges of a chained statement from segment `i` on, `prev` being
/// the id of the node before it.
pub open spec fn chain(st: FlowState, prev: Seq<char>, segs: Seq<Seq<char>>, arrs: Seq<Seq<char>>, i: int) -> FlowState
    decreases segs.len() - i,
{
    if i < 1 || i >= segs.len() {
        st
    } else {
        let (label, node_str) = extract_edge_label(segs[i]);
        let (to_id, to_label, to_shape) = parse_node_token(node_str);
        if to_id.len() == 0 {
            chain(st, prev, segs, arrs, i + 1)
        } else {
            let nodes = upsert(st.nodes, to_id, to_label, to_shape);
            let edges = st.edges.push(EdgeV { from: prev, to: to_id, label, style: style_from_arrow(arrs[i - 1]) });
            chain(FlowState { nodes, edges, ..st }, to_id, segs, arrs, i + 1)
        }
    }
}

/// An edge statement `A --> B -->|x| C ...`.
pub open spec fn flow_edge(st: FlowState, stmt: Seq<char>) -> FlowState {
    let (segs, arrs) = split_arrows(stmt);
    if segs.len() < 2 {
        st
    } else {
        let (id, label, shape) = parse_node_token(segs[0]);
        if id.len() == 0 {
            st
        } else {
            chain(FlowState { nodes: upsert(st.nodes, id, label, shape), ..st }, id, segs, arrs, 1)
        }
    }
}

/// One of the direction keywords.
pub open spec fn is_direction(w: Seq<char>) -> bool {
    w == "LR"@ || w == "RL"@ || w == "TB"@ || w == "TD"@ || w == "BT"@
}

/// The characters that mark a standalone node declaration.
pub open spec fn decl_openers() -> Seq<char> {
    seq!['[', '(', '{']
}

/// One `;`-separated flowchart statement.
pub open spec fn flow_stmt(st: FlowState, raw: Seq<char>) -> FlowState {
    let stmt = trim(raw);
    if stmt.len() == 0 || starts_with(stmt, "%%"@) || starts_with(stmt, "{"@) {
        st
    } else if starts_with(stmt, "flowchart"@) || starts_with(stmt, "graph"@) {
        let w = words(stmt);
        if w.len() > 1 && is_direction(w[1]) {
            FlowState { direction: w[1], ..st }
        } else {
            st
        }
    } else if has_arrow_from(stmt, 0) {
        flow_edge(st, stmt)
    } else if words(stmt).len() == 1 || find_any(stmt, decl_openers()) is Some {
        let (id, label, shape) = parse_node_token(stmt);
        if id.len() > 0 {
            FlowState { nodes: upsert(st.nodes, id, label, shape), ..st }
        } else {
            st
        }
    } else {
        st
    }
}

/// One source line: its `;`-separated statements in order.
pub open spec fn flow_line(st: FlowState, line: Seq<char>) -> FlowState {
    split_char(line, ';').fold_left(st, |st: FlowState, s: Seq<char>| flow_stmt(st, s))
}

pub open spec fn flow_init() -> FlowState {
    FlowState { direction: seq!['L', 'R'], nodes: Seq::empty(), edges: Seq::empty() }
}

/// The flowchart that `source` describes.
pub open spec fn parse_flowchart(source: Seq<char>) -> DiagramV {
    let st = lines(source).fold_left(flow_init(), |st: FlowState, l: Seq<char>| flow_line(st, l));
    DiagramV {
        direction: st.direction,
        nodes: st.nodes,
        edges: st.edges,
        ..empty_diagram_v(DiagramType::Flowchart)
    }
}

struct FlowExec {
    direction: Vec<char>,
    nodes: Vec<Node>,
    edges: Vec<Edge>,
}

impl FlowExec {
    spec fn model(&self) -> FlowState {
        FlowState { direction: self.direction@, nodes: nodes_v(self.nodes@), edges: edges_v(self.edges@) }
    }
}

fn opt_string(o: Option<Vec<char>>) -> (r: Option<String>)
    ensures
        crate::diagram::opt_view(r) == match o {
            Some(v) => Some(v@),
            None => None,
        },
{
    match o {
        Some(v) => Some(string_of(v.as_slice())),
        None => None,
    }
}

fn flow_edge_exec(st: &mut FlowExec, stmt: &[char])
    ensures
        final(st).model() == flow_edge(old(st).model(), stmt@),
{
    let (segs, arrs) = split_arrows_of(stmt);
    proof {
        lemma_split_arrows_len(stmt@);
    }
    if segs.len() < 2 {
        return;
    }
    let (first_id, first_label, first_shape) = parse_node_token_of(segs[0].as_slice());
    if first_id.len() == 0 {
        return;
    }
    let ghost target = flow_edge(st.model(), stmt@);
    let ghost sv = split_arrows(stmt@).0;
    let ghost av = split_arrows(stmt@).1;
    upsert_node(&mut st.nodes, first_id.as_slice(), first_label.as_slice(), first_shape);
    let mut prev = first_id;
    let mut i: usize = 1;
    while i < segs.len()
        invariant
            segs@.len() == sv.len(),
            arrs@.len() == av.len(),
            sv.len() == av.len() + 1,
            forall|k: int| 0 <= k < segs@.len() ==> #[trigger] segs@[k]@ == sv[k],
            forall|k: int| 0 <= k < arrs@.len() ==> #[trigger] arrs@[k]@ == av[k],
            1 <= i <= segs@.len(),
            target == chain(st.model(), prev@, sv, av, i as int),
        decreases segs@.len() - i,
    {
        let (label, node_str) = extract_edge_label_of(segs[i].as_slice());
        let (to_id, to_label, to_shape) = parse_node_token_of(node_str.as_slice());
        if to_id.len() > 0 {
            upsert_node(&mut st.nodes, to_id.as_slice(), to_label.as_slice(), to_shape);
            let style = style_from_arrow_of(arrs[i - 1].as_slice());
            let e = Edge {
                from: string_of(prev.as_slice()),
                to: string_of(to_id.as_slice()),
                label: opt_string(label),
                style,
            };
            let ghost old_edges = st.edges@;
            st.edges.push(e);
            assert(edges_v(st.edges@) =~= edges_v(old_edges).push(e@));
            prev = to_id;
        }
        i = i + 1;
    }
}

fn is_direction_of(w: &[char]) -> (r: bool)
    ensures
        r == is_direction(w@),
{
    let lr = chars_of("LR");
    let rl = chars_of("RL");
    let tb = chars_of("TB");
    let td = chars_of("TD");
    let bt = chars_of("BT");
    same(w, lr.as_slice()) || same(w, rl.as_slice()) || same(w, tb.as_slice()) || same(w, td.as_slice())
        || same(w, bt.as_slice())
}

fn flow_stmt_exec(st: &mut FlowExec, raw: &[char])
    ensures
        final(st).model() == flow_stmt(old(st).model(), raw@),
{
    let stmt = trim_of(raw);
    let comment = chars_of("%%");
    let brace = chars_of("{");
    if stmt.len() == 0 || starts_with_of(stmt.as_slice(), comment.as_slice()) || starts_with_of(
        stmt.as_slice(),
        brace.as_slice(),
    ) {
        return;
    }
    let kw_flow = chars_of("flowchart");
    let kw_graph = chars_of("graph");
    if starts_with_of(stmt.as_slice(), kw_flow.as_slice()) || starts_with_of(stmt.as_slice(), kw_graph.as_slice()) {
        let w = words_of(stmt.as_slice());
        if w.len() > 1 && is_direction_of(w[1].as_slice()) {
            st.direction = copy_of(w[1].as_slice());
        }
        return;
    }
    if has_arrow_of(stmt.as_slice()) {
        flow_edge_exec(st, stmt.as_slice());
        return;
    }
    let w = words_of(stmt.as_slice());
    let openers = vec!['[', '(', '{'];
    assert(openers@ =~= decl_openers());
    if w.len() == 1 || find_any_of(stmt.as_slice(), openers.as_slice()).is_some() {
        let (id, label, shape) = parse_node_token_of(stmt.as_slice());
        if id.len() > 0 {
            upsert_node(&mut st.nodes, id.as_slice(), label.as_slice(), shape);
        }
    }
}

/// Parses flowchart source (already trimmed) into a diagram.
pub fn parse_flowchart_of(source: &[char]) -> (r: Diagram)
    ensures
        r@ == parse_flowchart(source@),
{
    let mut st = FlowExec { direction: vec!['L', 'R'], nodes: Vec::new(), edges: Vec::new() };
    assert(st.model().direction =~= seq!['L', 'R']);
    assert(st.model().nodes =~= Seq::<NodeV>::empty());
    assert(st.model().edges =~= Seq::<EdgeV>::empty());
    let ls = lines_of(source);
    let ghost lv = lines(source@);
    let mut i: usize = 0;
    while i < ls.len()
        invariant
            ls@.len() == lv.len(),
            forall|k: int| 0 <= k < ls@.len() ==> #[trigger] ls@[k]@ == lv[k],
            i <= ls@.len(),
            st.model() == lv.take(i as int).fold_left(flow_init(), |st: FlowState, l: Seq<char>| flow_line(st, l)),
        decreases ls@.len() - i,
    {
        let parts = split_char_of(ls[i].as_slice(), ';');
        let ghost pv = split_char(ls@[i as int]@, ';');
        let ghost before = st.model();
        let mut j: usize = 0;
        while j < parts.len()
            invariant
                parts@.len() == pv.len(),
                forall|k: int| 0 <= k < parts@.len() ==> #[trigger] parts@[k]@ == pv[k],
                j <= parts@.len(),
                st.model() == pv.take(j as int).fold_left(before, |st: FlowState, s: Seq<char>| flow_stmt(st, s)),
            decreases parts@.len() - j,
        {
            flow_stmt_exec(&mut st, parts[j].as_slice());
            assert(pv.take(j + 1).drop_last() =~= pv.take(j as int));
            j = j + 1;
        }
        assert(pv.take(pv.len() as int) =~= pv);
        assert(lv.take(i + 1).drop_last() =~= lv.take(i as int));
        i = i + 1;
    }
    assert(lv.take(lv.len() as int) =~= lv);
    let d = Diagram {
        diagram_type: DiagramType::Flowchart,
        direction: string_of(st.direction.as_slice()),
        nodes: st.nodes,
        edges: st.edges,
        relationships: Vec::new(),
        participants: Vec::new(),
        entities: Vec::new(),
    };
    assert(d@.relationships =~= Seq::<crate::diagram::RelationshipV>::empty());
    assert(d@.participants =~= Seq::<Seq<char>>::empty());
    assert(d@.entities =~= Seq::<crate::diagram::EntityV>::empty());
    d
}

// ---------------------------------------------------------------- laws

/// The state is a graph: distinct non-empty node ids, and edges between them.
pub open spec fn flow_ok(st: FlowState) -> bool {
    ids_distinct(st.nodes) && ids_nonempty(st.nodes) && edges_closed(st.nodes, st.edges)
}

/// `b` keeps the ids of `a` where they were.
pub open spec fn keeps_ids(a: Seq<NodeV>, b: Seq<NodeV>) -> bool {
    a.len() <= b.len() && forall|k: int| 0 <= k < a.len() ==> #[trigger] b[k].id == a[k].id
}

pub proof fn lemma_keeps_has(a: Seq<NodeV>, b: Seq<NodeV>, id: Seq<char>)
    requires
        keeps_ids(a, b),
        has_node(a, id),
    ensures
        has_node(b, id),
{
    let k = choose|k: int| 0 <= k < a.len() && #[trigger] a[k].id == id;
    assert(b[k].id == id);
}

proof fn lemma_keeps_closed(a: Seq<NodeV>, b: Seq<NodeV>, edges: Seq<EdgeV>)
    requires
        keeps_ids(a, b),
        edges_closed(a, edges),
    ensures
        edges_closed(b, edges),
{
    assert forall|i: int| 0 <= i < edges.len() implies has_node(b, #[trigger] edges[i].from) && has_node(b, edges[i].to) by {
        lemma_keeps_has(a, b, edges[i].from);
        lemma_keeps_has(a, b, edges[i].to);
    }
}

/// Upserting keeps the ids in place, keeps them distinct, and leaves a node
/// with the new id.
pub proof fn lemma_upsert(nodes: Seq<NodeV>, id: Seq<char>, label: Seq<char>, shape: NodeShape)
    requires
        ids_distinct(nodes),
        ids_nonempty(nodes),
        id.len() > 0,
    ensures
        ids_distinct(upsert(nodes, id, label, shape)),
        ids_nonempty(upsert(nodes, id, label, shape)),
        keeps_ids(nodes, upsert(nodes, id, label, shape)),
        has_node(upsert(nodes, id, label, shape), id),
{
    lemma_index_of_id_bound(nodes, id, 0);
    let r = upsert(nodes, id, label, shape);
    match index_of_id(nodes, id, 0) {
        Some(i) => {
            assert(r[i].id == id);
        },
        None => {
            assert(r[nodes.len() as int].id == id);
        },
    }
}

proof fn lemma_chain(st: FlowState, prev: Seq<char>, segs: Seq<Seq<char>>, arrs: Seq<Seq<char>>, i: int)
    requires
        flow_ok(st),
        has_node(st.nodes, prev),
    ensures
        flow_ok(chain(st, prev, segs, arrs, i)),
    decreases segs.len() - i,
{
    if 1 <= i < segs.len() {
        let (label, node_str) = extract_edge_label(segs[i]);
        let (to_id, to_label, to_shape) = parse_node_token(node_str);
        if to_id.len() == 0 {
            lemma_chain(st, prev, segs, arrs, i + 1);
        } else {
            let nodes = upsert(st.nodes, to_id, to_label, to_shape);
            let e = EdgeV { from: prev, to: to_id, label, style: style_from_arrow(arrs[i - 1]) };
            let edges = st.edges.push(e);
            lemma_upsert(st.nodes, to_id, to_label, to_shape);
            lemma_keeps_closed(st.nodes, nodes, st.edges);
            lemma_keeps_has(st.nodes, nodes, prev);
            assert(edges_closed(nodes, edges)) by {
                assert forall|k: int| 0 <= k < edges.len() implies has_node(nodes, #[trigger] edges[k].from)
                    && has_node(nodes, edges[k].to) by {
                    if k < st.edges.len() {
                        assert(edges[k] == st.edges[k]);
                    }
                }
            }
            lemma_chain(FlowState { nodes, edges, ..st }, to_id, segs, arrs, i + 1);
        }
    }
}

proof fn lemma_flow_stmt(st: FlowState, raw: Seq<char>)
    requires
        flow_ok(st),
    ensures
        flow_ok(flow_stmt(st, raw)),
{
    let stmt = trim(raw);
    if stmt.len() == 0 || starts_with(stmt, "%%"@) || starts_with(stmt, "{"@) {
    } else if starts_with(stmt, "flowchart"@) || starts_with(stmt, "graph"@) {
    } else if has_arrow_from(stmt, 0) {
        let (segs, arrs) = split_arrows(stmt);
        if segs.len() >= 2 {
            let (id, label, shape) = parse_node_token(segs[0]);
            if id.len() > 0 {
                lemma_upsert(st.nodes, id, label, shape);
                lemma_keeps_closed(st.nodes, upsert(st.nodes, id, label, shape), st.edges);
                lemma_chain(FlowState { nodes: upsert(st.nodes, id, label, shape), ..st }, id, segs, arrs, 1);
            }
        }
    } else if words(stmt).len() == 1 || find_any(stmt, decl_openers()) is Some {
        let (id, label, shape) = parse_node_token(stmt);
        if id.len() > 0 {
            lemma_upsert(st.nodes, id, label, shape);
            lemma_keeps_closed(st.nodes, upsert(st.nodes, id, label, shape), st.edges);
        }
    }
}

proof fn lemma_flow_stmts(st: FlowState, ss: Seq<Seq<char>>)
    requires
        flow_ok(st),
    ensures
        flow_ok(ss.fold_left(st, |st: FlowState, s: Seq<char>| flow_stmt(st, s))),
    decreases ss.len(),
{
    if ss.len() > 0 {
        lemma_flow_stmts(st, ss.drop_last());
        lemma_flow_stmt(ss.drop_last().fold_left(st, |st: FlowState, s: Seq<char>| flow_stmt(st, s)), ss.last());
    }
}

proof fn lemma_flow_lines(st: FlowState, ls: Seq<Seq<char>>)
    requires
        flow_ok(st),
    ensures
        flow_ok(ls.fold_left(st, |st: FlowState, l: Seq<char>| flow_line(st, l))),
    decreases ls.len(),
{
    if ls.len() > 0 {
        lemma_flow_lines(st, ls.drop_last());
        let before = ls.drop_last().fold_left(st, |st: FlowState, l: Seq<char>| flow_line(st, l));
        lemma_flow_stmts(before, split_char(ls.last(), ';'));
    }
}

/// Parsing a flowchart keeps one node per id (ids are never empty), and every
/// edge joins two of its nodes: a node named only in an edge is declared by it.
pub proof fn law_flowchart_is_a_graph(source: Seq<char>)
    ensures
        ids_distinct(parse_flowchart(source).nodes),
        ids_nonempty(parse_flowchart(source).nodes),
        edges_closed(parse_flowchart(source).nodes, parse_flowchart(source).edges),
{
    lemma_flow_lines(flow_init(), lines(source));
}

/// Upserting a node: a new id is appended as a fresh node with the given
/// label and shape; for an id already present, only that node may change,
/// and it takes the label and shape exactly when it was a bare reference
/// (its label is its id) and the new label is not just the id. Ids stay
/// distinct.
pub proof fn law_upsert(nodes: Seq<NodeV>, id: Seq<char>, label: Seq<char>, shape: NodeShape)
    requires
        ids_distinct(nodes),
    ensures
        (forall|k: int| 0 <= k < nodes.len() ==> nodes[k].id != id) ==> upsert(nodes, id, label, shape)
            == nodes.push(NodeV { shape, ..node_v(id, label) }),
        forall|i: int| 0 <= i < nodes.len() && #[trigger] nodes[i].id == id ==> {
            let r = upsert(nodes, id, label, shape);
            &&& r.len() == nodes.len()
            &&& forall|k: int| 0 <= k < nodes.len() && k != i ==> r[k] == nodes[k]
            &&& r[i] == if nodes[i].label == nodes[i].id && label != id {
                NodeV { label, shape, ..nodes[i] }
            } else {
                nodes[i]
            }
        },
        ids_distinct(upsert(nodes, id, label, shape)),
{
    lemma_index_of_id_bound(nodes, id, 0);
    let r = upsert(nodes, id, label, shape);
    match index_of_id(nodes, id, 0) {
        Some(j) => {
            assert forall|i: int| 0 <= i < nodes.len() && #[trigger] nodes[i].id == id implies i == j by {
                if i != j {
                    if i < j {
                        assert(nodes[i].id != nodes[j].id);
                    } else {
                        assert(nodes[j].id != nodes[i].id);
                    }
                }
            }
            assert forall|a: int, b: int| 0 <= a < b < r.len() implies r[a].id != r[b].id by {
                assert(r[a].id == nodes[a].id && r[b].id == nodes[b].id);
            }
        },
        None => {
            assert forall|a: int, b: int| 0 <= a < b < r.len() implies r[a].id != r[b].id by {
                if b == nodes.len() {
                    assert(r[a] == nodes[a]);
                } else {
                    assert(r[a] == nodes[a] && r[b] == nodes[b]);
                }
            }
        },
    }
}

} // verus!
