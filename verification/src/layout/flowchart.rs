//! Flowcharts: longest-path layering into columns, then rows chosen so each
//! node sits at the mean row of its predecessors, siblings kept apart.

use vstd::prelude::*;
use crate::arith::{lemma_round_half_up, max_int, sadd, sat_add, sat_mul, smul};
use crate::diagram::{Diagram, DiagramV, Edge, EdgeV, Node, NodeV};
use crate::layout::{LayoutResult, LayoutV, Position, PositionMap, boxes_ok, lemma_pm_insert_ok, node_ids, pm_insert};
use crate::layout::rational::{
    Rat, add_of, div_of, int_of, lt_of, r_add, r_div, r_int, r_lt, r_sub, sub_of, wf,
};
use crate::text::{chars_of, string_is};
use crate::width::{display_width, width_of};

verus! {

// ---------------------------------------------------------------- layering

/// The index of the last node whose id is `key`.
pub open spec fn last_index(ids: Seq<Seq<char>>, key: Seq<char>) -> Option<usize>
    decreases ids.len(),
{
    if ids.len() == 0 {
        None
    } else if ids.last() == key {
        Some((ids.len() - 1) as usize)
    } else {
        last_index(ids.drop_last(), key)
    }
}

/// The edges whose ends are both nodes, as pairs of node indices.
pub open spec fn edge_pairs(ids: Seq<Seq<char>>, edges: Seq<EdgeV>) -> Seq<(usize, usize)>
    decreases edges.len(),
{
    if edges.len() == 0 {
        Seq::empty()
    } else {
        let rest = edge_pairs(ids, edges.drop_last());
        match (last_index(ids, edges.last().from), last_index(ids, edges.last().to)) {
            (Some(u), Some(v)) => rest.push((u, v)),
            _ => rest,
        }
    }
}

/// One pass over the edges, lifting each target to one past its source
/// (saturating); the flag records whether anything moved.
pub open spec fn relax(layer: Seq<usize>, changed: bool, pairs: Seq<(usize, usize)>) -> (Seq<usize>, bool)
    decreases pairs.len(),
{
    if pairs.len() == 0 {
        (layer, changed)
    } else {
        let (l, c) = relax(layer, changed, pairs.drop_last());
        let u = pairs.last().0;
        let v = pairs.last().1;
        let up = sat_add(l[u as int] as int, 1) as usize;
        if u != v && l[v as int] < up {
            (l.update(v as int, up), true)
        } else {
            (l, c)
        }
    }
}

/// Up to `rounds` passes, stopping after the first pass that moves nothing.
pub open spec fn settle(layer: Seq<usize>, pairs: Seq<(usize, usize)>, rounds: nat) -> Seq<usize>
    decreases rounds,
{
    if rounds == 0 {
        layer
    } else {
        let (l, c) = relax(layer, false, pairs);
        if !c {
            l
        } else {
            settle(l, pairs, (rounds - 1) as nat)
        }
    }
}

/// Each node's layer: the longest chain of edges reaching it, found by at
/// most one relaxation pass per node.
pub open spec fn layers_of(n: nat, pairs: Seq<(usize, usize)>) -> Seq<usize> {
    settle(Seq::new(n, |i: int| 0usize), pairs, n)
}

proof fn lemma_relax_len(layer: Seq<usize>, changed: bool, pairs: Seq<(usize, usize)>)
    requires
        pairs_in(pairs, layer.len()),
    ensures
        relax(layer, changed, pairs).0.len() == layer.len(),
    decreases pairs.len(),
{
    if pairs.len() > 0 {
        let p = pairs.drop_last();
        assert forall|k: int| 0 <= k < p.len() implies (#[trigger] p[k]).0 < layer.len() && p[k].1 < layer.len() by {
            assert(p[k] == pairs[k]);
        }
        lemma_relax_len(layer, changed, p);
        assert(pairs[pairs.len() - 1].1 < layer.len());
    }
}

proof fn lemma_settle_len(layer: Seq<usize>, pairs: Seq<(usize, usize)>, rounds: nat)
    requires
        pairs_in(pairs, layer.len()),
    ensures
        settle(layer, pairs, rounds).len() == layer.len(),
    decreases rounds,
{
    lemma_relax_len(layer, false, pairs);
    if rounds > 0 {
        let (l, c) = relax(layer, false, pairs);
        lemma_settle_len(l, pairs, (rounds - 1) as nat);
    }
}

/// There is one layer per node.
pub proof fn lemma_layers_len(n: nat, pairs: Seq<(usize, usize)>)
    requires
        pairs_in(pairs, n),
    ensures
        layers_of(n, pairs).len() == n,
{
    lemma_settle_len(Seq::new(n, |i: int| 0usize), pairs, n);
}

/// When a relaxation pass moves nothing, every edge between two different
/// nodes points to a strictly higher layer (one past its source, saturating).
pub proof fn law_settled_edges_point_forward(layer: Seq<usize>, pairs: Seq<(usize, usize)>)
    requires
        relax(layer, false, pairs).1 == false,
    ensures
        relax(layer, false, pairs).0 == layer,
        forall|k: int|
            0 <= k < pairs.len() && (#[trigger] pairs[k]).0 != pairs[k].1 ==> layer[pairs[k].1 as int] >= sat_add(
                layer[pairs[k].0 as int] as int,
                1,
            ),
    decreases pairs.len(),
{
    if pairs.len() > 0 {
        let p = pairs.drop_last();
        let (l, c) = relax(layer, false, p);
        // The flag never goes back to false, so the shorter pass moved nothing either.
        lemma_relax_flag(layer, p);
        law_settled_edges_point_forward(layer, p);
        assert forall|k: int| 0 <= k < pairs.len() && (#[trigger] pairs[k]).0 != pairs[k].1 implies layer[pairs[k].1 as int]
            >= sat_add(layer[pairs[k].0 as int] as int, 1) by {
            if k < pairs.len() - 1 {
                assert(pairs[k] == p[k]);
            }
        }
    }
}

/// A pass that starts with its flag set ends with it set.
proof fn lemma_relax_flag(layer: Seq<usize>, pairs: Seq<(usize, usize)>)
    ensures
        relax(layer, true, pairs).1 == true,
        relax(layer, false, pairs).1 == false ==> relax(layer, false, pairs).0 == layer,
    decreases pairs.len(),
{
    if pairs.len() > 0 {
        lemma_relax_flag(layer, pairs.drop_last());
    }
}

/// The number of layers at least `lo`.
pub open spec fn count_ge(layer: Seq<usize>, lo: int) -> nat
    decreases layer.len(),
{
    if layer.len() == 0 {
        0
    } else {
        count_ge(layer.drop_last(), lo) + if layer.last() >= lo { 1nat } else { 0nat }
    }
}

/// The smallest layer at least `lo`.
pub open spec fn min_ge(layer: Seq<usize>, lo: int) -> Option<usize>
    decreases layer.len(),
{
    if layer.len() == 0 {
        None
    } else {
        let r = min_ge(layer.drop_last(), lo);
        let x = layer.last();
        if x >= lo {
            match r {
                Some(m) => if m <= x { Some(m) } else { Some(x) },
                None => Some(x),
            }
        } else {
            r
        }
    }
}

pub proof fn lemma_min_ge(layer: Seq<usize>, lo: int)
    ensures
        min_ge(layer, lo) matches Some(m) ==> lo <= m && count_ge(layer, m + 1) < count_ge(layer, lo),
        min_ge(layer, lo) matches Some(m) ==> forall|i: int|
            0 <= i < layer.len() && layer[i] >= lo ==> layer[i] >= m,
        min_ge(layer, lo) is None ==> forall|i: int| 0 <= i < layer.len() ==> layer[i] < lo,
        count_ge(layer, lo + 1) <= count_ge(layer, lo),
    decreases layer.len(),
{
    lemma_count_ge_mono(layer, lo, lo + 1);
    if layer.len() > 0 {
        let p = layer.drop_last();
        let x = layer.last();
        lemma_min_ge(p, lo);
        assert forall|i: int| 0 <= i < p.len() implies layer[i] == p[i] by {}
        if x >= lo {
            match min_ge(p, lo) {
                Some(m) => {
                    if m > x {
                        lemma_count_ge_mono(p, lo, x + 1);
                    }
                },
                None => {
                    assert forall|i: int| 0 <= i < p.len() implies p[i] < x + 1 by {}
                    lemma_count_ge_zero(p, x + 1);
                },
            }
        } else {
            match min_ge(p, lo) {
                Some(m) => {},
                None => {},
            }
        }
    }
}

proof fn lemma_count_ge_mono(layer: Seq<usize>, a: int, b: int)
    requires
        a <= b,
    ensures
        count_ge(layer, b) <= count_ge(layer, a),
    decreases layer.len(),
{
    if layer.len() > 0 {
        lemma_count_ge_mono(layer.drop_last(), a, b);
    }
}

proof fn lemma_count_ge_zero(layer: Seq<usize>, lo: int)
    requires
        forall|i: int| 0 <= i < layer.len() ==> layer[i] < lo,
    ensures
        count_ge(layer, lo) == 0,
    decreases layer.len(),
{
    if layer.len() > 0 {
        let p = layer.drop_last();
        assert forall|i: int| 0 <= i < p.len() implies p[i] < lo by {
            assert(p[i] == layer[i]);
        }
        lemma_count_ge_zero(p, lo);
    }
}

/// The distinct layers from `lo` up, in increasing order.
pub open spec fn layer_values(layer: Seq<usize>, lo: int) -> Seq<usize>
    decreases count_ge(layer, lo),
{
    match min_ge(layer, lo) {
        None => Seq::empty(),
        Some(m) => {
            proof {
                lemma_min_ge(layer, lo);
            }
            seq![m] + layer_values(layer, m + 1)
        },
    }
}

/// The nodes of layer `m`, in index order.
pub open spec fn group(layer: Seq<usize>, m: usize) -> Seq<usize>
    decreases layer.len(),
{
    if layer.len() == 0 {
        Seq::empty()
    } else {
        let g = group(layer.drop_last(), m);
        if layer.last() == m {
            g.push((layer.len() - 1) as usize)
        } else {
            g
        }
    }
}

/// The predecessors of node `v` along the edges, in edge order, self-loops
/// left out.
pub open spec fn preds_for(pairs: Seq<(usize, usize)>, v: usize) -> Seq<usize>
    decreases pairs.len(),
{
    if pairs.len() == 0 {
        Seq::empty()
    } else {
        let p = preds_for(pairs.drop_last(), v);
        let (a, b) = pairs.last();
        if b == v && a != b { p.push(a) } else { p }
    }
}

/// Each node's predecessors.
pub open spec fn preds_of(n: nat, pairs: Seq<(usize, usize)>) -> Seq<Seq<usize>> {
    Seq::new(n, |v: int| preds_for(pairs, v as usize))
}

// ---------------------------------------------------------------- rows

/// All fractions are within the bound.
pub open spec fn all_wf(s: Seq<Rat>) -> bool {
    forall|k: int| 0 <= k < s.len() ==> wf(#[trigger] s[k])
}

/// The sum of the rows of the nodes `us`.
pub open spec fn sum_at(rows: Seq<Rat>, us: Seq<usize>) -> Option<Rat>
    decreases us.len(),
{
    if us.len() == 0 {
        Some(r_int(0))
    } else {
        match sum_at(rows, us.drop_last()) {
            Some(s) => r_add(s, rows[us.last() as int]),
            None => None,
        }
    }
}

/// The mean row of the nodes `us`; zero when there are none.
pub open spec fn mean_at(rows: Seq<Rat>, us: Seq<usize>) -> Option<Rat> {
    if us.len() == 0 {
        Some(r_int(0))
    } else {
        match sum_at(rows, us) {
            Some(s) => r_div(s, us.len() as int),
            None => None,
        }
    }
}

/// Each node of a group with its target row: the mean row of its predecessors.
pub open spec fn targets(rows: Seq<Rat>, g: Seq<usize>, preds: Seq<Seq<usize>>) -> Option<Seq<(usize, Rat)>>
    decreases g.len(),
{
    if g.len() == 0 {
        Some(Seq::empty())
    } else {
        match (targets(rows, g.drop_last(), preds), mean_at(rows, preds[g.last() as int])) {
            (Some(ts), Some(t)) => Some(ts.push((g.last(), t))),
            _ => None,
        }
    }
}

/// A target whose row is within the bound and whose node is below `nb`.
pub open spec fn good(x: (usize, Rat), nb: nat) -> bool {
    wf(x.1) && x.0 < nb
}

/// `x` goes before `y`: a lower target row, or the same row and a lower index.
pub open spec fn before(x: (usize, Rat), y: (usize, Rat)) -> bool {
    r_lt(x.1, y.1) || (!r_lt(y.1, x.1) && x.0 < y.0)
}

/// The first position from `i` whose entry `x` goes before.
pub open spec fn insert_pos(s: Seq<(usize, Rat)>, x: (usize, Rat), i: int) -> int
    decreases s.len() - i,
{
    if i < 0 || i >= s.len() {
        s.len() as int
    } else if before(x, s[i]) {
        i
    } else {
        insert_pos(s, x, i + 1)
    }
}

/// The targets ordered by row, then by index (insertion sort).
pub open spec fn sort_targets(ts: Seq<(usize, Rat)>) -> Seq<(usize, Rat)>
    decreases ts.len(),
{
    if ts.len() == 0 {
        Seq::empty()
    } else {
        let s = sort_targets(ts.drop_last());
        s.insert(insert_pos(s, ts.last(), 0), ts.last())
    }
}

/// Rows pushed apart: each at its target, but at least one below the previous.
pub open spec fn placed(ts: Seq<Rat>) -> Option<Seq<Rat>>
    decreases ts.len(),
{
    if ts.len() == 0 {
        Some(Seq::empty())
    } else {
        match placed(ts.drop_last()) {
            None => None,
            Some(ys) => if ys.len() == 0 {
                Some(seq![ts.last()])
            } else {
                match r_add(ys.last(), r_int(1)) {
                    None => None,
                    Some(p) => Some(ys.push(if r_lt(ts.last(), p) { p } else { ts.last() })),
                }
            },
        }
    }
}

pub open spec fn sum_rats(s: Seq<Rat>) -> Option<Rat>
    decreases s.len(),
{
    if s.len() == 0 {
        Some(r_int(0))
    } else {
        match sum_rats(s.drop_last()) {
            Some(x) => r_add(x, s.last()),
            None => None,
        }
    }
}

/// The mean of a non-empty sequence.
pub open spec fn mean_rats(s: Seq<Rat>) -> Option<Rat> {
    match sum_rats(s) {
        Some(x) => r_div(x, s.len() as int),
        None => None,
    }
}

/// The rows with each `ts[k].0` set to `ys[k] + shift`, in order.
pub open spec fn shifted(rows: Seq<Rat>, ts: Seq<(usize, Rat)>, ys: Seq<Rat>, shift: Rat) -> Option<Seq<Rat>>
    decreases ts.len(),
{
    if ts.len() == 0 {
        Some(rows)
    } else {
        let k = ts.len() - 1;
        match (shifted(rows, ts.drop_last(), ys, shift), r_add(ys[k], shift)) {
            (Some(r), Some(y)) => Some(r.update(ts[k].0 as int, y)),
            _ => None,
        }
    }
}

/// Places one group: sorted by target, pushed apart, then shifted so the
/// mean placed row equals the mean target row.
pub open spec fn place_group(rows: Seq<Rat>, g: Seq<usize>, preds: Seq<Seq<usize>>) -> Option<Seq<Rat>> {
    match targets(rows, g, preds) {
        None => None,
        Some(ts0) => {
            let ts = sort_targets(ts0);
            let tv = ts.map_values(|x: (usize, Rat)| x.1);
            match (placed(tv), mean_rats(tv)) {
                (Some(ys), Some(want)) => match mean_rats(ys) {
                    Some(have) => match r_sub(want, have) {
                        Some(shift) => shifted(rows, ts, ys, shift),
                        None => None,
                    },
                    None => None,
                },
                _ => None,
            }
        },
    }
}

/// Places the groups of the layers `vals`, in order.
pub open spec fn sweep(rows: Option<Seq<Rat>>, layer: Seq<usize>, vals: Seq<usize>, preds: Seq<Seq<usize>>) -> Option<Seq<Rat>>
    decreases vals.len(),
{
    if vals.len() == 0 {
        rows
    } else {
        match sweep(rows, layer, vals.drop_last(), preds) {
            Some(r) => if group(layer, vals.last()).len() == 0 {
                Some(r)
            } else {
                place_group(r, group(layer, vals.last()), preds)
            },
            None => None,
        }
    }
}

/// The smallest row (zero when there are none).
pub open spec fn min_rat(rows: Seq<Rat>) -> Rat
    decreases rows.len(),
{
    if rows.len() == 0 {
        r_int(0)
    } else if rows.len() == 1 {
        rows[0]
    } else {
        let m = min_rat(rows.drop_last());
        if r_lt(rows.last(), m) { rows.last() } else { m }
    }
}

/// The canvas line of a row: `(row - min) * 5`, rounded half up, saturating.
pub open spec fn row_y(row: Rat, mn: Rat) -> usize {
    let diff = row.num * mn.den - mn.num * row.den;
    if diff <= 0 {
        0
    } else {
        let p = 5 * diff;
        let q = row.den * mn.den;
        let y = (2 * p + q) / (2 * q);
        if y > usize::MAX { usize::MAX } else { y as usize }
    }
}

// ---------------------------------------------------------------- exec: layering

fn last_index_of(nodes: &Vec<Node>, key: &[char]) -> (r: Option<usize>)
    ensures
        r == last_index(node_ids(nodes@.map_values(|x: Node| x@)), key@),
        r matches Some(i) ==> i < nodes@.len(),
{
    let ghost ids = node_ids(nodes@.map_values(|x: Node| x@));
    let mut k: usize = nodes.len();
    assert(ids.take(k as int) =~= ids);
    while k > 0
        invariant
            k <= nodes@.len(),
            ids == node_ids(nodes@.map_values(|x: Node| x@)),
            last_index(ids, key@) == last_index(ids.take(k as int), key@),
        decreases k,
    {
        assert(ids.take(k as int).drop_last() =~= ids.take(k - 1));
        assert(ids[k - 1] == nodes@[k - 1].id@);
        if string_is(&nodes[k - 1].id, key) {
            return Some(k - 1);
        }
        k = k - 1;
    }
    None
}

/// The edge pairs index nodes.
pub proof fn lemma_edge_pairs_in(ids: Seq<Seq<char>>, edges: Seq<EdgeV>)
    ensures
        pairs_in(edge_pairs(ids, edges), ids.len()),
    decreases edges.len(),
{
    if edges.len() > 0 {
        lemma_edge_pairs_in(ids, edges.drop_last());
        lemma_last_index_bound(ids, edges.last().from);
        lemma_last_index_bound(ids, edges.last().to);
    }
}

proof fn lemma_last_index_bound(ids: Seq<Seq<char>>, key: Seq<char>)
    ensures
        last_index(ids, key) matches Some(i) ==> i < ids.len(),
    decreases ids.len(),
{
    if ids.len() > 0 {
        lemma_last_index_bound(ids.drop_last(), key);
    }
}

/// Every pair indexes a node.
pub open spec fn pairs_in(pairs: Seq<(usize, usize)>, n: nat) -> bool {
    forall|k: int| 0 <= k < pairs.len() ==> (#[trigger] pairs[k]).0 < n && pairs[k].1 < n
}

fn edge_pairs_of(d: &Diagram) -> (r: Vec<(usize, usize)>)
    ensures
        r@ == edge_pairs(node_ids(d@.nodes), d@.edges),
        pairs_in(r@, d@.nodes.len()),
{
    let ghost ids = node_ids(d@.nodes);
    let ghost ev = d@.edges;
    let mut r: Vec<(usize, usize)> = Vec::new();
    let mut j: usize = 0;
    while j < d.edges.len()
        invariant
            ids == node_ids(d@.nodes),
            ev == d@.edges,
            j <= ev.len(),
            r@ == edge_pairs(ids, ev.take(j as int)),
            pairs_in(r@, ids.len()),
            ids.len() == d@.nodes.len(),
        decreases ev.len() - j,
    {
        assert(ev.take(j + 1).drop_last() =~= ev.take(j as int));
        assert(ev[j as int] == d.edges@[j as int]@);
        let fk = chars_of(d.edges[j].from.as_str());
        let tk = chars_of(d.edges[j].to.as_str());
        let a = last_index_of(&d.nodes, fk.as_slice());
        let b = last_index_of(&d.nodes, tk.as_slice());
        match (a, b) {
            (Some(u), Some(v)) => {
                r.push((u, v));
            },
            _ => {},
        }
        j = j + 1;
    }
    assert(ev.take(ev.len() as int) =~= ev);
    r
}

/// The layer of every node.
fn layers_exec(n: usize, pairs: &Vec<(usize, usize)>) -> (r: Vec<usize>)
    requires
        pairs_in(pairs@, n as nat),
    ensures
        r@ == layers_of(n as nat, pairs@),
        r@.len() == n,
{
    let mut layer: Vec<usize> = Vec::new();
    let mut i: usize = 0;
    while i < n
        invariant
            i <= n,
            layer@ =~= Seq::new(i as nat, |k: int| 0usize),
        decreases n - i,
    {
        layer.push(0);
        i = i + 1;
    }
    let ghost init = layer@;
    let mut round: usize = 0;
    while round < n
        invariant
            round <= n,
            layer@.len() == n,
            pairs_in(pairs@, n as nat),
            layers_of(n as nat, pairs@) == settle(layer@, pairs@, (n - round) as nat),
        decreases n - round,
    {
        let ghost start = layer@;
        let mut changed = false;
        let mut j: usize = 0;
        while j < pairs.len()
            invariant
                j <= pairs@.len(),
                layer@.len() == n,
                pairs_in(pairs@, n as nat),
                (layer@, changed) == relax(start, false, pairs@.take(j as int)),
            decreases pairs@.len() - j,
        {
            assert(pairs@.take(j + 1).drop_last() =~= pairs@.take(j as int));
            let (u, v) = pairs[j];
            assert(pairs@[j as int] == (u, v));
            let up = sadd(layer[u], 1);
            if u != v && layer[v] < up {
                layer.set(v, up);
                changed = true;
            }
            j = j + 1;
        }
        assert(pairs@.take(pairs@.len() as int) =~= pairs@);
        if !changed {
            return layer;
        }
        round = round + 1;
    }
    layer
}


// ---------------------------------------------------------------- exec: groups

fn min_ge_of(layer: &Vec<usize>, lo: usize) -> (r: Option<usize>)
    ensures
        r == min_ge(layer@, lo as int),
{
    let mut r: Option<usize> = None;
    let mut i: usize = 0;
    while i < layer.len()
        invariant
            i <= layer@.len(),
            r == min_ge(layer@.take(i as int), lo as int),
        decreases layer@.len() - i,
    {
        assert(layer@.take(i + 1).drop_last() =~= layer@.take(i as int));
        let x = layer[i];
        if x >= lo {
            r = match r {
                Some(m) => if m <= x { Some(m) } else { Some(x) },
                None => Some(x),
            };
        }
        i = i + 1;
    }
    assert(layer@.take(layer@.len() as int) =~= layer@);
    r
}

proof fn lemma_min_ge_none(layer: Seq<usize>, lo: int)
    requires
        forall|i: int| 0 <= i < layer.len() ==> layer[i] < lo,
    ensures
        min_ge(layer, lo) is None,
    decreases layer.len(),
{
    if layer.len() > 0 {
        let p = layer.drop_last();
        assert forall|i: int| 0 <= i < p.len() implies p[i] < lo by {
            assert(p[i] == layer[i]);
        }
        lemma_min_ge_none(p, lo);
    }
}

/// The distinct layers, in increasing order.
fn layer_values_of(layer: &Vec<usize>) -> (r: Vec<usize>)
    ensures
        r@ == layer_values(layer@, 0),
{
    let mut vals: Vec<usize> = Vec::new();
    let mut lo: usize = 0;
    let mut more = true;
    assert(vals@ + layer_values(layer@, 0) =~= layer_values(layer@, 0));
    while more
        invariant
            more ==> vals@ + layer_values(layer@, lo as int) == layer_values(layer@, 0),
            !more ==> vals@ == layer_values(layer@, 0),
        decreases (if more { count_ge(layer@, lo as int) + 1 } else { 0 }),
    {
        match min_ge_of(layer, lo) {
            None => {
                assert(vals@ + Seq::<usize>::empty() =~= vals@);
                more = false;
            },
            Some(m) => {
                proof {
                    lemma_min_ge(layer@, lo as int);
                }
                let ghost before = vals@;
                vals.push(m);
                assert(before + layer_values(layer@, lo as int) =~= vals@ + layer_values(layer@, m + 1));
                if m == usize::MAX {
                    proof {
                        lemma_min_ge_none(layer@, m + 1);
                    }
                    assert(vals@ + Seq::<usize>::empty() =~= vals@);
                    more = false;
                } else {
                    lo = m + 1;
                }
            },
        }
    }
    vals
}

/// The nodes of layer `m`, in index order.
fn group_of(layer: &Vec<usize>, m: usize) -> (r: Vec<usize>)
    ensures
        r@ == group(layer@, m),
        forall|k: int| 0 <= k < r@.len() ==> #[trigger] r@[k] < layer@.len(),
{
    let mut r: Vec<usize> = Vec::new();
    let mut i: usize = 0;
    while i < layer.len()
        invariant
            i <= layer@.len(),
            r@ == group(layer@.take(i as int), m),
            forall|k: int| 0 <= k < r@.len() ==> #[trigger] r@[k] < i,
        decreases layer@.len() - i,
    {
        assert(layer@.take(i + 1).drop_last() =~= layer@.take(i as int));
        if layer[i] == m {
            r.push(i);
        }
        i = i + 1;
    }
    assert(layer@.take(layer@.len() as int) =~= layer@);
    r
}

/// The predecessors of every node.
fn preds_exec(n: usize, pairs: &Vec<(usize, usize)>) -> (r: Vec<Vec<usize>>)
    requires
        pairs_in(pairs@, n as nat),
    ensures
        r@.len() == n,
        forall|v: int| 0 <= v < n ==> (#[trigger] r@[v])@ == preds_for(pairs@, v as usize),
        forall|v: int, k: int| 0 <= v < n && 0 <= k < r@[v]@.len() ==> #[trigger] r@[v]@[k] < n,
{
    let mut r: Vec<Vec<usize>> = Vec::new();
    let mut v: usize = 0;
    while v < n
        invariant
            v <= n,
            pairs_in(pairs@, n as nat),
            r@.len() == v,
            forall|w: int| 0 <= w < v ==> (#[trigger] r@[w])@ == preds_for(pairs@, w as usize),
            forall|w: int, k: int| 0 <= w < v && 0 <= k < r@[w]@.len() ==> #[trigger] r@[w]@[k] < n,
        decreases n - v,
    {
        let mut p: Vec<usize> = Vec::new();
        let mut j: usize = 0;
        while j < pairs.len()
            invariant
                j <= pairs@.len(),
                pairs_in(pairs@, n as nat),
                p@ == preds_for(pairs@.take(j as int), v),
                forall|k: int| 0 <= k < p@.len() ==> #[trigger] p@[k] < n,
            decreases pairs@.len() - j,
        {
            assert(pairs@.take(j + 1).drop_last() =~= pairs@.take(j as int));
            let (a, b) = pairs[j];
            assert(pairs@[j as int] == (a, b));
            if b == v && a != b {
                p.push(a);
            }
            j = j + 1;
        }
        assert(pairs@.take(pairs@.len() as int) =~= pairs@);
        r.push(p);
        v = v + 1;
    }
    r
}

// ---------------------------------------------------------------- exec: rows

fn mean_at_of(rows: &Vec<Rat>, us: &Vec<usize>) -> (r: Option<Rat>)
    requires
        all_wf(rows@),
        forall|k: int| 0 <= k < us@.len() ==> #[trigger] us@[k] < rows@.len(),
    ensures
        r == mean_at(rows@, us@),
        r matches Some(x) ==> wf(x),
{
    if us.len() == 0 {
        return Some(int_of(0));
    }
    let mut s: Rat = int_of(0);
    let mut i: usize = 0;
    while i < us.len()
        invariant
            i <= us@.len(),
            all_wf(rows@),
            forall|k: int| 0 <= k < us@.len() ==> #[trigger] us@[k] < rows@.len(),
            sum_at(rows@, us@.take(i as int)) == Some(s),
            wf(s),
        decreases us@.len() - i,
    {
        assert(us@.take(i + 1).drop_last() =~= us@.take(i as int));
        let u = us[i];
        assert(wf(rows@[u as int]));
        match add_of(s, rows[u]) {
            Some(x) => {
                s = x;
            },
            None => {
                proof {
                    lemma_sum_at_none(rows@, us@, i as int + 1);
                }
                assert(us@.take(us@.len() as int) =~= us@);
                return None;
            },
        }
        i = i + 1;
    }
    assert(us@.take(us@.len() as int) =~= us@);
    div_of(s, us.len())
}

/// Once a prefix sum overflows, every longer one does.
proof fn lemma_sum_at_none(rows: Seq<Rat>, us: Seq<usize>, i: int)
    requires
        0 <= i <= us.len(),
        sum_at(rows, us.take(i)) is None,
    ensures
        sum_at(rows, us) is None,
    decreases us.len() - i,
{
    if i < us.len() {
        assert(us.take(i + 1).drop_last() =~= us.take(i));
        lemma_sum_at_none(rows, us, i + 1);
    } else {
        assert(us.take(i) =~= us);
    }
}

proof fn lemma_sum_rats_none(s: Seq<Rat>, i: int)
    requires
        0 <= i <= s.len(),
        sum_rats(s.take(i)) is None,
    ensures
        sum_rats(s) is None,
    decreases s.len() - i,
{
    if i < s.len() {
        assert(s.take(i + 1).drop_last() =~= s.take(i));
        lemma_sum_rats_none(s, i + 1);
    } else {
        assert(s.take(i) =~= s);
    }
}

fn mean_rats_of(s: &Vec<Rat>) -> (r: Option<Rat>)
    requires
        all_wf(s@),
        s@.len() >= 1,
    ensures
        r == mean_rats(s@),
        r matches Some(x) ==> wf(x),
{
    let mut acc: Rat = int_of(0);
    let mut i: usize = 0;
    while i < s.len()
        invariant
            i <= s@.len(),
            all_wf(s@),
            sum_rats(s@.take(i as int)) == Some(acc),
            wf(acc),
        decreases s@.len() - i,
    {
        assert(s@.take(i + 1).drop_last() =~= s@.take(i as int));
        assert(wf(s@[i as int]));
        match add_of(acc, s[i]) {
            Some(x) => {
                acc = x;
            },
            None => {
                proof {
                    lemma_sum_rats_none(s@, i as int + 1);
                }
                return None;
            },
        }
        i = i + 1;
    }
    assert(s@.take(s@.len() as int) =~= s@);
    div_of(acc, s.len())
}

proof fn lemma_targets_none(rows: Seq<Rat>, g: Seq<usize>, preds: Seq<Seq<usize>>, i: int)
    requires
        0 <= i <= g.len(),
        targets(rows, g.take(i), preds) is None,
    ensures
        targets(rows, g, preds) is None,
    decreases g.len() - i,
{
    if i < g.len() {
        assert(g.take(i + 1).drop_last() =~= g.take(i));
        lemma_targets_none(rows, g, preds, i + 1);
    } else {
        assert(g.take(i) =~= g);
    }
}

fn targets_of(rows: &Vec<Rat>, g: &Vec<usize>, preds: &Vec<Vec<usize>>) -> (r: Option<Vec<(usize, Rat)>>)
    requires
        all_wf(rows@),
        forall|k: int| 0 <= k < g@.len() ==> #[trigger] g@[k] < preds@.len(),
        forall|v: int, k: int| 0 <= v < preds@.len() && 0 <= k < preds@[v]@.len() ==> #[trigger] preds@[v]@[k] < rows@.len(),
    ensures
        match r {
            Some(ts) => targets(rows@, g@, preds@.map_values(|p: Vec<usize>| p@)) == Some(ts@)
                && forall|k: int| 0 <= k < ts@.len() ==> good(#[trigger] ts@[k], preds@.len()),
            None => targets(rows@, g@, preds@.map_values(|p: Vec<usize>| p@)) is None,
        },
{
    let ghost pv = preds@.map_values(|p: Vec<usize>| p@);
    let mut ts: Vec<(usize, Rat)> = Vec::new();
    let mut i: usize = 0;
    while i < g.len()
        invariant
            i <= g@.len(),
            pv == preds@.map_values(|p: Vec<usize>| p@),
            all_wf(rows@),
            forall|k: int| 0 <= k < g@.len() ==> #[trigger] g@[k] < preds@.len(),
            forall|v: int, k: int| 0 <= v < preds@.len() && 0 <= k < preds@[v]@.len() ==> #[trigger] preds@[v]@[k] < rows@.len(),
            targets(rows@, g@.take(i as int), pv) == Some(ts@),
            forall|k: int| 0 <= k < ts@.len() ==> good(#[trigger] ts@[k], preds@.len()),
        decreases g@.len() - i,
    {
        assert(g@.take(i + 1).drop_last() =~= g@.take(i as int));
        let n = g[i];
        assert(forall|k: int| 0 <= k < preds@[n as int]@.len() ==> #[trigger] preds@[n as int]@[k] < rows@.len());
        match mean_at_of(rows, &preds[n]) {
            Some(t) => {
                ts.push((n, t));
            },
            None => {
                proof {
                    lemma_targets_none(rows@, g@, pv, i as int + 1);
                }
                return None;
            },
        }
        i = i + 1;
    }
    assert(g@.take(g@.len() as int) =~= g@);
    Some(ts)
}

fn before_of(x: (usize, Rat), y: (usize, Rat)) -> (r: bool)
    requires
        wf(x.1),
        wf(y.1),
    ensures
        r == before(x, y),
{
    lt_of(x.1, y.1) || (!lt_of(y.1, x.1) && x.0 < y.0)
}

fn sort_targets_of(ts: &Vec<(usize, Rat)>, nb: usize) -> (r: Vec<(usize, Rat)>)
    requires
        forall|k: int| 0 <= k < ts@.len() ==> good(#[trigger] ts@[k], nb as nat),
    ensures
        r@ == sort_targets(ts@),
        r@.len() == ts@.len(),
        forall|k: int| 0 <= k < r@.len() ==> good(#[trigger] r@[k], nb as nat),
{
    let mut s: Vec<(usize, Rat)> = Vec::new();
    let mut i: usize = 0;
    while i < ts.len()
        invariant
            i <= ts@.len(),
            forall|k: int| 0 <= k < ts@.len() ==> good(#[trigger] ts@[k], nb as nat),
            s@ == sort_targets(ts@.take(i as int)),
            s@.len() == i,
            forall|k: int| 0 <= k < s@.len() ==> good(#[trigger] s@[k], nb as nat),
        decreases ts@.len() - i,
    {
        assert(ts@.take(i + 1).drop_last() =~= ts@.take(i as int));
        let x = ts[i];
        assert(good(ts@[i as int], nb as nat));
        let mut j: usize = 0;
        while j < s.len()
            invariant
                j <= s@.len(),
                wf(x.1),
                forall|k: int| 0 <= k < s@.len() ==> good(#[trigger] s@[k], nb as nat),
                insert_pos(s@, x, 0) == insert_pos(s@, x, j as int),
            ensures
                j <= s@.len(),
                insert_pos(s@, x, 0) == j as int,
            decreases s@.len() - j,
        {
            if before_of(x, s[j]) {
                break;
            }
            j = j + 1;
        }
        let ghost old_s = s@;
        s.insert(j, x);
        assert forall|k: int| 0 <= k < s@.len() implies good(#[trigger] s@[k], nb as nat) by {
            if k < j {
                assert(s@[k] == old_s[k]);
            } else if k == j {
                assert(s@[k] == ts@[i as int]);
            } else {
                assert(s@[k] == old_s[k - 1]);
            }
        }
        i = i + 1;
    }
    assert(ts@.take(ts@.len() as int) =~= ts@);
    s
}

proof fn lemma_placed_none(ts: Seq<Rat>, i: int)
    requires
        0 <= i <= ts.len(),
        placed(ts.take(i)) is None,
    ensures
        placed(ts) is None,
    decreases ts.len() - i,
{
    if i < ts.len() {
        assert(ts.take(i + 1).drop_last() =~= ts.take(i));
        lemma_placed_none(ts, i + 1);
    } else {
        assert(ts.take(i) =~= ts);
    }
}

fn placed_of(ts: &Vec<Rat>) -> (r: Option<Vec<Rat>>)
    requires
        all_wf(ts@),
    ensures
        match r {
            Some(ys) => placed(ts@) == Some(ys@) && all_wf(ys@) && ys@.len() == ts@.len(),
            None => placed(ts@) is None,
        },
{
    let mut ys: Vec<Rat> = Vec::new();
    let mut i: usize = 0;
    while i < ts.len()
        invariant
            i <= ts@.len(),
            all_wf(ts@),
            placed(ts@.take(i as int)) == Some(ys@),
            all_wf(ys@),
            ys@.len() == i,
        decreases ts@.len() - i,
    {
        assert(ts@.take(i + 1).drop_last() =~= ts@.take(i as int));
        let t = ts[i];
        assert(wf(ts@[i as int]));
        if i == 0 {
            ys.push(t);
            assert(ys@ =~= seq![t]);
        } else {
            assert(wf(ys@[i - 1]));
            match add_of(ys[i - 1], int_of(1)) {
                Some(p) => {
                    let y = if lt_of(t, p) { p } else { t };
                    ys.push(y);
                },
                None => {
                    proof {
                        lemma_placed_none(ts@, i as int + 1);
                    }
                    return None;
                },
            }
        }
        i = i + 1;
    }
    assert(ts@.take(ts@.len() as int) =~= ts@);
    Some(ys)
}

proof fn lemma_shifted_none(rows: Seq<Rat>, ts: Seq<(usize, Rat)>, ys: Seq<Rat>, shift: Rat, i: int)
    requires
        0 <= i <= ts.len(),
        shifted(rows, ts.take(i), ys, shift) is None,
    ensures
        shifted(rows, ts, ys, shift) is None,
    decreases ts.len() - i,
{
    if i < ts.len() {
        assert(ts.take(i + 1).drop_last() =~= ts.take(i));
        lemma_shifted_none(rows, ts, ys, shift, i + 1);
    } else {
        assert(ts.take(i) =~= ts);
    }
}

/// Sets each node of `ts` to its placed row plus `shift`.
fn apply_shift(rows: Vec<Rat>, ts: &Vec<(usize, Rat)>, ys: &Vec<Rat>, shift: Rat) -> (r: Option<Vec<Rat>>)
    requires
        all_wf(rows@),
        all_wf(ys@),
        wf(shift),
        ys@.len() == ts@.len(),
        forall|j: int| 0 <= j < ts@.len() ==> #[trigger] ts@[j].0 < rows@.len(),
    ensures
        match r {
            Some(x) => shifted(rows@, ts@, ys@, shift) == Some(x@) && all_wf(x@) && x@.len() == rows@.len(),
            None => shifted(rows@, ts@, ys@, shift) is None,
        },
{
    let ghost rows0 = rows@;
    let mut out = rows;
    let mut k: usize = 0;
    while k < ts.len()
        invariant
            k <= ts@.len(),
            ys@.len() == ts@.len(),
            all_wf(ys@),
            wf(shift),
            forall|j: int| 0 <= j < ts@.len() ==> #[trigger] ts@[j].0 < rows0.len(),
            rows0 == rows@,
            shifted(rows0, ts@.take(k as int), ys@, shift) == Some(out@),
            all_wf(out@),
            out@.len() == rows0.len(),
        decreases ts@.len() - k,
    {
        assert(ts@.take(k + 1).drop_last() =~= ts@.take(k as int));
        assert(ts@.take(k + 1)[k as int] == ts@[k as int]);
        assert(wf(ys@[k as int]));
        let n = ts[k].0;
        assert(n < rows0.len());
        match add_of(ys[k], shift) {
            Some(y) => {
                out.set(n, y);
            },
            None => {
                assert(shifted(rows0, ts@.take(k + 1), ys@, shift) is None);
                proof {
                    lemma_shifted_none(rows0, ts@, ys@, shift, k as int + 1);
                }
                return None;
            },
        }
        k = k + 1;
    }
    assert(ts@.take(ts@.len() as int) =~= ts@);
    Some(out)
}

/// The target rows of sorted targets.
fn target_rows(ts: &Vec<(usize, Rat)>) -> (r: Vec<Rat>)
    requires
        forall|k: int| 0 <= k < ts@.len() ==> wf(#[trigger] ts@[k].1),
    ensures
        r@ == ts@.map_values(|x: (usize, Rat)| x.1),
        all_wf(r@),
{
    let mut tv: Vec<Rat> = Vec::new();
    let mut i: usize = 0;
    while i < ts.len()
        invariant
            i <= ts@.len(),
            forall|k: int| 0 <= k < ts@.len() ==> wf(#[trigger] ts@[k].1),
            tv@ == ts@.take(i as int).map_values(|x: (usize, Rat)| x.1),
            all_wf(tv@),
        decreases ts@.len() - i,
    {
        let x = ts[i];
        assert(wf(ts@[i as int].1));
        tv.push(x.1);
        assert(ts@.take(i + 1).map_values(|x: (usize, Rat)| x.1) =~= ts@.take(i as int).map_values(
            |x: (usize, Rat)| x.1,
        ).push(x.1));
        i = i + 1;
    }
    assert(ts@.take(ts@.len() as int) =~= ts@);
    tv
}

/// Places one group of nodes.
fn place_group_of(rows: Vec<Rat>, g: &Vec<usize>, preds: &Vec<Vec<usize>>) -> (r: Option<Vec<Rat>>)
    requires
        all_wf(rows@),
        preds@.len() == rows@.len(),
        g@.len() >= 1,
        forall|k: int| 0 <= k < g@.len() ==> #[trigger] g@[k] < preds@.len(),
        forall|v: int, k: int| 0 <= v < preds@.len() && 0 <= k < preds@[v]@.len() ==> #[trigger] preds@[v]@[k] < rows@.len(),
    ensures
        match r {
            Some(x) => place_group(rows@, g@, preds@.map_values(|p: Vec<usize>| p@)) == Some(x@) && all_wf(x@)
                && x@.len() == rows@.len(),
            None => place_group(rows@, g@, preds@.map_values(|p: Vec<usize>| p@)) is None,
        },
{
    let ghost pv = preds@.map_values(|p: Vec<usize>| p@);
    let ts0 = match targets_of(&rows, g, preds) {
        Some(t) => t,
        None => {
            return None;
        },
    };
    proof {
        lemma_targets_len(rows@, g@, pv);
    }
    let ts = sort_targets_of(&ts0, rows.len());
    let tv = target_rows(&ts);
    let ys = match placed_of(&tv) {
        Some(y) => y,
        None => {
            return None;
        },
    };
    let want = match mean_rats_of(&tv) {
        Some(w) => w,
        None => {
            return None;
        },
    };
    let have = match mean_rats_of(&ys) {
        Some(h) => h,
        None => {
            return None;
        },
    };
    let shift = match sub_of(want, have) {
        Some(d) => d,
        None => {
            return None;
        },
    };
    apply_shift(rows, &ts, &ys, shift)
}

proof fn lemma_targets_len(rows: Seq<Rat>, g: Seq<usize>, preds: Seq<Seq<usize>>)
    ensures
        targets(rows, g, preds) matches Some(ts) ==> ts.len() == g.len(),
    decreases g.len(),
{
    if g.len() > 0 {
        lemma_targets_len(rows, g.drop_last(), preds);
    }
}


// ---------------------------------------------------------------- positions

/// The box width: the widest label plus two, at least 12.
pub open spec fn box_width(nodes: Seq<NodeV>) -> int
    decreases nodes.len(),
{
    if nodes.len() == 0 {
        12
    } else {
        max_int(box_width(nodes.drop_last()), sat_add(display_width(nodes.last().label) as int, 2))
    }
}

/// The widest edge label.
pub open spec fn edge_label_width(edges: Seq<EdgeV>) -> int
    decreases edges.len(),
{
    if edges.len() == 0 {
        0
    } else {
        max_int(
            edge_label_width(edges.drop_last()),
            match edges.last().label {
                Some(l) => display_width(l) as int,
                None => 0,
            },
        )
    }
}

/// The canvas line of the `k`-th node `n` of its layer: from its row, or
/// five lines per place in the layer when the rows could not be computed.
pub open spec fn node_y(rows: Option<Seq<Rat>>, mn: Rat, n: usize, k: int) -> usize {
    match rows {
        Some(r) => row_y(r[n as int], mn),
        None => sat_mul(k, 5) as usize,
    }
}

/// Positions the nodes `g` of one layer at column `x`; also tracks the lowest
/// box bottom.
pub open spec fn place_members(
    pos: Seq<(Seq<char>, Position)>,
    mh: int,
    ids: Seq<Seq<char>>,
    g: Seq<usize>,
    x: usize,
    bw: usize,
    rows: Option<Seq<Rat>>,
    mn: Rat,
) -> (Seq<(Seq<char>, Position)>, int)
    decreases g.len(),
{
    if g.len() == 0 {
        (pos, mh)
    } else {
        let (p, h) = place_members(pos, mh, ids, g.drop_last(), x, bw, rows, mn);
        let n = g.last();
        let y = node_y(rows, mn, n, g.len() - 1);
        (pm_insert(p, ids[n as int], Position { x, y, width: bw, height: 3 }), max_int(h, sat_add(y as int, 3)))
    }
}

/// Positions the layers `vals`, left to right; also tracks the rightmost box
/// edge and the lowest box bottom.
pub open spec fn place_layers(
    ids: Seq<Seq<char>>,
    layer: Seq<usize>,
    vals: Seq<usize>,
    bw: usize,
    gap: usize,
    rows: Option<Seq<Rat>>,
    mn: Rat,
) -> (Seq<(Seq<char>, Position)>, int, int)
    decreases vals.len(),
{
    if vals.len() == 0 {
        (Seq::empty(), 0, 0)
    } else {
        let (pos, mw, mh) = place_layers(ids, layer, vals.drop_last(), bw, gap, rows, mn);
        let x = sat_mul(vals.last() as int, sat_add(bw as int, gap as int)) as usize;
        let (p, h) = place_members(pos, mh, ids, group(layer, vals.last()), x, bw, rows, mn);
        (p, max_int(mw, sat_add(x as int, bw as int)), h)
    }
}

/// The rows of all nodes after placing every layer.
pub open spec fn flow_rows(n: nat, layer: Seq<usize>, vals: Seq<usize>, preds: Seq<Seq<usize>>) -> Option<Seq<Rat>> {
    sweep(Some(Seq::new(n, |i: int| r_int(0))), layer, vals, preds)
}

/// Flowcharts: nodes in columns by longest-path layer; boxes sized to the
/// widest label; columns spaced to fit the widest edge label.
pub open spec fn layout_flowchart(d: DiagramV) -> LayoutV {
    let ids = node_ids(d.nodes);
    let n = ids.len();
    let pairs = edge_pairs(ids, d.edges);
    let layer = layers_of(n, pairs);
    let vals = layer_values(layer, 0);
    let rows = flow_rows(n, layer, vals, preds_of(n, pairs));
    let mn = match rows {
        Some(r) => min_rat(r),
        None => r_int(0),
    };
    let bw = box_width(d.nodes) as usize;
    let gap = max_int(4, sat_add(edge_label_width(d.edges), 4)) as usize;
    let (pos, mw, mh) = place_layers(ids, layer, vals, bw, gap, rows, mn);
    LayoutV { positions: pos, width: sat_add(mw, 2), height: sat_add(mh, 2) }
}

proof fn lemma_place_members_ok(
    pos: Seq<(Seq<char>, Position)>,
    mh: int,
    ids: Seq<Seq<char>>,
    g: Seq<usize>,
    x: usize,
    bw: usize,
    rows: Option<Seq<Rat>>,
    mn: Rat,
)
    requires
        boxes_ok(pos),
        bw >= 2,
    ensures
        boxes_ok(place_members(pos, mh, ids, g, x, bw, rows, mn).0),
    decreases g.len(),
{
    if g.len() > 0 {
        lemma_place_members_ok(pos, mh, ids, g.drop_last(), x, bw, rows, mn);
        let (p, h) = place_members(pos, mh, ids, g.drop_last(), x, bw, rows, mn);
        let y = node_y(rows, mn, g.last(), g.len() - 1);
        lemma_pm_insert_ok(p, ids[g.last() as int], Position { x, y, width: bw, height: 3 });
    }
}

proof fn lemma_place_layers_ok(
    ids: Seq<Seq<char>>,
    layer: Seq<usize>,
    vals: Seq<usize>,
    bw: usize,
    gap: usize,
    rows: Option<Seq<Rat>>,
    mn: Rat,
)
    requires
        bw >= 2,
    ensures
        boxes_ok(place_layers(ids, layer, vals, bw, gap, rows, mn).0),
    decreases vals.len(),
{
    if vals.len() > 0 {
        lemma_place_layers_ok(ids, layer, vals.drop_last(), bw, gap, rows, mn);
        let (pos, mw, mh) = place_layers(ids, layer, vals.drop_last(), bw, gap, rows, mn);
        let x = sat_mul(vals.last() as int, sat_add(bw as int, gap as int)) as usize;
        lemma_place_members_ok(pos, mh, ids, group(layer, vals.last()), x, bw, rows, mn);
    }
}

pub proof fn lemma_box_width_bounds(nodes: Seq<NodeV>)
    ensures
        12 <= box_width(nodes) <= usize::MAX,
    decreases nodes.len(),
{
    if nodes.len() > 0 {
        lemma_box_width_bounds(nodes.drop_last());
    }
}

/// Every flowchart box is at least two columns wide.
pub proof fn lemma_flowchart_boxes(d: DiagramV)
    ensures
        boxes_ok(layout_flowchart(d).positions),
{
    lemma_box_width_bounds(d.nodes);
    let ids = node_ids(d.nodes);
    let n = ids.len();
    let pairs = edge_pairs(ids, d.edges);
    let layer = layers_of(n, pairs);
    let vals = layer_values(layer, 0);
    let rows = flow_rows(n, layer, vals, preds_of(n, pairs));
    let mn = match rows {
        Some(r) => min_rat(r),
        None => r_int(0),
    };
    let gap = max_int(4, sat_add(edge_label_width(d.edges), 4)) as usize;
    lemma_place_layers_ok(ids, layer, vals, box_width(d.nodes) as usize, gap, rows, mn);
}

// ---------------------------------------------------------------- exec: positions

fn row_y_of(row: Rat, mn: Rat) -> (r: usize)
    requires
        wf(row),
        wf(mn),
    ensures
        r == row_y(row, mn),
{
    assert(-0x1000_0000_0000_0000_0000_0000_0000_0000 <= row.num * mn.den <= 0x1000_0000_0000_0000_0000_0000_0000_0000) by (nonlinear_arith)
        requires wf(row), wf(mn);
    assert(-0x1000_0000_0000_0000_0000_0000_0000_0000 <= mn.num * row.den <= 0x1000_0000_0000_0000_0000_0000_0000_0000) by (nonlinear_arith)
        requires wf(row), wf(mn);
    assert(1 <= row.den * mn.den <= 0x1000_0000_0000_0000_0000_0000_0000_0000) by (nonlinear_arith)
        requires wf(row), wf(mn);
    let diff: i128 = row.num * mn.den - mn.num * row.den;
    if diff <= 0 {
        return 0;
    }
    let p: u128 = 5 * (diff as u128);
    let q: u128 = (row.den * mn.den) as u128;
    let quot = p / q;
    let rem = p % q;
    let y = if rem >= q - rem { quot + 1 } else { quot };
    proof {
        lemma_round_half_up(p as nat, q as nat);
    }
    if y > usize::MAX as u128 {
        usize::MAX
    } else {
        y as usize
    }
}

fn min_rat_of(rows: &Vec<Rat>) -> (r: Rat)
    requires
        all_wf(rows@),
    ensures
        r == min_rat(rows@),
        wf(r),
{
    if rows.len() == 0 {
        return int_of(0);
    }
    let mut m = rows[0];
    assert(wf(rows@[0]));
    assert(rows@.take(1) =~= seq![rows@[0]]);
    let mut i: usize = 1;
    while i < rows.len()
        invariant
            1 <= i <= rows@.len(),
            all_wf(rows@),
            m == min_rat(rows@.take(i as int)),
            wf(m),
        decreases rows@.len() - i,
    {
        assert(rows@.take(i + 1).drop_last() =~= rows@.take(i as int));
        assert(wf(rows@[i as int]));
        if lt_of(rows[i], m) {
            m = rows[i];
        }
        i = i + 1;
    }
    assert(rows@.take(rows@.len() as int) =~= rows@);
    m
}

fn box_width_of(nodes: &Vec<Node>) -> (r: usize)
    ensures
        r as int == box_width(nodes@.map_values(|x: Node| x@)),
{
    let ghost nv = nodes@.map_values(|x: Node| x@);
    let mut w: usize = 12;
    let mut i: usize = 0;
    while i < nodes.len()
        invariant
            i <= nodes@.len(),
            nv == nodes@.map_values(|x: Node| x@),
            w as int == box_width(nv.take(i as int)),
        decreases nodes@.len() - i,
    {
        assert(nv.take(i + 1).drop_last() =~= nv.take(i as int));
        assert(nv[i as int].label == nodes@[i as int].label@);
        let lw = sadd(width_of(chars_of(nodes[i].label.as_str()).as_slice()), 2);
        if lw > w {
            w = lw;
        }
        i = i + 1;
    }
    assert(nv.take(nv.len() as int) =~= nv);
    w
}

fn edge_label_width_of(edges: &Vec<Edge>) -> (r: usize)
    ensures
        r as int == edge_label_width(edges@.map_values(|x: Edge| x@)),
{
    let ghost ev = edges@.map_values(|x: Edge| x@);
    let mut w: usize = 0;
    let mut i: usize = 0;
    while i < edges.len()
        invariant
            i <= edges@.len(),
            ev == edges@.map_values(|x: Edge| x@),
            w as int == edge_label_width(ev.take(i as int)),
        decreases edges@.len() - i,
    {
        assert(ev.take(i + 1).drop_last() =~= ev.take(i as int));
        assert(ev[i as int].label == crate::diagram::opt_view(edges@[i as int].label));
        let lw = match &edges[i].label {
            Some(l) => width_of(chars_of(l.as_str()).as_slice()),
            None => 0,
        };
        if lw > w {
            w = lw;
        }
        i = i + 1;
    }
    assert(ev.take(ev.len() as int) =~= ev);
    w
}

/// Flowcharts: nodes in columns by longest-path layer, each at the mean row
/// of its predecessors with siblings kept apart.
pub fn layout_flowchart_of(d: &Diagram) -> (r: LayoutResult)
    ensures
        r@ == layout_flowchart(d@),
{
    let ghost ids = node_ids(d@.nodes);
    let n = d.nodes.len();
    let pairs = edge_pairs_of(d);
    let layer = layers_exec(n, &pairs);
    let vals = layer_values_of(&layer);
    let preds = preds_exec(n, &pairs);
    let ghost pv = preds@.map_values(|p: Vec<usize>| p@);
    assert(pv =~= preds_of(n as nat, pairs@));
    // Rows, one layer at a time.
    let mut zeros: Vec<Rat> = Vec::new();
    let mut i: usize = 0;
    while i < n
        invariant
            i <= n,
            zeros@ =~= Seq::new(i as nat, |k: int| r_int(0)),
            all_wf(zeros@),
        decreases n - i,
    {
        zeros.push(int_of(0));
        i = i + 1;
    }
    let ghost z = zeros@;
    let mut rows: Option<Vec<Rat>> = Some(zeros);
    let mut j: usize = 0;
    while j < vals.len()
        invariant
            j <= vals@.len(),
            layer@.len() == n,
            preds@.len() == n,
            pv == preds@.map_values(|p: Vec<usize>| p@),
            forall|v: int, k: int| 0 <= v < preds@.len() && 0 <= k < preds@[v]@.len() ==> #[trigger] preds@[v]@[k] < n,
            match rows {
                Some(r) => sweep(Some(z), layer@, vals@.take(j as int), pv) == Some(r@) && all_wf(r@) && r@.len() == n,
                None => sweep(Some(z), layer@, vals@.take(j as int), pv) is None,
            },
        decreases vals@.len() - j,
    {
        assert(vals@.take(j + 1).drop_last() =~= vals@.take(j as int));
        let m = vals[j];
        rows = match rows {
            Some(r) => {
                let g = group_of(&layer, m);
                if g.len() == 0 {
                    Some(r)
                } else {
                    place_group_of(r, &g, &preds)
                }
            },
            None => None,
        };
        j = j + 1;
    }
    assert(vals@.take(vals@.len() as int) =~= vals@);
    assert(z =~= Seq::new(n as nat, |k: int| r_int(0)));
    let ghost rows_v: Option<Seq<Rat>> = match &rows {
        Some(r) => Some(r@),
        None => None,
    };
    assert(rows_v == flow_rows(n as nat, layer@, vals@, preds_of(n as nat, pairs@)));
    let mn = match &rows {
        Some(r) => min_rat_of(r),
        None => int_of(0),
    };
    let bw = box_width_of(&d.nodes);
    let elw = edge_label_width_of(&d.edges);
    let gap = if sadd(elw, 4) > 4 { sadd(elw, 4) } else { 4 };
    let pitch = sadd(bw, gap);
    // Positions, layer by layer.
    let mut positions = PositionMap::new();
    let mut mw: usize = 0;
    let mut mh: usize = 0;
    j = 0;
    while j < vals.len()
        invariant
            j <= vals@.len(),
            layer@.len() == n,
            ids == node_ids(d@.nodes),
            ids.len() == n,
            wf(mn),
            match rows {
                Some(r) => rows_v == Some(r@) && all_wf(r@) && r@.len() == n,
                None => rows_v is None,
            },
            pitch as int == sat_add(bw as int, gap as int),
            (positions@, mw as int, mh as int) == place_layers(ids, layer@, vals@.take(j as int), bw, gap, rows_v, mn),
        decreases vals@.len() - j,
    {
        assert(vals@.take(j + 1).drop_last() =~= vals@.take(j as int));
        let m = vals[j];
        let x = smul(m, pitch);
        let g = group_of(&layer, m);
        let ghost pos0 = positions@;
        let ghost mh0 = mh as int;
        let ghost mw0 = mw as int;
        assert(x as int == sat_mul(m as int, sat_add(bw as int, gap as int)));
        assert(place_layers(ids, layer@, vals@.take(j as int), bw, gap, rows_v, mn) == (pos0, mw0, mh0));
        let mut k: usize = 0;
        while k < g.len()
            invariant
                k <= g@.len(),
                forall|q: int| 0 <= q < g@.len() ==> #[trigger] g@[q] < n,
                ids == node_ids(d@.nodes),
                ids.len() == n,
                wf(mn),
                match rows {
                    Some(r) => rows_v == Some(r@) && all_wf(r@) && r@.len() == n,
                    None => rows_v is None,
                },
                (positions@, mh as int) == place_members(pos0, mh0, ids, g@.take(k as int), x, bw, rows_v, mn),
            decreases g@.len() - k,
        {
            assert(g@.take(k + 1).drop_last() =~= g@.take(k as int));
            let v = g[k];
            let y = match &rows {
                Some(r) => {
                    assert(wf(r@[v as int]));
                    row_y_of(r[v], mn)
                },
                None => smul(k, 5),
            };
            let key = chars_of(d.nodes[v].id.as_str());
            assert(ids[v as int] == d.nodes@[v as int].id@);
            positions.insert(key.as_slice(), Position { x, y, width: bw, height: 3 });
            let bottom = sadd(y, 3);
            if bottom > mh {
                mh = bottom;
            }
            k = k + 1;
        }
        assert(g@.take(g@.len() as int) =~= g@);
        assert(vals@.take(j + 1).last() == m);
        assert((positions@, mh as int) == place_members(pos0, mh0, ids, group(layer@, m), x, bw, rows_v, mn));
        let right = sadd(x, bw);
        if right > mw {
            mw = right;
        }
        assert(place_layers(ids, layer@, vals@.take(j + 1), bw, gap, rows_v, mn) == (positions@, max_int(mw0, sat_add(x as int, bw as int)), mh as int));
        j = j + 1;
    }
    assert(vals@.take(vals@.len() as int) =~= vals@);
    LayoutResult { positions, width: sadd(mw, 2), height: sadd(mh, 2) }
}

/// The flowchart box width fits every label: it is at least 12 and at least
/// each label's display width (wide characters counting 2 columns) plus 2,
/// and it is one of these values.
pub proof fn law_box_width_fits_labels(nodes: Seq<NodeV>)
    ensures
        box_width(nodes) >= 12,
        forall|k: int| 0 <= k < nodes.len() ==> box_width(nodes) >= sat_add(display_width(#[trigger] nodes[k].label) as int, 2),
        box_width(nodes) == 12 || exists|k: int| 0 <= k < nodes.len() && box_width(nodes) == sat_add(
            display_width(#[trigger] nodes[k].label) as int,
            2,
        ),
    decreases nodes.len(),
{
    if nodes.len() > 0 {
        law_box_width_fits_labels(nodes.drop_last());
        let p = nodes.drop_last();
        assert forall|k: int| 0 <= k < nodes.len() implies box_width(nodes) >= sat_add(display_width(#[trigger] nodes[k].label) as int, 2) by {
            if k < p.len() {
                assert(p[k] == nodes[k]);
            }
        }
        if box_width(nodes) != 12 && box_width(nodes) != sat_add(display_width(nodes[nodes.len() - 1].label) as int, 2) {
            let k = choose|k: int| 0 <= k < p.len() && box_width(p) == sat_add(display_width(#[trigger] p[k].label) as int, 2);
            assert(p[k] == nodes[k]);
        }
    }
}

} // verus!
