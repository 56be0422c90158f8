//! Why flowchart boxes never overprint: nodes of different layers get
//! different columns, and the nodes of one layer get rows at least one
//! apart, which stay at least one canvas line apart after rounding.

use vstd::prelude::*;
use crate::arith::{max_int, sat_add, sat_mul};
use crate::diagram::{DiagramType, DiagramV, ids_distinct};
use crate::layout::{Position, keys_distinct, layout_spec, lemma_pm_insert_distinct, node_ids, pm_insert};
use crate::layout::layering::{acyclic, chain_to, is_chain};
use crate::width::display_width;
use crate::layout::flowchart::{
    box_width, edge_label_width, edge_pairs, flow_rows, layers_of, layout_flowchart, preds_of,
    node_y, place_layers, place_members,
    min_rat, row_y, sweep,
    all_wf, before, count_ge, group, insert_pos, layer_values, lemma_min_ge, mean_at, mean_rats, min_ge,
    place_group, placed, shifted, sort_targets, sum_at, targets,
};
use crate::layout::rational::{
    Rat, lemma_canon_wf, lemma_ge1_ge, lemma_ge1_trans, lemma_next_row,
    lemma_ge_trans, lemma_shift_ge1, r_add, r_ge, r_ge1, r_int, r_lt, r_sub, wf,
};

verus! {

// ---------------------------------------------------------------- groups

/// The place of node `n` among the nodes of its layer.
pub open spec fn rank(layer: Seq<usize>, n: int) -> int {
    group(layer.take(n), layer[n]).len() as int
}

/// The `k`-th node of layer `m` has that layer, and `k` is its rank.
pub proof fn lemma_group_index(layer: Seq<usize>, m: usize, k: int)
    requires
        0 <= k < group(layer, m).len(),
        layer.len() <= usize::MAX,
    ensures
        0 <= group(layer, m)[k] < layer.len(),
        layer[group(layer, m)[k] as int] == m,
        rank(layer, group(layer, m)[k] as int) == k,
    decreases layer.len(),
{
    let p = layer.drop_last();
    let g = group(p, m);
    let full = group(layer, m);
    if layer.last() == m {
        assert(full == g.push((layer.len() - 1) as usize));
    } else {
        assert(full == g);
    }
    if layer.last() == m && k == g.len() {
        assert(layer.take(layer.len() - 1) =~= p);
        assert(full[k] == layer.len() - 1);
    } else {
        lemma_group_index(p, m, k);
        let n = g[k] as int;
        assert(full[k] == g[k]);
        assert(p.take(n) =~= layer.take(n));
        assert(p[n] == layer[n]);
    }
}

/// Every node is in the group of its layer, at its rank.
pub proof fn lemma_group_contains(layer: Seq<usize>, n: int)
    requires
        0 <= n < layer.len(),
        layer.len() <= usize::MAX,
    ensures
        0 <= rank(layer, n) < group(layer, layer[n]).len(),
        group(layer, layer[n])[rank(layer, n)] == n,
    decreases layer.len(),
{
    let p = layer.drop_last();
    let m = layer[n];
    let g = group(p, m);
    let full = group(layer, m);
    if layer.last() == m {
        assert(full == g.push((layer.len() - 1) as usize));
    } else {
        assert(full == g);
    }
    if n == layer.len() - 1 {
        assert(layer.take(n) =~= p);
    } else {
        lemma_group_contains(p, n);
        assert(p.take(n) =~= layer.take(n));
        assert(p[n] == layer[n]);
        assert(full[rank(layer, n)] == g[rank(layer, n)]);
    }
}

// ---------------------------------------------------------------- layer values

/// Every layer from `lo` up is among the layer values from `lo`.
pub proof fn lemma_values_contains(layer: Seq<usize>, lo: int, n: int)
    requires
        0 <= n < layer.len(),
        layer[n] >= lo,
    ensures
        layer_values(layer, lo).contains(layer[n]),
    decreases count_ge(layer, lo),
{
    lemma_min_ge(layer, lo);
    match min_ge(layer, lo) {
        Some(m) => {
            let vs = layer_values(layer, lo);
            assert(vs == seq![m] + layer_values(layer, m + 1));
            if layer[n] == m {
                assert(vs[0] == m);
            } else {
                lemma_values_contains(layer, m + 1, n);
                let rest = layer_values(layer, m + 1);
                let i = choose|i: int| 0 <= i < rest.len() && rest[i] == layer[n];
                assert(vs[i + 1] == rest[i]);
            }
        },
        None => {},
    }
}

/// The layer values from `lo` are at least `lo` and strictly increasing.
pub proof fn lemma_values_sorted(layer: Seq<usize>, lo: int)
    ensures
        forall|i: int| 0 <= i < layer_values(layer, lo).len() ==> layer_values(layer, lo)[i] >= lo,
        forall|i: int, j: int|
            0 <= i < j < layer_values(layer, lo).len() ==> layer_values(layer, lo)[i] < layer_values(layer, lo)[j],
    decreases count_ge(layer, lo),
{
    lemma_min_ge(layer, lo);
    match min_ge(layer, lo) {
        Some(m) => {
            lemma_values_sorted(layer, m + 1);
            let vs = layer_values(layer, lo);
            let rest = layer_values(layer, m + 1);
            assert(vs == seq![m] + rest);
            assert forall|i: int| 0 <= i < vs.len() implies vs[i] >= lo by {
                if i > 0 {
                    assert(vs[i] == rest[i - 1]);
                }
            }
            assert forall|i: int, j: int| 0 <= i < j < vs.len() implies vs[i] < vs[j] by {
                assert(vs[j] == rest[j - 1]);
                if i > 0 {
                    assert(vs[i] == rest[i - 1]);
                }
            }
        },
        None => {},
    }
}


// ---------------------------------------------------------------- one group

/// Rows `a` and `b` are at least one apart, one way or the other.
pub open spec fn apart(r: Seq<Rat>, a: int, b: int) -> bool {
    r_ge1(r[a], r[b]) || r_ge1(r[b], r[a])
}

proof fn lemma_sum_at_wf(rows: Seq<Rat>, us: Seq<usize>)
    ensures
        sum_at(rows, us) matches Some(x) ==> wf(x),
    decreases us.len(),
{
    if us.len() > 0 {
        lemma_sum_at_wf(rows, us.drop_last());
        match sum_at(rows, us.drop_last()) {
            Some(s) => {
                lemma_canon_wf(s.num * rows[us.last() as int].den + rows[us.last() as int].num * s.den, s.den * rows[us.last() as int].den);
            },
            None => {},
        }
    }
}

proof fn lemma_mean_at_wf(rows: Seq<Rat>, us: Seq<usize>)
    ensures
        mean_at(rows, us) matches Some(x) ==> wf(x),
{
    lemma_sum_at_wf(rows, us);
    if us.len() > 0 {
        match sum_at(rows, us) {
            Some(s) => {
                lemma_canon_wf(s.num as int, s.den * us.len());
            },
            None => {},
        }
    }
}

/// The targets of a group are its nodes, in order, with rows in bounds.
proof fn lemma_targets(rows: Seq<Rat>, g: Seq<usize>, preds: Seq<Seq<usize>>)
    ensures
        targets(rows, g, preds) matches Some(ts) ==> ts.len() == g.len() && forall|k: int|
            0 <= k < ts.len() ==> (#[trigger] ts[k]).0 == g[k] && wf(ts[k].1),
    decreases g.len(),
{
    if g.len() > 0 {
        lemma_targets(rows, g.drop_last(), preds);
        lemma_mean_at_wf(rows, preds[g.last() as int]);
        match targets(rows, g, preds) {
            Some(ts) => {
                let prev = targets(rows, g.drop_last(), preds)->0;
                assert forall|k: int| 0 <= k < ts.len() implies (#[trigger] ts[k]).0 == g[k] && wf(ts[k].1) by {
                    if k < ts.len() - 1 {
                        assert(ts[k] == prev[k]);
                        assert(g.drop_last()[k] == g[k]);
                    }
                }
            },
            None => {},
        }
    }
}

proof fn lemma_insert_pos_bound(s: Seq<(usize, Rat)>, x: (usize, Rat), i: int)
    requires
        0 <= i <= s.len(),
    ensures
        i <= insert_pos(s, x, i) <= s.len(),
    decreases s.len() - i,
{
    if i < s.len() && !before(x, s[i]) {
        lemma_insert_pos_bound(s, x, i + 1);
    }
}

/// Sorting keeps every target, and brings in none.
proof fn lemma_sort_perm(ts: Seq<(usize, Rat)>)
    ensures
        sort_targets(ts).len() == ts.len(),
        forall|j: int| 0 <= j < ts.len() ==> sort_targets(ts).contains(#[trigger] ts[j]),
        forall|k: int| 0 <= k < ts.len() ==> ts.contains(#[trigger] sort_targets(ts)[k]),
    decreases ts.len(),
{
    if ts.len() > 0 {
        let p = ts.drop_last();
        lemma_sort_perm(p);
        let s = sort_targets(p);
        let x = ts.last();
        lemma_insert_pos_bound(s, x, 0);
        let pos = insert_pos(s, x, 0);
        let r = s.insert(pos, x);
        assert(sort_targets(ts) == r);
        assert forall|j: int| 0 <= j < ts.len() implies r.contains(#[trigger] ts[j]) by {
            if j == ts.len() - 1 {
                assert(r[pos] == x);
            } else {
                assert(p[j] == ts[j]);
                assert(s.contains(p[j]));
                let i = choose|i: int| 0 <= i < s.len() && s[i] == p[j];
                if i < pos {
                    assert(r[i] == s[i]);
                } else {
                    assert(r[i + 1] == s[i]);
                }
            }
        }
        assert forall|k: int| 0 <= k < ts.len() implies ts.contains(#[trigger] r[k]) by {
            if k == pos {
                assert(ts[ts.len() - 1] == x);
            } else {
                let i = if k < pos { k } else { k - 1 };
                assert(r[k] == s[i]);
                assert(p.contains(s[i]));
                let jj = choose|jj: int| 0 <= jj < p.len() && p[jj] == s[i];
                assert(ts[jj] == p[jj]);
            }
        }
    }
}

/// Placed rows keep at least one apart, in order.
proof fn lemma_placed(ts: Seq<Rat>)
    requires
        all_wf(ts),
    ensures
        placed(ts) matches Some(ys) ==> ys.len() == ts.len() && all_wf(ys) && forall|j: int, k: int|
            0 <= j < k < ys.len() ==> r_ge1(#[trigger] ys[k], #[trigger] ys[j]),
    decreases ts.len(),
{
    if ts.len() > 0 {
        let p = ts.drop_last();
        assert forall|k: int| 0 <= k < p.len() implies wf(#[trigger] p[k]) by {
            assert(p[k] == ts[k]);
        }
        lemma_placed(p);
        match placed(p) {
            Some(ys) => {
                if ys.len() > 0 {
                    let y = ys.last();
                    let t = ts.last();
                    assert(wf(y));
                    assert(wf(ts[ts.len() - 1]));
                    lemma_next_row(y, t);
                    lemma_canon_wf(y.num * 1 + 1 * y.den, y.den * 1);
                    match r_add(y, r_int(1)) {
                        Some(q) => {
                            let c = if r_lt(t, q) { q } else { t };
                            let full = ys.push(c);
                            assert(r_ge1(c, y));
                            assert forall|j: int, k: int| 0 <= j < k < full.len() implies r_ge1(#[trigger] full[k], #[trigger] full[j]) by {
                                if k == full.len() - 1 {
                                    if j < ys.len() - 1 {
                                        assert(r_ge1(ys[ys.len() - 1], ys[j]));
                                        lemma_ge1_ge(ys[ys.len() - 1], ys[j]);
                                        lemma_ge1_trans(c, y, ys[j]);
                                    }
                                } else {
                                    assert(full[k] == ys[k] && full[j] == ys[j]);
                                }
                            }
                        },
                        None => {},
                    }
                }
            },
            None => {},
        }
    }
}


/// The last target that sets node `n`.
pub open spec fn last_slot(ts: Seq<(usize, Rat)>, n: int) -> Option<int>
    decreases ts.len(),
{
    if ts.len() == 0 {
        None
    } else if ts.last().0 == n {
        Some(ts.len() - 1)
    } else {
        last_slot(ts.drop_last(), n)
    }
}

proof fn lemma_last_slot(ts: Seq<(usize, Rat)>, n: int)
    ensures
        last_slot(ts, n) matches Some(k) ==> 0 <= k < ts.len() && ts[k].0 == n,
        last_slot(ts, n) is None ==> forall|k: int| 0 <= k < ts.len() ==> ts[k].0 != n,
    decreases ts.len(),
{
    if ts.len() > 0 {
        lemma_last_slot(ts.drop_last(), n);
        assert forall|k: int| 0 <= k < ts.len() - 1 implies ts.drop_last()[k] == ts[k] by {}
    }
}

/// What `shifted` leaves in each row.
proof fn lemma_shifted(rows: Seq<Rat>, ts: Seq<(usize, Rat)>, ys: Seq<Rat>, sh: Rat, r: Seq<Rat>)
    requires
        forall|k: int| 0 <= k < ts.len() ==> (#[trigger] ts[k]).0 < rows.len(),
        shifted(rows, ts, ys, sh) == Some(r),
    ensures
        r.len() == rows.len(),
        forall|n: int| 0 <= n < rows.len() ==> slot_value(rows, ts, ys, sh, n, #[trigger] r[n]),
    decreases ts.len(),
{
    if ts.len() > 0 {
        let p = ts.drop_last();
        let k = ts.len() - 1;
        assert forall|j: int| 0 <= j < p.len() implies (#[trigger] p[j]).0 < rows.len() by {
            assert(p[j] == ts[j]);
        }
        let r0 = shifted(rows, p, ys, sh)->0;
        let y = r_add(ys[k], sh)->0;
        lemma_shifted(rows, p, ys, sh, r0);
        assert(r == r0.update(ts[k].0 as int, y));
        assert forall|n: int| 0 <= n < rows.len() implies slot_value(rows, ts, ys, sh, n, #[trigger] r[n]) by {
            if n == ts[k].0 {
                assert(last_slot(ts, n) == Some(k));
            } else {
                assert(last_slot(ts, n) == last_slot(p, n));
                assert(r[n] == r0[n]);
                assert(slot_value(rows, p, ys, sh, n, r0[n]));
            }
        }
    }
}

/// `v` is what `shifted` leaves in row `n`: the shifted placed row of the
/// last target setting it, or the row as it was.
pub open spec fn slot_value(rows: Seq<Rat>, ts: Seq<(usize, Rat)>, ys: Seq<Rat>, sh: Rat, n: int, v: Rat) -> bool {
    match last_slot(ts, n) {
        Some(k) => r_add(ys[k], sh) == Some(v),
        None => v == rows[n],
    }
}

/// Placing a group leaves the other rows alone and sets the rows of its
/// nodes at least one apart.
pub proof fn lemma_place_group(rows: Seq<Rat>, g: Seq<usize>, preds: Seq<Seq<usize>>)
    requires
        all_wf(rows),
        forall|k: int| 0 <= k < g.len() ==> #[trigger] g[k] < rows.len(),
    ensures
        place_group(rows, g, preds) matches Some(r) ==> r.len() == rows.len() && all_wf(r) && (forall|n: int|
            0 <= n < rows.len() && !g.contains(n as usize) ==> #[trigger] r[n] == rows[n]) && (forall|i: int, j: int|
            0 <= i < g.len() && 0 <= j < g.len() && g[i] != g[j] ==> apart(r, #[trigger] g[i] as int, #[trigger] g[j] as int)),
{
    lemma_targets(rows, g, preds);
    match targets(rows, g, preds) {
        None => {},
        Some(ts0) => {
            let ts = sort_targets(ts0);
            lemma_sort_perm(ts0);
            let tv = ts.map_values(|x: (usize, Rat)| x.1);
            assert forall|k: int| 0 <= k < ts.len() implies (#[trigger] ts[k]).0 < rows.len() && wf(ts[k].1) by {
                assert(ts0.contains(ts[k]));
                let j = choose|j: int| 0 <= j < ts0.len() && ts0[j] == ts[k];
                assert(ts0[j].0 == g[j]);
            }
            assert forall|k: int| 0 <= k < tv.len() implies wf(#[trigger] tv[k]) by {
                assert(tv[k] == ts[k].1);
            }
            lemma_placed(tv);
            match (placed(tv), mean_rats(tv)) {
                (Some(ys), Some(want)) => match mean_rats(ys) {
                    Some(have) => match r_sub(want, have) {
                        Some(sh) => {
                            lemma_canon_wf(want.num * have.den - have.num * want.den, want.den * have.den);
                            match shifted(rows, ts, ys, sh) {
                                Some(r) => {
                                    lemma_shifted(rows, ts, ys, sh, r);
                                    assert forall|n: int| 0 <= n < r.len() implies wf(#[trigger] r[n]) by {
                                        lemma_last_slot(ts, n);
                                        match last_slot(ts, n) {
                                            Some(k) => {
                                                lemma_canon_wf(ys[k].num * sh.den + sh.num * ys[k].den, ys[k].den * sh.den);
                                            },
                                            None => {},
                                        }
                                    }
                                    assert forall|n: int| 0 <= n < rows.len() && !g.contains(n as usize) implies #[trigger] r[n] == rows[n] by {
                                        lemma_last_slot(ts, n);
                                        if last_slot(ts, n) is Some {
                                            let k = last_slot(ts, n)->0;
                                            assert(ts0.contains(ts[k]));
                                            let j = choose|j: int| 0 <= j < ts0.len() && ts0[j] == ts[k];
                                            assert(g[j] == n);
                                        }
                                    }
                                    assert forall|i: int, j: int|
                                        0 <= i < g.len() && 0 <= j < g.len() && g[i] != g[j] implies apart(r, #[trigger] g[i] as int, #[trigger] g[j] as int) by {
                                        let a = g[i] as int;
                                        let b = g[j] as int;
                                        assert(ts.contains(ts0[i]));
                                        assert(ts.contains(ts0[j]));
                                        let ka = choose|k: int| 0 <= k < ts.len() && ts[k] == ts0[i];
                                        let kb = choose|k: int| 0 <= k < ts.len() && ts[k] == ts0[j];
                                        lemma_last_slot(ts, a);
                                        lemma_last_slot(ts, b);
                                        assert(ts[ka].0 == a);
                                        assert(ts[kb].0 == b);
                                        let la = last_slot(ts, a)->0;
                                        let lb = last_slot(ts, b)->0;
                                        assert(wf(ys[la]) && wf(ys[lb]));
                                        if la < lb {
                                            assert(r_ge1(ys[lb], ys[la]));
                                            lemma_shift_ge1(ys[lb], ys[la], sh);
                                        } else {
                                            assert(la != lb);
                                            assert(r_ge1(ys[la], ys[lb]));
                                            lemma_shift_ge1(ys[la], ys[lb], sh);
                                        }
                                    }
                                },
                                None => {},
                            }
                        },
                        None => {},
                    },
                    None => {},
                },
                _ => {},
            }
        },
    }
}


// ---------------------------------------------------------------- all layers

/// After the sweep, the nodes of each swept layer have rows at least one apart.
pub proof fn lemma_sweep(rows0: Seq<Rat>, layer: Seq<usize>, vals: Seq<usize>, preds: Seq<Seq<usize>>)
    requires
        all_wf(rows0),
        rows0.len() == layer.len(),
        layer.len() <= usize::MAX,
        forall|i: int, j: int| 0 <= i < j < vals.len() ==> vals[i] != vals[j],
    ensures
        sweep(Some(rows0), layer, vals, preds) matches Some(r) ==> r.len() == rows0.len() && all_wf(r) && forall|a: int, b: int|
            0 <= a < layer.len() && 0 <= b < layer.len() && a != b && layer[a] == layer[b] && vals.contains(layer[a])
                ==> apart(r, a, b),
    decreases vals.len(),
{
    if vals.len() > 0 {
        let pv = vals.drop_last();
        assert forall|i: int, j: int| 0 <= i < j < pv.len() implies pv[i] != pv[j] by {
            assert(pv[i] == vals[i] && pv[j] == vals[j]);
        }
        lemma_sweep(rows0, layer, pv, preds);
        let m = vals.last();
        let g = group(layer, m);
        match sweep(Some(rows0), layer, pv, preds) {
            Some(rp) => {
                assert forall|k: int| 0 <= k < g.len() implies #[trigger] g[k] < rp.len() by {
                    lemma_group_index(layer, m, k);
                }
                lemma_place_group(rp, g, preds);
                let res = sweep(Some(rows0), layer, vals, preds);
                match res {
                    Some(r) => {
                        assert forall|a: int, b: int|
                            0 <= a < layer.len() && 0 <= b < layer.len() && a != b && layer[a] == layer[b] && vals.contains(layer[a])
                            implies apart(r, a, b) by {
                            if layer[a] == m {
                                lemma_group_contains(layer, a);
                                lemma_group_contains(layer, b);
                                assert(g.len() > 0);
                                assert(res == place_group(rp, g, preds));
                                let ia = rank(layer, a);
                                let ib = rank(layer, b);
                                assert(g[ia] == a && g[ib] == b);
                                assert(apart(r, g[ia] as int, g[ib] as int));
                                assert(apart(r, a, b));
                            } else {
                                let i = choose|i: int| 0 <= i < vals.len() && vals[i] == layer[a];
                                assert(i < vals.len() - 1);
                                assert(pv[i] == layer[a]);
                                assert(pv.contains(layer[a]));
                                if g.len() > 0 {
                                    assert(!g.contains(a as usize)) by {
                                        if g.contains(a as usize) {
                                            let k = choose|k: int| 0 <= k < g.len() && g[k] == a as usize;
                                            lemma_group_index(layer, m, k);
                                        }
                                    }
                                    assert(!g.contains(b as usize)) by {
                                        if g.contains(b as usize) {
                                            let k = choose|k: int| 0 <= k < g.len() && g[k] == b as usize;
                                            lemma_group_index(layer, m, k);
                                        }
                                    }
                                    assert(res == place_group(rp, g, preds));
                                    assert(r[a] == rp[a] && r[b] == rp[b]);
                                    assert(apart(rp, a, b));
                                    assert(apart(r, a, b));
                                } else {
                                    assert(res == Some(rp));
                                    assert(apart(r, a, b));
                                }
                            }
                        }
                    },
                    None => {},
                }
            },
            None => {},
        }
    }
}

// ---------------------------------------------------------------- rounding

/// The smallest row is at most every row.
pub proof fn lemma_min_rat(rows: Seq<Rat>)
    requires
        all_wf(rows),
        rows.len() > 0,
    ensures
        wf(min_rat(rows)),
        forall|i: int| 0 <= i < rows.len() ==> r_ge(#[trigger] rows[i], min_rat(rows)),
    decreases rows.len(),
{
    if rows.len() == 1 {
        assert(r_ge(rows[0], rows[0])) by (nonlinear_arith)
            requires true;
    } else {
        let p = rows.drop_last();
        assert forall|k: int| 0 <= k < p.len() implies wf(#[trigger] p[k]) by {
            assert(p[k] == rows[k]);
        }
        lemma_min_rat(p);
        let m = min_rat(p);
        let x = rows.last();
        assert(wf(x));
        if r_lt(x, m) {
            assert(r_ge(m, x));
            assert forall|i: int| 0 <= i < rows.len() implies r_ge(#[trigger] rows[i], x) by {
                if i < rows.len() - 1 {
                    assert(rows[i] == p[i]);
                    lemma_ge_trans(rows[i], m, x);
                } else {
                    assert(r_ge(x, x)) by (nonlinear_arith)
                        requires true;
                }
            }
        } else {
            assert forall|i: int| 0 <= i < rows.len() implies r_ge(#[trigger] rows[i], m) by {
                if i < rows.len() - 1 {
                    assert(rows[i] == p[i]);
                }
            }
        }
    }
}

/// The line of a row before it is capped at `usize::MAX`.
pub open spec fn row_y_raw(row: Rat, mn: Rat) -> int {
    let diff = row.num * mn.den - mn.num * row.den;
    if diff <= 0 {
        0
    } else {
        let p = 5 * diff;
        let q = row.den * mn.den;
        (2 * p + q) / (2 * q)
    }
}

/// Rows one apart, both at or above the smallest, land at least four lines
/// apart.
pub proof fn lemma_row_y_apart(ra: Rat, rb: Rat, mn: Rat)
    requires
        wf(ra),
        wf(rb),
        wf(mn),
        r_ge1(ra, rb),
        r_ge(rb, mn),
    ensures
        row_y_raw(ra, mn) >= row_y_raw(rb, mn) + 4,
        row_y_raw(rb, mn) >= 0,
        row_y(ra, mn) as int == (if row_y_raw(ra, mn) > usize::MAX { usize::MAX as int } else { row_y_raw(ra, mn) }),
        row_y(rb, mn) as int == (if row_y_raw(rb, mn) > usize::MAX { usize::MAX as int } else { row_y_raw(rb, mn) }),
{
    let da = ra.num * mn.den - mn.num * ra.den;
    let db = rb.num * mn.den - mn.num * rb.den;
    let qa = ra.den * mn.den;
    let qb = rb.den * mn.den;
    let ss = mn.den * mn.den;
    let e = ra.num * rb.den - rb.num * ra.den;
    assert(qa >= 1 && qb >= 1 && ss >= 1) by (nonlinear_arith)
        requires qa == ra.den * mn.den, qb == rb.den * mn.den, ss == mn.den * mn.den, wf(ra), wf(rb), wf(mn);
    assert(db >= 0);
    assert(da * qb == (ra.num * mn.den) * qb - (mn.num * ra.den) * qb) by (nonlinear_arith)
        requires da == ra.num * mn.den - mn.num * ra.den;
    assert((ra.num * mn.den) * qb == (ra.num * rb.den) * ss) by (nonlinear_arith)
        requires qb == rb.den * mn.den, ss == mn.den * mn.den;
    assert((mn.num * ra.den) * qb == (mn.num * ra.den * rb.den) * mn.den) by (nonlinear_arith)
        requires qb == rb.den * mn.den;
    assert(db * qa == (rb.num * mn.den) * qa - (mn.num * rb.den) * qa) by (nonlinear_arith)
        requires db == rb.num * mn.den - mn.num * rb.den;
    assert((rb.num * mn.den) * qa == (rb.num * ra.den) * ss) by (nonlinear_arith)
        requires qa == ra.den * mn.den, ss == mn.den * mn.den;
    assert((mn.num * rb.den) * qa == (mn.num * ra.den * rb.den) * mn.den) by (nonlinear_arith)
        requires qa == ra.den * mn.den;
    assert(ss * e == (ra.num * rb.den) * ss - (rb.num * ra.den) * ss) by (nonlinear_arith)
        requires e == ra.num * rb.den - rb.num * ra.den;
    assert(da * qb - db * qa == ss * e);
    assert(e >= ra.den * rb.den) by (nonlinear_arith)
        requires e == ra.num * rb.den - rb.num * ra.den, ra.num * rb.den >= (rb.num + rb.den) * ra.den;
    assert(ss * e >= qa * qb) by (nonlinear_arith)
        requires e >= ra.den * rb.den, ss >= 1, qa == ra.den * mn.den, qb == rb.den * mn.den, ss == mn.den * mn.den;
    assert(da >= qa) by (nonlinear_arith)
        requires da * qb - db * qa >= qa * qb, db >= 0, qa >= 1, qb >= 1;
    let pa = 5 * da;
    let xa = 2 * pa + qa;
    let dva = 2 * qa;
    if db <= 0 {
        assert(dva * 4 <= xa) by (nonlinear_arith)
            requires dva == 2 * qa, xa == 2 * pa + qa, pa == 5 * da, da >= qa, qa >= 1;
        vstd::arithmetic::div_mod::lemma_div_is_ordered(dva * 4, xa, dva);
        vstd::arithmetic::div_mod::lemma_div_by_multiple(4, dva);
    } else {
        let pb = 5 * db;
        let xb = 2 * pb + qb;
        let dvb = 2 * qb;
        let yb = xb / dvb;
        vstd::arithmetic::div_mod::lemma_fundamental_div_mod(xb, dvb);
        assert(dvb * yb <= xb);
        assert(yb >= 0) by {
            vstd::arithmetic::div_mod::lemma_div_pos_is_pos(xb, dvb);
        }
        assert(qb * (dva * (yb + 4)) <= qb * xa) by (nonlinear_arith)
            requires
                dvb * yb <= xb,
                xb == 2 * pb + qb,
                dvb == 2 * qb,
                pb == 5 * db,
                dva == 2 * qa,
                xa == 2 * pa + qa,
                pa == 5 * da,
                da * qb - db * qa >= qa * qb,
                qa >= 1,
                qb >= 1,
                yb >= 0;
        assert(dva * (yb + 4) <= xa) by (nonlinear_arith)
            requires qb * (dva * (yb + 4)) <= qb * xa, qb >= 1;
        vstd::arithmetic::div_mod::lemma_div_is_ordered(dva * (yb + 4), xa, dva);
        vstd::arithmetic::div_mod::lemma_div_by_multiple(yb + 4, dva);
    }
}


// ---------------------------------------------------------------- positions

/// The column of layer `m`.
pub open spec fn xcoord(m: usize, bw: usize, gap: usize) -> usize {
    sat_mul(m as int, sat_add(bw as int, gap as int)) as usize
}

/// The position node `n` is given.
pub open spec fn node_pos(layer: Seq<usize>, bw: usize, gap: usize, rows: Option<Seq<Rat>>, mn: Rat, n: int) -> Position {
    Position { x: xcoord(layer[n], bw, gap), y: node_y(rows, mn, n as usize, rank(layer, n)), width: bw, height: 3 }
}

/// An entry is the position of a node with its key as id.
pub open spec fn entry_ok(
    e: (Seq<char>, Position),
    ids: Seq<Seq<char>>,
    layer: Seq<usize>,
    bw: usize,
    gap: usize,
    rows: Option<Seq<Rat>>,
    mn: Rat,
) -> bool {
    exists|n: int| 0 <= n < ids.len() && ids[n] == e.0 && e.1 == node_pos(layer, bw, gap, rows, mn, n)
}

/// Placing the nodes of a layer keeps keys distinct and every entry the
/// position of a node, within the tracked extent.
proof fn lemma_place_members_ok(
    pos: Seq<(Seq<char>, Position)>,
    mh: int,
    mw: int,
    ids: Seq<Seq<char>>,
    layer: Seq<usize>,
    m: usize,
    g: Seq<usize>,
    bw: usize,
    gap: usize,
    rows: Option<Seq<Rat>>,
    mn: Rat,
)
    requires
        ids.len() == layer.len(),
        layer.len() <= usize::MAX,
        g.len() <= group(layer, m).len(),
        forall|k: int| 0 <= k < g.len() ==> #[trigger] g[k] == group(layer, m)[k],
        keys_distinct(pos),
        forall|i: int| 0 <= i < pos.len() ==> entry_ok(#[trigger] pos[i], ids, layer, bw, gap, rows, mn)
            && sat_add(pos[i].1.y as int, 3) <= mh && (sat_add(pos[i].1.x as int, bw as int) <= mw || pos[i].1.x == xcoord(m, bw, gap)),
    ensures
        ({
            let (p, h) = place_members(pos, mh, ids, g, xcoord(m, bw, gap), bw, rows, mn);
            &&& keys_distinct(p)
            &&& h >= mh
            &&& forall|i: int| 0 <= i < p.len() ==> entry_ok(#[trigger] p[i], ids, layer, bw, gap, rows, mn)
                && sat_add(p[i].1.y as int, 3) <= h && (sat_add(p[i].1.x as int, bw as int) <= mw || p[i].1.x == xcoord(m, bw, gap))
        }),
    decreases g.len(),
{
    if g.len() > 0 {
        let gp = g.drop_last();
        assert forall|k: int| 0 <= k < gp.len() implies #[trigger] gp[k] == group(layer, m)[k] by {
            assert(gp[k] == g[k]);
        }
        lemma_place_members_ok(pos, mh, mw, ids, layer, m, gp, bw, gap, rows, mn);
        let x = xcoord(m, bw, gap);
        let (p, h) = place_members(pos, mh, ids, gp, x, bw, rows, mn);
        let k = g.len() - 1;
        let n = g.last();
        assert(n == group(layer, m)[k]);
        lemma_group_index(layer, m, k);
        let y = node_y(rows, mn, n, k);
        let np = Position { x, y, width: bw, height: 3 };
        assert(np == node_pos(layer, bw, gap, rows, mn, n as int));
        lemma_pm_insert_distinct(p, ids[n as int], np);
        let p2 = pm_insert(p, ids[n as int], np);
        let h2 = max_int(h, sat_add(y as int, 3));
        assert forall|i: int| 0 <= i < p2.len() implies entry_ok(#[trigger] p2[i], ids, layer, bw, gap, rows, mn)
            && sat_add(p2[i].1.y as int, 3) <= h2 && (sat_add(p2[i].1.x as int, bw as int) <= mw || p2[i].1.x == x) by {
            if p2[i] == (ids[n as int], np) {
                assert(ids[n as int] == p2[i].0 && p2[i].1 == node_pos(layer, bw, gap, rows, mn, n as int));
            } else {
                assert(p2[i] == p[i]);
            }
        }
    }
}

proof fn lemma_place_layers_entries(
    ids: Seq<Seq<char>>,
    layer: Seq<usize>,
    vals: Seq<usize>,
    bw: usize,
    gap: usize,
    rows: Option<Seq<Rat>>,
    mn: Rat,
)
    requires
        ids.len() == layer.len(),
        layer.len() <= usize::MAX,
    ensures
        ({
            let (p, mw, mh) = place_layers(ids, layer, vals, bw, gap, rows, mn);
            &&& keys_distinct(p)
            &&& forall|i: int| 0 <= i < p.len() ==> entry_ok(#[trigger] p[i], ids, layer, bw, gap, rows, mn)
                && sat_add(p[i].1.y as int, 3) <= mh && sat_add(p[i].1.x as int, bw as int) <= mw
        }),
    decreases vals.len(),
{
    if vals.len() > 0 {
        lemma_place_layers_entries(ids, layer, vals.drop_last(), bw, gap, rows, mn);
        let (pos, mw, mh) = place_layers(ids, layer, vals.drop_last(), bw, gap, rows, mn);
        let m = vals.last();
        let g = group(layer, m);
        lemma_place_members_ok(pos, mh, mw, ids, layer, m, g, bw, gap, rows, mn);
        let x = xcoord(m, bw, gap);
        assert(x == sat_mul(vals.last() as int, sat_add(bw as int, gap as int)) as usize);
    }
}


// ---------------------------------------------------------------- the law

/// The layer of node `n` of a flowchart: for an acyclic graph, the number of
/// edges on the longest edge path that ends at it (`law_longest_chain_layers`).
pub open spec fn flow_layer(d: DiagramV, n: int) -> int {
    layers_of(node_ids(d.nodes).len(), edge_pairs(node_ids(d.nodes), d.edges))[n] as int
}

/// The column pitch of a flowchart: the box width plus a gap of at least 4
/// that fits the widest edge label with 2 columns either side.
pub open spec fn flow_pitch(d: DiagramV) -> int {
    sat_add(box_width(d.nodes), max_int(4, sat_add(edge_label_width(d.edges), 4)))
}

/// Entry `e` is the box of node `n`: in the column of its layer, with the
/// flowchart's box width and a height of 3.
pub open spec fn flow_box(d: DiagramV, e: (Seq<char>, Position), n: int) -> bool {
    &&& 0 <= n < d.nodes.len()
    &&& d.nodes[n].id == e.0
    &&& e.1.x == flow_layer(d, n) * flow_pitch(d)
    &&& e.1.width == box_width(d.nodes)
    &&& e.1.height == 3
}

/// Entry `e` is the box of some node of `d`.
pub open spec fn is_flow_box(d: DiagramV, e: (Seq<char>, Position)) -> bool {
    exists|m: int| flow_box(d, e, m)
}

/// Flowchart boxes never overlap. Each node gets one box, 3 lines high and
/// as wide as the widest label plus 2 (at least 12), in the column of its
/// layer: `x` is its layer times the column pitch. Nodes of different layers
/// are in different columns, and nodes of one layer at least four lines
/// apart. This holds whenever the layout's width and height stay below
/// `usize::MAX`, so that no coordinate was saturated.
pub proof fn law_flowchart_no_overlap(d: DiagramV)
    requires
        d.nodes.len() <= usize::MAX,
        layout_flowchart(d).width < usize::MAX,
        layout_flowchart(d).height < usize::MAX,
    ensures
        keys_distinct(layout_flowchart(d).positions),
        forall|k: int| 0 <= k < layout_flowchart(d).positions.len() ==> is_flow_box(d, #[trigger] layout_flowchart(d).positions[k]),
        forall|i: int, j: int|
            0 <= i < j < layout_flowchart(d).positions.len() ==> (#[trigger] layout_flowchart(d).positions[i]).1.x
                != (#[trigger] layout_flowchart(d).positions[j]).1.x || layout_flowchart(d).positions[i].1.y
                >= layout_flowchart(d).positions[j].1.y + 4 || layout_flowchart(d).positions[j].1.y
                >= layout_flowchart(d).positions[i].1.y + 4,
{
    let ids = node_ids(d.nodes);
    let n = ids.len();
    let pairs = edge_pairs(ids, d.edges);
    let layer = layers_of(n, pairs);
    let vals = layer_values(layer, 0);
    let preds = preds_of(n, pairs);
    let rows = flow_rows(n, layer, vals, preds);
    let mn = match rows {
        Some(r) => min_rat(r),
        None => r_int(0),
    };
    let bw = box_width(d.nodes) as usize;
    let gap = max_int(4, sat_add(edge_label_width(d.edges), 4)) as usize;
    let (pos, mw, mh) = place_layers(ids, layer, vals, bw, gap, rows, mn);
    let lf = layout_flowchart(d);
    assert(lf.positions == pos);
    crate::layout::flowchart::lemma_edge_pairs_in(ids, d.edges);
    crate::layout::flowchart::lemma_layers_len(n, pairs);
    assert(layer.len() == n);
    lemma_place_layers_entries(ids, layer, vals, bw, gap, rows, mn);
    lemma_values_sorted(layer, 0);
    let z = Seq::new(n, |i: int| r_int(0));
    assert(all_wf(z));
    lemma_sweep(z, layer, vals, preds);
    crate::layout::flowchart::lemma_box_width_bounds(d.nodes);
    assert forall|k: int| 0 <= k < layout_flowchart(d).positions.len() implies is_flow_box(d, #[trigger] layout_flowchart(d).positions[k]) by {
        let e = pos[k];
        assert(layout_flowchart(d).positions[k] == e);
        assert(entry_ok(e, ids, layer, bw, gap, rows, mn));
        let a = choose|a: int| 0 <= a < ids.len() && ids[a] == e.0 && e.1 == node_pos(layer, bw, gap, rows, mn, a);
        assert(sat_add(e.1.x as int, bw as int) <= mw);
        assert(flow_pitch(d) == sat_add(bw as int, gap as int));
        assert(flow_layer(d, a) == layer[a] as int);
        assert(d.nodes[a].id == ids[a]);
        assert(e.1.x == flow_layer(d, a) * flow_pitch(d));
        assert(e.1.width == box_width(d.nodes) && e.1.height == 3);
        assert(flow_box(d, layout_flowchart(d).positions[k], a));
    }
    assert forall|i: int, j: int| 0 <= i < j < pos.len() implies (#[trigger] pos[i]).1.x != (#[trigger] pos[j]).1.x
        || pos[i].1.y >= pos[j].1.y + 4 || pos[j].1.y >= pos[i].1.y + 4 by {
        let ei = pos[i];
        let ej = pos[j];
        assert(entry_ok(ei, ids, layer, bw, gap, rows, mn));
        assert(entry_ok(ej, ids, layer, bw, gap, rows, mn));
        let a = choose|a: int| 0 <= a < ids.len() && ids[a] == ei.0 && ei.1 == node_pos(layer, bw, gap, rows, mn, a);
        let b = choose|b: int| 0 <= b < ids.len() && ids[b] == ej.0 && ej.1 == node_pos(layer, bw, gap, rows, mn, b);
        assert(a != b);
        let pitch = sat_add(bw as int, gap as int);
        assert(pitch >= 1);
        // Neither coordinate was saturated.
        assert(sat_add(ei.1.x as int, bw as int) <= mw && sat_add(ej.1.x as int, bw as int) <= mw);
        assert(sat_add(ei.1.y as int, 3) <= mh && sat_add(ej.1.y as int, 3) <= mh);
        if layer[a] != layer[b] {
            let ma = layer[a] as int;
            let mb = layer[b] as int;
            assert(ma * pitch <= usize::MAX && mb * pitch <= usize::MAX);
            assert(ma * pitch != mb * pitch) by (nonlinear_arith)
                requires ma != mb, pitch >= 1;
        } else {
            lemma_group_contains(layer, a);
            lemma_group_contains(layer, b);
            assert(rank(layer, a) != rank(layer, b));
            match rows {
                Some(r) => {
                    lemma_values_contains(layer, 0, a);
                    assert(apart(r, a, b));
                    lemma_min_rat(r);
                    assert(wf(r[a]) && wf(r[b]));
                    if r_ge1(r[a], r[b]) {
                        lemma_row_y_apart(r[a], r[b], mn);
                    } else {
                        lemma_row_y_apart(r[b], r[a], mn);
                    }
                },
                None => {
                    let ka = rank(layer, a);
                    let kb = rank(layer, b);
                    assert(ka * 5 <= usize::MAX && kb * 5 <= usize::MAX);
                },
            }
        }
    }
}

// ---------------------------------------------------------------- every node placed

/// Some entry of `e` has key `key`.
pub open spec fn has_key(e: Seq<(Seq<char>, Position)>, key: Seq<char>) -> bool {
    exists|k: int| 0 <= k < e.len() && #[trigger] e[k].0 == key
}

/// `b` keeps the keys of `a` where they were.
pub open spec fn keys_kept(a: Seq<(Seq<char>, Position)>, b: Seq<(Seq<char>, Position)>) -> bool {
    a.len() <= b.len() && forall|k: int| 0 <= k < a.len() ==> #[trigger] b[k].0 == a[k].0
}

proof fn lemma_kept_has(a: Seq<(Seq<char>, Position)>, b: Seq<(Seq<char>, Position)>, key: Seq<char>)
    requires
        keys_kept(a, b),
        has_key(a, key),
    ensures
        has_key(b, key),
{
    let k = choose|k: int| 0 <= k < a.len() && #[trigger] a[k].0 == key;
    assert(b[k].0 == key);
}

proof fn lemma_insert_keys(e: Seq<(Seq<char>, Position)>, key: Seq<char>, p: Position)
    ensures
        keys_kept(e, pm_insert(e, key, p)),
        has_key(pm_insert(e, key, p), key),
{
    crate::layout::lemma_pm_get_from_bound(e, key, 0);
    let r = pm_insert(e, key, p);
    match crate::layout::pm_get_from(e, key, 0) {
        Some(i) => {
            assert(r[i].0 == key);
        },
        None => {
            assert(r[e.len() as int].0 == key);
        },
    }
}

proof fn lemma_members_keys(
    pos: Seq<(Seq<char>, Position)>,
    mh: int,
    ids: Seq<Seq<char>>,
    g: Seq<usize>,
    x: usize,
    bw: usize,
    rows: Option<Seq<Rat>>,
    mn: Rat,
)
    ensures
        keys_kept(pos, place_members(pos, mh, ids, g, x, bw, rows, mn).0),
        forall|j: int| 0 <= j < g.len() ==> has_key(place_members(pos, mh, ids, g, x, bw, rows, mn).0, ids[#[trigger] g[j] as int]),
    decreases g.len(),
{
    if g.len() > 0 {
        lemma_members_keys(pos, mh, ids, g.drop_last(), x, bw, rows, mn);
        let (p, h) = place_members(pos, mh, ids, g.drop_last(), x, bw, rows, mn);
        let n = g.last();
        let y = node_y(rows, mn, n, g.len() - 1);
        let q = Position { x, y, width: bw, height: 3 };
        lemma_insert_keys(p, ids[n as int], q);
        let r = pm_insert(p, ids[n as int], q);
        assert forall|j: int| 0 <= j < g.len() implies has_key(r, ids[#[trigger] g[j] as int]) by {
            if j < g.len() - 1 {
                assert(g.drop_last()[j] == g[j]);
                lemma_kept_has(p, r, ids[g[j] as int]);
            }
        }
    }
}

proof fn lemma_layers_keys(
    ids: Seq<Seq<char>>,
    layer: Seq<usize>,
    vals: Seq<usize>,
    bw: usize,
    gap: usize,
    rows: Option<Seq<Rat>>,
    mn: Rat,
)
    requires
        layer.len() <= usize::MAX,
    ensures
        forall|n: int| 0 <= n < layer.len() && vals.contains(layer[n]) ==> has_key(
            place_layers(ids, layer, vals, bw, gap, rows, mn).0,
            #[trigger] ids[n],
        ),
    decreases vals.len(),
{
    if vals.len() > 0 {
        lemma_layers_keys(ids, layer, vals.drop_last(), bw, gap, rows, mn);
        let (pos, mw, mh) = place_layers(ids, layer, vals.drop_last(), bw, gap, rows, mn);
        let m = vals.last();
        let x = sat_mul(m as int, sat_add(bw as int, gap as int)) as usize;
        let g = group(layer, m);
        lemma_members_keys(pos, mh, ids, g, x, bw, rows, mn);
        let r = place_members(pos, mh, ids, g, x, bw, rows, mn).0;
        assert forall|n: int| 0 <= n < layer.len() && vals.contains(layer[n]) implies has_key(r, #[trigger] ids[n]) by {
            if layer[n] == m {
                lemma_group_contains(layer, n);
                let j = rank(layer, n);
                assert(g[j] == n);
            } else {
                let i = choose|i: int| 0 <= i < vals.len() && vals[i] == layer[n];
                assert(vals.drop_last()[i] == vals[i]);
                assert(vals.drop_last().contains(layer[n]));
                lemma_kept_has(pos, r, ids[n]);
            }
        }
    }
}

/// Every node of a flowchart gets a position under its id; with the entries
/// being node boxes with distinct keys (`law_flowchart_no_overlap`), the
/// keys are exactly the node ids.
pub proof fn law_flowchart_places_every_node(d: DiagramV)
    requires
        d.nodes.len() <= usize::MAX,
    ensures
        forall|n: int| 0 <= n < d.nodes.len() ==> has_key(layout_flowchart(d).positions, #[trigger] d.nodes[n].id),
{
    let ids = node_ids(d.nodes);
    let n = ids.len();
    let pairs = edge_pairs(ids, d.edges);
    let layer = layers_of(n, pairs);
    let vals = layer_values(layer, 0);
    let preds = preds_of(n, pairs);
    let rows = flow_rows(n, layer, vals, preds);
    let mn = match rows {
        Some(r) => min_rat(r),
        None => r_int(0),
    };
    let bw = box_width(d.nodes) as usize;
    let gap = max_int(4, sat_add(edge_label_width(d.edges), 4)) as usize;
    assert(layout_flowchart(d).positions == place_layers(ids, layer, vals, bw, gap, rows, mn).0);
    crate::layout::flowchart::lemma_edge_pairs_in(ids, d.edges);
    crate::layout::flowchart::lemma_layers_len(n, pairs);
    lemma_layers_keys(ids, layer, vals, bw, gap, rows, mn);
    assert forall|k: int| 0 <= k < d.nodes.len() implies has_key(layout_flowchart(d).positions, #[trigger] d.nodes[k].id) by {
        lemma_values_contains(layer, 0, k);
        assert(ids[k] == d.nodes[k].id);
    }
}

// ---------------------------------------------------------------- the flowchart layout as a whole

/// The edges of a flowchart as pairs of node indices.
pub open spec fn flow_pairs(d: DiagramV) -> Seq<(usize, usize)> {
    edge_pairs(node_ids(d.nodes), d.edges)
}

/// Some entry of `pos` is the box of node `n`.
pub open spec fn has_box(d: DiagramV, pos: Seq<(Seq<char>, Position)>, n: int) -> bool {
    exists|k: int| 0 <= k < pos.len() && flow_box(d, #[trigger] pos[k], n)
}

/// `Layout::layout` on a flowchart whose node ids are distinct: each node
/// has exactly one box, 3 lines high and `box_width` wide (the widest label
/// plus 2, at least 12), at `x` = its layer times the column pitch; every
/// entry is such a box; boxes of one column are at least four lines apart.
/// When the edges between distinct nodes form no cycle, a node's layer is
/// the number of edges of the longest edge path ending at it, so every such
/// edge goes to a column further right.
pub proof fn law_flowchart_layout(d: DiagramV)
    requires
        d.diagram_type == DiagramType::Flowchart,
        d.nodes.len() <= usize::MAX,
        ids_distinct(d.nodes),
        layout_spec(d).width < usize::MAX,
        layout_spec(d).height < usize::MAX,
    ensures
        forall|n: int| 0 <= n < d.nodes.len() ==> #[trigger] has_box(d, layout_spec(d).positions, n),
        forall|k: int| 0 <= k < layout_spec(d).positions.len() ==> is_flow_box(d, #[trigger] layout_spec(d).positions[k]),
        keys_distinct(layout_spec(d).positions),
        forall|i: int, j: int|
            0 <= i < j < layout_spec(d).positions.len() ==> (#[trigger] layout_spec(d).positions[i]).1.x
                != (#[trigger] layout_spec(d).positions[j]).1.x || layout_spec(d).positions[i].1.y
                >= layout_spec(d).positions[j].1.y + 4 || layout_spec(d).positions[j].1.y
                >= layout_spec(d).positions[i].1.y + 4,
        acyclic(flow_pairs(d)) ==> forall|v: int| 0 <= v < d.nodes.len() ==> chain_to(flow_pairs(d), v, #[trigger] flow_layer(d, v)),
        acyclic(flow_pairs(d)) ==> forall|s: Seq<usize>|
            is_chain(flow_pairs(d), s) && s.last() < d.nodes.len() ==> s.len() - 1 <= #[trigger] flow_layer(d, s.last() as int),
        acyclic(flow_pairs(d)) ==> forall|k: int|
            0 <= k < flow_pairs(d).len() && (#[trigger] flow_pairs(d)[k]).0 != flow_pairs(d)[k].1 ==> flow_layer(
                d,
                flow_pairs(d)[k].0 as int,
            ) * flow_pitch(d) < flow_layer(d, flow_pairs(d)[k].1 as int) * flow_pitch(d),
{
    let pos = layout_spec(d).positions;
    assert(layout_spec(d) == layout_flowchart(d));
    law_flowchart_no_overlap(d);
    law_flowchart_places_every_node(d);
    assert forall|n: int| 0 <= n < d.nodes.len() implies #[trigger] has_box(d, pos, n) by {
        assert(has_key(pos, d.nodes[n].id));
        let k = choose|k: int| 0 <= k < pos.len() && #[trigger] pos[k].0 == d.nodes[n].id;
        assert(is_flow_box(d, pos[k]));
        let m = choose|m: int| flow_box(d, pos[k], m);
        if m != n {
            if m < n {
                assert(d.nodes[m].id != d.nodes[n].id);
            } else {
                assert(d.nodes[n].id != d.nodes[m].id);
            }
        }
        assert(flow_box(d, pos[k], n));
    }
    let ids = node_ids(d.nodes);
    let pairs = flow_pairs(d);
    crate::layout::flowchart::lemma_edge_pairs_in(ids, d.edges);
    crate::layout::flowchart::lemma_box_width_bounds(d.nodes);
    if acyclic(pairs) {
        crate::layout::layering::law_longest_chain_layers(ids.len(), pairs);
        assert forall|k: int|
            0 <= k < pairs.len() && (#[trigger] pairs[k]).0 != pairs[k].1 implies flow_layer(d, pairs[k].0 as int)
            * flow_pitch(d) < flow_layer(d, pairs[k].1 as int) * flow_pitch(d) by {
            let a = flow_layer(d, pairs[k].0 as int);
            let b = flow_layer(d, pairs[k].1 as int);
            let p = flow_pitch(d);
            assert(a < b);
            assert(p >= 1);
            assert(a * p < b * p) by (nonlinear_arith)
                requires a < b, p >= 1;
        }
    }
}

// ---------------------------------------------------------------- the canvas size

proof fn lemma_min_ge_some(layer: Seq<usize>, lo: int)
    ensures
        min_ge(layer, lo) matches Some(m) ==> exists|i: int| 0 <= i < layer.len() && layer[i] == m,
    decreases layer.len(),
{
    if layer.len() > 0 {
        lemma_min_ge_some(layer.drop_last(), lo);
        if let Some(m) = min_ge(layer.drop_last(), lo) {
            let i = choose|i: int| 0 <= i < layer.drop_last().len() && layer.drop_last()[i] == m;
            assert(layer[i] == m);
        }
        assert(layer[layer.len() - 1] == layer.last());
    }
}

proof fn lemma_values_in_layer(layer: Seq<usize>, lo: int)
    ensures
        forall|j: int| 0 <= j < layer_values(layer, lo).len() ==> exists|i: int|
            0 <= i < layer.len() && layer[i] == #[trigger] layer_values(layer, lo)[j],
    decreases count_ge(layer, lo),
{
    lemma_min_ge(layer, lo);
    lemma_min_ge_some(layer, lo);
    if let Some(m) = min_ge(layer, lo) {
        lemma_values_in_layer(layer, m + 1);
        let vs = layer_values(layer, lo);
        let rest = layer_values(layer, m + 1);
        assert(vs == seq![m] + rest);
        assert forall|j: int| 0 <= j < vs.len() implies exists|i: int| 0 <= i < layer.len() && layer[i] == #[trigger] vs[j] by {
            if j > 0 {
                assert(vs[j] == rest[j - 1]);
            }
        }
    }
}

proof fn lemma_layers_width(
    ids: Seq<Seq<char>>,
    layer: Seq<usize>,
    vals: Seq<usize>,
    bw: usize,
    gap: usize,
    rows: Option<Seq<Rat>>,
    mn: Rat,
)
    ensures
        vals.len() == 0 ==> place_layers(ids, layer, vals, bw, gap, rows, mn).1 == 0,
        vals.len() > 0 ==> exists|j: int|
            0 <= j < vals.len() && place_layers(ids, layer, vals, bw, gap, rows, mn).1 == sat_add(
                xcoord(#[trigger] vals[j], bw, gap) as int,
                bw as int,
            ),
    decreases vals.len(),
{
    if vals.len() > 0 {
        lemma_layers_width(ids, layer, vals.drop_last(), bw, gap, rows, mn);
        let (pos, mw, mh) = place_layers(ids, layer, vals.drop_last(), bw, gap, rows, mn);
        let m = vals.last();
        let x = sat_mul(m as int, sat_add(bw as int, gap as int)) as usize;
        assert(x == xcoord(m, bw, gap));
        let r = place_layers(ids, layer, vals, bw, gap, rows, mn).1;
        if r == sat_add(x as int, bw as int) {
            assert(vals[vals.len() - 1] == m);
        } else {
            let j = choose|j: int|
                0 <= j < vals.drop_last().len() && mw == sat_add(xcoord(#[trigger] vals.drop_last()[j], bw, gap) as int, bw as int);
            assert(vals.drop_last()[j] == vals[j]);
        }
    }
}

proof fn lemma_members_height(
    pos: Seq<(Seq<char>, Position)>,
    mh: int,
    ids: Seq<Seq<char>>,
    layer: Seq<usize>,
    m: usize,
    g: Seq<usize>,
    bw: usize,
    gap: usize,
    rows: Option<Seq<Rat>>,
    mn: Rat,
)
    requires
        layer.len() <= usize::MAX,
        g.len() <= group(layer, m).len(),
        forall|k: int| 0 <= k < g.len() ==> #[trigger] g[k] == group(layer, m)[k],
    ensures
        ({
            let h = place_members(pos, mh, ids, g, xcoord(m, bw, gap), bw, rows, mn).1;
            h == mh || exists|n: int| 0 <= n < layer.len() && h == sat_add(node_pos(layer, bw, gap, rows, mn, n).y as int, 3)
        }),
    decreases g.len(),
{
    if g.len() > 0 {
        let gp = g.drop_last();
        assert forall|k: int| 0 <= k < gp.len() implies #[trigger] gp[k] == group(layer, m)[k] by {
            assert(gp[k] == g[k]);
        }
        lemma_members_height(pos, mh, ids, layer, m, gp, bw, gap, rows, mn);
        let k = g.len() - 1;
        let n = g.last();
        assert(n == group(layer, m)[k]);
        lemma_group_index(layer, m, k);
        let y = node_y(rows, mn, n, k);
        assert(y == node_pos(layer, bw, gap, rows, mn, n as int).y);
    }
}

proof fn lemma_layers_height(
    ids: Seq<Seq<char>>,
    layer: Seq<usize>,
    vals: Seq<usize>,
    bw: usize,
    gap: usize,
    rows: Option<Seq<Rat>>,
    mn: Rat,
)
    requires
        layer.len() <= usize::MAX,
    ensures
        ({
            let h = place_layers(ids, layer, vals, bw, gap, rows, mn).2;
            h == 0 || exists|n: int| 0 <= n < layer.len() && h == sat_add(node_pos(layer, bw, gap, rows, mn, n).y as int, 3)
        }),
    decreases vals.len(),
{
    if vals.len() > 0 {
        lemma_layers_height(ids, layer, vals.drop_last(), bw, gap, rows, mn);
        let (pos, mw, mh) = place_layers(ids, layer, vals.drop_last(), bw, gap, rows, mn);
        let m = vals.last();
        let x = sat_mul(m as int, sat_add(bw as int, gap as int)) as usize;
        assert(x == xcoord(m, bw, gap));
        lemma_members_height(pos, mh, ids, layer, m, group(layer, m), bw, gap, rows, mn);
    }
}

/// Some entry of `pos` holds position `p`.
pub open spec fn has_pos(pos: Seq<(Seq<char>, Position)>, p: Position) -> bool {
    exists|k: int| 0 <= k < pos.len() && #[trigger] pos[k].1 == p
}

/// The width of a flowchart canvas reaches 2 past the rightmost box edge.
pub open spec fn width_reached(pos: Seq<(Seq<char>, Position)>, w: int) -> bool {
    &&& forall|k: int| 0 <= k < pos.len() ==> (#[trigger] pos[k]).1.x + pos[k].1.width + 2 <= w
    &&& exists|k: int| 0 <= k < pos.len() && (#[trigger] pos[k]).1.x + pos[k].1.width + 2 == w
}

/// The height of a flowchart canvas reaches 2 past the lowest box bottom.
pub open spec fn height_reached(pos: Seq<(Seq<char>, Position)>, h: int) -> bool {
    &&& forall|k: int| 0 <= k < pos.len() ==> (#[trigger] pos[k]).1.y + 5 <= h
    &&& exists|k: int| 0 <= k < pos.len() && (#[trigger] pos[k]).1.y + 5 == h
}

/// The size `Layout::layout` gives a flowchart: 2 by 2 without nodes;
/// otherwise the rightmost box edge plus 2 wide and the lowest box top plus 5
/// (a box is 3 lines high) high.
pub proof fn law_flowchart_canvas_size(d: DiagramV)
    requires
        d.diagram_type == DiagramType::Flowchart,
        d.nodes.len() <= usize::MAX,
        ids_distinct(d.nodes),
        layout_spec(d).width < usize::MAX,
        layout_spec(d).height < usize::MAX,
    ensures
        d.nodes.len() == 0 ==> layout_spec(d).width == 2 && layout_spec(d).height == 2,
        d.nodes.len() > 0 ==> width_reached(layout_spec(d).positions, layout_spec(d).width as int)
            && height_reached(layout_spec(d).positions, layout_spec(d).height as int),
{
    let ids = node_ids(d.nodes);
    let n = ids.len();
    let pairs = edge_pairs(ids, d.edges);
    let layer = layers_of(n, pairs);
    let vals = layer_values(layer, 0);
    let preds = preds_of(n, pairs);
    let rows = flow_rows(n, layer, vals, preds);
    let mn = match rows {
        Some(r) => min_rat(r),
        None => r_int(0),
    };
    let bw = box_width(d.nodes) as usize;
    let gap = max_int(4, sat_add(edge_label_width(d.edges), 4)) as usize;
    let (pos, mw, mh) = place_layers(ids, layer, vals, bw, gap, rows, mn);
    let lf = layout_spec(d);
    assert(lf == layout_flowchart(d));
    assert(lf.positions == pos && lf.width == sat_add(mw, 2) && lf.height == sat_add(mh, 2));
    crate::layout::flowchart::lemma_edge_pairs_in(ids, d.edges);
    crate::layout::flowchart::lemma_layers_len(n, pairs);
    crate::layout::flowchart::lemma_box_width_bounds(d.nodes);
    lemma_place_layers_entries(ids, layer, vals, bw, gap, rows, mn);
    lemma_layers_width(ids, layer, vals, bw, gap, rows, mn);
    lemma_layers_height(ids, layer, vals, bw, gap, rows, mn);
    lemma_values_in_layer(layer, 0);
    law_flowchart_places_every_node(d);
    if d.nodes.len() == 0 {
        if vals.len() > 0 {
            let i = choose|i: int| 0 <= i < layer.len() && layer[i] == #[trigger] vals[0];
        }
        assert(vals.len() == 0);
    } else {
        // Every entry is below the tracked extent, which no coordinate saturates.
        assert forall|k: int| 0 <= k < pos.len() implies (#[trigger] pos[k]).1.x + pos[k].1.width + 2 <= lf.width
            && pos[k].1.y + 5 <= lf.height by {
            assert(entry_ok(pos[k], ids, layer, bw, gap, rows, mn));
        }
        // The entry of node `i` holds node `i`'s position.
        assert forall|i: int| 0 <= i < n implies #[trigger] has_pos(pos, node_pos(layer, bw, gap, rows, mn, i)) by {
            assert(has_key(pos, d.nodes[i].id));
            let k = choose|k: int| 0 <= k < pos.len() && #[trigger] pos[k].0 == d.nodes[i].id;
            assert(entry_ok(pos[k], ids, layer, bw, gap, rows, mn));
            let a = choose|a: int| 0 <= a < ids.len() && ids[a] == pos[k].0 && pos[k].1 == node_pos(layer, bw, gap, rows, mn, a);
            if a != i {
                if a < i {
                    assert(d.nodes[a].id != d.nodes[i].id);
                } else {
                    assert(d.nodes[i].id != d.nodes[a].id);
                }
            }
            assert(pos[k].1 == node_pos(layer, bw, gap, rows, mn, i));
        }
        // Width: reached by a node of the layer that sets it.
        assert(layer.len() > 0);
        lemma_values_contains(layer, 0, 0);
        assert(vals.len() > 0);
        let j = choose|j: int| 0 <= j < vals.len() && mw == sat_add(xcoord(#[trigger] vals[j], bw, gap) as int, bw as int);
        let i = choose|i: int| 0 <= i < layer.len() && layer[i] == #[trigger] vals[j];
        assert(has_pos(pos, node_pos(layer, bw, gap, rows, mn, i)));
        let k = choose|k: int| 0 <= k < pos.len() && #[trigger] pos[k].1 == node_pos(layer, bw, gap, rows, mn, i);
        assert(pos[k].1.x + pos[k].1.width + 2 == lf.width);
        // Height: reached by the node that sets it.
        assert(sat_add(pos[k].1.y as int, 3) <= mh);
        let i2 = choose|i2: int| 0 <= i2 < layer.len() && mh == sat_add(node_pos(layer, bw, gap, rows, mn, i2).y as int, 3);
        assert(has_pos(pos, node_pos(layer, bw, gap, rows, mn, i2)));
        let k2 = choose|k2: int| 0 <= k2 < pos.len() && #[trigger] pos[k2].1 == node_pos(layer, bw, gap, rows, mn, i2);
        assert(pos[k2].1.y + 5 == lf.height);
    }
}

// ---------------------------------------------------------------- boxes fit labels

/// Every flowchart box is at least as wide as the display width of every
/// node's label (wide characters counting 2 columns) plus 2, and at least 12:
/// a label is drawn in full inside its box.
pub proof fn law_flowchart_boxes_fit_labels(d: DiagramV)
    requires
        d.nodes.len() <= usize::MAX,
    ensures
        forall|k: int, n: int|
            0 <= k < layout_flowchart(d).positions.len() && 0 <= n < d.nodes.len() ==> (#[trigger] layout_flowchart(
                d,
            ).positions[k]).1.width >= sat_add(display_width(#[trigger] d.nodes[n].label) as int, 2),
        forall|k: int| 0 <= k < layout_flowchart(d).positions.len() ==> (#[trigger] layout_flowchart(d).positions[k]).1.width
            >= 12,
{
    let ids = node_ids(d.nodes);
    let n = ids.len();
    let pairs = edge_pairs(ids, d.edges);
    let layer = layers_of(n, pairs);
    let vals = layer_values(layer, 0);
    let preds = preds_of(n, pairs);
    let rows = flow_rows(n, layer, vals, preds);
    let mn = match rows {
        Some(r) => min_rat(r),
        None => r_int(0),
    };
    let bw = box_width(d.nodes) as usize;
    let gap = max_int(4, sat_add(edge_label_width(d.edges), 4)) as usize;
    let (pos, mw, mh) = place_layers(ids, layer, vals, bw, gap, rows, mn);
    assert(layout_flowchart(d).positions == pos);
    crate::layout::flowchart::lemma_edge_pairs_in(ids, d.edges);
    crate::layout::flowchart::lemma_layers_len(n, pairs);
    crate::layout::flowchart::lemma_box_width_bounds(d.nodes);
    crate::layout::flowchart::law_box_width_fits_labels(d.nodes);
    lemma_place_layers_entries(ids, layer, vals, bw, gap, rows, mn);
    assert forall|k: int| 0 <= k < pos.len() implies (#[trigger] pos[k]).1.width == box_width(d.nodes) by {
        assert(entry_ok(pos[k], ids, layer, bw, gap, rows, mn));
    }
}

} // verus!
