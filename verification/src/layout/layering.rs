//! The longest-path layering: on an acyclic graph, a node's layer is the
//! number of edges of the longest chain that ends at it, so every edge points
//! to a strictly higher layer.

use vstd::prelude::*;
use crate::arith::sat_add;
use crate::layout::flowchart::{
    law_settled_edges_point_forward, layers_of, pairs_in, relax, settle,
};

verus! {

/// An edge between two different nodes.
pub open spec fn has_edge(pairs: Seq<(usize, usize)>, u: usize, v: usize) -> bool {
    u != v && exists|k: int| 0 <= k < pairs.len() && pairs[k] == (u, v)
}

/// A chain of nodes, each joined to the next by an edge.
pub open spec fn is_chain(pairs: Seq<(usize, usize)>, s: Seq<usize>) -> bool {
    s.len() >= 1 && forall|i: int| 0 <= i < s.len() - 1 ==> has_edge(pairs, #[trigger] s[i], s[i + 1])
}

/// No chain visits a node twice.
pub open spec fn acyclic(pairs: Seq<(usize, usize)>) -> bool {
    forall|s: Seq<usize>| is_chain(pairs, s) ==> #[trigger] s.no_duplicates()
}

/// Some chain of exactly `len` edges ends at `v`.
pub open spec fn chain_to(pairs: Seq<(usize, usize)>, v: int, len: int) -> bool {
    exists|s: Seq<usize>| #[trigger] is_chain(pairs, s) && s.last() == v && s.len() - 1 == len
}

/// Some chain of exactly `l[v]` edges ends at each node `v`.
pub open spec fn witnessed(pairs: Seq<(usize, usize)>, l: Seq<usize>) -> bool {
    forall|v: int| 0 <= v < l.len() ==> chain_to(pairs, v, #[trigger] l[v] as int)
}

/// Every chain of at most `k` edges that ends at a node `v` has at most
/// `l[v]` edges.
pub open spec fn covers(pairs: Seq<(usize, usize)>, l: Seq<usize>, k: int) -> bool {
    forall|s: Seq<usize>|
        is_chain(pairs, s) && s.len() - 1 <= k && 0 <= s.last() < l.len() ==> s.len() - 1 <= #[trigger] l[
            s.last() as int]
}

// ---------------------------------------------------------------- chains

/// A repetition-free sequence of nodes below `n` has at most `n` entries.
proof fn lemma_pigeonhole(s: Seq<usize>, n: nat)
    requires
        s.no_duplicates(),
        forall|i: int| 0 <= i < s.len() ==> (#[trigger] s[i]) < n,
    ensures
        s.len() <= n,
    decreases n,
{
    if n == 0 {
        if s.len() > 0 {
            assert(s[0] < 0);
        }
    } else if s.contains((n - 1) as usize) {
        let j = choose|j: int| 0 <= j < s.len() && s[j] == (n - 1) as usize;
        let t = s.remove(j);
        assert forall|i: int| 0 <= i < t.len() implies (#[trigger] t[i]) < n - 1 by {
            if i < j {
                assert(t[i] == s[i]);
            } else {
                assert(t[i] == s[i + 1]);
            }
        }
        assert(t.no_duplicates()) by {
            assert forall|a: int, b: int| 0 <= a < t.len() && 0 <= b < t.len() && a != b implies t[a] != t[b] by {
                let sa = if a < j { a } else { a + 1 };
                let sb = if b < j { b } else { b + 1 };
                assert(t[a] == s[sa] && t[b] == s[sb]);
            }
        }
        lemma_pigeonhole(t, (n - 1) as nat);
    } else {
        assert forall|i: int| 0 <= i < s.len() implies (#[trigger] s[i]) < n - 1 by {
            assert(s[i] != (n - 1) as usize);
        }
        lemma_pigeonhole(s, (n - 1) as nat);
    }
}

/// The nodes of a chain that ends at a node are nodes.
proof fn lemma_chain_in(pairs: Seq<(usize, usize)>, s: Seq<usize>, n: nat)
    requires
        pairs_in(pairs, n),
        is_chain(pairs, s),
        s.last() < n,
    ensures
        forall|i: int| 0 <= i < s.len() ==> (#[trigger] s[i]) < n,
{
    assert forall|i: int| 0 <= i < s.len() implies (#[trigger] s[i]) < n by {
        if i < s.len() - 1 {
            assert(has_edge(pairs, s[i], s[i + 1]));
            let k = choose|k: int| 0 <= k < pairs.len() && pairs[k] == (s[i], s[i + 1]);
            assert(pairs[k].0 < n);
        }
    }
}

/// In an acyclic graph a chain ending at a node has at most `n - 1` edges.
proof fn lemma_chain_short(pairs: Seq<(usize, usize)>, s: Seq<usize>, n: nat)
    requires
        pairs_in(pairs, n),
        acyclic(pairs),
        is_chain(pairs, s),
        s.last() < n,
    ensures
        s.len() <= n,
{
    lemma_chain_in(pairs, s, n);
    assert(s.no_duplicates());
    lemma_pigeonhole(s, n);
}

/// A chain followed by an edge out of its last node is a chain.
proof fn lemma_chain_extend(pairs: Seq<(usize, usize)>, s: Seq<usize>, v: usize)
    requires
        is_chain(pairs, s),
        has_edge(pairs, s.last(), v),
    ensures
        is_chain(pairs, s.push(v)),
{
    let t = s.push(v);
    assert forall|i: int| 0 <= i < t.len() - 1 implies has_edge(pairs, #[trigger] t[i], t[i + 1]) by {
        if i < s.len() - 1 {
            assert(t[i] == s[i] && t[i + 1] == s[i + 1]);
        } else {
            assert(t[i] == s.last() && t[i + 1] == v);
        }
    }
}

// ---------------------------------------------------------------- one pass

/// A pass never lowers a layer, keeps the witnesses, and leaves each edge's
/// target at least one past its source's layer before the pass.
proof fn lemma_relax(layer: Seq<usize>, changed: bool, pairs: Seq<(usize, usize)>, all: Seq<(usize, usize)>)
    requires
        pairs_in(pairs, layer.len()),
        pairs_in(all, layer.len()),
        acyclic(all),
        layer.len() <= usize::MAX,
        witnessed(all, layer),
        forall|k: int| 0 <= k < pairs.len() ==> (#[trigger] pairs[k]).0 != pairs[k].1 ==> has_edge(all, pairs[k].0, pairs[k].1),
    ensures
        relax(layer, changed, pairs).0.len() == layer.len(),
        forall|v: int| 0 <= v < layer.len() ==> relax(layer, changed, pairs).0[v] >= #[trigger] layer[v],
        witnessed(all, relax(layer, changed, pairs).0),
        forall|k: int|
            0 <= k < pairs.len() && (#[trigger] pairs[k]).0 != pairs[k].1 ==> relax(layer, changed, pairs).0[pairs[k].1 as int]
                >= sat_add(layer[pairs[k].0 as int] as int, 1),
    decreases pairs.len(),
{
    if pairs.len() > 0 {
        let p = pairs.drop_last();
        assert forall|k: int| 0 <= k < p.len() implies (#[trigger] p[k]).0 < layer.len() && p[k].1 < layer.len() by {
            assert(p[k] == pairs[k]);
        }
        assert forall|k: int| 0 <= k < p.len() implies (#[trigger] p[k]).0 != p[k].1 ==> has_edge(all, p[k].0, p[k].1) by {
            assert(p[k] == pairs[k]);
        }
        lemma_relax(layer, changed, p, all);
        let (l, c) = relax(layer, changed, p);
        let u = pairs.last().0;
        let v = pairs.last().1;
        let up = sat_add(l[u as int] as int, 1) as usize;
        assert(pairs[pairs.len() - 1] == (u, v));
        assert(u < layer.len() && v < layer.len());
        if u != v && l[v as int] < up {
            let l2 = l.update(v as int, up);
            assert(has_edge(all, u, v));
            assert forall|w: int| 0 <= w < l2.len() implies chain_to(all, w, #[trigger] l2[w] as int) by {
                if w == v {
                    assert(chain_to(all, u as int, l[u as int] as int));
                    let s = choose|s: Seq<usize>| #[trigger] is_chain(all, s) && s.last() == u && s.len() - 1 == l[u as int];
                    lemma_chain_extend(all, s, v);
                    lemma_chain_short(all, s, layer.len());
                    assert(l[u as int] < usize::MAX);
                    assert(s.push(v).last() == w && s.push(v).len() - 1 == l2[w]);
                } else {
                    assert(l2[w] == l[w]);
                    assert(chain_to(all, w, l[w] as int));
                }
            }
            assert forall|k: int|
                0 <= k < pairs.len() && (#[trigger] pairs[k]).0 != pairs[k].1 implies l2[pairs[k].1 as int] >= sat_add(
                    layer[pairs[k].0 as int] as int,
                    1,
                ) by {
                if k < pairs.len() - 1 {
                    assert(pairs[k] == p[k]);
                }
            }
        } else {
            assert forall|k: int|
                0 <= k < pairs.len() && (#[trigger] pairs[k]).0 != pairs[k].1 implies l[pairs[k].1 as int] >= sat_add(
                    layer[pairs[k].0 as int] as int,
                    1,
                ) by {
                if k < pairs.len() - 1 {
                    assert(pairs[k] == p[k]);
                }
            }
        }
    }
}


// ---------------------------------------------------------------- all passes

/// Layers one past each edge's source cover every chain.
proof fn lemma_forward_covers(pairs: Seq<(usize, usize)>, layer: Seq<usize>, s: Seq<usize>, n: nat)
    requires
        layer.len() == n,
        n <= usize::MAX,
        pairs_in(pairs, n),
        acyclic(pairs),
        witnessed(pairs, layer),
        forall|k: int|
            0 <= k < pairs.len() && (#[trigger] pairs[k]).0 != pairs[k].1 ==> layer[pairs[k].1 as int] >= sat_add(
                layer[pairs[k].0 as int] as int,
                1,
            ),
        is_chain(pairs, s),
        s.last() < n,
    ensures
        s.len() - 1 <= layer[s.last() as int],
    decreases s.len(),
{
    if s.len() > 1 {
        let t = s.drop_last();
        let u = t.last();
        let v = s.last();
        assert(has_edge(pairs, s[s.len() - 2], s[s.len() - 1]));
        assert forall|i: int| 0 <= i < t.len() - 1 implies has_edge(pairs, #[trigger] t[i], t[i + 1]) by {
            assert(t[i] == s[i] && t[i + 1] == s[i + 1]);
        }
        let k = choose|k: int| 0 <= k < pairs.len() && pairs[k] == (u, v);
        assert(u < n);
        lemma_forward_covers(pairs, layer, t, n);
        assert(chain_to(pairs, u as int, layer[u as int] as int));
        let w = choose|w: Seq<usize>| #[trigger] is_chain(pairs, w) && w.last() == u && w.len() - 1 == layer[u as int];
        lemma_chain_short(pairs, w, n);
    }
}

/// `rounds` more passes from layers witnessed by chains and covering every
/// chain of at most `k` edges end with layers covering every chain.
proof fn lemma_settle(layer: Seq<usize>, pairs: Seq<(usize, usize)>, rounds: nat, k: nat, n: nat)
    requires
        layer.len() == n,
        n <= usize::MAX,
        pairs_in(pairs, n),
        acyclic(pairs),
        witnessed(pairs, layer),
        covers(pairs, layer, k as int),
        k + rounds == n,
    ensures
        settle(layer, pairs, rounds).len() == n,
        witnessed(pairs, settle(layer, pairs, rounds)),
        covers(pairs, settle(layer, pairs, rounds), n as int),
    decreases rounds,
{
    assert forall|j: int| 0 <= j < pairs.len() implies (#[trigger] pairs[j]).0 != pairs[j].1 ==> has_edge(pairs, pairs[j].0, pairs[j].1) by {}
    lemma_relax(layer, false, pairs, pairs);
    if rounds > 0 {
        let (l, c) = relax(layer, false, pairs);
        if !c {
            law_settled_edges_point_forward(layer, pairs);
            assert forall|s: Seq<usize>|
                is_chain(pairs, s) && s.len() - 1 <= n && 0 <= s.last() < layer.len() implies s.len() - 1 <= #[trigger] layer[
                    s.last() as int] by {
                lemma_forward_covers(pairs, layer, s, n);
            }
        } else {
            assert forall|s: Seq<usize>|
                is_chain(pairs, s) && s.len() - 1 <= k + 1 && 0 <= s.last() < l.len() implies s.len() - 1 <= #[trigger] l[
                    s.last() as int] by {
                if s.len() > 1 {
                    let t = s.drop_last();
                    let u = t.last();
                    let v = s.last();
                    assert(has_edge(pairs, s[s.len() - 2], s[s.len() - 1]));
                    assert forall|i: int| 0 <= i < t.len() - 1 implies has_edge(pairs, #[trigger] t[i], t[i + 1]) by {
                        assert(t[i] == s[i] && t[i + 1] == s[i + 1]);
                    }
                    lemma_chain_in(pairs, s, n);
                    assert(u == s[s.len() - 2]);
                    assert(t.len() - 1 <= layer[u as int]);
                    let j = choose|j: int| 0 <= j < pairs.len() && pairs[j] == (u, v);
                    assert(l[pairs[j].1 as int] >= sat_add(layer[pairs[j].0 as int] as int, 1));
                    assert(chain_to(pairs, u as int, layer[u as int] as int));
                    let w = choose|w: Seq<usize>| #[trigger] is_chain(pairs, w) && w.last() == u && w.len() - 1 == layer[u as int];
                    lemma_chain_short(pairs, w, n);
                }
            }
            lemma_settle(l, pairs, (rounds - 1) as nat, k + 1, n);
        }
    }
}

/// On an acyclic graph, each node's layer is the number of edges of the
/// longest chain ending at it: some chain of that many edges ends there, and
/// none longer. So every edge points to a strictly higher layer.
pub proof fn law_longest_chain_layers(n: nat, pairs: Seq<(usize, usize)>)
    requires
        n <= usize::MAX,
        pairs_in(pairs, n),
        acyclic(pairs),
    ensures
        layers_of(n, pairs).len() == n,
        forall|v: int| 0 <= v < n ==> chain_to(pairs, v, #[trigger] layers_of(n, pairs)[v] as int),
        forall|s: Seq<usize>|
            is_chain(pairs, s) && s.last() < n ==> s.len() - 1 <= #[trigger] layers_of(n, pairs)[s.last() as int],
        forall|k: int|
            0 <= k < pairs.len() && (#[trigger] pairs[k]).0 != pairs[k].1 ==> layers_of(n, pairs)[pairs[k].0 as int]
                < layers_of(n, pairs)[pairs[k].1 as int],
{
    let z = Seq::new(n, |i: int| 0usize);
    assert forall|v: int| 0 <= v < z.len() implies chain_to(pairs, v, #[trigger] z[v] as int) by {
        let s = seq![v as usize];
        assert(is_chain(pairs, s));
    }
    assert forall|s: Seq<usize>| is_chain(pairs, s) && s.len() - 1 <= 0 && 0 <= s.last() < z.len() implies s.len() - 1
        <= #[trigger] z[s.last() as int] by {}
    lemma_settle(z, pairs, n, 0, n);
    let l = layers_of(n, pairs);
    assert forall|s: Seq<usize>| is_chain(pairs, s) && s.last() < n implies s.len() - 1 <= #[trigger] l[s.last() as int] by {
        lemma_chain_short(pairs, s, n);
    }
    assert forall|k: int| 0 <= k < pairs.len() && (#[trigger] pairs[k]).0 != pairs[k].1 implies l[pairs[k].0 as int]
        < l[pairs[k].1 as int] by {
        let u = pairs[k].0;
        let v = pairs[k].1;
        assert(has_edge(pairs, u, v));
        assert(chain_to(pairs, u as int, l[u as int] as int));
        let w = choose|w: Seq<usize>| #[trigger] is_chain(pairs, w) && w.last() == u && w.len() - 1 == l[u as int];
        lemma_chain_extend(pairs, w, v);
        assert(w.push(v).last() == v);
    }
}

} // verus!
