//! State diagrams: states stacked top to bottom in depth-first order from
//! the start transitions.

use vstd::prelude::*;
use crate::arith::{sadd, sat_add};
use crate::diagram::{Diagram, DiagramV, Edge, EdgeV};
use crate::layout::{LayoutResult, LayoutV, Position, PositionMap, pm_insert};
use crate::text::{chars_of, same, string_is};

verus! {

/// The targets of the start transitions (from `[*]` or from nothing); the
/// first node when there are none.
pub open spec fn start_states(d: DiagramV) -> Seq<Seq<char>> {
    let q = d.edges.filter(|e: EdgeV| e.from.len() == 0 || e.from == "[*]"@).map_values(|e: EdgeV| e.to);
    if q.len() == 0 && d.nodes.len() > 0 {
        seq![d.nodes[0].id]
    } else {
        q
    }
}

/// The number of entries of `c` that are not in `p`.
pub open spec fn unvisited(c: Seq<Seq<char>>, p: Seq<Seq<char>>) -> nat
    decreases c.len(),
{
    if c.len() == 0 {
        0
    } else {
        unvisited(c.drop_last(), p) + if p.contains(c.last()) { 0nat } else { 1nat }
    }
}

pub proof fn lemma_unvisited_push(c: Seq<Seq<char>>, p: Seq<Seq<char>>, x: Seq<char>)
    requires
        c.contains(x),
        !p.contains(x),
    ensures
        unvisited(c, p.push(x)) < unvisited(c, p),
    decreases c.len(),
{
    lemma_unvisited_push_le(c.drop_last(), p, x);
    if c.last() == x {
        assert(p.push(x)[p.len() as int] == x);
    } else {
        assert(c.drop_last().contains(x)) by {
            let k = choose|k: int| 0 <= k < c.len() && c[k] == x;
            assert(c.drop_last()[k] == x);
        }
        lemma_unvisited_push(c.drop_last(), p, x);
        if p.contains(c.last()) {
            assert(p.push(x).contains(c.last())) by {
                let k = choose|k: int| 0 <= k < p.len() && p[k] == c.last();
                assert(p.push(x)[k] == c.last());
            }
        }
    }
}

pub proof fn lemma_unvisited_push_le(c: Seq<Seq<char>>, p: Seq<Seq<char>>, x: Seq<char>)
    ensures
        unvisited(c, p.push(x)) <= unvisited(c, p),
    decreases c.len(),
{
    if c.len() > 0 {
        lemma_unvisited_push_le(c.drop_last(), p, x);
        if p.contains(c.last()) {
            let k = choose|k: int| 0 <= k < p.len() && p[k] == c.last();
            assert(p.push(x)[k] == c.last());
        }
    }
}

/// The targets of the transitions out of `id`, in edge order.
pub open spec fn successors(edges: Seq<EdgeV>, id: Seq<char>) -> Seq<Seq<char>> {
    edges.filter(|e: EdgeV| e.from == id).map_values(|e: EdgeV| e.to)
}

/// The depth-first walk: pop a state; place it below the ones placed so far
/// unless it was placed already, then push its successors. `c` holds every
/// state that can be pushed.
pub open spec fn state_walk(
    edges: Seq<EdgeV>,
    c: Seq<Seq<char>>,
    queue: Seq<Seq<char>>,
    done: Seq<Seq<char>>,
    y: int,
    pos: Seq<(Seq<char>, Position)>,
) -> (Seq<(Seq<char>, Position)>, int)
    decreases unvisited(c, done), queue.len(),
{
    if queue.len() == 0 {
        (pos, y)
    } else {
        let id = queue.last();
        let rest = queue.drop_last();
        if done.contains(id) {
            state_walk(edges, c, rest, done, y, pos)
        } else if c.contains(id) {
            proof {
                lemma_unvisited_push(c, done, id);
            }
            state_walk(
                edges,
                c,
                rest + successors(edges, id),
                done.push(id),
                sat_add(y, 6),
                pm_insert(pos, id, Position { x: 0, y: y as usize, width: 12, height: 3 }),
            )
        } else {
            (pos, y)
        }
    }
}

/// State diagrams: one box per reachable state, in depth-first order.
pub open spec fn layout_state(d: DiagramV) -> LayoutV {
    let q = start_states(d);
    let c = q + d.edges.map_values(|e: EdgeV| e.to);
    let (pos, y) = state_walk(d.edges, c, q, Seq::empty(), 0, Seq::empty());
    LayoutV { positions: pos, width: 18, height: sat_add(y, 2) }
}

fn start_states_of(d: &Diagram) -> (r: Vec<Vec<char>>)
    ensures
        r@.map_values(|v: Vec<char>| v@) == start_states(d@),
{
    let edges = &d.edges;
    let ghost ev = d@.edges;
    let ghost pred = |e: EdgeV| e.from.len() == 0 || e.from == "[*]"@;
    let star = chars_of("[*]");
    let mut q: Vec<Vec<char>> = Vec::new();
    let mut i: usize = 0;
    while i < edges.len()
        invariant
            ev == edges@.map_values(|e: Edge| e@),
            pred == (|e: EdgeV| e.from.len() == 0 || e.from == "[*]"@),
            star@ == "[*]"@,
            i <= edges@.len(),
            q@.map_values(|v: Vec<char>| v@) == ev.take(i as int).filter(pred).map_values(|e: EdgeV| e.to),
        decreases edges@.len() - i,
    {
        let from = chars_of(edges[i].from.as_str());
        let ghost qv = q@.map_values(|v: Vec<char>| v@);
        assert(ev.take(i + 1).drop_last() =~= ev.take(i as int));
        reveal_with_fuel(Seq::filter, 1);
        if from.len() == 0 || same(from.as_slice(), star.as_slice()) {
            q.push(chars_of(edges[i].to.as_str()));
            assert(q@.map_values(|v: Vec<char>| v@) =~= qv.push(edges@[i as int].to@));
            assert(ev.take(i + 1).filter(pred) =~= ev.take(i as int).filter(pred).push(ev[i as int]));
        } else {
            assert(ev.take(i + 1).filter(pred) =~= ev.take(i as int).filter(pred));
        }
        i = i + 1;
    }
    assert(ev.take(ev.len() as int) =~= ev);
    if q.len() == 0 && d.nodes.len() > 0 {
        let mut r: Vec<Vec<char>> = Vec::new();
        r.push(chars_of(d.nodes[0].id.as_str()));
        assert(r@.map_values(|v: Vec<char>| v@) =~= seq![d@.nodes[0].id]);
        return r;
    }
    q
}

fn contains_id(v: &Vec<Vec<char>>, id: &[char]) -> (r: bool)
    ensures
        r == v@.map_values(|x: Vec<char>| x@).contains(id@),
{
    let ghost vv = v@.map_values(|x: Vec<char>| x@);
    let mut i: usize = 0;
    while i < v.len()
        invariant
            vv == v@.map_values(|x: Vec<char>| x@),
            i <= v@.len(),
            forall|k: int| 0 <= k < i ==> vv[k] != id@,
        decreases v@.len() - i,
    {
        if same(v[i].as_slice(), id) {
            assert(vv[i as int] == id@);
            return true;
        }
        i = i + 1;
    }
    false
}

pub fn layout_state_of(d: &Diagram) -> (r: LayoutResult)
    ensures
        r@ == layout_state(d@),
{
    let q0 = start_states_of(d);
    let ghost qv0 = start_states(d@);
    let ghost ev = d@.edges;
    let ghost c = qv0 + ev.map_values(|e: EdgeV| e.to);
    let mut queue = q0;
    let mut done: Vec<Vec<char>> = Vec::new();
    let mut y: usize = 0;
    let mut positions = PositionMap::new();
    let ghost target = state_walk(ev, c, qv0, Seq::empty(), 0, Seq::empty());
    assert(done@.map_values(|x: Vec<char>| x@) =~= Seq::<Seq<char>>::empty());
    assert forall|k: int| 0 <= k < queue@.len() implies c.contains(#[trigger] queue@[k]@) by {
        assert(queue@.map_values(|x: Vec<char>| x@)[k] == queue@[k]@);
        assert(c[k] == qv0[k]);
    }
    loop
        invariant
            ev == d@.edges,
            ev == d.edges@.map_values(|e: Edge| e@),
            qv0 == start_states(d@),
            c == qv0 + ev.map_values(|e: EdgeV| e.to),
            forall|k: int| 0 <= k < queue@.len() ==> c.contains(#[trigger] queue@[k]@),
            target == state_walk(ev, c, qv0, Seq::empty(), 0, Seq::empty()),
            target == state_walk(ev, c, queue@.map_values(|x: Vec<char>| x@), done@.map_values(|x: Vec<char>| x@), y as int, positions@),
        decreases unvisited(c, done@.map_values(|x: Vec<char>| x@)), queue@.len(),
    {
        let ghost qv = queue@.map_values(|x: Vec<char>| x@);
        let ghost dv = done@.map_values(|x: Vec<char>| x@);
        if queue.len() == 0 {
            assert(qv.len() == 0);
            return LayoutResult { positions, width: 18, height: sadd(y, 2) };
        }
        let id = queue.pop().unwrap();
        assert(qv.last() == id@);
        assert(queue@.map_values(|x: Vec<char>| x@) =~= qv.drop_last());
        if contains_id(&done, id.as_slice()) {
            continue;
        }
        assert(c.contains(id@));
        proof {
            lemma_unvisited_push(c, dv, id@);
        }
        positions.insert(id.as_slice(), Position { x: 0, y, width: 12, height: 3 });
        y = sadd(y, 6);
        let ghost before_q = queue@.map_values(|x: Vec<char>| x@);
        let ghost pred = |e: EdgeV| e.from == id@;
        let mut k: usize = 0;
        while k < d.edges.len()
            invariant
                ev == d.edges@.map_values(|e: Edge| e@),
                c == qv0 + ev.map_values(|e: EdgeV| e.to),
                pred == (|e: EdgeV| e.from == id@),
                k <= d.edges@.len(),
                queue@.map_values(|x: Vec<char>| x@) == before_q + ev.take(k as int).filter(pred).map_values(|e: EdgeV| e.to),
                forall|j: int| 0 <= j < queue@.len() ==> c.contains(#[trigger] queue@[j]@),
            decreases d.edges@.len() - k,
        {
            let ghost cur = queue@.map_values(|x: Vec<char>| x@);
            assert(ev.take(k + 1).drop_last() =~= ev.take(k as int));
            reveal_with_fuel(Seq::filter, 1);
            if string_is(&d.edges[k].from, id.as_slice()) {
                let to = chars_of(d.edges[k].to.as_str());
                proof {
                    assert(ev.map_values(|e: EdgeV| e.to)[k as int] == to@);
                    assert(c[qv0.len() + k] == to@);
                }
                queue.push(to);
                assert(ev.take(k + 1).filter(pred) =~= ev.take(k as int).filter(pred).push(ev[k as int]));
                assert(queue@.map_values(|x: Vec<char>| x@) =~= cur.push(to@));
                assert(before_q + ev.take(k + 1).filter(pred).map_values(|e: EdgeV| e.to) =~= cur.push(to@));
            } else {
                assert(ev.take(k + 1).filter(pred) =~= ev.take(k as int).filter(pred));
            }
            k = k + 1;
        }
        assert(ev.take(ev.len() as int) =~= ev);
        done.push(id);
        assert(done@.map_values(|x: Vec<char>| x@) =~= dv.push(id@));
    }
}

} // verus!
