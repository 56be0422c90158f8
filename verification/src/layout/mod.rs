//! Layout engine: positions for the nodes of a diagram on a character grid.

pub mod flowchart;
pub mod layering;
pub mod overlap;
pub mod rational;
pub mod state;

use vstd::prelude::*;
use crate::arith::{sadd, sat_add, sat_mul, smul};
use crate::diagram::{Diagram, DiagramType, DiagramV, Node, NodeV};
use crate::text::{chars_of, string_is, string_of};

verus! {

/// Position of a node in the layout.
#[derive(Debug, Clone, Copy, PartialEq, Eq, Structural)]
pub struct Position {
    pub x: usize,
    pub y: usize,
    pub width: usize,
    pub height: usize,
}

/// Node positions keyed by node id, in first-insertion order; a key occurs once.
#[derive(Debug, Clone)]
pub struct PositionMap {
    entries: Vec<(String, Position)>,
}

/// The position stored under `key` in `e`, scanning from index `i`.
pub open spec fn pm_get_from(e: Seq<(Seq<char>, Position)>, key: Seq<char>, i: int) -> Option<int>
    decreases e.len() - i,
{
    if i < 0 || i >= e.len() {
        None
    } else if e[i].0 == key {
        Some(i)
    } else {
        pm_get_from(e, key, i + 1)
    }
}

pub proof fn lemma_pm_get_from_bound(e: Seq<(Seq<char>, Position)>, key: Seq<char>, i: int)
    requires
        0 <= i,
    ensures
        pm_get_from(e, key, i) matches Some(k) ==> i <= k < e.len() && e[k].0 == key,
        pm_get_from(e, key, i) is None ==> forall|k: int| i <= k < e.len() ==> e[k].0 != key,
    decreases e.len() - i,
{
    if 0 <= i < e.len() && e[i].0 != key {
        lemma_pm_get_from_bound(e, key, i + 1);
    }
}

/// The position stored under `key`.
pub open spec fn pm_get(e: Seq<(Seq<char>, Position)>, key: Seq<char>) -> Option<Position> {
    match pm_get_from(e, key, 0) {
        Some(i) => Some(e[i].1),
        None => None,
    }
}

/// `e` with `key` mapped to `p`: an existing entry keeps its place.
pub open spec fn pm_insert(e: Seq<(Seq<char>, Position)>, key: Seq<char>, p: Position) -> Seq<(Seq<char>, Position)> {
    match pm_get_from(e, key, 0) {
        Some(i) => e.update(i, (key, p)),
        None => e.push((key, p)),
    }
}

/// No key occurs twice.
pub open spec fn keys_distinct(e: Seq<(Seq<char>, Position)>) -> bool {
    forall|i: int, j: int| 0 <= i < j < e.len() ==> (#[trigger] e[i]).0 != (#[trigger] e[j]).0
}

/// Inserting keeps each key once.
pub proof fn lemma_pm_insert_distinct(e: Seq<(Seq<char>, Position)>, key: Seq<char>, p: Position)
    requires
        keys_distinct(e),
    ensures
        keys_distinct(pm_insert(e, key, p)),
        forall|k: int| 0 <= k < pm_insert(e, key, p).len() ==> #[trigger] pm_insert(e, key, p)[k] == (key, p) || (k < e.len()
            && pm_insert(e, key, p)[k] == e[k]),
        pm_insert(e, key, p).contains((key, p)),
{
    lemma_pm_get_from_bound(e, key, 0);
    let r = pm_insert(e, key, p);
    match pm_get_from(e, key, 0) {
        Some(i) => {
            assert(r[i] == (key, p));
        },
        None => {
            assert(r[e.len() as int] == (key, p));
        },
    }
}

/// Every position has a box at least two columns wide.
pub open spec fn boxes_ok(pos: Seq<(Seq<char>, Position)>) -> bool {
    forall|k: int| 0 <= k < pos.len() ==> (#[trigger] pos[k]).1.width >= 2
}

pub proof fn lemma_pm_insert_ok(e: Seq<(Seq<char>, Position)>, key: Seq<char>, p: Position)
    requires
        boxes_ok(e),
        p.width >= 2,
    ensures
        boxes_ok(pm_insert(e, key, p)),
{
    lemma_pm_get_from_bound(e, key, 0);
    let r = pm_insert(e, key, p);
    assert forall|k: int| 0 <= k < r.len() implies (#[trigger] r[k]).1.width >= 2 by {
        if k < e.len() && r[k] == e[k] {
        } else {
            assert(r[k] == (key, p));
        }
    }
}

impl View for PositionMap {
    type V = Seq<(Seq<char>, Position)>;

    closed spec fn view(&self) -> Seq<(Seq<char>, Position)> {
        self.entries@.map_values(|e: (String, Position)| (e.0@, e.1))
    }
}

impl PositionMap {
    pub fn new() -> (r: PositionMap)
        ensures
            r@ == Seq::<(Seq<char>, Position)>::empty(),
    {
        let r = PositionMap { entries: Vec::new() };
        assert(r@ =~= Seq::<(Seq<char>, Position)>::empty());
        r
    }

    fn index_of(&self, key: &[char]) -> (r: Option<usize>)
        ensures
            match r {
                Some(i) => pm_get_from(self@, key@, 0) == Some(i as int) && i < self@.len(),
                None => pm_get_from(self@, key@, 0) is None,
            },
    {
        let mut i: usize = 0;
        while i < self.entries.len()
            invariant
                i <= self@.len(),
                self@.len() == self.entries@.len(),
                pm_get_from(self@, key@, 0) == pm_get_from(self@, key@, i as int),
            decreases self@.len() - i,
        {
            if string_is(&self.entries[i].0, key) {
                return Some(i);
            }
            i = i + 1;
        }
        None
    }

    /// Maps `key` to `p`, replacing what it mapped to.
    pub fn insert(&mut self, key: &[char], p: Position)
        ensures
            final(self)@ == pm_insert(old(self)@, key@, p),
    {
        let ghost old_v = self@;
        match self.index_of(key) {
            Some(i) => {
                self.entries[i] = (string_of(key), p);
                assert(self@ =~= old_v.update(i as int, (key@, p)));
            },
            None => {
                self.entries.push((string_of(key), p));
                assert(self@ =~= old_v.push((key@, p)));
            },
        }
    }

    /// The position of the node with this id.
    pub fn get(&self, key: &str) -> (r: Option<Position>)
        ensures
            r == pm_get(self@, key@),
    {
        let k = chars_of(key);
        match self.index_of(k.as_slice()) {
            Some(i) => Some(self.entries[i].1),
            None => None,
        }
    }

    /// The number of positioned nodes.
    pub fn len(&self) -> (r: usize)
        ensures
            r == self@.len(),
    {
        self.entries.len()
    }

    pub fn is_empty(&self) -> (r: bool)
        ensures
            r == (self@.len() == 0),
    {
        self.entries.len() == 0
    }

    /// The positions, in first-insertion order of their keys.
    pub fn values(&self) -> (r: Vec<Position>)
        ensures
            r@.len() == self@.len(),
            forall|i: int| 0 <= i < r@.len() ==> #[trigger] r@[i] == self@[i].1,
    {
        let mut r: Vec<Position> = Vec::new();
        let mut i: usize = 0;
        while i < self.entries.len()
            invariant
                i <= self@.len(),
                self@.len() == self.entries@.len(),
                r@.len() == i,
                forall|k: int| 0 <= k < i ==> #[trigger] r@[k] == self@[k].1,
            decreases self@.len() - i,
        {
            r.push(self.entries[i].1);
            i = i + 1;
        }
        r
    }
}

/// Layout result with positioned nodes.
#[derive(Debug, Clone)]
pub struct LayoutResult {
    pub positions: PositionMap,
    pub width: usize,
    pub height: usize,
}

pub struct LayoutV {
    pub positions: Seq<(Seq<char>, Position)>,
    pub width: int,
    pub height: int,
}

impl View for LayoutResult {
    type V = LayoutV;

    open spec fn view(&self) -> LayoutV {
        LayoutV { positions: self.positions@, width: self.width as int, height: self.height as int }
    }
}

/// Layout engine.
pub struct Layout<'a> {
    diagram: &'a Diagram,
}

// ---------------------------------------------------------------- grid layouts

/// Inserts one position per key of `keys`, the `i`-th being `f(i)`.
pub open spec fn place_all(keys: Seq<Seq<char>>, f: spec_fn(int) -> Position) -> Seq<(Seq<char>, Position)>
    decreases keys.len(),
{
    if keys.len() == 0 {
        Seq::empty()
    } else {
        pm_insert(place_all(keys.drop_last(), f), keys.last(), f(keys.len() - 1))
    }
}

pub open spec fn node_ids(nodes: Seq<NodeV>) -> Seq<Seq<char>> {
    nodes.map_values(|n: NodeV| n.id)
}

/// Sequence diagrams: one box per participant along the top.
pub open spec fn layout_sequence(d: DiagramV) -> LayoutV {
    LayoutV {
        positions: place_all(
            d.participants,
            |i: int| Position { x: sat_mul(i, 18) as usize, y: 0, width: 10, height: 3 },
        ),
        width: sat_add(sat_mul(d.participants.len() as int, 18), 2),
        height: 20,
    }
}

/// Class diagrams: three boxes per row.
pub open spec fn layout_class(d: DiagramV) -> LayoutV {
    LayoutV {
        positions: place_all(
            node_ids(d.nodes),
            |i: int| Position { x: ((i % 3) * 20) as usize, y: sat_mul(i / 3, 8) as usize, width: 16, height: 6 },
        ),
        width: 62,
        height: sat_add(sat_mul((d.nodes.len() / 3 + 1) as int, 8), 2),
    }
}

/// Pie charts: one bar per slice.
pub open spec fn layout_pie(d: DiagramV) -> LayoutV {
    LayoutV {
        positions: place_all(
            node_ids(d.nodes),
            |i: int| Position { x: 0, y: sat_mul(i, 4) as usize, width: 50, height: 3 },
        ),
        width: 60,
        height: sat_add(sat_mul(d.nodes.len() as int, 4), 2),
    }
}

/// The layout of a diagram, by its type; types without a layout of their
/// own are laid out as flowcharts.
pub open spec fn layout_spec(d: DiagramV) -> LayoutV {
    match d.diagram_type {
        DiagramType::Sequence => layout_sequence(d),
        DiagramType::Class => layout_class(d),
        DiagramType::State => crate::layout::state::layout_state(d),
        DiagramType::Pie => layout_pie(d),
        _ => crate::layout::flowchart::layout_flowchart(d),
    }
}

impl<'a> Layout<'a> {
    pub fn new(diagram: &'a Diagram) -> (r: Layout<'a>)
        ensures
            r.diagram_v() == diagram@,
    {
        Layout { diagram }
    }

    /// The diagram this layout is for.
    pub closed spec fn diagram_v(&self) -> DiagramV {
        self.diagram@
    }

    /// Performs the layout calculation.
    pub fn layout(&self) -> (r: LayoutResult)
        ensures
            r@ == layout_spec(self.diagram_v()),
    {
        match self.diagram.diagram_type {
            DiagramType::Sequence => self.layout_sequence(),
            DiagramType::Class => self.layout_class(),
            DiagramType::State => crate::layout::state::layout_state_of(self.diagram),
            DiagramType::Pie => self.layout_pie(),
            _ => crate::layout::flowchart::layout_flowchart_of(self.diagram),
        }
    }

    fn layout_sequence(&self) -> (r: LayoutResult)
        ensures
            r@ == layout_sequence(self.diagram@),
    {
        let ps = &self.diagram.participants;
        let ghost keys = self.diagram@.participants;
        let ghost f = |i: int| Position { x: sat_mul(i, 18) as usize, y: 0, width: 10, height: 3 };
        let mut positions = PositionMap::new();
        let mut i: usize = 0;
        while i < ps.len()
            invariant
                keys == ps@.map_values(|p: String| p@),
                f == (|i: int| Position { x: sat_mul(i, 18) as usize, y: 0, width: 10, height: 3 }),
                i <= ps@.len(),
                positions@ == place_all(keys.take(i as int), f),
            decreases ps@.len() - i,
        {
            let key = chars_of(ps[i].as_str());
            positions.insert(key.as_slice(), Position { x: smul(i, 18), y: 0, width: 10, height: 3 });
            assert(keys.take(i + 1).drop_last() =~= keys.take(i as int));
            i = i + 1;
        }
        assert(keys.take(keys.len() as int) =~= keys);
        LayoutResult { positions, width: sadd(smul(ps.len(), 18), 2), height: 20 }
    }

    fn layout_class(&self) -> (r: LayoutResult)
        ensures
            r@ == layout_class(self.diagram@),
    {
        let nodes = &self.diagram.nodes;
        let ghost keys = node_ids(self.diagram@.nodes);
        let ghost f = |i: int| Position { x: ((i % 3) * 20) as usize, y: sat_mul(i / 3, 8) as usize, width: 16, height: 6 };
        let mut positions = PositionMap::new();
        let mut i: usize = 0;
        while i < nodes.len()
            invariant
                keys == node_ids(nodes@.map_values(|n: Node| n@)),
                keys.len() == nodes@.len(),
                f == (|i: int| Position { x: ((i % 3) * 20) as usize, y: sat_mul(i / 3, 8) as usize, width: 16, height: 6 }),
                i <= nodes@.len(),
                positions@ == place_all(keys.take(i as int), f),
            decreases nodes@.len() - i,
        {
            let key = chars_of(nodes[i].id.as_str());
            assert(keys[i as int] == nodes@[i as int].id@);
            positions.insert(key.as_slice(), Position { x: (i % 3) * 20, y: smul(i / 3, 8), width: 16, height: 6 });
            assert(keys.take(i + 1).drop_last() =~= keys.take(i as int));
            i = i + 1;
        }
        assert(keys.take(keys.len() as int) =~= keys);
        LayoutResult { positions, width: 62, height: sadd(smul(nodes.len() / 3 + 1, 8), 2) }
    }

    fn layout_pie(&self) -> (r: LayoutResult)
        ensures
            r@ == layout_pie(self.diagram@),
    {
        let nodes = &self.diagram.nodes;
        let ghost keys = node_ids(self.diagram@.nodes);
        let ghost f = |i: int| Position { x: 0, y: sat_mul(i, 4) as usize, width: 50, height: 3 };
        let mut positions = PositionMap::new();
        let mut i: usize = 0;
        while i < nodes.len()
            invariant
                keys == node_ids(nodes@.map_values(|n: Node| n@)),
                keys.len() == nodes@.len(),
                f == (|i: int| Position { x: 0, y: sat_mul(i, 4) as usize, width: 50, height: 3 }),
                i <= nodes@.len(),
                positions@ == place_all(keys.take(i as int), f),
            decreases nodes@.len() - i,
        {
            let key = chars_of(nodes[i].id.as_str());
            assert(keys[i as int] == nodes@[i as int].id@);
            positions.insert(key.as_slice(), Position { x: 0, y: smul(i, 4), width: 50, height: 3 });
            assert(keys.take(i + 1).drop_last() =~= keys.take(i as int));
            i = i + 1;
        }
        assert(keys.take(keys.len() as int) =~= keys);
        LayoutResult { positions, width: 60, height: sadd(smul(nodes.len(), 4), 2) }
    }
}

} // verus!
