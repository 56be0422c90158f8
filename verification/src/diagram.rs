//! Diagram types representing parsed Mermaid graphs, and their models.

use vstd::prelude::*;

verus! {

/// Types of Mermaid diagrams.
#[derive(Debug, Clone, Copy, PartialEq, Eq, Structural)]
pub enum DiagramType {
    Flowchart,
    Sequence,
    Class,
    State,
    ER,
    Pie,
    GitGraph,
    Block,
    Treemap,
    Unknown,
}

/// Node shape styles.
#[derive(Debug, Clone, Copy, PartialEq, Eq, Structural)]
pub enum NodeShape {
    /// `[text]`
    Rectangle,
    /// `(text)`
    Rounded,
    /// `{text}`
    Diamond,
    /// `([text])`
    Stadium,
    /// `[[text]]`
    Subroutine,
    /// `((text))`
    Circle,
    /// `(((text)))`
    DoubleCircle,
    /// `{{text}}`
    Hexagon,
    /// `[(text)]`
    Cylinder,
    /// `>text]`
    Asymmetric,
    /// `[/text/]`
    Parallelogram,
    /// `[/text\]`
    Trapezoid,
}

/// Edge and arrow styles.
#[derive(Debug, Clone, Copy, PartialEq, Eq, Structural)]
pub enum EdgeStyle {
    /// `-->`
    Solid,
    /// `-.->`
    Dotted,
    /// `==>`
    Thick,
    /// `<-->`
    Bidirectional,
    /// `--o`
    CircleEnd,
    /// `--x`
    CrossEnd,
}

#[derive(Debug, Clone, Copy, PartialEq, Eq, Structural)]
pub enum MemberType {
    Field,
    Method,
}

#[derive(Debug, Clone, Copy, PartialEq, Eq, Structural)]
pub enum Visibility {
    /// `+`
    Public,
    /// `-`
    Private,
    /// `#`
    Protected,
    /// `~`
    Package,
}

/// Class member (field or method).
#[derive(Debug, Clone)]
pub struct ClassMember {
    pub name: String,
    pub member_type: MemberType,
    pub visibility: Visibility,
}

/// A node in the diagram.
#[derive(Debug, Clone)]
pub struct Node {
    pub id: String,
    pub label: String,
    pub shape: NodeShape,
    pub style: Option<String>,
    pub class: Option<String>,
    pub members: Vec<ClassMember>,
}

/// An edge connecting nodes.
#[derive(Debug, Clone)]
pub struct Edge {
    pub from: String,
    pub to: String,
    pub label: Option<String>,
    pub style: EdgeStyle,
}

/// Class-diagram or ER relationship.
#[derive(Debug, Clone)]
pub struct Relationship {
    pub from: String,
    pub to: String,
    /// `<|--`, `*--`, `o--`, `--`, `..>`, `..|>`, or an ER cardinality pair.
    pub rel_type: String,
}

/// One attribute line of an ER entity.
#[derive(Debug, Clone)]
pub struct EntityAttribute {
    pub name: String,
    pub attr_type: String,
    pub is_primary_key: bool,
    pub is_foreign_key: bool,
}

/// An ER entity block.
#[derive(Debug, Clone)]
pub struct Entity {
    pub name: String,
    pub attributes: Vec<EntityAttribute>,
}

/// A complete parsed diagram.
#[derive(Debug, Clone)]
pub struct Diagram {
    pub diagram_type: DiagramType,
    /// `LR`, `RL`, `TB`, `TD` or `BT`.
    pub direction: String,
    pub nodes: Vec<Node>,
    pub edges: Vec<Edge>,
    pub relationships: Vec<Relationship>,
    pub participants: Vec<String>,
    pub entities: Vec<Entity>,
}

// ---------------------------------------------------------------- models

pub open spec fn opt_view(o: Option<String>) -> Option<Seq<char>> {
    match o {
        Some(s) => Some(s@),
        None => None,
    }
}

pub struct MemberV {
    pub name: Seq<char>,
    pub member_type: MemberType,
    pub visibility: Visibility,
}

pub struct NodeV {
    pub id: Seq<char>,
    pub label: Seq<char>,
    pub shape: NodeShape,
    pub style: Option<Seq<char>>,
    pub class: Option<Seq<char>>,
    pub members: Seq<MemberV>,
}

pub struct EdgeV {
    pub from: Seq<char>,
    pub to: Seq<char>,
    pub label: Option<Seq<char>>,
    pub style: EdgeStyle,
}

pub struct RelationshipV {
    pub from: Seq<char>,
    pub to: Seq<char>,
    pub rel_type: Seq<char>,
}

pub struct AttributeV {
    pub name: Seq<char>,
    pub attr_type: Seq<char>,
    pub is_primary_key: bool,
    pub is_foreign_key: bool,
}

pub struct EntityV {
    pub name: Seq<char>,
    pub attributes: Seq<AttributeV>,
}

pub struct DiagramV {
    pub diagram_type: DiagramType,
    pub direction: Seq<char>,
    pub nodes: Seq<NodeV>,
    pub edges: Seq<EdgeV>,
    pub relationships: Seq<RelationshipV>,
    pub participants: Seq<Seq<char>>,
    pub entities: Seq<EntityV>,
}

impl View for ClassMember {
    type V = MemberV;

    open spec fn view(&self) -> MemberV {
        MemberV { name: self.name@, member_type: self.member_type, visibility: self.visibility }
    }
}

impl View for Node {
    type V = NodeV;

    open spec fn view(&self) -> NodeV {
        NodeV {
            id: self.id@,
            label: self.label@,
            shape: self.shape,
            style: opt_view(self.style),
            class: opt_view(self.class),
            members: self.members@.map_values(|m: ClassMember| m@),
        }
    }
}

impl View for Edge {
    type V = EdgeV;

    open spec fn view(&self) -> EdgeV {
        EdgeV { from: self.from@, to: self.to@, label: opt_view(self.label), style: self.style }
    }
}

impl View for Relationship {
    type V = RelationshipV;

    open spec fn view(&self) -> RelationshipV {
        RelationshipV { from: self.from@, to: self.to@, rel_type: self.rel_type@ }
    }
}

impl View for EntityAttribute {
    type V = AttributeV;

    open spec fn view(&self) -> AttributeV {
        AttributeV {
            name: self.name@,
            attr_type: self.attr_type@,
            is_primary_key: self.is_primary_key,
            is_foreign_key: self.is_foreign_key,
        }
    }
}

impl View for Entity {
    type V = EntityV;

    open spec fn view(&self) -> EntityV {
        EntityV { name: self.name@, attributes: self.attributes@.map_values(|a: EntityAttribute| a@) }
    }
}

impl View for Diagram {
    type V = DiagramV;

    open spec fn view(&self) -> DiagramV {
        DiagramV {
            diagram_type: self.diagram_type,
            direction: self.direction@,
            nodes: self.nodes@.map_values(|n: Node| n@),
            edges: self.edges@.map_values(|e: Edge| e@),
            relationships: self.relationships@.map_values(|r: Relationship| r@),
            participants: self.participants@.map_values(|p: String| p@),
            entities: self.entities@.map_values(|e: Entity| e@),
        }
    }
}

/// The model of `Node::new(id, label)`.
pub open spec fn node_v(id: Seq<char>, label: Seq<char>) -> NodeV {
    NodeV {
        id,
        label,
        shape: NodeShape::Rectangle,
        style: None,
        class: None,
        members: Seq::empty(),
    }
}

/// The model of `Edge::new(from, to)`.
pub open spec fn edge_v(from: Seq<char>, to: Seq<char>) -> EdgeV {
    EdgeV { from, to, label: None, style: EdgeStyle::Solid }
}

/// Some node has this id.
pub open spec fn has_node(nodes: Seq<NodeV>, id: Seq<char>) -> bool {
    exists|k: int| 0 <= k < nodes.len() && #[trigger] nodes[k].id == id
}

/// No two nodes share an id.
pub open spec fn ids_distinct(nodes: Seq<NodeV>) -> bool {
    forall|i: int, j: int| 0 <= i < j < nodes.len() ==> nodes[i].id != nodes[j].id
}

/// No node id is empty.
pub open spec fn ids_nonempty(nodes: Seq<NodeV>) -> bool {
    forall|i: int| 0 <= i < nodes.len() ==> (#[trigger] nodes[i]).id.len() > 0
}

/// Every edge joins two of the nodes.
pub open spec fn edges_closed(nodes: Seq<NodeV>, edges: Seq<EdgeV>) -> bool {
    forall|i: int| 0 <= i < edges.len() ==> has_node(nodes, #[trigger] edges[i].from) && has_node(nodes, edges[i].to)
}

/// A diagram of the given type with nothing in it and direction `LR`.
pub open spec fn empty_diagram_v(t: DiagramType) -> DiagramV {
    DiagramV {
        diagram_type: t,
        direction: seq!['L', 'R'],
        nodes: Seq::empty(),
        edges: Seq::empty(),
        relationships: Seq::empty(),
        participants: Seq::empty(),
        entities: Seq::empty(),
    }
}

/// Nothing meaningful was parsed into `d`.
pub open spec fn is_empty_v(d: DiagramV) -> bool {
    &&& d.nodes.len() == 0
    &&& d.edges.len() == 0
    &&& d.relationships.len() == 0
    &&& d.participants.len() == 0
    &&& d.entities.len() == 0
}

impl Node {
    pub fn new(id: String, label: String) -> (r: Node)
        ensures
            r@ == node_v(id@, label@),
    {
        let r = Node {
            id,
            label,
            shape: NodeShape::Rectangle,
            style: None,
            class: None,
            members: Vec::new(),
        };
        assert(r.members@.map_values(|m: ClassMember| m@) =~= Seq::<MemberV>::empty());
        r
    }
}

impl Edge {
    pub fn new(from: String, to: String) -> (r: Edge)
        ensures
            r@ == edge_v(from@, to@),
    {
        Edge { from, to, label: None, style: EdgeStyle::Solid }
    }
}

impl Diagram {
    /// An empty diagram of type `t` with direction `LR`.
    pub fn empty_of(t: DiagramType) -> (r: Diagram)
        ensures
            r@ == empty_diagram_v(t),
    {
        let d = Diagram {
            diagram_type: t,
            direction: crate::text::string_of(&['L', 'R']),
            nodes: Vec::new(),
            edges: Vec::new(),
            relationships: Vec::new(),
            participants: Vec::new(),
            entities: Vec::new(),
        };
        assert(d@.direction =~= seq!['L', 'R']);
        assert(d@.nodes =~= Seq::<NodeV>::empty());
        assert(d@.edges =~= Seq::<EdgeV>::empty());
        assert(d@.relationships =~= Seq::<RelationshipV>::empty());
        assert(d@.participants =~= Seq::<Seq<char>>::empty());
        assert(d@.entities =~= Seq::<EntityV>::empty());
        d
    }

    /// No nodes, edges, relationships, participants or entities were parsed.
    pub fn is_empty(&self) -> (r: bool)
        ensures
            r == is_empty_v(self@),
    {
        self.nodes.len() == 0 && self.edges.len() == 0 && self.relationships.len() == 0
            && self.participants.len() == 0 && self.entities.len() == 0
    }
}

impl Default for Diagram {
    fn default() -> (r: Diagram)
        ensures
            r@ == empty_diagram_v(DiagramType::Flowchart),
    {
        Diagram::empty_of(DiagramType::Flowchart)
    }
}

} // verus!
