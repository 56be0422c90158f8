//! Renderings that are lists of lines: state transitions, class boxes and
//! ER entity boxes with their relationship legends.

use vstd::prelude::*;
use crate::diagram::{
    AttributeV, ClassMember, Diagram, Edge, EdgeV, Entity, EntityAttribute, MemberType, MemberV,
    NodeV, Relationship, RelationshipV, Visibility,
};
use crate::render::ops::{pad, pad_string, pad_string_left, repeat_char, repeat_char_of, spaces, spaces_of};
use crate::render::style::{Role, Span, SpanV, plain, push_span, span, spans_v};
use crate::render::canvas::{joined, lemma_plain_add, lemma_plain_one};
use crate::text::{chars_of, concat, find, find_of, slice_of, string_is};
use crate::width::{display_width, width_of};

verus! {

/// Box-drawing glyphs.
#[derive(Clone, Copy)]
pub struct BoxChars {
    pub top_left: char,
    pub top_right: char,
    pub bottom_left: char,
    pub bottom_right: char,
    pub horizontal: char,
    pub vertical: char,
}

impl BoxChars {
    pub open spec fn spec_unicode() -> BoxChars {
        BoxChars {
            top_left: '┌',
            top_right: '┐',
            bottom_left: '└',
            bottom_right: '┘',
            horizontal: '─',
            vertical: '│',
        }
    }

    pub open spec fn spec_ascii() -> BoxChars {
        BoxChars {
            top_left: '+',
            top_right: '+',
            bottom_left: '+',
            bottom_right: '+',
            horizontal: '-',
            vertical: '|',
        }
    }

    pub fn unicode() -> (r: BoxChars)
        ensures
            r == Self::spec_unicode(),
    {
        BoxChars {
            top_left: '┌',
            top_right: '┐',
            bottom_left: '└',
            bottom_right: '┘',
            horizontal: '─',
            vertical: '│',
        }
    }

    pub fn ascii() -> (r: BoxChars)
        ensures
            r == Self::spec_ascii(),
    {
        BoxChars {
            top_left: '+',
            top_right: '+',
            bottom_left: '+',
            bottom_right: '+',
            horizontal: '-',
            vertical: '|',
        }
    }
}

/// The glyph set for ASCII or Unicode output.
pub open spec fn box_chars(ascii: bool) -> BoxChars {
    if ascii { BoxChars::spec_ascii() } else { BoxChars::spec_unicode() }
}

pub fn box_chars_of(ascii: bool) -> (r: BoxChars)
    ensures
        r == box_chars(ascii),
{
    if ascii { BoxChars::ascii() } else { BoxChars::unicode() }
}

/// The divider glyphs at the left and right of a box.
pub open spec fn dividers(ascii: bool) -> (char, char) {
    if ascii { ('+', '+') } else { ('├', '┤') }
}

/// A newline.
pub open spec fn newline() -> SpanV {
    span(seq!['\n'], Role::Plain)
}

/// One line of a box: `left`, `fill`, `right`, then a newline.
pub open spec fn box_line(left: char, fill: Seq<char>, right: char) -> Seq<SpanV> {
    seq![span(seq![left] + fill + seq![right], Role::NodeFg), newline()]
}

fn push_newline(doc: &mut Vec<Span>)
    ensures
        spans_v(final(doc)@) == spans_v(old(doc)@).push(newline()),
{
    let nl = vec!['\n'];
    assert(nl@ =~= seq!['\n']);
    push_span(doc, nl, Role::Plain);
}

fn push_box_line(doc: &mut Vec<Span>, left: char, fill: &[char], right: char)
    ensures
        spans_v(final(doc)@) == spans_v(old(doc)@) + box_line(left, fill@, right),
{
    let ghost before = spans_v(doc@);
    let l = vec![left];
    let r = vec![right];
    let a = concat(l.as_slice(), fill);
    let text = concat(a.as_slice(), r.as_slice());
    assert(text@ =~= seq![left] + fill@ + seq![right]);
    push_span(doc, text, Role::NodeFg);
    push_newline(doc);
    assert(spans_v(doc@) =~= before + box_line(left, fill@, right));
}

// ---------------------------------------------------------------- state

pub open spec fn state_name(name: Seq<char>, ascii: bool, start: bool) -> SpanV {
    if name == "[*]"@ {
        if start {
            span(if ascii { "(*)"@ } else { "●"@ }, Role::StartEnd)
        } else {
            span(if ascii { "(o)"@ } else { "◉"@ }, Role::StartEnd)
        }
    } else {
        span(name, Role::NodeFg)
    }
}

/// One transition: `from ──▶ to`, then ` : label` when there is one.
pub open spec fn state_edge_spans(e: EdgeV, ascii: bool) -> Seq<SpanV> {
    let head = seq![
        state_name(e.from, ascii, true),
        span(if ascii { " -> "@ } else { " ──▶ "@ }, Role::Edge),
        state_name(e.to, ascii, false),
    ];
    let label = match e.label {
        Some(l) => seq![span(" : "@ + l, Role::EdgeLabel)],
        None => Seq::empty(),
    };
    head + label + seq![newline()]
}

/// A state diagram as a list of transitions.
pub open spec fn state_doc(edges: Seq<EdgeV>, ascii: bool) -> Seq<SpanV>
    decreases edges.len(),
{
    if edges.len() == 0 {
        Seq::empty()
    } else {
        state_doc(edges.drop_last(), ascii) + state_edge_spans(edges.last(), ascii)
    }
}

fn state_name_of(name: &String, ascii: bool, start: bool) -> (r: Span)
    ensures
        r@ == state_name(name@, ascii, start),
{
    let star = chars_of("[*]");
    if string_is(name, star.as_slice()) {
        if start {
            Span { text: if ascii { chars_of("(*)") } else { chars_of("●") }, role: Role::StartEnd }
        } else {
            Span { text: if ascii { chars_of("(o)") } else { chars_of("◉") }, role: Role::StartEnd }
        }
    } else {
        Span { text: chars_of(name.as_str()), role: Role::NodeFg }
    }
}

pub fn render_state(d: &Diagram, ascii: bool) -> (r: Vec<Span>)
    ensures
        spans_v(r@) == state_doc(d@.edges, ascii),
{
    let mut doc: Vec<Span> = Vec::new();
    let ghost ev = d@.edges;
    assert(spans_v(doc@) =~= Seq::<SpanV>::empty());
    let mut i: usize = 0;
    while i < d.edges.len()
        invariant
            ev == d.edges@.map_values(|e: Edge| e@),
            i <= d.edges@.len(),
            spans_v(doc@) == state_doc(ev.take(i as int), ascii),
        decreases d.edges@.len() - i,
    {
        let e = &d.edges[i];
        let ghost before = spans_v(doc@);
        let a = state_name_of(&e.from, ascii, true);
        push_span(&mut doc, a.text, a.role);
        push_span(&mut doc, if ascii { chars_of(" -> ") } else { chars_of(" ──▶ ") }, Role::Edge);
        let b = state_name_of(&e.to, ascii, false);
        push_span(&mut doc, b.text, b.role);
        let ghost mid = spans_v(doc@);
        assert(mid =~= before + seq![
            state_name(e@.from, ascii, true),
            span(if ascii { " -> "@ } else { " ──▶ "@ }, Role::Edge),
            state_name(e@.to, ascii, false),
        ]);
        match &e.label {
            Some(l) => {
                let sep = chars_of(" : ");
                let t = concat(sep.as_slice(), chars_of(l.as_str()).as_slice());
                push_span(&mut doc, t, Role::EdgeLabel);
            },
            None => {},
        }
        push_newline(&mut doc);
        assert(ev.take(i + 1).drop_last() =~= ev.take(i as int));
        assert(ev.take(i + 1).last() == e@);
        assert(spans_v(doc@) =~= before + state_edge_spans(e@, ascii));
        i = i + 1;
    }
    assert(ev.take(ev.len() as int) =~= ev);
    doc
}

// ---------------------------------------------------------------- relationships

/// A class relationship legend line: `from rel to`.
pub open spec fn rel_line(r: RelationshipV) -> Seq<SpanV> {
    seq![span(r.from + " "@ + r.rel_type + " "@ + r.to, Role::Edge), newline()]
}

pub open spec fn rel_lines(rels: Seq<RelationshipV>) -> Seq<SpanV>
    decreases rels.len(),
{
    if rels.len() == 0 {
        Seq::empty()
    } else {
        rel_lines(rels.drop_last()) + rel_line(rels.last())
    }
}

fn push_rel_lines(doc: &mut Vec<Span>, rels: &Vec<Relationship>)
    ensures
        spans_v(final(doc)@) == spans_v(old(doc)@) + rel_lines(rels@.map_values(|r: Relationship| r@)),
{
    let ghost rv = rels@.map_values(|r: Relationship| r@);
    let ghost start = spans_v(doc@);
    let mut i: usize = 0;
    assert(start + rel_lines(rv.take(0)) =~= start);
    while i < rels.len()
        invariant
            rv == rels@.map_values(|r: Relationship| r@),
            i <= rels@.len(),
            spans_v(doc@) == start + rel_lines(rv.take(i as int)),
        decreases rels@.len() - i,
    {
        let r = &rels[i];
        let sp = chars_of(" ");
        let a = concat(chars_of(r.from.as_str()).as_slice(), sp.as_slice());
        let b = concat(a.as_slice(), chars_of(r.rel_type.as_str()).as_slice());
        let c = concat(b.as_slice(), sp.as_slice());
        let t = concat(c.as_slice(), chars_of(r.to.as_str()).as_slice());
        let ghost before = spans_v(doc@);
        push_span(doc, t, Role::Edge);
        push_newline(doc);
        assert(rv.take(i + 1).drop_last() =~= rv.take(i as int));
        assert(spans_v(doc@) =~= before + rel_line(r@));
        assert(start + rel_lines(rv.take(i + 1)) =~= start + rel_lines(rv.take(i as int)) + rel_line(r@));
        i = i + 1;
    }
    assert(rv.take(rv.len() as int) =~= rv);
}

// ---------------------------------------------------------------- class

/// A member as the class box shows it: visibility, name, `()` for methods.
pub open spec fn member_text(m: MemberV) -> Seq<char> {
    let prefix = match m.visibility {
        Visibility::Public => "+"@,
        Visibility::Private => "-"@,
        Visibility::Protected => "#"@,
        Visibility::Package => "~"@,
    };
    let suffix = match m.member_type {
        MemberType::Field => Seq::empty(),
        MemberType::Method => "()"@,
    };
    prefix + m.name + suffix
}

fn member_text_of(m: &ClassMember) -> (r: Vec<char>)
    ensures
        r@ == member_text(m@),
{
    let prefix = match m.visibility {
        Visibility::Public => chars_of("+"),
        Visibility::Private => chars_of("-"),
        Visibility::Protected => chars_of("#"),
        Visibility::Package => chars_of("~"),
    };
    let suffix = match m.member_type {
        MemberType::Field => Vec::new(),
        MemberType::Method => chars_of("()"),
    };
    let a = concat(prefix.as_slice(), chars_of(m.name.as_str()).as_slice());
    concat(a.as_slice(), suffix.as_slice())
}

/// The widest of `w` and the members' texts.
pub open spec fn widest_member(ms: Seq<MemberV>, w: int) -> int
    decreases ms.len(),
{
    if ms.len() == 0 {
        w
    } else {
        let m = display_width(member_text(ms.last())) as int;
        let rest = widest_member(ms.drop_last(), w);
        if m > rest { m } else { rest }
    }
}

/// `w` clamped into `lo..=hi`.
pub open spec fn clamp(w: int, lo: int, hi: int) -> int {
    if w < lo { lo } else if w > hi { hi } else { w }
}

/// The inner width of a class box: its widest line, clamped to 16..=40.
pub open spec fn class_box_width(n: NodeV) -> int {
    clamp(widest_member(n.members, display_width(n.label) as int), 16, 40)
}

/// One box line per member of the given type, left-aligned.
pub open spec fn member_lines(ms: Seq<MemberV>, t: MemberType, bw: int, v: char) -> Seq<SpanV>
    decreases ms.len(),
{
    if ms.len() == 0 {
        Seq::empty()
    } else {
        let rest = member_lines(ms.drop_last(), t, bw, v);
        if ms.last().member_type == t {
            rest + box_line(v, pad(member_text(ms.last()), bw, true), v)
        } else {
            rest
        }
    }
}

/// The members have one of type `t`.
pub open spec fn has_member_type(ms: Seq<MemberV>, t: MemberType) -> bool
    decreases ms.len(),
{
    ms.len() > 0 && (ms.last().member_type == t || has_member_type(ms.drop_last(), t))
}

/// A class box: name, divider, fields, a divider when there are both fields
/// and methods, methods; then a blank line.
pub open spec fn class_box(n: NodeV, ascii: bool) -> Seq<SpanV> {
    let c = box_chars(ascii);
    let (dl, dr) = dividers(ascii);
    let bw = class_box_width(n);
    let h = repeat_char(c.horizontal, bw);
    let body = if n.members.len() == 0 {
        box_line(c.vertical, spaces(bw), c.vertical)
    } else {
        member_lines(n.members, MemberType::Field, bw, c.vertical) + (if has_member_type(n.members, MemberType::Field)
            && has_member_type(n.members, MemberType::Method) {
            box_line(dl, h, dr)
        } else {
            Seq::empty()
        }) + member_lines(n.members, MemberType::Method, bw, c.vertical)
    };
    box_line(c.top_left, h, c.top_right) + box_line(c.vertical, pad(n.label, bw, false), c.vertical)
        + box_line(dl, h, dr) + body + box_line(c.bottom_left, h, c.bottom_right) + seq![newline()]
}

pub open spec fn class_boxes(nodes: Seq<NodeV>, ascii: bool) -> Seq<SpanV>
    decreases nodes.len(),
{
    if nodes.len() == 0 {
        Seq::empty()
    } else {
        class_boxes(nodes.drop_last(), ascii) + class_box(nodes.last(), ascii)
    }
}

/// A class diagram: its boxes, then its relationships as a legend.
pub open spec fn class_doc(nodes: Seq<NodeV>, rels: Seq<RelationshipV>, ascii: bool) -> Seq<SpanV> {
    class_boxes(nodes, ascii) + rel_lines(rels)
}

pub open spec fn members_v(v: Seq<ClassMember>) -> Seq<MemberV> {
    v.map_values(|m: ClassMember| m@)
}

fn push_member_lines(doc: &mut Vec<Span>, ms: &Vec<ClassMember>, t: MemberType, bw: usize, v: char) -> (found: bool)
    ensures
        spans_v(final(doc)@) == spans_v(old(doc)@) + member_lines(members_v(ms@), t, bw as int, v),
        found == has_member_type(members_v(ms@), t),
{
    let ghost mv = members_v(ms@);
    let ghost start = spans_v(doc@);
    let mut found = false;
    let mut i: usize = 0;
    assert(start + member_lines(mv.take(0), t, bw as int, v) =~= start);
    while i < ms.len()
        invariant
            mv == members_v(ms@),
            i <= ms@.len(),
            spans_v(doc@) == start + member_lines(mv.take(i as int), t, bw as int, v),
            found == has_member_type(mv.take(i as int), t),
        decreases ms@.len() - i,
    {
        assert(mv.take(i + 1).drop_last() =~= mv.take(i as int));
        assert(mv.take(i + 1).last() == ms@[i as int]@);
        let ghost before = spans_v(doc@);
        if ms[i].member_type == t {
            let text = member_text_of(&ms[i]);
            let padded = pad_string_left(text.as_slice(), bw);
            push_box_line(doc, v, padded.as_slice(), v);
            assert(start + member_lines(mv.take(i + 1), t, bw as int, v) =~= before + box_line(
                v,
                pad(member_text(ms@[i as int]@), bw as int, true),
                v,
            ));
            found = true;
        }
        i = i + 1;
    }
    assert(mv.take(mv.len() as int) =~= mv);
    found
}

fn class_box_width_of(n: &crate::diagram::Node) -> (r: usize)
    ensures
        r == class_box_width(n@),
{
    let ghost mv = members_v(n.members@);
    let mut w: usize = width_of(chars_of(n.label.as_str()).as_slice());
    let mut i: usize = 0;
    while i < n.members.len()
        invariant
            mv == members_v(n.members@),
            mv == n@.members,
            i <= n.members@.len(),
            w as int == widest_member(mv.take(i as int), display_width(n@.label) as int),
        decreases n.members@.len() - i,
    {
        assert(mv.take(i + 1).drop_last() =~= mv.take(i as int));
        let m = width_of(member_text_of(&n.members[i]).as_slice());
        if m > w {
            w = m;
        }
        i = i + 1;
    }
    assert(mv.take(mv.len() as int) =~= mv);
    if w < 16 {
        16
    } else if w > 40 {
        40
    } else {
        w
    }
}

fn push_class_body(doc: &mut Vec<Span>, n: &crate::diagram::Node, bw: usize, ascii: bool)
    ensures
        spans_v(final(doc)@) == spans_v(old(doc)@) + ({
            let c = box_chars(ascii);
            let (dl, dr) = dividers(ascii);
            let h = repeat_char(c.horizontal, bw as int);
            if n@.members.len() == 0 {
                box_line(c.vertical, spaces(bw as int), c.vertical)
            } else {
                member_lines(n@.members, MemberType::Field, bw as int, c.vertical) + (if has_member_type(
                    n@.members,
                    MemberType::Field,
                ) && has_member_type(n@.members, MemberType::Method) {
                    box_line(dl, h, dr)
                } else {
                    Seq::empty()
                }) + member_lines(n@.members, MemberType::Method, bw as int, c.vertical)
            }
        }),
{
    let c = box_chars_of(ascii);
    let (dl, dr) = if ascii { ('+', '+') } else { ('├', '┤') };
    let h = repeat_char_of(c.horizontal, bw);
    let ghost start = spans_v(doc@);
    if n.members.len() == 0 {
        push_box_line(doc, c.vertical, spaces_of(bw).as_slice(), c.vertical);
    } else {
        let mut scratch: Vec<Span> = Vec::new();
        let has_fields = push_member_lines(&mut scratch, &n.members, MemberType::Field, bw, c.vertical);
        let mut probe: Vec<Span> = Vec::new();
        let has_methods = push_member_lines(&mut probe, &n.members, MemberType::Method, bw, c.vertical);
        push_member_lines(doc, &n.members, MemberType::Field, bw, c.vertical);
        let ghost a = spans_v(doc@);
        if has_fields && has_methods {
            push_box_line(doc, dl, h.as_slice(), dr);
        }
        let ghost b = spans_v(doc@);
        push_member_lines(doc, &n.members, MemberType::Method, bw, c.vertical);
        assert(spans_v(doc@) =~= start + (member_lines(n@.members, MemberType::Field, bw as int, c.vertical) + (if has_fields && has_methods {
            box_line(dl, h@, dr)
        } else {
            Seq::empty()
        }) + member_lines(n@.members, MemberType::Method, bw as int, c.vertical)));
    }
}

fn push_class_box(doc: &mut Vec<Span>, n: &crate::diagram::Node, ascii: bool)
    ensures
        spans_v(final(doc)@) == spans_v(old(doc)@) + class_box(n@, ascii),
{
    let c = box_chars_of(ascii);
    let (dl, dr) = if ascii { ('+', '+') } else { ('├', '┤') };
    let ghost before = spans_v(doc@);
    let bw = class_box_width_of(n);
    let h = repeat_char_of(c.horizontal, bw);
    push_box_line(doc, c.top_left, h.as_slice(), c.top_right);
    let name = pad_string(chars_of(n.label.as_str()).as_slice(), bw);
    push_box_line(doc, c.vertical, name.as_slice(), c.vertical);
    push_box_line(doc, dl, h.as_slice(), dr);
    let ghost mid = spans_v(doc@);
    push_class_body(doc, n, bw, ascii);
    let ghost mid2 = spans_v(doc@);
    push_box_line(doc, c.bottom_left, h.as_slice(), c.bottom_right);
    push_newline(doc);
    assert(spans_v(doc@) =~= before + class_box(n@, ascii));
}

pub fn render_class(d: &Diagram, ascii: bool) -> (r: Vec<Span>)
    ensures
        spans_v(r@) == class_doc(d@.nodes, d@.relationships, ascii),
{
    let mut doc: Vec<Span> = Vec::new();
    let ghost nv = d@.nodes;
    assert(spans_v(doc@) =~= Seq::<SpanV>::empty());
    let mut i: usize = 0;
    while i < d.nodes.len()
        invariant
            nv == d.nodes@.map_values(|n: crate::diagram::Node| n@),
            i <= d.nodes@.len(),
            spans_v(doc@) == class_boxes(nv.take(i as int), ascii),
        decreases d.nodes@.len() - i,
    {
        let n = &d.nodes[i];
        let ghost before = spans_v(doc@);
        push_class_box(&mut doc, n, ascii);
        assert(nv.take(i + 1).drop_last() =~= nv.take(i as int));
        assert(nv.take(i + 1).last() == n@);
        assert(spans_v(doc@) =~= before + class_box(n@, ascii));
        i = i + 1;
    }
    assert(nv.take(nv.len() as int) =~= nv);
    push_rel_lines(&mut doc, &d.relationships);
    doc
}

// ---------------------------------------------------------------- ER

/// An attribute as an entity box shows it: `PK FK : name`, with blanks for
/// the markers that do not apply.
pub open spec fn attr_text(a: AttributeV) -> Seq<char> {
    (if a.is_primary_key { "PK"@ } else { "  "@ }) + " "@ + (if a.is_foreign_key { "FK"@ } else { "  "@ })
        + " : "@ + a.name
}

fn attr_text_of(a: &EntityAttribute) -> (r: Vec<char>)
    ensures
        r@ == attr_text(a@),
{
    let pk = if a.is_primary_key { chars_of("PK") } else { chars_of("  ") };
    let fk = if a.is_foreign_key { chars_of("FK") } else { chars_of("  ") };
    let s1 = concat(pk.as_slice(), chars_of(" ").as_slice());
    let s2 = concat(s1.as_slice(), fk.as_slice());
    let s3 = concat(s2.as_slice(), chars_of(" : ").as_slice());
    concat(s3.as_slice(), chars_of(a.name.as_str()).as_slice())
}

pub open spec fn widest_attr(attrs: Seq<AttributeV>, w: int) -> int
    decreases attrs.len(),
{
    if attrs.len() == 0 {
        w
    } else {
        let m = display_width(attr_text(attrs.last())) as int;
        let rest = widest_attr(attrs.drop_last(), w);
        if m > rest { m } else { rest }
    }
}

/// The inner width of an entity box: its widest line, clamped to 20..=50.
pub open spec fn er_box_width(e: crate::diagram::EntityV) -> int {
    clamp(widest_attr(e.attributes, display_width(e.name) as int), 20, 50)
}

pub open spec fn attr_lines(attrs: Seq<AttributeV>, bw: int, v: char) -> Seq<SpanV>
    decreases attrs.len(),
{
    if attrs.len() == 0 {
        Seq::empty()
    } else {
        attr_lines(attrs.drop_last(), bw, v) + box_line(v, pad(attr_text(attrs.last()), bw, true), v)
    }
}

/// An entity box: name, divider, one line per attribute; then a blank line.
pub open spec fn entity_box(e: crate::diagram::EntityV, ascii: bool) -> Seq<SpanV> {
    let c = box_chars(ascii);
    let (dl, dr) = dividers(ascii);
    let bw = er_box_width(e);
    let h = repeat_char(c.horizontal, bw);
    box_line(c.top_left, h, c.top_right) + box_line(c.vertical, pad(e.name, bw, false), c.vertical)
        + box_line(dl, h, dr) + attr_lines(e.attributes, bw, c.vertical) + box_line(
        c.bottom_left,
        h,
        c.bottom_right,
    ) + seq![newline()]
}

pub open spec fn entity_boxes(es: Seq<crate::diagram::EntityV>, ascii: bool) -> Seq<SpanV>
    decreases es.len(),
{
    if es.len() == 0 {
        Seq::empty()
    } else {
        entity_boxes(es.drop_last(), ascii) + entity_box(es.last(), ascii)
    }
}

/// The cardinalities either side of the `--` of an ER relationship type.
pub open spec fn cardinalities(rel_type: Seq<char>) -> (Seq<char>, Seq<char>) {
    match find(rel_type, "--"@) {
        Some(p) => (rel_type.take(p), rel_type.skip(p + "--"@.len())),
        None => ("--"@, "--"@),
    }
}

/// An ER relationship legend line: `from left--right to`.
pub open spec fn er_rel_line(r: RelationshipV) -> Seq<SpanV> {
    let (l, rc) = cardinalities(r.rel_type);
    seq![span(r.from + " "@ + l + "--"@ + rc + " "@ + r.to, Role::Edge), newline()]
}

pub open spec fn er_rel_lines(rels: Seq<RelationshipV>) -> Seq<SpanV>
    decreases rels.len(),
{
    if rels.len() == 0 {
        Seq::empty()
    } else {
        er_rel_lines(rels.drop_last()) + er_rel_line(rels.last())
    }
}

/// An ER diagram: its entity boxes, then its relationships as a legend.
pub open spec fn er_doc(es: Seq<crate::diagram::EntityV>, rels: Seq<RelationshipV>, ascii: bool) -> Seq<SpanV> {
    entity_boxes(es, ascii) + er_rel_lines(rels)
}

fn calculate_er_box_width(e: &Entity) -> (r: usize)
    ensures
        r == er_box_width(e@),
{
    let ghost av = e@.attributes;
    let mut w: usize = width_of(chars_of(e.name.as_str()).as_slice());
    let mut i: usize = 0;
    while i < e.attributes.len()
        invariant
            av == e.attributes@.map_values(|a: EntityAttribute| a@),
            i <= e.attributes@.len(),
            w as int == widest_attr(av.take(i as int), display_width(e@.name) as int),
        decreases e.attributes@.len() - i,
    {
        assert(av.take(i + 1).drop_last() =~= av.take(i as int));
        let m = width_of(attr_text_of(&e.attributes[i]).as_slice());
        if m > w {
            w = m;
        }
        i = i + 1;
    }
    assert(av.take(av.len() as int) =~= av);
    if w < 20 {
        20
    } else if w > 50 {
        50
    } else {
        w
    }
}

fn cardinalities_of(rel_type: &[char]) -> (r: (Vec<char>, Vec<char>))
    ensures
        (r.0@, r.1@) == cardinalities(rel_type@),
{
    let dd = chars_of("--");
    match find_of(rel_type, dd.as_slice()) {
        Some(p) => {
            let n = rel_type.len();
            let l = slice_of(rel_type, 0, p);
            let r = slice_of(rel_type, p + dd.len(), n);
            assert(l@ =~= rel_type@.take(p as int));
            assert(r@ =~= rel_type@.skip(p + dd@.len()));
            (l, r)
        },
        None => (chars_of("--"), chars_of("--")),
    }
}

pub fn render_er(d: &Diagram, ascii: bool) -> (r: Vec<Span>)
    ensures
        spans_v(r@) == er_doc(d@.entities, d@.relationships, ascii),
{
    let c = box_chars_of(ascii);
    let (dl, dr) = if ascii { ('+', '+') } else { ('├', '┤') };
    let mut doc: Vec<Span> = Vec::new();
    let ghost ev = d@.entities;
    assert(spans_v(doc@) =~= Seq::<SpanV>::empty());
    let mut i: usize = 0;
    while i < d.entities.len()
        invariant
            ev == d.entities@.map_values(|e: Entity| e@),
            c == box_chars(ascii),
            (dl, dr) == dividers(ascii),
            i <= d.entities@.len(),
            spans_v(doc@) == entity_boxes(ev.take(i as int), ascii),
        decreases d.entities@.len() - i,
    {
        let e = &d.entities[i];
        let ghost before = spans_v(doc@);
        let bw = calculate_er_box_width(e);
        let h = repeat_char_of(c.horizontal, bw);
        push_box_line(&mut doc, c.top_left, h.as_slice(), c.top_right);
        let name = pad_string(chars_of(e.name.as_str()).as_slice(), bw);
        push_box_line(&mut doc, c.vertical, name.as_slice(), c.vertical);
        push_box_line(&mut doc, dl, h.as_slice(), dr);
        let ghost av = e@.attributes;
        let ghost mid = spans_v(doc@);
        let mut k: usize = 0;
        assert(mid + attr_lines(av.take(0), bw as int, c.vertical) =~= mid);
        while k < e.attributes.len()
            invariant
                av == e.attributes@.map_values(|a: EntityAttribute| a@),
                k <= e.attributes@.len(),
                spans_v(doc@) == mid + attr_lines(av.take(k as int), bw as int, c.vertical),
            decreases e.attributes@.len() - k,
        {
            let t = attr_text_of(&e.attributes[k]);
            let p = pad_string_left(t.as_slice(), bw);
            push_box_line(&mut doc, c.vertical, p.as_slice(), c.vertical);
            assert(av.take(k + 1).drop_last() =~= av.take(k as int));
            assert(mid + attr_lines(av.take(k + 1), bw as int, c.vertical) =~= mid + attr_lines(av.take(k as int), bw as int, c.vertical)
                + box_line(c.vertical, pad(attr_text(av[k as int]), bw as int, true), c.vertical));
            k = k + 1;
        }
        assert(av.take(av.len() as int) =~= av);
        push_box_line(&mut doc, c.bottom_left, h.as_slice(), c.bottom_right);
        push_newline(&mut doc);
        assert(ev.take(i + 1).drop_last() =~= ev.take(i as int));
        assert(ev.take(i + 1).last() == e@);
        assert(spans_v(doc@) =~= before + entity_box(e@, ascii));
        i = i + 1;
    }
    assert(ev.take(ev.len() as int) =~= ev);
    let ghost rv = d@.relationships;
    let ghost start = spans_v(doc@);
    let mut j: usize = 0;
    assert(start + er_rel_lines(rv.take(0)) =~= start);
    while j < d.relationships.len()
        invariant
            rv == d.relationships@.map_values(|r: Relationship| r@),
            j <= d.relationships@.len(),
            spans_v(doc@) == start + er_rel_lines(rv.take(j as int)),
        decreases d.relationships@.len() - j,
    {
        let r = &d.relationships[j];
        let (l, rc) = cardinalities_of(chars_of(r.rel_type.as_str()).as_slice());
        let sp = chars_of(" ");
        let s1 = concat(chars_of(r.from.as_str()).as_slice(), sp.as_slice());
        let s2 = concat(s1.as_slice(), l.as_slice());
        let s3 = concat(s2.as_slice(), chars_of("--").as_slice());
        let s4 = concat(s3.as_slice(), rc.as_slice());
        let s5 = concat(s4.as_slice(), sp.as_slice());
        let t = concat(s5.as_slice(), chars_of(r.to.as_str()).as_slice());
        let ghost before = spans_v(doc@);
        push_span(&mut doc, t, Role::Edge);
        push_newline(&mut doc);
        assert(rv.take(j + 1).drop_last() =~= rv.take(j as int));
        assert(spans_v(doc@) =~= before + er_rel_line(r@));
        assert(start + er_rel_lines(rv.take(j + 1)) =~= start + er_rel_lines(rv.take(j as int)) + er_rel_line(r@));
        j = j + 1;
    }
    assert(rv.take(rv.len() as int) =~= rv);
    doc
}

// ---------------------------------------------------------------- the shape of class output

/// A relationship's legend line: `from rel_type to`.
pub open spec fn rel_text(r: RelationshipV) -> Seq<char> {
    r.from + " "@ + r.rel_type + " "@ + r.to
}

pub open spec fn box_text(left: char, fill: Seq<char>, right: char) -> Seq<char> {
    seq![left] + fill + seq![right]
}

/// The lines of the members of type `t`, left-aligned in `bw` columns.
pub open spec fn member_texts(ms: Seq<MemberV>, t: MemberType, bw: int, v: char) -> Seq<Seq<char>>
    decreases ms.len(),
{
    if ms.len() == 0 {
        Seq::empty()
    } else {
        let rest = member_texts(ms.drop_last(), t, bw, v);
        if ms.last().member_type == t {
            rest.push(box_text(v, pad(member_text(ms.last()), bw, true), v))
        } else {
            rest
        }
    }
}

/// The number of members of type `t`.
pub open spec fn count_type(ms: Seq<MemberV>, t: MemberType) -> nat
    decreases ms.len(),
{
    if ms.len() == 0 {
        0
    } else {
        count_type(ms.drop_last(), t) + if ms.last().member_type == t { 1nat } else { 0nat }
    }
}

/// The lines of a class box: top, centred name, divider; the fields, a
/// divider when there are both fields and methods, the methods (or one
/// empty line when there are no members); the bottom; then a blank line.
pub open spec fn class_box_lines(n: NodeV, ascii: bool) -> Seq<Seq<char>> {
    let c = box_chars(ascii);
    let (dl, dr) = dividers(ascii);
    let bw = class_box_width(n);
    let h = repeat_char(c.horizontal, bw);
    let body = if n.members.len() == 0 {
        seq![box_text(c.vertical, spaces(bw), c.vertical)]
    } else {
        member_texts(n.members, MemberType::Field, bw, c.vertical) + (if has_member_type(n.members, MemberType::Field)
            && has_member_type(n.members, MemberType::Method) {
            seq![box_text(dl, h, dr)]
        } else {
            Seq::empty()
        }) + member_texts(n.members, MemberType::Method, bw, c.vertical)
    };
    seq![box_text(c.top_left, h, c.top_right), box_text(c.vertical, pad(n.label, bw, false), c.vertical), box_text(dl, h, dr)]
        + body + seq![box_text(c.bottom_left, h, c.bottom_right), Seq::<char>::empty()]
}

proof fn lemma_joined_add(a: Seq<Seq<char>>, b: Seq<Seq<char>>)
    ensures
        joined(a + b) == joined(a) + joined(b),
    decreases b.len(),
{
    if b.len() == 0 {
        assert(a + b =~= a);
        assert(joined(a) + Seq::<char>::empty() =~= joined(a));
    } else {
        assert((a + b).drop_last() =~= a + b.drop_last());
        lemma_joined_add(a, b.drop_last());
        assert((a + b).last() == b.last());
        assert(joined(a) + joined(b.drop_last()) + b.last() + seq!['\n'] =~= joined(a) + (joined(b.drop_last())
            + b.last() + seq!['\n']));
    }
}

proof fn lemma_joined_one(l: Seq<char>)
    ensures
        joined(seq![l]) == l + seq!['\n'],
{
    reveal_with_fuel(joined, 2);
    assert(seq![l].drop_last() =~= Seq::<Seq<char>>::empty());
    assert(joined(Seq::<Seq<char>>::empty()) == Seq::<char>::empty());
    assert(seq![l].last() == l);
    assert(Seq::<char>::empty() + l + seq!['\n'] =~= l + seq!['\n']);
}

proof fn lemma_box_line_text(left: char, fill: Seq<char>, right: char)
    ensures
        plain(box_line(left, fill, right)) == joined(seq![box_text(left, fill, right)]),
{
    let a = span(seq![left] + fill + seq![right], Role::NodeFg);
    assert(box_line(left, fill, right) =~= seq![a] + seq![newline()]);
    lemma_plain_add(seq![a], seq![newline()]);
    lemma_plain_one(a);
    lemma_plain_one(newline());
    lemma_joined_one(box_text(left, fill, right));
}

proof fn lemma_member_texts(ms: Seq<MemberV>, t: MemberType, bw: int, v: char)
    ensures
        plain(member_lines(ms, t, bw, v)) == joined(member_texts(ms, t, bw, v)),
        member_texts(ms, t, bw, v).len() == count_type(ms, t),
    decreases ms.len(),
{
    if ms.len() > 0 {
        lemma_member_texts(ms.drop_last(), t, bw, v);
        if ms.last().member_type == t {
            let f = pad(member_text(ms.last()), bw, true);
            lemma_box_line_text(v, f, v);
            lemma_plain_add(member_lines(ms.drop_last(), t, bw, v), box_line(v, f, v));
            let rest = member_texts(ms.drop_last(), t, bw, v);
            assert(rest.push(box_text(v, f, v)) =~= rest + seq![box_text(v, f, v)]);
            lemma_joined_add(rest, seq![box_text(v, f, v)]);
        }
    }
}

/// A class box is its lines, each followed by a newline: top, centred name,
/// divider, the fields, a divider exactly when there are both fields and
/// methods, the methods, the bottom, and a blank line. With members there are
/// `5 + fields + methods` lines (one more for the second divider); without,
/// one empty box line stands for the members.
pub proof fn law_class_box_lines(n: NodeV, ascii: bool)
    ensures
        plain(class_box(n, ascii)) == joined(class_box_lines(n, ascii)),
        class_box_lines(n, ascii).len() == if n.members.len() == 0 {
            6
        } else {
            5 + count_type(n.members, MemberType::Field) + count_type(n.members, MemberType::Method) + if has_member_type(
                n.members,
                MemberType::Field,
            ) && has_member_type(n.members, MemberType::Method) {
                1int
            } else {
                0int
            }
        },
{
    let c = box_chars(ascii);
    let (dl, dr) = dividers(ascii);
    let bw = class_box_width(n);
    let h = repeat_char(c.horizontal, bw);
    let top = box_line(c.top_left, h, c.top_right);
    let name = box_line(c.vertical, pad(n.label, bw, false), c.vertical);
    let div = box_line(dl, h, dr);
    let bottom = box_line(c.bottom_left, h, c.bottom_right);
    lemma_box_line_text(c.top_left, h, c.top_right);
    lemma_box_line_text(c.vertical, pad(n.label, bw, false), c.vertical);
    lemma_box_line_text(dl, h, dr);
    lemma_box_line_text(c.bottom_left, h, c.bottom_right);
    lemma_box_line_text(c.vertical, spaces(bw), c.vertical);
    lemma_member_texts(n.members, MemberType::Field, bw, c.vertical);
    lemma_member_texts(n.members, MemberType::Method, bw, c.vertical);
    let fl = member_lines(n.members, MemberType::Field, bw, c.vertical);
    let ml = member_lines(n.members, MemberType::Method, bw, c.vertical);
    let ft = member_texts(n.members, MemberType::Field, bw, c.vertical);
    let mt = member_texts(n.members, MemberType::Method, bw, c.vertical);
    let both = has_member_type(n.members, MemberType::Field) && has_member_type(n.members, MemberType::Method);
    let mid: Seq<SpanV> = if both { div } else { Seq::empty() };
    let midt: Seq<Seq<char>> = if both { seq![box_text(dl, h, dr)] } else { Seq::empty() };
    assert(plain(Seq::<SpanV>::empty()) == Seq::<char>::empty());
    assert(plain(mid) == joined(midt));
    let body = if n.members.len() == 0 { box_line(c.vertical, spaces(bw), c.vertical) } else { fl + mid + ml };
    let bodyt = if n.members.len() == 0 { seq![box_text(c.vertical, spaces(bw), c.vertical)] } else { ft + midt + mt };
    lemma_plain_add(fl, mid);
    lemma_plain_add(fl + mid, ml);
    lemma_joined_add(ft, midt);
    lemma_joined_add(ft + midt, mt);
    assert(plain(body) == joined(bodyt));
    lemma_plain_one(newline());
    lemma_joined_one(Seq::<char>::empty());
    assert(Seq::<char>::empty() + seq!['\n'] =~= seq!['\n']);
    let t1 = seq![box_text(c.top_left, h, c.top_right)];
    let t2 = seq![box_text(c.vertical, pad(n.label, bw, false), c.vertical)];
    let t3 = seq![box_text(dl, h, dr)];
    let t5 = seq![box_text(c.bottom_left, h, c.bottom_right)];
    let t6 = seq![Seq::<char>::empty()];
    lemma_plain_add(top, name);
    lemma_plain_add(top + name, div);
    lemma_plain_add(top + name + div, body);
    lemma_plain_add(top + name + div + body, bottom);
    lemma_plain_add(top + name + div + body + bottom, seq![newline()]);
    lemma_joined_add(t1, t2);
    lemma_joined_add(t1 + t2, t3);
    lemma_joined_add(t1 + t2 + t3, bodyt);
    lemma_joined_add(t1 + t2 + t3 + bodyt, t5);
    lemma_joined_add(t1 + t2 + t3 + bodyt + t5, t6);
    assert(class_box_lines(n, ascii) =~= t1 + t2 + t3 + bodyt + t5 + t6);
}

/// The relationship legend of a class diagram: one line per relationship, in
/// order, reading `from rel_type to`.
pub proof fn law_class_relationship_lines(rels: Seq<RelationshipV>)
    ensures
        plain(rel_lines(rels)) == joined(rels.map_values(|r: RelationshipV| rel_text(r))),
    decreases rels.len(),
{
    if rels.len() > 0 {
        law_class_relationship_lines(rels.drop_last());
        let r = rels.last();
        let a = span(rel_text(r), Role::Edge);
        assert(rel_line(r) =~= seq![a] + seq![newline()]);
        lemma_plain_add(seq![a], seq![newline()]);
        lemma_plain_one(a);
        lemma_plain_one(newline());
        lemma_plain_add(rel_lines(rels.drop_last()), rel_line(r));
        let m = rels.map_values(|r: RelationshipV| rel_text(r));
        assert(m.drop_last() =~= rels.drop_last().map_values(|r: RelationshipV| rel_text(r)));
        assert(m.last() == rel_text(r));
    }
}

/// The lines of all class boxes, in node order.
pub open spec fn class_boxes_lines(nodes: Seq<NodeV>, ascii: bool) -> Seq<Seq<char>>
    decreases nodes.len(),
{
    if nodes.len() == 0 {
        Seq::empty()
    } else {
        class_boxes_lines(nodes.drop_last(), ascii) + class_box_lines(nodes.last(), ascii)
    }
}

/// The lines of a class diagram: its boxes, then one legend line per
/// relationship.
pub open spec fn class_doc_lines(nodes: Seq<NodeV>, rels: Seq<RelationshipV>, ascii: bool) -> Seq<Seq<char>> {
    class_boxes_lines(nodes, ascii) + rels.map_values(|r: RelationshipV| rel_text(r))
}

proof fn lemma_class_boxes_lines(nodes: Seq<NodeV>, ascii: bool)
    ensures
        plain(class_boxes(nodes, ascii)) == joined(class_boxes_lines(nodes, ascii)),
    decreases nodes.len(),
{
    if nodes.len() == 0 {
        assert(plain(Seq::<SpanV>::empty()) == Seq::<char>::empty());
    } else {
        lemma_class_boxes_lines(nodes.drop_last(), ascii);
        law_class_box_lines(nodes.last(), ascii);
        lemma_plain_add(class_boxes(nodes.drop_last(), ascii), class_box(nodes.last(), ascii));
        lemma_joined_add(class_boxes_lines(nodes.drop_last(), ascii), class_box_lines(nodes.last(), ascii));
    }
}

/// The text of a class diagram is its lines, each followed by a newline; each
/// box is as wide as its widest line, clamped to 16..=40 columns.
pub proof fn law_class_doc_lines(nodes: Seq<NodeV>, rels: Seq<RelationshipV>, ascii: bool)
    ensures
        plain(class_doc(nodes, rels, ascii)) == joined(class_doc_lines(nodes, rels, ascii)),
        forall|k: int| 0 <= k < nodes.len() ==> 16 <= #[trigger] class_box_width(nodes[k]) <= 40,
{
    lemma_class_boxes_lines(nodes, ascii);
    law_class_relationship_lines(rels);
    lemma_plain_add(class_boxes(nodes, ascii), rel_lines(rels));
    lemma_joined_add(class_boxes_lines(nodes, ascii), rels.map_values(|r: RelationshipV| rel_text(r)));
}

} // verus!
