//! The characters a render can hold: the glyphs of its mode, printable ASCII
//! and the diagram's own text. Hence ASCII mode writes ASCII for an ASCII
//! diagram, and an escape character only ever comes from a color or from
//! the diagram.

use vstd::prelude::*;
use crate::diagram::{AttributeV, DiagramV, EdgeV, EntityV, MemberType, MemberV, NodeV, RelationshipV, Visibility};
use crate::layout::{LayoutV, Position, pm_get};
use crate::render::canvas::{
    Cell, arrows, blank, clear_cell, clear_run, draw_edge, draw_edges, draw_node, draw_nodes, edge_wire, flow_canvas,
    flowchart_doc, glyph, grow, hline, hrun, kept, line, lines_doc, mask_glyph, row_cells, runs, set_cell, sides,
    trim_cells, vrun, write_label, write_text,
};
use crate::render::lists::{
    attr_lines, attr_text, box_chars, box_line, cardinalities, class_box, class_boxes, class_doc, dividers, entity_box,
    entity_boxes, er_doc, er_rel_line, er_rel_lines, member_lines, member_text, newline, rel_line, rel_lines,
    state_doc, state_edge_spans, state_name,
};
use crate::render::ops::{pad, repeat_char, spaces, truncate};
use crate::render::pie::{percent_text, pie_doc, pie_glyphs, pie_slice, pie_slices, slice_spans, slices_spans};
use crate::render::sequence::{
    head_spans, lifeline_spans, message_line, message_spans, message_spans_all, overwrite, seq_glyphs, sequence_doc,
};
use crate::render::style::{
    Role, SpanV, emit, law_no_color_is_plain, law_plain_has_no_escape, law_strip_colored_output, no_esc, paint,
    reset, role_color, span, spans_no_esc, strip_ansi,
};
use crate::parser::chars::lemma_parse_mermaid_in;
use crate::parser::parse_mermaid_spec;
use crate::render::{RendererV, diagram_doc, monochrome, render_spec};
use crate::theme::{Color, ColorMode, ThemeV, ansi256, fg_escape};
use crate::text::{decimal, digit, lemma_decimal_digits, rfind_char, trim, trim_end, trim_start};

verus! {

// ---------------------------------------------------------------- sets of characters

/// Every character of `s` is in the set `ok`.
pub open spec fn text_in(s: Seq<char>, ok: spec_fn(char) -> bool) -> bool {
    forall|i: int| 0 <= i < s.len() ==> ok(#[trigger] s[i])
}

/// Every span of `doc` holds characters of `ok` only.
pub open spec fn spans_in(doc: Seq<SpanV>, ok: spec_fn(char) -> bool) -> bool {
    forall|i: int| 0 <= i < doc.len() ==> text_in(#[trigger] doc[i].text, ok)
}

/// `ok` holds every printable ASCII character and the newline: what the
/// renderers write of their own besides glyphs.
pub open spec fn basic(ok: spec_fn(char) -> bool) -> bool {
    forall|c: char| (' ' <= c <= '~' || c == '\n') ==> #[trigger] ok(c)
}

/// `ok` holds every glyph drawn in the given mode.
pub open spec fn glyphs_in(ok: spec_fn(char) -> bool, ascii: bool) -> bool {
    let b = box_chars(ascii);
    let (dl, dr) = dividers(ascii);
    let (g0, g1, g2, g3, g4, g5, g6) = seq_glyphs(ascii);
    let (bar, sep) = pie_glyphs(ascii);
    let (ar, al) = arrows(ascii);
    &&& ok(b.top_left) && ok(b.top_right) && ok(b.bottom_left) && ok(b.bottom_right)
    &&& ok(b.horizontal) && ok(b.vertical) && ok(dl) && ok(dr)
    &&& ok(g0) && ok(g1) && ok(g2) && ok(g3) && ok(g4) && ok(g5) && ok(g6)
    &&& ok(bar) && ok(sep) && ok(ar) && ok(al)
    &&& ok(if ascii { '|' } else { '│' })
    &&& text_in(if ascii { "(*)"@ } else { "●"@ }, ok)
    &&& text_in(if ascii { "(o)"@ } else { "◉"@ }, ok)
    &&& text_in(if ascii { " -> "@ } else { " ──▶ "@ }, ok)
    &&& forall|m: u8| ok(#[trigger] mask_glyph(m, ascii))
}

pub open spec fn ascii_char(c: char) -> bool {
    (c as u32) < 128
}

/// The ASCII characters.
pub open spec fn ascii_chars() -> spec_fn(char) -> bool {
    |c: char| ascii_char(c)
}

/// The characters other than the escape character.
pub open spec fn non_escape() -> spec_fn(char) -> bool {
    |c: char| c != '\x1b'
}

pub proof fn lemma_text_add(a: Seq<char>, b: Seq<char>, ok: spec_fn(char) -> bool)
    requires
        basic(ok),
        text_in(a, ok),
        text_in(b, ok),
    ensures
        text_in(a + b, ok),
{
    assert forall|i: int| 0 <= i < (a + b).len() implies ok(#[trigger] (a + b)[i]) by {
        if i < a.len() {
            assert((a + b)[i] == a[i]);
        } else {
            assert((a + b)[i] == b[i - a.len()]);
        }
    }
}

pub proof fn lemma_text_sub(s: Seq<char>, i: int, j: int, ok: spec_fn(char) -> bool)
    requires
        basic(ok),
        text_in(s, ok),
        0 <= i <= j <= s.len(),
    ensures
        text_in(s.subrange(i, j), ok),
{
    assert forall|k: int| 0 <= k < s.subrange(i, j).len() implies ok(#[trigger] s.subrange(i, j)[k]) by {
        assert(s.subrange(i, j)[k] == s[i + k]);
    }
}

pub proof fn lemma_spans_add(a: Seq<SpanV>, b: Seq<SpanV>, ok: spec_fn(char) -> bool)
    requires
        basic(ok),
        spans_in(a, ok),
        spans_in(b, ok),
    ensures
        spans_in(a + b, ok),
{
    assert forall|i: int| 0 <= i < (a + b).len() implies text_in(#[trigger] (a + b)[i].text, ok) by {
        if i < a.len() {
            assert((a + b)[i] == a[i]);
        } else {
            assert((a + b)[i] == b[i - a.len()]);
        }
    }
}

pub proof fn lemma_repeat(c: char, n: int, ok: spec_fn(char) -> bool)
    requires
        basic(ok),
        ok(c),
    ensures
        text_in(repeat_char(c, n), ok),
        text_in(spaces(n), ok),
{
}

pub proof fn lemma_truncate(s: Seq<char>, w: int, ok: spec_fn(char) -> bool)
    requires
        basic(ok),
        text_in(s, ok),
    ensures
        text_in(truncate(s, w), ok),
    decreases s.len(),
{
    if s.len() > 0 && !(crate::render::ops::trunc_width(s[0]) > w) {
        lemma_text_sub(s, 1, s.len() as int, ok);
        assert(s.drop_first() == s.subrange(1, s.len() as int));
        lemma_truncate(s.drop_first(), w - crate::render::ops::trunc_width(s[0]), ok);
        lemma_text_add(seq![s[0]], truncate(s.drop_first(), w - crate::render::ops::trunc_width(s[0])), ok);
    }
}

pub proof fn lemma_pad(s: Seq<char>, w: int, left: bool, ok: spec_fn(char) -> bool)
    requires
        basic(ok),
        text_in(s, ok),
    ensures
        text_in(pad(s, w, left), ok),
{
    let t = truncate(s, w);
    lemma_truncate(s, w, ok);
    let tw = crate::width::display_width(t) as int;
    lemma_repeat(' ', w - tw, ok);
    lemma_repeat(' ', (w - tw) / 2, ok);
    lemma_repeat(' ', w - tw - (w - tw) / 2, ok);
    lemma_text_add(t, spaces(w - tw), ok);
    lemma_text_add(spaces((w - tw) / 2), t, ok);
    lemma_text_add(spaces((w - tw) / 2) + t, spaces(w - tw - (w - tw) / 2), ok);
}

pub proof fn lemma_trim(s: Seq<char>, ok: spec_fn(char) -> bool)
    requires
        basic(ok),
        text_in(s, ok),
    ensures
        text_in(trim_end(s), ok),
        text_in(trim_start(s), ok),
        text_in(trim(s), ok),
    decreases s.len(),
{
    if s.len() > 0 {
        lemma_text_sub(s, 0, s.len() - 1, ok);
        lemma_text_sub(s, 1, s.len() as int, ok);
        assert(s.drop_last() == s.subrange(0, s.len() - 1));
        assert(s.drop_first() == s.subrange(1, s.len() as int));
        lemma_trim(s.drop_last(), ok);
        lemma_trim(s.drop_first(), ok);
    }
    lemma_trim_start(trim_end(s), ok);
}

proof fn lemma_trim_start(s: Seq<char>, ok: spec_fn(char) -> bool)
    requires
        basic(ok),
        text_in(s, ok),
    ensures
        text_in(trim_start(s), ok),
    decreases s.len(),
{
    if s.len() > 0 {
        lemma_text_sub(s, 1, s.len() as int, ok);
        assert(s.drop_first() == s.subrange(1, s.len() as int));
        lemma_trim_start(s.drop_first(), ok);
    }
}

pub proof fn lemma_newline(ok: spec_fn(char) -> bool)
    requires
        basic(ok),
    ensures
        spans_in(seq![newline()], ok),
{
}

pub proof fn lemma_box_line(l: char, fill: Seq<char>, r: char, ok: spec_fn(char) -> bool)
    requires
        basic(ok),
        ok(l),
        ok(r),
        text_in(fill, ok),
    ensures
        spans_in(box_line(l, fill, r), ok),
{
    lemma_text_add(seq![l], fill, ok);
    lemma_text_add(seq![l] + fill, seq![r], ok);
}

// ---------------------------------------------------------------- shown text

/// The texts of an edge are in `ok`.
pub open spec fn edge_in(e: EdgeV, ok: spec_fn(char) -> bool) -> bool {
    &&& text_in(e.from, ok)
    &&& text_in(e.to, ok)
    &&& (e.label matches Some(l) ==> text_in(l, ok))
}

/// The label and member names of a node are in `ok`.
pub open spec fn node_in(n: NodeV, ok: spec_fn(char) -> bool) -> bool {
    &&& text_in(n.label, ok)
    &&& forall|k: int| 0 <= k < n.members.len() ==> text_in(#[trigger] n.members[k].name, ok)
}

pub open spec fn rel_in(r: RelationshipV, ok: spec_fn(char) -> bool) -> bool {
    text_in(r.from, ok) && text_in(r.to, ok) && text_in(r.rel_type, ok)
}

/// The name and attribute names of an entity are in `ok`.
pub open spec fn entity_in(e: EntityV, ok: spec_fn(char) -> bool) -> bool {
    &&& text_in(e.name, ok)
    &&& forall|k: int| 0 <= k < e.attributes.len() ==> text_in(#[trigger] e.attributes[k].name, ok)
}

/// Every text of the diagram that a renderer shows is in `ok`: node labels
/// and member names, edge ends and labels, relationships, participants,
/// entity names and attribute names.
pub open spec fn diagram_in(d: DiagramV, ok: spec_fn(char) -> bool) -> bool {
    &&& forall|i: int| 0 <= i < d.nodes.len() ==> node_in(#[trigger] d.nodes[i], ok)
    &&& forall|i: int| 0 <= i < d.edges.len() ==> edge_in(#[trigger] d.edges[i], ok)
    &&& forall|i: int| 0 <= i < d.relationships.len() ==> rel_in(#[trigger] d.relationships[i], ok)
    &&& forall|i: int| 0 <= i < d.participants.len() ==> text_in(#[trigger] d.participants[i], ok)
    &&& forall|i: int| 0 <= i < d.entities.len() ==> entity_in(#[trigger] d.entities[i], ok)
}

// ---------------------------------------------------------------- state

proof fn lemma_state_name(name: Seq<char>, start: bool, ok: spec_fn(char) -> bool, ascii: bool)
    requires
        basic(ok),
        glyphs_in(ok, ascii),
        text_in(name, ok),
    ensures
        text_in(state_name(name, ascii, start).text, ok),
{
    reveal_strlit("(*)");
    reveal_strlit("(o)");
}

pub proof fn lemma_state_doc(edges: Seq<EdgeV>, ok: spec_fn(char) -> bool, ascii: bool)
    requires
        basic(ok),
        glyphs_in(ok, ascii),
        forall|i: int| 0 <= i < edges.len() ==> edge_in(#[trigger] edges[i], ok),
    ensures
        spans_in(state_doc(edges, ascii), ok),
    decreases edges.len(),
{
    if edges.len() > 0 {
        let e = edges.last();
        assert(edge_in(edges[edges.len() - 1], ok));
        lemma_state_doc(edges.drop_last(), ok, ascii);
        lemma_state_name(e.from, true, ok, ascii);
        lemma_state_name(e.to, false, ok, ascii);
        reveal_strlit(" -> ");
        reveal_strlit(" : ");
        let head = seq![
            state_name(e.from, ascii, true),
            span(if ascii { " -> "@ } else { " ──▶ "@ }, Role::Edge),
            state_name(e.to, ascii, false),
        ];
        assert(spans_in(head, ok));
        let label: Seq<SpanV> = match e.label {
            Some(l) => seq![span(" : "@ + l, Role::EdgeLabel)],
            None => Seq::empty(),
        };
        if let Some(l) = e.label {
            lemma_text_add(" : "@, l, ok);
        }
        assert(spans_in(label, ok));
        lemma_newline(ok);
        lemma_spans_add(head, label, ok);
        lemma_spans_add(head + label, seq![newline()], ok);
        assert(state_edge_spans(e, ascii) == head + label + seq![newline()]);
        lemma_spans_add(state_doc(edges.drop_last(), ascii), state_edge_spans(e, ascii), ok);
    }
}

// ---------------------------------------------------------------- class

proof fn lemma_rel_lines(rels: Seq<RelationshipV>, ok: spec_fn(char) -> bool)
    requires
        basic(ok),
        forall|i: int| 0 <= i < rels.len() ==> rel_in(#[trigger] rels[i], ok),
    ensures
        spans_in(rel_lines(rels), ok),
    decreases rels.len(),
{
    if rels.len() > 0 {
        let r = rels.last();
        assert(rel_in(rels[rels.len() - 1], ok));
        lemma_rel_lines(rels.drop_last(), ok);
        reveal_strlit(" ");
        lemma_text_add(r.from, " "@, ok);
        lemma_text_add(r.from + " "@, r.rel_type, ok);
        lemma_text_add(r.from + " "@ + r.rel_type, " "@, ok);
        lemma_text_add(r.from + " "@ + r.rel_type + " "@, r.to, ok);
        lemma_newline(ok);
        lemma_spans_add(rel_lines(rels.drop_last()), rel_line(r), ok);
    }
}

proof fn lemma_member_text(m: MemberV, ok: spec_fn(char) -> bool)
    requires
        basic(ok),
        text_in(m.name, ok),
    ensures
        text_in(member_text(m), ok),
{
    reveal_strlit("+");
    reveal_strlit("-");
    reveal_strlit("#");
    reveal_strlit("~");
    reveal_strlit("()");
    let prefix = match m.visibility {
        Visibility::Public => "+"@,
        Visibility::Private => "-"@,
        Visibility::Protected => "#"@,
        Visibility::Package => "~"@,
    };
    let suffix: Seq<char> = match m.member_type {
        MemberType::Field => Seq::empty(),
        MemberType::Method => "()"@,
    };
    lemma_text_add(prefix, m.name, ok);
    lemma_text_add(prefix + m.name, suffix, ok);
}

proof fn lemma_member_lines(ms: Seq<MemberV>, t: MemberType, bw: int, ok: spec_fn(char) -> bool, ascii: bool)
    requires
        basic(ok),
        glyphs_in(ok, ascii),
        forall|k: int| 0 <= k < ms.len() ==> text_in(#[trigger] ms[k].name, ok),
    ensures
        spans_in(member_lines(ms, t, bw, box_chars(ascii).vertical), ok),
    decreases ms.len(),
{
    if ms.len() > 0 {
        let v = box_chars(ascii).vertical;
        assert(text_in(ms[ms.len() - 1].name, ok));
        lemma_member_lines(ms.drop_last(), t, bw, ok, ascii);
        lemma_member_text(ms.last(), ok);
        lemma_pad(member_text(ms.last()), bw, true, ok);
        lemma_box_line(v, pad(member_text(ms.last()), bw, true), v, ok);
        lemma_spans_add(
            member_lines(ms.drop_last(), t, bw, v),
            box_line(v, pad(member_text(ms.last()), bw, true), v),
            ok,
        );
    }
}

proof fn lemma_class_box(n: NodeV, ok: spec_fn(char) -> bool, ascii: bool)
    requires
        basic(ok),
        glyphs_in(ok, ascii),
        node_in(n, ok),
    ensures
        spans_in(class_box(n, ascii), ok),
{
    let c = box_chars(ascii);
    let (dl, dr) = dividers(ascii);
    let bw = crate::render::lists::class_box_width(n);
    let h = repeat_char(c.horizontal, bw);
    lemma_repeat(c.horizontal, bw, ok);
    lemma_repeat(' ', bw, ok);
    lemma_pad(n.label, bw, false, ok);
    lemma_box_line(c.top_left, h, c.top_right, ok);
    lemma_box_line(c.vertical, pad(n.label, bw, false), c.vertical, ok);
    lemma_box_line(dl, h, dr, ok);
    lemma_box_line(c.vertical, spaces(bw), c.vertical, ok);
    lemma_box_line(c.bottom_left, h, c.bottom_right, ok);
    lemma_member_lines(n.members, MemberType::Field, bw, ok, ascii);
    lemma_member_lines(n.members, MemberType::Method, bw, ok, ascii);
    let fields = member_lines(n.members, MemberType::Field, bw, c.vertical);
    let methods = member_lines(n.members, MemberType::Method, bw, c.vertical);
    let mid: Seq<SpanV> = if crate::render::lists::has_member_type(n.members, MemberType::Field)
        && crate::render::lists::has_member_type(n.members, MemberType::Method) {
        box_line(dl, h, dr)
    } else {
        Seq::empty()
    };
    lemma_spans_add(fields, mid, ok);
    lemma_spans_add(fields + mid, methods, ok);
    let body = if n.members.len() == 0 {
        box_line(c.vertical, spaces(bw), c.vertical)
    } else {
        fields + mid + methods
    };
    let a = box_line(c.top_left, h, c.top_right);
    let b = box_line(c.vertical, pad(n.label, bw, false), c.vertical);
    let d = box_line(dl, h, dr);
    let e = box_line(c.bottom_left, h, c.bottom_right);
    lemma_newline(ok);
    lemma_spans_add(a, b, ok);
    lemma_spans_add(a + b, d, ok);
    lemma_spans_add(a + b + d, body, ok);
    lemma_spans_add(a + b + d + body, e, ok);
    lemma_spans_add(a + b + d + body + e, seq![newline()], ok);
}

proof fn lemma_class_boxes(nodes: Seq<NodeV>, ok: spec_fn(char) -> bool, ascii: bool)
    requires
        basic(ok),
        glyphs_in(ok, ascii),
        forall|i: int| 0 <= i < nodes.len() ==> node_in(#[trigger] nodes[i], ok),
    ensures
        spans_in(class_boxes(nodes, ascii), ok),
    decreases nodes.len(),
{
    if nodes.len() > 0 {
        assert(node_in(nodes[nodes.len() - 1], ok));
        lemma_class_boxes(nodes.drop_last(), ok, ascii);
        lemma_class_box(nodes.last(), ok, ascii);
        lemma_spans_add(class_boxes(nodes.drop_last(), ascii), class_box(nodes.last(), ascii), ok);
    }
}

pub proof fn lemma_class_doc(nodes: Seq<NodeV>, rels: Seq<RelationshipV>, ok: spec_fn(char) -> bool, ascii: bool)
    requires
        basic(ok),
        glyphs_in(ok, ascii),
        forall|i: int| 0 <= i < nodes.len() ==> node_in(#[trigger] nodes[i], ok),
        forall|i: int| 0 <= i < rels.len() ==> rel_in(#[trigger] rels[i], ok),
    ensures
        spans_in(class_doc(nodes, rels, ascii), ok),
{
    lemma_class_boxes(nodes, ok, ascii);
    lemma_rel_lines(rels, ok);
    lemma_spans_add(class_boxes(nodes, ascii), rel_lines(rels), ok);
}

// ---------------------------------------------------------------- ER

proof fn lemma_attr_lines(attrs: Seq<AttributeV>, bw: int, ok: spec_fn(char) -> bool, ascii: bool)
    requires
        basic(ok),
        glyphs_in(ok, ascii),
        forall|k: int| 0 <= k < attrs.len() ==> text_in(#[trigger] attrs[k].name, ok),
    ensures
        spans_in(attr_lines(attrs, bw, box_chars(ascii).vertical), ok),
    decreases attrs.len(),
{
    if attrs.len() > 0 {
        let v = box_chars(ascii).vertical;
        let a = attrs.last();
        assert(text_in(attrs[attrs.len() - 1].name, ok));
        lemma_attr_lines(attrs.drop_last(), bw, ok, ascii);
        reveal_strlit("PK");
        reveal_strlit("FK");
        reveal_strlit("  ");
        reveal_strlit(" ");
        reveal_strlit(" : ");
        let pk: Seq<char> = if a.is_primary_key { "PK"@ } else { "  "@ };
        let fk: Seq<char> = if a.is_foreign_key { "FK"@ } else { "  "@ };
        lemma_text_add(pk, " "@, ok);
        lemma_text_add(pk + " "@, fk, ok);
        lemma_text_add(pk + " "@ + fk, " : "@, ok);
        lemma_text_add(pk + " "@ + fk + " : "@, a.name, ok);
        assert(attr_text(a) == pk + " "@ + fk + " : "@ + a.name);
        lemma_pad(attr_text(a), bw, true, ok);
        lemma_box_line(v, pad(attr_text(a), bw, true), v, ok);
        lemma_spans_add(attr_lines(attrs.drop_last(), bw, v), box_line(v, pad(attr_text(a), bw, true), v), ok);
    }
}

proof fn lemma_entity_box(e: EntityV, ok: spec_fn(char) -> bool, ascii: bool)
    requires
        basic(ok),
        glyphs_in(ok, ascii),
        entity_in(e, ok),
    ensures
        spans_in(entity_box(e, ascii), ok),
{
    let c = box_chars(ascii);
    let (dl, dr) = dividers(ascii);
    let bw = crate::render::lists::er_box_width(e);
    let h = repeat_char(c.horizontal, bw);
    lemma_repeat(c.horizontal, bw, ok);
    lemma_pad(e.name, bw, false, ok);
    lemma_attr_lines(e.attributes, bw, ok, ascii);
    let a = box_line(c.top_left, h, c.top_right);
    let b = box_line(c.vertical, pad(e.name, bw, false), c.vertical);
    let d = box_line(dl, h, dr);
    let m = attr_lines(e.attributes, bw, c.vertical);
    let f = box_line(c.bottom_left, h, c.bottom_right);
    lemma_box_line(c.top_left, h, c.top_right, ok);
    lemma_box_line(c.vertical, pad(e.name, bw, false), c.vertical, ok);
    lemma_box_line(dl, h, dr, ok);
    lemma_box_line(c.bottom_left, h, c.bottom_right, ok);
    lemma_newline(ok);
    lemma_spans_add(a, b, ok);
    lemma_spans_add(a + b, d, ok);
    lemma_spans_add(a + b + d, m, ok);
    lemma_spans_add(a + b + d + m, f, ok);
    lemma_spans_add(a + b + d + m + f, seq![newline()], ok);
}

proof fn lemma_entity_boxes(es: Seq<EntityV>, ok: spec_fn(char) -> bool, ascii: bool)
    requires
        basic(ok),
        glyphs_in(ok, ascii),
        forall|i: int| 0 <= i < es.len() ==> entity_in(#[trigger] es[i], ok),
    ensures
        spans_in(entity_boxes(es, ascii), ok),
    decreases es.len(),
{
    if es.len() > 0 {
        assert(entity_in(es[es.len() - 1], ok));
        lemma_entity_boxes(es.drop_last(), ok, ascii);
        lemma_entity_box(es.last(), ok, ascii);
        lemma_spans_add(entity_boxes(es.drop_last(), ascii), entity_box(es.last(), ascii), ok);
    }
}

proof fn lemma_er_rel_lines(rels: Seq<RelationshipV>, ok: spec_fn(char) -> bool)
    requires
        basic(ok),
        forall|i: int| 0 <= i < rels.len() ==> rel_in(#[trigger] rels[i], ok),
    ensures
        spans_in(er_rel_lines(rels), ok),
    decreases rels.len(),
{
    if rels.len() > 0 {
        let r = rels.last();
        assert(rel_in(rels[rels.len() - 1], ok));
        lemma_er_rel_lines(rels.drop_last(), ok);
        reveal_strlit(" ");
        reveal_strlit("--");
        let (l, rc) = cardinalities(r.rel_type);
        match crate::text::find(r.rel_type, "--"@) {
            Some(p) => {
                crate::parser::flowchart::lemma_find_from_bound(r.rel_type, "--"@, 0);
                lemma_text_sub(r.rel_type, 0, p, ok);
                lemma_text_sub(r.rel_type, p + 2, r.rel_type.len() as int, ok);
                assert(l == r.rel_type.subrange(0, p));
                assert(rc == r.rel_type.subrange(p + 2, r.rel_type.len() as int));
            },
            None => {},
        }
        lemma_text_add(r.from, " "@, ok);
        lemma_text_add(r.from + " "@, l, ok);
        lemma_text_add(r.from + " "@ + l, "--"@, ok);
        lemma_text_add(r.from + " "@ + l + "--"@, rc, ok);
        lemma_text_add(r.from + " "@ + l + "--"@ + rc, " "@, ok);
        lemma_text_add(r.from + " "@ + l + "--"@ + rc + " "@, r.to, ok);
        lemma_newline(ok);
        lemma_spans_add(er_rel_lines(rels.drop_last()), er_rel_line(r), ok);
    }
}

pub proof fn lemma_er_doc(es: Seq<EntityV>, rels: Seq<RelationshipV>, ok: spec_fn(char) -> bool, ascii: bool)
    requires
        basic(ok),
        glyphs_in(ok, ascii),
        forall|i: int| 0 <= i < es.len() ==> entity_in(#[trigger] es[i], ok),
        forall|i: int| 0 <= i < rels.len() ==> rel_in(#[trigger] rels[i], ok),
    ensures
        spans_in(er_doc(es, rels, ascii), ok),
{
    lemma_entity_boxes(es, ok, ascii);
    lemma_er_rel_lines(rels, ok);
    lemma_spans_add(entity_boxes(es, ascii), er_rel_lines(rels), ok);
}

// ---------------------------------------------------------------- pie

pub proof fn lemma_rfind_char_bound(s: Seq<char>, c: char)
    ensures
        rfind_char(s, c) matches Some(i) ==> 0 <= i < s.len(),
    decreases s.len(),
{
    if s.len() > 0 && s.last() != c {
        lemma_rfind_char_bound(s.drop_last(), c);
    }
}

proof fn lemma_percent_text(x: nat, ok: spec_fn(char) -> bool)
    requires
        basic(ok),
    ensures
        text_in(percent_text(x), ok),
{
    lemma_decimal_digits(x / 10);
    let d = decimal(x / 10);
    assert forall|i: int| 0 <= i < d.len() implies ok(#[trigger] d[i]) by {
        assert('0' <= d[i] <= '9');
    }
    let dg = digit(x % 10);
    assert(ok(dg));
    lemma_text_add(d, seq!['.', dg, '%'], ok);
}

proof fn lemma_pie_label(label: Seq<char>, ok: spec_fn(char) -> bool)
    requires
        basic(ok),
        text_in(label, ok),
    ensures
        text_in(pie_slice(label).0, ok),
{
    lemma_rfind_char_bound(label, ':');
    if let Some(i) = rfind_char(label, ':') {
        lemma_text_sub(label, 0, i, ok);
        assert(label.take(i) == label.subrange(0, i));
        lemma_trim(label.take(i), ok);
    }
}

proof fn lemma_slices_spans(s: Seq<(Seq<char>, nat)>, t: nat, lw: nat, ok: spec_fn(char) -> bool, ascii: bool)
    requires
        basic(ok),
        glyphs_in(ok, ascii),
        forall|i: int| 0 <= i < s.len() ==> text_in(#[trigger] s[i].0, ok),
    ensures
        spans_in(slices_spans(s, t, lw, ascii), ok),
    decreases s.len(),
{
    if s.len() > 0 {
        let (label, v) = s.last();
        assert(text_in(s[s.len() - 1].0, ok));
        lemma_slices_spans(s.drop_last(), t, lw, ok, ascii);
        let (bar, sep) = pie_glyphs(ascii);
        let w = crate::width::display_width(label) as int;
        lemma_repeat(' ', if lw >= w { lw - w } else { 0 }, ok);
        lemma_repeat(bar, crate::render::pie::bar_len(v, t) as int, ok);
        lemma_text_add(seq![sep], repeat_char(bar, crate::render::pie::bar_len(v, t) as int), ok);
        lemma_percent_text(crate::render::pie::tenths(v, t), ok);
        assert(ok(' ') && ok('\n'));
        assert(spans_in(slice_spans(label, v, t, lw, ascii), ok));
        lemma_spans_add(slices_spans(s.drop_last(), t, lw, ascii), slice_spans(label, v, t, lw, ascii), ok);
    }
}

pub proof fn lemma_pie_doc(nodes: Seq<NodeV>, ok: spec_fn(char) -> bool, ascii: bool)
    requires
        basic(ok),
        glyphs_in(ok, ascii),
        forall|i: int| 0 <= i < nodes.len() ==> node_in(#[trigger] nodes[i], ok),
    ensures
        spans_in(pie_doc(nodes, ascii), ok),
{
    let s = pie_slices(nodes);
    assert forall|i: int| 0 <= i < s.len() implies text_in(#[trigger] s[i].0, ok) by {
        assert(node_in(nodes[i], ok));
        lemma_pie_label(nodes[i].label, ok);
    }
    let t = crate::render::pie::pie_total(s);
    if t == 0 {
        reveal_strlit("No data to display\n");
    } else {
        lemma_slices_spans(s, t, crate::render::pie::label_width(s), ok, ascii);
    }
}

// ---------------------------------------------------------------- sequence

proof fn lemma_overwrite(line: Seq<char>, start: int, content: Seq<char>, ok: spec_fn(char) -> bool)
    requires
        basic(ok),
        text_in(line, ok),
        text_in(content, ok),
    ensures
        text_in(overwrite(line, start, content), ok),
{
    let o = overwrite(line, start, content);
    assert forall|k: int| 0 <= k < o.len() implies ok(#[trigger] o[k]) by {
        if start <= k < start + content.len() {
            assert(o[k] == content[k - start]);
        } else {
            assert(o[k] == line[k]);
        }
    }
}

proof fn lemma_message_line(fc: int, tc: int, fi: int, ti: int, dotted: bool, ok: spec_fn(char) -> bool, ascii: bool)
    requires
        basic(ok),
        glyphs_in(ok, ascii),
    ensures
        text_in(message_line(fc, tc, fi, ti, dotted, ascii), ok),
{
    let (solid, dashed, head_r, head_l, conn_from, conn_to, self_msg) = seq_glyphs(ascii);
    let lo = if fc <= tc { fc } else { tc };
    let hi = if fc <= tc { tc } else { fc };
    let lc = if dotted { dashed } else { solid };
    let blank = spaces(crate::arith::sat_add(hi, 1));
    lemma_repeat(' ', crate::arith::sat_add(hi, 1), ok);
    lemma_repeat(lc, hi - lo - 1, ok);
    assert(text_in(seq![self_msg], ok) && text_in(seq![conn_from], ok) && text_in(seq![conn_to], ok));
    assert(text_in(seq![head_r], ok) && text_in(seq![head_l], ok));
    lemma_overwrite(blank, fc, seq![self_msg], ok);
    lemma_overwrite(blank, lo + 1, repeat_char(lc, hi - lo - 1), ok);
    let run = if hi > lo + 1 { overwrite(blank, lo + 1, repeat_char(lc, hi - lo - 1)) } else { blank };
    lemma_overwrite(run, fc, seq![conn_from], ok);
    lemma_overwrite(overwrite(run, fc, seq![conn_from]), tc, seq![head_r], ok);
    lemma_overwrite(run, fc, seq![conn_to], ok);
    lemma_overwrite(overwrite(run, fc, seq![conn_to]), tc, seq![head_l], ok);
}

proof fn lemma_message_spans(e: EdgeV, ps: Seq<Seq<char>>, pw: int, ok: spec_fn(char) -> bool, ascii: bool)
    requires
        basic(ok),
        glyphs_in(ok, ascii),
        edge_in(e, ok),
    ensures
        spans_in(message_spans(e, ps, pw, ascii), ok),
{
    let lane = crate::arith::sat_add(pw, 6);
    let fi = crate::render::sequence::lane_of(ps, e.from, 0);
    let ti = crate::render::sequence::lane_of(ps, e.to, 0);
    let fc = crate::arith::sat_add(crate::arith::sat_mul(fi, lane), pw / 2);
    let tc = crate::arith::sat_add(crate::arith::sat_mul(ti, lane), pw / 2);
    let raw = message_line(fc, tc, fi, ti, e.style == crate::diagram::EdgeStyle::Dotted, ascii);
    lemma_message_line(fc, tc, fi, ti, e.style == crate::diagram::EdgeStyle::Dotted, ok, ascii);
    let line = trim_end(raw);
    lemma_trim(raw, ok);
    let k = crate::render::sequence::leading_spaces(line);
    lemma_leading_spaces(line);
    lemma_text_sub(line, 0, k, ok);
    lemma_text_sub(line, k, line.len() as int, ok);
    assert(line.take(k) == line.subrange(0, k));
    assert(line.skip(k) == line.subrange(k, line.len() as int));
    let label: Seq<SpanV> = match e.label {
        Some(l) => if l.len() > 0 {
            seq![span(" "@, Role::Plain), span(l, Role::EdgeLabel)]
        } else {
            Seq::empty()
        },
        None => Seq::empty(),
    };
    reveal_strlit(" ");
    assert(spans_in(label, ok));
    let head = seq![span(line.take(k), Role::Plain), span(line.skip(k), Role::Edge)];
    assert(spans_in(head, ok));
    lemma_newline(ok);
    lemma_spans_add(head, label, ok);
    lemma_spans_add(head + label, seq![newline()], ok);
}

proof fn lemma_leading_spaces(s: Seq<char>)
    ensures
        0 <= crate::render::sequence::leading_spaces(s) <= s.len(),
    decreases s.len(),
{
    if s.len() > 0 && s[0] == ' ' {
        lemma_leading_spaces(s.drop_first());
    }
}

proof fn lemma_message_spans_all(es: Seq<EdgeV>, ps: Seq<Seq<char>>, pw: int, ok: spec_fn(char) -> bool, ascii: bool)
    requires
        basic(ok),
        glyphs_in(ok, ascii),
        forall|i: int| 0 <= i < es.len() ==> edge_in(#[trigger] es[i], ok),
    ensures
        spans_in(message_spans_all(es, ps, pw, ascii), ok),
    decreases es.len(),
{
    if es.len() > 0 {
        assert(edge_in(es[es.len() - 1], ok));
        lemma_message_spans_all(es.drop_last(), ps, pw, ok, ascii);
        lemma_message_spans(es.last(), ps, pw, ok, ascii);
        lemma_spans_add(message_spans_all(es.drop_last(), ps, pw, ascii), message_spans(es.last(), ps, pw, ascii), ok);
    }
}

proof fn lemma_head_spans(ps: Seq<Seq<char>>, n: int, pw: int, ok: spec_fn(char) -> bool)
    requires
        basic(ok),
        forall|i: int| 0 <= i < ps.len() ==> text_in(#[trigger] ps[i], ok),
    ensures
        spans_in(head_spans(ps, n, pw), ok),
    decreases ps.len(),
{
    if ps.len() > 0 {
        assert(text_in(ps[ps.len() - 1], ok));
        lemma_head_spans(ps.drop_last(), n, pw, ok);
        lemma_pad(ps.last(), pw, false, ok);
        lemma_repeat(' ', 6, ok);
        let tail: Seq<SpanV> = if ps.len() - 1 < n - 1 { seq![span(spaces(6), Role::Plain)] } else { Seq::empty() };
        assert(spans_in(tail, ok));
        let mid = seq![span(pad(ps.last(), pw, false), Role::NodeFg)];
        assert(spans_in(mid, ok));
        lemma_spans_add(head_spans(ps.drop_last(), n, pw), mid, ok);
        lemma_spans_add(head_spans(ps.drop_last(), n, pw) + mid, tail, ok);
    }
}

proof fn lemma_lifeline_spans(k: int, n: int, pw: int, bar: char, ok: spec_fn(char) -> bool)
    requires
        basic(ok),
        ok(bar),
    ensures
        spans_in(lifeline_spans(k, n, pw, bar), ok),
    decreases k,
{
    if k > 0 {
        lemma_lifeline_spans(k - 1, n, pw, bar, ok);
        lemma_repeat(' ', pw / 2, ok);
        lemma_repeat(' ', pw - pw / 2 - 1, ok);
        lemma_repeat(' ', 6, ok);
        let mid = seq![
            span(spaces(pw / 2), Role::Plain),
            span(seq![bar], Role::Edge),
            span(spaces(pw - pw / 2 - 1), Role::Plain),
        ];
        assert(spans_in(mid, ok));
        let tail: Seq<SpanV> = if k - 1 < n - 1 { seq![span(spaces(6), Role::Plain)] } else { Seq::empty() };
        assert(spans_in(tail, ok));
        lemma_spans_add(lifeline_spans(k - 1, n, pw, bar), mid, ok);
        lemma_spans_add(lifeline_spans(k - 1, n, pw, bar) + mid, tail, ok);
    }
}

pub proof fn lemma_sequence_doc(ps: Seq<Seq<char>>, es: Seq<EdgeV>, ok: spec_fn(char) -> bool, ascii: bool)
    requires
        basic(ok),
        glyphs_in(ok, ascii),
        forall|i: int| 0 <= i < ps.len() ==> text_in(#[trigger] ps[i], ok),
        forall|i: int| 0 <= i < es.len() ==> edge_in(#[trigger] es[i], ok),
    ensures
        spans_in(sequence_doc(ps, es, ascii), ok),
{
    if ps.len() > 0 {
        let pw = crate::render::sequence::participant_width(ps);
        let n = ps.len() as int;
        lemma_head_spans(ps, n, pw, ok);
        let bar = if ascii { '|' } else { '│' };
        lemma_lifeline_spans(n, n, pw, bar, ok);
        lemma_message_spans_all(es, ps, pw, ok, ascii);
        lemma_newline(ok);
        let gap = seq![span(seq!['\n', '\n'], Role::Plain)];
        assert(spans_in(gap, ok));
        let a = head_spans(ps, n, pw);
        let b = lifeline_spans(n, n, pw, bar);
        lemma_spans_add(a, seq![newline()], ok);
        lemma_spans_add(a + seq![newline()], b, ok);
        lemma_spans_add(a + seq![newline()] + b, gap, ok);
        lemma_spans_add(a + seq![newline()] + b + gap, message_spans_all(es, ps, pw, ascii), ok);
    }
}

// ---------------------------------------------------------------- canvas

pub open spec fn cell_in(c: Cell, ok: spec_fn(char) -> bool) -> bool {
    c.text matches Some(ch) ==> ok(ch)
}

/// Every character on the canvas is ASCII.
pub open spec fn canvas_in(cv: Seq<Seq<Cell>>, ok: spec_fn(char) -> bool) -> bool {
    forall|y: int, x: int| 0 <= y < cv.len() && 0 <= x < cv[y].len() ==> cell_in(#[trigger] cv[y][x], ok)
}

proof fn lemma_set_cell(cv: Seq<Seq<Cell>>, w: int, y: int, x: int, c: Cell, ok: spec_fn(char) -> bool)
    requires
        basic(ok),
        canvas_in(cv, ok),
        cell_in(c, ok),
    ensures
        canvas_in(set_cell(cv, w, y, x, c), ok),
        set_cell(cv, w, y, x, c).len() == cv.len(),
{
    let r = set_cell(cv, w, y, x, c);
    assert forall|i: int, j: int| 0 <= i < r.len() && 0 <= j < r[i].len() implies cell_in(#[trigger] r[i][j], ok) by {
        if 0 <= y < cv.len() && 0 <= x < w && x < cv[y].len() {
            if i == y {
                if j != x {
                    assert(r[i][j] == cv[i][j]);
                }
            } else {
                assert(r[i] == cv[i]);
            }
        }
    }
}

proof fn lemma_clear_cell(cv: Seq<Seq<Cell>>, w: int, y: int, x: int, ok: spec_fn(char) -> bool)
    requires
        basic(ok),
        canvas_in(cv, ok),
    ensures
        canvas_in(clear_cell(cv, w, y, x), ok),
        clear_cell(cv, w, y, x).len() == cv.len(),
{
    let r = clear_cell(cv, w, y, x);
    assert forall|i: int, j: int| 0 <= i < r.len() && 0 <= j < r[i].len() implies cell_in(#[trigger] r[i][j], ok) by {
        if 0 <= y < cv.len() && 0 <= x < w && x < cv[y].len() {
            if i == y {
                if j != x {
                    assert(r[i][j] == cv[i][j]);
                }
            } else {
                assert(r[i] == cv[i]);
            }
        }
    }
}

proof fn lemma_hline(cv: Seq<Seq<Cell>>, w: int, y: int, x0: int, x1: int, c: Cell, ok: spec_fn(char) -> bool)
    requires
        basic(ok),
        canvas_in(cv, ok),
        cell_in(c, ok),
    ensures
        canvas_in(hline(cv, w, y, x0, x1, c), ok),
        hline(cv, w, y, x0, x1, c).len() == cv.len(),
    decreases x1 - x0,
{
    if x1 > x0 {
        lemma_hline(cv, w, y, x0, x1 - 1, c, ok);
        lemma_set_cell(hline(cv, w, y, x0, x1 - 1, c), w, y, x1 - 1, c, ok);
    }
}

proof fn lemma_clear_run(cv: Seq<Seq<Cell>>, w: int, y: int, x0: int, x1: int, ok: spec_fn(char) -> bool)
    requires
        basic(ok),
        canvas_in(cv, ok),
    ensures
        canvas_in(clear_run(cv, w, y, x0, x1), ok),
        clear_run(cv, w, y, x0, x1).len() == cv.len(),
    decreases x1 - x0,
{
    if x1 > x0 {
        lemma_clear_run(cv, w, y, x0, x1 - 1, ok);
        lemma_clear_cell(clear_run(cv, w, y, x0, x1 - 1), w, y, x1 - 1, ok);
    }
}

proof fn lemma_sides(cv: Seq<Seq<Cell>>, w: int, y0: int, y1: int, x0: int, x1: int, c: Cell, ok: spec_fn(char) -> bool)
    requires
        basic(ok),
        canvas_in(cv, ok),
        cell_in(c, ok),
    ensures
        canvas_in(sides(cv, w, y0, y1, x0, x1, c), ok),
        sides(cv, w, y0, y1, x0, x1, c).len() == cv.len(),
    decreases y1 - y0,
{
    if y1 > y0 {
        lemma_sides(cv, w, y0, y1 - 1, x0, x1, c, ok);
        let c1 = sides(cv, w, y0, y1 - 1, x0, x1, c);
        lemma_set_cell(c1, w, y1 - 1, x0, c, ok);
        lemma_set_cell(set_cell(c1, w, y1 - 1, x0, c), w, y1 - 1, x1, c, ok);
    }
}

proof fn lemma_write_text(cv: Seq<Seq<Cell>>, w: int, y: int, x: int, s: Seq<char>, role: Role, ok: spec_fn(char) -> bool)
    requires
        basic(ok),
        canvas_in(cv, ok),
        text_in(s, ok),
    ensures
        canvas_in(write_text(cv, w, y, x, s, role), ok),
        write_text(cv, w, y, x, s, role).len() == cv.len(),
    decreases s.len(),
{
    if s.len() > 0 && x < w {
        let cw = crate::render::canvas::cell_w(s[0]);
        lemma_set_cell(cv, w, y, x, glyph(s[0], role), ok);
        lemma_clear_run(set_cell(cv, w, y, x, glyph(s[0], role)), w, y, x + 1, x + cw, ok);
        let c1 = clear_run(set_cell(cv, w, y, x, glyph(s[0], role)), w, y, x + 1, x + cw);
        lemma_text_sub(s, 1, s.len() as int, ok);
        assert(s.drop_first() == s.subrange(1, s.len() as int));
        lemma_write_text(c1, w, y, x + cw, s.drop_first(), role, ok);
    }
}

proof fn lemma_grow(cv: Seq<Seq<Cell>>, w: int, h: int, ok: spec_fn(char) -> bool)
    requires
        basic(ok),
        canvas_in(cv, ok),
    ensures
        canvas_in(grow(cv, w, h), ok),
        grow(cv, w, h).len() >= cv.len(),
{
    let r = grow(cv, w, h);
    assert forall|i: int, j: int| 0 <= i < r.len() && 0 <= j < r[i].len() implies cell_in(#[trigger] r[i][j], ok) by {
        if i >= cv.len() {
            assert(r[i] == Seq::new(w as nat, |k: int| blank()));
        } else {
            assert(r[i] == cv[i]);
        }
    }
}

proof fn lemma_draw_node(cv: Seq<Seq<Cell>>, w: int, p: Position, label: Seq<char>, ok: spec_fn(char) -> bool, ascii: bool)
    requires
        basic(ok),
        glyphs_in(ok, ascii),
        canvas_in(cv, ok),
        text_in(label, ok),
    ensures
        canvas_in(draw_node(cv, w, p, label, ascii), ok),
{
    let bc = box_chars(ascii);
    let px = p.x as int;
    let py = p.y as int;
    let bw = p.width as int;
    let bh = p.height as int;
    let c0 = grow(cv, w, crate::arith::sat_add(crate::arith::sat_add(py, bh), 2));
    lemma_grow(cv, w, crate::arith::sat_add(crate::arith::sat_add(py, bh), 2), ok);
    let right = crate::arith::sat_add(px, bw) - 1;
    let nf = Role::NodeFg;
    lemma_set_cell(c0, w, py, px, glyph(bc.top_left, nf), ok);
    let t0 = set_cell(c0, w, py, px, glyph(bc.top_left, nf));
    lemma_hline(t0, w, py, px + 1, right, glyph(bc.horizontal, nf), ok);
    lemma_set_cell(hline(t0, w, py, px + 1, right, glyph(bc.horizontal, nf)), w, py, right, glyph(bc.top_right, nf), ok);
    let c1 = if crate::arith::sat_add(px, bw) < w {
        set_cell(hline(t0, w, py, px + 1, right, glyph(bc.horizontal, nf)), w, py, right, glyph(bc.top_right, nf))
    } else {
        c0
    };
    let bottom = crate::arith::sat_add(py, bh);
    lemma_set_cell(c1, w, bottom, px, glyph(bc.bottom_left, nf), ok);
    let b0 = set_cell(c1, w, bottom, px, glyph(bc.bottom_left, nf));
    lemma_hline(b0, w, bottom, px + 1, right, glyph(bc.horizontal, nf), ok);
    lemma_set_cell(
        hline(b0, w, bottom, px + 1, right, glyph(bc.horizontal, nf)),
        w,
        bottom,
        right,
        glyph(bc.bottom_right, nf),
        ok,
    );
    let c2 = if bottom < c1.len() && crate::arith::sat_add(px, bw) < w {
        set_cell(hline(b0, w, bottom, px + 1, right, glyph(bc.horizontal, nf)), w, bottom, right, glyph(bc.bottom_right, nf))
    } else {
        c1
    };
    lemma_sides(c2, w, py + 1, bottom, px, right, glyph(bc.vertical, nf), ok);
    let c3 = sides(c2, w, py + 1, bottom, px, right, glyph(bc.vertical, nf));
    lemma_pad(label, bw - 2, false, ok);
    lemma_write_text(c3, w, py + bh / 2, px + 1, pad(label, bw - 2, false), nf, ok);
}

proof fn lemma_line(cv: Seq<Seq<Cell>>, w: int, y: int, x: int, add: u8, ok: spec_fn(char) -> bool, ascii: bool)
    requires
        basic(ok),
        glyphs_in(ok, ascii),
        canvas_in(cv, ok),
    ensures
        canvas_in(line(cv, w, y, x, add, ascii), ok),
        line(cv, w, y, x, add, ascii).len() == cv.len(),
{
    if 0 <= y < cv.len() && 0 <= x < w && x < cv[y].len() {
        if let Some(c) = cv[y][x].text {
            if let Some(base) = crate::render::canvas::glyph_mask(c) {
                assert(ok(mask_glyph(base | add, ascii)));
                lemma_set_cell(cv, w, y, x, glyph(mask_glyph(base | add, ascii), Role::Edge), ok);
            } else {
                assert(ok(mask_glyph(add, ascii)));
                lemma_set_cell(cv, w, y, x, glyph(mask_glyph(add, ascii), Role::Edge), ok);
            }
        }
    }
}

proof fn lemma_hrun(cv: Seq<Seq<Cell>>, w: int, y: int, x0: int, x1: int, add: u8, ok: spec_fn(char) -> bool, ascii: bool)
    requires
        basic(ok),
        glyphs_in(ok, ascii),
        canvas_in(cv, ok),
    ensures
        canvas_in(hrun(cv, w, y, x0, x1, add, ascii), ok),
        hrun(cv, w, y, x0, x1, add, ascii).len() == cv.len(),
    decreases x1 - x0,
{
    if x1 > x0 {
        lemma_hrun(cv, w, y, x0, x1 - 1, add, ok, ascii);
        lemma_line(hrun(cv, w, y, x0, x1 - 1, add, ascii), w, y, x1 - 1, add, ok, ascii);
    }
}

proof fn lemma_vrun(cv: Seq<Seq<Cell>>, w: int, y0: int, y1: int, x: int, add: u8, ok: spec_fn(char) -> bool, ascii: bool)
    requires
        basic(ok),
        glyphs_in(ok, ascii),
        canvas_in(cv, ok),
    ensures
        canvas_in(vrun(cv, w, y0, y1, x, add, ascii), ok),
        vrun(cv, w, y0, y1, x, add, ascii).len() == cv.len(),
    decreases y1 - y0,
{
    if y1 > y0 {
        lemma_vrun(cv, w, y0, y1 - 1, x, add, ok, ascii);
        lemma_line(vrun(cv, w, y0, y1 - 1, x, add, ascii), w, y1 - 1, x, add, ok, ascii);
    }
}

proof fn lemma_write_label(cv: Seq<Seq<Cell>>, w: int, y: int, x: int, s: Seq<char>, limit: int, ok: spec_fn(char) -> bool)
    requires
        basic(ok),
        canvas_in(cv, ok),
        text_in(s, ok),
    ensures
        canvas_in(write_label(cv, w, y, x, s, limit), ok),
    decreases s.len(),
{
    if !(s.len() == 0 || x + crate::render::canvas::cell_w(s[0]) > limit || x >= w) {
        let cw = crate::render::canvas::cell_w(s[0]);
        lemma_set_cell(cv, w, y, x, glyph(s[0], Role::EdgeLabel), ok);
        lemma_clear_run(set_cell(cv, w, y, x, glyph(s[0], Role::EdgeLabel)), w, y, x + 1, x + cw, ok);
        let c1 = if crate::render::canvas::overwritable(crate::render::canvas::cell_at(cv, y, x)) {
            clear_run(set_cell(cv, w, y, x, glyph(s[0], Role::EdgeLabel)), w, y, x + 1, x + cw)
        } else {
            cv
        };
        lemma_text_sub(s, 1, s.len() as int, ok);
        assert(s.drop_first() == s.subrange(1, s.len() as int));
        lemma_write_label(c1, w, y, x + cw, s.drop_first(), limit, ok);
    }
}

proof fn lemma_edge_wire(cv: Seq<Seq<Cell>>, w: int, from: Position, to: Position, ok: spec_fn(char) -> bool, ascii: bool)
    requires
        basic(ok),
        glyphs_in(ok, ascii),
        canvas_in(cv, ok),
    ensures
        canvas_in(edge_wire(cv, w, from, to, ascii).0, ok),
        edge_wire(cv, w, from, to, ascii).0.len() == cv.len(),
{
    let (arrow_r, arrow_l) = arrows(ascii);
    let from_x = crate::arith::sat_add(from.x as int, from.width as int);
    let from_y = crate::arith::sat_add(from.y as int, from.height as int / 2);
    let to_x = to.x as int;
    let to_y = crate::arith::sat_add(to.y as int, to.height as int / 2);
    if to_x <= from_x {
        lemma_hrun(cv, w, from_y, to_x, from_x, 10, ok, ascii);
        lemma_set_cell(hrun(cv, w, from_y, to_x, from_x, 10, ascii), w, to_y, to_x + 1, glyph(arrow_l, Role::Edge), ok);
    } else if to_y == from_y {
        lemma_hrun(cv, w, from_y, from_x, to_x - 1, 10, ok, ascii);
        lemma_set_cell(hrun(cv, w, from_y, from_x, to_x - 1, 10, ascii), w, to_y, to_x - 1, glyph(arrow_r, Role::Edge), ok);
    } else {
        let turn_x = if from_x + 2 <= to_x - 1 { from_x + 2 } else { to_x - 1 };
        let down = to_y > from_y;
        let vert: u8 = if down { 4 } else { 1 };
        let vs = if down { from_y } else { to_y };
        let ve = if down { to_y } else { from_y };
        let arrive: u8 = if down { 1 } else { 4 };
        lemma_hrun(cv, w, from_y, from_x, turn_x, 10, ok, ascii);
        let c1 = hrun(cv, w, from_y, from_x, turn_x, 10, ascii);
        lemma_line(c1, w, from_y, turn_x, 8u8 | vert, ok, ascii);
        let c2 = line(c1, w, from_y, turn_x, 8u8 | vert, ascii);
        lemma_vrun(c2, w, vs + 1, ve, turn_x, 5, ok, ascii);
        let c3 = vrun(c2, w, vs + 1, ve, turn_x, 5, ascii);
        lemma_line(c3, w, to_y, turn_x, arrive | 2u8, ok, ascii);
        let c4 = line(c3, w, to_y, turn_x, arrive | 2u8, ascii);
        lemma_hrun(c4, w, to_y, turn_x + 1, to_x - 1, 10, ok, ascii);
        let c5 = hrun(c4, w, to_y, turn_x + 1, to_x - 1, 10, ascii);
        lemma_set_cell(c5, w, to_y, to_x - 1, glyph(arrow_r, Role::Edge), ok);
    }
}

proof fn lemma_draw_edge(cv: Seq<Seq<Cell>>, w: int, from: Position, to: Position, label: Option<Seq<char>>, ok: spec_fn(char) -> bool, ascii: bool)
    requires
        basic(ok),
        glyphs_in(ok, ascii),
        canvas_in(cv, ok),
        label matches Some(l) ==> text_in(l, ok),
    ensures
        canvas_in(draw_edge(cv, w, from, to, label, ascii), ok),
{
    lemma_edge_wire(cv, w, from, to, ok, ascii);
    let (c, ly, lx) = edge_wire(cv, w, from, to, ascii);
    let from_x = crate::arith::sat_add(from.x as int, from.width as int);
    let hi = if to.x as int >= from_x { to.x as int } else { from_x };
    let limit = if hi >= 1 { hi - 1 } else { 0 };
    if let Some(l) = label {
        lemma_write_label(c, w, ly, lx, l, limit, ok);
    }
}

proof fn lemma_draw_nodes(cv: Seq<Seq<Cell>>, w: int, nodes: Seq<NodeV>, pos: Seq<(Seq<char>, Position)>, ok: spec_fn(char) -> bool, ascii: bool)
    requires
        basic(ok),
        glyphs_in(ok, ascii),
        canvas_in(cv, ok),
        forall|i: int| 0 <= i < nodes.len() ==> node_in(#[trigger] nodes[i], ok),
    ensures
        canvas_in(draw_nodes(cv, w, nodes, pos, ascii), ok),
    decreases nodes.len(),
{
    if nodes.len() > 0 {
        assert(node_in(nodes[nodes.len() - 1], ok));
        lemma_draw_nodes(cv, w, nodes.drop_last(), pos, ok, ascii);
        if let Some(p) = pm_get(pos, nodes.last().id) {
            lemma_draw_node(draw_nodes(cv, w, nodes.drop_last(), pos, ascii), w, p, nodes.last().label, ok, ascii);
        }
    }
}

proof fn lemma_draw_edges(cv: Seq<Seq<Cell>>, w: int, edges: Seq<EdgeV>, pos: Seq<(Seq<char>, Position)>, ok: spec_fn(char) -> bool, ascii: bool)
    requires
        basic(ok),
        glyphs_in(ok, ascii),
        canvas_in(cv, ok),
        forall|i: int| 0 <= i < edges.len() ==> edge_in(#[trigger] edges[i], ok),
    ensures
        canvas_in(draw_edges(cv, w, edges, pos, ascii), ok),
    decreases edges.len(),
{
    if edges.len() > 0 {
        let e = edges.last();
        assert(edge_in(edges[edges.len() - 1], ok));
        lemma_draw_edges(cv, w, edges.drop_last(), pos, ok, ascii);
        if let (Some(a), Some(b)) = (pm_get(pos, e.from), pm_get(pos, e.to)) {
            lemma_draw_edge(draw_edges(cv, w, edges.drop_last(), pos, ascii), w, a, b, e.label, ok, ascii);
        }
    }
}

// ---------------------------------------------------------------- canvas rows

/// Every character of a row of cells is ASCII.
pub open spec fn pairs_in(s: Seq<(char, Role)>, ok: spec_fn(char) -> bool) -> bool {
    forall|i: int| 0 <= i < s.len() ==> ok(#[trigger] s[i].0)
}

proof fn lemma_row_cells(row: Seq<Cell>, ok: spec_fn(char) -> bool)
    requires
        basic(ok),
        forall|x: int| 0 <= x < row.len() ==> cell_in(#[trigger] row[x], ok),
    ensures
        pairs_in(row_cells(row), ok),
    decreases row.len(),
{
    if row.len() > 0 {
        assert(cell_in(row[row.len() - 1], ok));
        lemma_row_cells(row.drop_last(), ok);
    }
}

proof fn lemma_trim_cells(s: Seq<(char, Role)>, ok: spec_fn(char) -> bool)
    requires
        basic(ok),
        pairs_in(s, ok),
    ensures
        pairs_in(trim_cells(s), ok),
    decreases s.len(),
{
    if s.len() > 0 && crate::text::is_ws(s.last().0) {
        lemma_trim_cells(s.drop_last(), ok);
    }
}

proof fn lemma_runs(s: Seq<(char, Role)>, ok: spec_fn(char) -> bool)
    requires
        basic(ok),
        pairs_in(s, ok),
    ensures
        spans_in(runs(s), ok),
    decreases s.len(),
{
    if s.len() > 0 {
        assert(ok(s[s.len() - 1].0));
        lemma_runs(s.drop_last(), ok);
        let r = runs(s.drop_last());
        let c = s.last().0;
        if r.len() > 0 && r.last().role == s.last().1 {
            assert(text_in(r[r.len() - 1].text, ok));
            lemma_text_add(r.last().text, seq![c], ok);
            assert(r.last().text.push(c) == r.last().text + seq![c]);
            let q = r.drop_last().push(span(r.last().text.push(c), s.last().1));
            assert forall|i: int| 0 <= i < q.len() implies text_in(#[trigger] q[i].text, ok) by {
                if i < r.len() - 1 {
                    assert(q[i] == r[i]);
                }
            }
        } else {
            let q = r.push(span(seq![c], s.last().1));
            assert forall|i: int| 0 <= i < q.len() implies text_in(#[trigger] q[i].text, ok) by {
                if i < r.len() {
                    assert(q[i] == r[i]);
                }
            }
        }
    }
}

proof fn lemma_kept(lines: Seq<Seq<(char, Role)>>, ok: spec_fn(char) -> bool)
    requires
        basic(ok),
        forall|i: int| 0 <= i < lines.len() ==> pairs_in(#[trigger] lines[i], ok),
    ensures
        forall|i: int| 0 <= i < kept(lines).len() ==> pairs_in(#[trigger] kept(lines)[i], ok),
    decreases lines.len(),
{
    if lines.len() > 0 && lines.last().len() == 0 {
        assert forall|i: int| 0 <= i < lines.drop_last().len() implies pairs_in(#[trigger] lines.drop_last()[i], ok) by {
            assert(lines.drop_last()[i] == lines[i]);
        }
        lemma_kept(lines.drop_last(), ok);
        assert(kept(lines) == kept(lines.drop_last()));
    } else {
        assert(kept(lines) == lines);
    }
}

proof fn lemma_lines_doc(lines: Seq<Seq<(char, Role)>>, ok: spec_fn(char) -> bool)
    requires
        basic(ok),
        forall|i: int| 0 <= i < lines.len() ==> pairs_in(#[trigger] lines[i], ok),
    ensures
        spans_in(lines_doc(lines), ok),
    decreases lines.len(),
{
    if lines.len() > 0 {
        assert(pairs_in(lines[lines.len() - 1], ok));
        assert forall|i: int| 0 <= i < lines.drop_last().len() implies pairs_in(#[trigger] lines.drop_last()[i], ok) by {
            assert(lines.drop_last()[i] == lines[i]);
        }
        lemma_lines_doc(lines.drop_last(), ok);
        lemma_runs(lines.last(), ok);
        lemma_newline(ok);
        lemma_spans_add(lines_doc(lines.drop_last()), runs(lines.last()), ok);
        lemma_spans_add(lines_doc(lines.drop_last()) + runs(lines.last()), seq![newline()], ok);
    }
}

pub proof fn lemma_flowchart_doc(d: DiagramV, l: LayoutV, ok: spec_fn(char) -> bool, ascii: bool)
    requires
        basic(ok),
        glyphs_in(ok, ascii),
        diagram_in(d, ok),
    ensures
        spans_in(flowchart_doc(d, l, ascii), ok),
{
    let w = crate::render::canvas::canvas_width(l);
    let h = if l.height >= 20 { l.height } else { 20 };
    let c0 = Seq::new(h as nat, |i: int| Seq::new(w as nat, |j: int| blank()));
    assert(canvas_in(c0, ok));
    lemma_draw_nodes(c0, w, d.nodes, l.positions, ok, ascii);
    lemma_draw_edges(draw_nodes(c0, w, d.nodes, l.positions, ascii), w, d.edges, l.positions, ok, ascii);
    let cv = flow_canvas(d, l, ascii);
    let lines = cv.map_values(|row: Seq<Cell>| trim_cells(row_cells(row)));
    assert forall|i: int| 0 <= i < lines.len() implies pairs_in(#[trigger] lines[i], ok) by {
        assert forall|x: int| 0 <= x < cv[i].len() implies cell_in(#[trigger] cv[i][x], ok) by {}
        lemma_row_cells(cv[i], ok);
        lemma_trim_cells(row_cells(cv[i]), ok);
    }
    lemma_kept(lines, ok);
    lemma_lines_doc(kept(lines), ok);
}

// ---------------------------------------------------------------- color

proof fn lemma_decimal(n: nat, ok: spec_fn(char) -> bool)
    requires
        basic(ok),
    ensures
        text_in(decimal(n), ok),
{
    lemma_decimal_digits(n);
    assert forall|i: int| 0 <= i < decimal(n).len() implies ok(#[trigger] decimal(n)[i]) by {
        assert('0' <= decimal(n)[i] <= '9');
    }
}

proof fn lemma_fg_escape(c: Color, mode: ColorMode, ok: spec_fn(char) -> bool)
    requires
        basic(ok),
        ok('\x1b'),
    ensures
        text_in(fg_escape(c, mode), ok),
{
    reveal_strlit("\x1b[38;5;");
    reveal_strlit("\x1b[38;2;");
    reveal_strlit(";");
    reveal_strlit("m");
    lemma_decimal(ansi256(c) as nat, ok);
    lemma_decimal(c.r as nat, ok);
    lemma_decimal(c.g as nat, ok);
    lemma_decimal(c.b as nat, ok);
    let a = "\x1b[38;5;"@;
    let b = "\x1b[38;2;"@;
    assert(text_in(a, ok) && text_in(b, ok) && text_in(";"@, ok) && text_in("m"@, ok));
    match mode {
        ColorMode::NoColor => {},
        ColorMode::Ansi256 => {
            lemma_text_add(a, decimal(ansi256(c) as nat), ok);
            lemma_text_add(a + decimal(ansi256(c) as nat), "m"@, ok);
        },
        ColorMode::TrueColor => {
            let dr = decimal(c.r as nat);
            let dg = decimal(c.g as nat);
            let db = decimal(c.b as nat);
            lemma_text_add(b, dr, ok);
            lemma_text_add(b + dr, ";"@, ok);
            lemma_text_add(b + dr + ";"@, dg, ok);
            lemma_text_add(b + dr + ";"@ + dg, ";"@, ok);
            lemma_text_add(b + dr + ";"@ + dg + ";"@, db, ok);
            lemma_text_add(b + dr + ";"@ + dg + ";"@ + db, "m"@, ok);
        },
    }
}

proof fn lemma_paint(text: Seq<char>, c: Option<Color>, mode: ColorMode, ok: spec_fn(char) -> bool)
    requires
        basic(ok),
        ok('\x1b'),
        text_in(text, ok),
    ensures
        text_in(paint(text, c, mode), ok),
{
    if let Some(col) = c {
        reveal_strlit("\x1b[0m");
        assert(text_in(reset(), ok));
        lemma_fg_escape(col, mode, ok);
        lemma_text_add(fg_escape(col, mode), text, ok);
        lemma_text_add(fg_escape(col, mode) + text, reset(), ok);
    }
}

/// Colors add only escape sequences of printable ASCII after the escape
/// character: if `ok` holds those, it holds the output of spans it holds.
pub proof fn lemma_emit(doc: Seq<SpanV>, t: ThemeV, mode: ColorMode, ok: spec_fn(char) -> bool)
    requires
        basic(ok),
        ok('\x1b'),
        spans_in(doc, ok),
    ensures
        text_in(emit(doc, t, mode), ok),
    decreases doc.len(),
{
    if doc.len() > 0 {
        assert(text_in(doc[0].text, ok));
        assert forall|i: int| 0 <= i < doc.drop_first().len() implies text_in(#[trigger] doc.drop_first()[i].text, ok) by {
            assert(doc.drop_first()[i] == doc[i + 1]);
        }
        lemma_emit(doc.drop_first(), t, mode, ok);
        lemma_paint(doc[0].text, role_color(t, doc[0].role), mode, ok);
        lemma_text_add(paint(doc[0].text, role_color(t, doc[0].role), mode), emit(doc.drop_first(), t, mode), ok);
    }
}

// ---------------------------------------------------------------- the laws

/// The spans of any diagram hold only glyphs of the mode, printable ASCII and
/// the diagram's own text.
pub proof fn lemma_diagram_doc(d: DiagramV, l: LayoutV, ok: spec_fn(char) -> bool, ascii: bool)
    requires
        basic(ok),
        glyphs_in(ok, ascii),
        diagram_in(d, ok),
    ensures
        spans_in(diagram_doc(d, l, ascii), ok),
{
    match d.diagram_type {
        crate::diagram::DiagramType::Sequence => lemma_sequence_doc(d.participants, d.edges, ok, ascii),
        crate::diagram::DiagramType::Class => lemma_class_doc(d.nodes, d.relationships, ok, ascii),
        crate::diagram::DiagramType::State => lemma_state_doc(d.edges, ok, ascii),
        crate::diagram::DiagramType::Pie => lemma_pie_doc(d.nodes, ok, ascii),
        crate::diagram::DiagramType::ER => lemma_er_doc(d.entities, d.relationships, ok, ascii),
        _ => lemma_flowchart_doc(d, l, ok, ascii),
    }
}

proof fn lemma_ascii_sets()
    ensures
        basic(ascii_chars()),
        glyphs_in(ascii_chars(), true),
        ascii_chars()('\x1b'),
{
    reveal_strlit("(*)");
    reveal_strlit("(o)");
    reveal_strlit(" -> ");
    assert forall|c: char| (' ' <= c <= '~' || c == '\n') implies #[trigger] ascii_chars()(c) by {}
}

proof fn lemma_non_escape_sets(ascii: bool)
    ensures
        basic(non_escape()),
        glyphs_in(non_escape(), ascii),
{
    reveal_strlit("(*)");
    reveal_strlit("(o)");
    reveal_strlit(" -> ");
    reveal_strlit("●");
    reveal_strlit("◉");
    reveal_strlit(" ──▶ ");
}

/// In ASCII mode, a diagram whose shown text is ASCII renders to ASCII only,
/// whatever its type, layout, theme and color mode: the output suits any
/// terminal.
pub proof fn law_ascii_mode_output(r: RendererV, d: DiagramV, l: LayoutV)
    requires
        r.ascii_only,
        diagram_in(d, ascii_chars()),
    ensures
        text_in(render_spec(r, d, l), ascii_chars()),
{
    lemma_ascii_sets();
    lemma_diagram_doc(d, l, ascii_chars(), true);
    lemma_emit(diagram_doc(d, l, true), r.theme, r.color_mode, ascii_chars());
}

/// When no shown text of the diagram holds an escape character, removing the
/// escape sequences from a colored render gives the monochrome render: color
/// never adds, drops or moves a character.
pub proof fn law_color_strips_for_plain_diagrams(r: RendererV, d: DiagramV, l: LayoutV)
    requires
        diagram_in(d, non_escape()),
    ensures
        strip_ansi(render_spec(r, d, l)) == render_spec(monochrome(r), d, l),
{
    let doc = diagram_doc(d, l, r.ascii_only);
    lemma_non_escape_sets(r.ascii_only);
    lemma_diagram_doc(d, l, non_escape(), r.ascii_only);
    assert(spans_no_esc(doc)) by {
        assert forall|i: int| 0 <= i < doc.len() implies no_esc(#[trigger] doc[i].text) by {
            assert(text_in(doc[i].text, non_escape()));
        }
    }
    law_strip_colored_output(doc, r.theme, r.color_mode);
    law_no_color_is_plain(doc, r.theme);
}

/// In ASCII mode, ASCII source renders to ASCII only, whatever the diagram
/// type, layout, theme and color mode.
pub proof fn law_ascii_source_output(r: RendererV, source: Seq<char>, l: LayoutV)
    requires
        r.ascii_only,
        text_in(source, ascii_chars()),
    ensures
        parse_mermaid_spec(source) matches Ok(d) ==> text_in(render_spec(r, d, l), ascii_chars()),
{
    lemma_ascii_sets();
    lemma_parse_mermaid_in(source, ascii_chars());
    if let Ok(d) = parse_mermaid_spec(source) {
        law_ascii_mode_output(r, d, l);
    }
}

/// For source without an escape character, the monochrome render holds no
/// escape character, and removing the escape sequences from a colored render
/// gives the monochrome render: color never adds, drops or moves a character.
pub proof fn law_escape_free_source(r: RendererV, source: Seq<char>, l: LayoutV)
    requires
        text_in(source, non_escape()),
    ensures
        parse_mermaid_spec(source) matches Ok(d) ==> {
            &&& no_esc(render_spec(monochrome(r), d, l))
            &&& strip_ansi(render_spec(r, d, l)) == render_spec(monochrome(r), d, l)
        },
{
    lemma_non_escape_sets(r.ascii_only);
    lemma_parse_mermaid_in(source, non_escape());
    if let Ok(d) = parse_mermaid_spec(source) {
        law_color_strips_for_plain_diagrams(r, d, l);
        let doc = diagram_doc(d, l, r.ascii_only);
        lemma_diagram_doc(d, l, non_escape(), r.ascii_only);
        assert(spans_no_esc(doc)) by {
            assert forall|i: int| 0 <= i < doc.len() implies no_esc(#[trigger] doc[i].text) by {
                assert(text_in(doc[i].text, non_escape()));
            }
        }
        law_plain_has_no_escape(doc);
        law_no_color_is_plain(doc, r.theme);
    }
}

} // verus!
