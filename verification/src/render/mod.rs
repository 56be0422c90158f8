//! Terminal renderer for diagrams.
//!
//! Each diagram type is drawn as a sequence of spans, pieces of text tagged
//! with the role they play; the spans are then emitted with the theme's color
//! for each role, or plainly.

pub mod charset;
pub mod canvas;
pub mod lists;
pub mod ops;
pub mod pie;
pub mod sequence;
pub mod style;

use vstd::prelude::*;
use crate::diagram::{Diagram, DiagramType, DiagramV};
use crate::layout::{Layout, LayoutResult, LayoutV, boxes_ok, layout_spec};
use crate::render::canvas::{flow_lines, flowchart_doc, joined, law_flowchart_lines, render_flowchart};
use crate::text::is_ws;
use crate::render::lists::{
    class_box_width, class_doc, class_doc_lines, er_doc, law_class_doc_lines, render_class, render_er, render_state,
    state_doc,
};
use crate::render::pie::{pie_doc, render_pie};
use crate::render::sequence::{law_sequence_lines, render_sequence, sequence_doc, sequence_lines};
use crate::render::style::{
    SpanV, emit, emit_of, lemma_plain_no_esc, law_default_theme_is_plain, law_no_color_is_plain,
    law_strip_colored_output, no_esc, plain, strip_ansi,
};
use crate::text::string_of;
use crate::theme::{ColorMode, Theme, ThemeType, ThemeV, theme_spec};

verus! {

/// What a renderer is set up with.
pub struct RendererV {
    pub theme: ThemeV,
    pub ascii_only: bool,
    pub padding_x: usize,
    pub padding_y: usize,
    pub color_mode: ColorMode,
}

/// Renderer for terminal output.
pub struct Renderer {
    theme: Theme,
    ascii_only: bool,
    padding_x: usize,
    padding_y: usize,
    color_mode: ColorMode,
}

impl View for Renderer {
    type V = RendererV;

    closed spec fn view(&self) -> RendererV {
        RendererV {
            theme: self.theme@,
            ascii_only: self.ascii_only,
            padding_x: self.padding_x,
            padding_y: self.padding_y,
            color_mode: self.color_mode,
        }
    }
}

/// The diagram types drawn on a canvas from their layout; the others are
/// drawn as text from the diagram alone.
pub open spec fn uses_canvas(t: DiagramType) -> bool {
    !(t == DiagramType::Sequence || t == DiagramType::Class || t == DiagramType::State || t
        == DiagramType::Pie || t == DiagramType::ER)
}

/// The spans of a diagram, by its type; types without a renderer of their
/// own are drawn as flowcharts.
pub open spec fn diagram_doc(d: DiagramV, l: LayoutV, ascii: bool) -> Seq<SpanV> {
    match d.diagram_type {
        DiagramType::Sequence => sequence_doc(d.participants, d.edges, ascii),
        DiagramType::Class => class_doc(d.nodes, d.relationships, ascii),
        DiagramType::State => state_doc(d.edges, ascii),
        DiagramType::Pie => pie_doc(d.nodes, ascii),
        DiagramType::ER => er_doc(d.entities, d.relationships, ascii),
        _ => flowchart_doc(d, l, ascii),
    }
}

/// The text a renderer set up as `r` produces.
pub open spec fn render_spec(r: RendererV, d: DiagramV, l: LayoutV) -> Seq<char> {
    emit(diagram_doc(d, l, r.ascii_only), r.theme, r.color_mode)
}

/// `r` with color turned off.
pub open spec fn monochrome(r: RendererV) -> RendererV {
    RendererV { color_mode: ColorMode::NoColor, ..r }
}

/// With color off, a render is exactly the text of its spans: nothing is
/// added, whatever the theme.
pub proof fn law_color_off_is_plain(r: RendererV, d: DiagramV, l: LayoutV)
    ensures
        render_spec(monochrome(r), d, l) == plain(diagram_doc(d, l, r.ascii_only)),
{
    law_no_color_is_plain(diagram_doc(d, l, r.ascii_only), r.theme);
}

/// With color off, the theme makes no difference.
pub proof fn law_color_off_ignores_theme(r: RendererV, t: ThemeV, d: DiagramV, l: LayoutV)
    ensures
        render_spec(monochrome(r), d, l) == render_spec(RendererV { theme: t, ..monochrome(r) }, d, l),
{
    law_no_color_is_plain(diagram_doc(d, l, r.ascii_only), r.theme);
    law_no_color_is_plain(diagram_doc(d, l, r.ascii_only), t);
}

/// Removing the escape sequences from a colored render gives the monochrome
/// render: color never adds, drops or moves a character. This holds when the
/// monochrome render itself holds no escape character.
pub proof fn law_color_strips_to_monochrome(r: RendererV, d: DiagramV, l: LayoutV)
    requires
        no_esc(render_spec(monochrome(r), d, l)),
    ensures
        strip_ansi(render_spec(r, d, l)) == render_spec(monochrome(r), d, l),
{
    let doc = diagram_doc(d, l, r.ascii_only);
    law_no_color_is_plain(doc, r.theme);
    lemma_plain_no_esc(doc);
    law_strip_colored_output(doc, r.theme, r.color_mode);
}

/// The default theme inherits the terminal's colors: in every color mode it
/// renders exactly the monochrome output.
pub proof fn law_default_theme_uncolored(r: RendererV, d: DiagramV, l: LayoutV)
    requires
        r.theme == theme_spec(ThemeType::Default),
    ensures
        render_spec(r, d, l) == render_spec(monochrome(r), d, l),
{
    let doc = diagram_doc(d, l, r.ascii_only);
    law_default_theme_is_plain(doc, r.color_mode);
    law_no_color_is_plain(doc, r.theme);
}

/// Uncolored flowchart output is the canvas lines, each followed by a
/// newline: no line ends in whitespace, and the last line is not empty.
pub proof fn law_flowchart_output(r: RendererV, d: DiagramV, l: LayoutV)
    requires
        r.color_mode == ColorMode::NoColor,
        uses_canvas(d.diagram_type),
    ensures
        render_spec(r, d, l) == joined(flow_lines(d, l, r.ascii_only)),
        forall|i: int| 0 <= i < flow_lines(d, l, r.ascii_only).len() ==> (#[trigger] flow_lines(d, l, r.ascii_only)[i]).len()
            == 0 || !is_ws(flow_lines(d, l, r.ascii_only)[i].last()),
        flow_lines(d, l, r.ascii_only).len() == 0 || flow_lines(d, l, r.ascii_only).last().len() > 0,
{
    assert(monochrome(r) == r);
    law_color_off_is_plain(r, d, l);
    law_flowchart_lines(d, l, r.ascii_only);
}

/// Uncolored class output: one box per class in order, each box's lines
/// (top, centred name, divider, fields, a second divider exactly when there
/// are both fields and methods, methods, bottom, blank line), with an inner
/// width of its widest line clamped to 16..=40; then one `from rel_type to`
/// line per relationship.
pub proof fn law_class_output(r: RendererV, d: DiagramV, l: LayoutV)
    requires
        r.color_mode == ColorMode::NoColor,
        d.diagram_type == DiagramType::Class,
    ensures
        render_spec(r, d, l) == joined(class_doc_lines(d.nodes, d.relationships, r.ascii_only)),
        forall|k: int| 0 <= k < d.nodes.len() ==> 16 <= #[trigger] class_box_width(d.nodes[k]) <= 40,
{
    assert(monochrome(r) == r);
    law_color_off_is_plain(r, d, l);
    law_class_doc_lines(d.nodes, d.relationships, r.ascii_only);
}

/// Uncolored sequence output is its lines, each followed by a newline: the
/// heads, the lifelines, an empty line, then one line per message (its arrow
/// line, then ` label` when the label is not empty); nothing at all without
/// participants.
pub proof fn law_sequence_output(r: RendererV, d: DiagramV, l: LayoutV)
    requires
        r.color_mode == ColorMode::NoColor,
        d.diagram_type == DiagramType::Sequence,
    ensures
        render_spec(r, d, l) == joined(sequence_lines(d.participants, d.edges, r.ascii_only)),
        sequence_lines(d.participants, d.edges, r.ascii_only).len() == if d.participants.len() == 0 {
            0
        } else {
            3 + d.edges.len()
        },
{
    assert(monochrome(r) == r);
    law_color_off_is_plain(r, d, l);
    law_sequence_lines(d.participants, d.edges, r.ascii_only);
}

/// In ASCII mode every glyph the renderers draw is ASCII: box corners, sides
/// and dividers, message arrows, pie bars, flowchart lines, junctions and
/// arrow heads.
pub proof fn law_ascii_glyphs(mask: u8)
    ensures
        ({
            let b = crate::render::lists::box_chars(true);
            &&& (b.top_left as u32) < 128 && (b.top_right as u32) < 128 && (b.bottom_left as u32) < 128
            &&& (b.bottom_right as u32) < 128 && (b.horizontal as u32) < 128 && (b.vertical as u32) < 128
        }),
        (crate::render::lists::dividers(true).0 as u32) < 128 && (crate::render::lists::dividers(true).1 as u32) < 128,
        ({
            let (a, b, c, d, e, f, g) = crate::render::sequence::seq_glyphs(true);
            &&& (a as u32) < 128 && (b as u32) < 128 && (c as u32) < 128 && (d as u32) < 128
            &&& (e as u32) < 128 && (f as u32) < 128 && (g as u32) < 128
        }),
        (crate::render::pie::pie_glyphs(true).0 as u32) < 128 && (crate::render::pie::pie_glyphs(true).1 as u32) < 128,
        (crate::render::canvas::arrows(true).0 as u32) < 128 && (crate::render::canvas::arrows(true).1 as u32) < 128,
        (crate::render::canvas::mask_glyph(mask, true) as u32) < 128,
{
}

impl Renderer {
    /// A renderer with Unicode glyphs, padding 4 by 1 and no color.
    pub fn new(theme: Theme) -> (r: Renderer)
        ensures
            r@ == (RendererV {
                theme: theme@,
                ascii_only: false,
                padding_x: 4,
                padding_y: 1,
                color_mode: ColorMode::NoColor,
            }),
    {
        Renderer { theme, ascii_only: false, padding_x: 4, padding_y: 1, color_mode: ColorMode::NoColor }
    }

    /// Draw with ASCII glyphs only, or not.
    pub fn ascii_only(self, ascii: bool) -> (r: Renderer)
        ensures
            r@ == (RendererV { ascii_only: ascii, ..self@ }),
    {
        Renderer { ascii_only: ascii, ..self }
    }

    /// Sets the padding.
    pub fn padding(self, x: usize, y: usize) -> (r: Renderer)
        ensures
            r@ == (RendererV { padding_x: x, padding_y: y, ..self@ }),
    {
        Renderer { padding_x: x, padding_y: y, ..self }
    }

    /// Sets the color mode: `NoColor` emits no escape sequences at all.
    pub fn color_mode(self, mode: ColorMode) -> (r: Renderer)
        ensures
            r@ == (RendererV { color_mode: mode, ..self@ }),
    {
        Renderer { color_mode: mode, ..self }
    }

    /// Renders a diagram from its layout.
    pub fn render(&self, diagram: &Diagram, layout: &LayoutResult) -> (r: String)
        requires
            uses_canvas(diagram@.diagram_type) ==> boxes_ok(layout@.positions),
        ensures
            r@ == render_spec(self@, diagram@, layout@),
    {
        let ascii = self.ascii_only;
        let doc = match diagram.diagram_type {
            DiagramType::Sequence => render_sequence(diagram, ascii),
            DiagramType::Class => render_class(diagram, ascii),
            DiagramType::State => render_state(diagram, ascii),
            DiagramType::Pie => render_pie(diagram, ascii),
            DiagramType::ER => render_er(diagram, ascii),
            _ => render_flowchart(diagram, layout, ascii),
        };
        let out = emit_of(&doc, &self.theme, self.color_mode);
        string_of(out.as_slice())
    }

    /// Lays a diagram out and renders it.
    pub fn render_diagram(&self, diagram: &Diagram) -> (r: String)
        ensures
            r@ == render_spec(self@, diagram@, layout_spec(diagram@)),
    {
        let layout = Layout::new(diagram).layout();
        proof {
            crate::layout::flowchart::lemma_flowchart_boxes(diagram@);
        }
        self.render(diagram, &layout)
    }
}

} // verus!
