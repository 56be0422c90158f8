//! Render Mermaid diagrams as terminal text.
//!
//! The pipeline is `parse_mermaid` → `Layout::layout` → `Renderer::render`.
//! Every stage works on character sequences; the contracts state each stage
//! over the `@` views of its inputs and outputs.

pub mod arith;
pub mod cli;
pub mod diagram;
pub mod layout;
pub mod parser;
pub mod render;
pub mod text;
pub mod theme;
pub mod width;

pub use diagram::{Diagram, DiagramType, Edge, EdgeStyle, Node, NodeShape};
pub use layout::Layout;
pub use parser::{ParseError, parse_mermaid};
pub use render::Renderer;
pub use theme::{ColorMode, Theme, ThemeType};

use vstd::prelude::*;
use crate::diagram::DiagramV;
use crate::layout::{boxes_ok, layout_spec};
use crate::layout::flowchart::lemma_flowchart_boxes;
use crate::parser::parse_mermaid_spec;
use crate::render::{RendererV, law_color_off_ignores_theme, monochrome, render_spec, uses_canvas};
use crate::theme::{ThemeV, theme_spec};

verus! {

/// What a freshly made renderer with theme `t` is set up with.
pub open spec fn fresh_renderer(t: ThemeV) -> RendererV {
    RendererV { theme: t, ascii_only: false, padding_x: 4, padding_y: 1, color_mode: ColorMode::NoColor }
}

/// The text a source renders to with theme `t`, or why it does not parse.
pub open spec fn render_source(source: Seq<char>, t: ThemeV) -> Result<Seq<char>, ParseError> {
    match parse_mermaid_spec(source) {
        Ok(d) => Ok(render_spec(fresh_renderer(t), d, layout_spec(d))),
        Err(e) => Err(e),
    }
}

/// The layout a diagram gets is one the renderer can draw.
pub proof fn lemma_layout_drawable(d: DiagramV)
    ensures
        uses_canvas(d.diagram_type) ==> boxes_ok(layout_spec(d).positions),
{
    lemma_flowchart_boxes(d);
}

/// `render` and `render_with_theme` write uncolored text: whatever the theme,
/// a source renders to the same result.
pub proof fn law_render_ignores_theme(source: Seq<char>, t1: ThemeV, t2: ThemeV)
    ensures
        render_source(source, t1) == render_source(source, t2),
{
    if let Ok(d) = parse_mermaid_spec(source) {
        let r = fresh_renderer(t1);
        assert(monochrome(r) == r);
        assert(RendererV { theme: t2, ..monochrome(r) } == fresh_renderer(t2));
        law_color_off_ignores_theme(r, t2, d, layout_spec(d));
    }
}

/// Renders a Mermaid diagram with one of the built-in themes.
pub fn render(source: &str, theme_type: ThemeType) -> (r: Result<String, ParseError>)
    ensures
        match r {
            Ok(s) => render_source(source@, theme_spec(theme_type)) == Ok::<Seq<char>, ParseError>(s@),
            Err(e) => render_source(source@, theme_spec(theme_type)) == Err::<Seq<char>, ParseError>(e),
        },
{
    render_with_theme(source, Theme::get(theme_type))
}

/// Renders a Mermaid diagram with a theme of the caller's.
pub fn render_with_theme(source: &str, theme: Theme) -> (r: Result<String, ParseError>)
    ensures
        match r {
            Ok(s) => render_source(source@, theme@) == Ok::<Seq<char>, ParseError>(s@),
            Err(e) => render_source(source@, theme@) == Err::<Seq<char>, ParseError>(e),
        },
{
    let diagram = match parse_mermaid(source) {
        Ok(d) => d,
        Err(e) => {
            return Err(e);
        },
    };
    let layout = Layout::new(&diagram).layout();
    proof {
        lemma_layout_drawable(diagram@);
    }
    let renderer = Renderer::new(theme);
    Ok(renderer.render(&diagram, &layout))
}

} // verus!
