//! Mermaid source to `Diagram`, one module per diagram kind.

pub mod chars;
pub mod class;
pub mod er;
pub mod flowchart;
pub mod pie;
pub mod sequence;
pub mod state;

use vstd::prelude::*;
use crate::diagram::{Diagram, DiagramType, DiagramV, is_empty_v};
use crate::parser::class::{parse_class, parse_class_of};
use crate::parser::er::{parse_er, parse_er_of};
use crate::parser::flowchart::{parse_flowchart, parse_flowchart_of};
use crate::parser::pie::{parse_pie, parse_pie_of};
use crate::parser::sequence::{parse_sequence, parse_sequence_of};
use crate::parser::state::{parse_state, parse_state_of};
use crate::text::{chars_of, concat, lines, lines_of, starts_with, starts_with_of, string_of, trim, trim_of};

verus! {

/// Why a source could not be parsed.
#[derive(Debug, Clone, Copy, PartialEq, Eq, Structural)]
pub enum ParseError {
    /// The first line names a diagram type that is not implemented.
    Unsupported(DiagramType),
    /// Nothing meaningful was parsed.
    Empty,
}

/// The first line of `s`, trimmed (empty when `s` has no lines).
pub open spec fn first_line(s: Seq<char>) -> Seq<char> {
    if lines(s).len() > 0 {
        trim(lines(s)[0])
    } else {
        Seq::empty()
    }
}

/// The diagram type that the keyword on the first line announces;
/// anything unrecognised is read as a flowchart.
pub open spec fn detect_diagram_type(s: Seq<char>) -> DiagramType {
    let l = first_line(s);
    if starts_with(l, "flowchart"@) || starts_with(l, "graph"@) {
        DiagramType::Flowchart
    } else if starts_with(l, "sequenceDiagram"@) {
        DiagramType::Sequence
    } else if starts_with(l, "classDiagram"@) {
        DiagramType::Class
    } else if starts_with(l, "stateDiagram"@) {
        DiagramType::State
    } else if starts_with(l, "erDiagram"@) {
        DiagramType::ER
    } else if starts_with(l, "pie"@) {
        DiagramType::Pie
    } else if starts_with(l, "gitGraph"@) {
        DiagramType::GitGraph
    } else if starts_with(l, "block-beta"@) {
        DiagramType::Block
    } else if starts_with(l, "treemap-beta"@) {
        DiagramType::Treemap
    } else {
        DiagramType::Flowchart
    }
}

/// A diagram type that has a parser.
pub open spec fn is_supported(t: DiagramType) -> bool {
    t == DiagramType::Flowchart || t == DiagramType::Sequence || t == DiagramType::Class || t
        == DiagramType::State || t == DiagramType::ER || t == DiagramType::Pie
}

/// The diagram that trimmed source `s` of supported type `t` describes.
pub open spec fn parse_as(t: DiagramType, s: Seq<char>) -> DiagramV {
    match t {
        DiagramType::Sequence => parse_sequence(s),
        DiagramType::Class => parse_class(s),
        DiagramType::State => parse_state(s),
        DiagramType::ER => parse_er(s),
        DiagramType::Pie => parse_pie(s),
        _ => parse_flowchart(s),
    }
}

/// What `parse_mermaid` gives for `source`: an unsupported type is refused,
/// and so is a diagram in which nothing was parsed.
pub open spec fn parse_mermaid_spec(source: Seq<char>) -> Result<DiagramV, ParseError> {
    let s = trim(source);
    let t = detect_diagram_type(s);
    if !is_supported(t) {
        Err(ParseError::Unsupported(t))
    } else if is_empty_v(parse_as(t, s)) {
        Err(ParseError::Empty)
    } else {
        Ok(parse_as(t, s))
    }
}

/// Parsing ignores whitespace around the source: `source` and its trimmed
/// form parse alike. A parsed diagram has the detected type and is not
/// empty.
pub proof fn law_parse_trimmed(source: Seq<char>)
    ensures
        parse_mermaid_spec(source) == parse_mermaid_spec(trim(source)),
        parse_mermaid_spec(source) matches Ok(d) ==> d.diagram_type == detect_diagram_type(trim(source))
            && !is_empty_v(d),
{
    crate::text::lemma_trim_idempotent(source);
}

fn first_line_of(s: &[char]) -> (r: Vec<char>)
    ensures
        r@ == first_line(s@),
{
    let ls = lines_of(s);
    if ls.len() > 0 {
        trim_of(ls[0].as_slice())
    } else {
        Vec::new()
    }
}

fn detect_diagram_type_of(s: &[char]) -> (r: DiagramType)
    ensures
        r == detect_diagram_type(s@),
{
    let l = first_line_of(s);
    let l = l.as_slice();
    let k_flow = chars_of("flowchart");
    let k_graph = chars_of("graph");
    let k_seq = chars_of("sequenceDiagram");
    let k_class = chars_of("classDiagram");
    let k_state = chars_of("stateDiagram");
    let k_er = chars_of("erDiagram");
    let k_pie = chars_of("pie");
    let k_git = chars_of("gitGraph");
    let k_block = chars_of("block-beta");
    let k_tree = chars_of("treemap-beta");
    if starts_with_of(l, k_flow.as_slice()) || starts_with_of(l, k_graph.as_slice()) {
        DiagramType::Flowchart
    } else if starts_with_of(l, k_seq.as_slice()) {
        DiagramType::Sequence
    } else if starts_with_of(l, k_class.as_slice()) {
        DiagramType::Class
    } else if starts_with_of(l, k_state.as_slice()) {
        DiagramType::State
    } else if starts_with_of(l, k_er.as_slice()) {
        DiagramType::ER
    } else if starts_with_of(l, k_pie.as_slice()) {
        DiagramType::Pie
    } else if starts_with_of(l, k_git.as_slice()) {
        DiagramType::GitGraph
    } else if starts_with_of(l, k_block.as_slice()) {
        DiagramType::Block
    } else if starts_with_of(l, k_tree.as_slice()) {
        DiagramType::Treemap
    } else {
        DiagramType::Flowchart
    }
}

/// Parses Mermaid source into a diagram.
///
/// Fails when the diagram type is unsupported, or when nothing meaningful was
/// parsed, so that callers can report a failure instead of rendering a blank
/// canvas.
pub fn parse_mermaid(source: &str) -> (r: Result<Diagram, ParseError>)
    ensures
        match r {
            Ok(d) => parse_mermaid_spec(source@) == Ok::<DiagramV, ParseError>(d@),
            Err(e) => parse_mermaid_spec(source@) == Err::<DiagramV, ParseError>(e),
        },
{
    let all = chars_of(source);
    let s = trim_of(all.as_slice());
    let t = detect_diagram_type_of(s.as_slice());
    let d = match t {
        DiagramType::Flowchart => parse_flowchart_of(s.as_slice()),
        DiagramType::Sequence => parse_sequence_of(s.as_slice()),
        DiagramType::Class => parse_class_of(s.as_slice()),
        DiagramType::State => parse_state_of(s.as_slice()),
        DiagramType::ER => parse_er_of(s.as_slice()),
        DiagramType::Pie => parse_pie_of(s.as_slice()),
        _ => return Err(ParseError::Unsupported(t)),
    };
    if d.is_empty() {
        return Err(ParseError::Empty);
    }
    Ok(d)
}

/// The name of a diagram type as `{:?}` prints it.
pub open spec fn kind_name(t: DiagramType) -> Seq<char> {
    match t {
        DiagramType::Flowchart => "Flowchart"@,
        DiagramType::Sequence => "Sequence"@,
        DiagramType::Class => "Class"@,
        DiagramType::State => "State"@,
        DiagramType::ER => "ER"@,
        DiagramType::Pie => "Pie"@,
        DiagramType::GitGraph => "GitGraph"@,
        DiagramType::Block => "Block"@,
        DiagramType::Treemap => "Treemap"@,
        DiagramType::Unknown => "Unknown"@,
    }
}

fn kind_name_of(t: DiagramType) -> (r: Vec<char>)
    ensures
        r@ == kind_name(t),
{
    match t {
        DiagramType::Flowchart => chars_of("Flowchart"),
        DiagramType::Sequence => chars_of("Sequence"),
        DiagramType::Class => chars_of("Class"),
        DiagramType::State => chars_of("State"),
        DiagramType::ER => chars_of("ER"),
        DiagramType::Pie => chars_of("Pie"),
        DiagramType::GitGraph => chars_of("GitGraph"),
        DiagramType::Block => chars_of("Block"),
        DiagramType::Treemap => chars_of("Treemap"),
        DiagramType::Unknown => chars_of("Unknown"),
    }
}

/// The text of an error report.
pub open spec fn error_message(e: ParseError) -> Seq<char> {
    match e {
        ParseError::Unsupported(t) => "unsupported diagram type: "@ + kind_name(t)
            + " is not implemented yet — supported types are graph/flowchart, sequenceDiagram, classDiagram, stateDiagram-v2, erDiagram, pie"@,
        ParseError::Empty => "empty diagram: no nodes, edges, or entities were parsed — check the diagram type keyword (graph, sequenceDiagram, classDiagram, stateDiagram-v2, erDiagram, pie) and the statement syntax"@,
    }
}

impl ParseError {
    /// The text of this error, as the command line reports it.
    pub fn message(&self) -> (r: String)
        ensures
            r@ == error_message(*self),
    {
        match self {
            ParseError::Unsupported(t) => {
                let a = chars_of("unsupported diagram type: ");
                let b = kind_name_of(*t);
                let c = chars_of(
                    " is not implemented yet — supported types are graph/flowchart, sequenceDiagram, classDiagram, stateDiagram-v2, erDiagram, pie",
                );
                let ab = concat(a.as_slice(), b.as_slice());
                let abc = concat(ab.as_slice(), c.as_slice());
                string_of(abc.as_slice())
            },
            ParseError::Empty => {
                let a = chars_of(
                    "empty diagram: no nodes, edges, or entities were parsed — check the diagram type keyword (graph, sequenceDiagram, classDiagram, stateDiagram-v2, erDiagram, pie) and the statement syntax",
                );
                string_of(a.as_slice())
            },
        }
    }
}

} // verus!
