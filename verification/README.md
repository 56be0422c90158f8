# meraid

Render Mermaid diagrams as terminal text — flowcharts, sequence, class,
state, ER and pie diagrams — in Unicode or ASCII, optionally colored by
role. The library is written in Verus: every stage carries a contract over
character sequences and is proved against it.

## Layout

- `src/parser/` — Mermaid source to a `Diagram`, one module per diagram
  kind; each parser is specified as a fold over the source lines, with
  proofs that flowcharts, class diagrams and sequence diagrams come out as
  graphs (one node per id, every edge between known nodes), and (`chars.rs`)
  that a diagram shows only characters of its source besides printable
  ASCII.
- `src/layout/` — node positions: grid layouts, the state-diagram walk, and
  the flowchart layering with exact rational rows (`rational.rs`);
  `overlap.rs` proves that every node gets a box in the column of its layer
  and that boxes of one column are at least four lines apart.
- `src/render/` — each diagram type as a sequence of role-tagged spans
  (`canvas.rs` draws flowcharts cell by cell), emitted with or without ANSI
  color; `style.rs` proves that stripping the escapes from colored output
  gives the monochrome output, and `charset.rs` that a render holds only
  glyphs of its mode, printable ASCII and the diagram's own text (so ASCII
  mode writes ASCII for an ASCII diagram).
- `src/theme/` — palettes, 256-color quantization, ANSI helpers.
- `src/cli.rs` — the command line's decisions: color policy, JSON metadata,
  error hints.
- `src/text.rs`, `src/width.rs`, `src/arith.rs` — character-sequence
  primitives, display widths (from `unicode-width`), saturating arithmetic.
- `app/main.rs` — the `meraid` command: argument parsing, file and stdin
  input, environment detection and JSON output.

## Numbers

Pie slice values are read exactly as decimals (units of 10⁻⁹) and shares are
rounded on exact integers: bars half up, percentages half to even. Flowchart
rows are exact fractions; if a fraction would exceed 2⁶², rows fall back to
five lines per place within the layer.
