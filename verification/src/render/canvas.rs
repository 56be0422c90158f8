//! A character canvas for flowcharts: boxes, elbow-routed edges whose
//! crossings merge into junction glyphs, and labels; every cell carries the
//! role it is colored by.

use vstd::prelude::*;
use crate::arith::{sadd, sat_add};
use crate::diagram::{Diagram, DiagramV, Edge, EdgeV, Node, NodeV};
use crate::layout::{LayoutResult, LayoutV, Position, boxes_ok, pm_get};
use crate::render::lists::{box_chars, box_chars_of};
use crate::render::ops::{pad, pad_string};
use crate::render::lists::newline;
use crate::render::style::{Role, Span, SpanV, plain, push_span, span, spans_v};
use crate::text::{char_is_ws, chars_of, is_ws};
use crate::width::{char_width, char_width_of};

verus! {

/// One terminal cell: a character, or nothing when a wide character to its
/// left covers it.
#[derive(Debug, Clone, Copy)]
pub struct Cell {
    pub text: Option<char>,
    pub role: Role,
}

pub open spec fn blank() -> Cell {
    Cell { text: Some(' '), role: Role::Plain }
}

pub open spec fn glyph(c: char, role: Role) -> Cell {
    Cell { text: Some(c), role }
}

/// A canvas: rows of cells.
pub type Canvas = Vec<Vec<Cell>>;

/// `cv` with cell `(y, x)` set to `c`, when it lies within width `w`.
pub open spec fn set_cell(cv: Seq<Seq<Cell>>, w: int, y: int, x: int, c: Cell) -> Seq<Seq<Cell>> {
    if 0 <= y < cv.len() && 0 <= x < w && x < cv[y].len() {
        cv.update(y, cv[y].update(x, c))
    } else {
        cv
    }
}

/// `cv` with its cell `(y, x)` emptied (a wide character covers it).
pub open spec fn clear_cell(cv: Seq<Seq<Cell>>, w: int, y: int, x: int) -> Seq<Seq<Cell>> {
    if 0 <= y < cv.len() && 0 <= x < w && x < cv[y].len() {
        cv.update(y, cv[y].update(x, Cell { text: None, ..cv[y][x] }))
    } else {
        cv
    }
}

/// Cells `x0 .. x1` of row `y` set to `c`.
pub open spec fn hline(cv: Seq<Seq<Cell>>, w: int, y: int, x0: int, x1: int, c: Cell) -> Seq<Seq<Cell>>
    decreases x1 - x0,
{
    if x1 <= x0 {
        cv
    } else {
        set_cell(hline(cv, w, y, x0, x1 - 1, c), w, y, x1 - 1, c)
    }
}

/// Cells `x0 .. x1` of row `y` emptied.
pub open spec fn clear_run(cv: Seq<Seq<Cell>>, w: int, y: int, x0: int, x1: int) -> Seq<Seq<Cell>>
    decreases x1 - x0,
{
    if x1 <= x0 {
        cv
    } else {
        clear_cell(clear_run(cv, w, y, x0, x1 - 1), w, y, x1 - 1)
    }
}

/// The columns a character takes on the canvas: its width, at least one.
pub open spec fn cell_w(c: char) -> int {
    match char_width(c) {
        Some(n) => if n >= 1 { n as int } else { 1 },
        None => 1,
    }
}

/// `s` written into row `y` from column `x`, each wide character emptying
/// the cells it covers; writing stops at the canvas width.
pub open spec fn write_text(cv: Seq<Seq<Cell>>, w: int, y: int, x: int, s: Seq<char>, role: Role) -> Seq<Seq<Cell>>
    decreases s.len(),
{
    if s.len() == 0 || x >= w {
        cv
    } else {
        let cw = cell_w(s[0]);
        let c1 = clear_run(set_cell(cv, w, y, x, glyph(s[0], role)), w, y, x + 1, x + cw);
        write_text(c1, w, y, x + cw, s.drop_first(), role)
    }
}

/// `cv` extended with blank rows of width `w` to at least `h` rows.
pub open spec fn grow(cv: Seq<Seq<Cell>>, w: int, h: int) -> Seq<Seq<Cell>> {
    if cv.len() < h {
        cv + Seq::new((h - cv.len()) as nat, |i: int| Seq::new(w as nat, |j: int| blank()))
    } else {
        cv
    }
}

/// The vertical sides of a box at columns `x0` and `x1`, rows `y0 .. y1`.
pub open spec fn sides(cv: Seq<Seq<Cell>>, w: int, y0: int, y1: int, x0: int, x1: int, c: Cell) -> Seq<Seq<Cell>>
    decreases y1 - y0,
{
    if y1 <= y0 {
        cv
    } else {
        let c1 = sides(cv, w, y0, y1 - 1, x0, x1, c);
        set_cell(set_cell(c1, w, y1 - 1, x0, c), w, y1 - 1, x1, c)
    }
}

/// A node box at `p` with its label centred on the middle row.
pub open spec fn draw_node(cv: Seq<Seq<Cell>>, w: int, p: Position, label: Seq<char>, ascii: bool) -> Seq<Seq<Cell>> {
    let bc = box_chars(ascii);
    let px = p.x as int;
    let py = p.y as int;
    let bw = p.width as int;
    let bh = p.height as int;
    let c0 = grow(cv, w, sat_add(sat_add(py, bh), 2));
    let right = sat_add(px, bw) - 1;
    let c1 = if sat_add(px, bw) < w {
        set_cell(
            hline(set_cell(c0, w, py, px, glyph(bc.top_left, Role::NodeFg)), w, py, px + 1, right, glyph(bc.horizontal, Role::NodeFg)),
            w,
            py,
            right,
            glyph(bc.top_right, Role::NodeFg),
        )
    } else {
        c0
    };
    let bottom = sat_add(py, bh);
    let c2 = if bottom < c1.len() && sat_add(px, bw) < w {
        set_cell(
            hline(set_cell(c1, w, bottom, px, glyph(bc.bottom_left, Role::NodeFg)), w, bottom, px + 1, right, glyph(bc.horizontal, Role::NodeFg)),
            w,
            bottom,
            right,
            glyph(bc.bottom_right, Role::NodeFg),
        )
    } else {
        c1
    };
    let c3 = sides(c2, w, py + 1, bottom, px, right, glyph(bc.vertical, Role::NodeFg));
    let label_y = py + bh / 2;
    if label_y < c3.len() {
        write_text(c3, w, label_y, px + 1, pad(label, bw - 2, false), Role::NodeFg)
    } else {
        c3
    }
}


// ---------------------------------------------------------------- edges

/// The directions a line glyph connects: north 1, east 2, south 4, west 8.
pub open spec fn glyph_mask(c: char) -> Option<u8> {
    if c == '─' || c == '-' {
        Some(10u8)
    } else if c == '│' || c == '|' {
        Some(5u8)
    } else if c == '┌' {
        Some(6u8)
    } else if c == '┐' {
        Some(12u8)
    } else if c == '└' {
        Some(3u8)
    } else if c == '┘' {
        Some(9u8)
    } else if c == '├' {
        Some(7u8)
    } else if c == '┤' {
        Some(13u8)
    } else if c == '┬' {
        Some(14u8)
    } else if c == '┴' {
        Some(11u8)
    } else if c == '┼' || c == '+' {
        Some(15u8)
    } else {
        None
    }
}

/// The glyph that connects the directions of `mask`.
pub open spec fn mask_glyph(mask: u8, ascii: bool) -> char {
    if ascii {
        if mask == 0 {
            ' '
        } else if mask == 10 {
            '-'
        } else if mask == 5 {
            '|'
        } else {
            '+'
        }
    } else if mask == 10 {
        '─'
    } else if mask == 5 {
        '│'
    } else if mask == 6 {
        '┌'
    } else if mask == 12 {
        '┐'
    } else if mask == 3 {
        '└'
    } else if mask == 9 {
        '┘'
    } else if mask == 7 {
        '├'
    } else if mask == 13 {
        '┤'
    } else if mask == 14 {
        '┬'
    } else if mask == 11 {
        '┴'
    } else if mask == 15 {
        '┼'
    } else if mask == 2 || mask == 8 {
        '─'
    } else if mask == 1 || mask == 4 {
        '│'
    } else {
        ' '
    }
}

/// The cell at `(y, x)`, if there is one.
pub open spec fn cell_at(cv: Seq<Seq<Cell>>, y: int, x: int) -> Option<Cell> {
    if 0 <= y < cv.len() && 0 <= x < cv[y].len() {
        Some(cv[y][x])
    } else {
        None
    }
}

/// Adds the directions `add` to the line at `(y, x)`: a line glyph merges into
/// the matching junction, a blank takes the plain line, anything else stays.
pub open spec fn line(cv: Seq<Seq<Cell>>, w: int, y: int, x: int, add: u8, ascii: bool) -> Seq<Seq<Cell>> {
    if 0 <= y < cv.len() && 0 <= x < w && x < cv[y].len() {
        match cv[y][x].text {
            Some(c) => match glyph_mask(c) {
                Some(base) => set_cell(cv, w, y, x, glyph(mask_glyph(base | add, ascii), Role::Edge)),
                None => if c == ' ' {
                    set_cell(cv, w, y, x, glyph(mask_glyph(add, ascii), Role::Edge))
                } else {
                    cv
                },
            },
            None => cv,
        }
    } else {
        cv
    }
}

/// Lines across columns `x0 .. x1` of row `y`.
pub open spec fn hrun(cv: Seq<Seq<Cell>>, w: int, y: int, x0: int, x1: int, add: u8, ascii: bool) -> Seq<Seq<Cell>>
    decreases x1 - x0,
{
    if x1 <= x0 {
        cv
    } else {
        line(hrun(cv, w, y, x0, x1 - 1, add, ascii), w, y, x1 - 1, add, ascii)
    }
}

/// Lines down rows `y0 .. y1` of column `x`.
pub open spec fn vrun(cv: Seq<Seq<Cell>>, w: int, y0: int, y1: int, x: int, add: u8, ascii: bool) -> Seq<Seq<Cell>>
    decreases y1 - y0,
{
    if y1 <= y0 {
        cv
    } else {
        line(vrun(cv, w, y0, y1 - 1, x, add, ascii), w, y1 - 1, x, add, ascii)
    }
}

/// A cell an edge label may be written over: blank, or a straight line.
pub open spec fn overwritable(c: Option<Cell>) -> bool {
    match c {
        Some(cell) => match cell.text {
            Some(ch) => ch == ' ' || ch == '─' || ch == '│' || ch == '-' || ch == '|',
            None => false,
        },
        None => false,
    }
}

/// An edge label written from column `x` of row `y` onto overwritable cells,
/// stopping before column `limit` or the canvas width.
pub open spec fn write_label(cv: Seq<Seq<Cell>>, w: int, y: int, x: int, s: Seq<char>, limit: int) -> Seq<Seq<Cell>>
    decreases s.len(),
{
    if s.len() == 0 || x + cell_w(s[0]) > limit || x >= w {
        cv
    } else {
        let cw = cell_w(s[0]);
        let c1 = if overwritable(cell_at(cv, y, x)) {
            clear_run(set_cell(cv, w, y, x, glyph(s[0], Role::EdgeLabel)), w, y, x + 1, x + cw)
        } else {
            cv
        };
        write_label(c1, w, y, x + cw, s.drop_first(), limit)
    }
}

/// The arrow heads pointing right and left.
pub open spec fn arrows(ascii: bool) -> (char, char) {
    if ascii { ('>', '<') } else { ('▶', '◀') }
}

/// The wire of an edge from the box at `from` to the box at `to`, with the
/// row and column where its label starts.
pub open spec fn edge_wire(cv: Seq<Seq<Cell>>, w: int, from: Position, to: Position, ascii: bool) -> (Seq<Seq<Cell>>, int, int) {
    let (arrow_r, arrow_l) = arrows(ascii);
    let from_x = sat_add(from.x as int, from.width as int);
    let from_y = sat_add(from.y as int, from.height as int / 2);
    let to_x = to.x as int;
    let to_y = sat_add(to.y as int, to.height as int / 2);
    if to_x <= from_x {
        // A back or self edge: a straight line.
        let c1 = hrun(cv, w, from_y, to_x, from_x, 10, ascii);
        let c2 = if to_x < from_x { set_cell(c1, w, to_y, to_x + 1, glyph(arrow_l, Role::Edge)) } else { c1 };
        (c2, from_y, to_x + 1)
    } else if to_y == from_y {
        let c1 = hrun(cv, w, from_y, from_x, to_x - 1, 10, ascii);
        (set_cell(c1, w, to_y, to_x - 1, glyph(arrow_r, Role::Edge)), from_y, from_x + 1)
    } else {
        // An elbow: stub right, vertical jog in the gap, then into the box.
        let turn_x = if from_x + 2 <= to_x - 1 { from_x + 2 } else { to_x - 1 };
        let down = to_y > from_y;
        let vert: u8 = if down { 4 } else { 1 };
        let vs = if down { from_y } else { to_y };
        let ve = if down { to_y } else { from_y };
        let arrive: u8 = if down { 1 } else { 4 };
        let c1 = hrun(cv, w, from_y, from_x, turn_x, 10, ascii);
        let c2 = line(c1, w, from_y, turn_x, 8u8 | vert, ascii);
        let c3 = vrun(c2, w, vs + 1, ve, turn_x, 5, ascii);
        let c4 = line(c3, w, to_y, turn_x, arrive | 2u8, ascii);
        let c5 = hrun(c4, w, to_y, turn_x + 1, to_x - 1, 10, ascii);
        (set_cell(c5, w, to_y, to_x - 1, glyph(arrow_r, Role::Edge)), to_y, turn_x + 1)
    }
}

/// An edge with its label.
pub open spec fn draw_edge(cv: Seq<Seq<Cell>>, w: int, from: Position, to: Position, label: Option<Seq<char>>, ascii: bool) -> Seq<Seq<Cell>> {
    let (c, ly, lx) = edge_wire(cv, w, from, to, ascii);
    let from_x = sat_add(from.x as int, from.width as int);
    let hi = if to.x as int >= from_x { to.x as int } else { from_x };
    let limit = if hi >= 1 { hi - 1 } else { 0 };
    match label {
        Some(l) => if l.len() > 0 && ly < c.len() {
            write_label(c, w, ly, lx, l, limit)
        } else {
            c
        },
        None => c,
    }
}


// ---------------------------------------------------------------- whole flowcharts

/// The node boxes, for the nodes that have a position.
pub open spec fn draw_nodes(cv: Seq<Seq<Cell>>, w: int, nodes: Seq<NodeV>, pos: Seq<(Seq<char>, Position)>, ascii: bool) -> Seq<Seq<Cell>>
    decreases nodes.len(),
{
    if nodes.len() == 0 {
        cv
    } else {
        let c = draw_nodes(cv, w, nodes.drop_last(), pos, ascii);
        match pm_get(pos, nodes.last().id) {
            Some(p) => draw_node(c, w, p, nodes.last().label, ascii),
            None => c,
        }
    }
}

/// The edges, for the edges whose ends both have a position.
pub open spec fn draw_edges(cv: Seq<Seq<Cell>>, w: int, edges: Seq<EdgeV>, pos: Seq<(Seq<char>, Position)>, ascii: bool) -> Seq<Seq<Cell>>
    decreases edges.len(),
{
    if edges.len() == 0 {
        cv
    } else {
        let c = draw_edges(cv, w, edges.drop_last(), pos, ascii);
        let e = edges.last();
        match (pm_get(pos, e.from), pm_get(pos, e.to)) {
            (Some(a), Some(b)) => draw_edge(c, w, a, b, e.label, ascii),
            _ => c,
        }
    }
}

/// The canvas width: the layout's, at least 80.
pub open spec fn canvas_width(l: LayoutV) -> int {
    if l.width >= 80 { l.width } else { 80 }
}

/// A flowchart drawn on a canvas at least 80 by 20: boxes first, then edges.
pub open spec fn flow_canvas(d: DiagramV, l: LayoutV, ascii: bool) -> Seq<Seq<Cell>> {
    let w = canvas_width(l);
    let h = if l.height >= 20 { l.height } else { 20 };
    let c0 = Seq::new(h as nat, |i: int| Seq::new(w as nat, |j: int| blank()));
    draw_edges(draw_nodes(c0, w, d.nodes, l.positions, ascii), w, d.edges, l.positions, ascii)
}

/// The characters of a row and their roles; covered cells contribute nothing.
pub open spec fn row_cells(row: Seq<Cell>) -> Seq<(char, Role)>
    decreases row.len(),
{
    if row.len() == 0 {
        Seq::empty()
    } else {
        let r = row_cells(row.drop_last());
        match row.last().text {
            Some(c) => r.push((c, row.last().role)),
            None => r,
        }
    }
}

/// A row without its trailing whitespace.
pub open spec fn trim_cells(s: Seq<(char, Role)>) -> Seq<(char, Role)>
    decreases s.len(),
{
    if s.len() > 0 && is_ws(s.last().0) {
        trim_cells(s.drop_last())
    } else {
        s
    }
}

/// Consecutive characters of one role joined into one span.
pub open spec fn runs(s: Seq<(char, Role)>) -> Seq<SpanV>
    decreases s.len(),
{
    if s.len() == 0 {
        Seq::empty()
    } else {
        let r = runs(s.drop_last());
        let c = s.last().0;
        let role = s.last().1;
        if r.len() > 0 && r.last().role == role {
            r.drop_last().push(span(r.last().text.push(c), role))
        } else {
            r.push(span(seq![c], role))
        }
    }
}

/// The lines up to the last one that is not empty.
pub open spec fn kept(lines: Seq<Seq<(char, Role)>>) -> Seq<Seq<(char, Role)>>
    decreases lines.len(),
{
    if lines.len() > 0 && lines.last().len() == 0 {
        kept(lines.drop_last())
    } else {
        lines
    }
}

pub open spec fn lines_doc(lines: Seq<Seq<(char, Role)>>) -> Seq<SpanV>
    decreases lines.len(),
{
    if lines.len() == 0 {
        Seq::empty()
    } else {
        lines_doc(lines.drop_last()) + runs(lines.last()) + seq![newline()]
    }
}

/// A flowchart: each canvas row with trailing whitespace trimmed, trailing
/// blank rows dropped, each line ended by a newline.
pub open spec fn flowchart_doc(d: DiagramV, l: LayoutV, ascii: bool) -> Seq<SpanV> {
    lines_doc(kept(flow_canvas(d, l, ascii).map_values(|row: Seq<Cell>| trim_cells(row_cells(row)))))
}


// ---------------------------------------------------------------- exec

fn blank_row(w: usize) -> (r: Vec<Cell>)
    ensures
        r@ == Seq::new(w as nat, |j: int| blank()),
{
    let mut r: Vec<Cell> = Vec::new();
    let mut i: usize = 0;
    while i < w
        invariant
            i <= w,
            r@ =~= Seq::new(i as nat, |j: int| blank()),
        decreases w - i,
    {
        r.push(Cell { text: Some(' '), role: Role::Plain });
        i = i + 1;
    }
    r
}

/// A canvas of `h` blank rows of width `w`.
pub fn blank_canvas(w: usize, h: usize) -> (r: Canvas)
    ensures
        r@.map_values(|row: Vec<Cell>| row@) == Seq::new(h as nat, |i: int| Seq::new(w as nat, |j: int| blank())),
{
    let mut cv: Canvas = Vec::new();
    let mut i: usize = 0;
    while i < h
        invariant
            i <= h,
            cv@.map_values(|row: Vec<Cell>| row@) =~= Seq::new(i as nat, |k: int| Seq::new(w as nat, |j: int| blank())),
        decreases h - i,
    {
        let row = blank_row(w);
        let ghost before = cv@.map_values(|row: Vec<Cell>| row@);
        cv.push(row);
        assert(cv@.map_values(|row: Vec<Cell>| row@) =~= before.push(Seq::new(w as nat, |j: int| blank())));
        i = i + 1;
    }
    cv
}

pub open spec fn cv_view(cv: Seq<Vec<Cell>>) -> Seq<Seq<Cell>> {
    cv.map_values(|row: Vec<Cell>| row@)
}

fn set_cell_of(cv: &mut Canvas, w: usize, y: usize, x: usize, c: Cell)
    ensures
        cv_view(final(cv)@) == set_cell(cv_view(old(cv)@), w as int, y as int, x as int, c),
{
    let ghost before = cv_view(cv@);
    if y < cv.len() && x < w && x < cv[y].len() {
        cv[y][x] = c;
        assert(cv_view(cv@) =~= before.update(y as int, before[y as int].update(x as int, c)));
    }
}

fn clear_cell_of(cv: &mut Canvas, w: usize, y: usize, x: usize)
    ensures
        cv_view(final(cv)@) == clear_cell(cv_view(old(cv)@), w as int, y as int, x as int),
{
    let ghost before = cv_view(cv@);
    if y < cv.len() && x < w && x < cv[y].len() {
        let old_cell = cv[y][x];
        cv[y][x] = Cell { text: None, role: old_cell.role };
        assert(cv_view(cv@) =~= before.update(y as int, before[y as int].update(x as int, Cell { text: None, ..before[y as int][x as int] })));
    }
}

fn hline_of(cv: &mut Canvas, w: usize, y: usize, x0: usize, x1: usize, c: Cell)
    ensures
        cv_view(final(cv)@) == hline(cv_view(old(cv)@), w as int, y as int, x0 as int, x1 as int, c),
{
    let ghost start = cv_view(cv@);
    if x1 <= x0 {
        return;
    }
    let mut x = x0;
    while x < x1
        invariant
            x0 <= x <= x1,
            cv_view(cv@) == hline(start, w as int, y as int, x0 as int, x as int, c),
        decreases x1 - x,
    {
        set_cell_of(cv, w, y, x, c);
        x = x + 1;
    }
}

fn clear_run_of(cv: &mut Canvas, w: usize, y: usize, x0: usize, x1: usize)
    ensures
        cv_view(final(cv)@) == clear_run(cv_view(old(cv)@), w as int, y as int, x0 as int, x1 as int),
{
    let ghost start = cv_view(cv@);
    if x1 <= x0 {
        return;
    }
    let mut x = x0;
    while x < x1
        invariant
            x0 <= x <= x1,
            cv_view(cv@) == clear_run(start, w as int, y as int, x0 as int, x as int),
        decreases x1 - x,
    {
        clear_cell_of(cv, w, y, x);
        x = x + 1;
    }
}

fn cell_w_of(c: char) -> (r: usize)
    ensures
        r as int == cell_w(c),
        1 <= r <= 3,
{
    match char_width_of(c) {
        Some(n) => if n >= 1 { n } else { 1 },
        None => 1,
    }
}

proof fn lemma_clear_run_clamp(cv: Seq<Seq<Cell>>, w: int, y: int, a: int, b: int)
    ensures
        clear_run(cv, w, y, a, b) == clear_run(cv, w, y, a, if b > w { w } else { b }),
    decreases b - a,
{
    if b > w && b > a {
        lemma_clear_run_clamp(cv, w, y, a, b - 1);
    }
}

/// Writes `s` into row `y` from column `x`.
fn write_text_of(cv: &mut Canvas, w: usize, y: usize, x: usize, s: &[char], role: Role)
    ensures
        cv_view(final(cv)@) == write_text(cv_view(old(cv)@), w as int, y as int, x as int, s@, role),
{
    let ghost total = write_text(cv_view(cv@), w as int, y as int, x as int, s@, role);
    let mut cx = x;
    let mut i: usize = 0;
    assert(s@.skip(0) =~= s@);
    while i < s.len() && cx < w
        invariant
            i < s@.len() ==> s@.skip(i as int).len() > 0,
            i <= s@.len(),
            total == write_text(cv_view(cv@), w as int, y as int, cx as int, s@.skip(i as int), role),
        decreases s@.len() - i,
    {
        let ch = s[i];
        let cw = cell_w_of(ch);
        assert(s@.skip(i as int)[0] == ch);
        assert(s@.skip(i as int).drop_first() =~= s@.skip(i + 1));
        set_cell_of(cv, w, y, cx, Cell { text: Some(ch), role });
        let ghost c1 = cv_view(cv@);
        // The covered cells end at the canvas width.
        let end = if cw <= w - cx { cx + cw } else { w };
        clear_run_of(cv, w, y, cx + 1, end);
        proof {
            lemma_clear_run_clamp(c1, w as int, y as int, cx as int + 1, cx as int + cw as int);
        }
        let ghost c2 = cv_view(cv@);
        assert(write_text(c2, w as int, y as int, end as int, s@.skip(i + 1), role) == write_text(c2, w as int, y as int, cx + cw, s@.skip(i + 1), role));
        cx = end;
        i = i + 1;
    }
}

fn grow_of(cv: &mut Canvas, w: usize, h: usize)
    ensures
        cv_view(final(cv)@) == grow(cv_view(old(cv)@), w as int, h as int),
{
    let ghost start = cv_view(cv@);
    if cv.len() >= h {
        return;
    }
    while cv.len() < h
        invariant
            start.len() < h,
            cv_view(cv@) == start + Seq::new((cv@.len() - start.len()) as nat, |i: int| Seq::new(w as nat, |j: int| blank())),
            cv@.len() <= h,
        decreases h - cv@.len(),
    {
        let ghost before = cv_view(cv@);
        let row = blank_row(w);
        cv.push(row);
        assert(cv_view(cv@) =~= before.push(Seq::new(w as nat, |j: int| blank())));
        assert(cv_view(cv@) =~= start + Seq::new((cv@.len() - start.len()) as nat, |i: int| Seq::new(w as nat, |j: int| blank())));
    }
}

fn sides_of(cv: &mut Canvas, w: usize, y0: usize, y1: usize, x0: usize, x1: usize, c: Cell)
    ensures
        cv_view(final(cv)@) == sides(cv_view(old(cv)@), w as int, y0 as int, y1 as int, x0 as int, x1 as int, c),
{
    let ghost start = cv_view(cv@);
    if y1 <= y0 {
        return;
    }
    let mut y = y0;
    while y < y1
        invariant
            y0 <= y <= y1,
            cv_view(cv@) == sides(start, w as int, y0 as int, y as int, x0 as int, x1 as int, c),
        decreases y1 - y,
    {
        set_cell_of(cv, w, y, x0, c);
        set_cell_of(cv, w, y, x1, c);
        y = y + 1;
    }
}

/// Draws a node box at `p` with its label.
pub fn draw_node_of(cv: &mut Canvas, w: usize, p: Position, label: &[char], ascii: bool)
    requires
        p.width >= 2,
    ensures
        cv_view(final(cv)@) == draw_node(cv_view(old(cv)@), w as int, p, label@, ascii),
{
    let bc = box_chars_of(ascii);
    let px = p.x;
    let py = p.y;
    let bw = p.width;
    let bh = p.height;
    grow_of(cv, w, sadd(sadd(py, bh), 2));
    let right = sadd(px, bw) - 1;
    let c = Cell { text: Some(bc.horizontal), role: Role::NodeFg };
    if sadd(px, bw) < w {
        set_cell_of(cv, w, py, px, Cell { text: Some(bc.top_left), role: Role::NodeFg });
        hline_of(cv, w, py, px + 1, right, c);
        set_cell_of(cv, w, py, right, Cell { text: Some(bc.top_right), role: Role::NodeFg });
    }
    let bottom = sadd(py, bh);
    if bottom < cv.len() && sadd(px, bw) < w {
        set_cell_of(cv, w, bottom, px, Cell { text: Some(bc.bottom_left), role: Role::NodeFg });
        hline_of(cv, w, bottom, px + 1, right, c);
        set_cell_of(cv, w, bottom, right, Cell { text: Some(bc.bottom_right), role: Role::NodeFg });
    }
    if py < bottom {
        sides_of(cv, w, py + 1, bottom, px, right, Cell { text: Some(bc.vertical), role: Role::NodeFg });
    }
    let label_y = sadd(py, bh / 2);
    if label_y < cv.len() {
        let padded = pad_string(label, bw - 2);
        let lx = sadd(px, 1);
        assert(write_text(cv_view(cv@), w as int, label_y as int, lx as int, padded@, Role::NodeFg) == write_text(
            cv_view(cv@),
            w as int,
            label_y as int,
            px + 1,
            padded@,
            Role::NodeFg,
        ));
        write_text_of(cv, w, label_y, lx, padded.as_slice(), Role::NodeFg);
    }
}


fn glyph_mask_of(c: char) -> (r: Option<u8>)
    ensures
        r == glyph_mask(c),
{
    if c == '─' || c == '-' {
        Some(10u8)
    } else if c == '│' || c == '|' {
        Some(5u8)
    } else if c == '┌' {
        Some(6u8)
    } else if c == '┐' {
        Some(12u8)
    } else if c == '└' {
        Some(3u8)
    } else if c == '┘' {
        Some(9u8)
    } else if c == '├' {
        Some(7u8)
    } else if c == '┤' {
        Some(13u8)
    } else if c == '┬' {
        Some(14u8)
    } else if c == '┴' {
        Some(11u8)
    } else if c == '┼' || c == '+' {
        Some(15u8)
    } else {
        None
    }
}

fn mask_glyph_of(mask: u8, ascii: bool) -> (r: char)
    ensures
        r == mask_glyph(mask, ascii),
{
    if ascii {
        if mask == 0 {
            ' '
        } else if mask == 10 {
            '-'
        } else if mask == 5 {
            '|'
        } else {
            '+'
        }
    } else if mask == 10 {
        '─'
    } else if mask == 5 {
        '│'
    } else if mask == 6 {
        '┌'
    } else if mask == 12 {
        '┐'
    } else if mask == 3 {
        '└'
    } else if mask == 9 {
        '┘'
    } else if mask == 7 {
        '├'
    } else if mask == 13 {
        '┤'
    } else if mask == 14 {
        '┬'
    } else if mask == 11 {
        '┴'
    } else if mask == 15 {
        '┼'
    } else if mask == 2 || mask == 8 {
        '─'
    } else if mask == 1 || mask == 4 {
        '│'
    } else {
        ' '
    }
}

fn line_of(cv: &mut Canvas, w: usize, y: usize, x: usize, add: u8, ascii: bool)
    ensures
        cv_view(final(cv)@) == line(cv_view(old(cv)@), w as int, y as int, x as int, add, ascii),
{
    if y < cv.len() && x < w && x < cv[y].len() {
        let cur = cv[y][x];
        assert(cv_view(cv@)[y as int][x as int] == cur);
        match cur.text {
            Some(c) => match glyph_mask_of(c) {
                Some(base) => {
                    set_cell_of(cv, w, y, x, Cell { text: Some(mask_glyph_of(base | add, ascii)), role: Role::Edge });
                },
                None => {
                    if c == ' ' {
                        set_cell_of(cv, w, y, x, Cell { text: Some(mask_glyph_of(add, ascii)), role: Role::Edge });
                    }
                },
            },
            None => {},
        }
    }
}

fn hrun_of(cv: &mut Canvas, w: usize, y: usize, x0: usize, x1: usize, add: u8, ascii: bool)
    ensures
        cv_view(final(cv)@) == hrun(cv_view(old(cv)@), w as int, y as int, x0 as int, x1 as int, add, ascii),
{
    let ghost start = cv_view(cv@);
    if x1 <= x0 {
        return;
    }
    let mut x = x0;
    while x < x1
        invariant
            x0 <= x <= x1,
            cv_view(cv@) == hrun(start, w as int, y as int, x0 as int, x as int, add, ascii),
        decreases x1 - x,
    {
        line_of(cv, w, y, x, add, ascii);
        x = x + 1;
    }
}

fn vrun_of(cv: &mut Canvas, w: usize, y0: usize, y1: usize, x: usize, add: u8, ascii: bool)
    ensures
        cv_view(final(cv)@) == vrun(cv_view(old(cv)@), w as int, y0 as int, y1 as int, x as int, add, ascii),
{
    let ghost start = cv_view(cv@);
    if y1 <= y0 {
        return;
    }
    let mut y = y0;
    while y < y1
        invariant
            y0 <= y <= y1,
            cv_view(cv@) == vrun(start, w as int, y0 as int, y as int, x as int, add, ascii),
        decreases y1 - y,
    {
        line_of(cv, w, y, x, add, ascii);
        y = y + 1;
    }
}

fn overwritable_at(cv: &Canvas, y: usize, x: usize) -> (r: bool)
    ensures
        r == overwritable(cell_at(cv_view(cv@), y as int, x as int)),
{
    if y < cv.len() && x < cv[y].len() {
        let c = cv[y][x];
        assert(cv_view(cv@)[y as int][x as int] == c);
        match c.text {
            Some(ch) => ch == ' ' || ch == '─' || ch == '│' || ch == '-' || ch == '|',
            None => false,
        }
    } else {
        false
    }
}

/// Writes an edge label onto the blank and line cells of row `y`.
fn write_label_of(cv: &mut Canvas, w: usize, y: usize, x: usize, s: &[char], limit: usize)
    ensures
        cv_view(final(cv)@) == write_label(cv_view(old(cv)@), w as int, y as int, x as int, s@, limit as int),
{
    let ghost total = write_label(cv_view(cv@), w as int, y as int, x as int, s@, limit as int);
    let mut cx = x;
    let mut i: usize = 0;
    assert(s@.skip(0) =~= s@);
    while i < s.len()
        invariant
            i <= s@.len(),
            total == write_label(cv_view(cv@), w as int, y as int, cx as int, s@.skip(i as int), limit as int),
            total == write_label(cv_view(old(cv)@), w as int, y as int, x as int, s@, limit as int),
        decreases s@.len() - i,
    {
        let ch = s[i];
        let cw = cell_w_of(ch);
        assert(s@.skip(i as int)[0] == ch);
        assert(s@.skip(i as int).drop_first() =~= s@.skip(i + 1));
        if cw > limit || cx > limit - cw || cx >= w {
            assert(cx + cell_w(s@.skip(i as int)[0]) > limit || cx >= w);
            assert(write_label(cv_view(cv@), w as int, y as int, cx as int, s@.skip(i as int), limit as int) == cv_view(cv@));
            return;
        }
        if overwritable_at(cv, y, cx) {
            set_cell_of(cv, w, y, cx, Cell { text: Some(ch), role: Role::EdgeLabel });
            clear_run_of(cv, w, y, cx + 1, cx + cw);
        }
        cx = cx + cw;
        i = i + 1;
    }
}

/// Draws the wire of an edge; returns where its label starts.
fn edge_wire_of(cv: &mut Canvas, w: usize, from: Position, to: Position, ascii: bool) -> (r: (usize, usize))
    ensures
        edge_wire(cv_view(old(cv)@), w as int, from, to, ascii) == (cv_view(final(cv)@), r.0 as int, r.1 as int)
            || (edge_wire(cv_view(old(cv)@), w as int, from, to, ascii).0 == cv_view(final(cv)@)
                && edge_wire(cv_view(old(cv)@), w as int, from, to, ascii).1 == r.0 as int
                && edge_wire(cv_view(old(cv)@), w as int, from, to, ascii).2 > w && r.1 == w),
{
    let (arrow_r, arrow_l) = if ascii { ('>', '<') } else { ('▶', '◀') };
    let from_x = sadd(from.x, from.width);
    let from_y = sadd(from.y, from.height / 2);
    let to_x = to.x;
    let to_y = sadd(to.y, to.height / 2);
    if to_x <= from_x {
        hrun_of(cv, w, from_y, to_x, from_x, 10, ascii);
        if to_x < from_x {
            set_cell_of(cv, w, to_y, to_x + 1, Cell { text: Some(arrow_l), role: Role::Edge });
        }
        if to_x < usize::MAX {
            (from_y, to_x + 1)
        } else {
            (from_y, w)
        }
    } else if to_y == from_y {
        hrun_of(cv, w, from_y, from_x, to_x - 1, 10, ascii);
        set_cell_of(cv, w, to_y, to_x - 1, Cell { text: Some(arrow_r), role: Role::Edge });
        (from_y, from_x + 1)
    } else {
        let turn_x = if to_x - 1 - from_x >= 2 { from_x + 2 } else { to_x - 1 };
        let down = to_y > from_y;
        let vert: u8 = if down { 4 } else { 1 };
        let vs = if down { from_y } else { to_y };
        let ve = if down { to_y } else { from_y };
        let arrive: u8 = if down { 1 } else { 4 };
        hrun_of(cv, w, from_y, from_x, turn_x, 10, ascii);
        line_of(cv, w, from_y, turn_x, 8u8 | vert, ascii);
        vrun_of(cv, w, vs + 1, ve, turn_x, 5, ascii);
        line_of(cv, w, to_y, turn_x, arrive | 2u8, ascii);
        hrun_of(cv, w, to_y, turn_x + 1, to_x - 1, 10, ascii);
        set_cell_of(cv, w, to_y, to_x - 1, Cell { text: Some(arrow_r), role: Role::Edge });
        (to_y, turn_x + 1)
    }
}

/// Draws an edge between the boxes at `from` and `to`, with its label.
pub fn draw_edge_of(cv: &mut Canvas, w: usize, from: Position, to: Position, label: &Option<String>, ascii: bool)
    ensures
        cv_view(final(cv)@) == draw_edge(cv_view(old(cv)@), w as int, from, to, crate::diagram::opt_view(*label), ascii),
{
    let ghost c0 = cv_view(cv@);
    let (ly, lx) = edge_wire_of(cv, w, from, to, ascii);
    let from_x = sadd(from.x, from.width);
    let hi = if to.x >= from_x { to.x } else { from_x };
    let limit = if hi >= 1 { hi - 1 } else { 0 };
    match label {
        Some(l) => {
            let lc = crate::text::chars_of(l.as_str());
            if lc.len() > 0 && ly < cv.len() {
                proof {
                    let (c, ely, elx) = edge_wire(c0, w as int, from, to, ascii);
                    if elx != lx {
                        assert(write_label(cv_view(cv@), w as int, ly as int, lx as int, lc@, limit as int) == cv_view(cv@));
                        assert(write_label(cv_view(cv@), w as int, ly as int, elx, lc@, limit as int) == cv_view(cv@));
                    }
                }
                write_label_of(cv, w, ly, lx, lc.as_slice(), limit);
            }
        },
        None => {},
    }
}

proof fn lemma_box_ok(pos: Seq<(Seq<char>, Position)>, key: Seq<char>)
    requires
        boxes_ok(pos),
    ensures
        pm_get(pos, key) matches Some(p) ==> p.width >= 2,
{
    crate::layout::lemma_pm_get_from_bound(pos, key, 0);
    match crate::layout::pm_get_from(pos, key, 0) {
        Some(k) => {
            assert(pos[k].1.width >= 2);
        },
        None => {},
    }
}

fn row_cells_of(row: &Vec<Cell>) -> (r: Vec<(char, Role)>)
    ensures
        r@ == trim_cells(row_cells(row@)),
{
    let mut r: Vec<(char, Role)> = Vec::new();
    let mut i: usize = 0;
    while i < row.len()
        invariant
            i <= row@.len(),
            r@ == row_cells(row@.take(i as int)),
        decreases row@.len() - i,
    {
        assert(row@.take(i + 1).drop_last() =~= row@.take(i as int));
        let c = row[i];
        match c.text {
            Some(ch) => {
                r.push((ch, c.role));
            },
            None => {},
        }
        i = i + 1;
    }
    assert(row@.take(row@.len() as int) =~= row@);
    let ghost full = r@;
    let mut n = r.len();
    assert(full.take(n as int) =~= full);
    while n > 0 && char_is_ws(r[n - 1].0)
        invariant
            n <= r@.len(),
            r@ == full,
            trim_cells(full) == trim_cells(full.take(n as int)),
        decreases n,
    {
        assert(full.take(n as int).drop_last() =~= full.take(n - 1));
        n = n - 1;
    }
    assert(full.take(0) =~= Seq::<(char, Role)>::empty());
    let mut t: Vec<(char, Role)> = Vec::new();
    let mut j: usize = 0;
    while j < n
        invariant
            j <= n <= r@.len(),
            r@ == full,
            t@ == full.take(j as int),
        decreases n - j,
    {
        t.push(r[j]);
        assert(t@ =~= full.take(j + 1));
        j = j + 1;
    }
    assert(trim_cells(full.take(n as int)) == full.take(n as int));
    t
}

/// Appends the runs of one line, then a newline.
fn push_line(doc: &mut Vec<Span>, line: &Vec<(char, Role)>)
    ensures
        spans_v(final(doc)@) == spans_v(old(doc)@) + runs(line@) + seq![newline()],
{
    let mut r: Vec<Span> = Vec::new();
    let mut i: usize = 0;
    while i < line.len()
        invariant
            i <= line@.len(),
            spans_v(r@) == runs(line@.take(i as int)),
        decreases line@.len() - i,
    {
        assert(line@.take(i + 1).drop_last() =~= line@.take(i as int));
        let (c, role) = line[i];
        let ghost before = spans_v(r@);
        let n = r.len();
        if n > 0 && r[n - 1].role == role {
            let mut last = r.pop().unwrap();
            last.text.push(c);
            r.push(last);
            assert(spans_v(r@) =~= before.drop_last().push(span(before.last().text.push(c), role)));
        } else {
            let v = vec![c];
            assert(v@ =~= seq![c]);
            r.push(Span { text: v, role });
            assert(spans_v(r@) =~= before.push(span(seq![c], role)));
        }
        i = i + 1;
    }
    assert(line@.take(line@.len() as int) =~= line@);
    let ghost d0 = doc@;
    let ghost r0 = r@;
    doc.append(&mut r);
    assert(spans_v(doc@) =~= spans_v(d0) + spans_v(r0));
    let nl = vec!['\n'];
    assert(nl@ =~= seq!['\n']);
    push_span(doc, nl, Role::Plain);
}

/// Renders a flowchart from its layout.
pub fn render_flowchart(d: &Diagram, l: &LayoutResult, ascii: bool) -> (r: Vec<Span>)
    requires
        boxes_ok(l@.positions),
    ensures
        spans_v(r@) == flowchart_doc(d@, l@, ascii),
{
    let w = if l.width >= 80 { l.width } else { 80 };
    let h = if l.height >= 20 { l.height } else { 20 };
    let mut cv = blank_canvas(w, h);
    let ghost nv = d@.nodes;
    let ghost pos = l@.positions;
    let ghost c0 = cv_view(cv@);
    let mut i: usize = 0;
    while i < d.nodes.len()
        invariant
            i <= d.nodes@.len(),
            nv == d.nodes@.map_values(|x: Node| x@),
            pos == l@.positions,
            boxes_ok(pos),
            w as int == canvas_width(l@),
            cv_view(cv@) == draw_nodes(c0, w as int, nv.take(i as int), pos, ascii),
        decreases d.nodes@.len() - i,
    {
        assert(nv.take(i + 1).drop_last() =~= nv.take(i as int));
        assert(nv[i as int].id == d.nodes@[i as int].id@ && nv[i as int].label == d.nodes@[i as int].label@);
        match l.positions.get(d.nodes[i].id.as_str()) {
            Some(p) => {
                proof {
                    lemma_box_ok(pos, nv[i as int].id);
                }
                let lc = chars_of(d.nodes[i].label.as_str());
                draw_node_of(&mut cv, w, p, lc.as_slice(), ascii);
            },
            None => {},
        }
        i = i + 1;
    }
    assert(nv.take(nv.len() as int) =~= nv);
    let ghost ev = d@.edges;
    let ghost c1 = cv_view(cv@);
    let mut j: usize = 0;
    while j < d.edges.len()
        invariant
            j <= d.edges@.len(),
            ev == d.edges@.map_values(|x: Edge| x@),
            pos == l@.positions,
            cv_view(cv@) == draw_edges(c1, w as int, ev.take(j as int), pos, ascii),
        decreases d.edges@.len() - j,
    {
        assert(ev.take(j + 1).drop_last() =~= ev.take(j as int));
        assert(ev[j as int].from == d.edges@[j as int].from@ && ev[j as int].to == d.edges@[j as int].to@);
        let a = l.positions.get(d.edges[j].from.as_str());
        let b = l.positions.get(d.edges[j].to.as_str());
        match (a, b) {
            (Some(pa), Some(pb)) => {
                draw_edge_of(&mut cv, w, pa, pb, &d.edges[j].label, ascii);
            },
            _ => {},
        }
        j = j + 1;
    }
    assert(ev.take(ev.len() as int) =~= ev);
    assert(cv_view(cv@) == flow_canvas(d@, l@, ascii));
    // Lines, trimmed.
    let ghost all = cv_view(cv@).map_values(|row: Seq<Cell>| trim_cells(row_cells(row)));
    let mut lines: Vec<Vec<(char, Role)>> = Vec::new();
    let mut k: usize = 0;
    while k < cv.len()
        invariant
            k <= cv@.len(),
            all == cv_view(cv@).map_values(|row: Seq<Cell>| trim_cells(row_cells(row))),
            lines@.map_values(|x: Vec<(char, Role)>| x@) == all.take(k as int),
        decreases cv@.len() - k,
    {
        let t = row_cells_of(&cv[k]);
        assert(cv@[k as int]@ == cv_view(cv@)[k as int]);
        assert(t@ == all[k as int]);
        let ghost before = lines@.map_values(|x: Vec<(char, Role)>| x@);
        lines.push(t);
        assert(lines@.map_values(|x: Vec<(char, Role)>| x@) =~= before.push(t@));
        assert(all.take(k + 1) =~= all.take(k as int).push(all[k as int]));
        k = k + 1;
    }
    assert(all.take(all.len() as int) =~= all);
    let ghost lv = lines@.map_values(|x: Vec<(char, Role)>| x@);
    let mut n = lines.len();
    while n > 0 && lines[n - 1].len() == 0
        invariant
            n <= lines@.len(),
            lv == lines@.map_values(|x: Vec<(char, Role)>| x@),
            kept(lv) == kept(lv.take(n as int)),
        decreases n,
    {
        assert(lv.take(n as int).drop_last() =~= lv.take(n - 1));
        assert(lv[n - 1] == lines@[n - 1]@);
        n = n - 1;
    }
    assert(n > 0 ==> lv.take(n as int).last() == lines@[n - 1]@);
    assert(kept(lv.take(n as int)) == lv.take(n as int));
    let mut doc: Vec<Span> = Vec::new();
    let mut q: usize = 0;
    assert(spans_v(doc@) =~= lines_doc(lv.take(0)));
    while q < n
        invariant
            q <= n <= lines@.len(),
            lv == lines@.map_values(|x: Vec<(char, Role)>| x@),
            spans_v(doc@) == lines_doc(lv.take(q as int)),
        decreases n - q,
    {
        assert(lv.take(q + 1).drop_last() =~= lv.take(q as int));
        assert(lv[q as int] == lines@[q as int]@);
        push_line(&mut doc, &lines[q]);
        q = q + 1;
    }
    doc
}

// ---------------------------------------------------------------- the shape of the output

/// The characters of a row of cells.
pub open spec fn cell_chars(s: Seq<(char, Role)>) -> Seq<char> {
    s.map_values(|p: (char, Role)| p.0)
}

/// Lines joined, each followed by a newline.
pub open spec fn joined(ls: Seq<Seq<char>>) -> Seq<char>
    decreases ls.len(),
{
    if ls.len() == 0 {
        Seq::empty()
    } else {
        joined(ls.drop_last()) + ls.last() + seq!['\n']
    }
}

/// The lines of a flowchart's output: the canvas rows with trailing
/// whitespace trimmed, trailing empty rows dropped.
pub open spec fn flow_lines(d: DiagramV, l: LayoutV, ascii: bool) -> Seq<Seq<char>> {
    kept(flow_canvas(d, l, ascii).map_values(|row: Seq<Cell>| trim_cells(row_cells(row)))).map_values(
        |s: Seq<(char, Role)>| cell_chars(s),
    )
}

pub proof fn lemma_plain_add(a: Seq<SpanV>, b: Seq<SpanV>)
    ensures
        plain(a + b) == plain(a) + plain(b),
    decreases a.len(),
{
    if a.len() == 0 {
        assert(a + b =~= b);
    } else {
        assert((a + b).drop_first() =~= a.drop_first() + b);
        lemma_plain_add(a.drop_first(), b);
        assert((a + b)[0] == a[0]);
    }
}

pub proof fn lemma_plain_one(x: SpanV)
    ensures
        plain(seq![x]) == x.text,
{
    reveal_with_fuel(plain, 2);
    assert(seq![x].drop_first() =~= Seq::<SpanV>::empty());
    assert(plain(Seq::<SpanV>::empty()) == Seq::<char>::empty());
    assert(seq![x][0] == x);
    assert(x.text + Seq::<char>::empty() =~= x.text);
}

proof fn lemma_plain_runs(s: Seq<(char, Role)>)
    ensures
        plain(runs(s)) == cell_chars(s),
    decreases s.len(),
{
    if s.len() > 0 {
        lemma_plain_runs(s.drop_last());
        let r = runs(s.drop_last());
        let c = s.last().0;
        let role = s.last().1;
        assert(cell_chars(s) =~= cell_chars(s.drop_last()).push(c));
        if r.len() > 0 && r.last().role == role {
            let q = r.drop_last();
            assert(r =~= q + seq![r.last()]);
            lemma_plain_add(q, seq![r.last()]);
            lemma_plain_add(q, seq![span(r.last().text.push(c), role)]);
            assert(r.drop_last().push(span(r.last().text.push(c), role)) =~= q + seq![span(r.last().text.push(c), role)]);
            lemma_plain_one(r.last());
            lemma_plain_one(span(r.last().text.push(c), role));
        } else {
            lemma_plain_add(r, seq![span(seq![c], role)]);
            assert(r.push(span(seq![c], role)) =~= r + seq![span(seq![c], role)]);
            lemma_plain_one(span(seq![c], role));
        }
    }
}

proof fn lemma_lines_doc_plain(ls: Seq<Seq<(char, Role)>>)
    ensures
        plain(lines_doc(ls)) == joined(ls.map_values(|s: Seq<(char, Role)>| cell_chars(s))),
    decreases ls.len(),
{
    if ls.len() > 0 {
        lemma_lines_doc_plain(ls.drop_last());
        lemma_plain_runs(ls.last());
        lemma_plain_add(lines_doc(ls.drop_last()), runs(ls.last()));
        lemma_plain_add(lines_doc(ls.drop_last()) + runs(ls.last()), seq![newline()]);
        lemma_plain_one(newline());
        let m = ls.map_values(|s: Seq<(char, Role)>| cell_chars(s));
        assert(m.drop_last() =~= ls.drop_last().map_values(|s: Seq<(char, Role)>| cell_chars(s)));
    }
}

proof fn lemma_trim_cells_end(s: Seq<(char, Role)>)
    ensures
        trim_cells(s).len() == 0 || !is_ws(trim_cells(s).last().0),
    decreases s.len(),
{
    if s.len() > 0 && is_ws(s.last().0) {
        lemma_trim_cells_end(s.drop_last());
    }
}

proof fn lemma_kept_prefix(ls: Seq<Seq<(char, Role)>>)
    ensures
        kept(ls).len() <= ls.len(),
        forall|i: int| 0 <= i < kept(ls).len() ==> #[trigger] kept(ls)[i] == ls[i],
        kept(ls).len() == 0 || kept(ls).last().len() > 0,
    decreases ls.len(),
{
    if ls.len() > 0 && ls.last().len() == 0 {
        lemma_kept_prefix(ls.drop_last());
    }
}

/// A flowchart's output is its lines, each followed by a newline: no line
/// ends in whitespace, and the last line is not empty (blank rows at the
/// bottom of the canvas are dropped). Each line is a canvas row with its
/// trailing whitespace trimmed.
pub proof fn law_flowchart_lines(d: DiagramV, l: LayoutV, ascii: bool)
    ensures
        crate::render::style::plain(flowchart_doc(d, l, ascii)) == joined(flow_lines(d, l, ascii)),
        forall|i: int| 0 <= i < flow_lines(d, l, ascii).len() ==> (#[trigger] flow_lines(d, l, ascii)[i]).len() == 0
            || !is_ws(flow_lines(d, l, ascii)[i].last()),
        flow_lines(d, l, ascii).len() == 0 || flow_lines(d, l, ascii).last().len() > 0,
        flow_lines(d, l, ascii).len() <= flow_canvas(d, l, ascii).len(),
{
    let cv = flow_canvas(d, l, ascii);
    let rows = cv.map_values(|row: Seq<Cell>| trim_cells(row_cells(row)));
    let k = kept(rows);
    lemma_kept_prefix(rows);
    lemma_lines_doc_plain(k);
    let fl = flow_lines(d, l, ascii);
    assert forall|i: int| 0 <= i < fl.len() implies (#[trigger] fl[i]).len() == 0 || !is_ws(fl[i].last()) by {
        assert(k[i] == rows[i]);
        lemma_trim_cells_end(row_cells(cv[i]));
        assert(fl[i] == cell_chars(k[i]));
        if fl[i].len() > 0 {
            assert(fl[i].last() == k[i].last().0);
        }
    }
    if fl.len() > 0 {
        assert(fl.last() == cell_chars(k.last()));
    }
}

// ---------------------------------------------------------------- straight edges

proof fn lemma_hrun_blank(cv: Seq<Seq<Cell>>, w: int, y: int, x0: int, x1: int, add: u8, ascii: bool)
    requires
        0 <= y < cv.len(),
        0 <= x0,
        x1 <= w,
        x1 <= cv[y].len(),
        forall|x: int| x0 <= x < x1 ==> (#[trigger] cv[y][x]).text == Some(' '),
    ensures
        hrun(cv, w, y, x0, x1, add, ascii).len() == cv.len(),
        forall|yy: int| 0 <= yy < cv.len() ==> #[trigger] hrun(cv, w, y, x0, x1, add, ascii)[yy].len() == cv[yy].len(),
        forall|yy: int, xx: int|
            0 <= yy < cv.len() && 0 <= xx < cv[yy].len() ==> #[trigger] hrun(cv, w, y, x0, x1, add, ascii)[yy][xx] == if yy
                == y && x0 <= xx < x1 {
                glyph(mask_glyph(add, ascii), Role::Edge)
            } else {
                cv[yy][xx]
            },
    decreases x1 - x0,
{
    if x1 > x0 {
        lemma_hrun_blank(cv, w, y, x0, x1 - 1, add, ascii);
        let c = hrun(cv, w, y, x0, x1 - 1, add, ascii);
        assert(c[y][x1 - 1] == cv[y][x1 - 1]);
        assert(glyph_mask(' ') is None);
        let r = hrun(cv, w, y, x0, x1, add, ascii);
        assert(r == set_cell(c, w, y, x1 - 1, glyph(mask_glyph(add, ascii), Role::Edge)));
        assert forall|yy: int| 0 <= yy < cv.len() implies #[trigger] r[yy].len() == cv[yy].len() by {
            if yy != y {
                assert(r[yy] == c[yy]);
            }
        }
        assert forall|yy: int, xx: int| 0 <= yy < cv.len() && 0 <= xx < cv[yy].len() implies #[trigger] r[yy][xx] == if yy
            == y && x0 <= xx < x1 {
            glyph(mask_glyph(add, ascii), Role::Edge)
        } else {
            cv[yy][xx]
        } by {
            if yy != y {
                assert(r[yy] == c[yy]);
            }
        }
    }
}

/// A straight edge between two boxes on one row, drawn over blank cells:
/// the cells from the right side of the first box up to the column before
/// the second become the line glyph, that column the arrow head, and no
/// other cell changes.
pub proof fn law_straight_edge(cv: Seq<Seq<Cell>>, w: int, from: Position, to: Position, ascii: bool)
    requires
        from.x + from.width <= usize::MAX,
        from.y + from.height / 2 <= usize::MAX,
        to.y + to.height / 2 == from.y + from.height / 2,
        from.x + from.width + 1 < to.x <= w,
        from.y + from.height / 2 < cv.len(),
        forall|yy: int| 0 <= yy < cv.len() ==> (#[trigger] cv[yy]).len() == w,
        forall|x: int| from.x + from.width <= x < to.x - 1 ==> (#[trigger] cv[from.y + from.height / 2][x]).text
            == Some(' '),
    ensures
        ({
            let r = draw_edge(cv, w, from, to, None, ascii);
            let row = from.y + from.height / 2;
            let fx = from.x + from.width;
            &&& r.len() == cv.len()
            &&& forall|yy: int| 0 <= yy < cv.len() ==> (#[trigger] r[yy]).len() == w
            &&& forall|x: int| fx <= x < to.x - 1 ==> #[trigger] r[row][x] == glyph(mask_glyph(10, ascii), Role::Edge)
            &&& r[row][to.x - 1] == glyph(arrows(ascii).0, Role::Edge)
            &&& forall|yy: int, xx: int|
                0 <= yy < cv.len() && 0 <= xx < w && !(yy == row && fx <= xx < to.x) ==> #[trigger] r[yy][xx]
                    == cv[yy][xx]
        }),
{
    let row = from.y + from.height / 2;
    let fx = from.x + from.width;
    assert(sat_add(from.x as int, from.width as int) == fx);
    assert(sat_add(from.y as int, from.height as int / 2) == row);
    assert(sat_add(to.y as int, to.height as int / 2) == row);
    lemma_hrun_blank(cv, w, row, fx, to.x - 1, 10, ascii);
    let c1 = hrun(cv, w, row, fx, to.x - 1, 10, ascii);
    let r = draw_edge(cv, w, from, to, None, ascii);
    assert(r == set_cell(c1, w, row, to.x - 1, glyph(arrows(ascii).0, Role::Edge)));
    assert forall|yy: int| 0 <= yy < cv.len() implies (#[trigger] r[yy]).len() == w by {
        if yy != row {
            assert(r[yy] == c1[yy]);
        }
        assert(c1[yy].len() == cv[yy].len());
    }
    assert forall|x: int| fx <= x < to.x - 1 implies #[trigger] r[row][x] == glyph(mask_glyph(10, ascii), Role::Edge) by {
        assert(c1[row][x] == glyph(mask_glyph(10, ascii), Role::Edge));
    }
    assert forall|yy: int, xx: int|
        0 <= yy < cv.len() && 0 <= xx < w && !(yy == row && fx <= xx < to.x) implies #[trigger] r[yy][xx] == cv[yy][xx] by {
        assert(c1[yy].len() == cv[yy].len());
        assert(c1[yy][xx] == cv[yy][xx]);
        if yy != row {
            assert(r[yy] == c1[yy]);
        }
    }
}

// ---------------------------------------------------------------- elbow corners

proof fn lemma_set_cell_frame(cv: Seq<Seq<Cell>>, w: int, y: int, x: int, c: Cell, yy: int, xx: int)
    requires
        yy != y || xx != x,
    ensures
        cell_at(set_cell(cv, w, y, x, c), yy, xx) == cell_at(cv, yy, xx),
{
    if 0 <= y < cv.len() && 0 <= x < w && x < cv[y].len() {
        let r = set_cell(cv, w, y, x, c);
        if yy == y {
            assert(r[y].len() == cv[y].len());
        } else if 0 <= yy < cv.len() {
            assert(r[yy] == cv[yy]);
        }
    }
}

proof fn lemma_line_frame(cv: Seq<Seq<Cell>>, w: int, y: int, x: int, add: u8, ascii: bool, yy: int, xx: int)
    requires
        yy != y || xx != x,
    ensures
        cell_at(line(cv, w, y, x, add, ascii), yy, xx) == cell_at(cv, yy, xx),
{
    lemma_set_cell_frame(cv, w, y, x, glyph(mask_glyph(add, ascii), Role::Edge), yy, xx);
    if 0 <= y < cv.len() && 0 <= x < w && x < cv[y].len() {
        if let Some(c) = cv[y][x].text {
            if let Some(base) = glyph_mask(c) {
                lemma_set_cell_frame(cv, w, y, x, glyph(mask_glyph(base | add, ascii), Role::Edge), yy, xx);
            }
        }
    }
}

proof fn lemma_hrun_frame(cv: Seq<Seq<Cell>>, w: int, y: int, x0: int, x1: int, add: u8, ascii: bool, yy: int, xx: int)
    requires
        yy != y || xx < x0 || xx >= x1,
    ensures
        cell_at(hrun(cv, w, y, x0, x1, add, ascii), yy, xx) == cell_at(cv, yy, xx),
    decreases x1 - x0,
{
    if x1 > x0 {
        lemma_hrun_frame(cv, w, y, x0, x1 - 1, add, ascii, yy, xx);
        lemma_line_frame(hrun(cv, w, y, x0, x1 - 1, add, ascii), w, y, x1 - 1, add, ascii, yy, xx);
    }
}

proof fn lemma_vrun_frame(cv: Seq<Seq<Cell>>, w: int, y0: int, y1: int, x: int, add: u8, ascii: bool, yy: int, xx: int)
    requires
        xx != x || yy < y0 || yy >= y1,
    ensures
        cell_at(vrun(cv, w, y0, y1, x, add, ascii), yy, xx) == cell_at(cv, yy, xx),
    decreases y1 - y0,
{
    if y1 > y0 {
        lemma_vrun_frame(cv, w, y0, y1 - 1, x, add, ascii, yy, xx);
        lemma_line_frame(vrun(cv, w, y0, y1 - 1, x, add, ascii), w, y1 - 1, x, add, ascii, yy, xx);
    }
}

/// The directions a line glyph connects: north, east, south, west.
pub open spec fn north() -> u8 { 1 }
pub open spec fn east() -> u8 { 2 }
pub open spec fn south() -> u8 { 4 }

/// An elbow edge turns into the destination row with a corner that joins the
/// vertical run to the eastward run: north and east (`└`) when the
/// destination is below the source, south and east (`┌`) when it is above;
/// in ASCII mode the corner is the junction `+`, which joins every direction.
/// This holds where the corner cell was blank and the boxes are at least four
/// columns apart, so that the arrow head does not land on the corner.
pub proof fn law_elbow_corner(cv: Seq<Seq<Cell>>, w: int, from: Position, to: Position, ascii: bool)
    requires
        sat_add(from.x as int, from.width as int) + 3 < to.x,
        to.x <= w,
        sat_add(to.y as int, to.height as int / 2) != sat_add(from.y as int, from.height as int / 2),
        cell_at(cv, sat_add(to.y as int, to.height as int / 2), sat_add(from.x as int, from.width as int) + 2) matches Some(
            c,
        ) && c.text == Some(' '),
    ensures
        ({
            let from_y = sat_add(from.y as int, from.height as int / 2);
            let to_y = sat_add(to.y as int, to.height as int / 2);
            let turn_x = sat_add(from.x as int, from.width as int) + 2;
            let down = to_y > from_y;
            cell_at(edge_wire(cv, w, from, to, ascii).0, to_y, turn_x) matches Some(corner) && corner.text matches Some(g)
                && glyph_mask(g) == Some(
                if ascii {
                    15u8
                } else if down {
                    (north() + east()) as u8
                } else {
                    (south() + east()) as u8
                },
            )
        }),
{
    let from_x = sat_add(from.x as int, from.width as int);
    let from_y = sat_add(from.y as int, from.height as int / 2);
    let to_x = to.x as int;
    let to_y = sat_add(to.y as int, to.height as int / 2);
    let turn_x = from_x + 2;
    let down = to_y > from_y;
    let vert: u8 = if down { 4 } else { 1 };
    let vs = if down { from_y } else { to_y };
    let ve = if down { to_y } else { from_y };
    let arrive: u8 = if down { 1 } else { 4 };
    let c1 = hrun(cv, w, from_y, from_x, turn_x, 10, ascii);
    let c2 = line(c1, w, from_y, turn_x, 8u8 | vert, ascii);
    let c3 = vrun(c2, w, vs + 1, ve, turn_x, 5, ascii);
    let c4 = line(c3, w, to_y, turn_x, arrive | 2u8, ascii);
    let c5 = hrun(c4, w, to_y, turn_x + 1, to_x - 1, 10, ascii);
    lemma_hrun_frame(cv, w, from_y, from_x, turn_x, 10, ascii, to_y, turn_x);
    lemma_line_frame(c1, w, from_y, turn_x, 8u8 | vert, ascii, to_y, turn_x);
    lemma_vrun_frame(c2, w, vs + 1, ve, turn_x, 5, ascii, to_y, turn_x);
    assert(cell_at(c3, to_y, turn_x) == cell_at(cv, to_y, turn_x));
    assert(glyph_mask(' ') is None);
    assert(arrive | 2u8 == (if down { 3u8 } else { 6u8 })) by (bit_vector)
        requires arrive == (if down { 1u8 } else { 4u8 });
    assert(cell_at(c4, to_y, turn_x) == Some(glyph(mask_glyph(arrive | 2u8, ascii), Role::Edge)));
    lemma_hrun_frame(c4, w, to_y, turn_x + 1, to_x - 1, 10, ascii, to_y, turn_x);
    lemma_set_cell_frame(c5, w, to_y, to_x - 1, glyph(arrows(ascii).0, Role::Edge), to_y, turn_x);
    assert(edge_wire(cv, w, from, to, ascii).0 == set_cell(c5, w, to_y, to_x - 1, glyph(arrows(ascii).0, Role::Edge)));
}

} // verus!
