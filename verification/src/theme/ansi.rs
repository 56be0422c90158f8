//! ANSI escape code helpers.

use vstd::prelude::*;
use crate::text::{chars_of, concat, decimal, decimal_of, string_of};

verus! {

pub const RESET: &'static str = "\x1b[0m";

pub const BOLD: &'static str = "\x1b[1m";

pub const ITALIC: &'static str = "\x1b[3m";

/// `ESC [` followed by `body`.
pub open spec fn csi(body: Seq<char>) -> Seq<char> {
    "\x1b["@ + body
}

fn csi_of(body: &[char]) -> (r: String)
    ensures
        r@ == csi(body@),
{
    let lead = chars_of("\x1b[");
    let all = concat(lead.as_slice(), body);
    string_of(all.as_slice())
}

fn decimal_then(n: u16, tail: &str) -> (r: Vec<char>)
    ensures
        r@ == decimal(n as nat) + tail@,
{
    let d = decimal_of(n as u64);
    let t = chars_of(tail);
    concat(d.as_slice(), t.as_slice())
}

/// Moves the cursor up `n` rows.
pub fn cursor_up(n: u16) -> (r: String)
    ensures
        r@ == csi(decimal(n as nat) + "A"@),
{
    csi_of(decimal_then(n, "A").as_slice())
}

/// Moves the cursor down `n` rows.
pub fn cursor_down(n: u16) -> (r: String)
    ensures
        r@ == csi(decimal(n as nat) + "B"@),
{
    csi_of(decimal_then(n, "B").as_slice())
}

/// Moves the cursor right `n` columns.
pub fn cursor_forward(n: u16) -> (r: String)
    ensures
        r@ == csi(decimal(n as nat) + "C"@),
{
    csi_of(decimal_then(n, "C").as_slice())
}

/// Moves the cursor left `n` columns.
pub fn cursor_back(n: u16) -> (r: String)
    ensures
        r@ == csi(decimal(n as nat) + "D"@),
{
    csi_of(decimal_then(n, "D").as_slice())
}

/// Moves the cursor to `row`, `col`.
pub fn cursor_position(row: u16, col: u16) -> (r: String)
    ensures
        r@ == csi(decimal(row as nat) + ";"@ + decimal(col as nat) + "H"@),
{
    let a = decimal_then(row, ";");
    let b = decimal_then(col, "H");
    let ab = concat(a.as_slice(), b.as_slice());
    csi_of(ab.as_slice())
}

/// Clears the screen.
pub fn clear_screen() -> (r: String)
    ensures
        r@ == csi("2J"@),
{
    csi_of(chars_of("2J").as_slice())
}

/// Clears the current line.
pub fn clear_line() -> (r: String)
    ensures
        r@ == csi("2K"@),
{
    csi_of(chars_of("2K").as_slice())
}

} // verus!
