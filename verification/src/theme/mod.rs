//! Terminal themes for colored output.

pub mod ansi;

use vstd::prelude::*;
use crate::text::{chars_of, concat, decimal, decimal_of, string_of};

verus! {

/// How much color a render emits. The command line resolves it from
/// `--color`, stdout TTY detection, `NO_COLOR` and `COLORTERM`; `NoColor`
/// produces monochrome output.
#[derive(Debug, Clone, Copy, PartialEq, Eq, Structural)]
pub enum ColorMode {
    /// No escapes at all: monochrome output.
    NoColor,
    Ansi256,
    TrueColor,
}

impl Default for ColorMode {
    fn default() -> (r: ColorMode)
        ensures
            r == ColorMode::NoColor,
    {
        ColorMode::NoColor
    }
}

/// An RGB color.
#[derive(Debug, Clone, Copy, PartialEq, Eq, Structural)]
pub struct Color {
    pub r: u8,
    pub g: u8,
    pub b: u8,
}

/// The index in the 256-color palette nearest a color: grays map onto the
/// 24-step grayscale ramp, other colors onto the 6×6×6 cube (each channel
/// scaled to `0..=5` and truncated).
pub open spec fn ansi256(c: Color) -> int {
    if c.r == c.g && c.g == c.b {
        if c.r < 8 {
            16
        } else if c.r > 248 {
            231
        } else {
            232 + (c.r - 8) * 24 / 247
        }
    } else {
        16 + 36 * (c.r / 51) + 6 * (c.g / 51) + c.b / 51
    }
}

/// Grays from 8 to 248 land on the grayscale ramp `232..=255`, lighter grays
/// no lower than darker ones.
pub proof fn law_gray_ramp(a: u8, b: u8)
    requires
        8 <= a <= b <= 248,
    ensures
        232 <= ansi256(Color { r: a, g: a, b: a }) <= 255,
        ansi256(Color { r: a, g: a, b: a }) <= ansi256(Color { r: b, g: b, b: b }),
{
    let x = (a - 8) * 24;
    let y = (b - 8) * 24;
    assert(x <= y);
    vstd::arithmetic::div_mod::lemma_div_is_ordered(x as int, y as int, 247);
    vstd::arithmetic::div_mod::lemma_div_is_ordered(x as int, 5760int, 247);
    vstd::arithmetic::div_mod::lemma_div_pos_is_pos(x as int, 247);
}

/// The foreground escape sequence for `c` in `mode` (empty for `NoColor`).
pub open spec fn fg_escape(c: Color, mode: ColorMode) -> Seq<char> {
    match mode {
        ColorMode::NoColor => Seq::empty(),
        ColorMode::Ansi256 => "\x1b[38;5;"@ + decimal(ansi256(c) as nat) + "m"@,
        ColorMode::TrueColor => "\x1b[38;2;"@ + decimal(c.r as nat) + ";"@ + decimal(c.g as nat) + ";"@
            + decimal(c.b as nat) + "m"@,
    }
}

impl Color {
    pub fn new(r: u8, g: u8, b: u8) -> (c: Color)
        ensures
            c == (Color { r, g, b }),
    {
        Color { r, g, b }
    }

    /// The nearest index in the 256-color palette.
    pub fn to_ansi256(&self) -> (n: u8)
        ensures
            n as int == ansi256(*self),
    {
        if self.r == self.g && self.g == self.b {
            let gray = self.r;
            if gray < 8 {
                return 16;
            }
            if gray > 248 {
                return 231;
            }
            // Multiply before dividing so that the step is not truncated to zero.
            return 232 + ((gray as u16 - 8) * 24 / 247) as u8;
        }
        let r = self.r / 51;
        let g = self.g / 51;
        let b = self.b / 51;
        16 + r * 36 + g * 6 + b
    }

    /// The 256-color foreground escape sequence.
    pub fn to_escape(&self) -> (s: String)
        ensures
            s@ == fg_escape(*self, ColorMode::Ansi256),
    {
        self.fg(ColorMode::Ansi256)
    }

    /// The foreground escape sequence for `mode`; empty for `ColorMode::NoColor`
    /// so that callers can prepend it unconditionally.
    pub fn fg(&self, mode: ColorMode) -> (s: String)
        ensures
            s@ == fg_escape(*self, mode),
    {
        string_of(self.fg_chars(mode).as_slice())
    }

    pub fn fg_chars(&self, mode: ColorMode) -> (s: Vec<char>)
        ensures
            s@ == fg_escape(*self, mode),
    {
        match mode {
            ColorMode::NoColor => Vec::new(),
            ColorMode::Ansi256 => {
                let a = chars_of("\x1b[38;5;");
                let d = decimal_of(self.to_ansi256() as u64);
                let m = chars_of("m");
                let ad = concat(a.as_slice(), d.as_slice());
                concat(ad.as_slice(), m.as_slice())
            },
            ColorMode::TrueColor => {
                let a = chars_of("\x1b[38;2;");
                let semi = chars_of(";");
                let m = chars_of("m");
                let r = decimal_of(self.r as u64);
                let g = decimal_of(self.g as u64);
                let b = decimal_of(self.b as u64);
                let s1 = concat(a.as_slice(), r.as_slice());
                let s2 = concat(s1.as_slice(), semi.as_slice());
                let s3 = concat(s2.as_slice(), g.as_slice());
                let s4 = concat(s3.as_slice(), semi.as_slice());
                let s5 = concat(s4.as_slice(), b.as_slice());
                concat(s5.as_slice(), m.as_slice())
            },
        }
    }
}

/// A theme for diagram rendering.
///
/// Each role is `Option<Color>`: `Some(c)` paints that role with `c`, `None`
/// inherits the terminal's own color. The `default` theme leaves every role
/// `None`, so selecting it is a no-op even when color is enabled.
#[derive(Debug, Clone)]
pub struct Theme {
    pub name: String,
    /// Reserved: box-interior fill. Not painted (foreground only).
    pub node_bg: Option<Color>,
    pub node_fg: Option<Color>,
    pub edge: Option<Color>,
    pub edge_label: Option<Color>,
    pub start_end: Option<Color>,
}

pub struct ThemeV {
    pub name: Seq<char>,
    pub node_bg: Option<Color>,
    pub node_fg: Option<Color>,
    pub edge: Option<Color>,
    pub edge_label: Option<Color>,
    pub start_end: Option<Color>,
}

impl View for Theme {
    type V = ThemeV;

    open spec fn view(&self) -> ThemeV {
        ThemeV {
            name: self.name@,
            node_bg: self.node_bg,
            node_fg: self.node_fg,
            edge: self.edge,
            edge_label: self.edge_label,
            start_end: self.start_end,
        }
    }
}

/// Theme types available.
#[derive(Debug, Clone, Copy, PartialEq, Eq, Structural)]
pub enum ThemeType {
    Default,
    Terra,
    Neon,
    Mono,
    Amber,
    Phosphor,
}

impl Default for ThemeType {
    fn default() -> (r: ThemeType)
        ensures
            r == ThemeType::Default,
    {
        ThemeType::Default
    }
}

pub open spec fn rgb(r: u8, g: u8, b: u8) -> Option<Color> {
    Some(Color { r, g, b })
}

/// The palette of each theme.
pub open spec fn theme_spec(t: ThemeType) -> ThemeV {
    match t {
        ThemeType::Default => ThemeV {
            name: "default"@,
            node_bg: None,
            node_fg: None,
            edge: None,
            edge_label: None,
            start_end: None,
        },
        ThemeType::Terra => ThemeV {
            name: "terra"@,
            node_bg: rgb(45, 35, 25),
            node_fg: rgb(255, 220, 180),
            edge: rgb(255, 180, 100),
            edge_label: rgb(255, 180, 100),
            start_end: rgb(100, 80, 60),
        },
        ThemeType::Neon => ThemeV {
            name: "neon"@,
            node_bg: rgb(20, 0, 30),
            node_fg: rgb(255, 0, 255),
            edge: rgb(0, 255, 127),
            edge_label: rgb(0, 255, 255),
            start_end: rgb(128, 0, 128),
        },
        ThemeType::Mono => ThemeV {
            name: "mono"@,
            node_bg: rgb(0, 0, 0),
            node_fg: rgb(255, 255, 255),
            edge: rgb(192, 192, 192),
            edge_label: rgb(192, 192, 192),
            start_end: rgb(128, 128, 128),
        },
        ThemeType::Amber => ThemeV {
            name: "amber"@,
            node_bg: rgb(30, 20, 0),
            node_fg: rgb(255, 192, 0),
            edge: rgb(255, 128, 0),
            edge_label: rgb(255, 192, 0),
            start_end: rgb(128, 96, 0),
        },
        ThemeType::Phosphor => ThemeV {
            name: "phosphor"@,
            node_bg: rgb(0, 10, 0),
            node_fg: rgb(0, 255, 0),
            edge: rgb(0, 200, 0),
            edge_label: rgb(0, 255, 0),
            start_end: rgb(0, 128, 0),
        },
    }
}

fn c(r: u8, g: u8, b: u8) -> (o: Option<Color>)
    ensures
        o == rgb(r, g, b),
{
    Some(Color { r, g, b })
}

/// Every role inherits the terminal's own colors.
fn default_theme() -> (t: Theme)
    ensures
        t@ == theme_spec(ThemeType::Default),
{
    Theme {
        name: string_of(chars_of("default").as_slice()),
        node_bg: None,
        node_fg: None,
        edge: None,
        edge_label: None,
        start_end: None,
    }
}

fn terra_theme() -> (t: Theme)
    ensures
        t@ == theme_spec(ThemeType::Terra),
{
    Theme {
        name: string_of(chars_of("terra").as_slice()),
        node_bg: c(45, 35, 25),
        node_fg: c(255, 220, 180),
        edge: c(255, 180, 100),
        edge_label: c(255, 180, 100),
        start_end: c(100, 80, 60),
    }
}

fn neon_theme() -> (t: Theme)
    ensures
        t@ == theme_spec(ThemeType::Neon),
{
    Theme {
        name: string_of(chars_of("neon").as_slice()),
        node_bg: c(20, 0, 30),
        node_fg: c(255, 0, 255),
        edge: c(0, 255, 127),
        edge_label: c(0, 255, 255),
        start_end: c(128, 0, 128),
    }
}

fn mono_theme() -> (t: Theme)
    ensures
        t@ == theme_spec(ThemeType::Mono),
{
    Theme {
        name: string_of(chars_of("mono").as_slice()),
        node_bg: c(0, 0, 0),
        node_fg: c(255, 255, 255),
        edge: c(192, 192, 192),
        edge_label: c(192, 192, 192),
        start_end: c(128, 128, 128),
    }
}

fn amber_theme() -> (t: Theme)
    ensures
        t@ == theme_spec(ThemeType::Amber),
{
    Theme {
        name: string_of(chars_of("amber").as_slice()),
        node_bg: c(30, 20, 0),
        node_fg: c(255, 192, 0),
        edge: c(255, 128, 0),
        edge_label: c(255, 192, 0),
        start_end: c(128, 96, 0),
    }
}

fn phosphor_theme() -> (t: Theme)
    ensures
        t@ == theme_spec(ThemeType::Phosphor),
{
    Theme {
        name: string_of(chars_of("phosphor").as_slice()),
        node_bg: c(0, 10, 0),
        node_fg: c(0, 255, 0),
        edge: c(0, 200, 0),
        edge_label: c(0, 255, 0),
        start_end: c(0, 128, 0),
    }
}

impl Theme {
    /// The theme of the given type.
    pub fn get(theme_type: ThemeType) -> (t: Theme)
        ensures
            t@ == theme_spec(theme_type),
    {
        match theme_type {
            ThemeType::Default => default_theme(),
            ThemeType::Terra => terra_theme(),
            ThemeType::Neon => neon_theme(),
            ThemeType::Mono => mono_theme(),
            ThemeType::Amber => amber_theme(),
            ThemeType::Phosphor => phosphor_theme(),
        }
    }
}

/// `c` as an ASCII lowercase letter would be read case-insensitively.
pub open spec fn ascii_lower(c: char) -> char {
    if 'A' <= c && c <= 'Z' {
        ((c as u8) + 32) as char
    } else {
        c
    }
}

/// `s` equals the lowercase ASCII word `w` up to the case of its letters.
pub open spec fn eq_ignore_case(s: Seq<char>, w: Seq<char>) -> bool {
    s.len() == w.len() && forall|i: int| 0 <= i < s.len() ==> ascii_lower(#[trigger] s[i]) == w[i]
}

/// The theme a name selects, ignoring case; an unknown name selects the default.
pub open spec fn theme_by_name(s: Seq<char>) -> ThemeType {
    if eq_ignore_case(s, "terra"@) {
        ThemeType::Terra
    } else if eq_ignore_case(s, "neon"@) {
        ThemeType::Neon
    } else if eq_ignore_case(s, "mono"@) {
        ThemeType::Mono
    } else if eq_ignore_case(s, "amber"@) {
        ThemeType::Amber
    } else if eq_ignore_case(s, "phosphor"@) {
        ThemeType::Phosphor
    } else {
        ThemeType::Default
    }
}

fn lower_of(c: char) -> (r: char)
    ensures
        r == ascii_lower(c),
{
    if 'A' <= c && c <= 'Z' {
        ((c as u8) + 32) as char
    } else {
        c
    }
}

fn eq_ignore_case_of(s: &[char], w: &[char]) -> (r: bool)
    ensures
        r == eq_ignore_case(s@, w@),
{
    if s.len() != w.len() {
        return false;
    }
    let mut i: usize = 0;
    while i < s.len()
        invariant
            s@.len() == w@.len(),
            i <= s@.len(),
            forall|k: int| 0 <= k < i ==> ascii_lower(#[trigger] s@[k]) == w@[k],
        decreases s@.len() - i,
    {
        if lower_of(s[i]) != w[i] {
            return false;
        }
        i = i + 1;
    }
    true
}

impl ThemeType {
    /// The theme a name selects, ignoring case; unknown names select `Default`.
    pub fn from_name(s: &str) -> (t: ThemeType)
        ensures
            t == theme_by_name(s@),
    {
        let v = chars_of(s);
        let v = v.as_slice();
        if eq_ignore_case_of(v, chars_of("terra").as_slice()) {
            ThemeType::Terra
        } else if eq_ignore_case_of(v, chars_of("neon").as_slice()) {
            ThemeType::Neon
        } else if eq_ignore_case_of(v, chars_of("mono").as_slice()) {
            ThemeType::Mono
        } else if eq_ignore_case_of(v, chars_of("amber").as_slice()) {
            ThemeType::Amber
        } else if eq_ignore_case_of(v, chars_of("phosphor").as_slice()) {
            ThemeType::Phosphor
        } else {
            ThemeType::Default
        }
    }
}

impl std::str::FromStr for ThemeType {
    type Err = String;

    fn from_str(s: &str) -> (r: Result<ThemeType, String>)
        ensures
            r == Ok::<ThemeType, String>(theme_by_name(s@)),
    {
        Ok(ThemeType::from_name(s))
    }
}

} // verus!
