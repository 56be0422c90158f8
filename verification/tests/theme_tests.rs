use meraid::theme::{Color, ColorMode};

#[test]
fn fg_escape_depends_on_color_mode() {
    let c = Color::new(255, 0, 255);
    // NoColor emits nothing — output stays byte-for-byte monochrome.
    assert_eq!(c.fg(ColorMode::NoColor), "");
    // TrueColor emits the exact RGB triple.
    assert_eq!(c.fg(ColorMode::TrueColor), "\x1b[38;2;255;0;255m");
    // Ansi256 emits the quantized index.
    assert_eq!(
        c.fg(ColorMode::Ansi256),
        format!("\x1b[38;5;{}m", c.to_ansi256())
    );
}

#[test]
fn to_ansi256_does_not_collapse_grays_to_near_black() {
    // A light gray must land high in the 232..=255 ramp and be brighter than
    // a dark gray.
    let dark = Color::new(40, 40, 40).to_ansi256();
    let light = Color::new(192, 192, 192).to_ansi256();
    assert!(
        light > dark,
        "light gray ({light}) should map brighter than dark gray ({dark})"
    );
    assert!(
        light > 240,
        "192-gray should sit high in the grayscale ramp, got {light}"
    );
}
