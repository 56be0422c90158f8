use meraid::cli::{decide_color_mode, ColorChoice, ColorEnv};
use meraid::ColorMode;

fn env(is_tty: bool, no_color: bool, term_dumb: bool, truecolor: bool) -> ColorEnv {
    ColorEnv {
        stdout_is_tty: is_tty,
        no_color,
        term_dumb,
        truecolor,
    }
}

#[test]
fn json_mode_is_always_uncolored() {
    // Even --color=always with a truecolor TTY: JSON must stay clean.
    let e = env(true, false, false, true);
    assert_eq!(
        decide_color_mode(ColorChoice::Always, true, &e),
        ColorMode::NoColor
    );
}

#[test]
fn never_disables_color() {
    let e = env(true, false, false, true);
    assert_eq!(
        decide_color_mode(ColorChoice::Never, false, &e),
        ColorMode::NoColor
    );
}

#[test]
fn always_overrides_no_color_and_picks_depth() {
    // Explicit --color=always beats NO_COLOR.
    let truecolor = env(false, true, true, true);
    assert_eq!(
        decide_color_mode(ColorChoice::Always, false, &truecolor),
        ColorMode::TrueColor
    );
    let only256 = env(false, true, true, false);
    assert_eq!(
        decide_color_mode(ColorChoice::Always, false, &only256),
        ColorMode::Ansi256
    );
}

#[test]
fn auto_emits_color_only_on_a_capable_tty() {
    // Happy path: TTY, no NO_COLOR, not dumb, truecolor advertised.
    assert_eq!(
        decide_color_mode(ColorChoice::Auto, false, &env(true, false, false, true)),
        ColorMode::TrueColor
    );
    // TTY but no truecolor → 256.
    assert_eq!(
        decide_color_mode(ColorChoice::Auto, false, &env(true, false, false, false)),
        ColorMode::Ansi256
    );
}

#[test]
fn auto_is_silent_when_piped_or_suppressed() {
    // Not a TTY (piped / redirected).
    assert_eq!(
        decide_color_mode(ColorChoice::Auto, false, &env(false, false, false, true)),
        ColorMode::NoColor
    );
    // NO_COLOR set.
    assert_eq!(
        decide_color_mode(ColorChoice::Auto, false, &env(true, true, false, true)),
        ColorMode::NoColor
    );
    // TERM=dumb.
    assert_eq!(
        decide_color_mode(ColorChoice::Auto, false, &env(true, false, true, true)),
        ColorMode::NoColor
    );
}
