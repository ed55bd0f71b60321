use mdv::cli::{color_mode, detect_color_mode, is_light_terminal, render_width, should_page, use_hyperlinks, When};
use mdv::style::ColorMode;

#[test]
fn colorterm_selects_truecolor() {
    assert_eq!(detect_color_mode(Some("truecolor")), ColorMode::TrueColor);
    assert_eq!(detect_color_mode(Some("24bit")), ColorMode::TrueColor);
    assert_eq!(detect_color_mode(Some("yes")), ColorMode::Ansi256);
    assert_eq!(detect_color_mode(None), ColorMode::Ansi256);
}

#[test]
fn colors_follow_the_terminal_and_no_color() {
    assert_eq!(color_mode(When::Auto, true, false, ColorMode::TrueColor), ColorMode::TrueColor);
    assert_eq!(color_mode(When::Auto, true, true, ColorMode::TrueColor), ColorMode::NoColor);
    assert_eq!(color_mode(When::Auto, false, false, ColorMode::Ansi256), ColorMode::NoColor);
    assert_eq!(color_mode(When::Always, false, true, ColorMode::Ansi256), ColorMode::Ansi256);
    assert_eq!(color_mode(When::Never, true, false, ColorMode::Ansi256), ColorMode::NoColor);
}

#[test]
fn hyperlinks_skip_dumb_terminals() {
    assert!(use_hyperlinks(When::Auto, true, Some("xterm-256color")));
    assert!(use_hyperlinks(When::Auto, true, None));
    assert!(!use_hyperlinks(When::Auto, true, Some("dumb")));
    assert!(!use_hyperlinks(When::Auto, true, Some("linux")));
    assert!(!use_hyperlinks(When::Auto, false, Some("xterm")));
    assert!(use_hyperlinks(When::Always, false, Some("dumb")));
}

#[test]
fn width_defaults_and_minimum() {
    assert_eq!(render_width(Some(100), Some(50)), 100);
    assert_eq!(render_width(None, Some(50)), 50);
    assert_eq!(render_width(None, None), 80);
    assert_eq!(render_width(Some(5), None), 20);
}

#[test]
fn light_background_from_colorfgbg() {
    assert!(is_light_terminal(Some("0;15")));
    assert!(is_light_terminal(Some("0;default;7")));
    assert!(is_light_terminal(Some("+07")));
    assert!(!is_light_terminal(Some("15;0")));
    assert!(!is_light_terminal(Some("0;")));
    assert!(!is_light_terminal(Some("0;256")));
    assert!(!is_light_terminal(None));
}

#[test]
fn paging_when_output_fills_the_screen() {
    assert!(should_page(true, When::Auto, false, Some(2), "a\nb\n"));
    assert!(!should_page(true, When::Auto, false, Some(3), "a\nb\n"));
    assert!(!should_page(true, When::Auto, true, Some(1), "a\nb\n"));
    assert!(!should_page(false, When::Always, false, Some(1), "a\n"));
    assert!(should_page(true, When::Always, false, None, ""));
    assert!(!should_page(true, When::Auto, false, None, "a\nb\n"));
}
