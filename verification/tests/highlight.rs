use mdv::highlight::{theme_names, Highlighter, DEFAULT_DARK_THEME, DEFAULT_LIGHT_THEME};
use mdv::render::{render, Config};
use mdv::fit::Fitter;
use mdv::style::ColorMode;

fn least_widths(f: &Fitter) -> Vec<usize> {
    f.min.clone()
}

#[test]
fn default_themes_are_embedded() {
    let names = theme_names();
    assert!(names.iter().any(|n| n == DEFAULT_DARK_THEME));
    assert!(names.iter().any(|n| n == DEFAULT_LIGHT_THEME));
    assert!(Highlighter::new(DEFAULT_DARK_THEME).is_ok());
}

#[test]
fn highlighting_keeps_the_code_text() {
    let mut h = Highlighter::new(DEFAULT_DARK_THEME).unwrap();
    let lines = h.highlight("rust", "fn main() {\n\tx\n}\n");
    assert_eq!(lines.len(), 3);
    let text: Vec<String> = lines.iter().map(|l| l.iter().map(|s| s.text.as_str()).collect()).collect();
    assert_eq!(text, vec!["fn main() {".to_string(), "    x".to_string(), "}".to_string()]);
    assert!(lines[0].len() > 1, "highlighting splits the line into styled pieces");
    assert!(lines.iter().flatten().all(|s| s.style.link == 0));
}

#[test]
fn unknown_languages_are_plain() {
    let mut h = Highlighter::new(DEFAULT_DARK_THEME).unwrap();
    let lines = h.highlight("no-such-language", "a b\n");
    assert_eq!(lines.len(), 1);
    assert_eq!(lines[0].len(), 1);
    assert_eq!(lines[0][0].text, "a b");
}

#[test]
fn colored_code_blocks_get_a_band() {
    let cfg = Config {
        width: 30,
        mode: ColorMode::TrueColor,
        hyperlinks: false,
        light: false,
        theme: DEFAULT_DARK_THEME.to_string(),
        base_dir: None,
    };
    let out = render("```rust\nlet x = 1;\n```\n", cfg, &least_widths).unwrap();
    let lines: Vec<&str> = out.lines().collect();
    assert_eq!(lines.len(), 3, "{out:?}");
    assert!(lines[0].contains("rust"));
    assert!(out.contains("\x1b["));
    let plain = mdv::ansi::strip_ansi(lines[1]);
    assert_eq!(plain.trim_end(), " let x = 1;");
}

#[test]
fn theme_names_are_distinct_and_each_loads() {
    let names = theme_names();
    assert!(!names.is_empty());
    for (i, n) in names.iter().enumerate() {
        assert!(!names[..i].contains(n));
        assert!(Highlighter::new(n).is_ok());
    }
}

#[test]
fn themes_bring_their_default_colors() {
    let h = Highlighter::new(DEFAULT_DARK_THEME).unwrap();
    assert!(h.background().is_some());
    assert!(h.foreground().is_some());
    assert!(Highlighter::new("no such theme").is_err());
}
