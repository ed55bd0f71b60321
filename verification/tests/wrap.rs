use mdv::style::{spans_width, Span, Style};
use mdv::wrap::{hard_wrap, wrap, Line};

fn text(lines: &[Line]) -> Vec<String> {
    lines.iter().map(|l| l.iter().map(|s| s.text.as_str()).collect()).collect()
}

#[test]
fn wraps_on_words_and_breaks_long_ones() {
    let spans = [Span::plain("aaa bbb ccc"), Span::plain(" dddddddddd")];
    assert_eq!(text(&wrap(&spans, 7)), ["aaa bbb", "ccc", "ddddddd", "ddd"]);
}

#[test]
fn words_span_styles_and_hard_breaks() {
    let bold = Style::default().bold();
    let spans = [Span::plain("ab"), Span::new("cd", bold), Span::plain(" e\nf")];
    let lines = wrap(&spans, 4);
    assert_eq!(text(&lines), ["abcd", "e", "f"]);
    assert_eq!(lines[0].len(), 2);
}

#[test]
fn wide_chars_and_emoji_selector() {
    assert_eq!(text(&wrap(&[Span::plain("日本語 x")], 6)), ["日本語", "x"]);
    assert_eq!(text(&wrap(&[Span::plain("⚠\u{FE0F} ab")], 4)), ["⚠\u{FE0F}", "ab"]);
}

#[test]
fn lines_stay_within_the_width() {
    let texts = ["日本語の 文章 と ascii words mixed\tin", "ｗｉｄｅ ｗｏｒｄｓ ｈｅｒｅ", "a\nbb  ccc dddd"];
    for t in texts {
        for w in 2..16 {
            for line in wrap(&[Span::plain(t)], w) {
                assert!(spans_width(&line) <= w, "{t:?} @ {w}: {line:?}");
            }
        }
    }
}

#[test]
fn hard_wrap_fills_every_row_but_the_last() {
    let rows = hard_wrap(&[Span::plain("ab cd"), Span::plain("efghij")], 3);
    let widths: Vec<usize> = rows.iter().map(|r| r.1).collect();
    assert_eq!(widths, vec![3, 3, 3, 2]);
}

#[test]
fn wrapped_lines_are_tidy() {
    let bold = Style::default().bold();
    let spans = [Span::plain("a\tb "), Span::new("cc", bold), Span::plain(" d\ne  f"), Span::new("", bold)];
    for w in 0..8 {
        for line in wrap(&spans, w) {
            for s in &line {
                assert!(!s.text.is_empty());
                assert!(!s.text.contains('\t') && !s.text.contains('\n'));
            }
            for pair in line.windows(2) {
                assert_ne!(pair[0].style, pair[1].style);
            }
        }
    }
}

#[test]
fn wrapped_lines_keep_styles_and_spacing() {
    let bold = Style::default().bold();
    let spans = [Span::plain("  one  two"), Span::new("THREE four", bold), Span::plain("\tfive \n six ")];
    let visible = |s: &[Span]| -> Vec<(char, Style)> {
        s.iter().flat_map(|sp| sp.text.chars().map(move |c| (c, sp.style))).filter(|(c, _)| !matches!(c, ' ' | '\t' | '\n')).collect()
    };
    for w in 1..12 {
        let lines = wrap(&spans, w);
        let out: Vec<(char, Style)> = lines.iter().flat_map(|l| visible(l)).collect();
        assert_eq!(out, visible(&spans), "width {w}");
        for line in &lines {
            let text: String = line.iter().map(|s| s.text.as_str()).collect();
            assert!(!text.starts_with(' ') && !text.ends_with(' ') && !text.contains("  "), "{text:?}");
        }
    }
}
