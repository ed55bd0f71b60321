use mdv::ansi::strip_ansi;
use mdv::style::{spans_width, Color, ColorMode, Span, Style, Writer};
use mdv::url::percent_encode_path;

fn percent_decode(s: &str) -> Vec<u8> {
    let b = s.as_bytes();
    let mut out = Vec::new();
    let mut i = 0;
    while i < b.len() {
        if b[i] == b'%' && i + 2 < b.len() {
            let hex = std::str::from_utf8(&b[i + 1..i + 3]).unwrap();
            out.push(u8::from_str_radix(hex, 16).unwrap());
            i += 3;
        } else {
            out.push(b[i]);
            i += 1;
        }
    }
    out
}

#[test]
fn stripping_twice_strips_once() {
    for s in ["a \x1b[1mb\x1b[0m", "\x1b\x1b[1", "x\x1b]8;;u\x07y\x1b]8;;\x07", "\x1b[", "plain"] {
        let once = strip_ansi(s);
        assert_eq!(strip_ansi(&once), once, "{s:?}");
    }
    assert_eq!(strip_ansi("no escapes here"), "no escapes here");
}

#[test]
fn percent_decoding_gives_the_path_back() {
    for p in ["/docs/a b.md", "/ü/日本/%x", "plain-path_1.~"] {
        assert_eq!(percent_decode(&percent_encode_path(p)), p.as_bytes().to_vec(), "{p:?}");
    }
    assert_eq!(percent_encode_path("/docs/a b.md"), "/docs/a%20b.md");
}

#[test]
fn span_widths_add_up() {
    let a = vec![Span::plain("ab"), Span::plain("日本")];
    let b = vec![Span::plain(" c")];
    let mut ab = a.clone();
    ab.extend(b.clone());
    assert_eq!(spans_width(&ab), spans_width(&a) + spans_width(&b));
    assert_eq!(spans_width(&ab), 8);
}

#[test]
fn written_lines_strip_to_their_text() {
    let mut w = Writer { mode: ColorMode::TrueColor, hyperlinks: true, links: Vec::new() };
    let id = w.add_link("https://example.org/a".to_string());
    let mut link = Style::fg(Color::Rgb(10, 20, 30)).bold();
    link.link = id;
    let spans = vec![
        Span::new("plain ", Style::default()),
        Span::new("bold", Style::fg(Color::Ansi(3)).bold()),
        Span::new(" link", link),
        Span::new(" end", Style::default().on(Color::Ansi(200))),
    ];
    let mut out = String::new();
    w.write_line(&mut out, &spans);
    assert!(out.contains('\x1b'));
    assert_eq!(strip_ansi(&out), "plain bold link end\n");
}
