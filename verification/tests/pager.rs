use mdv::ansi::{highlight, strip_ansi};

#[test]
fn strips_and_highlights() {
    let line = "a \x1b]8;;http://x\x1b\\\x1b[1mBold\x1b[0m\x1b]8;;\x1b\\ word";
    let plain = strip_ansi(line);
    assert_eq!(plain, "a Bold word");
    let h = highlight(line, &plain, "old w");
    assert_eq!(strip_ansi(&h), plain);
    assert!(h.contains("B\x1b[7mold\x1b[0m\x1b[7m"));
    assert!(h.ends_with(" w\x1b[27mord"));
}

#[test]
fn a_query_without_match_leaves_the_line() {
    let line = "a \x1b[1mBold\x1b[0m word";
    let plain = strip_ansi(line);
    assert_eq!(highlight(line, &plain, "zzz"), line);
}
