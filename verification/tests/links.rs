use mdv::html::{attr, strip_line, tag_name_of};
use mdv::url::{percent_encode_path, resolve_url};

#[test]
fn paths_are_percent_encoded_by_utf8_byte() {
    assert_eq!(percent_encode_path("/docs/a b.md"), "/docs/a%20b.md");
    assert_eq!(percent_encode_path("é~_-."), "%C3%A9~_-.");
}

#[test]
fn relative_targets_resolve_against_the_base() {
    let base = Some("/docs".to_string());
    assert_eq!(resolve_url("a.md", &base), "file:///docs/a.md");
    assert_eq!(resolve_url("/abs/x.md?q#f", &base), "file:///abs/x.md?q#f");
    assert_eq!(resolve_url("https://e.org", &base), "https://e.org");
    assert_eq!(resolve_url("#top", &base), "#top");
    assert_eq!(resolve_url("//cdn/x", &base), "//cdn/x");
    assert_eq!(resolve_url("a.md", &None), "a.md");
    assert_eq!(resolve_url("x:y", &base), "file:///docs/x%3Ay");
    assert_eq!(resolve_url("b.md", &Some("/root/".to_string())), "file:///root/b.md");
}

#[test]
fn attributes_are_found_after_white_space() {
    assert_eq!(attr("<a href=\"x y\">", "href"), Some("x y".to_string()));
    assert_eq!(attr("<a HREF='u'>", "href"), Some("u".to_string()));
    assert_eq!(attr("<img src=p.png alt=hi>", "src"), Some("p.png".to_string()));
    assert_eq!(attr("<img src=p.png alt=hi>", "alt"), Some("hi".to_string()));
    assert_eq!(attr("<a xhref=1 href=2>", "href"), Some("2".to_string()));
    assert_eq!(attr("<a href>", "href"), None);
    assert_eq!(attr("<a href=", "href"), None);
}

#[test]
fn tag_names_are_lowercased() {
    let t: Vec<char> = "</STRONG >".chars().collect();
    assert_eq!(tag_name_of(&t), "strong");
}

#[test]
fn comments_are_stripped_across_lines() {
    let l: Vec<char> = "a<!-- x -->b<!-- y".chars().collect();
    let (v, open) = strip_line(&l, false);
    assert_eq!(v.iter().collect::<String>(), "ab");
    assert!(open);
    let l2: Vec<char> = "still -->c".chars().collect();
    let (v2, open2) = strip_line(&l2, true);
    assert_eq!(v2.iter().collect::<String>(), "c");
    assert!(!open2);
}
