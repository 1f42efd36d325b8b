use hyperfind::extractor::try_first_snippet;
use hyperfind::extractor::{generate_snippet, try_generate_snippet, snippet_at, extension_allowed,
    floor_char_boundary, ceil_char_boundary, content_size_allowed, content_from_bytes};
use hyperfind::text::find_ascii_ignore_case;

#[test]
fn test_generate_snippet() {
    let content = "This is a test file with some content about Rust programming.";
    let snippet = generate_snippet(content, "Rust", 20).unwrap();
    assert!(snippet.contains("Rust"));
}

#[test]
fn test_find_ascii_ignore_case() {
    assert_eq!(find_ascii_ignore_case("Hello Rust World", "rust"), Some(6));
    assert_eq!(find_ascii_ignore_case("Hello Rust World", "RUST"), Some(6));
    assert_eq!(find_ascii_ignore_case("Hello Rust World", "java"), None);
}

#[test]
fn snippet_exact_text() {
    let content = "This is a test file with some content about Rust programming.";
    // match at 44; the window from 24 is widened back to the word "with"
    assert_eq!(
        generate_snippet(content, "Rust", 20).unwrap(),
        "...with some content about Rust programming."
    );
}

#[test]
fn snippet_whole_text_has_no_dots() {
    assert_eq!(generate_snippet("find me here", "me", 100).unwrap(), "find me here");
}

#[test]
fn snippet_none_cases() {
    assert_eq!(generate_snippet("", "x", 5), None);
    assert_eq!(generate_snippet("abc", "", 5), None);
    assert_eq!(generate_snippet("abc", "zzz", 5), None);
}

#[test]
fn snippet_unicode_path() {
    let s = generate_snippet("Größe der Datei", "DATEI", 0).unwrap();
    assert!(s.contains("Datei"));
}

#[test]
fn snippet_refuses_multibyte_space_before_start() {
    // an ideographic space right before the window start would be sliced
    let content = "ab\u{3000}cdefgh";
    assert_eq!(try_generate_snippet(content, "gh", 1), None);
    assert!(try_generate_snippet("ab cdefgh", "gh", 1).is_some());
}

#[test]
fn snippet_at_direct() {
    assert_eq!(snippet_at("one two three four", 8, 5, 0), "...three...");
}

#[test]
fn extension_allowed_cases() {
    let allowed = vec!["rs".to_string(), "md".to_string(), "ä".to_string()];
    assert!(extension_allowed("RS", &allowed));
    assert!(extension_allowed("md", &allowed));
    assert!(!extension_allowed("txt", &allowed));
    assert!(!extension_allowed("", &allowed));
    assert!(extension_allowed("Ä", &allowed));
}

#[test]
fn char_boundaries() {
    let s = "aé b";
    assert_eq!(floor_char_boundary(s, 2), 1);
    assert_eq!(ceil_char_boundary(s, 2), 3);
    assert_eq!(floor_char_boundary(s, 100), 5);
    assert_eq!(ceil_char_boundary(s, 100), 5);
}

#[test]
fn content_limits() {
    assert!(content_size_allowed(10, 100));
    assert!(!content_size_allowed(101, 100));
    assert!(!content_size_allowed(11 * 1024 * 1024, u64::MAX));
    assert_eq!(content_from_bytes(b"hi".to_vec()), Some("hi".to_string()));
    assert_eq!(content_from_bytes(vec![0xff, 0xfe]), None);
}

#[test]
fn first_snippet_tries_keywords_in_order() {
    let content = "alpha beta gamma";
    let kws = vec!["zzz".to_string(), "gamma".to_string(), "alpha".to_string()];
    assert_eq!(try_first_snippet(content, &kws, 0), Some(Some("...gamma".to_string())));
    assert_eq!(try_first_snippet(content, &["nope".to_string()], 0), Some(None));
    assert_eq!(try_first_snippet("ab\u{3000}cdefgh", &["gh".to_string()], 1), None);
}
