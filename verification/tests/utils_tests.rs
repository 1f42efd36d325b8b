use hyperfind::text::{trim_whitespace, char_is_whitespace};
use hyperfind::codes::{pack_trigram, trigram_codes, generate_trigrams, trigram_hash};
use hyperfind::compare::ascii_cmp_ignore_case;
use hyperfind::text::{ascii_contains_ignore_case, ascii_eq_ignore_case, ascii_starts_with_ignore_case,
    normalize_string, matches_pattern, strip_prefix_ci, ascii_lowercase, str_eq};
use std::cmp::Ordering;

#[test]
fn test_trigram_codes() {
    let a = trigram_codes("hello");
    assert_eq!(a.len(), 3);
    assert_eq!(a, trigram_codes("HELLO"));
}

#[test]
fn test_pack_ascii_distinct() {
    assert_ne!(pack_trigram('a', 'b', 'c'), pack_trigram('a', 'b', 'd'));
}

#[test]
fn test_ascii_contains_ignore_case() {
    assert!(ascii_contains_ignore_case("HelloWorld", "world"));
    assert!(ascii_contains_ignore_case("ABCDEF", "bcd"));
    assert!(!ascii_contains_ignore_case("ABCDEF", "bd"));
}

#[test]
fn test_ascii_cmp_ignore_case() {
    assert_eq!(ascii_cmp_ignore_case("Abc", "abc"), Ordering::Equal);
    assert_eq!(ascii_cmp_ignore_case("abc", "abd"), Ordering::Less);
}

#[test]
fn pack_trigram_ascii_layout() {
    let expected = ((b'a' as u32) << 14) | ((b'b' as u32) << 7) | (b'c' as u32);
    assert_eq!(pack_trigram('a', 'b', 'c'), expected);
}

#[test]
fn pack_trigram_non_ascii_sets_top_bit() {
    let code = pack_trigram('é', 'a', 'b');
    assert_eq!(code & 0x8000_0000, 0x8000_0000);
    assert_eq!(code, pack_trigram('é', 'a', 'b'));
}

#[test]
fn trigram_codes_sorted_unique() {
    let codes = trigram_codes("aaaa");
    assert_eq!(codes.len(), 1);
    let codes = trigram_codes("abcab");
    for w in codes.windows(2) {
        assert!(w[0] < w[1]);
    }
    assert_eq!(trigram_codes("aB"), vec![pack_trigram('a', 'b', ' ')]);
    assert_eq!(trigram_codes("x"), vec![pack_trigram('x', ' ', ' ')]);
    assert!(trigram_codes("").is_empty());
}

#[test]
fn generate_trigrams_lists_windows() {
    let t = generate_trigrams("Hello");
    assert_eq!(t, vec!["hel".to_string(), "ell".to_string(), "llo".to_string()]);
    assert_eq!(generate_trigrams("Hi"), vec!["hi".to_string()]);
    assert!(generate_trigrams("").is_empty());
}

#[test]
fn trigram_hash_is_crc32() {
    let h = trigram_hash("abc");
    assert_eq!(h, crc32fast::hash(b"abc"));
}

#[test]
fn ascii_eq_and_prefix() {
    assert!(ascii_eq_ignore_case("README", "readme"));
    assert!(!ascii_eq_ignore_case("README", "read"));
    assert!(ascii_starts_with_ignore_case("README.md", "read"));
    assert!(!ascii_starts_with_ignore_case("RE", "read"));
}

#[test]
fn ascii_cmp_prefix_and_greater() {
    assert_eq!(ascii_cmp_ignore_case("ab", "abc"), Ordering::Less);
    assert_eq!(ascii_cmp_ignore_case("B", "a"), Ordering::Greater);
}

#[test]
fn normalize_string_ascii_and_unicode() {
    assert_eq!(normalize_string("HeLLo.TXT"), "hello.txt");
    assert_eq!(normalize_string("ÄBC"), "äbc");
}

#[test]
fn ascii_lowercase_keeps_non_ascii() {
    assert_eq!(ascii_lowercase("ÄBc"), "Äbc");
}

#[test]
fn matches_pattern_forms() {
    assert!(matches_pattern("anything", "*"));
    assert!(matches_pattern("file.log", "*.log"));
    assert!(!matches_pattern("file.txt", "*.log"));
    assert!(matches_pattern("node_modules", "node*"));
    assert!(matches_pattern(".git", ".git"));
    assert!(!matches_pattern(".github", ".git"));
}

#[test]
fn strip_prefix_ci_cases() {
    assert_eq!(strip_prefix_ci("EXT:rs", "ext:"), Some("rs"));
    assert_eq!(strip_prefix_ci("ex", "ext:"), None);
    assert_eq!(strip_prefix_ci("path:x", "ext:"), None);
}

#[test]
fn str_eq_compares_text() {
    assert!(str_eq("abc", "abc"));
    assert!(!str_eq("abc", "abd"));
}

#[test]
fn trim_whitespace_unicode() {
    assert_eq!(trim_whitespace("\u{3000} a b\t\n"), "a b");
    assert_eq!(trim_whitespace("   "), "");
    assert_eq!(trim_whitespace("x"), "x");
    for u in 0u32..=0x10FFFF {
        if let Some(c) = char::from_u32(u) {
            assert_eq!(char_is_whitespace(c), c.is_whitespace(), "{:?}", c);
        }
    }
}

#[test]
fn trigram_codes_empty_only_for_empty_text() {
    assert_eq!(trigram_codes("Ab"), vec![1601824]);
    assert_eq!(trigram_codes("É").len(), 1);
    assert_eq!(trigram_codes("ÉCOLE").len(), 3);
    assert_eq!(trigram_codes("ÉCOLE"), trigram_codes("école"));
    assert!(!trigram_codes("\u{130}").is_empty());
    assert!(trigram_codes("").is_empty());
}
