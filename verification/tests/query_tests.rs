use hyperfind::dsl::{parse_query, try_parse_query, tokenize, parse_u64};
use hyperfind::dates::{parse_date, filetime_to_datetime};
use hyperfind::models::{EntryType, HyperFindError, SortField, SortOrder, SearchQuery, SearchFilters};
use hyperfind::query::normalize_query;

fn parse_error_text(r: Result<SearchQuery, HyperFindError>) -> String {
    match r {
        Err(HyperFindError::ParseError(m)) => m,
        _ => panic!("expected a parse error"),
    }
}

#[test]
fn tokenize_quotes_and_spaces() {
    let t = tokenize("a  \"b c\"\td").ok().unwrap();
    assert_eq!(t, vec!["a".to_string(), "b c".to_string(), "d".to_string()]);
    let t = tokenize("x\"y\"z").ok().unwrap();
    assert_eq!(t, vec!["x".to_string(), "y".to_string(), "z".to_string()]);
}

#[test]
fn tokenize_unclosed_quote() {
    match tokenize("\"open") {
        Err(HyperFindError::ParseError(m)) => assert_eq!(m, "Unclosed quote in query string"),
        _ => panic!("expected an error"),
    }
}

#[test]
fn parse_empty_query() {
    let q = parse_query("   ").ok().unwrap();
    assert_eq!(q.raw, "");
    assert!(q.keywords.is_empty());
    assert_eq!(q.sort_by, SortField::Relevance);
    assert_eq!(q.sort_order, SortOrder::Descending);
    assert!(!q.search_content);
}

#[test]
fn parse_filters_and_keywords() {
    let q = parse_query("  Report EXT:.PDF path:Docs size:>100 type:Folder content:yes ").ok().unwrap();
    assert_eq!(q.raw, "Report EXT:.PDF path:Docs size:>100 type:Folder content:yes");
    assert_eq!(q.keywords, vec!["report".to_string()]);
    assert_eq!(q.filters.extension, Some("pdf".to_string()));
    assert_eq!(q.filters.path_contains, Some("Docs".to_string()));
    assert_eq!(q.filters.size_min, Some(100));
    assert_eq!(q.filters.size_max, None);
    assert_eq!(q.filters.entry_type, Some(EntryType::Directory));
    assert!(q.search_content);
    assert_eq!(q.limit, None);
}

#[test]
fn parse_size_forms() {
    let q = parse_query("size:<+5").ok().unwrap();
    assert_eq!(q.filters.size_max, Some(5));
    let q = parse_query("size:42").ok().unwrap();
    assert_eq!(q.filters.size_min, Some(42));
    assert_eq!(q.filters.size_max, Some(42));
    assert_eq!(parse_error_text(parse_query("size:>abc")), "Invalid size: 'abc'");
    assert_eq!(parse_error_text(parse_query("size:x1")), "Invalid size: 'x1'");
}

#[test]
fn parse_modified_forms() {
    let q = parse_query("modified:2024-01-02").ok().unwrap();
    let day = q.filters.modified_after.unwrap();
    assert_eq!(day.secs, 1_704_153_600);
    assert_eq!(day.nanos, 0);
    assert_eq!(q.filters.modified_before.unwrap().secs, 1_704_153_600 + 86_400);
    let q = parse_query("modified:>2024-01-02").ok().unwrap();
    assert_eq!(q.filters.modified_after.unwrap().secs, 1_704_153_600);
    assert!(q.filters.modified_before.is_none());
    assert_eq!(parse_error_text(parse_query("modified:<soon")), "Invalid date: 'soon'");
}

#[test]
fn parse_type_errors_and_files() {
    let q = parse_query("type:FILE").ok().unwrap();
    assert_eq!(q.filters.entry_type, Some(EntryType::File));
    assert_eq!(
        parse_error_text(parse_query("type:Link")),
        "Unknown type filter: 'link'. Expected 'file' or 'dir'."
    );
    assert_eq!(parse_error_text(parse_query("a \"b")), "Unclosed quote in query string");
}

#[test]
fn parse_refuses_token_cut_inside_character() {
    // the first four bytes of this token end inside its second character
    assert!(try_parse_query("日本").is_none());
    assert!(try_parse_query("日本語のファイル").is_none());
    assert!(try_parse_query("é").is_some());
}

#[test]
fn parse_u64_forms() {
    assert_eq!(parse_u64("0"), Some(0));
    assert_eq!(parse_u64("+7"), Some(7));
    assert_eq!(parse_u64("18446744073709551615"), Some(u64::MAX));
    assert_eq!(parse_u64("18446744073709551616"), None);
    assert_eq!(parse_u64(""), None);
    assert_eq!(parse_u64("+"), None);
    assert_eq!(parse_u64("-1"), None);
    assert_eq!(parse_u64("1 "), None);
}

#[test]
fn parse_date_forms() {
    assert_eq!(parse_date("1970-01-01").unwrap().secs, 0);
    assert!(parse_date("2024-13-01").is_none());
    assert!(parse_date("nonsense").is_none());
}

#[test]
fn filetime_conversion() {
    let t = filetime_to_datetime(116_444_736_000_000_000);
    assert_eq!((t.secs, t.nanos), (0, 0));
    let t = filetime_to_datetime(116_444_736_012_345_678);
    assert_eq!((t.secs, t.nanos), (1, 234_567_800));
    let t = filetime_to_datetime(-5);
    assert_eq!((t.secs, t.nanos), (0, 0));
    let t = filetime_to_datetime(-10_000_000);
    assert_eq!((t.secs, t.nanos), (-11_644_473_601, 0));
}

#[test]
fn normalize_query_trims_and_defaults() {
    let q = SearchQuery {
        raw: "x".to_string(),
        keywords: vec!["  HeLLo ".to_string(), "   ".to_string(), "World".to_string()],
        filters: SearchFilters::default(),
        limit: None,
        sort_by: SortField::Name,
        sort_order: SortOrder::Ascending,
        search_content: true,
    };
    let n = normalize_query(q);
    assert_eq!(n.keywords, vec!["hello".to_string(), "world".to_string()]);
    assert_eq!(n.limit, Some(500));
    assert_eq!(n.sort_by, SortField::Name);
    let mut q2 = n.clone();
    q2.limit = Some(3);
    assert_eq!(normalize_query(q2).limit, Some(3));
}
