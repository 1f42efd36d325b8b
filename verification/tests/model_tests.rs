use hyperfind::models::{AppConfig, HyperFindError, IndexStats, SearchFilters, SortField, SortOrder, Timestamp,
    FileDocument};
use hyperfind::dto::{FileDocumentDto, IndexStatsDto, AppConfigDto, IndexedDirectoryDto};
use hyperfind::filters::{compile_post_filter, compile_bitmap_filter};
use hyperfind::bitmap::BitmapIndex;
use hyperfind::matcher::{score_keyword, score_keyword_ascii, match_document};
use hyperfind::models::EntryType;

fn doc(name: &str, path: &str) -> FileDocument {
    FileDocument {
        id: 1,
        name: name.to_string(),
        name_lower: name.to_lowercase(),
        path: path.to_string(),
        parent: String::new(),
        extension: String::new(),
        size: 5,
        modified: Timestamp { secs: 100, nanos: 0 },
        is_dir: false,
        content_hash: None,
    }
}

#[test]
fn defaults() {
    let c = AppConfig::default();
    assert_eq!(c.default_result_limit, 500);
    assert_eq!(c.excluded_patterns[1], "node_modules");
    assert_eq!(c.content_extensions.len(), 32);
    assert_eq!(c.content_max_size, 10 * 1024 * 1024);
    assert_eq!(SortField::default(), SortField::Relevance);
    assert_eq!(SortOrder::default(), SortOrder::Descending);
    assert_eq!(IndexStats::default().total_documents, 0);
}

#[test]
fn error_messages() {
    assert_eq!(HyperFindError::ConfigError("x".to_string()).message(), "Configuration error: x");
    assert_eq!(HyperFindError::IoError("disk".to_string()).message(), "IO error: disk");
    assert_eq!(HyperFindError::InternalError(String::new()).message(), "Internal error: ");
}

#[test]
fn timestamps_order() {
    let a = Timestamp { secs: 1, nanos: 5 };
    let b = Timestamp { secs: 1, nanos: 6 };
    assert!(a.is_before(&b));
    assert!(!b.is_before(&a));
    assert!(Timestamp::epoch().is_before(&a));
}

#[test]
fn keyword_scores() {
    assert_eq!(score_keyword(&doc("main.rs", "/p/main.rs"), "main.rs"), 100);
    assert_eq!(score_keyword(&doc("Main.rs", "/p/Main.rs"), "main"), 90);
    assert_eq!(score_keyword(&doc("mainframe", "/p/mainframe"), "main"), 75);
    assert_eq!(score_keyword(&doc("domain", "/p/domain"), "main"), 50);
    assert_eq!(score_keyword(&doc("x", "/main/x"), "main"), 25);
    assert_eq!(score_keyword(&doc("x", "/y/x"), "main"), 0);
    assert_eq!(score_keyword(&doc("Été.txt", "/p/Été.txt"), "été"), 90);
    assert_eq!(score_keyword_ascii("A.B.C", "/", "a.b"), 90);
}

#[test]
fn match_results() {
    let d = doc("main.rs", "/src/main.rs");
    let m = match_document(&d, &["main".to_string(), "src".to_string()]);
    assert!(m.matched);
    assert_eq!((m.total, m.count), (115, 2));
    let m = match_document(&d, &["main".to_string(), "zzz".to_string()]);
    assert!(!m.matched);
    assert_eq!(m.total, 0);
    let m = match_document(&d, &[]);
    assert!(m.matched);
    assert_eq!(m.count, 0);
}

#[test]
fn post_filter_checks() {
    let f = SearchFilters {
        path_contains: Some("SRC".to_string()),
        size_min: Some(5),
        size_max: Some(5),
        modified_after: Some(Timestamp { secs: 100, nanos: 0 }),
        modified_before: Some(Timestamp { secs: 100, nanos: 0 }),
        ..SearchFilters::default()
    };
    let p = compile_post_filter(&f);
    assert_eq!(p.path_contains_lower, Some("src".to_string()));
    assert!(p.matches(&doc("a", "/Src/a")));
    assert!(!p.matches(&doc("a", "/lib/a")));
    let f2 = SearchFilters { size_min: Some(6), ..SearchFilters::default() };
    assert!(!compile_post_filter(&f2).matches(&doc("a", "/a")));
}

#[test]
fn bitmap_filter_combines() {
    let mut bm = BitmapIndex::new();
    bm.build(&[(1, "rs", false), (2, "rs", true), (3, "md", false)]);
    let f = SearchFilters { extension: Some("RS".to_string()), entry_type: Some(EntryType::File), ..SearchFilters::default() };
    let t = compile_bitmap_filter(&f, &bm).unwrap();
    assert_eq!(t.iter().collect::<Vec<u64>>(), vec![1]);
    let f = SearchFilters { extension: Some("zip".to_string()), ..SearchFilters::default() };
    assert!(compile_bitmap_filter(&f, &bm).unwrap().is_empty());
    assert!(compile_bitmap_filter(&SearchFilters::default(), &bm).is_none());
}

#[test]
fn dto_conversions() {
    let d = FileDocumentDto::from_document(doc("a", "/a"));
    assert_eq!(d.modified, "1970-01-01T00:01:40+00:00");
    let s = IndexStatsDto::from_stats(IndexStats::default());
    assert!(s.last_scan.is_none());
    let c = AppConfigDto::from_config(AppConfig::default());
    assert_eq!(c.default_result_limit, 500);
    let back = c.into_config();
    assert_eq!(back.content_extensions.len(), 32);
    let dir = IndexedDirectoryDto { path: "/x".to_string(), enabled: false }.into_directory();
    assert_eq!(dir.path, "/x");
}
