use hyperfind::trigram::TrigramIndex;
use hyperfind::hashindex::PathIndex;
use hyperfind::cache::QueryCache;
use hyperfind::index_store::IndexStore;
use hyperfind::models::{FileDocument, Timestamp, AppConfig, SearchQuery, SearchFilters, SortField, SortOrder,
    EntryType};
use hyperfind::scheduler::{Scheduler, IndexTask};
use hyperfind::document::{IdCounter, next_id, reset_id_counter, current_id_counter, IndexMeta};
use hyperfind::service::SearchService;
use hyperfind::dsl::parse_query;
use hyperfind::query::normalize_query;

fn doc(id: u64, name: &str, path: &str, ext: &str, is_dir: bool, size: u64) -> FileDocument {
    FileDocument {
        id,
        name: name.to_string(),
        name_lower: name.to_lowercase(),
        path: path.to_string(),
        parent: String::new(),
        extension: ext.to_string(),
        size,
        modified: Timestamp { secs: 1_000, nanos: 0 },
        is_dir,
        content_hash: None,
    }
}

#[test]
fn store_load_and_lookup() {
    let mut s = IndexStore::new();
    s.load(vec![doc(1, "main.rs", "/p/main.rs", "rs", false, 10), doc(2, "src", "/p/src", "", true, 0)]);
    assert_eq!(s.len(), 2);
    assert!(!s.is_empty());
    assert!(s.contains("/p/src"));
    assert_eq!(s.get_by_id(1).unwrap().name, "main.rs");
    assert!(s.get_by_id(9).is_none());
    let got = s.get_by_ids(&[2, 9, 1]);
    assert_eq!(got.iter().map(|d| d.id).collect::<Vec<_>>(), vec![2, 1]);
    assert_eq!(s.trigram_index().query("main"), vec![1]);
    assert!(s.bitmap_index().get_dirs().contains(&2));
}

#[test]
fn store_upsert_replaces_by_path() {
    let mut s = IndexStore::new();
    s.upsert(doc(1, "a.txt", "/a.txt", "txt", false, 1));
    s.upsert(doc(2, "a.txt", "/a.txt", "txt", false, 2));
    assert_eq!(s.len(), 1);
    assert!(s.get_by_id(1).is_none());
    assert_eq!(s.get_by_id(2).unwrap().size, 2);
    assert_eq!(s.trigram_index().query("a.t"), vec![2]);
}

#[test]
fn store_remove_moves_last() {
    let mut s = IndexStore::default();
    s.upsert(doc(1, "one", "/1", "", false, 1));
    s.upsert(doc(2, "two", "/2", "", false, 1));
    s.upsert(doc(3, "three", "/3", "", false, 1));
    assert!(s.remove("/1"));
    assert!(!s.remove("/1"));
    assert!(!s.contains("/1"));
    let all = s.all_documents();
    assert_eq!(all.iter().map(|d| d.id).collect::<Vec<_>>(), vec![3, 2]);
    assert_eq!(s.get_by_id(3).unwrap().path, "/3");
    assert!(s.trigram_index().query("one").is_empty());
    s.clear();
    assert!(s.is_empty());
}

#[test]
fn store_search_with_filters() {
    let mut s = IndexStore::new();
    s.load(vec![doc(1, "a", "/a", "", false, 5), doc(2, "b", "/b", "", false, 50)]);
    let big = s.search_with(|d: &FileDocument| d.size > 10);
    assert_eq!(big.len(), 1);
    assert_eq!(big[0].id, 2);
}

#[test]
fn cache_put_get_and_evict() {
    let mut c: QueryCache<u32> = QueryCache::new(2);
    c.put("a".to_string(), 1);
    c.put("b".to_string(), 2);
    assert_eq!(c.get("a"), Some(&1));
    c.put("c".to_string(), 3);
    assert_eq!(c.get("a"), None);
    assert_eq!(c.get("c"), Some(&3));
    assert_eq!(c.len(), 2);
    c.clear();
    assert!(c.is_empty());
}

#[test]
fn cache_zero_capacity_still_stores_last() {
    let mut c: QueryCache<u32> = QueryCache::new(0);
    c.put("a".to_string(), 1);
    c.put("b".to_string(), 2);
    assert_eq!(c.get("a"), None);
    assert_eq!(c.get("b"), Some(&2));
    let d: QueryCache<u8> = QueryCache::default();
    assert!(d.is_empty());
}

#[test]
fn scheduler_is_fifo() {
    let mut s = Scheduler::new();
    s.enqueue(IndexTask::FullRebuild);
    s.enqueue(IndexTask::ScanDirectory { path: "/x".to_string() });
    assert_eq!(s.pending_count(), 2);
    assert!(matches!(s.next_task(), Some(IndexTask::FullRebuild)));
    assert!(matches!(s.next_task(), Some(IndexTask::ScanDirectory { .. })));
    assert!(s.next_task().is_none());
    s.enqueue(IndexTask::ScanAllVolumes);
    s.clear();
    assert_eq!(s.pending_count(), 0);
}

#[test]
fn id_counter_sequence() {
    let mut c = IdCounter::new();
    assert_eq!(next_id(&mut c), 1);
    assert_eq!(next_id(&mut c), 2);
    assert_eq!(current_id_counter(&c), 3);
    reset_id_counter(&mut c, u64::MAX);
    assert_eq!(next_id(&mut c), u64::MAX);
    assert_eq!(current_id_counter(&c), 0);
}

#[test]
fn index_meta_fields() {
    let m = IndexMeta::new(10, 11, 1, 99);
    assert_eq!(m.version, 3);
    assert_eq!((m.doc_count, m.next_id, m.segment_count, m.trigram_count), (10, 11, 1, 99));
    assert!(!m.created_at.is_empty());
    let m2 = IndexMeta::with_created_at(0, 1, 0, 0, "t".to_string());
    assert_eq!(m2.created_at, "t");
}

fn service_with_docs() -> SearchService {
    let mut svc = SearchService::new(AppConfig::default());
    svc.index_store_mut().load(vec![
        doc(1, "main.rs", "/p/main.rs", "rs", false, 10),
        doc(2, "main.py", "/p/main.py", "py", false, 20),
        doc(3, "lib.rs", "/p/lib.rs", "rs", false, 30),
        doc(4, "maintenance", "/p/maintenance", "", true, 0),
    ]);
    svc
}

fn run(svc: &SearchService, raw: &str) -> Vec<(u64, u128)> {
    let q = normalize_query(parse_query(raw).ok().unwrap());
    svc.search_hits(&q).iter().map(|h| (h.document.id, h.result.total)).collect()
}

#[test]
fn service_search_hits() {
    let svc = service_with_docs();
    let mut hits = run(&svc, "main");
    hits.sort();
    assert_eq!(hits, vec![(1, 90), (2, 90), (4, 75)]);
    assert_eq!(run(&svc, "main ext:rs"), vec![(1, 90)]);
    assert_eq!(run(&svc, "type:dir"), vec![(4, 0)]);
    assert_eq!(run(&svc, "ext:zip"), Vec::<(u64, u128)>::new());
    assert_eq!(run(&svc, "size:>15 ext:rs"), vec![(3, 0)]);
    assert_eq!(run(&svc, "").len(), 4);
}

#[test]
fn service_config_and_stats() {
    let mut svc = service_with_docs();
    assert!(svc.add_directory("/p", true, true).is_ok());
    assert!(svc.add_directory("/p", true, true).is_err());
    assert!(svc.add_directory("/q", false, false).is_err());
    assert!(svc.add_directory("/q", true, false).is_err());
    assert_eq!(svc.enabled_directories(), vec!["/p".to_string()]);
    let stats = svc.compute_stats(123);
    assert_eq!(stats.total_documents, 4);
    assert_eq!(stats.total_files, 3);
    assert_eq!(stats.total_directories, 1);
    assert_eq!(stats.total_size_bytes, 60);
    assert_eq!(stats.indexed_roots, vec!["/p".to_string()]);
    assert_eq!(stats.segment_count, 1);
    assert_eq!(stats.index_size_bytes, 123);
    svc.remove_directory("/p");
    assert!(svc.get_config().directories.is_empty());
    let q = SearchQuery {
        raw: String::new(),
        keywords: vec![],
        filters: SearchFilters { entry_type: Some(EntryType::File), ..SearchFilters::default() },
        limit: None,
        sort_by: SortField::Relevance,
        sort_order: SortOrder::Descending,
        search_content: false,
    };
    assert_eq!(svc.search_hits(&q).len(), 3);
}

#[test]
fn path_index_get_insert_remove() {
    let mut p = PathIndex::new();
    p.insert("/a".to_string(), 1);
    p.insert("/b".to_string(), 2);
    p.insert("/a".to_string(), 3);
    assert_eq!(p.get("/a"), Some(3));
    assert_eq!(p.get("/b"), Some(2));
    assert_eq!(p.remove("/a"), Some(3));
    assert_eq!(p.get("/a"), None);
    assert_eq!(p.remove("/a"), None);
    p.clear();
    assert_eq!(p.get("/b"), None);
}

#[test]
fn store_load_many_documents() {
    let mut s = IndexStore::new();
    let docs: Vec<FileDocument> = (0..20_000u64)
        .map(|i| doc(i, &format!("file_{}.rs", i), &format!("/p/file_{}.rs", i), "rs", false, i))
        .collect();
    s.load(docs);
    assert_eq!(s.len(), 20_000);
    assert!(s.contains("/p/file_19999.rs"));
    assert_eq!(s.get_by_id(123).unwrap().name, "file_123.rs");
    assert_eq!(s.trigram_index().query("file_1999").len(), 11);
}

#[test]
fn store_indexes_follow_documents() {
    let mut s = IndexStore::new();
    s.load(vec![doc(1, "alpha.rs", "/a", "rs", false, 1), doc(2, "beta.md", "/b", "md", false, 1)]);
    s.upsert(doc(3, "gamma.rs", "/c", "rs", false, 1));
    s.upsert(doc(4, "alphabet.txt", "/a", "txt", false, 1));
    assert!(s.remove("/b"));
    let mut fresh = IndexStore::new();
    fresh.load(s.all_documents());
    for kw in ["alp", "gam", "beta", "rs", "txt"] {
        assert_eq!(s.trigram_index().query(kw), fresh.trigram_index().query(kw), "keyword {}", kw);
    }
    for ext in ["rs", "md", "txt"] {
        assert_eq!(s.bitmap_index().get_by_extension(ext), fresh.bitmap_index().get_by_extension(ext), "ext {}", ext);
    }
    assert_eq!(s.bitmap_index().get_files(), fresh.bitmap_index().get_files());
    assert_eq!(s.trigram_index().trigram_count(), fresh.trigram_index().trigram_count());
}

#[test]
fn trigram_incremental_matches_rebuild() {
    let docs: Vec<(u64, &str)> = vec![(1, "Readme.md"), (2, "main.rs"), (3, "mainline.txt")];
    let mut built = TrigramIndex::new();
    built.build(&docs);
    let mut added = TrigramIndex::new();
    for (id, name) in &docs {
        added.add_document(*id, name);
    }
    for kw in ["mai", "main", "read", "txt", "zz"] {
        assert_eq!(built.query(kw), added.query(kw));
    }
    assert_eq!(built.trigram_count(), added.trigram_count());
    assert_eq!(built.posting_count_sum(), added.posting_count_sum());
}
