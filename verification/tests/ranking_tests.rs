use hyperfind::models::{FileDocument, SortField, SortOrder, Timestamp};
use hyperfind::ranking::rank_order;

fn doc(name: &str, path: &str, size: u64, secs: i64) -> FileDocument {
    FileDocument {
        id: 0,
        name: name.to_string(),
        name_lower: name.to_lowercase(),
        path: path.to_string(),
        parent: String::new(),
        extension: String::new(),
        size,
        modified: Timestamp { secs, nanos: 0 },
        is_dir: false,
        content_hash: None,
    }
}

#[test]
fn rank_by_name_is_stable_and_case_insensitive() {
    let docs = vec![doc("b", "/3", 1, 0), doc("A", "/1", 2, 0), doc("a", "/2", 3, 0)];
    assert_eq!(rank_order(&docs, SortField::Name, SortOrder::Ascending), vec![1, 2, 0]);
    assert_eq!(rank_order(&docs, SortField::Name, SortOrder::Descending), vec![0, 2, 1]);
}

#[test]
fn rank_by_path_size_and_time() {
    let docs = vec![doc("x", "/b", 30, 5), doc("y", "/a", 10, 7), doc("z", "/c", 20, 6)];
    assert_eq!(rank_order(&docs, SortField::Path, SortOrder::Ascending), vec![1, 0, 2]);
    assert_eq!(rank_order(&docs, SortField::Size, SortOrder::Ascending), vec![1, 2, 0]);
    assert_eq!(rank_order(&docs, SortField::Size, SortOrder::Descending), vec![0, 2, 1]);
    assert_eq!(rank_order(&docs, SortField::Modified, SortOrder::Descending), vec![1, 2, 0]);
    assert!(rank_order(&[], SortField::Size, SortOrder::Ascending).is_empty());
}

#[test]
fn rank_by_name_unicode() {
    let docs = vec![doc("Zeta", "/", 0, 0), doc("Ärger", "/", 0, 0), doc("alpha", "/", 0, 0)];
    assert_eq!(rank_order(&docs, SortField::Name, SortOrder::Ascending), vec![2, 0, 1]);
}

#[test]
fn rank_many_documents() {
    let docs: Vec<FileDocument> = (0..50_000u64).map(|i| doc("n", "/", (i * 7919) % 1000, 0)).collect();
    let order = rank_order(&docs, SortField::Size, SortOrder::Ascending);
    assert_eq!(order.len(), docs.len());
    for w in order.windows(2) {
        let (a, b) = (&docs[w[0]], &docs[w[1]]);
        assert!(a.size < b.size || (a.size == b.size && w[0] < w[1]));
    }
}
