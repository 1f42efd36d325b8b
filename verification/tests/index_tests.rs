use hyperfind::bitmap::BitmapIndex;
use hyperfind::trigram::TrigramIndex;

#[test]
fn bitmap_test_build_and_query() {
    let mut bm = BitmapIndex::new();
    let docs = vec![(1u64, "rs", false), (2, "rs", false), (3, "txt", false), (4, "", true)];
    bm.build(&docs);

    let rs = bm.get_by_extension_arc("rs").unwrap();
    assert!(rs.contains(1));
    assert!(rs.contains(2));
    assert!(!rs.contains(3));

    assert_eq!(bm.get_files_arc().len(), 3);
    assert!(bm.get_dirs_arc().contains(4));
}

#[test]
fn bitmap_test_serialize_roundtrip() {
    let mut bm = BitmapIndex::new();
    bm.build(&[(1u64, "rs", false), (2, "py", false), (3, "", true)]);

    let data = bm.serialize();

    let mut bm2 = BitmapIndex::new();
    bm2.deserialize(&data);

    assert!(bm2.get_by_extension_arc("rs").unwrap().contains(1));
    assert!(bm2.get_dirs_arc().contains(3));
}

#[test]
fn trigram_test_build_and_query() {
    let mut idx = TrigramIndex::new();
    let docs = vec![(1u64, "main.rs"), (2, "main.py"), (3, "lib.rs"), (4, "maintenance.log")];
    let refs: Vec<(u64, &str)> = docs.iter().map(|(id, n)| (*id, *n)).collect();
    idx.build(&refs);

    let r = idx.query("main");
    assert!(r.contains(&1));
    assert!(r.contains(&2));
    assert!(r.contains(&4));
    assert!(!r.contains(&3));
}

#[test]
fn test_query_bitmap() {
    let mut idx = TrigramIndex::new();
    let refs: Vec<(u64, &str)> = vec![(1, "hello"), (2, "help"), (3, "world")];
    idx.build(&refs);

    let r = idx.query_bitmap("hel").unwrap();
    assert!(r.contains(1));
    assert!(r.contains(2));
    assert!(!r.contains(3));
}

#[test]
fn trigram_test_serialize_roundtrip() {
    let mut idx = TrigramIndex::new();
    let refs: Vec<(u64, &str)> = vec![(1, "hello"), (2, "help"), (3, "world")];
    idx.build(&refs);

    let data = idx.serialize();

    let mut idx2 = TrigramIndex::new();
    idx2.deserialize(&data);

    let r = idx2.query("hel");
    assert!(r.contains(&1));
    assert!(r.contains(&2));
}

#[test]
fn bitmap_extension_is_case_insensitive() {
    let mut bm = BitmapIndex::new();
    bm.add_document(7, "RS", false);
    assert!(bm.get_by_extension("rs").unwrap().contains(&7));
    assert!(bm.get_by_extension("Rs").unwrap().contains(&7));
    assert!(bm.get_files().contains(&7));
    assert!(bm.get_dirs().is_empty());
}

#[test]
fn bitmap_remove_drops_empty_extension() {
    let mut bm = BitmapIndex::new();
    bm.add_document(1, "txt", false);
    bm.add_document(2, "", true);
    bm.remove_document(1, "txt");
    bm.remove_document(2, "");
    assert!(bm.get_by_extension_arc("txt").is_none());
    assert!(bm.get_files().is_empty());
    assert!(bm.get_dirs().is_empty());
}

#[test]
fn bitmap_deserialize_short_data_is_empty() {
    let mut bm = BitmapIndex::new();
    bm.add_document(1, "txt", false);
    bm.deserialize(&[1, 2]);
    assert!(bm.get_files().is_empty());
    assert!(bm.get_by_extension_arc("txt").is_none());
}

#[test]
fn bitmap_clear_empties() {
    let mut bm = BitmapIndex::default();
    bm.add_document(1, "txt", true);
    bm.clear();
    assert!(bm.get_dirs().is_empty());
}

#[test]
fn trigram_add_remove_document() {
    let mut idx = TrigramIndex::new();
    idx.add_document(5, "report.pdf");
    assert_eq!(idx.query("report"), vec![5]);
    idx.remove_document(5, "report.pdf");
    assert!(idx.query("report").is_empty());
    assert_eq!(idx.trigram_count(), 0);
}

#[test]
fn trigram_query_short_keyword_is_padded() {
    let mut idx = TrigramIndex::new();
    idx.add_document(1, "ab");
    idx.add_document(2, "abc");
    assert_eq!(idx.query("AB"), vec![1]);
    assert!(idx.query("").is_empty());
    assert!(idx.query_bitmap("").is_none());
}

#[test]
fn trigram_query_into_and_counts() {
    let mut idx = TrigramIndex::new();
    idx.build(&[(1, "abcd"), (2, "bcde")]);
    let mut out = vec![99u64];
    idx.query_into("bcd", &mut out);
    assert_eq!(out, vec![1, 2]);
    assert_eq!(idx.trigram_count(), 3);
    assert_eq!(idx.posting_count_sum(), 4);
    idx.compact();
    assert_eq!(idx.trigram_count(), 3);
    idx.clear();
    assert_eq!(idx.trigram_count(), 0);
}

#[test]
fn trigram_deserialize_short_data_is_empty() {
    let mut idx = TrigramIndex::new();
    idx.add_document(1, "hello");
    idx.deserialize(&[0, 0]);
    assert_eq!(idx.trigram_count(), 0);
}

#[test]
fn bitmap_deserialize_unsorted_containers() {
    // A treemap with one bitmap whose two containers come in the wrong key
    // order: key 1 holding 7 (the value 65543), then key 0 holding 3.
    let tm: Vec<u8> = vec![
        1, 0, 0, 0, 0, 0, 0, 0, // one bitmap
        0, 0, 0, 0, // its key
        0x3A, 0x30, 0, 0, // cookie without run containers
        2, 0, 0, 0, // two containers
        1, 0, 0, 0, // key 1, one value
        0, 0, 0, 0, // key 0, one value
        0, 0, 0, 0, 0, 0, 0, 0, // offsets
        7, 0, // values of the first container
        3, 0, // values of the second container
    ];
    let mut data: Vec<u8> = vec![1, 0, 0, 0, 2, 0, b'r', b's'];
    data.extend_from_slice(&(tm.len() as u32).to_le_bytes());
    data.extend_from_slice(&tm);
    for _ in 0..2 {
        data.extend_from_slice(&[8, 0, 0, 0]);
        data.extend_from_slice(&[0; 8]);
    }
    let mut bm = BitmapIndex::new();
    bm.deserialize(&data);
    let rs = bm.get_by_extension("rs").unwrap();
    assert_eq!(rs.len(), 2);
    assert!(rs.contains(&3) && rs.contains(&65543));
    let arc = bm.get_by_extension_arc("rs").unwrap();
    assert!(arc.contains(65543));
    assert_eq!(arc.len(), 2);
    bm.remove_document(65543, "rs");
    let rs = bm.get_by_extension("rs").unwrap();
    assert_eq!(rs.len(), 1);
    assert!(rs.contains(&3));
}

#[test]
fn bitmap_deserialize_empty_run_container() {
    // "rs" holds 5 in a bitmap that also has an empty run container.
    let tm: Vec<u8> = vec![
        1, 0, 0, 0, 0, 0, 0, 0, // one bitmap
        0, 0, 0, 0, // its key
        0x3B, 0x30, 1, 0, // cookie with run containers, two containers
        2, // the second container is a run container
        0, 0, 0, 0, // key 0, one value
        1, 0, 0, 0, // key 1
        5, 0, // the value of the first container
        0, 0, // no runs in the second
    ];
    let mut data: Vec<u8> = vec![1, 0, 0, 0, 2, 0, b'r', b's'];
    data.extend_from_slice(&(tm.len() as u32).to_le_bytes());
    data.extend_from_slice(&tm);
    for _ in 0..2 {
        data.extend_from_slice(&[8, 0, 0, 0]);
        data.extend_from_slice(&[0; 8]);
    }
    let mut bm = BitmapIndex::new();
    bm.deserialize(&data);
    let rs = bm.get_by_extension("rs").unwrap();
    assert_eq!(rs.len(), 1);
    assert!(rs.contains(&5));
    bm.remove_document(5, "rs");
    assert!(bm.get_by_extension_arc("rs").is_none());
    assert!(bm.get_by_extension("rs").is_none());
}

#[test]
fn trigram_deserialize_unsorted_containers() {
    let mut one = TrigramIndex::new();
    one.add_document(1, "abc");
    let bytes = one.serialize();
    let code = &bytes[4..8];
    let tm: Vec<u8> = vec![
        1, 0, 0, 0, 0, 0, 0, 0, 0, 0, 0, 0, 0x3A, 0x30, 0, 0, 2, 0, 0, 0, 1, 0, 0, 0, 0, 0, 0, 0, 0, 0, 0, 0, 0,
        0, 0, 0, 7, 0, 3, 0,
    ];
    let mut data: Vec<u8> = vec![1, 0, 0, 0];
    data.extend_from_slice(code);
    data.extend_from_slice(&(tm.len() as u32).to_le_bytes());
    data.extend_from_slice(&tm);
    let mut idx = TrigramIndex::new();
    idx.deserialize(&data);
    assert_eq!(idx.query("abc"), vec![3, 65543]);
    assert_eq!(idx.posting_count_sum(), 2);
    idx.remove_document(65543, "abc");
    assert_eq!(idx.query("abc"), vec![3]);
}

#[test]
fn trigram_compact_keeps_posting_count() {
    let mut idx = TrigramIndex::new();
    idx.build(&[(1, "hello"), (2, "help"), (3, "world")]);
    let before_sum = idx.posting_count_sum();
    let before_count = idx.trigram_count();
    let before_q = idx.query("hel");
    idx.compact();
    assert_eq!(idx.posting_count_sum(), before_sum);
    assert_eq!(idx.trigram_count(), before_count);
    assert_eq!(idx.query("hel"), before_q);
    assert_eq!(before_sum, 8);
}

#[test]
fn trigram_query_bitmap_none_only_for_empty() {
    let mut idx = TrigramIndex::new();
    idx.build(&[(1, "ab"), (2, "abc"), (3, "Émile")]);
    assert!(idx.query_bitmap("").is_none());
    let ab = idx.query_bitmap("ab").unwrap();
    assert_eq!(ab.len(), 1);
    assert!(ab.contains(1));
    assert!(idx.query_bitmap("É").is_some());
    assert_eq!(idx.query("émi"), vec![3]);
}

#[test]
fn bitmap_serialize_roundtrip_sets() {
    let mut bm = BitmapIndex::new();
    bm.build(&[(1u64, "rs", false), (2, "py", false), (3, "", true)]);
    let data = bm.serialize();
    let mut bm2 = BitmapIndex::new();
    bm2.deserialize(&data);
    let rs = bm2.get_by_extension("rs").unwrap();
    assert_eq!(rs.len(), 1);
    assert!(rs.contains(&1));
    let py = bm2.get_by_extension("py").unwrap();
    assert_eq!(py.len(), 1);
    assert!(py.contains(&2));
    let files = bm2.get_files();
    assert_eq!(files.len(), 2);
    assert!(files.contains(&1) && files.contains(&2));
    let dirs = bm2.get_dirs();
    assert_eq!(dirs.len(), 1);
    assert!(dirs.contains(&3));
}
