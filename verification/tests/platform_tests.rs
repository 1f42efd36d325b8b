use hyperfind::mft::{parse_usn_buffer, resolve_paths, MftRecord, extract_extension, extract_parent,
    should_exclude, mft_documents, volume_prefix, volume_device_path, to_wide, encode_utf16};
use hyperfind::document::IdCounter;
use hyperfind::segment::{segment_body, finish_segment, check_segment_header, footer_candidates,
    verify_segment_checksum, footer_sections_fit, extract_sections, footer_step, FooterStep};
use hyperfind::volumes::parse_mounts;
use hyperfind::paths::{index_dir, log_dir, segments_dir, config_file_path, extract_file_name, extract_parent as path_parent,
    extract_stem, extract_extension as path_extension, normalize_path};
use hyperfind::platform::{LinuxFsScanner, LinuxFanotifyWatcher, MacOsFsScanner, MacOsFsWatcher, UsnJournalReader,
    LinuxScanner, LinuxWatcher, MacOsScanner, MacOsWatcher};
use hyperfind::models::HyperFindError;
use hyperfind::config::validate_directory;

fn record(file_ref: u64, parent_ref: u64, name: &str) -> MftRecord {
    MftRecord { file_ref, parent_ref, name: name.to_string(), is_dir: false, file_attributes: 0, timestamp: 0, file_size: 0 }
}

fn usn_entry(file_ref: u64, parent_ref: u64, attrs: u32, ts: i64, name: &str) -> Vec<u8> {
    let units: Vec<u16> = name.encode_utf16().collect();
    let mut e = vec![0u8; 64];
    let len = 64 + units.len() * 2;
    e[0..4].copy_from_slice(&(len as u32).to_le_bytes());
    e[8..16].copy_from_slice(&file_ref.to_le_bytes());
    e[16..24].copy_from_slice(&parent_ref.to_le_bytes());
    e[32..40].copy_from_slice(&ts.to_le_bytes());
    e[52..56].copy_from_slice(&attrs.to_le_bytes());
    e[56..58].copy_from_slice(&((units.len() * 2) as u16).to_le_bytes());
    e[58..60].copy_from_slice(&64u16.to_le_bytes());
    for u in units {
        e.extend_from_slice(&u.to_le_bytes());
    }
    e
}

#[test]
fn usn_buffer_parsing() {
    let mut buf = 77u64.to_le_bytes().to_vec();
    buf.extend(usn_entry(0x0001_0000_0000_0005, 5, 0x10, 42, "Users"));
    buf.extend(usn_entry(6, 5, 0, 0, "."));
    buf.extend(usn_entry(7, 5, 0, -1, "a.txt"));
    let n = buf.len();
    buf.extend(vec![0u8; 10]);
    let (next, recs) = parse_usn_buffer(&buf, n).unwrap();
    assert_eq!(next, 77);
    assert_eq!(recs.len(), 2);
    assert_eq!(recs[0].file_ref, 5);
    assert_eq!(recs[0].name, "Users");
    assert!(recs[0].is_dir);
    assert_eq!(recs[0].timestamp, 42);
    assert_eq!(recs[1].name, "a.txt");
    assert_eq!(recs[1].timestamp, -1);
    assert!(parse_usn_buffer(&buf, 7).is_none());
}

#[test]
fn resolve_paths_walks_parents() {
    let recs = vec![record(5, 5, "root"), record(10, 5, "Users"), record(11, 10, "bob"), record(12, 99, "orphan")];
    let out = resolve_paths(&recs, "C:\\");
    let paths: Vec<String> = out.iter().map(|(_, p)| p.clone()).collect();
    assert_eq!(paths, vec!["C:\\Users".to_string(), "C:\\Users\\bob".to_string(), "C:\\orphan".to_string()]);
    assert_eq!(out[1].0.name, "bob");
}

#[test]
fn record_name_helpers() {
    assert_eq!(extract_extension("Report.PDF"), "pdf");
    assert_eq!(extract_extension(".bashrc"), "");
    assert_eq!(extract_extension("trailing."), "");
    assert_eq!(extract_extension("noext"), "");
    assert_eq!(extract_parent("C:\\Users\\bob"), "C:\\Users");
    assert_eq!(extract_parent("nothing"), "");
    let pats = vec!["Node_Modules".to_string()];
    assert!(should_exclude("C:\\src\\node_modules\\x", &pats));
    assert!(!should_exclude("C:\\src\\node_modules2\\x", &pats));
    assert_eq!(volume_prefix('D'), "D:\\");
    assert_eq!(volume_device_path('D'), "\\\\.\\D:");
    assert_eq!(to_wide("ab"), vec![97u16, 98, 0]);
}

#[test]
fn mft_documents_numbers_and_filters() {
    let resolved = vec![
        (record(10, 5, "Users"), "C:\\Users".to_string()),
        (record(11, 10, ".git"), "C:\\Users\\.git".to_string()),
        (record(12, 10, "Notes.TXT"), "C:\\Users\\Notes.TXT".to_string()),
    ];
    let mut counter = IdCounter::new();
    let docs = mft_documents(&resolved, &[".git".to_string()], &mut counter);
    assert_eq!(docs.len(), 2);
    assert_eq!(docs[0].id, 1);
    assert_eq!(docs[1].id, 2);
    assert_eq!(docs[1].name_lower, "notes.txt");
    assert_eq!(docs[1].extension, "txt");
    assert_eq!(docs[1].parent, "C:\\Users");
}

#[test]
fn segment_roundtrip() {
    let (body, footer) = segment_body(b"[docs]", b"TRI", b"BM", 2);
    assert_eq!(&body[0..4], b"HFSG");
    assert_eq!(&body[4..8], &1u32.to_le_bytes());
    assert_eq!(&body[8..16], &2u64.to_le_bytes());
    assert_eq!(footer.doc_store_offset, 16);
    assert_eq!(footer.trigram_offset, 22);
    assert_eq!(footer.bitmap_offset, 25);
    assert_eq!(footer.doc_count, 2);
    assert_eq!(footer.checksum, crc32fast::hash(b"[docs]TRIBM"));
    let json = b"{\"footer\":1}";
    let file = finish_segment(body, json);
    assert!(check_segment_header(&file).is_ok());
    let cands = footer_candidates(&file);
    let pos = file.len() - 4 - json.len();
    assert!(cands.contains(&pos));
    assert!(verify_segment_checksum(&file, pos, footer.checksum).is_ok());
    assert!(footer_sections_fit(&file, &footer));
    let (d, t, b) = extract_sections(&file, &footer);
    assert_eq!((d.as_slice(), t.as_slice(), b.as_slice()), (&b"[docs]"[..], &b"TRI"[..], &b"BM"[..]));
}

#[test]
fn segment_header_errors() {
    let msg = |r: Result<(), HyperFindError>| match r {
        Err(HyperFindError::IndexError(m)) => m,
        _ => panic!("expected an index error"),
    };
    assert_eq!(msg(check_segment_header(b"HFS")), "Segment too small");
    assert_eq!(msg(check_segment_header(b"HFSG\x01\x00\x00\x00\x00")), "Segment too small");
    assert_eq!(msg(check_segment_header(b"XXXXXXXXXXXXXXXX")), "Invalid segment magic");
    assert_eq!(msg(check_segment_header(b"HFSG\x01\x00\x00\x00\x00\x00\x00\x00\x00\x00\x00\x00\x00")),
        "Segment too small for footer");
    assert!(check_segment_header(b"HFSG\x01\x00\x00\x00\x00\x00\x00\x00\x00\x00\x00\x00\x00\x00\x00\x00").is_ok());
    let data = b"HFSG\x01\x00\x00\x00\x00\x00\x00\x00\x00\x00\x00\x00abc\x00\x00\x00\x00";
    assert_eq!(msg(verify_segment_checksum(data, 19, 7)),
        format!("Segment checksum mismatch: expected 7, got {}", crc32fast::hash(b"abc")));
}

#[test]
fn mount_table_parsing() {
    let table = "proc /proc proc rw 0 0\n/dev/sda1 / ext4 rw 0 0\ntmpfs /run tmpfs rw 0 0\nnone relative ext4 rw\n/dev/sdb1 /data xfs rw 0 0\r\n";
    let vols = parse_mounts(table);
    let mounts: Vec<(String, Option<String>)> = vols.iter().map(|v| (v.mount_point.clone(), v.fs_type.clone())).collect();
    assert_eq!(mounts, vec![("/".to_string(), Some("ext4".to_string())), ("/data".to_string(), Some("xfs".to_string()))]);
    let vols = parse_mounts("");
    assert_eq!(vols.len(), 1);
    assert_eq!(vols[0].mount_point, "/");
    assert!(vols[0].fs_type.is_none());
}

#[test]
fn app_directories() {
    assert_eq!(index_dir("/data/hyperfind"), "/data/hyperfind/index");
    assert_eq!(log_dir("/data/hyperfind"), "/data/hyperfind/logs");
    assert_eq!(segments_dir("/data/hyperfind"), "/data/hyperfind/index/segments");
    assert_eq!(config_file_path("/cfg/hyperfind"), "/cfg/hyperfind/config.json");
}

#[test]
fn path_parts() {
    assert_eq!(extract_file_name("/a/b/Report.Final.PDF"), "Report.Final.PDF");
    assert_eq!(path_parent("/a/b/c.txt"), "/a/b");
    assert_eq!(extract_stem("/a/b/Report.Final.PDF"), "Report.Final");
    assert_eq!(path_extension("/a/b/Report.Final.PDF"), "pdf");
    assert_eq!(path_extension("/a/.bashrc"), "");
    assert_eq!(extract_file_name("/"), "");
    assert_eq!(normalize_path("a\\b/c", false), "a/b/c");
    assert_eq!(normalize_path("\\\\?\\C:/x/y", true), "C:\\x\\y");
}

#[test]
fn validate_directory_messages() {
    let msg = |r: Result<(), HyperFindError>| match r {
        Err(HyperFindError::ConfigError(m)) => m,
        _ => panic!("expected a config error"),
    };
    assert_eq!(msg(validate_directory("/x", false, false)), "Directory does not exist: /x");
    assert_eq!(msg(validate_directory("/x", true, false)), "Path is not a directory: /x");
    assert!(validate_directory("/x", true, true).is_ok());
}

#[test]
fn platform_placeholders() {
    assert!(LinuxFsScanner.scan("/").is_err());
    assert_eq!(LinuxFsScanner.name(), "linux-fs");
    assert!(LinuxFanotifyWatcher.start().is_err());
    assert!(LinuxFanotifyWatcher.stop().is_ok());
    assert!(MacOsFsScanner.scan("/").is_err());
    assert_eq!(MacOsFsScanner.name(), "macos-fs");
    assert!(MacOsFsWatcher.start().is_err());
    assert!(MacOsFsWatcher.stop().is_ok());
    let _r = UsnJournalReader::new('C');
}

#[test]
fn footer_step_decisions() {
    let (body, footer) = segment_body(b"[docs]", b"TRI", b"BM", 2);
    let json = b"{\"footer\":1}";
    let file = finish_segment(body, json);
    let pos = file.len() - 4 - json.len();
    assert!(matches!(footer_step(&file, pos, None), FooterStep::TryNext));
    assert!(matches!(footer_step(&file, 8, Some(footer)), FooterStep::InsideHeader));
    match footer_step(&file, pos, Some(footer)) {
        FooterStep::Done(Ok((d, t, b))) => {
            assert_eq!((d.as_slice(), t.as_slice(), b.as_slice()), (&b"[docs]"[..], &b"TRI"[..], &b"BM"[..]));
        }
        _ => panic!("expected the sections"),
    }
    let mut bad = footer;
    bad.checksum = footer.checksum ^ 1;
    match footer_step(&file, pos, Some(bad)) {
        FooterStep::Done(Err(HyperFindError::IndexError(m))) => {
            assert_eq!(m, format!("Segment checksum mismatch: expected {}, got {}", bad.checksum, footer.checksum));
        }
        _ => panic!("expected a checksum error"),
    }
    let mut long = footer;
    long.bitmap_len = 10_000;
    assert!(matches!(footer_step(&file, pos, Some(long)), FooterStep::SectionsOutside));
}

#[test]
fn utf16_encoding_matches_std() {
    for s in ["", "abc", "é", "日本語", "a\u{1F600}b", "\u{FFFF}\u{10000}\u{10FFFF}"] {
        let want: Vec<u16> = s.encode_utf16().collect();
        assert_eq!(encode_utf16(s), want);
    }
    assert_eq!(encode_utf16("\u{1F600}"), vec![0xD83D, 0xDE00]);
    assert_eq!(to_wide("\u{1F600}"), vec![0xD83D, 0xDE00, 0]);
}

#[test]
fn platform_traits_dispatch() {
    let scanners: Vec<Box<dyn LinuxScanner>> = vec![Box::new(LinuxFsScanner)];
    assert_eq!(scanners[0].name(), "linux-fs");
    assert!(scanners[0].scan("/").is_err());
    let w: &dyn LinuxWatcher = &LinuxFanotifyWatcher;
    assert!(w.start().is_err());
    assert!(w.stop().is_ok());
    let m: &dyn MacOsScanner = &MacOsFsScanner;
    assert_eq!(m.name(), "macos-fs");
    match m.scan("/") {
        Err(HyperFindError::PlatformError(msg)) => {
            assert_eq!(msg, "macOS native scanner not yet implemented. Use the cross-platform scanner.");
        }
        _ => panic!("expected a platform error"),
    }
    let mw: &dyn MacOsWatcher = &MacOsFsWatcher;
    assert!(mw.start().is_err());
    assert!(mw.stop().is_ok());
}
