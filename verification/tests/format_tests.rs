use hyperfind::numfmt::format_size;

fn reference(bytes: u64) -> String {
    const KB: u64 = 1024;
    const MB: u64 = KB * 1024;
    const GB: u64 = MB * 1024;
    const TB: u64 = GB * 1024;
    if bytes >= TB {
        format!("{:.2} TB", bytes as f64 / TB as f64)
    } else if bytes >= GB {
        format!("{:.2} GB", bytes as f64 / GB as f64)
    } else if bytes >= MB {
        format!("{:.2} MB", bytes as f64 / MB as f64)
    } else if bytes >= KB {
        format!("{:.2} KB", bytes as f64 / KB as f64)
    } else {
        format!("{} B", bytes)
    }
}

#[test]
fn format_size_examples() {
    assert_eq!(format_size(0), "0 B");
    assert_eq!(format_size(1023), "1023 B");
    assert_eq!(format_size(1024), "1.00 KB");
    assert_eq!(format_size(1152), "1.12 KB");
    assert_eq!(format_size(1408), "1.38 KB");
    assert_eq!(format_size(10 * 1024 * 1024), "10.00 MB");
    assert_eq!(format_size(u64::MAX), "16777216.00 TB");
}

#[test]
fn format_size_matches_float_formatting() {
    let mut x: u64 = 0x9E37_79B9_7F4A_7C15;
    for i in 0..20000u64 {
        x ^= x << 13;
        x ^= x >> 7;
        x ^= x << 17;
        let shift = (i % 64) as u32;
        let b = x >> shift;
        assert_eq!(format_size(b), reference(b), "bytes = {}", b);
    }
    for k in [1024u64, 1 << 20, 1 << 30, 1 << 40] {
        for d in 0..2000u64 {
            let b = k + d * (k / 1024).max(1) * 5;
            assert_eq!(format_size(b), reference(b), "bytes = {}", b);
            assert_eq!(format_size(k - 1 + d), reference(k - 1 + d), "bytes = {}", k - 1 + d);
        }
    }
    for b in [(1u64 << 53) + 1, (1u64 << 53) + 3, (1u64 << 60) + (1 << 7), (1u64 << 60) + (3 << 7), u64::MAX - 1] {
        assert_eq!(format_size(b), reference(b), "bytes = {}", b);
    }
}
