use skein::units::format_size;

fn reference(bytes: usize) -> String {
    if bytes >= 1024 * 1024 {
        format!("{:.2} MB", bytes as f64 / (1024.0 * 1024.0))
    } else if bytes >= 1024 {
        format!("{:.2} KB", bytes as f64 / 1024.0)
    } else {
        format!("{} B", bytes)
    }
}

#[test]
fn small_counts_are_whole_bytes() {
    assert_eq!(format_size(0), "0 B");
    assert_eq!(format_size(1023), "1023 B");
}

#[test]
fn kilobytes_and_megabytes_have_two_decimals() {
    assert_eq!(format_size(1024), "1.00 KB");
    assert_eq!(format_size(1536), "1.50 KB");
    assert_eq!(format_size(1048576), "1.00 MB");
    assert_eq!(format_size(5 * 1048576 + 524288), "5.50 MB");
}

#[test]
fn agrees_with_float_formatting() {
    let mut samples: Vec<usize> = vec![
        1024, 1152, 1153, 1151, 1035, 1034, 2047, 1048575, 1048576, 1048577, 1059061, 1059062,
        (1 << 53) - 1, 1 << 53, (1 << 53) + 1, (1 << 53) + 3, usize::MAX, usize::MAX - 1024,
        u32::MAX as usize, 123_456_789_012, 999_999_999_999_999,
    ];
    let mut x: u64 = 0x9E3779B97F4A7C15;
    for _ in 0..20000 {
        x ^= x << 13;
        x ^= x >> 7;
        x ^= x << 17;
        samples.push((x >> (x % 50)) as usize);
        samples.push((x % 2_000_000) as usize);
    }
    for b in samples {
        assert_eq!(format_size(b), reference(b), "bytes {b}");
    }
}
