use disk_core::format::human_size;

#[test]
fn formats_bytes_below_one_kilobyte() {
    assert_eq!(human_size(0), "0 bytes");
    assert_eq!(human_size(500), "500 bytes");
    assert_eq!(human_size(999), "999 bytes");
}

#[test]
fn formats_kilobytes() {
    assert_eq!(human_size(1_000), "1.0 KB");
    assert_eq!(human_size(1_500), "1.5 KB");
}

#[test]
fn formats_larger_units() {
    assert_eq!(human_size(1_000_000), "1.0 MB");
    assert_eq!(human_size(2_500_000_000), "2.5 GB");
    assert_eq!(human_size(1_000_000_000_000), "1.0 TB");
}
