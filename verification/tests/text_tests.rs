use disk_core::format::human_size;
use disk_core::text::decimal_text;

#[test]
fn decimal_text_renders_digits() {
    assert_eq!(decimal_text(0), "0");
    assert_eq!(decimal_text(7), "7");
    assert_eq!(decimal_text(10), "10");
    assert_eq!(decimal_text(1234567890), "1234567890");
    assert_eq!(decimal_text(u64::MAX as u128), u64::MAX.to_string());
    assert_eq!(decimal_text(u128::MAX), u128::MAX.to_string());
}

#[test]
fn human_size_rounds_to_the_nearest_tenth() {
    assert_eq!(human_size(1_049), "1.0 KB");
    assert_eq!(human_size(1_050), "1.1 KB");
    assert_eq!(human_size(999_949), "999.9 KB");
    assert_eq!(human_size(999_950), "1000.0 KB");
    assert_eq!(human_size(1_000_000_000_000_000), "1.0 PB");
    assert_eq!(human_size(u64::MAX), "18446.7 PB");
}

fn float_reference(bytes: u64) -> String {
    let units = ["KB", "MB", "GB", "TB", "PB"];
    if bytes < 1000 {
        return format!("{bytes} bytes");
    }
    let mut value = bytes as f64 / 1000.0;
    let mut unit = 0;
    while value >= 1000.0 && unit < units.len() - 1 {
        value /= 1000.0;
        unit += 1;
    }
    format!("{value:.1} {}", units[unit])
}

#[test]
fn human_size_shows_the_stored_quotient() {
    // 1.15 is stored just below 1.15; 1.05 just above 1.05; 1.25 exactly.
    assert_eq!(human_size(1_150), "1.1 KB");
    assert_eq!(human_size(1_050), "1.1 KB");
    assert_eq!(human_size(1_250), "1.2 KB");
    assert_eq!(human_size(1_350), "1.4 KB");
    assert_eq!(human_size(2_250), "2.2 KB");
}

#[test]
fn human_size_matches_float_formatting_on_every_small_count() {
    for bytes in 0u64..=300_000 {
        assert_eq!(human_size(bytes), float_reference(bytes), "bytes = {bytes}");
    }
}

#[test]
fn human_size_matches_float_formatting_across_the_range() {
    let mut x: u64 = 0x9E37_79B9_7F4A_7C15;
    for shift in 0..64 {
        for _ in 0..2_000 {
            x = x.wrapping_mul(6364136223846793005).wrapping_add(1442695040888963407);
            let bytes = x >> shift;
            assert_eq!(human_size(bytes), float_reference(bytes), "bytes = {bytes}");
        }
    }
    let two53: u64 = 1 << 53;
    for bytes in [
        two53 - 1,
        two53,
        two53 + 1,
        two53 + 3,
        u64::MAX - 1,
        u64::MAX,
        999_950_000,
        999_949_999,
        1_250_000_000_000,
        1_150_000_000_000_000,
    ] {
        assert_eq!(human_size(bytes), float_reference(bytes), "bytes = {bytes}");
    }
    for k in 1..=18 {
        let p = 10u64.pow(k);
        for bytes in [p - 1, p, p + 1, p / 2 * 3, p / 4 * 5, p / 20 * 23] {
            assert_eq!(human_size(bytes), float_reference(bytes), "bytes = {bytes}");
        }
    }
}

#[test]
fn a_count_is_shown_in_the_largest_unit_it_reaches() {
    assert_eq!(human_size(999_999_999), "1000.0 MB");
    assert_eq!(human_size(1_000_000_000), "1.0 GB");
    assert_eq!(human_size(999_999_999_999_999), "1000.0 TB");
    assert_eq!(human_size(5_000_000_000_000_000_000), "5000.0 PB");
}
