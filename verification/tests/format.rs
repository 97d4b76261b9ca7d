use mvitop::format::{bytes, duration, duration_from_secs, fallback, soc_name};
use std::time::Duration;

#[test]
fn formats_values_compactly() {
    assert_eq!(bytes(1_073_741_824), "1.0GiB");
    assert_eq!(duration(Duration::from_secs(3661)), "01:01:01");
}

fn reference_bytes(value: u64) -> String {
    let units = ["B", "KiB", "MiB", "GiB", "TiB"];
    let mut v = value as f64;
    let mut unit = 0;
    while v >= 1024.0 && unit < units.len() - 1 {
        v /= 1024.0;
        unit += 1;
    }
    if unit == 0 { format!("{v:.0}{}", units[unit]) } else { format!("{v:.1}{}", units[unit]) }
}

#[test]
fn byte_counts_use_binary_units() {
    assert_eq!(bytes(0), "0B");
    assert_eq!(bytes(1023), "1023B");
    assert_eq!(bytes(1024), "1.0KiB");
    assert_eq!(bytes(1536), "1.5KiB");
    assert_eq!(bytes(220 * 1024 * 1024), "220.0MiB");
    assert_eq!(bytes(5 * 1024 * 1024 * 1024 * 1024 * 1024), "5120.0TiB");
}

#[test]
fn byte_counts_round_like_float_formatting() {
    for value in [1075u64, 1076, 1126, 1127, 10_291, 1_048_575, 1_048_576, 123_456_789, 99_999_999_999, u64::MAX] {
        assert_eq!(bytes(value), reference_bytes(value), "value {value}");
    }
}

#[test]
fn durations_switch_to_days() {
    assert_eq!(duration_from_secs(0), "00:00:00");
    assert_eq!(duration_from_secs(59), "00:00:59");
    assert_eq!(duration_from_secs(86_399), "23:59:59");
    assert_eq!(duration_from_secs(86_400), "1d 00:00");
    assert_eq!(duration_from_secs(3 * 86_400 + 7 * 3_600 + 125), "3d 07:02");
}

#[test]
fn durations_ignore_fractions_of_a_second() {
    assert_eq!(duration(Duration::from_millis(61_999)), "00:01:01");
    assert_eq!(duration(Duration::from_secs(90_061)), "1d 01:01");
}

#[test]
fn empty_texts_fall_back() {
    assert_eq!(fallback(""), "N/A");
    assert_eq!(fallback("/bin/zsh"), "/bin/zsh");
    assert_eq!(soc_name(""), "Apple Silicon");
    assert_eq!(soc_name("Apple M4"), "Apple M4");
}
