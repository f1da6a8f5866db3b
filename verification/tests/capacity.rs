use rgit::capacity::{decide, min_free_bytes, parse_u64, BYTES_PER_MB};
use std::path::Path;

#[test]
fn decide_reflects_actual_free_space_on_current_volume() {
    let free = fs2::available_space(Path::new(".")).ok();
    let decision = decide(free, min_free_bytes(None).unwrap());
    assert!(decision.free_bytes > 0, "expected to measure nonzero free space, got {decision:?}");
}

#[test]
fn nonexistent_path_denies_safely() {
    let free = fs2::available_space(Path::new("Z:\\this-path-should-not-exist-anywhere-12345")).ok();
    let decision = decide(free, min_free_bytes(None).unwrap());
    assert!(!decision.allowed);
}

#[test]
fn decision_compares_free_space_with_the_minimum() {
    let d = decide(Some(2000), 1000);
    assert!(d.allowed);
    assert_eq!(d.free_bytes, 2000);
    assert_eq!(d.min_free_bytes, 1000);
    assert!(!decide(Some(1000), 1000).allowed);
    let failed = decide(None, 5);
    assert!(!failed.allowed);
    assert_eq!(failed.free_bytes, 0);
    assert_eq!(failed.min_free_bytes, 5);
}

#[test]
fn minimum_defaults_to_one_gibibyte() {
    assert_eq!(min_free_bytes(None), Some(1024 * 1024 * 1024));
    assert_eq!(min_free_bytes(Some("not a number")), Some(1024 * BYTES_PER_MB));
    assert_eq!(min_free_bytes(Some("")), Some(1024 * BYTES_PER_MB));
    assert_eq!(min_free_bytes(Some(" 5")), Some(1024 * BYTES_PER_MB));
}

#[test]
fn minimum_follows_the_setting() {
    assert_eq!(min_free_bytes(Some("2048")), Some(2048 * BYTES_PER_MB));
    assert_eq!(min_free_bytes(Some("+3")), Some(3 * BYTES_PER_MB));
    assert_eq!(min_free_bytes(Some("0")), Some(0));
    // 2^44 MiB is 2^64 bytes: one more than fits.
    assert_eq!(min_free_bytes(Some("17592186044416")), None);
    assert_eq!(min_free_bytes(Some("17592186044415")), Some(17592186044415 * BYTES_PER_MB));
}

#[test]
fn reads_u64_like_the_standard_library() {
    for text in ["0", "+7", "18446744073709551615", "18446744073709551616", "-1", "+", "", "1a", "007"] {
        assert_eq!(parse_u64(text), text.parse::<u64>().ok(), "{text}");
    }
}
