//! The line that a crash leaves in the log.

use ironcache::panic_hook::{location_line, panic_summary, payload_message, REPORT_URL};

#[test]
fn summary_contains_the_actionable_fields() {
    let s = panic_summary(
        "assertion failed: x > 0",
        Some("src/serve.rs:42:9"),
        "2026.0707.1",
    );
    assert!(s.contains("assertion failed: x > 0"), "message present: {s}");
    assert!(s.contains("src/serve.rs:42:9"), "location present: {s}");
    assert!(s.contains("2026.0707.1"), "version present: {s}");
    assert!(s.contains(REPORT_URL), "report URL present: {s}");
    assert!(s.contains("PANICKED"), "flags the crash loudly: {s}");
}

#[test]
fn summary_tolerates_a_missing_location() {
    let s = panic_summary("boom", None, "0.0.0");
    assert!(s.contains("boom"), "{s}");
    assert!(s.contains("an unknown location"), "{s}");
    assert!(s.contains(REPORT_URL), "{s}");
}

#[test]
fn a_location_is_file_line_and_column() {
    assert_eq!(location_line("src/serve.rs", 42, 9), "src/serve.rs:42:9");
}

#[test]
fn a_payload_that_is_no_text_still_has_a_message() {
    assert_eq!(payload_message(Some("boom")), "boom");
    assert_ne!(payload_message(None), "");
}
