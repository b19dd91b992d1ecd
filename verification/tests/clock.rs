use proxy::clock::{civil, format_rfc3339, health_body, rfc3339_at, Civil};
use proxy::now_rfc3339;

#[test]
fn rfc3339_shape() {
    let s = now_rfc3339();
    assert_eq!(s.len(), 20, "unexpected: {s}");
    assert!(s.ends_with('Z'));
    assert_eq!(&s[4..5], "-");
    assert_eq!(&s[10..11], "T");
}

#[test]
fn now_is_after_this_was_written() {
    let s = now_rfc3339();
    let year: i64 = s[0..4].parse().unwrap();
    assert!(year >= 2024, "unexpected: {s}");
    let secs = std::time::SystemTime::now()
        .duration_since(std::time::UNIX_EPOCH)
        .unwrap()
        .as_secs();
    // The clock may tick between the two readings.
    assert!(s <= rfc3339_at(Some(secs)));
    assert!(s >= rfc3339_at(Some(secs - 10)));
}

#[test]
fn known_times() {
    assert_eq!(rfc3339_at(None), "1970-01-01T00:00:00Z");
    assert_eq!(rfc3339_at(Some(0)), "1970-01-01T00:00:00Z");
    assert_eq!(rfc3339_at(Some(951782400)), "2000-02-29T00:00:00Z");
    assert_eq!(rfc3339_at(Some(1704067199)), "2023-12-31T23:59:59Z");
    assert_eq!(rfc3339_at(Some(1709210096)), "2024-02-29T12:34:56Z");
    assert_eq!(rfc3339_at(Some(4107542400)), "2100-03-01T00:00:00Z");
    assert_eq!(rfc3339_at(Some(253402300799)), "9999-12-31T23:59:59Z");
    assert_eq!(rfc3339_at(Some(253402300800)), "10000-01-01T00:00:00Z");
}

#[test]
fn consecutive_seconds_have_distinct_times() {
    let a = civil(951782399);
    let b = civil(951782400);
    assert!(a != b);
    assert_eq!(
        b,
        Civil { year: 2000, month: 2, day: 29, hour: 0, minute: 0, second: 0 }
    );
    assert_eq!(format_rfc3339(a), "2000-02-28T23:59:59Z");
}

#[test]
fn health_report() {
    assert_eq!(
        health_body(5575, "1970-01-01T00:00:00Z"),
        r#"{"status": "healthy", "type": "rust", "port": 5575, "timestamp": "1970-01-01T00:00:00Z"}"#
    );
}
