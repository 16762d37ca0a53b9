use paste_it::clock::{current_timestamp, timestamp_from_reading};

#[test]
fn reading_is_rendered_as_rfc3339_utc() {
    assert_eq!(timestamp_from_reading(Some((0, 0))), Some("1970-01-01T00:00:00+00:00".to_string()));
    assert_eq!(
        timestamp_from_reading(Some((1_700_000_000, 500_000_000))),
        Some("2023-11-14T22:13:20.500+00:00".to_string())
    );
}

#[test]
fn missing_or_oversized_reading_gives_no_timestamp() {
    assert_eq!(timestamp_from_reading(None), None);
    assert_eq!(timestamp_from_reading(Some((u64::MAX, 0))), None);
    assert_eq!(timestamp_from_reading(Some((0x8000_0000_0000_0000, 0))), None);
}

#[test]
fn current_timestamp_is_after_the_epoch() {
    let ts = current_timestamp().unwrap();
    assert!(ts.as_str() > "2020");
    assert!(ts.ends_with("+00:00"));
}
