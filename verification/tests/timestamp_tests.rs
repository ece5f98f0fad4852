use snippet_store::error::StorageError;
use snippet_store::timestamp::{now_utc, parse_rfc3339, Timestamp};

fn ts(
    year: u16,
    month: u8,
    day: u8,
    hour: u8,
    minute: u8,
    second: u8,
    offset_minutes: i32,
) -> Timestamp {
    Timestamp { year, month, day, hour, minute, second, offset_minutes }
}

#[test]
fn format_utc_exact() {
    let t = ts(2024, 1, 2, 3, 4, 5, 0);
    assert_eq!(t.format(), "2024-01-02T03:04:05Z");
}

#[test]
fn format_positive_offset_exact() {
    let t = ts(2024, 12, 31, 23, 59, 58, 330);
    assert_eq!(t.format(), "2024-12-31T23:59:58+05:30");
}

#[test]
fn format_negative_offset_exact() {
    let t = ts(1999, 6, 7, 8, 9, 10, -90);
    assert_eq!(t.format(), "1999-06-07T08:09:10-01:30");
}

#[test]
fn parse_round_trip_utc() {
    let t = ts(2024, 2, 29, 0, 0, 0, 0);
    assert_eq!(parse_rfc3339(&t.format()), Ok(t));
}

#[test]
fn parse_round_trip_offsets() {
    for off in [-1439, -60, -1, 1, 59, 60, 765, 1439] {
        let t = ts(2001, 9, 9, 1, 46, 40, off);
        assert_eq!(parse_rfc3339(&t.format()), Ok(t));
    }
}

#[test]
fn parse_exact_value() {
    assert_eq!(
        parse_rfc3339("2024-01-02T03:04:05Z"),
        Ok(ts(2024, 1, 2, 3, 4, 5, 0))
    );
    assert_eq!(
        parse_rfc3339("2024-01-02T03:04:05+05:30"),
        Ok(ts(2024, 1, 2, 3, 4, 5, 330))
    );
    assert_eq!(
        parse_rfc3339("2024-01-02T03:04:05-00:01"),
        Ok(ts(2024, 1, 2, 3, 4, 5, -1))
    );
}

#[test]
fn parse_rejects_malformed() {
    for bad in [
        "",
        "2024-01-02",
        "2024-13-01T00:00:00Z",
        "2024-00-01T00:00:00Z",
        "2024-01-00T00:00:00Z",
        "2024-01-32T00:00:00Z",
        "2024-02-30T00:00:00Z",
        "2023-02-29T00:00:00Z",
        "2024-01-02T24:00:00Z",
        "2024-01-02T00:60:00Z",
        "2024-01-02T00:00:60Z",
        "2024-01-02 03:04:05Z",
        "2024-01-02T03:04:05",
        "2024-01-02T03:04:05+00:00",
        "2024-01-02T03:04:05-00:00",
        "2024-01-02T03:04:05+24:00",
        "2024-01-02T03:04:05+05:60",
        "x024-01-02T03:04:05Z",
        "2024-01-02T03:04:05Zx",
    ] {
        assert_eq!(parse_rfc3339(bad), Err(StorageError::Parse), "input: {bad}");
    }
}

#[test]
fn leap_year_day_accepted() {
    assert_eq!(
        parse_rfc3339("2024-02-29T12:00:00Z"),
        Ok(ts(2024, 2, 29, 12, 0, 0, 0))
    );
    assert_eq!(
        parse_rfc3339("2000-02-29T12:00:00Z"),
        Ok(ts(2000, 2, 29, 12, 0, 0, 0))
    );
    assert_eq!(parse_rfc3339("1900-02-29T12:00:00Z"), Err(StorageError::Parse));
}

#[test]
fn clock_gives_wellformed_utc() {
    let t = now_utc().expect("clock within range");
    assert_eq!(t.offset_minutes, 0);
    // The captured moment survives the fixed format, to the second.
    assert_eq!(parse_rfc3339(&t.format()), Ok(t));
}
