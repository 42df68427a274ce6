use krossbar_log::timestamp::{format_rotated_stamp, parse_stamp, Timestamp};

fn stamp() -> Timestamp {
    Timestamp {
        year: 2015,
        month: 2,
        day: 17,
        hour: 23,
        minute: 16,
        second: 9,
        millis: 0,
    }
}

#[test]
fn test_format_stamp() {
    let text = format_rotated_stamp(&stamp());
    assert_eq!(text, b"2015_02_17_23_16_09".to_vec());
}

#[test]
fn test_parse_stamp() {
    let parsed = parse_stamp(&b"2015_02_17_23_16_09".to_vec()).unwrap();
    assert_eq!(parsed, stamp());

    // Formatting and parsing round-trip.
    let parsed = parse_stamp(&format_rotated_stamp(&stamp())).unwrap();
    assert_eq!(parsed, stamp());

    // Out-of-range fields are rejected.
    assert!(parse_stamp(&b"2015_00_17_23_16_09".to_vec()).is_none());
    assert!(parse_stamp(&b"2015_02_30_23_16_09".to_vec()).is_none());
    assert!(parse_stamp(&b"2015_02_17_24_16_09".to_vec()).is_none());
    assert!(parse_stamp(&b"2015_02_17_23_60_09".to_vec()).is_none());
    // Misshapen texts are rejected.
    assert!(parse_stamp(&b"2015-02-17-23-16-09".to_vec()).is_none());
    assert!(parse_stamp(&b"2015_02_17_23_16_9".to_vec()).is_none());
    assert!(parse_stamp(&b"2015_02_17_23_16_0x".to_vec()).is_none());
}

#[test]
fn test_leap_days() {
    // A century year that is no leap year.
    assert!(parse_stamp(&b"1900_02_29_00_00_00".to_vec()).is_none());
    // A quadricentennial year that is.
    assert!(parse_stamp(&b"2000_02_29_00_00_00".to_vec()).is_some());
}

#[test]
fn test_stamp_order() {
    let older = stamp();
    let mut newer = stamp();
    newer.hour = 24 - 1;
    assert!(older.le(&newer));
    assert!(older.le(&older));

    let mut next_day = stamp();
    next_day.day = 18;
    next_day.hour = 0;
    assert!(older.le(&next_day));
    assert!(!next_day.le(&older));
}
