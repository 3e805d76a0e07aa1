use task_store::codec::{decode_timestamp, encode_timestamp};
use task_store::time::{days_in_month_exec, Timestamp};
use task_store::TaskError;

fn ts(year: u16, month: u8, day: u8, hour: u8, minute: u8, second: u8, milli: u16) -> Timestamp {
    Timestamp { year, month, day, hour, minute, second, milli }
}

#[test]
fn encode_exact_value() {
    let t = ts(2024, 1, 2, 3, 4, 5, 6);
    assert_eq!(encode_timestamp(&t), "2024-01-02T03:04:05.006Z");
}

#[test]
fn encode_largest_instant() {
    let t = ts(9999, 12, 31, 23, 59, 59, 999);
    assert_eq!(encode_timestamp(&t), "9999-12-31T23:59:59.999Z");
}

#[test]
fn encode_smallest_instant() {
    let t = ts(0, 1, 1, 0, 0, 0, 0);
    assert_eq!(encode_timestamp(&t), "0000-01-01T00:00:00.000Z");
}

#[test]
fn round_trip_reproduces_instant() {
    let cases = [
        ts(2024, 1, 2, 3, 4, 5, 6),
        ts(0, 1, 1, 0, 0, 0, 0),
        ts(9999, 12, 31, 23, 59, 59, 999),
        ts(2024, 2, 29, 12, 30, 45, 500),
        ts(1970, 6, 15, 7, 59, 1, 42),
    ];
    for t in cases {
        let wire = encode_timestamp(&t);
        let back = decode_timestamp("due_date", wire.as_str()).expect("canonical text decodes");
        assert_eq!(back, t);
    }
}

#[test]
fn decode_exact_value() {
    let t = decode_timestamp("created_at", "2025-10-11T08:15:00.250Z").unwrap();
    assert_eq!(t, ts(2025, 10, 11, 8, 15, 0, 250));
}

#[test]
fn decode_rejects_empty() {
    assert!(decode_timestamp("created_at", "").is_err());
}

#[test]
fn decode_error_names_field_and_value() {
    let e = decode_timestamp("completed_at", "garbage").unwrap_err();
    match e {
        TaskError::MalformedTimestamp { field, value } => {
            assert_eq!(field, "completed_at");
            assert_eq!(value, "garbage");
        }
        _ => panic!("expected a malformed-timestamp error"),
    }
    let msg = decode_timestamp("completed_at", "garbage").unwrap_err().message();
    assert_eq!(msg, "malformed timestamp in completed_at: garbage");
}

#[test]
fn decode_rejects_wrong_separators() {
    assert!(decode_timestamp("f", "2024-01-02 03:04:05.006Z").is_err());
    assert!(decode_timestamp("f", "2024/01/02T03:04:05.006Z").is_err());
    assert!(decode_timestamp("f", "2024-01-02T03:04:05.006x").is_err());
}

#[test]
fn decode_rejects_wrong_length() {
    assert!(decode_timestamp("f", "2024-01-02T03:04:05Z").is_err());
    assert!(decode_timestamp("f", "2024-01-02T03:04:05.006Zx").is_err());
}

#[test]
fn decode_rejects_nondigits() {
    assert!(decode_timestamp("f", "2O24-01-02T03:04:05.006Z").is_err());
    assert!(decode_timestamp("f", "2024-01-02T03:04:0a.006Z").is_err());
}

#[test]
fn decode_rejects_field_out_of_range() {
    assert!(decode_timestamp("f", "2024-13-02T03:04:05.006Z").is_err());
    assert!(decode_timestamp("f", "2024-00-02T03:04:05.006Z").is_err());
    assert!(decode_timestamp("f", "2024-01-32T03:04:05.006Z").is_err());
    assert!(decode_timestamp("f", "2024-01-02T24:04:05.006Z").is_err());
    assert!(decode_timestamp("f", "2024-01-02T03:60:05.006Z").is_err());
    assert!(decode_timestamp("f", "2024-01-02T03:04:60.006Z").is_err());
}

#[test]
fn decode_respects_calendar() {
    // 2023 is not a leap year; 2024 is; 1900 is not; 2000 is.
    assert!(decode_timestamp("f", "2023-02-29T00:00:00.000Z").is_err());
    assert!(decode_timestamp("f", "2024-02-29T00:00:00.000Z").is_ok());
    assert!(decode_timestamp("f", "1900-02-29T00:00:00.000Z").is_err());
    assert!(decode_timestamp("f", "2000-02-29T00:00:00.000Z").is_ok());
    assert!(decode_timestamp("f", "2024-04-31T00:00:00.000Z").is_err());
    assert!(decode_timestamp("f", "2024-04-30T00:00:00.000Z").is_ok());
}

#[test]
fn days_in_month_values() {
    assert_eq!(days_in_month_exec(2024, 2), 29);
    assert_eq!(days_in_month_exec(2023, 2), 28);
    assert_eq!(days_in_month_exec(1900, 2), 28);
    assert_eq!(days_in_month_exec(2000, 2), 29);
    assert_eq!(days_in_month_exec(2024, 4), 30);
    assert_eq!(days_in_month_exec(2024, 12), 31);
}

#[test]
fn from_parts_checks_ranges() {
    assert!(Timestamp::from_parts(2024, 2, 29, 0, 0, 0, 0).is_some());
    assert!(Timestamp::from_parts(2023, 2, 29, 0, 0, 0, 0).is_none());
    assert!(Timestamp::from_parts(10000, 1, 1, 0, 0, 0, 0).is_none());
    assert!(Timestamp::from_parts(-1, 1, 1, 0, 0, 0, 0).is_none());
    assert!(Timestamp::from_parts(2024, 1, 1, 0, 0, 0, 1000).is_none());
    assert!(Timestamp::from_parts(2024, 1, 1, 23, 59, 59, 999).is_some());
}

#[test]
fn instant_orders_chronologically() {
    let a = ts(2024, 1, 2, 3, 4, 5, 6);
    let b = ts(2024, 1, 2, 3, 4, 5, 7);
    let c = ts(2025, 1, 1, 0, 0, 0, 0);
    assert!(a.le(&b));
    assert!(!b.le(&a));
    assert!(b.le(&c));
    assert!(a.le(&a));
    assert!(a.instant_key() < b.instant_key());
}

#[test]
fn decode_then_encode_is_identity() {
    let wire = "2031-07-04T09:08:07.065Z";
    let t = decode_timestamp("f", wire).unwrap();
    assert_eq!(encode_timestamp(&t), wire);
}
