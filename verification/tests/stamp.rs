use criterion_cbor::{parse_measurement_datetime, LocalStamp, ModTime};

fn stamp(year: i32, month: u32, day: u32, hour: u32, minute: u32, second: u32) -> LocalStamp {
    LocalStamp { year, month, day, hour, minute, second, nanosecond: 0 }
}

#[test]
fn measurement_name_gives_its_stamp() {
    assert_eq!(
        parse_measurement_datetime("measurement_240102030405.cbor"),
        Some(stamp(2024, 1, 2, 3, 4, 5))
    );
    assert_eq!(
        parse_measurement_datetime("measurement_991231235959.cbor"),
        Some(stamp(1999, 12, 31, 23, 59, 59))
    );
}

#[test]
fn measurement_name_needs_prefix_and_extension() {
    assert_eq!(parse_measurement_datetime("240102030405.cbor"), None);
    assert_eq!(parse_measurement_datetime("measurement_240102030405"), None);
    assert_eq!(parse_measurement_datetime("measurement_240102030405.json"), None);
    assert_eq!(parse_measurement_datetime("benchmark.cbor"), None);
    assert_eq!(parse_measurement_datetime("measurement_.cbor"), None);
    assert_eq!(parse_measurement_datetime(""), None);
    assert_eq!(parse_measurement_datetime(".cbor"), None);
}

#[test]
fn measurement_name_needs_a_real_date() {
    assert_eq!(parse_measurement_datetime("measurement_241302030405.cbor"), None);
    assert_eq!(parse_measurement_datetime("measurement_240102250405.cbor"), None);
    assert_eq!(parse_measurement_datetime("measurement_2401020304.cbor"), None);
    assert_eq!(parse_measurement_datetime("measurement_24010203040506.cbor"), None);
    assert_eq!(parse_measurement_datetime("measurement_yesterday.cbor"), None);
}

#[test]
fn stamps_are_ordered_from_the_year_down() {
    let early = stamp(2024, 1, 2, 3, 4, 5);
    assert!(early.is_earlier_than(&stamp(2025, 1, 1, 0, 0, 0)));
    assert!(early.is_earlier_than(&stamp(2024, 2, 1, 0, 0, 0)));
    assert!(early.is_earlier_than(&stamp(2024, 1, 3, 0, 0, 0)));
    assert!(early.is_earlier_than(&stamp(2024, 1, 2, 4, 0, 0)));
    assert!(early.is_earlier_than(&stamp(2024, 1, 2, 3, 5, 0)));
    assert!(early.is_earlier_than(&stamp(2024, 1, 2, 3, 4, 6)));
    assert!(!early.is_earlier_than(&early));
    assert!(!stamp(2024, 1, 2, 3, 4, 6).is_earlier_than(&early));
    let leap = LocalStamp { nanosecond: 1_000_000_000, ..early };
    assert!(early.is_earlier_than(&leap));
}

#[test]
fn modification_times_compare_seconds_then_nanos() {
    let base = ModTime { seconds: 100, nanos: 500 };
    assert!(ModTime { seconds: 101, nanos: 0 }.is_later_than(&base));
    assert!(ModTime { seconds: 100, nanos: 501 }.is_later_than(&base));
    assert!(!ModTime { seconds: 100, nanos: 500 }.is_later_than(&base));
    assert!(!ModTime { seconds: 99, nanos: 999 }.is_later_than(&base));
    assert!(ModTime { seconds: -1, nanos: 0 }.is_later_than(&ModTime { seconds: -2, nanos: 9 }));
}
