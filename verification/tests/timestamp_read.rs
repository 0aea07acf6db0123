use chrono::{DateTime, NaiveDate};
use red_dot_count::timestamp::{
    combine_timestamp, has_compact_shape, timestamp_from_calendar, Timestamp,
};

fn seconds_of(year: i32, month: u32, day: u32, hour: u32, minute: u32, second: u32) -> i64 {
    NaiveDate::from_ymd_opt(year, month, day)
        .unwrap()
        .and_hms_opt(hour, minute, second)
        .unwrap()
        .and_utc()
        .timestamp()
}

fn written(stamp: Timestamp) -> String {
    DateTime::from_timestamp(stamp.seconds, 0)
        .unwrap()
        .naive_utc()
        .format("%Y-%m-%dT%H:%M:%S")
        .to_string()
}

#[test]
fn date_and_time_tokens_combine_into_a_timestamp() {
    let stamp = combine_timestamp("20240115", "083000").unwrap();
    assert_eq!(stamp, Timestamp { seconds: 1_705_307_400 });
    assert_eq!(stamp.seconds, seconds_of(2024, 1, 15, 8, 30, 0));
    assert_eq!(written(stamp), "2024-01-15T08:30:00");
}

#[test]
fn timestamps_of_known_moments() {
    assert_eq!(combine_timestamp("19700101", "000000"), Some(Timestamp { seconds: 0 }));
    assert_eq!(combine_timestamp("19700101", "000001"), Some(Timestamp { seconds: 1 }));
    assert_eq!(combine_timestamp("19691231", "235959"), Some(Timestamp { seconds: -1 }));
    assert_eq!(combine_timestamp("20240101", "000000"), Some(Timestamp { seconds: 1_704_067_200 }));
    assert_eq!(combine_timestamp("20240101", "010000"), Some(Timestamp { seconds: 1_704_070_800 }));
    assert_eq!(
        combine_timestamp("99991231", "235959").map(|s| s.seconds),
        Some(seconds_of(9999, 12, 31, 23, 59, 59))
    );
}

#[test]
fn the_split_between_the_tokens_does_not_matter() {
    let whole = combine_timestamp("20240115", "083000");
    assert_eq!(combine_timestamp("2024", "0115083000"), whole);
    assert_eq!(combine_timestamp("20240115083000", ""), whole);
    assert_eq!(combine_timestamp("", "20240115083000"), whole);
}

#[test]
fn texts_of_another_length_give_no_timestamp() {
    assert_eq!(combine_timestamp("", ""), None);
    assert_eq!(combine_timestamp("2024011", "083000"), None);
    assert_eq!(combine_timestamp("20240115", "08300"), None);
    assert_eq!(combine_timestamp("20240115", "0830000"), None);
    assert_eq!(combine_timestamp("020240115", "083000"), None);
}

#[test]
fn texts_with_other_characters_give_no_timestamp() {
    assert_eq!(combine_timestamp("2024-01-15", "08:30:00"), None);
    assert_eq!(combine_timestamp("+2024011", "5083000"), None);
    assert_eq!(combine_timestamp(" 2024011", "5083000"), None);
    assert_eq!(combine_timestamp("2024011x", "083000"), None);
    assert_eq!(combine_timestamp("20240115", "083000.tif"), None);
    assert_eq!(combine_timestamp("２０２４０１１５", "０８３０００"), None);
}

#[test]
fn dates_and_times_that_do_not_exist_give_no_timestamp() {
    assert_eq!(combine_timestamp("20241315", "083000"), None);
    assert_eq!(combine_timestamp("20240015", "083000"), None);
    assert_eq!(combine_timestamp("20240132", "083000"), None);
    assert_eq!(combine_timestamp("20240100", "083000"), None);
    assert_eq!(combine_timestamp("20230229", "083000"), None);
    assert_eq!(combine_timestamp("20240115", "240000"), None);
    assert_eq!(combine_timestamp("20240115", "086000"), None);
    assert_eq!(combine_timestamp("20240115", "083061"), None);
}

#[test]
fn leap_day_exists_in_a_leap_year() {
    assert_eq!(
        combine_timestamp("20240229", "120000").map(|s| s.seconds),
        Some(seconds_of(2024, 2, 29, 12, 0, 0))
    );
    assert_eq!(
        combine_timestamp("20000229", "000000").map(|s| s.seconds),
        Some(seconds_of(2000, 2, 29, 0, 0, 0))
    );
    assert_eq!(combine_timestamp("19000229", "000000"), None);
}

#[test]
fn one_hour_later_is_3600_seconds_later() {
    let first = combine_timestamp("20240101", "000000").unwrap();
    let second = combine_timestamp("20240101", "010000").unwrap();
    assert_eq!(second.seconds - first.seconds, 3600);
    let before_midnight = combine_timestamp("20231231", "233000").unwrap();
    assert_eq!(first.seconds - before_midnight.seconds, 1800);
}

#[test]
fn compact_shape_is_fourteen_digits() {
    assert!(has_compact_shape("20240115083000"));
    assert!(has_compact_shape("00000000000000"));
    assert!(has_compact_shape("99999999999999"));
    assert!(!has_compact_shape(""));
    assert!(!has_compact_shape("2024011508300"));
    assert!(!has_compact_shape("202401150830000"));
    assert!(!has_compact_shape("2024011508300a"));
    assert!(!has_compact_shape("2024011508300/"));
    assert!(!has_compact_shape("2024011508300:"));
    assert!(!has_compact_shape("-2024011508300"));
}

#[test]
fn calendar_outcome_becomes_the_timestamp() {
    assert_eq!(timestamp_from_calendar(Some(42)), Some(Timestamp { seconds: 42 }));
    assert_eq!(timestamp_from_calendar(Some(-42)), Some(Timestamp { seconds: -42 }));
    assert_eq!(timestamp_from_calendar(None), None);
}
