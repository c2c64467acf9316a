use chrono::{DateTime, FixedOffset, NaiveTime, Timelike};
use time_scheduler_server::timestamp::{Timestamp, DAY_END, MAX_DAY, MIN_DAY, NANOS_PER_DAY};

fn from_chrono(time: &DateTime<FixedOffset>) -> Timestamp {
    Timestamp::new(time.timestamp_nanos_opt().unwrap(), time.offset().local_minus_utc())
}

fn parse(text: &str) -> DateTime<FixedOffset> {
    DateTime::parse_from_rfc3339(text).unwrap()
}

#[test]
fn day_and_time_of_day_are_those_of_the_wall_clock() {
    let samples = [
        "2024-03-01T08:00:00+01:00",
        "2024-03-01T00:00:00+01:00",
        "2024-03-01T23:59:59.999999999+01:00",
        "2024-02-29T23:30:00-11:00",
        "2024-03-01T00:30:00+14:00",
        "1969-12-31T23:59:59Z",
        "1970-01-01T00:00:00Z",
        "1903-07-15T12:34:56.5+05:30",
        "2199-12-31T23:59:59-00:01",
    ];
    for text in samples {
        let time = parse(text);
        let stamp = from_chrono(&time);
        assert_eq!(stamp.day(), time.date_naive().to_epoch_days() as i64, "{}", text);
        let of_day = time.time().num_seconds_from_midnight() as i64 * 1_000_000_000
            + time.time().nanosecond() as i64;
        assert_eq!(stamp.time_of_day(), of_day, "{}", text);
    }
}

#[test]
fn the_same_instant_falls_on_different_dates_at_different_offsets() {
    let east = from_chrono(&parse("2024-03-02T00:30:00+02:00"));
    let west = from_chrono(&parse("2024-03-01T22:30:00Z"));
    assert!(east.is_same_instant(&west));
    assert!(!east.is_before(&west));
    assert_eq!(east.day(), west.day() + 1);
    assert_eq!(east.day(), 19_784);
    assert_eq!(west.time_of_day(), 81_000_000_000_000);
}

#[test]
fn with_time_keeps_the_date_and_the_offset() {
    let time = parse("2024-03-01T08:15:30.25+01:00");
    let stamp = from_chrono(&time);
    let end = stamp.end_of_day().unwrap();
    let start = stamp.start_of_day().unwrap();
    let expected_end = time.with_time(NaiveTime::from_hms_opt(23, 59, 59).unwrap()).unwrap();
    let expected_start = time.with_time(NaiveTime::from_hms_opt(0, 0, 0).unwrap()).unwrap();
    assert_eq!(end, from_chrono(&expected_end));
    assert_eq!(start, from_chrono(&expected_start));
    assert_eq!(end.day(), stamp.day());
    assert_eq!(end.time_of_day(), DAY_END);
    assert!(end.is_day_end());
    assert!(!stamp.is_day_end());
    assert!(!from_chrono(&parse("2024-03-01T23:59:59.5+01:00")).is_day_end());
    assert_eq!(stamp.with_time(29_730_250_000_000), Some(stamp));
    assert_eq!(end.nanos - start.nanos, DAY_END);
}

#[test]
fn the_edges_of_what_a_timestamp_holds() {
    let last = Timestamp::new(i64::MAX, i32::MAX);
    let first = Timestamp::new(i64::MIN, i32::MIN);
    assert_eq!(last.day(), MAX_DAY);
    assert_eq!(first.day(), MIN_DAY);
    assert!(0 <= first.time_of_day() && first.time_of_day() < NANOS_PER_DAY);
    assert_eq!(Timestamp::new(i64::MAX, 0).end_of_day(), None);
    assert_eq!(Timestamp::new(i64::MIN, 0).start_of_day(), None);
    assert!(Timestamp::new(i64::MAX, 0).start_of_day().is_some());
    assert_eq!(Timestamp::new(-1, 0).day(), -1);
    assert_eq!(Timestamp::new(-1, 0).time_of_day(), NANOS_PER_DAY - 1);
    assert_eq!(Timestamp::new(0, -1).day(), -1);
}

#[test]
fn a_timestamp_made_of_what_the_wall_clock_shows() {
    // 2023-11-27 03:18:52 on a clock an hour ahead of UTC.
    let stamp = Timestamp::from_wall_clock(1_701_055_132, 3_600).unwrap();
    assert_eq!(stamp, from_chrono(&parse("2023-11-27T03:18:52+01:00")));
    assert_eq!(stamp.day(), 19_688);
    assert_eq!(stamp.time_of_day(), 11_932_000_000_000);
    // An hour before 1970 began.
    let eve = Timestamp::from_wall_clock(-3_600, 0).unwrap();
    assert_eq!(eve, from_chrono(&parse("1969-12-31T23:00:00Z")));
    assert_eq!(eve.day(), -1);
    assert_eq!(Timestamp::from_wall_clock(9_223_372_036, 0).map(|stamp| stamp.nanos), Some(9_223_372_036_000_000_000));
    assert_eq!(Timestamp::from_wall_clock(9_223_372_037, 0), None);
    assert!(Timestamp::from_wall_clock(9_223_372_037, 1).is_some());
    assert_eq!(Timestamp::from_wall_clock(i64::MIN, i32::MAX), None);
}
