use time_scheduler_server::error::{Error, ErrorType};
use time_scheduler_server::migrator::{
    close_day, convert, convert_day, convert_local, day_to_close, first_categorized,
    with_closing_block, OldTime, OldTimeBlock,
};
use time_scheduler_server::timeblock::TimeBlock;
use time_scheduler_server::timestamp::Timestamp;

fn old_time(hour: u8, minute: u8, second: u8) -> OldTime {
    OldTime { year: 2023, month: 11, day: 27, hour, minute, second }
}

fn old_block(start: OldTime, end: OldTime, id: u8, title: &str) -> OldTimeBlock {
    OldTimeBlock { startTime: start, endTime: end, blockTypeId: id, title: title.to_string() }
}

// 2023-11-27 00:00:00 UTC.
const MIDNIGHT: i64 = 1_701_043_200;

fn stamp(seconds_of_day: i64, offset: i32) -> Timestamp {
    Timestamp::new((MIDNIGHT + seconds_of_day - offset as i64) * 1_000_000_000, offset)
}

#[test]
fn an_old_time_becomes_the_timestamp_of_a_wall_clock() {
    let time = old_time(3, 18, 52);
    assert_eq!(time.seconds(), Some(1_701_055_132));
    assert_eq!(time.to_timestamp(0), Some(Timestamp::new(1_701_055_132_000_000_000, 0)));
    assert_eq!(time.to_timestamp(3_600), Some(Timestamp::new(1_701_051_532_000_000_000, 3_600)));
    assert_eq!(time.to_timestamp(-7_200), Some(Timestamp::new(1_701_062_332_000_000_000, -7_200)));
    let stamp = time.to_timestamp(3_600).unwrap();
    assert_eq!(stamp.day(), 19_688);
    assert_eq!(stamp.time_of_day(), (3 * 3_600 + 18 * 60 + 52) * 1_000_000_000);
}

#[test]
fn times_before_1970_have_timestamps() {
    let eve = OldTime { year: 1969, month: 12, day: 31, hour: 23, minute: 0, second: 0 };
    assert_eq!(eve.seconds(), Some(-3_600));
    assert_eq!(eve.to_timestamp(0), Some(Timestamp::new(-3_600_000_000_000, 0)));
    assert_eq!(eve.to_timestamp(3_600), Some(Timestamp::new(-7_200_000_000_000, 3_600)));
    let long_ago = OldTime { year: 1900, month: 3, day: 1, hour: 12, minute: 0, second: 0 };
    assert_eq!(long_ago.seconds(), Some(-2_203_891_200 + 43_200));
    assert_eq!(long_ago.to_timestamp(0).unwrap().day(), -25_508);
    let block = convert(&old_block(eve, OldTime { minute: 30, ..eve }, 2, "late"), 0, 0).unwrap();
    assert_eq!(block.duration(), 1_800_000_000_000);
}

#[test]
fn an_old_time_that_is_no_time_has_no_timestamp() {
    assert_eq!(OldTime { year: 2023, month: 2, day: 29, hour: 0, minute: 0, second: 0 }.to_timestamp(0), None);
    assert_eq!(OldTime { year: 2023, month: 11, day: 31, hour: 0, minute: 0, second: 0 }.to_timestamp(0), None);
    assert_eq!(OldTime { year: 2023, month: 13, day: 1, hour: 0, minute: 0, second: 0 }.to_timestamp(0), None);
    assert_eq!(OldTime { year: 2023, month: 1, day: 1, hour: 24, minute: 0, second: 0 }.to_timestamp(0), None);
    assert_eq!(OldTime { year: 2023, month: 1, day: 1, hour: 0, minute: 0, second: 60 }.to_timestamp(0), None);
    assert_eq!(OldTime::default().to_timestamp(0), None);
    assert_eq!(OldTime::default().to_local_timestamp(), None);
    // A time that chrono holds but a timestamp does not.
    assert_eq!(OldTime { year: 2500, month: 1, day: 1, hour: 0, minute: 0, second: 0 }.to_timestamp(0), None);
    assert!(OldTime { year: 2500, month: 1, day: 1, hour: 0, minute: 0, second: 0 }.seconds().is_some());
    assert_eq!(
        OldTime { year: 1970, month: 1, day: 1, hour: 0, minute: 0, second: 0 }.to_timestamp(3_600),
        Some(Timestamp::new(-3_600_000_000_000, 3_600))
    );
}

#[test]
fn the_timestamp_of_this_machine_is_that_of_its_offset() {
    let time = old_time(3, 18, 52);
    let local = time.to_local_timestamp().unwrap();
    assert_eq!(time.to_timestamp(local.offset), Some(local));
    assert_eq!(local.time_of_day(), (3 * 3_600 + 18 * 60 + 52) * 1_000_000_000);
    assert_eq!(local.day(), 19_688);
}

#[test]
fn a_converted_block_loses_the_quotes_around_its_title() {
    let block = convert(&old_block(old_time(8, 0, 0), old_time(9, 0, 0), 2, "\"\"Work \"hard\"\"\""), 3_600, 7_200);
    assert_eq!(
        block,
        Some(TimeBlock::new(stamp(8 * 3_600, 3_600), stamp(9 * 3_600, 7_200), 2, "Work \"hard".to_string()))
    );
    let plain = convert(&old_block(old_time(8, 0, 0), old_time(9, 0, 0), 2, "plain"), 0, 0).unwrap();
    assert_eq!(plain.title, "plain");
    let only_quotes = convert(&old_block(old_time(8, 0, 0), old_time(9, 0, 0), 2, "\"\"\""), 0, 0).unwrap();
    assert_eq!(only_quotes.title, "");
    let broken = old_block(old_time(8, 0, 0), OldTime { second: 60, ..old_time(9, 0, 0) }, 2, "x");
    assert_eq!(convert(&broken, 0, 0), None);
    assert_eq!(convert_local(&broken), None);
}

#[test]
fn blocks_of_the_system_category_are_left_out() {
    let input = vec![
        old_block(old_time(0, 0, 0), old_time(8, 0, 0), 0, "\"system\""),
        old_block(old_time(8, 0, 0), old_time(9, 0, 0), 2, "\"a\""),
        old_block(OldTime { month: 0, ..old_time(9, 0, 0) }, old_time(10, 0, 0), 0, "broken but left out"),
        old_block(old_time(10, 0, 0), old_time(23, 59, 59), 3, "b"),
    ];
    let converted = convert_day(&input).unwrap();
    assert_eq!(converted.len(), 2);
    for (made, old) in converted.iter().zip([&input[1], &input[3]]) {
        assert_eq!(
            convert(old, made.start_time.offset, made.end_time.offset).as_ref(),
            Some(made)
        );
    }
    assert_eq!(converted[0].title, "a");
    assert_eq!(converted[1].end_time.time_of_day(), 86_399_000_000_000);
    assert_eq!(day_to_close(&converted), None);
    assert_eq!(convert_day(&vec![]), Ok(vec![]));
    assert_eq!(first_categorized(&input), Some(1));
    assert_eq!(first_categorized(&vec![]), None);
}

#[test]
fn a_block_without_a_timestamp_fails_the_day() {
    let input = vec![
        old_block(old_time(8, 0, 0), old_time(9, 0, 0), 2, "a"),
        old_block(old_time(9, 0, 0), OldTime { day: 31, ..old_time(10, 0, 0) }, 2, "November has thirty days"),
    ];
    assert_eq!(convert_day(&input), Err(Error::new(ErrorType::Chrono)));
}

#[test]
fn a_day_that_ends_early_needs_the_next_day() {
    let early = vec![TimeBlock::new(stamp(8 * 3_600, 7_200), stamp(22 * 3_600, 7_200), 2, "a".to_string())];
    assert_eq!(day_to_close(&early), Some(19_689));
    let full = vec![TimeBlock::new(stamp(8 * 3_600, 7_200), stamp(86_399, 7_200), 2, "a".to_string())];
    assert_eq!(day_to_close(&full), None);
    let within_the_last_second = vec![TimeBlock::new(
        stamp(8 * 3_600, 0),
        Timestamp::new(stamp(86_399, 0).nanos + 5, 0),
        2,
        "a".to_string(),
    )];
    assert_eq!(day_to_close(&within_the_last_second), None);
    assert_eq!(day_to_close(&vec![]), None);
}

#[test]
fn a_day_is_closed_with_the_first_category_of_the_next_day() {
    let early = vec![TimeBlock::new(stamp(8 * 3_600, 7_200), stamp(22 * 3_600, 7_200), 2, "a".to_string())];
    let next_day = vec![
        old_block(old_time(0, 0, 0), old_time(1, 0, 0), 0, "system"),
        old_block(old_time(1, 0, 0), old_time(2, 0, 0), 5, "\"Sleep\""),
        old_block(old_time(2, 0, 0), old_time(3, 0, 0), 6, "later"),
    ];
    assert_eq!(
        close_day(early.clone(), &next_day),
        Ok(vec![
            early[0].clone(),
            TimeBlock::new(stamp(22 * 3_600, 7_200), stamp(86_399, 7_200), 5, "Sleep".to_string()),
        ])
    );
    let uncategorized = vec![old_block(old_time(0, 0, 0), old_time(1, 0, 0), 0, "system")];
    assert_eq!(close_day(early.clone(), &uncategorized), Err(Error::new(ErrorType::NotFound)));
    let broken = vec![old_block(OldTime { hour: 24, ..old_time(0, 0, 0) }, old_time(1, 0, 0), 5, "x")];
    assert_eq!(close_day(early.clone(), &broken), Err(Error::new(ErrorType::Chrono)));
    assert_eq!(close_day(vec![], &next_day), Ok(vec![]));
}

#[test]
fn a_closing_block_takes_the_category_and_title_it_is_given() {
    let early = vec![TimeBlock::new(stamp(8 * 3_600, 0), stamp(22 * 3_600, 0), 2, "a".to_string())];
    let proto = TimeBlock::new(stamp(0, 0), stamp(1, 0), 9, "Proto".to_string());
    assert_eq!(
        with_closing_block(early.clone(), proto),
        Ok(vec![
            early[0].clone(),
            TimeBlock::new(stamp(22 * 3_600, 0), stamp(86_399, 0), 9, "Proto".to_string()),
        ])
    );
    let at_the_edge = vec![TimeBlock::new(Timestamp::new(i64::MAX - 1, 0), Timestamp::new(i64::MAX, 0), 1, "x".to_string())];
    let proto = TimeBlock::new(stamp(0, 0), stamp(1, 0), 9, "Proto".to_string());
    assert_eq!(with_closing_block(at_the_edge, proto), Err(Error::new(ErrorType::Chrono)));
}
