use std::collections::HashMap;

use time_scheduler_server::analysis::{analyse, sort_by_id, spend, Analysis, Trend};
use time_scheduler_server::blocktype::{BlockType, Color};
use time_scheduler_server::error::ErrorType;
use time_scheduler_server::store::Store;
use time_scheduler_server::timeblock::TimeBlock;
use time_scheduler_server::timestamp::Timestamp;

const HOUR: i64 = 3_600_000_000_000;
const DAY: i64 = 24 * HOUR;

fn entry(id: u8, name: &str) -> BlockType {
    BlockType { id, name: name.to_string(), color: Color { r: 0, g: 0, b: 0 } }
}

fn block(day: i64, from_hour: i64, to_hour: i64, id: u8) -> TimeBlock {
    TimeBlock::new(
        Timestamp::new(day * DAY + from_hour * HOUR, 0),
        Timestamp::new(day * DAY + to_hour * HOUR, 0),
        id,
        "x".to_string(),
    )
}

fn three_days() -> Store {
    let mut store = Store::new();
    store.set_catalog(vec![entry(2, "two"), entry(0, "System"), entry(1, "one")]);
    store.write(10, vec![block(10, 8, 9, 1), block(10, 9, 12, 2), block(10, 12, 13, 1)]);
    store.write(12, vec![block(12, 0, 24, 2), block(12, 3, 4, 7)]);
    store
}

#[test]
fn the_catalog_is_ordered_by_identifier_and_keeps_the_order_of_equals() {
    let catalog = vec![entry(2, "b"), entry(0, "z"), entry(2, "a"), entry(255, "last"), entry(1, "m")];
    assert_eq!(
        sort_by_id(&catalog),
        vec![entry(0, "z"), entry(1, "m"), entry(2, "b"), entry(2, "a"), entry(255, "last")]
    );
    assert_eq!(sort_by_id(&vec![]), vec![]);
}

#[test]
fn the_time_of_a_category_is_the_sum_of_its_blocks() {
    let record = vec![block(10, 8, 9, 1), block(10, 9, 12, 2), block(10, 12, 13, 1)];
    assert_eq!(spend(&record, 1), Some(2 * HOUR as u128));
    assert_eq!(spend(&record, 2), Some(3 * HOUR as u128));
    assert_eq!(spend(&record, 3), Some(0));
    let inverted = vec![block(10, 8, 9, 1), block(10, 12, 9, 2)];
    assert_eq!(spend(&inverted, 1), Some(HOUR as u128));
    assert_eq!(spend(&inverted, 2), None);
    let whole = vec![TimeBlock::new(Timestamp::new(i64::MIN, 0), Timestamp::new(i64::MAX, 0), 1, "x".to_string())];
    assert_eq!(spend(&whole, 1), Some(u64::MAX as u128));
}

#[test]
fn the_analysis_lists_every_day_and_every_category() {
    let mut store = three_days();
    let start = Timestamp::new(10 * DAY + 5 * HOUR, 0);
    let end = Timestamp::new(12 * DAY + 23 * HOUR, 0);
    let analysis = Analysis::get_analysis_data(&mut store, start, end).unwrap();
    assert_eq!(analysis.blocktypes, vec![entry(0, "System"), entry(1, "one"), entry(2, "two")]);
    let hours = |hours: i64| (hours * HOUR) as u128;
    assert_eq!(analysis.durations, HashMap::from([(0, 0), (1, hours(2)), (2, hours(27))]));
    let trend = |day, hours_spent: i64, block_type_id| Trend { day, time_spent: hours(hours_spent), block_type_id };
    assert_eq!(
        analysis.trends,
        vec![
            trend(10, 0, 0),
            trend(10, 2, 1),
            trend(10, 3, 2),
            trend(11, 0, 0),
            trend(11, 0, 1),
            trend(11, 0, 2),
            trend(12, 0, 0),
            trend(12, 0, 1),
            trend(12, 24, 2),
        ]
    );
}

#[test]
fn the_days_are_those_of_the_wall_clocks() {
    let mut store = three_days();
    // 23:00 UTC on day 9 is day 10 at +02:00; 01:00 UTC on day 11 is day 10 at -02:00.
    let start = Timestamp::new(9 * DAY + 23 * HOUR, 7_200);
    let end = Timestamp::new(11 * DAY + HOUR, -7_200);
    let analysis = Analysis::get_analysis_data(&mut store, start, end).unwrap();
    assert_eq!(analysis.trends.len(), 3);
    assert_eq!(analysis.trends[2], Trend { day: 10, time_spent: 3 * HOUR as u128, block_type_id: 2 });
}

#[test]
fn an_end_before_the_start_has_no_days() {
    let mut store = three_days();
    let analysis =
        Analysis::get_analysis_data(&mut store, Timestamp::new(12 * DAY, 0), Timestamp::new(10 * DAY, 0)).unwrap();
    assert_eq!(analysis.trends, vec![]);
    assert_eq!(analysis.durations, HashMap::new());
    assert_eq!(analysis.blocktypes.len(), 3);
}

#[test]
fn a_store_without_a_catalog_is_analysed_for_the_system_category() {
    let mut store = Store::new();
    store.write(10, vec![block(10, 8, 9, 0), block(10, 9, 12, 2)]);
    let analysis =
        Analysis::get_analysis_data(&mut store, Timestamp::new(10 * DAY, 0), Timestamp::new(10 * DAY, 0)).unwrap();
    assert_eq!(analysis.blocktypes, vec![BlockType { id: 0, name: "System".to_string(), color: Color { r: 0, g: 0, b: 255 } }]);
    assert_eq!(analysis.trends, vec![Trend { day: 10, time_spent: HOUR as u128, block_type_id: 0 }]);
    assert!(store.catalog().is_some());
}

#[test]
fn a_block_that_ends_before_it_starts_fails_the_analysis_of_its_category() {
    let mut store = three_days();
    store.write(11, vec![block(11, 9, 8, 2)]);
    let start = Timestamp::new(10 * DAY, 0);
    let failed = Analysis::get_analysis_data(&mut store, start, Timestamp::new(12 * DAY, 0));
    assert_eq!(failed.unwrap_err().error_type, ErrorType::Chrono);
    // Not within the days asked for, or of no category of the catalog: no error.
    assert!(Analysis::get_analysis_data(&mut store, start, Timestamp::new(10 * DAY, 0)).is_ok());
    store.write(11, vec![block(11, 9, 8, 7)]);
    assert!(Analysis::get_analysis_data(&mut store, start, Timestamp::new(12 * DAY, 0)).is_ok());
}

#[test]
fn totals_are_kept_in_full() {
    let mut store = Store::new();
    let whole = || TimeBlock::new(Timestamp::new(i64::MIN, 0), Timestamp::new(i64::MAX, 0), 1, "x".to_string());
    store.write(10, vec![whole(), whole()]);
    let one = analyse(&store, vec![entry(1, "one")], 10, 10).unwrap();
    assert_eq!(one.durations, HashMap::from([(1, 2 * (u64::MAX as u128))]));
}

#[test]
fn an_identifier_that_two_entries_have_is_counted_for_each() {
    let mut store = Store::new();
    store.write(10, vec![block(10, 8, 9, 1), block(10, 9, 12, 2)]);
    store.write(11, vec![block(11, 8, 10, 1)]);
    let twice = analyse(&store, vec![entry(1, "one"), entry(1, "uno"), entry(2, "two")], 10, 11).unwrap();
    assert_eq!(
        twice.durations,
        HashMap::from([(1, 6 * HOUR as u128), (2, 3 * HOUR as u128)])
    );
    assert_eq!(twice.trends.len(), 6);
    assert_eq!(twice.trends[1], Trend { day: 10, time_spent: HOUR as u128, block_type_id: 1 });
}
