use std::collections::HashMap;

use chrono::DateTime;
use time_scheduler_server::blocktype::{BlockType, Color};
use time_scheduler_server::currentblock::CurrentBlock;
use time_scheduler_server::error::{Error, ErrorType};
use time_scheduler_server::store::Store;
use time_scheduler_server::sync::{
    ascending_days, find_earliest_start, find_latest_end, keep_starting_from, save_all, sync_day,
    sync_days, Sync,
};
use time_scheduler_server::timeblock::{is_disjoint, TimeBlock};
use time_scheduler_server::timestamp::Timestamp;

fn at(text: &str) -> Timestamp {
    let parsed = DateTime::parse_from_rfc3339(text).unwrap();
    Timestamp::new(parsed.timestamp_nanos_opt().unwrap(), parsed.offset().local_minus_utc())
}

fn block(start: &str, end: &str, id: u8, title: &str) -> TimeBlock {
    TimeBlock::new(at(start), at(end), id, title.to_string())
}

fn template() -> CurrentBlock {
    CurrentBlock { block_type_id: 6, current_block_name: "Idle".to_string() }
}

const MARCH_1: i64 = 19_783;

fn server_until_ten() -> Store {
    let mut store = Store::new();
    store.write(
        MARCH_1,
        vec![
            block("2024-03-01T08:00:00Z", "2024-03-01T09:00:00Z", 1, "a"),
            block("2024-03-01T09:00:00Z", "2024-03-01T10:00:00Z", 2, "b"),
        ],
    );
    store
}

#[test]
fn a_gap_before_the_incoming_block_is_filled_from_the_template() {
    let mut store = server_until_ten();
    let incoming = vec![block("2024-03-01T11:00:00Z", "2024-03-01T12:00:00Z", 3, "c")];
    assert_eq!(sync_day(&mut store, MARCH_1, &incoming, &template()), Ok(()));
    let record = store.read(MARCH_1);
    assert_eq!(
        record,
        vec![
            block("2024-03-01T08:00:00Z", "2024-03-01T09:00:00Z", 1, "a"),
            block("2024-03-01T09:00:00Z", "2024-03-01T10:00:00Z", 2, "b"),
            block("2024-03-01T10:00:00Z", "2024-03-01T11:00:00Z", 6, "Idle"),
            block("2024-03-01T11:00:00Z", "2024-03-01T12:00:00Z", 3, "c"),
        ]
    );
    assert!(is_disjoint(&record));
    assert_eq!(record[2].start_time, record[1].end_time);
    assert_eq!(record[2].end_time, record[3].start_time);
}

#[test]
fn no_filler_where_the_incoming_block_starts_at_the_latest_end() {
    let mut store = server_until_ten();
    let incoming = vec![block("2024-03-01T10:00:00Z", "2024-03-01T12:00:00Z", 3, "c")];
    assert_eq!(sync_day(&mut store, MARCH_1, &incoming, &template()), Ok(()));
    assert_eq!(store.read(MARCH_1).len(), 3);
    assert_eq!(store.read(MARCH_1)[2], incoming[0]);
}

#[test]
fn incoming_blocks_that_start_before_the_latest_end_are_dropped() {
    let mut store = server_until_ten();
    let incoming = vec![
        block("2024-03-01T07:00:00Z", "2024-03-01T08:00:00Z", 3, "before all"),
        block("2024-03-01T09:30:00Z", "2024-03-01T10:30:00Z", 3, "reaches in"),
        block("2024-03-01T13:00:00Z", "2024-03-01T14:00:00Z", 4, "later"),
        block("2024-03-01T12:00:00Z", "2024-03-01T13:00:00Z", 5, "earlier"),
    ];
    assert_eq!(sync_day(&mut store, MARCH_1, &incoming, &template()), Ok(()));
    assert_eq!(
        store.read(MARCH_1)[2..],
        [
            block("2024-03-01T10:00:00Z", "2024-03-01T12:00:00Z", 6, "Idle"),
            block("2024-03-01T13:00:00Z", "2024-03-01T14:00:00Z", 4, "later"),
            block("2024-03-01T12:00:00Z", "2024-03-01T13:00:00Z", 5, "earlier"),
        ]
    );
    assert!(is_disjoint(&store.read(MARCH_1)));
}

#[test]
fn a_day_without_news_is_closed_at_its_end() {
    let mut store = server_until_ten();
    let old_news = vec![block("2024-03-01T08:00:00Z", "2024-03-01T09:00:00Z", 1, "a")];
    assert_eq!(sync_day(&mut store, MARCH_1, &old_news, &template()), Ok(()));
    assert_eq!(
        store.read(MARCH_1)[2..],
        [block("2024-03-01T10:00:00Z", "2024-03-01T23:59:59Z", 6, "Idle")]
    );
    // The day ends at 23:59:59 now: nothing more is added.
    assert_eq!(sync_day(&mut store, MARCH_1, &vec![], &template()), Ok(()));
    assert_eq!(store.read(MARCH_1).len(), 3);
}

#[test]
fn a_date_without_a_record_takes_every_incoming_block() {
    let mut store = Store::new();
    let incoming = vec![
        block("2024-03-01T11:00:00Z", "2024-03-01T12:00:00Z", 3, "c"),
        block("2024-03-01T08:00:00Z", "2024-03-01T09:00:00Z", 1, "a"),
    ];
    assert_eq!(sync_day(&mut store, MARCH_1, &incoming, &template()), Ok(()));
    assert_eq!(store.read(MARCH_1), incoming);
}

#[test]
fn the_first_block_that_is_refused_ends_the_date() {
    let mut store = Store::new();
    let incoming = vec![
        block("2024-03-01T08:00:00Z", "2024-03-01T09:00:00Z", 1, "a"),
        block("2024-03-01T08:30:00Z", "2024-03-01T09:30:00Z", 2, "clash"),
        block("2024-03-01T10:00:00Z", "2024-03-01T11:00:00Z", 3, "never reached"),
    ];
    assert_eq!(save_all(&mut store, &incoming), Err(Error::new(ErrorType::OverlapConflict)));
    assert_eq!(store.read(MARCH_1), vec![incoming[0].clone()]);
}

#[test]
fn the_latest_end_and_the_earliest_start() {
    let blocks = vec![
        block("2024-03-01T09:00:00Z", "2024-03-01T10:00:00Z", 2, "b"),
        block("2024-03-01T08:00:00Z", "2024-03-01T09:00:00Z", 1, "a"),
        block("2024-03-01T10:00:00+01:00", "2024-03-01T11:00:00+01:00", 3, "same end as b"),
        block("2024-03-01T09:00:00+01:00", "2024-03-01T09:30:00+01:00", 4, "same start as a"),
    ];
    assert_eq!(find_latest_end(&blocks), Some(at("2024-03-01T11:00:00+01:00")));
    assert_eq!(find_earliest_start(&blocks), at("2024-03-01T08:00:00Z"));
    assert_eq!(find_latest_end(&vec![]), None);
    let kept = keep_starting_from(&blocks, &at("2024-03-01T09:00:00Z"));
    assert_eq!(kept, vec![blocks[0].clone(), blocks[2].clone()]);
}

#[test]
fn the_dates_come_out_in_ascending_order() {
    let mut incoming: HashMap<i64, Vec<TimeBlock>> = HashMap::new();
    for day in [5_i64, -3, 19_783, 0, 12, -40_000, 7] {
        incoming.insert(day, vec![TimeBlock::new(Timestamp::new(day, 0), Timestamp::new(day + 1, 0), 1, "x".to_string())]);
    }
    let entries = ascending_days(incoming);
    let days: Vec<i64> = entries.iter().map(|entry| entry.0).collect();
    assert_eq!(days, vec![-40_000, -3, 0, 5, 7, 12, 19_783]);
    for (day, blocks) in entries {
        assert_eq!(blocks.len(), 1);
        assert_eq!(blocks[0].start_time.nanos, day);
    }
    assert_eq!(ascending_days(HashMap::new()), vec![]);
}

#[test]
fn the_dates_are_merged_from_the_earliest_and_an_error_stops_the_merge() {
    let mut store = Store::new();
    let old = CurrentBlock { block_type_id: 1, current_block_name: "Old".to_string() };
    old.save(&mut store);
    store.write(MARCH_1 + 1, vec![block("2024-03-02T08:00:00Z", "2024-03-02T09:00:00Z", 1, "server")]);
    let mut time_blocks = HashMap::new();
    time_blocks.insert(MARCH_1 + 2, vec![block("2024-03-03T08:00:00Z", "2024-03-03T09:00:00Z", 3, "third")]);
    time_blocks.insert(
        MARCH_1 + 1,
        vec![
            block("2024-03-02T10:00:00Z", "2024-03-02T11:00:00Z", 2, "second"),
            block("2024-03-02T10:30:00Z", "2024-03-02T11:30:00Z", 2, "clash"),
        ],
    );
    time_blocks.insert(MARCH_1, vec![block("2024-03-01T08:00:00Z", "2024-03-01T09:00:00Z", 1, "first")]);
    assert_eq!(TimeBlock::sync(&mut store, time_blocks), Err(Error::new(ErrorType::OverlapConflict)));
    assert_eq!(store.read(MARCH_1), vec![block("2024-03-01T08:00:00Z", "2024-03-01T09:00:00Z", 1, "first")]);
    assert_eq!(
        store.read(MARCH_1 + 1),
        vec![
            block("2024-03-02T08:00:00Z", "2024-03-02T09:00:00Z", 1, "server"),
            block("2024-03-02T09:00:00Z", "2024-03-02T10:00:00Z", 1, "Old"),
            block("2024-03-02T10:00:00Z", "2024-03-02T11:00:00Z", 2, "second"),
        ]
    );
    assert_eq!(store.read(MARCH_1 + 2), vec![]);
    assert_eq!(CurrentBlock::get(&store), old);
}

#[test]
fn the_fillers_of_a_merge_have_the_current_block_of_the_store() {
    let mut store = server_until_ten();
    template().save(&mut store);
    let mut time_blocks = HashMap::new();
    time_blocks.insert(MARCH_1, vec![block("2024-03-01T11:00:00Z", "2024-03-01T12:00:00Z", 3, "c")]);
    time_blocks.insert(MARCH_1 + 1, vec![block("2024-03-01T23:00:00Z", "2024-03-02T01:00:00Z", 4, "night")]);
    assert_eq!(TimeBlock::sync(&mut store, time_blocks), Ok(()));
    assert_eq!(CurrentBlock::get(&store), template());
    assert_eq!(
        store.read(MARCH_1)[2..],
        [
            block("2024-03-01T10:00:00Z", "2024-03-01T11:00:00Z", 6, "Idle"),
            block("2024-03-01T11:00:00Z", "2024-03-01T12:00:00Z", 3, "c"),
            block("2024-03-01T23:00:00Z", "2024-03-01T23:59:59Z", 4, "night"),
        ]
    );
    assert_eq!(store.read(MARCH_1 + 1), vec![block("2024-03-02T00:00:00Z", "2024-03-02T01:00:00Z", 4, "night")]);
    for day in store.recorded_days() {
        assert!(is_disjoint(&store.read(day)));
    }
}

#[test]
fn a_store_without_a_current_block_fills_with_the_first_setup() {
    let mut store = server_until_ten();
    let mut time_blocks = HashMap::new();
    time_blocks.insert(MARCH_1, vec![block("2024-03-01T11:00:00Z", "2024-03-01T12:00:00Z", 3, "c")]);
    assert_eq!(TimeBlock::sync(&mut store, time_blocks), Ok(()));
    assert_eq!(
        store.read(MARCH_1)[2],
        block("2024-03-01T10:00:00Z", "2024-03-01T11:00:00Z", 0, "Hello for first setup")
    );
    assert_eq!(store.current(), &None);
}

#[test]
fn a_day_that_ends_within_its_last_second_cannot_be_closed() {
    let mut store = Store::new();
    let day = vec![block("2024-03-01T08:00:00Z", "2024-03-01T23:59:59.5Z", 1, "a")];
    store.write(MARCH_1, day.clone());
    assert_eq!(
        sync_day(&mut store, MARCH_1, &vec![], &template()),
        Err(Error::new(ErrorType::InvalidInterval))
    );
    assert_eq!(store.read(MARCH_1), day);
}

#[test]
fn sync_days_takes_the_dates_in_the_order_given() {
    let mut store = Store::new();
    let entries = vec![
        (MARCH_1, vec![block("2024-03-01T08:00:00Z", "2024-03-01T09:00:00Z", 1, "a")]),
        (MARCH_1, vec![block("2024-03-01T10:00:00Z", "2024-03-01T11:00:00Z", 2, "b")]),
    ];
    assert_eq!(sync_days(&mut store, &entries, &template()), Ok(()));
    assert_eq!(store.read(MARCH_1).len(), 3);
    assert_eq!(store.read(MARCH_1)[1], block("2024-03-01T09:00:00Z", "2024-03-01T10:00:00Z", 6, "Idle"));
}

#[test]
fn the_current_block_comes_in_wholesale() {
    let mut store = Store::new();
    assert_eq!(CurrentBlock::sync(&mut store, template()), Ok(()));
    assert_eq!(CurrentBlock::get(&store), template());
}

#[test]
fn the_catalog_takes_the_incoming_entries_that_it_lacks() {
    let mut store = Store::new();
    let red = BlockType { id: 1, name: "Red".to_string(), color: Color { r: 255, g: 0, b: 0 } };
    let green = BlockType { id: 2, name: "Green".to_string(), color: Color { r: 0, g: 255, b: 0 } };
    let system = BlockType { id: 0, name: "System".to_string(), color: Color { r: 0, g: 0, b: 255 } };
    assert_eq!(
        BlockType::sync(&mut store, vec![red.clone(), system.clone(), red.clone(), green.clone()]),
        Ok(())
    );
    assert_eq!(BlockType::load(&mut store), vec![system.clone(), red.clone(), green.clone()]);
    let renamed = BlockType { id: 1, name: "Rot".to_string(), color: Color { r: 255, g: 0, b: 0 } };
    assert_eq!(BlockType::sync(&mut store, vec![green.clone(), renamed.clone()]), Ok(()));
    assert_eq!(BlockType::load(&mut store), vec![system, red, green, renamed]);
}
