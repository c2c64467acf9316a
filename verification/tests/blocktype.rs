use std::collections::HashMap;

use chrono::DateTime;
use time_scheduler_server::blocktype::{
    clone_types, contains_type, find_greatest_id, BlockType, Color, NewBlockType, PushNew,
};
use time_scheduler_server::currentblock::CurrentBlock;
use time_scheduler_server::error::{Error, ErrorType};
use time_scheduler_server::handlers::{
    get_entire_state, new_blocktype, next_timeblock, sync, SyncBody,
};
use time_scheduler_server::store::Store;
use time_scheduler_server::timeblock::TimeBlock;
use time_scheduler_server::timestamp::Timestamp;

fn entry(id: u8, name: &str) -> BlockType {
    BlockType { id, name: name.to_string(), color: Color { r: id, g: 0, b: 0 } }
}

fn system() -> BlockType {
    BlockType { id: 0, name: "System".to_string(), color: Color { r: 0, g: 0, b: 255 } }
}

fn at(text: &str) -> Timestamp {
    let parsed = DateTime::parse_from_rfc3339(text).unwrap();
    Timestamp::new(parsed.timestamp_nanos_opt().unwrap(), parsed.offset().local_minus_utc())
}

fn block(start: &str, end: &str, id: u8, title: &str) -> TimeBlock {
    TimeBlock::new(at(start), at(end), id, title.to_string())
}

#[test]
fn a_new_entry_gets_the_next_identifier() {
    let mut catalog: Vec<BlockType> = Vec::new();
    catalog.push_new(NewBlockType { name: "First".to_string(), color: Color { r: 1, g: 2, b: 3 } });
    assert_eq!(catalog, vec![BlockType { id: 1, name: "First".to_string(), color: Color { r: 1, g: 2, b: 3 } }]);
    let mut catalog = vec![entry(0, "System"), entry(7, "Seven"), entry(3, "Three")];
    catalog.push_new(NewBlockType { name: "Next".to_string(), color: Color { r: 8, g: 0, b: 0 } });
    assert_eq!(catalog[3], entry(8, "Next"));
    assert_eq!(find_greatest_id(&catalog), 8);
    assert_eq!(find_greatest_id(&vec![]), 0);
}

#[test]
fn entries_are_compared_by_all_their_fields() {
    assert!(entry(1, "a") == entry(1, "a"));
    assert!(entry(1, "a") != entry(2, "a"));
    assert!(entry(1, "a") != entry(1, "b"));
    assert!(entry(1, "a") != BlockType { id: 1, name: "a".to_string(), color: Color { r: 1, g: 1, b: 0 } });
    assert!(contains_type(&vec![entry(1, "a"), entry(2, "b")], &entry(2, "b")));
    assert!(!contains_type(&vec![entry(1, "a"), entry(2, "b")], &entry(2, "c")));
    assert_eq!(clone_types(&[entry(1, "a"), entry(2, "b")]), vec![entry(1, "a"), entry(2, "b")]);
}

#[test]
fn only_neighbours_count_as_identical() {
    assert!(!BlockType::check_identical(&[]));
    assert!(!BlockType::check_identical(&[entry(1, "a")]));
    assert!(BlockType::check_identical(&[entry(1, "a"), entry(1, "a")]));
    assert!(!BlockType::check_identical(&[entry(1, "a"), entry(2, "b"), entry(1, "a")]));
    assert!(BlockType::check_identical(&[entry(1, "a"), entry(2, "b"), entry(2, "b")]));
}

#[test]
fn a_catalog_with_identical_neighbours_is_not_saved() {
    let mut store = Store::new();
    assert_eq!(
        BlockType::save(&mut store, &[entry(1, "a"), entry(1, "a")]),
        Err(Error::new(ErrorType::IdenticalBlockType))
    );
    assert_eq!(store.catalog(), &None);
    assert_eq!(BlockType::save(&mut store, &[entry(1, "a"), entry(2, "b")]), Ok(()));
    assert_eq!(BlockType::load(&mut store), vec![entry(1, "a"), entry(2, "b")]);
}

#[test]
fn a_store_without_a_catalog_gets_the_system_category() {
    let mut store = Store::new();
    assert_eq!(BlockType::load(&mut store), vec![system()]);
    assert_eq!(store.catalog(), &Some(vec![system()]));
}

#[test]
fn the_entire_state_is_the_catalog_today_and_the_current_block() {
    let mut store = Store::new();
    let today = vec![block("2024-03-01T08:00:00Z", "2024-03-01T09:00:00Z", 1, "a")];
    store.write(19_783, today.clone());
    let state = get_entire_state(&mut store, 19_783);
    assert_eq!(state.blocktypes, vec![system()]);
    assert_eq!(state.daydata, today);
    assert_eq!(
        state.currentblock,
        CurrentBlock { block_type_id: 0, current_block_name: "Hello for first setup".to_string() }
    );
    assert_eq!(get_entire_state(&mut store, 19_784).daydata, vec![]);
}

#[test]
fn a_new_category_is_added_to_the_catalog_of_the_store() {
    let mut store = Store::new();
    let sport = NewBlockType { name: "Sport".to_string(), color: Color { r: 9, g: 9, b: 9 } };
    assert_eq!(new_blocktype(&mut store, sport), Ok(()));
    assert_eq!(
        BlockType::load(&mut store),
        vec![system(), BlockType { id: 1, name: "Sport".to_string(), color: Color { r: 9, g: 9, b: 9 } }]
    );
}

#[test]
fn the_next_block_starts_where_the_last_one_ended() {
    let mut store = Store::new();
    let work = CurrentBlock { block_type_id: 2, current_block_name: "Work".to_string() };
    let rest = CurrentBlock { block_type_id: 3, current_block_name: "Rest".to_string() };
    work.save(&mut store);
    // Neither today nor yesterday has a block: the block starts at midnight.
    assert_eq!(next_timeblock(&mut store, at("2024-03-01T08:00:00+01:00"), rest.clone()), Ok(()));
    assert_eq!(
        store.read(19_783),
        vec![block("2024-03-01T00:00:00+01:00", "2024-03-01T08:00:00+01:00", 2, "Work")]
    );
    assert_eq!(CurrentBlock::get(&store), rest);
    // Today has a block: the next one starts at its end.
    assert_eq!(next_timeblock(&mut store, at("2024-03-01T09:30:00+01:00"), work.clone()), Ok(()));
    assert_eq!(
        store.read(19_783)[1],
        block("2024-03-01T08:00:00+01:00", "2024-03-01T09:30:00+01:00", 3, "Rest")
    );
    // The next day has none yet: the block starts at yesterday's last end
    // and is cut at midnight.
    assert_eq!(next_timeblock(&mut store, at("2024-03-02T07:00:00+01:00"), rest.clone()), Ok(()));
    assert_eq!(
        store.read(19_783)[2],
        block("2024-03-01T09:30:00+01:00", "2024-03-01T23:59:59+01:00", 2, "Work")
    );
    assert_eq!(
        store.read(19_784),
        vec![block("2024-03-02T00:00:00+01:00", "2024-03-02T07:00:00+01:00", 2, "Work")]
    );
}

#[test]
fn a_next_block_that_overlaps_leaves_the_current_block() {
    let mut store = Store::new();
    store.write(
        19_783,
        vec![
            block("2024-03-01T10:00:00Z", "2024-03-01T11:00:00Z", 1, "later"),
            block("2024-03-01T08:00:00Z", "2024-03-01T09:00:00Z", 1, "earlier"),
        ],
    );
    let rest = CurrentBlock { block_type_id: 3, current_block_name: "Rest".to_string() };
    assert_eq!(
        next_timeblock(&mut store, at("2024-03-01T12:00:00Z"), rest),
        Err(Error::new(ErrorType::OverlapConflict))
    );
    assert_eq!(store.current(), &None);
    assert_eq!(store.read(19_783).len(), 2);
}

#[test]
fn an_offline_client_is_filled_from_the_current_block_that_the_store_had() {
    let mut store = Store::new();
    let old = CurrentBlock { block_type_id: 1, current_block_name: "Old".to_string() };
    let new = CurrentBlock { block_type_id: 2, current_block_name: "New".to_string() };
    old.save(&mut store);
    store.write(19_783, vec![block("2024-03-01T08:00:00Z", "2024-03-01T10:00:00Z", 1, "a")]);
    let mut time_blocks = HashMap::new();
    time_blocks.insert(19_783, vec![block("2024-03-01T11:00:00Z", "2024-03-01T12:00:00Z", 3, "c")]);
    let body = SyncBody { time_blocks, current_block: new.clone(), block_types: vec![] };
    assert_eq!(sync(&mut store, body), Ok(()));
    assert_eq!(
        store.read(19_783)[1..],
        [
            block("2024-03-01T10:00:00Z", "2024-03-01T11:00:00Z", 1, "Old"),
            block("2024-03-01T11:00:00Z", "2024-03-01T12:00:00Z", 3, "c"),
        ]
    );
    assert_eq!(CurrentBlock::get(&store), new);
}

#[test]
fn an_offline_client_is_merged_catalog_first() {
    let mut store = Store::new();
    let mut time_blocks = HashMap::new();
    time_blocks.insert(19_783, vec![block("2024-03-01T08:00:00Z", "2024-03-01T09:00:00Z", 1, "a")]);
    let current = CurrentBlock { block_type_id: 1, current_block_name: "Now".to_string() };
    let body = SyncBody {
        time_blocks,
        current_block: current.clone(),
        block_types: vec![entry(1, "Red")],
    };
    assert_eq!(sync(&mut store, body), Ok(()));
    assert_eq!(BlockType::load(&mut store), vec![system(), entry(1, "Red")]);
    assert_eq!(store.read(19_783).len(), 1);
    assert_eq!(CurrentBlock::get(&store), current);

    let mut clashing = Store::new();
    clashing.set_catalog(vec![entry(1, "Red"), entry(1, "Red")]);
    let mut time_blocks = HashMap::new();
    time_blocks.insert(19_783, vec![block("2024-03-01T08:00:00Z", "2024-03-01T09:00:00Z", 1, "a")]);
    let body = SyncBody { time_blocks, current_block: current, block_types: vec![entry(2, "Green")] };
    assert_eq!(sync(&mut clashing, body), Err(Error::new(ErrorType::IdenticalBlockType)));
    assert_eq!(clashing.read(19_783), vec![]);
    assert_eq!(clashing.current(), &None);
}
