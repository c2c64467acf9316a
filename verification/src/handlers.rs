//! The requests that a client makes of the store, free of any transport.

use vstd::prelude::*;
use std::collections::HashMap;
use crate::blocktype::{
    greatest_id, is_catalog_of, merged, spec_check_identical, synced_catalog, BlockType,
    NewBlockType, PushNew,
};
use crate::currentblock::{is_current_of, CurrentBlock};
use crate::error::{Error, ErrorType};
use crate::store::{all_disjoint, record_of, Store};
use crate::sync::{ascending_listing, filler, spec_sync_days, Sync};
use crate::timeblock::{all_positive, spec_save, TimeBlock};
use crate::timestamp::Timestamp;

verus! {

/// What a client shows when it starts: the catalog, the blocks of today
/// and the current block.
#[derive(Debug)]
pub struct EntireState {
    pub blocktypes: Vec<BlockType>,
    pub daydata: Vec<TimeBlock>,
    pub currentblock: CurrentBlock,
}

/// What a client that was offline sends to be merged: its blocks by date,
/// its current block and its catalog.
pub struct SyncBody {
    pub time_blocks: HashMap<i64, Vec<TimeBlock>>,
    pub current_block: CurrentBlock,
    pub block_types: Vec<BlockType>,
}

/// The catalog, the blocks of `today` and the current block. A store
/// without a catalog gets the first catalog.
pub fn get_entire_state(store: &mut Store, today: i64) -> (state: EntireState)
    ensures
        is_catalog_of(old(store).block_types(), state.blocktypes@),
        final(store).block_types() is Some,
        final(store).block_types()->0@ == state.blocktypes@,
        state.daydata@ == old(store).record(today),
        is_current_of(old(store).current_block(), state.currentblock),
        final(store).days() == old(store).days(),
        final(store).current_block() == old(store).current_block(),
{
    let blocktypes = BlockType::load(store);
    let daydata = TimeBlock::get_day_timeblocks(store, today);
    let currentblock = CurrentBlock::get(store);
    EntireState { blocktypes, daydata, currentblock }
}

/// Whether `written` and `result` are what adding `blocktype` to the
/// catalog `loaded` leaves: the catalog with the new entry at its end,
/// under an identifier one greater than the greatest of `loaded`, or,
/// where two neighbouring entries of that are the same, `loaded` and the
/// error.
pub open spec fn added_blocktype(
    loaded: Seq<BlockType>,
    blocktype: NewBlockType,
    written: Option<Vec<BlockType>>,
    result: Result<(), Error>,
) -> bool {
    let grown = loaded.push(
        BlockType {
            id: (greatest_id(loaded) + 1) as u8,
            name: blocktype.name,
            color: blocktype.color,
        },
    );
    &&& written is Some
    &&& if spec_check_identical(grown) {
        result == Err::<(), Error>(Error { error_type: ErrorType::IdenticalBlockType })
            && written->0@ == loaded
    } else {
        result == Ok::<(), Error>(()) && written->0@ == grown
    }
}

/// Adds a category to the catalog under the next free identifier. Where
/// two neighbouring entries of the result are the same, the answer is
/// `IdenticalBlockType` and the new entry is not written.
pub fn new_blocktype(store: &mut Store, blocktype: NewBlockType) -> (result: Result<(), Error>)
    requires
        match old(store).block_types() {
            Some(held) => greatest_id(held@) < 255,
            None => true,
        },
    ensures
        exists|loaded: Seq<BlockType>| #[trigger]
            is_catalog_of(old(store).block_types(), loaded) && added_blocktype(
                loaded,
                blocktype,
                final(store).block_types(),
                result,
            ),
        final(store).days() == old(store).days(),
        final(store).current_block() == old(store).current_block(),
{
    let mut current_blocks = BlockType::load(store);
    let ghost loaded = current_blocks@;
    proof {
        if old(store).block_types() is None {
            reveal_with_fuel(greatest_id, 2);
            assert(loaded.drop_last().len() == 0);
        }
    }
    current_blocks.push_new(blocktype);
    let result = BlockType::save(store, current_blocks.as_slice());
    assert(is_catalog_of(old(store).block_types(), loaded) && added_blocktype(
        loaded,
        blocktype,
        store.block_types(),
        result,
    ));
    result
}

/// The start of the block that ends now: the end of the last block of
/// today's record or, where today has none, of yesterday's; where
/// neither day has a block, 00:00:00 of today.
pub open spec fn spec_next_start(days: Map<i64, Seq<TimeBlock>>, now: Timestamp) -> Option<Timestamp> {
    let today = now.day_spec() as i64;
    let recent = if record_of(days, today).len() > 0 {
        record_of(days, today)
    } else {
        record_of(days, (today - 1) as i64)
    };
    if recent.len() > 0 {
        Some(recent.last().end_time)
    } else {
        now.with_time_spec(0)
    }
}

/// Whether `after` and `result` are what closing the time up to `now`
/// with a block of the category and label of `current` leaves of the
/// store `before`.
pub open spec fn closed_up_to(
    before: Store,
    now: Timestamp,
    current: CurrentBlock,
    new_current_block: CurrentBlock,
    after: Store,
    result: Result<(), Error>,
) -> bool {
    match spec_next_start(before.days(), now) {
        None => result == Err::<(), Error>(Error { error_type: ErrorType::Chrono }) && after
            == before,
        Some(start_time) => match spec_save(before.days(), filler(start_time, now, current)) {
            Ok(days) => result == Ok::<(), Error>(()) && after.days() == days
                && after.current_block() == Some(new_current_block),
            Err(error) => result == Err::<(), Error>(error) && after.days() == before.days()
                && after.current_block() == before.current_block(),
        },
    }
}

/// Closes the time up to `now` with a block of the current category and
/// label, and makes `new_current_block` the current block.
///
/// The block starts where `spec_next_start` says and is saved as
/// `spec_save` describes. On an error nothing is written, and the current
/// block stays.
pub fn next_timeblock(store: &mut Store, now: Timestamp, new_current_block: CurrentBlock) -> (result:
    Result<(), Error>)
    ensures
        exists|current: CurrentBlock| #[trigger]
            is_current_of(old(store).current_block(), current) && closed_up_to(
                *old(store),
                now,
                current,
                new_current_block,
                *final(store),
                result,
            ),
        all_disjoint(old(store).days()) ==> all_disjoint(final(store).days()),
        all_positive(old(store).days()) ==> all_positive(final(store).days()),
        final(store).block_types() == old(store).block_types(),
{
    let today = now.day();
    let time_blocks = TimeBlock::get_day_timeblocks(store, today);
    let current_data = CurrentBlock::get(store);
    let time_blocks = if time_blocks.len() == 0 {
        TimeBlock::get_day_timeblocks(store, today - 1)
    } else {
        time_blocks
    };
    let start_time = if time_blocks.len() == 0 {
        match now.start_of_day() {
            Some(start_time) => start_time,
            None => {
                let result = Err(Error::new(ErrorType::Chrono));
                assert(is_current_of(old(store).current_block(), current_data) && closed_up_to(
                    *old(store),
                    now,
                    current_data,
                    new_current_block,
                    *store,
                    result,
                ));
                return result;
            },
        }
    } else {
        time_blocks[time_blocks.len() - 1].end_time
    };
    assert(spec_next_start(store.days(), now) == Some(start_time));
    let timeblock = TimeBlock::new(
        start_time,
        now,
        current_data.block_type_id,
        current_data.current_block_name,
    );
    assert(timeblock == filler(start_time, now, current_data));
    match timeblock.save(store) {
        Ok(_) => {},
        Err(error) => {
            let result = Err(error);
            assert(is_current_of(old(store).current_block(), current_data) && closed_up_to(
                *old(store),
                now,
                current_data,
                new_current_block,
                *store,
                result,
            ));
            return result;
        },
    }
    new_current_block.save(store);
    let result = Ok(());
    assert(is_current_of(old(store).current_block(), current_data) && closed_up_to(
        *old(store),
        now,
        current_data,
        new_current_block,
        *store,
        result,
    ));
    result
}

/// Whether `after` and `result` are what merging `data` leaves of the
/// store `before`, whose catalog was `loaded` and whose current block,
/// as `CurrentBlock::get` gives it, was `template`.
///
/// The catalog is merged first. Where two neighbouring entries of the
/// merged catalog are the same, that is the error, and neither a block
/// nor the current block is touched. Otherwise the merged catalog is
/// written and the blocks are merged, date by date from the earliest,
/// with `template` as the template of the fillers. Once every date is
/// merged, the current block of `data` takes the place of the store's.
pub open spec fn synced_all(
    loaded: Seq<BlockType>,
    template: CurrentBlock,
    before: Store,
    data: SyncBody,
    after: Store,
    result: Result<(), Error>,
) -> bool {
    &&& after.block_types() is Some
    &&& if spec_check_identical(merged(loaded, data.block_types@)) {
        &&& result == Err::<(), Error>(Error { error_type: ErrorType::IdenticalBlockType })
        &&& after.block_types()->0@ == loaded
        &&& after.days() == before.days()
        &&& after.current_block() == before.current_block()
    } else {
        &&& is_current_of(before.current_block(), template)
        &&& after.block_types()->0@ == merged(loaded, data.block_types@)
        &&& (after.days(), result) == spec_sync_days(
            before.days(),
            ascending_listing(data.time_blocks@),
            template,
        )
        &&& result is Ok ==> after.current_block() == Some(data.current_block)
        &&& result is Err ==> after.current_block() == before.current_block()
    }
}

/// Merges what an offline client sends, as `synced_all` describes.
pub fn sync(store: &mut Store, data: SyncBody) -> (result: Result<(), Error>)
    ensures
        exists|loaded: Seq<BlockType>, template: CurrentBlock|
            is_catalog_of(old(store).block_types(), loaded) && #[trigger] synced_all(
                loaded,
                template,
                *old(store),
                data,
                *final(store),
                result,
            ),
        all_disjoint(old(store).days()) ==> all_disjoint(final(store).days()),
        all_positive(old(store).days()) ==> all_positive(final(store).days()),
{
    let ghost before = *store;
    match BlockType::sync(store, data.block_types) {
        Ok(_) => {},
        Err(error) => {
            let result = Err(error);
            proof {
                let loaded = choose|loaded: Seq<BlockType>| #[trigger]
                    is_catalog_of(before.block_types(), loaded) && synced_catalog(
                        loaded,
                        data.block_types@,
                        store.block_types(),
                        result,
                    );
                assert(is_catalog_of(before.block_types(), loaded) && synced_all(
                    loaded,
                    data.current_block,
                    before,
                    data,
                    *store,
                    result,
                ));
            }
            return result;
        },
    }
    let ghost loaded = choose|loaded: Seq<BlockType>| #[trigger]
        is_catalog_of(before.block_types(), loaded) && synced_catalog(
            loaded,
            data.block_types@,
            store.block_types(),
            Ok::<(), Error>(()),
        );
    let ghost merged_store = *store;
    let merged_blocks = TimeBlock::sync(store, data.time_blocks);
    let ghost template = choose|template: CurrentBlock| #[trigger]
        is_current_of(merged_store.current_block(), template) && (store.days(), merged_blocks)
            == spec_sync_days(
            merged_store.days(),
            ascending_listing(data.time_blocks@),
            template,
        );
    match merged_blocks {
        Ok(done) => {
            assert(done == ());
        },
        Err(error) => {
            let result = Err(error);
            assert(is_catalog_of(before.block_types(), loaded) && synced_all(
                loaded,
                template,
                before,
                data,
                *store,
                result,
            ));
            return result;
        },
    }
    data.current_block.save(store);
    let result = Ok(());
    assert(is_catalog_of(before.block_types(), loaded) && synced_all(
        loaded,
        template,
        before,
        data,
        *store,
        result,
    ));
    result
}

} // verus!
