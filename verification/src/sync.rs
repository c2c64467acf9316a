//! Merging a second copy of the timeline into the store.

use vstd::prelude::*;
use std::collections::hash_map::RandomState;
use std::collections::HashMap;
use indexmap::IndexMap;
use crate::currentblock::{is_current_of, CurrentBlock};
use crate::error::{Error, ErrorType};
use crate::store::{all_disjoint, record_of, Store};
use crate::timeblock::{
    all_positive, lemma_save_keeps_disjoint, lemma_save_keeps_positive, no_overlap, spec_save,
    TimeBlock,
};
use crate::timestamp::{Timestamp, DAY_END};

verus! {

/// Data that can be merged into the store.
pub trait Sync<T> {
    /// Merges `incoming_data` into the store.
    fn sync(store: &mut Store, incoming_data: T) -> Result<(), Error>;
}

/// A second copy of the timeline: for each calendar date, in days since
/// 1970-01-01, the blocks that the copy holds for it.
pub type SyncTimeBlock = HashMap<i64, Vec<TimeBlock>>;

/// The current block as it comes in: it replaces the one of the store.
pub type SyncCurrentBlock = CurrentBlock;

/// `indexmap::IndexMap`: a hash map that keeps its pairs in an order.
/// Nothing is known of a value of it but what `index_map_entries` names.
#[verifier::external_type_specification]
#[verifier::external_body]
#[verifier::reject_recursive_types(K)]
#[verifier::reject_recursive_types(V)]
#[verifier::reject_recursive_types(S)]
pub struct ExIndexMap<K, V, S>(IndexMap<K, V, S>);

/// The key-value pairs of an `indexmap::IndexMap`, in the order in which
/// the map holds them.
pub uninterp spec fn index_map_entries(map: IndexMap<i64, Vec<TimeBlock>, RandomState>) -> Seq<
    (i64, Vec<TimeBlock>),
>;

/// Whether `entries` lists the pairs of `map`, each key once, in any
/// order.
pub open spec fn lists_map(entries: Seq<(i64, Vec<TimeBlock>)>, map: Map<i64, Vec<TimeBlock>>) -> bool {
    &&& forall|i: int, j: int|
        0 <= i < j < entries.len() ==> (#[trigger] entries[i]).0 != (#[trigger] entries[j]).0
    &&& forall|i: int|
        0 <= i < entries.len() ==> map.contains_key((#[trigger] entries[i]).0) && map[entries[i].0]
            == entries[i].1
    &&& forall|key: i64| #[trigger]
        map.contains_key(key) ==> exists|i: int|
            0 <= i < entries.len() && (#[trigger] entries[i]).0 == key
}

/// Whether `entries` lists the pairs of `map`, each key once, from the
/// least key to the greatest.
pub open spec fn lists_map_ascending(
    entries: Seq<(i64, Vec<TimeBlock>)>,
    map: Map<i64, Vec<TimeBlock>>,
) -> bool {
    &&& forall|i: int, j: int|
        0 <= i < j < entries.len() ==> (#[trigger] entries[i]).0 < (#[trigger] entries[j]).0
    &&& forall|i: int|
        0 <= i < entries.len() ==> map.contains_key((#[trigger] entries[i]).0) && map[entries[i].0]
            == entries[i].1
    &&& forall|key: i64| #[trigger]
        map.contains_key(key) ==> exists|i: int|
            0 <= i < entries.len() && (#[trigger] entries[i]).0 == key
}

/// `IndexMap::from_iter` on a `HashMap`. The contract claims that the map
/// made holds the pairs of the hash map, each key once; it says nothing
/// of their order, which is that in which the hash map hands them out.
#[verifier::external_body]
fn index_map_from(incoming: HashMap<i64, Vec<TimeBlock>>) -> (map: IndexMap<
    i64,
    Vec<TimeBlock>,
    RandomState,
>)
    ensures
        lists_map(index_map_entries(map), incoming@),
{
    IndexMap::from_iter(incoming)
}

/// `IndexMap::sort_unstable_keys`. The contract claims that the map holds
/// the same pairs after the call as before, and holds them from the least
/// key to the greatest; as no key occurs twice in an `IndexMap`, each key
/// is less than the next.
#[verifier::external_body]
fn sort_keys(map: &mut IndexMap<i64, Vec<TimeBlock>, RandomState>)
    ensures
        index_map_entries(*final(map)).len() == index_map_entries(*old(map)).len(),
        forall|entry: (i64, Vec<TimeBlock>)|
            index_map_entries(*old(map)).contains(entry) <==> index_map_entries(
                *final(map),
            ).contains(entry),
        forall|i: int, j: int|
            0 <= i < j < index_map_entries(*final(map)).len() ==> (#[trigger] index_map_entries(
                *final(map),
            )[i]).0 < (#[trigger] index_map_entries(*final(map))[j]).0,
{
    map.sort_unstable_keys()
}

/// `IndexMap::into_iter`, collected. The contract claims that the pairs
/// come out in the order in which the map holds them.
#[verifier::external_body]
fn into_entries(map: IndexMap<i64, Vec<TimeBlock>, RandomState>) -> (entries: Vec<
    (i64, Vec<TimeBlock>),
>)
    ensures
        entries@ == index_map_entries(map),
{
    map.into_iter().collect()
}

/// The pairs of the incoming map from the earliest date to the latest.
pub fn ascending_days(incoming: HashMap<i64, Vec<TimeBlock>>) -> (entries: Vec<
    (i64, Vec<TimeBlock>),
>)
    ensures
        lists_map_ascending(entries@, incoming@),
{
    let mut index_map = index_map_from(incoming);
    let ghost unsorted = index_map_entries(index_map);
    sort_keys(&mut index_map);
    let ghost sorted = index_map_entries(index_map);
    proof {
        assert forall|i: int| 0 <= i < sorted.len() implies incoming@.contains_key(
            (#[trigger] sorted[i]).0,
        ) && incoming@[sorted[i].0] == sorted[i].1 by {
            assert(sorted.contains(sorted[i]));
            assert(unsorted.contains(sorted[i]));
            let j = choose|j: int| 0 <= j < unsorted.len() && unsorted[j] == sorted[i];
            assert(incoming@.contains_key(unsorted[j].0));
        }
        assert forall|key: i64| #[trigger] incoming@.contains_key(key) implies exists|i: int|
            0 <= i < sorted.len() && (#[trigger] sorted[i]).0 == key by {
            let j = choose|j: int| 0 <= j < unsorted.len() && (#[trigger] unsorted[j]).0 == key;
            assert(unsorted.contains(unsorted[j]));
            assert(sorted.contains(unsorted[j]));
            let i = choose|i: int| 0 <= i < sorted.len() && sorted[i] == unsorted[j];
            assert(sorted[i].0 == key);
        }
    }
    into_entries(index_map)
}

/// There is one way only to list the pairs of a map from the least key to
/// the greatest.
pub proof fn lemma_ascending_listing_is_unique(
    first: Seq<(i64, Vec<TimeBlock>)>,
    second: Seq<(i64, Vec<TimeBlock>)>,
    map: Map<i64, Vec<TimeBlock>>,
)
    requires
        lists_map_ascending(first, map),
        lists_map_ascending(second, map),
    ensures
        first == second,
    decreases first.len(),
{
    if first.len() == 0 {
        if second.len() > 0 {
            assert(map.contains_key(second[0].0));
        }
        assert(first =~= second);
    } else {
        let top = first.last();
        assert(map.contains_key(top.0));
        let at = choose|i: int| 0 <= i < second.len() && (#[trigger] second[i]).0 == top.0;
        // The greatest key of one listing is the greatest key of the other.
        if at < second.len() - 1 {
            let above = second.last();
            assert(map.contains_key(above.0));
            let back = choose|i: int| 0 <= i < first.len() && (#[trigger] first[i]).0 == above.0;
            assert(first[back].0 <= top.0);
            assert(second[at].0 < above.0);
        }
        assert(at == second.len() - 1);
        let smaller = map.remove(top.0);
        let first_rest = first.drop_last();
        let second_rest = second.drop_last();
        assert(lists_map_ascending(first_rest, smaller)) by {
            assert forall|key: i64| #[trigger] smaller.contains_key(key) implies exists|i: int|
                0 <= i < first_rest.len() && (#[trigger] first_rest[i]).0 == key by {
                assert(map.contains_key(key));
                let i = choose|i: int| 0 <= i < first.len() && (#[trigger] first[i]).0 == key;
                assert(first_rest[i].0 == key);
            }
            assert forall|i: int| 0 <= i < first_rest.len() implies smaller.contains_key(
                (#[trigger] first_rest[i]).0,
            ) && smaller[first_rest[i].0] == first_rest[i].1 by {
                assert(first[i].0 < top.0);
                assert(map.contains_key(first[i].0));
            }
        }
        assert(lists_map_ascending(second_rest, smaller)) by {
            assert forall|key: i64| #[trigger] smaller.contains_key(key) implies exists|i: int|
                0 <= i < second_rest.len() && (#[trigger] second_rest[i]).0 == key by {
                assert(map.contains_key(key));
                let i = choose|i: int| 0 <= i < second.len() && (#[trigger] second[i]).0 == key;
                assert(second_rest[i].0 == key);
            }
            assert forall|i: int| 0 <= i < second_rest.len() implies smaller.contains_key(
                (#[trigger] second_rest[i]).0,
            ) && smaller[second_rest[i].0] == second_rest[i].1 by {
                assert(second[i].0 < second[at].0);
                assert(map.contains_key(second[i].0));
            }
        }
        lemma_ascending_listing_is_unique(first_rest, second_rest, smaller);
        assert(first.last().1 == second.last().1);
        assert(first.last() == second.last());
        assert(first =~= first_rest.push(first.last()));
        assert(second =~= second_rest.push(second.last()));
    }
}

/// The latest end among the blocks of a record that is not empty. Of
/// several blocks that end last together, the one that comes last in the
/// record gives the timestamp.
pub open spec fn latest_end(record: Seq<TimeBlock>) -> Timestamp
    decreases record.len(),
{
    if record.len() <= 1 {
        record[0].end_time
    } else {
        let before = latest_end(record.drop_last());
        if record.last().end_time.nanos >= before.nanos {
            record.last().end_time
        } else {
            before
        }
    }
}

/// The blocks that start at `from` or later, in their order.
pub open spec fn starting_from(blocks: Seq<TimeBlock>, from: Timestamp) -> Seq<TimeBlock>
    decreases blocks.len(),
{
    if blocks.len() == 0 {
        Seq::empty()
    } else if blocks.last().start_time.nanos >= from.nanos {
        starting_from(blocks.drop_last(), from).push(blocks.last())
    } else {
        starting_from(blocks.drop_last(), from)
    }
}

/// The earliest start among blocks, of which there is at least one. Of
/// several blocks that start first together, the one that comes first
/// gives the timestamp.
pub open spec fn earliest_start(blocks: Seq<TimeBlock>) -> Timestamp
    decreases blocks.len(),
{
    if blocks.len() <= 1 {
        blocks[0].start_time
    } else {
        let before = earliest_start(blocks.drop_last());
        if blocks.last().start_time.nanos < before.nanos {
            blocks.last().start_time
        } else {
            before
        }
    }
}

/// The block that fills the time from `start_time` to `end_time` with the
/// category and label of the template.
pub open spec fn filler(start_time: Timestamp, end_time: Timestamp, template: CurrentBlock) -> TimeBlock {
    TimeBlock {
        start_time,
        end_time,
        block_type_id: template.block_type_id,
        title: template.current_block_name,
    }
}

/// The records after the blocks are saved one after the other, and
/// whether all were saved. The first block that is refused ends it: the
/// blocks before it stay saved, it and the blocks after it are not.
pub open spec fn spec_save_all(days: Map<i64, Seq<TimeBlock>>, blocks: Seq<TimeBlock>) -> (
    Map<i64, Seq<TimeBlock>>,
    Result<(), Error>,
)
    decreases blocks.len(),
{
    if blocks.len() == 0 {
        (days, Ok(()))
    } else {
        let (before, result) = spec_save_all(days, blocks.drop_last());
        match result {
            Err(error) => (before, Err(error)),
            Ok(_) => match spec_save(before, blocks.last()) {
                Ok(after) => (after, Ok(())),
                Err(error) => (before, Err(error)),
            },
        }
    }
}

/// What merging the incoming blocks of one date does to the records.
///
/// Where the date has no record, every incoming block is saved. Where it
/// has one, the record stands for all time up to its latest end: incoming
/// blocks that start before that are dropped. If none is left, the day is
/// closed with a filler from the latest end to 23:59:59, unless it ends
/// there already. Otherwise a filler closes the gap, if there is one,
/// between the latest end and the earliest start of what is left, and
/// what is left is saved in its order.
#[verifier::opaque]
pub open spec fn spec_sync_day(
    days: Map<i64, Seq<TimeBlock>>,
    day: i64,
    incoming: Seq<TimeBlock>,
    template: CurrentBlock,
) -> (Map<i64, Seq<TimeBlock>>, Result<(), Error>) {
    let existing = record_of(days, day);
    if existing.len() == 0 {
        spec_save_all(days, incoming)
    } else {
        let self_end = latest_end(existing);
        let kept = starting_from(incoming, self_end);
        if kept.len() == 0 {
            if self_end.time_of_day_spec() == DAY_END {
                (days, Ok(()))
            } else {
                match self_end.with_time_spec(DAY_END as int) {
                    None => (days, Err(Error { error_type: ErrorType::Chrono })),
                    Some(day_end) => match spec_save(days, filler(self_end, day_end, template)) {
                        Ok(after) => (after, Ok(())),
                        Err(error) => (days, Err(error)),
                    },
                }
            }
        } else {
            let first_start = earliest_start(kept);
            if self_end.nanos < first_start.nanos {
                match spec_save(days, filler(self_end, first_start, template)) {
                    Ok(after) => spec_save_all(after, kept),
                    Err(error) => (days, Err(error)),
                }
            } else {
                spec_save_all(days, kept)
            }
        }
    }
}

/// The records after the dates are merged one after the other, and
/// whether all were merged. The first date that fails ends it: what was
/// written until then stays.
pub open spec fn spec_sync_days(
    days: Map<i64, Seq<TimeBlock>>,
    entries: Seq<(i64, Vec<TimeBlock>)>,
    template: CurrentBlock,
) -> (Map<i64, Seq<TimeBlock>>, Result<(), Error>)
    decreases entries.len(),
{
    if entries.len() == 0 {
        (days, Ok(()))
    } else {
        let (before, result) = spec_sync_days(days, entries.drop_last(), template);
        match result {
            Err(error) => (before, Err(error)),
            Ok(_) => spec_sync_day(before, entries.last().0, entries.last().1@, template),
        }
    }
}

/// Saving blocks one after the other never makes two blocks of one record
/// overlap.
pub proof fn lemma_save_all_keeps_disjoint(days: Map<i64, Seq<TimeBlock>>, blocks: Seq<TimeBlock>)
    requires
        all_disjoint(days),
    ensures
        all_disjoint(spec_save_all(days, blocks).0),
    decreases blocks.len(),
{
    if blocks.len() > 0 {
        lemma_save_all_keeps_disjoint(days, blocks.drop_last());
        let (before, result) = spec_save_all(days, blocks.drop_last());
        if result is Ok && spec_save(before, blocks.last()) is Ok {
            lemma_save_keeps_disjoint(before, blocks.last());
        }
    }
}

/// Merging the incoming blocks of a date never makes two blocks of one
/// record overlap.
pub proof fn lemma_sync_day_keeps_disjoint(
    days: Map<i64, Seq<TimeBlock>>,
    day: i64,
    incoming: Seq<TimeBlock>,
    template: CurrentBlock,
)
    requires
        all_disjoint(days),
    ensures
        all_disjoint(spec_sync_day(days, day, incoming, template).0),
{
    reveal(spec_sync_day);
    let existing = record_of(days, day);
    if existing.len() == 0 {
        lemma_save_all_keeps_disjoint(days, incoming);
    } else {
        let self_end = latest_end(existing);
        let kept = starting_from(incoming, self_end);
        if kept.len() == 0 {
            if self_end.time_of_day_spec() != DAY_END {
                match self_end.with_time_spec(DAY_END as int) {
                    None => {},
                    Some(day_end) => {
                        if spec_save(days, filler(self_end, day_end, template)) is Ok {
                            lemma_save_keeps_disjoint(days, filler(self_end, day_end, template));
                        }
                    },
                }
            }
        } else {
            let first_start = earliest_start(kept);
            if self_end.nanos < first_start.nanos {
                let gap = filler(self_end, first_start, template);
                if spec_save(days, gap) is Ok {
                    lemma_save_keeps_disjoint(days, gap);
                    lemma_save_all_keeps_disjoint(spec_save(days, gap)->Ok_0, kept);
                }
            } else {
                lemma_save_all_keeps_disjoint(days, kept);
            }
        }
    }
}

/// Merging dates one after the other never makes two blocks of one record
/// overlap.
pub proof fn lemma_sync_days_keeps_disjoint(
    days: Map<i64, Seq<TimeBlock>>,
    entries: Seq<(i64, Vec<TimeBlock>)>,
    template: CurrentBlock,
)
    requires
        all_disjoint(days),
    ensures
        all_disjoint(spec_sync_days(days, entries, template).0),
    decreases entries.len(),
{
    if entries.len() > 0 {
        lemma_sync_days_keeps_disjoint(days, entries.drop_last(), template);
        let (before, result) = spec_sync_days(days, entries.drop_last(), template);
        if result is Ok {
            lemma_sync_day_keeps_disjoint(before, entries.last().0, entries.last().1@, template);
        }
    }
}

/// Saving blocks one after the other never leaves a block that does not
/// end after it starts.
pub proof fn lemma_save_all_keeps_positive(days: Map<i64, Seq<TimeBlock>>, blocks: Seq<TimeBlock>)
    requires
        all_positive(days),
    ensures
        all_positive(spec_save_all(days, blocks).0),
    decreases blocks.len(),
{
    if blocks.len() > 0 {
        lemma_save_all_keeps_positive(days, blocks.drop_last());
        let (before, result) = spec_save_all(days, blocks.drop_last());
        if result is Ok && spec_save(before, blocks.last()) is Ok {
            lemma_save_keeps_positive(before, blocks.last());
        }
    }
}

/// Merging the incoming blocks of a date never leaves a block that
/// does not end after it starts.
pub proof fn lemma_sync_day_keeps_positive(
    days: Map<i64, Seq<TimeBlock>>,
    day: i64,
    incoming: Seq<TimeBlock>,
    template: CurrentBlock,
)
    requires
        all_positive(days),
    ensures
        all_positive(spec_sync_day(days, day, incoming, template).0),
{
    reveal(spec_sync_day);
    let existing = record_of(days, day);
    if existing.len() == 0 {
        lemma_save_all_keeps_positive(days, incoming);
    } else {
        let self_end = latest_end(existing);
        let kept = starting_from(incoming, self_end);
        if kept.len() == 0 {
            if self_end.time_of_day_spec() != DAY_END {
                match self_end.with_time_spec(DAY_END as int) {
                    None => {},
                    Some(day_end) => {
                        if spec_save(days, filler(self_end, day_end, template)) is Ok {
                            lemma_save_keeps_positive(days, filler(self_end, day_end, template));
                        }
                    },
                }
            }
        } else {
            let first_start = earliest_start(kept);
            if self_end.nanos < first_start.nanos {
                let gap = filler(self_end, first_start, template);
                if spec_save(days, gap) is Ok {
                    lemma_save_keeps_positive(days, gap);
                    lemma_save_all_keeps_positive(spec_save(days, gap)->Ok_0, kept);
                }
            } else {
                lemma_save_all_keeps_positive(days, kept);
            }
        }
    }
}

/// Merging dates one after the other never leaves a block that does not
/// end after it starts.
pub proof fn lemma_sync_days_keeps_positive(
    days: Map<i64, Seq<TimeBlock>>,
    entries: Seq<(i64, Vec<TimeBlock>)>,
    template: CurrentBlock,
)
    requires
        all_positive(days),
    ensures
        all_positive(spec_sync_days(days, entries, template).0),
    decreases entries.len(),
{
    if entries.len() > 0 {
        lemma_sync_days_keeps_positive(days, entries.drop_last(), template);
        let (before, result) = spec_sync_days(days, entries.drop_last(), template);
        if result is Ok {
            lemma_sync_day_keeps_positive(before, entries.last().0, entries.last().1@, template);
        }
    }
}

/// No block of a record ends after the latest end of the record.
pub proof fn lemma_latest_end_is_latest(record: Seq<TimeBlock>, i: int)
    requires
        0 <= i < record.len(),
    ensures
        record[i].end_time.nanos <= latest_end(record).nanos,
    decreases record.len(),
{
    if record.len() > 1 && i < record.len() - 1 {
        lemma_latest_end_is_latest(record.drop_last(), i);
    }
}

/// Where the record of a date ends before the one incoming block starts,
/// the merge puts a filler from the latest end of the record to the start
/// of the block at the end of the record, and the block after it: the
/// filler starts where the record ended and ends where the block starts,
/// so that no time is left open between them and nothing overlaps. The
/// latest end and the block are taken to lie on the date.
pub proof fn lemma_sync_day_fills_gap(
    days: Map<i64, Seq<TimeBlock>>,
    day: i64,
    incoming: TimeBlock,
    template: CurrentBlock,
)
    requires
        record_of(days, day).len() > 0,
        latest_end(record_of(days, day)).nanos < incoming.start_time.nanos,
        latest_end(record_of(days, day)).day_spec() == day,
        incoming.start_time.day_spec() == day,
        incoming.end_time.day_spec() == day,
        incoming.is_valid(),
    ensures
        spec_sync_day(days, day, seq![incoming], template) == (
            days.insert(
                day,
                record_of(days, day).push(
                    filler(latest_end(record_of(days, day)), incoming.start_time, template),
                ).push(incoming),
            ),
            Ok::<(), Error>(()),
        ),
        !crate::timeblock::spec_overlaps(
            filler(latest_end(record_of(days, day)), incoming.start_time, template),
            incoming,
        ),
        all_disjoint(days) ==> all_disjoint(spec_sync_day(days, day, seq![incoming], template).0),
{
    reveal(spec_sync_day);
    let record = record_of(days, day);
    let self_end = latest_end(record);
    let gap = filler(self_end, incoming.start_time, template);
    let blocks = seq![incoming];
    assert(blocks.drop_last() == Seq::<TimeBlock>::empty());
    assert(blocks.last() == incoming);
    reveal_with_fuel(starting_from, 2);
    reveal_with_fuel(spec_save_all, 2);
    assert(starting_from(blocks, self_end) == blocks);
    assert(earliest_start(blocks) == incoming.start_time);
    assert forall|i: int| 0 <= i < record.len() implies !crate::timeblock::spec_overlaps(
        gap,
        #[trigger] record[i],
    ) && !crate::timeblock::spec_overlaps(incoming, record[i]) by {
        lemma_latest_end_is_latest(record, i);
    }
    let filled = days.insert(day, record.push(gap));
    assert(spec_save(days, gap) == Ok::<Map<i64, Seq<TimeBlock>>, Error>(filled));
    assert(record_of(filled, day) == record.push(gap));
    assert forall|i: int|
        0 <= i < record.push(gap).len() implies !crate::timeblock::spec_overlaps(
        incoming,
        #[trigger] record.push(gap)[i],
    ) by {
        if i < record.len() {
            assert(record.push(gap)[i] == record[i]);
        }
    }
    let done = filled.insert(day, record.push(gap).push(incoming));
    assert(spec_save(filled, incoming) == Ok::<Map<i64, Seq<TimeBlock>>, Error>(done));
    assert(done == days.insert(day, record.push(gap).push(incoming)));
    if all_disjoint(days) {
        lemma_sync_day_keeps_disjoint(days, day, blocks, template);
    }
}

/// Blocks that all start and end on one date, and are all saved, go to
/// the end of the record of that date, in their order.
pub proof fn lemma_save_all_on_one_day(
    days: Map<i64, Seq<TimeBlock>>,
    blocks: Seq<TimeBlock>,
    day: i64,
)
    requires
        blocks.len() > 0,
        forall|i: int|
            0 <= i < blocks.len() ==> (#[trigger] blocks[i]).start_time.day_spec() == day
                && blocks[i].end_time.day_spec() == day,
        spec_save_all(days, blocks).1 is Ok,
    ensures
        spec_save_all(days, blocks).0 == days.insert(day, record_of(days, day) + blocks),
    decreases blocks.len(),
{
    let first = blocks.drop_last();
    let last = blocks.last();
    assert(blocks[blocks.len() - 1] == last);
    let record = record_of(days, day);
    let before = spec_save_all(days, first).0;
    assert(spec_save_all(days, first).1 is Ok);
    assert(spec_save(before, last) is Ok);
    assert(spec_save_all(days, blocks).0 == before.insert(
        day,
        record_of(before, day).push(last),
    ));
    if first.len() == 0 {
        assert(before == days);
        assert(record.push(last) == record + blocks);
    } else {
        assert forall|i: int| 0 <= i < first.len() implies (#[trigger] first[i]).start_time.day_spec()
            == day && first[i].end_time.day_spec() == day by {
            assert(first[i] == blocks[i]);
        }
        lemma_save_all_on_one_day(days, first, day);
        assert(record_of(before, day) == record + first);
        assert((record + first).push(last) == record + blocks);
        assert(before.insert(day, (record + first).push(last)) == days.insert(
            day,
            record + blocks,
        ));
    }
}

/// Where the record of a date ends before the earliest of the incoming
/// blocks that are kept, and the filler and the kept blocks all lie on
/// the date and are all saved, the merge leaves the record, then the
/// filler from the latest end of the record to that earliest start, then
/// the kept blocks in their order. Where no two blocks of the record
/// overlapped, no two overlap after, and a moment from the latest end up
/// to the earliest start lies in no block but the filler.
pub proof fn lemma_sync_day_fills_gap_before(
    days: Map<i64, Seq<TimeBlock>>,
    day: i64,
    incoming: Seq<TimeBlock>,
    template: CurrentBlock,
)
    requires
        record_of(days, day).len() > 0,
        starting_from(incoming, latest_end(record_of(days, day))).len() > 0,
        latest_end(record_of(days, day)).nanos < earliest_start(
            starting_from(incoming, latest_end(record_of(days, day))),
        ).nanos,
        latest_end(record_of(days, day)).day_spec() == day,
        earliest_start(starting_from(incoming, latest_end(record_of(days, day)))).day_spec()
            == day,
        forall|i: int|
            0 <= i < starting_from(incoming, latest_end(record_of(days, day))).len() ==> (
            #[trigger] starting_from(
                incoming,
                latest_end(record_of(days, day)),
            )[i]).start_time.day_spec() == day && starting_from(
                incoming,
                latest_end(record_of(days, day)),
            )[i].end_time.day_spec() == day,
        spec_sync_day(days, day, incoming, template).1 is Ok,
    ensures
        ({
            let record = record_of(days, day);
            let kept = starting_from(incoming, latest_end(record));
            let gap = filler(latest_end(record), earliest_start(kept), template);
            let merged = record.push(gap) + kept;
            &&& spec_sync_day(days, day, incoming, template).0 == days.insert(day, merged)
            &&& merged[record.len() as int] == gap
            &&& no_overlap(record) ==> no_overlap(merged) && forall|i: int, moment: int|
                0 <= i < merged.len() && gap.holds(moment) && #[trigger] merged[i].holds(moment)
                    ==> i == record.len()
        }),
{
    reveal(spec_sync_day);
    let record = record_of(days, day);
    let self_end = latest_end(record);
    let kept = starting_from(incoming, self_end);
    let gap = filler(self_end, earliest_start(kept), template);
    let filled = days.insert(day, record.push(gap));
    assert(spec_save(days, gap) == Ok::<Map<i64, Seq<TimeBlock>>, Error>(filled));
    lemma_save_all_on_one_day(filled, kept, day);
    assert(record_of(filled, day) == record.push(gap));
    let merged = record.push(gap) + kept;
    assert(filled.insert(day, merged) == days.insert(day, merged));
    if no_overlap(record) {
        let only = Map::<i64, Seq<TimeBlock>>::empty().insert(day, record);
        assert(all_disjoint(only));
        assert(record_of(only, day) == record);
        lemma_sync_day_keeps_disjoint(only, day, incoming, template);
        let only_filled = only.insert(day, record.push(gap));
        assert(spec_save(only, gap) == Ok::<Map<i64, Seq<TimeBlock>>, Error>(only_filled));
        lemma_save_all_carries_over(filled, only_filled, kept, day);
        lemma_save_all_on_one_day(only_filled, kept, day);
        assert(record_of(only_filled, day) == record.push(gap));
        let after = spec_sync_day(only, day, incoming, template).0;
        assert(after == only_filled.insert(day, merged));
        assert(after.contains_key(day));
        assert(after[day] == merged);
        assert(no_overlap(merged));
        assert forall|i: int, moment: int|
            0 <= i < merged.len() && gap.holds(moment) && #[trigger] merged[i].holds(
                moment,
            ) implies i == record.len() by {
            if i != record.len() {
                assert(!crate::timeblock::spec_overlaps(merged[i], merged[record.len() as int]));
            }
        }
    }
}

/// Whether blocks that all lie on one date are saved depends on the
/// record of that date alone.
pub proof fn lemma_save_all_carries_over(
    first: Map<i64, Seq<TimeBlock>>,
    second: Map<i64, Seq<TimeBlock>>,
    blocks: Seq<TimeBlock>,
    day: i64,
)
    requires
        record_of(first, day) == record_of(second, day),
        forall|i: int|
            0 <= i < blocks.len() ==> (#[trigger] blocks[i]).start_time.day_spec() == day
                && blocks[i].end_time.day_spec() == day,
    ensures
        spec_save_all(first, blocks).1 == spec_save_all(second, blocks).1,
        record_of(spec_save_all(first, blocks).0, day) == record_of(
            spec_save_all(second, blocks).0,
            day,
        ),
    decreases blocks.len(),
{
    if blocks.len() > 0 {
        let before = blocks.drop_last();
        assert forall|i: int| 0 <= i < before.len() implies (#[trigger] before[i]).start_time.day_spec()
            == day && before[i].end_time.day_spec() == day by {
            assert(before[i] == blocks[i]);
        }
        lemma_save_all_carries_over(first, second, before, day);
        assert(blocks[blocks.len() - 1] == blocks.last());
    }
}

/// The latest end among the blocks of a record: `None` for an empty one.
pub fn find_latest_end(record: &Vec<TimeBlock>) -> (latest: Option<Timestamp>)
    ensures
        match latest {
            Some(end_time) => record@.len() > 0 && end_time == latest_end(record@),
            None => record@.len() == 0,
        },
{
    if record.len() == 0 {
        return None;
    }
    let mut latest = record[0].end_time;
    let mut i: usize = 1;
    assert(record@.subrange(0, 1).len() == 1);
    while i < record.len()
        invariant
            1 <= i <= record@.len(),
            latest == latest_end(record@.subrange(0, i as int)),
        decreases record@.len() - i,
    {
        proof {
            let grown = record@.subrange(0, i + 1);
            assert(grown.drop_last() == record@.subrange(0, i as int));
        }
        if record[i].end_time.nanos >= latest.nanos {
            latest = record[i].end_time;
        }
        i += 1;
    }
    assert(record@.subrange(0, record@.len() as int) == record@);
    Some(latest)
}

/// The blocks that start at `from` or later, in their order.
pub fn keep_starting_from(blocks: &Vec<TimeBlock>, from: &Timestamp) -> (kept: Vec<TimeBlock>)
    ensures
        kept@ == starting_from(blocks@, *from),
{
    let mut kept: Vec<TimeBlock> = Vec::new();
    let mut i: usize = 0;
    while i < blocks.len()
        invariant
            i <= blocks@.len(),
            kept@ == starting_from(blocks@.subrange(0, i as int), *from),
        decreases blocks@.len() - i,
    {
        proof {
            let grown = blocks@.subrange(0, i + 1);
            assert(grown.drop_last() == blocks@.subrange(0, i as int));
        }
        if blocks[i].start_time.nanos >= from.nanos {
            kept.push(blocks[i].clone());
        }
        i += 1;
    }
    assert(blocks@.subrange(0, blocks@.len() as int) == blocks@);
    kept
}

/// The earliest start among the blocks.
pub fn find_earliest_start(blocks: &Vec<TimeBlock>) -> (earliest: Timestamp)
    requires
        blocks@.len() > 0,
    ensures
        earliest == earliest_start(blocks@),
{
    let mut earliest = blocks[0].start_time;
    let mut i: usize = 1;
    assert(blocks@.subrange(0, 1).len() == 1);
    while i < blocks.len()
        invariant
            1 <= i <= blocks@.len(),
            earliest == earliest_start(blocks@.subrange(0, i as int)),
        decreases blocks@.len() - i,
    {
        proof {
            let grown = blocks@.subrange(0, i + 1);
            assert(grown.drop_last() == blocks@.subrange(0, i as int));
        }
        if blocks[i].start_time.nanos < earliest.nanos {
            earliest = blocks[i].start_time;
        }
        i += 1;
    }
    assert(blocks@.subrange(0, blocks@.len() as int) == blocks@);
    earliest
}

/// Saves the blocks one after the other and stops at the first that is
/// refused.
pub fn save_all(store: &mut Store, blocks: &Vec<TimeBlock>) -> (result: Result<(), Error>)
    ensures
        (final(store).days(), result) == spec_save_all(old(store).days(), blocks@),
        final(store).block_types() == old(store).block_types(),
        final(store).current_block() == old(store).current_block(),
{
    let mut i: usize = 0;
    while i < blocks.len()
        invariant
            i <= blocks@.len(),
            (store.days(), Ok::<(), Error>(())) == spec_save_all(
                old(store).days(),
                blocks@.subrange(0, i as int),
            ),
            store.block_types() == old(store).block_types(),
            store.current_block() == old(store).current_block(),
        decreases blocks@.len() - i,
    {
        proof {
            let grown = blocks@.subrange(0, i + 1);
            assert(grown.drop_last() == blocks@.subrange(0, i as int));
        }
        match blocks[i].save(store) {
            Ok(_) => {},
            Err(error) => {
                proof {
                    lemma_save_all_stops(old(store).days(), blocks@, i + 1);
                }
                return Err(error);
            },
        }
        i += 1;
    }
    assert(blocks@.subrange(0, blocks@.len() as int) == blocks@);
    Ok(())
}

/// Once a block is refused, the blocks after it change nothing.
pub proof fn lemma_save_all_stops(days: Map<i64, Seq<TimeBlock>>, blocks: Seq<TimeBlock>, upto: int)
    requires
        0 <= upto <= blocks.len(),
        spec_save_all(days, blocks.subrange(0, upto)).1 is Err,
    ensures
        spec_save_all(days, blocks) == spec_save_all(days, blocks.subrange(0, upto)),
    decreases blocks.len() - upto,
{
    if upto < blocks.len() {
        let grown = blocks.subrange(0, upto + 1);
        assert(grown.drop_last() == blocks.subrange(0, upto));
        lemma_save_all_stops(days, blocks, upto + 1);
    } else {
        assert(blocks.subrange(0, upto) == blocks);
    }
}

/// Once a date fails, the dates after it change nothing.
pub proof fn lemma_sync_days_stops(
    days: Map<i64, Seq<TimeBlock>>,
    entries: Seq<(i64, Vec<TimeBlock>)>,
    template: CurrentBlock,
    upto: int,
)
    requires
        0 <= upto <= entries.len(),
        spec_sync_days(days, entries.subrange(0, upto), template).1 is Err,
    ensures
        spec_sync_days(days, entries, template) == spec_sync_days(
            days,
            entries.subrange(0, upto),
            template,
        ),
    decreases entries.len() - upto,
{
    if upto < entries.len() {
        let grown = entries.subrange(0, upto + 1);
        assert(grown.drop_last() == entries.subrange(0, upto));
        lemma_sync_days_stops(days, entries, template, upto + 1);
    } else {
        assert(entries.subrange(0, upto) == entries);
    }
}

/// Merges the incoming blocks of one date into the store, as
/// `spec_sync_day` describes.
pub fn sync_day(
    store: &mut Store,
    day: i64,
    incoming: &Vec<TimeBlock>,
    template: &CurrentBlock,
) -> (result: Result<(), Error>)
    ensures
        (final(store).days(), result) == spec_sync_day(
            old(store).days(),
            day,
            incoming@,
            *template,
        ),
        all_disjoint(old(store).days()) ==> all_disjoint(final(store).days()),
        all_positive(old(store).days()) ==> all_positive(final(store).days()),
        final(store).block_types() == old(store).block_types(),
        final(store).current_block() == old(store).current_block(),
{
    proof {
        reveal(spec_sync_day);
        if all_disjoint(store.days()) {
            lemma_sync_day_keeps_disjoint(store.days(), day, incoming@, *template);
        }
        if all_positive(store.days()) {
            lemma_sync_day_keeps_positive(store.days(), day, incoming@, *template);
        }
    }
    let existing = store.read(day);
    let self_end = match find_latest_end(&existing) {
        Some(self_end) => self_end,
        None => {
            return save_all(store, incoming);
        },
    };
    let kept = keep_starting_from(incoming, &self_end);
    if kept.len() == 0 {
        if self_end.is_day_end() {
            return Ok(());
        }
        let day_end = match self_end.end_of_day() {
            Some(day_end) => day_end,
            None => {
                return Err(Error::new(ErrorType::Chrono));
            },
        };
        let closing = TimeBlock::new(
            self_end,
            day_end,
            template.block_type_id,
            template.current_block_name.clone(),
        );
        closing.save(store)
    } else {
        let first_start = find_earliest_start(&kept);
        if self_end.is_before(&first_start) {
            let gap = TimeBlock::new(
                self_end,
                first_start,
                template.block_type_id,
                template.current_block_name.clone(),
            );
            match gap.save(store) {
                Ok(_) => {},
                Err(error) => {
                    return Err(error);
                },
            }
        }
        save_all(store, &kept)
    }
}

/// Merges the dates one after the other and stops at the first that
/// fails.
pub fn sync_days(
    store: &mut Store,
    entries: &Vec<(i64, Vec<TimeBlock>)>,
    template: &CurrentBlock,
) -> (result: Result<(), Error>)
    ensures
        (final(store).days(), result) == spec_sync_days(old(store).days(), entries@, *template),
        all_disjoint(old(store).days()) ==> all_disjoint(final(store).days()),
        all_positive(old(store).days()) ==> all_positive(final(store).days()),
        final(store).block_types() == old(store).block_types(),
        final(store).current_block() == old(store).current_block(),
{
    proof {
        if all_disjoint(store.days()) {
            lemma_sync_days_keeps_disjoint(store.days(), entries@, *template);
        }
        if all_positive(store.days()) {
            lemma_sync_days_keeps_positive(store.days(), entries@, *template);
        }
    }
    let mut i: usize = 0;
    while i < entries.len()
        invariant
            i <= entries@.len(),
            (store.days(), Ok::<(), Error>(())) == spec_sync_days(
                old(store).days(),
                entries@.subrange(0, i as int),
                *template,
            ),
            all_disjoint(old(store).days()) ==> all_disjoint(
                spec_sync_days(old(store).days(), entries@, *template).0,
            ),
            all_positive(old(store).days()) ==> all_positive(
                spec_sync_days(old(store).days(), entries@, *template).0,
            ),
            store.block_types() == old(store).block_types(),
            store.current_block() == old(store).current_block(),
        decreases entries@.len() - i,
    {
        proof {
            let grown = entries@.subrange(0, i + 1);
            assert(grown.drop_last() == entries@.subrange(0, i as int));
            assert(grown.last() == entries@[i as int]);
        }
        match sync_day(store, entries[i].0, &entries[i].1, template) {
            Ok(done) => {
                assert(done == ());
            },
            Err(error) => {
                proof {
                    lemma_sync_days_stops(old(store).days(), entries@, *template, i + 1);
                }
                return Err(error);
            },
        }
        i += 1;
    }
    assert(entries@.subrange(0, entries@.len() as int) == entries@);
    Ok(())
}

/// The pairs of a map from the least key to the greatest.
pub open spec fn ascending_listing(map: Map<i64, Vec<TimeBlock>>) -> Seq<(i64, Vec<TimeBlock>)> {
    choose|entries: Seq<(i64, Vec<TimeBlock>)>| lists_map_ascending(entries, map)
}

impl Sync<SyncTimeBlock> for TimeBlock {
    /// Merges a second copy of the timeline into the store.
    ///
    /// The dates of the copy are merged from the earliest to the latest,
    /// each as `spec_sync_day` describes. The template of the fillers is
    /// the current block of the store as `CurrentBlock::get` gives it
    /// before the merge. The first date that fails ends the merge with
    /// its error: the dates before it stay merged. The current block of
    /// the store is left as it is.
    fn sync(store: &mut Store, incoming_data: SyncTimeBlock) -> (result: Result<(), Error>)
        ensures
            exists|template: CurrentBlock| #[trigger]
                is_current_of(old(store).current_block(), template) && (
                    final(store).days(),
                    result,
                ) == spec_sync_days(
                    old(store).days(),
                    ascending_listing(incoming_data@),
                    template,
                ),
            all_disjoint(old(store).days()) ==> all_disjoint(final(store).days()),
            all_positive(old(store).days()) ==> all_positive(final(store).days()),
            final(store).current_block() == old(store).current_block(),
            final(store).block_types() == old(store).block_types(),
    {
        let entries = ascending_days(incoming_data);
        proof {
            lemma_ascending_listing_is_unique(
                entries@,
                ascending_listing(incoming_data@),
                incoming_data@,
            );
        }
        let self_current_block = CurrentBlock::get(store);
        let result = sync_days(store, &entries, &self_current_block);
        assert(is_current_of(old(store).current_block(), self_current_block) && (
            store.days(),
            result,
        ) == spec_sync_days(
            old(store).days(),
            ascending_listing(incoming_data@),
            self_current_block,
        ));
        result
    }
}

impl Sync<SyncCurrentBlock> for CurrentBlock {
    /// Puts the incoming current block in place of the store's.
    fn sync(store: &mut Store, incoming_data: SyncCurrentBlock) -> (result: Result<(), Error>)
        ensures
            result is Ok,
            final(store).current_block() == Some(incoming_data),
            final(store).days() == old(store).days(),
            final(store).block_types() == old(store).block_types(),
    {
        store.set_current(incoming_data);
        Ok(())
    }
}

} // verus!
