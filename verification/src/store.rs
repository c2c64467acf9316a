//! The records of the days, the category catalog and the current block,
//! held in memory.

use vstd::prelude::*;
use vstd::string::StringExecFns;
use chrono::NaiveDate;
use crate::blocktype::BlockType;
use crate::currentblock::CurrentBlock;
use crate::timeblock::{all_positive, clone_blocks, TimeBlock};
use crate::timestamp::{MAX_DAY, MIN_DAY};

verus! {

/// The record of one calendar date.
struct DayRecord {
    /// The date, in days since 1970-01-01.
    day: i64,
    /// The blocks filed under the date, in the order in which they came.
    blocks: Vec<TimeBlock>,
}

/// What is kept of a user's timeline: one record for each calendar date
/// that has one, the category catalog, and the current block.
///
/// A store starts empty. The caller fills in what an operation needs
/// from wherever the records are kept, and writes back what the operation
/// left.
pub struct Store {
    records: Vec<DayRecord>,
    block_types: Option<Vec<BlockType>>,
    current_block: Option<CurrentBlock>,
}

/// The records as a map from the date to the blocks. Where a date occurs
/// more than once, the last occurrence counts.
spec fn records_map(records: Seq<DayRecord>) -> Map<i64, Seq<TimeBlock>>
    decreases records.len(),
{
    if records.len() == 0 {
        Map::empty()
    } else {
        records_map(records.drop_last()).insert(records.last().day, records.last().blocks@)
    }
}

/// A date that no record has is no key of the map.
proof fn lemma_records_map_absent(records: Seq<DayRecord>, day: i64)
    requires
        forall|j: int| 0 <= j < records.len() ==> (#[trigger] records[j]).day != day,
    ensures
        !records_map(records).contains_key(day),
    decreases records.len(),
{
    if records.len() > 0 {
        lemma_records_map_absent(records.drop_last(), day);
    }
}

/// The last record of a date gives the blocks that the map holds for it.
proof fn lemma_records_map_last(records: Seq<DayRecord>, i: int)
    requires
        0 <= i < records.len(),
        forall|j: int| i < j < records.len() ==> (#[trigger] records[j]).day != records[i].day,
    ensures
        records_map(records).contains_key(records[i].day),
        records_map(records)[records[i].day] == records[i].blocks@,
    decreases records.len(),
{
    if i < records.len() - 1 {
        lemma_records_map_last(records.drop_last(), i);
    }
}

/// Putting other blocks in the last record of a date puts them in the map
/// under that date, and changes nothing else.
proof fn lemma_records_map_update(records: Seq<DayRecord>, i: int, entry: DayRecord)
    requires
        0 <= i < records.len(),
        entry.day == records[i].day,
        forall|j: int| i < j < records.len() ==> (#[trigger] records[j]).day != records[i].day,
    ensures
        records_map(records.update(i, entry)) == records_map(records).insert(
            entry.day,
            entry.blocks@,
        ),
    decreases records.len(),
{
    let updated = records.update(i, entry);
    if i == records.len() - 1 {
        assert(updated.drop_last() == records.drop_last());
        assert(records_map(updated) == records_map(records).insert(entry.day, entry.blocks@));
    } else {
        lemma_records_map_update(records.drop_last(), i, entry);
        assert(updated.drop_last() == records.drop_last().update(i, entry));
        assert(records_map(updated) == records_map(records).insert(entry.day, entry.blocks@));
    }
}

impl Store {
    /// The records of the days: the blocks filed under each date that has
    /// a record.
    pub closed spec fn days(self) -> Map<i64, Seq<TimeBlock>> {
        records_map(self.records@)
    }

    /// The category catalog, where the store has one.
    pub closed spec fn block_types(self) -> Option<Vec<BlockType>> {
        self.block_types
    }

    /// The current block, where the store has one.
    pub closed spec fn current_block(self) -> Option<CurrentBlock> {
        self.current_block
    }

    /// The blocks filed under a date: none where the date has no record.
    pub open spec fn record(self, day: i64) -> Seq<TimeBlock> {
        record_of(self.days(), day)
    }

    /// A store that holds nothing.
    pub fn new() -> (store: Store)
        ensures
            store.days() == Map::<i64, Seq<TimeBlock>>::empty(),
            all_disjoint(store.days()),
            all_positive(store.days()),
            store.block_types() is None,
            store.current_block() is None,
    {
        Store { records: Vec::new(), block_types: None, current_block: None }
    }

    /// The place of the record of `day` that counts, if the date has one.
    fn find(&self, day: i64) -> (place: Option<usize>)
        ensures
            match place {
                Some(i) => {
                    &&& i < self.records@.len()
                    &&& self.records@[i as int].day == day
                    &&& forall|j: int|
                        i < j < self.records@.len() ==> (#[trigger] self.records@[j]).day != day
                    &&& self.days().contains_key(day)
                    &&& self.days()[day] == self.records@[i as int].blocks@
                },
                None => !self.days().contains_key(day),
            },
    {
        let mut place: Option<usize> = None;
        let mut i: usize = 0;
        while i < self.records.len()
            invariant
                i <= self.records@.len(),
                match place {
                    Some(p) => {
                        &&& p < i
                        &&& self.records@[p as int].day == day
                        &&& forall|j: int| p < j < i ==> (#[trigger] self.records@[j]).day != day
                    },
                    None => forall|j: int| 0 <= j < i ==> (#[trigger] self.records@[j]).day != day,
                },
            decreases self.records@.len() - i,
        {
            if self.records[i].day == day {
                place = Some(i);
            }
            i += 1;
        }
        proof {
            match place {
                Some(p) => lemma_records_map_last(self.records@, p as int),
                None => lemma_records_map_absent(self.records@, day),
            }
        }
        place
    }

    /// Whether the date has a record.
    pub fn has_record(&self, day: i64) -> (b: bool)
        ensures
            b == self.days().contains_key(day),
    {
        self.find(day).is_some()
    }

    /// The blocks filed under a date, in the order in which they were
    /// written: none where the date has no record.
    pub fn read(&self, day: i64) -> (blocks: Vec<TimeBlock>)
        ensures
            blocks@ == self.record(day),
    {
        match self.find(day) {
            Some(i) => clone_blocks(&self.records[i].blocks),
            None => Vec::new(),
        }
    }

    /// Puts `blocks` in place of the whole record of a date.
    pub fn write(&mut self, day: i64, blocks: Vec<TimeBlock>)
        ensures
            final(self).days() == old(self).days().insert(day, blocks@),
            final(self).block_types() == old(self).block_types(),
            final(self).current_block() == old(self).current_block(),
    {
        let entry = DayRecord { day, blocks };
        match self.find(day) {
            Some(i) => {
                proof {
                    lemma_records_map_update(self.records@, i as int, entry);
                }
                self.records.set(i, entry);
            },
            None => {
                proof {
                    assert(self.records@.push(entry).drop_last() == self.records@);
                }
                self.records.push(entry);
            },
        }
    }

    /// The dates that have a record, each once.
    pub fn recorded_days(&self) -> (days: Vec<i64>)
        ensures
            days@.no_duplicates(),
            forall|day: i64| days@.contains(day) <==> self.days().contains_key(day),
    {
        let mut days: Vec<i64> = Vec::new();
        let mut i: usize = 0;
        while i < self.records.len()
            invariant
                i <= self.records@.len(),
                days@.no_duplicates(),
                forall|day: i64|
                    days@.contains(day) <==> records_map(self.records@.subrange(0, i as int)).contains_key(day),
            decreases self.records@.len() - i,
        {
            let day = self.records[i].day;
            proof {
                let before = self.records@.subrange(0, i as int);
                let after = self.records@.subrange(0, i + 1);
                assert(after.drop_last() == before);
                assert(after.last() == self.records@[i as int]);
            }
            if !contains_day(&days, day) {
                proof {
                    let grown = days@.push(day);
                    assert forall|d: i64| grown.contains(d) <==> (days@.contains(d) || d == day) by {
                        if days@.contains(d) {
                            let k = choose|k: int| 0 <= k < days@.len() && days@[k] == d;
                            assert(grown[k] == d);
                        }
                        if d == day {
                            assert(grown[days@.len() as int] == d);
                        }
                    }
                }
                days.push(day);
            }
            i += 1;
        }
        assert(self.records@.subrange(0, self.records@.len() as int) == self.records@);
        days
    }

    /// The category catalog, where the store has one.
    pub fn catalog(&self) -> (held: &Option<Vec<BlockType>>)
        ensures
            *held == self.block_types(),
    {
        &self.block_types
    }

    /// Puts `types` in place of the category catalog.
    pub fn set_catalog(&mut self, types: Vec<BlockType>)
        ensures
            final(self).block_types() == Some(types),
            final(self).days() == old(self).days(),
            final(self).current_block() == old(self).current_block(),
    {
        self.block_types = Some(types);
    }

    /// The current block, where the store has one.
    pub fn current(&self) -> (held: &Option<CurrentBlock>)
        ensures
            *held == self.current_block(),
    {
        &self.current_block
    }

    /// Puts `current` in place of the current block.
    pub fn set_current(&mut self, current: CurrentBlock)
        ensures
            final(self).current_block() == Some(current),
            final(self).days() == old(self).days(),
            final(self).block_types() == old(self).block_types(),
    {
        self.current_block = Some(current);
    }
}

/// The blocks that a map of records holds for a date: none where the date
/// has no record.
pub open spec fn record_of(days: Map<i64, Seq<TimeBlock>>, day: i64) -> Seq<TimeBlock> {
    if days.contains_key(day) {
        days[day]
    } else {
        Seq::empty()
    }
}

/// No record of the map holds two blocks that overlap.
pub open spec fn all_disjoint(days: Map<i64, Seq<TimeBlock>>) -> bool {
    forall|day: i64| days.contains_key(day) ==> crate::timeblock::no_overlap(#[trigger] days[day])
}

/// What is written under a date is what is read under it afterwards, and
/// what is read under every other date is what it was.
pub proof fn lemma_write_then_read(
    days: Map<i64, Seq<TimeBlock>>,
    day: i64,
    blocks: Seq<TimeBlock>,
    other: i64,
)
    ensures
        record_of(days.insert(day, blocks), day) == blocks,
        other != day ==> record_of(days.insert(day, blocks), other) == record_of(days, other),
{
}

/// Whether the day is among the days.
fn contains_day(days: &Vec<i64>, day: i64) -> (b: bool)
    ensures
        b == days@.contains(day),
{
    let mut i: usize = 0;
    while i < days.len()
        invariant
            i <= days.len(),
            forall|k: int| 0 <= k < i ==> days@[k] != day,
        decreases days.len() - i,
    {
        if days[i] == day {
            return true;
        }
        i += 1;
    }
    false
}

/// The calendar date that lies `day` days after 1970-01-01, written as
/// the year, the month and the day of the month with `-` between them,
/// as in `2023-11-27`.
pub uninterp spec fn iso_date_text(day: int) -> Seq<char>;

/// `chrono::NaiveDate::from_epoch_days`, and `NaiveDate::format` with
/// `"%Y-%m-%d"` on the date that it gives. The contract claims that
/// chrono has a date for every day that the wall clock of a timestamp can
/// show, and that the text depends on the day alone.
#[verifier::external_body]
fn iso_date(day: i32) -> (text: Option<String>)
    ensures
        MIN_DAY <= day <= MAX_DAY ==> text is Some,
        text is Some ==> text->0@ == iso_date_text(day as int),
{
    match NaiveDate::from_epoch_days(day) {
        Some(date) => Some(date.format("%Y-%m-%d").to_string()),
        None => None,
    }
}

/// The name under which the record of a date is kept: the date as in
/// `2023-11-27`, and `.json`. `None` for a day that the wall clock of no
/// timestamp can show.
pub fn record_name(day: i64) -> (name: Option<String>)
    ensures
        name is Some <==> MIN_DAY <= day <= MAX_DAY,
        name is Some ==> name->0@ == iso_date_text(day as int) + ".json"@,
{
    if day < MIN_DAY || day > MAX_DAY {
        return None;
    }
    match iso_date(day as i32) {
        Some(date) => {
            let mut name = date;
            name.append(".json");
            Some(name)
        },
        None => None,
    }
}

} // verus!
