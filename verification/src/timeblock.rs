//! Blocks of time, the guard against overlap, and the operations that
//! change a day's record.

use vstd::prelude::*;
use crate::error::{Error, ErrorType};
use crate::store::{all_disjoint, record_of, Store};
use crate::timestamp::{lemma_with_time, Timestamp, DAY_END, NANOS_PER_SECOND};

verus! {

/// A labelled interval of time: from `start_time` up to, and without,
/// `end_time`. A block is meant to have a strictly positive duration.
#[derive(Debug, PartialEq, Eq)]
pub struct TimeBlock {
    pub start_time: Timestamp,
    pub end_time: Timestamp,
    /// The category of the block; `0` is the reserved system category.
    pub block_type_id: u8,
    pub title: String,
}

impl Clone for TimeBlock {
    fn clone(&self) -> (copy: Self)
        ensures
            copy == *self,
    {
        TimeBlock {
            start_time: self.start_time,
            end_time: self.end_time,
            block_type_id: self.block_type_id,
            title: self.title.clone(),
        }
    }
}

/// Two intervals overlap when neither ends at or before the start of the
/// other.
pub open spec fn spec_overlaps(candidate: TimeBlock, existing: TimeBlock) -> bool {
    candidate.start_time.nanos < existing.end_time.nanos && existing.start_time.nanos
        < candidate.end_time.nanos
}

/// Whether the candidate overlaps some block of the list.
pub open spec fn spec_check_overlaps(candidate: TimeBlock, list: Seq<TimeBlock>) -> bool {
    exists|i: int| 0 <= i < list.len() && spec_overlaps(candidate, #[trigger] list[i])
}

/// No two blocks of the record overlap.
pub open spec fn no_overlap(record: Seq<TimeBlock>) -> bool {
    forall|i: int, j: int|
        0 <= i < record.len() && 0 <= j < record.len() && i != j ==> !spec_overlaps(
            #[trigger] record[i],
            #[trigger] record[j],
        )
}

/// The calendar date under which a block is filed: that of its end.
pub open spec fn spec_storage_key(block: TimeBlock) -> i64 {
    block.end_time.day_spec() as i64
}

/// Whether the two intervals overlap.
pub fn overlaps(candidate: &TimeBlock, existing: &TimeBlock) -> (b: bool)
    ensures
        b == spec_overlaps(*candidate, *existing),
{
    candidate.start_time.is_before(&existing.end_time) && existing.start_time.is_before(
        &candidate.end_time,
    )
}

/// Whether the candidate overlaps some block of the list.
pub fn check_overlaps(candidate: &TimeBlock, list: &Vec<TimeBlock>) -> (b: bool)
    ensures
        b == spec_check_overlaps(*candidate, list@),
{
    let mut i: usize = 0;
    while i < list.len()
        invariant
            i <= list.len(),
            forall|k: int| 0 <= k < i ==> !spec_overlaps(*candidate, #[trigger] list@[k]),
        decreases list.len() - i,
    {
        if overlaps(candidate, &list[i]) {
            return true;
        }
        i += 1;
    }
    false
}

/// The calendar date under which a block is filed: that of its end, in
/// days since 1970-01-01.
pub fn storage_key(block: &TimeBlock) -> (day: i64)
    ensures
        day == spec_storage_key(*block),
        day == block.end_time.day_spec(),
{
    block.end_time.day()
}

impl TimeBlock {
    /// The block with the given bounds, category and title.
    pub fn new(start_time: Timestamp, end_time: Timestamp, block_type_id: u8, title: String) -> (block:
        TimeBlock)
        ensures
            block.start_time == start_time,
            block.end_time == end_time,
            block.block_type_id == block_type_id,
            block.title == title,
    {
        TimeBlock { start_time, end_time, block_type_id, title }
    }

    /// The length of the block in nanoseconds: negative where the end
    /// comes before the start.
    pub open spec fn spec_duration(self) -> int {
        self.end_time.nanos - self.start_time.nanos
    }

    /// The length of the block in nanoseconds: negative where the end
    /// comes before the start.
    pub fn duration(&self) -> (nanos: i128)
        ensures
            nanos == self.spec_duration(),
    {
        self.end_time.nanos as i128 - self.start_time.nanos as i128
    }

    /// Whether the block has a strictly positive duration.
    pub open spec fn is_valid(self) -> bool {
        self.start_time.nanos < self.end_time.nanos
    }

    /// Whether the moment, in nanoseconds since 1970-01-01 00:00:00 UTC,
    /// lies in the block: at its start or after it, and before its end.
    pub open spec fn holds(self, moment: int) -> bool {
        self.start_time.nanos <= moment < self.end_time.nanos
    }

    /// Whether the block is the one that a start and an end name.
    pub open spec fn is_at(self, start_time: Timestamp, end_time: Timestamp) -> bool {
        self.start_time.nanos == start_time.nanos && self.end_time.nanos == end_time.nanos
    }
}

/// A copy of the record.
pub fn clone_blocks(record: &Vec<TimeBlock>) -> (copy: Vec<TimeBlock>)
    ensures
        copy@ == record@,
{
    let mut copy: Vec<TimeBlock> = Vec::new();
    let mut i: usize = 0;
    while i < record.len()
        invariant
            i <= record.len(),
            copy@ == record@.subrange(0, i as int),
        decreases record.len() - i,
    {
        copy.push(record[i].clone());
        assert(record@.subrange(0, i as int).push(record@[i as int]) == record@.subrange(
            0,
            i + 1,
        ));
        i += 1;
    }
    assert(record@.subrange(0, record@.len() as int) == record@);
    copy
}

/// The part of a block that lies on the calendar date of its start: from
/// the start to 23:59:59 of that date. `None` where that end cannot be
/// held.
pub open spec fn first_piece(block: TimeBlock) -> Option<TimeBlock> {
    match block.start_time.with_time_spec(DAY_END as int) {
        Some(end_time) => Some(
            TimeBlock {
                start_time: block.start_time,
                end_time,
                block_type_id: block.block_type_id,
                title: block.title,
            },
        ),
        None => None,
    }
}

/// The part of a block that lies on the calendar date of its end: from
/// 00:00:00 of that date to the end. `None` where that start cannot be
/// held.
pub open spec fn second_piece(block: TimeBlock) -> Option<TimeBlock> {
    match block.end_time.with_time_spec(0) {
        Some(start_time) => Some(
            TimeBlock {
                start_time,
                end_time: block.end_time,
                block_type_id: block.block_type_id,
                title: block.title,
            },
        ),
        None => None,
    }
}

/// The records after `block` is put at the end of the record of `day`, or
/// the conflict that forbids it.
pub open spec fn spec_append(days: Map<i64, Seq<TimeBlock>>, day: i64, block: TimeBlock) -> Result<
    Map<i64, Seq<TimeBlock>>,
    Error,
> {
    if spec_check_overlaps(block, record_of(days, day)) {
        Err(Error { error_type: ErrorType::OverlapConflict })
    } else {
        Ok(days.insert(day, record_of(days, day).push(block)))
    }
}

/// What saving a block does to the records.
///
/// A block that starts and ends on one calendar date goes to the end of
/// that date's record. A block whose dates differ is cut in two: the
/// first piece goes to the record of the date of its start, the second to
/// the record of the date of its end. Nothing is written unless all of it
/// can be: a piece that cannot be held is a `Chrono` error; a block or a
/// piece that does not end after it starts is `InvalidInterval`; a block
/// or a piece that overlaps a block of its record is `OverlapConflict`.
pub open spec fn spec_save(days: Map<i64, Seq<TimeBlock>>, block: TimeBlock) -> Result<
    Map<i64, Seq<TimeBlock>>,
    Error,
> {
    let start_day = block.start_time.day_spec() as i64;
    let end_day = block.end_time.day_spec() as i64;
    if start_day == end_day {
        if block.is_valid() {
            spec_append(days, end_day, block)
        } else {
            Err(Error { error_type: ErrorType::InvalidInterval })
        }
    } else {
        match (first_piece(block), second_piece(block)) {
            (Some(first), Some(second)) => {
                if !(block.is_valid() && first.is_valid() && second.is_valid()) {
                    Err(Error { error_type: ErrorType::InvalidInterval })
                } else if spec_check_overlaps(first, record_of(days, start_day))
                    || spec_check_overlaps(second, record_of(days, end_day)) {
                    Err(Error { error_type: ErrorType::OverlapConflict })
                } else {
                    Ok(
                        days.insert(start_day, record_of(days, start_day).push(first)).insert(
                            end_day,
                            record_of(days, end_day).push(second),
                        ),
                    )
                }
            },
            _ => Err(Error { error_type: ErrorType::Chrono }),
        }
    }
}

/// Every block of every record ends after it starts.
pub open spec fn all_positive(days: Map<i64, Seq<TimeBlock>>) -> bool {
    forall|day: i64, i: int|
        days.contains_key(day) && 0 <= i < days[day].len() ==> (#[trigger] days[day][i]).is_valid()
}

/// Saving a block never leaves a block that does not end after it
/// starts: where every block had a positive duration before, every block
/// has one after.
pub proof fn lemma_save_keeps_positive(days: Map<i64, Seq<TimeBlock>>, block: TimeBlock)
    requires
        all_positive(days),
        spec_save(days, block) is Ok,
    ensures
        all_positive(spec_save(days, block)->Ok_0),
{
    let start_day = block.start_time.day_spec() as i64;
    let end_day = block.end_time.day_spec() as i64;
    let saved = spec_save(days, block)->Ok_0;
    assert forall|day: i64, i: int|
        saved.contains_key(day) && 0 <= i < saved[day].len() implies (#[trigger] saved[day][i]).is_valid() by {
        if day != start_day && day != end_day {
            assert(days.contains_key(day));
            assert(saved[day][i] == days[day][i]);
        } else if i < record_of(days, day).len() {
            assert(days.contains_key(day));
            assert(saved[day][i] == days[day][i]);
        }
    }
}

/// The two pieces of a block whose start and end lie on different
/// calendar dates.
///
/// The first piece starts where the block starts and ends at 23:59:59 of
/// that date; the second starts at 00:00:00 of the date of the end and
/// ends where the block ends. Each lies on one date and is filed under
/// it, and each has the category and the title of the block. The
/// durations of the two and the time between them add up to the duration
/// of the block: nothing is counted twice. Where the end lies on the day
/// after the start and both have one offset, the time between the pieces
/// is the one second from 23:59:59 to 00:00:00.
pub proof fn lemma_day_crossing(block: TimeBlock)
    requires
        block.start_time.day_spec() != block.end_time.day_spec(),
        first_piece(block) is Some,
        second_piece(block) is Some,
    ensures
        ({
            let first = first_piece(block)->0;
            let second = second_piece(block)->0;
            &&& first.start_time == block.start_time
            &&& first.end_time.day_spec() == block.start_time.day_spec()
            &&& first.end_time.time_of_day_spec() == DAY_END
            &&& first.start_time.day_spec() == first.end_time.day_spec()
            &&& spec_storage_key(first) == block.start_time.day_spec()
            &&& second.end_time == block.end_time
            &&& second.start_time.day_spec() == block.end_time.day_spec()
            &&& second.start_time.time_of_day_spec() == 0
            &&& second.start_time.day_spec() == second.end_time.day_spec()
            &&& spec_storage_key(second) == block.end_time.day_spec()
            &&& first.block_type_id == block.block_type_id && first.title == block.title
            &&& second.block_type_id == block.block_type_id && second.title == block.title
            &&& first.spec_duration() + (second.start_time.nanos - first.end_time.nanos)
                + second.spec_duration() == block.spec_duration()
            &&& block.end_time.day_spec() == block.start_time.day_spec() + 1
                && block.start_time.offset == block.end_time.offset ==> {
                &&& second.start_time.nanos - first.end_time.nanos == NANOS_PER_SECOND
                &&& first.spec_duration() + second.spec_duration() + NANOS_PER_SECOND
                    == block.spec_duration()
                &&& !spec_overlaps(first, second)
            }
        }),
{
    lemma_with_time(block.start_time, DAY_END as int);
    lemma_with_time(block.end_time, 0);
}

/// A record in which no two blocks overlap stays so when a block that
/// overlaps none of them is put at its end.
pub proof fn lemma_push_keeps_no_overlap(record: Seq<TimeBlock>, block: TimeBlock)
    requires
        no_overlap(record),
        !spec_check_overlaps(block, record),
    ensures
        no_overlap(record.push(block)),
{
    let grown = record.push(block);
    assert forall|i: int, j: int|
        0 <= i < grown.len() && 0 <= j < grown.len() && i != j implies !spec_overlaps(
        #[trigger] grown[i],
        #[trigger] grown[j],
    ) by {
        if i < record.len() && j < record.len() {
            assert(!spec_overlaps(record[i], record[j]));
        } else if i < record.len() {
            assert(!spec_overlaps(block, record[i]));
        } else {
            assert(!spec_overlaps(block, record[j]));
        }
    }
}

/// Saving a block never makes two blocks of one record overlap: where no
/// record held an overlap before, none does after.
pub proof fn lemma_save_keeps_disjoint(days: Map<i64, Seq<TimeBlock>>, block: TimeBlock)
    requires
        all_disjoint(days),
        spec_save(days, block) is Ok,
    ensures
        all_disjoint(spec_save(days, block)->Ok_0),
{
    let start_day = block.start_time.day_spec() as i64;
    let end_day = block.end_time.day_spec() as i64;
    let saved = spec_save(days, block)->Ok_0;
    assert(no_overlap(Seq::<TimeBlock>::empty()));
    if start_day == end_day {
        lemma_push_keeps_no_overlap(record_of(days, end_day), block);
    } else {
        let first = first_piece(block)->0;
        let second = second_piece(block)->0;
        lemma_push_keeps_no_overlap(record_of(days, start_day), first);
        lemma_push_keeps_no_overlap(record_of(days, end_day), second);
    }
    assert forall|day: i64| saved.contains_key(day) implies no_overlap(#[trigger] saved[day]) by {
        if day != start_day && day != end_day {
            assert(days.contains_key(day));
        }
    }
}

impl TimeBlock {
    /// The blocks filed under a date, in the order in which they were
    /// written: none where the date has no record.
    pub fn get_day_timeblocks(store: &Store, day: i64) -> (blocks: Vec<TimeBlock>)
        ensures
            blocks@ == store.record(day),
    {
        store.read(day)
    }

    /// Adds the block to the store, as `spec_save` describes. On an error
    /// the store is left as it was. Every block that is written ends after
    /// it starts.
    pub fn save(&self, store: &mut Store) -> (result: Result<(), Error>)
        ensures
            match spec_save(old(store).days(), *self) {
                Ok(days) => result == Ok::<(), Error>(()) && final(store).days() == days,
                Err(error) => result == Err::<(), Error>(error)
                    && final(store).days() == old(store).days(),
            },
            all_disjoint(old(store).days()) ==> all_disjoint(final(store).days()),
            all_positive(old(store).days()) ==> all_positive(final(store).days()),
            final(store).block_types() == old(store).block_types(),
            final(store).current_block() == old(store).current_block(),
    {
        proof {
            if all_disjoint(store.days()) && spec_save(store.days(), *self) is Ok {
                lemma_save_keeps_disjoint(store.days(), *self);
            }
            if all_positive(store.days()) && spec_save(store.days(), *self) is Ok {
                lemma_save_keeps_positive(store.days(), *self);
            }
        }
        let day = self.end_time.day();
        let start_day = self.start_time.day();
        if day == start_day {
            if !self.start_time.is_before(&self.end_time) {
                return Err(Error::new(ErrorType::InvalidInterval));
            }
            let mut blocks = store.read(day);
            if check_overlaps(self, &blocks) {
                return Err(Error::new(ErrorType::OverlapConflict));
            }
            blocks.push(self.clone());
            store.write(day, blocks);
            Ok(())
        } else {
            let end_time = match self.start_time.end_of_day() {
                Some(end_time) => end_time,
                None => {
                    return Err(Error::new(ErrorType::Chrono));
                },
            };
            let start_time = match self.end_time.start_of_day() {
                Some(start_time) => start_time,
                None => {
                    return Err(Error::new(ErrorType::Chrono));
                },
            };
            let first = TimeBlock::new(
                self.start_time,
                end_time,
                self.block_type_id,
                self.title.clone(),
            );
            let second = TimeBlock::new(
                start_time,
                self.end_time,
                self.block_type_id,
                self.title.clone(),
            );
            if !(self.start_time.is_before(&self.end_time) && first.start_time.is_before(
                &first.end_time,
            ) && second.start_time.is_before(&second.end_time)) {
                return Err(Error::new(ErrorType::InvalidInterval));
            }
            let mut first_record = store.read(start_day);
            let mut second_record = store.read(day);
            if check_overlaps(&first, &first_record) || check_overlaps(&second, &second_record) {
                return Err(Error::new(ErrorType::OverlapConflict));
            }
            first_record.push(first);
            second_record.push(second);
            store.write(start_day, first_record);
            store.write(day, second_record);
            Ok(())
        }
    }
}

/// What names the block to split, where to cut it, and the category and
/// title of each of the two pieces.
#[derive(Debug)]
pub struct SplitTimeBlockQuery {
    pub start_time: Timestamp,
    pub end_time: Timestamp,
    pub split_time: Timestamp,
    pub before_title: String,
    pub after_title: String,
    pub before_block_type_id: u8,
    pub after_block_type_id: u8,
}

/// What names the block to adjust, its new bounds, and its new category
/// and title.
#[derive(Debug)]
pub struct AdjustTimeBlockQuery {
    pub start_time: Timestamp,
    pub end_time: Timestamp,
    pub new_start_time: Timestamp,
    pub new_end_time: Timestamp,
    pub title: String,
    pub block_type_id: u8,
}

/// Whether place `i` holds the first block of the record with the given
/// start and end.
pub open spec fn is_first_at(
    record: Seq<TimeBlock>,
    i: int,
    start_time: Timestamp,
    end_time: Timestamp,
) -> bool {
    &&& 0 <= i < record.len()
    &&& record[i].is_at(start_time, end_time)
    &&& forall|k: int| 0 <= k < i ==> !(#[trigger] record[k]).is_at(start_time, end_time)
}

/// The place of the first block of the record with the given start and
/// end, if there is one.
pub open spec fn spec_position(
    record: Seq<TimeBlock>,
    start_time: Timestamp,
    end_time: Timestamp,
) -> Option<int> {
    if exists|i: int| is_first_at(record, i, start_time, end_time) {
        Some(choose|i: int| is_first_at(record, i, start_time, end_time))
    } else {
        None
    }
}

/// The first block with the given start and end is where `spec_position`
/// says.
pub proof fn lemma_position_is_first(
    record: Seq<TimeBlock>,
    i: int,
    start_time: Timestamp,
    end_time: Timestamp,
)
    requires
        is_first_at(record, i, start_time, end_time),
    ensures
        spec_position(record, start_time, end_time) == Some(i),
{
    let chosen = choose|k: int| is_first_at(record, k, start_time, end_time);
    assert(is_first_at(record, chosen, start_time, end_time));
    if chosen < i {
        assert(!record[chosen].is_at(start_time, end_time));
    }
    if i < chosen {
        assert(!record[i].is_at(start_time, end_time));
    }
}

/// A record without a block of the given start and end has no position
/// for them.
pub proof fn lemma_position_is_none(
    record: Seq<TimeBlock>,
    start_time: Timestamp,
    end_time: Timestamp,
)
    requires
        forall|k: int| 0 <= k < record.len() ==> !(#[trigger] record[k]).is_at(start_time, end_time),
    ensures
        spec_position(record, start_time, end_time) is None,
{
}

/// The place of the first block of the record with the given start and
/// end, if there is one.
pub fn position(record: &Vec<TimeBlock>, start_time: &Timestamp, end_time: &Timestamp) -> (place:
    Option<usize>)
    ensures
        match place {
            Some(i) => spec_position(record@, *start_time, *end_time) == Some(i as int) && i
                < record@.len(),
            None => spec_position(record@, *start_time, *end_time) is None,
        },
{
    let mut i: usize = 0;
    while i < record.len()
        invariant
            i <= record@.len(),
            forall|k: int| 0 <= k < i ==> !(#[trigger] record@[k]).is_at(*start_time, *end_time),
        decreases record@.len() - i,
    {
        if record[i].start_time.is_same_instant(start_time) && record[i].end_time.is_same_instant(
            end_time,
        ) {
            proof {
                lemma_position_is_first(record@, i as int, *start_time, *end_time);
            }
            return Some(i);
        }
        i += 1;
    }
    proof {
        lemma_position_is_none(record@, *start_time, *end_time);
    }
    None
}

/// The piece before the cut.
pub open spec fn piece_before(query: SplitTimeBlockQuery) -> TimeBlock {
    TimeBlock {
        start_time: query.start_time,
        end_time: query.split_time,
        block_type_id: query.before_block_type_id,
        title: query.before_title,
    }
}

/// The piece after the cut.
pub open spec fn piece_after(query: SplitTimeBlockQuery) -> TimeBlock {
    TimeBlock {
        start_time: query.split_time,
        end_time: query.end_time,
        block_type_id: query.after_block_type_id,
        title: query.after_title,
    }
}

/// The record with the two pieces in the place of block `i`: the piece
/// before the cut, then the piece after it.
pub open spec fn spec_split_record(record: Seq<TimeBlock>, i: int, query: SplitTimeBlockQuery) -> Seq<
    TimeBlock,
> {
    record.subrange(0, i).push(piece_before(query)).push(piece_after(query)) + record.subrange(
        i + 1,
        record.len() as int,
    )
}

/// What splitting a block does to the records.
///
/// The block is looked for in the record of the date of the end that the
/// query names. Where no block has the start and end of the query, the
/// answer is `NotFound`. Where the cut does not lie strictly between
/// them, it is `InvalidInterval`. Otherwise the two pieces take the place
/// of the block.
pub open spec fn spec_split(days: Map<i64, Seq<TimeBlock>>, query: SplitTimeBlockQuery) -> Result<
    Map<i64, Seq<TimeBlock>>,
    Error,
> {
    let day = query.end_time.day_spec() as i64;
    let record = record_of(days, day);
    match spec_position(record, query.start_time, query.end_time) {
        None => Err(Error { error_type: ErrorType::NotFound }),
        Some(i) => if query.start_time.nanos < query.split_time.nanos && query.split_time.nanos
            < query.end_time.nanos {
            Ok(days.insert(day, spec_split_record(record, i, query)))
        } else {
            Err(Error { error_type: ErrorType::InvalidInterval })
        },
    }
}

/// The two pieces of a split cover the span of the block that was split,
/// meet at the cut, and overlap neither each other nor any other block of
/// a record in which no two blocks overlapped.
pub proof fn lemma_split_is_partition(record: Seq<TimeBlock>, i: int, query: SplitTimeBlockQuery)
    requires
        0 <= i < record.len(),
        record[i].is_at(query.start_time, query.end_time),
        query.start_time.nanos < query.split_time.nanos < query.end_time.nanos,
    ensures
        spec_split_record(record, i, query).len() == record.len() + 1,
        spec_split_record(record, i, query)[i] == piece_before(query),
        spec_split_record(record, i, query)[i + 1] == piece_after(query),
        forall|k: int| 0 <= k < i ==> spec_split_record(record, i, query)[k] == record[k],
        forall|k: int|
            i < k < record.len() ==> #[trigger] spec_split_record(record, i, query)[k + 1]
                == record[k],
        piece_before(query).start_time.nanos == record[i].start_time.nanos,
        piece_before(query).end_time.nanos == piece_after(query).start_time.nanos,
        piece_after(query).end_time.nanos == record[i].end_time.nanos,
        piece_before(query).spec_duration() + piece_after(query).spec_duration()
            == record[i].spec_duration(),
        piece_before(query).is_valid(),
        piece_after(query).is_valid(),
        !spec_overlaps(piece_before(query), piece_after(query)),
        no_overlap(record) ==> no_overlap(spec_split_record(record, i, query)),
{
    let cut = spec_split_record(record, i, query);
    if no_overlap(record) {
        assert forall|a: int, b: int|
            0 <= a < cut.len() && 0 <= b < cut.len() && a != b implies !spec_overlaps(
            #[trigger] cut[a],
            #[trigger] cut[b],
        ) by {
            let from_a = if a <= i {
                a
            } else {
                a - 1
            };
            let from_b = if b <= i {
                b
            } else {
                b - 1
            };
            if from_a != from_b {
                assert(!spec_overlaps(record[from_a], record[from_b]));
                assert(!spec_overlaps(record[from_b], record[from_a]));
            }
        }
    }
}

/// Splitting a block never makes two blocks of one record overlap.
pub proof fn lemma_split_keeps_disjoint(days: Map<i64, Seq<TimeBlock>>, query: SplitTimeBlockQuery)
    requires
        all_disjoint(days),
        spec_split(days, query) is Ok,
    ensures
        all_disjoint(spec_split(days, query)->Ok_0),
{
    let day = query.end_time.day_spec() as i64;
    let record = record_of(days, day);
    let i = spec_position(record, query.start_time, query.end_time)->0;
    assert(is_first_at(record, i, query.start_time, query.end_time));
    assert(days.contains_key(day));
    lemma_split_is_partition(record, i, query);
    let cut = spec_split(days, query)->Ok_0;
    assert forall|other: i64| cut.contains_key(other) implies no_overlap(#[trigger] cut[other]) by {
        if other != day {
            assert(days.contains_key(other));
        }
    }
}

/// Splitting a block never leaves a block that does not end after it
/// starts.
pub proof fn lemma_split_keeps_positive(days: Map<i64, Seq<TimeBlock>>, query: SplitTimeBlockQuery)
    requires
        all_positive(days),
        spec_split(days, query) is Ok,
    ensures
        all_positive(spec_split(days, query)->Ok_0),
{
    let day = query.end_time.day_spec() as i64;
    let record = record_of(days, day);
    let i = spec_position(record, query.start_time, query.end_time)->0;
    assert(is_first_at(record, i, query.start_time, query.end_time));
    assert(days.contains_key(day));
    lemma_split_is_partition(record, i, query);
    let cut = spec_split(days, query)->Ok_0;
    assert forall|other: i64, k: int|
        cut.contains_key(other) && 0 <= k < cut[other].len() implies (#[trigger] cut[other][k]).is_valid() by {
        if other != day {
            assert(days.contains_key(other));
            assert(cut[other][k] == days[other][k]);
        } else if k < i {
            assert(cut[day][k] == days[day][k]);
        } else if k > i + 1 {
            assert(cut[day][k] == days[day][k - 1]);
        }
    }
}

/// The record with block `i` replaced by the block of the query, the end
/// of the block before it moved to the new start, and the start of the
/// block after it moved to the new end.
pub open spec fn spec_adjust_record(record: Seq<TimeBlock>, i: int, query: AdjustTimeBlockQuery) -> Seq<
    TimeBlock,
> {
    Seq::new(
        record.len(),
        |k: int|
            if k == i {
                TimeBlock {
                    start_time: query.new_start_time,
                    end_time: query.new_end_time,
                    block_type_id: query.block_type_id,
                    title: query.title,
                }
            } else if k == i - 1 {
                TimeBlock {
                    start_time: record[k].start_time,
                    end_time: query.new_start_time,
                    block_type_id: record[k].block_type_id,
                    title: record[k].title,
                }
            } else if k == i + 1 {
                TimeBlock {
                    start_time: query.new_end_time,
                    end_time: record[k].end_time,
                    block_type_id: record[k].block_type_id,
                    title: record[k].title,
                }
            } else {
                record[k]
            },
    )
}

/// Whether the adjustment leaves the block and its two neighbours in the
/// record with a strictly positive duration each.
pub open spec fn adjust_keeps_valid(record: Seq<TimeBlock>, i: int, query: AdjustTimeBlockQuery) -> bool {
    &&& query.new_start_time.nanos < query.new_end_time.nanos
    &&& i > 0 ==> record[i - 1].start_time.nanos < query.new_start_time.nanos
    &&& i + 1 < record.len() ==> query.new_end_time.nanos < record[i + 1].end_time.nanos
}

/// What adjusting a block does to the records.
///
/// The block is looked for in the record of the date of the end that the
/// query names. Where no block has the start and end of the query, the
/// answer is `NotFound`. Where the new bounds would leave the block or a
/// neighbour without a positive duration, it is `InvalidInterval`. Where
/// two blocks of the adjusted record would overlap, it is
/// `OverlapConflict`. Otherwise the adjusted record takes the place of
/// the record.
pub open spec fn spec_adjust(days: Map<i64, Seq<TimeBlock>>, query: AdjustTimeBlockQuery) -> Result<
    Map<i64, Seq<TimeBlock>>,
    Error,
> {
    let day = query.end_time.day_spec() as i64;
    let record = record_of(days, day);
    match spec_position(record, query.start_time, query.end_time) {
        None => Err(Error { error_type: ErrorType::NotFound }),
        Some(i) => if !adjust_keeps_valid(record, i, query) {
            Err(Error { error_type: ErrorType::InvalidInterval })
        } else if !no_overlap(spec_adjust_record(record, i, query)) {
            Err(Error { error_type: ErrorType::OverlapConflict })
        } else {
            Ok(days.insert(day, spec_adjust_record(record, i, query)))
        },
    }
}

/// After an adjustment the block before the adjusted one ends exactly at
/// the new start, and the block after it starts exactly at the new end:
/// the record has no gap at either side, and every other block is as it
/// was.
pub proof fn lemma_adjust_is_gapless(record: Seq<TimeBlock>, i: int, query: AdjustTimeBlockQuery)
    requires
        0 <= i < record.len(),
    ensures
        spec_adjust_record(record, i, query).len() == record.len(),
        spec_adjust_record(record, i, query)[i].start_time == query.new_start_time,
        spec_adjust_record(record, i, query)[i].end_time == query.new_end_time,
        i > 0 ==> spec_adjust_record(record, i, query)[i - 1].end_time == query.new_start_time
            && spec_adjust_record(record, i, query)[i - 1].start_time == record[i - 1].start_time,
        i + 1 < record.len() ==> spec_adjust_record(record, i, query)[i + 1].start_time
            == query.new_end_time && spec_adjust_record(record, i, query)[i + 1].end_time
            == record[i + 1].end_time,
        forall|k: int|
            0 <= k < record.len() && k != i && k != i - 1 && k != i + 1
                ==> #[trigger] spec_adjust_record(record, i, query)[k] == record[k],
{
}

/// Adjusting a block never makes two blocks of one record overlap.
pub proof fn lemma_adjust_keeps_disjoint(days: Map<i64, Seq<TimeBlock>>, query: AdjustTimeBlockQuery)
    requires
        all_disjoint(days),
        spec_adjust(days, query) is Ok,
    ensures
        all_disjoint(spec_adjust(days, query)->Ok_0),
{
    let day = query.end_time.day_spec() as i64;
    let adjusted = spec_adjust(days, query)->Ok_0;
    assert forall|other: i64| adjusted.contains_key(other) implies no_overlap(
        #[trigger] adjusted[other],
    ) by {
        if other != day {
            assert(days.contains_key(other));
        }
    }
}

/// Adjusting a block never leaves a block that does not end after it
/// starts.
pub proof fn lemma_adjust_keeps_positive(days: Map<i64, Seq<TimeBlock>>, query: AdjustTimeBlockQuery)
    requires
        all_positive(days),
        spec_adjust(days, query) is Ok,
    ensures
        all_positive(spec_adjust(days, query)->Ok_0),
{
    let day = query.end_time.day_spec() as i64;
    let record = record_of(days, day);
    let i = spec_position(record, query.start_time, query.end_time)->0;
    assert(is_first_at(record, i, query.start_time, query.end_time));
    assert(days.contains_key(day));
    let adjusted = spec_adjust(days, query)->Ok_0;
    assert forall|other: i64, k: int|
        adjusted.contains_key(other) && 0 <= k < adjusted[other].len() implies (
        #[trigger] adjusted[other][k]).is_valid() by {
        if other != day {
            assert(days.contains_key(other));
            assert(adjusted[other][k] == days[other][k]);
        } else if k != i && k != i - 1 && k != i + 1 {
            assert(adjusted[day][k] == days[day][k]);
        } else if k == i - 1 {
            assert(days[day][k].is_valid());
        } else if k == i + 1 {
            assert(days[day][k].is_valid());
        }
    }
}

/// Whether no two blocks of the record overlap.
pub fn is_disjoint(record: &Vec<TimeBlock>) -> (b: bool)
    ensures
        b == no_overlap(record@),
{
    let mut i: usize = 0;
    while i < record.len()
        invariant
            i <= record@.len(),
            forall|a: int, b: int|
                0 <= a < i && 0 <= b < record@.len() && a != b ==> !spec_overlaps(
                    #[trigger] record@[a],
                    #[trigger] record@[b],
                ),
        decreases record@.len() - i,
    {
        let mut j: usize = 0;
        while j < record.len()
            invariant
                i < record@.len(),
                j <= record@.len(),
                forall|b: int|
                    0 <= b < j && b != i ==> !spec_overlaps(record@[i as int], #[trigger] record@[b]),
            decreases record@.len() - j,
        {
            if i != j && overlaps(&record[i], &record[j]) {
                return false;
            }
            j += 1;
        }
        i += 1;
    }
    true
}

impl TimeBlock {
    /// Splits a block of the store in two, as `spec_split` describes. On
    /// an error the store is left as it was.
    pub fn split_timeblock(store: &mut Store, split_time_block_query: SplitTimeBlockQuery) -> (result:
        Result<(), Error>)
        ensures
            match spec_split(old(store).days(), split_time_block_query) {
                Ok(days) => result == Ok::<(), Error>(()) && final(store).days() == days,
                Err(error) => result == Err::<(), Error>(error)
                    && final(store).days() == old(store).days(),
            },
            all_disjoint(old(store).days()) ==> all_disjoint(final(store).days()),
            all_positive(old(store).days()) ==> all_positive(final(store).days()),
            final(store).block_types() == old(store).block_types(),
            final(store).current_block() == old(store).current_block(),
    {
        proof {
            if all_disjoint(store.days()) && spec_split(store.days(), split_time_block_query)
                is Ok {
                lemma_split_keeps_disjoint(store.days(), split_time_block_query);
            }
            if all_positive(store.days()) && spec_split(store.days(), split_time_block_query)
                is Ok {
                lemma_split_keeps_positive(store.days(), split_time_block_query);
            }
        }
        let query = split_time_block_query;
        let day = query.end_time.day();
        let mut blocks = store.read(day);
        let block_idx = match position(&blocks, &query.start_time, &query.end_time) {
            Some(block_idx) => block_idx,
            None => {
                return Err(Error::new(ErrorType::NotFound));
            },
        };
        if !(query.start_time.is_before(&query.split_time) && query.split_time.is_before(
            &query.end_time,
        )) {
            return Err(Error::new(ErrorType::InvalidInterval));
        }
        let ghost record = blocks@;
        let before_block = TimeBlock::new(
            query.start_time,
            query.split_time,
            query.before_block_type_id,
            query.before_title,
        );
        let after_block = TimeBlock::new(
            query.split_time,
            query.end_time,
            query.after_block_type_id,
            query.after_title,
        );
        assert(block_idx < blocks.len());
        let after_idx: usize = block_idx + 1;
        blocks.remove(block_idx);
        blocks.insert(block_idx, before_block);
        blocks.insert(after_idx, after_block);
        assert(blocks@ =~= spec_split_record(record, block_idx as int, split_time_block_query));
        store.write(day, blocks);
        Ok(())
    }

    /// Gives a block of the store new bounds, a new category and a new
    /// title, and moves the two blocks beside it along, as `spec_adjust`
    /// describes. On an error the store is left as it was.
    pub fn adjust_timeblock(store: &mut Store, adjust_time_block_query: AdjustTimeBlockQuery) -> (result:
        Result<(), Error>)
        ensures
            match spec_adjust(old(store).days(), adjust_time_block_query) {
                Ok(days) => result == Ok::<(), Error>(()) && final(store).days() == days,
                Err(error) => result == Err::<(), Error>(error)
                    && final(store).days() == old(store).days(),
            },
            all_disjoint(old(store).days()) ==> all_disjoint(final(store).days()),
            all_positive(old(store).days()) ==> all_positive(final(store).days()),
            final(store).block_types() == old(store).block_types(),
            final(store).current_block() == old(store).current_block(),
    {
        proof {
            if all_disjoint(store.days()) && spec_adjust(store.days(), adjust_time_block_query)
                is Ok {
                lemma_adjust_keeps_disjoint(store.days(), adjust_time_block_query);
            }
            if all_positive(store.days()) && spec_adjust(store.days(), adjust_time_block_query)
                is Ok {
                lemma_adjust_keeps_positive(store.days(), adjust_time_block_query);
            }
        }
        let query = adjust_time_block_query;
        let day = query.end_time.day();
        let mut blocks = store.read(day);
        let block_idx = match position(&blocks, &query.start_time, &query.end_time) {
            Some(block_idx) => block_idx,
            None => {
                return Err(Error::new(ErrorType::NotFound));
            },
        };
        let ghost record = blocks@;
        if !query.new_start_time.is_before(&query.new_end_time) {
            return Err(Error::new(ErrorType::InvalidInterval));
        }
        if block_idx > 0 {
            let pre_block = &blocks[block_idx - 1];
            if !pre_block.start_time.is_before(&query.new_start_time) {
                return Err(Error::new(ErrorType::InvalidInterval));
            }
            let moved = TimeBlock::new(
                pre_block.start_time,
                query.new_start_time,
                pre_block.block_type_id,
                pre_block.title.clone(),
            );
            blocks.set(block_idx - 1, moved);
        }
        if block_idx + 1 < blocks.len() {
            let post_block = &blocks[block_idx + 1];
            if !query.new_end_time.is_before(&post_block.end_time) {
                return Err(Error::new(ErrorType::InvalidInterval));
            }
            let moved = TimeBlock::new(
                query.new_end_time,
                post_block.end_time,
                post_block.block_type_id,
                post_block.title.clone(),
            );
            blocks.set(block_idx + 1, moved);
        }
        let new_block = TimeBlock::new(
            query.new_start_time,
            query.new_end_time,
            query.block_type_id,
            query.title,
        );
        blocks.set(block_idx, new_block);
        assert(blocks@ =~= spec_adjust_record(record, block_idx as int, adjust_time_block_query));
        if !is_disjoint(&blocks) {
            return Err(Error::new(ErrorType::OverlapConflict));
        }
        store.write(day, blocks);
        Ok(())
    }
}

} // verus!
