//! Bringing records of the older format, whose times have no offset, into
//! the present one.

use vstd::prelude::*;
use chrono::{DateTime, Local, NaiveDate};
use crate::error::{Error, ErrorType};
use crate::timeblock::TimeBlock;
use crate::timestamp::{Timestamp, DAY_END, NANOS_PER_SECOND};

verus! {

/// A time of the older format: a date and a time of day, without an
/// offset.
#[derive(Debug, Default, Clone, Copy, PartialEq, PartialOrd)]
pub struct OldTime {
    pub year: u32,
    pub month: u8,
    pub day: u8,
    pub hour: u8,
    pub minute: u8,
    pub second: u8,
}

/// A block of the older format.
#[allow(non_snake_case)]
#[derive(Debug)]
pub struct OldTimeBlock {
    pub startTime: OldTime,
    pub endTime: OldTime,
    pub blockTypeId: u8,
    pub title: String,
}

/// What a block is, with its title as the text that it holds.
pub struct BlockView {
    pub start_time: Timestamp,
    pub end_time: Timestamp,
    pub block_type_id: u8,
    pub title: Seq<char>,
}

/// The block with its title as text.
pub open spec fn view_of(block: TimeBlock) -> BlockView {
    BlockView {
        start_time: block.start_time,
        end_time: block.end_time,
        block_type_id: block.block_type_id,
        title: block.title@,
    }
}

/// The blocks with their titles as text.
pub open spec fn views_of(blocks: Seq<TimeBlock>) -> Seq<BlockView> {
    Seq::new(blocks.len(), |i: int| view_of(blocks[i]))
}

/// The text without the `"` at its start.
pub open spec fn without_leading_quotes(text: Seq<char>) -> Seq<char>
    decreases text.len(),
{
    if text.len() > 0 && text[0] == '"' {
        without_leading_quotes(text.drop_first())
    } else {
        text
    }
}

/// The text without the `"` at its end.
pub open spec fn without_trailing_quotes(text: Seq<char>) -> Seq<char>
    decreases text.len(),
{
    if text.len() > 0 && text.last() == '"' {
        without_trailing_quotes(text.drop_last())
    } else {
        text
    }
}

/// The text without the `"` at its start and at its end.
pub open spec fn spec_trim_quotes(text: Seq<char>) -> Seq<char> {
    without_trailing_quotes(without_leading_quotes(text))
}

/// `str::trim_matches` with `'"'`, made a `String`. The contract claims
/// what the documentation of `trim_matches` says: every `"` at the start
/// and every `"` at the end is taken away, one after the other, and the
/// rest is left as it is.
#[verifier::external_body]
fn trim_quotes(title: &str) -> (trimmed: String)
    ensures
        trimmed@ == spec_trim_quotes(title@),
{
    title.trim_matches('"').to_string()
}

/// The seconds from 1970-01-01 00:00:00 to the time of the proleptic
/// Gregorian calendar with these fields, counted on one clock: negative
/// for a time before 1970. `None` where the fields name no time that
/// chrono holds.
pub uninterp spec fn civil_seconds(
    year: int,
    month: int,
    day: int,
    hour: int,
    minute: int,
    second: int,
) -> Option<int>;

/// `chrono::NaiveDate::from_ymd_opt`, `NaiveDate::and_hms_opt` on the
/// date, and `NaiveDateTime::and_utc` with `DateTime::timestamp` on the
/// time. The contract claims that the answer depends on the six fields
/// alone.
#[verifier::external_body]
fn seconds_of(year: i32, month: u32, day: u32, hour: u32, minute: u32, second: u32) -> (seconds:
    Option<i64>)
    ensures
        match seconds {
            Some(counted) => civil_seconds(
                year as int,
                month as int,
                day as int,
                hour as int,
                minute as int,
                second as int,
            ) == Some(counted as int),
            None => civil_seconds(
                year as int,
                month as int,
                day as int,
                hour as int,
                minute as int,
                second as int,
            ) is None,
        },
{
    let date = NaiveDate::from_ymd_opt(year, month, day)?;
    let time = date.and_hms_opt(hour, minute, second)?;
    Some(time.and_utc().timestamp())
}

/// `chrono::NaiveDateTime::and_local_timezone` with `Local`, on the time
/// that `DateTime::from_timestamp` makes of the seconds: the offset of
/// this machine's clock when it shows that time, where there is one and
/// only one. The answer depends on the time zone of the machine, so the
/// contract claims nothing of it.
#[verifier::external_body]
fn local_offset_at(civil: i64) -> (offset: Option<i32>) {
    let time = DateTime::from_timestamp(civil, 0)?.naive_utc();
    let local = time.and_local_timezone(Local).single()?;
    Some(local.offset().local_minus_utc())
}

impl OldTime {
    /// The seconds from 1970-01-01 00:00:00 to this time on one clock,
    /// where the fields name a time. The year counts as the 32 bits of it
    /// read as a signed number.
    pub open spec fn spec_seconds(self) -> Option<int> {
        civil_seconds(
            (self.year as i32) as int,
            self.month as int,
            self.day as int,
            self.hour as int,
            self.minute as int,
            self.second as int,
        )
    }

    /// The seconds from 1970-01-01 00:00:00 to this time on one clock,
    /// where the fields name a time.
    pub fn seconds(&self) -> (counted: Option<i64>)
        ensures
            match counted {
                Some(seconds) => self.spec_seconds() == Some(seconds as int),
                None => self.spec_seconds() is None,
            },
    {
        seconds_of(
            #[verifier::truncate]
            (self.year as i32),
            self.month as u32,
            self.day as u32,
            self.hour as u32,
            self.minute as u32,
            self.second as u32,
        )
    }

    /// The timestamp of the wall clock at the given offset that shows this
    /// time. `None` where the fields name no time, and where the
    /// timestamp cannot be held.
    pub open spec fn spec_to_timestamp(self, offset: i32) -> Option<Timestamp> {
        match self.spec_seconds() {
            Some(seconds) => Timestamp::spec_from_wall_clock(seconds, offset),
            None => None,
        }
    }

    /// The timestamp of the wall clock at the given offset that shows this
    /// time.
    pub fn to_timestamp(&self, offset: i32) -> (stamp: Option<Timestamp>)
        ensures
            stamp == self.spec_to_timestamp(offset),
    {
        match self.seconds() {
            Some(seconds) => Timestamp::from_wall_clock(seconds, offset),
            None => None,
        }
    }

    /// The timestamp of this machine's clock when it shows this time.
    ///
    /// Which offset the machine's clock has at that time is for the
    /// machine to say: whatever it is, the timestamp is the one that
    /// `to_timestamp` gives for it. `None` where the fields name no time,
    /// where the machine's clock never shows the time or shows it twice,
    /// and where the timestamp cannot be held.
    pub fn to_local_timestamp(&self) -> (stamp: Option<Timestamp>)
        ensures
            stamp matches Some(held) ==> self.spec_to_timestamp(held.offset) == Some(held),
            self.spec_seconds() is None ==> stamp is None,
    {
        let seconds = match self.seconds() {
            Some(seconds) => seconds,
            None => {
                return None;
            },
        };
        match local_offset_at(seconds) {
            Some(offset) => self.to_timestamp(offset),
            None => None,
        }
    }
}

/// What an older block becomes where its start is read at one offset and
/// its end at another: its times as timestamps, its category, and its
/// title without the `"` around it. `None` where one of its times has no
/// timestamp.
pub open spec fn spec_convert(old: OldTimeBlock, start_offset: i32, end_offset: i32) -> Option<
    BlockView,
> {
    match (
        old.startTime.spec_to_timestamp(start_offset),
        old.endTime.spec_to_timestamp(end_offset),
    ) {
        (Some(start_time), Some(end_time)) => Some(
            BlockView {
                start_time,
                end_time,
                block_type_id: old.blockTypeId,
                title: spec_trim_quotes(old.title@),
            },
        ),
        _ => None,
    }
}

/// Whether `block` is what the older block becomes at the offsets that
/// the timestamps of `block` have.
pub open spec fn is_conversion(old: OldTimeBlock, block: BlockView) -> bool {
    spec_convert(old, block.start_time.offset, block.end_time.offset) == Some(block)
}

/// Whether both times of the older block are times of the calendar.
pub open spec fn has_times(old: OldTimeBlock) -> bool {
    old.startTime.spec_seconds() is Some && old.endTime.spec_seconds() is Some
}

/// The older blocks whose category is not `0`, in their order.
pub open spec fn kept(input: Seq<OldTimeBlock>) -> Seq<OldTimeBlock>
    decreases input.len(),
{
    if input.len() == 0 {
        Seq::empty()
    } else if input.last().blockTypeId == 0 {
        kept(input.drop_last())
    } else {
        kept(input.drop_last()).push(input.last())
    }
}

/// Whether `blocks` are what the older blocks become, one for one and in
/// their order, each at the offsets that its timestamps have.
pub open spec fn is_conversion_of(blocks: Seq<BlockView>, olds: Seq<OldTimeBlock>) -> bool {
    &&& blocks.len() == olds.len()
    &&& forall|i: int| 0 <= i < blocks.len() ==> is_conversion(olds[i], #[trigger] blocks[i])
}

/// The block that an older block becomes where its start is read at one
/// offset and its end at another.
pub fn convert(old: &OldTimeBlock, start_offset: i32, end_offset: i32) -> (block: Option<TimeBlock>)
    ensures
        match spec_convert(*old, start_offset, end_offset) {
            Some(view) => block is Some && view_of(block->0) == view,
            None => block is None,
        },
{
    let start_time = match old.startTime.to_timestamp(start_offset) {
        Some(start_time) => start_time,
        None => {
            return None;
        },
    };
    let end_time = match old.endTime.to_timestamp(end_offset) {
        Some(end_time) => end_time,
        None => {
            return None;
        },
    };
    Some(TimeBlock::new(start_time, end_time, old.blockTypeId, trim_quotes(old.title.as_str())))
}

/// The block that an older block becomes on this machine's clock:
/// whatever offsets the machine gives, the block is the one that
/// `convert` gives for them. `None` where a time of the block is no time
/// of the calendar, and where the machine has no timestamp for one.
pub fn convert_local(old: &OldTimeBlock) -> (block: Option<TimeBlock>)
    ensures
        block matches Some(made) ==> is_conversion(*old, view_of(made)),
        !has_times(*old) ==> block is None,
{
    let start_time = match old.startTime.to_local_timestamp() {
        Some(start_time) => start_time,
        None => {
            return None;
        },
    };
    let end_time = match old.endTime.to_local_timestamp() {
        Some(end_time) => end_time,
        None => {
            return None;
        },
    };
    Some(TimeBlock::new(start_time, end_time, old.blockTypeId, trim_quotes(old.title.as_str())))
}

/// What a day of the older format becomes on this machine's clock: its
/// blocks, but for those of the category `0`, each converted as
/// `convert_local` does, in their order. A block that is kept and has no
/// conversion is a `Chrono` error; a day that keeps no block has none.
pub fn convert_day(input: &Vec<OldTimeBlock>) -> (result: Result<Vec<TimeBlock>, Error>)
    ensures
        result matches Ok(blocks) ==> is_conversion_of(views_of(blocks@), kept(input@)),
        result matches Err(error) ==> error.error_type == ErrorType::Chrono,
        kept(input@).len() == 0 ==> result is Ok,
        (exists|i: int| 0 <= i < kept(input@).len() && !has_times(#[trigger] kept(input@)[i]))
            ==> result is Err,
{
    let mut output_content: Vec<TimeBlock> = Vec::new();
    let mut i: usize = 0;
    while i < input.len()
        invariant
            i <= input@.len(),
            is_conversion_of(views_of(output_content@), kept(input@.subrange(0, i as int))),
            forall|k: int|
                0 <= k < kept(input@.subrange(0, i as int)).len() ==> has_times(
                    #[trigger] kept(input@.subrange(0, i as int))[k],
                ),
        decreases input@.len() - i,
    {
        let ghost before = kept(input@.subrange(0, i as int));
        proof {
            let grown = input@.subrange(0, i + 1);
            assert(grown.drop_last() == input@.subrange(0, i as int));
            assert(grown.last() == input@[i as int]);
        }
        if input[i].blockTypeId != 0 {
            match convert_local(&input[i]) {
                Some(block) => {
                    proof {
                        let views = views_of(output_content@.push(block));
                        let olds = before.push(input@[i as int]);
                        assert forall|k: int| 0 <= k < views.len() implies is_conversion(
                            olds[k],
                            #[trigger] views[k],
                        ) by {
                            if k < before.len() {
                                assert(views[k] == views_of(output_content@)[k]);
                            }
                        }
                    }
                    output_content.push(block);
                },
                None => {
                    proof {
                        lemma_kept_grows(input@, i + 1);
                        let all = kept(input@);
                        let at = before.len() as int;
                        assert(kept(input@.subrange(0, i + 1))[at] == input@[i as int]);
                    }
                    return Err(Error::new(ErrorType::Chrono));
                },
            }
        }
        i += 1;
    }
    assert(input@.subrange(0, input@.len() as int) == input@);
    Ok(output_content)
}

/// What is kept of the first blocks of a day is the start of what is
/// kept of the day.
pub proof fn lemma_kept_grows(input: Seq<OldTimeBlock>, upto: int)
    requires
        0 <= upto <= input.len(),
    ensures
        kept(input.subrange(0, upto)).len() <= kept(input).len(),
        forall|k: int|
            0 <= k < kept(input.subrange(0, upto)).len() ==> #[trigger] kept(input)[k] == kept(
                input.subrange(0, upto),
            )[k],
    decreases input.len() - upto,
{
    if upto < input.len() {
        let grown = input.subrange(0, upto + 1);
        assert(grown.drop_last() == input.subrange(0, upto));
        lemma_kept_grows(input, upto + 1);
    } else {
        assert(input.subrange(0, upto) == input);
    }
}

/// Whether the wall clock of the timestamp shows 23:59:59, whatever part
/// of that second has passed.
pub open spec fn ends_the_day(stamp: Timestamp) -> bool {
    stamp.time_of_day_spec() / (NANOS_PER_SECOND as int) == 86_399
}

/// The date, in days since 1970-01-01, whose first block is needed to
/// close the day: the date after that of the end of the last block,
/// where the last block ends before 23:59:59. `None` where nothing is
/// to be closed.
pub open spec fn spec_day_to_close(converted: Seq<TimeBlock>) -> Option<i64> {
    if converted.len() > 0 && !ends_the_day(converted.last().end_time) {
        Some((converted.last().end_time.day_spec() + 1) as i64)
    } else {
        None
    }
}

/// The date whose first block is needed to close the day, if the day is
/// to be closed.
pub fn day_to_close(converted: &Vec<TimeBlock>) -> (day: Option<i64>)
    ensures
        day == spec_day_to_close(converted@),
{
    if converted.len() == 0 {
        return None;
    }
    let last_end = converted[converted.len() - 1].end_time;
    if last_end.time_of_day() / 1_000_000_000 == 86_399 {
        None
    } else {
        Some(last_end.day() + 1)
    }
}

/// The place of the first block whose category is not `0`, if there is
/// one.
pub open spec fn spec_first_categorized(blocks: Seq<OldTimeBlock>) -> Option<int> {
    if exists|i: int| is_first_categorized(blocks, i) {
        Some(choose|i: int| is_first_categorized(blocks, i))
    } else {
        None
    }
}

/// Whether place `i` holds the first block whose category is not `0`.
pub open spec fn is_first_categorized(blocks: Seq<OldTimeBlock>, i: int) -> bool {
    &&& 0 <= i < blocks.len()
    &&& blocks[i].blockTypeId != 0
    &&& forall|k: int| 0 <= k < i ==> (#[trigger] blocks[k]).blockTypeId == 0
}

/// The place of the first block whose category is not `0`, if there is
/// one.
pub fn first_categorized(blocks: &Vec<OldTimeBlock>) -> (place: Option<usize>)
    ensures
        match place {
            Some(i) => spec_first_categorized(blocks@) == Some(i as int) && i < blocks@.len(),
            None => spec_first_categorized(blocks@) is None,
        },
{
    let mut i: usize = 0;
    while i < blocks.len()
        invariant
            i <= blocks@.len(),
            forall|k: int| 0 <= k < i ==> (#[trigger] blocks@[k]).blockTypeId == 0,
        decreases blocks@.len() - i,
    {
        if blocks[i].blockTypeId != 0 {
            proof {
                let chosen = choose|k: int| is_first_categorized(blocks@, k);
                assert(is_first_categorized(blocks@, i as int));
                if chosen < i {
                    assert(blocks@[chosen].blockTypeId == 0);
                }
                if i < chosen {
                    assert(blocks@[i as int].blockTypeId == 0);
                }
            }
            return Some(i);
        }
        i += 1;
    }
    None
}

/// The blocks of a day with one more that closes it: from the end of the
/// last block to 23:59:59 of that date, with the given category and
/// title. A day without a block stays as it is. `None` where 23:59:59 of
/// that date cannot be held.
pub open spec fn spec_closed(converted: Seq<BlockView>, block_type_id: u8, title: Seq<char>) -> Option<
    Seq<BlockView>,
> {
    if converted.len() == 0 {
        Some(converted)
    } else {
        match converted.last().end_time.with_time_spec(DAY_END as int) {
            Some(end_time) => Some(
                converted.push(
                    BlockView {
                        start_time: converted.last().end_time,
                        end_time,
                        block_type_id,
                        title,
                    },
                ),
            ),
            None => None,
        }
    }
}

/// Closes a day with a block that has the category and the title of
/// `proto`, as `spec_closed` describes. The answer is a `Chrono` error
/// where 23:59:59 of the date cannot be held.
pub fn with_closing_block(converted: Vec<TimeBlock>, proto: TimeBlock) -> (result: Result<
    Vec<TimeBlock>,
    Error,
>)
    ensures
        match spec_closed(views_of(converted@), proto.block_type_id, proto.title@) {
            Some(views) => result is Ok && views_of(result->Ok_0@) == views,
            None => result == Err::<Vec<TimeBlock>, Error>(
                Error { error_type: ErrorType::Chrono },
            ),
        },
{
    let mut output_content = converted;
    if output_content.len() == 0 {
        return Ok(output_content);
    }
    let last_end = output_content[output_content.len() - 1].end_time;
    assert(last_end == views_of(output_content@).last().end_time);
    let end_time = match last_end.end_of_day() {
        Some(end_time) => end_time,
        None => {
            return Err(Error::new(ErrorType::Chrono));
        },
    };
    let new_last_block = TimeBlock::new(last_end, end_time, proto.block_type_id, proto.title);
    assert(views_of(output_content@.push(new_last_block)) == views_of(output_content@).push(
        view_of(new_last_block),
    ));
    output_content.push(new_last_block);
    Ok(output_content)
}

/// Closes a day with a block that has the category and the title of the
/// first block of the next day whose category is not `0`.
///
/// Where the next day has no such block, the answer is `NotFound`. The
/// block is converted on this machine's clock before its category and
/// title are taken: where it has no conversion, the answer is a `Chrono`
/// error, as it is where 23:59:59 of the date cannot be held. Whatever
/// the machine says, a day that is closed is closed as `spec_closed`
/// describes.
pub fn close_day(converted: Vec<TimeBlock>, next_day: &Vec<OldTimeBlock>) -> (result: Result<
    Vec<TimeBlock>,
    Error,
>)
    ensures
        match spec_first_categorized(next_day@) {
            None => result == Err::<Vec<TimeBlock>, Error>(
                Error { error_type: ErrorType::NotFound },
            ),
            Some(i) => match result {
                Ok(blocks) => spec_closed(
                    views_of(converted@),
                    next_day@[i].blockTypeId,
                    spec_trim_quotes(next_day@[i].title@),
                ) == Some(views_of(blocks@)),
                Err(error) => error.error_type == ErrorType::Chrono,
            },
        },
        spec_first_categorized(next_day@) matches Some(i) && (!has_times(next_day@[i])
            || spec_closed(
            views_of(converted@),
            next_day@[i].blockTypeId,
            spec_trim_quotes(next_day@[i].title@),
        ) is None) ==> result is Err,
{
    let place = match first_categorized(next_day) {
        Some(place) => place,
        None => {
            return Err(Error::new(ErrorType::NotFound));
        },
    };
    let proto = match convert_local(&next_day[place]) {
        Some(proto) => proto,
        None => {
            return Err(Error::new(ErrorType::Chrono));
        },
    };
    with_closing_block(converted, proto)
}

} // verus!
