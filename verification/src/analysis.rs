//! How much time each category took, day by day.

use vstd::prelude::*;
use std::collections::HashMap;
use crate::blocktype::{is_catalog_of, BlockType};
use crate::error::{Error, ErrorType};
use crate::store::{record_of, Store};
use crate::timeblock::TimeBlock;
use crate::timestamp::Timestamp;

verus! {

/// The time that one category took on one day.
#[derive(Debug, Clone, Copy, PartialEq, Eq, Structural)]
pub struct Trend {
    /// The date, in days since 1970-01-01.
    pub day: i64,
    /// The time in nanoseconds.
    pub time_spent: u128,
    pub block_type_id: u8,
}

/// The time that each category took over a span of days.
#[derive(Debug)]
pub struct Analysis {
    /// For each identifier of the catalog, the time in nanoseconds that
    /// is counted for it over all the days. An identifier that several
    /// entries of the catalog have is counted once for each of them.
    pub durations: HashMap<u8, u128>,
    /// For each day, from the first to the last, and for each entry of
    /// `blocktypes`, in their order, the time that its category took on
    /// that day.
    pub trends: Vec<Trend>,
    /// The catalog, ordered by identifier.
    pub blocktypes: Vec<BlockType>,
}

/// The entries of the catalog that have the identifier, in their order.
pub open spec fn with_id(catalog: Seq<BlockType>, id: int) -> Seq<BlockType>
    decreases catalog.len(),
{
    if catalog.len() == 0 {
        Seq::empty()
    } else if catalog.last().id == id {
        with_id(catalog.drop_last(), id).push(catalog.last())
    } else {
        with_id(catalog.drop_last(), id)
    }
}

/// The entries of the catalog whose identifier is below `upto`, ordered
/// by identifier; entries of one identifier keep their order.
pub open spec fn by_id(catalog: Seq<BlockType>, upto: int) -> Seq<BlockType>
    decreases upto,
{
    if upto <= 0 {
        Seq::empty()
    } else {
        by_id(catalog, upto - 1) + with_id(catalog, upto - 1)
    }
}

/// The catalog ordered by identifier; entries of one identifier keep
/// their order.
pub open spec fn sorted_types(catalog: Seq<BlockType>) -> Seq<BlockType> {
    by_id(catalog, 256)
}

/// The sum of the durations, in nanoseconds, of the blocks of the record
/// that have the category.
pub open spec fn time_spent(record: Seq<TimeBlock>, id: u8) -> int
    decreases record.len(),
{
    if record.len() == 0 {
        0
    } else if record.last().block_type_id == id {
        time_spent(record.drop_last(), id) + record.last().spec_duration()
    } else {
        time_spent(record.drop_last(), id)
    }
}

/// Whether a block of the record that has the category ends before it
/// starts.
pub open spec fn has_inverted(record: Seq<TimeBlock>, id: u8) -> bool {
    exists|i: int|
        0 <= i < record.len() && (#[trigger] record[i]).block_type_id == id
            && record[i].spec_duration() < 0
}

/// The time that each of the categories took on the day, in their order.
pub open spec fn trends_of_day(record: Seq<TimeBlock>, types: Seq<BlockType>, day: i64) -> Seq<
    Trend,
> {
    Seq::new(
        types.len(),
        |k: int|
            Trend {
                day,
                time_spent: time_spent(record, types[k].id) as u128,
                block_type_id: types[k].id,
            },
    )
}

/// The time that each of the categories took on each of `count` days from
/// `start` on: day by day, and for each day category by category.
pub open spec fn spec_trends(
    days: Map<i64, Seq<TimeBlock>>,
    types: Seq<BlockType>,
    start: int,
    count: int,
) -> Seq<Trend>
    decreases count,
{
    if count <= 0 {
        Seq::empty()
    } else {
        spec_trends(days, types, start, count - 1) + trends_of_day(
            record_of(days, (start + count - 1) as i64),
            types,
            (start + count - 1) as i64,
        )
    }
}

/// What is counted for the identifier: nothing where the totals do not
/// hold it.
pub open spec fn counted(totals: Map<u8, int>, id: u8) -> int {
    if totals.contains_key(id) {
        totals[id]
    } else {
        0
    }
}

/// The totals after the time that each of the first `upto` categories
/// took on one day is added, category by category, to what is counted
/// for its identifier.
pub open spec fn totals_with_day(
    totals: Map<u8, int>,
    record: Seq<TimeBlock>,
    types: Seq<BlockType>,
    upto: int,
) -> Map<u8, int>
    decreases upto,
{
    if upto <= 0 {
        totals
    } else {
        let before = totals_with_day(totals, record, types, upto - 1);
        let id = types[upto - 1].id;
        before.insert(id, counted(before, id) + time_spent(record, id))
    }
}

/// The time, in nanoseconds, that is counted for each identifier of the
/// catalog over `count` days from `start` on. Where no day is counted,
/// no identifier has a total.
pub open spec fn spec_totals(
    days: Map<i64, Seq<TimeBlock>>,
    types: Seq<BlockType>,
    start: int,
    count: int,
) -> Map<u8, int>
    decreases count,
{
    if count <= 0 {
        Map::empty()
    } else {
        totals_with_day(
            spec_totals(days, types, start, count - 1),
            record_of(days, (start + count - 1) as i64),
            types,
            types.len() as int,
        )
    }
}

/// Whether what is held for the identifier is what is counted for it.
pub open spec fn same_total(held: Map<u8, u128>, totals: Map<u8, int>, id: u8) -> bool {
    &&& held.contains_key(id) == totals.contains_key(id)
    &&& held.contains_key(id) ==> held[id] == totals[id]
}

/// Whether the totals that are held are the totals that are counted.
pub open spec fn same_totals(held: Map<u8, u128>, totals: Map<u8, int>) -> bool {
    forall|id: u8| #[trigger] same_total(held, totals, id)
}

/// Whether day `day` holds a block of the category of entry `k` that ends
/// before it starts.
pub open spec fn inverted_at(
    days: Map<i64, Seq<TimeBlock>>,
    types: Seq<BlockType>,
    day: int,
    k: int,
) -> bool {
    has_inverted(record_of(days, day as i64), types[k].id)
}

/// Whether what is counted for the identifier is more than a total
/// holds.
pub open spec fn exceeds_at(totals: Map<u8, int>, id: u8) -> bool {
    counted(totals, id) > u128::MAX
}

/// Whether the analysis of `count` days from `start` on has no answer:
/// a block of a category of the catalog ends before it starts, or a total
/// is more than a total holds.
pub open spec fn analysis_fails(
    days: Map<i64, Seq<TimeBlock>>,
    types: Seq<BlockType>,
    start: int,
    count: int,
) -> bool {
    ||| exists|day: int, k: int|
        start <= day < start + count && 0 <= k < types.len() && #[trigger] inverted_at(
            days,
            types,
            day,
            k,
        )
    ||| exists|id: u8| #[trigger] exceeds_at(spec_totals(days, types, start, count), id)
}

/// The number of days from `start` to `end`, both counted: none where the
/// end comes first.
pub open spec fn day_count(start: int, end: int) -> int {
    if end < start {
        0
    } else {
        end - start + 1
    }
}

/// Whether `analysis` is the analysis of the days from `start` to `end`
/// for the catalog.
pub open spec fn is_analysis_of(
    analysis: Analysis,
    days: Map<i64, Seq<TimeBlock>>,
    catalog: Seq<BlockType>,
    start: int,
    end: int,
) -> bool {
    &&& analysis.blocktypes@ == sorted_types(catalog)
    &&& analysis.trends@ == spec_trends(days, sorted_types(catalog), start, day_count(start, end))
    &&& same_totals(
        analysis.durations@,
        spec_totals(days, sorted_types(catalog), start, day_count(start, end)),
    )
}

/// Whether `result` is what the analysis of the days from `start` to
/// `end` answers for the catalog.
pub open spec fn analysis_outcome(
    result: Result<Analysis, Error>,
    days: Map<i64, Seq<TimeBlock>>,
    catalog: Seq<BlockType>,
    start: int,
    end: int,
) -> bool {
    if analysis_fails(days, sorted_types(catalog), start, day_count(start, end)) {
        result matches Err(error) && error.error_type == ErrorType::Chrono
    } else {
        result matches Ok(analysis) && is_analysis_of(analysis, days, catalog, start, end)
    }
}

/// Where no block of the category ends before it starts, the time that
/// the category took is the sum of what is not negative.
pub proof fn lemma_time_spent_bounds(record: Seq<TimeBlock>, id: u8)
    requires
        !has_inverted(record, id),
    ensures
        0 <= time_spent(record, id) <= record.len() * 0x1_0000_0000_0000_0000,
    decreases record.len(),
{
    if record.len() > 0 {
        let before = record.drop_last();
        assert forall|i: int|
            0 <= i < before.len() && (#[trigger] before[i]).block_type_id == id implies before[i].spec_duration()
            >= 0 by {
            assert(before[i] == record[i]);
        }
        lemma_time_spent_bounds(before, id);
        assert(record[record.len() - 1] == record.last());
        assert(record.len() * 0x1_0000_0000_0000_0000 == before.len() * 0x1_0000_0000_0000_0000
            + 0x1_0000_0000_0000_0000) by (nonlinear_arith)
            requires
                record.len() == before.len() + 1,
        ;
    }
}

/// Where the day holds no block of one of the categories that ends
/// before it starts, adding the time of more of the categories takes
/// nothing away from what is counted for an identifier.
pub proof fn lemma_totals_with_day_grow(
    totals: Map<u8, int>,
    record: Seq<TimeBlock>,
    types: Seq<BlockType>,
    fewer: int,
    upto: int,
    id: u8,
)
    requires
        0 <= fewer <= upto <= types.len(),
        forall|k: int| 0 <= k < types.len() ==> !has_inverted(record, (#[trigger] types[k]).id),
    ensures
        counted(totals_with_day(totals, record, types, fewer), id) <= counted(
            totals_with_day(totals, record, types, upto),
            id,
        ),
    decreases upto,
{
    if fewer < upto {
        lemma_totals_with_day_grow(totals, record, types, fewer, upto - 1, id);
        lemma_time_spent_bounds(record, types[upto - 1].id);
    }
}

/// Where no day holds a block of one of the categories that ends before
/// it starts, counting more days takes nothing away from what is counted
/// for an identifier.
pub proof fn lemma_totals_grow(
    days: Map<i64, Seq<TimeBlock>>,
    types: Seq<BlockType>,
    start: int,
    fewer: int,
    count: int,
    id: u8,
)
    requires
        0 <= fewer <= count,
        forall|day: int, k: int|
            start <= day < start + count && 0 <= k < types.len() ==> !#[trigger] inverted_at(
                days,
                types,
                day,
                k,
            ),
    ensures
        counted(spec_totals(days, types, start, fewer), id) <= counted(
            spec_totals(days, types, start, count),
            id,
        ),
    decreases count,
{
    if fewer < count {
        lemma_totals_grow(days, types, start, fewer, count - 1, id);
        let last = record_of(days, (start + count - 1) as i64);
        assert forall|k: int| 0 <= k < types.len() implies !has_inverted(
            last,
            (#[trigger] types[k]).id,
        ) by {
            assert(!inverted_at(days, types, start + count - 1, k));
        }
        lemma_totals_with_day_grow(
            spec_totals(days, types, start, count - 1),
            last,
            types,
            0,
            types.len() as int,
            id,
        );
    }
}

/// The catalog ordered by identifier; entries of one identifier keep
/// their order.
pub fn sort_by_id(catalog: &Vec<BlockType>) -> (sorted: Vec<BlockType>)
    ensures
        sorted@ == sorted_types(catalog@),
{
    let mut sorted: Vec<BlockType> = Vec::new();
    let mut id: u16 = 0;
    while id < 256
        invariant
            id <= 256,
            sorted@ == by_id(catalog@, id as int),
        decreases 256 - id,
    {
        let ghost before = sorted@;
        let mut i: usize = 0;
        while i < catalog.len()
            invariant
                i <= catalog@.len(),
                id < 256,
                sorted@ == before + with_id(catalog@.subrange(0, i as int), id as int),
            decreases catalog@.len() - i,
        {
            proof {
                let grown = catalog@.subrange(0, i + 1);
                assert(grown.drop_last() == catalog@.subrange(0, i as int));
            }
            if catalog[i].id as u16 == id {
                sorted.push(catalog[i].clone());
            }
            i += 1;
        }
        assert(catalog@.subrange(0, catalog@.len() as int) == catalog@);
        id += 1;
    }
    sorted
}

/// The sum of the durations, in nanoseconds, of the blocks of the record
/// that have the category. `None` where one of them ends before it
/// starts.
pub fn spend(record: &Vec<TimeBlock>, id: u8) -> (spent: Option<u128>)
    ensures
        match spent {
            Some(nanos) => !has_inverted(record@, id) && nanos == time_spent(record@, id),
            None => has_inverted(record@, id),
        },
{
    let mut spent: u128 = 0;
    let mut i: usize = 0;
    while i < record.len()
        invariant
            i <= record@.len(),
            !has_inverted(record@.subrange(0, i as int), id),
            spent == time_spent(record@.subrange(0, i as int), id),
            spent <= i * 0x1_0000_0000_0000_0000,
        decreases record@.len() - i,
    {
        let ghost grown = record@.subrange(0, i + 1);
        proof {
            assert(grown.drop_last() == record@.subrange(0, i as int));
            assert(grown.last() == record@[i as int]);
        }
        if record[i].block_type_id == id {
            let duration = record[i].duration();
            if duration < 0 {
                return None;
            }
            assert((i + 1) * 0x1_0000_0000_0000_0000 == i * 0x1_0000_0000_0000_0000
                + 0x1_0000_0000_0000_0000) by (nonlinear_arith);
            assert(i * 0x1_0000_0000_0000_0000 <= 0xffff_ffff_ffff_ffff
                * 0x1_0000_0000_0000_0000) by (nonlinear_arith)
                requires
                    i <= 0xffff_ffff_ffff_ffff,
            ;
            spent = spent + duration as u128;
        }
        proof {
            assert((i + 1) * 0x1_0000_0000_0000_0000 >= i * 0x1_0000_0000_0000_0000)
                by (nonlinear_arith);
            assert forall|k: int|
                0 <= k < grown.len() && (#[trigger] grown[k]).block_type_id == id implies grown[k].spec_duration()
                >= 0 by {
                if k < i {
                    assert(record@.subrange(0, i as int)[k] == grown[k]);
                }
            }
        }
        i += 1;
    }
    assert(record@.subrange(0, record@.len() as int) == record@);
    Some(spent)
}

impl Analysis {
    /// The time that each category of the catalog took on each day from
    /// the date of `start_time` to the date of `end_time`, and over all
    /// of them. A store without a catalog gets the first catalog.
    ///
    /// The answer is a `Chrono` error where a block that counts ends
    /// before it starts, or a total is more than a total holds.
    pub fn get_analysis_data(store: &mut Store, start_time: Timestamp, end_time: Timestamp) -> (result:
        Result<Analysis, Error>)
        ensures
            exists|catalog: Seq<BlockType>| #[trigger]
                is_catalog_of(old(store).block_types(), catalog) && analysis_outcome(
                    result,
                    old(store).days(),
                    catalog,
                    start_time.day_spec(),
                    end_time.day_spec(),
                ),
            final(store).block_types() is Some,
            final(store).days() == old(store).days(),
            final(store).current_block() == old(store).current_block(),
    {
        let loaded = BlockType::load(store);
        let ghost catalog = loaded@;
        let blocktypes = sort_by_id(&loaded);
        let start = start_time.day();
        let end = end_time.day();
        let result = analyse(store, blocktypes, start, end);
        assert(is_catalog_of(old(store).block_types(), catalog) && analysis_outcome(
            result,
            old(store).days(),
            catalog,
            start_time.day_spec(),
            end_time.day_spec(),
        )) by {
            reveal(analysis_of_types);
        }
        result
    }
}

/// Whether `result` is what the analysis of the days from `start` to
/// `end` answers for categories that are ordered already.
#[verifier::opaque]
pub open spec fn analysis_of_types(
    result: Result<Analysis, Error>,
    days: Map<i64, Seq<TimeBlock>>,
    types: Seq<BlockType>,
    start: int,
    end: int,
) -> bool {
    if analysis_fails(days, types, start, day_count(start, end)) {
        result matches Err(error) && error.error_type == ErrorType::Chrono
    } else {
        &&& result matches Ok(analysis)
        &&& analysis.blocktypes@ == types
        &&& analysis.trends@ == spec_trends(days, types, start, day_count(start, end))
        &&& same_totals(analysis.durations@, spec_totals(days, types, start, day_count(start, end)))
    }
}

/// The time that each of the categories took on each day from `start` to
/// `end`, and over all of them.
pub fn analyse(store: &Store, blocktypes: Vec<BlockType>, start: i64, end: i64) -> (result: Result<
    Analysis,
    Error,
>)
    requires
        end < i64::MAX,
    ensures
        analysis_of_types(result, store.days(), blocktypes@, start as int, end as int),
{
    broadcast use vstd::std_specs::hash::group_hash_axioms;

    let ghost days = store.days();
    let ghost types = blocktypes@;
    let ghost count = day_count(start as int, end as int);
    let mut durations: HashMap<u8, u128> = HashMap::new();
    let mut trends: Vec<Trend> = Vec::new();
    let mut day: i64 = start;
    while day <= end
        invariant
            types == blocktypes@,
            days == store.days(),
            count == day_count(start as int, end as int),
            start <= day <= end + 1 || (end < start && day == start),
            end < i64::MAX,
            trends@ == spec_trends(days, types, start as int, day - start),
            same_totals(durations@, spec_totals(days, types, start as int, day - start)),
            forall|d: int, j: int|
                start <= d < day && 0 <= j < types.len() ==> !#[trigger] inverted_at(
                    days,
                    types,
                    d,
                    j,
                ),
        decreases end - day + 1,
    {
        let blocks = store.read(day);
        let ghost done = trends@;
        let ghost totals = spec_totals(days, types, start as int, day - start);
        let mut k: usize = 0;
        while k < blocktypes.len()
            invariant
                types == blocktypes@,
                days == store.days(),
                count == day_count(start as int, end as int),
                start <= day <= end,
                k <= types.len(),
                blocks@ == record_of(days, day),
                totals == spec_totals(days, types, start as int, day - start),
                trends@ == done + trends_of_day(blocks@, types, day).subrange(0, k as int),
                same_totals(durations@, totals_with_day(totals, blocks@, types, k as int)),
                forall|j: int| 0 <= j < k ==> !#[trigger] inverted_at(days, types, day as int, j),
                forall|d: int, j: int|
                    start <= d < day && 0 <= j < types.len() ==> !#[trigger] inverted_at(
                        days,
                        types,
                        d,
                        j,
                    ),
            decreases types.len() - k,
        {
            let id = blocktypes[k].id;
            let ghost before = totals_with_day(totals, blocks@, types, k as int);
            let spent = match spend(&blocks, id) {
                Some(spent) => spent,
                None => {
                    proof {
                        reveal(analysis_of_types);
                        assert(inverted_at(days, types, day as int, k as int));
                    }
                    return Err(Error::new(ErrorType::Chrono));
                },
            };
            let held: u128 = match durations.get(&id) {
                Some(total) => *total,
                None => 0,
            };
            assert(same_total(durations@, before, id));
            assert(held == counted(before, id));
            let total = match held.checked_add(spent) {
                Some(total) => total,
                None => {
                    proof {
                        reveal(analysis_of_types);
                        lemma_fails_once_exceeded(
                            days,
                            types,
                            start as int,
                            day - start,
                            count,
                            k as int,
                        );
                    }
                    return Err(Error::new(ErrorType::Chrono));
                },
            };
            trends.push(Trend { day, time_spent: spent, block_type_id: id });
            let ghost old_durations = durations@;
            durations.insert(id, total);
            assert(trends@ =~= done + trends_of_day(blocks@, types, day).subrange(0, k + 1));
            proof {
                let after = totals_with_day(totals, blocks@, types, k + 1);
                assert(after == before.insert(id, counted(before, id) + time_spent(blocks@, id)));
                assert forall|other: u8| #[trigger] same_total(durations@, after, other) by {
                    assert(same_total(old_durations, before, other));
                }
            }
            k += 1;
        }
        assert(trends_of_day(blocks@, types, day).subrange(0, types.len() as int)
            == trends_of_day(blocks@, types, day));
        day += 1;
    }
    proof {
        reveal(analysis_of_types);
        assert(day - start == count);
        let totals = spec_totals(days, types, start as int, count);
        assert forall|id: u8| !#[trigger] exceeds_at(totals, id) by {
            assert(same_total(durations@, totals, id));
        }
        assert(!analysis_fails(days, types, start as int, count));
    }
    Ok(Analysis { durations, trends, blocktypes })
}

/// A total that is too great after the time of entry `k` on the day
/// after `whole` counted days is added makes the analysis of all the
/// days fail.
pub proof fn lemma_fails_once_exceeded(
    days: Map<i64, Seq<TimeBlock>>,
    types: Seq<BlockType>,
    start: int,
    whole: int,
    count: int,
    k: int,
)
    requires
        0 <= whole < count,
        0 <= k < types.len(),
        counted(
            totals_with_day(
                spec_totals(days, types, start, whole),
                record_of(days, (start + whole) as i64),
                types,
                k,
            ),
            types[k].id,
        ) + time_spent(record_of(days, (start + whole) as i64), types[k].id) > u128::MAX,
    ensures
        analysis_fails(days, types, start, count),
{
    let id = types[k].id;
    if exists|day: int, j: int|
        start <= day < start + count && 0 <= j < types.len() && #[trigger] inverted_at(
            days,
            types,
            day,
            j,
        ) {
    } else {
        let record = record_of(days, (start + whole) as i64);
        let totals = spec_totals(days, types, start, whole);
        assert forall|j: int| 0 <= j < types.len() implies !has_inverted(
            record,
            (#[trigger] types[j]).id,
        ) by {
            assert(!inverted_at(days, types, start + whole, j));
        }
        lemma_totals_with_day_grow(totals, record, types, k + 1, types.len() as int, id);
        lemma_totals_grow(days, types, start, whole + 1, count, id);
        assert(exceeds_at(spec_totals(days, types, start, count), id));
    }
}

} // verus!
