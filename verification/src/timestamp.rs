//! Points in time as a wall clock at a fixed offset from UTC shows them.

use vstd::prelude::*;

verus! {

/// Nanoseconds in a second.
pub const NANOS_PER_SECOND: i64 = 1_000_000_000;

/// Nanoseconds in a day of the wall clock.
pub const NANOS_PER_DAY: i64 = 86_400_000_000_000;

/// The time of day, in nanoseconds after midnight, of the last second that
/// a day's record can close on: 23:59:59.
pub const DAY_END: i64 = 86_399_000_000_000;

/// The earliest calendar date, in days since 1970-01-01, that the wall
/// clock of a timestamp can show.
pub const MIN_DAY: i64 = -131_608;

/// The latest calendar date, in days since 1970-01-01, that the wall
/// clock of a timestamp can show.
pub const MAX_DAY: i64 = 131_607;

/// A point in time together with the offset of the wall clock it was read
/// from. The offset is part of the value: it is never looked up again.
///
/// Two timestamps are compared by the points in time alone. The calendar
/// date and the time of day are those of the wall clock.
#[derive(Debug, Clone, Copy, PartialEq, Eq, Structural)]
pub struct Timestamp {
    /// Nanoseconds since 1970-01-01 00:00:00 UTC.
    pub nanos: i64,
    /// Seconds by which the wall clock is ahead of UTC.
    pub offset: i32,
}

impl Timestamp {
    /// What the wall clock shows, in nanoseconds since its own
    /// 1970-01-01 00:00:00.
    pub open spec fn local_nanos(self) -> int {
        self.nanos + self.offset * NANOS_PER_SECOND
    }

    /// The calendar date of the wall clock, in days since 1970-01-01.
    pub open spec fn day_spec(self) -> int {
        self.local_nanos() / (NANOS_PER_DAY as int)
    }

    /// The time of day of the wall clock, in nanoseconds after midnight.
    pub open spec fn time_of_day_spec(self) -> int {
        self.local_nanos() % (NANOS_PER_DAY as int)
    }

    /// The point in time at which the wall clock with this offset shows
    /// `time_of_day` nanoseconds after midnight on day `day`.
    pub open spec fn instant_at(day: int, time_of_day: int, offset: int) -> int {
        day * NANOS_PER_DAY + time_of_day - offset * NANOS_PER_SECOND
    }

    /// The timestamp at which the wall clock with the given offset shows
    /// `seconds` seconds after its own 1970-01-01 00:00:00. `None` where
    /// that point in time lies outside what a timestamp holds.
    pub open spec fn spec_from_wall_clock(seconds: int, offset: i32) -> Option<Timestamp> {
        let nanos = (seconds - offset) * NANOS_PER_SECOND;
        if i64::MIN <= nanos <= i64::MAX {
            Some(Timestamp { nanos: nanos as i64, offset })
        } else {
            None
        }
    }

    /// The timestamp at which the wall clock with the given offset shows
    /// `seconds` seconds after its own 1970-01-01 00:00:00: a negative
    /// number for a time before that.
    pub fn from_wall_clock(seconds: i64, offset: i32) -> (stamp: Option<Timestamp>)
        ensures
            stamp == Self::spec_from_wall_clock(seconds as int, offset),
    {
        let nanos: i128 = (seconds as i128 - offset as i128) * 1_000_000_000;
        if nanos < i64::MIN as i128 || nanos > i64::MAX as i128 {
            None
        } else {
            Some(Timestamp { nanos: nanos as i64, offset })
        }
    }

    /// The timestamp of the given point in time and offset.
    pub fn new(nanos: i64, offset: i32) -> (t: Timestamp)
        ensures
            t.nanos == nanos,
            t.offset == offset,
    {
        Timestamp { nanos, offset }
    }

    /// Whether this point in time comes strictly before the other.
    pub fn is_before(&self, other: &Timestamp) -> (b: bool)
        ensures
            b == (self.nanos < other.nanos),
    {
        self.nanos < other.nanos
    }

    /// Whether both are the same point in time, whatever their offsets.
    pub fn is_same_instant(&self, other: &Timestamp) -> (b: bool)
        ensures
            b == (self.nanos == other.nanos),
    {
        self.nanos == other.nanos
    }

    /// The calendar date of the wall clock, in days since 1970-01-01.
    pub fn day(&self) -> (d: i64)
        ensures
            d == self.day_spec(),
            MIN_DAY <= d <= MAX_DAY,
    {
        let local: i128 = self.nanos as i128 + self.offset as i128 * 1_000_000_000;
        // Shifted by a whole number of days so that the division is one of
        // non-negative numbers.
        let shifted: i128 = local + 200_000 * 86_400_000_000_000;
        let quotient: i128 = shifted / 86_400_000_000_000;
        (quotient - 200_000) as i64
    }

    /// The time of day of the wall clock, in nanoseconds after midnight.
    pub fn time_of_day(&self) -> (t: i64)
        ensures
            t == self.time_of_day_spec(),
            0 <= t < NANOS_PER_DAY,
    {
        let local: i128 = self.nanos as i128 + self.offset as i128 * 1_000_000_000;
        let shifted: i128 = local + 200_000 * 86_400_000_000_000;
        (shifted % 86_400_000_000_000) as i64
    }

    /// Whether the wall clock shows exactly 23:59:59.
    pub fn is_day_end(&self) -> (b: bool)
        ensures
            b == (self.time_of_day_spec() == DAY_END),
    {
        self.time_of_day() == DAY_END
    }

    /// The timestamp with the same offset and the same calendar date whose
    /// wall clock shows `time_of_day` nanoseconds after midnight, if that
    /// point in time can be held.
    pub open spec fn with_time_spec(self, time_of_day: int) -> Option<Timestamp> {
        let nanos = Self::instant_at(self.day_spec(), time_of_day, self.offset as int);
        if i64::MIN <= nanos <= i64::MAX {
            Some(Timestamp { nanos: nanos as i64, offset: self.offset })
        } else {
            None
        }
    }

    /// The timestamp with the same offset and the same calendar date whose
    /// wall clock shows `time_of_day` nanoseconds after midnight. `None`
    /// when that point in time lies outside what a timestamp holds.
    pub fn with_time(&self, time_of_day: i64) -> (r: Option<Timestamp>)
        requires
            0 <= time_of_day < NANOS_PER_DAY,
        ensures
            r == self.with_time_spec(time_of_day as int),
    {
        let moved: i128 = self.nanos as i128 - self.time_of_day() as i128 + time_of_day as i128;
        if moved < i64::MIN as i128 || moved > i64::MAX as i128 {
            None
        } else {
            Some(Timestamp { nanos: moved as i64, offset: self.offset })
        }
    }

    /// 23:59:59 on the calendar date of this timestamp.
    pub fn end_of_day(&self) -> (r: Option<Timestamp>)
        ensures
            r == self.with_time_spec(DAY_END as int),
    {
        self.with_time(DAY_END)
    }

    /// 00:00:00 on the calendar date of this timestamp.
    pub fn start_of_day(&self) -> (r: Option<Timestamp>)
        ensures
            r == self.with_time_spec(0),
    {
        self.with_time(0)
    }
}

/// The wall clock of a timestamp that is made of what the wall clock
/// shows, shows it: the date is the whole days of the seconds, and the
/// time of day the seconds that are left.
pub proof fn lemma_from_wall_clock(seconds: int, offset: i32)
    requires
        Timestamp::spec_from_wall_clock(seconds, offset) is Some,
    ensures
        Timestamp::spec_from_wall_clock(seconds, offset)->0.day_spec() == seconds / 86_400,
        Timestamp::spec_from_wall_clock(seconds, offset)->0.time_of_day_spec() == (seconds
            % 86_400) * NANOS_PER_SECOND,
        Timestamp::spec_from_wall_clock(seconds, offset)->0.offset == offset,
{
}

/// A timestamp moved to another time of day stays on its calendar date,
/// keeps its offset and shows the time asked for.
pub proof fn lemma_with_time(t: Timestamp, time_of_day: int)
    requires
        0 <= time_of_day < NANOS_PER_DAY,
        t.with_time_spec(time_of_day) is Some,
    ensures
        t.with_time_spec(time_of_day)->0.day_spec() == t.day_spec(),
        t.with_time_spec(time_of_day)->0.time_of_day_spec() == time_of_day,
        t.with_time_spec(time_of_day)->0.offset == t.offset,
        t.with_time_spec(time_of_day)->0.nanos - t.nanos == time_of_day - t.time_of_day_spec(),
{
}

} // verus!
