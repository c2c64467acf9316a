//! A span of time as a count of hours, minutes and seconds.

use vstd::prelude::*;

verus! {

/// A span of time. The three fields add up: no field is bounded by the
/// next larger unit, so `90` minutes and `1` hour `30` minutes are
/// different values of the same length.
#[derive(Debug, Default, Clone, Copy, PartialEq, PartialOrd)]
pub struct Duration {
    pub seconds: u64,
    pub minutes: u64,
    pub hours: u64,
}

impl Duration {
    /// The length of the span in seconds.
    pub open spec fn total_seconds(self) -> int {
        self.seconds + self.minutes * 60 + self.hours * 3600
    }

    /// The length of the span in seconds.
    pub fn to_seconds(&self) -> (total: u64)
        requires
            self.total_seconds() <= u64::MAX,
        ensures
            total == self.total_seconds(),
    {
        self.seconds + self.minutes * 60 + self.hours * 3600
    }

    /// The span of the given length in which minutes and seconds are both
    /// below sixty.
    pub fn from_seconds(seconds: u64) -> (d: Duration)
        ensures
            d.total_seconds() == seconds,
            d.hours == seconds / 3600,
            d.minutes == (seconds % 3600) / 60,
            d.seconds == seconds % 60,
    {
        let hours: u64 = seconds / 3600;
        let minutes: u64 = (seconds - hours * 3600) / 60;
        let seconds: u64 = seconds - hours * 3600 - minutes * 60;
        Duration { seconds, minutes, hours }
    }
}

impl std::ops::Add for Duration {
    type Output = Self;

    /// The span whose fields are the sums of the fields of the two.
    fn add(self, other: Self) -> (sum: Self) {
        Duration {
            seconds: self.seconds + other.seconds,
            minutes: self.minutes + other.minutes,
            hours: self.hours + other.hours,
        }
    }
}

impl vstd::std_specs::ops::AddSpecImpl for Duration {
    open spec fn obeys_add_spec() -> bool {
        true
    }

    /// No field of the sum may pass what a field holds.
    open spec fn add_req(self, other: Self) -> bool {
        &&& self.seconds + other.seconds <= u64::MAX
        &&& self.minutes + other.minutes <= u64::MAX
        &&& self.hours + other.hours <= u64::MAX
    }

    open spec fn add_spec(self, other: Self) -> Self {
        Duration {
            seconds: (self.seconds + other.seconds) as u64,
            minutes: (self.minutes + other.minutes) as u64,
            hours: (self.hours + other.hours) as u64,
        }
    }
}

impl std::ops::Sub for Duration {
    type Output = Self;

    /// The span whose fields are the differences of the fields of the
    /// two.
    fn sub(self, other: Self) -> (difference: Self) {
        Duration {
            seconds: self.seconds - other.seconds,
            minutes: self.minutes - other.minutes,
            hours: self.hours - other.hours,
        }
    }
}

impl vstd::std_specs::ops::SubSpecImpl for Duration {
    open spec fn obeys_sub_spec() -> bool {
        true
    }

    /// No field of the second span may pass the same field of the first.
    open spec fn sub_req(self, other: Self) -> bool {
        &&& other.seconds <= self.seconds
        &&& other.minutes <= self.minutes
        &&& other.hours <= self.hours
    }

    open spec fn sub_spec(self, other: Self) -> Self {
        Duration {
            seconds: (self.seconds - other.seconds) as u64,
            minutes: (self.minutes - other.minutes) as u64,
            hours: (self.hours - other.hours) as u64,
        }
    }
}

/// The length of a sum is the sum of the lengths, and the length of a
/// difference the difference of the lengths.
pub proof fn lemma_total_seconds_adds(first: Duration, second: Duration)
    ensures
        vstd::std_specs::ops::AddSpec::add_req(first, second) ==> vstd::std_specs::ops::AddSpec::add_spec(first, second).total_seconds()
            == first.total_seconds() + second.total_seconds(),
        vstd::std_specs::ops::SubSpec::sub_req(first, second) ==> vstd::std_specs::ops::SubSpec::sub_spec(first, second).total_seconds()
            == first.total_seconds() - second.total_seconds(),
{
}

} // verus!
