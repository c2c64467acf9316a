//! Times of the civil calendar, to the second.

use vstd::prelude::*;
use vstd::string::StringExecFns;
use crate::duration::Duration;

verus! {

/// Seconds in a day.
pub const SECONDS_PER_DAY: u64 = 86_400;

/// A date of the Gregorian calendar and a time of day, without an offset.
/// Years before 1970 count as 1970 where seconds are counted.
#[derive(Debug, Default, Clone, Copy, PartialEq, PartialOrd)]
pub struct Time {
    pub year: u32,
    pub month: u8,
    pub day: u8,
    pub hour: u8,
    pub minute: u8,
    pub second: u8,
}

/// Which field of a time is out of range.
#[derive(Debug, Clone, Copy, PartialEq, Eq, Structural)]
pub enum TimeError {
    InvalidMonth,
    InvalidDay,
    InvalidHour,
    InvalidMinute,
    InvalidSecond,
}

impl TimeError {
    /// A short description of the error.
    pub fn message(&self) -> (text: &'static str)
        ensures
            text@ == match *self {
                TimeError::InvalidMonth => "Invalid month"@,
                TimeError::InvalidDay => "Invalid day"@,
                TimeError::InvalidHour => "Invalid hour"@,
                TimeError::InvalidMinute => "Invalid minute"@,
                TimeError::InvalidSecond => "Invalid second"@,
            },
    {
        match self {
            TimeError::InvalidMonth => "Invalid month",
            TimeError::InvalidDay => "Invalid day",
            TimeError::InvalidHour => "Invalid hour",
            TimeError::InvalidMinute => "Invalid minute",
            TimeError::InvalidSecond => "Invalid second",
        }
    }
}

/// Whether the year has a 29th of February.
pub open spec fn spec_is_leap_year(year: int) -> bool {
    (year % 4 == 0 && year % 100 != 0) || year % 400 == 0
}

/// The number of days of the year.
pub open spec fn days_in_year(year: int) -> int {
    if spec_is_leap_year(year) {
        366
    } else {
        365
    }
}

/// The number of days of the month; `0` for what is no month.
pub open spec fn days_in_month(year: int, month: int) -> int {
    if month == 2 {
        if spec_is_leap_year(year) {
            29
        } else {
            28
        }
    } else if month == 4 || month == 6 || month == 9 || month == 11 {
        30
    } else if 1 <= month <= 12 {
        31
    } else {
        0
    }
}

/// The number of days of the year that come before the first of the
/// month: for month 13, the whole year.
pub open spec fn days_before_month(year: int, month: int) -> int
    decreases month,
{
    if month <= 1 {
        0
    } else {
        days_before_month(year, month - 1) + days_in_month(year, month - 1)
    }
}

/// The number of days from the first of January 1970 to the first of
/// January of the year: `0` for the years before 1970.
pub open spec fn days_before_year(year: int) -> int
    decreases year,
{
    if year <= 1970 {
        0
    } else {
        days_before_year(year - 1) + days_in_year(year - 1)
    }
}

/// The seconds at and above which `from_iso` has no year to answer with:
/// the first second of the year after the last that a `Time` holds.
pub open spec fn from_iso_limit() -> int {
    days_before_year(u32::MAX + 1) * 86_400
}

/// The number of leap years from the year 1 up to, and without, the
/// year.
pub open spec fn leap_years_before(year: int) -> int {
    (year - 1) / 4 - (year - 1) / 100 + (year - 1) / 400
}

/// The days before a year, counted without going through the years: 365
/// for each year since 1970, and one more for each leap year among them.
pub proof fn lemma_days_before_year_counted(year: int)
    requires
        year >= 1970,
    ensures
        days_before_year(year) == 365 * (year - 1970) + leap_years_before(year) - 477,
    decreases year,
{
    if year > 1970 {
        lemma_days_before_year_counted(year - 1);
        let last = year - 1;
        assert(last / 4 - (last - 1) / 4 == if last % 4 == 0 {
            1int
        } else {
            0int
        });
        assert(last / 100 - (last - 1) / 100 == if last % 100 == 0 {
            1int
        } else {
            0int
        });
        assert(last / 400 - (last - 1) / 400 == if last % 400 == 0 {
            1int
        } else {
            0int
        });
        assert(last % 400 == 0 ==> last % 100 == 0);
        assert(last % 100 == 0 ==> last % 4 == 0);
    }
}

/// `from_iso` has an answer for every count of seconds up to the first
/// second of the year 4,294,967,296 at the least.
pub proof fn lemma_from_iso_limit()
    ensures
        from_iso_limit() >= 135_446_026_520_736_000,
{
    lemma_days_before_year_bounds(u32::MAX + 1);
}

/// Every year has 365 or 366 days.
pub proof fn lemma_days_before_year_bounds(year: int)
    requires
        year >= 1970,
    ensures
        365 * (year - 1970) <= days_before_year(year) <= 366 * (year - 1970),
    decreases year,
{
    if year > 1970 {
        lemma_days_before_year_bounds(year - 1);
    }
}

/// A later year starts later.
pub proof fn lemma_days_before_year_grows(earlier: int, later: int)
    requires
        1970 <= earlier <= later,
    ensures
        days_before_year(earlier) + 365 * (later - earlier) <= days_before_year(later),
    decreases later - earlier,
{
    if earlier < later {
        lemma_days_before_year_grows(earlier, later - 1);
    }
}

/// The days before each month, month by month.
pub proof fn lemma_days_before_month_table(year: int)
    ensures
        days_before_month(year, 1) == 0,
        days_before_month(year, 2) == 31,
        days_before_month(year, 3) == days_in_year(year) - 306,
        days_before_month(year, 4) == days_in_year(year) - 275,
        days_before_month(year, 5) == days_in_year(year) - 245,
        days_before_month(year, 6) == days_in_year(year) - 214,
        days_before_month(year, 7) == days_in_year(year) - 184,
        days_before_month(year, 8) == days_in_year(year) - 153,
        days_before_month(year, 9) == days_in_year(year) - 122,
        days_before_month(year, 10) == days_in_year(year) - 92,
        days_before_month(year, 11) == days_in_year(year) - 61,
        days_before_month(year, 12) == days_in_year(year) - 31,
        days_before_month(year, 13) == days_in_year(year),
{
    reveal_with_fuel(days_before_month, 14);
}

/// Whether `time` is the time of the calendar, from 1970 on, that lies
/// `seconds` after 1970-01-01 00:00:00.
pub open spec fn is_time_at(time: Time, seconds: int) -> bool {
    time.is_valid() && time.year >= 1970 && time.to_iso_spec() == seconds
}

/// The time that lies `seconds` after 1970-01-01 00:00:00.
pub open spec fn spec_from_iso(seconds: int) -> Time {
    choose|time: Time| is_time_at(time, seconds)
}

/// No two times of the calendar lie the same number of seconds after
/// 1970-01-01 00:00:00.
pub proof fn lemma_to_iso_is_injective(first: Time, second: Time)
    requires
        first.is_valid(),
        second.is_valid(),
        first.year >= 1970,
        second.year >= 1970,
        first.to_iso_spec() == second.to_iso_spec(),
    ensures
        first == second,
{
    lemma_days_before_month_table(first.year as int);
    lemma_days_before_month_table(second.year as int);
    let first_days = days_before_month(first.year as int, first.month as int) + first.day - 1;
    let second_days = days_before_month(second.year as int, second.month as int) + second.day
        - 1;
    assert(0 <= first_days < days_in_year(first.year as int));
    assert(0 <= second_days < days_in_year(second.year as int));
    let first_rest = first.hour * 3_600 + first.minute * 60 + first.second;
    let second_rest = second.hour * 3_600 + second.minute * 60 + second.second;
    assert(0 <= first_rest < 86_400);
    assert(0 <= second_rest < 86_400);
    assert(days_before_year(first.year as int) + first_days == days_before_year(
        second.year as int,
    ) + second_days);
    assert(first_rest == second_rest);
    if first.year < second.year {
        lemma_days_before_year_grows(first.year + 1, second.year as int);
    }
    if second.year < first.year {
        lemma_days_before_year_grows(second.year + 1, first.year as int);
    }
    assert(first.year == second.year);
    assert(first.month == second.month);
}

/// The time that `from_iso` answers with is the only one that lies that
/// many seconds after 1970-01-01 00:00:00.
pub proof fn lemma_from_iso_is(time: Time, seconds: int)
    requires
        is_time_at(time, seconds),
    ensures
        spec_from_iso(seconds) == time,
{
    lemma_to_iso_is_injective(time, spec_from_iso(seconds));
}

/// The character of a decimal digit.
pub open spec fn digit_char(digit: int) -> char {
    if digit == 0 {
        '0'
    } else if digit == 1 {
        '1'
    } else if digit == 2 {
        '2'
    } else if digit == 3 {
        '3'
    } else if digit == 4 {
        '4'
    } else if digit == 5 {
        '5'
    } else if digit == 6 {
        '6'
    } else if digit == 7 {
        '7'
    } else if digit == 8 {
        '8'
    } else {
        '9'
    }
}

/// The number in decimal digits, without leading zeros.
pub open spec fn decimal(number: int) -> Seq<char>
    decreases number,
{
    if number < 10 {
        seq![digit_char(number)]
    } else {
        decimal(number / 10).push(digit_char(number % 10))
    }
}

/// The number in decimal digits, with zeros in front of it where it has
/// fewer than `width` digits.
pub open spec fn padded(number: int, width: int) -> Seq<char> {
    if decimal(number).len() >= width {
        decimal(number)
    } else {
        Seq::new((width - decimal(number).len()) as nat, |i: int| '0') + decimal(number)
    }
}

/// The text of one decimal digit.
fn digit_text(digit: u32) -> (text: &'static str)
    requires
        digit < 10,
    ensures
        text@ == seq![digit_char(digit as int)],
{
    proof {
        reveal_strlit("0");
        reveal_strlit("1");
        reveal_strlit("2");
        reveal_strlit("3");
        reveal_strlit("4");
        reveal_strlit("5");
        reveal_strlit("6");
        reveal_strlit("7");
        reveal_strlit("8");
        reveal_strlit("9");
    }
    let text = if digit == 0 {
        "0"
    } else if digit == 1 {
        "1"
    } else if digit == 2 {
        "2"
    } else if digit == 3 {
        "3"
    } else if digit == 4 {
        "4"
    } else if digit == 5 {
        "5"
    } else if digit == 6 {
        "6"
    } else if digit == 7 {
        "7"
    } else if digit == 8 {
        "8"
    } else {
        "9"
    };
    assert(text@ =~= seq![digit_char(digit as int)]);
    text
}

/// Puts the decimal digits of the number at the end of the text and
/// answers how many they are.
fn push_decimal(text: &mut String, number: u32) -> (digits: usize)
    ensures
        final(text)@ == old(text)@ + decimal(number as int),
        digits == decimal(number as int).len(),
        1 <= digits <= 10,
    decreases number,
{
    if number < 10 {
        text.append(digit_text(number));
        1
    } else {
        let before = push_decimal(text, number / 10);
        text.append(digit_text(number % 10));
        assert(text@ =~= old(text)@ + decimal(number as int));
        proof {
            lemma_decimal_length(number as int);
        }
        before + 1
    }
}

/// A number below ten to the power of ten has at most ten digits.
proof fn lemma_decimal_length(number: int)
    requires
        0 <= number <= u32::MAX,
    ensures
        decimal(number).len() <= 10,
{
    reveal_with_fuel(decimal, 11);
}

/// The number in decimal digits, with zeros in front of it where it has
/// fewer than `width` digits.
pub fn padded_decimal(number: u32, width: usize) -> (text: String)
    ensures
        text@ == padded(number as int, width as int),
{
    let mut digits = String::new();
    let count = push_decimal(&mut digits, number);
    assert(digits@ =~= decimal(number as int));
    let mut text = String::new();
    let mut zeros: usize = 0;
    proof {
        reveal_strlit("0");
    }
    while zeros + count < width
        invariant
            count == decimal(number as int).len(),
            digits@ == decimal(number as int),
            zeros + count <= width || zeros == 0,
            text@ == Seq::new(zeros as nat, |i: int| '0'),
            "0"@.len() == 1,
            "0"@[0] == '0',
        decreases width - zeros,
    {
        text.append("0");
        zeros += 1;
        assert(text@ =~= Seq::new(zeros as nat, |i: int| '0'));
    }
    text.append(digits.as_str());
    assert(text@ =~= padded(number as int, width as int));
    text
}

impl Time {
    /// Whether the fields name a day of the calendar and a time of day.
    pub open spec fn is_valid(self) -> bool {
        &&& 1 <= self.month <= 12
        &&& 1 <= self.day <= days_in_month(self.year as int, self.month as int)
        &&& self.hour <= 23
        &&& self.minute <= 59
        &&& self.second <= 59
    }

    /// Whether the seconds of the time can be counted: the day is at least
    /// `1`, so that the count does not go below zero, and the month at
    /// most `13`, so that the months before it are months of the year.
    /// Every time that `is_valid` can be counted.
    pub open spec fn can_be_counted(self) -> bool {
        self.day >= 1 && self.month <= 13
    }

    /// The error that `new` answers the fields with, if any: that of the
    /// first field out of range, in the order month, day, hour, minute,
    /// second.
    pub open spec fn first_error(month: u8, year: u32, day: u8, hour: u8, minute: u8, second: u8) -> Option<
        TimeError,
    > {
        if !(1 <= month <= 12) {
            Some(TimeError::InvalidMonth)
        } else if day < 1 || day > days_in_month(year as int, month as int) {
            Some(TimeError::InvalidDay)
        } else if hour > 23 {
            Some(TimeError::InvalidHour)
        } else if minute > 59 {
            Some(TimeError::InvalidMinute)
        } else if second > 59 {
            Some(TimeError::InvalidSecond)
        } else {
            None
        }
    }

    /// The seconds from 1970-01-01 00:00:00 to this time. The fields count
    /// as they stand, in range or not.
    pub open spec fn to_iso_spec(self) -> int {
        (days_before_year(self.year as int) + days_before_month(
            self.year as int,
            self.month as int,
        ) + self.day - 1) * 86_400 + self.hour * 3_600 + self.minute * 60 + self.second
    }

    /// The time with the given fields, or the first field that is out of
    /// range.
    pub fn new(year: u32, month: u8, day: u8, hour: u8, minute: u8, second: u8) -> (result: Result<
        Time,
        TimeError,
    >)
        ensures
            match Self::first_error(month, year, day, hour, minute, second) {
                Some(error) => result == Err::<Time, TimeError>(error),
                None => result == Ok::<Time, TimeError>(
                    Time { year, month, day, hour, minute, second },
                ),
            },
            result is Ok <==> (Time { year, month, day, hour, minute, second }).is_valid(),
    {
        if month < 1 || month > 12 {
            return Err(TimeError::InvalidMonth);
        }
        if day < 1 || day > Self::month_length(year, month) {
            return Err(TimeError::InvalidDay);
        }
        if hour > 23 {
            return Err(TimeError::InvalidHour);
        }
        if minute > 59 {
            return Err(TimeError::InvalidMinute);
        }
        if second > 59 {
            return Err(TimeError::InvalidSecond);
        }
        Ok(Time { year, month, day, hour, minute, second })
    }

    /// Whether the year has a 29th of February.
    pub fn is_leap_year(year: u32) -> (leap: bool)
        ensures
            leap == spec_is_leap_year(year as int),
    {
        (year % 4 == 0 && year % 100 != 0) || year % 400 == 0
    }

    /// The number of days of the year.
    pub fn year_length(year: u32) -> (days: u64)
        ensures
            days == days_in_year(year as int),
    {
        if Self::is_leap_year(year) {
            366
        } else {
            365
        }
    }

    /// The number of days of the month.
    pub fn month_length(year: u32, month: u8) -> (days: u8)
        requires
            1 <= month <= 12,
        ensures
            days == days_in_month(year as int, month as int),
    {
        if month == 2 {
            if Self::is_leap_year(year) {
                29
            } else {
                28
            }
        } else if month == 4 || month == 6 || month == 9 || month == 11 {
            30
        } else {
            31
        }
    }

    /// The seconds from 1970-01-01 00:00:00 to this time.
    pub fn to_iso(&self) -> (seconds: u64)
        requires
            self.can_be_counted(),
        ensures
            seconds == self.to_iso_spec(),
    {
        let mut days: u64 = 0;
        let mut year: u32 = 1970;
        while year < self.year
            invariant
                1970 <= year,
                year <= self.year || self.year < 1970,
                self.year < 1970 ==> year == 1970,
                days == days_before_year(year as int),
                days <= 366 * (year - 1970),
            decreases self.year - year,
        {
            days += Self::year_length(year);
            year += 1;
        }
        assert(days == days_before_year(self.year as int));
        let mut month: u8 = 1;
        let ghost before = days;
        while month < self.month
            invariant
                1 <= month <= 13,
                month <= self.month || self.month < 1,
                self.month < 1 ==> month == 1,
                self.month <= 13,
                days == before + days_before_month(self.year as int, month as int),
                days <= before + 31 * (month - 1),
                before <= 366 * (u32::MAX - 1970),
            decreases self.month - month,
        {
            days += Self::month_length(self.year, month) as u64;
            month += 1;
        }
        assert(days_before_month(self.year as int, month as int) == days_before_month(
            self.year as int,
            self.month as int,
        ));
        days += self.day as u64 - 1;
        let mut seconds: u64 = days * SECONDS_PER_DAY;
        seconds += self.hour as u64 * 60 * 60;
        seconds += self.minute as u64 * 60;
        seconds += self.second as u64;
        seconds
    }

    /// The time that lies the given number of seconds after 1970-01-01
    /// 00:00:00.
    pub fn from_iso(seconds: u64) -> (time: Time)
        requires
            seconds < from_iso_limit(),
        ensures
            time == spec_from_iso(seconds as int),
            time.is_valid(),
            time.year >= 1970,
            time.to_iso_spec() == seconds,
    {
        let mut days: u64 = seconds / SECONDS_PER_DAY;
        let rest: u64 = seconds % SECONDS_PER_DAY;
        let ghost all_days = days;
        let mut year: u32 = 1970;
        while days >= Self::year_length(year)
            invariant
                1970 <= year,
                days_before_year(year as int) + days == all_days,
                all_days < days_before_year(u32::MAX + 1),
            decreases days,
        {
            proof {
                if year == u32::MAX {
                    assert(days_before_year(year + 1) <= all_days);
                }
            }
            days -= Self::year_length(year);
            year += 1;
        }
        let ghost year_days = days;
        proof {
            lemma_days_before_month_table(year as int);
        }
        let mut month: u8 = 1;
        while days >= Self::month_length(year, month) as u64
            invariant
                1 <= month <= 12,
                days_before_month(year as int, month as int) + days == year_days,
                year_days < days_in_year(year as int),
            decreases days,
        {
            proof {
                lemma_days_before_month_table(year as int);
            }
            days -= Self::month_length(year, month) as u64;
            month += 1;
        }
        let hour: u64 = rest / 3_600;
        let minute: u64 = (rest % 3_600) / 60;
        let second: u64 = rest % 60;
        let time = Time {
            year,
            month,
            day: (days + 1) as u8,
            hour: hour as u8,
            minute: minute as u8,
            second: second as u8,
        };
        proof {
            lemma_from_iso_is(time, seconds as int);
        }
        time
    }

    /// The time between the two, whichever comes first.
    pub fn time_span(&self, other: &Time) -> (span: Duration)
        requires
            self.can_be_counted(),
            other.can_be_counted(),
        ensures
            span.total_seconds() == if self.to_iso_spec() > other.to_iso_spec() {
                self.to_iso_spec() - other.to_iso_spec()
            } else {
                other.to_iso_spec() - self.to_iso_spec()
            },
            span.minutes < 60,
            span.seconds < 60,
    {
        let self_seconds = self.to_iso();
        let other_seconds = other.to_iso();
        let seconds: u64 = if self_seconds > other_seconds {
            self_seconds - other_seconds
        } else {
            other_seconds - self_seconds
        };
        Duration::from_seconds(seconds)
    }

    /// The same time of day on the day before.
    pub fn get_previous_day(&self) -> (previous: Time)
        requires
            self.can_be_counted(),
            86_400 <= self.to_iso_spec(),
            self.to_iso_spec() - 86_400 < from_iso_limit(),
        ensures
            previous == spec_from_iso(self.to_iso_spec() - 86_400),
            previous.is_valid(),
            previous.year >= 1970,
            previous.to_iso_spec() == self.to_iso_spec() - 86_400,
    {
        let t2: u64 = self.to_iso() - 24 * 60 * 60;
        Time::from_iso(t2)
    }

    /// The name of the record of the date: `timeblocks/`, the year in at
    /// least four digits, the month and the day in at least two, with `-`
    /// between them, and `.json`.
    pub open spec fn spec_filename(self) -> Seq<char> {
        "timeblocks/"@ + padded(self.year as int, 4) + "-"@ + padded(self.month as int, 2) + "-"@
            + padded(self.day as int, 2) + ".json"@
    }

    /// The name of the record of the date, as in
    /// `timeblocks/2023-11-27.json`.
    pub fn filename(&self) -> (name: String)
        ensures
            name@ == self.spec_filename(),
    {
        let mut name = String::from_str("timeblocks/");
        name.append(padded_decimal(self.year, 4).as_str());
        name.append("-");
        name.append(padded_decimal(self.month as u32, 2).as_str());
        name.append("-");
        name.append(padded_decimal(self.day as u32, 2).as_str());
        name.append(".json");
        name
    }

    /// Whether this time comes strictly before the other.
    pub fn before(&self, other: &Time) -> (b: bool)
        requires
            self.can_be_counted(),
            other.can_be_counted(),
        ensures
            b == (self.to_iso_spec() < other.to_iso_spec()),
    {
        self.to_iso() < other.to_iso()
    }
}

impl std::ops::Add<Duration> for Time {
    type Output = Self;

    /// The time that lies the length of the span after this one.
    fn add(self, rhs: Duration) -> (later: Self) {
        proof {
            lemma_days_before_year_bounds(u32::MAX + 1);
        }
        let start: u64 = self.to_iso();
        let seconds: u64 = start + rhs.to_seconds();
        Time::from_iso(seconds)
    }
}

impl vstd::std_specs::ops::AddSpecImpl<Duration> for Time {
    open spec fn obeys_add_spec() -> bool {
        true
    }

    /// The seconds of the time can be counted, and the time asked for
    /// has a year that a `Time` holds.
    open spec fn add_req(self, rhs: Duration) -> bool {
        &&& self.can_be_counted()
        &&& self.to_iso_spec() + rhs.total_seconds() < from_iso_limit()
    }

    open spec fn add_spec(self, rhs: Duration) -> Self {
        spec_from_iso(self.to_iso_spec() + rhs.total_seconds())
    }
}

} // verus!
