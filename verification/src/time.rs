//! Calendar timestamps with millisecond precision.
//!
//! Every stored instant (creation time, due date, completion time) is a
//! [`Timestamp`]: a proleptic-Gregorian calendar date together with a
//! time of day in UTC.  [`Timestamp::instant`] maps a timestamp to a
//! single integer that orders instants chronologically; the executable
//! comparison functions are proved against it.

use vstd::prelude::*;

verus! {

/// A UTC instant, held as calendar fields.  A timestamp is meaningful
/// only when [`Timestamp::valid`] holds: the date is a real calendar
/// date, the time fields are in range, and the year has at most four
/// digits so that the wire format can carry it.
#[derive(Clone, Copy, PartialEq, Eq, Structural, Debug)]
pub struct Timestamp {
    pub year: u16,
    pub month: u8,
    pub day: u8,
    pub hour: u8,
    pub minute: u8,
    pub second: u8,
    pub milli: u16,
}

/// Leap years of the proleptic Gregorian calendar.
pub open spec fn is_leap_year(y: int) -> bool {
    y % 4 == 0 && (y % 100 != 0 || y % 400 == 0)
}

/// Number of days of month `m` in year `y` (only meaningful for `1 <= m <= 12`).
pub open spec fn days_in_month(y: int, m: int) -> int {
    if m == 2 {
        if is_leap_year(y) {
            29
        } else {
            28
        }
    } else if m == 4 || m == 6 || m == 9 || m == 11 {
        30
    } else {
        31
    }
}

/// `y-m-d` is a real date of the proleptic Gregorian calendar.
pub open spec fn real_date(y: int, m: int, d: int) -> bool {
    1 <= m <= 12 && 1 <= d <= days_in_month(y, m)
}

impl Timestamp {
    /// The timestamp denotes a real instant and fits the wire format.
    pub open spec fn valid(self) -> bool {
        &&& self.year <= 9999
        &&& real_date(self.year as int, self.month as int, self.day as int)
        &&& self.hour <= 23
        &&& self.minute <= 59
        &&& self.second <= 59
        &&& self.milli <= 999
    }

    /// An integer that orders timestamps chronologically: a mixed-radix
    /// reading of the fields, most significant first.  Each radix bounds
    /// its field (12 months, at most 31 days, ...), so the order of
    /// `instant` values is exactly the lexicographic order of the fields.
    pub open spec fn instant(self) -> int {
        ((((((self.year * 12 + (self.month - 1)) * 31 + (self.day - 1)) * 24 + self.hour) * 60
            + self.minute) * 60 + self.second) * 1000 + self.milli) as int
    }

    /// Executable form of [`Timestamp::instant`].
    pub fn instant_key(&self) -> (r: u64)
        requires
            self.valid(),
        ensures
            r as int == self.instant(),
    {
        ((((((self.year as u64) * 12 + (self.month as u64 - 1)) * 31 + (self.day as u64 - 1))
            * 24 + self.hour as u64) * 60 + self.minute as u64) * 60 + self.second as u64) * 1000
            + self.milli as u64
    }

    /// `self` is no later than `other`.
    pub fn le(&self, other: &Timestamp) -> (r: bool)
        requires
            self.valid(),
            other.valid(),
        ensures
            r == (self.instant() <= other.instant()),
    {
        self.instant_key() <= other.instant_key()
    }

    /// Decides [`Timestamp::valid`].
    pub fn is_valid(&self) -> (r: bool)
        ensures
            r == self.valid(),
    {
        if self.year <= 9999 && 1 <= self.month && self.month <= 12 && self.hour <= 23
            && self.minute <= 59 && self.second <= 59 && self.milli <= 999 {
            let dim = days_in_month_exec(self.year, self.month);
            1 <= self.day && self.day <= dim
        } else {
            false
        }
    }

    /// Builds a valid timestamp out of loose integer parts, or reports
    /// that no real instant has these parts.
    pub fn from_parts(
        year: i64,
        month: i64,
        day: i64,
        hour: i64,
        minute: i64,
        second: i64,
        milli: i64,
    ) -> (r: Option<Timestamp>)
        ensures
            match r {
                Some(t) => {
                    &&& t.valid()
                    &&& t.year == year
                    &&& t.month == month
                    &&& t.day == day
                    &&& t.hour == hour
                    &&& t.minute == minute
                    &&& t.second == second
                    &&& t.milli == milli
                },
                None => !{
                    &&& 0 <= year <= 9999
                    &&& real_date(year as int, month as int, day as int)
                    &&& 0 <= hour <= 23
                    &&& 0 <= minute <= 59
                    &&& 0 <= second <= 59
                    &&& 0 <= milli <= 999
                },
            },
    {
        if 0 <= year && year <= 9999 && 1 <= month && month <= 12 && 0 <= hour && hour <= 23
            && 0 <= minute && minute <= 59 && 0 <= second && second <= 59 && 0 <= milli
            && milli <= 999 {
            let dim = days_in_month_exec(year as u16, month as u8);
            if 1 <= day && day <= dim as i64 {
                Some(
                    Timestamp {
                        year: year as u16,
                        month: month as u8,
                        day: day as u8,
                        hour: hour as u8,
                        minute: minute as u8,
                        second: second as u8,
                        milli: milli as u16,
                    },
                )
            } else {
                None
            }
        } else {
            None
        }
    }
}

/// Executable form of [`days_in_month`].
pub fn days_in_month_exec(y: u16, m: u8) -> (r: u8)
    requires
        1 <= m <= 12,
    ensures
        r as int == days_in_month(y as int, m as int),
{
    if m == 2 {
        if (y % 4 == 0) && (y % 100 != 0 || y % 400 == 0) {
            29
        } else {
            28
        }
    } else if m == 4 || m == 6 || m == 9 || m == 11 {
        30
    } else {
        31
    }
}

} // verus!
