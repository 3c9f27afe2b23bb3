//! Calendar timestamps of minute precision, modelled as plain fields.
//!
//! The log file stores local date-times as `YYYY-MM-DD HH:MM`; nothing in the
//! core needs a time zone, so a timestamp is just its five fields.  The one
//! thing only the system can supply — the current local time — comes through
//! a trusted call into the `chrono` crate.

use vstd::prelude::*;

verus! {

/// A local date-time of minute precision.  The derived ordering is
/// field order, which is chronological.
#[derive(Clone, Copy, Debug, PartialEq, Eq, PartialOrd, Ord, Structural)]
pub struct Timestamp {
    pub year: u16,
    pub month: u8,
    pub day: u8,
    pub hour: u8,
    pub minute: u8,
}

/// A time of day without a date, as minutes after midnight.
#[derive(Clone, Copy, Debug, PartialEq, Eq, Structural)]
pub struct TimeOfDay {
    pub hour: u8,
    pub minute: u8,
}

pub open spec fn spec_is_leap_year(y: int) -> bool {
    (y % 4 == 0 && y % 100 != 0) || y % 400 == 0
}

pub open spec fn spec_days_in_month(y: int, m: int) -> int {
    if m == 2 {
        if spec_is_leap_year(y) {
            29
        } else {
            28
        }
    } else if m == 4 || m == 6 || m == 9 || m == 11 {
        30
    } else {
        31
    }
}

impl Timestamp {
    /// A timestamp is valid when its fields name a real calendar date
    /// of at most four year digits and a real time of day.
    pub open spec fn valid(self) -> bool {
        &&& self.year <= 9999
        &&& 1 <= self.month <= 12
        &&& 1 <= self.day <= spec_days_in_month(self.year as int, self.month as int)
        &&& self.hour <= 23
        &&& self.minute <= 59
    }

    /// The timestamp as a single count of minutes, ordering timestamps
    /// chronologically: lexicographic over (year, month, day, hour, minute).
    pub open spec fn spec_key(self) -> int {
        ((((self.year as int * 13 + self.month as int) * 32 + self.day as int) * 24
            + self.hour as int) * 60 + self.minute as int)
    }

    pub open spec fn spec_le(self, other: Timestamp) -> bool {
        self.spec_key() <= other.spec_key()
    }

    pub open spec fn spec_time_key(self) -> int {
        self.hour as int * 60 + self.minute as int
    }

    /// Chronological comparison: `self <= other`.
    pub fn le(&self, other: &Timestamp) -> (r: bool)
        ensures
            r == self.spec_le(*other),
    {
        let a = self.key();
        let b = other.key();
        a <= b
    }

    /// Strict chronological comparison: `self < other`.
    pub fn lt(&self, other: &Timestamp) -> (r: bool)
        ensures
            r == (self.spec_key() < other.spec_key()),
    {
        let a = self.key();
        let b = other.key();
        a < b
    }

    fn key(&self) -> (r: u64)
        ensures
            r == self.spec_key(),
    {
        ((((self.year as u64) * 13 + (self.month as u64)) * 32 + (self.day as u64)) * 24
            + (self.hour as u64)) * 60 + (self.minute as u64)
    }

    /// The time-of-day component alone.
    pub fn time_of_day(&self) -> (r: TimeOfDay)
        ensures
            r.hour == self.hour,
            r.minute == self.minute,
    {
        TimeOfDay { hour: self.hour, minute: self.minute }
    }
}

impl TimeOfDay {
    pub open spec fn valid(self) -> bool {
        self.hour <= 23 && self.minute <= 59
    }

    pub open spec fn spec_key(self) -> int {
        self.hour as int * 60 + self.minute as int
    }

    pub fn le(&self, other: &TimeOfDay) -> (r: bool)
        ensures
            r == (self.spec_key() <= other.spec_key()),
    {
        let a: u32 = self.hour as u32 * 60 + self.minute as u32;
        let b: u32 = other.hour as u32 * 60 + other.minute as u32;
        a <= b
    }
}

pub fn is_leap_year(y: u16) -> (r: bool)
    ensures
        r == spec_is_leap_year(y as int),
{
    (y % 4 == 0 && y % 100 != 0) || y % 400 == 0
}

pub fn days_in_month(y: u16, m: u8) -> (r: u8)
    requires
        1 <= m <= 12,
    ensures
        r == spec_days_in_month(y as int, m as int),
{
    if m == 2 {
        if is_leap_year(y) {
            29
        } else {
            28
        }
    } else if m == 4 || m == 6 || m == 9 || m == 11 {
        30
    } else {
        31
    }
}

/// Relies on `chrono::Local::now` and the `Datelike`/`Timelike` accessors:
/// whatever the clock says, the month is 1..=12, the day 1..=31, the hour
/// at most 23 and the minute at most 59; the year is clamped into the
/// model's four-digit range.
#[verifier::external_body]
fn now_fields() -> (r: (u16, u8, u8, u8, u8))
    ensures
        r.0 <= 9999,
        1 <= r.1 <= 12,
        1 <= r.2 <= 31,
        r.3 <= 23,
        r.4 <= 59,
{
    let now = chrono::Local::now();
    let year = chrono::Datelike::year(&now).clamp(0, 9999) as u16;
    (
        year,
        chrono::Datelike::month(&now) as u8,
        chrono::Datelike::day(&now) as u8,
        chrono::Timelike::hour(&now) as u8,
        chrono::Timelike::minute(&now) as u8,
    )
}

/// The current local time as a valid timestamp.  A day the clamped year
/// cannot hold (a leap day pushed onto a non-leap year) is clamped to the
/// month's last day.
pub fn now_timestamp() -> (r: Timestamp)
    ensures
        r.valid(),
{
    let (year, month, day, hour, minute) = now_fields();
    let last = days_in_month(year, month);
    let day = if day <= last {
        day
    } else {
        last
    };
    Timestamp { year, month, day, hour, minute }
}

} // verus!
