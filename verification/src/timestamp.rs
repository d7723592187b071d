//! Civil-time timestamps (UTC), ordered lexicographically by their fields.
//!
//! A [`Timestamp`] holds a calendar date and a time of day as plain integers.
//! The current time is obtained from the system clock through a single
//! trusted wrapper and is immediately normalised into the well-formed range
//! by verified code.

use vstd::prelude::*;

verus! {

/// A point in civil time, UTC: year-month-day, hour:minute:second plus
/// nanoseconds. Ordering is lexicographic over the fields in that order.
#[derive(Clone, Copy, PartialEq, Eq, Structural, Debug)]
pub struct Timestamp {
    pub year: u32,
    pub month: u32,
    pub day: u32,
    pub hour: u32,
    pub minute: u32,
    pub second: u32,
    pub nanos: u32,
}

impl Timestamp {
    /// Every field lies in its printable range: four digits for the year,
    /// calendar ranges for the date fields, clock ranges for the time fields.
    pub open spec fn well_formed(self) -> bool {
        &&& self.year <= 9999
        &&& 1 <= self.month <= 12
        &&& 1 <= self.day <= 31
        &&& self.hour <= 23
        &&& self.minute <= 59
        &&& self.second <= 59
        &&& self.nanos <= 999_999_999
    }

    /// Executable check equivalent to [`Timestamp::well_formed`].
    pub fn check_well_formed(&self) -> (r: bool)
        ensures
            r == self.well_formed(),
    {
        self.year <= 9999 && 1 <= self.month && self.month <= 12 && 1 <= self.day && self.day <= 31
            && self.hour <= 23 && self.minute <= 59 && self.second <= 59 && self.nanos
            <= 999_999_999
    }

    /// Lexicographic "less than or equal" over the fields.
    pub open spec fn spec_le(self, other: Self) -> bool {
        if self.year != other.year {
            self.year < other.year
        } else if self.month != other.month {
            self.month < other.month
        } else if self.day != other.day {
            self.day < other.day
        } else if self.hour != other.hour {
            self.hour < other.hour
        } else if self.minute != other.minute {
            self.minute < other.minute
        } else if self.second != other.second {
            self.second < other.second
        } else {
            self.nanos <= other.nanos
        }
    }

    /// Executable comparison, equivalent to [`Timestamp::spec_le`].
    pub fn le(&self, other: &Self) -> (r: bool)
        ensures
            r == self.spec_le(*other),
    {
        if self.year != other.year {
            self.year < other.year
        } else if self.month != other.month {
            self.month < other.month
        } else if self.day != other.day {
            self.day < other.day
        } else if self.hour != other.hour {
            self.hour < other.hour
        } else if self.minute != other.minute {
            self.minute < other.minute
        } else if self.second != other.second {
            self.second < other.second
        } else {
            self.nanos <= other.nanos
        }
    }

    /// The later of two timestamps.
    pub fn max(self, other: Self) -> (r: Self)
        ensures
            r == (if self.spec_le(other) {
                other
            } else {
                self
            }),
            self.spec_le(r) && other.spec_le(r),
    {
        proof {
            lemma_le_total(self, other);
        }
        if self.le(&other) {
            other
        } else {
            self
        }
    }

    /// Builds a well-formed timestamp from raw clock fields, clamping each
    /// field into its range. Fields already in range are kept exactly.
    pub fn from_clock_parts(
        year: i32,
        month: u32,
        day: u32,
        hour: u32,
        minute: u32,
        second: u32,
        nanos: u32,
    ) -> (r: Self)
        ensures
            r.well_formed(),
            0 <= year <= 9999 ==> r.year == year,
            1 <= month <= 12 ==> r.month == month,
            1 <= day <= 31 ==> r.day == day,
            hour <= 23 ==> r.hour == hour,
            minute <= 59 ==> r.minute == minute,
            second <= 59 ==> r.second == second,
            nanos <= 999_999_999 ==> r.nanos == nanos,
    {
        let y: u32 = if year < 0 {
            0
        } else if year > 9999 {
            9999
        } else {
            year as u32
        };
        Timestamp {
            year: y,
            month: clamp(month, 1, 12),
            day: clamp(day, 1, 31),
            hour: clamp(hour, 0, 23),
            minute: clamp(minute, 0, 59),
            second: clamp(second, 0, 59),
            nanos: clamp(nanos, 0, 999_999_999),
        }
    }

    /// The current time as reported by the system clock, normalised into a
    /// well-formed timestamp. Nothing more can be promised of a clock
    /// reading.
    pub fn now() -> (r: Self)
        ensures
            r.well_formed(),
    {
        let (year, month, day, hour, minute, second, nanos) = now_utc_parts();
        Self::from_clock_parts(year, month, day, hour, minute, second, nanos)
    }
}

/// `v` forced into `lo..=hi`.
fn clamp(v: u32, lo: u32, hi: u32) -> (r: u32)
    requires
        lo <= hi,
    ensures
        lo <= r <= hi,
        lo <= v <= hi ==> r == v,
{
    if v < lo {
        lo
    } else if v > hi {
        hi
    } else {
        v
    }
}

/// Of any two timestamps, one is `spec_le` the other.
pub proof fn lemma_le_total(a: Timestamp, b: Timestamp)
    ensures
        a.spec_le(b) || b.spec_le(a),
        a.spec_le(b) && b.spec_le(a) ==> a == b,
{
}

/// `spec_le` is transitive.
pub proof fn lemma_le_trans(a: Timestamp, b: Timestamp, c: Timestamp)
    requires
        a.spec_le(b),
        b.spec_le(c),
    ensures
        a.spec_le(c),
{
}

/// Relies on `chrono::Utc::now` for the current instant and on chrono's
/// `Datelike` / `Timelike` accessors (`year`, `month`, `day`, `hour`,
/// `minute`, `second`, `nanosecond`) to read it out as plain integers.
/// Chrono documents the ranges: month 1..=12, day 1..=31, hour 0..=23,
/// minute and second 0..=59, and nanosecond up to 1_999_999_999 (leap
/// seconds). The year is unconstrained here.
#[verifier::external_body]
fn now_utc_parts() -> (r: (i32, u32, u32, u32, u32, u32, u32))
    ensures
        1 <= r.1 <= 12,
        1 <= r.2 <= 31,
        r.3 <= 23,
        r.4 <= 59,
        r.5 <= 59,
        r.6 <= 1_999_999_999,
{
    let t = chrono::Utc::now();
    (
        chrono::Datelike::year(&t),
        chrono::Datelike::month(&t),
        chrono::Datelike::day(&t),
        chrono::Timelike::hour(&t),
        chrono::Timelike::minute(&t),
        chrono::Timelike::second(&t),
        chrono::Timelike::nanosecond(&t),
    )
}

} // verus!
