//! Time: points and spans in plain values, and the wall clock, read through
//! `chrono`.

use vstd::prelude::*;

verus! {

/// Bound on the magnitude of the clock in seconds: more than the seconds of
/// 264,200 years of 366 days.
pub const CLOCK_SECONDS_BOUND: i64 = 9_000_000_000_000;

/// Bound on the magnitude of the clock in milliseconds.
pub const CLOCK_MILLIS_BOUND: i64 = 9_000_000_000_000_000;

/// Bound on the magnitude of the clock in microseconds.
pub const CLOCK_MICROS_BOUND: i64 = 9_000_000_000_000_000_000;

/// The nanoseconds of a second.
pub const NANOS_PER_SECOND: i64 = 1_000_000_000;

/// A point in time: `seconds` since the Unix epoch and `nanos` nanoseconds
/// beyond them.
#[derive(Clone, Copy, Debug, PartialEq, Eq, Structural)]
pub struct Instant {
    pub seconds: i64,
    pub nanos: u32,
}

impl Instant {
    /// The nanoseconds from the Unix epoch to this point.
    pub open spec fn total_nanos(self) -> int {
        self.seconds * NANOS_PER_SECOND + self.nanos
    }

    /// The whole microseconds from the Unix epoch to this point.
    pub open spec fn spec_micros(self) -> int {
        self.seconds * 1_000_000 + self.nanos / 1_000
    }

    /// The whole milliseconds from the Unix epoch to this point.
    pub open spec fn spec_millis(self) -> int {
        self.seconds * 1_000 + self.nanos / 1_000_000
    }

    /// The whole microseconds from the Unix epoch to this point.
    pub fn micros(&self) -> (t: i64)
        requires
            -CLOCK_SECONDS_BOUND < self.seconds < CLOCK_SECONDS_BOUND,
        ensures
            t == self.spec_micros(),
            is_clock_reading(*self) ==> 0 <= t < CLOCK_MICROS_BOUND,
    {
        self.seconds * 1_000_000 + (self.nanos / 1_000) as i64
    }

    /// The whole milliseconds from the Unix epoch to this point.
    pub fn millis(&self) -> (t: i64)
        requires
            -CLOCK_SECONDS_BOUND < self.seconds < CLOCK_SECONDS_BOUND,
        ensures
            t == self.spec_millis(),
            is_clock_reading(*self) ==> 0 <= t < CLOCK_MILLIS_BOUND,
    {
        self.seconds * 1_000 + (self.nanos / 1_000_000) as i64
    }
}

/// A span of time: `seconds` and `nanos` nanoseconds, taken together.
#[derive(Clone, Copy, Debug, PartialEq, Eq, Structural)]
pub struct Span {
    pub seconds: i64,
    pub nanos: i32,
}

impl Span {
    /// The nanoseconds of this span.
    pub open spec fn total_nanos(self) -> int {
        self.seconds * NANOS_PER_SECOND + self.nanos
    }

    /// A span of `seconds` seconds.
    pub fn seconds(seconds: i64) -> (span: Span)
        ensures
            span == (Span { seconds, nanos: 0 }),
    {
        Span { seconds, nanos: 0 }
    }

    /// A span of `minutes` minutes.
    pub fn minutes(minutes: i64) -> (span: Span)
        requires
            i64::MIN <= minutes * 60 <= i64::MAX,
        ensures
            span == (Span { seconds: (minutes * 60) as i64, nanos: 0 }),
    {
        Span { seconds: minutes * 60, nanos: 0 }
    }

    /// A span of `hours` hours.
    pub fn hours(hours: i64) -> (span: Span)
        requires
            i64::MIN <= hours * 3600 <= i64::MAX,
        ensures
            span == (Span { seconds: (hours * 3600) as i64, nanos: 0 }),
    {
        Span { seconds: hours * 3600, nanos: 0 }
    }
}

/// The first second of which `chrono` makes a date: the first of the year
/// -262,143.
pub const FIRST_REPRESENTABLE_SECOND: i64 = -8_334_601_228_800;

/// The last second of which `chrono` makes a date: the last of the year
/// 262,142.
pub const LAST_REPRESENTABLE_SECOND: i64 = 8_210_266_876_799;

/// Whether `chrono::DateTime::from_timestamp` makes a date of `seconds` and
/// no nanoseconds: whether the second lies within the years that `chrono`
/// can represent.
pub open spec fn chrono_represents(seconds: i64) -> bool {
    FIRST_REPRESENTABLE_SECOND <= seconds <= LAST_REPRESENTABLE_SECOND
}

/// What the clock can read: a time that is not before the epoch, within the
/// years that `chrono` can represent, with less than a second of
/// nanoseconds.
pub open spec fn is_clock_reading(t: Instant) -> bool {
    0 <= t.seconds <= LAST_REPRESENTABLE_SECOND && t.nanos < NANOS_PER_SECOND
}

/// The nanoseconds from the epoch to the last time that the clock can read.
pub open spec fn last_clock_nanos() -> int {
    LAST_REPRESENTABLE_SECOND * NANOS_PER_SECOND + NANOS_PER_SECOND - 1
}

/// Calls `chrono::DateTime::from_timestamp` with `seconds` and no
/// nanoseconds and tells whether it returned a date. It returns one where
/// the day of the second, counted from the year 1, fits `i32` and
/// `NaiveDate::from_num_days_from_ce_opt` accepts it, which it does for the
/// years from `MIN_YEAR` to `MAX_YEAR`, -262,143 to 262,142; the two
/// constants are the first and the last second of those years.
#[verifier::external_body]
pub(crate) fn timestamp_representable(seconds: i64) -> (yes: bool)
    ensures
        yes == chrono_represents(seconds),
{
    chrono::DateTime::from_timestamp(seconds, 0).is_some()
}

/// Calls `chrono::Utc::now`, and on its result `chrono::DateTime::timestamp`
/// and `chrono::DateTime::timestamp_subsec_nanos`: the current time.
/// `Utc::now` takes seconds and nanoseconds from the duration since the
/// epoch that the system clock gives, which is not negative and whose
/// nanoseconds are less than a second, and panics rather than return where
/// the clock stands before the epoch. It builds its value with
/// `DateTime::from_timestamp`, which makes a date of no later second than
/// [`LAST_REPRESENTABLE_SECOND`], and panics where that returns none.
#[verifier::external_body]
pub(crate) fn now_instant() -> (t: Instant)
    ensures
        is_clock_reading(t),
{
    let now = chrono::Utc::now();
    Instant { seconds: now.timestamp(), nanos: now.timestamp_subsec_nanos() }
}

} // verus!
