//! The duration value returned by a successful parse, and the error kinds
//! reported by a failed one.

use vstd::prelude::*;

verus! {

/// One second, in nanoseconds; the `nanos` component of a [`Duration`] is
/// always strictly below it.
pub const NANOS_PER_SEC: u32 = 1_000_000_000;

/// Seconds per minute.
pub const SECS_PER_MINUTE: u64 = 60;

/// Seconds per hour.
pub const SECS_PER_HOUR: u64 = 60 * SECS_PER_MINUTE;

/// Seconds per day.
pub const SECS_PER_DAY: u64 = 24 * SECS_PER_HOUR;

/// Seconds per week.
pub const SECS_PER_WEEK: u64 = 7 * SECS_PER_DAY;

/// A non-negative span of time: whole seconds plus a sub-second nanosecond
/// remainder, kept normalized so that `nanos` is always below one second.
#[derive(Clone, Copy, Debug, PartialEq, Eq, Structural)]
pub struct Duration {
    /// Whole seconds.
    pub secs: u64,
    /// Sub-second remainder in nanoseconds; invariant: below `NANOS_PER_SEC`.
    pub nanos: u32,
}

impl Duration {
    /// The normalization invariant: the nanosecond component never reaches a
    /// whole second.
    pub open spec fn wf(self) -> bool {
        self.nanos < NANOS_PER_SEC
    }

    /// Builds a duration from whole seconds and a sub-second remainder.
    pub fn new(secs: u64, nanos: u32) -> (d: Duration)
        requires
            nanos < NANOS_PER_SEC,
        ensures
            d.secs == secs,
            d.nanos == nanos,
            d.wf(),
    {
        Duration { secs, nanos }
    }

    /// The whole-second component.
    pub fn as_secs(&self) -> (s: u64)
        ensures
            s == self.secs,
    {
        self.secs
    }

    /// The sub-second component, in nanoseconds.
    pub fn subsec_nanos(&self) -> (n: u32)
        ensures
            n == self.nanos,
    {
        self.nanos
    }
}

/// What was wrong with a duration expression. Each variant is reported for a
/// precisely delimited class of inputs; see the contract of
/// [`crate::parser::parse`].
#[derive(Clone, Copy, Debug, PartialEq, Eq, Structural)]
pub enum ParseError {
    /// The expression does not start with the `P` marker, or data precedes it.
    MalformedPrefix,
    /// A field repeats, or appears after a later field of the canonical order
    /// `W D T H M S`, or a time field appears without the `T` separator.
    FieldOutOfOrder,
    /// A numeric body stands immediately before the `T` separator.
    UnexpectedDataBeforeTimeSeparator,
    /// A field body is empty, is not made of decimal digits, or does not fit
    /// the 64-bit seconds range.
    NumericParseError,
    /// A fractional-seconds part has more than nine digits.
    FractionalSecondsOverflow,
    /// The summed seconds exceed the 64-bit range.
    DurationOverflow,
    /// Input is left over after the last recognized field.
    TrailingData,
}

} // verus!
