//! The time model: millisecond-resolution instants and intervals.

use vstd::prelude::*;

verus! {

/// Milliseconds per hour.
pub const MSECS_PER_HOUR: i64 = 3_600_000;

/// Milliseconds per minute.
pub const MSECS_PER_MIN: i64 = 60_000;

/// Milliseconds per second.
pub const MSECS_PER_SEC: i64 = 1_000;

/// Hours component of a non-negative millisecond offset.
pub open spec fn hours_of(ms: int) -> int {
    ms / 3_600_000
}

/// Minutes-within-the-hour component of a non-negative millisecond offset.
pub open spec fn mins_comp_of(ms: int) -> int {
    (ms % 3_600_000) / 60_000
}

/// Seconds-within-the-minute component of a non-negative millisecond offset.
pub open spec fn secs_comp_of(ms: int) -> int {
    ((ms % 3_600_000) % 60_000) / 1_000
}

/// Milliseconds-within-the-second component of a non-negative millisecond offset.
pub open spec fn msecs_comp_of(ms: int) -> int {
    ((ms % 3_600_000) % 60_000) % 1_000
}

/// An absolute instant on a subtitle timeline, at millisecond resolution.
///
/// Invariant: the offset is non-negative (see [`TimePoint::wf`]); every
/// constructor establishes it and every method preserves it.
#[derive(Clone, Copy, Debug, PartialEq, Eq, Structural)]
pub struct TimePoint {
    msecs: i64,
}

impl View for TimePoint {
    type V = int;

    closed spec fn view(&self) -> int {
        self.msecs as int
    }
}

impl TimePoint {
    /// The range invariant of a time point: non-negative, within the
    /// millisecond type's range.
    pub open spec fn wf(self) -> bool {
        0 <= self@ <= i64::MAX
    }

    /// Constructs a time point from a non-negative number of milliseconds.
    pub fn from_msecs(msecs: i64) -> (r: TimePoint)
        requires
            msecs >= 0,
        ensures
            r@ == msecs,
            r.wf(),
    {
        TimePoint { msecs }
    }

    /// The total number of milliseconds of this time point.
    pub fn msecs(&self) -> (r: i64)
        ensures
            r == self@,
    {
        self.msecs
    }

    /// The hours component (unbounded above).
    pub fn hours(&self) -> (r: i64)
        requires
            self.wf(),
        ensures
            r == hours_of(self@),
    {
        self.msecs / MSECS_PER_HOUR
    }

    /// The minutes component within the current hour (0 to 59).
    pub fn mins_comp(&self) -> (r: i64)
        requires
            self.wf(),
        ensures
            r == mins_comp_of(self@),
            0 <= r < 60,
    {
        (self.msecs % MSECS_PER_HOUR) / MSECS_PER_MIN
    }

    /// The seconds component within the current minute (0 to 59).
    pub fn secs_comp(&self) -> (r: i64)
        requires
            self.wf(),
        ensures
            r == secs_comp_of(self@),
            0 <= r < 60,
    {
        ((self.msecs % MSECS_PER_HOUR) % MSECS_PER_MIN) / MSECS_PER_SEC
    }

    /// The milliseconds component within the current second (0 to 999).
    pub fn msecs_comp(&self) -> (r: i64)
        requires
            self.wf(),
        ensures
            r == msecs_comp_of(self@),
            0 <= r < 1000,
    {
        ((self.msecs % MSECS_PER_HOUR) % MSECS_PER_MIN) % MSECS_PER_SEC
    }
}

/// An ordered interval of two time points.
///
/// Invariant: `start <= end` and both are non-negative; constructing a
/// span from an inverted pair is a caller contract violation, excluded by
/// the precondition of [`TimeSpan::new`].
#[derive(Clone, Copy, Debug, PartialEq, Eq, Structural)]
pub struct TimeSpan {
    start: TimePoint,
    end: TimePoint,
}

impl View for TimeSpan {
    type V = (int, int);

    closed spec fn view(&self) -> (int, int) {
        (self.start@, self.end@)
    }
}

impl TimeSpan {
    /// The ordering invariant of a span: non-negative start, start at or
    /// before end.
    pub open spec fn wf(self) -> bool {
        0 <= self@.0 <= self@.1 <= i64::MAX
    }

    /// Constructs a span from an ordered pair of time points.
    pub fn new(start: TimePoint, end: TimePoint) -> (r: TimeSpan)
        requires
            start.wf(),
            start@ <= end@,
        ensures
            r@ == (start@, end@),
            r.wf(),
    {
        TimeSpan { start, end }
    }

    /// The start of the span.
    pub fn start(&self) -> (r: TimePoint)
        ensures
            r@ == self@.0,
    {
        self.start
    }

    /// The end of the span.
    pub fn end(&self) -> (r: TimePoint)
        ensures
            r@ == self@.1,
    {
        self.end
    }
}

} // verus!
