//! Points in time and spans between them, in whole nanoseconds.

use vstd::prelude::*;

verus! {

/// Nanoseconds in a millisecond.
pub const NANOS_PER_MILLI: u64 = 1_000_000;

/// Nanoseconds in a second.
pub const NANOS_PER_SEC: u64 = 1_000_000_000;

/// A span of time.
#[derive(Clone, Copy, Debug, PartialEq, Eq, Structural)]
pub struct Duration {
    pub nanos: u64,
}

/// A point in time, counted from an origin that the caller fixes once.
#[derive(Clone, Copy, Debug, PartialEq, Eq, Structural)]
pub struct Instant {
    pub nanos: u64,
}

impl Duration {
    /// A span of whole milliseconds.
    pub fn from_millis(millis: u64) -> (duration: Self)
        requires
            millis * NANOS_PER_MILLI <= u64::MAX,
        ensures
            duration.nanos == millis * NANOS_PER_MILLI,
    {
        Duration { nanos: millis * NANOS_PER_MILLI }
    }
}

impl Instant {
    /// The span from `earlier` to this instant, or none at all if `earlier` is the later one.
    pub open spec fn since(self, earlier: Instant) -> Duration {
        Duration {
            nanos: if self.nanos >= earlier.nanos {
                (self.nanos - earlier.nanos) as u64
            } else {
                0
            },
        }
    }

    /// The span from `earlier` to this instant, or zero if `earlier` is the later one.
    pub fn duration_since(&self, earlier: Instant) -> (duration: Duration)
        ensures
            duration == self.since(earlier),
    {
        if self.nanos >= earlier.nanos {
            Duration { nanos: self.nanos - earlier.nanos }
        } else {
            Duration { nanos: 0 }
        }
    }
}

} // verus!
