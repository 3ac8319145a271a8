//! Points and spans of time, in whole nanoseconds.
use vstd::prelude::*;

verus! {

/// A span of time.
#[derive(Clone, Copy, Debug, PartialEq, Eq, Structural)]
pub struct Duration {
    pub nanos: u128,
}

/// A reading of a clock, as the time since a fixed origin.
#[derive(Clone, Copy, Debug, PartialEq, Eq, Structural)]
pub struct Instant {
    pub nanos: u128,
}

/// Nanoseconds in a millisecond.
pub const MILLI: u128 = 1_000_000;

/// Clock readings end here, far above what a process can run; time spans of up to
/// `u64::MAX` milliseconds can be added to every reading.
pub const LAST_READING: u128 = 0x8000_0000_0000_0000_0000_0000_0000_0000;

impl Duration {
    pub fn from_millis(millis: u64) -> (r: Duration)
        ensures
            r.nanos == millis * MILLI,
    {
        Duration { nanos: millis as u128 * MILLI }
    }

    /// The whole milliseconds of the span, in 64 bits.
    pub fn as_millis(&self) -> (r: u64)
        ensures
            r == (self.nanos / MILLI) as u64,
    {
        (self.nanos / MILLI) as u64
    }
}

impl Instant {
    /// A reading that time spans can be added to.
    pub open spec fn readable(self) -> bool {
        self.nanos <= LAST_READING
    }

    /// The point of time after a span.
    pub fn plus(&self, span: Duration) -> (r: Instant)
        requires
            self.nanos + span.nanos <= u128::MAX,
        ensures
            r.nanos == self.nanos + span.nanos,
    {
        Instant { nanos: self.nanos + span.nanos }
    }

    /// The time that passed since another point; none where that point is later.
    pub fn since(&self, earlier: Instant) -> (r: Duration)
        ensures
            r.nanos == (if self.nanos > earlier.nanos {
                self.nanos - earlier.nanos
            } else {
                0
            }),
    {
        if self.nanos > earlier.nanos {
            Duration { nanos: self.nanos - earlier.nanos }
        } else {
            Duration { nanos: 0 }
        }
    }
}

} // verus!
