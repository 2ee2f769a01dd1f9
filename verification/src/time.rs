//! Virtual time.
//!
//! The simulator never looks at a wall clock. An [`Instant`] is a point on the
//! simulated clock, counted in nanoseconds from the clock's origin, and a
//! [`Duration`] is a span between two such points.

use vstd::prelude::*;

verus! {

/// Nanoseconds in one millisecond.
pub const NANOS_PER_MILLI: u64 = 1_000_000;

/// Nanoseconds in one second.
pub const NANOS_PER_SEC: u64 = 1_000_000_000;

/// A span of virtual time, in whole nanoseconds.
#[derive(Clone, Copy, Debug, PartialEq, Eq, PartialOrd, Ord, Hash, Structural)]
pub struct Duration {
    pub nanos: u64,
}

/// A point in virtual time: nanoseconds since the origin of the simulated clock.
#[derive(Clone, Copy, Debug, PartialEq, Eq, PartialOrd, Ord, Hash, Structural)]
pub struct Instant {
    pub nanos: u64,
}

impl Duration {
    /// The empty span.
    pub fn zero() -> (d: Duration)
        ensures
            d.nanos == 0,
    {
        Duration { nanos: 0 }
    }

    pub fn from_nanos(nanos: u64) -> (d: Duration)
        ensures
            d.nanos == nanos,
    {
        Duration { nanos }
    }

    /// A span of `millis` milliseconds. The span must be representable, which
    /// it is for anything shorter than about 584 years.
    pub fn from_millis(millis: u64) -> (d: Duration)
        requires
            millis * NANOS_PER_MILLI <= u64::MAX,
        ensures
            d.nanos == millis * NANOS_PER_MILLI,
    {
        Duration { nanos: millis * NANOS_PER_MILLI }
    }

    /// A span of `secs` seconds. The span must be representable.
    pub fn from_secs(secs: u64) -> (d: Duration)
        requires
            secs * NANOS_PER_SEC <= u64::MAX,
        ensures
            d.nanos == secs * NANOS_PER_SEC,
    {
        Duration { nanos: secs * NANOS_PER_SEC }
    }

    pub fn as_nanos(&self) -> (n: u64)
        ensures
            n == self.nanos,
    {
        self.nanos
    }

    /// The number of whole milliseconds in the span; the rest is dropped.
    pub fn as_millis(&self) -> (n: u64)
        ensures
            n == self.nanos / NANOS_PER_MILLI,
    {
        self.nanos / NANOS_PER_MILLI
    }
}

impl Instant {
    /// The origin of the simulated clock.
    pub fn origin() -> (t: Instant)
        ensures
            t.nanos == 0,
    {
        Instant { nanos: 0 }
    }

    pub fn from_nanos(nanos: u64) -> (t: Instant)
        ensures
            t.nanos == nanos,
    {
        Instant { nanos }
    }

    pub fn as_nanos(&self) -> (n: u64)
        ensures
            n == self.nanos,
    {
        self.nanos
    }

    /// Whether this instant is `other` or later.
    pub fn has_reached(&self, other: Instant) -> (r: bool)
        ensures
            r == (self.nanos >= other.nanos),
    {
        self.nanos >= other.nanos
    }

    /// The time elapsed from `earlier` to this instant, or nothing when
    /// `earlier` is in fact later.
    pub fn duration_since(&self, earlier: Instant) -> (d: Duration)
        ensures
            d.nanos == if self.nanos >= earlier.nanos {
                self.nanos - earlier.nanos
            } else {
                0
            },
    {
        if self.nanos >= earlier.nanos {
            Duration { nanos: self.nanos - earlier.nanos }
        } else {
            Duration { nanos: 0 }
        }
    }

    /// The instant `span` after this one, or the last instant of the clock
    /// when the sum lies beyond it.
    pub fn saturating_add(&self, span: Duration) -> (t: Instant)
        ensures
            t.nanos == spec_saturating_sum(self.nanos, span.nanos),
    {
        if span.nanos <= u64::MAX - self.nanos {
            Instant { nanos: self.nanos + span.nanos }
        } else {
            Instant { nanos: u64::MAX }
        }
    }
}

/// `a + b`, held at the largest 64-bit value.
pub open spec fn spec_saturating_sum(a: u64, b: u64) -> u64 {
    if a + b <= u64::MAX {
        (a + b) as u64
    } else {
        u64::MAX
    }
}

} // verus!
