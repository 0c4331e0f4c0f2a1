use vstd::prelude::*;

verus! {

/// Nanoseconds in one second.
pub const NANOS_PER_SEC: u128 = 1_000_000_000;

/// A span of time, in whole nanoseconds.
#[derive(Debug, Clone, Copy, PartialEq, Eq, Structural)]
pub struct Duration {
    pub nanos: u128,
}

impl Duration {
    /// The span of `secs` whole seconds.
    pub fn from_secs(secs: u64) -> (d: Duration)
        ensures
            d.nanos == secs * NANOS_PER_SEC,
    {
        Duration { nanos: secs as u128 * NANOS_PER_SEC }
    }
}

/// A reading of a monotonic clock: nanoseconds since an origin that is fixed
/// for the life of the process.
#[derive(Debug, Clone, Copy, PartialEq, Eq, Structural)]
pub struct Instant {
    pub nanos: u128,
}

impl Instant {
    /// Nanoseconds from `earlier` to `self`, or zero when `earlier` is the later reading.
    pub open spec fn since(self, earlier: Instant) -> nat {
        if self.nanos >= earlier.nanos {
            (self.nanos - earlier.nanos) as nat
        } else {
            0
        }
    }

    /// The span from `earlier` to `self`; zero when `earlier` is the later reading.
    pub fn duration_since(self, earlier: Instant) -> (d: Duration)
        ensures
            d.nanos == self.since(earlier),
    {
        if self.nanos >= earlier.nanos {
            Duration { nanos: self.nanos - earlier.nanos }
        } else {
            Duration { nanos: 0 }
        }
    }
}

/// A span of seconds has a billion nanoseconds for each of them.
pub proof fn a_second_is_a_billion_nanoseconds(secs: nat)
    ensures
        secs * NANOS_PER_SEC == secs * 1_000_000_000,
{
}

/// Time adds up: between two readings lies what has to be added to the earlier to
/// get the later, and spans that follow one another make up the whole. No time
/// lies between a reading and one that is not later.
pub proof fn time_adds_up(first: Instant, second: Instant, third: Instant)
    requires
        first.nanos <= second.nanos <= third.nanos,
    ensures
        first.nanos + second.since(first) == second.nanos,
        third.since(first) == third.since(second) + second.since(first),
        first.since(second) == 0,
{
}

} // verus!
