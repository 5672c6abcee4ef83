//! The time, as nanoseconds since an origin.

use std::time::Instant;
use vstd::prelude::*;

verus! {

/// The nanoseconds in one second.
pub const NANOS_PER_SEC: u128 = 1_000_000_000;

/// The number of nanoseconds that no reading of a clock reaches: a duration holds its whole
/// seconds in 64 bits.
pub const READING_LIMIT: u128 = 18_446_744_073_709_551_616_000_000_000;

/// Declares `std::time::Instant`. Nothing is claimed of what such a value holds.
#[verifier::external_type_specification]
#[verifier::external_body]
pub struct ExInstant(std::time::Instant);

/// Calls `std::time::Instant::elapsed`, and converts the duration to nanoseconds with
/// `std::time::Duration::as_nanos`.
///
/// Claimed is only the range that every duration has: less than 2^64 seconds. How much time has
/// passed depends on when the call is made, so nothing else is said of the result.
#[verifier::external_body]
fn elapsed_nanos(origin: &Instant) -> (nanos: u128)
    ensures
        nanos < READING_LIMIT,
{
    origin.elapsed().as_nanos()
}

/// A clock that counts the nanoseconds since its origin and never goes back.
#[derive(Debug)]
pub struct Clock {
    origin: Instant,
    last: u128,
}

impl Clock {
    /// Every reading is in the range of a duration.
    #[verifier::type_invariant]
    spec fn reading_is_bounded(self) -> bool {
        self.last < READING_LIMIT
    }

    /// The instant from which the clock counts.
    pub closed spec fn origin(self) -> Instant {
        self.origin
    }

    /// The last reading of the clock, 0 before the first one.
    pub closed spec fn last(self) -> nat {
        self.last as nat
    }

    /// A clock that counts from `origin`.
    pub fn new(origin: Instant) -> (clock: Clock)
        ensures
            clock.origin() == origin,
            clock.last() == 0,
    {
        Clock { origin, last: 0 }
    }

    /// The nanoseconds that have passed since the origin, 0 if it lies in the future.
    ///
    /// A reading is no earlier than the one before it. How much time lies between the two is
    /// left open.
    pub fn now(&mut self) -> (nanos: u128)
        ensures
            nanos == final(self).last(),
            old(self).last() <= nanos < READING_LIMIT,
            final(self).origin() == old(self).origin(),
    {
        let nanos: u128 = elapsed_nanos(&self.origin);
        self.advance_to(nanos)
    }

    /// Sets the clock to the given number of nanoseconds since the origin, unless it has shown a
    /// later time, and gives the time that it then shows: the later of the two.
    pub fn advance_to(&mut self, nanos: u128) -> (shown: u128)
        requires
            nanos < READING_LIMIT,
        ensures
            shown == final(self).last(),
            shown >= nanos,
            shown >= old(self).last(),
            shown == nanos || shown == old(self).last(),
            shown < READING_LIMIT,
            final(self).origin() == old(self).origin(),
    {
        proof {
            use_type_invariant(&*self);
        }
        if nanos > self.last {
            self.last = nanos;
        }
        self.last
    }
}

} // verus!
