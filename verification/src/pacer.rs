//! Decides when the next packet may leave.

use crate::clock::{Clock, NANOS_PER_SEC, READING_LIMIT};
use crate::schedule::{Request, Schedule};
use vstd::prelude::*;

verus! {

/// Paces packet emission at a fixed interval of `1 / rate`.
///
/// The first packet is admitted immediately. No budget accrues while the sender stalls, nor while
/// a packet is late, so packets leave at least an interval apart: the rate is never exceeded over
/// any window and there are no bursts. The interval is held in whole nanoseconds, rounded down, so
/// a rate that does not divide a second is exceeded by that rounding.
///
/// The sender asks for a slot with `pace`, waits as long as it is told, and reports with `depart`
/// that the packet has left, before it asks for the next slot.
///
/// All times are nanoseconds since the origin of one clock.
#[derive(Debug)]
pub struct Pacer {
    interval: u128,
    next_at: u128,
    pending: bool,
}

impl View for Pacer {
    type V = Schedule;

    closed spec fn view(&self) -> Schedule {
        Schedule {
            interval: self.interval as nat,
            next_at: self.next_at as nat,
            pending: self.pending,
        }
    }
}

/// The request for a slot before `deadline` that is made at `now`.
pub open spec fn request_at(now: nat, deadline: u128) -> Request {
    Request { now, deadline: deadline as nat }
}

impl Pacer {
    /// An interval is one second at most: no rate is below one packet per second.
    #[verifier::type_invariant]
    spec fn interval_is_bounded(self) -> bool {
        self.interval <= NANOS_PER_SEC
    }

    /// A pacer for `rate` packets per second whose first slot is free from `now` on.
    pub fn starting_at(rate: u32, now: u128) -> (pacer: Pacer)
        requires
            rate != 0,
        ensures
            pacer@ == Schedule::starting_at(rate as nat, now as nat),
    {
        assert(NANOS_PER_SEC / rate as u128 <= NANOS_PER_SEC) by (nonlinear_arith)
            requires
                rate != 0,
        ;
        // Rates above 1GHz truncate to a zero interval, i.e. effectively unpaced.
        Pacer { interval: NANOS_PER_SEC / rate as u128, next_at: now, pending: false }
    }

    /// A pacer for `rate` packets per second whose first slot is free from now on.
    pub fn new(rate: u32, clock: &mut Clock) -> (pacer: Pacer)
        requires
            rate != 0,
        ensures
            pacer@ == Schedule::starting_at(rate as nat, final(clock).last()),
            old(clock).last() <= final(clock).last() < READING_LIMIT,
            final(clock).origin() == old(clock).origin(),
    {
        let now: u128 = clock.now();
        Pacer::starting_at(rate, now)
    }

    /// Asks for the next send slot at the time `now`.
    ///
    /// Gives the time to wait before the slot, which is then consumed, or `None` if the slot
    /// cannot be consumed before `deadline`.
    pub fn pace_at(&mut self, now: u128, deadline: u128) -> (wait: Option<u128>)
        requires
            !old(self)@.pending,
        ensures
            wait is Some <==> old(self)@.admits(request_at(now as nat, deadline)),
            wait matches Some(w) ==> now + w == old(self)@.slot(now as nat),
            final(self)@ == old(self)@.answer(request_at(now as nat, deadline)),
            wait is None ==> *final(self) == *old(self),
    {
        proof {
            use_type_invariant(&*self);
        }
        if now >= deadline || self.next_at >= deadline {
            return None;
        }
        let wait: u128 = if self.next_at > now {
            self.next_at - now
        } else {
            0
        };
        self.next_at = now + wait;
        self.pending = true;
        Some(wait)
    }

    /// Reports that the pending packet has left at the time `at`.
    pub fn depart_at(&mut self, at: u128)
        requires
            old(self)@.pending,
            old(self)@.slot(at as nat) + old(self)@.interval <= u128::MAX,
        ensures
            final(self)@ == old(self)@.departed(at as nat),
    {
        proof {
            use_type_invariant(&*self);
        }
        // Schedule the next slot relative to the later of the consumed slot and the send time,
        // so time spent stalled does not accumulate into a catch-up burst.
        let sent_at: u128 = if self.next_at > at {
            self.next_at
        } else {
            at
        };
        self.next_at = sent_at + self.interval;
        self.pending = false;
    }

    /// Asks for the next send slot at the time that `clock` shows.
    ///
    /// Gives the time to wait before the slot, which is then consumed, or `None` if the slot
    /// cannot be consumed before `deadline`. Nothing is waited for here.
    pub fn pace(&mut self, clock: &mut Clock, deadline: u128) -> (wait: Option<u128>)
        requires
            !old(self)@.pending,
        ensures
            wait is Some <==> old(self)@.admits(request_at(final(clock).last(), deadline)),
            wait matches Some(w) ==> final(clock).last() + w == old(self)@.slot(
                final(clock).last(),
            ),
            final(self)@ == old(self)@.answer(request_at(final(clock).last(), deadline)),
            wait is None ==> *final(self) == *old(self),
            old(clock).last() <= final(clock).last() < READING_LIMIT,
            final(clock).origin() == old(clock).origin(),
    {
        let now: u128 = clock.now();
        self.pace_at(now, deadline)
    }

    /// Reports that the pending packet has left by the time that `clock` shows.
    pub fn depart(&mut self, clock: &mut Clock)
        requires
            old(self)@.pending,
            old(self)@.next_at + old(self)@.interval <= u128::MAX,
        ensures
            final(self)@ == old(self)@.departed(final(clock).last()),
            old(clock).last() <= final(clock).last() < READING_LIMIT,
            final(clock).origin() == old(clock).origin(),
    {
        proof {
            use_type_invariant(&*self);
        }
        let at: u128 = clock.now();
        self.depart_at(at);
    }
}

/// A slot is given exactly when it is asked for before the deadline and is free before it: a
/// deadline that is later by one nanosecond than both is enough, and one at either is not.
pub proof fn law_slot_is_given_before_the_deadline(schedule: Schedule, now: nat, deadline: u128)
    ensures
        schedule.admits(request_at(now, deadline)) <==> now < deadline && schedule.next_at
            < deadline,
        schedule.admits(request_at(now, deadline)) ==> schedule.answer(
            request_at(now, deadline),
        ).next_at == schedule.slot(now) && schedule.slot(now) < deadline,
        !schedule.admits(request_at(now, deadline)) ==> schedule.answer(request_at(now, deadline))
            == schedule,
{
}

} // verus!
