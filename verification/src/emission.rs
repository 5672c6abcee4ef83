//! Paces a batch of entries up to a deadline and counts what became of them.

use crate::pacer::{request_at, Pacer};
use crate::schedule::{
    interval_of, lemma_spaced_push, lemma_spaced_times_keep_the_rate,
    lemma_spaced_times_round_the_rate, spaced, within, Packet, Request, Schedule,
};
use vstd::prelude::*;

verus! {

/// The outcome of sending a packet for each entry of a batch.
#[derive(Clone, Copy, Debug, PartialEq, Eq, Structural)]
#[non_exhaustive]
pub struct SendStats {
    /// Packets successfully handed to the socket.
    pub sent: usize,
    /// Entries whose send failed with an I/O error.
    pub failed: usize,
    /// Entries never attempted because the deadline expired first.
    pub remaining: usize,
}

impl Default for SendStats {
    fn default() -> (stats: SendStats)
        ensures
            stats.sent == 0,
            stats.failed == 0,
            stats.remaining == 0,
    {
        SendStats { sent: 0, failed: 0, remaining: 0 }
    }
}

/// One turn of a batch, seen from outside: when the slot was asked for and, if it was given, how
/// the packet fared.
pub struct Turn {
    /// The time at which the slot was asked for.
    pub now: nat,
    /// The time at which the packet left.
    pub left: nat,
    /// The time that was reported with the outcome of the send.
    pub reported: nat,
    /// Whether the socket took the packet.
    pub accepted: bool,
}

/// The state of a batch.
pub struct Batch {
    /// The schedule of the sends.
    pub schedule: Schedule,
    /// The time before which every slot has to lie. A packet that is late may leave after it.
    pub deadline: nat,
    /// The packets that the socket took.
    pub sent: nat,
    /// The packets that the socket refused.
    pub failed: nat,
    /// The entries that have had no slot yet.
    pub remaining: nat,
}

impl Batch {
    /// A batch of `entries` entries at `rate` packets per second, begun at `now`.
    pub open spec fn starting_at(rate: nat, entries: nat, now: nat, deadline: nat) -> Batch {
        Batch {
            schedule: Schedule::starting_at(rate, now),
            deadline,
            sent: 0,
            failed: 0,
            remaining: entries,
        }
    }

    /// Whether an entry has been given a slot and its send has no outcome yet.
    pub open spec fn pending(self) -> bool {
        self.schedule.pending
    }

    /// The number of entries in the batch.
    pub open spec fn entries(self) -> nat {
        self.sent + self.failed + self.remaining + if self.pending() {
            1nat
        } else {
            0nat
        }
    }

    /// The request for the next slot.
    pub open spec fn request(self, now: nat) -> Request {
        Request { now, deadline: self.deadline }
    }

    /// Whether an entry is given a slot when one is asked for at `now`.
    pub open spec fn grants(self, now: nat) -> bool {
        self.remaining > 0 && self.schedule.admits(self.request(now))
    }

    /// The batch once a slot has been asked for at `now`.
    pub open spec fn next(self, now: nat) -> Batch {
        if self.grants(now) {
            Batch {
                schedule: self.schedule.answer(self.request(now)),
                remaining: (self.remaining - 1) as nat,
                ..self
            }
        } else {
            self
        }
    }

    /// The batch once the pending send, which left at the time `at`, has its outcome.
    pub open spec fn complete(self, accepted: bool, at: nat) -> Batch {
        if accepted {
            Batch { schedule: self.schedule.departed(at), sent: self.sent + 1, ..self }
        } else {
            Batch { schedule: self.schedule.departed(at), failed: self.failed + 1, ..self }
        }
    }

    /// The batch after a whole turn.
    pub open spec fn turn(self, turn: Turn) -> Batch {
        if self.grants(turn.now) {
            self.next(turn.now).complete(turn.accepted, turn.reported)
        } else {
            self
        }
    }

    /// The batch after a series of turns.
    pub open spec fn turns(self, turns: Seq<Turn>) -> Batch
        decreases turns.len(),
    {
        if turns.len() == 0 {
            self
        } else {
            self.turns(turns.drop_last()).turn(turns.last())
        }
    }

    /// Whether each packet that is given a slot leaves no earlier than that slot and no later than
    /// is reported.
    pub open spec fn on_time(self, turns: Seq<Turn>) -> bool
        decreases turns.len(),
    {
        turns.len() > 0 ==> {
            let before = self.turns(turns.drop_last());
            let last = turns.last();
            &&& self.on_time(turns.drop_last())
            &&& before.grants(last.now) ==> before.schedule.slot(last.now) <= last.left
                <= last.reported
        }
    }

    /// The number of turns in which an entry is given a slot and its packet fares as `accepted`
    /// says.
    pub open spec fn granted(self, turns: Seq<Turn>, accepted: bool) -> nat
        decreases turns.len(),
    {
        if turns.len() == 0 {
            0
        } else {
            let earlier = self.granted(turns.drop_last(), accepted);
            if self.turns(turns.drop_last()).grants(turns.last().now) && turns.last().accepted
                == accepted {
                earlier + 1
            } else {
                earlier
            }
        }
    }

    /// The times at which the packets leave, in order.
    pub open spec fn departures(self, turns: Seq<Turn>) -> Seq<nat>
        decreases turns.len(),
    {
        if turns.len() == 0 {
            Seq::empty()
        } else if self.turns(turns.drop_last()).grants(turns.last().now) {
            self.departures(turns.drop_last()).push(turns.last().left)
        } else {
            self.departures(turns.drop_last())
        }
    }
}

/// A batch of entries, each to be given a slot of its own before a deadline.
///
/// The caller asks for a slot with `next`, waits for it, sends the packet, and reports with
/// `complete` when it left and whether the socket took it, until `next` gives `None`.
#[derive(Debug)]
pub struct Emission {
    pacer: Pacer,
    deadline: u128,
    stats: SendStats,
}

impl View for Emission {
    type V = Batch;

    closed spec fn view(&self) -> Batch {
        Batch {
            schedule: self.pacer@,
            deadline: self.deadline as nat,
            sent: self.stats.sent as nat,
            failed: self.stats.failed as nat,
            remaining: self.stats.remaining as nat,
        }
    }
}

impl Emission {
    /// The entries of the batch can be counted, each slot before the deadline can be consumed, and
    /// a pending entry has such a slot.
    pub closed spec fn wf(self) -> bool {
        &&& self@.entries() <= usize::MAX
        &&& self.deadline + self.pacer@.interval <= u128::MAX
        &&& self.pacer@.pending ==> self.pacer@.next_at < self.deadline
    }

    /// A batch of `entries` entries at `rate` packets per second, begun at `now`.
    pub fn starting_at(rate: u32, entries: usize, now: u128, deadline: u128) -> (emission: Emission)
        requires
            rate != 0,
            deadline + interval_of(rate as nat) <= u128::MAX,
        ensures
            emission.wf(),
            emission@ == Batch::starting_at(
                rate as nat,
                entries as nat,
                now as nat,
                deadline as nat,
            ),
    {
        Emission {
            pacer: Pacer::starting_at(rate, now),
            deadline,
            stats: SendStats { sent: 0, failed: 0, remaining: entries },
        }
    }

    /// Asks at the time `now` for the slot of the next entry.
    ///
    /// Gives the time to wait before that entry is sent, or `None` if no entry is left or the
    /// deadline comes first.
    pub fn next(&mut self, now: u128) -> (wait: Option<u128>)
        requires
            old(self).wf(),
            !old(self)@.pending(),
        ensures
            final(self).wf(),
            wait is Some <==> old(self)@.grants(now as nat),
            wait matches Some(w) ==> now + w == old(self)@.schedule.slot(now as nat),
            final(self)@ == old(self)@.next(now as nat),
            final(self)@.entries() == old(self)@.entries(),
    {
        if self.stats.remaining == 0 {
            return None;
        }
        assert(self@.request(now as nat) == request_at(now as nat, self.deadline));
        let wait = self.pacer.pace_at(now, self.deadline);
        if wait.is_some() {
            self.stats.remaining = self.stats.remaining - 1;
        }
        wait
    }

    /// Counts the pending entry, whose packet left at the time `at`: as sent if the packet was
    /// accepted, as failed otherwise.
    pub fn complete(&mut self, accepted: bool, at: u128)
        requires
            old(self).wf(),
            old(self)@.pending(),
            at + old(self)@.schedule.interval <= u128::MAX,
        ensures
            final(self).wf(),
            final(self)@ == old(self)@.complete(accepted, at as nat),
            final(self)@.entries() == old(self)@.entries(),
    {
        self.pacer.depart_at(at);
        if accepted {
            self.stats.sent = self.stats.sent + 1;
        } else {
            self.stats.failed = self.stats.failed + 1;
        }
    }

    /// What became of the entries so far.
    pub fn stats(&self) -> (stats: SendStats)
        ensures
            stats.sent == self@.sent,
            stats.failed == self@.failed,
            stats.remaining == self@.remaining,
    {
        self.stats
    }
}

/// What holds of a new batch after any series of turns.
proof fn lemma_turns(rate: nat, entries: nat, now: nat, deadline: nat, turns: Seq<Turn>)
    ensures
        ({
            let start = Batch::starting_at(rate, entries, now, deadline);
            let batch = start.turns(turns);
            let left = start.departures(turns);
            let attempted = batch.sent + batch.failed;
            &&& !batch.pending()
            &&& batch.entries() == entries
            &&& batch.deadline == deadline
            &&& batch.schedule.interval == interval_of(rate)
            &&& batch.schedule.next_at >= now + attempted * interval_of(rate)
            &&& attempted > 0 ==> now + (attempted - 1) * interval_of(rate) < deadline
            &&& left.len() == attempted
            &&& start.on_time(turns) ==> {
                &&& spaced(left, interval_of(rate))
                &&& left.len() > 0 ==> batch.schedule.next_at >= left.last() + interval_of(rate)
            }
        }),
    decreases turns.len(),
{
    let interval = interval_of(rate);
    if turns.len() > 0 {
        let front = turns.drop_last();
        lemma_turns(rate, entries, now, deadline, front);
        let start = Batch::starting_at(rate, entries, now, deadline);
        let before = start.turns(front);
        let attempted = before.sent + before.failed;
        assert((attempted + 1) * interval == attempted * interval + interval) by (nonlinear_arith);
        if before.grants(turns.last().now) && start.on_time(turns) {
            lemma_spaced_push(start.departures(front), interval, turns.last().left);
        }
    } else {
        assert(0 * interval == 0) by (nonlinear_arith);
    }
}

/// A batch is paced: its packets leave at least an interval apart, however late they are.
pub proof fn law_batch_departures_are_spaced(
    rate: nat,
    entries: nat,
    now: nat,
    deadline: nat,
    turns: Seq<Turn>,
)
    requires
        Batch::starting_at(rate, entries, now, deadline).on_time(turns),
    ensures
        spaced(
            Batch::starting_at(rate, entries, now, deadline).departures(turns),
            interval_of(rate),
        ),
{
    lemma_turns(rate, entries, now, deadline, turns);
}

/// A batch never exceeds its rate: no more than `rate * seconds` of its packets leave in any
/// window of that many seconds. This is for the rates that divide a second into whole
/// nanoseconds; any other rate has its interval rounded down.
pub proof fn law_batch_never_exceeds_the_rate(
    rate: nat,
    entries: nat,
    now: nat,
    deadline: nat,
    turns: Seq<Turn>,
    from: nat,
    seconds: nat,
)
    requires
        rate > 0,
        1_000_000_000nat % rate == 0,
        Batch::starting_at(rate, entries, now, deadline).on_time(turns),
    ensures
        within(
            Batch::starting_at(rate, entries, now, deadline).departures(turns),
            from,
            1_000_000_000 * seconds,
        ).len() <= rate * seconds,
{
    lemma_turns(rate, entries, now, deadline, turns);
    let left = Batch::starting_at(rate, entries, now, deadline).departures(turns);
    lemma_spaced_times_keep_the_rate(left, rate, from, seconds);
}

/// Each entry is counted once: after any series of turns it was sent, or failed, or remains.
pub proof fn law_every_entry_is_counted_once(
    rate: nat,
    entries: nat,
    now: nat,
    deadline: nat,
    turns: Seq<Turn>,
)
    ensures
        ({
            let batch = Batch::starting_at(rate, entries, now, deadline).turns(turns);
            batch.sent + batch.failed + batch.remaining == entries && !batch.pending()
        }),
{
    lemma_turns(rate, entries, now, deadline, turns);
}

/// The deadline bounds the paced sends: n attempts span n - 1 full intervals, which end before
/// the deadline.
pub proof fn law_deadline_bounds_attempts(
    rate: nat,
    entries: nat,
    now: nat,
    deadline: nat,
    turns: Seq<Turn>,
)
    ensures
        ({
            let batch = Batch::starting_at(rate, entries, now, deadline).turns(turns);
            batch.sent + batch.failed > 0 ==> now + (batch.sent + batch.failed - 1) * interval_of(
                rate,
            ) < deadline
        }),
{
    lemma_turns(rate, entries, now, deadline, turns);
}

/// Once the deadline has expired nothing is sent: a batch begun at or after its deadline keeps
/// every entry.
pub proof fn law_expired_deadline_sends_nothing(
    rate: nat,
    entries: nat,
    now: nat,
    deadline: nat,
    turns: Seq<Turn>,
)
    requires
        now >= deadline,
    ensures
        Batch::starting_at(rate, entries, now, deadline).turns(turns) == Batch::starting_at(
            rate,
            entries,
            now,
            deadline,
        ),
    decreases turns.len(),
{
    if turns.len() > 0 {
        law_expired_deadline_sends_nothing(rate, entries, now, deadline, turns.drop_last());
    }
}

/// Only the deadline leaves entries behind, and for good: a batch that is given no slot although
/// entries remain is given none at any later time.
pub proof fn law_cut_short_for_good(batch: Batch, now: nat, later: nat)
    requires
        batch.remaining > 0,
        !batch.grants(now),
        now <= later,
    ensures
        now >= batch.deadline || batch.schedule.next_at >= batch.deadline,
        batch.next(now) == batch,
        !batch.grants(later),
{
}

/// What is reported is what happened: after any series of turns, `sent` has grown by the number of
/// packets that were given a slot and accepted, and `failed` by the number of those that were given
/// a slot and not accepted. What remains has shrunk by both.
pub proof fn law_outcomes_are_counted_as_they_are(batch: Batch, turns: Seq<Turn>)
    ensures
        batch.turns(turns).sent == batch.sent + batch.granted(turns, true),
        batch.turns(turns).failed == batch.failed + batch.granted(turns, false),
        batch.turns(turns).remaining == batch.remaining - batch.granted(turns, true)
            - batch.granted(turns, false),
    decreases turns.len(),
{
    if turns.len() > 0 {
        law_outcomes_are_counted_as_they_are(batch, turns.drop_last());
    }
}

/// If every packet is accepted nothing fails, and if none is accepted nothing is sent.
pub proof fn law_uniform_outcomes_are_reported_alike(
    batch: Batch,
    turns: Seq<Turn>,
    accepted: bool,
)
    requires
        forall|k: int| 0 <= k < turns.len() ==> (#[trigger] turns[k]).accepted == accepted,
    ensures
        accepted ==> batch.turns(turns).failed == batch.failed && batch.turns(turns).sent
            + batch.turns(turns).remaining == batch.sent + batch.remaining,
        !accepted ==> batch.turns(turns).sent == batch.sent && batch.turns(turns).failed
            + batch.turns(turns).remaining == batch.failed + batch.remaining,
    decreases turns.len(),
{
    if turns.len() > 0 {
        let front = turns.drop_last();
        assert forall|k: int| 0 <= k < front.len() implies (#[trigger] front[k]).accepted
            == accepted by {
            assert(front[k] == turns[k]);
        }
        assert(turns[turns.len() - 1].accepted == accepted);
        law_uniform_outcomes_are_reported_alike(batch, front, accepted);
    }
}

/// The outcome of a send moves one entry into one count, and has no bearing on the pacing: the
/// batch is free again an interval after the slot or the departure, whichever is later.
pub proof fn law_outcome_is_counted_once_and_paces_alike(batch: Batch, at: nat)
    ensures
        batch.complete(true, at).sent == batch.sent + 1,
        batch.complete(true, at).failed == batch.failed,
        batch.complete(false, at).sent == batch.sent,
        batch.complete(false, at).failed == batch.failed + 1,
        batch.complete(true, at).schedule == batch.complete(false, at).schedule,
        forall|accepted: bool|
            {
                let after = #[trigger] batch.complete(accepted, at);
                let later = if batch.schedule.next_at > at {
                    batch.schedule.next_at
                } else {
                    at
                };
                &&& after.remaining == batch.remaining
                &&& after.deadline == batch.deadline
                &&& after.schedule.interval == batch.schedule.interval
                &&& after.schedule.next_at == later + batch.schedule.interval
                &&& !after.pending()
            },
{
}

/// An entry gets a slot exactly when one remains and the earliest slot lies before the deadline.
/// It then no longer remains, and nothing else is counted.
pub proof fn law_slot_is_owed_while_entries_and_time_remain(batch: Batch, now: nat)
    ensures
        batch.grants(now) <==> batch.remaining > 0 && now < batch.deadline
            && batch.schedule.next_at < batch.deadline,
        batch.next(now).sent == batch.sent,
        batch.next(now).failed == batch.failed,
        batch.next(now).deadline == batch.deadline,
        batch.next(now).schedule.interval == batch.schedule.interval,
        !batch.grants(now) ==> batch.next(now) == batch,
        batch.grants(now) ==> {
            &&& batch.next(now).remaining == batch.remaining - 1
            &&& batch.next(now).pending()
            &&& batch.next(now).schedule.next_at >= now
            &&& batch.next(now).schedule.next_at >= batch.schedule.next_at
            &&& batch.next(now).schedule.next_at == now || batch.next(now).schedule.next_at
                == batch.schedule.next_at
        },
{
}

/// A batch is paced as a pacer is: while entries remain, a turn of the batch is a turn of its
/// schedule.
pub proof fn law_batch_is_paced_as_a_pacer(batch: Batch, turn: Turn)
    ensures
        batch.remaining > 0 ==> batch.turn(turn).schedule == batch.schedule.turn(
            Packet {
                request: Request { now: turn.now, deadline: batch.deadline },
                left: turn.left,
                reported: turn.reported,
            },
        ),
        batch.remaining == 0 ==> batch.turn(turn) == batch,
{
}

/// What holds of a ready sender's batch, with the state of its schedule.
proof fn lemma_ready_batch(rate: nat, entries: nat, now: nat, deadline: nat, turns: Seq<Turn>)
    requires
        forall|k: int|
            #![trigger turns[k]]
            0 <= k < turns.len() && k < entries && now + k * interval_of(rate) < deadline ==> {
                &&& turns[k].now <= now + k * interval_of(rate)
                &&& turns[k].left == turns[k].reported == now + k * interval_of(rate)
            },
    ensures
        ({
            let start = Batch::starting_at(rate, entries, now, deadline);
            let batch = start.turns(turns);
            let left = start.departures(turns);
            let attempted = left.len();
            &&& batch.sent + batch.failed == attempted
            &&& batch.remaining == entries - attempted
            &&& batch.deadline == deadline
            &&& batch.schedule.interval == interval_of(rate)
            &&& batch.schedule.next_at == now + attempted * interval_of(rate)
            &&& attempted <= turns.len()
            &&& forall|k: int|
                0 <= k < attempted ==> #[trigger] left[k] == now + k * interval_of(rate) && left[k]
                    < deadline
            &&& attempted < turns.len() && attempted < entries ==> now + attempted * interval_of(
                rate,
            ) >= deadline
        }),
    decreases turns.len(),
{
    let interval = interval_of(rate);
    if turns.len() > 0 {
        let front = turns.drop_last();
        assert forall|k: int|
            #![trigger front[k]]
            0 <= k < front.len() && k < entries && now + k * interval < deadline implies {
            &&& front[k].now <= now + k * interval
            &&& front[k].left == front[k].reported == now + k * interval
        } by {
            assert(front[k] == turns[k]);
        }
        lemma_ready_batch(rate, entries, now, deadline, front);
        let attempted = Batch::starting_at(rate, entries, now, deadline).departures(front).len();
        assert((attempted + 1) * interval == attempted * interval + interval) by (nonlinear_arith);
        assert(turns[turns.len() - 1] == turns.last());
    } else {
        assert(0 * interval == 0) by (nonlinear_arith);
    }
}

/// A sender that is always ready gets every slot there is: when it asks for each slot by the time
/// the slot comes, and each packet leaves in its slot, accepted or not, then the k-th packet leaves
/// exactly k intervals after the start, and the number of attempts is the smallest of the number
/// of entries, of turns, and of those slots that lie before the deadline.
pub proof fn law_ready_batch_uses_every_slot(
    rate: nat,
    entries: nat,
    now: nat,
    deadline: nat,
    turns: Seq<Turn>,
)
    requires
        forall|k: int|
            #![trigger turns[k]]
            0 <= k < turns.len() && k < entries && now + k * interval_of(rate) < deadline ==> {
                &&& turns[k].now <= now + k * interval_of(rate)
                &&& turns[k].left == turns[k].reported == now + k * interval_of(rate)
            },
    ensures
        ({
            let start = Batch::starting_at(rate, entries, now, deadline);
            let left = start.departures(turns);
            let batch = start.turns(turns);
            let attempted = left.len();
            &&& forall|k: int|
                0 <= k < attempted ==> #[trigger] left[k] == now + k * interval_of(rate) && left[k]
                    < deadline
            &&& attempted <= entries
            &&& attempted <= turns.len()
            &&& attempted == entries || attempted == turns.len() || now + attempted * interval_of(
                rate,
            ) >= deadline
            &&& batch.sent + batch.failed == attempted
            &&& batch.remaining == entries - attempted
        }),
{
    lemma_ready_batch(rate, entries, now, deadline, turns);
}

/// Nothing but the deadline leaves an entry behind: after any series of turns in which one was
/// refused although entries remained, the time of that turn or the next slot had reached the
/// deadline.
pub proof fn law_only_the_deadline_leaves_entries(batch: Batch, turns: Seq<Turn>, now: nat)
    requires
        batch.turns(turns).remaining > 0,
        !batch.turns(turns).grants(now),
    ensures
        now >= batch.deadline || batch.turns(turns).schedule.next_at >= batch.deadline,
{
    lemma_deadline_is_kept(batch, turns);
}

/// The deadline stays as it is.
proof fn lemma_deadline_is_kept(batch: Batch, turns: Seq<Turn>)
    ensures
        batch.turns(turns).deadline == batch.deadline,
    decreases turns.len(),
{
    if turns.len() > 0 {
        lemma_deadline_is_kept(batch, turns.drop_last());
    }
}

/// A batch keeps every rate up to the rounding of the interval: the n packets that leave in any
/// window of some seconds, with a nanosecond more in each of the n - 1 intervals between them, are
/// no more than the rate allows.
pub proof fn law_batch_keeps_every_rate_up_to_rounding(
    rate: nat,
    entries: nat,
    now: nat,
    deadline: nat,
    turns: Seq<Turn>,
    from: nat,
    seconds: nat,
)
    requires
        rate > 0,
        Batch::starting_at(rate, entries, now, deadline).on_time(turns),
        within(
            Batch::starting_at(rate, entries, now, deadline).departures(turns),
            from,
            1_000_000_000 * seconds,
        ).len() > 0,
    ensures
        ({
            let gaps = within(
                Batch::starting_at(rate, entries, now, deadline).departures(turns),
                from,
                1_000_000_000 * seconds,
            ).len() - 1;
            gaps * 1_000_000_000 < rate * (1_000_000_000 * seconds + gaps)
        }),
{
    lemma_turns(rate, entries, now, deadline, turns);
    let left = Batch::starting_at(rate, entries, now, deadline).departures(turns);
    lemma_spaced_times_round_the_rate(left, rate, from, seconds);
}

} // verus!
