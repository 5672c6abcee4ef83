//! The mathematical model of pacing: a schedule of send slots, and its laws.

use vstd::prelude::*;

verus! {

/// The state of a pacer. All times are nanoseconds since one origin.
pub struct Schedule {
    /// The least distance between two sends.
    pub interval: nat,
    /// The earliest time that the next slot can have; while a packet is pending, its slot.
    pub next_at: nat,
    /// Whether a slot has been given to a packet that has not left yet.
    pub pending: bool,
}

/// A request for a send slot.
pub struct Request {
    /// The time at which the slot is asked for.
    pub now: nat,
    /// The time before which the slot has to lie.
    pub deadline: nat,
}

/// A packet to send: the request for its slot and, if the slot is given, its departure.
pub struct Packet {
    /// The request for the packet's slot.
    pub request: Request,
    /// The time at which the packet leaves.
    pub left: nat,
    /// The time that is reported once the packet has left.
    pub reported: nat,
}

/// The interval that belongs to a rate in packets per second: `1 / rate` seconds, in whole
/// nanoseconds, rounded down.
pub open spec fn interval_of(rate: nat) -> nat
    recommends
        rate > 0,
{
    1_000_000_000nat / rate
}

/// The members of `times` that lie in the window of `width` nanoseconds that begins at `from`.
pub open spec fn within(times: Seq<nat>, from: nat, width: nat) -> Seq<nat> {
    times.filter(|t: nat| from <= t < from + width)
}

/// Whether each member of `times` is at least `interval` later than the one before it.
pub open spec fn spaced(times: Seq<nat>, interval: nat) -> bool {
    forall|i: int, j: int|
        0 <= i <= j < times.len() ==> #[trigger] times[j] >= #[trigger] times[i] + (j - i) * interval
}

impl Schedule {
    /// The schedule of a pacer made for `rate` packets per second at the time `now`.
    pub open spec fn starting_at(rate: nat, now: nat) -> Schedule {
        Schedule { interval: interval_of(rate), next_at: now, pending: false }
    }

    /// Whether a request is granted: both the request and the next slot come before the deadline.
    pub open spec fn admits(self, request: Request) -> bool {
        request.now < request.deadline && self.next_at < request.deadline
    }

    /// The slot of a request made at `now`, if it is granted.
    pub open spec fn slot(self, now: nat) -> nat {
        if self.next_at > now {
            self.next_at
        } else {
            now
        }
    }

    /// The schedule once a request has been answered. A refusal changes nothing.
    pub open spec fn answer(self, request: Request) -> Schedule {
        if self.admits(request) {
            Schedule { next_at: self.slot(request.now), pending: true, ..self }
        } else {
            self
        }
    }

    /// The schedule once the pending packet has left at the time `at`. The next slot is one
    /// interval after the later of the consumed slot and that time.
    pub open spec fn departed(self, at: nat) -> Schedule {
        Schedule { next_at: self.slot(at) + self.interval, pending: false, ..self }
    }

    /// The schedule once a packet has had its turn: it is refused, or it leaves.
    pub open spec fn turn(self, send: Packet) -> Schedule {
        if self.admits(send.request) {
            self.answer(send.request).departed(send.reported)
        } else {
            self
        }
    }

    /// The schedule once a series of packets has had its turns.
    pub open spec fn turns(self, sends: Seq<Packet>) -> Schedule
        decreases sends.len(),
    {
        if sends.len() == 0 {
            self
        } else {
            self.turns(sends.drop_last()).turn(sends.last())
        }
    }

    /// Whether a packet, if it is given a slot, leaves no earlier than that slot and no later than
    /// is reported.
    pub open spec fn punctual(self, send: Packet) -> bool {
        self.admits(send.request) ==> self.slot(send.request.now) <= send.left <= send.reported
    }

    /// Whether each packet of a series leaves no earlier than its slot and no later than is
    /// reported. It may leave as late as it likes.
    pub open spec fn on_time(self, sends: Seq<Packet>) -> bool
        decreases sends.len(),
    {
        sends.len() > 0 ==> self.on_time(sends.drop_last()) && self.turns(
            sends.drop_last(),
        ).punctual(sends.last())
    }

    /// The slots that a series of packets is given, in order. A refused packet has none.
    pub open spec fn slots(self, sends: Seq<Packet>) -> Seq<nat>
        decreases sends.len(),
    {
        if sends.len() == 0 {
            Seq::empty()
        } else {
            let earlier = self.slots(sends.drop_last());
            let before = self.turns(sends.drop_last());
            if before.admits(sends.last().request) {
                earlier.push(before.slot(sends.last().request.now))
            } else {
                earlier
            }
        }
    }

    /// The times at which the packets of a series leave, in order. A refused packet does not.
    pub open spec fn departures(self, sends: Seq<Packet>) -> Seq<nat>
        decreases sends.len(),
    {
        if sends.len() == 0 {
            Seq::empty()
        } else {
            let earlier = self.departures(sends.drop_last());
            if self.turns(sends.drop_last()).admits(sends.last().request) {
                earlier.push(sends.last().left)
            } else {
                earlier
            }
        }
    }
}

/// Appending a time that is at least `interval` after the last one keeps a series spaced.
pub proof fn lemma_spaced_push(times: Seq<nat>, interval: nat, t: nat)
    requires
        spaced(times, interval),
        times.len() > 0 ==> t >= times.last() + interval,
    ensures
        spaced(times.push(t), interval),
{
    let longer = times.push(t);
    assert forall|i: int, j: int| 0 <= i <= j < longer.len() implies #[trigger] longer[j]
        >= #[trigger] longer[i] + (j - i) * interval by {
        if i == j {
            assert((j - i) * interval == 0) by (nonlinear_arith)
                requires
                    i == j,
            ;
        } else if j == times.len() {
            let last = times.len() - 1;
            assert(times[last] >= times[i] + (last - i) * interval);
            assert((j - i) * interval == (last - i) * interval + interval) by (nonlinear_arith)
                requires
                    j == last + 1,
            ;
        } else {
            assert(times[j] >= times[i] + (j - i) * interval);
        }
    }
}

/// What holds after any series of turns: the interval is as before, the next slot is at least one
/// interval after the last one given, and no slot lies before the first that was free. If the
/// packets are on time, the same holds of their departures.
proof fn lemma_turns(start: Schedule, sends: Seq<Packet>)
    ensures
        start.turns(sends).interval == start.interval,
        start.slots(sends).len() == start.departures(sends).len(),
        start.slots(sends).len() == 0 ==> start.turns(sends) == start,
        start.slots(sends).len() > 0 ==> start.turns(sends).next_at >= start.slots(sends).last()
            + start.interval,
        start.turns(sends).next_at >= start.next_at,
        forall|k: int|
            0 <= k < start.slots(sends).len() ==> #[trigger] start.slots(sends)[k] >= start.next_at,
        spaced(start.slots(sends), start.interval),
        start.on_time(sends) ==> {
            &&& spaced(start.departures(sends), start.interval)
            &&& start.departures(sends).len() > 0 ==> start.turns(sends).next_at
                >= start.departures(sends).last() + start.interval
            &&& forall|k: int|
                0 <= k < start.departures(sends).len() ==> #[trigger] start.departures(sends)[k]
                    >= start.slots(sends)[k]
        },
    decreases sends.len(),
{
    if sends.len() > 0 {
        let front = sends.drop_last();
        lemma_turns(start, front);
        let before = start.turns(front);
        if before.admits(sends.last().request) {
            let slot = before.slot(sends.last().request.now);
            lemma_spaced_push(start.slots(front), start.interval, slot);
            if start.on_time(sends) {
                lemma_spaced_push(start.departures(front), start.interval, sends.last().left);
            }
        }
    }
}

/// Pacing: whatever the requests and however late the packets leave, any two departures lie at
/// least as many intervals apart as there are sends from the one to the other. Neither time spent
/// stalled nor a wait that lasts too long earns any budget.
pub proof fn law_departures_are_spaced(start: Schedule, sends: Seq<Packet>)
    requires
        start.on_time(sends),
    ensures
        spaced(start.departures(sends), start.interval),
        start.turns(sends).interval == start.interval,
{
    lemma_turns(start, sends);
}

/// The slots are spaced as the departures are, even where a packet leaves before its slot.
pub proof fn law_slots_are_spaced(start: Schedule, sends: Seq<Packet>)
    ensures
        spaced(start.slots(sends), start.interval),
        start.turns(sends).interval == start.interval,
{
    lemma_turns(start, sends);
}

/// The sends of a new pacer: the k-th leaves at least k intervals after the pacer was made, so n
/// sends take n - 1 full intervals.
pub proof fn law_sends_take_full_intervals(rate: nat, now: nat, sends: Seq<Packet>, k: int)
    requires
        rate > 0,
        Schedule::starting_at(rate, now).on_time(sends),
        0 <= k < Schedule::starting_at(rate, now).departures(sends).len(),
    ensures
        Schedule::starting_at(rate, now).departures(sends)[k] >= now + k * interval_of(rate),
{
    let start = Schedule::starting_at(rate, now);
    lemma_turns(start, sends);
    let left = start.departures(sends);
    assert(left[k] >= left[0] + (k - 0) * start.interval);
    assert(left[0] >= start.slots(sends)[0]);
}

/// The members of a spaced series that lie in one window are spaced too.
proof fn lemma_within_spaced(times: Seq<nat>, interval: nat, from: nat, width: nat)
    requires
        spaced(times, interval),
    ensures
        spaced(within(times, from, width), interval),
        forall|k: int|
            0 <= k < within(times, from, width).len() ==> from <= #[trigger] within(
                times,
                from,
                width,
            )[k] < from + width,
        times.len() > 0 && within(times, from, width).len() > 0 ==> within(
            times,
            from,
            width,
        ).last() <= times.last(),
    decreases times.len(),
{
    reveal(Seq::filter);
    if times.len() > 0 {
        let front = times.drop_last();
        assert(spaced(front, interval)) by {
            assert forall|i: int, j: int| 0 <= i <= j < front.len() implies #[trigger] front[j]
                >= #[trigger] front[i] + (j - i) * interval by {
                assert(times[j] >= times[i] + (j - i) * interval);
            }
        }
        lemma_within_spaced(front, interval, from, width);
        let kept = within(front, from, width);
        let t = times.last();
        if front.len() > 0 {
            let n = times.len() - 1;
            assert(times[n] >= times[n - 1] + (n - (n - 1)) * interval);
            assert((n - (n - 1)) * interval == interval) by (nonlinear_arith);
            assert(front.last() == times[n - 1]);
        }
        if from <= t < from + width {
            assert(kept.len() > 0 ==> front.len() > 0);
            lemma_spaced_push(kept, interval, t);
            assert(within(times, from, width) == kept.push(t));
        } else {
            assert(within(times, from, width) == kept);
        }
    }
}

/// The n times of a spaced series that lie in any one window span n - 1 full intervals, which is
/// less than the window's width.
pub proof fn law_window_bounds_spaced_times(
    times: Seq<nat>,
    interval: nat,
    from: nat,
    width: nat,
)
    requires
        spaced(times, interval),
        within(times, from, width).len() > 0,
    ensures
        (within(times, from, width).len() - 1) * interval < width,
{
    lemma_within_spaced(times, interval, from, width);
    let inside = within(times, from, width);
    let last = inside.len() - 1;
    assert(inside[last] >= inside[0] + (last - 0) * interval);
}

/// Of the times spaced by the interval of a rate, no more than `rate * seconds` lie in any window
/// of that many seconds, if the rate divides a second into whole nanoseconds.
pub proof fn lemma_spaced_times_keep_the_rate(
    times: Seq<nat>,
    rate: nat,
    from: nat,
    seconds: nat,
)
    requires
        spaced(times, interval_of(rate)),
        rate > 0,
        1_000_000_000nat % rate == 0,
    ensures
        within(times, from, 1_000_000_000 * seconds).len() <= rate * seconds,
{
    let interval = interval_of(rate);
    let n = within(times, from, 1_000_000_000 * seconds).len();
    if n > 0 {
        law_window_bounds_spaced_times(times, interval, from, 1_000_000_000 * seconds);
        assert(interval * rate == 1_000_000_000) by (nonlinear_arith)
            requires
                rate > 0,
                1_000_000_000nat % rate == 0,
                interval == 1_000_000_000nat / rate,
        ;
        assert(n <= rate * seconds) by (nonlinear_arith)
            requires
                n > 0,
                interval * rate == 1_000_000_000,
                (n - 1) * interval < 1_000_000_000 * seconds,
        ;
    }
}

/// No bursts: the n packets that leave in any one window take n - 1 full intervals, which is less
/// than the window's width.
pub proof fn law_window_bounds_departures(
    start: Schedule,
    sends: Seq<Packet>,
    from: nat,
    width: nat,
)
    requires
        start.on_time(sends),
        within(start.departures(sends), from, width).len() > 0,
    ensures
        (within(start.departures(sends), from, width).len() - 1) * start.interval < width,
{
    lemma_turns(start, sends);
    law_window_bounds_spaced_times(start.departures(sends), start.interval, from, width);
}

/// The rate is never exceeded: with a pacer for `rate` packets per second, no more than
/// `rate * seconds` packets leave in any window of that many seconds.
///
/// This is for the rates that divide a second into whole nanoseconds. Any other rate has its
/// interval rounded down.
pub proof fn law_rate_is_never_exceeded(
    rate: nat,
    now: nat,
    sends: Seq<Packet>,
    from: nat,
    seconds: nat,
)
    requires
        rate > 0,
        1_000_000_000nat % rate == 0,
        Schedule::starting_at(rate, now).on_time(sends),
    ensures
        within(
            Schedule::starting_at(rate, now).departures(sends),
            from,
            1_000_000_000 * seconds,
        ).len() <= rate * seconds,
{
    let start = Schedule::starting_at(rate, now);
    lemma_turns(start, sends);
    lemma_spaced_times_keep_the_rate(start.departures(sends), rate, from, seconds);
}

/// The first packet is admitted immediately: a new pacer gives a request made no earlier than
/// itself, and before its deadline, the slot of that very moment.
pub proof fn law_first_send_is_immediate(rate: nat, now: nat, request: Request)
    requires
        now <= request.now < request.deadline,
    ensures
        Schedule::starting_at(rate, now).admits(request),
        Schedule::starting_at(rate, now).slot(request.now) == request.now,
{
}

/// A slot that is given is neither in the past nor too late.
pub proof fn law_slot_lies_before_deadline(schedule: Schedule, request: Request)
    requires
        schedule.admits(request),
    ensures
        request.now <= schedule.slot(request.now) < request.deadline,
        schedule.next_at <= schedule.slot(request.now),
{
}

/// A refusal is final: as time goes on, the same deadline or an earlier one is refused again.
pub proof fn law_refusal_is_final(schedule: Schedule, refused: Request, later: Request)
    requires
        !schedule.admits(refused),
        refused.now <= later.now,
        later.deadline <= refused.deadline,
    ensures
        schedule.answer(refused) == schedule,
        !schedule.answer(refused).admits(later),
{
}

/// A stall earns one send and no burst: a request that comes late is served at once, but the next
/// one gets its slot a full interval after the late packet left, if it is made within that
/// interval.
pub proof fn law_stall_earns_no_burst(schedule: Schedule, late: Packet, next: Request)
    requires
        schedule.admits(late.request),
        schedule.next_at <= late.request.now <= late.reported,
        late.request.now <= next.now <= late.reported + schedule.interval,
    ensures
        schedule.slot(late.request.now) == late.request.now,
        schedule.turn(late).slot(next.now) == late.reported + schedule.interval,
{
}

/// A sender that is always ready keeps the rate: when each request is made by the time its slot
/// comes, none is refused, and each packet leaves in its slot, then the departures lie exactly one
/// interval apart.
pub proof fn law_ready_sender_keeps_the_rate(start: Schedule, sends: Seq<Packet>)
    requires
        forall|k: int|
            #![trigger sends[k]]
            0 <= k < sends.len() ==> {
                let slot = start.next_at + k * start.interval;
                &&& sends[k].request.now <= slot < sends[k].request.deadline
                &&& sends[k].left == sends[k].reported == slot
            },
    ensures
        start.departures(sends).len() == sends.len(),
        forall|k: int|
            0 <= k < sends.len() ==> #[trigger] start.departures(sends)[k] == start.next_at + k
                * start.interval,
        start.turns(sends).next_at == start.next_at + sends.len() * start.interval,
        start.on_time(sends),
    decreases sends.len(),
{
    let n = sends.len() as int;
    if n > 0 {
        let front = sends.drop_last();
        assert forall|k: int|
            #![trigger front[k]]
            0 <= k < front.len() implies {
            let slot = start.next_at + k * start.interval;
            &&& front[k].request.now <= slot < front[k].request.deadline
            &&& front[k].left == front[k].reported == slot
        } by {
            assert(front[k] == sends[k]);
        }
        law_ready_sender_keeps_the_rate(start, front);
        lemma_turns(start, front);
        assert(sends[n - 1].request.now <= start.next_at + (n - 1) * start.interval);
        assert(n * start.interval == (n - 1) * start.interval + start.interval) by (nonlinear_arith);
    } else {
        assert(0 * start.interval == 0) by (nonlinear_arith);
    }
}

/// Rates above one packet per nanosecond are unpaced: the interval is zero.
pub proof fn law_fast_rates_are_unpaced(rate: nat)
    ensures
        rate > 1_000_000_000 ==> interval_of(rate) == 0,
        0 < rate <= 1_000_000_000 ==> interval_of(rate) > 0,
{
    if rate > 1_000_000_000 {
        assert(1_000_000_000nat / rate == 0) by (nonlinear_arith)
            requires
                rate > 1_000_000_000,
        ;
    } else if rate > 0 {
        assert(1_000_000_000nat / rate > 0) by (nonlinear_arith)
            requires
                0 < rate <= 1_000_000_000,
        ;
    }
}

/// The interval is the whole number of nanoseconds that comes closest to `1 / rate` seconds from
/// below: `rate` intervals fit into a second, and with one nanosecond more in each they do not.
pub proof fn law_interval_divides_the_second(rate: nat)
    requires
        rate > 0,
    ensures
        interval_of(rate) * rate <= 1_000_000_000 < (interval_of(rate) + 1) * rate,
{
    let interval = interval_of(rate);
    assert(interval * rate <= 1_000_000_000 < (interval + 1) * rate) by (nonlinear_arith)
        requires
            rate > 0,
            interval == 1_000_000_000nat / rate,
    ;
}

/// Of the times spaced by the interval of any rate, a window of some seconds holds no more than
/// the rate allows, up to one nanosecond for each interval between them.
pub proof fn lemma_spaced_times_round_the_rate(
    times: Seq<nat>,
    rate: nat,
    from: nat,
    seconds: nat,
)
    requires
        spaced(times, interval_of(rate)),
        rate > 0,
        within(times, from, 1_000_000_000 * seconds).len() > 0,
    ensures
        (within(times, from, 1_000_000_000 * seconds).len() - 1) * 1_000_000_000 < rate * (
        1_000_000_000 * seconds + (within(times, from, 1_000_000_000 * seconds).len() - 1)),
{
    let gaps = within(times, from, 1_000_000_000 * seconds).len() - 1;
    let interval = interval_of(rate);
    law_window_bounds_spaced_times(times, interval, from, 1_000_000_000 * seconds);
    law_interval_divides_the_second(rate);
    assert(gaps * 1_000_000_000 <= gaps * ((interval + 1) * rate)) by (nonlinear_arith)
        requires
            gaps >= 0,
            1_000_000_000 < (interval + 1) * rate,
    ;
    assert(gaps * ((interval + 1) * rate) == rate * (gaps * interval + gaps)) by (nonlinear_arith);
    assert(rate * (gaps * interval + gaps) < rate * (1_000_000_000 * seconds + gaps))
        by (nonlinear_arith)
        requires
            rate > 0,
            gaps * interval < 1_000_000_000 * seconds,
    ;
}

/// The rate is never exceeded but for the rounding of the interval: the n packets that leave in
/// any window of some seconds, with a nanosecond more in each of the n - 1 intervals between
/// them, are no more than the rate allows. This is for every rate.
pub proof fn law_every_rate_is_kept_up_to_rounding(
    rate: nat,
    now: nat,
    sends: Seq<Packet>,
    from: nat,
    seconds: nat,
)
    requires
        rate > 0,
        Schedule::starting_at(rate, now).on_time(sends),
        within(
            Schedule::starting_at(rate, now).departures(sends),
            from,
            1_000_000_000 * seconds,
        ).len() > 0,
    ensures
        ({
            let gaps = within(
                Schedule::starting_at(rate, now).departures(sends),
                from,
                1_000_000_000 * seconds,
            ).len() - 1;
            gaps * 1_000_000_000 < rate * (1_000_000_000 * seconds + gaps)
        }),
{
    let start = Schedule::starting_at(rate, now);
    lemma_turns(start, sends);
    lemma_spaced_times_round_the_rate(start.departures(sends), rate, from, seconds);
}

/// A new pacer has had no packet yet, and gives a request the first moment that comes neither
/// before the request nor before the pacer itself.
pub proof fn law_new_pacer_is_free_from_its_start(rate: nat, start: nat, now: nat)
    ensures
        ({
            let pacer = Schedule::starting_at(rate, start);
            &&& !pacer.pending
            &&& pacer.slot(now) >= now
            &&& pacer.slot(now) >= start
            &&& pacer.slot(now) == now || pacer.slot(now) == start
        }),
{
}

/// The slot is the earliest time that comes neither before the request nor before the schedule
/// allows, and it is given exactly when that time lies before the deadline.
pub proof fn law_slot_is_the_earliest_and_given_if_in_time(schedule: Schedule, request: Request)
    ensures
        schedule.slot(request.now) >= request.now,
        schedule.slot(request.now) >= schedule.next_at,
        schedule.slot(request.now) == request.now || schedule.slot(request.now)
            == schedule.next_at,
        schedule.admits(request) <==> schedule.slot(request.now) < request.deadline,
{
}

/// A grant hands out one slot and remembers it; a refusal leaves everything as it was.
pub proof fn law_answer_remembers_the_slot(schedule: Schedule, request: Request)
    ensures
        schedule.answer(request).interval == schedule.interval,
        schedule.slot(request.now) < request.deadline ==> schedule.answer(request).pending
            && schedule.answer(request).next_at == schedule.slot(request.now),
        schedule.slot(request.now) >= request.deadline ==> schedule.answer(request) == schedule,
{
}

/// After a departure the schedule is free exactly one interval after the slot or the departure,
/// whichever is later, and waits for no packet.
pub proof fn law_departure_frees_the_schedule_an_interval_later(schedule: Schedule, at: nat)
    ensures
        schedule.departed(at).next_at >= at + schedule.interval,
        schedule.departed(at).next_at >= schedule.next_at + schedule.interval,
        schedule.departed(at).next_at == at + schedule.interval || schedule.departed(at).next_at
            == schedule.next_at + schedule.interval,
        schedule.departed(at).interval == schedule.interval,
        !schedule.departed(at).pending,
{
}

/// Two packets in a row: the second gets the earliest time that is neither before its request nor
/// within an interval of the slot or the departure of the first.
pub proof fn law_next_slot_follows_the_last_send(schedule: Schedule, first: Packet, now: nat)
    requires
        schedule.admits(first.request),
    ensures
        ({
            let slot = schedule.slot(first.request.now);
            let next = schedule.turn(first).slot(now);
            &&& next >= now
            &&& next >= slot + schedule.interval
            &&& next >= first.reported + schedule.interval
            &&& next == now || next == slot + schedule.interval || next == first.reported
                + schedule.interval
        }),
{
}

} // verus!
