use paced_emission::clock::Clock;
use paced_emission::pacer::Pacer;
use std::time::{Duration, Instant};

fn far_deadline(clock: &mut Clock) -> u128 {
    clock.now() + Duration::from_secs(60).as_nanos()
}

fn stall(nanos: u128) {
    let start = Instant::now();
    while start.elapsed().as_nanos() < nanos {}
}

/// Asks for the next slot, waits for it and sends.
fn pace(pacer: &mut Pacer, clock: &mut Clock, deadline: u128) -> bool {
    match pacer.pace(clock, deadline) {
        Some(wait) => {
            stall(wait);
            pacer.depart(clock);
            true
        }
        None => false,
    }
}

const MILLI: u128 = 1_000_000;
const FAR: u128 = 60_000 * MILLI;

#[test]
fn first_send_is_immediate() {
    let mut clock = Clock::new(Instant::now());
    let mut pacer = Pacer::new(1, &mut clock);

    let start = Instant::now();
    let deadline = far_deadline(&mut clock);
    assert!(pace(&mut pacer, &mut clock, deadline));
    assert!(start.elapsed() < Duration::from_millis(100));
}

#[test]
fn spaces_subsequent_sends() {
    // 50/s -> 20ms interval
    let mut clock = Clock::new(Instant::now());
    let mut pacer = Pacer::new(50, &mut clock);

    let start = Instant::now();
    let deadline = far_deadline(&mut clock);
    assert!(pace(&mut pacer, &mut clock, deadline));
    let deadline = far_deadline(&mut clock);
    assert!(pace(&mut pacer, &mut clock, deadline));
    assert!(start.elapsed() >= Duration::from_millis(15));
}

#[test]
fn fails_fast_when_slot_beyond_deadline() {
    // 1/s: after the immediate first send the next slot is a second away. A deadline before
    // that slot must fail without waiting the interval out.
    let mut clock = Clock::new(Instant::now());
    let mut pacer = Pacer::new(1, &mut clock);
    let deadline = far_deadline(&mut clock);
    assert!(pace(&mut pacer, &mut clock, deadline));

    let start = Instant::now();
    let deadline = clock.now() + Duration::from_millis(50).as_nanos();
    assert!(!pace(&mut pacer, &mut clock, deadline));
    assert!(start.elapsed() < Duration::from_millis(40));
}

#[test]
fn expired_deadline_fails_immediately() {
    let mut clock = Clock::new(Instant::now() - Duration::from_millis(1000));
    let mut pacer = Pacer::new(1000, &mut clock);
    let deadline = clock.now() - Duration::from_millis(1).as_nanos();
    assert!(!pace(&mut pacer, &mut clock, deadline));
}

#[test]
fn stall_does_not_accumulate_burst() {
    // 100/s -> 10ms interval. After stalling several intervals, one catch-up send goes out
    // immediately, but the next must wait a full interval again.
    let mut clock = Clock::new(Instant::now());
    let mut pacer = Pacer::new(100, &mut clock);
    let deadline = far_deadline(&mut clock);
    assert!(pace(&mut pacer, &mut clock, deadline));

    stall(Duration::from_millis(50).as_nanos());

    let start = Instant::now();
    let deadline = far_deadline(&mut clock);
    assert!(pace(&mut pacer, &mut clock, deadline));
    let deadline = far_deadline(&mut clock);
    assert!(pace(&mut pacer, &mut clock, deadline));
    assert!(start.elapsed() >= Duration::from_millis(5));
}

#[test]
fn clock_shows_the_time_since_its_origin() {
    let mut clock = Clock::new(Instant::now() - Duration::from_millis(500));
    let first = clock.now();
    assert!(first >= 500 * MILLI);
    stall(MILLI);
    assert!(clock.now() >= first + MILLI);
}

/// The slot that is given to a request made at `now`, in which the packet leaves.
fn send_in_slot(pacer: &mut Pacer, now: u128) -> u128 {
    let slot = now + pacer.pace_at(now, FAR).unwrap();
    pacer.depart_at(slot);
    slot
}

#[test]
fn first_pace_of_a_new_pacer_waits_for_nothing() {
    let mut clock = Clock::new(Instant::now());
    for rate in [1, 50, 1_000_000] {
        let mut pacer = Pacer::new(rate, &mut clock);
        let deadline = far_deadline(&mut clock);
        assert_eq!(pacer.pace(&mut clock, deadline), Some(0));
    }
}

#[test]
fn slots_of_a_ready_sender_are_one_interval_apart() {
    let mut pacer = Pacer::starting_at(50, 7);
    assert_eq!(send_in_slot(&mut pacer, 7), 7);
    assert_eq!(send_in_slot(&mut pacer, 7), 20 * MILLI + 7);
    assert_eq!(send_in_slot(&mut pacer, 7), 40 * MILLI + 7);
    assert_eq!(pacer.pace_at(10 * MILLI, FAR), Some(50 * MILLI + 7));
}

#[test]
fn interval_is_rounded_down() {
    let mut pacer = Pacer::starting_at(3, 0);
    assert_eq!(send_in_slot(&mut pacer, 0), 0);
    assert_eq!(send_in_slot(&mut pacer, 0), 333_333_333);
    assert_eq!(send_in_slot(&mut pacer, 0), 666_666_666);
    // So a fourth slot begins within the first second.
    assert_eq!(send_in_slot(&mut pacer, 0), 999_999_999);
}

#[test]
fn rates_above_a_gigahertz_are_unpaced() {
    let mut pacer = Pacer::starting_at(1_000_000_001, 5);
    assert_eq!(send_in_slot(&mut pacer, 5), 5);
    assert_eq!(send_in_slot(&mut pacer, 5), 5);
    let mut pacer = Pacer::starting_at(1_000_000_000, 5);
    assert_eq!(send_in_slot(&mut pacer, 5), 5);
    assert_eq!(send_in_slot(&mut pacer, 5), 6);
}

#[test]
fn stall_earns_a_single_send() {
    let mut pacer = Pacer::starting_at(100, 0);
    assert_eq!(send_in_slot(&mut pacer, 0), 0);
    assert_eq!(send_in_slot(&mut pacer, 50 * MILLI), 50 * MILLI);
    assert_eq!(pacer.pace_at(50 * MILLI, FAR), Some(10 * MILLI));
}

#[test]
fn late_departure_delays_the_next_slot() {
    let mut pacer = Pacer::starting_at(100, 0);
    assert_eq!(send_in_slot(&mut pacer, 0), 0);
    // The slot is at 10ms, but the wait lasts until 60ms.
    assert_eq!(pacer.pace_at(MILLI, FAR), Some(9 * MILLI));
    pacer.depart_at(60 * MILLI);
    assert_eq!(pacer.pace_at(60 * MILLI, FAR), Some(10 * MILLI));
    // A report that is too early does not bring the next slot forward.
    pacer.depart_at(61 * MILLI);
    assert_eq!(pacer.pace_at(70 * MILLI, FAR), Some(10 * MILLI));
}

#[test]
fn refusal_consumes_no_slot() {
    let mut pacer = Pacer::starting_at(10, 0);
    assert_eq!(pacer.pace_at(0, 1), Some(0));
    pacer.depart_at(0);
    // The slot lies on the deadline, then one nanosecond before it.
    assert_eq!(pacer.pace_at(0, 100 * MILLI), None);
    assert_eq!(pacer.pace_at(50 * MILLI, 100 * MILLI), None);
    assert_eq!(pacer.pace_at(50 * MILLI, 100 * MILLI + 1), Some(50 * MILLI));
    pacer.depart_at(100 * MILLI);
    // The deadline is now.
    assert_eq!(pacer.pace_at(FAR, FAR), None);
}

#[test]
fn no_window_holds_more_sends_than_the_rate() {
    let mut pacer = Pacer::starting_at(100, 0);
    let mut departures: Vec<u128> = Vec::new();
    let mut now: u128 = 0;
    for step in 0..1000u128 {
        // Short gaps, with a long stall now and then.
        now += if step % 97 == 0 { 300 * MILLI } else { (step % 13) * MILLI };
        let wait = pacer.pace_at(now, u128::MAX - FAR).unwrap();
        // Some of the waits last too long.
        now += wait + if step % 7 == 0 { 25 * MILLI } else { 0 };
        departures.push(now);
        pacer.depart_at(now);
    }
    for (k, from) in departures.iter().enumerate() {
        let inside = departures[k..].iter().filter(|t| **t < from + 1000 * MILLI).count();
        assert!(inside <= 100);
        assert!(*from >= (k as u128) * 10 * MILLI);
        assert!(k == 0 || *from >= departures[k - 1] + 10 * MILLI);
    }
}
