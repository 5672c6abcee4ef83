use paced_emission::emission::{Emission, SendStats};

const MILLI: u128 = 1_000_000;

/// Runs a batch on a clock that moves only while the sender waits. The outcome of the k-th send
/// is `accept(k)`. Gives the stats and the time at the end.
fn run(
    rate: u32,
    entries: usize,
    start: u128,
    deadline: u128,
    accept: fn(usize) -> bool,
) -> (SendStats, u128) {
    let mut emission = Emission::starting_at(rate, entries, start, deadline);
    let mut now = start;
    let mut k = 0;
    while let Some(wait) = emission.next(now) {
        now += wait;
        emission.complete(accept(k), now);
        k += 1;
    }
    (emission.stats(), now)
}

#[test]
fn send_unknown_path_secrets_expired_deadline_sends_nothing() {
    let (stats, _) = run(1000, 3, 10 * MILLI, 9 * MILLI, |_| true);

    assert_eq!(stats.sent, 0);
    assert_eq!(stats.failed, 0);
    assert_eq!(stats.remaining, 3);
}

#[test]
fn send_unknown_path_secrets_deadline_bounds_paced_sends() {
    const TOTAL: u8 = 5;

    // 10 packets/s: the first send is immediate, then one per 100ms. A 250ms deadline admits
    // only the first few slots, so the run must be cut short.
    let start = 7 * MILLI;
    let (stats, end) = run(10, usize::from(TOTAL), start, start + 250 * MILLI, |_| true);

    assert!(stats.sent >= 1, "the first send is unpaced");
    assert!(
        stats.sent < usize::from(TOTAL),
        "the deadline must cut the run short"
    );
    assert_eq!(stats.failed, 0);
    assert_eq!(stats.sent + stats.remaining, usize::from(TOTAL));
    // n sends require at least (n - 1) full pacing intervals to have elapsed.
    assert!(end - start >= 100 * MILLI * (stats.sent as u128 - 1));
    // The sender is always ready, so the split is exact: slots at 0, 100 and 200ms.
    assert_eq!((stats.sent, stats.remaining), (3, 2));
}

#[test]
fn every_entry_is_sent_when_the_deadline_is_far() {
    let (stats, end) = run(1000, 2, 0, 5000 * MILLI, |_| true);
    assert_eq!(stats.sent, 2);
    assert_eq!(stats.failed, 0);
    assert_eq!(stats.remaining, 0);
    assert_eq!(end, MILLI);
}

#[test]
fn failures_are_counted_apart_and_take_their_slot() {
    let (stats, end) = run(10, 6, 0, 5000 * MILLI, |k| k % 3 != 0);
    assert_eq!((stats.sent, stats.failed, stats.remaining), (4, 2, 0));
    assert_eq!(end, 500 * MILLI);
}

#[test]
fn pending_entry_is_neither_sent_nor_remaining() {
    let mut emission = Emission::starting_at(10, 2, 0, 1000 * MILLI);
    assert_eq!(emission.next(0), Some(0));
    let stats = emission.stats();
    assert_eq!((stats.sent, stats.failed, stats.remaining), (0, 0, 1));
    emission.complete(false, 0);
    let stats = emission.stats();
    assert_eq!((stats.sent, stats.failed, stats.remaining), (0, 1, 1));
}

#[test]
fn late_sends_do_not_bunch_up() {
    // The first wait lasts 60ms too long; the sends after it keep their distance all the same.
    let mut emission = Emission::starting_at(100, 3, 0, 1000 * MILLI);
    assert_eq!(emission.next(0), Some(0));
    emission.complete(true, 60 * MILLI);
    assert_eq!(emission.next(60 * MILLI), Some(10 * MILLI));
    emission.complete(false, 70 * MILLI);
    assert_eq!(emission.next(71 * MILLI), Some(9 * MILLI));
}

#[test]
fn cut_short_batch_stays_so() {
    let mut emission = Emission::starting_at(10, 2, 0, 100 * MILLI);
    assert_eq!(emission.next(0), Some(0));
    emission.complete(true, 0);
    assert_eq!(emission.next(0), None);
    assert_eq!(emission.next(99 * MILLI), None);
    assert_eq!(emission.next(1000 * MILLI), None);
    assert_eq!(emission.stats().remaining, 1);
}

#[test]
fn default_stats_are_zero() {
    let stats = SendStats::default();
    assert_eq!((stats.sent, stats.failed, stats.remaining), (0, 0, 0));
    let copy = stats;
    assert_eq!(stats, copy);
    assert_ne!(run(1000, 1, 0, 1, |_| true).0, stats);
}
