use paced_emission::model::{Invariant, Model, Snapshot};
use paced_emission::operation::{
    has_duplicate_pids, Action, Ciphersuite, EndpointType, Id, IdTable, Operation, Peer, Secret, TestId,
};
use paced_emission::run::{check_invariants_inner, Observation, Outcome};

fn id_of(number: u8) -> Id {
    Id {
        value: 1 + u128::from(number) * 1_000_003,
    }
}

fn ids() -> IdTable {
    IdTable::derive(|secret: Secret| id_of(secret.export_secret[0])).unwrap()
}

fn insert(ip: u8, number: u8) -> Operation {
    Operation::Insert {
        ip,
        path_secret_id: TestId(number),
    }
}

fn unknown(number: u8) -> Operation {
    Operation::ReceiveUnknown {
        path_secret_id: TestId(number),
    }
}

/// A plain map: the last entry of each peer is in use, the ones before it are retired.
struct PlainMap {
    capacity: usize,
    evicts: bool,
    peers: Vec<(u8, Id)>,
    entries: Vec<Id>,
}

impl PlainMap {
    fn new(capacity: usize, evicts: bool) -> PlainMap {
        PlainMap {
            capacity,
            evicts,
            peers: Vec::new(),
            entries: Vec::new(),
        }
    }

    fn live(&self) -> Vec<Id> {
        let in_use = |id: &Id| self.peers.iter().any(|(_, current)| current == id);
        self.entries.iter().copied().filter(in_use).collect()
    }

    fn perform(&mut self, operation: Operation) {
        match operation {
            Operation::Insert { ip, path_secret_id } => {
                let id = id_of(path_secret_id.0);
                self.peers.retain(|(peer, _)| *peer != ip);
                self.peers.push((ip, id));
                self.entries.push(id);
            }
            Operation::AdvanceTime => self.entries = self.live(),
            Operation::ReceiveUnknown { path_secret_id } => {
                let id = id_of(path_secret_id.0);
                if self.evicts {
                    self.entries.retain(|entry| *entry != id);
                    self.peers.retain(|(_, current)| *current != id);
                }
            }
        }
    }

    fn snapshot(&self) -> Snapshot {
        Snapshot {
            max_capacity: self.capacity,
            peers: self.peers.iter().map(|(ip, _)| Peer::from_octet(*ip)).collect(),
            ids: self.entries.clone(),
        }
    }
}

fn observe(map: &mut PlainMap, ops: &[Operation]) -> Vec<Observation> {
    let mut observed = Vec::new();
    for op in ops {
        let live = map.live();
        map.perform(*op);
        observed.push(Observation {
            live,
            after: map.snapshot(),
        });
    }
    observed
}

/// A series of fewer than `len` operations on the first `names` test ids and `peers` peers.
fn random_ops(state: &mut u64, len: u64, names: u64, peers: u64) -> Vec<Operation> {
    let mut next = |bound: u64| {
        *state = state.wrapping_mul(6364136223846793005).wrapping_add(1442695040888963407);
        (*state >> 33) % bound
    };
    let len = next(len);
    let mut ops = Vec::new();
    for _ in 0..len {
        let number = next(names) as u8;
        ops.push(match next(3) {
            0 => insert(next(peers) as u8, number),
            1 => Operation::AdvanceTime,
            _ => unknown(number),
        });
    }
    ops
}

fn check_runs_of(capacity: usize, evicts: bool, len: u64, names: u64, peers: u64) {
    let ids = ids();
    let mut state = 1;
    let mut held = 0;
    for _ in 0..10_000 {
        let ops = random_ops(&mut state, len, names, peers);
        if has_duplicate_pids(&ops) {
            // Ignored: no operation is performed, and there is nothing to observe.
            assert_eq!(
                check_invariants_inner(&ops, &ids, evicts, &[]),
                Outcome::Ignored
            );
        } else {
            let mut map = PlainMap::new(capacity, evicts);
            let observed = observe(&mut map, &ops);
            assert_eq!(
                check_invariants_inner(&ops, &ids, evicts, &observed),
                Outcome::Held
            );
            held += 1;
        }
    }
    assert!(held > 1000);
}

/// Runs that draw on every test id and every peer.
fn check_runs(capacity: usize, evicts: bool) {
    check_runs_of(capacity, evicts, 40, 256, 256);
}

#[test]
fn runs_on_few_ids_and_peers_hold() {
    check_runs_of(5, false, 12, 16, 4);
    check_runs_of(5, true, 12, 16, 4);
    check_runs_of(10_000, false, 12, 16, 4);
}

#[test]
fn check_invariants() {
    check_runs(5, false);
}

#[test]
fn check_invariants_evict_unknown_pid() {
    check_runs(5, true);
}

#[test]
fn check_invariants_no_overflow() {
    check_runs(10_000, false);
}

#[test]
fn secret_starts_with_the_number() {
    let secret = TestId(7).secret();
    assert_eq!(secret.ciphersuite, Ciphersuite::AES_GCM_128_SHA256);
    assert_eq!(secret.version_index, 0);
    assert_eq!(secret.endpoint, EndpointType::Client);
    let mut expected = [0u8; 32];
    expected[0] = 7;
    assert_eq!(secret.export_secret, expected);
    assert_ne!(TestId(8).secret().export_secret, expected);
}

#[test]
fn insertion_hands_over_peer_and_secret() {
    match insert(3, 7).action(&ids()) {
        Action::Insert {
            peer,
            secret,
            signed_id,
        } => {
            assert_eq!(peer, Peer { ip: 3, port: 0 });
            assert_eq!(secret.export_secret, TestId(7).secret().export_secret);
            assert_eq!(secret.endpoint, EndpointType::Client);
            assert_eq!(signed_id, id_of(7));
        }
        other => panic!("{other:?}"),
    }
}

#[test]
fn time_advances_by_a_clean_without_delay() {
    let action = Operation::AdvanceTime.action(&ids());
    assert!(matches!(action, Action::Clean { delay: 0 }));
}

#[test]
fn unknown_path_secret_comes_from_the_local_host() {
    match unknown(9).action(&ids()) {
        Action::HandleUnknown {
            id,
            signed_id,
            from,
        } => {
            assert_eq!(id, id_of(9));
            assert_eq!(signed_id, id_of(9));
            let octets = from.ip.to_be_bytes();
            assert_eq!((octets, from.port), ([127, 0, 0, 1], 1234));
        }
        other => panic!("{other:?}"),
    }
}

#[test]
fn eviction_takes_the_peer_along() {
    let ops = [insert(1, 1), insert(2, 2), unknown(1)];
    let mut map = PlainMap::new(5, true);
    let observed = observe(&mut map, &ops);
    assert_eq!(observed[2].after.ids, vec![id_of(2)]);
    assert_eq!(observed[2].after.peers, vec![Peer::from_octet(2)]);
    assert_eq!(
        check_invariants_inner(&ops, &ids(), true, &observed),
        Outcome::Held
    );
    // The model goes on to ask for the peer where the capacity lets it.
    let mut map = PlainMap::new(50, true);
    let observed = observe(&mut map, &ops);
    assert_eq!(
        check_invariants_inner(&ops, &ids(), true, &observed),
        Outcome::Broken {
            step: 2,
            broken: Invariant::ContainsIp(Peer::from_octet(1)),
        }
    );
}

#[test]
fn id_table_holds_the_id_of_each_secret() {
    let table = ids();
    for number in 0..=255u8 {
        let expected = id_of(TestId(number).secret().export_secret[0]);
        assert_eq!(TestId(number).id(&table), expected);
    }
}

#[test]
fn id_table_wants_distinct_ids() {
    let all_equal = IdTable::derive(|_secret: Secret| id_of(1));
    assert!(all_equal.is_none());
    let last_is_third =
        IdTable::derive(|secret: Secret| id_of(if secret.export_secret[0] == 255 { 3 } else { secret.export_secret[0] }));
    assert!(last_is_third.is_none());
}

#[test]
fn step_performs_and_gives_the_action() {
    let table = ids();
    let mut model = Model::default();
    let action = model.step(insert(3, 7), &table, false, &[]);
    assert!(matches!(action, Action::Insert { signed_id, .. } if signed_id == id_of(7)));
    // The entry has been retired by the time of the look-up.
    let action = model.step(Operation::AdvanceTime, &table, false, &[]);
    assert!(matches!(action, Action::Clean { delay: 0 }));
    let map = Snapshot {
        max_capacity: 5,
        peers: vec![],
        ids: vec![id_of(7)],
    };
    assert_eq!(
        model.check_invariants(&map),
        Err(Invariant::IdRemoved(id_of(7)))
    );
}

#[test]
fn peers_are_numbered_by_the_last_octet() {
    assert_eq!(Peer::from_octet(200), Peer { ip: 200, port: 0 });
}

#[test]
fn duplicates_are_insertions_of_one_path_secret() {
    assert!(!has_duplicate_pids(&[]));
    assert!(!has_duplicate_pids(&[insert(1, 1), insert(1, 2), insert(2, 3)]));
    assert!(has_duplicate_pids(&[insert(1, 1), Operation::AdvanceTime, insert(2, 1)]));
    assert!(!has_duplicate_pids(&[unknown(1), insert(1, 1), unknown(1), unknown(1)]));
}

#[test]
fn model_of_an_empty_map_asks_for_nothing() {
    let map = PlainMap::new(50, true);
    assert_eq!(Model::default().check_invariants(&map.snapshot()), Ok(()));
}

#[test]
fn insertion_demands_peer_and_id() {
    let table = ids();
    let mut model = Model::default();
    model.perform(insert(3, 7), &table, false, &[]);

    let full = |peers: Vec<Peer>, ids: Vec<Id>| Snapshot {
        max_capacity: 50,
        peers,
        ids,
    };
    let peer = Peer::from_octet(3);
    let id = id_of(7);
    assert_eq!(model.check_invariants(&full(vec![peer], vec![id])), Ok(()));
    assert_eq!(
        model.check_invariants(&full(vec![], vec![id])),
        Err(Invariant::ContainsIp(peer))
    );
    assert_eq!(
        model.check_invariants(&full(vec![peer], vec![id_of(8)])),
        Err(Invariant::ContainsId(id))
    );
    // A map of small capacity need not contain anything.
    let small = Snapshot {
        max_capacity: 5,
        peers: vec![],
        ids: vec![],
    };
    assert_eq!(model.check_invariants(&small), Ok(()));
}

#[test]
fn departed_ids_must_stay_away() {
    let table = ids();
    let mut model = Model::default();
    model.perform(insert(3, 7), &table, false, &[]);
    model.perform(insert(4, 8), &table, false, &[]);
    model.perform(Operation::AdvanceTime, &table, false, &[id_of(8)]);

    let mut map = Snapshot {
        max_capacity: 50,
        peers: vec![Peer::from_octet(3), Peer::from_octet(4)],
        ids: vec![id_of(8)],
    };
    assert_eq!(model.check_invariants(&map), Ok(()));
    map.ids.push(id_of(7));
    assert_eq!(
        model.check_invariants(&map),
        Err(Invariant::IdRemoved(id_of(7)))
    );
    // That holds of a small map too.
    map.max_capacity = 5;
    assert_eq!(
        model.check_invariants(&map),
        Err(Invariant::IdRemoved(id_of(7)))
    );
}

#[test]
fn unknown_ids_are_evicted_only_if_configured() {
    let table = ids();
    for evicts in [false, true] {
        let mut model = Model::default();
        model.perform(insert(3, 7), &table, evicts, &[]);
        model.perform(unknown(7), &table, evicts, &[]);
        // Of an id that was never inserted nothing is asked.
        model.perform(unknown(9), &table, evicts, &[]);

        let with = Snapshot {
            max_capacity: 50,
            peers: vec![Peer::from_octet(3)],
            ids: vec![id_of(7), id_of(9)],
        };
        let without = Snapshot {
            max_capacity: 50,
            peers: vec![Peer::from_octet(3)],
            ids: vec![id_of(9)],
        };
        if evicts {
            assert_eq!(
                model.check_invariants(&with),
                Err(Invariant::IdRemoved(id_of(7)))
            );
            assert_eq!(model.check_invariants(&without), Ok(()));
        } else {
            assert_eq!(model.check_invariants(&with), Ok(()));
            assert_eq!(
                model.check_invariants(&without),
                Err(Invariant::ContainsId(id_of(7)))
            );
        }
    }
}

#[test]
fn broken_run_names_the_first_broken_step() {
    let ops = [insert(1, 1), unknown(1), Operation::AdvanceTime];
    // The map does not evict although it is configured to.
    let mut map = PlainMap::new(50, false);
    let observed = observe(&mut map, &ops);
    assert_eq!(
        check_invariants_inner(&ops, &ids(), true, &observed),
        Outcome::Broken {
            step: 1,
            broken: Invariant::IdRemoved(id_of(1)),
        }
    );
}
