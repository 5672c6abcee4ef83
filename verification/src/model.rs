//! Tracks what must hold of a path secret map after each operation.

use crate::operation::{Action, Id, IdTable, Operation, Peer, TestId};
use vstd::prelude::*;

verus! {

/// Something that must hold of a path secret map.
#[derive(Clone, Copy, Debug, PartialEq, Eq, Hash, Structural)]
pub enum Invariant {
    /// There is an entry for the peer.
    ContainsIp(Peer),
    /// There is an entry for the id.
    ContainsId(Id),
    /// There is no entry for the id any more.
    IdRemoved(Id),
}

/// The capacity at which a map evicts peers at random, so that it need not contain anything.
pub const SMALL_CAPACITY: usize = 5;

/// What a path secret map holds at one moment.
#[derive(Debug)]
pub struct Snapshot {
    /// The number of entries that the map may hold.
    pub max_capacity: usize,
    /// The peers for which the map has an entry.
    pub peers: Vec<Peer>,
    /// The ids for which the map has an entry.
    pub ids: Vec<Id>,
}

impl Invariant {
    /// Whether the invariant holds of a map, as far as the map's capacity lets it be expected.
    pub open spec fn holds(self, map: Snapshot) -> bool {
        match self {
            Invariant::ContainsIp(ip) => map.max_capacity != SMALL_CAPACITY ==> map.peers@.contains(
                ip,
            ),
            Invariant::ContainsId(id) => map.max_capacity != SMALL_CAPACITY ==> map.ids@.contains(
                id,
            ),
            Invariant::IdRemoved(id) => !map.ids@.contains(id),
        }
    }
}

/// Whether all of `invariants` hold of a map.
pub open spec fn all_hold(invariants: Set<Invariant>, map: Snapshot) -> bool {
    forall|fact: Invariant| #[trigger]
        invariants.contains(fact) ==> fact.holds(map)
}

/// Whether every id that has left the map is new to the list of removed ids. `live` are the ids
/// whose entry is in the map and not retired.
pub open spec fn departures_are_new(invariants: Set<Invariant>, live: Seq<Id>) -> bool {
    forall|id: Id|
        invariants.contains(Invariant::ContainsId(id)) && !live.contains(id)
            ==> !#[trigger] invariants.contains(Invariant::IdRemoved(id))
}

/// What must hold after an operation, if `invariants` had to hold before it.
///
/// `ids` are the ids of the test ids. `evicts` says whether the map evicts an entry that a peer
/// does not know, and `live` are the ids whose entry is in the map, before the operation, and
/// not retired.
pub open spec fn performed(
    invariants: Set<Invariant>,
    operation: Operation,
    ids: Seq<Id>,
    evicts: bool,
    live: Seq<Id>,
) -> Set<Invariant> {
    match operation {
        Operation::Insert { ip, path_secret_id } => invariants.insert(
            Invariant::ContainsIp(Peer::from_octet_spec(ip)),
        ).insert(Invariant::ContainsId(ids[path_secret_id.0 as int])),
        Operation::AdvanceTime => Set::new(
            |fact: Invariant|
                match fact {
                    Invariant::ContainsIp(_) => invariants.contains(fact),
                    Invariant::ContainsId(id) => invariants.contains(fact) && live.contains(
                        id,
                    ),
                    Invariant::IdRemoved(id) => invariants.contains(fact) || (
                    invariants.contains(Invariant::ContainsId(id)) && !live.contains(id)),
                },
        ),
        Operation::ReceiveUnknown { path_secret_id } => {
            let id = ids[path_secret_id.0 as int];
            if evicts && invariants.contains(Invariant::ContainsId(id)) {
                invariants.remove(Invariant::ContainsId(id)).insert(Invariant::IdRemoved(id))
            } else {
                invariants
            }
        },
    }
}

/// Whether `id` is one of `ids`.
fn contains_id(ids: &[Id], id: Id) -> (found: bool)
    ensures
        found == ids@.contains(id),
{
    let mut i: usize = 0;
    while i < ids.len()
        invariant
            i <= ids.len(),
            forall|k: int| 0 <= k < i ==> ids@[k] != id,
        decreases ids.len() - i,
    {
        if ids[i] == id {
            assert(ids@[i as int] == id);
            return true;
        }
        i += 1;
    }
    false
}

/// Whether `peer` is one of `peers`.
fn contains_peer(peers: &[Peer], peer: Peer) -> (found: bool)
    ensures
        found == peers@.contains(peer),
{
    let mut i: usize = 0;
    while i < peers.len()
        invariant
            i <= peers.len(),
            forall|k: int| 0 <= k < i ==> peers@[k] != peer,
        decreases peers.len() - i,
    {
        if peers[i] == peer {
            assert(peers@[i as int] == peer);
            return true;
        }
        i += 1;
    }
    false
}

/// The invariants that a path secret map has to meet, given the operations so far.
#[derive(Debug)]
pub struct Model {
    invariants: Vec<Invariant>,
}

impl View for Model {
    type V = Set<Invariant>;

    closed spec fn view(&self) -> Set<Invariant> {
        self.invariants@.to_set()
    }
}

impl Default for Model {
    /// The model of an empty map: nothing has to hold.
    fn default() -> (model: Model)
        ensures
            model.wf(),
            model@ == Set::<Invariant>::empty(),
    {
        let model = Model { invariants: Vec::new() };
        assert(model@ =~= Set::<Invariant>::empty());
        model
    }
}

impl Model {
    /// No invariant is listed twice.
    pub closed spec fn wf(self) -> bool {
        self.invariants@.no_duplicates()
    }

    /// Where an invariant is listed, if it is.
    fn position(&self, fact: Invariant) -> (position: Option<usize>)
        ensures
            position is Some <==> self@.contains(fact),
            position matches Some(i) ==> i < self.invariants.len() && self.invariants@[i as int]
                == fact,
    {
        let mut i: usize = 0;
        while i < self.invariants.len()
            invariant
                i <= self.invariants.len(),
                forall|k: int| 0 <= k < i ==> self.invariants@[k] != fact,
            decreases self.invariants.len() - i,
        {
            if self.invariants[i] == fact {
                assert(self.invariants@[i as int] == fact);
                return Some(i);
            }
            i += 1;
        }
        None
    }

    /// Adds an invariant, and says whether it is new.
    fn insert(&mut self, fact: Invariant) -> (new: bool)
        requires
            old(self).wf(),
        ensures
            final(self).wf(),
            final(self)@ == old(self)@.insert(fact),
            new == !old(self)@.contains(fact),
    {
        if self.position(fact).is_some() {
            assert(self@ =~= old(self)@.insert(fact));
            return false;
        }
        let ghost before = self.invariants@;
        self.invariants.push(fact);
        proof {
            assert(!before.contains(fact)) by {
                assert(before.to_set().contains(fact) == before.contains(fact));
            }
            assert forall|x: Invariant| #[trigger] self@.contains(x) <==> before.to_set().insert(
                fact,
            ).contains(x) by {
                let after = self.invariants@;
                if before.contains(x) {
                    let k = choose|k: int| 0 <= k < before.len() && before[k] == x;
                    assert(after[k] == x);
                }
                assert(after[before.len() as int] == fact);
            }
            assert(self@ =~= old(self)@.insert(fact));
        }
        true
    }

    /// Takes an invariant off the list.
    fn remove(&mut self, fact: Invariant)
        requires
            old(self).wf(),
        ensures
            final(self).wf(),
            final(self)@ == old(self)@.remove(fact),
    {
        let ghost before = self.invariants@;
        match self.position(fact) {
            Some(i) => {
                self.invariants.remove(i);
                proof {
                    let after = self.invariants@;
                    assert forall|x: Invariant| #[trigger] self@.contains(x)
                        <==> before.to_set().remove(fact).contains(x) by {
                        if after.contains(x) {
                            let k = choose|k: int| 0 <= k < after.len() && after[k] == x;
                            let from = if k < i {
                                k
                            } else {
                                k + 1
                            };
                            assert(before[from] == x);
                        }
                        if before.contains(x) && x != fact {
                            let k = choose|k: int| 0 <= k < before.len() && before[k] == x;
                            let to = if k < i {
                                k
                            } else {
                                k - 1
                            };
                            assert(after[to] == x);
                        }
                    }
                    assert(self@ =~= old(self)@.remove(fact));
                }
            },
            None => {
                assert(self@ =~= old(self)@.remove(fact));
            },
        }
    }

    /// Drops every `ContainsId` whose id is not one of `live`, and gives those ids.
    fn drop_departed(&mut self, live: &[Id]) -> (departed: Vec<Id>)
        requires
            old(self).wf(),
        ensures
            final(self).wf(),
            departed@.no_duplicates(),
            forall|id: Id| #[trigger]
                departed@.contains(id) <==> old(self)@.contains(Invariant::ContainsId(id))
                    && !live@.contains(id),
            forall|fact: Invariant| #[trigger]
                final(self)@.contains(fact) <==> old(self)@.contains(fact) && (
                fact matches Invariant::ContainsId(id) ==> live@.contains(id)),
    {
        let mut kept: Vec<Invariant> = Vec::new();
        let mut departed: Vec<Id> = Vec::new();
        let ghost all = self.invariants@;
        let mut i: usize = 0;
        while i < self.invariants.len()
            invariant
                i <= self.invariants.len(),
                all == self.invariants@,
                all.no_duplicates(),
                kept@.no_duplicates(),
                departed@.no_duplicates(),
                forall|id: Id| #[trigger]
                    departed@.contains(id) <==> all.take(i as int).contains(
                        Invariant::ContainsId(id),
                    ) && !live@.contains(id),
                forall|fact: Invariant| #[trigger]
                    kept@.contains(fact) <==> all.take(i as int).contains(fact) && (
                    fact matches Invariant::ContainsId(id) ==> live@.contains(id)),
            decreases self.invariants.len() - i,
        {
            let fact = self.invariants[i];
            proof {
                assert(!all.take(i as int).contains(fact));
                assert(all.take(i + 1) =~= all.take(i as int).push(fact));
                lemma_push_contains(all.take(i as int), fact);
            }
            let gone = match fact {
                Invariant::ContainsId(id) => if contains_id(live, id) {
                    None
                } else {
                    Some(id)
                },
                _ => None,
            };
            match gone {
                Some(id) => {
                    proof {
                        lemma_push_contains(departed@, id);
                    }
                    departed.push(id);
                },
                None => {
                    proof {
                        lemma_push_contains(kept@, fact);
                    }
                    kept.push(fact);
                },
            }
            i += 1;
        }
        assert(all.take(all.len() as int) =~= all);
        self.invariants = kept;
        departed
    }

    /// Brings the model up to date with an operation on the map.
    ///
    /// `ids` are the ids of the test ids. `evicts` says whether the map evicts an entry that a
    /// peer does not know. `live` are the ids whose entry is in the map, before time advances,
    /// and not retired; only `AdvanceTime` looks at it. An id that departs as time advances must
    /// not have departed before.
    pub fn perform(&mut self, operation: Operation, ids: &IdTable, evicts: bool, live: &[Id])
        requires
            old(self).wf(),
            operation is AdvanceTime ==> departures_are_new(old(self)@, live@),
        ensures
            final(self).wf(),
            final(self)@ == performed(old(self)@, operation, ids@, evicts, live@),
    {
        match operation {
            Operation::Insert { ip, path_secret_id } => {
                let ip = Peer::from_octet(ip);
                let id = path_secret_id.id(ids);
                self.insert(Invariant::ContainsIp(ip));
                self.insert(Invariant::ContainsId(id));
            },
            Operation::AdvanceTime => {
                let departed = self.drop_departed(live);
                let ghost kept = self@;
                proof {
                    assert forall|k: int| 0 <= k < departed.len() implies !kept.contains(
                        Invariant::IdRemoved(#[trigger] departed@[k]),
                    ) by {
                        assert(departed@.contains(departed@[k]));
                        assert(!old(self)@.contains(Invariant::IdRemoved(departed@[k])));
                    }
                }
                let mut i: usize = 0;
                while i < departed.len()
                    invariant
                        i <= departed.len(),
                        self.wf(),
                        departed@.no_duplicates(),
                        forall|k: int|
                            0 <= k < departed.len() ==> !kept.contains(
                                Invariant::IdRemoved(#[trigger] departed@[k]),
                            ),
                        forall|fact: Invariant| #[trigger]
                            self@.contains(fact) <==> kept.contains(fact) || (
                            fact matches Invariant::IdRemoved(id) && departed@.take(
                                i as int,
                            ).contains(id)),
                    decreases departed.len() - i,
                {
                    let id = departed[i];
                    proof {
                        assert(!departed@.take(i as int).contains(id));
                        assert(departed@.take(i + 1) =~= departed@.take(i as int).push(id));
                        lemma_push_contains(departed@.take(i as int), id);
                    }
                    let new = self.insert(Invariant::IdRemoved(id));
                    assert(new);
                    i += 1;
                }
                assert(departed@.take(departed.len() as int) =~= departed@);
                assert(self@ =~= performed(old(self)@, operation, ids@, evicts, live@));
            },
            Operation::ReceiveUnknown { path_secret_id } => {
                let id = path_secret_id.id(ids);
                if evicts && self.position(Invariant::ContainsId(id)).is_some() {
                    self.remove(Invariant::ContainsId(id));
                    self.insert(Invariant::IdRemoved(id));
                }
            },
        }
    }

    /// Brings the model up to date with an operation, as `perform` does, and gives what is then to
    /// be done to the map.
    ///
    /// `live` has been looked up by the time the action is known, so that a cleaning of the map
    /// follows the look-ups and cannot affect them.
    pub fn step(
        &mut self,
        operation: Operation,
        ids: &IdTable,
        evicts: bool,
        live: &[Id],
    ) -> (action: Action)
        requires
            old(self).wf(),
            operation is AdvanceTime ==> departures_are_new(old(self)@, live@),
        ensures
            final(self).wf(),
            final(self)@ == performed(old(self)@, operation, ids@, evicts, live@),
            operation.calls_for(action, ids@),
    {
        self.perform(operation, ids, evicts, live);
        operation.action(ids)
    }

    /// Whether every invariant holds of a map. Names one that does not otherwise; which one, if
    /// there are several, is left open.
    pub fn check_invariants(&self, map: &Snapshot) -> (checked: Result<(), Invariant>)
        ensures
            checked is Ok <==> all_hold(self@, *map),
            checked matches Err(fact) ==> self@.contains(fact) && !fact.holds(*map),
    {
        let mut i: usize = 0;
        while i < self.invariants.len()
            invariant
                i <= self.invariants.len(),
                forall|k: int| 0 <= k < i ==> (#[trigger] self.invariants@[k]).holds(*map),
            decreases self.invariants.len() - i,
        {
            let fact = self.invariants[i];
            // A map of small capacity evicts peers at random, so that little can be expected of
            // what it contains.
            let holds = match fact {
                Invariant::ContainsIp(ip) => {
                    map.max_capacity == SMALL_CAPACITY || contains_peer(map.peers.as_slice(), ip)
                },
                Invariant::ContainsId(id) => {
                    map.max_capacity == SMALL_CAPACITY || contains_id(map.ids.as_slice(), id)
                },
                Invariant::IdRemoved(id) => !contains_id(map.ids.as_slice(), id),
            };
            if !holds {
                assert(self@.contains(fact));
                return Err(fact);
            }
            i += 1;
        }
        Ok(())
    }
}

/// What a sequence contains once an element has been appended.
proof fn lemma_push_contains<A>(s: Seq<A>, a: A)
    ensures
        forall|x: A| #[trigger] s.push(a).contains(x) <==> s.contains(x) || x == a,
        s.no_duplicates() && !s.contains(a) ==> s.push(a).no_duplicates(),
{
    assert forall|x: A| #[trigger] s.push(a).contains(x) <==> s.contains(x) || x == a by {
        if s.contains(x) {
            let k = choose|k: int| 0 <= k < s.len() && s[k] == x;
            assert(s.push(a)[k] == x);
        }
        assert(s.push(a)[s.len() as int] == a);
    }
}

/// Once a peer has had an entry, or an id has been removed, it stays so whatever happens.
pub proof fn law_peers_and_removals_last(
    invariants: Set<Invariant>,
    operation: Operation,
    ids: Seq<Id>,
    evicts: bool,
    live: Seq<Id>,
    fact: Invariant,
)
    requires
        invariants.contains(fact),
        fact is ContainsIp || fact is IdRemoved,
    ensures
        performed(invariants, operation, ids, evicts, live).contains(fact),
{
}

/// An id that must be in the map stays so until it departs as time advances, or its eviction is
/// asked for; from then on it must not be in the map.
pub proof fn law_ids_stay_until_removed(
    invariants: Set<Invariant>,
    operation: Operation,
    ids: Seq<Id>,
    evicts: bool,
    live: Seq<Id>,
    id: Id,
)
    requires
        invariants.contains(Invariant::ContainsId(id)),
    ensures
        ({
            let after = performed(invariants, operation, ids, evicts, live);
            let departs = match operation {
                Operation::Insert { .. } => false,
                Operation::AdvanceTime => !live.contains(id),
                Operation::ReceiveUnknown { path_secret_id } => evicts
                    && ids[path_secret_id.0 as int] == id,
            };
            &&& after.contains(Invariant::ContainsId(id)) <==> !departs
            &&& departs ==> after.contains(Invariant::IdRemoved(id))
        }),
{
}

/// A map that does not evict what peers do not know is not affected by what they say.
pub proof fn law_unknown_is_ignored_without_eviction(
    invariants: Set<Invariant>,
    operation: Operation,
    ids: Seq<Id>,
    live: Seq<Id>,
)
    requires
        operation is ReceiveUnknown,
    ensures
        performed(invariants, operation, ids, false, live) == invariants,
{
}

/// Of a map with small capacity only the removals are expected.
pub proof fn law_small_maps_owe_removals_only(invariants: Set<Invariant>, map: Snapshot)
    requires
        map.max_capacity == SMALL_CAPACITY,
    ensures
        all_hold(invariants, map) <==> forall|id: Id| #[trigger]
            invariants.contains(Invariant::IdRemoved(id)) ==> !map.ids@.contains(id),
{
    if forall|id: Id| #[trigger]
        invariants.contains(Invariant::IdRemoved(id)) ==> !map.ids@.contains(id) {
        assert(all_hold(invariants, map));
    } else {
        let id = choose|id: Id| #[trigger]
            invariants.contains(Invariant::IdRemoved(id)) && map.ids@.contains(id);
        assert(!Invariant::IdRemoved(id).holds(map));
    }
}

/// An insertion is always demanded: whatever had to hold before, its peer and its id must be in
/// the map after it. It changes nothing else.
pub proof fn law_insertion_demands_its_peer_and_its_id(
    invariants: Set<Invariant>,
    ip: u8,
    path_secret_id: TestId,
    ids: Seq<Id>,
    evicts: bool,
    live: Seq<Id>,
    fact: Invariant,
)
    ensures
        ({
            let after = performed(
                invariants,
                Operation::Insert { ip, path_secret_id },
                ids,
                evicts,
                live,
            );
            let peer = Peer { ip: ip as u32, port: 0 };
            let id = ids[path_secret_id.0 as int];
            &&& after.contains(Invariant::ContainsIp(peer))
            &&& after.contains(Invariant::ContainsId(id))
            &&& fact != Invariant::ContainsIp(peer) && fact != Invariant::ContainsId(id)
                ==> after.contains(fact) == invariants.contains(fact)
        }),
{
}

/// Time takes ids away and nothing else: an id that must be in the map goes on to be demanded
/// exactly if it is live, and is demanded to be gone if it is not. No peer is affected, nor an id
/// that need not be in the map.
pub proof fn law_time_removes_what_is_not_live(
    invariants: Set<Invariant>,
    ids: Seq<Id>,
    evicts: bool,
    live: Seq<Id>,
    peer: Peer,
    id: Id,
)
    ensures
        ({
            let after = performed(invariants, Operation::AdvanceTime, ids, evicts, live);
            let here = invariants.contains(Invariant::ContainsId(id));
            let gone = invariants.contains(Invariant::IdRemoved(id));
            &&& after.contains(Invariant::ContainsIp(peer)) == invariants.contains(
                Invariant::ContainsIp(peer),
            )
            &&& after.contains(Invariant::ContainsId(id)) == (here && live.contains(id))
            &&& after.contains(Invariant::IdRemoved(id)) == (gone || here && !live.contains(id))
        }),
{
}

/// What a peer does not know is removed if the map evicts and the id must be in it: of that id
/// alone, and then it must be gone. Otherwise nothing changes.
pub proof fn law_unknown_id_is_removed_alone(
    invariants: Set<Invariant>,
    path_secret_id: TestId,
    ids: Seq<Id>,
    evicts: bool,
    live: Seq<Id>,
    fact: Invariant,
)
    ensures
        ({
            let id = ids[path_secret_id.0 as int];
            let here = invariants.contains(Invariant::ContainsId(id));
            let after = performed(
                invariants,
                Operation::ReceiveUnknown { path_secret_id },
                ids,
                evicts,
                live,
            );
            &&& fact != Invariant::ContainsId(id) && fact != Invariant::IdRemoved(id)
                ==> after.contains(fact) == invariants.contains(fact)
            &&& after.contains(Invariant::ContainsId(id)) == (here && !evicts)
            &&& after.contains(Invariant::IdRemoved(id)) == (invariants.contains(
                Invariant::IdRemoved(id),
            ) || here && evicts)
        }),
{
}

/// What a map owes: the ids that must be gone are gone from it, whatever its capacity; and unless
/// its capacity is 5, every peer and every id that must be there is there. It owes nothing else.
pub proof fn law_maps_owe_what_is_demanded(invariants: Set<Invariant>, map: Snapshot)
    ensures
        all_hold(invariants, map) <==> {
            &&& forall|id: Id| #[trigger]
                invariants.contains(Invariant::IdRemoved(id)) ==> !map.ids@.contains(id)
            &&& map.max_capacity != 5 ==> forall|id: Id| #[trigger]
                invariants.contains(Invariant::ContainsId(id)) ==> map.ids@.contains(id)
            &&& map.max_capacity != 5 ==> forall|peer: Peer| #[trigger]
                invariants.contains(Invariant::ContainsIp(peer)) ==> map.peers@.contains(peer)
        },
{
    if all_hold(invariants, map) {
        assert forall|id: Id| #[trigger]
            invariants.contains(Invariant::IdRemoved(id)) implies !map.ids@.contains(id) by {
            assert(Invariant::IdRemoved(id).holds(map));
        }
        if map.max_capacity != 5 {
            assert forall|id: Id| #[trigger]
                invariants.contains(Invariant::ContainsId(id)) implies map.ids@.contains(id) by {
                assert(Invariant::ContainsId(id).holds(map));
            }
            assert forall|peer: Peer| #[trigger]
                invariants.contains(Invariant::ContainsIp(peer)) implies map.peers@.contains(
                peer,
            ) by {
                assert(Invariant::ContainsIp(peer).holds(map));
            }
        }
    }
}

/// A single demand is met exactly by the maps that hold what it asks for: a peer or an id, unless
/// the capacity is 5, or the absence of an id, whatever the capacity.
pub proof fn law_single_demands(map: Snapshot, peer: Peer, id: Id)
    ensures
        Invariant::ContainsIp(peer).holds(map) <==> map.max_capacity == 5 || exists|k: int|
            0 <= k < map.peers@.len() && #[trigger] map.peers@[k] == peer,
        Invariant::ContainsId(id).holds(map) <==> map.max_capacity == 5 || exists|k: int|
            0 <= k < map.ids@.len() && #[trigger] map.ids@[k] == id,
        Invariant::IdRemoved(id).holds(map) <==> forall|k: int|
            0 <= k < map.ids@.len() ==> #[trigger] map.ids@[k] != id,
{
}

} // verus!
