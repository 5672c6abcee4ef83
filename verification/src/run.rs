//! Holds a whole run of operations against the model.

use crate::model::{
    all_hold, departures_are_new, law_maps_owe_what_is_demanded, performed, Invariant, Model, Snapshot,
    SMALL_CAPACITY,
};
use crate::operation::{
    duplicate_pids, has_duplicate_pids, valid_ids, Id, IdTable, Operation, Peer, TestId,
};
use vstd::prelude::*;

verus! {

/// What is seen of the map around one operation.
#[derive(Debug)]
pub struct Observation {
    /// The ids whose entry is in the map before the operation, and not retired.
    pub live: Vec<Id>,
    /// The map after the operation.
    pub after: Snapshot,
}

/// What came of a run.
#[derive(Clone, Copy, Debug, PartialEq, Eq, Structural)]
pub enum Outcome {
    /// A path secret is inserted twice, so that the run says nothing.
    Ignored,
    /// The map met every invariant after every operation.
    Held,
    /// An invariant was broken, first after the operation with the number `step`.
    Broken { step: usize, broken: Invariant },
}

/// What must hold after a series of operations on an empty map.
pub open spec fn demands(
    ops: Seq<Operation>,
    ids: Seq<Id>,
    evicts: bool,
    observed: Seq<Observation>,
) -> Set<Invariant>
    decreases ops.len(),
{
    if ops.len() == 0 {
        Set::empty()
    } else {
        performed(
            demands(ops.drop_last(), ids, evicts, observed),
            ops.last(),
            ids,
            evicts,
            observed[ops.len() - 1].live@,
        )
    }
}

/// Whether the map meets every invariant after the operation with the number `step`.
pub open spec fn step_holds(
    ops: Seq<Operation>,
    ids: Seq<Id>,
    evicts: bool,
    observed: Seq<Observation>,
    step: int,
) -> bool {
    all_hold(demands(ops.take(step + 1), ids, evicts, observed), observed[step].after)
}

/// Whether no id is both required and forbidden.
pub open spec fn consistent(invariants: Set<Invariant>) -> bool {
    forall|id: Id|
        !(#[trigger] invariants.contains(Invariant::ContainsId(id)) && invariants.contains(
            Invariant::IdRemoved(id),
        ))
}

/// Whether one of `ops` inserts an entry for the path secret with the given id.
pub open spec fn inserted(ops: Seq<Operation>, ids: Seq<Id>, id: Id) -> bool {
    exists|i: int, name: TestId|
        0 <= i < ops.len() && #[trigger] ops[i].inserts(name) && ids[name.0 as int] == id
}

/// Before the first operation every map meets the model: nothing is demanded yet.
pub proof fn law_every_map_meets_the_empty_run(
    ids: Seq<Id>,
    evicts: bool,
    observed: Seq<Observation>,
    map: Snapshot,
)
    ensures
        demands(Seq::empty(), ids, evicts, observed) == Set::<Invariant>::empty(),
        all_hold(demands(Seq::empty(), ids, evicts, observed), map),
{
}

/// Every id that must be in the map, or must not, was inserted once: nothing is demanded of an
/// id that was never heard of.
pub proof fn law_demands_speak_of_inserted_ids(
    ops: Seq<Operation>,
    ids: Seq<Id>,
    evicts: bool,
    observed: Seq<Observation>,
    id: Id,
)
    requires
        demands(ops, ids, evicts, observed).contains(Invariant::ContainsId(id)) || demands(
            ops,
            ids,
            evicts,
            observed,
        ).contains(Invariant::IdRemoved(id)),
    ensures
        inserted(ops, ids, id),
    decreases ops.len(),
{
    if ops.len() > 0 {
        let front = ops.drop_last();
        let before = demands(front, ids, evicts, observed);
        if before.contains(Invariant::ContainsId(id)) || before.contains(Invariant::IdRemoved(id)) {
            law_demands_speak_of_inserted_ids(front, ids, evicts, observed, id);
            let (i, name) = choose|i: int, name: TestId|
                0 <= i < front.len() && #[trigger] front[i].inserts(name) && ids[name.0 as int]
                    == id;
            assert(ops[i].inserts(name));
        } else {
            let name = ops.last()->Insert_path_secret_id;
            assert(ops[ops.len() - 1].inserts(name));
        }
    }
}

/// If no path secret is inserted twice, the model never contradicts itself: no id is both
/// required and forbidden. So an id that departs as time advances has not departed before.
pub proof fn law_model_is_consistent(
    ops: Seq<Operation>,
    ids: Seq<Id>,
    evicts: bool,
    observed: Seq<Observation>,
    live: Seq<Id>,
)
    requires
        valid_ids(ids),
        !duplicate_pids(ops),
    ensures
        consistent(demands(ops, ids, evicts, observed)),
        departures_are_new(demands(ops, ids, evicts, observed), live),
    decreases ops.len(),
{
    if ops.len() > 0 {
        let front = ops.drop_last();
        let before = demands(front, ids, evicts, observed);
        let after = demands(ops, ids, evicts, observed);
        lemma_take_has_no_duplicate(ops, ops.len() - 1);
        assert(ops.take(ops.len() - 1) =~= front);
        law_model_is_consistent(front, ids, evicts, observed, live);
        assert forall|id: Id|
            !(#[trigger] after.contains(Invariant::ContainsId(id)) && after.contains(
                Invariant::IdRemoved(id),
            )) by {
            let _ = before.contains(Invariant::ContainsId(id));
            if ops.last() is Insert && before.contains(Invariant::IdRemoved(id)) {
                let name = ops.last()->Insert_path_secret_id;
                if ids[name.0 as int] == id {
                    law_demands_speak_of_inserted_ids(front, ids, evicts, observed, id);
                    let (i, earlier) = choose|i: int, earlier: TestId|
                        0 <= i < front.len() && #[trigger] front[i].inserts(earlier)
                            && ids[earlier.0 as int] == id;
                    assert(earlier == name);
                    assert(ops[i].inserts(name));
                    assert(ops[ops.len() - 1].inserts(name));
                }
            }
        }
    }
}

/// The first `n` operations of a run without duplicates have none either.
proof fn lemma_take_has_no_duplicate(ops: Seq<Operation>, n: int)
    requires
        0 <= n <= ops.len(),
        !duplicate_pids(ops),
    ensures
        !duplicate_pids(ops.take(n)),
{
    let front = ops.take(n);
    if duplicate_pids(front) {
        let (i, j, id) = choose|i: int, j: int, id: TestId|
            0 <= i < j < front.len() && #[trigger] front[i].inserts(id)
                && #[trigger] front[j].inserts(id);
        assert(ops[i].inserts(id) && ops[j].inserts(id));
    }
}

/// Holds a run of operations on a map, which was empty at first, against the model.
///
/// `observed` says for each operation what was seen of the map, and `evicts` whether the map
/// evicts an entry that a peer does not know. A run that inserts a path secret twice is ignored: it
/// need not be performed, and nothing is asked of what was seen of it. A run on a map that does
/// what the operations say holds, unless the map evicts peers and its capacity is not small.
pub fn check_invariants_inner(
    ops: &[Operation],
    ids: &IdTable,
    evicts: bool,
    observed: &[Observation],
) -> (outcome: Outcome)
    requires
        !duplicate_pids(ops@) ==> observed@.len() == ops@.len(),
    ensures
        outcome is Ignored <==> duplicate_pids(ops@),
        outcome is Held <==> !duplicate_pids(ops@) && forall|step: int|
            0 <= step < ops@.len() ==> #[trigger] step_holds(
                ops@,
                ids@,
                evicts,
                observed@,
                step,
            ),
        outcome matches Outcome::Broken { step, broken } ==> {
            let invariants = demands(ops@.take(step + 1), ids@, evicts, observed@);
            &&& step < ops@.len()
            &&& invariants.contains(broken)
            &&& !broken.holds(observed@[step as int].after)
            &&& forall|earlier: int|
                0 <= earlier < step ==> #[trigger] step_holds(
                    ops@,
                    ids@,
                    evicts,
                    observed@,
                    earlier,
                )
        },
        outcome is Broken <==> !duplicate_pids(ops@) && exists|step: int|
            0 <= step < ops@.len() && !#[trigger] step_holds(ops@, ids@, evicts, observed@, step),
        forall|capacity: usize|
            {
                &&& !duplicate_pids(ops@)
                &&& #[trigger] faithful(ops@, ids@, evicts, observed@, capacity)
                &&& !evicts || capacity == SMALL_CAPACITY
            } ==> outcome is Held,
{
    if has_duplicate_pids(ops) {
        return Outcome::Ignored;
    }
    proof {
        use_type_invariant(ids);
    }
    let mut model = Model::default();
    let mut i: usize = 0;
    while i < ops.len()
        invariant
            i <= ops.len(),
            observed@.len() == ops@.len(),
            valid_ids(ids@),
            !duplicate_pids(ops@),
            model.wf(),
            model@ == demands(ops@.take(i as int), ids@, evicts, observed@),
            forall|step: int|
                0 <= step < i ==> #[trigger] step_holds(ops@, ids@, evicts, observed@, step),
        decreases ops.len() - i,
    {
        proof {
            lemma_take_has_no_duplicate(ops@, i as int);
            law_model_is_consistent(
                ops@.take(i as int),
                ids@,
                evicts,
                observed@,
                observed@[i as int].live@,
            );
            assert(ops@.take(i + 1).drop_last() =~= ops@.take(i as int));
        }
        let seen = &observed[i];
        model.perform(ops[i], ids, evicts, seen.live.as_slice());
        match model.check_invariants(&seen.after) {
            Ok(()) => {
                assert(step_holds(ops@, ids@, evicts, observed@, i as int));
            },
            Err(broken) => {
                assert(!step_holds(ops@, ids@, evicts, observed@, i as int));
                proof {
                    assert forall|capacity: usize| #[trigger]
                        faithful(ops@, ids@, evicts, observed@, capacity) implies evicts && capacity
                        != SMALL_CAPACITY by {
                        if !evicts || capacity == SMALL_CAPACITY {
                            law_faithful_map_meets_every_invariant(
                                ops@,
                                ids@,
                                evicts,
                                observed@,
                                capacity,
                                i as int,
                            );
                        }
                    }
                }
                return Outcome::Broken { step: i, broken };
            },
        }
        i += 1;
    }
    Outcome::Held
}

/// The peers that have an entry before the operation with the number `step`.
pub open spec fn peers_before(observed: Seq<Observation>, step: int) -> Seq<Peer> {
    if step == 0 {
        Seq::empty()
    } else {
        observed[step - 1].after.peers@
    }
}

/// The ids that have an entry before the operation with the number `step`.
pub open spec fn ids_before(observed: Seq<Observation>, step: int) -> Seq<Id> {
    if step == 0 {
        Seq::empty()
    } else {
        observed[step - 1].after.ids@
    }
}

/// Whether an id may have an entry after the operation with the number `step`: it is inserted, or
/// it had one and the operation does not remove it. `AdvanceTime` removes the ids that are not
/// live, and `ReceiveUnknown` the id that the peer does not know, if the map evicts such ids.
pub open spec fn may_contain(
    ops: Seq<Operation>,
    ids: Seq<Id>,
    evicts: bool,
    observed: Seq<Observation>,
    step: int,
    id: Id,
) -> bool {
    match ops[step] {
        Operation::Insert { path_secret_id, .. } => ids_before(observed, step).contains(id) || id
            == ids[path_secret_id.0 as int],
        Operation::AdvanceTime => ids_before(observed, step).contains(id)
            && observed[step].live@.contains(id),
        Operation::ReceiveUnknown { path_secret_id } => ids_before(observed, step).contains(id)
            && !(evicts && id == ids[path_secret_id.0 as int]),
    }
}

/// Whether the map does in one step what the operation says: it has no entry that it may not
/// have, and, unless its capacity is small, it loses no id that it may have, and no peer, except
/// the one peer whose entry an eviction takes.
pub open spec fn faithful_step(
    ops: Seq<Operation>,
    ids: Seq<Id>,
    evicts: bool,
    observed: Seq<Observation>,
    step: int,
) -> bool {
    let after = observed[step].after;
    &&& forall|id: Id| #[trigger]
        after.ids@.contains(id) ==> may_contain(ops, ids, evicts, observed, step, id)
    &&& after.max_capacity != SMALL_CAPACITY ==> {
        &&& forall|id: Id| #[trigger]
            may_contain(ops, ids, evicts, observed, step, id) ==> after.ids@.contains(id)
        &&& if evicts && ops[step] is ReceiveUnknown {
            exists|evicted: Peer| #[trigger] keeps_peers_but(observed, step, evicted)
        } else {
            forall|peer: Peer| #[trigger]
                peers_before(observed, step).contains(peer) ==> after.peers@.contains(peer)
        }
        &&& ops[step] matches Operation::Insert { ip, .. } ==> after.peers@.contains(
            Peer::from_octet_spec(ip),
        )
    }
}

/// Whether every peer but `evicted` that had an entry before the operation with the number `step`
/// has one after it.
pub open spec fn keeps_peers_but(observed: Seq<Observation>, step: int, evicted: Peer) -> bool {
    forall|peer: Peer|
        peer != evicted && #[trigger] peers_before(observed, step).contains(peer)
            ==> observed[step].after.peers@.contains(peer)
}

/// Whether the map is faithful in each of the steps, and its capacity is the same throughout.
pub open spec fn faithful(
    ops: Seq<Operation>,
    ids: Seq<Id>,
    evicts: bool,
    observed: Seq<Observation>,
    capacity: usize,
) -> bool {
    &&& forall|step: int|
        0 <= step < ops.len() ==> (#[trigger] observed[step]).after.max_capacity == capacity
    &&& forall|step: int|
        0 <= step < ops.len() ==> #[trigger] faithful_step(ops, ids, evicts, observed, step)
}

/// The beginning of a faithful run is one too.
proof fn lemma_take_is_faithful(
    ops: Seq<Operation>,
    ids: Seq<Id>,
    evicts: bool,
    observed: Seq<Observation>,
    capacity: usize,
    n: int,
)
    requires
        0 <= n <= ops.len(),
        faithful(ops, ids, evicts, observed, capacity),
    ensures
        faithful(ops.take(n), ids, evicts, observed, capacity),
{
    let front = ops.take(n);
    assert forall|step: int| 0 <= step < front.len() implies #[trigger] faithful_step(
        front,
        ids,
        evicts,
        observed,
        step,
    ) by {
        assert(faithful_step(ops, ids, evicts, observed, step));
        assert forall|id: Id|
            may_contain(ops, ids, evicts, observed, step, id) == #[trigger] may_contain(
                front,
                ids,
                evicts,
                observed,
                step,
                id,
            ) by {}
    }
}

/// What a faithful map holds after a series of operations: no id that must not be there, and,
/// unless its capacity is small, every id that must be, and every peer if nothing is evicted.
proof fn lemma_faithful_map(
    ops: Seq<Operation>,
    ids: Seq<Id>,
    evicts: bool,
    observed: Seq<Observation>,
    capacity: usize,
)
    requires
        valid_ids(ids),
        !duplicate_pids(ops),
        faithful(ops, ids, evicts, observed, capacity),
    ensures
        forall|peer: Peer|
            !evicts && capacity != SMALL_CAPACITY && #[trigger] demands(ops, ids, evicts, observed).contains(
                Invariant::ContainsIp(peer),
            ) ==> peers_before(observed, ops.len() as int).contains(peer),
        forall|id: Id|
            capacity != SMALL_CAPACITY && #[trigger] demands(ops, ids, evicts, observed).contains(
                Invariant::ContainsId(id),
            ) ==> ids_before(observed, ops.len() as int).contains(id),
        forall|id: Id| #[trigger]
            demands(ops, ids, evicts, observed).contains(Invariant::IdRemoved(id)) ==> !ids_before(
                observed,
                ops.len() as int,
            ).contains(id),
    decreases ops.len(),
{
    if ops.len() > 0 {
        let front = ops.drop_last();
        let last = ops.len() - 1;
        assert(ops.take(last) =~= front);
        lemma_take_has_no_duplicate(ops, last);
        lemma_take_is_faithful(ops, ids, evicts, observed, capacity, last);
        lemma_faithful_map(front, ids, evicts, observed, capacity);
        law_model_is_consistent(ops, ids, evicts, observed, Seq::empty());
        assert(faithful_step(ops, ids, evicts, observed, last));
        let before = demands(front, ids, evicts, observed);
        let after = demands(ops, ids, evicts, observed);
        assert forall|peer: Peer|
            !evicts && capacity != SMALL_CAPACITY && #[trigger] after.contains(
                Invariant::ContainsIp(peer),
            ) implies peers_before(observed, ops.len() as int).contains(peer) by {
            if before.contains(Invariant::ContainsIp(peer)) {
                assert(peers_before(observed, last).contains(peer));
            }
        }
        assert forall|id: Id|
            capacity != SMALL_CAPACITY && #[trigger] after.contains(
                Invariant::ContainsId(id),
            ) implies ids_before(observed, ops.len() as int).contains(id) by {
            let _ = before.contains(Invariant::ContainsId(id));
            assert(may_contain(ops, ids, evicts, observed, last, id));
        }
        assert forall|id: Id| #[trigger]
            after.contains(Invariant::IdRemoved(id)) implies !ids_before(
            observed,
            ops.len() as int,
        ).contains(id) by {
            let _ = before.contains(Invariant::IdRemoved(id));
            let _ = after.contains(Invariant::ContainsId(id));
            assert(!may_contain(ops, ids, evicts, observed, last, id));
        }
    }
}

/// The model asks for no id that a map cannot hold or drop: a map that does in each step what the
/// operation says meets every invariant on ids after every operation.
pub proof fn law_faithful_map_meets_id_invariants(
    ops: Seq<Operation>,
    ids: Seq<Id>,
    evicts: bool,
    observed: Seq<Observation>,
    capacity: usize,
    step: int,
    fact: Invariant,
)
    requires
        valid_ids(ids),
        !duplicate_pids(ops),
        faithful(ops, ids, evicts, observed, capacity),
        0 <= step < ops.len(),
        demands(ops.take(step + 1), ids, evicts, observed).contains(fact),
        fact is ContainsId || fact is IdRemoved,
    ensures
        fact.holds(observed[step].after),
{
    lemma_take_has_no_duplicate(ops, step + 1);
    lemma_take_is_faithful(ops, ids, evicts, observed, capacity, step + 1);
    lemma_faithful_map(ops.take(step + 1), ids, evicts, observed, capacity);
    assert(faithful_step(ops, ids, evicts, observed, step));
}

/// The model asks for nothing that a map cannot do: a map that does in each step what the
/// operation says meets every invariant after every operation. This is for maps that evict
/// nothing and for maps of small capacity. In any other map an eviction takes a peer that the
/// model goes on to ask for.
pub proof fn law_faithful_map_meets_every_invariant(
    ops: Seq<Operation>,
    ids: Seq<Id>,
    evicts: bool,
    observed: Seq<Observation>,
    capacity: usize,
    step: int,
)
    requires
        valid_ids(ids),
        !duplicate_pids(ops),
        faithful(ops, ids, evicts, observed, capacity),
        !evicts || capacity == SMALL_CAPACITY,
        0 <= step < ops.len(),
    ensures
        step_holds(ops, ids, evicts, observed, step),
{
    lemma_take_has_no_duplicate(ops, step + 1);
    lemma_take_is_faithful(ops, ids, evicts, observed, capacity, step + 1);
    lemma_faithful_map(ops.take(step + 1), ids, evicts, observed, capacity);
    assert(faithful_step(ops, ids, evicts, observed, step));
}

/// Whether the operation inserts an entry for the path secret with the given id.
pub open spec fn inserts_id(operation: Operation, ids: Seq<Id>, id: Id) -> bool {
    operation matches Operation::Insert { path_secret_id, .. } && ids[path_secret_id.0 as int] == id
}

/// Whether the operation inserts an entry for the given peer.
pub open spec fn inserts_peer(operation: Operation, peer: Peer) -> bool {
    operation matches Operation::Insert { ip, .. } && peer == (Peer { ip: ip as u32, port: 0 })
}

/// Whether the operation takes the given id out of a map: time advances and the id is not live,
/// or a peer does not know it and the map evicts such ids.
pub open spec fn takes_id(
    operation: Operation,
    ids: Seq<Id>,
    evicts: bool,
    live: Seq<Id>,
    id: Id,
) -> bool {
    match operation {
        Operation::Insert { .. } => false,
        Operation::AdvanceTime => !live.contains(id),
        Operation::ReceiveUnknown { path_secret_id } => evicts && ids[path_secret_id.0 as int]
            == id,
    }
}

/// Whether one of `ops` inserts an entry for the given peer.
pub open spec fn peer_came(ops: Seq<Operation>, peer: Peer) -> bool {
    exists|i: int| 0 <= i < ops.len() && inserts_peer(#[trigger] ops[i], peer)
}

/// Whether an id was inserted and has not been taken since.
pub open spec fn id_stays(
    ops: Seq<Operation>,
    ids: Seq<Id>,
    evicts: bool,
    observed: Seq<Observation>,
    id: Id,
) -> bool {
    exists|i: int|
        {
            &&& 0 <= i < ops.len()
            &&& inserts_id(#[trigger] ops[i], ids, id)
            &&& forall|j: int|
                i < j < ops.len() ==> !takes_id(
                    #[trigger] ops[j],
                    ids,
                    evicts,
                    observed[j].live@,
                    id,
                )
        }
}

/// Whether an id was inserted and has been taken since.
pub open spec fn id_left(
    ops: Seq<Operation>,
    ids: Seq<Id>,
    evicts: bool,
    observed: Seq<Observation>,
    id: Id,
) -> bool {
    exists|i: int, j: int|
        {
            &&& 0 <= i < j < ops.len()
            &&& inserts_id(#[trigger] ops[i], ids, id)
            &&& takes_id(#[trigger] ops[j], ids, evicts, observed[j].live@, id)
        }
}

/// The model remembers the peers that came: a peer is demanded exactly if it was inserted.
pub proof fn law_demanded_peers_are_those_that_came(
    ops: Seq<Operation>,
    ids: Seq<Id>,
    evicts: bool,
    observed: Seq<Observation>,
    peer: Peer,
)
    ensures
        demands(ops, ids, evicts, observed).contains(Invariant::ContainsIp(peer)) <==> peer_came(
            ops,
            peer,
        ),
    decreases ops.len(),
{
    if ops.len() > 0 {
        let front = ops.drop_last();
        law_demanded_peers_are_those_that_came(front, ids, evicts, observed, peer);
        let last = ops.len() - 1;
        assert(ops[last] == ops.last());
        if peer_came(front, peer) {
            let i = choose|i: int| 0 <= i < front.len() && inserts_peer(#[trigger] front[i], peer);
            assert(inserts_peer(ops[i], peer));
        }
        if peer_came(ops, peer) && !inserts_peer(ops.last(), peer) {
            let i = choose|i: int| 0 <= i < ops.len() && inserts_peer(#[trigger] ops[i], peer);
            assert(inserts_peer(front[i], peer));
        }
    }
}

/// The model remembers the ids that stay and those that left: an id is demanded to be in the map
/// exactly if it was inserted and not taken since, and demanded to be gone exactly if it was taken
/// at some time after it was inserted.
pub proof fn law_demanded_ids_are_those_that_stay_or_left(
    ops: Seq<Operation>,
    ids: Seq<Id>,
    evicts: bool,
    observed: Seq<Observation>,
    id: Id,
)
    ensures
        demands(ops, ids, evicts, observed).contains(Invariant::ContainsId(id)) <==> id_stays(
            ops,
            ids,
            evicts,
            observed,
            id,
        ),
        demands(ops, ids, evicts, observed).contains(Invariant::IdRemoved(id)) <==> id_left(
            ops,
            ids,
            evicts,
            observed,
            id,
        ),
    decreases ops.len(),
{
    if ops.len() > 0 {
        let front = ops.drop_last();
        let last = ops.len() - 1;
        law_demanded_ids_are_those_that_stay_or_left(front, ids, evicts, observed, id);
        assert(ops[last] == ops.last());
        assert(forall|k: int| 0 <= k < last ==> front[k] == ops[k]);
        let taken = takes_id(ops[last], ids, evicts, observed[last].live@, id);
        if id_stays(front, ids, evicts, observed, id) {
            let i = choose|i: int|
                {
                    &&& 0 <= i < front.len()
                    &&& inserts_id(#[trigger] front[i], ids, id)
                    &&& forall|j: int|
                        i < j < front.len() ==> !takes_id(
                            #[trigger] front[j],
                            ids,
                            evicts,
                            observed[j].live@,
                            id,
                        )
                };
            assert(inserts_id(ops[i], ids, id));
            if !taken {
                assert forall|j: int| i < j < ops.len() implies !takes_id(
                    #[trigger] ops[j],
                    ids,
                    evicts,
                    observed[j].live@,
                    id,
                ) by {
                    if j < last {
                        assert(front[j] == ops[j]);
                    }
                }
            }
        }
        if id_stays(ops, ids, evicts, observed, id) && !inserts_id(ops[last], ids, id) {
            let i = choose|i: int|
                {
                    &&& 0 <= i < ops.len()
                    &&& inserts_id(#[trigger] ops[i], ids, id)
                    &&& forall|j: int|
                        i < j < ops.len() ==> !takes_id(
                            #[trigger] ops[j],
                            ids,
                            evicts,
                            observed[j].live@,
                            id,
                        )
                };
            assert(inserts_id(front[i], ids, id));
            assert forall|j: int| i < j < front.len() implies !takes_id(
                #[trigger] front[j],
                ids,
                evicts,
                observed[j].live@,
                id,
            ) by {
                assert(front[j] == ops[j]);
            }
        }
        if id_left(front, ids, evicts, observed, id) {
            let (i, j) = choose|i: int, j: int|
                {
                    &&& 0 <= i < j < front.len()
                    &&& inserts_id(#[trigger] front[i], ids, id)
                    &&& takes_id(#[trigger] front[j], ids, evicts, observed[j].live@, id)
                };
            assert(inserts_id(ops[i], ids, id));
            assert(takes_id(ops[j], ids, evicts, observed[j].live@, id));
        }
        if id_left(ops, ids, evicts, observed, id) {
            let (i, j) = choose|i: int, j: int|
                {
                    &&& 0 <= i < j < ops.len()
                    &&& inserts_id(#[trigger] ops[i], ids, id)
                    &&& takes_id(#[trigger] ops[j], ids, evicts, observed[j].live@, id)
                };
            assert(inserts_id(front[i], ids, id));
            if j < last {
                assert(takes_id(front[j], ids, evicts, observed[j].live@, id));
            } else {
                lemma_inserted_ids_stay_or_left(front, ids, evicts, observed, id, i);
            }
        }
    }
}

/// An id that was inserted stays or has left.
proof fn lemma_inserted_ids_stay_or_left(
    ops: Seq<Operation>,
    ids: Seq<Id>,
    evicts: bool,
    observed: Seq<Observation>,
    id: Id,
    i: int,
)
    requires
        0 <= i < ops.len(),
        inserts_id(ops[i], ids, id),
    ensures
        id_stays(ops, ids, evicts, observed, id) || id_left(ops, ids, evicts, observed, id),
{
    if exists|j: int|
        i < j < ops.len() && takes_id(#[trigger] ops[j], ids, evicts, observed[j].live@, id) {
        let j = choose|j: int|
            i < j < ops.len() && takes_id(#[trigger] ops[j], ids, evicts, observed[j].live@, id);
        assert(inserts_id(ops[i], ids, id) && takes_id(
            ops[j],
            ids,
            evicts,
            observed[j].live@,
            id,
        ));
    } else {
        assert(inserts_id(ops[i], ids, id));
    }
}

/// No insertion is forgotten: the peer of every insertion is demanded, and its id is demanded
/// either to be in the map or to be gone.
pub proof fn law_every_insertion_is_demanded(
    ops: Seq<Operation>,
    ids: Seq<Id>,
    evicts: bool,
    observed: Seq<Observation>,
    i: int,
)
    requires
        0 <= i < ops.len(),
        ops[i] is Insert,
    ensures
        ({
            let invariants = demands(ops, ids, evicts, observed);
            let id = ids[ops[i]->Insert_path_secret_id.0 as int];
            &&& invariants.contains(Invariant::ContainsIp(Peer { ip: ops[i]->ip as u32, port: 0 }))
            &&& invariants.contains(Invariant::ContainsId(id)) || invariants.contains(
                Invariant::IdRemoved(id),
            )
        }),
{
    let id = ids[ops[i]->Insert_path_secret_id.0 as int];
    let peer = Peer { ip: ops[i]->ip as u32, port: 0 };
    assert(inserts_peer(ops[i], peer));
    law_demanded_peers_are_those_that_came(ops, ids, evicts, observed, peer);
    lemma_inserted_ids_stay_or_left(ops, ids, evicts, observed, id, i);
    law_demanded_ids_are_those_that_stay_or_left(ops, ids, evicts, observed, id);
}

/// What a run is held to: the map meets the model after an operation exactly if it holds no id
/// that left, and, unless its capacity is 5, every peer that came and every id that stays.
pub proof fn law_step_holds_by_what_happened(
    ops: Seq<Operation>,
    ids: Seq<Id>,
    evicts: bool,
    observed: Seq<Observation>,
    step: int,
)
    requires
        0 <= step < ops.len(),
    ensures
        step_holds(ops, ids, evicts, observed, step) <==> {
            let done = ops.take(step + 1);
            let map = observed[step].after;
            &&& forall|id: Id| #[trigger]
                id_left(done, ids, evicts, observed, id) ==> !map.ids@.contains(id)
            &&& map.max_capacity != 5 ==> forall|id: Id| #[trigger]
                id_stays(done, ids, evicts, observed, id) ==> map.ids@.contains(id)
            &&& map.max_capacity != 5 ==> forall|peer: Peer| #[trigger]
                peer_came(done, peer) ==> map.peers@.contains(peer)
        },
{
    let done = ops.take(step + 1);
    let map = observed[step].after;
    let invariants = demands(done, ids, evicts, observed);
    law_maps_owe_what_is_demanded(invariants, map);
    assert forall|id: Id|
        #![trigger id_left(done, ids, evicts, observed, id)]
        #![trigger id_stays(done, ids, evicts, observed, id)]
        #![trigger invariants.contains(Invariant::ContainsId(id))]
        #![trigger invariants.contains(Invariant::IdRemoved(id))]
        (invariants.contains(Invariant::ContainsId(id)) <==> id_stays(
            done,
            ids,
            evicts,
            observed,
            id,
        )) && (invariants.contains(Invariant::IdRemoved(id)) <==> id_left(
            done,
            ids,
            evicts,
            observed,
            id,
        )) by {
        law_demanded_ids_are_those_that_stay_or_left(done, ids, evicts, observed, id);
    }
    assert forall|peer: Peer|
        #![trigger peer_came(done, peer)]
        #![trigger invariants.contains(Invariant::ContainsIp(peer))]
        invariants.contains(Invariant::ContainsIp(peer)) <==> peer_came(done, peer) by {
        law_demanded_peers_are_those_that_came(done, ids, evicts, observed, peer);
    }
}

} // verus!
