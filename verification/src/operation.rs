//! What can happen to a path secret map.

use std::collections::HashSet;
use vstd::prelude::*;

verus! {

broadcast use vstd::std_specs::hash::group_hash_axioms;

/// The id of a path secret.
#[derive(Clone, Copy, Debug, PartialEq, Eq, Hash, Structural)]
pub struct Id {
    /// The bytes of the id, as one number.
    pub value: u128,
}

/// The socket address of a peer.
#[derive(Clone, Copy, Debug, PartialEq, Eq, Hash, Structural)]
pub struct Peer {
    /// The four octets of the IPv4 address as one number, the first octet most significant.
    pub ip: u32,
    /// The port.
    pub port: u16,
}

impl Peer {
    /// The peer with the address `0.0.0.octet`, port 0.
    pub open spec fn from_octet_spec(octet: u8) -> Peer {
        Peer { ip: octet as u32, port: 0 }
    }

    /// The peer with the address `0.0.0.octet`, port 0.
    pub fn from_octet(octet: u8) -> (peer: Peer)
        ensures
            peer == Peer::from_octet_spec(octet),
    {
        Peer { ip: octet as u32, port: 0 }
    }
}

/// The cipher suite of a path secret.
#[allow(non_camel_case_types)]
#[derive(Clone, Copy, Debug, PartialEq, Eq, Structural)]
pub enum Ciphersuite {
    AES_GCM_128_SHA256,
}

/// The side of a connection for which a path secret is derived.
#[derive(Clone, Copy, Debug, PartialEq, Eq, Structural)]
pub enum EndpointType {
    Client,
    Server,
}

/// What a path secret is derived from.
#[derive(Clone, Copy, Debug)]
pub struct Secret {
    /// The cipher suite.
    pub ciphersuite: Ciphersuite,
    /// The place of the protocol version in the list of supported versions.
    pub version_index: usize,
    /// The side that derives the secret.
    pub endpoint: EndpointType,
    /// The secret exported by the handshake.
    pub export_secret: [u8; 32],
}

/// A short name for a path secret: one of 256 that are derived from distinct exported secrets.
#[derive(Clone, Copy, PartialEq, Eq, Hash, Structural)]
pub struct TestId(pub u8);

/// Whether `ids` gives each of the 256 test ids an id of its own.
pub open spec fn valid_ids(ids: Seq<Id>) -> bool {
    ids.len() == 256 && ids.no_duplicates()
}

/// Whether `derive` may give `id` for the secret of the test id with the number `k`.
pub open spec fn id_is_derived<F: Fn(Secret) -> Id>(derive: F, k: u8, id: Id) -> bool {
    exists|secret: Secret|
        #[trigger] TestId(k).derives_from(secret) && call_ensures(derive, (secret,), id)
}

/// Whether `derive` may give `ids` for the secrets of the 256 test ids, in order.
pub open spec fn derived_by<F: Fn(Secret) -> Id>(derive: F, ids: Seq<Id>) -> bool {
    &&& ids.len() == 256
    &&& forall|k: u8| id_is_derived(derive, k, #[trigger] ids[k as int])
}

/// The ids that the key schedule derives for the test ids, by number. No two are equal.
#[derive(Debug)]
pub struct IdTable {
    ids: Vec<Id>,
}

impl View for IdTable {
    type V = Seq<Id>;

    closed spec fn view(&self) -> Seq<Id> {
        self.ids@
    }
}

impl IdTable {
    /// Every table gives each test id an id of its own.
    #[verifier::type_invariant]
    pub open spec fn is_valid(self) -> bool {
        valid_ids(self@)
    }

    /// The table of the ids that `derive` gives for the secrets of the test ids, in order, or
    /// `None` if two of them are equal.
    pub fn derive<F: Fn(Secret) -> Id>(derive: F) -> (table: Option<IdTable>)
        requires
            forall|secret: Secret| call_requires(derive, (secret,)),
        ensures
            exists|ids: Seq<Id>|
                {
                    &&& #[trigger] derived_by(derive, ids)
                    &&& table is Some <==> valid_ids(ids)
                    &&& table matches Some(t) ==> t@ == ids
                },
    {
        let mut ids: Vec<Id> = Vec::new();
        while ids.len() < 256
            invariant
                forall|secret: Secret| call_requires(derive, (secret,)),
                ids.len() <= 256,
                forall|k: u8| k < ids.len() ==> id_is_derived(derive, k, #[trigger] ids@[k as int]),
            decreases 256 - ids.len(),
        {
            let name = TestId(ids.len() as u8);
            let secret = name.secret();
            let id = derive(secret);
            assert(id_is_derived(derive, name.0, id)) by {
                assert(TestId(name.0).derives_from(secret));
            }
            ids.push(id);
        }
        assert(derived_by(derive, ids@));
        IdTable::new(ids)
    }

    /// The table of `ids`, or `None` if two of them are equal.
    fn new(ids: Vec<Id>) -> (table: Option<IdTable>)
        requires
            ids@.len() == 256,
        ensures
            table is Some <==> valid_ids(ids@),
            table matches Some(t) ==> t@ == ids@,
    {
        let mut j: usize = 0;
        while j < 256
            invariant
                ids.len() == 256,
                j <= 256,
                forall|a: int, b: int| 0 <= a < b < j ==> ids@[a] != ids@[b],
            decreases 256 - j,
        {
            let mut i: usize = 0;
            while i < j
                invariant
                    ids.len() == 256,
                    i <= j < 256,
                    forall|a: int, b: int| 0 <= a < b < j ==> ids@[a] != ids@[b],
                    forall|a: int| 0 <= a < i ==> ids@[a] != ids@[j as int],
                decreases j - i,
            {
                if ids[i] == ids[j] {
                    assert(ids@[i as int] == ids@[j as int]);
                    return None;
                }
                i += 1;
            }
            j += 1;
        }
        Some(IdTable { ids })
    }
}

impl TestId {
    /// The exported secret of a test id: its number, then zeros.
    pub open spec fn export_secret(self) -> Seq<u8> {
        Seq::new(
            32,
            |i: int|
                if i == 0 {
                    self.0
                } else {
                    0
                },
        )
    }

    /// Whether `secret` is what the path secret of this test id is derived from: the client's
    /// side, in the first supported version, of the exported secret.
    pub open spec fn derives_from(self, secret: Secret) -> bool {
        &&& secret.ciphersuite == Ciphersuite::AES_GCM_128_SHA256
        &&& secret.version_index == 0
        &&& secret.endpoint == EndpointType::Client
        &&& secret.export_secret@ == self.export_secret()
    }

    /// What the path secret of this test id is derived from.
    pub fn secret(self) -> (secret: Secret)
        ensures
            self.derives_from(secret),
    {
        let mut export_secret: [u8; 32] = [0;32];
        export_secret[0] = self.0;
        assert(export_secret@ =~= self.export_secret());
        Secret {
            ciphersuite: Ciphersuite::AES_GCM_128_SHA256,
            version_index: 0,
            endpoint: EndpointType::Client,
            export_secret,
        }
    }

    /// The id of this test id's path secret.
    pub fn id(self, ids: &IdTable) -> (id: Id)
        ensures
            id == ids@[self.0 as int],
    {
        proof {
            use_type_invariant(ids);
        }
        ids.ids[self.0 as usize]
    }
}

/// Distinct test ids have distinct exported secrets.
pub proof fn law_export_secrets_are_distinct(a: TestId, b: TestId)
    requires
        a.export_secret() == b.export_secret(),
    ensures
        a == b,
{
    assert(a.export_secret()[0] == a.0);
    assert(b.export_secret()[0] == b.0);
}

/// Something that happens to a path secret map.
#[derive(Clone, Copy, PartialEq, Eq, Structural)]
pub enum Operation {
    /// An entry for a peer and a path secret is inserted.
    Insert { ip: u8, path_secret_id: TestId },
    /// Time passes, and every stale entry is evicted.
    AdvanceTime,
    /// A peer says that it does not know a path secret.
    ReceiveUnknown { path_secret_id: TestId },
}

impl Operation {
    /// Whether the operation inserts an entry for the given path secret.
    pub open spec fn inserts(self, id: TestId) -> bool {
        self matches Operation::Insert { path_secret_id, .. } && path_secret_id == id
    }

    /// Whether `action` is what the operation does to a map. `ids` are the ids of the test ids.
    pub open spec fn calls_for(self, action: Action, ids: Seq<Id>) -> bool {
        match self {
            Operation::Insert { ip, path_secret_id } => {
                &&& action matches Action::Insert { peer, secret, signed_id }
                &&& peer == Peer::from_octet_spec(ip)
                &&& path_secret_id.derives_from(secret)
                &&& signed_id == ids[path_secret_id.0 as int]
            },
            Operation::AdvanceTime => action == (Action::Clean { delay: 0 }),
            Operation::ReceiveUnknown { path_secret_id } => action == (Action::HandleUnknown {
                id: ids[path_secret_id.0 as int],
                signed_id: ids[path_secret_id.0 as int],
                from: Peer { ip: 0x7f00_0001, port: 1234 },
            }),
        }
    }

    /// What the operation does to a map.
    pub fn action(self, ids: &IdTable) -> (action: Action)
        ensures
            self.calls_for(action, ids@),
    {
        match self {
            Operation::Insert { ip, path_secret_id } => Action::Insert {
                peer: Peer::from_octet(ip),
                secret: path_secret_id.secret(),
                signed_id: path_secret_id.id(ids),
            },
            Operation::AdvanceTime => Action::Clean { delay: 0 },
            Operation::ReceiveUnknown { path_secret_id } => {
                let id = path_secret_id.id(ids);
                Action::HandleUnknown {
                    id,
                    signed_id: id,
                    // 127.0.0.1:1234
                    from: Peer { ip: 0x7f00_0001, port: 1234 },
                }
            },
        }
    }
}

/// What is done to a path secret map.
#[derive(Clone, Copy, Debug)]
pub enum Action {
    /// Insert an entry for `peer` with the path secret derived from `secret`, whose id is
    /// `signed_id`. The entry's stateless reset token is the map's signature of that id.
    Insert { peer: Peer, secret: Secret, signed_id: Id },
    /// Evict the stale entries with the given delay, 0 for all of them now, once it has been
    /// looked up which entries are retired.
    Clean { delay: u64 },
    /// Handle a packet from `from` that says that the path secret `id` is unknown. The packet's
    /// stateless reset token is the map's signature of `signed_id`.
    HandleUnknown { id: Id, signed_id: Id, from: Peer },
}

/// Whether some path secret is inserted more than once.
pub open spec fn duplicate_pids(ops: Seq<Operation>) -> bool {
    exists|i: int, j: int, id: TestId|
        0 <= i < j < ops.len() && #[trigger] ops[i].inserts(id) && #[trigger] ops[j].inserts(id)
}

/// Whether some path secret is inserted more than once.
pub fn has_duplicate_pids(ops: &[Operation]) -> (duplicate: bool)
    ensures
        duplicate == duplicate_pids(ops@),
{
    let mut ids: HashSet<u8> = HashSet::new();
    let mut k: usize = 0;
    while k < ops.len()
        invariant
            k <= ops.len(),
            forall|n: u8|
                #[trigger] ids@.contains(n) <==> exists|i: int|
                    0 <= i < k && #[trigger] ops@[i].inserts(TestId(n)),
            forall|i: int, j: int, id: TestId|
                0 <= i < j < k && #[trigger] ops@[i].inserts(id) ==> !#[trigger] ops@[j].inserts(id),
        decreases ops.len() - k,
    {
        match ops[k] {
            Operation::Insert { ip: _, path_secret_id } => {
                let ghost before = ids@;
                assert(ops@[k as int].inserts(path_secret_id));
                assert(path_secret_id == TestId(path_secret_id.0));
                let fresh = ids.insert(path_secret_id.0);
                if !fresh {
                    assert(before.contains(path_secret_id.0));
                    return true;
                }
            },
            Operation::AdvanceTime => {},
            // It is fine to hear of any path secret.
            Operation::ReceiveUnknown { path_secret_id: _ } => {},
        }
        proof {
            assert forall|n: u8| #[trigger] ids@.contains(n) <==> exists|i: int|
                0 <= i < k + 1 && #[trigger] ops@[i].inserts(TestId(n)) by {
                if ids@.contains(n) {
                    if ops@[k as int].inserts(TestId(n)) {
                    } else {
                        let i = choose|i: int| 0 <= i < k && #[trigger] ops@[i].inserts(TestId(n));
                        assert(ops@[i].inserts(TestId(n)));
                    }
                }
            }
            assert forall|i: int, j: int, id: TestId|
                0 <= i < j < k + 1 && #[trigger] ops@[i].inserts(id) implies !#[trigger] ops@[j].inserts(
                id,
            ) by {
                assert(id == TestId(id.0));
            }
        }
        k += 1;
    }
    false
}

/// The number of a test id is the first byte of its exported secret, and all 31 others are zero.
pub proof fn law_export_secret_spells_the_number(name: TestId, i: int)
    requires
        0 <= i < 32,
    ensures
        name.export_secret().len() == 32,
        i == 0 ==> name.export_secret()[i] == name.0,
        i != 0 ==> name.export_secret()[i] == 0,
{
}

/// A secret belongs to one test id at most, the one that its first byte names, and two secrets of
/// one test id agree in everything. Each is the client's, of the first supported version.
pub proof fn law_secret_belongs_to_one_test_id(a: TestId, b: TestId, s: Secret, t: Secret)
    requires
        a.derives_from(s),
        b.derives_from(t),
    ensures
        s.export_secret@[0] == a.0,
        s.endpoint is Client,
        s.ciphersuite is AES_GCM_128_SHA256,
        s.version_index == 0,
        a == b <==> s.export_secret@ == t.export_secret@,
        forall|i: int| 1 <= i < 32 ==> #[trigger] s.export_secret@[i] == 0,
{
    assert(s.export_secret@[0] == a.export_secret()[0]);
    assert(t.export_secret@[0] == b.export_secret()[0]);
}

/// A peer is known by its octet: the address spells it, and the port is 0.
pub proof fn law_peer_spells_its_octet(a: u8, b: u8)
    ensures
        Peer::from_octet_spec(a).ip == a,
        Peer::from_octet_spec(a).port == 0,
        Peer::from_octet_spec(a) == Peer::from_octet_spec(b) ==> a == b,
{
}

/// A table that is valid gives distinct test ids distinct ids, and there is none that is invalid
/// for another reason than its length or an id given twice.
pub proof fn law_valid_tables_tell_test_ids_apart(ids: Seq<Id>)
    ensures
        valid_ids(ids) ==> ids.len() == 256 && forall|a: u8, b: u8|
            #[trigger] ids[a as int] == #[trigger] ids[b as int] ==> a == b,
        !valid_ids(ids) ==> ids.len() != 256 || exists|a: u8, b: u8|
            a != b && #[trigger] ids[a as int] == #[trigger] ids[b as int],
{
    if !valid_ids(ids) && ids.len() == 256 {
        let (i, j) = choose|i: int, j: int|
            0 <= i < ids.len() && 0 <= j < ids.len() && i != j && ids[i] == ids[j];
        assert(ids[(i as u8) as int] == ids[(j as u8) as int]);
    }
}

/// Every id of a derived table comes of the secret whose first byte is its number.
pub proof fn law_derived_ids_come_of_their_secrets<F: Fn(Secret) -> Id>(
    derive: F,
    ids: Seq<Id>,
    k: u8,
)
    requires
        derived_by(derive, ids),
    ensures
        ids.len() == 256,
        exists|secret: Secret|
            {
                &&& #[trigger] call_ensures(derive, (secret,), ids[k as int])
                &&& secret.export_secret@[0] == k
                &&& secret.endpoint is Client
                &&& secret.version_index == 0
                &&& forall|i: int| 1 <= i < 32 ==> #[trigger] secret.export_secret@[i] == 0
            },
{
    assert(id_is_derived(derive, k, ids[k as int]));
    let secret = choose|secret: Secret|
        #[trigger] TestId(k).derives_from(secret) && call_ensures(
            derive,
            (secret,),
            ids[k as int],
        );
    law_secret_belongs_to_one_test_id(TestId(k), TestId(k), secret, secret);
    assert(call_ensures(derive, (secret,), ids[k as int]));
}

/// Only an insertion inserts, whatever the peer, and it inserts its own path secret and no other.
pub proof fn law_only_insertions_insert(operation: Operation, a: TestId, b: TestId)
    ensures
        operation is Insert <==> operation.inserts(operation->Insert_path_secret_id),
        operation.inserts(a) ==> operation is Insert,
        operation.inserts(a) && operation.inserts(b) ==> a == b,
{
}

/// A run has a duplicate exactly when two of its operations are insertions of one path secret, be
/// it for one peer or for two.
pub proof fn law_duplicates_are_repeated_insertions(ops: Seq<Operation>)
    ensures
        duplicate_pids(ops) <==> exists|i: int, j: int|
            {
                &&& 0 <= i < j < ops.len()
                &&& (#[trigger] ops[i]) is Insert
                &&& (#[trigger] ops[j]) is Insert
                &&& ops[i]->Insert_path_secret_id == ops[j]->Insert_path_secret_id
            },
{
    if duplicate_pids(ops) {
        let (i, j, id) = choose|i: int, j: int, id: TestId|
            0 <= i < j < ops.len() && #[trigger] ops[i].inserts(id) && #[trigger] ops[j].inserts(id);
        assert(ops[i] is Insert && ops[j] is Insert);
    }
    if exists|i: int, j: int|
        {
            &&& 0 <= i < j < ops.len()
            &&& (#[trigger] ops[i]) is Insert
            &&& (#[trigger] ops[j]) is Insert
            &&& ops[i]->Insert_path_secret_id == ops[j]->Insert_path_secret_id
        } {
        let (i, j) = choose|i: int, j: int|
            {
                &&& 0 <= i < j < ops.len()
                &&& (#[trigger] ops[i]) is Insert
                &&& (#[trigger] ops[j]) is Insert
                &&& ops[i]->Insert_path_secret_id == ops[j]->Insert_path_secret_id
            };
        let id = ops[i]->Insert_path_secret_id;
        assert(ops[i].inserts(id) && ops[j].inserts(id));
    }
}

/// An action tells which operation it belongs to: an insertion hands over the peer's octet and the
/// number of the path secret, an unknown path secret its id, under a token for that id, and time
/// advances by a cleaning without delay.
pub proof fn law_action_carries_the_operation(
    operation: Operation,
    action: Action,
    ids: Seq<Id>,
)
    requires
        operation.calls_for(action, ids),
    ensures
        operation is Insert <==> action is Insert,
        operation is AdvanceTime <==> action is Clean,
        operation is ReceiveUnknown <==> action is HandleUnknown,
        action matches Action::Insert { peer, secret, signed_id } ==> {
            &&& peer.ip == operation->ip
            &&& peer.port == 0
            &&& secret.export_secret@[0] == operation->Insert_path_secret_id.0
            &&& operation->Insert_path_secret_id.derives_from(secret)
            &&& signed_id == ids[operation->Insert_path_secret_id.0 as int]
        },
        action matches Action::Clean { delay } ==> delay == 0,
        action matches Action::HandleUnknown { id, signed_id, from } ==> {
            &&& id == ids[operation->ReceiveUnknown_path_secret_id.0 as int]
            &&& signed_id == id
            &&& from.ip == 127 * 0x100_0000 + 1
            &&& from.port == 1234
        },
{
    if let Operation::Insert { path_secret_id, .. } = operation {
        let secret = action->secret;
        law_secret_belongs_to_one_test_id(path_secret_id, path_secret_id, secret, secret);
    }
}

} // verus!
