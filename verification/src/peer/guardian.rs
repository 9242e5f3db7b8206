//! Bootstrap guardian: the discovery point a publisher runs for its stream.
//! It accepts `REGISTER_PEER` and answers `GET_PEERS` with a random sample of
//! fresh registrations plus the publisher's signed stream record. Addresses
//! are always the observed source, never a self-declared field.
use vstd::prelude::*;
use crate::crypto::identity::{validation_ok, Identity};
use crate::crypto::pow::{discounted, tier_spec, Difficulty};
use crate::crypto::signing::{verify_result, Verifier};
use crate::peer::discovery::{
    copy_record_opt, eligible, eligible_records, lemma_pool_members, pool_of, sample_records, sampled_from,
    same_record_opt, flags_byte, PeerFlags, PeerRecord,
};
use crate::peer::forest::PeerAddr;
use crate::peer::publisher::StreamRecord;
use crate::wire::{
    class_code, push_bytes, push_u16_be, push_u64_be, u16_be, u64_be, FrameType, NodeClass, NodeId, SignatureBytes,
    StreamId, TreeSet, ValidationBlock, MAX_GET_PEERS_RECORDS,
};

verus! {

/// The transport byte of a registration: UDP.
pub const PROTOCOL_UDP: u8 = 17;

/// `REGISTER_PEER`: a peer announcing itself to the guardian.
#[derive(Debug, Clone, Copy, PartialEq, Eq)]
pub struct RegisterPeer {
    /// Stream it joins.
    pub stream_id: StreamId,
    /// UDP port it listens on.
    pub port: u16,
    /// Relay or leaf.
    pub node_class: NodeClass,
    /// Trees it is assigned to.
    pub assigned_trees: TreeSet,
    /// Capability flags.
    pub flags: PeerFlags,
    /// Signature over [`register_signable`].
    pub signature: SignatureBytes,
    /// Identity proof.
    pub validation: ValidationBlock,
}

/// The bytes a registrant signs:
/// `StreamID ‖ NodeID ‖ Port ‖ Class ‖ Trees ‖ Flags ‖ Timestamp`.
pub open spec fn register_signable(
    stream_id: StreamId,
    node_id: NodeId,
    port: u16,
    node_class: NodeClass,
    assigned_trees: TreeSet,
    flags: PeerFlags,
    timestamp_us: u64,
) -> Seq<u8> {
    stream_id.0@ + node_id.0@ + u16_be(port) + seq![class_code(node_class), assigned_trees.0, flags_byte(flags)]
        + u64_be(timestamp_us)
}

/// The payload after the validation block of a registration:
/// `Port ‖ Protocol ‖ Class ‖ Trees ‖ Flags ‖ 0 0 ‖ Signature`.
pub open spec fn register_body(r: RegisterPeer) -> Seq<u8> {
    u16_be(r.port) + seq![PROTOCOL_UDP, class_code(r.node_class), r.assigned_trees.0, flags_byte(r.flags), 0u8, 0u8]
        + r.signature.0@
}

impl RegisterPeer {
    /// The bytes a registrant signs.
    pub fn signable_bytes(
        stream_id: &StreamId,
        node_id: &NodeId,
        port: u16,
        node_class: NodeClass,
        assigned_trees: TreeSet,
        flags: PeerFlags,
        timestamp_us: u64,
    ) -> (r: Vec<u8>)
        ensures r@ == register_signable(*stream_id, *node_id, port, node_class, assigned_trees, flags, timestamp_us),
    {
        let mut v: Vec<u8> = Vec::new();
        push_bytes(&mut v, stream_id.0.as_slice());
        push_bytes(&mut v, node_id.0.as_slice());
        push_u16_be(&mut v, port);
        v.push(node_class.code());
        v.push(assigned_trees.0);
        v.push(flags.to_byte());
        push_u64_be(&mut v, timestamp_us);
        assert(v@ =~= register_signable(*stream_id, *node_id, port, node_class, assigned_trees, flags, timestamp_us));
        v
    }
}

impl RegisterPeer {
    /// The payload its validation block covers.
    pub fn body_bytes(&self) -> (v: Vec<u8>)
        ensures v@ == register_body(*self),
    {
        let mut v: Vec<u8> = Vec::new();
        push_u16_be(&mut v, self.port);
        v.push(PROTOCOL_UDP);
        v.push(self.node_class.code());
        v.push(self.assigned_trees.0);
        v.push(self.flags.to_byte());
        v.push(0);
        v.push(0);
        push_bytes(&mut v, self.signature.0.as_slice());
        assert(v@ =~= register_body(*self));
        v
    }
}

/// `GET_PEERS`: a peer asking for others to join through.
#[derive(Debug, Clone, Copy, PartialEq, Eq)]
pub struct GetPeers {
    /// Stream asked about.
    pub stream_id: StreamId,
    /// Trees the asker starves in.
    pub starved_trees: TreeSet,
    /// Trees it wants relays for (empty: any peer).
    pub wanted_trees: TreeSet,
    /// Whether it wants relay-capable peers.
    pub want_relay_capable: bool,
    /// Identity proof.
    pub validation: ValidationBlock,
}

/// The payload a query's validation block covers:
/// `StreamID ‖ Starved ‖ Wanted ‖ WantRelay ‖ 0`.
pub open spec fn get_peers_body(g: GetPeers) -> Seq<u8> {
    g.stream_id.0@ + seq![g.starved_trees.0, g.wanted_trees.0, if g.want_relay_capable { 1u8 } else { 0u8 }, 0u8]
}

impl GetPeers {
    /// The payload its validation block covers.
    pub fn body_bytes(&self) -> (v: Vec<u8>)
        ensures v@ == get_peers_body(*self),
    {
        let mut v: Vec<u8> = Vec::new();
        push_bytes(&mut v, self.stream_id.0.as_slice());
        v.push(self.starved_trees.0);
        v.push(self.wanted_trees.0);
        v.push(if self.want_relay_capable { 1u8 } else { 0u8 });
        v.push(0);
        assert(v@ =~= get_peers_body(*self));
        v
    }
}

/// The guardian's answer to `GET_PEERS`.
pub struct GetPeersResponse {
    /// The answering guardian.
    pub guardian: NodeId,
    /// Whether the records are a sample of a larger registry.
    pub sampled: bool,
    /// Peers to try.
    pub records: Vec<PeerRecord>,
    /// The publisher's latest stream record.
    pub stream_record: Option<StreamRecord>,
}

/// A registration with the time it was last refreshed.
#[derive(Debug, Clone, Copy, PartialEq, Eq)]
pub struct Registration {
    /// What the peer registered.
    pub record: PeerRecord,
    /// When, microseconds.
    pub last_seen_us: u64,
}

/// `rand::SeedableRng::seed_from_u64` for `rand_chacha::ChaCha8Rng`: a
/// generator seeded from `seed`. Nothing is stated of the stream it yields.
#[verifier::external_body]
fn seeded_rng(seed: u64) -> rand_chacha::ChaCha8Rng {
    rand::SeedableRng::seed_from_u64(seed)
}

/// Whether a registration last seen at `seen` is still live at `now` under `ttl`.
pub open spec fn fresh(now: u64, seen: u64, ttl: u64) -> bool {
    (if now >= seen { now - seen } else { 0 }) < ttl
}

/// No NodeID is registered twice.
pub open spec fn ids_unique(s: Seq<Registration>) -> bool {
    forall|i: int, j: int|
        0 <= i < s.len() && 0 <= j < s.len() && i != j ==> #[trigger] s[i].record.node_id != #[trigger] s[j].record.node_id
}

/// `after` is `before` with `rec` registered at `now`: the new registration
/// replaces any earlier one of the same NodeID, the rest stay.
pub open spec fn upserted(before: Seq<Registration>, after: Seq<Registration>, rec: PeerRecord, now: u64) -> bool {
    forall|e: Registration|
        #[trigger] after.contains(e) <==> (e == Registration { record: rec, last_seen_us: now } || (before.contains(e)
            && e.record.node_id != rec.node_id))
}

/// `after` keeps exactly the registrations of `before` still live at `now`.
pub open spec fn kept_fresh(before: Seq<Registration>, after: Seq<Registration>, now: u64, ttl: u64) -> bool {
    forall|e: Registration| #[trigger] after.contains(e) <==> (before.contains(e) && fresh(now, e.last_seen_us, ttl))
}

/// The records of a list of registrations.
pub open spec fn records_of(entries: Seq<Registration>) -> Seq<PeerRecord> {
    entries.map_values(|e: Registration| e.record)
}

/// The records of a list of registrations.
fn registered_records(regs: &Vec<Registration>) -> (r: Vec<PeerRecord>)
    ensures r@ == records_of(regs@),
{
    let mut out: Vec<PeerRecord> = Vec::new();
    let mut i: usize = 0;
    while i < regs.len()
        invariant
            i <= regs@.len(),
            out@ == records_of(regs@.take(i as int)),
        decreases regs@.len() - i,
    {
        out.push(regs[i].record);
        assert(out@ =~= records_of(regs@.take(i + 1)));
        i = i + 1;
    }
    assert(regs@.take(regs@.len() as int) =~= regs@);
    out
}

/// The dynamic difficulty a guardian holding `size` registrations accepts
/// from a claimed `class`: one tier below what a swarm of `size + 1` asks.
pub open spec fn guardian_c2(d: Difficulty, size: nat, class: NodeClass) -> u32 {
    discounted(d, (tier_spec((size + 1) as u32) - 2) as u32, class == NodeClass::Leaf, false)
}

/// Whether a registration from `from` is accepted by a guardian of `stream_id`
/// at difficulty `d` holding `size` registrations.
pub open spec fn register_ok(stream_id: StreamId, d: Difficulty, size: nat, from: PeerAddr, r: RegisterPeer) -> bool {
    &&& r.stream_id == stream_id
    &&& validation_ok(r.validation, FrameType(0x10), register_body(r), from.ip, d, guardian_c2(d, size, r.node_class))
    &&& verify_result(
        r.validation.public_key.0@,
        register_signable(
            r.stream_id,
            r.validation.node_id,
            r.port,
            r.node_class,
            r.assigned_trees,
            r.flags,
            r.validation.timestamp_us,
        ),
        r.signature.0@,
    ) is Ok
}

/// The record a registration from `from` enters: the observed IP with the declared port.
pub open spec fn registered_record(from: PeerAddr, r: RegisterPeer) -> PeerRecord {
    PeerRecord {
        node_id: r.validation.node_id,
        node_class: r.node_class,
        assigned_trees: r.assigned_trees,
        flags: r.flags,
        addr: PeerAddr { ip: from.ip, port: r.port },
    }
}

/// Whether a query from `from` is answered by a guardian of `stream_id` at
/// difficulty `d` holding `size` registrations.
pub open spec fn get_peers_ok(stream_id: StreamId, d: Difficulty, size: nat, from: PeerAddr, g: GetPeers) -> bool {
    &&& g.stream_id == stream_id
    &&& validation_ok(g.validation, FrameType(0x11), get_peers_body(g), from.ip, d, guardian_c2(d, size, NodeClass::Leaf))
}

/// Replacing the registration at `i`, which holds `rec`'s NodeID, by `rec`
/// seen at `now` upserts it and keeps NodeIDs unique.
proof fn lemma_upsert_replaces(before: Seq<Registration>, i: int, rec: PeerRecord, now: u64)
    requires
        ids_unique(before),
        0 <= i < before.len(),
        before[i].record.node_id == rec.node_id,
    ensures
        upserted(before, before.update(i, Registration { record: rec, last_seen_us: now }), rec, now),
        ids_unique(before.update(i, Registration { record: rec, last_seen_us: now })),
{
    let reg = Registration { record: rec, last_seen_us: now };
    let after = before.update(i, reg);
    assert forall|e: Registration| #[trigger] after.contains(e) implies (e == reg || (before.contains(e)
        && e.record.node_id != rec.node_id)) by {
        let k = choose|k: int| 0 <= k < after.len() && after[k] == e;
        if k != i {
            assert(before[k] == e);
            assert(before[k].record.node_id != before[i].record.node_id);
        }
    }
    assert forall|e: Registration| (e == reg || (before.contains(e) && e.record.node_id != rec.node_id)) implies #[trigger] after.contains(e) by {
        if e == reg {
            assert(after[i] == e);
        } else {
            let k = choose|k: int| 0 <= k < before.len() && before[k] == e;
            assert(k != i);
            assert(after[k] == e);
        }
    }
    assert forall|a: int, b: int| 0 <= a < after.len() && 0 <= b < after.len() && a != b implies #[trigger] after[a].record.node_id
        != #[trigger] after[b].record.node_id by {
        if a == i {
            assert(after[b] == before[b]);
            assert(before[b].record.node_id != before[i].record.node_id);
        } else if b == i {
            assert(after[a] == before[a]);
            assert(before[a].record.node_id != before[i].record.node_id);
        } else {
            assert(after[a] == before[a]);
            assert(after[b] == before[b]);
            assert(before[a].record.node_id != before[b].record.node_id);
        }
    }
}

/// Appending `rec` seen at `now`, whose NodeID is not registered, upserts it
/// and keeps NodeIDs unique.
proof fn lemma_upsert_appends(before: Seq<Registration>, rec: PeerRecord, now: u64)
    requires
        ids_unique(before),
        forall|j: int| 0 <= j < before.len() ==> (#[trigger] before[j]).record.node_id != rec.node_id,
    ensures
        upserted(before, before.push(Registration { record: rec, last_seen_us: now }), rec, now),
        ids_unique(before.push(Registration { record: rec, last_seen_us: now })),
{
    let reg = Registration { record: rec, last_seen_us: now };
    let after = before.push(reg);
    assert forall|e: Registration| #[trigger] after.contains(e) implies (e == reg || (before.contains(e)
        && e.record.node_id != rec.node_id)) by {
        let k = choose|k: int| 0 <= k < after.len() && after[k] == e;
        if k < before.len() {
            assert(before[k] == e);
        }
    }
    assert forall|e: Registration| (e == reg || (before.contains(e) && e.record.node_id != rec.node_id)) implies #[trigger] after.contains(e) by {
        if e == reg {
            assert(after[before.len() as int] == e);
        } else {
            let k = choose|k: int| 0 <= k < before.len() && before[k] == e;
            assert(after[k] == e);
        }
    }
    assert forall|a: int, b: int| 0 <= a < after.len() && 0 <= b < after.len() && a != b implies #[trigger] after[a].record.node_id
        != #[trigger] after[b].record.node_id by {
        if a == before.len() {
            assert(after[b] == before[b]);
        } else if b == before.len() {
            assert(after[a] == before[a]);
        } else {
            assert(after[a] == before[a]);
            assert(after[b] == before[b]);
        }
    }
}

/// Where `node_id` is registered in `regs`, if anywhere.
fn find_registration(regs: &Vec<Registration>, node_id: &NodeId) -> (r: Option<usize>)
    ensures
        r matches Some(i) ==> i < regs@.len() && regs@[i as int].record.node_id == *node_id,
        r is None ==> forall|j: int| 0 <= j < regs@.len() ==> (#[trigger] regs@[j]).record.node_id != *node_id,
{
    let mut i: usize = 0;
    while i < regs.len()
        invariant
            i <= regs@.len(),
            forall|j: int| 0 <= j < i ==> (#[trigger] regs@[j]).record.node_id != *node_id,
        decreases regs@.len() - i,
    {
        if regs[i].record.node_id.same(node_id) {
            return Some(i);
        }
        i = i + 1;
    }
    None
}

/// A peer a guardian accepted is handed to a later query from another peer
/// while its registration is still fresh, whenever every eligible record fits
/// in one answer.
pub proof fn lemma_fresh_registration_offered(
    before: Seq<Registration>,
    registered: Seq<Registration>,
    expired: Seq<Registration>,
    rec: PeerRecord,
    registered_at: u64,
    asked_at: u64,
    ttl: u64,
    who: NodeId,
    wanted: TreeSet,
    answer: Seq<PeerRecord>,
)
    requires
        upserted(before, registered, rec, registered_at),
        kept_fresh(registered, expired, asked_at, ttl),
        fresh(asked_at, registered_at, ttl),
        eligible(rec, who, wanted),
        sampled_from(answer, pool_of(records_of(expired), who, wanted)),
        pool_of(records_of(expired), who, wanted).len() <= MAX_GET_PEERS_RECORDS,
    ensures
        answer.contains(rec),
{
    broadcast use vstd::seq_lib::group_to_multiset_ensures;

    let reg = Registration { record: rec, last_seen_us: registered_at };
    assert(registered.contains(reg));
    assert(expired.contains(reg));
    let i = choose|i: int| 0 <= i < expired.len() && expired[i] == reg;
    assert(records_of(expired)[i] == rec);
    lemma_pool_members(records_of(expired), who, wanted);
    let pool = pool_of(records_of(expired), who, wanted);
    assert(pool.contains(rec));
    assert(pool.to_multiset().count(rec) > 0);
    assert(answer.to_multiset().count(rec) > 0);
}

/// The guardian.
pub struct Guardian {
    stream_id: StreamId,
    node_id: NodeId,
    difficulty: Difficulty,
    /// Registrations keyed by node id: a list with one entry per id, in
    /// registration order, so that what an answer draws from is a fixed
    /// sequence (a map keyed by a 32-byte id would give contracts nothing to
    /// say about its contents or order).
    regs: Vec<Registration>,
    stream_record: Option<StreamRecord>,
    ttl_us: u64,
    rng: rand_chacha::ChaCha8Rng,
    queries: u64,
    registrations: u64,
}

impl Guardian {
    /// The stream it guards.
    pub closed spec fn stream_id_spec(&self) -> StreamId {
        self.stream_id
    }

    /// Its own NodeID.
    pub closed spec fn node_id_spec(&self) -> NodeId {
        self.node_id
    }

    /// The puzzle difficulty it checks against.
    pub closed spec fn difficulty_spec(&self) -> Difficulty {
        self.difficulty
    }

    /// How long a registration lives without a refresh.
    pub closed spec fn ttl_spec(&self) -> u64 {
        self.ttl_us
    }

    /// The latest stream record it hands out.
    pub closed spec fn stream_record_spec(&self) -> Option<StreamRecord> {
        self.stream_record
    }

    /// Queries served.
    pub closed spec fn queries_spec(&self) -> u64 {
        self.queries
    }

    /// Registrations accepted.
    pub closed spec fn registrations_spec(&self) -> u64 {
        self.registrations
    }

    /// The registrations held.
    pub closed spec fn entries(&self) -> Seq<Registration> {
        self.regs@
    }

    /// How many registrations are held.
    pub open spec fn size(&self) -> nat {
        self.entries().len()
    }

    /// No NodeID twice, and a count that fits the arithmetic of the puzzle tier.
    pub closed spec fn wf(&self) -> bool {
        &&& ids_unique(self.regs@)
        &&& self.regs@.len() < u32::MAX
    }

    /// Whether `other` guards the same stream with the same settings.
    pub open spec fn same_config(&self, other: &Guardian) -> bool {
        &&& self.stream_id_spec() == other.stream_id_spec()
        &&& self.node_id_spec() == other.node_id_spec()
        &&& self.difficulty_spec() == other.difficulty_spec()
        &&& self.ttl_spec() == other.ttl_spec()
    }

    /// New guardian for `stream_id`, its sampling generator seeded from `seed`.
    pub fn new(stream_id: StreamId, node_id: NodeId, difficulty: Difficulty, ttl_us: u64, seed: u64) -> (g: Guardian)
        ensures
            g.wf(),
            g.stream_id_spec() == stream_id,
            g.node_id_spec() == node_id,
            g.difficulty_spec() == difficulty,
            g.ttl_spec() == ttl_us,
            g.entries() == Seq::<Registration>::empty(),
            g.stream_record_spec() is None,
            g.queries_spec() == 0,
            g.registrations_spec() == 0,
    {
        Guardian {
            stream_id,
            node_id,
            difficulty,
            regs: Vec::new(),
            stream_record: None,
            ttl_us,
            rng: seeded_rng(seed),
            queries: 0,
            registrations: 0,
        }
    }

    /// Enter `record` seen at `now_us`, replacing any registration of its NodeID.
    fn upsert(&mut self, record: PeerRecord, now_us: u64)
        requires
            old(self).wf(),
            old(self).size() + 1 < u32::MAX,
        ensures
            final(self).wf(),
            upserted(old(self).entries(), final(self).entries(), record, now_us),
            final(self).same_config(old(self)),
            final(self).stream_record_spec() == old(self).stream_record_spec(),
            final(self).queries_spec() == old(self).queries_spec(),
            final(self).registrations_spec() == old(self).registrations_spec(),
    {
        let reg = Registration { record, last_seen_us: now_us };
        let ghost before = self.regs@;
        match find_registration(&self.regs, &record.node_id) {
            Some(i) => {
                proof {
                    lemma_upsert_replaces(before, i as int, record, now_us);
                }
                self.regs.set(i, reg);
            },
            None => {
                proof {
                    lemma_upsert_appends(before, record, now_us);
                }
                self.regs.push(reg);
            },
        }
    }

    /// Register or refresh a peer (the publisher's own record goes in this way).
    pub fn register_local(&mut self, record: PeerRecord, now_us: u64)
        requires
            old(self).wf(),
            old(self).size() + 1 < u32::MAX,
        ensures
            final(self).wf(),
            upserted(old(self).entries(), final(self).entries(), record, now_us),
            final(self).same_config(old(self)),
            final(self).stream_record_spec() == old(self).stream_record_spec(),
            final(self).queries_spec() == old(self).queries_spec(),
            final(self).registrations_spec() == old(self).registrations_spec(),
    {
        self.upsert(record, now_us);
    }

    /// Handle a `REGISTER_PEER` from `from`. Returns whether it was accepted:
    /// the stream matches, the validation block passes at the dynamic
    /// difficulty the current registry size calls for, and the registration
    /// signature verifies. An accepted peer is entered at its observed IP.
    pub fn handle_register(&mut self, from: PeerAddr, r: &RegisterPeer, now_us: u64) -> (accepted: bool)
        requires
            old(self).wf(),
            old(self).size() + 1 < u32::MAX,
            old(self).registrations_spec() < u64::MAX,
        ensures
            final(self).wf(),
            accepted == register_ok(old(self).stream_id_spec(), old(self).difficulty_spec(), old(self).size(), from, *r),
            accepted ==> {
                &&& upserted(old(self).entries(), final(self).entries(), registered_record(from, *r), now_us)
                &&& final(self).registrations_spec() == old(self).registrations_spec() + 1
                &&& final(self).queries_spec() == old(self).queries_spec()
                &&& final(self).stream_record_spec() == old(self).stream_record_spec()
                &&& final(self).same_config(old(self))
            },
            !accepted ==> *final(self) == *old(self),
    {
        if !self.stream_id.same(&r.stream_id) {
            return false;
        }
        let vb = &r.validation;
        let body = r.body_bytes();
        let size: u32 = self.regs.len() as u32;
        let c2 = self.difficulty.dynamic_accepted(size + 1, r.node_class, false);
        if Identity::verify_validation_block(vb, FrameType::register_peer(), body.as_slice(), from.ip, self.difficulty, c2).is_err() {
            return false;
        }
        let msg = RegisterPeer::signable_bytes(
            &r.stream_id,
            &vb.node_id,
            r.port,
            r.node_class,
            r.assigned_trees,
            r.flags,
            vb.timestamp_us,
        );
        if Verifier::verify(&vb.public_key, msg.as_slice(), &r.signature).is_err() {
            return false;
        }
        let record = PeerRecord {
            node_id: vb.node_id,
            node_class: r.node_class,
            assigned_trees: r.assigned_trees,
            flags: r.flags,
            addr: PeerAddr { ip: from.ip, port: r.port },
        };
        self.upsert(record, now_us);
        self.registrations = self.registrations + 1;
        true
    }

    /// Answer a `GET_PEERS` from `from`: when the stream matches and the
    /// validation block passes, count the query, drop stale registrations and
    /// return a random sample, at most [`MAX_GET_PEERS_RECORDS`] long, of the
    /// eligible records, with the latest stream record.
    pub fn handle_get_peers(&mut self, from: PeerAddr, g: &GetPeers, now_us: u64) -> (resp: Option<GetPeersResponse>)
        requires
            old(self).wf(),
            old(self).queries_spec() < u64::MAX,
        ensures
            final(self).wf(),
            resp is Some <==> get_peers_ok(old(self).stream_id_spec(), old(self).difficulty_spec(), old(self).size(), from, *g),
            resp is None ==> *final(self) == *old(self),
            resp matches Some(p) ==> {
                &&& final(self).queries_spec() == old(self).queries_spec() + 1
                &&& final(self).registrations_spec() == old(self).registrations_spec()
                &&& final(self).stream_record_spec() == old(self).stream_record_spec()
                &&& final(self).same_config(old(self))
                &&& kept_fresh(old(self).entries(), final(self).entries(), now_us, old(self).ttl_spec())
                &&& p.guardian == old(self).node_id_spec()
                &&& !p.sampled
                &&& same_record_opt(p.stream_record, old(self).stream_record_spec())
                &&& sampled_from(p.records@, pool_of(records_of(final(self).entries()), g.validation.node_id, g.wanted_trees))
            },
    {
        if !self.stream_id.same(&g.stream_id) {
            return None;
        }
        let body = g.body_bytes();
        let size: u32 = self.regs.len() as u32;
        let c2 = self.difficulty.dynamic_accepted(size + 1, NodeClass::Leaf, false);
        if Identity::verify_validation_block(&g.validation, FrameType::get_peers(), body.as_slice(), from.ip, self.difficulty, c2).is_err() {
            return None;
        }
        self.queries = self.queries + 1;
        self.expire(now_us);
        let records = registered_records(&self.regs);
        let pool = eligible_records(&records, &g.validation.node_id, g.wanted_trees);
        let sample = sample_records(&mut self.rng, pool);
        let stream_record = copy_record_opt(&self.stream_record);
        Some(GetPeersResponse { guardian: self.node_id, sampled: false, records: sample, stream_record })
    }

    /// Drop the registrations not refreshed within the TTL.
    fn expire(&mut self, now_us: u64)
        requires old(self).wf(),
        ensures
            final(self).wf(),
            kept_fresh(old(self).entries(), final(self).entries(), now_us, old(self).ttl_spec()),
            final(self).same_config(old(self)),
            final(self).stream_record_spec() == old(self).stream_record_spec(),
            final(self).queries_spec() == old(self).queries_spec(),
            final(self).registrations_spec() == old(self).registrations_spec(),
    {
        let ttl = self.ttl_us;
        let ghost before = self.regs@;
        let mut kept: Vec<Registration> = Vec::new();
        let ghost mut idx: Seq<int> = Seq::empty();
        let mut i: usize = 0;
        while i < self.regs.len()
            invariant
                *self == *old(self),
                self.regs@ == before,
                ttl == self.ttl_us,
                ids_unique(before),
                i <= before.len(),
                before.len() < u32::MAX,
                kept@.len() <= i,
                kept@.len() == idx.len(),
                forall|j: int| 0 <= j < idx.len() ==> 0 <= #[trigger] idx[j] < i && kept@[j] == before[idx[j]],
                forall|a: int, b: int| 0 <= a < b < idx.len() ==> #[trigger] idx[a] < #[trigger] idx[b],
                forall|j: int| 0 <= j < kept@.len() ==> fresh(now_us, (#[trigger] kept@[j]).last_seen_us, ttl),
                forall|k: int|
                    0 <= k < i && fresh(now_us, (#[trigger] before[k]).last_seen_us, ttl) ==> exists|j: int|
                        0 <= j < idx.len() && #[trigger] idx[j] == k,
            decreases before.len() - i,
        {
            let reg = self.regs[i];
            if now_us.saturating_sub(reg.last_seen_us) < ttl {
                kept.push(reg);
                proof {
                    let old_idx = idx;
                    idx = idx.push(i as int);
                    assert forall|k: int|
                        0 <= k < i + 1 && fresh(now_us, (#[trigger] before[k]).last_seen_us, ttl) implies exists|j: int|
                            0 <= j < idx.len() && #[trigger] idx[j] == k by {
                        if k == i {
                            assert(idx[old_idx.len() as int] == k);
                        } else {
                            let j = choose|j: int| 0 <= j < old_idx.len() && #[trigger] old_idx[j] == k;
                            assert(idx[j] == k);
                        }
                    }
                }
            } else {
                proof {
                    assert forall|k: int|
                        0 <= k < i + 1 && fresh(now_us, (#[trigger] before[k]).last_seen_us, ttl) implies exists|j: int|
                            0 <= j < idx.len() && #[trigger] idx[j] == k by {
                        if k == i {
                            assert(!fresh(now_us, before[k].last_seen_us, ttl));
                        }
                    }
                }
            }
            i = i + 1;
        }
        proof {
            let after = kept@;
            assert forall|e: Registration| #[trigger] after.contains(e) implies (before.contains(e) && fresh(
                now_us,
                e.last_seen_us,
                ttl,
            )) by {
                let j = choose|j: int| 0 <= j < after.len() && after[j] == e;
                assert(before[idx[j]] == e);
            }
            assert forall|e: Registration| (before.contains(e) && fresh(now_us, e.last_seen_us, ttl)) implies #[trigger] after.contains(
                e,
            ) by {
                let k = choose|k: int| 0 <= k < before.len() && before[k] == e;
                let j = choose|j: int| 0 <= j < idx.len() && #[trigger] idx[j] == k;
                assert(after[j] == e);
            }
            assert forall|a: int, b: int| 0 <= a < after.len() && 0 <= b < after.len() && a != b implies #[trigger] after[a].record.node_id
                != #[trigger] after[b].record.node_id by {
                if a < b {
                    assert(idx[a] < idx[b]);
                } else {
                    assert(idx[b] < idx[a]);
                }
                assert(before[idx[a]].record.node_id != before[idx[b]].record.node_id);
            }
        }
        self.regs = kept;
    }

    /// Latest stream record.
    pub fn stream_record(&self) -> (r: &Option<StreamRecord>)
        ensures *r == self.stream_record_spec(),
    {
        &self.stream_record
    }

    /// Replace the stream record handed out with answers.
    pub fn set_stream_record(&mut self, record: Option<StreamRecord>)
        requires old(self).wf(),
        ensures
            final(self).wf(),
            final(self).stream_record_spec() == record,
            final(self).entries() == old(self).entries(),
            final(self).same_config(old(self)),
            final(self).queries_spec() == old(self).queries_spec(),
            final(self).registrations_spec() == old(self).registrations_spec(),
    {
        self.stream_record = record;
    }

    /// Queries served.
    pub fn queries(&self) -> (r: u64)
        ensures r == self.queries_spec(),
    {
        self.queries
    }

    /// Registrations accepted.
    pub fn registrations(&self) -> (r: u64)
        ensures r == self.registrations_spec(),
    {
        self.registrations
    }

    /// Registered peers.
    pub fn len(&self) -> (r: usize)
        ensures r == self.size(),
    {
        self.regs.len()
    }

    /// Whether no peer is registered.
    pub fn is_empty(&self) -> (r: bool)
        ensures r == (self.size() == 0),
    {
        self.regs.len() == 0
    }
}

} // verus!
