//! Peer records and how discovery answers a query: which registrations are
//! eligible for an asker, and the random sample handed out.
use vstd::prelude::*;
use crate::peer::forest::{PeerAddr, TreeState};
use crate::peer::publisher::{record_same, StreamRecord};
use crate::wire::{tree_bit, NodeClass, NodeId, TreeId, TreeSet, MAX_GET_PEERS_RECORDS};

verus! {

/// How reachable a peer is behind its NAT.
#[derive(Debug, Clone, Copy, PartialEq, Eq, Structural)]
pub enum Reachability {
    /// Reachable from anywhere.
    Public,
    /// Behind a NAT that admits peers it has spoken to.
    Restricted,
    /// Behind a symmetric NAT: not a usable parent.
    Symmetric,
}

/// Capability flags of a peer record.
#[derive(Debug, Clone, Copy, PartialEq, Eq, Structural)]
pub struct PeerFlags {
    /// The stream's source.
    pub source: bool,
    /// NAT behaviour.
    pub reachability: Reachability,
}

/// The byte of a flags field: bit 0 the source flag, bits 1–2 the reachability.
pub open spec fn flags_byte(f: PeerFlags) -> u8 {
    ((if f.source { 1int } else { 0int }) + 2 * match f.reachability {
        Reachability::Public => 0int,
        Reachability::Restricted => 1int,
        Reachability::Symmetric => 2int,
    }) as u8
}

impl PeerFlags {
    /// A public, non-source peer.
    pub fn public() -> (r: PeerFlags)
        ensures !r.source, r.reachability == Reachability::Public,
    {
        PeerFlags { source: false, reachability: Reachability::Public }
    }

    /// The byte on the wire.
    pub fn to_byte(self) -> (r: u8)
        ensures r == flags_byte(self),
    {
        let reach: u8 = match self.reachability {
            Reachability::Public => 0,
            Reachability::Restricted => 1,
            Reachability::Symmetric => 2,
        };
        (if self.source { 1u8 } else { 0u8 }) + 2 * reach
    }
}

/// A registered peer as discovery hands it out.
#[derive(Debug, Clone, Copy, PartialEq, Eq)]
pub struct PeerRecord {
    /// Its NodeID.
    pub node_id: NodeId,
    /// Relay or leaf.
    pub node_class: NodeClass,
    /// Trees it is assigned to.
    pub assigned_trees: TreeSet,
    /// Capability flags.
    pub flags: PeerFlags,
    /// The address it registered from.
    pub addr: PeerAddr,
}

/// Whether a record relays `tree`: the source relays every tree, anyone else
/// only as a relay assigned to it.
pub open spec fn record_relays(r: PeerRecord, tree: TreeId) -> bool {
    r.flags.source || (r.node_class == NodeClass::Relay && tree_bit(r.assigned_trees.0, tree.0))
}

impl PeerRecord {
    /// Whether it relays `tree`.
    pub fn relays(&self, tree: TreeId) -> (r: bool)
        ensures r == record_relays(*self, tree),
    {
        self.flags.source || (!self.node_class.is_leaf() && self.assigned_trees.contains(tree))
    }
}

/// The record a node registers for itself: its identity and class, the trees
/// it is assigned to, and the source flag; always publicly reachable.
pub fn own_record(node_id: NodeId, node_class: NodeClass, trees: &Vec<TreeState>, is_source: bool, addr: PeerAddr) -> (r: PeerRecord)
    requires
        forall|i: int| 0 <= i < trees@.len() ==> 1 <= (#[trigger] trees@[i]).id.0 <= 8,
    ensures
        r.node_id == node_id,
        r.node_class == node_class,
        r.flags == (PeerFlags { source: is_source, reachability: Reachability::Public }),
        r.addr == addr,
        forall|t: u8| 1 <= t <= 8 ==> (#[trigger] tree_bit(r.assigned_trees.0, t) <==> exists|i: int|
            0 <= i < trees@.len() && (#[trigger] trees@[i]).id.0 == t && trees@[i].assigned),
{
    let mut assigned = TreeSet::empty();
    proof {
        assert forall|t: u8| 1 <= t <= 8 implies !#[trigger] tree_bit(assigned.0, t) by {
            let u = (t - 1) as u8;
            assert((0u8 >> u) & 1u8 == 0u8) by (bit_vector);
        }
    }
    let mut i: usize = 0;
    while i < trees.len()
        invariant
            i <= trees@.len(),
            forall|k: int| 0 <= k < trees@.len() ==> 1 <= (#[trigger] trees@[k]).id.0 <= 8,
            forall|t: u8| 1 <= t <= 8 ==> (#[trigger] tree_bit(assigned.0, t) <==> exists|k: int|
                0 <= k < i && (#[trigger] trees@[k]).id.0 == t && trees@[k].assigned),
        decreases trees@.len() - i,
    {
        let ghost before = assigned.0;
        if trees[i].assigned {
            assigned.insert(trees[i].id);
        }
        proof {
            assert forall|u: u8| 1 <= u <= 8 implies (#[trigger] tree_bit(assigned.0, u) <==> exists|k: int|
                0 <= k < i + 1 && (#[trigger] trees@[k]).id.0 == u && trees@[k].assigned) by {
                if exists|k: int| 0 <= k < i + 1 && (#[trigger] trees@[k]).id.0 == u && trees@[k].assigned {
                    let k = choose|k: int| 0 <= k < i + 1 && (#[trigger] trees@[k]).id.0 == u && trees@[k].assigned;
                    if k < i {
                        assert(tree_bit(before, u));
                    }
                }
            }
        }
        i = i + 1;
    }
    PeerRecord {
        node_id,
        node_class,
        assigned_trees: assigned,
        flags: PeerFlags { source: is_source, reachability: Reachability::Public },
        addr,
    }
}

/// The seeded generator discovery draws its samples from.
#[verifier::external_type_specification]
#[verifier::external_body]
pub struct ExChaCha8Rng(rand_chacha::ChaCha8Rng);

/// `rand::seq::SliceRandom::shuffle` on the records, with swaps drawn from
/// `rng`. Claimed: afterwards the vector holds the same records, each as
/// often as before. Which permutation comes out is left unsaid.
#[verifier::external_body]
fn shuffle_records(rng: &mut rand_chacha::ChaCha8Rng, v: &mut Vec<PeerRecord>)
    ensures final(v)@.to_multiset() == old(v)@.to_multiset(),
{
    rand::seq::SliceRandom::shuffle(v.as_mut_slice(), rng);
}

/// Whether a record may answer a query from `who` asking for `wanted` trees:
/// never the asker itself; with trees asked for, only relays assigned to one.
pub open spec fn eligible(rec: PeerRecord, who: NodeId, wanted: TreeSet) -> bool {
    &&& rec.node_id != who
    &&& (wanted.0 == 0 || (rec.node_class == NodeClass::Relay && rec.assigned_trees.0 & wanted.0 != 0))
}

/// The eligible records of `records`, in order.
pub open spec fn pool_of(records: Seq<PeerRecord>, who: NodeId, wanted: TreeSet) -> Seq<PeerRecord>
    decreases records.len(),
{
    if records.len() == 0 {
        Seq::empty()
    } else {
        let rest = pool_of(records.drop_last(), who, wanted);
        if eligible(records.last(), who, wanted) {
            rest.push(records.last())
        } else {
            rest
        }
    }
}

/// A record is in the pool of `records` exactly when it is eligible and one of them.
pub proof fn lemma_pool_members(records: Seq<PeerRecord>, who: NodeId, wanted: TreeSet)
    ensures
        forall|x: PeerRecord| #[trigger] pool_of(records, who, wanted).contains(x) <==> (eligible(x, who, wanted)
            && records.contains(x)),
    decreases records.len(),
{
    if records.len() > 0 {
        let init = records.drop_last();
        lemma_pool_members(init, who, wanted);
        let rest = pool_of(init, who, wanted);
        let last = records.last();
        assert forall|x: PeerRecord| #[trigger] pool_of(records, who, wanted).contains(x) <==> (eligible(x, who, wanted)
            && records.contains(x)) by {
            if pool_of(records, who, wanted).contains(x) {
                if eligible(last, who, wanted) && x == last {
                    assert(records[records.len() - 1] == x);
                } else {
                    if eligible(last, who, wanted) {
                        let k = choose|k: int| 0 <= k < rest.push(last).len() && rest.push(last)[k] == x;
                        assert(rest[k] == x);
                    }
                    assert(rest.contains(x));
                    let i = choose|i: int| 0 <= i < init.len() && init[i] == x;
                    assert(records[i] == init[i]);
                }
            }
            if eligible(x, who, wanted) && records.contains(x) {
                let i = choose|i: int| 0 <= i < records.len() && records[i] == x;
                if i == records.len() - 1 {
                    assert(rest.push(last)[rest.len() as int] == x);
                } else {
                    assert(init[i] == records[i]);
                    assert(rest.contains(x));
                    let k = choose|k: int| 0 <= k < rest.len() && rest[k] == x;
                    if eligible(last, who, wanted) {
                        assert(rest.push(last)[k] == x);
                    }
                }
            }
        }
    }
}

/// The eligible records, in order.
pub fn eligible_records(records: &Vec<PeerRecord>, who: &NodeId, wanted: TreeSet) -> (r: Vec<PeerRecord>)
    ensures r@ == pool_of(records@, *who, wanted),
{
    let mut pool: Vec<PeerRecord> = Vec::new();
    let mut i: usize = 0;
    while i < records.len()
        invariant
            i <= records@.len(),
            pool@ == pool_of(records@.take(i as int), *who, wanted),
        decreases records@.len() - i,
    {
        let rec = records[i];
        proof {
            assert(records@.take(i + 1).drop_last() =~= records@.take(i as int));
        }
        if !rec.node_id.same(who) && (wanted.is_empty() || (!rec.node_class.is_leaf()
            && !rec.assigned_trees.intersection(wanted).is_empty())) {
            pool.push(rec);
        }
        i = i + 1;
    }
    proof {
        assert(records@.take(records@.len() as int) =~= records@);
    }
    pool
}

/// How many records one answer carries out of a pool of `n`.
pub open spec fn answer_len(n: nat) -> nat {
    if n <= MAX_GET_PEERS_RECORDS { n } else { MAX_GET_PEERS_RECORDS as nat }
}

/// `answer` is a random sample of `pool`: as many records as fit in one
/// answer, each from the pool (no record more often than there), and the
/// whole pool when it fits.
pub open spec fn sampled_from(answer: Seq<PeerRecord>, pool: Seq<PeerRecord>) -> bool {
    &&& answer.len() == answer_len(pool.len())
    &&& answer.to_multiset().subset_of(pool.to_multiset())
    &&& pool.len() <= MAX_GET_PEERS_RECORDS ==> answer.to_multiset() == pool.to_multiset()
}

/// Shuffle the pool with `rng` and keep what fits in one answer.
pub fn sample_records(rng: &mut rand_chacha::ChaCha8Rng, pool: Vec<PeerRecord>) -> (r: Vec<PeerRecord>)
    ensures sampled_from(r@, pool@),
{
    broadcast use vstd::seq_lib::group_to_multiset_ensures, vstd::multiset::group_multiset_axioms;

    let mut pool = pool;
    let ghost whole = pool@;
    shuffle_records(rng, &mut pool);
    let ghost shuffled = pool@;
    pool.truncate(MAX_GET_PEERS_RECORDS);
    proof {
        assert(shuffled.len() == whole.len()) by {
            assert(shuffled.len() == shuffled.to_multiset().len());
            assert(whole.len() == whole.to_multiset().len());
        }
        if shuffled.len() > MAX_GET_PEERS_RECORDS {
            let k = MAX_GET_PEERS_RECORDS as int;
            let a = shuffled.subrange(0, k);
            let b = shuffled.subrange(k, shuffled.len() as int);
            assert(shuffled =~= a + b);
            vstd::seq_lib::lemma_multiset_commutative(a, b);
            assert(pool@ == a);
            assert forall|v: PeerRecord| #[trigger] pool@.to_multiset().count(v) <= whole.to_multiset().count(v) by {
                assert(a.to_multiset().add(b.to_multiset()).count(v) == a.to_multiset().count(v) + b.to_multiset().count(v));
            }
        } else {
            assert(pool@ == shuffled);
        }
    }
    pool
}

/// Every record of a sample of the eligible records is eligible for the
/// asker (never the asker itself; with trees asked for, a relay assigned to
/// one of them) and one of the records sampled from.
pub proof fn lemma_answer_eligible(records: Seq<PeerRecord>, who: NodeId, wanted: TreeSet, answer: Seq<PeerRecord>)
    requires
        sampled_from(answer, pool_of(records, who, wanted)),
    ensures
        forall|k: int| 0 <= k < answer.len() ==> eligible(#[trigger] answer[k], who, wanted) && records.contains(answer[k]),
{
    broadcast use vstd::seq_lib::group_to_multiset_ensures;

    lemma_pool_members(records, who, wanted);
    let pool = pool_of(records, who, wanted);
    assert forall|k: int| 0 <= k < answer.len() implies eligible(#[trigger] answer[k], who, wanted) && records.contains(
        answer[k],
    ) by {
        let x = answer[k];
        assert(answer.contains(x));
        assert(answer.to_multiset().count(x) > 0);
        assert(pool.to_multiset().count(x) > 0);
        assert(pool.contains(x));
    }
}

/// Whether two optional stream records hold the same fields.
pub open spec fn same_record_opt(a: Option<StreamRecord>, b: Option<StreamRecord>) -> bool {
    match (a, b) {
        (Some(x), Some(y)) => record_same(x, y),
        (None, None) => true,
        _ => false,
    }
}

/// A copy of an optional stream record.
pub fn copy_record_opt(r: &Option<StreamRecord>) -> (c: Option<StreamRecord>)
    ensures same_record_opt(c, *r),
{
    match r {
        Some(sr) => Some(sr.duplicate()),
        None => None,
    }
}

/// No NodeID appears twice.
pub open spec fn record_ids_unique(s: Seq<PeerRecord>) -> bool {
    forall|i: int, j: int| 0 <= i < s.len() && 0 <= j < s.len() && i != j ==> #[trigger] s[i].node_id != #[trigger] s[j].node_id
}

/// `after` is `before` with `rec` entered, replacing any record of its NodeID.
pub open spec fn record_upserted(before: Seq<PeerRecord>, after: Seq<PeerRecord>, rec: PeerRecord) -> bool {
    forall|x: PeerRecord| #[trigger] after.contains(x) <==> (x == rec || (before.contains(x) && x.node_id != rec.node_id))
}

/// `after` is `before` without the record of `id`.
pub open spec fn record_removed(before: Seq<PeerRecord>, after: Seq<PeerRecord>, id: NodeId) -> bool {
    forall|x: PeerRecord| #[trigger] after.contains(x) <==> (before.contains(x) && x.node_id != id)
}

/// Where the record of `node_id` sits in `records`, if anywhere.
fn find_record(records: &Vec<PeerRecord>, node_id: &NodeId) -> (r: Option<usize>)
    ensures
        r matches Some(i) ==> i < records@.len() && records@[i as int].node_id == *node_id,
        r is None ==> forall|j: int| 0 <= j < records@.len() ==> (#[trigger] records@[j]).node_id != *node_id,
{
    let mut i: usize = 0;
    while i < records.len()
        invariant
            i <= records@.len(),
            forall|j: int| 0 <= j < i ==> (#[trigger] records@[j]).node_id != *node_id,
        decreases records@.len() - i,
    {
        if records[i].node_id.same(node_id) {
            return Some(i);
        }
        i = i + 1;
    }
    None
}

/// Entering a record at the place its NodeID holds upserts it.
proof fn lemma_record_replaces(before: Seq<PeerRecord>, i: int, rec: PeerRecord)
    requires
        record_ids_unique(before),
        0 <= i < before.len(),
        before[i].node_id == rec.node_id,
    ensures
        record_upserted(before, before.update(i, rec), rec),
        record_ids_unique(before.update(i, rec)),
{
    let after = before.update(i, rec);
    assert forall|x: PeerRecord| #[trigger] after.contains(x) implies (x == rec || (before.contains(x) && x.node_id != rec.node_id)) by {
        let k = choose|k: int| 0 <= k < after.len() && after[k] == x;
        if k != i {
            assert(before[k] == x);
            assert(before[k].node_id != before[i].node_id);
        }
    }
    assert forall|x: PeerRecord| (x == rec || (before.contains(x) && x.node_id != rec.node_id)) implies #[trigger] after.contains(x) by {
        if x == rec {
            assert(after[i] == x);
        } else {
            let k = choose|k: int| 0 <= k < before.len() && before[k] == x;
            assert(k != i);
            assert(after[k] == x);
        }
    }
    assert forall|a: int, b: int| 0 <= a < after.len() && 0 <= b < after.len() && a != b implies #[trigger] after[a].node_id
        != #[trigger] after[b].node_id by {
        if a == i {
            assert(after[b] == before[b]);
            assert(before[b].node_id != before[i].node_id);
        } else if b == i {
            assert(after[a] == before[a]);
            assert(before[a].node_id != before[i].node_id);
        } else {
            assert(after[a] == before[a]);
            assert(after[b] == before[b]);
        }
    }
}

/// Appending a record whose NodeID is absent upserts it.
proof fn lemma_record_appends(before: Seq<PeerRecord>, rec: PeerRecord)
    requires
        record_ids_unique(before),
        forall|j: int| 0 <= j < before.len() ==> (#[trigger] before[j]).node_id != rec.node_id,
    ensures
        record_upserted(before, before.push(rec), rec),
        record_ids_unique(before.push(rec)),
{
    let after = before.push(rec);
    assert forall|x: PeerRecord| #[trigger] after.contains(x) implies (x == rec || (before.contains(x) && x.node_id != rec.node_id)) by {
        let k = choose|k: int| 0 <= k < after.len() && after[k] == x;
        if k < before.len() {
            assert(before[k] == x);
        }
    }
    assert forall|x: PeerRecord| (x == rec || (before.contains(x) && x.node_id != rec.node_id)) implies #[trigger] after.contains(x) by {
        if x == rec {
            assert(after[before.len() as int] == x);
        } else {
            let k = choose|k: int| 0 <= k < before.len() && before[k] == x;
            assert(after[k] == x);
        }
    }
    assert forall|a: int, b: int| 0 <= a < after.len() && 0 <= b < after.len() && a != b implies #[trigger] after[a].node_id
        != #[trigger] after[b].node_id by {
        if a == before.len() {
            assert(after[b] == before[b]);
        } else if b == before.len() {
            assert(after[a] == before[a]);
        } else {
            assert(after[a] == before[a]);
            assert(after[b] == before[b]);
        }
    }
}

/// Dropping the record at the place its NodeID holds removes exactly it.
proof fn lemma_record_drops(before: Seq<PeerRecord>, i: int, id: NodeId)
    requires
        record_ids_unique(before),
        0 <= i < before.len(),
        before[i].node_id == id,
    ensures
        record_removed(before, before.remove(i), id),
        record_ids_unique(before.remove(i)),
{
    let after = before.remove(i);
    assert forall|x: PeerRecord| #[trigger] after.contains(x) implies (before.contains(x) && x.node_id != id) by {
        let k = choose|k: int| 0 <= k < after.len() && after[k] == x;
        if k < i {
            assert(before[k] == x);
            assert(before[k].node_id != before[i].node_id);
        } else {
            assert(before[k + 1] == x);
            assert(before[k + 1].node_id != before[i].node_id);
        }
    }
    assert forall|x: PeerRecord| (before.contains(x) && x.node_id != id) implies #[trigger] after.contains(x) by {
        let k = choose|k: int| 0 <= k < before.len() && before[k] == x;
        assert(k != i);
        if k < i {
            assert(after[k] == x);
        } else {
            assert(after[k - 1] == x);
        }
    }
    assert forall|a: int, b: int| 0 <= a < after.len() && 0 <= b < after.len() && a != b implies #[trigger] after[a].node_id
        != #[trigger] after[b].node_id by {
        let a2 = if a < i { a } else { a + 1 };
        let b2 = if b < i { b } else { b + 1 };
        assert(after[a] == before[a2]);
        assert(after[b] == before[b2]);
    }
}

/// A record the oracle was handed is offered to any later query it is
/// eligible for, whenever every eligible record fits in one answer.
pub proof fn lemma_registered_record_offered(
    before: Seq<PeerRecord>,
    after: Seq<PeerRecord>,
    rec: PeerRecord,
    who: NodeId,
    wanted: TreeSet,
    answer: Seq<PeerRecord>,
)
    requires
        record_upserted(before, after, rec),
        eligible(rec, who, wanted),
        sampled_from(answer, pool_of(after, who, wanted)),
        pool_of(after, who, wanted).len() <= MAX_GET_PEERS_RECORDS,
    ensures
        answer.contains(rec),
{
    broadcast use vstd::seq_lib::group_to_multiset_ensures;

    assert(after.contains(rec));
    lemma_pool_members(after, who, wanted);
    let pool = pool_of(after, who, wanted);
    assert(pool.contains(rec));
    assert(pool.to_multiset().count(rec) > 0);
    assert(answer.to_multiset().count(rec) > 0);
}

/// Discovery stand-in for simulations: answers queries the way a guardian
/// would — a uniformly random sample of registrations eligible for the asker —
/// from records it is handed directly, plus the publisher's latest record.
pub struct Oracle {
    records: Vec<PeerRecord>,
    stream_record: Option<StreamRecord>,
    queries: u64,
}

impl Oracle {
    /// The records held.
    pub closed spec fn records_spec(&self) -> Seq<PeerRecord> {
        self.records@
    }

    /// The latest stream record stored.
    pub closed spec fn stream_record_spec(&self) -> Option<StreamRecord> {
        self.stream_record
    }

    /// Queries served.
    pub closed spec fn queries_spec(&self) -> u64 {
        self.queries
    }

    /// No NodeID twice.
    pub closed spec fn wf(&self) -> bool {
        record_ids_unique(self.records@)
    }

    /// An empty oracle.
    pub fn new() -> (o: Oracle)
        ensures
            o.wf(),
            o.records_spec() == Seq::<PeerRecord>::empty(),
            o.stream_record_spec() is None,
            o.queries_spec() == 0,
    {
        Oracle { records: Vec::new(), stream_record: None, queries: 0 }
    }

    /// Register or refresh a record.
    pub fn register(&mut self, r: PeerRecord)
        requires old(self).wf(),
        ensures
            final(self).wf(),
            record_upserted(old(self).records_spec(), final(self).records_spec(), r),
            final(self).stream_record_spec() == old(self).stream_record_spec(),
            final(self).queries_spec() == old(self).queries_spec(),
    {
        let ghost before = self.records@;
        match find_record(&self.records, &r.node_id) {
            Some(i) => {
                proof {
                    lemma_record_replaces(before, i as int, r);
                }
                self.records.set(i, r);
            },
            None => {
                proof {
                    lemma_record_appends(before, r);
                }
                self.records.push(r);
            },
        }
    }

    /// Remove a dead node.
    pub fn remove(&mut self, id: &NodeId)
        requires old(self).wf(),
        ensures
            final(self).wf(),
            record_removed(old(self).records_spec(), final(self).records_spec(), *id),
            final(self).stream_record_spec() == old(self).stream_record_spec(),
            final(self).queries_spec() == old(self).queries_spec(),
    {
        let ghost before = self.records@;
        match find_record(&self.records, id) {
            Some(i) => {
                proof {
                    lemma_record_drops(before, i as int, *id);
                }
                self.records.remove(i);
            },
            None => {
                proof {
                    assert forall|x: PeerRecord| #[trigger] before.contains(x) implies x.node_id != *id by {
                        let k = choose|k: int| 0 <= k < before.len() && before[k] == x;
                        assert(before[k].node_id != *id);
                    }
                }
            },
        }
    }

    /// Store the publisher's record.
    pub fn store(&mut self, r: StreamRecord)
        requires old(self).wf(),
        ensures
            final(self).wf(),
            final(self).stream_record_spec() == Some(r),
            final(self).records_spec() == old(self).records_spec(),
            final(self).queries_spec() == old(self).queries_spec(),
    {
        self.stream_record = Some(r);
    }

    /// Answer a query from `who` wanting relays of `wanted` (empty: anyone).
    pub fn get_peers(&mut self, rng: &mut rand_chacha::ChaCha8Rng, who: &NodeId, wanted: TreeSet) -> (r: Vec<PeerRecord>)
        requires
            old(self).wf(),
            old(self).queries_spec() < u64::MAX,
        ensures
            final(self).wf(),
            final(self).queries_spec() == old(self).queries_spec() + 1,
            final(self).records_spec() == old(self).records_spec(),
            final(self).stream_record_spec() == old(self).stream_record_spec(),
            sampled_from(r@, pool_of(old(self).records_spec(), *who, wanted)),
    {
        self.queries = self.queries + 1;
        let pool = eligible_records(&self.records, who, wanted);
        sample_records(rng, pool)
    }

    /// The latest stream record stored.
    pub fn stream_record(&self) -> (r: &Option<StreamRecord>)
        ensures *r == self.stream_record_spec(),
    {
        &self.stream_record
    }

    /// Queries served.
    pub fn queries(&self) -> (r: u64)
        ensures r == self.queries_spec(),
    {
        self.queries
    }
}

impl Default for Oracle {
    fn default() -> (o: Oracle)
        ensures
            o.wf(),
            o.records_spec() == Seq::<PeerRecord>::empty(),
            o.stream_record_spec() is None,
            o.queries_spec() == 0,
    {
        Oracle::new()
    }
}

} // verus!
