//! The swarm buffer: manifests admitted by sequence window, per-block symbol
//! collection, verify-then-forward, the playout timeline and retention.
use vstd::prelude::*;
use crate::crypto::merkle::{digests, merkle_path};
use crate::media::chunk::{block_verifies, lemma_built_blocks_verify, verify_block, verify_manifest, views, BuiltChunk, LayeredChunk};
use crate::media::sink::{lemma_count_prefix, lemma_reassemble_len, present_concat, reassemble};
use crate::wire::push_bytes;
use crate::media::fec::{concat_source, decode_outcome, lemma_source_slices_concat, raptorq_decoded, some_count, SymbolCollector};
use crate::media::manifest::{body_bytes, body_same, count_sum, layer_of_from, Manifest, ManifestBody};
use crate::crypto::hashing::blake3_spec;
use crate::crypto::signing::verify_result;
use crate::media::mapping::{block_tree, SlicingMatrix};
use crate::media::MediaError;
use crate::peer::params::Params;
use crate::time::{sat_add_u64, sat_sub, Duration, Instant};
use crate::wire::{
    BlockIndex, Digest, NodeId, PublicKeyBytes, SegmentSeq, SignatureBytes, TreeId, CHUNKS_PER_SEGMENT,
    BLOCK_SIZE, K_BLOCK, SYMBOL_SIZE,
};

verus! {

/// State of one block.
#[derive(Debug)]
pub enum BlockSlot {
    /// Collecting symbols and/or waiting for its proof.
    Pending {
        /// Symbols so far.
        collector: SymbolCollector,
        /// Proof (siblings, sender depth, sender id) once received.
        proof: Option<(Vec<Digest>, u8, NodeId)>,
        /// Verification attempts that failed (poisoned data from a parent).
        failures: u8,
    },
    /// Verified bytes.
    Verified(Vec<u8>),
}

/// One chunk's buffer.
#[derive(Debug)]
pub struct ChunkBuf {
    /// The verified manifest body.
    pub manifest: ManifestBody,
    /// Blocks by `j`.
    pub blocks: Vec<BlockSlot>,
    /// Verified count.
    pub verified: u16,
    /// Tree carrying each block.
    pub tree_of: Vec<TreeId>,
    /// Layer of each block.
    pub layer_of: Vec<u8>,
    /// Playout deadline.
    pub deadline: Instant,
    /// Whether the deadline has fired.
    pub played: bool,
    /// When the manifest was accepted.
    pub accepted_at: Instant,
    /// The source signature, kept so the manifest can be re-served.
    pub signature: SignatureBytes,
}

/// A block that has just been verified and should be forwarded.
#[derive(Debug, Clone)]
pub struct VerifiedBlock {
    /// Segment.
    pub segment: SegmentSeq,
    /// Block index.
    pub index: BlockIndex,
    /// Tree that carries it.
    pub tree: TreeId,
    /// Layer.
    pub layer: u8,
    /// Bytes.
    pub bytes: Vec<u8>,
    /// Merkle siblings (for our own block proofs).
    pub siblings: Vec<Digest>,
    /// Sender's advertised depth (we are one deeper).
    pub sender_depth: u8,
    /// Whether RaptorQ decoding was needed.
    pub decoded: bool,
}

/// A chunk at its deadline.
#[derive(Debug)]
pub struct PlayedChunk {
    /// Chunk with the leading complete layers only.
    pub chunk: LayeredChunk,
    /// Leading complete layers.
    pub layers_complete: u8,
    /// Total layers in the manifest.
    pub layers_total: u8,
    /// Missing blocks across all layers.
    pub missing: u16,
}

/// Why a manifest was refused, or that it was taken.
#[derive(Debug, Clone, Copy, PartialEq, Eq, Structural)]
pub enum ManifestVerdict {
    /// New and accepted.
    Accepted,
    /// Already held (never penalised).
    Duplicate,
    /// Signature or stream id wrong.
    BadSignature,
    /// Below the playout floor or too far ahead of the live edge.
    OutsideWindow,
    /// Slicing matrix version we do not hold.
    UnknownMatrix,
}

/// The chunks of one segment.
#[derive(Debug)]
struct SegmentBuf {
    seq: u32,
    chunks: Vec<Option<ChunkBuf>>,
}

/// Symbols and a proof that arrived before their manifest.
#[derive(Debug)]
struct OrphanBlock {
    seg: u32,
    index: u16,
    symbols: Vec<(u16, Vec<u8>)>,
    proof: Option<(Vec<Digest>, u8, NodeId)>,
    since: Option<Instant>,
}

/// Verified slots among `s`.
pub open spec fn verified_count(s: Seq<BlockSlot>) -> nat
    decreases s.len(),
{
    if s.len() == 0 {
        0
    } else {
        verified_count(s.drop_last()) + (if s.last() is Verified { 1nat } else { 0nat })
    }
}

/// Blocks a manifest describes.
pub open spec fn manifest_blocks(m: ManifestBody) -> nat {
    count_sum(m.layer_block_counts@)
}

/// The chunk buffer is consistent with its manifest: one slot, tree and layer
/// per block, the verified count tracked, every collector well formed, and
/// filed under its own segment and chunk index.
pub open spec fn chunk_wf(cb: ChunkBuf, seq: u32, c: int) -> bool {
    let n = manifest_blocks(cb.manifest);
    &&& cb.manifest.layer_block_counts@.len() <= 255
    &&& n <= 65535
    &&& cb.blocks@.len() == n
    &&& cb.tree_of@.len() == n
    &&& cb.layer_of@.len() == n
    &&& cb.verified == verified_count(cb.blocks@)
    &&& forall|j: int| 0 <= j < n ==> (#[trigger] cb.blocks@[j] matches BlockSlot::Pending { collector, .. } ==> collector.wf())
    &&& cb.manifest.segment.0 == seq
    &&& cb.manifest.chunk_index == c
}

/// Index of segment `s` among `keys` from position `i` on, `-1` when absent.
pub open spec fn find_key(keys: Seq<u32>, s: u32, i: int) -> int
    decreases keys.len() - i,
{
    if i < 0 || i >= keys.len() {
        -1
    } else if keys[i] == s {
        i
    } else {
        find_key(keys, s, i + 1)
    }
}

/// Keys in strictly increasing order.
pub open spec fn strictly_sorted(keys: Seq<u32>) -> bool {
    forall|a: int, b: int| 0 <= a < b < keys.len() ==> keys[a] < keys[b]
}

proof fn lemma_find_key(keys: Seq<u32>, s: u32, i: int)
    requires 0 <= i,
    ensures
        ({
            let r = find_key(keys, s, i);
            (r == -1 && forall|k: int| i <= k < keys.len() ==> keys[k] != s)
            || (i <= r < keys.len() && keys[r] == s && forall|k: int| i <= k < r ==> keys[k] != s)
        }),
    decreases keys.len() - i,
{
    if i < keys.len() && keys[i] != s {
        lemma_find_key(keys, s, i + 1);
    }
}

/// With strictly sorted keys, the index of `s` is the one position holding it.
proof fn lemma_find_sorted(keys: Seq<u32>, s: u32)
    requires strictly_sorted(keys),
    ensures
        forall|k: int| 0 <= k < keys.len() && keys[k] == s ==> find_key(keys, s, 0) == k,
        (forall|k: int| 0 <= k < keys.len() ==> keys[k] != s) ==> find_key(keys, s, 0) == -1,
{
    lemma_find_key(keys, s, 0);
}

/// The spec of a slot's verified bytes.
pub open spec fn slot_bytes(b: BlockSlot) -> Option<Seq<u8>> {
    match b {
        BlockSlot::Verified(v) => Some(v@),
        _ => None,
    }
}

impl ChunkBuf {
    /// Whether every block carried by `tree` is verified.
    pub open spec fn complete_for_tree_spec(&self, tree: TreeId) -> bool {
        forall|j: int| 0 <= j < self.blocks@.len() && j < self.tree_of@.len() && #[trigger] self.tree_of@[j] == tree
            ==> self.blocks@[j] is Verified
    }

    /// Whether every block of layer `l` is verified.
    pub open spec fn layer_complete_spec(&self, l: u8) -> bool {
        forall|j: int| 0 <= j < self.blocks@.len() && j < self.layer_of@.len() && #[trigger] self.layer_of@[j] == l
            ==> self.blocks@[j] is Verified
    }

    /// Whether every block carried by `tree` is verified.
    pub fn complete_for_tree(&self, tree: TreeId) -> (r: bool)
        ensures r == self.complete_for_tree_spec(tree),
    {
        let mut j: usize = 0;
        while j < self.blocks.len() && j < self.tree_of.len()
            invariant
                forall|k: int| 0 <= k < j && k < self.blocks@.len() && k < self.tree_of@.len()
                    && #[trigger] self.tree_of@[k] == tree ==> self.blocks@[k] is Verified,
            decreases self.blocks@.len() - j,
        {
            if self.tree_of[j] == tree {
                match &self.blocks[j] {
                    BlockSlot::Verified(_) => {},
                    _ => return false,
                }
            }
            j = j + 1;
        }
        true
    }

    /// Blocks of `tree` in this chunk.
    pub fn block_count_for_tree(&self, tree: TreeId) -> (r: usize)
        ensures r == self.tree_of@.filter(|t: TreeId| t == tree).len(),
    {
        let mut n: usize = 0;
        let mut j: usize = 0;
        while j < self.tree_of.len()
            invariant
                j <= self.tree_of@.len(),
                n == self.tree_of@.take(j as int).filter(|t: TreeId| t == tree).len(),
                n <= j,
            decreases self.tree_of@.len() - j,
        {
            proof {
                let s = self.tree_of@.take(j + 1);
                assert(s =~= self.tree_of@.take(j as int).push(self.tree_of@[j as int]));
                self.tree_of@.take(j as int).lemma_filter_push(self.tree_of@[j as int], |t: TreeId| t == tree);
            }
            if self.tree_of[j] == tree {
                n = n + 1;
            }
            j = j + 1;
        }
        assert(self.tree_of@.take(j as int) =~= self.tree_of@);
        n
    }

    /// Whether layer `l` is fully verified.
    pub fn layer_complete(&self, l: u8) -> (r: bool)
        ensures r == self.layer_complete_spec(l),
    {
        let mut j: usize = 0;
        while j < self.blocks.len() && j < self.layer_of.len()
            invariant
                forall|k: int| 0 <= k < j && k < self.blocks@.len() && k < self.layer_of@.len()
                    && #[trigger] self.layer_of@[k] == l ==> self.blocks@[k] is Verified,
            decreases self.blocks@.len() - j,
        {
            if self.layer_of[j] == l {
                match &self.blocks[j] {
                    BlockSlot::Verified(_) => {},
                    _ => return false,
                }
            }
            j = j + 1;
        }
        true
    }

    /// Missing block count.
    pub fn missing(&self) -> (r: u16)
        requires self.blocks@.len() <= 65535, self.verified <= self.blocks@.len(),
        ensures r == self.blocks@.len() - self.verified,
    {
        self.blocks.len() as u16 - self.verified
    }

    /// Verified bytes of block `j`.
    pub fn block(&self, j: u16) -> (r: Option<&Vec<u8>>)
        ensures
            match r {
                Some(b) => j < self.blocks@.len() && slot_bytes(self.blocks@[j as int]) == Some(b@),
                None => j >= self.blocks@.len() || self.blocks@[j as int] !is Verified,
            },
    {
        if (j as usize) < self.blocks.len() {
            match &self.blocks[j as usize] {
                BlockSlot::Verified(b) => Some(b),
                _ => None,
            }
        } else {
            None
        }
    }
}

/// The playout deadline of chunk `c` of segment `seg`: before the timeline is
/// anchored, `now + Δ_buffer`; after, the anchor's arrival plus `Δ_buffer`,
/// moved by one chunk period per chunk of distance from the anchor chunk.
pub open spec fn deadline_spec(anchor: Option<(SegmentSeq, u8, Instant)>, delta: u64, period: u64, seg: u32, c: u8, now: u64) -> int {
    match anchor {
        None => sat_add_u64(now as int, delta as int),
        Some((s0, c0, t0)) => {
            let idx = (seg - s0.0) * 4 + (c - c0);
            let base = sat_add_u64(t0.0 as int, delta as int);
            if idx >= 0 {
                sat_add_u64(base, period * idx)
            } else {
                sat_sub(base, period * (-idx))
            }
        },
    }
}

/// The position of chunk `c` of segment `s` in the stream.
pub open spec fn stream_pos(s: u32, c: u8) -> int {
    s * 4 + c
}

/// Deadlines follow stream position. Under an anchor chunk `(s0, c0)` that
/// arrived at `t0`, the chunk `k` positions after it is due `k` chunk periods
/// after `t0 + Δ` (capped at the end of the `u64` range) and the chunk `k`
/// positions before it `k` periods before (floored at 0); so a chunk later in
/// the stream is never due before an earlier one, and the anchor chunk is due
/// exactly at `t0 + Δ`. Before any anchor, a chunk is due `Δ` after `now`.
pub proof fn lemma_deadline_follows_position(
    anchor: (SegmentSeq, u8, Instant),
    delta: u64,
    period: u64,
    s1: u32,
    c1: u8,
    s2: u32,
    c2: u8,
    now: u64,
)
    ensures
        stream_pos(s1, c1) <= stream_pos(s2, c2) ==> deadline_spec(Some(anchor), delta, period, s1, c1, now) <= deadline_spec(
            Some(anchor),
            delta,
            period,
            s2,
            c2,
            now,
        ),
        stream_pos(s1, c1) >= stream_pos(anchor.0.0, anchor.1) ==> deadline_spec(Some(anchor), delta, period, s1, c1, now) == {
            let t = anchor.2.0 + delta + (stream_pos(s1, c1) - stream_pos(anchor.0.0, anchor.1)) * period;
            if t > u64::MAX { u64::MAX as int } else { t }
        },
        stream_pos(s1, c1) < stream_pos(anchor.0.0, anchor.1) ==> deadline_spec(Some(anchor), delta, period, s1, c1, now) == {
            let back = (stream_pos(anchor.0.0, anchor.1) - stream_pos(s1, c1)) * period;
            let base = if anchor.2.0 + delta > u64::MAX { u64::MAX as int } else { anchor.2.0 + delta };
            if base >= back { base - back } else { 0 }
        },
        deadline_spec(Some(anchor), delta, period, anchor.0.0, anchor.1, now) == {
            let t = anchor.2.0 + delta;
            if t > u64::MAX { u64::MAX as int } else { t }
        },
        deadline_spec(None, delta, period, s1, c1, now) == {
            let t = now + delta;
            if t > u64::MAX { u64::MAX as int } else { t }
        },
{
    let p = period as int;
    let a = stream_pos(anchor.0.0, anchor.1);
    let k1 = stream_pos(s1, c1) - a;
    let k2 = stream_pos(s2, c2) - a;
    assert((s1 - anchor.0.0) * 4 + (c1 - anchor.1) == k1);
    assert((s2 - anchor.0.0) * 4 + (c2 - anchor.1) == k2);
    assert(p * 0 == 0);
    if k1 >= 0 {
        assert(k1 * p == p * k1) by (nonlinear_arith);
        assert(p * k1 >= 0) by (nonlinear_arith) requires p >= 0, k1 >= 0;
    } else {
        assert((-k1) * p == p * (-k1)) by (nonlinear_arith);
    }
    if k1 <= k2 {
        if k1 >= 0 {
            assert(p * k1 <= p * k2) by (nonlinear_arith) requires p >= 0, 0 <= k1 <= k2;
        } else if k2 >= 0 {
            assert(p * (-k1) >= 0) by (nonlinear_arith) requires p >= 0, k1 < 0;
            assert(p * k2 >= 0) by (nonlinear_arith) requires p >= 0, k2 >= 0;
        } else {
            assert(p * (-k1) >= p * (-k2)) by (nonlinear_arith) requires p >= 0, k1 <= k2 < 0;
        }
    }
}

/// The held chunks of a buffer on its timeline are due in stream order: a
/// chunk later in the stream is never due before an earlier one.
pub proof fn lemma_held_deadlines_ordered(b: &SwarmBuffer, s1: u32, c1: int, s2: u32, c2: int)
    requires
        on_timeline(b),
        b.chunk_view(s1, c1) is Some,
        b.chunk_view(s2, c2) is Some,
        0 <= c1 < 4,
        0 <= c2 < 4,
        stream_pos(s1, c1 as u8) <= stream_pos(s2, c2 as u8),
    ensures
        b.chunk_view(s1, c1)->Some_0.deadline.0 <= b.chunk_view(s2, c2)->Some_0.deadline.0,
{
    let an = b.anchor_spec()->Some_0;
    lemma_deadline_follows_position(an, b.timing_spec().0, b.timing_spec().1, s1, c1 as u8, s2, c2 as u8, 0);
}

/// The node's media buffer.
#[derive(Debug)]
pub struct SwarmBuffer {
    /// Buffered segments keyed by segment number: a list in increasing
    /// order of distinct numbers (`wf`), so that playout, re-serving and
    /// garbage collection walk it in order and are proved by induction over
    /// the list.
    segments: Vec<SegmentBuf>,
    live_edge: SegmentSeq,
    anchor: Option<(SegmentSeq, u8, Instant)>,
    /// Blocks that arrived before their manifest, keyed by (segment, block):
    /// a list of distinct keys (`wf`), consumed in arrival order when the
    /// manifest comes, rather than in a hash map's unspecified order.
    orphans: Vec<OrphanBlock>,
    played_through: SegmentSeq,
    any_played: bool,
    delta_buffer: Duration,
    chunk_period: Duration,
    retain: Duration,
    window_ahead: u32,
}

/// Segment numbers of the buffered segments, in storage order.
spec fn seg_keys(segs: Seq<SegmentBuf>) -> Seq<u32> {
    segs.map_values(|b: SegmentBuf| b.seq)
}

/// The chunk `c` of segment `s` among `segs`.
spec fn view_of(segs: Seq<SegmentBuf>, s: u32, c: int) -> Option<ChunkBuf> {
    let i = find_key(seg_keys(segs), s, 0);
    if i < 0 || c < 0 || c >= CHUNKS_PER_SEGMENT {
        None
    } else {
        segs[i].chunks@[c]
    }
}

/// `new` is `old` with chunk slot `c` of segment position `i` replaced by `v`.
spec fn segs_put(old: Seq<SegmentBuf>, new: Seq<SegmentBuf>, i: int, c: int, v: Option<ChunkBuf>) -> bool {
    &&& new.len() == old.len()
    &&& 0 <= i < old.len()
    &&& new[i].seq == old[i].seq
    &&& new[i].chunks@ == old[i].chunks@.update(c, v)
    &&& forall|k: int| 0 <= k < old.len() && k != i ==> new[k] == old[k]
}

proof fn lemma_segs_put(old: Seq<SegmentBuf>, new: Seq<SegmentBuf>, i: int, c: int, v: Option<ChunkBuf>)
    requires
        segs_put(old, new, i, c, v),
        strictly_sorted(seg_keys(old)),
        0 <= c < CHUNKS_PER_SEGMENT,
        old[i].chunks@.len() == CHUNKS_PER_SEGMENT,
    ensures
        seg_keys(new) == seg_keys(old),
        view_of(new, old[i].seq, c) == v,
        forall|s2: u32, c2: int| !(s2 == old[i].seq && c2 == c) ==> #[trigger] view_of(new, s2, c2) == view_of(old, s2, c2),
{
    assert(seg_keys(new) =~= seg_keys(old));
    lemma_find_sorted(seg_keys(old), old[i].seq);
    assert(seg_keys(old)[i] == old[i].seq);
    assert forall|s2: u32, c2: int| !(s2 == old[i].seq && c2 == c) implies #[trigger] view_of(new, s2, c2) == view_of(old, s2, c2) by {
        let k = find_key(seg_keys(old), s2, 0);
        lemma_find_key(seg_keys(old), s2, 0);
        if k >= 0 && k == i {
            assert(s2 == old[i].seq);
        }
    }
}

/// Verified slots after replacing slot `j`.
proof fn lemma_verified_update(s: Seq<BlockSlot>, j: int, x: BlockSlot)
    requires 0 <= j < s.len(),
    ensures
        verified_count(s.update(j, x)) + (if s[j] is Verified { 1int } else { 0int })
            == verified_count(s) + (if x is Verified { 1int } else { 0int }),
    decreases s.len(),
{
    if j == s.len() - 1 {
        assert(s.update(j, x).drop_last() =~= s.drop_last());
    } else {
        lemma_verified_update(s.drop_last(), j, x);
        assert(s.update(j, x).drop_last() =~= s.drop_last().update(j, x));
    }
}

proof fn lemma_verified_le(s: Seq<BlockSlot>)
    ensures verified_count(s) <= s.len(),
    decreases s.len(),
{
    if s.len() > 0 {
        lemma_verified_le(s.drop_last());
    }
}

/// `b` is `a` with slot `j` replaced by `x` and the verified count kept in step.
pub open spec fn chunk_slot_updated(a: ChunkBuf, b: ChunkBuf, j: int, x: BlockSlot) -> bool {
    &&& b.manifest == a.manifest
    &&& b.blocks@ == a.blocks@.update(j, x)
    &&& b.verified == verified_count(b.blocks@)
    &&& b.tree_of@ == a.tree_of@
    &&& b.layer_of@ == a.layer_of@
    &&& b.deadline == a.deadline
    &&& b.played == a.played
    &&& b.accepted_at == a.accepted_at
    &&& b.signature == a.signature
}

/// `b` holds what `a` holds.
pub open spec fn chunk_same(a: ChunkBuf, b: ChunkBuf) -> bool {
    &&& b.manifest == a.manifest
    &&& b.blocks@ == a.blocks@
    &&& b.verified == a.verified
    &&& b.tree_of@ == a.tree_of@
    &&& b.layer_of@ == a.layer_of@
    &&& b.deadline == a.deadline
    &&& b.played == a.played
    &&& b.accepted_at == a.accepted_at
    &&& b.signature == a.signature
}

/// A segment's four chunk slots, each consistent with its manifest.
spec fn segment_wf(b: SegmentBuf) -> bool {
    &&& b.chunks@.len() == CHUNKS_PER_SEGMENT
    &&& forall|c: int| 0 <= c < CHUNKS_PER_SEGMENT ==> (#[trigger] b.chunks@[c] matches Some(cb) ==> chunk_wf(cb, b.seq, c))
}

/// Keys of the orphan entries.
spec fn orphan_keys(o: Seq<OrphanBlock>) -> Seq<(u32, u16)> {
    o.map_values(|b: OrphanBlock| (b.seg, b.index))
}

impl SwarmBuffer {
    /// Buffered segments in increasing order, four chunk slots each, every
    /// chunk consistent with its manifest; orphan entries keyed uniquely; the
    /// chunk period short enough for deadline arithmetic to stay in range.
    pub closed spec fn wf(&self) -> bool {
        &&& strictly_sorted(seg_keys(self.segments@))
        &&& forall|i: int| 0 <= i < self.segments@.len() ==> segment_wf(#[trigger] self.segments@[i])
        &&& orphan_keys(self.orphans@).no_duplicates()
        &&& forall|i: int| 0 <= i < self.orphans@.len() ==> (#[trigger] self.orphans@[i]).symbols@.len() <= 64
        &&& self.chunk_period.0 < 0x2000_0000
    }

    /// The buffer of chunk `c` of segment `s`, if its manifest is held.
    pub closed spec fn chunk_view(&self, s: u32, c: int) -> Option<ChunkBuf> {
        view_of(self.segments@, s, c)
    }

    /// Whether a manifest for chunk `c` of segment `s` is held.
    pub open spec fn held(&self, s: u32, c: int) -> bool {
        self.chunk_view(s, c) is Some
    }

    /// Segment numbers buffered, in increasing order.
    pub closed spec fn segment_keys(&self) -> Seq<u32> {
        seg_keys(self.segments@)
    }

    /// Highest segment for which a manifest was accepted.
    pub closed spec fn live_edge_spec(&self) -> SegmentSeq {
        self.live_edge
    }

    /// The playout anchor: segment, chunk and arrival of the manifest the timeline hangs on.
    pub closed spec fn anchor_spec(&self) -> Option<(SegmentSeq, u8, Instant)> {
        self.anchor
    }

    /// The newest segment all of whose chunks have played.
    pub closed spec fn played_through_spec(&self) -> SegmentSeq {
        self.played_through
    }

    /// Whether any chunk has reached its deadline.
    pub closed spec fn any_played_spec(&self) -> bool {
        self.any_played
    }

    /// `(Δ_buffer, chunk period, retention, window ahead)`.
    pub closed spec fn timing_spec(&self) -> (u64, u64, u64, u32) {
        (self.delta_buffer.0, self.chunk_period.0, self.retain.0, self.window_ahead)
    }

    /// `(segment, block index)` of each orphan entry.
    pub closed spec fn orphan_keys_spec(&self) -> Seq<(u32, u16)> {
        orphan_keys(self.orphans@)
    }

    /// Deadline of chunk `c` of segment `s` on this buffer's timeline.
    pub open spec fn deadline_at(&self, s: u32, c: u8, now: u64) -> int {
        deadline_spec(self.anchor_spec(), self.timing_spec().0, self.timing_spec().1, s, c, now)
    }

    /// New buffer with the timing parameters.
    pub fn new(params: &Params) -> (r: SwarmBuffer)
        requires params.chunk_period.0 < 0x2000_0000,
        ensures
            r.wf(),
            forall|s: u32, c: int| !(#[trigger] r.held(s, c)),
            r.segment_keys() == Seq::<u32>::empty(),
            r.live_edge_spec().0 == 0,
            r.anchor_spec() is None,
            r.played_through_spec().0 == 0,
            !r.any_played_spec(),
            r.orphan_keys_spec() == Seq::<(u32, u16)>::empty(),
            r.timing_spec() == (params.delta_buffer.0, params.chunk_period.0, params.tau_retain.0, params.manifest_window_ahead),
    {
        let r = SwarmBuffer {
            segments: Vec::new(),
            live_edge: SegmentSeq::none(),
            anchor: None,
            orphans: Vec::new(),
            played_through: SegmentSeq::none(),
            any_played: false,
            delta_buffer: params.delta_buffer,
            chunk_period: params.chunk_period,
            retain: params.tau_retain,
            window_ahead: params.manifest_window_ahead,
        };
        assert(seg_keys(r.segments@) =~= Seq::<u32>::empty());
        assert(orphan_keys(r.orphans@) =~= Seq::<(u32, u16)>::empty());
        r
    }

    /// Deadline of chunk `chunk` of segment `seg` on the current timeline.
    fn deadline_for(&self, seg: SegmentSeq, chunk: u8, now: Instant) -> (r: Instant)
        requires self.wf(),
        ensures r.0 == self.deadline_at(seg.0, chunk, now.0),
    {
        match self.anchor {
            None => now.plus(self.delta_buffer),
            Some((s0, c0, t0)) => {
                let idx: i64 = (seg.0 as i64 - s0.0 as i64) * 4 + (chunk as i64 - c0 as i64);
                let base = t0.plus(self.delta_buffer);
                let p: u64 = self.chunk_period.0;
                if idx >= 0 {
                    let k: u64 = idx as u64;
                    assert(p * k < 0x1_0000_0000_0000_0000) by (nonlinear_arith)
                        requires p < 0x2000_0000, k < 0x8_0000_0000;
                    base.plus(Duration(p * k))
                } else {
                    let k: u64 = (-idx) as u64;
                    assert(p * k < 0x1_0000_0000_0000_0000) by (nonlinear_arith)
                        requires p < 0x2000_0000, k < 0x8_0000_0000;
                    Instant(base.0.saturating_sub(p * k))
                }
            },
        }
    }

    /// Position of segment `s` among the buffered segments, or where it
    /// would be inserted, and whether it is there.
    fn locate(&self, s: u32) -> (r: (usize, bool))
        requires self.wf(),
        ensures
            r.0 <= self.segments@.len(),
            forall|k: int| 0 <= k < r.0 ==> self.segments@[k].seq < s,
            forall|k: int| r.0 <= k < self.segments@.len() ==> self.segments@[k].seq >= s,
            r.1 == (r.0 < self.segments@.len() && self.segments@[r.0 as int].seq == s),
            r.1 ==> find_key(seg_keys(self.segments@), s, 0) == r.0,
            !r.1 ==> find_key(seg_keys(self.segments@), s, 0) == -1,
    {
        let ghost keys = seg_keys(self.segments@);
        let mut i: usize = 0;
        while i < self.segments.len() && self.segments[i].seq < s
            invariant
                i <= self.segments@.len(),
                keys == seg_keys(self.segments@),
                strictly_sorted(keys),
                forall|k: int| 0 <= k < i ==> self.segments@[k].seq < s,
            decreases self.segments@.len() - i,
        {
            i = i + 1;
        }
        let found = i < self.segments.len() && self.segments[i].seq == s;
        proof {
            assert forall|k: int| i <= k < self.segments@.len() implies self.segments@[k].seq >= s by {
                assert(keys[k] == self.segments@[k].seq);
                if k > i {
                    assert(keys[i as int] < keys[k]);
                }
            }
            lemma_find_sorted(keys, s);
            if found {
                assert(keys[i as int] == s);
            } else {
                assert forall|k: int| 0 <= k < keys.len() implies keys[k] != s by {
                    assert(keys[k] == self.segments@[k].seq);
                    if k == i {
                    } else if k > i {
                        assert(keys[i as int] < keys[k]);
                    }
                }
            }
        }
        (i, found)
    }

    /// Whether a manifest for `(seg, chunk)` is held.
    pub fn has_manifest(&self, seg: SegmentSeq, chunk: u8) -> (r: bool)
        requires self.wf(),
        ensures r == self.held(seg.0, chunk as int),
    {
        self.chunk(seg, chunk).is_some()
    }

    /// Chunk buffer.
    pub fn chunk(&self, seg: SegmentSeq, chunk: u8) -> (r: Option<&ChunkBuf>)
        requires self.wf(),
        ensures
            match r {
                Some(cb) => self.chunk_view(seg.0, chunk as int) == Some(*cb),
                None => self.chunk_view(seg.0, chunk as int) is None,
            },
    {
        let (i, found) = self.locate(seg.0);
        if !found || chunk >= CHUNKS_PER_SEGMENT {
            return None;
        }
        assert(segment_wf(self.segments@[i as int]));
        match &self.segments[i].chunks[chunk as usize] {
            Some(cb) => Some(cb),
            None => None,
        }
    }

    /// Highest segment for which a manifest was accepted.
    pub fn live_edge(&self) -> (r: SegmentSeq)
        ensures r == self.live_edge_spec(),
    {
        self.live_edge
    }

    /// Whether playout has anchored (first manifest seen).
    pub fn anchored(&self) -> (r: bool)
        ensures r == self.anchor_spec() is Some,
    {
        self.anchor.is_some()
    }

    /// Segments currently buffered.
    pub fn buffered_segments(&self) -> (r: usize)
        ensures r == self.segment_keys().len(),
    {
        self.segments.len()
    }

    /// Orphan blocks waiting for a manifest.
    pub fn orphan_count(&self) -> (r: usize)
        ensures r == self.orphan_keys_spec().len(),
    {
        self.orphans.len()
    }
}

/// The slot after a proof arrives: the first proof is kept.
pub open spec fn with_proof(b: BlockSlot, p: (Vec<Digest>, u8, NodeId)) -> BlockSlot {
    match b {
        BlockSlot::Pending { collector, proof, failures } => BlockSlot::Pending {
            collector,
            proof: if proof is None { Some(p) } else { proof },
            failures,
        },
        _ => b,
    }
}

/// Whether slot `b` is pending with enough symbols to attempt a decode.
pub open spec fn slot_complete(b: BlockSlot) -> bool {
    b matches BlockSlot::Pending { collector, .. } && collector.count_spec() >= K_BLOCK
}

/// The buffer-level fields other than the chunks and orphans are unchanged.
pub open spec fn same_meta(a: &SwarmBuffer, b: &SwarmBuffer) -> bool {
    &&& b.live_edge_spec() == a.live_edge_spec()
    &&& b.anchor_spec() == a.anchor_spec()
    &&& b.played_through_spec() == a.played_through_spec()
    &&& b.any_played_spec() == a.any_played_spec()
    &&& b.timing_spec() == a.timing_spec()
}

/// `b` holds the same chunks as `a` except possibly chunk `c` of segment `s`.
pub open spec fn same_chunks_except(a: &SwarmBuffer, b: &SwarmBuffer, s: u32, c: int) -> bool {
    &&& b.segment_keys() == a.segment_keys()
    &&& forall|s2: u32, c2: int| !(s2 == s && c2 == c) ==> #[trigger] b.chunk_view(s2, c2) == a.chunk_view(s2, c2)
}

/// `b` holds exactly the chunks of `a`.
pub open spec fn same_chunks(a: &SwarmBuffer, b: &SwarmBuffer) -> bool {
    &&& b.segment_keys() == a.segment_keys()
    &&& forall|s2: u32, c2: int| #[trigger] b.chunk_view(s2, c2) == a.chunk_view(s2, c2)
}

/// Orphan keys after touching `key`: appended when new.
pub open spec fn orphan_keys_touched(a: Seq<(u32, u16)>, key: (u32, u16)) -> Seq<(u32, u16)> {
    if a.contains(key) { a } else { a.push(key) }
}

impl ChunkBuf {
    fn take_slot(&mut self, j: usize) -> (r: BlockSlot)
        requires j < old(self).blocks@.len(),
        ensures
            r == old(self).blocks@[j as int],
            final(self).blocks@ == old(self).blocks@.update(j as int, final(self).blocks@[j as int]),
            final(self).blocks@[j as int] is Verified,
            final(self).manifest == old(self).manifest,
            final(self).verified == old(self).verified,
            final(self).tree_of == old(self).tree_of,
            final(self).layer_of == old(self).layer_of,
            final(self).deadline == old(self).deadline,
            final(self).played == old(self).played,
            final(self).accepted_at == old(self).accepted_at,
            final(self).signature == old(self).signature,
    {
        let mut slot = BlockSlot::Verified(Vec::new());
        std::mem::swap(&mut slot, &mut self.blocks[j]);
        slot
    }
}

impl SwarmBuffer {
    /// Take chunk slot `c` of segment position `i` out, leaving it empty.
    fn take_chunk(&mut self, i: usize, c: usize) -> (r: Option<ChunkBuf>)
        requires old(self).wf(), i < old(self).segments@.len(), c < CHUNKS_PER_SEGMENT,
        ensures
            final(self).wf(),
            r == old(self).segments@[i as int].chunks@[c as int],
            segs_put(old(self).segments@, final(self).segments@, i as int, c as int, None),
            final(self).orphans == old(self).orphans,
            same_meta(old(self), final(self)),
    {
        assert(segment_wf(self.segments@[i as int]));
        let mut x: Option<ChunkBuf> = None;
        std::mem::swap(&mut x, &mut self.segments[i].chunks[c]);
        proof {
            assert(seg_keys(self.segments@) =~= seg_keys(old(self).segments@));
            assert forall|k: int| 0 <= k < self.segments@.len() implies segment_wf(#[trigger] self.segments@[k]) by {
                if k != i {
                    assert(self.segments@[k] == old(self).segments@[k]);
                    assert(segment_wf(old(self).segments@[k]));
                } else {
                    assert forall|c2: int| 0 <= c2 < CHUNKS_PER_SEGMENT implies (#[trigger] self.segments@[k].chunks@[c2] matches Some(cb) ==> chunk_wf(cb, self.segments@[k].seq, c2)) by {
                        if c2 != c {
                            assert(self.segments@[k].chunks@[c2] == old(self).segments@[k].chunks@[c2]);
                        }
                    }
                }
            }
        }
        x
    }

    /// Put `v` into chunk slot `c` of segment position `i`.
    fn put_chunk(&mut self, i: usize, c: usize, v: Option<ChunkBuf>)
        requires
            old(self).wf(),
            i < old(self).segments@.len(),
            c < CHUNKS_PER_SEGMENT,
            v matches Some(cb) ==> chunk_wf(cb, old(self).segments@[i as int].seq, c as int),
        ensures
            final(self).wf(),
            segs_put(old(self).segments@, final(self).segments@, i as int, c as int, v),
            final(self).orphans == old(self).orphans,
            same_meta(old(self), final(self)),
    {
        assert(segment_wf(self.segments@[i as int]));
        self.segments[i].chunks.set(c, v);
        proof {
            assert(seg_keys(self.segments@) =~= seg_keys(old(self).segments@));
            assert forall|k: int| 0 <= k < self.segments@.len() implies segment_wf(#[trigger] self.segments@[k]) by {
                if k != i {
                    assert(self.segments@[k] == old(self).segments@[k]);
                    assert(segment_wf(old(self).segments@[k]));
                } else {
                    assert forall|c2: int| 0 <= c2 < CHUNKS_PER_SEGMENT implies (#[trigger] self.segments@[k].chunks@[c2] matches Some(cb) ==> chunk_wf(cb, self.segments@[k].seq, c2)) by {
                        if c2 != c {
                            assert(self.segments@[k].chunks@[c2] == old(self).segments@[k].chunks@[c2]);
                        }
                    }
                }
            }
        }
    }

    /// The orphan entry for `(seg, index)`, created empty when new, with its
    /// first-seen time set.
    fn orphan_slot(&mut self, seg: u32, index: u16, now: Instant) -> (r: usize)
        requires old(self).wf(),
        ensures
            final(self).wf(),
            r < final(self).orphans@.len(),
            final(self).orphans@[r as int].seg == seg,
            final(self).orphans@[r as int].index == index,
            orphan_keys(final(self).orphans@) == orphan_keys_touched(orphan_keys(old(self).orphans@), (seg, index)),
            final(self).segments == old(self).segments,
            same_meta(old(self), final(self)),
    {
        let ghost keys = orphan_keys(self.orphans@);
        let mut k: usize = 0;
        while k < self.orphans.len() && !(self.orphans[k].seg == seg && self.orphans[k].index == index)
            invariant
                k <= self.orphans@.len(),
                self.orphans@ == old(self).orphans@,
                keys == orphan_keys(self.orphans@),
                forall|q: int| 0 <= q < k ==> keys[q] != (seg, index),
            decreases self.orphans@.len() - k,
        {
            assert(keys[k as int] == (self.orphans@[k as int].seg, self.orphans@[k as int].index));
            k = k + 1;
        }
        if k == self.orphans.len() {
            proof {
                assert(!keys.contains((seg, index)));
            }
            self.orphans.push(OrphanBlock { seg, index, symbols: Vec::new(), proof: None, since: None });
            proof {
                assert(orphan_keys(self.orphans@) =~= keys.push((seg, index)));
                assert(orphan_keys(self.orphans@).no_duplicates());
            }
        } else {
            proof {
                assert(keys[k as int] == (seg, index));
                assert(keys.contains((seg, index)));
            }
        }
        let ghost mid = self.orphans@;
        if self.orphans[k].since.is_none() {
            self.orphans[k].since = Some(now);
        }
        proof {
            assert(orphan_keys(self.orphans@) =~= orphan_keys(mid));
            assert forall|q: int| 0 <= q < self.orphans@.len() implies (#[trigger] self.orphans@[q]).symbols@.len() <= 64 by {
                assert(self.orphans@[q].symbols == mid[q].symbols);
            }
        }
        k
    }

    /// Record a block proof. Returns `true` if the block now has enough
    /// symbols to verify. A proof for a chunk whose manifest is not held is
    /// kept as an orphan when it is above the playout floor.
    pub fn add_proof(
        &mut self,
        seg: SegmentSeq,
        idx: BlockIndex,
        siblings: Vec<Digest>,
        sender_depth: u8,
        from: NodeId,
        now: Instant,
    ) -> (r: bool)
        requires old(self).wf(),
        ensures
            final(self).wf(),
            same_meta(old(self), final(self)),
            match old(self).chunk_view(seg.0, (idx.0 / 4096) as int) {
                None => {
                    &&& !r
                    &&& same_chunks(old(self), final(self))
                    &&& seg.0 > old(self).played_through_spec().0 ==> final(self).orphan_keys_spec()
                        == orphan_keys_touched(old(self).orphan_keys_spec(), (seg.0, idx.0))
                    &&& seg.0 <= old(self).played_through_spec().0 ==> final(self).orphan_keys_spec() == old(self).orphan_keys_spec()
                },
                Some(cb) => {
                    let j = (idx.0 % 4096) as int;
                    &&& final(self).orphan_keys_spec() == old(self).orphan_keys_spec()
                    &&& same_chunks_except(old(self), final(self), seg.0, (idx.0 / 4096) as int)
                    &&& final(self).chunk_view(seg.0, (idx.0 / 4096) as int) matches Some(nb)
                    &&& if j < cb.blocks@.len() && cb.blocks@[j] is Pending {
                        &&& r == slot_complete(cb.blocks@[j])
                        &&& chunk_slot_updated(cb, nb, j, with_proof(cb.blocks@[j], (siblings, sender_depth, from)))
                    } else {
                        !r && chunk_same(cb, nb)
                    }
                },
            },
    {
        let ghost pf = (siblings, sender_depth, from);
        let c = idx.chunk();
        let j = idx.j() as usize;
        let (i, found) = self.locate(seg.0);
        let present = found && c < CHUNKS_PER_SEGMENT && self.segments[i].chunks[c as usize].is_some();
        if !present {
            assert(self.chunk_view(seg.0, c as int) is None);
            if seg.0 > self.played_through.0 {
                let k = self.orphan_slot(seg.0, idx.0, now);
                let ghost mid = self.orphans@;
                self.orphans[k].proof = Some((siblings, sender_depth, from));
                proof {
                    assert(orphan_keys(self.orphans@) =~= orphan_keys(mid));
                    assert forall|q: int| 0 <= q < self.orphans@.len() implies (#[trigger] self.orphans@[q]).symbols@.len() <= 64 by {
                        assert(self.orphans@[q].symbols == mid[q].symbols);
                    }
                }
            }
            return false;
        }
        let ghost old_self = *self;
        let mut cb = self.take_chunk(i, c as usize).unwrap();
        let ghost cb0 = cb;
        let ghost mid_segs = self.segments@;
        assert(chunk_wf(cb0, old_self.segments@[i as int].seq, c as int)) by {
            assert(segment_wf(old_self.segments@[i as int]));
        }
        let ghost mut mid: Seq<BlockSlot> = cb.blocks@;
        let r = if j < cb.blocks.len() {
            let slot = cb.take_slot(j);
            proof { mid = cb.blocks@; }
            match slot {
                BlockSlot::Pending { collector, proof: held, failures } => {
                    assert(collector.wf());
                    let done = collector.is_complete();
                    let np = match held {
                        None => Some((siblings, sender_depth, from)),
                        Some(p) => Some(p),
                    };
                    cb.blocks.set(j, BlockSlot::Pending { collector, proof: np, failures });
                    done
                },
                other => {
                    cb.blocks.set(j, other);
                    false
                },
            }
        } else {
            false
        };
        proof {
            if j < cb0.blocks@.len() {
                let x = mid[j as int];
                lemma_verified_update(cb0.blocks@, j as int, x);
                lemma_verified_update(cb0.blocks@.update(j as int, x), j as int, cb.blocks@[j as int]);
                assert(mid =~= cb0.blocks@.update(j as int, x));
                assert(cb0.blocks@.update(j as int, x).update(j as int, cb.blocks@[j as int]) =~= cb.blocks@);
                if !(cb0.blocks@[j as int] is Pending) {
                    assert(cb.blocks@ =~= cb0.blocks@);
                } else {
                    assert(cb.blocks@[j as int] == with_proof(cb0.blocks@[j as int], pf));
                    assert(cb.blocks@ =~= cb0.blocks@.update(j as int, with_proof(cb0.blocks@[j as int], pf)));
                }
                assert forall|q: int| 0 <= q < cb.blocks@.len() implies (#[trigger] cb.blocks@[q] matches BlockSlot::Pending { collector, .. } ==> collector.wf()) by {
                    if q != j {
                        assert(cb.blocks@[q] == cb0.blocks@[q]);
                    }
                }
            }
        }
        self.put_chunk(i, c as usize, Some(cb));
        proof {
            assert(self.segments@[i as int].chunks@ =~= old_self.segments@[i as int].chunks@.update(c as int, Some(cb)));
            assert forall|k: int| 0 <= k < old_self.segments@.len() && k != i implies self.segments@[k] == old_self.segments@[k] by {
                assert(mid_segs[k] == old_self.segments@[k]);
            }
            assert(segs_put(old_self.segments@, self.segments@, i as int, c as int, Some(cb)));
            lemma_segs_put(old_self.segments@, self.segments@, i as int, c as int, Some(cb));
            assert(seg_keys(old_self.segments@)[i as int] == seg.0);
            assert(old_self.chunk_view(seg.0, c as int) == Some(cb0));
            assert(self.chunk_view(seg.0, c as int) == Some(cb));
            assert(c as int == (idx.0 / 4096) as int);
        }
        r
    }
}

/// `b` is collector `a` after `esi` with `payload` was offered to it: a
/// payload of the wrong size or a symbol already held changes nothing.
pub open spec fn collector_after(a: SymbolCollector, b: SymbolCollector, esi: u16, payload: Seq<u8>) -> bool {
    if payload.len() != SYMBOL_SIZE || a.holds(esi) {
        b.source_view() == a.source_view() && b.repair_view() == a.repair_view()
    } else if (esi as int) < K_BLOCK {
        b.source_view() == a.source_view().update(esi as int, Some(payload)) && b.repair_view() == a.repair_view()
    } else {
        b.source_view() == a.source_view() && b.repair_view() == a.repair_view().push((esi, payload))
    }
}

impl SwarmBuffer {
    /// Record a symbol. Returns `true` if the block is now ready to verify
    /// (enough symbols and a proof). A symbol for a chunk whose manifest is
    /// not held is kept as an orphan (at most 64 per block) when it is above
    /// the playout floor.
    pub fn add_symbol(&mut self, seg: SegmentSeq, idx: BlockIndex, esi: u16, payload: Vec<u8>, now: Instant) -> (r: bool)
        requires old(self).wf(),
        ensures
            final(self).wf(),
            same_meta(old(self), final(self)),
            match old(self).chunk_view(seg.0, (idx.0 / 4096) as int) {
                None => {
                    &&& !r
                    &&& same_chunks(old(self), final(self))
                    &&& seg.0 > old(self).played_through_spec().0 ==> final(self).orphan_keys_spec()
                        == orphan_keys_touched(old(self).orphan_keys_spec(), (seg.0, idx.0))
                    &&& seg.0 <= old(self).played_through_spec().0 ==> final(self).orphan_keys_spec() == old(self).orphan_keys_spec()
                },
                Some(cb) => {
                    let j = (idx.0 % 4096) as int;
                    &&& final(self).orphan_keys_spec() == old(self).orphan_keys_spec()
                    &&& same_chunks_except(old(self), final(self), seg.0, (idx.0 / 4096) as int)
                    &&& final(self).chunk_view(seg.0, (idx.0 / 4096) as int) matches Some(nb)
                    &&& if j < cb.blocks@.len() && cb.blocks@[j] is Pending {
                        &&& chunk_slot_updated(cb, nb, j, nb.blocks@[j])
                        &&& cb.blocks@[j] matches BlockSlot::Pending { collector: c1, proof: p1, failures: f1 }
                        &&& nb.blocks@[j] matches BlockSlot::Pending { collector: c2, proof: p2, failures: f2 }
                        &&& collector_after(c1, c2, esi, payload@)
                        &&& p2 == p1
                        &&& f2 == f1
                        &&& r == (c2.count_spec() >= K_BLOCK && p2 is Some)
                    } else {
                        !r && chunk_same(cb, nb)
                    }
                },
            },
    {
        let c = idx.chunk();
        let j = idx.j() as usize;
        let (i, found) = self.locate(seg.0);
        let present = found && c < CHUNKS_PER_SEGMENT && self.segments[i].chunks[c as usize].is_some();
        if !present {
            assert(self.chunk_view(seg.0, c as int) is None);
            if seg.0 > self.played_through.0 {
                let k = self.orphan_slot(seg.0, idx.0, now);
                let ghost mid = self.orphans@;
                if self.orphans[k].symbols.len() < 64 {
                    self.orphans[k].symbols.push((esi, payload));
                }
                proof {
                    assert(orphan_keys(self.orphans@) =~= orphan_keys(mid));
                    assert forall|q: int| 0 <= q < self.orphans@.len() implies (#[trigger] self.orphans@[q]).symbols@.len() <= 64 by {
                        if q != k {
                            assert(self.orphans@[q].symbols == mid[q].symbols);
                        }
                    }
                }
            }
            return false;
        }
        let ghost old_self = *self;
        let mut cb = self.take_chunk(i, c as usize).unwrap();
        let ghost cb0 = cb;
        let ghost mid_segs = self.segments@;
        assert(chunk_wf(cb0, old_self.segments@[i as int].seq, c as int)) by {
            assert(segment_wf(old_self.segments@[i as int]));
        }
        let ghost mut mid: Seq<BlockSlot> = cb.blocks@;
        let r = if j < cb.blocks.len() {
            let slot = cb.take_slot(j);
            proof { mid = cb.blocks@; }
            match slot {
                BlockSlot::Pending { mut collector, proof: held, failures } => {
                    assert(collector.wf());
                    let _ = collector.add(esi, payload);
                    let ready = collector.is_complete() && held.is_some();
                    cb.blocks.set(j, BlockSlot::Pending { collector, proof: held, failures });
                    ready
                },
                other => {
                    cb.blocks.set(j, other);
                    false
                },
            }
        } else {
            false
        };
        proof {
            if j < cb0.blocks@.len() {
                let x = mid[j as int];
                lemma_verified_update(cb0.blocks@, j as int, x);
                lemma_verified_update(cb0.blocks@.update(j as int, x), j as int, cb.blocks@[j as int]);
                assert(mid =~= cb0.blocks@.update(j as int, x));
                assert(cb0.blocks@.update(j as int, x).update(j as int, cb.blocks@[j as int]) =~= cb.blocks@);
                if !(cb0.blocks@[j as int] is Pending) {
                    assert(cb.blocks@ =~= cb0.blocks@);
                }
                assert(cb.blocks@ =~= cb0.blocks@.update(j as int, cb.blocks@[j as int]));
                assert forall|q: int| 0 <= q < cb.blocks@.len() implies (#[trigger] cb.blocks@[q] matches BlockSlot::Pending { collector, .. } ==> collector.wf()) by {
                    if q != j {
                        assert(cb.blocks@[q] == cb0.blocks@[q]);
                    }
                }
            }
        }
        self.put_chunk(i, c as usize, Some(cb));
        proof {
            assert(self.segments@[i as int].chunks@ =~= old_self.segments@[i as int].chunks@.update(c as int, Some(cb)));
            assert forall|k: int| 0 <= k < old_self.segments@.len() && k != i implies self.segments@[k] == old_self.segments@[k] by {
                assert(mid_segs[k] == old_self.segments@[k]);
            }
            assert(segs_put(old_self.segments@, self.segments@, i as int, c as int, Some(cb)));
            lemma_segs_put(old_self.segments@, self.segments@, i as int, c as int, Some(cb));
            assert(seg_keys(old_self.segments@)[i as int] == seg.0);
            assert(old_self.chunk_view(seg.0, c as int) == Some(cb0));
            assert(self.chunk_view(seg.0, c as int) == Some(cb));
        }
        r
    }
}

/// What reconstructing a block from `c` gives: the source symbols
/// concatenated when all are present, the decoder's outcome when at least K
/// symbols are held, `Undecodable` otherwise.
pub open spec fn decode_spec(c: SymbolCollector) -> Result<Seq<u8>, MediaError> {
    if some_count(c.source_view()) == K_BLOCK {
        Ok(concat_source(c.source_view()))
    } else if c.count_spec() < K_BLOCK {
        Err(MediaError::Undecodable)
    } else {
        decode_outcome(raptorq_decoded(c.packets_spec()))
    }
}

/// `n` is a failure count one higher, saturating.
pub open spec fn failures_after(f: u8) -> u8 {
    if f == u8::MAX { f } else { (f + 1) as u8 }
}

/// The outcome of verifying block `j` of chunk `cb` under index `idx` of
/// segment `seg`, and the chunk left behind, `nb`.
pub open spec fn try_verify_outcome(
    cb: ChunkBuf,
    nb: ChunkBuf,
    seg: SegmentSeq,
    idx: BlockIndex,
    r: Result<Option<VerifiedBlock>, (MediaError, Option<NodeId>)>,
) -> bool {
    let j = (idx.0 % 4096) as int;
    if j >= cb.tree_of@.len() {
        r == Err::<Option<VerifiedBlock>, (MediaError, Option<NodeId>)>((MediaError::Undecodable, None)) && chunk_same(cb, nb)
    } else {
        match cb.blocks@[j] {
            BlockSlot::Verified(_) => r == Ok::<Option<VerifiedBlock>, (MediaError, Option<NodeId>)>(None) && chunk_same(cb, nb),
            BlockSlot::Pending { collector, proof, failures } => {
                if proof is None || collector.count_spec() < K_BLOCK {
                    r == Ok::<Option<VerifiedBlock>, (MediaError, Option<NodeId>)>(None) && chunk_same(cb, nb)
                } else {
                    let (sib, depth, from) = proof->Some_0;
                    match decode_spec(collector) {
                        Err(e) => r == Err::<Option<VerifiedBlock>, (MediaError, Option<NodeId>)>((e, Some(from))) && chunk_same(cb, nb),
                        Ok(bytes) => {
                            &&& chunk_slot_updated(cb, nb, j, nb.blocks@[j])
                            &&& if block_verifies(cb.manifest, idx, bytes, digests(sib@)) {
                                &&& slot_bytes(nb.blocks@[j]) == Some(bytes)
                                &&& r matches Ok(Some(vb))
                                &&& vb.segment == seg
                                &&& vb.index == idx
                                &&& vb.tree == cb.tree_of@[j]
                                &&& vb.layer == cb.layer_of@[j]
                                &&& vb.bytes@ == bytes
                                &&& vb.siblings@ == sib@
                                &&& vb.sender_depth == depth
                                &&& vb.decoded == (some_count(collector.source_view()) != K_BLOCK)
                            } else {
                                &&& r == Err::<Option<VerifiedBlock>, (MediaError, Option<NodeId>)>(
                                    (MediaError::BadBlock { segment: cb.manifest.segment.0, block: idx.0 }, Some(from)))
                                &&& nb.blocks@[j] matches BlockSlot::Pending { collector: c2, proof: p2, failures: f2 }
                                &&& p2 is None
                                &&& f2 == failures_after(failures)
                                &&& c2.source_view() == Seq::new(K_BLOCK as nat, |i: int| None::<Seq<u8>>)
                                &&& c2.repair_view() == Seq::<(u16, Seq<u8>)>::empty()
                            }
                        },
                    }
                }
            },
        }
    }
}

impl SwarmBuffer {
    /// Whether block `idx` of segment `seg` is already verified.
    pub fn is_verified(&self, seg: SegmentSeq, idx: BlockIndex) -> (r: bool)
        requires self.wf(),
        ensures
            r == (self.chunk_view(seg.0, (idx.0 / 4096) as int) matches Some(cb)
                && (idx.0 % 4096) < cb.blocks@.len() && cb.blocks@[(idx.0 % 4096) as int] is Verified),
    {
        match self.chunk(seg, idx.chunk()) {
            Some(c) => c.block(idx.j()).is_some(),
            None => false,
        }
    }

    /// Attempt to reconstruct and verify a block. On success the slot becomes
    /// `Verified` and the block is returned for forwarding; a block is only
    /// ever handed out after its bytes hashed up to the signed manifest root.
    /// A reconstruction that fails the Merkle check drops the symbols and the
    /// proof, counts the failure and names the sender.
    pub fn try_verify(&mut self, seg: SegmentSeq, idx: BlockIndex) -> (r: Result<Option<VerifiedBlock>, (MediaError, Option<NodeId>)>)
        requires old(self).wf(),
        ensures
            final(self).wf(),
            same_meta(old(self), final(self)),
            final(self).orphan_keys_spec() == old(self).orphan_keys_spec(),
            match old(self).chunk_view(seg.0, (idx.0 / 4096) as int) {
                None => r == Ok::<Option<VerifiedBlock>, (MediaError, Option<NodeId>)>(None) && same_chunks(old(self), final(self)),
                Some(cb) => {
                    &&& same_chunks_except(old(self), final(self), seg.0, (idx.0 / 4096) as int)
                    &&& final(self).chunk_view(seg.0, (idx.0 / 4096) as int) matches Some(nb)
                    &&& try_verify_outcome(cb, nb, seg, idx, r)
                },
            },
    {
        let c = idx.chunk();
        let j = idx.j() as usize;
        let (i, found) = self.locate(seg.0);
        let present = found && c < CHUNKS_PER_SEGMENT && self.segments[i].chunks[c as usize].is_some();
        if !present {
            assert(self.chunk_view(seg.0, c as int) is None);
            assert(self.segments@ =~= old(self).segments@);
            return Ok(None);
        }
        let ghost old_self = *self;
        let mut cb = self.take_chunk(i, c as usize).unwrap();
        let ghost cb0 = cb;
        let ghost mid_segs = self.segments@;
        assert(chunk_wf(cb0, old_self.segments@[i as int].seq, c as int)) by {
            assert(segment_wf(old_self.segments@[i as int]));
        }
        let ghost mut mid: Seq<BlockSlot> = cb.blocks@;
        let r: Result<Option<VerifiedBlock>, (MediaError, Option<NodeId>)> = if j >= cb.tree_of.len() {
            Err((MediaError::Undecodable, None))
        } else {
            let tree = cb.tree_of[j];
            let layer = cb.layer_of[j];
            let slot = cb.take_slot(j);
            proof { mid = cb.blocks@; }
            match slot {
                BlockSlot::Pending { collector, proof: held, failures } => {
                    assert(collector.wf());
                    if held.is_none() || !collector.is_complete() {
                        cb.blocks.set(j, BlockSlot::Pending { collector, proof: held, failures });
                        Ok(None)
                    } else {
                        let (siblings, sender_depth, from) = held.unwrap();
                        let decoded = !collector.all_source();
                        match collector.decode() {
                            Err(e) => {
                                cb.blocks.set(j, BlockSlot::Pending { collector, proof: Some((siblings, sender_depth, from)), failures });
                                Err((e, Some(from)))
                            },
                            Ok(bytes) => {
                                match verify_block(&cb.manifest, idx, bytes.as_slice(), siblings.as_slice()) {
                                    Err(e) => {
                                        let f: u8 = if failures == u8::MAX { failures } else { failures + 1 };
                                        cb.blocks.set(j, BlockSlot::Pending { collector: SymbolCollector::new(), proof: None, failures: f });
                                        Err((e, Some(from)))
                                    },
                                    Ok(()) => {
                                        let kept = bytes.clone();
                                        assert(kept@ =~= bytes@);
                                        cb.blocks.set(j, BlockSlot::Verified(kept));
                                        proof {
                                            lemma_verified_update(cb0.blocks@, j as int, mid[j as int]);
                                            assert(mid =~= cb0.blocks@.update(j as int, mid[j as int]));
                                            lemma_verified_le(mid);
                                        }
                                        cb.verified = cb.verified + 1;
                                        Ok(Some(VerifiedBlock {
                                            segment: seg,
                                            index: idx,
                                            tree,
                                            layer,
                                            bytes,
                                            siblings,
                                            sender_depth,
                                            decoded,
                                        }))
                                    },
                                }
                            },
                        }
                    }
                },
                other => {
                    cb.blocks.set(j, other);
                    Ok(None)
                },
            }
        };
        proof {
            if j < cb0.blocks@.len() {
                let x = mid[j as int];
                lemma_verified_update(cb0.blocks@, j as int, x);
                lemma_verified_update(cb0.blocks@.update(j as int, x), j as int, cb.blocks@[j as int]);
                assert(mid =~= cb0.blocks@.update(j as int, x));
                assert(cb0.blocks@.update(j as int, x).update(j as int, cb.blocks@[j as int]) =~= cb.blocks@);
                assert(cb.blocks@ =~= cb0.blocks@.update(j as int, cb.blocks@[j as int]));
                assert forall|q: int| 0 <= q < cb.blocks@.len() implies (#[trigger] cb.blocks@[q] matches BlockSlot::Pending { collector, .. } ==> collector.wf()) by {
                    if q != j {
                        assert(cb.blocks@[q] == cb0.blocks@[q]);
                    }
                }
                if cb.blocks@[j as int] == cb0.blocks@[j as int] {
                    assert(cb.blocks@ =~= cb0.blocks@);
                }
            }
        }
        self.put_chunk(i, c as usize, Some(cb));
        proof {
            assert(self.segments@[i as int].chunks@ =~= old_self.segments@[i as int].chunks@.update(c as int, Some(cb)));
            assert forall|k: int| 0 <= k < old_self.segments@.len() && k != i implies self.segments@[k] == old_self.segments@[k] by {
                assert(mid_segs[k] == old_self.segments@[k]);
            }
            assert(segs_put(old_self.segments@, self.segments@, i as int, c as int, Some(cb)));
            lemma_segs_put(old_self.segments@, self.segments@, i as int, c as int, Some(cb));
            assert(seg_keys(old_self.segments@)[i as int] == seg.0);
            assert(old_self.chunk_view(seg.0, c as int) == Some(cb0));
            assert(self.chunk_view(seg.0, c as int) == Some(cb));
        }
        r
    }
}

/// The tree a block travels on, the base tree when the matrix names none.
pub open spec fn tree_or_base(t: Option<TreeId>) -> TreeId {
    match t {
        Some(x) => x,
        None => TreeId(1),
    }
}

/// The layer a block belongs to, layer 0 when the manifest places it nowhere.
pub open spec fn layer_or_zero(l: Option<(u8, u16)>) -> u8 {
    match l {
        Some((a, _)) => a,
        None => 0,
    }
}

/// A fresh chunk buffer for `body`: trees and layers looked up per block,
/// every slot pending and empty, or every slot holding the built block.
pub open spec fn fresh_chunk(
    cb: ChunkBuf,
    body: ManifestBody,
    signature: SignatureBytes,
    trees: Seq<crate::media::mapping::TreeInfo>,
    deadline: Instant,
    now: Instant,
    built: Option<Seq<Seq<u8>>>,
) -> bool {
    let n = manifest_blocks(body);
    &&& cb.manifest == body
    &&& cb.signature == signature
    &&& cb.deadline == deadline
    &&& !cb.played
    &&& cb.accepted_at == now
    &&& cb.blocks@.len() == n
    &&& forall|j: int| 0 <= j < n ==> #[trigger] cb.tree_of@[j] == tree_or_base(block_tree(trees, body.layer_block_counts@, j as u16))
    &&& forall|j: int| 0 <= j < n ==> #[trigger] cb.layer_of@[j] == layer_or_zero(crate::media::manifest::layer_of_from(body.layer_block_counts@, 0, j))
    &&& match built {
        Some(bb) => forall|j: int| 0 <= j < n ==> slot_bytes(#[trigger] cb.blocks@[j]) == Some(bb[j]),
        None => forall|j: int| 0 <= j < n ==> (#[trigger] cb.blocks@[j] matches BlockSlot::Pending { collector, proof, failures }
            && proof is None && failures == 0 && collector.source_view() == Seq::new(K_BLOCK as nat, |i: int| None::<Seq<u8>>)
            && collector.repair_view() == Seq::<(u16, Seq<u8>)>::empty()),
    }
}

/// The block contents of a built chunk.
pub open spec fn built_blocks(b: BuiltChunk) -> Seq<Seq<u8>> {
    b.blocks@.map_values(|v: Vec<u8>| v@)
}

proof fn lemma_verified_all(s: Seq<BlockSlot>)
    requires forall|j: int| 0 <= j < s.len() ==> #[trigger] s[j] is Verified,
    ensures verified_count(s) == s.len(),
    decreases s.len(),
{
    if s.len() > 0 {
        lemma_verified_all(s.drop_last());
    }
}

proof fn lemma_verified_none(s: Seq<BlockSlot>)
    requires forall|j: int| 0 <= j < s.len() ==> #[trigger] s[j] is Pending,
    ensures verified_count(s) == 0,
    decreases s.len(),
{
    if s.len() > 0 {
        lemma_verified_none(s.drop_last());
    }
}

/// Build the buffer for a newly admitted manifest.
fn build_chunk(
    body: ManifestBody,
    signature: SignatureBytes,
    matrix: &SlicingMatrix,
    deadline: Instant,
    now: Instant,
    built: Option<&BuiltChunk>,
) -> (r: ChunkBuf)
    requires
        body.layer_block_counts@.len() <= 255,
        manifest_blocks(body) <= 65535,
        built matches Some(b) ==> b.blocks@.len() == manifest_blocks(body),
    ensures
        chunk_wf(r, body.segment.0, body.chunk_index as int),
        fresh_chunk(r, body, signature, matrix.trees@, deadline, now,
            match built { Some(b) => Some(built_blocks(*b)), None => None }),
        r.verified == match built { Some(_) => manifest_blocks(body), None => 0 },
{
    let n = body.block_count();
    let mut tree_of: Vec<TreeId> = Vec::with_capacity(n);
    let mut layer_of: Vec<u8> = Vec::with_capacity(n);
    let mut j: usize = 0;
    while j < n
        invariant
            n == manifest_blocks(body),
            n <= 65535,
            j <= n,
            tree_of@.len() == j,
            layer_of@.len() == j,
            forall|k: int| 0 <= k < j ==> #[trigger] tree_of@[k] == tree_or_base(block_tree(matrix.trees@, body.layer_block_counts@, k as u16)),
            forall|k: int| 0 <= k < j ==> #[trigger] layer_of@[k] == layer_or_zero(crate::media::manifest::layer_of_from(body.layer_block_counts@, 0, k)),
        decreases n - j,
    {
        let jj = j as u16;
        let layer = match body.layer_of(jj) {
            Some((l, _)) => l,
            None => 0,
        };
        layer_of.push(layer);
        let t = match matrix.tree_for_block(&body, jj) {
            Some(t) => t,
            None => TreeId::base(),
        };
        tree_of.push(t);
        j = j + 1;
    }
    let mut blocks: Vec<BlockSlot> = Vec::with_capacity(n);
    let mut k: usize = 0;
    match built {
        Some(b) => {
            while k < n
                invariant
                    n == manifest_blocks(body),
                    b.blocks@.len() == n,
                    k <= n,
                    blocks@.len() == k,
                    forall|q: int| 0 <= q < k ==> slot_bytes(#[trigger] blocks@[q]) == Some(b.blocks@[q]@),
                decreases n - k,
            {
                let x = b.blocks[k].clone();
                assert(x@ =~= b.blocks@[k as int]@);
                blocks.push(BlockSlot::Verified(x));
                k = k + 1;
            }
            proof {
                lemma_verified_all(blocks@);
            }
        },
        None => {
            while k < n
                invariant
                    n == manifest_blocks(body),
                    k <= n,
                    blocks@.len() == k,
                    forall|q: int| 0 <= q < k ==> (#[trigger] blocks@[q] matches BlockSlot::Pending { collector, proof, failures }
                        && proof is None && failures == 0 && collector.wf()
                        && collector.source_view() == Seq::new(K_BLOCK as nat, |i: int| None::<Seq<u8>>)
                        && collector.repair_view() == Seq::<(u16, Seq<u8>)>::empty()),
                decreases n - k,
            {
                blocks.push(BlockSlot::Pending { collector: SymbolCollector::new(), proof: None, failures: 0 });
                k = k + 1;
            }
            proof {
                lemma_verified_none(blocks@);
            }
        },
    }
    let verified: u16 = match built {
        Some(_) => n as u16,
        None => 0,
    };
    ChunkBuf { manifest: body, blocks, verified, tree_of, layer_of, deadline, played: false, accepted_at: now, signature }
}

/// `b` holds what `a` holds, save for its deadline.
pub open spec fn chunk_same_but_deadline(a: ChunkBuf, b: ChunkBuf) -> bool {
    &&& b.manifest == a.manifest
    &&& b.blocks@ == a.blocks@
    &&& b.verified == a.verified
    &&& b.tree_of@ == a.tree_of@
    &&& b.layer_of@ == a.layer_of@
    &&& b.played == a.played
    &&& b.accepted_at == a.accepted_at
    &&& b.signature == a.signature
}

/// Every chunk of `a` is in `b`, re-timed on `b`'s timeline as of `now`.
pub open spec fn retimed(a: &SwarmBuffer, b: &SwarmBuffer, now: u64) -> bool {
    &&& b.segment_keys() == a.segment_keys()
    &&& forall|s2: u32, c2: int| (#[trigger] b.chunk_view(s2, c2) is Some) == (a.chunk_view(s2, c2) is Some)
    &&& forall|s2: u32, c2: int| a.chunk_view(s2, c2) matches Some(x) ==> (#[trigger] b.chunk_view(s2, c2) matches Some(y)
        && chunk_same_but_deadline(x, y) && y.deadline.0 == b.deadline_at(s2, c2 as u8, now))
}

/// Segments `new` are `old` with the chunks before position `(i, ci)` re-timed.
spec fn retimed_upto(old: Seq<SegmentBuf>, new: Seq<SegmentBuf>, anchor: Option<(SegmentSeq, u8, Instant)>, delta: u64, period: u64, now: u64, i: int, ci: int) -> bool {
    &&& new.len() == old.len()
    &&& forall|k: int| 0 <= k < old.len() ==> (#[trigger] new[k]).seq == old[k].seq && new[k].chunks@.len() == old[k].chunks@.len()
    &&& forall|k: int, c2: int| 0 <= k < old.len() && 0 <= c2 < CHUNKS_PER_SEGMENT ==> match old[k].chunks@[c2] {
        None => (#[trigger] new[k].chunks@[c2]) is None,
        Some(a) => new[k].chunks@[c2] matches Some(b) && chunk_same_but_deadline(a, b) && if k < i || (k == i && c2 < ci) {
            b.deadline.0 == deadline_spec(anchor, delta, period, old[k].seq, c2 as u8, now)
        } else {
            b.deadline == a.deadline
        },
    }
}

impl SwarmBuffer {
    /// Recompute every held chunk's deadline on the current timeline.
    fn retime(&mut self, now: Instant)
        requires old(self).wf(),
        ensures
            final(self).wf(),
            same_meta(old(self), final(self)),
            final(self).orphans == old(self).orphans,
            retimed(old(self), final(self), now.0),
    {
        let ghost old_segs = self.segments@;
        let mut i: usize = 0;
        while i < self.segments.len()
            invariant
                self.wf(),
                same_meta(old(self), self),
                self.orphans == old(self).orphans,
                old_segs == old(self).segments@,
                i <= self.segments@.len(),
                retimed_upto(old_segs, self.segments@, self.anchor, self.delta_buffer.0, self.chunk_period.0, now.0, i as int, 0),
            decreases self.segments@.len() - i,
        {
            let mut ci: usize = 0;
            while ci < CHUNKS_PER_SEGMENT as usize
                invariant
                    self.wf(),
                    same_meta(old(self), self),
                    self.orphans == old(self).orphans,
                    old_segs == old(self).segments@,
                    i < self.segments@.len(),
                    ci <= CHUNKS_PER_SEGMENT,
                    retimed_upto(old_segs, self.segments@, self.anchor, self.delta_buffer.0, self.chunk_period.0, now.0, i as int, ci as int),
                decreases CHUNKS_PER_SEGMENT - ci,
            {
                let seq = self.segments[i].seq;
                let ghost before = self.segments@;
                assert(segment_wf(before[i as int]));
                let taken = self.take_chunk(i, ci);
                let ghost after_take = self.segments@;
                match taken {
                    Some(mut cb) => {
                        let d = self.deadline_for(SegmentSeq(seq), ci as u8, now);
                        cb.deadline = d;
                        self.put_chunk(i, ci, Some(cb));
                    },
                    None => {},
                }
                proof {
                    assert forall|k: int| 0 <= k < old_segs.len() implies (#[trigger] self.segments@[k]).seq == old_segs[k].seq
                        && self.segments@[k].chunks@.len() == old_segs[k].chunks@.len() by {
                        if k != i {
                            assert(after_take[k] == before[k]);
                        }
                    }
                    assert forall|k: int, c2: int| 0 <= k < old_segs.len() && 0 <= c2 < CHUNKS_PER_SEGMENT implies match old_segs[k].chunks@[c2] {
                        None => (#[trigger] self.segments@[k].chunks@[c2]) is None,
                        Some(a) => self.segments@[k].chunks@[c2] matches Some(b) && chunk_same_but_deadline(a, b) && if k < i || (k == i && c2 < ci + 1) {
                            b.deadline.0 == deadline_spec(self.anchor, self.delta_buffer.0, self.chunk_period.0, old_segs[k].seq, c2 as u8, now.0)
                        } else {
                            b.deadline == a.deadline
                        },
                    } by {
                        if k != i {
                            assert(after_take[k] == before[k]);
                            assert(self.segments@[k] == before[k]);
                        } else if c2 != ci {
                            assert(self.segments@[k].chunks@[c2] == before[k].chunks@[c2]);
                        }
                    }
                }
                ci = ci + 1;
            }
            i = i + 1;
        }
        proof {
            assert(seg_keys(self.segments@) =~= seg_keys(old_segs));
            assert forall|s2: u32, c2: int| (#[trigger] self.chunk_view(s2, c2) is Some) == (old(self).chunk_view(s2, c2) is Some) by {
                let k = find_key(seg_keys(old_segs), s2, 0);
                lemma_find_key(seg_keys(old_segs), s2, 0);
            }
            assert forall|s2: u32, c2: int| old(self).chunk_view(s2, c2) is Some implies (#[trigger] self.chunk_view(s2, c2) matches Some(y)
                && chunk_same_but_deadline(old(self).chunk_view(s2, c2)->Some_0, y) && y.deadline.0 == self.deadline_at(s2, c2 as u8, now.0)) by {
                let k = find_key(seg_keys(old_segs), s2, 0);
                lemma_find_key(seg_keys(old_segs), s2, 0);
                assert(seg_keys(old_segs)[k] == old_segs[k].seq);
            }
        }
    }
}

/// Orphan keys with those of chunk `c` of segment `s` dropped.
pub open spec fn drop_chunk_keys(keys: Seq<(u32, u16)>, s: u32, c: int) -> Seq<(u32, u16)>
    decreases keys.len(),
{
    if keys.len() == 0 {
        keys
    } else {
        let rest = drop_chunk_keys(keys.drop_last(), s, c);
        let k = keys.last();
        if k.0 == s && k.1 / 4096 == c { rest } else { rest.push(k) }
    }
}

/// `b` is chunk `a` after late proofs and symbols landed in it: every
/// verified block kept, every pending block still pending, all else unchanged.
pub open spec fn kinds_kept(a: ChunkBuf, b: ChunkBuf) -> bool {
    &&& b.manifest == a.manifest
    &&& b.blocks@.len() == a.blocks@.len()
    &&& forall|j: int| 0 <= j < a.blocks@.len() ==> (a.blocks@[j] is Verified ==> #[trigger] b.blocks@[j] == a.blocks@[j])
    &&& forall|j: int| 0 <= j < a.blocks@.len() ==> (a.blocks@[j] is Pending ==> #[trigger] b.blocks@[j] is Pending)
    &&& b.verified == a.verified
    &&& b.tree_of@ == a.tree_of@
    &&& b.layer_of@ == a.layer_of@
    &&& b.deadline == a.deadline
    &&& b.played == a.played
    &&& b.accepted_at == a.accepted_at
    &&& b.signature == a.signature
}

impl SwarmBuffer {
    /// Position of segment `seq`, adding it with four empty chunk slots if absent.
    fn slot_for_segment(&mut self, seq: u32) -> (r: usize)
        requires old(self).wf(),
        ensures
            final(self).wf(),
            r < final(self).segments@.len(),
            final(self).segments@[r as int].seq == seq,
            same_meta(old(self), final(self)),
            final(self).orphans == old(self).orphans,
            forall|s2: u32, c2: int| #[trigger] final(self).chunk_view(s2, c2) == old(self).chunk_view(s2, c2),
            old(self).segment_keys().contains(seq) ==> final(self).segment_keys() == old(self).segment_keys(),
            !old(self).segment_keys().contains(seq) ==> final(self).segment_keys() == old(self).segment_keys().insert(r as int, seq),
    {
        let (i, found) = self.locate(seq);
        let ghost keys = seg_keys(self.segments@);
        if found {
            assert(keys[i as int] == seq);
            return i;
        }
        proof {
            lemma_find_key(keys, seq, 0);
        }
        let ghost old_segs = self.segments@;
        let chunks: Vec<Option<ChunkBuf>> = vec![None, None, None, None];
        self.segments.insert(i, SegmentBuf { seq, chunks });
        proof {
            let nk = seg_keys(self.segments@);
            assert(nk =~= keys.insert(i as int, seq));
            assert forall|a: int, b: int| 0 <= a < b < nk.len() implies nk[a] < nk[b] by {
                assert(nk[a] == self.segments@[a].seq);
                assert(nk[b] == self.segments@[b].seq);
                if a < i && b > i {
                    assert(keys[a] < seq);
                    assert(keys[b - 1] >= seq);
                } else if a == i {
                    assert(keys[b - 1] >= seq);
                } else if b == i {
                    assert(keys[a] < seq);
                } else if a > i {
                    assert(keys[a - 1] < keys[b - 1]);
                } else {
                    assert(keys[a] < keys[b]);
                }
            }
            assert forall|k: int| 0 <= k < self.segments@.len() implies segment_wf(#[trigger] self.segments@[k]) by {
                if k < i {
                    assert(self.segments@[k] == old_segs[k]);
                    assert(segment_wf(old_segs[k]));
                } else if k > i {
                    assert(self.segments@[k] == old_segs[k - 1]);
                    assert(segment_wf(old_segs[k - 1]));
                }
            }
            lemma_find_sorted(keys, seq);
            lemma_find_sorted(nk, seq);
            assert(nk[i as int] == seq);
            assert forall|s2: u32, c2: int| #[trigger] view_of(self.segments@, s2, c2) == view_of(old_segs, s2, c2) by {
                lemma_find_sorted(keys, s2);
                lemma_find_sorted(nk, s2);
                lemma_find_key(keys, s2, 0);
                lemma_find_key(nk, s2, 0);
                if s2 != seq {
                    let ko = find_key(keys, s2, 0);
                    if ko >= 0 {
                        let kn = if ko < i { ko } else { ko + 1 };
                        assert(nk[kn] == s2);
                        assert(self.segments@[kn] == old_segs[ko]);
                    } else {
                        assert forall|q: int| 0 <= q < nk.len() implies nk[q] != s2 by {
                            if q < i {
                                assert(nk[q] == keys[q]);
                            } else if q > i {
                                assert(nk[q] == keys[q - 1]);
                            }
                        }
                    }
                }
            }
            assert(!keys.contains(seq));
        }
        i
    }

    /// Remove and return the orphan entries that belong to chunk `c` of segment `seg`.
    fn take_orphans(&mut self, seg: u32, c: u8) -> (r: Vec<OrphanBlock>)
        requires old(self).wf(),
        ensures
            final(self).wf(),
            final(self).segments == old(self).segments,
            same_meta(old(self), final(self)),
            final(self).orphan_keys_spec() == drop_chunk_keys(old(self).orphan_keys_spec(), seg, c as int),
            forall|k: int| 0 <= k < r@.len() ==> (#[trigger] r@[k]).seg == seg && r@[k].index / 4096 == c,
    {
        let mut all: Vec<OrphanBlock> = Vec::new();
        std::mem::swap(&mut all, &mut self.orphans);
        let ghost keys = orphan_keys(all@);
        let mut kept: Vec<OrphanBlock> = Vec::new();
        let mut taken: Vec<OrphanBlock> = Vec::new();
        let mut k: usize = 0;
        let n = all.len();
        let mut rest = all;
        proof {
            assert(orphan_keys(old(self).orphans@) == keys);
        }
        while k < n
            invariant
                n == keys.len(),
                k <= n,
                rest@.len() == n - k,
                forall|q: int| 0 <= q < n - k ==> orphan_keys(rest@)[q] == keys[k + q],
                forall|q: int| 0 <= q < n - k ==> (#[trigger] rest@[q]).symbols@.len() <= 64,
                orphan_keys(kept@) == drop_chunk_keys(keys.take(k as int), seg, c as int),
                forall|q: int| 0 <= q < kept@.len() ==> (#[trigger] kept@[q]).symbols@.len() <= 64,
                forall|q: int| 0 <= q < taken@.len() ==> (#[trigger] taken@[q]).seg == seg && taken@[q].index / 4096 == c,
            decreases n - k,
        {
            let ghost rb = rest@;
            let o = rest.remove(0);
            proof {
                assert(orphan_keys(rb)[0] == keys[k as int]);
                assert forall|q: int| 0 <= q < n - k - 1 implies orphan_keys(rest@)[q] == keys[k + 1 + q] by {
                    assert(rest@[q] == rb[q + 1]);
                    assert(orphan_keys(rb)[q + 1] == keys[k + q + 1]);
                }
                assert forall|q: int| 0 <= q < n - k - 1 implies (#[trigger] rest@[q]).symbols@.len() <= 64 by {
                    assert(rest@[q] == rb[q + 1]);
                }
                assert(keys.take(k + 1).drop_last() =~= keys.take(k as int));
                assert(keys.take(k + 1).last() == keys[k as int]);
            }
            if o.seg == seg && o.index / 4096 == c as u16 {
                taken.push(o);
            } else {
                let ghost kb = orphan_keys(kept@);
                kept.push(o);
                assert(orphan_keys(kept@) =~= kb.push(keys[k as int]));
            }
            k = k + 1;
        }
        proof {
            assert(keys.take(n as int) =~= keys);
            lemma_drop_chunk_keys_sub(keys, seg, c as int);
        }
        self.orphans = kept;
        taken
    }
}

proof fn lemma_drop_chunk_keys_sub(keys: Seq<(u32, u16)>, s: u32, c: int)
    requires keys.no_duplicates(),
    ensures
        drop_chunk_keys(keys, s, c).no_duplicates(),
        forall|x: (u32, u16)| drop_chunk_keys(keys, s, c).contains(x) ==> keys.contains(x),
    decreases keys.len(),
{
    if keys.len() > 0 {
        let d = keys.drop_last();
        assert forall|a: int, b: int| 0 <= a < b < d.len() implies d[a] != d[b] by {
            assert(d[a] == keys[a]);
            assert(d[b] == keys[b]);
        }
        lemma_drop_chunk_keys_sub(d, s, c);
        let rest = drop_chunk_keys(d, s, c);
        assert forall|x: (u32, u16)| drop_chunk_keys(keys, s, c).contains(x) implies keys.contains(x) by {
            if rest.contains(x) {
                assert(d.contains(x));
                let q = choose|q: int| 0 <= q < d.len() && d[q] == x;
                assert(keys[q] == d[q]);
            } else {
                assert(keys[keys.len() - 1] == x);
            }
        }
        if !(keys.last().0 == s && keys.last().1 / 4096 == c) {
            assert(!d.contains(keys.last())) by {
                if d.contains(keys.last()) {
                    let q = choose|q: int| 0 <= q < d.len() && d[q] == keys.last();
                    assert(keys[q] == keys[keys.len() - 1]);
                }
            }
            assert(!rest.contains(keys.last()));
            let r2 = rest.push(keys.last());
            assert forall|a: int, b: int| 0 <= a < b < r2.len() implies r2[a] != r2[b] by {
                if b == r2.len() - 1 {
                    assert(rest.contains(r2[a]));
                }
            }
        }
    }
}

proof fn lemma_slot_update_keeps(a: ChunkBuf, b: ChunkBuf, j: int, x: BlockSlot, c0: ChunkBuf)
    requires
        kinds_kept(c0, a),
        a.verified == verified_count(a.blocks@),
        0 <= j < a.blocks@.len(),
        a.blocks@[j] is Pending,
        x is Pending,
        chunk_slot_updated(a, b, j, x),
    ensures kinds_kept(c0, b),
{
    lemma_verified_update(a.blocks@, j, x);
    assert forall|q: int| 0 <= q < c0.blocks@.len() implies (c0.blocks@[q] is Verified ==> #[trigger] b.blocks@[q] == c0.blocks@[q]) by {
        if q != j {
            assert(b.blocks@[q] == a.blocks@[q]);
        }
    }
    assert forall|q: int| 0 <= q < c0.blocks@.len() implies (c0.blocks@[q] is Pending ==> #[trigger] b.blocks@[q] is Pending) by {
        if q != j {
            assert(b.blocks@[q] == a.blocks@[q]);
        }
    }
}

/// A block proof as held: siblings, sender depth, sender.
pub type ProofParts = (Vec<Digest>, u8, NodeId);

/// What a pending slot holds, as plain values: its source symbols by ESI,
/// its repair symbols in arrival order, its proof and its failure count.
pub type PendingView = (Seq<Option<Seq<u8>>>, Seq<(u16, Seq<u8>)>, Option<ProofParts>, u8);

/// The view of a slot: `None` once verified.
pub open spec fn pending_view(b: BlockSlot) -> Option<PendingView> {
    match b {
        BlockSlot::Pending { collector, proof, failures } => Some(
            (collector.source_view(), collector.repair_view(), proof, failures),
        ),
        BlockSlot::Verified(_) => None,
    }
}

/// The views of a chunk's slots.
pub open spec fn chunk_pvs(cb: ChunkBuf) -> Seq<Option<PendingView>> {
    Seq::new(cb.blocks@.len(), |k: int| pending_view(cb.blocks@[k]))
}

/// Whether symbol `esi` is among those held.
pub open spec fn view_holds(v: PendingView, esi: u16) -> bool {
    if (esi as int) < K_BLOCK {
        v.0[esi as int] is Some
    } else {
        exists|k: int| 0 <= k < v.1.len() && (#[trigger] v.1[k]).0 == esi
    }
}

/// A pending slot after symbol `esi` with `payload` is offered: kept when
/// one symbol long and not yet held, as a source or a repair symbol.
pub open spec fn pv_symbol(v: PendingView, esi: u16, payload: Seq<u8>) -> PendingView {
    if payload.len() != SYMBOL_SIZE || view_holds(v, esi) {
        v
    } else if (esi as int) < K_BLOCK {
        (v.0.update(esi as int, Some(payload)), v.1, v.2, v.3)
    } else {
        (v.0, v.1.push((esi, payload)), v.2, v.3)
    }
}

/// A pending slot after a proof is offered: the first proof is kept.
pub open spec fn pv_proof(v: PendingView, p: Option<ProofParts>) -> PendingView {
    match p {
        None => v,
        Some(pf) => (v.0, v.1, if v.2 is None { Some(pf) } else { v.2 }, v.3),
    }
}

/// A pending slot after symbols are offered in order.
pub open spec fn syms_onto(v: PendingView, syms: Seq<(u16, Seq<u8>)>) -> PendingView
    decreases syms.len(),
{
    if syms.len() == 0 {
        v
    } else {
        syms_onto(pv_symbol(v, syms[0].0, syms[0].1), syms.drop_first())
    }
}

/// Whether slot `j` of the views is pending.
pub open spec fn pending_at(pvs: Seq<Option<PendingView>>, j: int) -> bool {
    0 <= j < pvs.len() && pvs[j] is Some
}

/// The views after a proof is offered to slot `j` (verified or missing slots ignore it).
pub open spec fn proof_at(pvs: Seq<Option<PendingView>>, j: int, p: Option<ProofParts>) -> Seq<Option<PendingView>> {
    if pending_at(pvs, j) { pvs.update(j, Some(pv_proof(pvs[j]->Some_0, p))) } else { pvs }
}

/// The views after symbols are offered to slot `j` in order.
pub open spec fn syms_at(pvs: Seq<Option<PendingView>>, j: int, syms: Seq<(u16, Seq<u8>)>) -> Seq<Option<PendingView>> {
    if pending_at(pvs, j) { pvs.update(j, Some(syms_onto(pvs[j]->Some_0, syms))) } else { pvs }
}

/// An orphaned block as plain values: its index, its proof, its symbols.
pub type OrphanView = (u16, Option<ProofParts>, Seq<(u16, Seq<u8>)>);

/// The symbols of an orphan as plain values.
pub open spec fn syms_view(s: Seq<(u16, Vec<u8>)>) -> Seq<(u16, Seq<u8>)> {
    Seq::new(s.len(), |k: int| (s[k].0, s[k].1@))
}

spec fn orphan_view(o: OrphanBlock) -> OrphanView {
    (o.index, o.proof, syms_view(o.symbols@))
}

spec fn orphans_view(m: Seq<OrphanBlock>) -> Seq<OrphanView> {
    Seq::new(m.len(), |k: int| orphan_view(m[k]))
}

/// The views after an orphan's proof, then its symbols, land on its slot.
pub open spec fn orphan_onto(pvs: Seq<Option<PendingView>>, o: OrphanView) -> Seq<Option<PendingView>> {
    let j = (o.0 % 4096) as int;
    syms_at(proof_at(pvs, j, o.1), j, o.2)
}

/// The views after orphans land, the last one first.
pub open spec fn orphans_onto(pvs: Seq<Option<PendingView>>, os: Seq<OrphanView>) -> Seq<Option<PendingView>>
    decreases os.len(),
{
    if os.len() == 0 {
        pvs
    } else {
        orphans_onto(orphan_onto(pvs, os.last()), os.drop_last())
    }
}

/// A slot replaced in a chunk changes just that slot's view.
proof fn lemma_pvs_update(a: ChunkBuf, b: ChunkBuf, j: int, x: BlockSlot)
    requires
        0 <= j < a.blocks@.len(),
        b.blocks@ == a.blocks@.update(j, x),
    ensures
        chunk_pvs(b) == chunk_pvs(a).update(j, pending_view(x)),
{
    assert(chunk_pvs(b) =~= chunk_pvs(a).update(j, pending_view(x)));
}

/// Whether a collector holds a symbol, read off its views.
proof fn lemma_holds_view(c: SymbolCollector, p: Option<ProofParts>, f: u8, esi: u16)
    ensures c.holds(esi) == view_holds((c.source_view(), c.repair_view(), p, f), esi),
{
    let pv: PendingView = (c.source_view(), c.repair_view(), p, f);
    if (esi as int) >= K_BLOCK {
        let v = c.repair_view();
        let e = c.repair_esis();
        assert(e.len() == v.len());
        assert forall|k: int| 0 <= k < v.len() implies #[trigger] e[k] == v[k].0 by {}
        if e.contains(esi) {
            let k = choose|k: int| 0 <= k < e.len() && e[k] == esi;
            assert(v[k].0 == esi);
            assert(pv.1[k].0 == esi);
            assert(view_holds(pv, esi));
        }
        if view_holds(pv, esi) {
            let k = choose|k: int| 0 <= k < pv.1.len() && (#[trigger] pv.1[k]).0 == esi;
            assert(e[k] == esi);
            assert(e.contains(esi));
        }
        assert(c.holds(esi) == e.contains(esi));
    } else {
        assert(c.holds(esi) == (c.source_view()[esi as int] is Some));
    }
}

/// Offering the first symbol of a list, then the rest, is offering the list.
proof fn lemma_syms_step(pvs: Seq<Option<PendingView>>, j: int, syms: Seq<(u16, Seq<u8>)>)
    requires syms.len() > 0,
    ensures
        syms_at(
            if pending_at(pvs, j) { pvs.update(j, Some(pv_symbol(pvs[j]->Some_0, syms[0].0, syms[0].1))) } else { pvs },
            j,
            syms.drop_first(),
        ) == syms_at(pvs, j, syms),
{
    if pending_at(pvs, j) {
        let q = pvs.update(j, Some(pv_symbol(pvs[j]->Some_0, syms[0].0, syms[0].1)));
        assert(syms_at(q, j, syms.drop_first()) =~= syms_at(pvs, j, syms));
    }
}

impl SwarmBuffer {
    /// Apply orphaned proofs and symbols to the chunk `(seg, c)` just admitted.
    fn attach(&mut self, seg: SegmentSeq, c: u8, matched: Vec<OrphanBlock>, now: Instant)
        requires
            old(self).wf(),
            old(self).held(seg.0, c as int),
            forall|k: int| 0 <= k < matched@.len() ==> (#[trigger] matched@[k]).seg == seg.0 && matched@[k].index / 4096 == c,
        ensures
            final(self).wf(),
            same_meta(old(self), final(self)),
            final(self).orphan_keys_spec() == old(self).orphan_keys_spec(),
            same_chunks_except(old(self), final(self), seg.0, c as int),
            final(self).chunk_view(seg.0, c as int) matches Some(nb) && kinds_kept(old(self).chunk_view(seg.0, c as int)->Some_0, nb),
            final(self).chunk_view(seg.0, c as int) matches Some(nb) && chunk_pvs(nb) == orphans_onto(
                chunk_pvs(old(self).chunk_view(seg.0, c as int)->Some_0),
                orphans_view(matched@),
            ),
    {
        let ghost c0 = self.chunk_view(seg.0, c as int)->Some_0;
        let ghost old_self = *self;
        let ghost goal = orphans_onto(chunk_pvs(c0), orphans_view(matched@));
        let mut matched = matched;
        proof {
            assert(kinds_kept(c0, c0));
        }
        while matched.len() > 0
            invariant
                self.wf(),
                same_meta(&old_self, self),
                self.orphan_keys_spec() == old_self.orphan_keys_spec(),
                same_chunks_except(&old_self, self, seg.0, c as int),
                self.chunk_view(seg.0, c as int) matches Some(nb) && kinds_kept(c0, nb),
                forall|k: int| 0 <= k < matched@.len() ==> (#[trigger] matched@[k]).seg == seg.0 && matched@[k].index / 4096 == c,
                orphans_onto(chunk_pvs(self.chunk_view(seg.0, c as int)->Some_0), orphans_view(matched@)) == goal,
            decreases matched@.len(),
        {
            let ghost m0 = matched@;
            let o = matched.pop().unwrap();
            assert(o.seg == seg.0 && o.index / 4096 == c);
            proof {
                assert(matched@ == m0.drop_last());
                assert(orphans_view(m0).last() == orphan_view(o));
                assert(orphans_view(m0).drop_last() =~= orphans_view(matched@));
            }
            let ghost ov = orphan_view(o);
            let OrphanBlock { seg: _, index, symbols, proof: held, since: _ } = o;
            let idx = BlockIndex(index);
            let ghost j = (index % 4096) as int;
            let ghost pvs0 = chunk_pvs(self.chunk_view(seg.0, c as int)->Some_0);
            match held {
                Some((sib, depth, from)) => {
                    let ghost before = *self;
                    let ghost a = self.chunk_view(seg.0, c as int)->Some_0;
                    assert(chunk_wf(a, seg.0, c as int)) by { self.lemma_view_wf(seg.0, c as int); }
                    let ghost pf = (sib, depth, from);
                    let _ = self.add_proof(seg, idx, sib, depth, from, now);
                    proof {
                        let b = self.chunk_view(seg.0, c as int)->Some_0;
                        if j < a.blocks@.len() && a.blocks@[j] is Pending {
                            lemma_slot_update_keeps(a, b, j, with_proof(a.blocks@[j], pf), c0);
                            lemma_pvs_update(a, b, j, with_proof(a.blocks@[j], pf));
                            assert(chunk_pvs(b) =~= proof_at(pvs0, j, Some(pf)));
                        } else {
                            assert(chunk_same(a, b));
                            assert(kinds_kept(c0, b));
                            assert(chunk_pvs(b) =~= proof_at(pvs0, j, Some(pf)));
                        }
                    }
                },
                None => {
                    proof {
                        assert(pvs0 =~= proof_at(pvs0, j, None));
                    }
                },
            }
            proof {
                assert(ov.1 == held);
                assert(orphans_onto(syms_at(chunk_pvs(self.chunk_view(seg.0, c as int)->Some_0), j, syms_view(symbols@)),
                    orphans_view(matched@)) == goal);
            }
            let mut symbols = symbols;
            while symbols.len() > 0
                invariant
                    self.wf(),
                    same_meta(&old_self, self),
                    self.orphan_keys_spec() == old_self.orphan_keys_spec(),
                    same_chunks_except(&old_self, self, seg.0, c as int),
                    self.chunk_view(seg.0, c as int) matches Some(nb) && kinds_kept(c0, nb),
                    idx.0 / 4096 == c,
                    idx.0 == index,
                    j == (index % 4096) as int,
                    orphans_onto(syms_at(chunk_pvs(self.chunk_view(seg.0, c as int)->Some_0), j, syms_view(symbols@)),
                        orphans_view(matched@)) == goal,
                decreases symbols@.len(),
            {
                let ghost s0 = symbols@;
                let (esi, payload) = symbols.remove(0);
                let ghost a = self.chunk_view(seg.0, c as int)->Some_0;
                assert(chunk_wf(a, seg.0, c as int)) by { self.lemma_view_wf(seg.0, c as int); }
                let ghost pl = payload@;
                let _ = self.add_symbol(seg, idx, esi, payload, now);
                proof {
                    let b = self.chunk_view(seg.0, c as int)->Some_0;
                    let sv = syms_view(s0);
                    assert(sv[0] == (esi, pl));
                    assert(sv.drop_first() =~= syms_view(symbols@));
                    let pa = chunk_pvs(a);
                    lemma_syms_step(pa, j, sv);
                    if j < a.blocks@.len() && a.blocks@[j] is Pending {
                        lemma_slot_update_keeps(a, b, j, b.blocks@[j], c0);
                        lemma_pvs_update(a, b, j, b.blocks@[j]);
                        match a.blocks@[j] {
                            BlockSlot::Pending { collector: c1, proof: p1, failures: f1 } => {
                                lemma_holds_view(c1, p1, f1, esi);
                            },
                            BlockSlot::Verified(_) => {},
                        }
                        assert(pending_view(b.blocks@[j]) == Some(pv_symbol(pa[j]->Some_0, esi, pl)));
                        assert(chunk_pvs(b) == pa.update(j, Some(pv_symbol(pa[j]->Some_0, sv[0].0, sv[0].1))));
                    } else {
                        assert(chunk_same(a, b));
                        assert(kinds_kept(c0, b));
                        assert(chunk_pvs(b) =~= pa);
                    }
                }
            }
            proof {
                let pv = chunk_pvs(self.chunk_view(seg.0, c as int)->Some_0);
                assert(syms_view(symbols@) =~= Seq::<(u16, Seq<u8>)>::empty());
                assert(syms_at(pv, j, syms_view(symbols@)) =~= pv);
            }
        }
        proof {
            assert(orphans_view(matched@) =~= Seq::<OrphanView>::empty());
        }
    }

    /// A held chunk is consistent with its manifest.
    proof fn lemma_view_wf(&self, s: u32, c: int)
        requires self.wf(), self.held(s, c),
        ensures chunk_wf(self.chunk_view(s, c)->Some_0, s, c),
    {
        let keys = seg_keys(self.segments@);
        lemma_find_key(keys, s, 0);
        let i = find_key(keys, s, 0);
        assert(segment_wf(self.segments@[i]));
        assert(keys[i] == self.segments@[i].seq);
    }
}

/// Whether admitting chunk `c` of segment `seg` moves the playout anchor:
/// always before the first manifest; afterwards only forward, and only
/// while nothing has played yet.
pub open spec fn moves_anchor(a: &SwarmBuffer, seg: SegmentSeq, c: u8) -> bool {
    match a.anchor_spec() {
        None => true,
        Some((s0, c0, _)) => a.played_through_spec().0 == 0 && !a.any_played_spec()
            && (seg.0 > s0.0 || (seg.0 == s0.0 && c > c0)),
    }
}

/// The buffer of a newly admitted chunk, after any late proofs and symbols
/// landed in it.
pub open spec fn admitted_chunk(
    nb: ChunkBuf,
    body: ManifestBody,
    signature: SignatureBytes,
    trees: Seq<crate::media::mapping::TreeInfo>,
    deadline: int,
    now: Instant,
    built: Option<Seq<Seq<u8>>>,
) -> bool {
    let n = manifest_blocks(body);
    &&& body_same(nb.manifest, body)
    &&& nb.signature == signature
    &&& nb.deadline.0 == deadline
    &&& !nb.played
    &&& nb.accepted_at == now
    &&& nb.blocks@.len() == n
    &&& forall|j: int| 0 <= j < n ==> #[trigger] nb.tree_of@[j] == tree_or_base(block_tree(trees, body.layer_block_counts@, j as u16))
    &&& forall|j: int| 0 <= j < n ==> #[trigger] nb.layer_of@[j] == layer_or_zero(layer_of_from(body.layer_block_counts@, 0, j))
    &&& match built {
        Some(bb) => nb.verified == n && forall|j: int| 0 <= j < n ==> slot_bytes(#[trigger] nb.blocks@[j]) == Some(bb[j]),
        None => nb.verified == 0 && forall|j: int| 0 <= j < n ==> (#[trigger] nb.blocks@[j]) is Pending,
    }
}

/// `b` is `a` after admitting `body`: the anchor moved if it should (and then
/// every other chunk re-timed), the live edge raised, the chunk filed with
/// its deadline on the new timeline, and its orphans consumed.
pub open spec fn admitted(
    a: &SwarmBuffer,
    b: &SwarmBuffer,
    body: ManifestBody,
    signature: SignatureBytes,
    trees: Seq<crate::media::mapping::TreeInfo>,
    now: Instant,
    built: Option<Seq<Seq<u8>>>,
) -> bool {
    let seg = body.segment;
    let c = body.chunk_index;
    &&& b.anchor_spec() == if moves_anchor(a, seg, c) { Some((seg, c, now)) } else { a.anchor_spec() }
    &&& b.live_edge_spec() == if seg.0 > a.live_edge_spec().0 { seg } else { a.live_edge_spec() }
    &&& b.played_through_spec() == a.played_through_spec()
    &&& b.any_played_spec() == a.any_played_spec()
    &&& b.timing_spec() == a.timing_spec()
    &&& b.orphan_keys_spec() == drop_chunk_keys(a.orphan_keys_spec(), seg.0, c as int)
    &&& b.chunk_view(seg.0, c as int) matches Some(nb)
    &&& admitted_chunk(nb, body, signature, trees, b.deadline_at(seg.0, c, now.0), now, built)
    &&& forall|s2: u32, c2: int| !(s2 == seg.0 && c2 == c) ==> (#[trigger] b.chunk_view(s2, c2) is Some) == (a.chunk_view(s2, c2) is Some)
    &&& forall|s2: u32, c2: int| !(s2 == seg.0 && c2 == c) && a.chunk_view(s2, c2) is Some ==> (#[trigger] b.chunk_view(s2, c2) matches Some(y)
        && chunk_same_but_deadline(a.chunk_view(s2, c2)->Some_0, y)
        && (moves_anchor(a, seg, c) ==> y.deadline.0 == b.deadline_at(s2, c2 as u8, now.0))
        && (!moves_anchor(a, seg, c) ==> y.deadline == a.chunk_view(s2, c2)->Some_0.deadline))
}

/// Every held chunk sits on the buffer's timeline: its deadline is the
/// anchor's arrival plus `Δ_buffer`, moved one chunk period per chunk of
/// distance from the anchor chunk.
pub open spec fn on_timeline(b: &SwarmBuffer) -> bool {
    forall|s: u32, c: int| #[trigger] b.chunk_view(s, c) matches Some(cb) ==> b.anchor_spec() is Some && cb.deadline.0
        == b.deadline_at(s, c as u8, 0)
}

/// Admitting a manifest keeps every held chunk on the timeline, the new one
/// included: a buffer that starts empty and only admits chunks holds each at
/// its offset from the anchor chunk (the newest manifest admitted before
/// anything played).
pub proof fn lemma_admit_keeps_timeline(
    a: &SwarmBuffer,
    b: &SwarmBuffer,
    body: ManifestBody,
    signature: SignatureBytes,
    trees: Seq<crate::media::mapping::TreeInfo>,
    now: Instant,
    built: Option<Seq<Seq<u8>>>,
)
    requires
        on_timeline(a),
        admitted(a, b, body, signature, trees, now, built),
        body.chunk_index < CHUNKS_PER_SEGMENT,
    ensures
        on_timeline(b),
        b.anchor_spec() is Some,
{
    let seg = body.segment;
    let c = body.chunk_index;
    assert(b.anchor_spec() is Some);
    assert forall|s: u32, c2: int| #[trigger] b.chunk_view(s, c2) is Some implies b.anchor_spec() is Some && b.chunk_view(s, c2)->Some_0.deadline.0
        == b.deadline_at(s, c2 as u8, 0) by {
        let cb = b.chunk_view(s, c2)->Some_0;
        if s == seg.0 && c2 == c {
            let nb = b.chunk_view(seg.0, c as int)->Some_0;
            assert(nb.deadline.0 == b.deadline_at(seg.0, c, now.0));
        } else {
            assert(a.chunk_view(s, c2) is Some);
            let x = a.chunk_view(s, c2)->Some_0;
            if moves_anchor(a, seg, c) {
                assert(cb.deadline.0 == b.deadline_at(s, c2 as u8, now.0));
            } else {
                assert(cb.deadline == x.deadline);
                assert(x.deadline.0 == a.deadline_at(s, c2 as u8, 0));
            }
        }
    }
}

/// The highest segment among `bodies` (0 for none).
pub open spec fn highest_segment(bodies: Seq<ManifestBody>) -> u32
    decreases bodies.len(),
{
    if bodies.len() == 0 {
        0
    } else {
        let rest = highest_segment(bodies.drop_last());
        if bodies.last().segment.0 > rest { bodies.last().segment.0 } else { rest }
    }
}

/// Publishing a run of chunks: a buffer that holds nothing, with its live
/// edge at 0, that files built chunks one after another (each step is what
/// [`SwarmBuffer::insert_built`] does) holds every chunk on the timeline of
/// its anchor, every block of every chunk verified, and its live edge at the
/// highest segment filed.
pub proof fn lemma_built_series(
    bufs: Seq<SwarmBuffer>,
    bodies: Seq<ManifestBody>,
    sigs: Seq<SignatureBytes>,
    trees: Seq<crate::media::mapping::TreeInfo>,
    times: Seq<Instant>,
    blocks: Seq<Seq<Seq<u8>>>,
)
    requires
        bufs.len() == bodies.len() + 1,
        sigs.len() == bodies.len(),
        times.len() == bodies.len(),
        blocks.len() == bodies.len(),
        forall|s: u32, c: int| #[trigger] bufs[0].chunk_view(s, c) is None,
        bufs[0].live_edge_spec().0 == 0,
        forall|k: int| 0 <= k < bodies.len() ==> (#[trigger] bodies[k]).chunk_index < CHUNKS_PER_SEGMENT && admitted(
            &bufs[k],
            &bufs[k + 1],
            bodies[k],
            sigs[k],
            trees,
            times[k],
            Some(blocks[k]),
        ),
    ensures
        on_timeline(&bufs.last()),
        forall|s: u32, c: int| #[trigger] bufs.last().chunk_view(s, c) matches Some(cb) ==> cb.verified == cb.blocks@.len(),
        bufs.last().live_edge_spec().0 == highest_segment(bodies),
    decreases bodies.len(),
{
    let n = bodies.len();
    if n == 0 {
        assert forall|s: u32, c: int| #[trigger] bufs.last().chunk_view(s, c) is None by {
            assert(bufs[0].chunk_view(s, c) is None);
        }
    } else {
        let k = n - 1;
        lemma_built_series(bufs.drop_last(), bodies.drop_last(), sigs.drop_last(), trees, times.drop_last(), blocks.drop_last());
        let a = bufs[k];
        let b = bufs[n as int];
        assert(bufs.drop_last().last() == a);
        assert(bufs.last() == b);
        assert(bodies[k].chunk_index < CHUNKS_PER_SEGMENT && admitted(&a, &b, bodies[k], sigs[k], trees, times[k], Some(blocks[k])));
        lemma_admit_keeps_timeline(&a, &b, bodies[k], sigs[k], trees, times[k], Some(blocks[k]));
        let seg = bodies[k].segment;
        let c0 = bodies[k].chunk_index;
        assert forall|s: u32, c: int| #[trigger] b.chunk_view(s, c) is Some implies b.chunk_view(s, c)->Some_0.verified == b.chunk_view(s, c)->Some_0.blocks@.len() by {
            if s == seg.0 && c == c0 {
            } else {
                assert(a.chunk_view(s, c) is Some);
            }
        }
        assert(bodies.drop_last().last() == bodies[k - 1] || k == 0);
        assert(bodies.last() == bodies[k]);
    }
}

/// Whether the manifest carries the publisher's stream id and signature.
pub open spec fn manifest_signed(m: Manifest, publisher: PublicKeyBytes) -> bool {
    &&& m.body.stream_id.0@ == blake3_spec(publisher.0@)
    &&& verify_result(publisher.0@, body_bytes(m.body), m.signature.0@) is Ok
}

/// The verdict on manifest `m`, in the order the checks are made: a chunk
/// index or segment that names no chunk is outside the window; a chunk
/// already held is a duplicate (never penalised); at or below the played
/// floor, or more than the window ahead of the live edge, is outside the
/// window; then the matrix version, then the signature.
pub open spec fn manifest_verdict(a: &SwarmBuffer, m: Manifest, publisher: PublicKeyBytes, version: u8) -> ManifestVerdict {
    let seg = m.body.segment;
    let c = m.body.chunk_index;
    if c >= CHUNKS_PER_SEGMENT || seg.0 == 0 {
        ManifestVerdict::OutsideWindow
    } else if a.held(seg.0, c as int) {
        ManifestVerdict::Duplicate
    } else if seg.0 <= a.played_through_spec().0 {
        ManifestVerdict::OutsideWindow
    } else if a.live_edge_spec().0 != 0 && seg.0 > a.live_edge_spec().0 + a.timing_spec().3 {
        ManifestVerdict::OutsideWindow
    } else if m.body.slicing_matrix_version != version {
        ManifestVerdict::UnknownMatrix
    } else if !manifest_signed(m, publisher) {
        ManifestVerdict::BadSignature
    } else {
        ManifestVerdict::Accepted
    }
}

impl SwarmBuffer {
    /// File a manifest: move the anchor if it should move, raise the live
    /// edge, build the chunk's buffer and attach orphans.
    fn insert_manifest(
        &mut self,
        body: ManifestBody,
        signature: SignatureBytes,
        matrix: &SlicingMatrix,
        now: Instant,
        built: Option<&BuiltChunk>,
    )
        requires
            old(self).wf(),
            body.layer_block_counts@.len() <= 255,
            manifest_blocks(body) <= 65535,
            body.chunk_index < CHUNKS_PER_SEGMENT,
            built matches Some(b) ==> b.blocks@.len() == manifest_blocks(body),
        ensures
            final(self).wf(),
            admitted(old(self), final(self), body, signature, matrix.trees@, now,
                match built { Some(b) => Some(built_blocks(*b)), None => None }),
    {
        let ghost a = *self;
        let ghost bb = match built { Some(b) => Some(built_blocks(*b)), None => None };
        let seg = body.segment;
        let c = body.chunk_index;
        let newer = match self.anchor {
            None => true,
            Some((s0, c0, _)) => !self.played_through.is_some() && !self.any_played && (seg.0 > s0.0 || (seg.0 == s0.0 && c > c0)),
        };
        let ghost mut a1 = *self;
        if newer {
            self.anchor = Some((seg, c, now));
            proof { a1 = *self; }
            self.retime(now);
        }
        let ghost r1 = *self;
        proof {
            assert forall|s2: u32, c2: int| #[trigger] a1.chunk_view(s2, c2) == a.chunk_view(s2, c2) by {
                assert(a1.segments == a.segments);
            }
        }
        if seg.0 > self.live_edge.0 {
            self.live_edge = seg;
        }
        let deadline = self.deadline_for(seg, c, now);
        let ghost r2 = *self;
        let cb = build_chunk(body, signature, matrix, deadline, now, built);
        let ghost cb0 = cb;
        let i = self.slot_for_segment(seg.0);
        let ghost r3 = *self;
        assert(segment_wf(self.segments@[i as int]));
        self.put_chunk(i, c as usize, Some(cb));
        proof {
            lemma_segs_put(r3.segments@, self.segments@, i as int, c as int, Some(cb0));
        }
        let ghost r4 = *self;
        let matched = self.take_orphans(seg.0, c);
        proof {
            assert(self.chunk_view(seg.0, c as int) == Some(cb0));
        }
        self.attach(seg, c, matched, now);
        proof {
            let nb = self.chunk_view(seg.0, c as int)->Some_0;
            assert(kinds_kept(cb0, nb));
            assert forall|j: int| 0 <= j < manifest_blocks(body) implies #[trigger] nb.tree_of@[j]
                == tree_or_base(block_tree(matrix.trees@, body.layer_block_counts@, j as u16)) by {
                assert(nb.tree_of@[j] == cb0.tree_of@[j]);
            }
            assert forall|j: int| 0 <= j < manifest_blocks(body) implies #[trigger] nb.layer_of@[j]
                == layer_or_zero(layer_of_from(body.layer_block_counts@, 0, j)) by {
                assert(nb.layer_of@[j] == cb0.layer_of@[j]);
            }
            match bb {
                Some(bbs) => {
                    assert forall|j: int| 0 <= j < manifest_blocks(body) implies slot_bytes(#[trigger] nb.blocks@[j]) == Some(bbs[j]) by {
                        assert(slot_bytes(cb0.blocks@[j]) == Some(bbs[j]));
                    }
                },
                None => {
                    assert forall|j: int| 0 <= j < manifest_blocks(body) implies (#[trigger] nb.blocks@[j]) is Pending by {
                        assert(cb0.blocks@[j] is Pending);
                    }
                },
            }
            assert forall|s2: u32, c2: int| !(s2 == seg.0 && c2 == c) implies (#[trigger] self.chunk_view(s2, c2) is Some) == (a.chunk_view(s2, c2) is Some) by {
                assert(self.chunk_view(s2, c2) == r4.chunk_view(s2, c2));
                assert(r4.chunk_view(s2, c2) == r3.chunk_view(s2, c2));
                assert(r3.chunk_view(s2, c2) == r2.chunk_view(s2, c2));
                assert(r2.chunk_view(s2, c2) == r1.chunk_view(s2, c2));
                assert(a1.chunk_view(s2, c2) == a.chunk_view(s2, c2));
                if newer {
                    assert((r1.chunk_view(s2, c2) is Some) == (a1.chunk_view(s2, c2) is Some));
                }
            }
            assert forall|s2: u32, c2: int| !(s2 == seg.0 && c2 == c) && a.chunk_view(s2, c2) is Some implies (#[trigger] self.chunk_view(s2, c2) matches Some(y)
                && chunk_same_but_deadline(a.chunk_view(s2, c2)->Some_0, y)
                && (moves_anchor(&a, seg, c) ==> y.deadline.0 == self.deadline_at(s2, c2 as u8, now.0))
                && (!moves_anchor(&a, seg, c) ==> y.deadline == a.chunk_view(s2, c2)->Some_0.deadline)) by {
                assert(self.chunk_view(s2, c2) == r4.chunk_view(s2, c2));
                assert(r4.chunk_view(s2, c2) == r3.chunk_view(s2, c2));
                assert(r3.chunk_view(s2, c2) == r2.chunk_view(s2, c2));
                assert(r2.chunk_view(s2, c2) == r1.chunk_view(s2, c2));
                assert(a1.chunk_view(s2, c2) == a.chunk_view(s2, c2));
                if newer {
                    assert(r1.chunk_view(s2, c2) matches Some(y) && chunk_same_but_deadline(a1.chunk_view(s2, c2)->Some_0, y)
                        && y.deadline.0 == r1.deadline_at(s2, c2 as u8, now.0));
                }
            }
        }
    }

    /// Admit a manifest: the sequence window, then the matrix version, then
    /// the signature. A new manifest is filed; anything else changes nothing.
    pub fn accept_manifest(
        &mut self,
        m: &Manifest,
        publisher: &PublicKeyBytes,
        matrix: &SlicingMatrix,
        now: Instant,
    ) -> (r: ManifestVerdict)
        requires
            old(self).wf(),
            m.body.layer_block_counts@.len() <= 255,
            manifest_blocks(m.body) <= 65535,
        ensures
            final(self).wf(),
            r == manifest_verdict(old(self), *m, *publisher, matrix.version),
            r != ManifestVerdict::Accepted ==> *final(self) == *old(self),
            r == ManifestVerdict::Accepted ==> admitted(old(self), final(self), m.body, m.signature, matrix.trees@, now, None),
    {
        let seg = m.body.segment;
        let c = m.body.chunk_index;
        if c >= CHUNKS_PER_SEGMENT || !seg.is_some() {
            return ManifestVerdict::OutsideWindow;
        }
        if self.has_manifest(seg, c) {
            return ManifestVerdict::Duplicate;
        }
        if seg.0 <= self.played_through.0 {
            return ManifestVerdict::OutsideWindow;
        }
        if self.live_edge.is_some() && seg.0 as u64 > self.live_edge.0 as u64 + self.window_ahead as u64 {
            return ManifestVerdict::OutsideWindow;
        }
        if m.body.slicing_matrix_version != matrix.version {
            return ManifestVerdict::UnknownMatrix;
        }
        if verify_manifest(m, publisher).is_err() {
            return ManifestVerdict::BadSignature;
        }
        let ghost a = *self;
        let body = m.body.duplicate();
        self.insert_manifest(body, m.signature, matrix, now, None);
        proof {
            let nb = self.chunk_view(seg.0, c as int)->Some_0;
            assert(body_same(nb.manifest, m.body));
        }
        ManifestVerdict::Accepted
    }

    /// Publisher path: file a chunk built here, every block already verified.
    pub fn insert_built(&mut self, built: &BuiltChunk, matrix: &SlicingMatrix, now: Instant)
        requires
            old(self).wf(),
            built.manifest.body.layer_block_counts@.len() <= 255,
            manifest_blocks(built.manifest.body) <= 65535,
            built.manifest.body.chunk_index < CHUNKS_PER_SEGMENT,
            built.blocks@.len() == manifest_blocks(built.manifest.body),
        ensures
            final(self).wf(),
            admitted(old(self), final(self), built.manifest.body, built.manifest.signature, matrix.trees@, now,
                Some(built_blocks(*built))),
    {
        let body = built.manifest.body.duplicate();
        self.insert_manifest(body, built.manifest.signature, matrix, now, Some(built));
    }
}

/// The verified blocks of a chunk, keyed by their number.
pub open spec fn slot_map(blocks: Seq<BlockSlot>) -> Map<u16, Seq<u8>> {
    Map::new(|j: u16| (j as int) < blocks.len() && blocks[j as int] is Verified, |j: u16| slot_bytes(blocks[j as int])->Some_0)
}

/// The first layer from `l` on that is not fully verified (or the layer count).
pub open spec fn lead_from(cb: ChunkBuf, l: int) -> int
    decreases cb.manifest.layer_block_counts@.len() - l,
{
    if l < 0 || l >= cb.manifest.layer_block_counts@.len() {
        cb.manifest.layer_block_counts@.len() as int
    } else if cb.layer_complete_spec(l as u8) {
        lead_from(cb, l + 1)
    } else {
        l
    }
}

/// Leading fully verified layers of a chunk.
pub open spec fn lead_complete(cb: ChunkBuf) -> int {
    lead_from(cb, 0)
}

/// The delivered layers of a chunk at its deadline: its leading complete
/// layers, each the concatenation of its blocks cut to what remains of the
/// chunk's byte length.
pub open spec fn played_layers(cb: ChunkBuf) -> Seq<Seq<u8>> {
    reassemble(cb.manifest.layer_block_counts@, slot_map(cb.blocks@), cb.manifest.chunk_byte_length as int, 0, 0, 0)
        .take(lead_complete(cb))
}

/// What a chunk delivers at its deadline.
pub open spec fn played_from(cb: ChunkBuf, p: PlayedChunk) -> bool {
    &&& p.chunk.segment == cb.manifest.segment
    &&& p.chunk.chunk_index == cb.manifest.chunk_index
    &&& p.chunk.timestamp_us == cb.manifest.timestamp_us
    &&& views(p.chunk.layers@) == played_layers(cb)
    &&& p.layers_complete == lead_complete(cb)
    &&& p.layers_total == cb.manifest.layer_block_counts@.len()
    &&& p.missing == cb.blocks@.len() - cb.verified
}

proof fn lemma_lead_bounds(cb: ChunkBuf, l: int)
    requires 0 <= l <= cb.manifest.layer_block_counts@.len(),
    ensures l <= lead_from(cb, l) <= cb.manifest.layer_block_counts@.len(),
    decreases cb.manifest.layer_block_counts@.len() - l,
{
    if l < cb.manifest.layer_block_counts@.len() && cb.layer_complete_spec(l as u8) {
        lemma_lead_bounds(cb, l + 1);
    }
}

/// Build the delivered chunk: leading complete layers only, each cut to the
/// chunk's byte length.
fn assemble(cb: &ChunkBuf) -> (r: PlayedChunk)
    requires chunk_wf(*cb, cb.manifest.segment.0, cb.manifest.chunk_index as int),
    ensures played_from(*cb, r),
{
    let counts = &cb.manifest.layer_block_counts;
    let ghost cv = counts@;
    let ghost bm = slot_map(cb.blocks@);
    let total = cb.manifest.chunk_byte_length as usize;
    let ghost big = reassemble(cv, bm, total as int, 0, 0, 0);
    let n_layers = counts.len();
    let mut k: usize = 0;
    while k < n_layers && cb.layer_complete(k as u8)
        invariant
            k <= n_layers == cv.len(),
            cv.len() <= 255,
            lead_from(*cb, k as int) == lead_complete(*cb),
        decreases n_layers - k,
    {
        k = k + 1;
    }
    assert(lead_from(*cb, k as int) == k as int);
    proof {
        lemma_reassemble_len(cv, bm, total as int, 0, 0, 0);
        assert(big.skip(0) =~= big);
    }
    let mut layers: Vec<Vec<u8>> = Vec::new();
    let mut j: u16 = 0;
    let mut consumed: usize = 0;
    let mut l: usize = 0;
    while l < k
        invariant
            k <= n_layers == cv.len() <= 255,
            count_sum(cv) <= 65535,
            cv == cb.manifest.layer_block_counts@,
            counts@ == cv,
            bm == slot_map(cb.blocks@),
            big == reassemble(cv, bm, total as int, 0, 0, 0),
            big.len() == cv.len(),
            total == cb.manifest.chunk_byte_length,
            l <= k,
            j == count_sum(cv.take(l as int)),
            consumed <= total,
            views(layers@) == big.take(l as int),
            reassemble(cv, bm, total as int, l as int, j as int, consumed as int) == big.skip(l as int),
        decreases k - l,
    {
        proof {
            lemma_count_prefix(cv, l as int);
        }
        let n = counts[l];
        let ghost start = j as int;
        let mut v: Vec<u8> = Vec::new();
        let mut b: u16 = 0;
        while b < n
            invariant
                b <= n,
                n == cv[l as int],
                start + n <= 65535,
                j == start + b,
                bm == slot_map(cb.blocks@),
                v@ == present_concat(bm, start, b as int),
            decreases n - b,
        {
            match cb.block(j) {
                Some(bl) => {
                    assert(bm.contains_key(j) && bm[j] == bl@);
                    push_bytes(&mut v, bl.as_slice());
                },
                None => {
                    assert(!bm.contains_key(j));
                },
            }
            assert(((start + (b + 1) - 1) as u16) == j);
            j = j + 1;
            b = b + 1;
        }
        let avail = if total >= consumed { total - consumed } else { 0 };
        let len = if avail < v.len() { avail } else { v.len() };
        v.truncate(len);
        let ghost layer = v@;
        proof {
            let raw = present_concat(bm, start, n as int);
            let rest = reassemble(cv, bm, total as int, l as int, start, consumed as int);
            assert(rest == seq![raw.take(len as int)] + reassemble(cv, bm, total as int, l + 1, start + n, consumed + len));
            assert(layer =~= raw.take(len as int));
            assert(big.skip(l as int)[0] == layer);
            assert(big[l as int] == layer);
            assert(big.skip(l + 1) =~= big.skip(l as int).drop_first());
            assert(rest.drop_first() =~= reassemble(cv, bm, total as int, l + 1, start + n, consumed + len));
        }
        consumed = consumed + len;
        let ghost lv = layers@;
        layers.push(v);
        assert(views(layers@) =~= big.take(l + 1)) by {
            assert(views(lv) == big.take(l as int));
            assert(views(lv).len() == lv.len());
            assert(big.take(l as int).len() == l);
            assert(lv.len() == l);
            assert(layers@.len() == l + 1);
            assert(layers@[l as int]@ == layer);
            assert(big[l as int] == layer);
            assert forall|q: int| 0 <= q < l implies views(layers@)[q] == big.take(l + 1)[q] by {
                assert(layers@[q] == lv[q]);
                assert(views(lv)[q] == big[q]);
            }
        }
        l = l + 1;
    }
    proof {
        lemma_verified_le(cb.blocks@);
    }
    PlayedChunk {
        chunk: LayeredChunk {
            segment: cb.manifest.segment,
            chunk_index: cb.manifest.chunk_index,
            timestamp_us: cb.manifest.timestamp_us,
            layers,
        },
        layers_complete: k as u8,
        layers_total: n_layers as u8,
        missing: cb.missing(),
    }
}

/// Whether a chunk is due at `now` and has not played yet.
pub open spec fn is_due(cb: ChunkBuf, now: u64) -> bool {
    !cb.played && cb.deadline.0 <= now
}

/// The due chunks among chunk slots, in order.
spec fn due_in(chunks: Seq<Option<ChunkBuf>>, now: u64) -> Seq<ChunkBuf>
    decreases chunks.len(),
{
    if chunks.len() == 0 {
        Seq::empty()
    } else {
        let rest = due_in(chunks.drop_last(), now);
        match chunks.last() {
            Some(cb) => if is_due(cb, now) { rest.push(cb) } else { rest },
            None => rest,
        }
    }
}

/// The due chunks among segments, in presentation order.
spec fn due_segs(segs: Seq<SegmentBuf>, now: u64) -> Seq<ChunkBuf>
    decreases segs.len(),
{
    if segs.len() == 0 {
        Seq::empty()
    } else {
        due_segs(segs.drop_last(), now) + due_in(segs.last().chunks@, now)
    }
}

/// Presentation order: chunk `a` comes before chunk `b`.
pub open spec fn plays_before(a: ChunkBuf, b: ChunkBuf) -> bool {
    a.manifest.segment.0 < b.manifest.segment.0 || (a.manifest.segment.0 == b.manifest.segment.0
        && a.manifest.chunk_index < b.manifest.chunk_index)
}

/// The due chunks of one segment's slots are those slots' due chunks, in slot order.
proof fn lemma_due_in(chunks: Seq<Option<ChunkBuf>>, q: u32, now: u64)
    requires
        forall|c: int| 0 <= c < chunks.len() ==> (#[trigger] chunks[c] matches Some(cb) ==> cb.manifest.segment.0 == q
            && cb.manifest.chunk_index == c),
    ensures
        forall|k: int| 0 <= k < due_in(chunks, now).len() ==> {
            let d = #[trigger] due_in(chunks, now)[k];
            &&& 0 <= d.manifest.chunk_index < chunks.len()
            &&& chunks[d.manifest.chunk_index as int] == Some(d)
            &&& d.manifest.segment.0 == q
            &&& is_due(d, now)
        },
        forall|c: int| 0 <= c < chunks.len() && (#[trigger] chunks[c] matches Some(cb) && is_due(cb, now)) ==> due_in(chunks, now).contains(chunks[c]->Some_0),
        forall|a: int, b: int| 0 <= a < b < due_in(chunks, now).len() ==> (#[trigger] due_in(chunks, now)[a]).manifest.chunk_index
            < (#[trigger] due_in(chunks, now)[b]).manifest.chunk_index,
    decreases chunks.len(),
{
    if chunks.len() > 0 {
        let init = chunks.drop_last();
        lemma_due_in(init, q, now);
        let rest = due_in(init, now);
        let d = due_in(chunks, now);
        let n = chunks.len() - 1;
        assert forall|c: int| 0 <= c < init.len() implies (#[trigger] init[c] matches Some(cb) ==> cb.manifest.segment.0 == q
            && cb.manifest.chunk_index == c) by {
            assert(init[c] == chunks[c]);
        }
        assert forall|k: int| 0 <= k < d.len() implies {
            let x = #[trigger] d[k];
            &&& 0 <= x.manifest.chunk_index < chunks.len()
            &&& chunks[x.manifest.chunk_index as int] == Some(x)
            &&& x.manifest.segment.0 == q
            &&& is_due(x, now)
        } by {
            if k < rest.len() {
                assert(d[k] == rest[k]);
                assert(init[rest[k].manifest.chunk_index as int] == chunks[rest[k].manifest.chunk_index as int]);
            } else {
                assert(chunks.last() matches Some(cb) && is_due(cb, now) && d[k] == cb);
            }
        }
        assert forall|c: int| 0 <= c < chunks.len() && (#[trigger] chunks[c] matches Some(cb) && is_due(cb, now)) implies d.contains(chunks[c]->Some_0) by {
            if c < n {
                assert(init[c] == chunks[c]);
                assert(rest.contains(chunks[c]->Some_0));
                let w = choose|w: int| 0 <= w < rest.len() && rest[w] == chunks[c]->Some_0;
                assert(d[w] == rest[w]);
            } else {
                assert(d[rest.len() as int] == chunks[c]->Some_0);
            }
        }
        assert forall|a: int, b: int| 0 <= a < b < d.len() implies (#[trigger] d[a]).manifest.chunk_index
            < (#[trigger] d[b]).manifest.chunk_index by {
            if b < rest.len() {
                assert(d[a] == rest[a] && d[b] == rest[b]);
            } else {
                assert(d[a] == rest[a]);
                assert(rest[a].manifest.chunk_index < init.len());
            }
        }
    }
}

/// The due chunks among sorted segments are the due chunks they hold, in
/// presentation order.
proof fn lemma_due_segs(segs: Seq<SegmentBuf>, now: u64)
    requires
        strictly_sorted(seg_keys(segs)),
        forall|i: int| 0 <= i < segs.len() ==> segment_wf(#[trigger] segs[i]),
    ensures
        forall|k: int| 0 <= k < due_segs(segs, now).len() ==> {
            let d = #[trigger] due_segs(segs, now)[k];
            &&& view_of(segs, d.manifest.segment.0, d.manifest.chunk_index as int) == Some(d)
            &&& is_due(d, now)
        },
        forall|i: int, c: int| 0 <= i < segs.len() && 0 <= c < CHUNKS_PER_SEGMENT && (#[trigger] segs[i].chunks@[c] matches Some(cb)
            && is_due(cb, now)) ==> due_segs(segs, now).contains(segs[i].chunks@[c]->Some_0),
        forall|a: int, b: int| 0 <= a < b < due_segs(segs, now).len() ==> plays_before(
            #[trigger] due_segs(segs, now)[a],
            #[trigger] due_segs(segs, now)[b],
        ),
    decreases segs.len(),
{
    if segs.len() > 0 {
        let init = segs.drop_last();
        let last = segs.last();
        let n = segs.len() - 1;
        let keys = seg_keys(segs);
        let ikeys = seg_keys(init);
        assert(ikeys =~= keys.drop_last());
        assert forall|i: int| 0 <= i < init.len() implies segment_wf(#[trigger] init[i]) by {
            assert(init[i] == segs[i]);
        }
        lemma_due_segs(init, now);
        assert(segment_wf(segs[n]));
        lemma_due_in(last.chunks@, last.seq, now);
        lemma_find_sorted(keys, last.seq);
        lemma_find_sorted(ikeys, last.seq);
        let dp = due_segs(init, now);
        let dl = due_in(last.chunks@, now);
        let d = due_segs(segs, now);
        assert(d == dp + dl);
        assert forall|k: int| 0 <= k < d.len() implies {
            let x = #[trigger] d[k];
            &&& view_of(segs, x.manifest.segment.0, x.manifest.chunk_index as int) == Some(x)
            &&& is_due(x, now)
        } by {
            if k < dp.len() {
                let x = dp[k];
                assert(d[k] == x);
                let s0 = x.manifest.segment.0;
                lemma_find_key(ikeys, s0, 0);
                let r = find_key(ikeys, s0, 0);
                assert(r >= 0);
                assert(keys[r] == s0);
                lemma_find_sorted(keys, s0);
                assert(segs[r] == init[r]);
            } else {
                let x = dl[k - dp.len()];
                assert(d[k] == x);
                assert(keys[n] == last.seq);
            }
        }
        assert forall|i: int, c: int| 0 <= i < segs.len() && 0 <= c < CHUNKS_PER_SEGMENT && (#[trigger] segs[i].chunks@[c] matches Some(cb)
            && is_due(cb, now)) implies d.contains(segs[i].chunks@[c]->Some_0) by {
            let x = segs[i].chunks@[c]->Some_0;
            if i < n {
                assert(init[i] == segs[i]);
                assert(dp.contains(x));
                let w = choose|w: int| 0 <= w < dp.len() && dp[w] == x;
                assert(d[w] == x);
            } else {
                assert(dl.contains(x));
                let w = choose|w: int| 0 <= w < dl.len() && dl[w] == x;
                assert(d[dp.len() + w] == x);
            }
        }
        assert forall|a: int, b: int| 0 <= a < b < d.len() implies plays_before(#[trigger] d[a], #[trigger] d[b]) by {
            if b < dp.len() {
                assert(d[a] == dp[a] && d[b] == dp[b]);
            } else if a >= dp.len() {
                assert(d[a] == dl[a - dp.len()] && d[b] == dl[b - dp.len()]);
            } else {
                let x = dp[a];
                assert(d[a] == x);
                assert(d[b] == dl[b - dp.len()]);
                let s0 = x.manifest.segment.0;
                lemma_find_key(ikeys, s0, 0);
                let r = find_key(ikeys, s0, 0);
                assert(keys[r] == s0 && r < n);
                assert(keys[r] < keys[n]);
            }
        }
    }
}

/// `b` holds what `a` holds, save whether it has played.
pub open spec fn chunk_same_but_played(a: ChunkBuf, b: ChunkBuf) -> bool {
    &&& b.manifest == a.manifest
    &&& b.blocks@ == a.blocks@
    &&& b.verified == a.verified
    &&& b.tree_of@ == a.tree_of@
    &&& b.layer_of@ == a.layer_of@
    &&& b.deadline == a.deadline
    &&& b.accepted_at == a.accepted_at
    &&& b.signature == a.signature
}

/// Every chunk slot of a segment holds a chunk that has played.
spec fn seg_all_played(b: SegmentBuf) -> bool {
    forall|c: int| 0 <= c < CHUNKS_PER_SEGMENT ==> (#[trigger] b.chunks@[c] matches Some(cb) && cb.played)
}

/// Segments `new` are `old` with the due chunks before `(i, ci)` marked played.
spec fn played_upto(old: Seq<SegmentBuf>, new: Seq<SegmentBuf>, now: u64, i: int, ci: int) -> bool {
    &&& new.len() == old.len()
    &&& forall|k: int| 0 <= k < old.len() ==> (#[trigger] new[k]).seq == old[k].seq && new[k].chunks@.len() == old[k].chunks@.len()
    &&& forall|k: int, c2: int| 0 <= k < old.len() && 0 <= c2 < CHUNKS_PER_SEGMENT ==> match old[k].chunks@[c2] {
        None => (#[trigger] new[k].chunks@[c2]) is None,
        Some(a) => new[k].chunks@[c2] matches Some(b) && chunk_same_but_played(a, b) && b.played == if k < i || (k == i && c2 < ci) {
            a.played || a.deadline.0 <= now
        } else {
            a.played
        },
    }
}

impl SwarmBuffer {
    /// The chunks held, in presentation order, whose deadline is at or
    /// before `now` and that have not played.
    pub closed spec fn due_chunks(&self, now: u64) -> Seq<ChunkBuf> {
        due_segs(self.segments@, now)
    }

    /// The chunks due by `now` are exactly the held chunks that have not
    /// played and whose deadline is at or before `now`, each once, in
    /// presentation order.
    pub proof fn lemma_due_chunks(&self, now: u64)
        requires self.wf(),
        ensures
            forall|k: int| 0 <= k < self.due_chunks(now).len() ==> {
                let d = #[trigger] self.due_chunks(now)[k];
                &&& self.chunk_view(d.manifest.segment.0, d.manifest.chunk_index as int) == Some(d)
                &&& is_due(d, now)
            },
            forall|s: u32, c: int| (#[trigger] self.chunk_view(s, c) matches Some(cb) && is_due(cb, now)) ==> self.due_chunks(
                now,
            ).contains(self.chunk_view(s, c)->Some_0),
            forall|a: int, b: int| 0 <= a < b < self.due_chunks(now).len() ==> plays_before(
                #[trigger] self.due_chunks(now)[a],
                #[trigger] self.due_chunks(now)[b],
            ),
    {
        lemma_due_segs(self.segments@, now);
        assert forall|s: u32, c: int| (#[trigger] self.chunk_view(s, c) matches Some(cb) && is_due(cb, now)) implies self.due_chunks(
            now,
        ).contains(self.chunk_view(s, c)->Some_0) by {
            let i = find_key(seg_keys(self.segments@), s, 0);
            lemma_find_key(seg_keys(self.segments@), s, 0);
            assert(0 <= i < self.segments@.len());
            assert(self.segments@[i].chunks@[c] == self.chunk_view(s, c));
        }
    }

    /// Whether every chunk of segment `s` is held and has played.
    pub open spec fn segment_played(&self, s: u32) -> bool {
        forall|c: int| 0 <= c < CHUNKS_PER_SEGMENT ==> (#[trigger] self.chunk_view(s, c) matches Some(cb) && cb.played)
    }

    /// Fire every deadline at or before `now`, in presentation order; the
    /// played floor rises to the newest segment whose chunks have all played.
    /// The chunks played are `due_chunks(now)`, which
    /// [`SwarmBuffer::lemma_due_chunks`] shows are exactly the unplayed held
    /// chunks due by `now`, each once, in presentation order.
    pub fn play_due(&mut self, now: Instant) -> (r: Vec<PlayedChunk>)
        requires old(self).wf(),
        ensures
            final(self).wf(),
            final(self).live_edge_spec() == old(self).live_edge_spec(),
            final(self).anchor_spec() == old(self).anchor_spec(),
            final(self).timing_spec() == old(self).timing_spec(),
            final(self).orphan_keys_spec() == old(self).orphan_keys_spec(),
            final(self).segment_keys() == old(self).segment_keys(),
            r@.len() == old(self).due_chunks(now.0).len(),
            forall|k: int| 0 <= k < r@.len() ==> played_from(old(self).due_chunks(now.0)[k], #[trigger] r@[k]),
            forall|s2: u32, c2: int| (#[trigger] final(self).chunk_view(s2, c2) is Some) == (old(self).chunk_view(s2, c2) is Some),
            forall|s2: u32, c2: int| old(self).chunk_view(s2, c2) is Some ==> (#[trigger] final(self).chunk_view(s2, c2) matches Some(y)
                && chunk_same_but_played(old(self).chunk_view(s2, c2)->Some_0, y)
                && y.played == (old(self).chunk_view(s2, c2)->Some_0.played || old(self).chunk_view(s2, c2)->Some_0.deadline.0 <= now.0)),
            final(self).any_played_spec() == (old(self).any_played_spec() || r@.len() > 0),
            final(self).played_through_spec().0 >= old(self).played_through_spec().0,
            final(self).played_through_spec() == old(self).played_through_spec()
                || (final(self).segment_keys().contains(final(self).played_through_spec().0)
                    && final(self).segment_played(final(self).played_through_spec().0)),
            forall|s2: u32| final(self).segment_keys().contains(s2) && #[trigger] final(self).segment_played(s2)
                ==> s2 <= final(self).played_through_spec().0,
    {
        let ghost old_segs = self.segments@;
        let ghost pt0 = self.played_through.0;
        let ghost ap0 = self.any_played;
        let mut out: Vec<PlayedChunk> = Vec::new();
        let mut i: usize = 0;
        proof {
            assert(old_segs.take(0) =~= Seq::<SegmentBuf>::empty());
        }
        while i < self.segments.len()
            invariant
                self.wf(),
                self.live_edge == old(self).live_edge,
                self.anchor == old(self).anchor,
                self.timing_spec() == old(self).timing_spec(),
                self.orphans == old(self).orphans,
                old_segs == old(self).segments@,
                i <= self.segments@.len(),
                played_upto(old_segs, self.segments@, now.0, i as int, 0),
                out@.len() == due_segs(old_segs.take(i as int), now.0).len(),
                forall|k: int| 0 <= k < out@.len() ==> played_from(due_segs(old_segs.take(i as int), now.0)[k], #[trigger] out@[k]),
                self.any_played == (ap0 || out@.len() > 0),
                self.played_through.0 >= pt0,
                self.played_through.0 == pt0 || exists|k: int| 0 <= k < i && (#[trigger] self.segments@[k]).seq == self.played_through.0
                    && seg_all_played(self.segments@[k]),
                forall|k: int| 0 <= k < i && seg_all_played(#[trigger] self.segments@[k]) ==> self.segments@[k].seq <= self.played_through.0,
                pt0 == old(self).played_through.0,
                ap0 == old(self).any_played,
            decreases self.segments@.len() - i,
        {
            let seq = self.segments[i].seq;
            let ghost out_i = out@.len();
            let mut ci: usize = 0;
            proof {
                assert(old_segs[i as int].chunks@.take(0) =~= Seq::<Option<ChunkBuf>>::empty());
            }
            while ci < CHUNKS_PER_SEGMENT as usize
                invariant
                    self.wf(),
                    self.live_edge == old(self).live_edge,
                    self.anchor == old(self).anchor,
                    self.timing_spec() == old(self).timing_spec(),
                    self.orphans == old(self).orphans,
                    old_segs == old(self).segments@,
                    i < self.segments@.len(),
                    seq == old_segs[i as int].seq,
                    ci <= CHUNKS_PER_SEGMENT,
                    played_upto(old_segs, self.segments@, now.0, i as int, ci as int),
                    out@.len() == due_segs(old_segs.take(i as int), now.0).len() + due_in(old_segs[i as int].chunks@.take(ci as int), now.0).len(),
                    forall|k: int| 0 <= k < out@.len() ==> played_from(
                        (due_segs(old_segs.take(i as int), now.0) + due_in(old_segs[i as int].chunks@.take(ci as int), now.0))[k], #[trigger] out@[k]),
                    self.any_played == (ap0 || out@.len() > 0),
                    self.played_through.0 >= pt0,
                    self.played_through.0 == pt0 || exists|k: int| 0 <= k < i && (#[trigger] self.segments@[k]).seq == self.played_through.0
                        && seg_all_played(self.segments@[k]),
                    forall|k: int| 0 <= k < i && seg_all_played(#[trigger] self.segments@[k]) ==> self.segments@[k].seq <= self.played_through.0,
                    pt0 == old(self).played_through.0,
                    ap0 == old(self).any_played,
                decreases CHUNKS_PER_SEGMENT - ci,
            {
                let ghost before = self.segments@;
                let ghost out_before = out@;
                let ghost prefix = due_segs(old_segs.take(i as int), now.0) + due_in(old_segs[i as int].chunks@.take(ci as int), now.0);
                assert(segment_wf(before[i as int]));
                let taken = self.take_chunk(i, ci);
                let ghost after_take = self.segments@;
                proof {
                    let ch = old_segs[i as int].chunks@;
                    assert(ch.take(ci + 1).drop_last() =~= ch.take(ci as int));
                    assert(ch.take(ci + 1).last() == ch[ci as int]);
                }
                match taken {
                    Some(mut cb) => {
                        if !cb.played && cb.deadline.0 <= now.0 {
                            cb.played = true;
                            self.any_played = true;
                            assert(chunk_wf(cb, seq, ci as int));
                            let p = assemble(&cb);
                            out.push(p);
                            proof {
                                let a = old_segs[i as int].chunks@[ci as int]->Some_0;
                                assert(chunk_same_but_played(a, cb));
                                assert(lead_complete(a) == lead_complete(cb)) by {
                                    assert(lead_from(a, 0) == lead_from(cb, 0)) by {
                                        lemma_lead_same(a, cb, 0);
                                    }
                                }
                                let np = prefix.push(a);
                                assert forall|k: int| 0 <= k < out@.len() implies played_from(np[k], #[trigger] out@[k]) by {
                                    if k < out_before.len() {
                                        assert(out@[k] == out_before[k]);
                                    }
                                }
                                assert(due_segs(old_segs.take(i as int), now.0) + due_in(old_segs[i as int].chunks@.take(ci + 1), now.0) =~= np);
                            }
                        } else {
                            proof {
                                assert(due_segs(old_segs.take(i as int), now.0) + due_in(old_segs[i as int].chunks@.take(ci + 1), now.0) =~= prefix);
                            }
                        }
                        self.put_chunk(i, ci, Some(cb));
                    },
                    None => {
                        proof {
                            assert(due_segs(old_segs.take(i as int), now.0) + due_in(old_segs[i as int].chunks@.take(ci + 1), now.0) =~= prefix);
                        }
                    },
                }
                proof {
                    assert forall|k: int| 0 <= k < old_segs.len() implies (#[trigger] self.segments@[k]).seq == old_segs[k].seq
                        && self.segments@[k].chunks@.len() == old_segs[k].chunks@.len() by {
                        if k != i {
                            assert(after_take[k] == before[k]);
                        }
                    }
                    assert forall|k: int, c2: int| 0 <= k < old_segs.len() && 0 <= c2 < CHUNKS_PER_SEGMENT implies match old_segs[k].chunks@[c2] {
                        None => (#[trigger] self.segments@[k].chunks@[c2]) is None,
                        Some(a) => self.segments@[k].chunks@[c2] matches Some(b) && chunk_same_but_played(a, b) && b.played == if k < i || (k == i && c2 < ci + 1) {
                            a.played || a.deadline.0 <= now.0
                        } else {
                            a.played
                        },
                    } by {
                        if k != i {
                            assert(after_take[k] == before[k]);
                            assert(self.segments@[k] == before[k]);
                        } else if c2 != ci {
                            assert(self.segments@[k].chunks@[c2] == before[k].chunks@[c2]);
                        }
                    }
                    assert forall|k: int| 0 <= k < i implies #[trigger] self.segments@[k] == before[k] by {
                        assert(after_take[k] == before[k]);
                    }
                }
                ci = ci + 1;
            }
            proof {
                let ch = old_segs[i as int].chunks@;
                assert(ch.take(4) =~= ch);
                assert(old_segs.take(i + 1).drop_last() =~= old_segs.take(i as int));
                assert(old_segs.take(i + 1).last() == old_segs[i as int]);
                assert(due_segs(old_segs.take(i + 1), now.0) == due_segs(old_segs.take(i as int), now.0) + due_in(ch, now.0));
            }
            let mut all = true;
            let mut q: usize = 0;
            assert(segment_wf(self.segments@[i as int]));
            while q < CHUNKS_PER_SEGMENT as usize
                invariant
                    i < self.segments@.len(),
                    q <= CHUNKS_PER_SEGMENT,
                    self.segments@[i as int].chunks@.len() == CHUNKS_PER_SEGMENT,
                    all == forall|c2: int| 0 <= c2 < q ==> (#[trigger] self.segments@[i as int].chunks@[c2] matches Some(cb) && cb.played),
                decreases CHUNKS_PER_SEGMENT - q,
            {
                let ok = match &self.segments[i].chunks[q] {
                    Some(cb) => cb.played,
                    None => false,
                };
                all = all && ok;
                q = q + 1;
            }
            assert(all == seg_all_played(self.segments@[i as int]));
            if all && seq > self.played_through.0 {
                self.played_through = SegmentSeq(seq);
            }
            proof {
                assert(self.segments@[i as int].seq == seq);
            }
            i = i + 1;
        }
        proof {
            assert(old_segs.take(i as int) =~= old_segs);
            assert(seg_keys(self.segments@) =~= seg_keys(old_segs));
            assert forall|s2: u32, c2: int| (#[trigger] self.chunk_view(s2, c2) is Some) == (old(self).chunk_view(s2, c2) is Some) by {
                lemma_find_key(seg_keys(old_segs), s2, 0);
            }
            assert forall|s2: u32, c2: int| old(self).chunk_view(s2, c2) is Some implies (#[trigger] self.chunk_view(s2, c2) matches Some(y)
                && chunk_same_but_played(old(self).chunk_view(s2, c2)->Some_0, y)
                && y.played == (old(self).chunk_view(s2, c2)->Some_0.played || old(self).chunk_view(s2, c2)->Some_0.deadline.0 <= now.0)) by {
                lemma_find_key(seg_keys(old_segs), s2, 0);
            }
            let keys = seg_keys(self.segments@);
            lemma_find_sorted(keys, self.played_through.0);
            if self.played_through.0 != pt0 {
                let k = choose|k: int| 0 <= k < i && (#[trigger] self.segments@[k]).seq == self.played_through.0
                    && seg_all_played(self.segments@[k]);
                assert(keys[k] == self.played_through.0);
                assert(keys.contains(self.played_through.0));
                assert forall|c2: int| 0 <= c2 < CHUNKS_PER_SEGMENT implies (#[trigger] self.chunk_view(self.played_through.0, c2) matches Some(cb) && cb.played) by {
                    assert(self.segments@[k].chunks@[c2] matches Some(cb) && cb.played);
                }
            }
            assert forall|s2: u32| self.segment_keys().contains(s2) && #[trigger] self.segment_played(s2) implies s2 <= self.played_through.0 by {
                let k = choose|k: int| 0 <= k < keys.len() && keys[k] == s2;
                lemma_find_sorted(keys, s2);
                assert(keys[k] == self.segments@[k].seq);
                assert forall|c2: int| 0 <= c2 < CHUNKS_PER_SEGMENT implies (#[trigger] self.segments@[k].chunks@[c2] matches Some(cb) && cb.played) by {
                    assert(self.chunk_view(s2, c2) matches Some(cb) && cb.played);
                }
                assert(seg_all_played(self.segments@[k]));
            }
        }
        out
    }
}

proof fn lemma_lead_same(a: ChunkBuf, b: ChunkBuf, l: int)
    requires
        b.manifest == a.manifest,
        b.blocks@ == a.blocks@,
        b.layer_of@ == a.layer_of@,
    ensures lead_from(a, l) == lead_from(b, l),
    decreases a.manifest.layer_block_counts@.len() - l,
{
    if 0 <= l < a.manifest.layer_block_counts@.len() {
        lemma_lead_same(a, b, l + 1);
    }
}

/// The held chunks among chunk slots, in order.
spec fn somes(chunks: Seq<Option<ChunkBuf>>) -> Seq<ChunkBuf>
    decreases chunks.len(),
{
    if chunks.len() == 0 {
        Seq::empty()
    } else {
        let rest = somes(chunks.drop_last());
        match chunks.last() {
            Some(cb) => rest.push(cb),
            None => rest,
        }
    }
}

/// The held chunks of segments numbered `from` or later, in presentation order.
spec fn held_segs_from(segs: Seq<SegmentBuf>, from: u32) -> Seq<ChunkBuf>
    decreases segs.len(),
{
    if segs.len() == 0 {
        Seq::empty()
    } else {
        held_segs_from(segs.drop_last(), from) + (if segs.last().seq >= from { somes(segs.last().chunks@) } else { Seq::empty() })
    }
}

/// Whether the manifests `r` re-serve the chunks `cbs`, one for one.
pub open spec fn manifests_of(cbs: Seq<ChunkBuf>, r: Seq<Manifest>) -> bool {
    &&& r.len() == cbs.len()
    &&& forall|k: int| 0 <= k < r.len() ==> body_same((#[trigger] r[k]).body, cbs[k].manifest) && r[k].signature == cbs[k].signature
}

impl SwarmBuffer {
    /// The chunks held for segments numbered `from` or later, in presentation order.
    pub closed spec fn held_from(&self, from: u32) -> Seq<ChunkBuf> {
        held_segs_from(self.segments@, from)
    }

    /// Signed manifests held for segments `>= from`, in presentation order.
    pub fn manifests_from(&self, from: SegmentSeq) -> (r: Vec<Manifest>)
        requires self.wf(),
        ensures manifests_of(self.held_from(from.0), r@),
    {
        let mut out: Vec<Manifest> = Vec::new();
        let mut i: usize = 0;
        let ghost segs = self.segments@;
        proof {
            assert(segs.take(0) =~= Seq::<SegmentBuf>::empty());
        }
        while i < self.segments.len()
            invariant
                segs == self.segments@,
                i <= segs.len(),
                self.wf(),
                manifests_of(held_segs_from(segs.take(i as int), from.0), out@),
            decreases segs.len() - i,
        {
            assert(segment_wf(segs[i as int]));
            let ghost base = held_segs_from(segs.take(i as int), from.0);
            if self.segments[i].seq >= from.0 {
                let mut c: usize = 0;
                let ghost ch = segs[i as int].chunks@;
                proof {
                    assert(ch.take(0) =~= Seq::<Option<ChunkBuf>>::empty());
                }
                while c < CHUNKS_PER_SEGMENT as usize
                    invariant
                        segs == self.segments@,
                        i < segs.len(),
                        ch == segs[i as int].chunks@,
                        ch.len() == CHUNKS_PER_SEGMENT,
                        c <= CHUNKS_PER_SEGMENT,
                        manifests_of(base + somes(ch.take(c as int)), out@),
                    decreases CHUNKS_PER_SEGMENT - c,
                {
                    proof {
                        assert(ch.take(c + 1).drop_last() =~= ch.take(c as int));
                        assert(ch.take(c + 1).last() == ch[c as int]);
                    }
                    match &self.segments[i].chunks[c] {
                        Some(cb) => {
                            let ghost before = out@;
                            out.push(Manifest { body: cb.manifest.duplicate(), signature: cb.signature });
                            proof {
                                let want = base + somes(ch.take(c + 1));
                                assert(want =~= (base + somes(ch.take(c as int))).push(*cb));
                                assert forall|k: int| 0 <= k < out@.len() implies body_same((#[trigger] out@[k]).body, want[k].manifest)
                                    && out@[k].signature == want[k].signature by {
                                    if k < before.len() {
                                        assert(out@[k] == before[k]);
                                    }
                                }
                            }
                        },
                        None => {
                            proof {
                                assert(base + somes(ch.take(c + 1)) =~= base + somes(ch.take(c as int)));
                            }
                        },
                    }
                    c = c + 1;
                }
                proof {
                    assert(ch.take(4) =~= ch);
                }
            }
            proof {
                assert(segs.take(i + 1).drop_last() =~= segs.take(i as int));
                assert(segs.take(i + 1).last() == segs[i as int]);
                if segs[i as int].seq < from.0 {
                    assert(held_segs_from(segs.take(i + 1), from.0) =~= base);
                }
            }
            i = i + 1;
        }
        proof {
            assert(segs.take(i as int) =~= segs);
        }
        out
    }

    /// Whether every chunk of `seg` is held and every block of `tree` in it is verified.
    pub fn segment_complete_for_tree(&self, seg: SegmentSeq, tree: TreeId) -> (r: bool)
        requires self.wf(),
        ensures
            r == forall|c: int| 0 <= c < CHUNKS_PER_SEGMENT ==> (#[trigger] self.chunk_view(seg.0, c) matches Some(cb)
                && cb.complete_for_tree_spec(tree)),
    {
        let mut c: u8 = 0;
        while c < CHUNKS_PER_SEGMENT
            invariant
                self.wf(),
                c <= CHUNKS_PER_SEGMENT,
                forall|q: int| 0 <= q < c ==> (#[trigger] self.chunk_view(seg.0, q) matches Some(cb) && cb.complete_for_tree_spec(tree)),
            decreases CHUNKS_PER_SEGMENT - c,
        {
            match self.chunk(seg, c) {
                Some(cb) => {
                    if !cb.complete_for_tree(tree) {
                        return false;
                    }
                },
                None => {
                    return false;
                },
            }
            c = c + 1;
        }
        true
    }

    /// Earliest deadline among the chunks that have not played.
    pub fn next_deadline(&self) -> (r: Option<Instant>)
        requires self.wf(),
        ensures
            match r {
                None => forall|s2: u32, c2: int| #[trigger] self.chunk_view(s2, c2) matches Some(cb) ==> cb.played,
                Some(d) => {
                    &&& exists|s2: u32, c2: int| #[trigger] self.chunk_view(s2, c2) matches Some(cb) && !cb.played && cb.deadline == d
                    &&& forall|s2: u32, c2: int| #[trigger] self.chunk_view(s2, c2) matches Some(cb) ==> (!cb.played ==> d.0 <= cb.deadline.0)
                },
            },
    {
        let ghost segs = self.segments@;
        let ghost keys = seg_keys(segs);
        let mut best: Option<Instant> = None;
        let mut i: usize = 0;
        while i < self.segments.len()
            invariant
                segs == self.segments@,
                keys == seg_keys(segs),
                self.wf(),
                i <= segs.len(),
                match best {
                    None => forall|k: int, c2: int| 0 <= k < i && 0 <= c2 < CHUNKS_PER_SEGMENT ==> (#[trigger] segs[k].chunks@[c2] matches Some(cb) ==> cb.played),
                    Some(d) => {
                        &&& exists|k: int, c2: int| 0 <= k < i && 0 <= c2 < CHUNKS_PER_SEGMENT && (#[trigger] segs[k].chunks@[c2] matches Some(cb) && !cb.played && cb.deadline == d)
                        &&& forall|k: int, c2: int| 0 <= k < i && 0 <= c2 < CHUNKS_PER_SEGMENT ==> (#[trigger] segs[k].chunks@[c2] matches Some(cb) ==> (!cb.played ==> d.0 <= cb.deadline.0))
                    },
                },
            decreases segs.len() - i,
        {
            assert(segment_wf(segs[i as int]));
            let mut c: usize = 0;
            while c < CHUNKS_PER_SEGMENT as usize
                invariant
                    segs == self.segments@,
                    i < segs.len(),
                    segs[i as int].chunks@.len() == CHUNKS_PER_SEGMENT,
                    c <= CHUNKS_PER_SEGMENT,
                    match best {
                        None => forall|k: int, c2: int| 0 <= k < segs.len() && 0 <= c2 < CHUNKS_PER_SEGMENT && (k < i || (k == i && c2 < c))
                            ==> (#[trigger] segs[k].chunks@[c2] matches Some(cb) ==> cb.played),
                        Some(d) => {
                            &&& exists|k: int, c2: int| 0 <= k < segs.len() && 0 <= c2 < CHUNKS_PER_SEGMENT && (k < i || (k == i && c2 < c))
                                && (#[trigger] segs[k].chunks@[c2] matches Some(cb) && !cb.played && cb.deadline == d)
                            &&& forall|k: int, c2: int| 0 <= k < segs.len() && 0 <= c2 < CHUNKS_PER_SEGMENT && (k < i || (k == i && c2 < c))
                                ==> (#[trigger] segs[k].chunks@[c2] matches Some(cb) ==> (!cb.played ==> d.0 <= cb.deadline.0))
                        },
                    },
                decreases CHUNKS_PER_SEGMENT - c,
            {
                match &self.segments[i].chunks[c] {
                    Some(cb) => {
                        if !cb.played {
                            let better = match best {
                                None => true,
                                Some(d) => cb.deadline.0 < d.0,
                            };
                            if better {
                                best = Some(cb.deadline);
                            }
                        }
                    },
                    None => {},
                }
                c = c + 1;
            }
            i = i + 1;
        }
        proof {
            assert forall|s2: u32, c2: int| #[trigger] self.chunk_view(s2, c2) is Some implies {
                let k = find_key(keys, s2, 0);
                0 <= k < segs.len() && 0 <= c2 < CHUNKS_PER_SEGMENT && self.chunk_view(s2, c2) == segs[k].chunks@[c2]
            } by {
                lemma_find_key(keys, s2, 0);
            }
            match best {
                None => {},
                Some(d) => {
                    let (k, c2) = choose|k: int, c2: int| 0 <= k < i && 0 <= c2 < CHUNKS_PER_SEGMENT && (#[trigger] segs[k].chunks@[c2] matches Some(cb) && !cb.played && cb.deadline == d);
                    lemma_find_sorted(keys, segs[k].seq);
                    assert(keys[k] == segs[k].seq);
                    assert(self.chunk_view(segs[k].seq, c2) == segs[k].chunks@[c2]);
                },
            }
        }
        best
    }
}

/// A chunk worth keeping: not yet played, or played less than the
/// retention span ago.
pub open spec fn keeps_chunk(cb: ChunkBuf, now: u64, retain: u64) -> bool {
    !cb.played || sat_sub(now as int, cb.deadline.0 as int) < retain
}

/// A segment is kept while one of its chunk slots is empty or holds a chunk
/// worth keeping.
spec fn seg_kept(b: SegmentBuf, now: u64, retain: u64) -> bool {
    exists|c: int| 0 <= c < CHUNKS_PER_SEGMENT && match #[trigger] b.chunks@[c] {
        None => true,
        Some(cb) => keeps_chunk(cb, now, retain),
    }
}

/// An orphan entry worth keeping: above the played floor and first seen
/// less than four seconds ago.
spec fn orphan_kept(o: OrphanBlock, floor: u32, now: u64) -> bool {
    &&& o.seg > floor
    &&& match o.since {
        Some(t) => sat_sub(now as int, t.0 as int) < 4_000_000,
        None => true,
    }
}

/// The orphan entries worth keeping, in order.
spec fn orphans_kept(o: Seq<OrphanBlock>, floor: u32, now: u64) -> Seq<OrphanBlock>
    decreases o.len(),
{
    if o.len() == 0 {
        o
    } else {
        let rest = orphans_kept(o.drop_last(), floor, now);
        if orphan_kept(o.last(), floor, now) { rest.push(o.last()) } else { rest }
    }
}

proof fn lemma_orphans_kept(o: Seq<OrphanBlock>, floor: u32, now: u64)
    requires orphan_keys(o).no_duplicates(),
    ensures
        orphan_keys(orphans_kept(o, floor, now)).no_duplicates(),
        forall|x: OrphanBlock| orphans_kept(o, floor, now).contains(x) ==> o.contains(x),
    decreases o.len(),
{
    if o.len() > 0 {
        let d = o.drop_last();
        assert(orphan_keys(d) =~= orphan_keys(o).drop_last());
        assert forall|a: int, b: int| 0 <= a < b < orphan_keys(d).len() implies orphan_keys(d)[a] != orphan_keys(d)[b] by {
            assert(orphan_keys(o)[a] != orphan_keys(o)[b]);
        }
        lemma_orphans_kept(d, floor, now);
        let rest = orphans_kept(d, floor, now);
        assert forall|x: OrphanBlock| orphans_kept(o, floor, now).contains(x) implies o.contains(x) by {
            if rest.contains(x) {
                assert(d.contains(x));
                let q = choose|q: int| 0 <= q < d.len() && d[q] == x;
                assert(o[q] == d[q]);
            } else {
                assert(o[o.len() - 1] == x);
            }
        }
        if orphan_kept(o.last(), floor, now) {
            let r2 = rest.push(o.last());
            let lk = (o.last().seg, o.last().index);
            assert(orphan_keys(r2) =~= orphan_keys(rest).push(lk));
            assert forall|a: int| 0 <= a < rest.len() implies orphan_keys(rest)[a] != lk by {
                assert(rest.contains(rest[a]));
                assert(d.contains(rest[a]));
                let q = choose|q: int| 0 <= q < d.len() && d[q] == rest[a];
                assert(orphan_keys(o)[q] == orphan_keys(rest)[a]);
                assert(orphan_keys(o)[o.len() - 1] == lk);
            }
            assert forall|a: int, b: int| 0 <= a < b < orphan_keys(r2).len() implies orphan_keys(r2)[a] != orphan_keys(r2)[b] by {
                if b == r2.len() - 1 {
                } else {
                    assert(orphan_keys(r2)[a] == orphan_keys(rest)[a]);
                    assert(orphan_keys(r2)[b] == orphan_keys(rest)[b]);
                }
            }
        }
    }
}


/// `new` lists the segments of `old` that are kept, in order, `idx` giving
/// each one's position in `old`.
spec fn filtered(old: Seq<SegmentBuf>, new: Seq<SegmentBuf>, idx: Seq<int>, upto: int, now: u64, retain: u64) -> bool {
    &&& idx.len() == new.len()
    &&& forall|m: int| 0 <= m < new.len() ==> 0 <= #[trigger] idx[m] < upto && new[m] == old[idx[m]] && seg_kept(old[idx[m]], now, retain)
    &&& forall|a: int, b: int| 0 <= a < b < idx.len() ==> idx[a] < idx[b]
    &&& forall|k: int| 0 <= k < upto && seg_kept(#[trigger] old[k], now, retain) ==> idx.contains(k)
}

/// Keep the segments that have an empty slot or a chunk worth keeping.
fn filter_segments(rest: Vec<SegmentBuf>, now: Instant, retain: u64) -> (r: (Vec<SegmentBuf>, Ghost<Seq<int>>))
    requires forall|k: int| 0 <= k < rest@.len() ==> (#[trigger] rest@[k]).chunks@.len() == CHUNKS_PER_SEGMENT,
    ensures filtered(rest@, r.0@, r.1@, rest@.len() as int, now.0, retain),
{
    let ghost old_segs = rest@;
    let mut rest = rest;
    let n = rest.len();
    let mut kept: Vec<SegmentBuf> = Vec::new();
    let ghost mut idx: Seq<int> = Seq::empty();
    let mut i: usize = 0;
    while i < n
        invariant
            n == old_segs.len(),
            i <= n,
            rest@ == old_segs.skip(i as int),
            filtered(old_segs, kept@, idx, i as int, now.0, retain),
            forall|k: int| 0 <= k < old_segs.len() ==> (#[trigger] old_segs[k]).chunks@.len() == CHUNKS_PER_SEGMENT,
        decreases n - i,
    {
        let b = rest.remove(0);
        proof {
            assert(b == old_segs[i as int]);
            assert(rest@ =~= old_segs.skip(i + 1));
        }
        let mut keep = false;
        let mut c: usize = 0;
        while c < CHUNKS_PER_SEGMENT as usize
            invariant
                b.chunks@.len() == CHUNKS_PER_SEGMENT,
                c <= CHUNKS_PER_SEGMENT,
                keep ==> seg_kept(b, now.0, retain),
                !keep ==> forall|q: int| 0 <= q < c && q < CHUNKS_PER_SEGMENT ==> !(match #[trigger] b.chunks@[q] {
                    None => true,
                    Some(cb) => keeps_chunk(cb, now.0, retain),
                }),
            decreases CHUNKS_PER_SEGMENT - c,
        {
            let k = match &b.chunks[c] {
                Some(cb) => !cb.played || now.duration_since(cb.deadline).0 < retain,
                None => true,
            };
            proof {
                if k {
                    assert(match b.chunks@[c as int] {
                        None => true,
                        Some(cb) => keeps_chunk(cb, now.0, retain),
                    });
                }
            }
            keep = keep || k;
            c = c + 1;
        }
        let ghost last_i = i as int;
        if keep {
            kept.push(b);
            proof {
                let old_idx = idx;
                idx = idx.push(last_i);
                assert forall|k: int| 0 <= k < i + 1 && seg_kept(#[trigger] old_segs[k], now.0, retain) implies idx.contains(k) by {
                    if k == i {
                        assert(idx[idx.len() - 1] == k);
                    } else {
                        let q = choose|q: int| 0 <= q < old_idx.len() && old_idx[q] == k;
                        assert(idx[q] == k);
                    }
                }
            }
        } else {
            proof {
                assert(!seg_kept(b, now.0, retain));
            }
        }
        i = i + 1;
    }
    (kept, Ghost(idx))
}

proof fn lemma_filtered_view(old: Seq<SegmentBuf>, new: Seq<SegmentBuf>, idx: Seq<int>, now: u64, retain: u64)
    requires
        filtered(old, new, idx, old.len() as int, now, retain),
        strictly_sorted(seg_keys(old)),
        forall|k: int| 0 <= k < old.len() ==> segment_wf(#[trigger] old[k]),
    ensures
        strictly_sorted(seg_keys(new)),
        forall|k: int| 0 <= k < new.len() ==> segment_wf(#[trigger] new[k]),
        forall|s: u32, c: int| #[trigger] view_of(new, s, c) == ({
            let k = find_key(seg_keys(old), s, 0);
            if k >= 0 && seg_kept(old[k], now, retain) { view_of(old, s, c) } else { None }
        }),
        forall|s: u32| #[trigger] seg_keys(new).contains(s) == ({
            let k = find_key(seg_keys(old), s, 0);
            k >= 0 && seg_kept(old[k], now, retain)
        }),
{
    let keys = seg_keys(old);
    let nk = seg_keys(new);
    assert forall|a: int, b: int| 0 <= a < b < nk.len() implies nk[a] < nk[b] by {
        assert(nk[a] == old[idx[a]].seq);
        assert(nk[b] == old[idx[b]].seq);
        assert(keys[idx[a]] < keys[idx[b]]);
    }
    assert forall|k: int| 0 <= k < new.len() implies segment_wf(#[trigger] new[k]) by {
        assert(new[k] == old[idx[k]]);
    }
    assert forall|s: u32| #[trigger] nk.contains(s) == ({
        let k = find_key(keys, s, 0);
        k >= 0 && seg_kept(old[k], now, retain)
    }) by {
        lemma_find_sorted(keys, s);
        lemma_find_key(keys, s, 0);
        let k = find_key(keys, s, 0);
        if nk.contains(s) {
            let m = choose|m: int| 0 <= m < nk.len() && nk[m] == s;
            assert(new[m] == old[idx[m]]);
            assert(keys[idx[m]] == s);
        }
        if k >= 0 && seg_kept(old[k], now, retain) {
            assert(idx.contains(k));
            let m = choose|m: int| 0 <= m < idx.len() && idx[m] == k;
            assert(nk[m] == keys[k]);
        }
    }
    assert forall|s: u32, c: int| #[trigger] view_of(new, s, c) == ({
        let k = find_key(keys, s, 0);
        if k >= 0 && seg_kept(old[k], now, retain) { view_of(old, s, c) } else { None }
    }) by {
        lemma_find_sorted(keys, s);
        lemma_find_sorted(nk, s);
        lemma_find_key(keys, s, 0);
        lemma_find_key(nk, s, 0);
        let k = find_key(keys, s, 0);
        assert(nk.contains(s) == (k >= 0 && seg_kept(old[k], now, retain)));
        if k >= 0 && seg_kept(old[k], now, retain) {
            let m = choose|m: int| 0 <= m < nk.len() && nk[m] == s;
            assert(new[m] == old[idx[m]]);
            assert(keys[idx[m]] == s);
            assert(idx[m] == k);
        } else {
            if find_key(nk, s, 0) >= 0 {
                assert(nk.contains(s));
            }
        }
    }
}

impl SwarmBuffer {
    /// Whether segment `s` survives collection at `now`: some chunk slot of
    /// it is empty or holds a chunk not played or played within the
    /// retention span. (A segment not held has nothing to keep.)
    pub open spec fn segment_kept(&self, s: u32, now: u64) -> bool {
        exists|c: int| 0 <= c < CHUNKS_PER_SEGMENT && match #[trigger] self.chunk_view(s, c) {
            None => true,
            Some(cb) => keeps_chunk(cb, now, self.timing_spec().2),
        }
    }

    /// The orphan keys that survive collection at `now`.
    pub closed spec fn orphan_keys_kept(&self, now: u64) -> Seq<(u32, u16)> {
        orphan_keys(orphans_kept(self.orphans@, self.played_through.0, now))
    }

    /// Drop segments beyond the retention window and stale orphans.
    pub fn gc(&mut self, now: Instant)
        requires old(self).wf(),
        ensures
            final(self).wf(),
            same_meta(old(self), final(self)),
            forall|s2: u32, c2: int| old(self).segment_keys().contains(s2) ==> #[trigger] final(self).chunk_view(s2, c2)
                == if old(self).segment_kept(s2, now.0) { old(self).chunk_view(s2, c2) } else { None },
            forall|s2: u32, c2: int| !old(self).segment_keys().contains(s2) ==> #[trigger] final(self).chunk_view(s2, c2) is None,
            forall|s2: u32| #[trigger] final(self).segment_keys().contains(s2)
                == (old(self).segment_keys().contains(s2) && old(self).segment_kept(s2, now.0)),
            final(self).orphan_keys_spec() == old(self).orphan_keys_kept(now.0),
    {
        let retain = self.retain.0;
        let mut rest: Vec<SegmentBuf> = Vec::new();
        std::mem::swap(&mut rest, &mut self.segments);
        let ghost old_segs = rest@;
        proof {
            assert forall|k: int| 0 <= k < old_segs.len() implies (#[trigger] old_segs[k]).chunks@.len() == CHUNKS_PER_SEGMENT by {
                assert(segment_wf(old(self).segments@[k]));
            }
        }
        let (kept, Ghost(idx)) = filter_segments(rest, now, retain);
        proof {
            lemma_filtered_view(old_segs, kept@, idx, now.0, retain);
        }
        self.segments = kept;
        proof {
            let keys = seg_keys(old_segs);
            assert forall|s2: u32| keys.contains(s2) implies ({
                let k = find_key(keys, s2, 0);
                k >= 0 && (seg_kept(old_segs[k], now.0, retain) == old(self).segment_kept(s2, now.0))
            }) by {
                lemma_find_sorted(keys, s2);
                lemma_find_key(keys, s2, 0);
                let k = find_key(keys, s2, 0);
                let j = choose|j: int| 0 <= j < keys.len() && keys[j] == s2;
                assert(k == j);
                assert forall|c: int| 0 <= c < CHUNKS_PER_SEGMENT implies #[trigger] old(self).chunk_view(s2, c) == old_segs[k].chunks@[c] by {}
                if seg_kept(old_segs[k], now.0, retain) {
                    let c = choose|c: int| 0 <= c < CHUNKS_PER_SEGMENT && match #[trigger] old_segs[k].chunks@[c] {
                        None => true,
                        Some(cb) => keeps_chunk(cb, now.0, retain),
                    };
                    assert(old(self).chunk_view(s2, c) == old_segs[k].chunks@[c]);
                }
                if old(self).segment_kept(s2, now.0) {
                    let c = choose|c: int| 0 <= c < CHUNKS_PER_SEGMENT && match #[trigger] old(self).chunk_view(s2, c) {
                        None => true,
                        Some(cb) => keeps_chunk(cb, now.0, old(self).timing_spec().2),
                    };
                    assert(old(self).chunk_view(s2, c) == old_segs[k].chunks@[c]);
                }
            }
            assert forall|s2: u32| !keys.contains(s2) implies find_key(keys, s2, 0) < 0 by {
                lemma_find_key(keys, s2, 0);
                if find_key(keys, s2, 0) >= 0 {
                    assert(keys[find_key(keys, s2, 0)] == s2);
                }
            }
        }
        let floor = self.played_through.0;
        let mut orest: Vec<OrphanBlock> = Vec::new();
        std::mem::swap(&mut orest, &mut self.orphans);
        let ghost old_orph = orest@;
        let on = orest.len();
        let mut okept: Vec<OrphanBlock> = Vec::new();
        let mut k: usize = 0;
        proof {
            assert(old_orph.take(0) =~= Seq::<OrphanBlock>::empty());
        }
        while k < on
            invariant
                on == old_orph.len(),
                k <= on,
                orest@ == old_orph.skip(k as int),
                okept@ == orphans_kept(old_orph.take(k as int), floor, now.0),
                floor == old(self).played_through.0,
            decreases on - k,
        {
            let o = orest.remove(0);
            proof {
                assert(o == old_orph[k as int]);
                assert(orest@ =~= old_orph.skip(k + 1));
                assert(old_orph.take(k + 1).drop_last() =~= old_orph.take(k as int));
                assert(old_orph.take(k + 1).last() == o);
            }
            let fresh = match o.since {
                Some(t) => now.duration_since(t).0 < 4_000_000,
                None => true,
            };
            if o.seg > floor && fresh {
                okept.push(o);
            }
            k = k + 1;
        }
        proof {
            assert(old_orph.take(on as int) =~= old_orph);
            lemma_orphans_kept(old_orph, floor, now.0);
            assert forall|q: int| 0 <= q < okept@.len() implies (#[trigger] okept@[q]).symbols@.len() <= 64 by {
                assert(okept@.contains(okept@[q]));
                assert(old_orph.contains(okept@[q]));
                let x = choose|x: int| 0 <= x < old_orph.len() && old_orph[x] == okept@[q];
                assert(old(self).orphans@[x].symbols@.len() <= 64);
            }
        }
        self.orphans = okept;
    }
}

/// Law: once a manifest is admitted, any manifest for the same chunk is a
/// duplicate (and so is never penalised), whoever signed it.
pub proof fn lemma_admitted_then_duplicate(
    a: &SwarmBuffer,
    b: &SwarmBuffer,
    body: ManifestBody,
    signature: SignatureBytes,
    trees: Seq<crate::media::mapping::TreeInfo>,
    now: Instant,
    m2: Manifest,
    publisher: PublicKeyBytes,
    version: u8,
)
    requires
        admitted(a, b, body, signature, trees, now, None),
        body.segment.0 != 0,
        body.chunk_index < CHUNKS_PER_SEGMENT,
        m2.body.segment == body.segment,
        m2.body.chunk_index == body.chunk_index,
    ensures
        manifest_verdict(b, m2, publisher, version) == ManifestVerdict::Duplicate,
{
}

/// The sixteen source slices of a block, as a collector holding them all sees them.
pub open spec fn all_source_slices(block: Seq<u8>) -> Seq<Option<Seq<u8>>> {
    Seq::new(K_BLOCK as nat, |i: int| Some(block.subrange(i * SYMBOL_SIZE, (i + 1) * SYMBOL_SIZE)))
}

proof fn lemma_some_count_full(s: Seq<Option<Seq<u8>>>)
    requires forall|k: int| 0 <= k < s.len() ==> (#[trigger] s[k]) is Some,
    ensures some_count(s) == s.len(),
    decreases s.len(),
{
    if s.len() > 0 {
        lemma_some_count_full(s.drop_last());
    }
}

/// Law: a pending block that holds all sixteen source slices of block `j` of
/// a published chunk, with the sibling path the publisher hands out for it,
/// verifies; verification yields exactly the published block, without
/// decoding.
pub proof fn lemma_published_block_verifies(
    built: BuiltChunk,
    j: nat,
    cb: ChunkBuf,
    nb: ChunkBuf,
    seg: SegmentSeq,
    idx: BlockIndex,
    r: Result<Option<VerifiedBlock>, (MediaError, Option<NodeId>)>,
)
    requires
        built.wf(),
        j < built.blocks@.len(),
        built.blocks@[j as int]@.len() == BLOCK_SIZE,
        built.manifest.body.chunk_index < 16,
        body_same(cb.manifest, built.manifest.body),
        idx.0 == built.manifest.body.chunk_index * 4096 + j,
        j < cb.tree_of@.len(),
        j < cb.blocks@.len(),
        cb.blocks@[j as int] matches BlockSlot::Pending { collector, proof: Some((sib, _, _)), .. }
            && collector.source_view() == all_source_slices(built.blocks@[j as int]@)
            && digests(sib@) == merkle_path(built.tree.leaves_spec(), j),
        try_verify_outcome(cb, nb, seg, idx, r),
    ensures
        r matches Ok(Some(vb)) && vb.bytes@ == built.blocks@[j as int]@ && !vb.decoded,
        slot_bytes(nb.blocks@[j as int]) == Some(built.blocks@[j as int]@),
{
    let block = built.blocks@[j as int]@;
    let x = built.manifest.body.chunk_index * 4096 + j;
    assert(x < 65536);
    assert((idx.0 % 4096) as int == j) by (nonlinear_arith)
        requires idx.0 == x, x == built.manifest.body.chunk_index * 4096 + j, j < 4096, x < 65536;
    lemma_built_blocks_verify(built, j);
    assert(idx == BlockIndex(x as u16));
    lemma_source_slices_concat(block);
    let c = cb.blocks@[j as int]->Pending_collector;
    lemma_some_count_full(all_source_slices(block));
    assert(some_count(c.source_view()) == K_BLOCK);
    assert(c.count_spec() >= K_BLOCK);
    assert(decode_spec(c) == Ok::<Seq<u8>, MediaError>(block));
}

} // verus!
