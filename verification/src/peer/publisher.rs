//! The source side: builds signed chunks and keeps what the stream record
//! advertises about the live edge.
use vstd::prelude::*;
use crate::crypto::identity::{node_seed, node_seed_spec, Identity};
use crate::crypto::lzb;
use crate::crypto::pow::{nonce_at, static_spec, Difficulty};
use crate::crypto::stream_id;
use crate::peer::params::Params;
use crate::crypto::signing::{ed25519_public, ed25519_signature, verify_result, Verifier};
use crate::crypto::hashing::blake3_spec;
use crate::media::chunk::{built_from, chunk_blocks, views, BuiltChunk, ChunkBuilder, LayeredChunk};
use crate::media::ladder::{rates_of, Ladder};
use crate::media::mapping::{allocated, bundles_fit, entries_of, rebuilt_trees, SlicingMatrix};
use crate::media::manifest::TreeMappingEntry;
use crate::time::Instant;
use crate::media::MediaError;
use crate::wire::{
    push_bytes, push_u16_be, push_u32_be, push_u64_be, u16_be, u32_be, u64_be, Digest, PublicKeyBytes, SegmentSeq,
    SignatureBytes, StreamId, MAX_BLOCKS_PER_CHUNK, MAX_TREES,
};

verus! {

/// How the stream's layers are cut.
#[derive(Debug, Clone, Copy, PartialEq, Eq, Structural)]
pub enum SlicingMode {
    /// Spatial scalable layers (one resolution per layer).
    SvcSpatial,
}

/// The signed record a publisher registers with discovery.
#[derive(Debug, Clone, PartialEq, Eq)]
pub struct StreamRecord {
    /// Publisher key.
    pub publisher_pubkey: PublicKeyBytes,
    /// Record version, increasing on every republish.
    pub manifest_version: u32,
    /// Layer slicing.
    pub slicing_mode: SlicingMode,
    /// Log2 of the registration sampling rate.
    pub register_sample_log2: u8,
    /// Swarm size estimate.
    pub swarm_size: u32,
    /// Relay count estimate.
    pub relay_count: u32,
    /// Newest segment emitted.
    pub live_edge_segment: SegmentSeq,
    /// Manifest root of the newest chunk.
    pub live_edge_manifest_hash: Digest,
    /// Its timestamp.
    pub live_edge_timestamp_us: u64,
    /// Segment from which `trees_next` applies (none: no change pending).
    pub effective_segment: SegmentSeq,
    /// Tree mapping in force.
    pub trees: Vec<TreeMappingEntry>,
    /// Tree mapping about to take over.
    pub trees_next: Vec<TreeMappingEntry>,
    /// Publisher signature over the bytes before it.
    pub signature: SignatureBytes,
}

/// The bytes of a tree-mapping entry.
pub open spec fn entry_bytes(e: TreeMappingEntry) -> Seq<u8> {
    seq![e.tree_id.0, e.layer, e.stripe_index, e.stripe_count, e.priority] + u16_be(e.bitrate_kbps)
}

/// Tree-mapping entries back to back.
pub open spec fn entries_bytes(es: Seq<TreeMappingEntry>) -> Seq<u8>
    decreases es.len(),
{
    if es.len() == 0 { Seq::empty() } else { entries_bytes(es.drop_last()) + entry_bytes(es.last()) }
}

/// The bytes a publisher signs: every field before the signature, in order,
/// integers big-endian, each mapping preceded by its entry count.
pub open spec fn record_bytes(r: StreamRecord) -> Seq<u8> {
    r.publisher_pubkey.0@ + u32_be(r.manifest_version) + seq![0u8, r.register_sample_log2]
        + u32_be(r.swarm_size) + u32_be(r.relay_count) + u32_be(r.live_edge_segment.0)
        + r.live_edge_manifest_hash.0@ + u64_be(r.live_edge_timestamp_us) + u32_be(r.effective_segment.0)
        + seq![r.trees@.len() as u8] + entries_bytes(r.trees@)
        + seq![r.trees_next@.len() as u8] + entries_bytes(r.trees_next@)
}

fn push_entries(out: &mut Vec<u8>, es: &Vec<TreeMappingEntry>)
    ensures final(out)@ == old(out)@ + seq![es@.len() as u8] + entries_bytes(es@),
{
    out.push(es.len() as u8);
    let ghost head = out@;
    let mut i: usize = 0;
    while i < es.len()
        invariant
            i <= es@.len(),
            out@ == head + entries_bytes(es@.take(i as int)),
        decreases es@.len() - i,
    {
        assert(es@.take(i + 1).drop_last() =~= es@.take(i as int));
        let e = es[i];
        out.push(e.tree_id.0);
        out.push(e.layer);
        out.push(e.stripe_index);
        out.push(e.stripe_count);
        out.push(e.priority);
        push_u16_be(out, e.bitrate_kbps);
        assert(out@ =~= head + entries_bytes(es@.take(i + 1)));
        i = i + 1;
    }
    assert(es@.take(es@.len() as int) =~= es@);
}

/// Whether two stream records hold the same fields.
pub open spec fn record_same(a: StreamRecord, b: StreamRecord) -> bool {
    &&& a.publisher_pubkey == b.publisher_pubkey
    &&& a.manifest_version == b.manifest_version
    &&& a.slicing_mode == b.slicing_mode
    &&& a.register_sample_log2 == b.register_sample_log2
    &&& a.swarm_size == b.swarm_size
    &&& a.relay_count == b.relay_count
    &&& a.live_edge_segment == b.live_edge_segment
    &&& a.live_edge_manifest_hash == b.live_edge_manifest_hash
    &&& a.live_edge_timestamp_us == b.live_edge_timestamp_us
    &&& a.effective_segment == b.effective_segment
    &&& a.trees@ == b.trees@
    &&& a.trees_next@ == b.trees_next@
    &&& a.signature == b.signature
}

/// The highest `layer + 1` among the entries (0 for none).
pub open spec fn highest_layer_plus_one(es: Seq<TreeMappingEntry>) -> u8
    decreases es.len(),
{
    if es.len() == 0 {
        0
    } else {
        let rest = highest_layer_plus_one(es.drop_last());
        let l = (es.last().layer + 1) as u8;
        if l > rest { l } else { rest }
    }
}

/// How many layers a tree mapping names: one more than its highest layer,
/// and one when it names none.
pub open spec fn layers_named(es: Seq<TreeMappingEntry>) -> u8 {
    if es.len() == 0 { 1 } else { highest_layer_plus_one(es) }
}

/// A copy of a list of tree-mapping entries.
fn copy_entries(es: &Vec<TreeMappingEntry>) -> (r: Vec<TreeMappingEntry>)
    ensures r@ == es@,
{
    let mut out: Vec<TreeMappingEntry> = Vec::new();
    let mut i: usize = 0;
    while i < es.len()
        invariant
            i <= es.len(),
            out@ == es@.take(i as int),
        decreases es.len() - i,
    {
        out.push(es[i]);
        assert(out@ =~= es@.take(i + 1));
        i = i + 1;
    }
    assert(es@.take(es@.len() as int) =~= es@);
    out
}

impl StreamRecord {
    /// A copy of this record.
    pub fn duplicate(&self) -> (r: StreamRecord)
        ensures record_same(r, *self),
    {
        StreamRecord {
            publisher_pubkey: self.publisher_pubkey,
            manifest_version: self.manifest_version,
            slicing_mode: self.slicing_mode,
            register_sample_log2: self.register_sample_log2,
            swarm_size: self.swarm_size,
            relay_count: self.relay_count,
            live_edge_segment: self.live_edge_segment,
            live_edge_manifest_hash: self.live_edge_manifest_hash,
            live_edge_timestamp_us: self.live_edge_timestamp_us,
            effective_segment: self.effective_segment,
            trees: copy_entries(&self.trees),
            trees_next: copy_entries(&self.trees_next),
            signature: self.signature,
        }
    }

    /// Whether this record is authentic for `stream`: its key hashes to the
    /// stream id (a stream is named by its publisher's key) and its signature
    /// verifies under that key. Discovery hands records on unchecked; a peer
    /// adopts one only when this holds.
    pub fn authentic(&self, stream: &StreamId) -> (r: bool)
        ensures
            r == (verify_result(self.publisher_pubkey.0@, record_bytes(*self), self.signature.0@) is Ok && blake3_spec(
                self.publisher_pubkey.0@,
            ) == stream.0@),
    {
        let signed = Verifier::verify(&self.publisher_pubkey, self.signable_bytes().as_slice(), &self.signature).is_ok();
        let named = stream_id(&self.publisher_pubkey);
        let same = named.same(stream);
        proof {
            if blake3_spec(self.publisher_pubkey.0@) == stream.0@ {
                assert(named.0@ == stream.0@);
                assert(named.0 =~= stream.0);
            }
        }
        signed && same
    }

    /// The slicing matrix this record publishes: its tree mapping over as many
    /// layers as the highest layer it names (one when it names none), at
    /// matrix version 1, the version the first manifests carry.
    pub fn matrix(&self) -> (r: SlicingMatrix)
        requires
            forall|i: int| 0 <= i < self.trees@.len() ==> (#[trigger] self.trees@[i]).layer < 255,
        ensures
            r.version == 1,
            r.layer_count == layers_named(self.trees@),
            r.trees@ == rebuilt_trees(self.trees@, layers_named(self.trees@)),
    {
        let mut top: u8 = 0;
        let mut i: usize = 0;
        while i < self.trees.len()
            invariant
                i <= self.trees@.len(),
                forall|k: int| 0 <= k < self.trees@.len() ==> (#[trigger] self.trees@[k]).layer < 255,
                top == highest_layer_plus_one(self.trees@.take(i as int)),
            decreases self.trees@.len() - i,
        {
            proof {
                assert(self.trees@.take(i + 1).drop_last() =~= self.trees@.take(i as int));
            }
            let l = self.trees[i].layer + 1;
            if l > top {
                top = l;
            }
            i = i + 1;
        }
        proof {
            assert(self.trees@.take(self.trees@.len() as int) =~= self.trees@);
        }
        let layer_count = if self.trees.len() == 0 { 1 } else { top };
        let version: u8 = if self.manifest_version > 255 { 255 } else { self.manifest_version as u8 };
        let m = SlicingMatrix::from_entries(version, self.trees.as_slice(), layer_count);
        SlicingMatrix { version: 1, trees: m.trees, layer_count: m.layer_count }
    }

    /// The bytes the publisher signs.
    pub fn signable_bytes(&self) -> (r: Vec<u8>)
        ensures r@ == record_bytes(*self),
    {
        let mut v: Vec<u8> = Vec::new();
        push_bytes(&mut v, self.publisher_pubkey.0.as_slice());
        push_u32_be(&mut v, self.manifest_version);
        v.push(0);
        v.push(self.register_sample_log2);
        push_u32_be(&mut v, self.swarm_size);
        push_u32_be(&mut v, self.relay_count);
        push_u32_be(&mut v, self.live_edge_segment.0);
        push_bytes(&mut v, self.live_edge_manifest_hash.0.as_slice());
        push_u64_be(&mut v, self.live_edge_timestamp_us);
        push_u32_be(&mut v, self.effective_segment.0);
        push_entries(&mut v, &self.trees);
        push_entries(&mut v, &self.trees_next);
        assert(v@ =~= record_bytes(*self));
        v
    }
}

/// The stream id of a publisher run with `seed` on UDP `port`: Blake3 of the
/// public key its node seed determines. `spec_pow` selects the
/// specification's puzzle difficulty over the simulation's. `None` only when
/// no static nonce meets that difficulty.
pub fn publisher_stream_id(seed: u64, port: u16, spec_pow: bool) -> (r: Option<StreamId>)
    ensures
        r matches Some(sid) ==> sid.0@ == blake3_spec(ed25519_public(node_seed_spec(seed, port))),
        r is None ==> forall|u: int| 0 <= u < 0x1_0000_0000_0000_0000 ==> lzb(#[trigger] static_spec(ed25519_public(node_seed_spec(seed, port)), nonce_at(0, u)))
            < if spec_pow { 16u32 } else { 4u32 },
{
    let p = if spec_pow { Params::default() } else { Params::for_simulation() };
    match Identity::from_seed(node_seed(seed, port), Difficulty { c1: p.c1, c2_min: p.c2_min }) {
        Some(id) => Some(stream_id(&id.public_key())),
        None => None,
    }
}

/// Publisher state.
pub struct Publisher {
    builder: ChunkBuilder,
    identity: Identity,
    ladder: Ladder,
    matrix: SlicingMatrix,
    record_version: u32,
    last_segment: SegmentSeq,
    last_root: Digest,
    last_ts_us: u64,
}

impl Publisher {
    /// The builder signs as this publisher's identity, for the matrix in force.
    pub closed spec fn wf(&self) -> bool {
        &&& self.identity.wf()
        &&& self.builder.wf()
        &&& self.builder.seed_spec() == self.identity.seed_spec()
        &&& self.builder.stream_id_spec().0@ == blake3_spec(ed25519_public(self.identity.seed_spec()))
        &&& self.builder.matrix_version_spec() == self.matrix.version
    }

    /// The publisher's secret seed.
    pub closed spec fn seed_spec(&self) -> Seq<u8> {
        self.identity.seed_spec()
    }

    /// Ladder in use.
    pub closed spec fn ladder_spec(&self) -> Ladder {
        self.ladder
    }

    /// Matrix in force.
    pub closed spec fn matrix_spec(&self) -> SlicingMatrix {
        self.matrix
    }

    /// Record version, bumped on every republish.
    pub closed spec fn record_version_spec(&self) -> u32 {
        self.record_version
    }

    /// `(last segment emitted, its manifest root, its timestamp)`.
    pub closed spec fn live_edge_spec(&self) -> (SegmentSeq, Digest, u64) {
        (self.last_segment, self.last_root, self.last_ts_us)
    }

    /// Ladder in use.
    pub fn ladder(&self) -> (r: &Ladder)
        ensures *r == self.ladder_spec(),
    {
        &self.ladder
    }

    /// Matrix in force.
    pub fn matrix(&self) -> (r: &SlicingMatrix)
        ensures *r == self.matrix_spec(),
    {
        &self.matrix
    }

    /// Record version.
    pub fn record_version(&self) -> (r: u32)
        ensures r == self.record_version_spec(),
    {
        self.record_version
    }

    /// Last segment emitted.
    pub fn last_segment(&self) -> (r: SegmentSeq)
        ensures r == self.live_edge_spec().0,
    {
        self.last_segment
    }

    /// Manifest root of the last chunk.
    pub fn last_root(&self) -> (r: Digest)
        ensures r == self.live_edge_spec().1,
    {
        self.last_root
    }

    /// Last emitted chunk's timestamp.
    pub fn last_ts_us(&self) -> (r: u64)
        ensures r == self.live_edge_spec().2,
    {
        self.last_ts_us
    }

    /// New publisher for `identity` with forest size `m`: the matrix is
    /// allocated at version 1; nothing has been emitted yet.
    pub fn new(identity: Identity, ladder: Ladder, m: u8) -> (r: Result<Publisher, MediaError>)
        requires
            identity.wf(),
            (1 <= m <= MAX_TREES && (m as int) < ladder.layers@.len()) ==> bundles_fit(rates_of(ladder.layers@), m - 1),
        ensures
            (m == 0 || ladder.layers@.len() == 0)
                ==> (r matches Err(MediaError::Mapping(msg)) && msg@ == "M and L must be >= 1"@),
            (m > MAX_TREES && ladder.layers@.len() >= 1)
                ==> (r matches Err(MediaError::Mapping(msg)) && msg@ == "M exceeds 8 trees"@),
            (1 <= m <= MAX_TREES && ladder.layers@.len() >= 1) ==> (r matches Ok(p) && {
                &&& p.wf()
                &&& p.seed_spec() == identity.seed_spec()
                &&& allocated(1, m, rates_of(ladder.layers@), p.matrix_spec())
                &&& p.ladder_spec() == ladder
                &&& p.record_version_spec() == 0
                &&& p.live_edge_spec().0.0 == 0
                &&& p.live_edge_spec().1.0@ == Seq::new(32, |i: int| 0u8)
                &&& p.live_edge_spec().2 == 0
            }),
    {
        let matrix = match SlicingMatrix::allocate(1, m, &ladder) {
            Ok(mx) => mx,
            Err(e) => return Err(e),
        };
        let builder = ChunkBuilder::new(identity.duplicate(), matrix.version);
        let last_root = Digest::zero();
        Ok(Publisher {
            builder,
            identity,
            ladder,
            matrix,
            record_version: 0,
            last_segment: SegmentSeq::none(),
            last_root,
            last_ts_us: 0,
        })
    }

    /// Cut, hash and sign a chunk; on success the live edge moves to it.
    pub fn build(&mut self, chunk: &LayeredChunk) -> (r: Result<BuiltChunk, MediaError>)
        requires old(self).wf(),
        ensures
            final(self).wf(),
            final(self).seed_spec() == old(self).seed_spec(),
            final(self).matrix_spec() == old(self).matrix_spec(),
            final(self).ladder_spec() == old(self).ladder_spec(),
            final(self).record_version_spec() == old(self).record_version_spec(),
            chunk_blocks(views(chunk.layers@)).len() > MAX_BLOCKS_PER_CHUNK ==> {
                &&& r == Err::<BuiltChunk, MediaError>(MediaError::TooManyBlocks {
                    blocks: chunk_blocks(views(chunk.layers@)).len() as usize,
                })
                &&& final(self).live_edge_spec() == old(self).live_edge_spec()
            },
            chunk_blocks(views(chunk.layers@)).len() <= MAX_BLOCKS_PER_CHUNK ==> (r matches Ok(b) && {
                &&& built_from(old(self).seed_spec(), old(self).stream_id_spec(), old(self).matrix_spec().version, *chunk, b)
                &&& final(self).live_edge_spec() == (chunk.segment, b.manifest.body.merkle_root, chunk.timestamp_us)
            }),
    {
        let built = match self.builder.build(chunk) {
            Ok(b) => b,
            Err(e) => return Err(e),
        };
        self.last_segment = chunk.segment;
        self.last_root = built.manifest.body.merkle_root;
        self.last_ts_us = chunk.timestamp_us;
        Ok(built)
    }

    /// The signed stream record for discovery: the version bumped, the live
    /// edge, the mapping in force, no pending mapping, signed with the
    /// publisher key.
    pub fn stream_record(&mut self, swarm_size: u32, relay_count: u32, now: Instant) -> (r: StreamRecord)
        requires old(self).wf(), old(self).record_version_spec() < u32::MAX,
        ensures
            final(self).wf(),
            final(self).seed_spec() == old(self).seed_spec(),
            final(self).matrix_spec() == old(self).matrix_spec(),
            final(self).ladder_spec() == old(self).ladder_spec(),
            final(self).live_edge_spec() == old(self).live_edge_spec(),
            final(self).record_version_spec() == old(self).record_version_spec() + 1,
            r.publisher_pubkey.0@ == ed25519_public(old(self).seed_spec()),
            r.manifest_version == final(self).record_version_spec(),
            r.slicing_mode == SlicingMode::SvcSpatial,
            r.register_sample_log2 == 0,
            r.swarm_size == swarm_size,
            r.relay_count == relay_count,
            r.live_edge_segment == old(self).live_edge_spec().0,
            r.live_edge_manifest_hash == old(self).live_edge_spec().1,
            r.live_edge_timestamp_us == old(self).live_edge_spec().2,
            r.effective_segment.0 == 0,
            r.trees@ == entries_of(old(self).matrix_spec().trees@),
            r.trees_next@.len() == 0,
            r.signature.0@ == ed25519_signature(old(self).seed_spec(), record_bytes(r)),
    {
        self.record_version = self.record_version + 1;
        let mut r = StreamRecord {
            publisher_pubkey: self.identity.public_key(),
            manifest_version: self.record_version,
            slicing_mode: SlicingMode::SvcSpatial,
            register_sample_log2: 0,
            swarm_size,
            relay_count,
            live_edge_segment: self.last_segment,
            live_edge_manifest_hash: self.last_root,
            live_edge_timestamp_us: self.last_ts_us,
            effective_segment: SegmentSeq::none(),
            trees: self.matrix.to_entries(),
            trees_next: Vec::new(),
            signature: SignatureBytes::zero(),
        };
        let pre = r.signable_bytes();
        r.signature = self.identity.sign(pre.as_slice());
        r
    }

    /// The stream id chunks are built under.
    pub closed spec fn stream_id_spec(&self) -> StreamId {
        self.builder.stream_id_spec()
    }

    /// Stream id: the Blake3 hash of the publisher's public key.
    pub fn stream_id(&self) -> (r: StreamId)
        requires self.wf(),
        ensures r.0@ == blake3_spec(ed25519_public(self.seed_spec())),
    {
        self.builder.stream_id()
    }
}

} // verus!
