//! The signed per-chunk manifest, block proofs, symbols and tree-mapping entries.
use vstd::prelude::*;
use crate::wire::{
    push_bytes, push_u16_be, push_u32_be, push_u64_be, u16_be, u32_be, u64_be, BlockIndex, Digest,
    SegmentSeq, SignatureBytes, StreamId, TreeId, K_BLOCK,
};

verus! {

/// The signed part of a manifest.
#[derive(Debug, Clone, PartialEq, Eq)]
pub struct ManifestBody {
    /// Stream.
    pub stream_id: StreamId,
    /// Segment (starts at 1).
    pub segment: SegmentSeq,
    /// Chunk within the segment.
    pub chunk_index: u8,
    /// Chunks per segment.
    pub chunk_count: u8,
    /// Presentation timestamp, microseconds.
    pub timestamp_us: u64,
    /// Merkle root over the chunk's blocks.
    pub merkle_root: Digest,
    /// Total payload bytes across layers (before padding).
    pub chunk_byte_length: u32,
    /// Slicing matrix version the chunk was cut for.
    pub slicing_matrix_version: u8,
    /// Blocks per layer, lowest layer first; blocks are numbered layer-major.
    pub layer_block_counts: Vec<u16>,
}

/// A manifest with the publisher's signature.
#[derive(Debug, Clone, PartialEq, Eq)]
pub struct Manifest {
    /// Body.
    pub body: ManifestBody,
    /// Ed25519 signature over the body bytes.
    pub signature: SignatureBytes,
}

/// A block's Merkle proof as sent down a tree.
#[derive(Debug, Clone, PartialEq, Eq)]
pub struct BlockProof {
    /// Segment.
    pub segment: SegmentSeq,
    /// Block index.
    pub block: BlockIndex,
    /// Sender's hop depth.
    pub sender_hop_depth: u8,
    /// Sibling hashes from the leaf level upward.
    pub siblings: Vec<Digest>,
}

/// One RaptorQ symbol of one block.
#[derive(Debug, Clone, PartialEq, Eq)]
pub struct RaptorQSymbol {
    /// Segment.
    pub segment: SegmentSeq,
    /// Block index.
    pub block: BlockIndex,
    /// Encoding symbol id; below `K` it is a source symbol.
    pub esi: u16,
    /// Symbol bytes.
    pub payload: Vec<u8>,
}

impl RaptorQSymbol {
    /// Whether this is one of the `K` systematic source symbols.
    pub fn is_source(&self) -> (r: bool)
        ensures r == (self.esi < K_BLOCK),
    {
        (self.esi as usize) < K_BLOCK
    }
}

/// One tree of the slicing matrix as published on the wire.
#[derive(Debug, Clone, Copy, PartialEq, Eq, Structural)]
pub struct TreeMappingEntry {
    /// Tree.
    pub tree_id: TreeId,
    /// Lowest layer carried.
    pub layer: u8,
    /// Stripe index within the layer.
    pub stripe_index: u8,
    /// Stripes of the layer.
    pub stripe_count: u8,
    /// Shed priority; lower is shed first.
    pub priority: u8,
    /// Declared per-tree bitrate.
    pub bitrate_kbps: u16,
}

/// Sum of block counts.
pub open spec fn count_sum(c: Seq<u16>) -> nat
    decreases c.len(),
{
    if c.len() == 0 { 0 } else { count_sum(c.drop_last()) + c.last() as nat }
}

/// Which layer block `j` belongs to and its index within that layer, scanning
/// the counts from layer `l` with `j` relative to the start of layer `l`.
pub open spec fn layer_of_from(c: Seq<u16>, l: nat, j: int) -> Option<(u8, u16)>
    decreases c.len() - l,
{
    if l >= c.len() {
        None
    } else if j < c[l as int] {
        Some((l as u8, j as u16))
    } else {
        layer_of_from(c, l + 1, j - c[l as int])
    }
}

/// The body bytes a publisher signs.
pub open spec fn counts_bytes(c: Seq<u16>) -> Seq<u8>
    decreases c.len(),
{
    if c.len() == 0 { Seq::empty() } else { counts_bytes(c.drop_last()) + u16_be(c.last()) }
}

/// The body bytes a publisher signs.
pub open spec fn body_bytes(b: ManifestBody) -> Seq<u8> {
    b.stream_id.0@ + u32_be(b.segment.0) + seq![b.chunk_index, b.chunk_count] + u64_be(b.timestamp_us)
        + b.merkle_root.0@ + u32_be(b.chunk_byte_length) + seq![b.slicing_matrix_version]
        + u16_be(b.layer_block_counts@.len() as u16) + counts_bytes(b.layer_block_counts@)
}

/// Two bodies that say the same thing.
pub open spec fn body_same(a: ManifestBody, b: ManifestBody) -> bool {
    &&& a.stream_id == b.stream_id
    &&& a.segment == b.segment
    &&& a.chunk_index == b.chunk_index
    &&& a.chunk_count == b.chunk_count
    &&& a.timestamp_us == b.timestamp_us
    &&& a.merkle_root == b.merkle_root
    &&& a.chunk_byte_length == b.chunk_byte_length
    &&& a.slicing_matrix_version == b.slicing_matrix_version
    &&& a.layer_block_counts@ == b.layer_block_counts@
}

impl ManifestBody {
    /// A copy of this body.
    pub fn duplicate(&self) -> (r: ManifestBody)
        ensures body_same(r, *self),
    {
        let counts = self.layer_block_counts.clone();
        assert(counts@ =~= self.layer_block_counts@);
        ManifestBody {
            stream_id: self.stream_id,
            segment: self.segment,
            chunk_index: self.chunk_index,
            chunk_count: self.chunk_count,
            timestamp_us: self.timestamp_us,
            merkle_root: self.merkle_root,
            chunk_byte_length: self.chunk_byte_length,
            slicing_matrix_version: self.slicing_matrix_version,
            layer_block_counts: counts,
        }
    }

    /// Total blocks in the chunk.
    pub fn block_count(&self) -> (r: usize)
        requires self.layer_block_counts@.len() <= 65535,
        ensures r == count_sum(self.layer_block_counts@),
    {
        let c = &self.layer_block_counts;
        let mut total: usize = 0;
        let mut i: usize = 0;
        while i < c.len()
            invariant
                0 <= i <= c@.len(),
                total == count_sum(c@.take(i as int)),
                total <= i * 65535,
                c@.len() <= 65535,
            decreases c@.len() - i,
        {
            assert(c@.take(i + 1).drop_last() =~= c@.take(i as int));
            assert(total + c[i as int] <= (i + 1) * 65535) by (nonlinear_arith)
                requires total <= i * 65535, c[i as int] <= 65535;
            assert((i + 1) * 65535 <= 65535 * 65535) by (nonlinear_arith)
                requires i + 1 <= 65535;
            total = total + c[i] as usize;
            i = i + 1;
        }
        assert(c@.take(i as int) =~= c@);
        total
    }

    /// Which layer block `j` belongs to, and its index within that layer.
    pub fn layer_of(&self, j: u16) -> (r: Option<(u8, u16)>)
        ensures r == layer_of_from(self.layer_block_counts@, 0, j as int),
    {
        let c = &self.layer_block_counts;
        let mut l: usize = 0;
        let mut rel: u16 = j;
        while l < c.len()
            invariant
                0 <= l <= c@.len(),
                c@ == self.layer_block_counts@,
                layer_of_from(c@, l as nat, rel as int) == layer_of_from(c@, 0, j as int),
            decreases c@.len() - l,
        {
            if rel < c[l] {
                let lb = l as u8;
                assert(lb == (l as nat) as u8);
                assert(layer_of_from(c@, l as nat, rel as int) == Some((lb, rel)));
                return Some((lb, rel));
            }
            rel = rel - c[l];
            l = l + 1;
        }
        None
    }

    /// The body bytes a publisher signs.
    pub fn to_bytes(&self) -> (r: Vec<u8>)
        ensures r@ == body_bytes(*self),
    {
        let mut v: Vec<u8> = Vec::new();
        push_bytes(&mut v, self.stream_id.0.as_slice());
        push_u32_be(&mut v, self.segment.0);
        v.push(self.chunk_index);
        v.push(self.chunk_count);
        push_u64_be(&mut v, self.timestamp_us);
        push_bytes(&mut v, self.merkle_root.0.as_slice());
        push_u32_be(&mut v, self.chunk_byte_length);
        v.push(self.slicing_matrix_version);
        let c = &self.layer_block_counts;
        push_u16_be(&mut v, c.len() as u16);
        let ghost head = v@;
        let mut i: usize = 0;
        while i < c.len()
            invariant
                0 <= i <= c@.len(),
                v@ == head + counts_bytes(c@.take(i as int)),
            decreases c@.len() - i,
        {
            assert(c@.take(i + 1).drop_last() =~= c@.take(i as int));
            push_u16_be(&mut v, c[i]);
            i = i + 1;
            assert(v@ =~= head + counts_bytes(c@.take(i as int)));
        }
        assert(c@.take(i as int) =~= c@);
        assert(v@ =~= body_bytes(*self));
        v
    }
}

impl Manifest {
    /// The exact bytes the signature covers.
    pub fn signable_bytes(&self) -> (r: Vec<u8>)
        ensures r@ == body_bytes(self.body),
    {
        self.body.to_bytes()
    }
}

} // verus!
