//! Consumer-side reassembly with a running hash — the data-correctness witness.
//!
//! Blocks are zero-padded to 16 KB on the wire and the manifest carries only the
//! chunk's total byte length, so layer boundaries are recovered by the rule the
//! sources follow (`aligned_layer_sizes`): every layer but the last is exactly
//! `LayerBlockCount × 16 KB` with no padding, and the last layer is
//! `ChunkByteLength − (bytes of the other layers)`.
use std::collections::BTreeMap;
use vstd::prelude::*;
use crate::crypto::hashing::{blake3_digest, blake3_spec, hasher_finalize, hasher_input, hasher_new, hasher_update_at};
use crate::wire::{push_bytes, Digest, SegmentSeq, StreamId};
use super::chunk::{lemma_total_len_blocks, blocks_for, built_from, chunk_blocks, layer_blocks, padded_block, total_len, views, zero_block, BuiltChunk, LayeredChunk};
use crate::wire::{BLOCK_SIZE, MAX_BLOCKS_PER_CHUNK};
use super::manifest::{count_sum, ManifestBody};

verus! {

broadcast use {vstd::std_specs::btree::group_btree_axioms, vstd::laws_cmp::group_laws_cmp};

/// Blocks `start .. start + n` that are present, concatenated in order.
pub open spec fn present_concat(blocks: Map<u16, Seq<u8>>, start: int, n: int) -> Seq<u8>
    decreases n,
{
    if n <= 0 {
        Seq::empty()
    } else {
        let k = (start + n - 1) as u16;
        present_concat(blocks, start, n - 1) + (if blocks.contains_key(k) { blocks[k] } else { Seq::empty() })
    }
}

/// The layers rebuilt from layer `l` on, block numbering at `start` and
/// `consumed` payload bytes already placed: each layer is its blocks
/// concatenated, cut to what remains of `total`.
pub open spec fn reassemble(counts: Seq<u16>, blocks: Map<u16, Seq<u8>>, total: int, l: int, start: int, consumed: int) -> Seq<Seq<u8>>
    decreases counts.len() - l,
{
    if l < 0 || l >= counts.len() {
        Seq::empty()
    } else {
        let raw = present_concat(blocks, start, counts[l] as int);
        let remain = if total - consumed > 0 { total - consumed } else { 0 };
        let len = if remain < raw.len() { remain } else { raw.len() as int };
        seq![raw.take(len)] + reassemble(counts, blocks, total, l + 1, start + counts[l], consumed + len)
    }
}

/// Byte strings concatenated.
pub open spec fn flatten(s: Seq<Seq<u8>>) -> Seq<u8>
    decreases s.len(),
{
    if s.len() == 0 { Seq::empty() } else { flatten(s.drop_last()) + s.last() }
}

/// The contents of a block map.
pub open spec fn block_views(m: Map<u16, Vec<u8>>) -> Map<u16, Seq<u8>> {
    m.map_values(|v: Vec<u8>| v@)
}

/// A chunk whose manifest has arrived and whose blocks are still arriving.
#[derive(Debug)]
struct Pending {
    counts: Vec<u16>,
    total: u32,
    timestamp_us: u64,
    blocks: BTreeMap<u16, Vec<u8>>,
}

/// Rebuilds chunks from verified blocks and keeps per-layer running hashes.
#[derive(Debug)]
pub struct ChunkAssembler {
    hashers: Vec<blake3::Hasher>,
    completed: u64,
    bytes: Vec<u64>,
    pending: BTreeMap<(u32, u8), Pending>,
    keep_output: bool,
    output: Vec<u8>,
}

/// Layer byte counters stay this far below `u64::MAX`.
pub open spec fn counter_room() -> int {
    0x1_0000_0000
}

impl ChunkAssembler {
    /// What each layer's running hash has absorbed.
    pub closed spec fn layer_inputs(&self) -> Seq<Seq<u8>> {
        self.hashers@.map_values(|h: blake3::Hasher| hasher_input(h))
    }

    /// Chunks completed.
    pub closed spec fn completed_spec(&self) -> u64 {
        self.completed
    }

    /// Bytes delivered per layer.
    pub closed spec fn bytes_spec(&self) -> Seq<u64> {
        self.bytes@
    }

    /// Whether reassembled bytes are retained.
    pub closed spec fn keeps_output(&self) -> bool {
        self.keep_output
    }

    /// The retained output.
    pub closed spec fn output_spec(&self) -> Seq<u8> {
        self.output@
    }

    /// Chunks (segment, chunk index) whose manifest has arrived and which are
    /// not complete yet.
    pub closed spec fn pending_keys(&self) -> Set<(u32, u8)> {
        self.pending@.dom()
    }

    /// Block counts per layer of a pending chunk.
    pub closed spec fn pending_counts(&self, k: (u32, u8)) -> Seq<u16> {
        self.pending@[k].counts@
    }

    /// Total payload bytes of a pending chunk.
    pub closed spec fn pending_total(&self, k: (u32, u8)) -> u32 {
        self.pending@[k].total
    }

    /// Timestamp of a pending chunk.
    pub closed spec fn pending_timestamp(&self, k: (u32, u8)) -> u64 {
        self.pending@[k].timestamp_us
    }

    /// Blocks received so far for a pending chunk.
    pub closed spec fn pending_blocks(&self, k: (u32, u8)) -> Map<u16, Seq<u8>> {
        block_views(self.pending@[k].blocks@)
    }

    /// One counter per hash; every pending chunk numbers its blocks within `u16`.
    pub closed spec fn wf(&self) -> bool {
        &&& self.hashers@.len() == self.bytes@.len()
        &&& forall|k: (u32, u8)| #[trigger] self.pending@.contains_key(k) ==> {
            &&& self.pending@[k].counts@.len() <= 0xffff
            &&& count_sum(self.pending@[k].counts@) <= 0xffff
        }
    }

    /// The hashes, counters and output are as in `old`.
    pub open spec fn others_same(&self, old: &ChunkAssembler) -> bool {
        &&& self.layer_inputs() == old.layer_inputs()
        &&& self.completed_spec() == old.completed_spec()
        &&& self.bytes_spec() == old.bytes_spec()
        &&& self.keeps_output() == old.keeps_output()
        &&& self.output_spec() == old.output_spec()
    }

    /// Every pending chunk but `k` is as in `old`.
    pub open spec fn pending_same_except(&self, old: &ChunkAssembler, k: (u32, u8)) -> bool {
        &&& forall|k2: (u32, u8)| k2 != k ==> (#[trigger] self.pending_keys().contains(k2) <==> old.pending_keys().contains(k2))
        &&& forall|k2: (u32, u8)| k2 != k && #[trigger] old.pending_keys().contains(k2) ==> {
            &&& self.pending_counts(k2) == old.pending_counts(k2)
            &&& self.pending_total(k2) == old.pending_total(k2)
            &&& self.pending_timestamp(k2) == old.pending_timestamp(k2)
            &&& self.pending_blocks(k2) == old.pending_blocks(k2)
        }
    }

    /// Everything but the pending chunk `k` is as in `old`.
    pub open spec fn same_except(&self, old: &ChunkAssembler, k: (u32, u8)) -> bool {
        &&& self.others_same(old)
        &&& self.pending_same_except(old, k)
    }

    /// The pending chunk `k` is as in `old`.
    pub open spec fn pending_same_at(&self, old: &ChunkAssembler, k: (u32, u8)) -> bool {
        &&& self.pending_keys().contains(k) == old.pending_keys().contains(k)
        &&& old.pending_keys().contains(k) ==> {
            &&& self.pending_counts(k) == old.pending_counts(k)
            &&& self.pending_total(k) == old.pending_total(k)
            &&& self.pending_timestamp(k) == old.pending_timestamp(k)
            &&& self.pending_blocks(k) == old.pending_blocks(k)
        }
    }

    /// `layers` were delivered on top of `old`: each hash absorbed its layer,
    /// each counter grew by its length, the output (if kept) grew by all of
    /// them, and one more chunk is complete.
    pub open spec fn delivered(&self, old: &ChunkAssembler, layers: Seq<Seq<u8>>) -> bool {
        &&& self.layer_inputs().len() == old.layer_inputs().len()
        &&& forall|l: int| 0 <= l < old.layer_inputs().len() ==> #[trigger] self.layer_inputs()[l]
            == old.layer_inputs()[l] + (if l < layers.len() { layers[l] } else { Seq::<u8>::empty() })
        &&& self.bytes_spec().len() == old.bytes_spec().len()
        &&& forall|l: int| 0 <= l < old.bytes_spec().len() ==> #[trigger] self.bytes_spec()[l]
            == old.bytes_spec()[l] + (if l < layers.len() { layers[l].len() as int } else { 0 })
        &&& self.keeps_output() == old.keeps_output()
        &&& self.output_spec() == (if old.keeps_output() { old.output_spec() + flatten(layers) } else { old.output_spec() })
        &&& self.completed_spec() == old.completed_spec() + 1
    }

    /// Room left in the counters for one more chunk.
    pub open spec fn has_room(&self) -> bool {
        &&& self.completed_spec() < u64::MAX
        &&& forall|l: int| 0 <= l < self.bytes_spec().len() ==> #[trigger] self.bytes_spec()[l] <= u64::MAX - counter_room()
    }

    /// New assembler for `layers` layers. `keep_output` retains the reassembled
    /// bytes in memory.
    pub fn new(layers: usize, keep_output: bool) -> (r: ChunkAssembler)
        ensures
            r.wf(),
            r.layer_inputs() == Seq::new(layers as nat, |i: int| Seq::<u8>::empty()),
            r.bytes_spec() == Seq::new(layers as nat, |i: int| 0u64),
            r.completed_spec() == 0,
            r.keeps_output() == keep_output,
            r.output_spec() == Seq::<u8>::empty(),
            r.pending_keys() == Set::<(u32, u8)>::empty(),
    {
        let mut hashers: Vec<blake3::Hasher> = Vec::new();
        let mut bytes: Vec<u64> = Vec::new();
        let mut i: usize = 0;
        while i < layers
            invariant
                i <= layers,
                hashers@.len() == i,
                bytes@ == Seq::new(i as nat, |k: int| 0u64),
                forall|k: int| 0 <= k < i ==> hasher_input(#[trigger] hashers@[k]) == Seq::<u8>::empty(),
            decreases layers - i,
        {
            hashers.push(hasher_new());
            bytes.push(0);
            i = i + 1;
            assert(bytes@ =~= Seq::new(i as nat, |k: int| 0u64));
        }
        let r = ChunkAssembler {
            hashers,
            completed: 0,
            bytes,
            pending: BTreeMap::new(),
            keep_output,
            output: Vec::new(),
        };
        assert(r.layer_inputs() =~= Seq::new(layers as nat, |i: int| Seq::<u8>::empty()));
        assert(r.pending_keys() =~= Set::<(u32, u8)>::empty());
        r
    }

    /// Register a chunk's manifest so its blocks can be placed; a chunk already
    /// registered keeps its first manifest.
    pub fn begin_chunk(&mut self, manifest: &ManifestBody)
        requires
            old(self).wf(),
            manifest.layer_block_counts@.len() <= 0xffff,
            count_sum(manifest.layer_block_counts@) <= 0xffff,
        ensures
            final(self).wf(),
            final(self).same_except(old(self), (manifest.segment.0, manifest.chunk_index)),
            old(self).pending_keys().contains((manifest.segment.0, manifest.chunk_index)) ==> {
                let k = (manifest.segment.0, manifest.chunk_index);
                &&& final(self).pending_keys().contains(k)
                &&& final(self).pending_counts(k) == old(self).pending_counts(k)
                &&& final(self).pending_total(k) == old(self).pending_total(k)
                &&& final(self).pending_timestamp(k) == old(self).pending_timestamp(k)
                &&& final(self).pending_blocks(k) == old(self).pending_blocks(k)
            },
            !old(self).pending_keys().contains((manifest.segment.0, manifest.chunk_index)) ==> {
                let k = (manifest.segment.0, manifest.chunk_index);
                &&& final(self).pending_keys().contains(k)
                &&& final(self).pending_counts(k) == manifest.layer_block_counts@
                &&& final(self).pending_total(k) == manifest.chunk_byte_length
                &&& final(self).pending_timestamp(k) == manifest.timestamp_us
                &&& final(self).pending_blocks(k) == Map::<u16, Seq<u8>>::empty()
            },
    {
        let key = (manifest.segment.0, manifest.chunk_index);
        if self.pending.contains_key(&key) {
            return;
        }
        let mut counts: Vec<u16> = Vec::with_capacity(manifest.layer_block_counts.len());
        let mut i: usize = 0;
        while i < manifest.layer_block_counts.len()
            invariant
                i <= manifest.layer_block_counts@.len(),
                counts@ == manifest.layer_block_counts@.take(i as int),
            decreases manifest.layer_block_counts@.len() - i,
        {
            counts.push(manifest.layer_block_counts[i]);
            i = i + 1;
            assert(counts@ =~= manifest.layer_block_counts@.take(i as int));
        }
        assert(counts@ =~= manifest.layer_block_counts@);
        let p = Pending {
            counts,
            total: manifest.chunk_byte_length,
            timestamp_us: manifest.timestamp_us,
            blocks: BTreeMap::new(),
        };
        self.pending.insert(key, p);
        assert(block_views(self.pending@[key].blocks@) =~= Map::<u16, Seq<u8>>::empty());
    }

    /// Running hashes per layer.
    pub fn layer_hashes(&self) -> (r: Vec<Digest>)
        ensures
            r@.len() == self.layer_inputs().len(),
            forall|i: int| 0 <= i < r@.len() ==> (#[trigger] r@[i]).0@ == blake3_spec(self.layer_inputs()[i]),
    {
        let mut out: Vec<Digest> = Vec::new();
        let mut i: usize = 0;
        while i < self.hashers.len()
            invariant
                i <= self.hashers@.len(),
                out@.len() == i,
                forall|k: int| 0 <= k < i ==> (#[trigger] out@[k]).0@ == blake3_spec(self.layer_inputs()[k]),
            decreases self.hashers@.len() - i,
        {
            out.push(Digest(hasher_finalize(&self.hashers[i])));
            i = i + 1;
        }
        out
    }

    /// Chunks completed.
    pub fn completed_chunks(&self) -> (r: u64)
        ensures r == self.completed_spec(),
    {
        self.completed
    }

    /// Bytes delivered per layer.
    pub fn bytes_per_layer(&self) -> (r: &[u64])
        ensures r@ == self.bytes_spec(),
    {
        self.bytes.as_slice()
    }

    /// Reassembled bytes (only when `keep_output`).
    pub fn output(&self) -> (r: &[u8])
        ensures r@ == self.output_spec(),
    {
        self.output.as_slice()
    }

    /// Blake3 of the reassembled output (only meaningful with `keep_output`).
    pub fn output_hash(&self) -> (r: Digest)
        ensures r.0@ == blake3_spec(self.output_spec()),
    {
        Digest(blake3_digest(self.output.as_slice()))
    }

    /// Chunks still incomplete.
    pub fn pending_chunks(&self) -> (r: usize)
        ensures r == self.pending_keys().len(),
    {
        self.pending.len()
    }
}


/// Sum of block counts, within `u16` by the caller's bound.
fn sum_counts(c: &Vec<u16>) -> (r: usize)
    requires c@.len() <= 0xffff, count_sum(c@) <= 0xffff,
    ensures r == count_sum(c@),
{
    let mut total: usize = 0;
    let mut i: usize = 0;
    while i < c.len()
        invariant
            i <= c@.len(),
            count_sum(c@) <= 0xffff,
            total == count_sum(c@.take(i as int)),
        decreases c@.len() - i,
    {
        proof {
            lemma_count_prefix(c@, i as int);
        }
        total = total + c[i] as usize;
        i = i + 1;
    }
    assert(c@.take(i as int) =~= c@);
    total
}

/// Prefix sums of block counts grow by one layer at a time and stay within the whole.
pub(crate) proof fn lemma_count_prefix(c: Seq<u16>, i: int)
    requires 0 <= i < c.len(),
    ensures
        count_sum(c.take(i + 1)) == count_sum(c.take(i)) + c[i],
        count_sum(c.take(i + 1)) <= count_sum(c),
{
    assert(c.take(i + 1).drop_last() =~= c.take(i));
    lemma_count_prefix_le(c, i + 1);
}

pub(crate) proof fn lemma_count_prefix_le(c: Seq<u16>, k: int)
    requires 0 <= k <= c.len(),
    ensures count_sum(c.take(k)) <= count_sum(c),
    decreases c.len(),
{
    if k < c.len() {
        assert(c.drop_last().take(k) =~= c.take(k));
        lemma_count_prefix_le(c.drop_last(), k);
    } else {
        assert(c.take(k) =~= c);
    }
}

pub(crate) proof fn lemma_reassemble_len(counts: Seq<u16>, blocks: Map<u16, Seq<u8>>, total: int, l: int, start: int, consumed: int)
    requires 0 <= l <= counts.len(),
    ensures reassemble(counts, blocks, total, l, start, consumed).len() == counts.len() - l,
    decreases counts.len() - l,
{
    if l < counts.len() {
        let raw = present_concat(blocks, start, counts[l] as int);
        let remain = if total - consumed > 0 { total - consumed } else { 0 };
        let len = if remain < raw.len() { remain } else { raw.len() as int };
        lemma_reassemble_len(counts, blocks, total, l + 1, start + counts[l], consumed + len);
    }
}

impl ChunkAssembler {
    /// Rebuild a completed chunk, feed its layers to the running hashes and
    /// the output.
    fn finish(&mut self, p: Pending, segment: SegmentSeq, chunk_index: u8) -> (c: LayeredChunk)
        requires
            old(self).wf(),
            old(self).has_room(),
            p.counts@.len() <= 0xffff,
            count_sum(p.counts@) <= 0xffff,
        ensures
            final(self).wf(),
            final(self).pending@ == old(self).pending@,
            c.segment == segment,
            c.chunk_index == chunk_index,
            c.timestamp_us == p.timestamp_us,
            views(c.layers@) == reassemble(p.counts@, block_views(p.blocks@), p.total as int, 0, 0, 0),
            final(self).delivered(old(self), views(c.layers@)),
    {
        let ghost bm = block_views(p.blocks@);
        let ghost counts = p.counts@;
        let ghost big = reassemble(counts, bm, p.total as int, 0, 0, 0);
        let ghost in0 = self.layer_inputs();
        let ghost bytes0 = self.bytes@;
        let ghost out0 = self.output@;
        proof {
            lemma_reassemble_len(counts, bm, p.total as int, 0, 0, 0);
            assert(big.skip(0) =~= big);
        }
        let total = p.total as usize;
        let n_layers = p.counts.len();
        let mut layers: Vec<Vec<u8>> = Vec::with_capacity(n_layers);
        let mut j: u16 = 0;
        let mut consumed: usize = 0;
        let mut l: usize = 0;
        while l < n_layers
            invariant
                n_layers == counts.len() <= 0xffff,
                count_sum(counts) <= 0xffff,
                counts == p.counts@,
                bm == block_views(p.blocks@),
                big == reassemble(counts, bm, p.total as int, 0, 0, 0),
                big.len() == counts.len(),
                total == p.total,
                l <= n_layers,
                j == count_sum(counts.take(l as int)),
                consumed <= total,
                views(layers@) == big.take(l as int),
                reassemble(counts, bm, p.total as int, l as int, j as int, consumed as int) == big.skip(l as int),
                self.wf(),
                self.pending@ == old(self).pending@,
                self.hashers@.len() == in0.len(),
                self.bytes@.len() == bytes0.len(),
                in0 == old(self).layer_inputs(),
                bytes0 == old(self).bytes_spec(),
                out0 == old(self).output_spec(),
                self.keep_output == old(self).keeps_output(),
                self.completed == old(self).completed_spec(),
                old(self).has_room(),
                forall|k: int| 0 <= k < in0.len() ==> #[trigger] self.layer_inputs()[k]
                    == in0[k] + (if k < l { big[k] } else { Seq::<u8>::empty() }),
                forall|k: int| 0 <= k < bytes0.len() ==> #[trigger] self.bytes@[k] as int
                    == bytes0[k] + (if k < l { big[k].len() as int } else { 0 }),
                forall|k: int| 0 <= k < l ==> (#[trigger] big[k]).len() <= total,
                self.output@ == (if self.keep_output { out0 + flatten(big.take(l as int)) } else { out0 }),
            decreases n_layers - l,
        {
            proof {
                lemma_count_prefix(counts, l as int);
            }
            let n = p.counts[l];
            let ghost start = j as int;
            let mut v: Vec<u8> = Vec::new();
            let mut b: u16 = 0;
            while b < n
                invariant
                    b <= n,
                    n == counts[l as int],
                    start + n <= 0xffff,
                    j == start + b,
                    bm == block_views(p.blocks@),
                    v@ == present_concat(bm, start, b as int),
                decreases n - b,
            {
                let ghost before = v@;
                match p.blocks.get(&j) {
                    Some(bl) => {
                        assert(bm.contains_key(j) && bm[j] == bl@);
                        push_bytes(&mut v, bl.as_slice());
                    },
                    None => {
                        assert(!bm.contains_key(j));
                    },
                }
                assert(((start + (b + 1) - 1) as u16) == j);
                j = j + 1;
                b = b + 1;
            }
            let avail = if total >= consumed { total - consumed } else { 0 };
            let len = if avail < v.len() { avail } else { v.len() };
            v.truncate(len);
            let ghost layer = v@;
            proof {
                let raw = present_concat(bm, start, n as int);
                let rest = reassemble(counts, bm, p.total as int, l as int, start, consumed as int);
                assert(rest == seq![raw.take(len as int)] + reassemble(counts, bm, p.total as int, l + 1, start + n, consumed + len));
                assert(layer =~= raw.take(len as int));
                assert(big.skip(l as int)[0] == layer);
                assert(big[l as int] == layer);
                assert(big.skip(l + 1) =~= big.skip(l as int).drop_first());
                assert(rest.drop_first() =~= reassemble(counts, bm, p.total as int, l + 1, start + n, consumed + len));
            }
            consumed = consumed + len;
            let ghost hs_before = self.hashers@;
            proof {
                assert forall|k: int| 0 <= k < in0.len() implies hasher_input(#[trigger] hs_before[k])
                    == in0[k] + (if k < l { big[k] } else { Seq::<u8>::empty() }) by {
                    assert(self.layer_inputs()[k] == hasher_input(hs_before[k]));
                }
            }
            if l < self.hashers.len() {
                hasher_update_at(&mut self.hashers, l, v.as_slice());
                let nb = self.bytes[l] + v.len() as u64;
                self.bytes.set(l, nb);
            }
            if self.keep_output {
                push_bytes(&mut self.output, v.as_slice());
            }
            proof {
                assert(big.take(l + 1).drop_last() =~= big.take(l as int));
                assert(flatten(big.take(l + 1)) == flatten(big.take(l as int)) + layer);
                assert forall|k: int| 0 <= k < in0.len() implies #[trigger] self.layer_inputs()[k]
                    == in0[k] + (if k < l + 1 { big[k] } else { Seq::<u8>::empty() }) by {
                    assert(self.layer_inputs()[k] == hasher_input(self.hashers@[k]));
                    assert(hasher_input(hs_before[k]) == in0[k] + (if k < l { big[k] } else { Seq::<u8>::empty() }));
                    if k == l {
                        assert(hasher_input(self.hashers@[k]) == hasher_input(hs_before[k]) + layer);
                    } else {
                        assert(self.hashers@[k] == hs_before[k]);
                    }
                }
            }
            let ghost lv = layers@;
            layers.push(v);
            assert(views(layers@) =~= big.take(l + 1)) by {
                assert(views(lv) == big.take(l as int));
            }
            l = l + 1;
        }
        let ghost li = self.layer_inputs();
        proof {
            assert(l == big.len());
            assert forall|k: int| 0 <= k < in0.len() implies #[trigger] li[k]
                == in0[k] + (if k < big.len() { big[k] } else { Seq::<u8>::empty() }) by {
                assert(self.layer_inputs()[k] == in0[k] + (if k < l { big[k] } else { Seq::<u8>::empty() }));
            }
        }
        self.completed = self.completed + 1;
        assert(self.layer_inputs() =~= li);
        proof {
            assert(big.take(l as int) =~= big);
            assert(self.layer_inputs().len() == in0.len());
            assert forall|k: int| 0 <= k < bytes0.len() implies #[trigger] self.bytes_spec()[k]
                == bytes0[k] + (if k < big.len() { big[k].len() as int } else { 0 }) by {
                assert(self.bytes@[k] as int == bytes0[k] + (if k < l { big[k].len() as int } else { 0 }));
            }
        }
        proof {
            assert(views(layers@) == big);
            assert(self.layer_inputs().len() == old(self).layer_inputs().len());
            assert(self.bytes_spec().len() == old(self).bytes_spec().len());
            assert(self.keeps_output() == old(self).keeps_output());
            assert(self.output_spec() == (if old(self).keeps_output() { old(self).output_spec() + flatten(big) } else { old(self).output_spec() }));
            assert(self.completed_spec() == old(self).completed_spec() + 1);
        }
        LayeredChunk { segment, chunk_index, timestamp_us: p.timestamp_us, layers }
    }

    /// Add a verified block. Returns the completed chunk when this was the last
    /// block (as many blocks held as the manifest counts); a block for a chunk
    /// with no manifest is dropped.
    pub fn add_block(&mut self, segment: SegmentSeq, chunk: u8, j: u16, block: Vec<u8>) -> (r: Option<LayeredChunk>)
        requires
            old(self).wf(),
            old(self).has_room(),
        ensures
            final(self).wf(),
            final(self).pending_same_except(old(self), (segment.0, chunk)),
            !old(self).pending_keys().contains((segment.0, chunk)) ==> {
                &&& r is None
                &&& final(self).others_same(old(self))
                &&& final(self).pending_same_at(old(self), (segment.0, chunk))
            },
            old(self).pending_keys().contains((segment.0, chunk)) ==> {
                let k = (segment.0, chunk);
                let blocks = old(self).pending_blocks(k).insert(j, block@);
                let counts = old(self).pending_counts(k);
                if ((blocks.len() as u16) as int) < count_sum(counts) {
                    &&& r is None
                    &&& final(self).others_same(old(self))
                    &&& final(self).pending_keys().contains(k)
                    &&& final(self).pending_counts(k) == counts
                    &&& final(self).pending_total(k) == old(self).pending_total(k)
                    &&& final(self).pending_timestamp(k) == old(self).pending_timestamp(k)
                    &&& final(self).pending_blocks(k) == blocks
                } else {
                    &&& r matches Some(c)
                    &&& c.segment == segment
                    &&& c.chunk_index == chunk
                    &&& c.timestamp_us == old(self).pending_timestamp(k)
                    &&& views(c.layers@) == reassemble(counts, blocks, old(self).pending_total(k) as int, 0, 0, 0)
                    &&& !final(self).pending_keys().contains(k)
                    &&& final(self).delivered(old(self), views(c.layers@))
                }
            },
    {
        let key = (segment.0, chunk);
        let ghost pend0 = self.pending@;
        let removed = self.pending.remove(&key);
        match removed {
            None => {
                assert(self.pending@ =~= pend0);
                None
            },
            Some(mut p) => {
                assert(pend0.contains_key(key) && pend0[key] == p);
                let ghost bv = block_views(p.blocks@);
                let ghost blockv = block@;
                p.blocks.insert(j, block);
                assert(block_views(p.blocks@) =~= bv.insert(j, blockv));
                let have = p.blocks.len() as u16;
                assert(block_views(p.blocks@).dom() =~= p.blocks@.dom());
                assert(block_views(p.blocks@).len() == p.blocks@.len());
                let need = sum_counts(&p.counts);
                assert(self.pending@ == pend0.remove(key));
                assert(self.others_same(old(self)));
                if (have as usize) < need {
                    let ghost pv = p;
                    self.pending.insert(key, p);
                    assert(self.pending@ == pend0.insert(key, pv));
                    assert(self.pending_blocks(key) == bv.insert(j, blockv));
                    assert(self.pending_counts(key) == old(self).pending_counts(key));
                    assert(self.pending_same_except(old(self), key));
                    None
                } else {
                    assert(self.has_room());
                    let ghost pv = p;
                    let c = self.finish(p, segment, chunk);
                    assert(!self.pending@.contains_key(key));
                    assert(self.pending_same_except(old(self), key));
                    assert(views(c.layers@) == reassemble(pv.counts@, bv.insert(j, blockv), pv.total as int, 0, 0, 0));
                    Some(c)
                }
            },
        }
    }
}


// ---------------------------------------------------------------- round trip

/// The blocks of a built chunk, keyed by their number.
pub open spec fn block_map(blocks: Seq<Seq<u8>>) -> Map<u16, Seq<u8>> {
    Map::new(|j: u16| (j as int) < blocks.len(), |j: u16| blocks[j as int])
}

proof fn lemma_flatten_push(s: Seq<Seq<u8>>, x: Seq<u8>)
    ensures flatten(s.push(x)) == flatten(s) + x,
{
    assert(s.push(x).drop_last() =~= s);
}

/// A layer's blocks, laid end to end, are the layer followed by zero padding.
proof fn lemma_layer_blocks_flat(layer: Seq<u8>)
    ensures
        flatten(layer_blocks(layer)) == layer + Seq::new((blocks_for(layer.len()) * BLOCK_SIZE - layer.len()) as nat, |i: int| 0u8),
        layer.len() <= blocks_for(layer.len()) * BLOCK_SIZE,
        layer.len() % (BLOCK_SIZE as nat) == 0 ==> blocks_for(layer.len()) * BLOCK_SIZE == layer.len(),
{
    let n = blocks_for(layer.len());
    let lb = layer_blocks(layer);
    assert(layer.len() == (layer.len() / 16384) * 16384 + layer.len() % 16384) by (nonlinear_arith);
    if n == 0 {
        assert(lb =~= Seq::<Seq<u8>>::empty());
        assert(layer =~= Seq::<u8>::empty());
        assert(Seq::new(0nat, |i: int| 0u8) =~= Seq::<u8>::empty());
    } else {
        lemma_full_blocks(layer, n - 1);
        assert(lb =~= lb.take(n - 1).push(lb[n - 1]));
        lemma_flatten_push(lb.take(n - 1), lb[n - 1]);
        let start = (n - 1) * BLOCK_SIZE;
        assert(start < layer.len()) by (nonlinear_arith)
            requires
                n == (if layer.len() % 16384 == 0 { layer.len() / 16384 } else { layer.len() / 16384 + 1 }),
                layer.len() == (layer.len() / 16384) * 16384 + layer.len() % 16384,
                n >= 1, start == (n - 1) * 16384;
        assert(layer.len() <= start + BLOCK_SIZE) by (nonlinear_arith)
            requires
                n == (if layer.len() % 16384 == 0 { layer.len() / 16384 } else { layer.len() / 16384 + 1 }),
                layer.len() == (layer.len() / 16384) * 16384 + layer.len() % 16384,
                0 <= layer.len() % 16384 < 16384,
                n >= 1, start == (n - 1) * 16384;
        assert(lb[n - 1] == padded_block(layer, n - 1));
        assert(layer.subrange(0, start) + layer.subrange(start, layer.len() as int) =~= layer);
        assert(n * BLOCK_SIZE - layer.len() == BLOCK_SIZE - (layer.len() - start));
    }
}

/// The first `k` blocks of a layer, when all full, are the first `k` slices.
proof fn lemma_full_blocks(layer: Seq<u8>, k: int)
    requires 0 <= k, (k * BLOCK_SIZE) < layer.len() || k == 0, k <= blocks_for(layer.len()),
    ensures flatten(layer_blocks(layer).take(k)) == layer.subrange(0, k * BLOCK_SIZE),
    decreases k,
{
    let lb = layer_blocks(layer);
    if k == 0 {
        assert(lb.take(0) =~= Seq::<Seq<u8>>::empty());
        assert(layer.subrange(0, 0) =~= Seq::<u8>::empty());
    } else {
        lemma_full_blocks(layer, k - 1);
        assert(lb.take(k) =~= lb.take(k - 1).push(lb[k - 1]));
        lemma_flatten_push(lb.take(k - 1), lb[k - 1]);
        let start = (k - 1) * BLOCK_SIZE;
        assert(start + BLOCK_SIZE <= layer.len());
        assert(padded_block(layer, k - 1) =~= layer.subrange(start, start + BLOCK_SIZE));
        assert(layer.subrange(0, start) + layer.subrange(start, start + BLOCK_SIZE) =~= layer.subrange(0, k * BLOCK_SIZE));
    }
}

/// The blocks of the first `k` layers are a prefix of the chunk's blocks.
proof fn lemma_chunk_blocks_prefix(lv: Seq<Seq<u8>>, k: int)
    requires 0 <= k <= lv.len(),
    ensures
        chunk_blocks(lv.take(k)).len() <= chunk_blocks(lv).len(),
        chunk_blocks(lv).take(chunk_blocks(lv.take(k)).len() as int) == chunk_blocks(lv.take(k)),
    decreases lv.len(),
{
    if k == lv.len() {
        assert(lv.take(k) =~= lv);
    } else {
        let d = lv.drop_last();
        assert(d.take(k) =~= lv.take(k));
        lemma_chunk_blocks_prefix(d, k);
    }
}

/// Present blocks `start .. start + n` of a full block list are its subrange.
proof fn lemma_present_concat_all(b: Seq<Seq<u8>>, start: int, n: int)
    requires 0 <= start, 0 <= n, start + n <= b.len() <= 0x1_0000,
    ensures present_concat(block_map(b), start, n) == flatten(b.subrange(start, start + n)),
    decreases n,
{
    if n == 0 {
        assert(b.subrange(start, start) =~= Seq::<Seq<u8>>::empty());
    } else {
        lemma_present_concat_all(b, start, n - 1);
        let k = (start + n - 1) as u16;
        assert(k as int == start + n - 1);
        assert(block_map(b).contains_key(k));
        assert(b.subrange(start, start + n) =~= b.subrange(start, start + n - 1).push(b[start + n - 1]));
        lemma_flatten_push(b.subrange(start, start + n - 1), b[start + n - 1]);
    }
}

proof fn lemma_total_len_step(lv: Seq<Seq<u8>>, l: int)
    requires 0 <= l < lv.len(),
    ensures
        total_len(lv.take(l + 1)) == total_len(lv.take(l)) + lv[l].len(),
        total_len(lv.take(l + 1)) <= total_len(lv),
{
    assert(lv.take(l + 1).drop_last() =~= lv.take(l));
    super::chunk::lemma_total_len_prefix(lv, l + 1);
}

/// Reassembly from layer `l` on gives back layers `l..` of a chunk whose
/// non-last layers are whole blocks and that has at least one block.
proof fn lemma_reassemble_from(lv: Seq<Seq<u8>>, l: int)
    requires
        0 <= l <= lv.len(),
        1 <= chunk_blocks(lv).len() <= MAX_BLOCKS_PER_CHUNK,
        forall|i: int| 0 <= i < lv.len() - 1 ==> (#[trigger] lv[i]).len() % (BLOCK_SIZE as nat) == 0,
    ensures
        reassemble(
            Seq::new(lv.len(), |i: int| blocks_for(lv[i].len()) as u16),
            block_map(chunk_blocks(lv)),
            total_len(lv) as int,
            l,
            chunk_blocks(lv.take(l)).len() as int,
            total_len(lv.take(l)) as int,
        ) == lv.skip(l),
    decreases lv.len() - l,
{
    let counts = Seq::new(lv.len(), |i: int| blocks_for(lv[i].len()) as u16);
    let bl = chunk_blocks(lv);
    if l == lv.len() {
        assert(lv.skip(l) =~= Seq::<Seq<u8>>::empty());
    } else {
        lemma_reassemble_from(lv, l + 1);
        let pre = chunk_blocks(lv.take(l));
        let nxt = chunk_blocks(lv.take(l + 1));
        assert(lv.take(l + 1).drop_last() =~= lv.take(l));
        assert(nxt == pre + layer_blocks(lv[l]));
        lemma_chunk_blocks_prefix(lv, l + 1);
        let n = blocks_for(lv[l].len());
        assert(counts[l] as int == n);
        assert(bl.subrange(pre.len() as int, (pre.len() + n) as int) =~= layer_blocks(lv[l])) by {
            assert(bl.take(nxt.len() as int) == nxt);
            assert forall|i: int| 0 <= i < n implies #[trigger] bl.subrange(pre.len() as int, (pre.len() + n) as int)[i] == layer_blocks(lv[l])[i] by {
                assert(bl.take(nxt.len() as int)[pre.len() + i] == nxt[pre.len() + i]);
            }
        }
        lemma_present_concat_all(bl, pre.len() as int, n as int);
        lemma_layer_blocks_flat(lv[l]);
        lemma_total_len_step(lv, l);
        let raw = present_concat(block_map(bl), pre.len() as int, counts[l] as int);
        let consumed = total_len(lv.take(l)) as int;
        let total = total_len(lv) as int;
        let remain = if total - consumed > 0 { total - consumed } else { 0 };
        let len = if remain < raw.len() { remain } else { raw.len() as int };
        if l < lv.len() - 1 {
            assert(lv[l].len() % (BLOCK_SIZE as nat) == 0);
            assert(raw.len() == lv[l].len());
        } else {
            assert(lv.take(l + 1) =~= lv);
        }
        assert(len == lv[l].len());
        assert(raw.take(len) =~= lv[l]);
        assert(lv.skip(l) =~= seq![lv[l]] + lv.skip(l + 1));
    }
}


/// With nothing to place, every layer comes back empty.
proof fn lemma_reassemble_nothing(counts: Seq<u16>, blocks: Map<u16, Seq<u8>>, l: int, start: int)
    requires 0 <= l <= counts.len(),
    ensures reassemble(counts, blocks, 0, l, start, 0) == Seq::new((counts.len() - l) as nat, |i: int| Seq::<u8>::empty()),
    decreases counts.len() - l,
{
    if l < counts.len() {
        lemma_reassemble_nothing(counts, blocks, l + 1, start + counts[l]);
        let raw = present_concat(blocks, start, counts[l] as int);
        assert(raw.take(0) =~= Seq::<u8>::empty());
        assert(Seq::new((counts.len() - l) as nat, |i: int| Seq::<u8>::empty())
            =~= seq![Seq::<u8>::empty()] + Seq::new((counts.len() - l - 1) as nat, |i: int| Seq::<u8>::empty()));
    } else {
        assert(Seq::new(0nat, |i: int| Seq::<u8>::empty()) =~= Seq::<Seq<u8>>::empty());
    }
}

/// A chunk with no blocks has only empty layers.
proof fn lemma_no_blocks_empty(lv: Seq<Seq<u8>>)
    requires chunk_blocks(lv).len() == 0,
    ensures forall|i: int| 0 <= i < lv.len() ==> (#[trigger] lv[i]).len() == 0,
    decreases lv.len(),
{
    if lv.len() > 0 {
        lemma_no_blocks_empty(lv.drop_last());
        let n = lv.last().len();
        assert(n == (n / 16384) * 16384 + n % 16384) by (nonlinear_arith);
        assert forall|i: int| 0 <= i < lv.len() implies (#[trigger] lv[i]).len() == 0 by {
            if i < lv.len() - 1 {
                assert(lv[i] == lv.drop_last()[i]);
            }
        }
    }
}

/// Law: a chunk with at least one layer, whose layers but the last are whole
/// 16 KB blocks, is given back exactly by reassembling every block `build`
/// cut from it under the manifest `build` signed for it.
pub proof fn lemma_build_reassemble_roundtrip(seed: Seq<u8>, stream: StreamId, version: u8, chunk: LayeredChunk, b: BuiltChunk)
    requires
        built_from(seed, stream, version, chunk, b),
        chunk.layers@.len() >= 1,
        forall|i: int| 0 <= i < chunk.layers@.len() - 1 ==> (#[trigger] chunk.layers@[i])@.len() % (BLOCK_SIZE as nat) == 0,
    ensures
        reassemble(
            b.manifest.body.layer_block_counts@,
            block_map(views(b.blocks@)),
            b.manifest.body.chunk_byte_length as int,
            0,
            0,
            0,
        ) == views(chunk.layers@),
{
    let lv = views(chunk.layers@);
    let all = chunk_blocks(lv);
    lemma_total_len_blocks(lv);
    assert(lv.take(0) =~= Seq::<Seq<u8>>::empty());
    assert(lv.skip(0) =~= lv);
    if all.len() == 0 {
        lemma_no_blocks_empty(lv);
        lemma_reassemble_nothing(b.manifest.body.layer_block_counts@, block_map(views(b.blocks@)), 0, 0);
        assert forall|i: int| 0 <= i < lv.len() implies #[trigger] lv[i] == Seq::<u8>::empty() by {
            assert(lv[i] =~= Seq::<u8>::empty());
        }
        assert(lv =~= Seq::new(lv.len(), |i: int| Seq::<u8>::empty()));
    } else {
        assert forall|i: int| 0 <= i < lv.len() - 1 implies (#[trigger] lv[i]).len() % (BLOCK_SIZE as nat) == 0 by {
            assert(lv[i] == chunk.layers@[i]@);
        }
        lemma_reassemble_from(lv, 0);
    }
}

} // verus!
