//! Chunk producers. Both are pure: they are polled for the next chunk and never
//! read a clock, so the caller paces them.
use vstd::prelude::*;
use crate::crypto::hashing::{blake3_digest, blake3_spec, hasher_finalize, hasher_input, hasher_new, hasher_update_at};
use crate::wire::{Digest, SegmentSeq, BLOCK_SIZE, CHUNKS_PER_SEGMENT};
use super::chunk::{views, LayeredChunk};
use super::ladder::{layer_bytes, Ladder, Layer};

verus! {

/// Chunk period in milliseconds.
pub const CHUNK_MS: u32 = 250;

/// Largest integer every smaller non-negative integer of which a `f64` holds exactly.
pub const F64_EXACT: u64 = 0x20_0000_0000_0000;

/// Nominal bytes per chunk of each layer.
pub open spec fn nominal(layers: Seq<Layer>, chunk_ms: u32) -> Seq<int> {
    Seq::new(layers.len(), |i: int| layer_bytes(layers[i].bitrate_kbps, chunk_ms))
}

/// Sum of a sequence.
pub open spec fn sum_int(s: Seq<int>) -> int
    decreases s.len(),
{
    if s.len() == 0 { 0 } else { sum_int(s.drop_last()) + s.last() }
}

/// Blocks for `b` nominal bytes: `b / 16384` rounded half up, at least one.
pub open spec fn rounded_blocks(b: int) -> int {
    let q = (b + 8192) / 16384;
    if q < 1 { 1 } else { q }
}

/// Bytes of the first `k` layers after rounding to whole blocks.
pub open spec fn aligned_prefix(nom: Seq<int>, k: int) -> int
    decreases k,
{
    if k <= 0 { 0 } else { aligned_prefix(nom, k - 1) + rounded_blocks(nom[k - 1]) * BLOCK_SIZE }
}

/// The aligned sizes: every layer but the last rounded to whole blocks (at
/// least one), the last taking what remains of the total (at least one byte).
pub open spec fn aligned_sizes(nom: Seq<int>) -> Seq<int> {
    let n = nom.len() as int;
    let used = aligned_prefix(nom, n - 1);
    let rest = if sum_int(nom) > used { sum_int(nom) - used } else { 0 };
    Seq::new(nom.len(), |i: int| if i + 1 == n { if rest < 1 { 1 } else { rest } } else { rounded_blocks(nom[i]) * BLOCK_SIZE })
}

/// What `aligned_layer_sizes` needs: the nominal sizes are computable, below
/// 2^53 (where the reference rounding through `f64` is exact), and their
/// total and the rounded prefix fit in `usize`.
pub open spec fn aligned_inputs_ok(layers: Seq<Layer>, chunk_ms: u32) -> bool {
    let nom = nominal(layers, chunk_ms);
    &&& forall|i: int| 0 <= i < layers.len() ==> (#[trigger] layers[i]).bitrate_kbps as int * 125 * chunk_ms as int <= u64::MAX
    &&& forall|i: int| 0 <= i < nom.len() ==> #[trigger] nom[i] < F64_EXACT
    &&& sum_int(nom) <= usize::MAX
    &&& aligned_prefix(nom, nom.len() - 1) <= usize::MAX
}

proof fn lemma_sum_int_prefix(s: Seq<int>, k: int)
    requires
        0 <= k <= s.len(),
        forall|i: int| 0 <= i < s.len() ==> #[trigger] s[i] >= 0,
    ensures sum_int(s.take(k)) <= sum_int(s), sum_int(s.take(k)) >= 0,
    decreases s.len(),
{
    if k < s.len() {
        assert(s.drop_last().take(k) =~= s.take(k));
        lemma_sum_int_prefix(s.drop_last(), k);
    } else {
        assert(s.take(k) =~= s);
        lemma_sum_int_nonneg(s);
    }
}

proof fn lemma_sum_int_nonneg(s: Seq<int>)
    requires forall|i: int| 0 <= i < s.len() ==> #[trigger] s[i] >= 0,
    ensures sum_int(s) >= 0,
    decreases s.len(),
{
    if s.len() > 0 {
        lemma_sum_int_nonneg(s.drop_last());
    }
}

proof fn lemma_aligned_prefix_mono(nom: Seq<int>, j: int, k: int)
    requires 0 <= j <= k,
    ensures aligned_prefix(nom, j) <= aligned_prefix(nom, k),
    decreases k - j,
{
    if j < k {
        lemma_aligned_prefix_mono(nom, j, k - 1);
        assert(rounded_blocks(nom[k - 1]) >= 1);
    }
}

/// Per-layer byte sizes for one chunk such that every layer except the last is
/// a whole number of 16 KB blocks (at least one) and the last layer takes the
/// remainder of the ladder's total. The manifest carries only the chunk's total
/// byte length, so a consumer recovers exact layer boundaries only if the
/// non-final layers carry no padding; this rule guarantees that.
pub fn aligned_layer_sizes(ladder: &Ladder, chunk_ms: u32) -> (r: Vec<usize>)
    requires aligned_inputs_ok(ladder.layers@, chunk_ms),
    ensures
        r@.len() == ladder.layers@.len(),
        forall|i: int| 0 <= i < r@.len() ==> #[trigger] r@[i] as int == aligned_sizes(nominal(ladder.layers@, chunk_ms))[i],
{
    let ghost nom = nominal(ladder.layers@, chunk_ms);
    proof {
        assert forall|i: int| 0 <= i < nom.len() implies #[trigger] nom[i] >= 0 by {
            assert(nom[i] == layer_bytes(ladder.layers@[i].bitrate_kbps, chunk_ms));
            assert(ladder.layers@[i].bitrate_kbps as int * 1000 / 8 >= 0);
        }
        assert forall|i: int| 0 <= i < ladder.layers@.len() implies layer_bytes((#[trigger] ladder.layers@[i]).bitrate_kbps, chunk_ms) <= usize::MAX by {
            lemma_sum_int_prefix(nom, i + 1);
            assert(nom.take(i + 1).drop_last() =~= nom.take(i));
            lemma_sum_int_prefix(nom, i);
            assert(nom[i] == layer_bytes(ladder.layers@[i].bitrate_kbps, chunk_ms));
        }
    }
    let nominal_v = ladder.bytes_per_chunk(chunk_ms);
    assert(nominal_v@.map_values(|x: usize| x as int) =~= nom);
    let n = nominal_v.len();
    let mut total: usize = 0;
    let mut i: usize = 0;
    while i < n
        invariant
            n == nominal_v@.len() == nom.len(),
            i <= n,
            forall|k: int| 0 <= k < n ==> #[trigger] nominal_v@[k] as int == nom[k],
            forall|k: int| 0 <= k < nom.len() ==> #[trigger] nom[k] >= 0,
            sum_int(nom) <= usize::MAX,
            total == sum_int(nom.take(i as int)),
        decreases n - i,
    {
        proof {
            assert(nom.take(i + 1).drop_last() =~= nom.take(i as int));
            lemma_sum_int_prefix(nom, i + 1);
        }
        total = total + nominal_v[i];
        i = i + 1;
    }
    assert(nom.take(n as int) =~= nom);
    let mut out: Vec<usize> = Vec::with_capacity(n);
    let mut used: usize = 0;
    let mut i: usize = 0;
    while i < n
        invariant
            n == nominal_v@.len() == nom.len(),
            i <= n,
            forall|k: int| 0 <= k < n ==> #[trigger] nominal_v@[k] as int == nom[k],
            forall|k: int| 0 <= k < nom.len() ==> #[trigger] nom[k] < F64_EXACT,
            forall|k: int| 0 <= k < nom.len() ==> #[trigger] nom[k] >= 0,
            aligned_prefix(nom, nom.len() - 1) <= usize::MAX,
            total == sum_int(nom),
            i < n ==> used == aligned_prefix(nom, i as int),
            out@.len() == i,
            forall|k: int| 0 <= k < i ==> #[trigger] out@[k] as int == aligned_sizes(nom)[k],
        decreases n - i,
    {
        let b = nominal_v[i];
        if i + 1 == n {
            let rest = if total > used { total - used } else { 0 };
            out.push(if rest < 1 { 1 } else { rest });
        } else {
            proof {
                lemma_aligned_prefix_mono(nom, i + 1, n - 1);
                assert(aligned_prefix(nom, i + 1) == aligned_prefix(nom, i as int) + rounded_blocks(nom[i as int]) * BLOCK_SIZE);
            }
            let q64: u64 = (b as u64 + 8192) / (BLOCK_SIZE as u64);
            assert(q64 as int <= rounded_blocks(nom[i as int]));
            let q = q64 as usize;
            let blocks = if q < 1 { 1 } else { q };
            let sz = blocks * BLOCK_SIZE;
            out.push(sz);
            used = used + sz;
        }
        i = i + 1;
    }
    out
}

/// Law: the aligned layers but the last are whole blocks, at least one each;
/// when the rounded layers leave room for the last, the sizes add up to the
/// nominal total.
pub proof fn lemma_aligned_sizes(nom: Seq<int>)
    requires nom.len() >= 1,
    ensures
        aligned_sizes(nom).len() == nom.len(),
        forall|i: int| 0 <= i < nom.len() - 1 ==> (#[trigger] aligned_sizes(nom)[i]) % BLOCK_SIZE as int == 0,
        forall|i: int| 0 <= i < nom.len() - 1 ==> #[trigger] aligned_sizes(nom)[i] >= BLOCK_SIZE,
        aligned_prefix(nom, nom.len() - 1) < sum_int(nom)
            ==> sum_int(aligned_sizes(nom)) == sum_int(nom),
{
    let a = aligned_sizes(nom);
    let n = nom.len() as int;
    assert forall|i: int| 0 <= i < n - 1 implies (#[trigger] a[i]) % BLOCK_SIZE as int == 0 && a[i] >= BLOCK_SIZE by {
        let q = rounded_blocks(nom[i]);
        assert((q * 16384) % 16384 == 0) by (nonlinear_arith);
        assert(q * 16384 >= 16384) by (nonlinear_arith) requires q >= 1;
    }
    lemma_sum_aligned_prefix(nom, n - 1);
    assert(a.drop_last() =~= a.take(n - 1));
}

proof fn lemma_sum_aligned_prefix(nom: Seq<int>, k: int)
    requires 0 <= k <= nom.len() - 1,
    ensures sum_int(aligned_sizes(nom).take(k)) == aligned_prefix(nom, k),
    decreases k,
{
    let a = aligned_sizes(nom);
    if k > 0 {
        lemma_sum_aligned_prefix(nom, k - 1);
        assert(a.take(k).drop_last() =~= a.take(k - 1));
    } else {
        assert(a.take(0) =~= Seq::<int>::empty());
    }
}


/// Something that yields the next 250 ms chunk.
pub trait Source {
    /// Whether the next chunk can be numbered and stamped without running out
    /// of segment numbers or timestamps.
    spec fn can_advance(&self) -> bool;

    /// The ladder the chunks follow.
    spec fn chunk_ladder(&self) -> Ladder;

    /// The ladder the chunks follow.
    fn ladder(&self) -> (r: &Ladder)
        ensures *r == self.chunk_ladder();

    /// Next chunk, or `None` when the source is exhausted (a file ended).
    fn next_chunk(&mut self) -> Option<LayeredChunk>
        requires old(self).can_advance();

    /// Blake3 hash per layer of everything emitted so far.
    fn layer_hashes(&self) -> Vec<Digest>;
}

/// Segment/chunk counter shared by sources.
#[derive(Debug, Clone, Copy)]
struct Cursor {
    segment: SegmentSeq,
    chunk: u8,
    ts_us: u64,
}

/// Microseconds per chunk.
pub const CHUNK_US: u64 = 250_000;

/// The cursor can stamp one more chunk.
pub open spec fn cursor_ok(segment: SegmentSeq, chunk: u8, ts_us: u64) -> bool {
    &&& chunk < CHUNKS_PER_SEGMENT
    &&& ts_us + CHUNK_US <= u64::MAX
    &&& chunk + 1 == CHUNKS_PER_SEGMENT ==> segment.0 < u32::MAX
}

/// The position after one chunk.
pub open spec fn cursor_next(segment: SegmentSeq, chunk: u8, ts_us: u64) -> (SegmentSeq, u8, u64) {
    if chunk + 1 == CHUNKS_PER_SEGMENT {
        (SegmentSeq((segment.0 + 1) as u32), 0u8, (ts_us + CHUNK_US) as u64)
    } else {
        (segment, (chunk + 1) as u8, (ts_us + CHUNK_US) as u64)
    }
}

impl Cursor {
    fn new(start_ts_us: u64) -> (r: Cursor)
        ensures r.segment.0 == 1, r.chunk == 0, r.ts_us == start_ts_us,
    {
        Cursor { segment: SegmentSeq::first(), chunk: 0, ts_us: start_ts_us }
    }

    /// The current position, then step to the next chunk.
    fn advance(&mut self) -> (r: (SegmentSeq, u8, u64))
        requires cursor_ok(old(self).segment, old(self).chunk, old(self).ts_us),
        ensures
            r == (old(self).segment, old(self).chunk, old(self).ts_us),
            (final(self).segment, final(self).chunk, final(self).ts_us)
                == cursor_next(old(self).segment, old(self).chunk, old(self).ts_us),
    {
        let out = (self.segment, self.chunk, self.ts_us);
        self.chunk = self.chunk + 1;
        if self.chunk == CHUNKS_PER_SEGMENT {
            self.chunk = 0;
            self.segment = self.segment.next();
        }
        self.ts_us = self.ts_us + CHUNK_US;
        out
    }
}

// ---------------------------------------------------------------- xorshift64*

/// Multiplier of the xorshift64* output step.
pub const XS_MUL: u64 = 0x2545_F491_4F6C_DD1D;

/// One xorshift64 state step.
pub open spec fn xs_next(s: u64) -> u64 {
    let a = s ^ (s >> 12u64);
    let b = a ^ (a << 25u64);
    b ^ (b >> 27u64)
}

/// The state after `w` steps.
pub open spec fn xs_after(s: u64, w: nat) -> u64
    decreases w,
{
    if w == 0 { s } else { xs_next(xs_after(s, (w - 1) as nat)) }
}

/// The output word of a state: the state times the multiplier, wrapping.
pub open spec fn xs_out(s: u64) -> u64 {
    ((s as nat * XS_MUL as nat) % 0x1_0000_0000_0000_0000) as u64
}

/// The little-endian bytes of a word.
pub open spec fn le8(x: u64) -> Seq<u8> {
    Seq::new(8, |k: int| (x >> (8 * k) as u64) as u8)
}

/// The byte stream of `w` words from state `s`.
pub open spec fn xs_bytes(s: u64, w: nat) -> Seq<u8>
    decreases w,
{
    if w == 0 { Seq::empty() } else { xs_bytes(s, (w - 1) as nat) + le8(xs_out(xs_after(s, w))) }
}

/// Words needed for `n` bytes.
pub open spec fn words_for(n: nat) -> nat {
    (n + 7) / 8
}

proof fn lemma_xs_bytes_len(s: u64, w: nat)
    ensures xs_bytes(s, w).len() == 8 * w,
    decreases w,
{
    if w > 0 {
        lemma_xs_bytes_len(s, (w - 1) as nat);
    }
}

/// `n` pseudo-random bytes from state `s`, and the state after them.
fn xs_fill(s: u64, n: usize) -> (r: (Vec<u8>, u64))
    ensures
        r.0@ == xs_bytes(s, words_for(n as nat)).take(n as int),
        r.1 == xs_after(s, words_for(n as nat)),
{
    let mut v: Vec<u8> = Vec::with_capacity(n);
    let mut state = s;
    let ghost mut w: nat = 0;
    while v.len() < n
        invariant
            v@.len() <= n,
            v@.len() == (if 8 * w < n { 8 * w } else { n as nat }),
            v@ == xs_bytes(s, w).take(v@.len() as int),
            state == xs_after(s, w),
            v@.len() < n ==> v@.len() == 8 * w,
            w <= words_for(n as nat),
            v@.len() == n ==> w == words_for(n as nat),
        decreases n - v@.len(),
    {
        state = state ^ (state >> 12u64);
        state = state ^ (state << 25u64);
        state = state ^ (state >> 27u64);
        let x = state.wrapping_mul(XS_MUL);
        let remaining = n - v.len();
        let take = if remaining < 8 { remaining } else { 8 };
        let ghost before = v@;
        proof {
            lemma_xs_bytes_len(s, w);
            lemma_xs_bytes_len(s, w + 1);
            w = w + 1;
            assert(xs_bytes(s, w) == xs_bytes(s, (w - 1) as nat) + le8(xs_out(xs_after(s, w))));
            assert(before =~= xs_bytes(s, (w - 1) as nat));
        }
        let mut k: usize = 0;
        while k < take
            invariant
                k <= take <= 8,
                x == xs_out(xs_after(s, w)),
                v@ == before + le8(x).take(k as int),
            decreases take - k,
        {
            v.push((x >> (8 * k) as u64) as u8);
            k = k + 1;
            assert(v@ =~= before + le8(x).take(k as int));
        }
        assert(v@ =~= xs_bytes(s, w).take(v@.len() as int));
    }
    (v, state)
}


// ---------------------------------------------------------------- synthetic source

/// Seed whitening constant.
pub const SEED_MIX: u64 = 0x9E37_79B9_7F4A_7C15;

/// The generator state after filling layers `0..k` of the given sizes.
pub open spec fn synth_state(s: u64, sizes: Seq<usize>, k: int) -> u64
    decreases k,
{
    if k <= 0 { s } else { xs_after(synth_state(s, sizes, k - 1), words_for(sizes[k - 1] as nat)) }
}

/// Layer `k` of a synthetic chunk.
pub open spec fn synth_layer(s: u64, sizes: Seq<usize>, k: int) -> Seq<u8> {
    xs_bytes(synth_state(s, sizes, k), words_for(sizes[k] as nat)).take(sizes[k] as int)
}

/// The hashes of `inputs`.
pub open spec fn hashes_of(r: Seq<Digest>, inputs: Seq<Seq<u8>>) -> bool {
    &&& r.len() == inputs.len()
    &&& forall|i: int| 0 <= i < r.len() ==> (#[trigger] r[i]).0@ == blake3_spec(inputs[i])
}

/// Hash every hasher.
fn finalize_all(hs: &Vec<blake3::Hasher>) -> (r: Vec<Digest>)
    ensures hashes_of(r@, hs@.map_values(|h: blake3::Hasher| hasher_input(h))),
{
    let mut out: Vec<Digest> = Vec::new();
    let mut i: usize = 0;
    while i < hs.len()
        invariant
            i <= hs@.len(),
            out@.len() == i,
            forall|k: int| 0 <= k < i ==> (#[trigger] out@[k]).0@ == blake3_spec(hasher_input(hs@[k])),
        decreases hs@.len() - i,
    {
        out.push(Digest(hasher_finalize(&hs[i])));
        i = i + 1;
    }
    out
}

/// `n` fresh hashers.
fn new_hashers(n: usize) -> (r: Vec<blake3::Hasher>)
    ensures
        r@.len() == n,
        forall|i: int| 0 <= i < n ==> hasher_input(#[trigger] r@[i]) == Seq::<u8>::empty(),
{
    let mut hs: Vec<blake3::Hasher> = Vec::new();
    let mut i: usize = 0;
    while i < n
        invariant
            i <= n,
            hs@.len() == i,
            forall|k: int| 0 <= k < i ==> hasher_input(#[trigger] hs@[k]) == Seq::<u8>::empty(),
        decreases n - i,
    {
        hs.push(hasher_new());
        i = i + 1;
    }
    hs
}

/// Deterministic pseudo-random bytes at the ladder's bitrates. Seeded, so two
/// runs produce identical streams and identical hashes.
pub struct SyntheticSource {
    ladder: Ladder,
    per_chunk: Vec<usize>,
    cursor: Cursor,
    state: u64,
    hashers: Vec<blake3::Hasher>,
    remaining_chunks: Option<u64>,
}

impl SyntheticSource {
    /// Bytes per layer of every chunk.
    pub closed spec fn sizes(&self) -> Seq<usize> {
        self.per_chunk@
    }

    /// Generator state.
    pub closed spec fn state_spec(&self) -> u64 {
        self.state
    }

    /// Chunks left, `None` for an endless source.
    pub closed spec fn remaining_spec(&self) -> Option<u64> {
        self.remaining_chunks
    }

    /// The (segment, chunk, timestamp) the next chunk gets.
    pub closed spec fn position(&self) -> (SegmentSeq, u8, u64) {
        (self.cursor.segment, self.cursor.chunk, self.cursor.ts_us)
    }

    /// Everything each layer's hash has absorbed.
    pub closed spec fn layer_inputs(&self) -> Seq<Seq<u8>> {
        self.hashers@.map_values(|h: blake3::Hasher| hasher_input(h))
    }

    /// The ladder.
    pub closed spec fn ladder_spec(&self) -> Ladder {
        self.ladder
    }

    /// One hash per layer size.
    pub closed spec fn wf(&self) -> bool {
        self.hashers@.len() == self.per_chunk@.len()
    }

    /// New source. `duration_chunks = None` runs forever.
    pub fn new(ladder: Ladder, seed: u64, duration_chunks: Option<u64>) -> (r: SyntheticSource)
        requires aligned_inputs_ok(ladder.layers@, CHUNK_MS),
        ensures
            r.wf(),
            r.ladder_spec() == ladder,
            r.sizes().len() == ladder.layers@.len(),
            forall|i: int| 0 <= i < r.sizes().len() ==> #[trigger] r.sizes()[i] as int == aligned_sizes(nominal(ladder.layers@, CHUNK_MS))[i],
            r.state_spec() == seed ^ SEED_MIX,
            r.remaining_spec() == duration_chunks,
            r.position() == (SegmentSeq(1), 0u8, 0u64),
            r.layer_inputs() == Seq::new(ladder.layers@.len(), |i: int| Seq::<u8>::empty()),
    {
        let per_chunk = aligned_layer_sizes(&ladder, CHUNK_MS);
        let n = ladder.len();
        let hashers = new_hashers(n);
        let r = SyntheticSource {
            ladder,
            per_chunk,
            cursor: Cursor::new(0),
            state: seed ^ SEED_MIX,
            hashers,
            remaining_chunks: duration_chunks,
        };
        assert(r.layer_inputs() =~= Seq::new(n as nat, |i: int| Seq::<u8>::empty()));
        r
    }
}

impl Source for SyntheticSource {
    open spec fn can_advance(&self) -> bool {
        self.remaining_spec() == Some(0u64) || {
            let (s, c, t) = self.position();
            cursor_ok(s, c, t)
        }
    }

    open spec fn chunk_ladder(&self) -> Ladder {
        self.ladder_spec()
    }

    fn ladder(&self) -> (r: &Ladder) {
        &self.ladder
    }

    fn next_chunk(&mut self) -> (r: Option<LayeredChunk>)
        ensures
            final(self).wf() == old(self).wf(),
            final(self).ladder_spec() == old(self).ladder_spec(),
            final(self).sizes() == old(self).sizes(),
            old(self).remaining_spec() == Some(0u64) ==> {
                &&& r is None
                &&& final(self).state_spec() == old(self).state_spec()
                &&& final(self).remaining_spec() == old(self).remaining_spec()
                &&& final(self).position() == old(self).position()
                &&& final(self).layer_inputs() == old(self).layer_inputs()
            },
            old(self).wf() && old(self).remaining_spec() != Some(0u64) ==> {
                let (s, c, t) = old(self).position();
                let sizes = old(self).sizes();
                let s0 = old(self).state_spec();
                &&& r matches Some(ch)
                &&& ch.segment == s && ch.chunk_index == c && ch.timestamp_us == t
                &&& views(ch.layers@) == Seq::new(sizes.len(), |k: int| synth_layer(s0, sizes, k))
                &&& final(self).state_spec() == synth_state(s0, sizes, sizes.len() as int)
                &&& final(self).position() == cursor_next(s, c, t)
                &&& final(self).remaining_spec() == (match old(self).remaining_spec() {
                    Some(n) => Some((n - 1) as u64),
                    None => None,
                })
                &&& final(self).layer_inputs().len() == old(self).layer_inputs().len()
                &&& forall|k: int| 0 <= k < sizes.len() ==> #[trigger] final(self).layer_inputs()[k]
                    == old(self).layer_inputs()[k] + synth_layer(s0, sizes, k)
            },
    {
        match self.remaining_chunks {
            Some(r) => {
                if r == 0 {
                    return None;
                }
                self.remaining_chunks = Some(r - 1);
            },
            None => {},
        }
        if self.hashers.len() != self.per_chunk.len() {
            // Not reachable for a well-formed source.
            let (segment, chunk_index, timestamp_us) = self.cursor.advance();
            return Some(LayeredChunk { segment, chunk_index, timestamp_us, layers: Vec::new() });
        }
        let (segment, chunk_index, timestamp_us) = self.cursor.advance();
        let ghost final_cursor = self.cursor;
        let ghost sizes = self.per_chunk@;
        let ghost s0 = self.state;
        let ghost in0 = self.layer_inputs();
        let n = self.per_chunk.len();
        let mut layers: Vec<Vec<u8>> = Vec::with_capacity(n);
        let mut i: usize = 0;
        while i < n
            invariant
                n == sizes.len() == self.per_chunk@.len() == self.hashers@.len(),
                sizes == self.per_chunk@,
                in0.len() == n,
                i <= n,
                self.state == synth_state(s0, sizes, i as int),
                self.ladder == old(self).ladder,
                self.remaining_chunks == (match old(self).remaining_chunks {
                    Some(n) => Some((n - 1) as u64),
                    None => None,
                }),
                self.cursor == final_cursor,
                layers@.len() == i,
                views(layers@) == Seq::new(i as nat, |k: int| synth_layer(s0, sizes, k)),
                forall|k: int| 0 <= k < n ==> #[trigger] self.layer_inputs()[k]
                    == in0[k] + (if k < i { synth_layer(s0, sizes, k) } else { Seq::<u8>::empty() }),
            decreases n - i,
        {
            let (b, st) = xs_fill(self.state, self.per_chunk[i]);
            assert(b@ == synth_layer(s0, sizes, i as int));
            let ghost hs0 = self.hashers@;
            proof {
                assert forall|k: int| 0 <= k < n implies hasher_input(#[trigger] hs0[k])
                    == in0[k] + (if k < i { synth_layer(s0, sizes, k) } else { Seq::<u8>::empty() }) by {
                    assert(self.layer_inputs()[k] == hasher_input(hs0[k]));
                }
            }
            hasher_update_at(&mut self.hashers, i, b.as_slice());
            self.state = st;
            proof {
                assert forall|k: int| 0 <= k < n implies #[trigger] self.layer_inputs()[k]
                    == in0[k] + (if k < i + 1 { synth_layer(s0, sizes, k) } else { Seq::<u8>::empty() }) by {
                    assert(self.layer_inputs()[k] == hasher_input(self.hashers@[k]));
                    if k != i {
                        assert(self.hashers@[k] == hs0[k]);
                    }
                }
            }
            let ghost lv = layers@;
            let ghost bv = b@;
            layers.push(b);
            proof {
                assert(views(lv) == Seq::new(i as nat, |k: int| synth_layer(s0, sizes, k)));
                assert forall|k: int| 0 <= k < i + 1 implies #[trigger] views(layers@)[k] == synth_layer(s0, sizes, k) by {
                    if k < i {
                        assert(layers@[k] == lv[k]);
                        assert(views(lv)[k] == synth_layer(s0, sizes, k));
                    } else {
                        assert(layers@[k]@ == bv);
                    }
                }
                assert(views(layers@) =~= Seq::new((i + 1) as nat, |k: int| synth_layer(s0, sizes, k)));
            }
            i = i + 1;
        }
        Some(LayeredChunk { segment, chunk_index, timestamp_us, layers })
    }

    fn layer_hashes(&self) -> (r: Vec<Digest>)
        ensures hashes_of(r@, self.layer_inputs()),
    {
        finalize_all(&self.hashers)
    }
}

// ---------------------------------------------------------------- file source

/// The positions in a file after each layer of one chunk starting at `pos`.
pub open spec fn file_pos(len: int, pos: int, sizes: Seq<usize>, k: int) -> int
    decreases k,
{
    if k <= 0 {
        pos
    } else {
        let p = file_pos(len, pos, sizes, k - 1) + sizes[k - 1];
        if p < len { p } else { len }
    }
}

/// A file (e.g. an `.mp4`) streamed as opaque bytes at the ladder's total
/// bitrate, split across layers in proportion to their bitrates. A viewer that
/// reassembles every layer in order and concatenates them layer-by-layer per
/// chunk recovers the file byte for byte.
pub struct FileSource {
    ladder: Ladder,
    per_chunk: Vec<usize>,
    data: Vec<u8>,
    pos: usize,
    cursor: Cursor,
    hashers: Vec<blake3::Hasher>,
    file_hash: Digest,
}

impl FileSource {
    /// Bytes per layer of every chunk.
    pub closed spec fn sizes(&self) -> Seq<usize> {
        self.per_chunk@
    }

    /// The file.
    pub closed spec fn data_spec(&self) -> Seq<u8> {
        self.data@
    }

    /// Bytes already emitted.
    pub closed spec fn pos_spec(&self) -> int {
        self.pos as int
    }

    /// The (segment, chunk, timestamp) the next chunk gets.
    pub closed spec fn position(&self) -> (SegmentSeq, u8, u64) {
        (self.cursor.segment, self.cursor.chunk, self.cursor.ts_us)
    }

    /// Everything each layer's hash has absorbed.
    pub closed spec fn layer_inputs(&self) -> Seq<Seq<u8>> {
        self.hashers@.map_values(|h: blake3::Hasher| hasher_input(h))
    }

    /// The ladder.
    pub closed spec fn ladder_spec(&self) -> Ladder {
        self.ladder
    }

    /// The stored file hash.
    pub closed spec fn file_hash_spec(&self) -> Digest {
        self.file_hash
    }

    /// One hash per layer size, a position inside the file, sizes that cannot
    /// carry the position past `usize`.
    pub closed spec fn wf(&self) -> bool {
        &&& self.hashers@.len() == self.per_chunk@.len()
        &&& self.pos <= self.data@.len()
        &&& forall|i: int| 0 <= i < self.per_chunk@.len() ==> #[trigger] self.per_chunk@[i] + self.data@.len() <= usize::MAX
        &&& self.file_hash.0@ == blake3_spec(self.data@)
    }

    /// Wrap file contents.
    pub fn new(ladder: Ladder, data: Vec<u8>) -> (r: FileSource)
        requires
            aligned_inputs_ok(ladder.layers@, CHUNK_MS),
            forall|i: int| 0 <= i < ladder.layers@.len()
                ==> #[trigger] aligned_sizes(nominal(ladder.layers@, CHUNK_MS))[i] + data@.len() <= usize::MAX,
        ensures
            r.wf(),
            r.ladder_spec() == ladder,
            r.data_spec() == data@,
            r.pos_spec() == 0,
            r.sizes().len() == ladder.layers@.len(),
            forall|i: int| 0 <= i < r.sizes().len() ==> #[trigger] r.sizes()[i] as int == aligned_sizes(nominal(ladder.layers@, CHUNK_MS))[i],
            r.position() == (SegmentSeq(1), 0u8, 0u64),
            r.layer_inputs() == Seq::new(ladder.layers@.len(), |i: int| Seq::<u8>::empty()),
            r.file_hash_spec().0@ == blake3_spec(data@),
    {
        let per_chunk = aligned_layer_sizes(&ladder, CHUNK_MS);
        let n = ladder.len();
        let file_hash = Digest(blake3_digest(data.as_slice()));
        let hashers = new_hashers(n);
        let r = FileSource { ladder, per_chunk, data, pos: 0, cursor: Cursor::new(0), hashers, file_hash };
        assert(r.layer_inputs() =~= Seq::new(n as nat, |i: int| Seq::<u8>::empty()));
        r
    }

    /// Blake3 of the source file.
    pub fn file_hash(&self) -> (r: Digest)
        ensures r == self.file_hash_spec(),
    {
        self.file_hash
    }

    /// Total chunks this file yields at the ladder rate: the file length over
    /// the bytes per chunk, rounded up.
    pub fn total_chunks(&self) -> (r: u64)
        requires
            self.sizes().len() >= 1,
            sum_int(self.sizes().map_values(|x: usize| x as int)) <= usize::MAX,
            sum_int(self.sizes().map_values(|x: usize| x as int)) >= 1,
        ensures
            ({
                let per = sum_int(self.sizes().map_values(|x: usize| x as int));
                let len = self.data_spec().len() as int;
                r == (if len % per == 0 { len / per } else { len / per + 1 })
            }),
    {
        let ghost sz = self.per_chunk@.map_values(|x: usize| x as int);
        let mut per: usize = 0;
        let mut i: usize = 0;
        proof {
            assert forall|k: int| 0 <= k < sz.len() implies #[trigger] sz[k] >= 0 by {}
        }
        while i < self.per_chunk.len()
            invariant
                i <= self.per_chunk@.len(),
                sz == self.per_chunk@.map_values(|x: usize| x as int),
                forall|k: int| 0 <= k < sz.len() ==> #[trigger] sz[k] >= 0,
                sum_int(sz) <= usize::MAX,
                per == sum_int(sz.take(i as int)),
            decreases self.per_chunk@.len() - i,
        {
            proof {
                assert(sz.take(i + 1).drop_last() =~= sz.take(i as int));
                lemma_sum_int_prefix(sz, i + 1);
            }
            per = per + self.per_chunk[i];
            i = i + 1;
        }
        assert(sz.take(i as int) =~= sz);
        let len = self.data.len() as u64;
        let p = per as u64;
        if len % p == 0 {
            len / p
        } else {
            assert(p >= 2);
            assert(len / p <= len / 2) by (nonlinear_arith) requires p >= 2;
            len / p + 1
        }
    }

    /// Total bytes.
    pub fn len(&self) -> (r: usize)
        ensures r == self.data_spec().len(),
    {
        self.data.len()
    }

    /// Whether the file is empty.
    pub fn is_empty(&self) -> (r: bool)
        ensures r == (self.data_spec().len() == 0),
    {
        self.data.len() == 0
    }
}

impl Source for FileSource {
    open spec fn can_advance(&self) -> bool {
        self.pos_spec() >= self.data_spec().len() || {
            let (s, c, t) = self.position();
            cursor_ok(s, c, t)
        }
    }

    open spec fn chunk_ladder(&self) -> Ladder {
        self.ladder_spec()
    }

    fn ladder(&self) -> (r: &Ladder) {
        &self.ladder
    }

    fn next_chunk(&mut self) -> (r: Option<LayeredChunk>)
        ensures
            final(self).wf() == old(self).wf(),
            final(self).ladder_spec() == old(self).ladder_spec(),
            final(self).sizes() == old(self).sizes(),
            final(self).data_spec() == old(self).data_spec(),
            final(self).file_hash_spec() == old(self).file_hash_spec(),
            old(self).pos_spec() >= old(self).data_spec().len() ==> {
                &&& r is None
                &&& final(self).pos_spec() == old(self).pos_spec()
                &&& final(self).position() == old(self).position()
                &&& final(self).layer_inputs() == old(self).layer_inputs()
            },
            old(self).wf() && old(self).pos_spec() < old(self).data_spec().len() ==> {
                let (s, c, t) = old(self).position();
                let sizes = old(self).sizes();
                let d = old(self).data_spec();
                let p0 = old(self).pos_spec();
                &&& r matches Some(ch)
                &&& ch.segment == s && ch.chunk_index == c && ch.timestamp_us == t
                &&& views(ch.layers@) == Seq::new(sizes.len(), |k: int|
                        d.subrange(file_pos(d.len() as int, p0, sizes, k), file_pos(d.len() as int, p0, sizes, k + 1)))
                &&& final(self).pos_spec() == file_pos(d.len() as int, p0, sizes, sizes.len() as int)
                &&& final(self).position() == cursor_next(s, c, t)
                &&& final(self).layer_inputs().len() == old(self).layer_inputs().len()
                &&& forall|k: int| 0 <= k < sizes.len() ==> #[trigger] final(self).layer_inputs()[k]
                    == old(self).layer_inputs()[k]
                        + d.subrange(file_pos(d.len() as int, p0, sizes, k), file_pos(d.len() as int, p0, sizes, k + 1))
            },
    {
        if self.pos >= self.data.len() {
            return None;
        }
        if self.hashers.len() != self.per_chunk.len() || !(self.pos <= self.data.len()) {
            // Not reachable for a well-formed source.
            let (segment, chunk_index, timestamp_us) = self.cursor.advance();
            return Some(LayeredChunk { segment, chunk_index, timestamp_us, layers: Vec::new() });
        }
        let (segment, chunk_index, timestamp_us) = self.cursor.advance();
        let ghost final_cursor = self.cursor;
        let ghost sizes = self.per_chunk@;
        let ghost d = self.data@;
        let ghost p0 = self.pos as int;
        let ghost in0 = self.layer_inputs();
        let ghost wf0 = self.wf();
        let n = self.per_chunk.len();
        let mut layers: Vec<Vec<u8>> = Vec::with_capacity(n);
        let mut i: usize = 0;
        while i < n
            invariant
                n == sizes.len() == self.per_chunk@.len() == self.hashers@.len(),
                sizes == self.per_chunk@,
                d == self.data@,
                in0.len() == n,
                i <= n,
                self.pos <= d.len(),
                wf0 ==> forall|k: int| 0 <= k < sizes.len() ==> #[trigger] sizes[k] + d.len() <= usize::MAX,
                wf0 ==> self.file_hash.0@ == blake3_spec(d),
                wf0 == old(self).wf(),
                self.file_hash == old(self).file_hash,
                self.ladder == old(self).ladder,
                self.cursor == final_cursor,
                self.pos as int == file_pos(d.len() as int, p0, sizes, i as int),
                layers@.len() == i,
                views(layers@) == Seq::new(i as nat, |k: int|
                    d.subrange(file_pos(d.len() as int, p0, sizes, k), file_pos(d.len() as int, p0, sizes, k + 1))),
                forall|k: int| 0 <= k < n ==> #[trigger] self.layer_inputs()[k]
                    == in0[k] + (if k < i {
                        d.subrange(file_pos(d.len() as int, p0, sizes, k), file_pos(d.len() as int, p0, sizes, k + 1))
                    } else { Seq::<u8>::empty() }),
            decreases n - i,
        {
            let sz = self.per_chunk[i];
            let end = if self.data.len() - self.pos <= sz { self.data.len() } else { self.pos + sz };
            let mut b: Vec<u8> = Vec::with_capacity(end - self.pos);
            let mut k: usize = self.pos;
            while k < end
                invariant
                    self.pos <= k <= end <= self.data@.len(),
                    b@ == self.data@.subrange(self.pos as int, k as int),
                decreases end - k,
            {
                b.push(self.data[k]);
                k = k + 1;
                assert(b@ =~= self.data@.subrange(self.pos as int, k as int));
            }
            let ghost layer = b@;
            assert(layer == d.subrange(file_pos(d.len() as int, p0, sizes, i as int), file_pos(d.len() as int, p0, sizes, i + 1)));
            let ghost hs0 = self.hashers@;
            proof {
                assert forall|k: int| 0 <= k < n implies hasher_input(#[trigger] hs0[k])
                    == in0[k] + (if k < i {
                        d.subrange(file_pos(d.len() as int, p0, sizes, k), file_pos(d.len() as int, p0, sizes, k + 1))
                    } else { Seq::<u8>::empty() }) by {
                    assert(self.layer_inputs()[k] == hasher_input(hs0[k]));
                }
            }
            hasher_update_at(&mut self.hashers, i, b.as_slice());
            proof {
                assert forall|k: int| 0 <= k < n implies #[trigger] self.layer_inputs()[k]
                    == in0[k] + (if k < i + 1 {
                        d.subrange(file_pos(d.len() as int, p0, sizes, k), file_pos(d.len() as int, p0, sizes, k + 1))
                    } else { Seq::<u8>::empty() }) by {
                    assert(self.layer_inputs()[k] == hasher_input(self.hashers@[k]));
                    if k != i {
                        assert(self.hashers@[k] == hs0[k]);
                    }
                }
            }
            self.pos = end;
            let ghost lv = layers@;
            let ghost bv = b@;
            layers.push(b);
            proof {
                assert(views(lv) == Seq::new(i as nat, |k: int|
                    d.subrange(file_pos(d.len() as int, p0, sizes, k), file_pos(d.len() as int, p0, sizes, k + 1))));
                assert forall|k: int| 0 <= k < i + 1 implies #[trigger] views(layers@)[k]
                    == d.subrange(file_pos(d.len() as int, p0, sizes, k), file_pos(d.len() as int, p0, sizes, k + 1)) by {
                    if k < i {
                        assert(layers@[k] == lv[k]);
                        assert(views(lv)[k] == d.subrange(file_pos(d.len() as int, p0, sizes, k), file_pos(d.len() as int, p0, sizes, k + 1)));
                    } else {
                        assert(layers@[k]@ == bv);
                    }
                }
                assert(views(layers@) =~= Seq::new((i + 1) as nat, |k: int|
                    d.subrange(file_pos(d.len() as int, p0, sizes, k), file_pos(d.len() as int, p0, sizes, k + 1))));
            }
            i = i + 1;
        }
        Some(LayeredChunk { segment, chunk_index, timestamp_us, layers })
    }

    fn layer_hashes(&self) -> (r: Vec<Digest>)
        ensures hashes_of(r@, self.layer_inputs()),
    {
        finalize_all(&self.hashers)
    }
}

} // verus!
