//! RaptorQ FEC: one source block per 16 KB Merkle block, K = 16 symbols of
//! 1024 B, systematic. Decoding takes the concatenation fast path when every
//! source symbol is present.
use vstd::prelude::*;
use vstd::set_lib::{lemma_len_subset, range_set_properties};
use crate::crypto::hashing::{blake3_digest, blake3_spec};
use crate::wire::{be_u32, read_u32_be, BlockIndex, NodeId, SegmentSeq, BLOCK_SIZE, K_BLOCK, SYMBOL_SIZE};
use super::manifest::RaptorQSymbol;
use super::MediaError;

verus! {

/// The repair symbol RaptorQ produces with encoding symbol id `esi` for a
/// 16 KB source block (one source block, 1024-byte symbols).
pub uninterp spec fn raptorq_repair_symbol(block: Seq<u8>, esi: u32) -> Seq<u8>;

/// What RaptorQ's source-block decoder returns for the given `(esi, payload)`
/// packets, handed to it in this order.
pub uninterp spec fn raptorq_decoded(packets: Seq<(u32, Seq<u8>)>) -> Option<Seq<u8>>;

/// Calls `raptorq::SourceBlockEncoder::new` on `block` (block 0, 1024-byte
/// symbols) and then `repair_packets(start, count)`. The contract claims what
/// the crate's source shows: `count` packets whose encoding symbol ids run from
/// `16 + start` (the source symbol count is added to `start`), each 1024 bytes;
/// the payload bytes are named by `raptorq_repair_symbol`.
#[verifier::external_body]
fn raptorq_repair(block: &[u8], start: u32, count: u32) -> (r: Vec<(u32, Vec<u8>)>)
    requires
        block@.len() == BLOCK_SIZE,
        start <= 0xffff,
        count <= 0xffff,
    ensures
        r@.len() == count,
        forall|i: int| 0 <= i < count ==> {
            &&& (#[trigger] r@[i]).0 == K_BLOCK + start + i
            &&& r@[i].1@ == raptorq_repair_symbol(block@, r@[i].0)
            &&& r@[i].1@.len() == SYMBOL_SIZE
        },
{
    let oti = raptorq::ObjectTransmissionInformation::new(BLOCK_SIZE as u64, SYMBOL_SIZE as u16, 1, 1, 8);
    let enc = raptorq::SourceBlockEncoder::new(0, &oti, block);
    let mut out = Vec::new();
    for p in enc.repair_packets(start, count) {
        let (pid, data) = p.split();
        out.push((pid.encoding_symbol_id(), data));
    }
    out
}

/// The encoding symbol ids of a list of packets.
pub open spec fn packet_esis(p: Seq<(u32, Seq<u8>)>) -> Seq<u32> {
    p.map_values(|x: (u32, Seq<u8>)| x.0)
}

/// Whether some packet carries encoding symbol id `e`.
pub open spec fn has_esi(p: Seq<(u32, Seq<u8>)>, e: u32) -> bool {
    exists|i: int| 0 <= i < p.len() && (#[trigger] p[i]).0 == e
}

/// The first packet carrying encoding symbol id `e`.
pub open spec fn first_with(p: Seq<(u32, Seq<u8>)>, e: u32) -> int {
    choose|i: int| 0 <= i < p.len() && (#[trigger] p[i]).0 == e && forall|j: int| 0 <= j < i ==> (#[trigger] p[j]).0 != e
}

/// The 16 source symbols, in id order, each from the first packet carrying it.
pub open spec fn source_concat(p: Seq<(u32, Seq<u8>)>) -> Seq<u8> {
    Seq::new(BLOCK_SIZE as nat, |k: int| p[first_with(p, (k / SYMBOL_SIZE as int) as u32)].1[k % SYMBOL_SIZE as int])
}

/// Calls `raptorq::SourceBlockDecoder::new` for one 16 KB source block and
/// `decode` on the packets in order. The contract names the result
/// `raptorq_decoded`, and states two things the crate's source shows: with
/// fewer than 16 distinct symbol ids there is no result, and with every
/// source symbol id (0 to 15) present the result is the source symbols in id
/// order, each from the first packet carrying it (a repeated id is ignored).
/// Which other packet sets decode is not stated.
#[verifier::external_body]
fn raptorq_decode(packets: Vec<(u32, Vec<u8>)>) -> (r: Option<Vec<u8>>)
    requires
        forall|i: int| 0 <= i < packets@.len() ==> {
            &&& (#[trigger] packets@[i]).0 < 0x100_0000
            &&& packets@[i].1@.len() == SYMBOL_SIZE
        },
    ensures
        opt_bytes(r) == raptorq_decoded(packet_views(packets@)),
        packet_esis(packet_views(packets@)).to_set().len() < K_BLOCK ==> r is None,
        (forall|e: u32| e < K_BLOCK ==> #[trigger] has_esi(packet_views(packets@), e)) ==> opt_bytes(r) == Some(
            source_concat(packet_views(packets@)),
        ),
{
    let oti = raptorq::ObjectTransmissionInformation::new(BLOCK_SIZE as u64, SYMBOL_SIZE as u16, 1, 1, 8);
    let mut dec = raptorq::SourceBlockDecoder::new(0, &oti, BLOCK_SIZE as u64);
    let mut v = Vec::new();
    for (esi, data) in packets {
        v.push(raptorq::EncodingPacket::new(raptorq::PayloadId::new(0, esi), data));
    }
    dec.decode(v)
}

/// Size of the range repair bases are drawn from: `2^16 − K − 256`.
pub const REPAIR_RANGE: u32 = 65264;

/// The per-responder repair ESI base: `K + (Blake3(NodeID) mod (2^16 − K − 256))`,
/// reading the digest's first four bytes big-endian.
pub open spec fn repair_base_spec(node: Seq<u8>) -> u16 {
    let h = blake3_spec(node);
    (K_BLOCK + be_u32(h[0], h[1], h[2], h[3]) % REPAIR_RANGE) as u16
}

/// The per-responder repair ESI base.
pub fn repair_esi_base(node: &NodeId) -> (r: u16)
    ensures
        r == repair_base_spec(node.0@),
        K_BLOCK <= r < 0x1_0000 - 256,
{
    let h = blake3_digest(node.0.as_slice());
    let v = read_u32_be(h[0], h[1], h[2], h[3]);
    (K_BLOCK as u32 + v % REPAIR_RANGE) as u16
}

/// Encoder for one block.
pub struct FecEncoder {
    block: Vec<u8>,
    segment: SegmentSeq,
    index: BlockIndex,
}

impl FecEncoder {
    /// The block bytes.
    pub closed spec fn block_spec(&self) -> Seq<u8> {
        self.block@
    }

    /// The segment stamped on the symbols.
    pub closed spec fn segment_spec(&self) -> SegmentSeq {
        self.segment
    }

    /// The block index stamped on the symbols.
    pub closed spec fn index_spec(&self) -> BlockIndex {
        self.index
    }

    /// Wrap a verified 16 KB block.
    pub fn new(segment: SegmentSeq, index: BlockIndex, block: Vec<u8>) -> (r: FecEncoder)
        requires block@.len() == BLOCK_SIZE,
        ensures
            r.block_spec() == block@,
            r.segment_spec() == segment,
            r.index_spec() == index,
    {
        FecEncoder { block, segment, index }
    }

    /// The 16 systematic symbols: raw 1024-byte slices of the block.
    pub fn source_symbols(&self) -> (r: Vec<RaptorQSymbol>)
        requires self.block_spec().len() == BLOCK_SIZE,
        ensures
            r@.len() == K_BLOCK,
            forall|i: int| 0 <= i < K_BLOCK ==> {
                &&& (#[trigger] r@[i]).segment == self.segment_spec()
                &&& r@[i].block == self.index_spec()
                &&& r@[i].esi == i
                &&& r@[i].payload@ == self.block_spec().subrange(i * SYMBOL_SIZE, (i + 1) * SYMBOL_SIZE)
            },
    {
        let mut out: Vec<RaptorQSymbol> = Vec::new();
        let mut i: usize = 0;
        while i < K_BLOCK
            invariant
                i <= K_BLOCK,
                self.block@.len() == BLOCK_SIZE,
                out@.len() == i,
                forall|k: int| 0 <= k < i ==> {
                    &&& (#[trigger] out@[k]).segment == self.segment
                    &&& out@[k].block == self.index
                    &&& out@[k].esi == k
                    &&& out@[k].payload@ == self.block@.subrange(k * SYMBOL_SIZE, (k + 1) * SYMBOL_SIZE)
                },
            decreases K_BLOCK - i,
        {
            let start = i * SYMBOL_SIZE;
            let mut payload: Vec<u8> = Vec::with_capacity(SYMBOL_SIZE);
            let mut k: usize = start;
            while k < start + SYMBOL_SIZE
                invariant
                    start == i * SYMBOL_SIZE,
                    i < K_BLOCK,
                    self.block@.len() == BLOCK_SIZE,
                    start <= k <= start + SYMBOL_SIZE,
                    payload@ == self.block@.subrange(start as int, k as int),
                decreases start + SYMBOL_SIZE - k,
            {
                payload.push(self.block[k]);
                k = k + 1;
                assert(payload@ =~= self.block@.subrange(start as int, k as int));
            }
            out.push(RaptorQSymbol { segment: self.segment, block: self.index, esi: i as u16, payload });
            i = i + 1;
        }
        out
    }

    /// `count` repair symbols asked for from `esi_start` (at least 16). RaptorQ
    /// numbers them from `16 + esi_start`; ids past `u16` wrap.
    pub fn repair_symbols(&self, esi_start: u16, count: u16) -> (r: Vec<RaptorQSymbol>)
        requires
            self.block_spec().len() == BLOCK_SIZE,
            esi_start >= K_BLOCK,
        ensures
            r@.len() == count,
            forall|i: int| 0 <= i < count ==> {
                &&& (#[trigger] r@[i]).segment == self.segment_spec()
                &&& r@[i].block == self.index_spec()
                &&& r@[i].esi == (K_BLOCK + esi_start + i) as u16
                &&& r@[i].payload@ == raptorq_repair_symbol(self.block_spec(), (K_BLOCK + esi_start + i) as u32)
                &&& r@[i].payload@.len() == SYMBOL_SIZE
            },
    {
        let packets = raptorq_repair(self.block.as_slice(), esi_start as u32, count as u32);
        let mut out: Vec<RaptorQSymbol> = Vec::new();
        let mut i: usize = 0;
        while i < packets.len()
            invariant
                i <= packets@.len() == count,
                forall|k: int| 0 <= k < count ==> {
                    &&& (#[trigger] packets@[k]).0 == K_BLOCK + esi_start + k
                    &&& packets@[k].1@ == raptorq_repair_symbol(self.block@, packets@[k].0)
                    &&& packets@[k].1@.len() == SYMBOL_SIZE
                },
                out@.len() == i,
                forall|k: int| 0 <= k < i ==> {
                    &&& (#[trigger] out@[k]).segment == self.segment
                    &&& out@[k].block == self.index
                    &&& out@[k].esi == (K_BLOCK + esi_start + k) as u16
                    &&& out@[k].payload@ == raptorq_repair_symbol(self.block@, (K_BLOCK + esi_start + k) as u32)
                    &&& out@[k].payload@.len() == SYMBOL_SIZE
                },
            decreases packets@.len() - i,
        {
            let esi = packets[i].0;
            let payload = packets[i].1.clone();
            assert(payload@ == packets@[i as int].1@);
            out.push(RaptorQSymbol { segment: self.segment, block: self.index, esi: esi as u16, payload });
            i = i + 1;
        }
        out
    }

    /// Source symbols followed by `parity` repair symbols from ESI 16 — the
    /// push-path emission for one child link.
    pub fn push_symbols(&self, parity: u16) -> (r: Vec<RaptorQSymbol>)
        requires self.block_spec().len() == BLOCK_SIZE,
        ensures
            r@.len() == K_BLOCK + parity,
            forall|i: int| 0 <= i < K_BLOCK ==> {
                &&& (#[trigger] r@[i]).segment == self.segment_spec()
                &&& r@[i].block == self.index_spec()
                &&& r@[i].esi == i
                &&& r@[i].payload@ == self.block_spec().subrange(i * SYMBOL_SIZE, (i + 1) * SYMBOL_SIZE)
            },
            forall|i: int| K_BLOCK <= i < K_BLOCK + parity ==> {
                &&& (#[trigger] r@[i]).segment == self.segment_spec()
                &&& r@[i].block == self.index_spec()
                &&& r@[i].esi == (K_BLOCK + i) as u16
                &&& r@[i].payload@ == raptorq_repair_symbol(self.block_spec(), (K_BLOCK + i) as u32)
                &&& r@[i].payload@.len() == SYMBOL_SIZE
            },
    {
        let mut v = self.source_symbols();
        let mut rep = self.repair_symbols(K_BLOCK as u16, parity);
        let ghost a = v@;
        let ghost b = rep@;
        v.append(&mut rep);
        assert(v@ == a + b);
        assert forall|i: int| K_BLOCK <= i < K_BLOCK + parity implies #[trigger] v@[i] == b[i - K_BLOCK] by {}
        v
    }
}


/// How many slots are filled.
pub open spec fn some_count(s: Seq<Option<Seq<u8>>>) -> nat
    decreases s.len(),
{
    if s.len() == 0 {
        0
    } else {
        some_count(s.drop_last()) + (if s.last() is Some { 1nat } else { 0nat })
    }
}

/// The present source symbols as `(esi, payload)` packets, in ESI order.
pub open spec fn source_packets(s: Seq<Option<Seq<u8>>>) -> Seq<(u32, Seq<u8>)>
    decreases s.len(),
{
    if s.len() == 0 {
        Seq::empty()
    } else {
        let rest = source_packets(s.drop_last());
        match s.last() {
            Some(p) => rest.push(((s.len() - 1) as u32, p)),
            None => rest,
        }
    }
}

/// The source payloads concatenated in ESI order (every slot filled).
pub open spec fn concat_source(s: Seq<Option<Seq<u8>>>) -> Seq<u8>
    decreases s.len(),
{
    if s.len() == 0 {
        Seq::empty()
    } else {
        concat_source(s.drop_last()) + s.last()->Some_0
    }
}

/// The contents of optional buffers.
pub open spec fn slot_views(s: Seq<Option<Vec<u8>>>) -> Seq<Option<Seq<u8>>> {
    s.map_values(|o: Option<Vec<u8>>| opt_bytes(o))
}

/// The contents of an optional buffer.
pub open spec fn opt_bytes(o: Option<Vec<u8>>) -> Option<Seq<u8>> {
    match o {
        Some(v) => Some(v@),
        None => None,
    }
}

/// The contents of `(esi, payload)` packets.
pub open spec fn packet_views(p: Seq<(u32, Vec<u8>)>) -> Seq<(u32, Seq<u8>)> {
    p.map_values(|x: (u32, Vec<u8>)| (x.0, x.1@))
}

/// The repair symbols as packets, in arrival order.
pub open spec fn repair_packets(r: Seq<(u16, Seq<u8>)>) -> Seq<(u32, Seq<u8>)> {
    r.map_values(|p: (u16, Seq<u8>)| (p.0 as u32, p.1))
}

/// Accumulates symbols for one block until it can be reconstructed.
#[derive(Debug, Clone)]
pub struct SymbolCollector {
    source: Vec<Option<Vec<u8>>>,
    repair: Vec<(u16, Vec<u8>)>,
    have_source: usize,
}

impl SymbolCollector {
    /// Source slots, by ESI.
    pub closed spec fn source_view(&self) -> Seq<Option<Seq<u8>>> {
        slot_views(self.source@)
    }

    /// Repair symbols in arrival order.
    pub closed spec fn repair_view(&self) -> Seq<(u16, Seq<u8>)> {
        self.repair@.map_values(|p: (u16, Vec<u8>)| (p.0, p.1@))
    }

    /// The ESIs of the repair symbols held.
    pub open spec fn repair_esis(&self) -> Seq<u16> {
        self.repair_view().map_values(|p: (u16, Seq<u8>)| p.0)
    }

    /// Whether a symbol with this ESI is held.
    pub open spec fn holds(&self, esi: u16) -> bool {
        if (esi as int) < K_BLOCK {
            self.source_view()[esi as int] is Some
        } else {
            self.repair_esis().contains(esi)
        }
    }

    /// Distinct symbols held.
    pub open spec fn count_spec(&self) -> nat {
        some_count(self.source_view()) + self.repair_view().len()
    }

    /// Sixteen source slots, distinct repair ESIs at or above 16, every
    /// payload one symbol long, and the source count tracked.
    pub open spec fn wf(&self) -> bool {
        &&& self.source_view().len() == K_BLOCK
        &&& forall|i: int| 0 <= i < K_BLOCK ==> ((#[trigger] self.source_view()[i]) matches Some(p) ==> p.len() == SYMBOL_SIZE)
        &&& forall|i: int| 0 <= i < self.repair_view().len() ==> (#[trigger] self.repair_view()[i]).1.len() == SYMBOL_SIZE
        &&& forall|i: int| 0 <= i < self.repair_view().len() ==> (#[trigger] self.repair_view()[i]).0 >= K_BLOCK
        &&& self.repair_esis().no_duplicates()
        &&& self.repair_view().len() <= 0x1_0000 - K_BLOCK
        &&& self.have_spec() == some_count(self.source_view())
    }

    /// The tracked count of source symbols.
    pub closed spec fn have_spec(&self) -> nat {
        self.have_source as nat
    }

    /// Empty collector.
    pub fn new() -> (r: SymbolCollector)
        ensures
            r.wf(),
            r.source_view() == Seq::new(K_BLOCK as nat, |i: int| None::<Seq<u8>>),
            r.repair_view() == Seq::<(u16, Seq<u8>)>::empty(),
    {
        let mut source: Vec<Option<Vec<u8>>> = Vec::new();
        let mut i: usize = 0;
        while i < K_BLOCK
            invariant
                i <= K_BLOCK,
                source@.len() == i,
                slot_views(source@) == Seq::new(i as nat, |k: int| None::<Seq<u8>>),
            decreases K_BLOCK - i,
        {
            let ghost before = source@;
            source.push(None);
            i = i + 1;
            assert forall|k: int| 0 <= k < i implies #[trigger] slot_views(source@)[k] == None::<Seq<u8>> by {
                if k < i - 1 {
                    assert(source@[k] == before[k]);
                    assert(slot_views(before)[k] == None::<Seq<u8>>);
                }
            }
            assert(slot_views(source@) =~= Seq::new(i as nat, |k: int| None::<Seq<u8>>));
        }
        let r = SymbolCollector { source, repair: Vec::new(), have_source: 0 };
        proof {
            lemma_some_count_none(K_BLOCK as nat);
            assert(r.repair_view() =~= Seq::<(u16, Seq<u8>)>::empty());
            assert(r.repair_esis() =~= Seq::<u16>::empty());
        }
        r
    }

    /// Add a symbol. Returns `true` if it was new; a payload that is not one
    /// symbol long is refused.
    pub fn add(&mut self, esi: u16, payload: Vec<u8>) -> (r: Result<bool, MediaError>)
        requires old(self).wf(),
        ensures
            final(self).wf(),
            payload@.len() != SYMBOL_SIZE ==> {
                &&& r == Err::<bool, MediaError>(MediaError::BadSymbolSize(payload@.len() as usize))
                &&& final(self).source_view() == old(self).source_view()
                &&& final(self).repair_view() == old(self).repair_view()
            },
            payload@.len() == SYMBOL_SIZE && old(self).holds(esi) ==> {
                &&& r == Ok::<bool, MediaError>(false)
                &&& final(self).source_view() == old(self).source_view()
                &&& final(self).repair_view() == old(self).repair_view()
            },
            payload@.len() == SYMBOL_SIZE && !old(self).holds(esi) ==> {
                &&& r == Ok::<bool, MediaError>(true)
                &&& (esi as int) < K_BLOCK ==> final(self).source_view() == old(self).source_view().update(esi as int, Some(payload@))
                &&& (esi as int) < K_BLOCK ==> final(self).repair_view() == old(self).repair_view()
                &&& (esi as int) >= K_BLOCK ==> final(self).source_view() == old(self).source_view()
                &&& (esi as int) >= K_BLOCK ==> final(self).repair_view() == old(self).repair_view().push((esi, payload@))
            },
    {
        if payload.len() != SYMBOL_SIZE {
            return Err(MediaError::BadSymbolSize(payload.len()));
        }
        let ghost src0 = self.source_view();
        let ghost rep0 = self.repair_view();
        if (esi as usize) < K_BLOCK {
            if self.source[esi as usize].is_some() {
                return Ok(false);
            }
            let ghost pv = payload@;
            proof {
                lemma_some_count_fill(src0, esi as int, pv);
                lemma_some_count_le(src0.update(esi as int, Some(pv)));
            }
            self.source.set(esi as usize, Some(payload));
            assert(self.source_view() =~= src0.update(esi as int, Some(pv)));
            self.have_source = self.have_source + 1;
            assert(self.repair_view() == rep0);
            Ok(true)
        } else {
            let mut i: usize = 0;
            while i < self.repair.len()
                invariant
                    i <= self.repair@.len(),
                    self.wf(),
                    payload@.len() == SYMBOL_SIZE,
                    esi >= K_BLOCK,
                    self.source_view() == src0,
                    self.repair_view() == rep0,
                    *self == *old(self),
                    rep0.len() == self.repair@.len(),
                    forall|k: int| 0 <= k < i ==> (#[trigger] rep0[k]).0 != esi,
                decreases self.repair@.len() - i,
            {
                if self.repair[i].0 == esi {
                    proof {
                        assert(rep0[i as int].0 == esi);
                        assert(self.repair_esis()[i as int] == esi);
                    }
                    return Ok(false);
                }
                i = i + 1;
            }
            proof {
                assert forall|k: int| 0 <= k < self.repair_esis().len() implies self.repair_esis()[k] != esi by {
                    assert(rep0[k].0 != esi);
                }
            }
            let ghost pv = payload@;
            self.repair.push((esi, payload));
            proof {
                assert(self.repair_view() =~= rep0.push((esi, pv)));
                let es = self.repair_esis();
                assert(es =~= rep0.map_values(|p: (u16, Seq<u8>)| p.0).push(esi));
                assert(es.no_duplicates());
                lemma_distinct_esis(es);
            }
            Ok(true)
        }
    }

    /// Distinct symbols held.
    pub fn count(&self) -> (r: usize)
        requires self.wf(),
        ensures r == self.count_spec(),
    {
        proof {
            lemma_some_count_le(self.source_view());
        }
        self.have_source + self.repair.len()
    }

    /// Whether at least K symbols are held (decode may be attempted).
    pub fn is_complete(&self) -> (r: bool)
        requires self.wf(),
        ensures r == (self.count_spec() >= K_BLOCK),
    {
        self.count() >= K_BLOCK
    }

    /// Whether every source symbol is present (fast path).
    pub fn all_source(&self) -> (r: bool)
        requires self.wf(),
        ensures r == (some_count(self.source_view()) == K_BLOCK),
    {
        self.have_source == K_BLOCK
    }

    /// Symbols still needed to reach K.
    pub fn missing(&self) -> (r: usize)
        requires self.wf(),
        ensures r == (if self.count_spec() >= K_BLOCK { 0 } else { K_BLOCK - self.count_spec() }),
    {
        let c = self.count();
        if c >= K_BLOCK { 0 } else { K_BLOCK - c }
    }

    /// The packets handed to the RaptorQ decoder: present source symbols in
    /// ESI order, then the repair symbols in arrival order.
    pub open spec fn packets_spec(&self) -> Seq<(u32, Seq<u8>)> {
        source_packets(self.source_view()) + repair_packets(self.repair_view())
    }

    /// Reconstruct the block. Concatenates when all source symbols are present;
    /// otherwise runs the RaptorQ decoder on what is held.
    pub fn decode(&self) -> (r: Result<Vec<u8>, MediaError>)
        requires self.wf(),
        ensures
            some_count(self.source_view()) == K_BLOCK
                ==> (r matches Ok(v) && v@ == concat_source(self.source_view())),
            some_count(self.source_view()) != K_BLOCK && self.count_spec() < K_BLOCK
                ==> r == Err::<Vec<u8>, MediaError>(MediaError::Undecodable),
            some_count(self.source_view()) != K_BLOCK && self.count_spec() >= K_BLOCK
                ==> result_bytes(r) == decode_outcome(raptorq_decoded(self.packets_spec())),
    {
        if self.all_source() {
            let mut v: Vec<u8> = Vec::with_capacity(BLOCK_SIZE);
            let mut i: usize = 0;
            proof {
                lemma_all_some(self.source_view());
            }
            while i < K_BLOCK
                invariant
                    i <= K_BLOCK,
                    self.source_view().len() == K_BLOCK,
                    forall|k: int| 0 <= k < K_BLOCK ==> (#[trigger] self.source_view()[k]) is Some,
                    v@ == concat_source(self.source_view().take(i as int)),
                decreases K_BLOCK - i,
            {
                let ghost before = v@;
                match &self.source[i] {
                    Some(p) => {
                        let mut k: usize = 0;
                        while k < p.len()
                            invariant
                                k <= p@.len(),
                                v@ == before + p@.take(k as int),
                            decreases p@.len() - k,
                        {
                            v.push(p[k]);
                            k = k + 1;
                            assert(v@ =~= before + p@.take(k as int));
                        }
                        assert(p@.take(k as int) =~= p@);
                        assert(self.source_view()[i as int] == Some(p@));
                    },
                    None => {
                        assert(self.source_view()[i as int] is None);
                    },
                }
                assert(self.source_view().take(i + 1).drop_last() =~= self.source_view().take(i as int));
                i = i + 1;
            }
            assert(self.source_view().take(K_BLOCK as int) =~= self.source_view());
            return Ok(v);
        }
        if !self.is_complete() {
            return Err(MediaError::Undecodable);
        }
        let mut packets: Vec<(u32, Vec<u8>)> = Vec::new();
        let mut i: usize = 0;
        while i < K_BLOCK
            invariant
                i <= K_BLOCK,
                self.wf(),
                packet_views(packets@) == source_packets(self.source_view().take(i as int)),
                forall|k: int| 0 <= k < packets@.len() ==> {
                    &&& (#[trigger] packets@[k]).0 < K_BLOCK
                    &&& packets@[k].1@.len() == SYMBOL_SIZE
                },
            decreases K_BLOCK - i,
        {
            let ghost before = packet_views(packets@);
            assert(self.source_view().take(i + 1).drop_last() =~= self.source_view().take(i as int));
            match &self.source[i] {
                Some(p) => {
                    let c = p.clone();
                    assert(self.source_view()[i as int] == Some(p@));
                    packets.push((i as u32, c));
                    assert(packet_views(packets@) =~= before.push((i as u32, p@)));
                },
                None => {
                    assert(self.source_view()[i as int] is None);
                },
            }
            i = i + 1;
        }
        assert(self.source_view().take(K_BLOCK as int) =~= self.source_view());
        let ghost base = packet_views(packets@);
        let ghost nsrc = packets@.len();
        let mut j: usize = 0;
        while j < self.repair.len()
            invariant
                j <= self.repair@.len(),
                self.wf(),
                packet_views(packets@) == base + repair_packets(self.repair_view().take(j as int)),
                forall|k: int| 0 <= k < packets@.len() ==> {
                    &&& (#[trigger] packets@[k]).0 < 0x100_0000
                    &&& packets@[k].1@.len() == SYMBOL_SIZE
                },
            decreases self.repair@.len() - j,
        {
            let ghost before = packet_views(packets@);
            let esi = self.repair[j].0;
            let c = self.repair[j].1.clone();
            assert(self.repair_view()[j as int] == (esi, c@));
            packets.push((esi as u32, c));
            assert(repair_packets(self.repair_view().take(j + 1)) =~= repair_packets(self.repair_view().take(j as int)).push((esi as u32, c@)));
            assert(packet_views(packets@) =~= before.push((esi as u32, c@)));
            assert(packet_views(packets@) =~= base + repair_packets(self.repair_view().take(j + 1)));
            j = j + 1;
        }
        assert(self.repair_view().take(j as int) =~= self.repair_view());
        let decoded = raptorq_decode(packets);
        decoded_block(decoded)
    }
}

/// The bytes of a decoded block, or the error.
pub open spec fn result_bytes(r: Result<Vec<u8>, MediaError>) -> Result<Seq<u8>, MediaError> {
    match r {
        Ok(v) => Ok(v@),
        Err(e) => Err(e),
    }
}

/// What `decode` returns for the decoder's answer.
pub open spec fn decode_outcome(d: Option<Seq<u8>>) -> Result<Seq<u8>, MediaError> {
    match d {
        Some(b) => Ok(b),
        None => Err(MediaError::Undecodable),
    }
}

/// The decoder's answer as a block, or `Undecodable`.
pub fn decoded_block(decoded: Option<Vec<u8>>) -> (r: Result<Vec<u8>, MediaError>)
    ensures result_bytes(r) == decode_outcome(opt_bytes(decoded)),
{
    match decoded {
        Some(v) => Ok(v),
        None => Err(MediaError::Undecodable),
    }
}

proof fn lemma_some_count_none(n: nat)
    ensures some_count(Seq::new(n, |i: int| None::<Seq<u8>>)) == 0,
    decreases n,
{
    if n > 0 {
        assert(Seq::new(n, |i: int| None::<Seq<u8>>).drop_last() =~= Seq::new((n - 1) as nat, |i: int| None::<Seq<u8>>));
        lemma_some_count_none((n - 1) as nat);
    }
}

proof fn lemma_some_count_le(s: Seq<Option<Seq<u8>>>)
    ensures some_count(s) <= s.len(),
    decreases s.len(),
{
    if s.len() > 0 {
        lemma_some_count_le(s.drop_last());
    }
}

proof fn lemma_some_count_fill(s: Seq<Option<Seq<u8>>>, i: int, p: Seq<u8>)
    requires 0 <= i < s.len(), s[i] is None,
    ensures some_count(s.update(i, Some(p))) == some_count(s) + 1,
    decreases s.len(),
{
    let t = s.update(i, Some(p));
    if i < s.len() - 1 {
        assert(t.drop_last() =~= s.drop_last().update(i, Some(p)));
        lemma_some_count_fill(s.drop_last(), i, p);
    } else {
        assert(t.drop_last() =~= s.drop_last());
    }
}

/// Every slot is filled when the count says so.
proof fn lemma_all_some(s: Seq<Option<Seq<u8>>>)
    requires some_count(s) == s.len(),
    ensures forall|k: int| 0 <= k < s.len() ==> (#[trigger] s[k]) is Some,
    decreases s.len(),
{
    if s.len() > 0 {
        lemma_some_count_le(s.drop_last());
        lemma_all_some(s.drop_last());
        assert forall|k: int| 0 <= k < s.len() implies (#[trigger] s[k]) is Some by {
            if k < s.len() - 1 {
                assert(s[k] == s.drop_last()[k]);
            }
        }
    }
}

/// Distinct repair ESIs are at most the `2^16 − 16` values they can take.
proof fn lemma_distinct_esis(es: Seq<u16>)
    requires
        es.no_duplicates(),
        forall|i: int| 0 <= i < es.len() ==> es[i] >= K_BLOCK,
    ensures es.len() <= 0x1_0000 - K_BLOCK,
{
    es.unique_seq_to_set();
    let all = Set::<u16>::range(16u16, 0xffffu16).insert(0xffffu16);
    range_set_properties::<u16>(16u16, 0xffffu16);
    assert(es.to_set().subset_of(all)) by {
        assert forall|x: u16| es.to_set().contains(x) implies all.contains(x) by {
            let k = choose|k: int| 0 <= k < es.len() && es[k] == x;
        }
    }
    lemma_len_subset(es.to_set(), all);
}

/// Law: the sixteen 1024-byte slices of a 16 KB block, concatenated in ESI
/// order, give the block back (the fast path inverts `source_symbols`).
pub proof fn lemma_source_slices_concat(block: Seq<u8>)
    requires block.len() == BLOCK_SIZE,
    ensures
        concat_source(Seq::new(K_BLOCK as nat, |i: int| Some(block.subrange(i * SYMBOL_SIZE, (i + 1) * SYMBOL_SIZE))))
            == block,
{
    lemma_slices_prefix(block, K_BLOCK as int);
    assert(block.subrange(0, BLOCK_SIZE as int) =~= block);
}

proof fn lemma_slices_prefix(block: Seq<u8>, k: int)
    requires block.len() == BLOCK_SIZE, 0 <= k <= K_BLOCK,
    ensures
        concat_source(Seq::new(k as nat, |i: int| Some(block.subrange(i * SYMBOL_SIZE, (i + 1) * SYMBOL_SIZE))))
            == block.subrange(0, k * SYMBOL_SIZE),
    decreases k,
{
    let s = Seq::new(k as nat, |i: int| Some(block.subrange(i * SYMBOL_SIZE, (i + 1) * SYMBOL_SIZE)));
    if k == 0 {
        assert(block.subrange(0, 0) =~= Seq::<u8>::empty());
    } else {
        lemma_slices_prefix(block, k - 1);
        assert(s.drop_last() =~= Seq::new((k - 1) as nat, |i: int| Some(block.subrange(i * SYMBOL_SIZE, (i + 1) * SYMBOL_SIZE))));
        assert(block.subrange(0, (k - 1) * SYMBOL_SIZE) + block.subrange((k - 1) * SYMBOL_SIZE, k * SYMBOL_SIZE)
            =~= block.subrange(0, k * SYMBOL_SIZE));
    }
}

} // verus!
