//! The layer ladder: an ordered list of layers with bitrates. The reference
//! ladder is L0 = 1.5 Mbps, L1 = 1.5 Mbps, L2 = 3.0 Mbps.
use vstd::prelude::*;

verus! {

/// One layer of the ladder.
#[derive(Debug, Clone, PartialEq, Eq)]
pub struct Layer {
    /// Human label (e.g. "480p"); not on the wire.
    pub label: String,
    /// Bitrate in kbps.
    pub bitrate_kbps: u32,
}

/// Ordered layers, lowest first. `L0` is the base layer and is never shed.
#[derive(Debug, Clone, PartialEq, Eq)]
pub struct Ladder {
    /// Layers, lowest first.
    pub layers: Vec<Layer>,
}

/// The bitrates of a ladder, lowest layer first.
pub open spec fn rates_of(layers: Seq<Layer>) -> Seq<u32> {
    layers.map_values(|l: Layer| l.bitrate_kbps)
}

/// Sum of a sequence of bitrates.
pub open spec fn sum_u32(s: Seq<u32>) -> nat
    decreases s.len(),
{
    if s.len() == 0 { 0 } else { sum_u32(s.drop_last()) + s.last() as nat }
}

/// Bytes a layer of `kbps` contributes to a chunk of `chunk_ms`.
pub open spec fn layer_bytes(kbps: u32, chunk_ms: u32) -> int {
    kbps as int * 1000 / 8 * chunk_ms as int / 1000
}

impl Ladder {
    /// The specification's reference ladder (6 Mbps total).
    pub fn reference() -> (r: Ladder)
        ensures
            r.layers@.len() == 3,
            r.layers@[0].label@ == "L0-480p"@ && r.layers@[0].bitrate_kbps == 1500,
            r.layers@[1].label@ == "L1-720p"@ && r.layers@[1].bitrate_kbps == 1500,
            r.layers@[2].label@ == "L2-1080p"@ && r.layers@[2].bitrate_kbps == 3000,
    {
        let mut layers: Vec<Layer> = Vec::new();
        layers.push(Layer { label: String::from_str("L0-480p"), bitrate_kbps: 1500 });
        layers.push(Layer { label: String::from_str("L1-720p"), bitrate_kbps: 1500 });
        layers.push(Layer { label: String::from_str("L2-1080p"), bitrate_kbps: 3000 });
        Ladder { layers }
    }

    /// A single-layer ladder at the given bitrate.
    pub fn single(bitrate_kbps: u32) -> (r: Ladder)
        ensures
            r.layers@.len() == 1,
            r.layers@[0].label@ == "L0"@ && r.layers@[0].bitrate_kbps == bitrate_kbps,
    {
        let mut layers: Vec<Layer> = Vec::new();
        layers.push(Layer { label: String::from_str("L0"), bitrate_kbps });
        Ladder { layers }
    }

    /// Number of layers.
    pub fn len(&self) -> (r: usize)
        ensures r == self.layers@.len(),
    {
        self.layers.len()
    }

    /// Whether the ladder is empty (never for a valid ladder).
    pub fn is_empty(&self) -> (r: bool)
        ensures r == (self.layers@.len() == 0),
    {
        self.layers.len() == 0
    }

    /// The bitrates, lowest layer first.
    pub fn rates(&self) -> (r: Vec<u32>)
        ensures r@ == rates_of(self.layers@),
    {
        let mut v: Vec<u32> = Vec::with_capacity(self.layers.len());
        let mut i: usize = 0;
        while i < self.layers.len()
            invariant
                0 <= i <= self.layers@.len(),
                v@ == rates_of(self.layers@).take(i as int),
            decreases self.layers@.len() - i,
        {
            v.push(self.layers[i].bitrate_kbps);
            i = i + 1;
            assert(v@ =~= rates_of(self.layers@).take(i as int));
        }
        assert(rates_of(self.layers@).take(i as int) =~= rates_of(self.layers@));
        v
    }

    /// Total bitrate, kbps; the sum must fit a `u32`.
    pub fn total_kbps(&self) -> (r: u32)
        requires sum_u32(rates_of(self.layers@)) <= u32::MAX,
        ensures r == sum_u32(rates_of(self.layers@)),
    {
        let ghost rates = rates_of(self.layers@);
        let mut total: u32 = 0;
        let mut i: usize = 0;
        while i < self.layers.len()
            invariant
                0 <= i <= self.layers@.len(),
                rates == rates_of(self.layers@),
                sum_u32(rates) <= u32::MAX,
                total == sum_u32(rates.take(i as int)),
            decreases self.layers@.len() - i,
        {
            proof {
                assert(rates.take(i + 1).drop_last() =~= rates.take(i as int));
                lemma_sum_prefix_le(rates, i + 1);
            }
            total = total + self.layers[i].bitrate_kbps;
            i = i + 1;
        }
        assert(rates.take(i as int) =~= rates);
        total
    }

    /// Bytes each layer contributes to a chunk of `chunk_ms` at its nominal rate.
    pub fn bytes_per_chunk(&self, chunk_ms: u32) -> (r: Vec<usize>)
        requires
            forall|i: int| 0 <= i < self.layers@.len() ==> (#[trigger] self.layers@[i]).bitrate_kbps as int * 125 * chunk_ms as int <= u64::MAX,
            forall|i: int| 0 <= i < self.layers@.len() ==> layer_bytes((#[trigger] self.layers@[i]).bitrate_kbps, chunk_ms) <= usize::MAX,
        ensures
            r@.len() == self.layers@.len(),
            forall|i: int| 0 <= i < r@.len() ==> #[trigger] r@[i] as int == layer_bytes(self.layers@[i].bitrate_kbps, chunk_ms),
    {
        let mut v: Vec<usize> = Vec::with_capacity(self.layers.len());
        let mut i: usize = 0;
        while i < self.layers.len()
            invariant
                0 <= i <= self.layers@.len(),
                v@.len() == i,
                forall|i: int| 0 <= i < self.layers@.len() ==> (#[trigger] self.layers@[i]).bitrate_kbps as int * 125 * chunk_ms as int <= u64::MAX,
                forall|i: int| 0 <= i < self.layers@.len() ==> layer_bytes((#[trigger] self.layers@[i]).bitrate_kbps, chunk_ms) <= usize::MAX,
                forall|k: int| 0 <= k < i ==> #[trigger] v@[k] as int == layer_bytes(self.layers@[k].bitrate_kbps, chunk_ms),
            decreases self.layers@.len() - i,
        {
            let kbps = self.layers[i].bitrate_kbps as u64;
            assert(kbps * 1000 / 8 == kbps * 125);
            let b = kbps * 1000 / 8 * (chunk_ms as u64) / 1000;
            assert(b == layer_bytes(self.layers@[i as int].bitrate_kbps, chunk_ms));
            v.push(b as usize);
            i = i + 1;
        }
        v
    }
}

/// Every prefix sum is at most the whole sum.
pub proof fn lemma_sum_prefix_le(s: Seq<u32>, k: int)
    requires 0 <= k <= s.len(),
    ensures sum_u32(s.take(k)) <= sum_u32(s),
    decreases s.len(),
{
    if k < s.len() {
        assert(s.drop_last().take(k) =~= s.take(k));
        lemma_sum_prefix_le(s.drop_last(), k);
    } else {
        assert(s.take(k) =~= s);
    }
}

} // verus!
