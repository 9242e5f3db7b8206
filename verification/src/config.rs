//! Launch-time configuration: the ladder named on a node's command line and
//! the layer lists, sources and group filters of simulation scenarios.
use vstd::prelude::*;
use vstd::string::*;
use crate::ingest::rendition::{chars_vec, parse_u32_chars, parse_u32_spec};
use crate::media::ladder::{Ladder, Layer};

verus! {

/// Why a ladder spec was refused.
#[derive(Debug, Clone, Copy, PartialEq, Eq, Structural)]
pub enum LadderSpecError {
    /// `single:<kbps>` whose bitrate is not a `u32`.
    Kbps,
    /// Neither `reference` nor `single:<kbps>`.
    Unknown,
}

/// What a ladder spec names: `reference`, or `single:` followed by a bitrate.
pub open spec fn ladder_spec_parse(s: Seq<char>) -> Result<Option<u32>, LadderSpecError> {
    if s == "reference"@ {
        Ok(None)
    } else if s.len() >= 7 && s.take(7) == "single:"@ {
        match parse_u32_spec(s.skip(7)) {
            Some(k) => Ok(Some(k)),
            None => Err(LadderSpecError::Kbps),
        }
    } else {
        Err(LadderSpecError::Unknown)
    }
}

/// The ladder a node is started with: `reference` is the three-layer
/// reference ladder, `single:<kbps>` one layer at that bitrate.
pub fn ladder(spec: &str) -> (r: Result<Ladder, LadderSpecError>)
    ensures
        match ladder_spec_parse(spec@) {
            Ok(None) => r matches Ok(l) && l.layers@.len() == 3
                && l.layers@[0].label@ == "L0-480p"@ && l.layers@[0].bitrate_kbps == 1500
                && l.layers@[1].label@ == "L1-720p"@ && l.layers@[1].bitrate_kbps == 1500
                && l.layers@[2].label@ == "L2-1080p"@ && l.layers@[2].bitrate_kbps == 3000,
            Ok(Some(k)) => r matches Ok(l) && l.layers@.len() == 1 && l.layers@[0].label@ == "L0"@
                && l.layers@[0].bitrate_kbps == k,
            Err(e) => r == Err::<Ladder, LadderSpecError>(e),
        },
{
    let v = chars_vec(spec);
    let refw = chars_vec("reference");
    let pre = chars_vec("single:");
    proof {
        reveal_strlit("reference");
        reveal_strlit("single:");
    }
    assert(refw@.len() == 9);
    assert(pre@.len() == 7);
    assert(pre@.take(7) =~= pre@);
    if chars_equal(&v, &refw, v.len()) && v.len() == refw.len() {
        assert(v@.take(v@.len() as int) =~= v@);
        assert(refw@.take(v@.len() as int) =~= refw@);
        assert(v@ =~= "reference"@);
        return Ok(Ladder::reference());
    }
    assert(v@ != "reference"@);
    if v.len() >= 7 && chars_equal(&v, &pre, 7) {
        assert(v@.take(7) =~= "single:"@);
        assert(v@.subrange(7, v@.len() as int) =~= v@.skip(7));
        return match parse_u32_chars(&v, 7, v.len()) {
            Some(k) => Ok(Ladder::single(k)),
            None => Err(LadderSpecError::Kbps),
        };
    }
    proof {
        if v@.len() >= 7 && v@.take(7) == "single:"@ {
            assert(v@.take(7) =~= v@.subrange(0, 7));
        }
    }
    Err(LadderSpecError::Unknown)
}

/// Whether `a[0..n]` and `b[0..n]` agree (false when either is shorter).
fn chars_equal(a: &Vec<char>, b: &Vec<char>, n: usize) -> (r: bool)
    ensures r == (n <= a@.len() && n <= b@.len() && a@.take(n as int) == b@.take(n as int)),
{
    if n > a.len() || n > b.len() {
        return false;
    }
    let mut i: usize = 0;
    while i < n
        invariant
            i <= n <= a@.len(),
            n <= b@.len(),
            a@.take(i as int) == b@.take(i as int),
        decreases n - i,
    {
        if a[i] != b[i] {
            assert(a@.take(n as int)[i as int] != b@.take(n as int)[i as int]);
            return false;
        }
        assert(a@.take(i + 1) =~= a@.take(i as int).push(a@[i as int]));
        assert(b@.take(i + 1) =~= b@.take(i as int).push(b@[i as int]));
        i = i + 1;
    }
    true
}

/// One layer of a scenario's ladder.
#[derive(Debug, Clone)]
pub struct LayerSpec {
    /// Label.
    pub label: String,
    /// Bitrate.
    pub bitrate_kbps: u32,
}

impl LayerSpec {
    /// The reference three-layer ladder.
    pub fn reference() -> (r: Vec<LayerSpec>)
        ensures
            r@.len() == 3,
            r@[0].label@ == "L0-480p"@ && r@[0].bitrate_kbps == 1500,
            r@[1].label@ == "L1-720p"@ && r@[1].bitrate_kbps == 1500,
            r@[2].label@ == "L2-1080p"@ && r@[2].bitrate_kbps == 3000,
    {
        let mut v: Vec<LayerSpec> = Vec::new();
        v.push(LayerSpec { label: String::from_str("L0-480p"), bitrate_kbps: 1500 });
        v.push(LayerSpec { label: String::from_str("L1-720p"), bitrate_kbps: 1500 });
        v.push(LayerSpec { label: String::from_str("L2-1080p"), bitrate_kbps: 3000 });
        v
    }

    /// The ladder these layers describe, layer for layer.
    pub fn ladder(specs: &Vec<LayerSpec>) -> (r: Ladder)
        ensures
            r.layers@.len() == specs@.len(),
            forall|i: int| 0 <= i < specs@.len() ==> (#[trigger] r.layers@[i]).label@ == specs@[i].label@
                && r.layers@[i].bitrate_kbps == specs@[i].bitrate_kbps,
    {
        let mut layers: Vec<Layer> = Vec::new();
        let mut i: usize = 0;
        while i < specs.len()
            invariant
                i <= specs@.len(),
                layers@.len() == i,
                forall|k: int| 0 <= k < i ==> (#[trigger] layers@[k]).label@ == specs@[k].label@
                    && layers@[k].bitrate_kbps == specs@[k].bitrate_kbps,
            decreases specs@.len() - i,
        {
            let label = specs[i].label.clone();
            layers.push(Layer { label, bitrate_kbps: specs[i].bitrate_kbps });
            i = i + 1;
        }
        Ladder { layers }
    }
}

/// A scenario's media source.
#[derive(Debug, Clone)]
pub enum SourceSpec {
    /// Deterministic pseudo-random bytes.
    Synthetic {
        /// Seed (defaults to the scenario seed).
        seed: Option<u64>,
    },
    /// A file streamed as opaque bytes at the ladder bitrate (looped if shorter than the run).
    File {
        /// Path, relative to the scenario file or absolute.
        path: String,
        /// Loop the file when exhausted.
        repeat: bool,
    },
}

impl Default for SourceSpec {
    /// Synthetic bytes seeded from the scenario.
    fn default() -> (r: SourceSpec)
        ensures r matches SourceSpec::Synthetic { seed: None },
    {
        SourceSpec::Synthetic { seed: None }
    }
}

/// Default of a file source's `repeat`: loop.
pub fn default_true() -> (r: bool)
    ensures r,
{
    true
}

/// Default of a viewer group's filters: match anything.
pub fn any() -> (r: String)
    ensures r@ == "any"@,
{
    String::from_str("any")
}

} // verus!
