//! S/Kademlia static and dynamic proof-of-work puzzles.
//!
//! * Static: `Blake3(PK ‖ N_static)` has `C1` leading zero bits. Its output is the NodeID.
//! * Dynamic: `Blake3(NodeID ‖ IP ‖ N_dynamic)` has `C2` leading zero bits, where
//!   `IP` is the external address as observed by the verifier (4 or 16 bytes).
use vstd::prelude::*;
use crate::wire::{ip_octets, push_bytes, push_u64_be, u64_be, IpAddress, NodeClass, NodeId, PublicKeyBytes};
use super::hashing::{blake3_digest, blake3_spec};
use super::signing::CryptoError;
use super::{leading_zero_bits, lzb};

verus! {

/// Difficulty parameters.
#[derive(Debug, Clone, Copy, PartialEq, Eq, Structural)]
pub struct Difficulty {
    /// Static puzzle bits `C1` (default 16).
    pub c1: u32,
    /// Absolute floor for the dynamic puzzle `C2_min` (8).
    pub c2_min: u32,
}

/// The dynamic tier for a swarm size: 8/10/12/14 bits at `N < 50 / 10^3 / 10^5 / >= 10^5`.
pub open spec fn tier_spec(n: u32) -> u32 {
    if n < 50 {
        8
    } else if n < 1000 {
        10
    } else if n < 100_000 {
        12
    } else {
        14
    }
}

/// Cap applied in test mode so simulations never grind.
pub open spec fn scale_cap_spec(d: Difficulty) -> u32 {
    if d.c1 < 16 { d.c1 } else { u32::MAX }
}

/// `max(C2_min, tier - max(δ_class, δ_reconnect))`, capped in test mode.
pub open spec fn discounted(d: Difficulty, tier: u32, leaf: bool, reconnect: bool) -> u32 {
    let d_class: u32 = if leaf { 2 } else { 0 };
    let d_reconnect: u32 = if reconnect { tier / 2 } else { 0 };
    let disc: u32 = if d_class >= d_reconnect { d_class } else { d_reconnect };
    let after: u32 = if tier >= disc { (tier - disc) as u32 } else { 0 };
    let floored: u32 = if d.c2_min >= after { d.c2_min } else { after };
    if floored <= scale_cap_spec(d) { floored } else { scale_cap_spec(d) }
}

impl Difficulty {
    /// Specification defaults.
    pub fn specification() -> (r: Difficulty)
        ensures r.c1 == 16 && r.c2_min == 8,
    {
        Difficulty { c1: 16, c2_min: 8 }
    }

    /// Cheap settings for tests and simulation.
    pub fn testing() -> (r: Difficulty)
        ensures r.c1 == 4 && r.c2_min == 2,
    {
        Difficulty { c1: 4, c2_min: 2 }
    }

    /// The dynamic tier for a swarm size, before discounts.
    pub fn dynamic_tier(swarm_size: u32) -> (r: u32)
        ensures r == tier_spec(swarm_size),
    {
        if swarm_size < 50 {
            8
        } else if swarm_size < 1000 {
            10
        } else if swarm_size < 100_000 {
            12
        } else {
            14
        }
    }

    /// The most bits a test-mode difficulty ever asks for: its static bits
    /// when those are below 16, no cap otherwise.
    pub fn scale_cap(&self) -> (r: u32)
        ensures r == scale_cap_spec(*self),
    {
        if self.c1 < 16 { self.c1 } else { u32::MAX }
    }

    fn discount(&self, tier: u32, leaf: bool, reconnect: bool) -> (r: u32)
        ensures r == discounted(*self, tier, leaf, reconnect),
    {
        let d_class: u32 = if leaf { 2 } else { 0 };
        let d_reconnect: u32 = if reconnect { tier / 2 } else { 0 };
        let disc = if d_class >= d_reconnect { d_class } else { d_reconnect };
        let after = tier.saturating_sub(disc);
        let floored = if self.c2_min >= after { self.c2_min } else { after };
        let cap = self.scale_cap();
        if floored <= cap { floored } else { cap }
    }

    /// Effective dynamic difficulty a solver must meet:
    /// `max(C2_min, tier(N) - max(δ_class, δ_reconnect))`. Discounts are
    /// alternatives, never additive.
    pub fn dynamic_required(&self, swarm_size: u32, node_class: NodeClass, same_subnet_reconnect: bool) -> (r: u32)
        ensures
            r == discounted(*self, tier_spec(swarm_size), node_class == NodeClass::Leaf, same_subnet_reconnect),
    {
        let tier = Self::dynamic_tier(swarm_size);
        self.discount(tier, node_class.is_leaf(), same_subnet_reconnect)
    }

    /// What a verifier accepts: one tier (2 bits) below the tier it observes,
    /// then the claimed discount, floored at `C2_min`.
    pub fn dynamic_accepted(&self, observed_swarm_size: u32, claimed_class: NodeClass, reconnect_verified: bool) -> (r: u32)
        ensures
            r == discounted(*self, (tier_spec(observed_swarm_size) - 2) as u32, claimed_class == NodeClass::Leaf, reconnect_verified),
    {
        let tier = Self::dynamic_tier(observed_swarm_size) - 2;
        self.discount(tier, claimed_class.is_leaf(), reconnect_verified)
    }
}

/// `Blake3(PK ‖ N_static)`.
pub open spec fn static_spec(pk: Seq<u8>, nonce: u64) -> Seq<u8> {
    blake3_spec(pk + u64_be(nonce))
}

/// `Blake3(NodeID ‖ IP ‖ N_dynamic)`.
pub open spec fn dynamic_spec(node: Seq<u8>, ip: IpAddress, nonce: u64) -> Seq<u8> {
    blake3_spec(node + ip_octets(ip) + u64_be(nonce))
}

/// The nonce tried `t` steps after `start`, wrapping.
pub open spec fn nonce_at(start: u64, t: int) -> u64 {
    ((start as int + t) % 0x1_0000_0000_0000_0000) as u64
}

/// `Blake3(PK ‖ N_static)`.
pub fn static_hash(pk: &PublicKeyBytes, nonce: u64) -> (r: [u8; 32])
    ensures r@ == static_spec(pk.0@, nonce),
{
    let mut buf: Vec<u8> = Vec::with_capacity(40);
    push_bytes(&mut buf, pk.0.as_slice());
    push_u64_be(&mut buf, nonce);
    blake3_digest(buf.as_slice())
}

/// Solve the static puzzle: the first nonce from `start` (wrapping) whose hash
/// has `c1` leading zero bits, with the NodeID it mints. Every one of the 2^64
/// nonces is tried once and `None` reports that none qualifies.
pub fn solve_static(pk: &PublicKeyBytes, c1: u32, start: u64) -> (r: Option<(u64, NodeId)>)
    ensures
        r matches Some((nonce, id)) ==> {
            &&& id.0@ == static_spec(pk.0@, nonce)
            &&& lzb(static_spec(pk.0@, nonce)) >= c1
            &&& exists|t: int| 0 <= t < 0x1_0000_0000_0000_0000 && nonce == nonce_at(start, t)
                && forall|u: int| 0 <= u < t ==> lzb(#[trigger] static_spec(pk.0@, nonce_at(start, u))) < c1
        },
        r is None ==> forall|u: int| 0 <= u < 0x1_0000_0000_0000_0000 ==> lzb(#[trigger] static_spec(pk.0@, nonce_at(start, u))) < c1,
{
    let mut t: u128 = 0;
    while t < 0x1_0000_0000_0000_0000u128
        invariant
            t <= 0x1_0000_0000_0000_0000,
            forall|u: int| 0 <= u < t ==> lzb(#[trigger] static_spec(pk.0@, nonce_at(start, u))) < c1,
        decreases 0x1_0000_0000_0000_0000 - t,
    {
        let nonce = start.wrapping_add(t as u64);
        assert(nonce == nonce_at(start, t as int)) by {
            assert((t as u64) == t);
        }
        let h = static_hash(pk, nonce);
        if leading_zero_bits(&h) >= c1 {
            return Some((nonce, NodeId(h)));
        }
        t = t + 1;
    }
    None
}

/// Verify the static puzzle and that `node_id` is its output.
pub fn verify_static(pk: &PublicKeyBytes, nonce: u64, node_id: &NodeId, c1: u32) -> (r: Result<(), CryptoError>)
    ensures
        static_spec(pk.0@, nonce) != node_id.0@ ==> r == Err::<(), CryptoError>(CryptoError::NodeIdMismatch),
        static_spec(pk.0@, nonce) == node_id.0@ && lzb(node_id.0@) < c1
            ==> r == Err::<(), CryptoError>(CryptoError::Pow { have: lzb(node_id.0@) as u32, need: c1 }),
        r is Ok <==> (static_spec(pk.0@, nonce) == node_id.0@ && lzb(node_id.0@) >= c1),
{
    let h = static_hash(pk, nonce);
    if !crate::wire::bytes_equal(h.as_slice(), node_id.0.as_slice()) {
        return Err(CryptoError::NodeIdMismatch);
    }
    let have = leading_zero_bits(&h);
    if have < c1 {
        return Err(CryptoError::Pow { have, need: c1 });
    }
    Ok(())
}

/// `Blake3(NodeID ‖ IP ‖ N_dynamic)`.
pub fn dynamic_hash(node_id: &NodeId, ip: IpAddress, nonce: u64) -> (r: [u8; 32])
    ensures r@ == dynamic_spec(node_id.0@, ip, nonce),
{
    let mut buf: Vec<u8> = Vec::with_capacity(56);
    push_bytes(&mut buf, node_id.0.as_slice());
    let oct = ip.octets();
    push_bytes(&mut buf, oct.as_slice());
    push_u64_be(&mut buf, nonce);
    blake3_digest(buf.as_slice())
}

/// Solve the dynamic puzzle for the given external IP: the first nonce from
/// `start` (wrapping) with `c2` leading zero bits; `None` when none of the 2^64
/// nonces qualifies.
pub fn solve_dynamic(node_id: &NodeId, ip: IpAddress, c2: u32, start: u64) -> (r: Option<u64>)
    ensures
        r matches Some(nonce) ==> {
            &&& lzb(dynamic_spec(node_id.0@, ip, nonce)) >= c2
            &&& exists|t: int| 0 <= t < 0x1_0000_0000_0000_0000 && nonce == nonce_at(start, t)
                && forall|u: int| 0 <= u < t ==> lzb(#[trigger] dynamic_spec(node_id.0@, ip, nonce_at(start, u))) < c2
        },
        r is None ==> forall|u: int| 0 <= u < 0x1_0000_0000_0000_0000 ==> lzb(#[trigger] dynamic_spec(node_id.0@, ip, nonce_at(start, u))) < c2,
{
    let mut t: u128 = 0;
    while t < 0x1_0000_0000_0000_0000u128
        invariant
            t <= 0x1_0000_0000_0000_0000,
            forall|u: int| 0 <= u < t ==> lzb(#[trigger] dynamic_spec(node_id.0@, ip, nonce_at(start, u))) < c2,
        decreases 0x1_0000_0000_0000_0000 - t,
    {
        let nonce = start.wrapping_add(t as u64);
        assert(nonce == nonce_at(start, t as int)) by {
            assert((t as u64) == t);
        }
        let h = dynamic_hash(node_id, ip, nonce);
        if leading_zero_bits(&h) >= c2 {
            return Some(nonce);
        }
        t = t + 1;
    }
    None
}

/// Verify the dynamic puzzle against the observed source IP.
pub fn verify_dynamic(node_id: &NodeId, observed_ip: IpAddress, nonce: u64, c2: u32) -> (r: Result<(), CryptoError>)
    ensures
        r is Ok <==> lzb(dynamic_spec(node_id.0@, observed_ip, nonce)) >= c2,
        r is Err ==> r == Err::<(), CryptoError>(CryptoError::Pow {
            have: lzb(dynamic_spec(node_id.0@, observed_ip, nonce)) as u32,
            need: c2,
        }),
{
    let h = dynamic_hash(node_id, observed_ip, nonce);
    let have = leading_zero_bits(&h);
    if have < c2 {
        return Err(CryptoError::Pow { have, need: c2 });
    }
    Ok(())
}

} // verus!
