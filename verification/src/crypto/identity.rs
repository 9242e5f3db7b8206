//! A node's cryptographic identity: Ed25519 key seed plus the static-puzzle nonce
//! that mints its NodeID, and helpers to produce and check validation blocks.
use vstd::prelude::*;
use crate::wire::{u64_le, vb_message, FrameType, IpAddress, NodeId, PublicKeyBytes, SignatureBytes, ValidationBlock};
use super::hashing::{blake3_digest, blake3_spec};
use super::lzb;
use super::pow::{self, dynamic_spec, nonce_at, static_spec, Difficulty};
use super::signing::{ed25519_public, ed25519_public_key, ed25519_sign, ed25519_signature, verify_result, CryptoError, Signer, Verifier};

verus! {

/// Thirty-two bytes from the thread-local CSPRNG (`rand::rng()`, filled by
/// `RngCore::fill_bytes`), as `ed25519_dalek::SigningKey::generate` draws a
/// secret key. Nothing is promised of the bytes.
#[verifier::external_body]
fn random_seed() -> (r: [u8; 32]) {
    let mut s = [0u8; 32];
    rand::RngCore::fill_bytes(&mut rand::rng(), &mut s);
    s
}

/// Whether a validation block passes every check for a frame of type `ft` with
/// payload `body` received from `ip`: the static puzzle mints the NodeID at
/// difficulty `C1`, the dynamic puzzle is bound to `ip` at `c2`, and the packet
/// signature verifies.
pub open spec fn validation_ok(vb: ValidationBlock, ft: FrameType, body: Seq<u8>, ip: IpAddress, difficulty: Difficulty, c2: u32) -> bool {
    &&& static_spec(vb.public_key.0@, vb.static_nonce) == vb.node_id.0@
    &&& lzb(vb.node_id.0@) >= difficulty.c1
    &&& lzb(dynamic_spec(vb.node_id.0@, ip, vb.dynamic_nonce)) >= c2
    &&& verify_result(vb.public_key.0@, blake3_spec(vb_message(ft, vb.timestamp_us, body)), vb.signature.0@) is Ok
}

/// The key seed of a node run with `run_seed` on UDP `port`: the run seed's
/// little-endian bytes, then the port's little-endian bytes four times, then zeros.
pub open spec fn node_seed_spec(run_seed: u64, port: u16) -> Seq<u8> {
    let p0 = port as u8;
    let p1 = (port >> 8u16) as u8;
    u64_le(run_seed) + seq![p0, p1, p0, p1, p0, p1, p0, p1] + Seq::new(16, |i: int| 0u8)
}

/// The key seed of a node run with `run_seed` on UDP `port`, so that a
/// node's identity follows from its run seed and port alone.
pub fn node_seed(run_seed: u64, port: u16) -> (r: [u8; 32])
    ensures r@ == node_seed_spec(run_seed, port),
{
    let s = run_seed;
    let p0 = port as u8;
    let p1 = (port >> 8u16) as u8;
    let r: [u8; 32] = [
        s as u8,
        (s >> 8u64) as u8,
        (s >> 16u64) as u8,
        (s >> 24u64) as u8,
        (s >> 32u64) as u8,
        (s >> 40u64) as u8,
        (s >> 48u64) as u8,
        (s >> 56u64) as u8,
        p0,
        p1,
        p0,
        p1,
        p0,
        p1,
        p0,
        p1,
        0,
        0,
        0,
        0,
        0,
        0,
        0,
        0,
        0,
        0,
        0,
        0,
        0,
        0,
        0,
        0,
    ];
    assert(r@ =~= node_seed_spec(run_seed, port));
    r
}

/// Keypair seed + minted NodeID.
#[derive(Clone)]
pub struct Identity {
    seed: [u8; 32],
    public_key: PublicKeyBytes,
    node_id: NodeId,
    static_nonce: u64,
}

impl Identity {
    /// The secret seed.
    pub closed spec fn seed_spec(&self) -> Seq<u8> {
        self.seed@
    }

    /// The NodeID.
    pub closed spec fn node_id_spec(&self) -> NodeId {
        self.node_id
    }

    /// The static nonce.
    pub closed spec fn static_nonce_spec(&self) -> u64 {
        self.static_nonce
    }

    /// Key, NodeID and nonce belong together.
    pub closed spec fn wf(&self) -> bool {
        &&& self.public_key.0@ == ed25519_public(self.seed@)
        &&& self.node_id.0@ == static_spec(self.public_key.0@, self.static_nonce)
    }

    /// A second handle on the same identity.
    pub fn duplicate(&self) -> (r: Identity)
        ensures r == *self,
    {
        Identity { seed: self.seed, public_key: self.public_key, node_id: self.node_id, static_nonce: self.static_nonce }
    }

    /// The public key.
    pub open spec fn public_key_spec(&self) -> Seq<u8> {
        ed25519_public(self.seed_spec())
    }

    /// Identity from a 32-byte seed: the key it determines and the first static
    /// nonce from 0 meeting `difficulty.c1`. `None` only if no nonce does.
    pub fn from_seed(seed: [u8; 32], difficulty: Difficulty) -> (r: Option<Identity>)
        ensures
            r matches Some(id) ==> {
                &&& id.wf()
                &&& id.seed_spec() == seed@
                &&& lzb(id.node_id_spec().0@) >= difficulty.c1
                &&& forall|u: int| 0 <= u < id.static_nonce_spec() ==> lzb(#[trigger] static_spec(ed25519_public(seed@), nonce_at(0, u))) < difficulty.c1
            },
            r is None ==> forall|u: int| 0 <= u < 0x1_0000_0000_0000_0000 ==> lzb(#[trigger] static_spec(ed25519_public(seed@), nonce_at(0, u))) < difficulty.c1,
    {
        let pk = PublicKeyBytes(ed25519_public_key(&seed));
        match pow::solve_static(&pk, difficulty.c1, 0) {
            Some((static_nonce, node_id)) => {
                proof {
                    let t = choose|t: int| 0 <= t < 0x1_0000_0000_0000_0000 && static_nonce == nonce_at(0, t)
                        && forall|u: int| 0 <= u < t ==> lzb(#[trigger] static_spec(pk.0@, nonce_at(0, u))) < difficulty.c1;
                    assert(static_nonce == t);
                }
                Some(Identity { seed, public_key: pk, node_id, static_nonce })
            },
            None => {
                assert forall|u: int| 0 <= u < 0x1_0000_0000_0000_0000 implies lzb(#[trigger] static_spec(ed25519_public(seed@), nonce_at(0, u))) < difficulty.c1 by {
                    assert(lzb(static_spec(pk.0@, nonce_at(0, u))) < difficulty.c1);
                }
                None
            },
        }
    }

    /// A fresh identity: a secret seed drawn from the thread's CSPRNG, then
    /// exactly what [`Identity::from_seed`] makes of it.
    pub fn generate(difficulty: Difficulty) -> (r: Option<Identity>)
        ensures
            r matches Some(id) ==> {
                &&& id.wf()
                &&& lzb(id.node_id_spec().0@) >= difficulty.c1
                &&& forall|u: int| 0 <= u < id.static_nonce_spec() ==> lzb(#[trigger] static_spec(ed25519_public(id.seed_spec()), nonce_at(0, u))) < difficulty.c1
            },
            r is None ==> exists|s: Seq<u8>| s.len() == 32 && forall|u: int| 0 <= u < 0x1_0000_0000_0000_0000
                ==> lzb(#[trigger] static_spec(ed25519_public(s), nonce_at(0, u))) < difficulty.c1,
    {
        let seed = random_seed();
        let r = Identity::from_seed(seed, difficulty);
        proof {
            if r is None {
                assert(seed@.len() == 32);
            }
        }
        r
    }

    /// NodeID.
    pub fn node_id(&self) -> (r: NodeId)
        ensures r == self.node_id_spec(),
    {
        self.node_id
    }

    /// Public key.
    pub fn public_key(&self) -> (r: PublicKeyBytes)
        requires self.wf(),
        ensures r.0@ == self.public_key_spec(),
    {
        self.public_key
    }

    /// Static nonce.
    pub fn static_nonce(&self) -> (r: u64)
        ensures r == self.static_nonce_spec(),
    {
        self.static_nonce
    }

    /// Secret seed bytes (for persistence).
    pub fn secret_bytes(&self) -> (r: [u8; 32])
        ensures r@ == self.seed_spec(),
    {
        self.seed
    }

    /// Sign `message` (already the exact pre-image).
    pub fn sign(&self, message: &[u8]) -> (r: SignatureBytes)
        ensures r.0@ == ed25519_signature(self.seed_spec(), message@),
    {
        SignatureBytes(ed25519_sign(&self.seed, message))
    }

    /// Solve the dynamic puzzle for an external IP at `c2` bits: the first nonce
    /// from 0 that qualifies, `None` when none does.
    pub fn solve_dynamic(&self, ip: IpAddress, c2: u32) -> (r: Option<u64>)
        ensures
            r matches Some(n) ==> {
                &&& lzb(dynamic_spec(self.node_id_spec().0@, ip, n)) >= c2
                &&& forall|u: int| 0 <= u < n ==> lzb(#[trigger] dynamic_spec(self.node_id_spec().0@, ip, nonce_at(0, u))) < c2
            },
            r is None ==> forall|u: int| 0 <= u < 0x1_0000_0000_0000_0000 ==> lzb(#[trigger] dynamic_spec(self.node_id_spec().0@, ip, nonce_at(0, u))) < c2,
    {
        let r = pow::solve_dynamic(&self.node_id, ip, c2, 0);
        proof {
            if let Some(n) = r {
                let t = choose|t: int| 0 <= t < 0x1_0000_0000_0000_0000 && n == nonce_at(0, t)
                    && forall|u: int| 0 <= u < t ==> lzb(#[trigger] dynamic_spec(self.node_id.0@, ip, nonce_at(0, u))) < c2;
                assert(n == t);
            }
        }
        r
    }

    /// Build a signed validation block for a pre-session frame whose payload after
    /// the block is `body`.
    pub fn validation_block(&self, frame_type: FrameType, dynamic_nonce: u64, timestamp_us: u64, body: &[u8]) -> (r: ValidationBlock)
        requires self.wf(),
        ensures
            r.node_id == self.node_id_spec(),
            r.public_key.0@ == self.public_key_spec(),
            r.static_nonce == self.static_nonce_spec(),
            r.dynamic_nonce == dynamic_nonce,
            r.timestamp_us == timestamp_us,
            r.signature.0@ == ed25519_signature(self.seed_spec(), blake3_spec(vb_message(frame_type, timestamp_us, body@))),
    {
        let pre = ValidationBlock::signed_message(frame_type, timestamp_us, body);
        let digest = blake3_digest(pre.as_slice());
        ValidationBlock {
            node_id: self.node_id,
            public_key: self.public_key,
            static_nonce: self.static_nonce,
            dynamic_nonce,
            timestamp_us,
            signature: self.sign(digest.as_slice()),
        }
    }

    /// Verify a received validation block: static puzzle, dynamic puzzle against
    /// the observed source IP, and the packet signature, in that order.
    pub fn verify_validation_block(
        vb: &ValidationBlock,
        frame_type: FrameType,
        body: &[u8],
        observed_ip: IpAddress,
        difficulty: Difficulty,
        c2_required: u32,
    ) -> (r: Result<(), CryptoError>)
        ensures
            r is Ok <==> validation_ok(*vb, frame_type, body@, observed_ip, difficulty, c2_required),
            static_spec(vb.public_key.0@, vb.static_nonce) != vb.node_id.0@ ==> r == Err::<(), CryptoError>(CryptoError::NodeIdMismatch),
            (static_spec(vb.public_key.0@, vb.static_nonce) == vb.node_id.0@ && lzb(vb.node_id.0@) >= difficulty.c1
                && lzb(dynamic_spec(vb.node_id.0@, observed_ip, vb.dynamic_nonce)) >= c2_required)
                ==> r == verify_result(vb.public_key.0@, blake3_spec(vb_message(frame_type, vb.timestamp_us, body@)), vb.signature.0@),
    {
        match pow::verify_static(&vb.public_key, vb.static_nonce, &vb.node_id, difficulty.c1) {
            Ok(()) => {},
            Err(e) => return Err(e),
        }
        match pow::verify_dynamic(&vb.node_id, observed_ip, vb.dynamic_nonce, c2_required) {
            Ok(()) => {},
            Err(e) => return Err(e),
        }
        let pre = ValidationBlock::signed_message(frame_type, vb.timestamp_us, body);
        let digest = blake3_digest(pre.as_slice());
        Verifier::verify(&vb.public_key, digest.as_slice(), &vb.signature)
    }
}

impl Signer for Identity {
    open spec fn key_seed(&self) -> Seq<u8> {
        self.seed_spec()
    }

    open spec fn signer_wf(&self) -> bool {
        self.wf()
    }

    fn sign(&self, message: &[u8]) -> (r: SignatureBytes) {
        Identity::sign(self, message)
    }

    fn public_key(&self) -> (r: PublicKeyBytes) {
        Identity::public_key(self)
    }
}

} // verus!
