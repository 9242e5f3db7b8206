//! Ed25519 signing and verification over the exact byte pre-images the wire
//! structures define.
use vstd::prelude::*;

verus! {

/// Errors from signature, identity and Merkle checks.
#[derive(Debug, Clone, Copy, PartialEq, Eq, Structural)]
pub enum CryptoError {
    /// Signature did not verify.
    BadSignature,
    /// Public key bytes are not a valid Ed25519 point.
    BadPublicKey,
    /// A Merkle proof did not reach the root.
    MerkleMismatch,
    /// Proof-of-work below the required difficulty.
    Pow {
        /// Bits achieved.
        have: u32,
        /// Bits required.
        need: u32,
    },
    /// NodeID does not equal `Blake3(PK ‖ StaticNonce)`.
    NodeIdMismatch,
}

} // verus!

verus! {

/// Whether 32 bytes decode to an Ed25519 public key (`VerifyingKey::from_bytes` succeeds).
pub uninterp spec fn ed25519_key_valid(pk: Seq<u8>) -> bool;

/// Whether `VerifyingKey::verify_strict` accepts `sig` over `msg` under `pk`.
pub uninterp spec fn ed25519_accepts(pk: Seq<u8>, msg: Seq<u8>, sig: Seq<u8>) -> bool;

/// The public key bytes of the Ed25519 key with secret seed `seed`.
pub uninterp spec fn ed25519_public(seed: Seq<u8>) -> Seq<u8>;

/// The (deterministic) Ed25519 signature of `msg` under the key with seed `seed`.
pub uninterp spec fn ed25519_signature(seed: Seq<u8>, msg: Seq<u8>) -> Seq<u8>;

/// Calls `ed25519_dalek::VerifyingKey::from_bytes` and then `verify_strict`. The
/// contract claims: a key that does not decode gives `BadPublicKey`; otherwise the
/// result is `Ok` exactly when `verify_strict` accepts, and `BadSignature` when not.
/// Which keys decode and which signatures are accepted is left to the names
/// `ed25519_key_valid` and `ed25519_accepts`.
#[verifier::external_body]
pub(crate) fn ed25519_verify(pk: &[u8; 32], msg: &[u8], sig: &[u8; 64]) -> (r: Result<(), CryptoError>)
    ensures
        r == (if !ed25519_key_valid(pk@) {
            Err(CryptoError::BadPublicKey)
        } else if ed25519_accepts(pk@, msg@, sig@) {
            Ok(())
        } else {
            Err(CryptoError::BadSignature)
        }),
{
    let vk = match ed25519_dalek::VerifyingKey::from_bytes(pk) {
        Ok(k) => k,
        Err(_) => return Err(CryptoError::BadPublicKey),
    };
    match vk.verify_strict(msg, &ed25519_dalek::Signature::from_bytes(sig)) {
        Ok(()) => Ok(()),
        Err(_) => Err(CryptoError::BadSignature),
    }
}

/// Calls `ed25519_dalek::SigningKey::from_bytes(seed).verifying_key().to_bytes()`;
/// the contract names the result `ed25519_public(seed)`.
#[verifier::external_body]
pub(crate) fn ed25519_public_key(seed: &[u8; 32]) -> (r: [u8; 32])
    ensures r@ == ed25519_public(seed@),
{
    ed25519_dalek::SigningKey::from_bytes(seed).verifying_key().to_bytes()
}

/// Calls `ed25519_dalek::Signer::sign` with the key built from `seed`; Ed25519
/// signing is deterministic, and the contract names the result
/// `ed25519_signature(seed, msg)`.
#[verifier::external_body]
pub(crate) fn ed25519_sign(seed: &[u8; 32], msg: &[u8]) -> (r: [u8; 64])
    ensures r@ == ed25519_signature(seed@, msg@),
{
    let key = ed25519_dalek::SigningKey::from_bytes(seed);
    ed25519_dalek::Signer::sign(&key, msg).to_bytes()
}

/// Something that produces Ed25519 signatures under the key made from its
/// secret seed.
pub trait Signer {
    /// The secret seed the key is made from.
    spec fn key_seed(&self) -> Seq<u8>;

    /// Whether the signer holds the public key of its seed.
    spec fn signer_wf(&self) -> bool;

    /// Sign `message` (already the exact pre-image; no hashing is applied here).
    fn sign(&self, message: &[u8]) -> (r: crate::wire::SignatureBytes)
        ensures
            r.0@ == ed25519_signature(self.key_seed(), message@),
    ;

    /// The public key.
    fn public_key(&self) -> (r: crate::wire::PublicKeyBytes)
        requires
            self.signer_wf(),
        ensures
            r.0@ == ed25519_public(self.key_seed()),
    ;
}

/// Signature verification.
pub struct Verifier;

impl Verifier {
    /// Verify `signature` over `message` under `public_key`.
    pub fn verify(public_key: &crate::wire::PublicKeyBytes, message: &[u8], signature: &crate::wire::SignatureBytes) -> (r: Result<(), CryptoError>)
        ensures
            r == verify_result(public_key.0@, message@, signature.0@),
    {
        ed25519_verify(&public_key.0, message, &signature.0)
    }
}

/// The outcome of verifying `sig` over `msg` under `pk`.
pub open spec fn verify_result(pk: Seq<u8>, msg: Seq<u8>, sig: Seq<u8>) -> Result<(), CryptoError> {
    if !ed25519_key_valid(pk) {
        Err(CryptoError::BadPublicKey)
    } else if ed25519_accepts(pk, msg, sig) {
        Ok(())
    } else {
        Err(CryptoError::BadSignature)
    }
}

} // verus!
