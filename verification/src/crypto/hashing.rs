//! The Blake3 primitive: a one-shot digest and the incremental hasher.
use vstd::prelude::*;

verus! {

/// The Blake3 digest of a byte string, as computed by the `blake3` crate.
pub uninterp spec fn blake3_spec(data: Seq<u8>) -> Seq<u8>;

/// What an incremental `blake3::Hasher` has absorbed since it was created.
pub uninterp spec fn hasher_input(h: blake3::Hasher) -> Seq<u8>;

/// The incremental Blake3 hasher of the `blake3` crate.
#[verifier::external_type_specification]
#[verifier::external_body]
pub struct ExBlake3Hasher(blake3::Hasher);

/// Calls `blake3::hash`; the contract claims that the 32 output bytes are the
/// Blake3 digest `blake3_spec` of exactly the input bytes.
#[verifier::external_body]
pub(crate) fn blake3_digest(data: &[u8]) -> (out: [u8; 32])
    ensures
        out@ == blake3_spec(data@),
{
    *blake3::hash(data).as_bytes()
}

/// Calls `blake3::Hasher::new`; the contract claims the new hasher has absorbed nothing.
#[verifier::external_body]
pub(crate) fn hasher_new() -> (h: blake3::Hasher)
    ensures
        hasher_input(h) == Seq::<u8>::empty(),
{
    blake3::Hasher::new()
}

/// Calls `blake3::Hasher::update` on hasher `i` of `hs`; the contract claims
/// that hasher has then absorbed its earlier input followed by `data` (the crate
/// documents incremental hashing as equivalent to hashing the concatenation)
/// and that the other hashers are untouched.
#[verifier::external_body]
pub(crate) fn hasher_update_at(hs: &mut Vec<blake3::Hasher>, i: usize, data: &[u8])
    requires
        i < old(hs)@.len(),
    ensures
        final(hs)@.len() == old(hs)@.len(),
        hasher_input(final(hs)@[i as int]) == hasher_input(old(hs)@[i as int]) + data@,
        forall|k: int| 0 <= k < final(hs)@.len() && k != i ==> final(hs)@[k] == old(hs)@[k],
{
    hs[i].update(data);
}

/// Calls `blake3::Hasher::finalize`; the contract claims the result is the Blake3
/// digest of everything absorbed so far (finalize does not change the state).
#[verifier::external_body]
pub(crate) fn hasher_finalize(h: &blake3::Hasher) -> (out: [u8; 32])
    ensures
        out@ == blake3_spec(hasher_input(*h)),
{
    *h.finalize().as_bytes()
}

} // verus!
