//! Cryptography: Blake3 digests, proof-of-work puzzles, Merkle trees, rendezvous
//! tree assignment, Ed25519 signatures and certificate identities.
//! Deterministic and free of I/O.
use vstd::prelude::*;
use crate::wire::{Digest, PublicKeyBytes, StreamId};
use self::hashing::{blake3_digest, blake3_spec};
use crate::ingest::mp4::{hex2, push_hex2};

pub mod hashing;
pub mod merkle;
pub mod pow;
pub mod rendezvous;
pub mod signing;
pub mod identity;
pub mod cert;

verus! {

/// Blake3 digest of `data` as a [`Digest`].
pub fn blake3_hash(data: &[u8]) -> (r: Digest)
    ensures r.0@ == blake3_spec(data@),
{
    Digest(blake3_digest(data))
}

/// Bytes as lower-case hex, two digits per byte.
pub open spec fn hex_spec(b: Seq<u8>) -> Seq<char>
    decreases b.len(),
{
    if b.len() == 0 {
        Seq::empty()
    } else {
        hex_spec(b.drop_last()) + hex2(b.last())
    }
}

/// The first `max_bytes` bytes of `data` (all of it when `None` or when it
/// is shorter).
pub open spec fn cut_to(data: Seq<u8>, max_bytes: Option<usize>) -> Seq<u8> {
    match max_bytes {
        Some(n) => data.take(if n < data.len() { n as int } else { data.len() as int }),
        None => data,
    }
}

/// The lower-case hex Blake3 digest of `data` cut to `max_bytes`: the hash a
/// viewer's recording is compared against.
pub fn digest_hex(data: &[u8], max_bytes: Option<usize>) -> (r: String)
    ensures
        r@ == hex_spec(blake3_spec(cut_to(data@, max_bytes))),
{
    let n: usize = match max_bytes {
        Some(n) => if n < data.len() { n } else { data.len() },
        None => data.len(),
    };
    let part = vstd::slice::slice_subrange(data, 0, n);
    assert(part@ =~= cut_to(data@, max_bytes));
    let d = blake3_digest(part);
    let mut out = String::new();
    let mut i: usize = 0;
    while i < 32
        invariant
            i <= 32,
            d@.len() == 32,
            out@ == hex_spec(d@.take(i as int)),
        decreases 32 - i,
    {
        proof {
            assert(d@.take(i + 1).drop_last() =~= d@.take(i as int));
        }
        push_hex2(&mut out, d[i]);
        i = i + 1;
    }
    assert(d@.take(32) =~= d@);
    out
}

/// `StreamID = Blake3(PublisherPubKey)`.
pub fn stream_id(publisher_pubkey: &PublicKeyBytes) -> (r: StreamId)
    ensures r.0@ == blake3_spec(publisher_pubkey.0@),
{
    StreamId(blake3_digest(publisher_pubkey.0.as_slice()))
}

/// Byte-wise XOR of two 256-bit keys.
pub open spec fn xor_spec(a: Seq<u8>, b: Seq<u8>) -> Seq<u8> {
    Seq::new(32, |i: int| a[i] ^ b[i])
}

/// XOR distance between two 256-bit keys.
pub fn xor_distance(a: &[u8; 32], b: &[u8; 32]) -> (r: [u8; 32])
    ensures r@ == xor_spec(a@, b@),
{
    let mut out = [0u8; 32];
    let mut i: usize = 0;
    while i < 32
        invariant
            0 <= i <= 32,
            a@.len() == 32,
            b@.len() == 32,
            out@.len() == 32,
            forall|k: int| 0 <= k < i ==> out@[k] == a@[k] ^ b@[k],
        decreases 32 - i,
    {
        out[i] = a[i] ^ b[i];
        i = i + 1;
    }
    assert(out@ =~= xor_spec(a@, b@));
    out
}

/// Leading zero bits of a big-endian bit string.
pub open spec fn lzb(h: Seq<u8>) -> nat
    decreases h.len(),
{
    if h.len() == 0 {
        0
    } else if h[0] == 0 {
        8 + lzb(h.drop_first())
    } else {
        vstd::std_specs::bits::u8_leading_zeros(h[0]) as nat
    }
}

/// Number of leading zero bits of a 256-bit value.
pub fn leading_zero_bits(h: &[u8; 32]) -> (r: u32)
    ensures r == lzb(h@),
{
    let mut n: u32 = 0;
    let mut i: usize = 0;
    assert(h@.subrange(0, 32) =~= h@);
    while i < 32
        invariant
            0 <= i <= 32,
            h@.len() == 32,
            n == 8 * i,
            lzb(h@) == n + lzb(h@.subrange(i as int, 32)),
        decreases 32 - i,
    {
        let b = h[i];
        assert(h@.subrange(i as int, 32)[0] == b);
        assert(h@.subrange(i as int, 32).drop_first() =~= h@.subrange(i + 1, 32));
        if b == 0 {
            n = n + 8;
        } else {
            proof {
                vstd::std_specs::bits::axiom_u8_leading_zeros(b);
            }
            return n + b.leading_zeros();
        }
        i = i + 1;
    }
    assert(h@.subrange(32, 32).len() == 0);
    n
}

} // verus!
