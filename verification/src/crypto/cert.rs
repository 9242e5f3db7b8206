//! The identity a peer's session certificate binds: its Ed25519 key, and a
//! subject-alternative-name URI `bitstream://<nodeid-hex>/<static-nonce>`
//! whose NodeID must be `Blake3(PK ‖ nonce)` at the static difficulty.
use vstd::prelude::*;
use crate::crypto::pow::{static_spec, verify_static};
use crate::crypto::lzb;
use crate::ingest::rendition::{
    all_digits, chars_vec, digits_value, find_char, find_in, is_digit, lemma_digits_value_prefix, lemma_find_char,
};
use crate::wire::{NodeId, PublicKeyBytes};

verus! {

/// Why a peer certificate was refused.
#[derive(Debug, Clone, Copy, PartialEq, Eq, Structural)]
pub enum CertError {
    /// The subject key is not 32 bytes (not Ed25519).
    KeyLength,
    /// A `bitstream://` URI has no decimal `u64` nonce after the NodeID.
    SanNonce,
    /// A `bitstream://` URI's NodeID is not hex.
    SanId,
    /// A `bitstream://` URI's NodeID is not 32 bytes.
    SanIdLength,
    /// No `bitstream://` URI.
    NoBitstreamSan,
    /// The NodeID is not the static puzzle's output at the difficulty.
    IdentityPow,
}

/// What a peer's certificate proves.
#[derive(Debug, Clone, Copy, PartialEq, Eq)]
pub struct PeerIdentity {
    /// NodeID.
    pub node_id: NodeId,
    /// Ed25519 key.
    pub public_key: PublicKeyBytes,
    /// Static nonce.
    pub static_nonce: u64,
}

/// `u64::from_str`: an optional `+`, then at least one ASCII digit, with the
/// value within `u64`.
pub open spec fn parse_u64_spec(t: Seq<char>) -> Option<u64> {
    let d = if t.len() > 0 && t[0] == '+' { t.drop_first() } else { t };
    if d.len() == 0 {
        None
    } else if !all_digits(d) {
        None
    } else if digits_value(d) > u64::MAX {
        None
    } else {
        Some(digits_value(d) as u64)
    }
}

/// The value of a hex digit, either case.
pub open spec fn hex_val(c: char) -> Option<u8> {
    if '0' <= c && c <= '9' {
        Some((c as int - 48) as u8)
    } else if 'a' <= c && c <= 'f' {
        Some((c as int - 87) as u8)
    } else if 'A' <= c && c <= 'F' {
        Some((c as int - 55) as u8)
    } else {
        None
    }
}

/// `hex::decode`: an even number of hex digits, two per byte, high first.
pub open spec fn hex_decode_spec(s: Seq<char>) -> Option<Seq<u8>>
    decreases s.len(),
{
    if s.len() % 2 != 0 {
        None
    } else if s.len() == 0 {
        Some(Seq::empty())
    } else {
        match (hex_decode_spec(s.take(s.len() - 2)), hex_val(s[s.len() - 2]), hex_val(s[s.len() - 1])) {
            (Some(r), Some(a), Some(b)) => Some(r.push((a * 16 + b) as u8)),
            _ => None,
        }
    }
}

/// The URI scheme that carries a node identity.
pub open spec fn san_prefix() -> Seq<char> {
    seq!['b', 'i', 't', 's', 't', 'r', 'e', 'a', 'm', ':', '/', '/']
}

/// What one SAN URI says: nothing when it is not a `bitstream://` URI; else
/// the NodeID (the text up to the first `/`, in hex) and nonce (the text
/// after it up to any next `/`, in decimal), or why they are unreadable; the
/// nonce is read first.
pub open spec fn san_uri(u: Seq<char>) -> Option<Result<(Seq<u8>, u64), CertError>> {
    if !(u.len() >= 12 && u.take(12) == san_prefix()) {
        None
    } else {
        let rest = u.skip(12);
        match find_char(rest, '/', 0) {
            None => Some(Err(CertError::SanNonce)),
            Some(i) => {
                let after = rest.skip(i + 1);
                let nonce_text = match find_char(after, '/', 0) {
                    None => after,
                    Some(j) => after.take(j),
                };
                match parse_u64_spec(nonce_text) {
                    None => Some(Err(CertError::SanNonce)),
                    Some(n) => match hex_decode_spec(rest.take(i)) {
                        None => Some(Err(CertError::SanId)),
                        Some(b) => if b.len() != 32 {
                            Some(Err(CertError::SanIdLength))
                        } else {
                            Some(Ok((b, n)))
                        },
                    },
                }
            },
        }
    }
}

/// The identity the SAN URIs carry, in order: the first unreadable
/// `bitstream://` URI refuses the certificate; else the last readable one
/// counts.
pub open spec fn san_scan(uris: Seq<Seq<char>>) -> Result<Option<(Seq<u8>, u64)>, CertError>
    decreases uris.len(),
{
    if uris.len() == 0 {
        Ok(None)
    } else {
        match san_scan(uris.drop_last()) {
            Err(e) => Err(e),
            Ok(f) => match san_uri(uris.last()) {
                None => Ok(f),
                Some(Err(e)) => Err(e),
                Some(Ok(x)) => Ok(Some(x)),
            },
        }
    }
}

/// What a certificate with subject key `key` and SAN URIs `uris` proves at
/// static difficulty `c1`: (NodeID, key, nonce), or why it is refused.
pub open spec fn peer_identity_spec(key: Seq<u8>, uris: Seq<Seq<char>>, c1: u32) -> Result<(Seq<u8>, Seq<u8>, u64), CertError> {
    if key.len() != 32 {
        Err(CertError::KeyLength)
    } else {
        match san_scan(uris) {
            Err(e) => Err(e),
            Ok(None) => Err(CertError::NoBitstreamSan),
            Ok(Some((id, n))) => if static_spec(key, n) == id && lzb(id) >= c1 {
                Ok((id, key, n))
            } else {
                Err(CertError::IdentityPow)
            },
        }
    }
}

/// Parse `v[lo..hi]` as `u64::from_str` does.
fn parse_u64_chars(v: &Vec<char>, lo: usize, hi: usize) -> (r: Option<u64>)
    requires
        lo <= hi <= v@.len(),
    ensures
        r == parse_u64_spec(v@.subrange(lo as int, hi as int)),
{
    let ghost t = v@.subrange(lo as int, hi as int);
    let mut i: usize = lo;
    if hi > lo && v[lo] == '+' {
        i = lo + 1;
    }
    let ghost d = v@.subrange(i as int, hi as int);
    assert(d =~= (if t.len() > 0 && t[0] == '+' { t.drop_first() } else { t }));
    if i == hi {
        return None;
    }
    let start = i;
    let mut acc: u128 = 0;
    while i < hi
        invariant
            start <= i <= hi <= v@.len(),
            t == v@.subrange(lo as int, hi as int),
            d == (if t.len() > 0 && t[0] == '+' { t.drop_first() } else { t }),
            d == v@.subrange(start as int, hi as int),
            d.len() > 0,
            acc == digits_value(d.take(i - start)),
            acc <= u64::MAX,
            forall|k: int| 0 <= k < i - start ==> is_digit(#[trigger] d[k]),
        decreases hi - i,
    {
        let c = v[i];
        if !('0' <= c && c <= '9') {
            assert(!is_digit(d[i - start]));
            assert(!all_digits(d));
            return None;
        }
        proof {
            assert(d.take(i - start + 1).drop_last() =~= d.take(i - start));
            assert(d.take(i - start + 1).last() == c);
        }
        acc = acc * 10 + (c as u128 - 48);
        if acc > 0xffff_ffff_ffff_ffff {
            proof {
                lemma_digits_value_prefix(d, i - start + 1);
            }
            return None;
        }
        i = i + 1;
    }
    assert(d.take(i - start) =~= d);
    Some(acc as u64)
}

/// The value of a hex digit.
fn hex_value(c: char) -> (r: Option<u8>)
    ensures
        r == hex_val(c),
{
    if '0' <= c && c <= '9' {
        Some((c as u32 - 48) as u8)
    } else if 'a' <= c && c <= 'f' {
        Some((c as u32 - 87) as u8)
    } else if 'A' <= c && c <= 'F' {
        Some((c as u32 - 55) as u8)
    } else {
        None
    }
}

/// A decodable even-length prefix of a decodable string.
proof fn lemma_hex_prefix(s: Seq<char>, i: int, j: int)
    requires
        0 <= j <= i <= s.len(),
        i % 2 == 0,
        j % 2 == 0,
        hex_decode_spec(s.take(i)) is Some,
    ensures
        hex_decode_spec(s.take(j)) is Some,
    decreases i - j,
{
    if j < i {
        assert(s.take(i).take(i - 2) =~= s.take(i - 2));
        lemma_hex_prefix(s, i - 2, j);
    }
}

/// Decode `v[lo..hi]` as `hex::decode` does.
fn hex_decode_chars(v: &Vec<char>, lo: usize, hi: usize) -> (r: Option<Vec<u8>>)
    requires
        lo <= hi <= v@.len(),
    ensures
        match hex_decode_spec(v@.subrange(lo as int, hi as int)) {
            None => r is None,
            Some(b) => r matches Some(x) && x@ == b,
        },
{
    let ghost s = v@.subrange(lo as int, hi as int);
    let n = hi - lo;
    if n % 2 != 0 {
        return None;
    }
    let mut out: Vec<u8> = Vec::new();
    let mut k: usize = 0;
    while k < n
        invariant
            lo <= hi <= v@.len(),
            n == hi - lo,
            s == v@.subrange(lo as int, hi as int),
            n % 2 == 0,
            k % 2 == 0,
            k <= n,
            hex_decode_spec(s.take(k as int)) == Some(out@),
        decreases n - k,
    {
        let a = hex_value(v[lo + k]);
        let b = hex_value(v[lo + k + 1]);
        let ghost p = s.take(k + 2);
        proof {
            assert(p.take(k as int) =~= s.take(k as int));
            assert(p[k as int] == v@[lo + k]);
            assert(p[k + 1] == v@[lo + k + 1]);
        }
        match (a, b) {
            (Some(x), Some(y)) => {
                out.push(x * 16 + y);
            },
            _ => {
                proof {
                    assert(hex_decode_spec(p) is None);
                    if hex_decode_spec(s) is Some {
                        assert(s.take(n as int) =~= s);
                        lemma_hex_prefix(s, n as int, k + 2);
                    }
                }
                return None;
            },
        }
        k = k + 2;
    }
    assert(s.take(n as int) =~= s);
    Some(out)
}

/// What one SAN URI says (see [`san_uri`]).
fn read_san_uri(u: &str) -> (r: Option<Result<(Vec<u8>, u64), CertError>>)
    ensures
        match san_uri(u@) {
            None => r is None,
            Some(Err(e)) => r == Some(Err::<(Vec<u8>, u64), CertError>(e)),
            Some(Ok((b, n))) => r matches Some(Ok((x, m))) && x@ == b && m == n,
        },
{
    let v = chars_vec(u);
    let len = v.len();
    proof {
        reveal_strlit("bitstream://");
    }
    let prefix = chars_vec("bitstream://");
    if len < 12 {
        return None;
    }
    let mut i: usize = 0;
    while i < 12
        invariant
            i <= 12 <= len == v@.len(),
            v@ == u@,
            prefix@ == san_prefix(),
            forall|k: int| 0 <= k < i ==> v@[k] == san_prefix()[k],
        decreases 12 - i,
    {
        if v[i] != prefix[i] {
            assert(v@.take(12)[i as int] != san_prefix()[i as int]);
            assert(v@.take(12) != san_prefix());
            assert(u@.take(12) != san_prefix());
            return None;
        }
        i = i + 1;
    }
    assert(v@.take(12) =~= san_prefix());
    let ghost rest = v@.skip(12);
    assert(v@.subrange(12, len as int) =~= rest);
    let slash = match find_in(&v, '/', 12, len) {
        None => {
            return Some(Err(CertError::SanNonce));
        },
        Some(p) => p,
    };
    let ghost i0 = slash - 12;
    proof {
        lemma_find_char(rest, '/', 0);
        assert(rest.skip(i0 + 1) =~= v@.subrange(slash + 1, len as int));
        assert(rest.take(i0) =~= v@.subrange(12, slash as int));
    }
    let ghost after = rest.skip(i0 + 1);
    let end = match find_in(&v, '/', slash + 1, len) {
        None => len,
        Some(q) => q,
    };
    proof {
        lemma_find_char(after, '/', 0);
        match find_char(after, '/', 0) {
            None => {},
            Some(j) => {
                assert(after.take(j) =~= v@.subrange(slash + 1, end as int));
            },
        }
    }
    let nonce = match parse_u64_chars(&v, slash + 1, end) {
        None => {
            return Some(Err(CertError::SanNonce));
        },
        Some(n) => n,
    };
    let id = match hex_decode_chars(&v, 12, slash) {
        None => {
            return Some(Err(CertError::SanId));
        },
        Some(b) => b,
    };
    if id.len() != 32 {
        return Some(Err(CertError::SanIdLength));
    }
    Some(Ok((id, nonce)))
}

/// Copy 32 bytes into an array.
fn to_array32(b: &[u8]) -> (r: [u8; 32])
    requires
        b@.len() == 32,
    ensures
        r@ == b@,
{
    let mut a = [0u8; 32];
    let mut i: usize = 0;
    while i < 32
        invariant
            i <= 32,
            b@.len() == 32,
            a@.len() == 32,
            forall|k: int| 0 <= k < i ==> a@[k] == b@[k],
        decreases 32 - i,
    {
        a[i] = b[i];
        i = i + 1;
    }
    assert(a@ =~= b@);
    a
}

/// The views of a list of strings.
pub open spec fn string_views(uris: Seq<String>) -> Seq<Seq<char>> {
    uris.map_values(|u: String| u@)
}

/// Check a peer certificate's identity: its subject key `key` must be an
/// Ed25519 key (32 bytes), and the `bitstream://` URIs among its SAN URIs
/// `uris` must name a NodeID and static nonce for which the NodeID is
/// `Blake3(key ‖ nonce)` with at least `c1` leading zero bits.
pub fn peer_identity(key: &[u8], uris: &Vec<String>, c1: u32) -> (r: Result<PeerIdentity, CertError>)
    ensures
        match peer_identity_spec(key@, string_views(uris@), c1) {
            Err(e) => r == Err::<PeerIdentity, CertError>(e),
            Ok((id, pk, n)) => r matches Ok(p) && p.node_id.0@ == id && p.public_key.0@ == pk && p.static_nonce == n,
        },
{
    if key.len() != 32 {
        return Err(CertError::KeyLength);
    }
    let ghost views = string_views(uris@);
    let mut found: Option<(Vec<u8>, u64)> = None;
    let mut k: usize = 0;
    while k < uris.len()
        invariant
            k <= uris@.len(),
            key@.len() == 32,
            views == string_views(uris@),
            match san_scan(views.take(k as int)) {
                Err(_) => false,
                Ok(None) => found is None,
                Ok(Some((b, n))) => found matches Some((x, m)) && x@ == b && m == n,
            },
            found matches Some((x, m)) ==> x@.len() == 32,
        decreases uris@.len() - k,
    {
        proof {
            assert(views.take(k + 1).drop_last() =~= views.take(k as int));
            assert(views.take(k + 1).last() == uris@[k as int]@);
        }
        let u = uris[k].as_str();
        assert(u@ == views[k as int]);
        let ghost prev = san_scan(views.take(k as int));
        assert(prev is Ok);
        match read_san_uri(u) {
            None => {},
            Some(Err(e)) => {
                proof {
                    assert(san_uri(views.take(k + 1).last()) == Some(Err::<(Seq<u8>, u64), CertError>(e)));
                    assert(san_scan(views.take(k + 1)) == Err::<Option<(Seq<u8>, u64)>, CertError>(e));
                    lemma_scan_err(views, k as int + 1, e);
                }
                return Err(e);
            },
            Some(Ok(x)) => {
                found = Some(x);
            },
        }
        k = k + 1;
    }
    assert(views.take(uris@.len() as int) =~= views);
    match found {
        None => Err(CertError::NoBitstreamSan),
        Some((id, nonce)) => {
            let public_key = PublicKeyBytes(to_array32(key));
            let node_id = NodeId(to_array32(id.as_slice()));
            match verify_static(&public_key, nonce, &node_id, c1) {
                Ok(()) => Ok(PeerIdentity { node_id, public_key, static_nonce: nonce }),
                Err(_) => Err(CertError::IdentityPow),
            }
        },
    }
}

/// An error in a prefix of the URIs is the error of the whole scan.
proof fn lemma_scan_err(views: Seq<Seq<char>>, k: int, e: CertError)
    requires
        0 <= k <= views.len(),
        san_scan(views.take(k)) == Err::<Option<(Seq<u8>, u64)>, CertError>(e),
    ensures
        san_scan(views) == Err::<Option<(Seq<u8>, u64)>, CertError>(e),
    decreases views.len() - k,
{
    if k < views.len() {
        assert(views.take(k + 1).drop_last() =~= views.take(k));
        lemma_scan_err(views, k + 1, e);
    } else {
        assert(views.take(k) =~= views);
    }
}

} // verus!
