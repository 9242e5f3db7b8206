//! Identifiers, protocol constants and the big-endian integer layouts that the
//! signed and hashed structures are built from.
use vstd::prelude::*;

verus! {

/// Bytes per Merkle block.
pub const BLOCK_SIZE: usize = 16384;
/// Bytes per RaptorQ symbol.
pub const SYMBOL_SIZE: usize = 1024;
/// Source symbols per block.
pub const K_BLOCK: usize = 16;
/// Chunks per one-second segment.
pub const CHUNKS_PER_SEGMENT: u8 = 4;
/// Largest forest.
pub const MAX_TREES: usize = 8;
/// Blocks one chunk may hold (the `BlockIndex` layout has 12 bits for `j`).
pub const MAX_BLOCKS_PER_CHUNK: usize = 4096;
/// Most peer records one discovery answer carries.
pub const MAX_GET_PEERS_RECORDS: usize = 32;

/// A 32-byte Blake3 digest.
#[derive(Debug, Clone, Copy, PartialEq, Eq, Hash, PartialOrd, Ord)]
pub struct Digest(pub [u8; 32]);

/// A node identity: the output of the static puzzle.
#[derive(Debug, Clone, Copy, PartialEq, Eq, Hash, PartialOrd, Ord)]
pub struct NodeId(pub [u8; 32]);

/// A stream identity: the Blake3 digest of the publisher's public key.
#[derive(Debug, Clone, Copy, PartialEq, Eq, Hash, PartialOrd, Ord)]
pub struct StreamId(pub [u8; 32]);

/// An Ed25519 public key.
#[derive(Debug, Clone, Copy, PartialEq, Eq, Hash, PartialOrd, Ord)]
pub struct PublicKeyBytes(pub [u8; 32]);

/// An Ed25519 signature.
#[derive(Debug, Clone, Copy, PartialEq, Eq, Hash)]
pub struct SignatureBytes(pub [u8; 64]);

/// Whether two byte strings are equal.
pub fn bytes_equal(a: &[u8], b: &[u8]) -> (r: bool)
    ensures r == (a@ == b@),
{
    if a.len() != b.len() {
        return false;
    }
    let mut i: usize = 0;
    while i < a.len()
        invariant
            a@.len() == b@.len(),
            0 <= i <= a@.len(),
            forall|k: int| 0 <= k < i ==> a@[k] == b@[k],
        decreases a@.len() - i,
    {
        if a[i] != b[i] {
            return false;
        }
        i = i + 1;
    }
    assert(a@ =~= b@);
    true
}

/// Lexicographic order on byte strings: `a` comes strictly before `b`.
pub open spec fn lex_lt(a: Seq<u8>, b: Seq<u8>) -> bool
    decreases a.len(),
{
    if a.len() == 0 {
        b.len() > 0
    } else if b.len() == 0 {
        false
    } else if a[0] != b[0] {
        a[0] < b[0]
    } else {
        lex_lt(a.drop_first(), b.drop_first())
    }
}

/// Nothing comes before itself.
pub proof fn lemma_lex_irreflexive(a: Seq<u8>)
    ensures !lex_lt(a, a),
    decreases a.len(),
{
    if a.len() > 0 {
        lemma_lex_irreflexive(a.drop_first());
    }
}

/// The order is transitive.
pub proof fn lemma_lex_transitive(a: Seq<u8>, b: Seq<u8>, c: Seq<u8>)
    requires
        lex_lt(a, b),
        lex_lt(b, c),
    ensures
        lex_lt(a, c),
    decreases a.len(),
{
    if a.len() > 0 && b.len() > 0 && c.len() > 0 && a[0] == b[0] && b[0] == c[0] {
        lemma_lex_transitive(a.drop_first(), b.drop_first(), c.drop_first());
    }
}

/// Of two different strings of one length, one comes before the other.
pub proof fn lemma_lex_total(a: Seq<u8>, b: Seq<u8>)
    requires
        a.len() == b.len(),
        a != b,
    ensures
        lex_lt(a, b) || lex_lt(b, a),
    decreases a.len(),
{
    if a.len() == 0 {
        assert(a =~= b);
    } else if a[0] == b[0] {
        if a.drop_first() == b.drop_first() {
            assert(a =~= b) by {
                assert forall|i: int| 0 <= i < a.len() implies a[i] == b[i] by {
                    if i > 0 {
                        assert(a[i] == a.drop_first()[i - 1]);
                        assert(b[i] == b.drop_first()[i - 1]);
                    }
                }
            }
        }
        lemma_lex_total(a.drop_first(), b.drop_first());
    }
}

/// Whether `a` comes strictly before `b` in byte order.
pub fn bytes_before(a: &[u8], b: &[u8]) -> (r: bool)
    requires a@.len() == b@.len(),
    ensures r == lex_lt(a@, b@),
{
    let n = a.len();
    let mut i: usize = 0;
    proof {
        assert(a@.subrange(0, n as int) =~= a@);
        assert(b@.subrange(0, n as int) =~= b@);
    }
    while i < n
        invariant
            n == a@.len(),
            n == b@.len(),
            i <= n,
            lex_lt(a@, b@) == lex_lt(a@.subrange(i as int, n as int), b@.subrange(i as int, n as int)),
        decreases n - i,
    {
        let ghost sa = a@.subrange(i as int, n as int);
        let ghost sb = b@.subrange(i as int, n as int);
        if a[i] != b[i] {
            return a[i] < b[i];
        }
        proof {
            assert(sa.drop_first() =~= a@.subrange(i + 1, n as int));
            assert(sb.drop_first() =~= b@.subrange(i + 1, n as int));
        }
        i = i + 1;
    }
    false
}

impl Digest {
    /// The all-zero digest (padding leaf).
    pub fn zero() -> (r: Digest)
        ensures r.0@ == Seq::new(32, |i: int| 0u8),
    {
        let r = Digest([0u8; 32]);
        assert(r.0@ =~= Seq::new(32, |i: int| 0u8));
        r
    }

    /// The digest bytes.
    pub fn as_bytes(&self) -> (r: &[u8; 32])
        ensures r@ == self.0@,
    {
        &self.0
    }

    /// Byte-wise equality.
    pub fn same(&self, other: &Digest) -> (r: bool)
        ensures r == (self.0@ == other.0@),
    {
        bytes_equal(self.0.as_slice(), other.0.as_slice())
    }
}

impl NodeId {
    /// The identity bytes.
    pub fn as_bytes(&self) -> (r: &[u8; 32])
        ensures r@ == self.0@,
    {
        &self.0
    }

    /// Whether this identity comes strictly before `other` in byte order.
    pub fn precedes(&self, other: &NodeId) -> (r: bool)
        ensures r == lex_lt(self.0@, other.0@),
    {
        bytes_before(self.0.as_slice(), other.0.as_slice())
    }

    /// Whether two identities are the same.
    pub fn same(&self, other: &NodeId) -> (r: bool)
        ensures r == (*self == *other),
    {
        let e = bytes_equal(self.0.as_slice(), other.0.as_slice());
        proof {
            if e {
                assert(self.0@ =~= other.0@);
                assert(self.0 =~= other.0);
            }
        }
        e
    }
}

impl StreamId {
    /// The identity bytes.
    pub fn as_bytes(&self) -> (r: &[u8; 32])
        ensures r@ == self.0@,
    {
        &self.0
    }

    /// Whether two stream identities are the same.
    pub fn same(&self, other: &StreamId) -> (r: bool)
        ensures r == (*self == *other),
    {
        let e = bytes_equal(self.0.as_slice(), other.0.as_slice());
        proof {
            if e {
                assert(self.0@ =~= other.0@);
                assert(self.0 =~= other.0);
            }
        }
        e
    }
}

impl PublicKeyBytes {
    /// The key bytes.
    pub fn as_bytes(&self) -> (r: &[u8; 32])
        ensures r@ == self.0@,
    {
        &self.0
    }
}

impl SignatureBytes {
    /// The all-zero placeholder signature.
    pub fn zero() -> (r: SignatureBytes)
        ensures r.0@ == Seq::new(64, |i: int| 0u8),
    {
        let r = SignatureBytes([0u8; 64]);
        assert(r.0@ =~= Seq::new(64, |i: int| 0u8));
        r
    }

    /// The signature bytes.
    pub fn as_bytes(&self) -> (r: &[u8; 64])
        ensures r@ == self.0@,
    {
        &self.0
    }
}

/// A tree of the forest, numbered from 1.
#[derive(Debug, Clone, Copy, PartialEq, Eq, Structural, Hash, PartialOrd, Ord)]
pub struct TreeId(pub u8);

impl TreeId {
    /// Tree 1, which always carries the base layer.
    pub fn base() -> (r: TreeId)
        ensures r.0 == 1,
    {
        TreeId(1)
    }

    /// Zero-based position of the tree.
    pub fn index(self) -> (r: usize)
        requires self.0 >= 1,
        ensures r == self.0 - 1,
    {
        (self.0 - 1) as usize
    }
}

/// Setting bit `s` of `b` sets exactly that bit.
pub proof fn lemma_bit_set(b: u8, s: u8, u: u8)
    by (bit_vector)
    requires s < 8, u < 8,
    ensures (((b | (1u8 << s)) >> u) & 1u8 == 1u8) <==> (((b >> u) & 1u8 == 1u8) || u == s),
{
}

/// A set of trees as a bitmask: bit `t - 1` stands for tree `t`.
#[derive(Debug, Clone, Copy, PartialEq, Eq, Structural, Hash)]
pub struct TreeSet(pub u8);

/// Whether bit `t - 1` of `bits` is set.
pub open spec fn tree_bit(bits: u8, t: u8) -> bool {
    1 <= t <= 8 && (bits >> ((t - 1) as u8)) & 1u8 == 1u8
}

impl TreeSet {
    /// The empty set.
    pub fn empty() -> (r: TreeSet)
        ensures r.0 == 0,
    {
        TreeSet(0)
    }

    /// Add a tree.
    pub fn insert(&mut self, t: TreeId)
        requires 1 <= t.0 <= 8,
        ensures
            final(self).0 == old(self).0 | (1u8 << ((t.0 - 1) as u8)),
            forall|u: u8| 1 <= u <= 8 ==> (#[trigger] tree_bit(final(self).0, u) <==> (tree_bit(old(self).0, u) || u == t.0)),
    {
        let s: u8 = t.0 - 1;
        let ghost before = self.0;
        self.0 = self.0 | (1u8 << s);
        proof {
            assert forall|u: u8| 1 <= u <= 8 implies (#[trigger] tree_bit(self.0, u) <==> (tree_bit(before, u) || u == t.0)) by {
                lemma_bit_set(before, s, (u - 1) as u8);
            }
        }
    }

    /// The trees in both sets.
    pub fn intersection(self, other: TreeSet) -> (r: TreeSet)
        ensures r.0 == self.0 & other.0,
    {
        TreeSet(self.0 & other.0)
    }

    /// Whether the set holds no tree.
    pub fn is_empty(self) -> (r: bool)
        ensures r == (self.0 == 0),
    {
        self.0 == 0
    }

    /// Whether the set holds a tree.
    pub fn contains(self, t: TreeId) -> (r: bool)
        ensures r == tree_bit(self.0, t.0),
    {
        if t.0 == 0 || t.0 > 8 {
            false
        } else {
            let s: u8 = t.0 - 1;
            (self.0 >> s) & 1u8 == 1u8
        }
    }
}

/// A segment sequence number; 0 means "none", streams start at 1.
#[derive(Debug, Clone, Copy, PartialEq, Eq, Structural, Hash, PartialOrd, Ord)]
pub struct SegmentSeq(pub u32);

impl SegmentSeq {
    /// No segment.
    pub fn none() -> (r: SegmentSeq)
        ensures r.0 == 0,
    {
        SegmentSeq(0)
    }

    /// The first segment of a stream.
    pub fn first() -> (r: SegmentSeq)
        ensures r.0 == 1,
    {
        SegmentSeq(1)
    }

    /// Whether this names a segment.
    pub fn is_some(self) -> (r: bool)
        ensures r == (self.0 != 0),
    {
        self.0 != 0
    }

    /// The following segment.
    pub fn next(self) -> (r: SegmentSeq)
        requires self.0 < u32::MAX,
        ensures r.0 == self.0 + 1,
    {
        SegmentSeq(self.0 + 1)
    }
}

/// A block position inside a segment: chunk index in the top 4 bits, block
/// number `j` in the low 12.
#[derive(Debug, Clone, Copy, PartialEq, Eq, Structural, Hash, PartialOrd, Ord)]
pub struct BlockIndex(pub u16);

impl BlockIndex {
    /// Pack a chunk index and block number; `None` when either does not fit.
    pub fn new(chunk: u8, j: u16) -> (r: Option<BlockIndex>)
        ensures
            (chunk < 16 && j < 4096) ==> r == Some(BlockIndex((chunk as int * 4096 + j) as u16)),
            !(chunk < 16 && j < 4096) ==> r.is_none(),
    {
        if chunk < 16 && j < 4096 {
            Some(BlockIndex(chunk as u16 * 4096 + j))
        } else {
            None
        }
    }

    /// The chunk index.
    pub fn chunk(self) -> (r: u8)
        ensures r == self.0 / 4096,
    {
        (self.0 / 4096) as u8
    }

    /// The block number within the chunk.
    pub fn j(self) -> (r: u16)
        ensures r == self.0 % 4096,
    {
        self.0 % 4096
    }
}

/// A peer's self-declared class.
#[derive(Debug, Clone, Copy, PartialEq, Eq, Structural, Hash)]
pub enum NodeClass {
    /// Can relay (interior node in one tree).
    Relay,
    /// Leaf only (cellular, symmetric NAT).
    Leaf,
}

/// The byte that stands for a class on the wire.
pub open spec fn class_code(c: NodeClass) -> u8 {
    match c {
        NodeClass::Relay => 0,
        NodeClass::Leaf => 1,
    }
}

impl NodeClass {
    /// The byte that stands for the class on the wire.
    pub fn code(self) -> (r: u8)
        ensures r == class_code(self),
    {
        match self {
            NodeClass::Relay => 0,
            NodeClass::Leaf => 1,
        }
    }

    /// Whether the class is leaf-only.
    pub fn is_leaf(self) -> (r: bool)
        ensures r == (self == NodeClass::Leaf),
    {
        match self {
            NodeClass::Leaf => true,
            NodeClass::Relay => false,
        }
    }
}

/// An IP address as the bytes a puzzle binds to.
#[derive(Debug, Clone, Copy, PartialEq, Eq, Hash)]
pub enum IpAddress {
    /// IPv4, four octets.
    V4([u8; 4]),
    /// IPv6, sixteen octets.
    V6([u8; 16]),
}

/// The octets of an address (4 or 16 bytes).
pub open spec fn ip_octets(ip: IpAddress) -> Seq<u8> {
    match ip {
        IpAddress::V4(a) => a@,
        IpAddress::V6(a) => a@,
    }
}

impl IpAddress {
    /// Whether two addresses are the same.
    pub fn same(&self, other: &IpAddress) -> (r: bool)
        ensures r == (*self == *other),
    {
        match (self, other) {
            (IpAddress::V4(a), IpAddress::V4(b)) => {
                let e = bytes_equal(a.as_slice(), b.as_slice());
                proof {
                    if e {
                        assert(a@ =~= b@);
                        assert(*a =~= *b);
                    }
                }
                e
            },
            (IpAddress::V6(a), IpAddress::V6(b)) => {
                let e = bytes_equal(a.as_slice(), b.as_slice());
                proof {
                    if e {
                        assert(a@ =~= b@);
                        assert(*a =~= *b);
                    }
                }
                e
            },
            _ => false,
        }
    }

    /// The octets of the address.
    pub fn octets(&self) -> (r: Vec<u8>)
        ensures r@ == ip_octets(*self),
    {
        match self {
            IpAddress::V4(a) => {
                let mut v: Vec<u8> = Vec::new();
                v.extend_from_slice(a.as_slice());
                assert(v@ =~= a@);
                v
            },
            IpAddress::V6(a) => {
                let mut v: Vec<u8> = Vec::new();
                v.extend_from_slice(a.as_slice());
                assert(v@ =~= a@);
                v
            },
        }
    }
}

/// Big-endian bytes of a `u16`.
pub open spec fn u16_be(v: u16) -> Seq<u8> {
    seq![(v >> 8u16) as u8, v as u8]
}

/// Big-endian bytes of a `u32`.
pub open spec fn u32_be(v: u32) -> Seq<u8> {
    seq![(v >> 24u32) as u8, (v >> 16u32) as u8, (v >> 8u32) as u8, v as u8]
}

/// Big-endian bytes of a `u64`.
pub open spec fn u64_be(v: u64) -> Seq<u8> {
    seq![
        (v >> 56u64) as u8,
        (v >> 48u64) as u8,
        (v >> 40u64) as u8,
        (v >> 32u64) as u8,
        (v >> 24u64) as u8,
        (v >> 16u64) as u8,
        (v >> 8u64) as u8,
        v as u8,
    ]
}

/// Little-endian bytes of a `u64`.
pub open spec fn u64_le(v: u64) -> Seq<u8> {
    seq![
        v as u8,
        (v >> 8u64) as u8,
        (v >> 16u64) as u8,
        (v >> 24u64) as u8,
        (v >> 32u64) as u8,
        (v >> 40u64) as u8,
        (v >> 48u64) as u8,
        (v >> 56u64) as u8,
    ]
}

/// Append the big-endian bytes of `v`.
pub fn push_u16_be(out: &mut Vec<u8>, v: u16)
    ensures final(out)@ == old(out)@ + u16_be(v),
{
    out.push((v >> 8u16) as u8);
    out.push(v as u8);
    assert(final(out)@ =~= old(out)@ + u16_be(v));
}

/// Append the big-endian bytes of `v`.
pub fn push_u32_be(out: &mut Vec<u8>, v: u32)
    ensures final(out)@ == old(out)@ + u32_be(v),
{
    out.push((v >> 24u32) as u8);
    out.push((v >> 16u32) as u8);
    out.push((v >> 8u32) as u8);
    out.push(v as u8);
    assert(final(out)@ =~= old(out)@ + u32_be(v));
}

/// Append the big-endian bytes of `v`.
pub fn push_u64_be(out: &mut Vec<u8>, v: u64)
    ensures final(out)@ == old(out)@ + u64_be(v),
{
    out.push((v >> 56u64) as u8);
    out.push((v >> 48u64) as u8);
    out.push((v >> 40u64) as u8);
    out.push((v >> 32u64) as u8);
    out.push((v >> 24u64) as u8);
    out.push((v >> 16u64) as u8);
    out.push((v >> 8u64) as u8);
    out.push(v as u8);
    assert(final(out)@ =~= old(out)@ + u64_be(v));
}

/// Append a byte string.
pub fn push_bytes(out: &mut Vec<u8>, b: &[u8])
    ensures final(out)@ == old(out)@ + b@,
{
    let ghost o = out@;
    out.extend_from_slice(b);
    assert(out@ =~= o + b@);
}

/// The `u32` whose big-endian bytes are `b0 b1 b2 b3`.
pub open spec fn be_u32(b0: u8, b1: u8, b2: u8, b3: u8) -> u32 {
    ((b0 as u32) << 24u32) | ((b1 as u32) << 16u32) | ((b2 as u32) << 8u32) | (b3 as u32)
}

/// Read a big-endian `u32` from four bytes.
pub fn read_u32_be(b0: u8, b1: u8, b2: u8, b3: u8) -> (r: u32)
    ensures r == be_u32(b0, b1, b2, b3),
{
    ((b0 as u32) << 24u32) | ((b1 as u32) << 16u32) | ((b2 as u32) << 8u32) | (b3 as u32)
}

/// Decoding the big-endian bytes of a `u32` gives the `u32` back.
pub proof fn lemma_u32_be_roundtrip(v: u32)
    ensures
        be_u32(u32_be(v)[0], u32_be(v)[1], u32_be(v)[2], u32_be(v)[3]) == v,
{
    let b0 = (v >> 24u32) as u8;
    let b1 = (v >> 16u32) as u8;
    let b2 = (v >> 8u32) as u8;
    let b3 = v as u8;
    assert(((b0 as u32) << 24u32) | ((b1 as u32) << 16u32) | ((b2 as u32) << 8u32) | (b3 as u32)
        == v) by (bit_vector)
        requires
            b0 == (v >> 24u32) as u8,
            b1 == (v >> 16u32) as u8,
            b2 == (v >> 8u32) as u8,
            b3 == v as u8,
    ;
}

/// The type byte of a frame, the first byte a validation block signs.
#[derive(Debug, Clone, Copy, PartialEq, Eq, Structural, Hash)]
pub struct FrameType(pub u8);

impl FrameType {
    /// `PING`.
    pub fn ping() -> (r: FrameType)
        ensures r.0 == 0x01,
    {
        FrameType(0x01)
    }

    /// `PROBE`.
    pub fn probe() -> (r: FrameType)
        ensures r.0 == 0x03,
    {
        FrameType(0x03)
    }

    /// `REGISTER_PEER`.
    pub fn register_peer() -> (r: FrameType)
        ensures r.0 == 0x10,
    {
        FrameType(0x10)
    }

    /// `GET_PEERS`.
    pub fn get_peers() -> (r: FrameType)
        ensures r.0 == 0x11,
    {
        FrameType(0x11)
    }
}

/// The identity proof carried by a pre-session frame.
#[derive(Debug, Clone, Copy, PartialEq, Eq)]
pub struct ValidationBlock {
    /// Sender NodeID.
    pub node_id: NodeId,
    /// Sender public key.
    pub public_key: PublicKeyBytes,
    /// Static puzzle nonce.
    pub static_nonce: u64,
    /// Dynamic puzzle nonce.
    pub dynamic_nonce: u64,
    /// Send time, microseconds.
    pub timestamp_us: u64,
    /// Signature over `Blake3(FrameType ‖ Timestamp ‖ body)`.
    pub signature: SignatureBytes,
}

/// `FrameType ‖ Timestamp ‖ body`: the pre-image whose digest a validation block signs.
pub open spec fn vb_message(ft: FrameType, ts: u64, body: Seq<u8>) -> Seq<u8> {
    seq![ft.0] + u64_be(ts) + body
}

/// The 152-byte encoding of a validation block.
pub open spec fn vb_bytes(vb: ValidationBlock) -> Seq<u8> {
    vb.node_id.0@ + vb.public_key.0@ + u64_be(vb.static_nonce) + u64_be(vb.dynamic_nonce)
        + u64_be(vb.timestamp_us) + vb.signature.0@
}

impl ValidationBlock {
    /// The pre-image signed for a frame of type `ft` sent at `ts` with payload `body`.
    pub fn signed_message(ft: FrameType, ts: u64, body: &[u8]) -> (r: Vec<u8>)
        ensures r@ == vb_message(ft, ts, body@),
    {
        let mut v: Vec<u8> = Vec::new();
        v.push(ft.0);
        push_u64_be(&mut v, ts);
        push_bytes(&mut v, body);
        assert(v@ =~= vb_message(ft, ts, body@));
        v
    }

    /// Encode on the wire.
    pub fn to_vec(&self) -> (r: Vec<u8>)
        ensures r@ == vb_bytes(*self), r@.len() == 152,
    {
        let mut v: Vec<u8> = Vec::with_capacity(152);
        push_bytes(&mut v, self.node_id.0.as_slice());
        push_bytes(&mut v, self.public_key.0.as_slice());
        push_u64_be(&mut v, self.static_nonce);
        push_u64_be(&mut v, self.dynamic_nonce);
        push_u64_be(&mut v, self.timestamp_us);
        push_bytes(&mut v, self.signature.0.as_slice());
        v
    }
}

} // verus!
