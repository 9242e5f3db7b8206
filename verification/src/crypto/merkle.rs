//! Blake3 Merkle tree over 16 KB blocks.
//!
//! Leaves are `Blake3(block)`, internal nodes `Blake3(left ‖ right)`. The leaf
//! count is padded to the next power of two with all-zero 32-byte leaves, so a
//! proof for any block has exactly `log2(padded_len)` siblings. A single block
//! yields a tree of depth 0 whose root is the leaf hash.
use vstd::prelude::*;
use crate::wire::Digest;
use super::hashing::{blake3_digest, blake3_spec};
use super::signing::CryptoError;

verus! {

/// `Blake3(left ‖ right)`.
pub open spec fn pair_digest(l: Seq<u8>, r: Seq<u8>) -> Seq<u8> {
    blake3_spec(l + r)
}

/// The bytes of each digest.
pub open spec fn digests(v: Seq<Digest>) -> Seq<Seq<u8>> {
    v.map_values(|d: Digest| d.0@)
}

/// The 32 zero bytes of a padding leaf.
pub open spec fn zero_digest() -> Seq<u8> {
    Seq::new(32, |i: int| 0u8)
}

/// The level above `level`: node `i` hashes children `2i` and `2i + 1`.
pub open spec fn next_level(level: Seq<Seq<u8>>) -> Seq<Seq<u8>> {
    Seq::new(level.len() / 2, |i: int| pair_digest(level[2 * i], level[2 * i + 1]))
}

/// The root reached by pairing `level` upward until one node is left.
pub open spec fn level_root(level: Seq<Seq<u8>>) -> Seq<u8>
    decreases level.len(),
{
    if level.len() <= 1 {
        level[0]
    } else {
        level_root(next_level(level))
    }
}

/// Siblings of position `i` from `level` upward.
pub open spec fn level_path(level: Seq<Seq<u8>>, i: nat) -> Seq<Seq<u8>>
    decreases level.len(),
{
    if level.len() <= 1 {
        Seq::empty()
    } else {
        seq![level[sibling(i) as int]] + level_path(next_level(level), i / 2)
    }
}

/// The other child of the parent of position `i`.
pub open spec fn sibling(i: nat) -> nat {
    if i % 2 == 0 { i + 1 } else { (i - 1) as nat }
}

/// Whether `n` is a power of two.
pub open spec fn is_pow2(n: nat) -> bool
    decreases n,
{
    if n == 1 {
        true
    } else if n < 2 || n % 2 != 0 {
        false
    } else {
        is_pow2(n / 2)
    }
}

/// The leaf count padded to the next power of two.
pub open spec fn padded_len(n: nat) -> nat
    decreases n,
{
    if n <= 1 { 1 } else { 2 * padded_len(((n + 1) / 2) as nat) }
}

/// `ceil(log2(n))`: the proof length for `n` leaves.
pub open spec fn ceil_log2(n: nat) -> nat
    decreases n,
{
    if n <= 1 { 0 } else { 1 + ceil_log2(((n + 1) / 2) as nat) }
}

/// The leaves followed by zero leaves up to the padded length.
pub open spec fn pad_leaves(leaves: Seq<Seq<u8>>) -> Seq<Seq<u8>> {
    leaves + Seq::new((padded_len(leaves.len()) - leaves.len()) as nat, |i: int| zero_digest())
}

/// The Merkle root of a list of leaf digests.
pub open spec fn merkle_root(leaves: Seq<Seq<u8>>) -> Seq<u8> {
    level_root(pad_leaves(leaves))
}

/// The sibling path of leaf `i`, from the leaf level upward.
pub open spec fn merkle_path(leaves: Seq<Seq<u8>>, i: nat) -> Seq<Seq<u8>> {
    level_path(pad_leaves(leaves), i)
}

/// Each level is the pairing of the one below it, which has more than one node.
pub open spec fn chained(lv: Seq<Seq<Seq<u8>>>) -> bool {
    forall|t: int| 1 <= t < lv.len() ==> #[trigger] lv[t] == next_level(lv[t - 1]) && lv[t - 1].len() > 1
}

/// One step up a proof: the accumulator is the left child when `i` is even.
pub open spec fn proof_step(acc: Seq<u8>, i: nat, s: Seq<u8>) -> Seq<u8> {
    if i % 2 == 0 { pair_digest(acc, s) } else { pair_digest(s, acc) }
}

/// The root recomputed from a leaf, its index and its sibling path.
pub open spec fn fold_proof(acc: Seq<u8>, i: nat, sibs: Seq<Seq<u8>>) -> Seq<u8>
    decreases sibs.len(),
{
    if sibs.len() == 0 {
        acc
    } else {
        fold_proof(proof_step(acc, i, sibs[0]), i / 2, sibs.drop_first())
    }
}

proof fn lemma_padded_len(n: nat)
    ensures
        padded_len(n) >= 1,
        padded_len(n) >= n,
        is_pow2(padded_len(n)),
        padded_len(n) == 1 <==> n <= 1,
    decreases n,
{
    if n > 1 {
        let h = ((n + 1) / 2) as nat;
        lemma_padded_len(h);
        let p = padded_len(n);
        assert(p == 2 * padded_len(h));
        assert(p / 2 == padded_len(h));
        assert(p % 2 == 0);
    }
}

/// The unique power of two covering `n` that halves below `n`.
proof fn lemma_pow2_cover_unique(p: nat, n: nat)
    requires
        is_pow2(p),
        n <= p,
        p == 1 || p / 2 < n,
    ensures
        p == padded_len(n),
    decreases p,
{
    if p != 1 {
        let h = ((n + 1) / 2) as nat;
        assert(p >= 2 && p % 2 == 0);
        assert(is_pow2(p / 2));
        assert(h <= p / 2);
        assert(p / 2 == 1 || (p / 2) / 2 < h);
        lemma_pow2_cover_unique(p / 2, h);
        assert(n >= 2);
    }
}

proof fn lemma_next_level_len(level: Seq<Seq<u8>>)
    requires
        is_pow2(level.len()),
        level.len() > 1,
    ensures
        next_level(level).len() * 2 == level.len(),
        is_pow2(next_level(level).len()),
{
}

/// Walking a leaf's sibling path up a power-of-two level reaches the level's root.
proof fn lemma_level_path_reaches_root(level: Seq<Seq<u8>>, i: nat)
    requires
        is_pow2(level.len()),
        i < level.len(),
    ensures
        level_path(level, i).len() + 0 == level_path(level, i).len(),
        fold_proof(level[i as int], i, level_path(level, i)) == level_root(level),
    decreases level.len(),
{
    if level.len() > 1 {
        let nl = next_level(level);
        lemma_next_level_len(level);
        let s = level[sibling(i) as int];
        let rest = level_path(nl, i / 2);
        let path = level_path(level, i);
        assert(path == seq![s] + rest);
        assert(path.drop_first() =~= rest);
        assert(path[0] == s);
        let j = i / 2;
        assert(nl[j as int] == pair_digest(level[2 * j as int], level[2 * j as int + 1]));
        if i % 2 == 0 {
            assert(2 * j == i && 2 * j + 1 == sibling(i));
        } else {
            assert(2 * j == sibling(i) && 2 * j + 1 == i);
        }
        assert(proof_step(level[i as int], i, s) == nl[j as int]);
        lemma_level_path_reaches_root(nl, j);
    }
}

/// The length of a leaf's path is `ceil(log2(leaf count))`.
proof fn lemma_level_path_len(level: Seq<Seq<u8>>, i: nat, n: nat)
    requires
        level.len() == padded_len(n),
    ensures
        level_path(level, i).len() == ceil_log2(n),
    decreases level.len(),
{
    lemma_padded_len(n);
    if level.len() > 1 {
        let h = ((n + 1) / 2) as nat;
        lemma_padded_len(h);
        lemma_next_level_len(level);
        lemma_level_path_len(next_level(level), i / 2, h);
    }
}

/// Law: the sibling path of any leaf leads from that leaf to the Merkle root.
pub proof fn lemma_merkle_proof_roundtrip(leaves: Seq<Seq<u8>>, i: nat)
    requires
        i < leaves.len(),
    ensures
        fold_proof(leaves[i as int], i, merkle_path(leaves, i)) == merkle_root(leaves),
        merkle_path(leaves, i).len() == ceil_log2(leaves.len()),
{
    let padded = pad_leaves(leaves);
    lemma_padded_len(leaves.len());
    assert(padded.len() == padded_len(leaves.len()));
    assert(padded[i as int] == leaves[i as int]);
    lemma_level_path_reaches_root(padded, i);
    lemma_level_path_len(padded, i, leaves.len());
}

/// `Blake3(left ‖ right)` over two digests.
fn hash_pair(l: &Digest, r: &Digest) -> (out: Digest)
    ensures out.0@ == pair_digest(l.0@, r.0@),
{
    let mut buf: Vec<u8> = Vec::with_capacity(64);
    buf.extend_from_slice(l.0.as_slice());
    buf.extend_from_slice(r.0.as_slice());
    assert(buf@ =~= l.0@ + r.0@);
    Digest(blake3_digest(buf.as_slice()))
}

/// Hash a block payload into a leaf.
pub fn hash_block(block: &[u8]) -> (r: Digest)
    ensures r.0@ == blake3_spec(block@),
{
    Digest(blake3_digest(block))
}

/// A complete Merkle tree with all levels retained for proof generation.
#[derive(Debug, Clone, PartialEq, Eq)]
pub struct MerkleTree {
    /// `levels[0]` are the padded leaves; the last level holds the single root.
    levels: Vec<Vec<Digest>>,
    leaf_count: usize,
}

impl MerkleTree {
    /// The digest bytes of every level.
    pub closed spec fn levels_view(self) -> Seq<Seq<Seq<u8>>> {
        self.levels@.map_values(|v: Vec<Digest>| digests(v@))
    }

    /// The leaf digests the tree was built from (without padding).
    pub closed spec fn leaves_spec(self) -> Seq<Seq<u8>> {
        self.levels_view()[0].take(self.leaf_count as int)
    }

    /// Number of real leaves.
    pub closed spec fn leaf_count_spec(self) -> nat {
        self.leaf_count as nat
    }

    /// Well-formedness: the levels are the padded leaves paired upward to one root.
    pub closed spec fn wf(self) -> bool {
        let lv = self.levels_view();
        let d = lv.len() - 1;
        &&& lv.len() >= 1
        &&& 1 <= self.leaf_count
        &&& self.leaf_count <= lv[0].len()
        &&& lv[0].len() == padded_len(self.leaf_count as nat)
        &&& lv[0] == pad_leaves(self.leaves_spec())
        &&& d == ceil_log2(self.leaf_count as nat)
        &&& chained(lv)
        &&& lv[d].len() == 1
        &&& lv[d][0] == level_root(lv[0])
        &&& forall|k: int| 0 <= k < lv.len() ==> #[trigger] self.levels@[k]@.len() == lv[k].len()
    }

    /// Build from leaf hashes; there must be at least one.
    pub fn from_leaves(leaves: &[Digest]) -> (t: MerkleTree)
        requires
            leaves@.len() >= 1,
            leaves@.len() <= usize::MAX / 2,
        ensures
            t.wf(),
            t.leaves_spec() == digests(leaves@),
            t.leaf_count_spec() == leaves@.len(),
    {
        let n = leaves.len();
        // Padded length: the next power of two.
        let mut p: usize = 1;
        while p < n
            invariant
                1 <= p,
                p <= 2 * n,
                n <= usize::MAX / 2,
                is_pow2(p as nat),
                p == 1 || p / 2 < n,
            decreases 2 * n - p,
        {
            assert((2 * p) as nat / 2 == p as nat);
            p = p * 2;
        }
        proof {
            lemma_pow2_cover_unique(p as nat, n as nat);
            lemma_padded_len(n as nat);
        }
        let mut level0: Vec<Digest> = Vec::with_capacity(p);
        let mut i: usize = 0;
        while i < n
            invariant
                n == leaves@.len(),
                0 <= i <= n,
                level0@ == leaves@.take(i as int),
            decreases n - i,
        {
            level0.push(leaves[i]);
            i = i + 1;
            assert(level0@ =~= leaves@.take(i as int));
        }
        assert(leaves@.take(n as int) =~= leaves@);
        while level0.len() < p
            invariant
                n == leaves@.len(),
                n <= p,
                n <= level0@.len() <= p,
                level0@.take(n as int) == leaves@,
                forall|k: int| n <= k < level0@.len() ==> #[trigger] level0@[k].0@ == zero_digest(),
            decreases p - level0@.len(),
        {
            let z = Digest::zero();
            assert(z.0@ =~= zero_digest());
            level0.push(z);
            assert(level0@.take(n as int) =~= leaves@);
        }
        let ghost l0 = digests(level0@);
        assert(l0 =~= pad_leaves(digests(leaves@))) by {
            assert(digests(leaves@).len() == n);
            assert forall|k: int| 0 <= k < l0.len() implies #[trigger] l0[k] == pad_leaves(digests(leaves@))[k] by {
                if k < n {
                    assert(level0@.take(n as int)[k] == leaves@[k]);
                }
            }
        }
        let mut levels: Vec<Vec<Digest>> = Vec::new();
        levels.push(level0);
        let ghost mut m: nat = n as nat;
        proof {
            lemma_padded_len(m);
        }
        while levels[levels.len() - 1].len() > 1
            invariant
                levels@.len() >= 1,
                n == leaves@.len(),
                1 <= n,
                ({
                    let lv = levels@.map_values(|v: Vec<Digest>| digests(v@));
                    let d = lv.len() - 1;
                    &&& lv[0] == pad_leaves(digests(leaves@))
                    &&& chained(lv)
                    &&& lv[d].len() == padded_len(m)
                    &&& d + ceil_log2(m) == ceil_log2(n as nat)
                    &&& level_root(lv[d]) == level_root(lv[0])
                    &&& forall|k: int| 0 <= k < lv.len() ==> #[trigger] levels@[k]@.len() == lv[k].len()
                }),
            decreases levels@[levels@.len() - 1]@.len(),
        {
            let ghost lv = levels@.map_values(|v: Vec<Digest>| digests(v@));
            let last = levels.len() - 1;
            proof {
                assert(levels@[last as int]@.len() == lv[last as int].len());
                lemma_level_push(lv, pad_leaves(digests(leaves@)), m, n as nat);
            }
            let next = pair_up(&levels[last]);
            levels.push(next);
            proof {
                m = ((m + 1) / 2) as nat;
                let lv2 = levels@.map_values(|v: Vec<Digest>| digests(v@));
                assert(lv2 =~= lv.push(digests(next@)));
            }
        }
        let t = MerkleTree { levels, leaf_count: n };
        proof {
            let lv = t.levels_view();
            let d = lv.len() - 1;
            assert(lv == levels@.map_values(|v: Vec<Digest>| digests(v@)));
            assert(levels@[d]@.len() == lv[d].len());
            lemma_padded_len(m);
            assert(m <= 1);
            assert(lv[0].take(n as int) =~= digests(leaves@));
            assert(t.leaves_spec() =~= digests(leaves@));
        }
        t
    }

    /// Build directly from block payloads.
    pub fn from_blocks(blocks: &Vec<Vec<u8>>) -> (t: MerkleTree)
        requires
            blocks@.len() >= 1,
            blocks@.len() <= usize::MAX / 2,
        ensures
            t.wf(),
            t.leaves_spec() == blocks@.map_values(|b: Vec<u8>| blake3_spec(b@)),
            t.leaf_count_spec() == blocks@.len(),
    {
        let mut leaves: Vec<Digest> = Vec::with_capacity(blocks.len());
        let mut i: usize = 0;
        while i < blocks.len()
            invariant
                0 <= i <= blocks@.len(),
                leaves@.len() == i,
                forall|k: int| 0 <= k < i ==> #[trigger] leaves@[k].0@ == blake3_spec(blocks@[k]@),
            decreases blocks@.len() - i,
        {
            leaves.push(hash_block(blocks[i].as_slice()));
            i = i + 1;
        }
        let t = Self::from_leaves(leaves.as_slice());
        assert(digests(leaves@) =~= blocks@.map_values(|b: Vec<u8>| blake3_spec(b@)));
        t
    }

    /// The Merkle root of the leaves.
    pub open spec fn root_spec(self) -> Seq<u8> {
        merkle_root(self.leaves_spec())
    }

    /// Root hash.
    pub fn root(&self) -> (r: Digest)
        requires self.wf(),
        ensures r.0@ == self.root_spec(),
    {
        let last = self.levels.len() - 1;
        proof {
            let lv = self.levels_view();
            assert(self.levels@[last as int]@.len() == 1);
            assert(lv[last as int][0] == self.levels@[last as int]@[0].0@);
        }
        self.levels[last][0]
    }

    /// Number of real (unpadded) leaves.
    pub fn leaf_count(&self) -> (r: usize)
        ensures r == self.leaf_count_spec(),
    {
        self.leaf_count
    }

    /// Proof depth: number of sibling hashes per proof.
    pub fn depth(&self) -> (r: usize)
        requires self.wf(),
        ensures r == ceil_log2(self.leaf_count_spec()),
    {
        self.levels.len() - 1
    }

    /// Sibling hashes from the leaf level upward for leaf `index`, one of the
    /// real leaves.
    #[verifier::rlimit(40)]
    pub fn sibling_path(&self, index: usize) -> (r: Vec<Digest>)
        requires
            self.wf(),
            index < self.leaf_count_spec(),
        ensures
            digests(r@) == merkle_path(self.leaves_spec(), index as nat),
    {
        let ghost lv = self.levels_view();
        let ghost n = self.leaf_count as nat;
        let d = self.levels.len() - 1;
        let mut out: Vec<Digest> = Vec::with_capacity(d);
        let mut i: usize = index;
        let mut k: usize = 0;
        proof {
            lemma_padded_len(n);
        }
        while k < d
            invariant
                lv == self.levels_view(),
                lv.len() == self.levels@.len(),
                d == lv.len() - 1,
                chained(lv),
                lv[0].len() == padded_len(n),
                lv[d as int].len() == 1,
                forall|t: int| 0 <= t < lv.len() ==> #[trigger] self.levels@[t]@.len() == lv[t].len(),
                0 <= k <= d,
                i < lv[k as int].len(),
                digests(out@) + level_path(lv[k as int], i as nat) == level_path(lv[0], index as nat),
            decreases d - k,
        {
            let ghost cur = lv[k as int];
            proof {
                lemma_path_step(lv, k as int, i as nat, n);
                assert(self.levels@[k as int]@.len() == cur.len());
            }
            let s = if i % 2 == 0 { i + 1 } else { i - 1 };
            let sd = self.levels[k][s];
            assert(cur == digests(self.levels@[k as int]@));
            assert(sd.0@ == cur[s as int]);
            let ghost before = digests(out@);
            out.push(sd);
            assert(digests(out@) =~= before.push(sd.0@));
            assert(digests(out@) + level_path(lv[k + 1], (i / 2) as nat) =~= before + level_path(cur, i as nat));
            i = i / 2;
            k = k + 1;
        }
        assert(level_path(lv[d as int], i as nat).len() == 0);
        assert(digests(out@) =~= digests(out@) + level_path(lv[d as int], i as nat));
        out
    }

    /// Recompute a root from a leaf hash, its index and its sibling path.
    pub fn root_from_proof(leaf: Digest, index: usize, siblings: &[Digest]) -> (r: Digest)
        ensures r.0@ == fold_proof(leaf.0@, index as nat, digests(siblings@)),
    {
        let mut acc = leaf;
        let mut i = index;
        let mut k: usize = 0;
        assert(digests(siblings@).skip(0) =~= digests(siblings@));
        while k < siblings.len()
            invariant
                0 <= k <= siblings@.len(),
                fold_proof(acc.0@, i as nat, digests(siblings@).skip(k as int))
                    == fold_proof(leaf.0@, index as nat, digests(siblings@)),
            decreases siblings@.len() - k,
        {
            let s = siblings[k];
            let ghost rest = digests(siblings@).skip(k as int);
            assert(rest[0] == s.0@);
            assert(rest.drop_first() =~= digests(siblings@).skip(k + 1));
            acc = if i % 2 == 0 {
                hash_pair(&acc, &s)
            } else {
                hash_pair(&s, &acc)
            };
            i = i / 2;
            k = k + 1;
        }
        assert(digests(siblings@).skip(k as int).len() == 0);
        acc
    }

    /// Verify that `block` at `index` belongs to the tree with `root`.
    pub fn verify_block(root: &Digest, block: &[u8], index: usize, siblings: &[Digest]) -> (r: Result<(), CryptoError>)
        ensures
            r is Ok <==> fold_proof(blake3_spec(block@), index as nat, digests(siblings@)) == root.0@,
            r is Err ==> r == Err::<(), CryptoError>(CryptoError::MerkleMismatch),
    {
        let got = Self::root_from_proof(hash_block(block), index, siblings);
        if got.same(root) {
            Ok(())
        } else {
            Err(CryptoError::MerkleMismatch)
        }
    }
}

/// One more level on top of a chained list: the invariant of the tree builder
/// carries over.
proof fn lemma_level_push(lv: Seq<Seq<Seq<u8>>>, l0: Seq<Seq<u8>>, m: nat, n: nat)
    requires
        lv.len() >= 1,
        lv[0] == l0,
        chained(lv),
        lv[lv.len() - 1].len() == padded_len(m),
        lv.len() - 1 + ceil_log2(m) == ceil_log2(n),
        level_root(lv[lv.len() - 1]) == level_root(lv[0]),
        lv[lv.len() - 1].len() > 1,
    ensures
        ({
            let lv2 = lv.push(next_level(lv[lv.len() - 1]));
            let h = ((m + 1) / 2) as nat;
            &&& lv2[0] == l0
            &&& chained(lv2)
            &&& lv2[lv2.len() - 1].len() == padded_len(h)
            &&& lv2.len() - 1 + ceil_log2(h) == ceil_log2(n)
            &&& level_root(lv2[lv2.len() - 1]) == level_root(lv2[0])
            &&& lv[lv.len() - 1].len() % 2 == 0
        }),
{
    let cur = lv[lv.len() - 1];
    let h = ((m + 1) / 2) as nat;
    lemma_padded_len(m);
    lemma_padded_len(h);
    assert(m > 1);
    assert(padded_len(m) == 2 * padded_len(h));
    assert(level_root(cur) == level_root(next_level(cur)));
    assert(ceil_log2(m) == 1 + ceil_log2(h));
    let lv2 = lv.push(next_level(cur));
    assert forall|t: int| 1 <= t < lv2.len() implies #[trigger] lv2[t] == next_level(lv2[t - 1]) && lv2[t - 1].len() > 1 by {
        if t < lv.len() {
            assert(lv2[t] == lv[t] && lv2[t - 1] == lv[t - 1]);
        }
    }
}

/// The level above `cur`: each pair of siblings hashed together.
fn pair_up(cur: &Vec<Digest>) -> (next: Vec<Digest>)
    requires cur@.len() % 2 == 0,
    ensures digests(next@) == next_level(digests(cur@)),
{
    let ghost c = digests(cur@);
    let len = cur.len();
    let half = len / 2;
    let mut next: Vec<Digest> = Vec::with_capacity(half);
    let mut j: usize = 0;
    while j < half
        invariant
            len == cur@.len(),
            half == len / 2,
            2 * half == len,
            c == digests(cur@),
            0 <= j <= half,
            next@.len() == j,
            forall|t: int| 0 <= t < j ==> #[trigger] next@[t].0@ == pair_digest(c[2 * t], c[2 * t + 1]),
        decreases half - j,
    {
        assert(2 * j + 1 < cur@.len());
        let k: usize = j + j;
        let a = cur[k];
        let b = cur[k + 1];
        let hd = hash_pair(&a, &b);
        next.push(hd);
        j = j + 1;
    }
    assert(digests(next@) =~= next_level(c));
    next
}

/// One step of a sibling path through a chained list of levels.
proof fn lemma_path_step(lv: Seq<Seq<Seq<u8>>>, k: int, i: nat, n: nat)
    requires
        lv.len() >= 1,
        lv[0].len() == padded_len(n),
        0 <= k < lv.len() - 1,
        chained(lv),
        i < lv[k].len(),
    ensures
        sibling(i) < lv[k].len(),
        i / 2 < lv[k + 1].len(),
        lv[k + 1] == next_level(lv[k]),
        level_path(lv[k], i) == seq![lv[k][sibling(i) as int]] + level_path(lv[k + 1], i / 2),
{
    lemma_levels_even(lv, k, n);
    assert(lv[k + 1] == next_level(lv[k]) && lv[k].len() > 1);
}

/// Every level below the root of a well-formed tree has even length.
proof fn lemma_levels_even(lv: Seq<Seq<Seq<u8>>>, k: int, n: nat)
    requires
        lv.len() >= 1,
        lv[0].len() == padded_len(n),
        0 <= k < lv.len() - 1,
        chained(lv),
    ensures
        lv[k].len() % 2 == 0,
        is_pow2(lv[k].len()),
    decreases k,
{
    lemma_padded_len(n);
    if k > 0 {
        lemma_levels_even(lv, k - 1, n);
        assert(lv[k] == next_level(lv[k - 1]) && lv[k - 1].len() > 1);
        lemma_next_level_len(lv[k - 1]);
    }
    assert(lv[k + 1] == next_level(lv[k]) && lv[k].len() > 1);
}

} // verus!
