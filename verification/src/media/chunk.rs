//! Chunk → blocks → Merkle tree → signed manifest.
use vstd::prelude::*;
use crate::crypto::hashing::blake3_spec;
use crate::crypto::identity::Identity;
use crate::crypto::merkle::{digests, fold_proof, lemma_merkle_proof_roundtrip, merkle_path, merkle_root, MerkleTree};
use crate::crypto::signing::{ed25519_public, ed25519_signature, verify_result, Verifier};
use crate::crypto::stream_id;
use crate::wire::{
    bytes_equal, BlockIndex, Digest, PublicKeyBytes, SegmentSeq, SignatureBytes, StreamId, BLOCK_SIZE,
    CHUNKS_PER_SEGMENT, MAX_BLOCKS_PER_CHUNK,
};
use super::manifest::{body_bytes, BlockProof, Manifest, ManifestBody};
use super::MediaError;

verus! {

/// 250 ms of stream: one byte-string per layer, lowest layer first.
#[derive(Debug, Clone, PartialEq, Eq)]
pub struct LayeredChunk {
    /// Segment (starts at 1).
    pub segment: SegmentSeq,
    /// Chunk within the segment, `0..CHUNKS_PER_SEGMENT`.
    pub chunk_index: u8,
    /// Presentation timestamp, µs.
    pub timestamp_us: u64,
    /// Layer payloads.
    pub layers: Vec<Vec<u8>>,
}

/// The byte contents of a list of buffers.
pub open spec fn views(v: Seq<Vec<u8>>) -> Seq<Seq<u8>> {
    v.map_values(|b: Vec<u8>| b@)
}

/// Total length of a list of byte strings.
pub open spec fn total_len(s: Seq<Seq<u8>>) -> nat
    decreases s.len(),
{
    if s.len() == 0 { 0 } else { total_len(s.drop_last()) + s.last().len() }
}

/// Blocks a layer of `len` bytes is cut into.
pub open spec fn blocks_for(len: nat) -> nat {
    if len % (BLOCK_SIZE as nat) == 0 { len / (BLOCK_SIZE as nat) } else { len / (BLOCK_SIZE as nat) + 1 }
}

/// Block `b` of a layer: its 16 KB slice, zero-padded at the layer's end.
pub open spec fn padded_block(layer: Seq<u8>, b: int) -> Seq<u8> {
    let start = b * BLOCK_SIZE;
    let end = if start + BLOCK_SIZE <= layer.len() { start + BLOCK_SIZE } else { layer.len() as int };
    layer.subrange(start, end) + Seq::new((BLOCK_SIZE - (end - start)) as nat, |i: int| 0u8)
}

/// The blocks of one layer.
pub open spec fn layer_blocks(layer: Seq<u8>) -> Seq<Seq<u8>> {
    Seq::new(blocks_for(layer.len()), |b: int| padded_block(layer, b))
}

/// The blocks of a chunk, numbered layer-major.
pub open spec fn chunk_blocks(layers: Seq<Seq<u8>>) -> Seq<Seq<u8>>
    decreases layers.len(),
{
    if layers.len() == 0 {
        Seq::empty()
    } else {
        chunk_blocks(layers.drop_last()) + layer_blocks(layers.last())
    }
}

/// The all-zero block.
pub open spec fn zero_block() -> Seq<u8> {
    Seq::new(BLOCK_SIZE as nat, |i: int| 0u8)
}

impl LayeredChunk {
    /// Total payload bytes across layers. The sum is a `usize` and cannot pass
    /// the address space.
    pub fn byte_len(&self) -> (r: usize)
        requires total_len(views(self.layers@)) <= usize::MAX,
        ensures r == total_len(views(self.layers@)),
    {
        let ghost v = views(self.layers@);
        let mut total: usize = 0;
        let mut i: usize = 0;
        while i < self.layers.len()
            invariant
                i <= self.layers@.len(),
                v == views(self.layers@),
                total_len(v) <= usize::MAX,
                total == total_len(v.take(i as int)),
            decreases self.layers@.len() - i,
        {
            proof {
                assert(v.take(i + 1).drop_last() =~= v.take(i as int));
                lemma_total_len_prefix(v, i + 1);
            }
            total = total + self.layers[i].len();
            i = i + 1;
        }
        assert(v.take(i as int) =~= v);
        total
    }
}

/// Every prefix is no longer than the whole.
pub proof fn lemma_total_len_prefix(s: Seq<Seq<u8>>, k: int)
    requires 0 <= k <= s.len(),
    ensures total_len(s.take(k)) <= total_len(s),
    decreases s.len(),
{
    if k < s.len() {
        assert(s.drop_last().take(k) =~= s.take(k));
        lemma_total_len_prefix(s.drop_last(), k);
    } else {
        assert(s.take(k) =~= s);
    }
}

proof fn lemma_blocks_for(len: nat, b: int)
    requires 0 <= b < blocks_for(len),
    ensures
        b * BLOCK_SIZE < len,
        len <= blocks_for(len) * BLOCK_SIZE,
{
    assert(len == (len / 16384) * 16384 + len % 16384) by (nonlinear_arith);
    assert(b * BLOCK_SIZE < len) by (nonlinear_arith)
        requires
            0 <= b,
            len == (len / 16384) * 16384 + len % 16384,
            0 <= len % 16384 < 16384,
            b < (if len % 16384 == 0 { len / 16384 } else { len / 16384 + 1 }),
            BLOCK_SIZE == 16384;
}

proof fn lemma_blocks_for_bound(len: nat)
    ensures len <= blocks_for(len) * BLOCK_SIZE,
{
    assert(len == (len / 16384) * 16384 + len % 16384) by (nonlinear_arith);
}

/// Cut one layer into blocks, appended to `blocks`.
fn cut_layer(layer: &Vec<u8>, blocks: &mut Vec<Vec<u8>>) -> (n: usize)
    ensures
        n == blocks_for(layer@.len()),
        views(final(blocks)@) == views(old(blocks)@) + layer_blocks(layer@),
{
    let len = layer.len();
    let n = if len % BLOCK_SIZE == 0 { len / BLOCK_SIZE } else { len / BLOCK_SIZE + 1 };
    let ghost base = views(blocks@);
    let mut b: usize = 0;
    while b < n
        invariant
            len == layer@.len(),
            n == blocks_for(len as nat),
            b <= n,
            views(blocks@) == base + layer_blocks(layer@).take(b as int),
        decreases n - b,
    {
        proof {
            lemma_blocks_for(len as nat, b as int);
        }
        let start = b * BLOCK_SIZE;
        let end = if len - start >= BLOCK_SIZE { start + BLOCK_SIZE } else { len };
        let mut v: Vec<u8> = Vec::with_capacity(BLOCK_SIZE);
        let mut k: usize = start;
        while k < end
            invariant
                start <= k <= end <= len == layer@.len(),
                v@ == layer@.subrange(start as int, k as int),
            decreases end - k,
        {
            v.push(layer[k]);
            k = k + 1;
            assert(v@ =~= layer@.subrange(start as int, k as int));
        }
        let ghost copied = v@;
        while v.len() < BLOCK_SIZE
            invariant
                copied.len() == end - start,
                end - start <= BLOCK_SIZE,
                copied.len() <= v@.len() <= BLOCK_SIZE,
                v@ == copied + Seq::new((v@.len() - copied.len()) as nat, |i: int| 0u8),
            decreases BLOCK_SIZE - v@.len(),
        {
            v.push(0u8);
            assert(v@ =~= copied + Seq::new((v@.len() - copied.len()) as nat, |i: int| 0u8));
        }
        assert(v@.len() == BLOCK_SIZE);
        assert(copied == layer@.subrange(start as int, end as int));
        assert(v@ =~= padded_block(layer@, b as int));
        let ghost before = views(blocks@);
        blocks.push(v);
        assert(views(blocks@) =~= before.push(padded_block(layer@, b as int)));
        assert(layer_blocks(layer@).take(b + 1) =~= layer_blocks(layer@).take(b as int).push(padded_block(layer@, b as int)));
        assert(views(blocks@) =~= base + layer_blocks(layer@).take(b + 1));
        b = b + 1;
    }
    assert(layer_blocks(layer@).take(n as int) =~= layer_blocks(layer@));
    n
}


/// A chunk cut into blocks with its tree and signed manifest.
#[derive(Debug, Clone)]
pub struct BuiltChunk {
    /// The signed manifest.
    pub manifest: Manifest,
    /// Blocks in `j` order, each exactly `BLOCK_SIZE` bytes (zero-padded).
    pub blocks: Vec<Vec<u8>>,
    /// Merkle tree over the blocks.
    pub tree: MerkleTree,
    /// Per-layer byte lengths before padding (for exact reassembly).
    pub layer_byte_lengths: Vec<u32>,
}

/// Whether `block` at `idx` with sibling digests `siblings` leads to the root
/// the manifest signs.
pub open spec fn block_verifies(body: ManifestBody, idx: BlockIndex, block: Seq<u8>, siblings: Seq<Seq<u8>>) -> bool {
    fold_proof(blake3_spec(block), (idx.0 % 4096) as nat, siblings) == body.merkle_root.0@
}

impl BuiltChunk {
    /// The tree is built over exactly these blocks and the manifest signs its root.
    pub open spec fn wf(&self) -> bool {
        &&& self.tree.wf()
        &&& 1 <= self.blocks@.len() <= MAX_BLOCKS_PER_CHUNK
        &&& self.tree.leaf_count_spec() == self.blocks@.len()
        &&& self.tree.leaves_spec() == self.blocks@.map_values(|b: Vec<u8>| blake3_spec(b@))
        &&& self.manifest.body.merkle_root.0@ == self.tree.root_spec()
    }

    /// The `BLOCK_PROOF` a sender at `hop_depth` emits for block `j`.
    pub fn block_proof(&self, j: u16, hop_depth: u8) -> (r: BlockProof)
        requires
            self.wf(),
            (j as int) < self.blocks@.len(),
            self.manifest.body.chunk_index < 16,
        ensures
            r.segment == self.manifest.body.segment,
            r.block.0 == self.manifest.body.chunk_index as int * 4096 + j,
            r.sender_hop_depth == hop_depth,
            digests(r.siblings@) == merkle_path(self.tree.leaves_spec(), j as nat),
    {
        let block = match BlockIndex::new(self.manifest.body.chunk_index, j) {
            Some(b) => b,
            None => {
                assert(false);
                BlockIndex(0)
            },
        };
        BlockProof {
            segment: self.manifest.body.segment,
            block,
            sender_hop_depth: hop_depth,
            siblings: self.tree.sibling_path(j as usize),
        }
    }

    /// Number of blocks.
    pub fn block_count(&self) -> (r: u16)
        ensures r == self.blocks@.len() as u16,
    {
        self.blocks.len() as u16
    }
}

/// Law: every block of a well-formed built chunk verifies against the manifest
/// root with the sibling path the chunk hands out for it.
pub proof fn lemma_built_blocks_verify(built: BuiltChunk, j: nat)
    requires
        built.wf(),
        j < built.blocks@.len(),
        built.manifest.body.chunk_index < 16,
    ensures
        block_verifies(
            built.manifest.body,
            BlockIndex((built.manifest.body.chunk_index * 4096 + j) as u16),
            built.blocks@[j as int]@,
            merkle_path(built.tree.leaves_spec(), j),
        ),
{
    let leaves = built.tree.leaves_spec();
    assert(leaves[j as int] == blake3_spec(built.blocks@[j as int]@));
    lemma_merkle_proof_roundtrip(leaves, j);
    let x = built.manifest.body.chunk_index * 4096 + j;
    assert(x < 65536);
    assert((x as u16) % 4096 == j) by (nonlinear_arith)
        requires x == built.manifest.body.chunk_index * 4096 + j, j < 4096, x < 65536;
}

/// Publisher-side builder. Holds the stream identity and matrix version.
pub struct ChunkBuilder {
    signer: Identity,
    stream_id: StreamId,
    matrix_version: u8,
}

/// Whether `b` is what building `chunk` gives for a publisher with secret seed
/// `seed`, stream `stream` and matrix version `version`.
pub open spec fn built_from(seed: Seq<u8>, stream: StreamId, version: u8, chunk: LayeredChunk, b: BuiltChunk) -> bool {
    let lv = views(chunk.layers@);
    let all = chunk_blocks(lv);
    let counts = Seq::new(lv.len(), |i: int| blocks_for(lv[i].len()) as u16);
    let lens = Seq::new(lv.len(), |i: int| lv[i].len() as u32);
    let body = b.manifest.body;
    &&& b.wf()
    &&& views(b.blocks@) == (if all.len() == 0 { seq![zero_block()] } else { all })
    &&& body.layer_block_counts@ == (if all.len() > 0 {
            counts
        } else if lv.len() == 0 {
            seq![1u16]
        } else {
            counts.update(0, 1u16)
        })
    &&& b.layer_byte_lengths@ == (if all.len() == 0 && lv.len() == 0 { seq![0u32] } else { lens })
    &&& body.stream_id == stream
    &&& body.segment == chunk.segment
    &&& body.chunk_index == chunk.chunk_index
    &&& body.chunk_count == CHUNKS_PER_SEGMENT
    &&& body.timestamp_us == chunk.timestamp_us
    &&& body.chunk_byte_length == total_len(lv) as u32
    &&& body.slicing_matrix_version == version
    &&& b.manifest.signature.0@ == ed25519_signature(seed, body_bytes(body))
}

/// Bytes are at most a block per block.
pub proof fn lemma_total_len_blocks(lv: Seq<Seq<u8>>)
    ensures total_len(lv) <= chunk_blocks(lv).len() * BLOCK_SIZE,
    decreases lv.len(),
{
    if lv.len() > 0 {
        lemma_total_len_blocks(lv.drop_last());
        lemma_blocks_for_bound(lv.last().len());
    }
}

impl ChunkBuilder {
    /// The publisher's secret seed.
    pub closed spec fn seed_spec(&self) -> Seq<u8> {
        self.signer.seed_spec()
    }

    /// The stream id.
    pub closed spec fn stream_id_spec(&self) -> StreamId {
        self.stream_id
    }

    /// The matrix version stamped into manifests.
    pub closed spec fn matrix_version_spec(&self) -> u8 {
        self.matrix_version
    }

    /// The signer is a whole identity and the stream id is the hash of its key.
    pub closed spec fn wf(&self) -> bool {
        &&& self.signer.wf()
        &&& self.stream_id.0@ == blake3_spec(self.signer.public_key_spec())
    }

    /// New builder for the publisher `signer`.
    pub fn new(signer: Identity, matrix_version: u8) -> (r: ChunkBuilder)
        requires signer.wf(),
        ensures
            r.wf(),
            r.seed_spec() == signer.seed_spec(),
            r.stream_id_spec().0@ == blake3_spec(ed25519_public(signer.seed_spec())),
            r.matrix_version_spec() == matrix_version,
    {
        let pk = signer.public_key();
        let sid = stream_id(&pk);
        ChunkBuilder { signer, stream_id: sid, matrix_version }
    }

    /// Stream id.
    pub fn stream_id(&self) -> (r: StreamId)
        ensures r == self.stream_id_spec(),
    {
        self.stream_id
    }

    /// Publisher public key.
    pub fn public_key(&self) -> (r: PublicKeyBytes)
        requires self.wf(),
        ensures r.0@ == ed25519_public(self.seed_spec()),
    {
        self.signer.public_key()
    }

    /// Bump the slicing matrix version (forest resize / fold).
    pub fn set_matrix_version(&mut self, v: u8)
        requires old(self).wf(),
        ensures
            final(self).wf(),
            final(self).matrix_version_spec() == v,
            final(self).seed_spec() == old(self).seed_spec(),
            final(self).stream_id_spec() == old(self).stream_id_spec(),
    {
        self.matrix_version = v;
    }

    /// Cut a chunk into 16 KB blocks numbered layer-major, build the Merkle tree
    /// and sign the manifest. A chunk with no payload gets one zero block.
    pub fn build(&self, chunk: &LayeredChunk) -> (r: Result<BuiltChunk, MediaError>)
        requires self.wf(),
        ensures
            chunk_blocks(views(chunk.layers@)).len() > MAX_BLOCKS_PER_CHUNK
                ==> r == Err::<BuiltChunk, MediaError>(MediaError::TooManyBlocks {
                    blocks: chunk_blocks(views(chunk.layers@)).len() as usize,
                }),
            chunk_blocks(views(chunk.layers@)).len() <= MAX_BLOCKS_PER_CHUNK
                ==> (r matches Ok(b) && built_from(self.seed_spec(), self.stream_id_spec(), self.matrix_version_spec(), *chunk, b)),
    {
        let ghost lv = views(chunk.layers@);
        let mut blocks: Vec<Vec<u8>> = Vec::new();
        let mut counts: Vec<u16> = Vec::with_capacity(chunk.layers.len());
        let mut lens: Vec<u32> = Vec::with_capacity(chunk.layers.len());
        let mut i: usize = 0;
        while i < chunk.layers.len()
            invariant
                i <= chunk.layers@.len(),
                lv == views(chunk.layers@),
                views(blocks@) == chunk_blocks(lv.take(i as int)),
                counts@ == Seq::new(i as nat, |k: int| blocks_for(lv[k].len()) as u16),
                lens@ == Seq::new(i as nat, |k: int| lv[k].len() as u32),
            decreases chunk.layers@.len() - i,
        {
            let n = cut_layer(&chunk.layers[i], &mut blocks);
            counts.push(n as u16);
            lens.push(chunk.layers[i].len() as u32);
            proof {
                assert(lv.take(i + 1).drop_last() =~= lv.take(i as int));
                assert(lv.take(i + 1).last() == lv[i as int]);
            }
            i = i + 1;
            assert(counts@ =~= Seq::new(i as nat, |k: int| blocks_for(lv[k].len()) as u16));
            assert(lens@ =~= Seq::new(i as nat, |k: int| lv[k].len() as u32));
        }
        assert(lv.take(i as int) =~= lv);
        assert(views(blocks@).len() == blocks@.len());
        if blocks.len() > MAX_BLOCKS_PER_CHUNK {
            return Err(MediaError::TooManyBlocks { blocks: blocks.len() });
        }
        let ghost all = views(blocks@);
        if blocks.len() == 0 {
            let z = vec![0u8; BLOCK_SIZE];
            assert(z@ =~= zero_block());
            blocks.push(z);
            assert(views(blocks@) =~= seq![zero_block()]);
            if counts.len() == 0 {
                counts.push(1);
                lens.push(0);
                assert(counts@ =~= seq![1u16]);
                assert(lens@ =~= seq![0u32]);
            } else {
                counts.set(0, 1);
            }
        }
        proof {
            lemma_total_len_blocks(lv);
        }
        let tree = MerkleTree::from_blocks(&blocks);
        let byte_len = chunk.byte_len();
        let body = ManifestBody {
            stream_id: self.stream_id,
            segment: chunk.segment,
            chunk_index: chunk.chunk_index,
            chunk_count: CHUNKS_PER_SEGMENT,
            timestamp_us: chunk.timestamp_us,
            merkle_root: tree.root(),
            chunk_byte_length: byte_len as u32,
            slicing_matrix_version: self.matrix_version,
            layer_block_counts: counts,
        };
        let mut unsigned = Manifest { body, signature: SignatureBytes::zero() };
        let pre = unsigned.signable_bytes();
        let sig = self.signer.sign(pre.as_slice());
        unsigned.signature = sig;
        Ok(BuiltChunk { manifest: unsigned, blocks, tree, layer_byte_lengths: lens })
    }
}

/// Verify a manifest's signature against the publisher key and that its stream
/// id is the hash of that key.
pub fn verify_manifest(manifest: &Manifest, publisher: &PublicKeyBytes) -> (r: Result<(), MediaError>)
    ensures
        r is Ok <==> (manifest.body.stream_id.0@ == blake3_spec(publisher.0@)
            && verify_result(publisher.0@, body_bytes(manifest.body), manifest.signature.0@) is Ok),
        r is Err ==> r == Err::<(), MediaError>(MediaError::BadManifestSignature),
{
    let sid = stream_id(publisher);
    if !bytes_equal(manifest.body.stream_id.0.as_slice(), sid.0.as_slice()) {
        return Err(MediaError::BadManifestSignature);
    }
    let pre = manifest.signable_bytes();
    match Verifier::verify(publisher, pre.as_slice(), &manifest.signature) {
        Ok(()) => Ok(()),
        Err(_) => Err(MediaError::BadManifestSignature),
    }
}

/// Verify a block against a manifest root using its proof.
pub fn verify_block(manifest: &ManifestBody, block_index: BlockIndex, block: &[u8], siblings: &[Digest]) -> (r: Result<(), MediaError>)
    ensures
        r is Ok <==> block_verifies(*manifest, block_index, block@, digests(siblings@)),
        r is Err ==> r == Err::<(), MediaError>(MediaError::BadBlock { segment: manifest.segment.0, block: block_index.0 }),
{
    match MerkleTree::verify_block(&manifest.merkle_root, block, block_index.j() as usize, siblings) {
        Ok(()) => Ok(()),
        Err(_) => Err(MediaError::BadBlock { segment: manifest.segment.0, block: block_index.0 }),
    }
}

} // verus!
