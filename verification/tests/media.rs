//! Ladder, mapping, chunking, FEC, sources and reassembly behaviour.

use bitstream::crypto::identity::Identity;
use bitstream::crypto::pow::Difficulty;
use bitstream::media::chunk::{verify_block, verify_manifest, ChunkBuilder, LayeredChunk};
use bitstream::media::fec::{repair_esi_base, FecEncoder, SymbolCollector};
use bitstream::media::ladder::Ladder;
use bitstream::media::mapping::SlicingMatrix;
use bitstream::media::sink::ChunkAssembler;
use bitstream::media::source::{aligned_layer_sizes, FileSource, Source, SyntheticSource, CHUNK_MS};
use bitstream::media::MediaError;
use bitstream::wire::{BlockIndex, NodeId, SegmentSeq, TreeId, BLOCK_SIZE, K_BLOCK};
use rand::{Rng, SeedableRng};
use rand_chacha::ChaCha8Rng;

fn publisher() -> Identity {
    Identity::from_seed([7; 32], Difficulty::testing()).expect("a nonce exists at test difficulty")
}

fn collect_chunks<S: Source>(s: &mut S) -> Vec<LayeredChunk> {
    let mut v = Vec::new();
    while let Some(c) = s.next_chunk() {
        v.push(c);
    }
    v
}

#[test]
fn allocation_rule_reference_ladder() {
    let ladder = Ladder::reference();
    let rows: [(u8, Vec<u16>); 5] = [
        (2, vec![3000, 3000]),
        (3, vec![1500, 1500, 3000]),
        (4, vec![1500, 1500, 1500, 1500]),
        (5, vec![750, 750, 1500, 1500, 1500]),
        (6, vec![750, 750, 750, 750, 1500, 1500]),
    ];
    for (m, rates) in rows {
        let mx = SlicingMatrix::allocate(1, m, &ladder).unwrap();
        let got: Vec<u16> = mx.trees.iter().map(|t| t.bitrate_kbps).collect();
        assert_eq!(got, rates, "M={m}");
        assert_eq!(mx.tree(TreeId::base()).unwrap().layer, 0, "Tree 1 always carries L0");
        for w in mx.trees.windows(2) {
            assert!(w[0].bitrate_kbps <= w[1].bitrate_kbps || w[0].layer == w[1].layer);
        }
    }
    let m2 = SlicingMatrix::allocate(1, 2, &ladder).unwrap();
    assert_eq!((m2.trees[0].layer, m2.trees[0].layer_end), (0, 1));
    assert_eq!((m2.trees[1].layer, m2.trees[1].layer_end), (2, 2));
    let folded = Ladder { layers: ladder.layers[..2].to_vec() };
    let f6 = SlicingMatrix::allocate(2, 6, &folded).unwrap();
    assert_eq!(f6.trees.iter().filter(|t| t.layer == 0).count(), 3);
    assert_eq!(f6.trees.iter().filter(|t| t.layer == 1).count(), 3);
    let back = SlicingMatrix::from_entries(1, &m2.to_entries(), 3);
    assert_eq!(back, m2);
    let m6 = SlicingMatrix::allocate(1, 6, &ladder).unwrap();
    assert_eq!(SlicingMatrix::from_entries(1, &m6.to_entries(), 3), m6);
}

#[test]
fn block_to_tree_striping() {
    let ladder = Ladder::reference();
    let mx = SlicingMatrix::allocate(1, 6, &ladder).unwrap();
    let mut src = SyntheticSource::new(ladder, 1, Some(1));
    let built = ChunkBuilder::new(publisher(), 1).build(&src.next_chunk().unwrap()).unwrap();
    let m = &built.manifest.body;
    let l0 = m.layer_block_counts[0];
    for j in 0..l0 {
        let t = mx.tree_for_block(m, j).unwrap();
        assert_eq!(t, TreeId(1 + (j % 2) as u8));
    }
    assert_eq!(mx.trees_for_layer_prefix(1).0, 0b0000_1111);
    assert_eq!(mx.trees_for_layer_prefix(0).0, 0b0000_0011);
}

#[test]
fn chunk_build_and_verify() {
    let pk = publisher();
    let builder = ChunkBuilder::new(pk.duplicate(), 1);
    let mut src = SyntheticSource::new(Ladder::reference(), 42, Some(4));
    let chunk = src.next_chunk().unwrap();
    let built = builder.build(&chunk).unwrap();
    let m = &built.manifest;
    assert_eq!(m.body.layer_block_counts, vec![3, 3, 6], "46875 B → 3 blocks, 46875 → 3, remainder 89196 → 6");
    assert_eq!(built.block_count(), 12);
    assert_eq!(m.body.chunk_byte_length as usize, chunk.byte_len());
    assert!(verify_manifest(m, &pk.public_key()).is_ok());
    let other = Identity::from_seed([8; 32], Difficulty::testing()).unwrap();
    assert!(verify_manifest(m, &other.public_key()).is_err());
    for j in 0..built.block_count() {
        let proof = built.block_proof(j, 2);
        assert_eq!(proof.siblings.len(), 4);
        assert!(verify_block(&m.body, proof.block, &built.blocks[j as usize], &proof.siblings).is_ok());
        let mut bad = built.blocks[j as usize].to_vec();
        bad[5] ^= 1;
        assert!(verify_block(&m.body, proof.block, &bad, &proof.siblings).is_err());
    }
}

#[test]
fn fec_roundtrip_with_loss() {
    let mut rng = ChaCha8Rng::seed_from_u64(3);
    let block: Vec<u8> = (0..BLOCK_SIZE).map(|_| rng.random()).collect();
    let enc = FecEncoder::new(SegmentSeq(1), BlockIndex::new(0, 0).unwrap(), block.clone());
    let symbols = enc.push_symbols(5);
    assert_eq!(symbols.len(), K_BLOCK + 5);
    assert!(symbols[..K_BLOCK].iter().all(|s| s.is_source()));
    assert_eq!(&symbols[3].payload[..], &block[3 * 1024..4 * 1024], "source symbols are raw slices");

    let mut c = SymbolCollector::new();
    for s in &symbols[..K_BLOCK] {
        c.add(s.esi, s.payload.clone()).unwrap();
    }
    assert!(c.all_source());
    assert_eq!(c.decode().unwrap(), block);

    let mut c = SymbolCollector::new();
    for s in symbols.iter().filter(|s| !(2..6).contains(&s.esi)) {
        c.add(s.esi, s.payload.clone()).unwrap();
    }
    assert!(!c.all_source() && c.is_complete());
    assert_eq!(c.decode().unwrap(), block);

    let mut c = SymbolCollector::new();
    for s in symbols.iter().take(15) {
        c.add(s.esi, s.payload.clone()).unwrap();
    }
    assert_eq!(c.missing(), 1);
    assert!(c.decode().is_err());

    let mut c = SymbolCollector::new();
    assert!(c.add(0, symbols[0].payload.clone()).unwrap());
    assert!(!c.add(0, symbols[0].payload.clone()).unwrap());
}

#[test]
fn repair_base_range() {
    for i in 0..50u8 {
        let b = repair_esi_base(&NodeId([i; 32]));
        assert!(b as usize >= K_BLOCK && (b as u32) < (1 << 16) - 256);
    }
}

#[test]
fn file_roundtrip_is_byte_exact() {
    let mut rng = ChaCha8Rng::seed_from_u64(11);
    let file: Vec<u8> = (0..1_000_003).map(|_| rng.random()).collect();
    let ladder = Ladder::reference();
    let mut src = FileSource::new(ladder.clone(), file.clone());
    let pk = publisher();
    let builder = ChunkBuilder::new(pk.duplicate(), 1);
    let mut sink = ChunkAssembler::new(ladder.len(), true);
    let total_chunks = src.total_chunks();
    let mut n = 0;
    while let Some(chunk) = src.next_chunk() {
        n += 1;
        let built = builder.build(&chunk).unwrap();
        assert!(verify_manifest(&built.manifest, &pk.public_key()).is_ok());
        sink.begin_chunk(&built.manifest.body);
        for j in 0..built.block_count() {
            let idx = BlockIndex::new(chunk.chunk_index, j).unwrap();
            let enc = FecEncoder::new(chunk.segment, idx, built.blocks[j as usize].clone());
            let syms = enc.push_symbols(3);
            let mut c = SymbolCollector::new();
            let drop: Vec<usize> = (0..3).map(|_| rng.random_range(0..syms.len())).collect();
            for (i, s) in syms.iter().enumerate() {
                if !drop.contains(&i) {
                    c.add(s.esi, s.payload.clone()).unwrap();
                }
            }
            let block = c.decode().unwrap();
            let proof = built.block_proof(j, 0);
            assert!(verify_block(&built.manifest.body, idx, &block, &proof.siblings).is_ok());
            let done = sink.add_block(chunk.segment, chunk.chunk_index, j, block);
            assert_eq!(done.is_some(), j + 1 == built.block_count());
        }
    }
    assert_eq!(n, total_chunks);
    assert_eq!(sink.completed_chunks(), total_chunks);
    assert_eq!(sink.output().len(), file.len());
    assert_eq!(sink.output(), &file[..]);
    assert_eq!(sink.output_hash(), src.file_hash());
    assert_eq!(sink.layer_hashes(), src.layer_hashes());
    let sizes = aligned_layer_sizes(&ladder, CHUNK_MS);
    assert_eq!(sizes[0] % BLOCK_SIZE, 0);
    assert_eq!(sizes[1] % BLOCK_SIZE, 0);
    assert_eq!(sizes.iter().sum::<usize>(), ladder.bytes_per_chunk(CHUNK_MS).iter().sum::<usize>());
}

#[test]
fn synthetic_is_deterministic() {
    let a = collect_chunks(&mut SyntheticSource::new(Ladder::single(1000), 5, Some(4)));
    let b = collect_chunks(&mut SyntheticSource::new(Ladder::single(1000), 5, Some(4)));
    let c = collect_chunks(&mut SyntheticSource::new(Ladder::single(1000), 6, Some(4)));
    assert_eq!(a, b);
    assert_ne!(a, c);
    assert_eq!(a[0].segment, SegmentSeq(1));
    assert_eq!(a[3].chunk_index, 3);
}

#[test]
fn too_many_blocks_is_refused() {
    let builder = ChunkBuilder::new(publisher(), 1);
    let chunk = LayeredChunk {
        segment: SegmentSeq(1),
        chunk_index: 0,
        timestamp_us: 0,
        layers: vec![vec![1u8; BLOCK_SIZE * 4096 + 1]],
    };
    match builder.build(&chunk) {
        Err(MediaError::TooManyBlocks { blocks }) => assert_eq!(blocks, 4097),
        other => panic!("expected TooManyBlocks, got {:?}", other.map(|b| b.block_count())),
    }
}

#[test]
fn allocation_errors() {
    let ladder = Ladder::reference();
    assert!(matches!(SlicingMatrix::allocate(1, 0, &ladder), Err(MediaError::Mapping(_))));
    assert!(matches!(SlicingMatrix::allocate(1, 9, &ladder), Err(MediaError::Mapping(_))));
    let empty = Ladder { layers: Vec::new() };
    assert!(matches!(SlicingMatrix::allocate(1, 3, &empty), Err(MediaError::Mapping(_))));
}

#[test]
fn ladder_arithmetic() {
    let l = Ladder::reference();
    assert_eq!(l.len(), 3);
    assert!(!l.is_empty());
    assert_eq!(l.total_kbps(), 6000);
    assert_eq!(l.bytes_per_chunk(250), vec![46875, 46875, 93750]);
    let sizes = aligned_layer_sizes(&l, 250);
    assert_eq!(sizes, vec![49152, 49152, 89196]);
}

#[test]
fn symbol_of_wrong_size_is_refused() {
    let mut c = SymbolCollector::new();
    assert!(matches!(c.add(0, vec![0u8; 10]), Err(MediaError::BadSymbolSize(10))));
    assert_eq!(c.count(), 0);
}
