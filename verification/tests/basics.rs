//! Virtual time, byte layouts and small accessors.

use bitstream::crypto::identity::Identity;
use bitstream::crypto::pow::Difficulty;
use bitstream::media::chunk::{ChunkBuilder, LayeredChunk};
use bitstream::media::ladder::Ladder;
use bitstream::media::mapping::SlicingMatrix;
use bitstream::media::sink::ChunkAssembler;
use bitstream::media::source::{Source, SyntheticSource};
use bitstream::peer::params::Params;
use bitstream::peer::swarm::{ManifestVerdict, SwarmBuffer};
use bitstream::time::{Duration, Instant};
use bitstream::wire::{push_u32_be, read_u32_be, BlockIndex, SegmentSeq, TreeId, TreeSet};

#[test]
fn instants_and_durations() {
    let t = Instant(1_000);
    assert_eq!(t.as_micros(), 1_000);
    assert_eq!(t.duration_since(Instant(400)), Duration(600));
    assert_eq!(Instant(400).duration_since(t), Duration(0));
    assert_eq!(t.checked_add(Duration(5)), Some(Instant(1_005)));
    assert_eq!(Instant(u64::MAX).checked_add(Duration(1)), None);
    assert_eq!(Instant(u64::MAX).plus(Duration(1)), Instant(u64::MAX));
    assert_eq!(t.earliest(Instant(7)), Instant(7));
    assert_eq!(Duration::from_millis(3), Duration(3_000));
    assert_eq!(Duration::from_secs(2), Duration(2_000_000));
    assert_eq!(Duration::from_micros(9), Duration(9));
    assert_eq!(Duration(2_500).as_millis(), 2);
    assert_eq!(Duration(10).clamp(Duration(20), Duration(30)), Duration(20));
    assert_eq!(Duration(40).clamp(Duration(20), Duration(30)), Duration(30));
    assert_eq!(Duration(10).div_by(0), Duration(10));
    assert_eq!(Duration(10).div_by(3), Duration(3));
    assert_eq!(Duration(10).minus(Duration(30)), Duration(0));
    assert_eq!(Duration(u64::MAX).times(2), Duration(u64::MAX));
    assert_eq!(Duration(u64::MAX).plus(Duration(1)), Duration(u64::MAX));
}

#[test]
fn big_endian_roundtrip() {
    let mut v = Vec::new();
    push_u32_be(&mut v, 0xDEAD_BEEF);
    assert_eq!(v, vec![0xDE, 0xAD, 0xBE, 0xEF]);
    assert_eq!(read_u32_be(v[0], v[1], v[2], v[3]), 0xDEAD_BEEF);
}

#[test]
fn block_index_packing() {
    let b = BlockIndex::new(3, 17).unwrap();
    assert_eq!(b.0, 3 * 4096 + 17);
    assert_eq!(b.chunk(), 3);
    assert_eq!(b.j(), 17);
    assert!(BlockIndex::new(16, 0).is_none());
    assert!(BlockIndex::new(0, 4096).is_none());
    let mut s = TreeSet::empty();
    s.insert(TreeId(3));
    assert!(s.contains(TreeId(3)));
    assert!(!s.contains(TreeId(2)));
    assert!(!s.contains(TreeId(0)));
    assert_eq!(SegmentSeq::first().next(), SegmentSeq(2));
    assert!(!SegmentSeq::none().is_some());
}

#[test]
fn assembler_counters() {
    let mut sink = ChunkAssembler::new(2, false);
    assert_eq!(sink.bytes_per_layer(), &[0, 0]);
    assert_eq!(sink.pending_chunks(), 0);
    let id = Identity::from_seed([9; 32], Difficulty::testing()).unwrap();
    let builder = ChunkBuilder::new(id.duplicate(), 1);
    let chunk = LayeredChunk { segment: SegmentSeq(1), chunk_index: 0, timestamp_us: 0, layers: vec![vec![1; 20_000], vec![2; 10]] };
    let built = builder.build(&chunk).unwrap();
    sink.begin_chunk(&built.manifest.body);
    assert_eq!(sink.pending_chunks(), 1);
    for j in 0..built.block_count() {
        sink.add_block(SegmentSeq(1), 0, j, built.blocks[j as usize].clone());
    }
    assert_eq!(sink.pending_chunks(), 0);
    // Layer 0 is not block aligned, so its padding swallows layer 1's bytes:
    // only aligned non-final layers come back at their own length.
    assert_eq!(sink.bytes_per_layer(), &[20_010, 0]);
    assert!(sink.output().is_empty());
}

#[test]
fn builder_matrix_version_and_secret() {
    let id = Identity::from_seed([4; 32], Difficulty::testing()).unwrap();
    assert_eq!(id.secret_bytes(), [4; 32]);
    let mut builder = ChunkBuilder::new(id.duplicate(), 1);
    builder.set_matrix_version(7);
    let mut src = SyntheticSource::new(Ladder::reference(), 3, Some(1));
    let built = builder.build(&src.next_chunk().unwrap()).unwrap();
    assert_eq!(built.manifest.body.slicing_matrix_version, 7);
    assert_eq!(builder.public_key(), id.public_key());
}

#[test]
fn blocks_per_tree_in_a_held_chunk() {
    let id = Identity::from_seed([6; 32], Difficulty::testing()).unwrap();
    let ladder = Ladder::reference();
    let matrix = SlicingMatrix::allocate(1, 6, &ladder).unwrap();
    let builder = ChunkBuilder::new(id.duplicate(), 1);
    let mut src = SyntheticSource::new(ladder, 2, Some(1));
    let built = builder.build(&src.next_chunk().unwrap()).unwrap();
    let mut buf = SwarmBuffer::new(&Params::default());
    assert_eq!(buf.accept_manifest(&built.manifest, &id.public_key(), &matrix, Instant(0)), ManifestVerdict::Accepted);
    let cb = buf.chunk(SegmentSeq(1), 0).unwrap();
    // L0 has 3 blocks striped over trees 1 and 2.
    assert_eq!(cb.block_count_for_tree(TreeId(1)), 2);
    assert_eq!(cb.block_count_for_tree(TreeId(2)), 1);
    assert_eq!(cb.missing(), 12);
    assert!(!cb.layer_complete(0));
    assert!(cb.block(0).is_none());
}
