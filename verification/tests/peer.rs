//! Protocol parameters, the swarm buffer, the publisher and per-tree state.

use bitstream::config::{any, default_true, ladder, LadderSpecError, LayerSpec, SourceSpec};
use bitstream::crypto::identity::Identity;
use bitstream::crypto::pow::Difficulty;
use bitstream::crypto::signing::Verifier;
use bitstream::crypto::stream_id;
use bitstream::media::fec::FecEncoder;
use bitstream::media::ladder::Ladder;
use bitstream::media::mapping::SlicingMatrix;
use bitstream::media::source::{Source, SyntheticSource};
use bitstream::crypto::rendezvous::assigned_tree;
use bitstream::peer::forest::{
    check_active, Admission, ChildLink, JoinRefusal, Lifecycle, ParentCheck, ParentLink, PeerAddr, ProbeTreeState, ProofSource,
    TreeState,
};
use bitstream::peer::params::Params;
use bitstream::peer::publisher::Publisher;
use bitstream::peer::swarm::{ManifestVerdict, SwarmBuffer};
use bitstream::time::{Duration, Instant};
use bitstream::wire::{BlockIndex, IpAddress, NodeClass, NodeId, SegmentSeq, TreeId, TreeSet};

fn publisher_identity(seed: u8) -> Identity {
    Identity::from_seed([seed; 32], Difficulty::testing()).expect("a nonce exists at test difficulty")
}

#[test]
fn tau_evict_examples() {
    let p = Params::default();
    let f = |rtt: u64| p.tau_evict(Duration::from_millis(rtt), Duration::from_millis(rtt / 4)).as_millis();
    assert_eq!(f(20), 240);
    assert_eq!(f(80), 360);
    assert_eq!(f(250), 698);
    assert_eq!(p.tau_evict(Duration::from_millis(0), Duration::zero()).as_millis(), 200);
}

#[test]
fn theta_join_table() {
    let p = Params::default();
    assert_eq!(p.theta_join(2), 1);
    assert_eq!(p.theta_join(3), 2);
    assert_eq!(p.theta_join(4), 3);
    assert_eq!(p.theta_join(5), 4);
    assert_eq!(p.theta_join(1_000_000), 4);
    assert_eq!(p.theta_join(1), 1);
}

#[test]
fn forest_size_follows_the_ladder() {
    let p = Params::default();
    assert_eq!(p.forest_size(0), 2);
    assert_eq!(p.forest_size(11), 2);
    assert_eq!(p.forest_size(12), 3);
    assert_eq!(p.forest_size(24), 4);
    assert_eq!(p.forest_size(47), 4);
    assert_eq!(p.forest_size(48), 5);
    assert_eq!(p.forest_size(96), 6);
    assert_eq!(p.forest_size(u32::MAX), 6);
}

#[test]
fn pull_window_is_clamped() {
    let p = Params::default();
    assert_eq!(p.w_pull(Duration::from_millis(200), Duration::from_millis(20)).as_millis(), 1500);
    assert_eq!(p.w_pull(Duration::from_millis(1000), Duration::from_millis(100)).as_millis(), 1600);
    assert_eq!(p.w_pull(Duration::from_millis(1000), Duration::from_millis(500)).as_millis(), 2000);
}

#[test]
fn simulation_params_are_cheap() {
    let p = Params::for_simulation();
    assert_eq!((p.c1, p.c2_min), (4, 2));
    assert_eq!(p.chunk_period, Duration::from_millis(250));
    assert_eq!(p.delta_buffer, Duration::from_secs(3));
}

fn built_chunks(n: u64) -> (Identity, SlicingMatrix, Vec<bitstream::media::chunk::BuiltChunk>) {
    let id = publisher_identity(7);
    let ladder = Ladder::reference();
    let mut p = Publisher::new(id.duplicate(), ladder.clone(), 3).unwrap();
    let mut src = SyntheticSource::new(ladder, 9, Some(n));
    let mut out = Vec::new();
    while let Some(c) = src.next_chunk() {
        out.push(p.build(&c).unwrap());
    }
    let matrix = p.matrix().clone();
    (id, matrix, out)
}

#[test]
fn manifest_acceptance_window() {
    let (id, matrix, chunks) = built_chunks(24);
    let mut buf = SwarmBuffer::new(&Params::for_simulation());
    let pk = id.public_key();
    let now = Instant(1_000_000);
    assert_eq!(buf.accept_manifest(&chunks[0].manifest, &pk, &matrix, now), ManifestVerdict::Accepted);
    assert!(buf.has_manifest(SegmentSeq(1), 0));
    assert_eq!(buf.accept_manifest(&chunks[0].manifest, &pk, &matrix, now), ManifestVerdict::Duplicate);
    // Segment 5 is more than three segments past the live edge (segment 1).
    assert_eq!(buf.accept_manifest(&chunks[16].manifest, &pk, &matrix, now), ManifestVerdict::OutsideWindow);
    assert!(!buf.has_manifest(SegmentSeq(5), 0));
    // Segment 4 is within the window.
    assert_eq!(buf.accept_manifest(&chunks[12].manifest, &pk, &matrix, now), ManifestVerdict::Accepted);
    assert_eq!(buf.live_edge(), SegmentSeq(4));
    let other = publisher_identity(8).public_key();
    assert_eq!(buf.accept_manifest(&chunks[1].manifest, &other, &matrix, now), ManifestVerdict::BadSignature);
    let mut newer = matrix.clone();
    newer.version = 2;
    assert_eq!(buf.accept_manifest(&chunks[1].manifest, &pk, &newer, now), ManifestVerdict::UnknownMatrix);
    assert_eq!(buf.buffered_segments(), 2);
}

#[test]
fn verify_then_forward() {
    let (id, matrix, chunks) = built_chunks(1);
    let built = &chunks[0];
    let mut buf = SwarmBuffer::new(&Params::for_simulation());
    let now = Instant(0);
    assert_eq!(buf.accept_manifest(&built.manifest, &id.public_key(), &matrix, now), ManifestVerdict::Accepted);
    let seg = built.manifest.body.segment;
    let idx = BlockIndex::new(0, 0).unwrap();
    // Symbols without a proof: not ready, nothing forwarded.
    let enc = FecEncoder::new(seg, idx, built.blocks[0].clone());
    let mut ready = false;
    for s in enc.source_symbols() {
        ready = buf.add_symbol(seg, idx, s.esi, s.payload.clone(), now);
    }
    assert!(!ready);
    assert!(matches!(buf.try_verify(seg, idx), Ok(None)));
    // With the proof the block verifies and is handed out once.
    let proof = built.block_proof(0, 1);
    assert!(buf.add_proof(seg, idx, proof.siblings.clone(), 1, NodeId([3; 32]), now));
    let vb = buf.try_verify(seg, idx).unwrap().expect("verified");
    assert_eq!(vb.bytes, built.blocks[0]);
    assert_eq!(vb.sender_depth, 1);
    assert!(!vb.decoded);
    assert!(buf.is_verified(seg, idx));
    assert!(matches!(buf.try_verify(seg, idx), Ok(None)));
}

#[test]
fn poisoned_block_is_rejected_and_sender_named() {
    let (id, matrix, chunks) = built_chunks(1);
    let built = &chunks[0];
    let mut buf = SwarmBuffer::new(&Params::for_simulation());
    let now = Instant(0);
    buf.accept_manifest(&built.manifest, &id.public_key(), &matrix, now);
    let seg = built.manifest.body.segment;
    let idx = BlockIndex::new(0, 1).unwrap();
    let mut bad = built.blocks[1].clone();
    bad[0] ^= 0xFF;
    let enc = FecEncoder::new(seg, idx, bad);
    for s in enc.source_symbols() {
        buf.add_symbol(seg, idx, s.esi, s.payload.clone(), now);
    }
    let proof = built.block_proof(1, 1);
    let sender = NodeId([4; 32]);
    assert!(buf.add_proof(seg, idx, proof.siblings.clone(), 1, sender, now));
    match buf.try_verify(seg, idx) {
        Err((_, Some(who))) => assert_eq!(who, sender),
        other => panic!("expected a rejection, got {:?}", other.map(|v| v.map(|b| b.index))),
    }
    assert!(!buf.is_verified(seg, idx));
}

#[test]
fn orphans_attach_when_the_manifest_arrives() {
    let (id, matrix, chunks) = built_chunks(1);
    let built = &chunks[0];
    let mut buf = SwarmBuffer::new(&Params::for_simulation());
    let now = Instant(0);
    let seg = built.manifest.body.segment;
    let idx = BlockIndex::new(0, 2).unwrap();
    let proof = built.block_proof(2, 0);
    assert!(!buf.add_proof(seg, idx, proof.siblings.clone(), 0, NodeId([1; 32]), now));
    let enc = FecEncoder::new(seg, idx, built.blocks[2].clone());
    for s in enc.source_symbols() {
        assert!(!buf.add_symbol(seg, idx, s.esi, s.payload.clone(), now));
    }
    assert_eq!(buf.orphan_count(), 1);
    assert_eq!(buf.accept_manifest(&built.manifest, &id.public_key(), &matrix, now), ManifestVerdict::Accepted);
    assert_eq!(buf.orphan_count(), 0);
    let vb = buf.try_verify(seg, idx).unwrap().expect("orphans made the block whole");
    assert_eq!(vb.bytes, built.blocks[2]);
}

#[test]
fn playout_timeline_and_retention() {
    let (id, matrix, chunks) = built_chunks(4);
    let mut buf = SwarmBuffer::new(&Params::for_simulation());
    let t0 = Instant(10_000_000);
    for c in &chunks {
        assert_eq!(buf.accept_manifest(&c.manifest, &id.public_key(), &matrix, t0), ManifestVerdict::Accepted);
    }
    assert!(buf.anchored());
    // Anchored at the newest chunk seen (chunk 3): deadline Δ after arrival;
    // chunk 0 plays three periods earlier.
    assert_eq!(buf.chunk(SegmentSeq(1), 3).unwrap().deadline, Instant(13_000_000));
    assert_eq!(buf.chunk(SegmentSeq(1), 0).unwrap().deadline, Instant(12_250_000));
    assert_eq!(buf.next_deadline(), Some(Instant(12_250_000)));
    assert!(buf.play_due(Instant(12_000_000)).is_empty());
    let played = buf.play_due(Instant(12_600_000));
    assert_eq!(played.len(), 2);
    assert_eq!(played[0].chunk.chunk_index, 0);
    assert_eq!(played[1].chunk.chunk_index, 1);
    assert_eq!(played[0].layers_complete, 0);
    assert_eq!(played[0].layers_total, 3);
    assert_eq!(played[0].missing, 12);
    let rest = buf.play_due(Instant(13_000_000));
    assert_eq!(rest.len(), 2);
    assert_eq!(buf.next_deadline(), None);
    // Everything has played: the segment floor rises, and old data goes.
    assert_eq!(buf.accept_manifest(&chunks[0].manifest, &id.public_key(), &matrix, t0), ManifestVerdict::Duplicate);
    buf.gc(Instant(13_000_000 + 7_000_000));
    assert_eq!(buf.buffered_segments(), 1);
    buf.gc(Instant(13_000_000 + 9_000_000));
    assert_eq!(buf.buffered_segments(), 0);
    assert_eq!(buf.accept_manifest(&chunks[0].manifest, &id.public_key(), &matrix, t0), ManifestVerdict::OutsideWindow);
}

#[test]
fn published_chunk_plays_whole() {
    let (_, matrix, chunks) = built_chunks(1);
    let built = &chunks[0];
    let mut buf = SwarmBuffer::new(&Params::for_simulation());
    buf.insert_built(built, &matrix, Instant(0));
    assert!(buf.segment_complete_for_tree(SegmentSeq(1), TreeId(1)) == false);
    let played = buf.play_due(Instant(3_000_000));
    assert_eq!(played.len(), 1);
    let p = &played[0];
    assert_eq!(p.layers_complete, 3);
    assert_eq!(p.missing, 0);
    let total: usize = p.chunk.layers.iter().map(|l| l.len()).sum();
    assert_eq!(total, built.manifest.body.chunk_byte_length as usize);
    let manifests = buf.manifests_from(SegmentSeq(1));
    assert_eq!(manifests.len(), 1);
    assert_eq!(manifests[0], built.manifest);
}

#[test]
fn publisher_tracks_the_live_edge() {
    let id = publisher_identity(5);
    let ladder = Ladder::reference();
    assert!(Publisher::new(id.duplicate(), ladder.clone(), 0).is_err());
    assert!(Publisher::new(id.duplicate(), ladder.clone(), 9).is_err());
    let mut p = Publisher::new(id.duplicate(), ladder.clone(), 3).unwrap();
    assert_eq!(p.stream_id(), stream_id(&id.public_key()));
    assert_eq!(p.last_segment(), SegmentSeq(0));
    assert_eq!(p.record_version(), 0);
    let mut src = SyntheticSource::new(ladder, 1, Some(2));
    let c = src.next_chunk().unwrap();
    let b = p.build(&c).unwrap();
    assert_eq!(p.last_segment(), c.segment);
    assert_eq!(p.last_root(), b.manifest.body.merkle_root);
    assert_eq!(p.last_ts_us(), c.timestamp_us);
    assert_eq!(p.matrix().trees.len(), 3);
}

fn addr(port: u16) -> PeerAddr {
    PeerAddr { ip: IpAddress::V4([10, 0, 0, 1]), port }
}

#[test]
fn tree_state_slots_and_probe_state() {
    let mut t = TreeState::new(TreeId(2));
    assert_eq!(t.depth, 255);
    assert!(!t.wants_parent());
    assert_eq!(t.k_avail(false), 0);
    t.assigned = true;
    t.k_v = 4;
    assert_eq!(t.k_avail(true), 4);
    assert_eq!(t.k_avail(false), 0, "warming and unparented");
    assert_eq!(t.probe_state(false), ProbeTreeState::Unparented);
    t.parent = Some(ParentLink {
        addr: addr(9000),
        node_id: NodeId([1; 32]),
        parent_depth: 1,
        last_rx: Instant(0),
        pinged: false,
        srtt: Duration::zero(),
        rttvar: Duration::zero(),
        attached_at: Instant(0),
        first_block_at: None,
        pending: false,
        rejected_blocks: 0,
        attached_as_repair: false,
    });
    t.depth = 2;
    assert_eq!(t.probe_state(false), ProbeTreeState::Warming);
    t.verified_segments = 1;
    assert_eq!(t.probe_state(false), ProbeTreeState::Serving);
    assert_eq!(t.k_avail(false), 4);
    assert!(t.depth_allows_children(8));
    assert!(!t.depth_allows_children(2));
    let p = t.detach_parent(Instant(77));
    assert!(p.is_some());
    assert_eq!(t.lost_at, Some(Instant(77)));
    assert_eq!(t.depth, 255);
    assert_eq!(t.advertised_depth(), 255);
    assert!(t.detach_parent(Instant(99)).is_none());
    assert_eq!(t.lost_at, Some(Instant(77)));
}

#[test]
fn lifecycle_codes() {
    assert_eq!(Lifecycle::Bootstrap.code(), 0);
    assert_eq!(Lifecycle::Active.code(), 4);
    assert_eq!(Lifecycle::Terminated.code(), 6);
}

#[test]
fn ladder_specs() {
    let r = ladder("reference").unwrap();
    assert_eq!(r, Ladder::reference());
    let s = ladder("single:2500").unwrap();
    assert_eq!(s, Ladder::single(2500));
    assert_eq!(ladder("single:fast"), Err(LadderSpecError::Kbps));
    assert_eq!(ladder("single:"), Err(LadderSpecError::Kbps));
    assert_eq!(ladder("other"), Err(LadderSpecError::Unknown));
    assert_eq!(ladder("referenced"), Err(LadderSpecError::Unknown));
}

#[test]
fn scenario_layers() {
    let specs = LayerSpec::reference();
    assert_eq!(specs.len(), 3);
    assert_eq!(LayerSpec::ladder(&specs), Ladder::reference());
    assert!(default_true());
    assert_eq!(any(), "any");
    assert!(matches!(SourceSpec::default(), SourceSpec::Synthetic { seed: None }));
}

fn parent(last_rx: u64, pinged: bool) -> ParentLink {
    ParentLink {
        addr: addr(7000),
        node_id: NodeId([2; 32]),
        parent_depth: 0,
        last_rx: Instant(last_rx),
        pinged,
        srtt: Duration::from_millis(20),
        rttvar: Duration::from_millis(5),
        attached_at: Instant(0),
        first_block_at: None,
        pending: false,
        rejected_blocks: 0,
        attached_as_repair: false,
    }
}

#[test]
fn heartbeat_then_eviction_rule() {
    let p = Params::default();
    let mut t = TreeState::new(TreeId(1));
    assert_eq!(t.check_parent(&p, Instant(5_000_000)), ParentCheck::Quiet);
    t.parent = Some(parent(1_000_000, false));
    // 50 ms of silence: nothing to do.
    assert_eq!(t.check_parent(&p, Instant(1_050_000)), ParentCheck::Quiet);
    // 150 ms: past τ_ping, ping once.
    assert_eq!(t.check_parent(&p, Instant(1_150_000)), ParentCheck::Ping(addr(7000)));
    assert!(t.parent.as_ref().unwrap().pinged);
    assert_eq!(t.check_parent(&p, Instant(1_160_000)), ParentCheck::Quiet);
    // τ_evict = 200 + 20 + 20 = 240 ms; 250 ms of silence evicts.
    assert_eq!(t.check_parent(&p, Instant(1_250_000)), ParentCheck::Evict);
}

fn child_at(port: u16, last_tx: u64) -> ChildLink {
    ChildLink {
        addr: addr(port),
        node_id: NodeId([port as u8; 32]),
        node_class: NodeClass::Relay,
        assigned_trees: TreeSet(1),
        last_tx: Instant(last_tx),
        last_rx: Instant(0),
        admitted_at: Instant(0),
        parity: 1,
        draining_until: None,
        pending: false,
    }
}

#[test]
fn idle_children_get_heartbeats() {
    let child = child_at;
    let mut t = TreeState::new(TreeId(1));
    t.children = vec![child(1, 0), child(2, 950_000), child(3, 900_000)];
    let hb = t.child_heartbeats(Duration::from_millis(100), Instant(1_000_000));
    assert_eq!(hb, vec![addr(1), addr(3)]);
    assert_eq!(t.children[0].last_tx, Instant(1_000_000));
    assert_eq!(t.children[1].last_tx, Instant(950_000));
    assert_eq!(t.children[2].last_tx, Instant(1_000_000));
}

#[test]
fn lifecycle_follows_parents() {
    let mut a = TreeState::new(TreeId(1));
    a.subscribed = true;
    let mut b = TreeState::new(TreeId(2));
    b.subscribed = true;
    let mut trees = vec![a, b];
    assert_eq!(check_active(&trees, Lifecycle::Connecting, false, true), (Lifecycle::Connecting, false));
    trees[0].parent = Some(parent(0, false));
    assert_eq!(check_active(&trees, Lifecycle::Connecting, false, true), (Lifecycle::Connecting, false));
    trees[1].parent = Some(parent(0, false));
    assert_eq!(check_active(&trees, Lifecycle::Connecting, false, true), (Lifecycle::Active, false));
    trees[0].parent = None;
    trees[1].parent = None;
    assert_eq!(check_active(&trees, Lifecycle::Active, false, true), (Lifecycle::Connecting, true));
    assert_eq!(check_active(&trees, Lifecycle::Active, false, false), (Lifecycle::Discovery, true));
    assert_eq!(check_active(&trees, Lifecycle::Active, true, false), (Lifecycle::Active, false));
}

#[test]
fn generated_identities_differ() {
    let a = Identity::generate(Difficulty::testing()).unwrap();
    let b = Identity::generate(Difficulty::testing()).unwrap();
    assert_ne!(a.public_key(), b.public_key());
    assert!(bitstream::crypto::leading_zero_bits(&a.node_id().0) >= 4);
}

#[test]
fn deadlines_before_anchor_follow_arrival() {
    let (id, matrix, chunks) = built_chunks(8);
    let mut buf = SwarmBuffer::new(&Params::for_simulation());
    // First manifest: chunk 1 of segment 2 anchors the timeline.
    assert_eq!(buf.accept_manifest(&chunks[5].manifest, &id.public_key(), &matrix, Instant(0)), ManifestVerdict::Accepted);
    assert_eq!(buf.chunk(SegmentSeq(2), 1).unwrap().deadline, Instant(3_000_000));
    // An earlier chunk arriving later keeps the anchor: four chunks before it.
    assert_eq!(buf.accept_manifest(&chunks[1].manifest, &id.public_key(), &matrix, Instant(100)), ManifestVerdict::Accepted);
    assert_eq!(buf.chunk(SegmentSeq(1), 1).unwrap().deadline, Instant(2_000_000));
    // A newer one re-anchors and shifts everything (nothing has played).
    assert_eq!(buf.accept_manifest(&chunks[6].manifest, &id.public_key(), &matrix, Instant(200_000)), ManifestVerdict::Accepted);
    assert_eq!(buf.chunk(SegmentSeq(2), 2).unwrap().deadline, Instant(3_200_000));
    assert_eq!(buf.chunk(SegmentSeq(2), 1).unwrap().deadline, Instant(2_950_000));
    let ms = buf.manifests_from(SegmentSeq(2));
    assert_eq!(ms.len(), 2);
    assert_eq!(ms[0], chunks[5].manifest);
    assert_eq!(ms[1], chunks[6].manifest);
}


#[test]
fn relay_of_tree_displaces_pure_subscriber() {
    let tree = TreeId(1);
    let m = 3;
    // A requester whose rendezvous primary is tree 1, and one whose is not.
    let mut relay_id = None;
    let mut other_id = None;
    for b in 0..=255u8 {
        let id = NodeId([b; 32]);
        if assigned_tree(&id, m) == tree {
            relay_id.get_or_insert(id);
        } else {
            other_id.get_or_insert(id);
        }
    }
    let (relay_id, other_id) = (relay_id.unwrap(), other_id.unwrap());
    let mut t = TreeState::new(tree);
    assert_eq!(t.admission(8, true, addr(1), &relay_id, NodeClass::Relay, TreeSet(1), m), Admission::Reject(JoinRefusal::NotAssigned));
    t.assigned = true;
    t.depth = 0;
    t.k_v = 1;
    assert_eq!(t.admission(8, true, addr(1), &relay_id, NodeClass::Relay, TreeSet(1), m), Admission::Admit(0));
    let mut sub = child_at(10, 0);
    sub.node_class = NodeClass::Leaf;
    sub.admitted_at = Instant(5);
    t.insert_child(sub);
    assert!(t.has_child(addr(10)));
    // Full: a pure subscriber is displaced for a relay of this tree, not for others.
    assert_eq!(t.admission(8, true, addr(11), &relay_id, NodeClass::Relay, TreeSet(1), m), Admission::Displace { victim: addr(10), depth: 0 });
    assert_eq!(t.admission(8, true, addr(11), &other_id, NodeClass::Relay, TreeSet(1), m), Admission::Reject(JoinRefusal::Saturated));
    assert_eq!(t.admission(8, true, addr(11), &relay_id, NodeClass::Leaf, TreeSet(1), m), Admission::Reject(JoinRefusal::Saturated));
    // An existing child is re-admitted even when full.
    assert_eq!(t.admission(8, true, addr(10), &other_id, NodeClass::Leaf, TreeSet(0), m), Admission::Admit(0));
    // One displacement at a time.
    t.mark_draining(addr(10), SegmentSeq(9));
    assert_eq!(t.children[0].draining_until, Some(SegmentSeq(9)));
    assert_eq!(t.admission(8, true, addr(11), &relay_id, NodeClass::Relay, TreeSet(1), m), Admission::Reject(JoinRefusal::Saturated));
    let mut newcomer = child_at(11, 0);
    newcomer.pending = true;
    t.insert_child(newcomer);
    assert_eq!(t.children.len(), 2);
    assert!(t.take_expired_drains(SegmentSeq(8)).is_empty());
    let gone = t.take_expired_drains(SegmentSeq(9));
    assert_eq!(gone.len(), 1);
    assert_eq!(gone[0].addr, addr(10));
    assert_eq!(t.release_pending(), Some(addr(11)));
    assert!(!t.children[0].pending);
    assert_eq!(t.release_pending(), None);
    // Depth rule.
    t.depth = 8;
    assert_eq!(t.admission(8, true, addr(12), &relay_id, NodeClass::Relay, TreeSet(1), m), Admission::Reject(JoinRefusal::Depth));
    assert!(t.remove_child(addr(11)).is_some());
    assert!(t.remove_child(addr(11)).is_none());
    assert!(t.children.is_empty());
}

#[test]
fn same_address_compare() {
    assert!(addr(1).same(&addr(1)));
    assert!(!addr(1).same(&addr(2)));
    let v6 = PeerAddr { ip: IpAddress::V6([1; 16]), port: 1 };
    assert!(!addr(1).same(&v6));
    assert!(v6.same(&v6));
}

#[test]
fn forward_plan_skips_pending_children() {
    let (id, matrix, chunks) = built_chunks(1);
    let built = &chunks[0];
    let mut buf = SwarmBuffer::new(&Params::for_simulation());
    buf.accept_manifest(&built.manifest, &id.public_key(), &matrix, Instant(0));
    let seg = built.manifest.body.segment;
    let idx = BlockIndex::new(0, 0).unwrap();
    let enc = FecEncoder::new(seg, idx, built.blocks[0].clone());
    for s in enc.source_symbols() {
        buf.add_symbol(seg, idx, s.esi, s.payload.clone(), Instant(0));
    }
    buf.add_proof(seg, idx, built.block_proof(0, 0).siblings, 0, NodeId([1; 32]), Instant(0));
    let vb = buf.try_verify(seg, idx).unwrap().unwrap();
    let mut t = TreeState::new(TreeId(1));
    t.depth = 1;
    let mut a = child_at(1, 0);
    a.parity = 2;
    let mut b = child_at(2, 0);
    b.pending = true;
    let mut c = child_at(3, 0);
    c.parity = 0;
    t.children = vec![a, b, c];
    let plan = t.forward_plan(&vb);
    assert_eq!(plan.len(), 2);
    assert_eq!(plan[0].to, addr(1));
    assert_eq!(plan[0].symbols.len(), 18);
    assert_eq!(plan[0].symbols[16].esi, 32);
    assert_eq!(plan[1].to, addr(3));
    assert_eq!(plan[1].symbols.len(), 16);
    assert_eq!(plan[0].proof.sender_hop_depth, 1);
    assert_eq!(plan[0].proof.siblings, vb.siblings);
    assert_eq!(plan[1].symbols[3].payload, built.blocks[0][3 * 1024..4 * 1024].to_vec());
}

#[test]
fn stream_record_is_signed_by_the_publisher() {
    let id = publisher_identity(5);
    let ladder = Ladder::reference();
    let mut p = Publisher::new(id.duplicate(), ladder.clone(), 3).unwrap();
    let mut src = SyntheticSource::new(ladder, 1, Some(1));
    let c = src.next_chunk().unwrap();
    let b = p.build(&c).unwrap();
    let r1 = p.stream_record(10, 4, Instant(0));
    let r2 = p.stream_record(11, 4, Instant(1));
    assert_eq!(r1.manifest_version, 1);
    assert_eq!(r2.manifest_version, 2);
    assert_eq!(r1.live_edge_segment, c.segment);
    assert_eq!(r1.live_edge_manifest_hash, b.manifest.body.merkle_root);
    assert_eq!(r1.trees, p.matrix().to_entries());
    assert!(r1.trees_next.is_empty());
    assert!(Verifier::verify(&id.public_key(), &r1.signable_bytes(), &r1.signature).is_ok());
    let mut forged = r2.clone();
    forged.swarm_size = 1_000;
    assert!(Verifier::verify(&id.public_key(), &forged.signable_bytes(), &forged.signature).is_err());
}


#[test]
fn only_the_publisher_s_own_record_is_authentic_for_its_stream() {
    let id = publisher_identity(5);
    let ladder = Ladder::reference();
    let mut p = Publisher::new(id.duplicate(), ladder.clone(), 3).unwrap();
    let r = p.stream_record(10, 4, Instant(0));
    let sid = stream_id(&id.public_key());
    assert!(r.authentic(&sid));
    assert!(!r.authentic(&stream_id(&publisher_identity(6).public_key())));
    let mut forged = r.clone();
    forged.relay_count = 9;
    assert!(!forged.authentic(&sid));
    // Re-signed by another key: the key no longer names the stream.
    let other = publisher_identity(6);
    let mut resigned = r.clone();
    resigned.publisher_pubkey = other.public_key();
    resigned.signature = other.sign(&resigned.signable_bytes());
    assert!(!resigned.authentic(&sid));
    assert!(resigned.authentic(&stream_id(&other.public_key())));
}

#[test]
fn a_stream_record_carries_the_publisher_s_matrix() {
    let id = publisher_identity(5);
    let ladder = Ladder::reference();
    let mut p = Publisher::new(id.duplicate(), ladder.clone(), 3).unwrap();
    let r = p.stream_record(10, 4, Instant(0));
    let m = r.matrix();
    assert_eq!(m.version, 1);
    assert_eq!(m.layer_count, p.matrix().layer_count);
    assert_eq!(m.trees, p.matrix().trees);
}

#[test]
fn block_proofs_set_depth_and_end_repairs() {
    let mut t = TreeState::new(TreeId(1));
    assert!(matches!(t.on_proof_from(addr(7000), 2, Instant(10)), ProofSource::Stranger));
    let mut old = parent(0, false);
    old.addr = addr(6000);
    old.node_id = NodeId([6; 32]);
    t.old_parent = Some(old);
    let mut p = parent(0, false);
    p.attached_as_repair = true;
    t.parent = Some(p);
    t.repairing = true;
    t.lost_at = Some(Instant(1_000));
    match t.on_proof_from(addr(6000), 1, Instant(2_000)) {
        ProofSource::OldParent { sender } => assert_eq!(sender, NodeId([6; 32])),
        other => panic!("expected the old parent, got {:?}", other),
    }
    match t.on_proof_from(addr(7000), 2, Instant(5_000)) {
        ProofSource::Parent { sender, choke, repair_done } => {
            assert_eq!(sender, NodeId([2; 32]));
            assert_eq!(choke.map(|c| c.addr), Some(addr(6000)));
            assert_eq!(repair_done, Some(Duration(4_000)));
        }
        other => panic!("expected the parent, got {:?}", other),
    }
    assert_eq!(t.depth, 3);
    assert!(!t.repairing);
    assert!(t.old_parent.is_none());
    assert_eq!(t.parent.as_ref().unwrap().first_block_at, Some(Instant(5_000)));
    assert_eq!(t.parent.as_ref().unwrap().parent_depth, 2);
    match t.on_proof_from(addr(7000), 255, Instant(6_000)) {
        ProofSource::Parent { choke, repair_done, .. } => assert!(choke.is_none() && repair_done.is_none()),
        other => panic!("expected the parent, got {:?}", other),
    }
    assert_eq!(t.depth, 255);
}

#[test]
fn three_poisoned_blocks_evict_the_parent() {
    let mut t = TreeState::new(TreeId(1));
    t.parent = Some(parent(0, false));
    assert!(!t.note_rejected(NodeId([9; 32])));
    assert!(!t.note_rejected(NodeId([2; 32])));
    assert!(!t.note_rejected(NodeId([2; 32])));
    assert!(t.note_rejected(NodeId([2; 32])));
    assert_eq!(t.parent.as_ref().unwrap().rejected_blocks, 3);
}

#[test]
fn warm_up_ends_with_the_first_complete_segment() {
    let mut t = TreeState::new(TreeId(1));
    t.assigned = true;
    assert!(!t.note_verified(SegmentSeq(3), false));
    assert_eq!(t.last_segment_seen, SegmentSeq(3));
    assert_eq!(t.verified_segments, 0);
    assert!(t.note_verified(SegmentSeq(3), true));
    assert_eq!((t.live_edge, t.verified_segments), (SegmentSeq(3), 1));
    assert!(!t.note_verified(SegmentSeq(3), true));
    assert!(!t.note_verified(SegmentSeq(4), true));
    assert_eq!((t.live_edge, t.verified_segments), (SegmentSeq(4), 2));
    assert!(!t.note_verified(SegmentSeq(2), true));
    assert_eq!(t.last_segment_seen, SegmentSeq(4));
}
