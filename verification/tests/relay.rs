//! Manifest relaying: the send log, the children served, forward targets.

use bitstream::peer::forest::{ChildLink, PeerAddr, TreeState};
use bitstream::peer::relay::{forward_targets, recent_manifest_floor, serving_children, ManifestLog};
use bitstream::time::Instant;
use bitstream::wire::{IpAddress, NodeClass, NodeId, SegmentSeq, TreeId, TreeSet};

fn addr(port: u16) -> PeerAddr {
    PeerAddr { ip: IpAddress::V4([10, 0, 2, 1]), port }
}

fn child(port: u16, pending: bool) -> ChildLink {
    ChildLink {
        addr: addr(port),
        node_id: NodeId([port as u8; 32]),
        node_class: NodeClass::Leaf,
        assigned_trees: TreeSet(0),
        last_tx: Instant(0),
        last_rx: Instant(0),
        admitted_at: Instant(0),
        parity: 1,
        draining_until: None,
        pending,
    }
}

fn forest() -> Vec<TreeState> {
    let mut t1 = TreeState::new(TreeId(1));
    t1.insert_child(child(1, false));
    t1.insert_child(child(2, true));
    let mut t2 = TreeState::new(TreeId(2));
    t2.insert_child(child(1, false));
    t2.insert_child(child(3, false));
    vec![t1, t2]
}

#[test]
fn each_send_is_recorded_once() {
    let mut log = ManifestLog::new();
    assert!(log.first_send(5, 0, addr(1)));
    assert!(!log.first_send(5, 0, addr(1)));
    assert!(log.first_send(5, 1, addr(1)));
    assert!(log.first_send(6, 0, addr(1)));
    assert_eq!(log.len(), 3);
    log.prune(6);
    assert_eq!(log.len(), 1);
    assert!(log.first_send(5, 0, addr(1)));
    assert!(!log.first_send(6, 0, addr(1)));
}

#[test]
fn served_children_are_listed_once_without_pending_ones() {
    let trees = forest();
    let mut got = serving_children(&trees, None);
    got.sort_by_key(|a| a.port);
    assert_eq!(got, vec![addr(1), addr(3)]);
    assert_eq!(serving_children(&trees, Some(addr(1))), vec![addr(3)]);
}

#[test]
fn a_manifest_reaches_each_child_once() {
    let trees = forest();
    let mut log = ManifestLog::new();
    let mut first = forward_targets(&trees, Some(addr(3)), &mut log, 7, 2, 7);
    first.sort_by_key(|a| a.port);
    assert_eq!(first, vec![addr(1)]);
    let second = forward_targets(&trees, None, &mut log, 7, 2, 7);
    assert_eq!(second, vec![addr(3)]);
    assert!(forward_targets(&trees, None, &mut log, 7, 2, 7).is_empty());
    let mut other = forward_targets(&trees, None, &mut log, 7, 3, 7);
    other.sort_by_key(|a| a.port);
    assert_eq!(other, vec![addr(1), addr(3)]);
}

#[test]
fn a_large_log_forgets_old_segments() {
    let trees = forest();
    let mut log = ManifestLog::new();
    for s in 0..2100u32 {
        log.first_send(s, 0, addr(1));
        log.first_send(s, 0, addr(3));
    }
    assert_eq!(log.len(), 4200);
    let t = forward_targets(&trees, None, &mut log, 2200, 0, 2200);
    assert_eq!(t.len(), 2);
    // Kept: segments from 2184 on.
    assert_eq!(log.len(), 2);
    assert!(!log.first_send(2200, 0, addr(1)));
    assert!(log.first_send(5, 0, addr(1)));
}

#[test]
fn new_children_get_manifests_from_the_segment_before_the_edge() {
    assert_eq!(recent_manifest_floor(SegmentSeq(10)), SegmentSeq(9));
    assert_eq!(recent_manifest_floor(SegmentSeq(1)), SegmentSeq(1));
    assert_eq!(recent_manifest_floor(SegmentSeq(0)), SegmentSeq(1));
}
