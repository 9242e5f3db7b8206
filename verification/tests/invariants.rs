//! Structural checks over a snapshot of the forest.

use bitstream::crypto::rendezvous::assigned_tree;
use bitstream::peer::forest::{Admission, ChildLink, ParentLink, PeerAddr, TreeState};
use bitstream::peer::invariants::{attach_violation, forest_violations, next_live_edges, NodeSnapshot, Violation, ViolationKind};
use bitstream::time::{Duration, Instant};
use bitstream::wire::{IpAddress, NodeClass, NodeId, SegmentSeq, TreeId, TreeSet};

fn addr(port: u16) -> PeerAddr {
    PeerAddr { ip: IpAddress::V4([10, 0, 0, 2]), port }
}

fn link(port: u16, flowing: bool) -> ParentLink {
    ParentLink {
        addr: addr(port),
        node_id: NodeId([4; 32]),
        parent_depth: 0,
        last_rx: Instant(0),
        pinged: false,
        srtt: Duration::from_millis(20),
        rttvar: Duration::from_millis(5),
        attached_at: Instant(0),
        first_block_at: if flowing { Some(Instant(1)) } else { None },
        pending: false,
        rejected_blocks: 0,
        attached_as_repair: false,
    }
}

fn child(port: u16, draining: bool) -> ChildLink {
    ChildLink {
        addr: addr(port),
        node_id: NodeId([port as u8; 32]),
        node_class: NodeClass::Relay,
        assigned_trees: TreeSet(1),
        last_tx: Instant(0),
        last_rx: Instant(0),
        admitted_at: Instant(0),
        parity: 1,
        draining_until: if draining { Some(SegmentSeq(4)) } else { None },
        pending: false,
    }
}

/// Two trees, both relayed, no parent yet.
fn trees() -> Vec<TreeState> {
    let mut t1 = TreeState::new(TreeId(1));
    let mut t2 = TreeState::new(TreeId(2));
    t1.assigned = true;
    t2.assigned = true;
    t1.k_v = 2;
    t2.k_v = 2;
    vec![t1, t2]
}

fn node(port: u16, is_source: bool) -> NodeSnapshot {
    let mut trees = trees();
    if is_source {
        trees[0].depth = 0;
        trees[1].depth = 0;
    }
    NodeSnapshot { addr: addr(port), alive: true, is_source, live_edge: 5, trees }
}

/// A source at 9000 and a relay at 9001 fed by it in both trees, at depth 1.
fn healthy() -> Vec<NodeSnapshot> {
    let src = node(9000, true);
    let mut relay = node(9001, false);
    for t in relay.trees.iter_mut() {
        t.parent = Some(link(9000, true));
        t.depth = 1;
    }
    vec![src, relay]
}

fn kinds(v: &[Violation]) -> Vec<(usize, ViolationKind)> {
    v.iter().map(|x| (x.node, x.kind)).collect()
}

#[test]
fn a_healthy_forest_has_no_violation() {
    let nodes = healthy();
    assert!(forest_violations(&nodes, 7, &vec![5, 5]).is_empty());
}

#[test]
fn the_source_may_feed_a_node_in_every_tree() {
    // The relay is fed by the source in both trees: no shared-edge failure.
    let nodes = healthy();
    let v = forest_violations(&nodes, 7, &vec![]);
    assert!(!v.iter().any(|x| matches!(x.kind, ViolationKind::SharedEdge { .. })));
}

#[test]
fn a_live_edge_that_goes_back_is_reported() {
    let nodes = healthy();
    let v = forest_violations(&nodes, 7, &vec![5, 8]);
    assert_eq!(kinds(&v), vec![(1, ViolationKind::LiveEdgeRegressed { from: 8, to: 5 })]);
    assert!(v[0].is_hard());
}

#[test]
fn more_children_than_slots_is_reported_unless_draining() {
    let mut nodes = healthy();
    nodes[1].trees[0].insert_child(child(9100, false));
    nodes[1].trees[0].insert_child(child(9101, false));
    nodes[1].trees[0].insert_child(child(9102, true));
    assert!(forest_violations(&nodes, 7, &vec![]).is_empty());
    nodes[1].trees[0].insert_child(child(9103, false));
    let v = forest_violations(&nodes, 7, &vec![]);
    assert_eq!(kinds(&v), vec![(1, ViolationKind::SlotBound { tree: TreeId(1) })]);
}

#[test]
fn a_parent_not_relaying_the_tree_is_reported() {
    let mut nodes = healthy();
    nodes[0].trees[1].assigned = false;
    let v = forest_violations(&nodes, 7, &vec![]);
    assert_eq!(kinds(&v), vec![(1, ViolationKind::ParentNotAssigned { tree: TreeId(2) })]);
}

#[test]
fn a_depth_mismatch_is_soft_and_only_once_blocks_flow() {
    let mut nodes = healthy();
    nodes[1].trees[0].depth = 3;
    let v = forest_violations(&nodes, 7, &vec![]);
    assert_eq!(kinds(&v), vec![(1, ViolationKind::DepthMismatch { tree: TreeId(1) })]);
    assert!(!v[0].is_hard());
    nodes[1].trees[0].parent = Some(link(9000, false));
    assert!(forest_violations(&nodes, 7, &vec![]).is_empty());
}

#[test]
fn a_depth_beyond_the_bound_is_reported() {
    let mut nodes = healthy();
    nodes[0].trees[0].depth = 8;
    nodes[1].trees[0].depth = 9;
    let v = forest_violations(&nodes, 8, &vec![]);
    assert_eq!(kinds(&v), vec![(1, ViolationKind::DepthBound { tree: TreeId(1) })]);
    // The source's own depth has no parent and is not bounded.
    assert!(forest_violations(&nodes, 9, &vec![]).is_empty());
}

#[test]
fn a_relay_feeding_one_node_in_two_trees_is_reported_once() {
    let mut nodes = healthy();
    let mut third = node(9002, false);
    for t in third.trees.iter_mut() {
        t.parent = Some(link(9001, true));
        t.depth = 2;
    }
    nodes.push(third);
    let v = forest_violations(&nodes, 7, &vec![]);
    assert_eq!(kinds(&v), vec![(2, ViolationKind::SharedEdge { parent: addr(9001) })]);
}

#[test]
fn a_parent_chain_that_loops_is_reported() {
    let mut a = node(9003, false);
    let mut b = node(9004, false);
    a.trees[0].parent = Some(link(9004, false));
    b.trees[0].parent = Some(link(9003, false));
    a.trees[0].depth = 2;
    b.trees[0].depth = 1;
    let v = forest_violations(&vec![a, b], 7, &vec![]);
    assert_eq!(
        kinds(&v),
        vec![(0, ViolationKind::TreeCycle { tree: TreeId(1) }), (1, ViolationKind::TreeCycle { tree: TreeId(1) })]
    );
}

#[test]
fn dead_nodes_are_not_checked() {
    let mut nodes = healthy();
    nodes[1].trees[0].depth = 30;
    nodes[1].alive = false;
    assert!(forest_violations(&nodes, 7, &vec![0, 9]).is_empty());
}

fn slot_failures(nodes: &Vec<NodeSnapshot>) -> usize {
    forest_violations(nodes, 7, &vec![]).iter().filter(|v| matches!(v.kind, ViolationKind::SlotBound { .. })).count()
}

#[test]
fn admitting_into_a_free_slot_keeps_the_slot_bound() {
    let mut nodes = healthy();
    nodes[1].trees[0].verified_segments = 1;
    nodes[1].trees[0].insert_child(child(9100, false));
    let id = NodeId([9; 32]);
    let r = nodes[1].trees[0].admission(7, false, addr(9101), &id, NodeClass::Leaf, TreeSet(0), 2);
    assert_eq!(r, Admission::Admit(1));
    nodes[1].trees[0].insert_child(child(9101, false));
    assert_eq!(slot_failures(&nodes), 0);
    // Now full: the next request is refused rather than admitted.
    let r = nodes[1].trees[0].admission(7, false, addr(9102), &id, NodeClass::Leaf, TreeSet(0), 2);
    assert!(matches!(r, Admission::Reject(_)));
}

#[test]
fn displacing_keeps_the_slot_bound() {
    let m = 2;
    let relay_id = (0..=255u8).map(|b| NodeId([b; 32])).find(|id| assigned_tree(id, m) == TreeId(1)).unwrap();
    let mut nodes = healthy();
    let t = &mut nodes[1].trees[0];
    t.verified_segments = 1;
    let mut leaf = child(9100, false);
    leaf.node_class = NodeClass::Leaf;
    t.insert_child(leaf);
    t.insert_child(child(9101, false));
    let r = t.admission(7, false, addr(9102), &relay_id, NodeClass::Relay, TreeSet(1), m);
    assert_eq!(r, Admission::Displace { victim: addr(9100), depth: 1 });
    t.mark_draining(addr(9100), SegmentSeq(9));
    let mut newcomer = child(9102, false);
    newcomer.pending = true;
    t.insert_child(newcomer);
    assert_eq!(slot_failures(&nodes), 0);
}

#[test]
fn live_edges_carry_over_for_nodes_that_are_down() {
    let mut nodes = healthy();
    nodes[1].alive = false;
    nodes[0].live_edge = 7;
    assert_eq!(next_live_edges(&nodes, &vec![3, 4]), vec![7, 4]);
    assert_eq!(next_live_edges(&nodes, &vec![]), vec![7, 0]);
}

#[test]
fn attaching_too_deep_is_a_depth_failure() {
    assert_eq!(attach_violation(3, TreeId(2), 8, 7), Some(Violation { node: 3, kind: ViolationKind::DepthBound { tree: TreeId(2) } }));
    assert_eq!(attach_violation(3, TreeId(2), 7, 7), None);
}
