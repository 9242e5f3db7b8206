//! Failed join rounds, parent loss, shedding a tree and drain notices.

use bitstream::peer::discovery::{PeerFlags, PeerRecord, Reachability};
use bitstream::peer::forest::{probe_view, ChildLink, ParentLink, PeerAddr, ProbeTreeState, TreeState};
use bitstream::crypto::rendezvous::assigned_tree;
use bitstream::peer::discovery::own_record;
use bitstream::peer::join::{
    apply_roles, assigned_trees, candidates_for, sort_by_node_id, split_round, starved_trees, unshed_target, JoinStats, ProbeAnswer, RoundSplit,
    RoundVerdict,
};
use bitstream::peer::params::Params;
use bitstream::time::{Duration, Instant};
use bitstream::wire::{IpAddress, NodeClass, NodeId, SegmentSeq, TreeId, TreeSet};

fn addr(port: u16) -> PeerAddr {
    PeerAddr { ip: IpAddress::V4([10, 0, 0, 1]), port }
}

fn link(port: u16) -> ParentLink {
    ParentLink {
        addr: addr(port),
        node_id: NodeId([3; 32]),
        parent_depth: 1,
        last_rx: Instant(0),
        pinged: false,
        srtt: Duration::from_millis(20),
        rttvar: Duration::from_millis(5),
        attached_at: Instant(0),
        first_block_at: None,
        pending: false,
        rejected_blocks: 0,
        attached_as_repair: false,
    }
}

fn stats(failed: u32, saw_warming: bool) -> JoinStats {
    JoinStats { failed_rounds: failed, rounds: 0, saw_warming }
}

fn tree(assigned: bool, subscribed: bool) -> TreeState {
    let mut t = TreeState::new(TreeId(2));
    t.assigned = assigned;
    t.subscribed = subscribed;
    t
}

#[test]
fn backoff_doubles_per_failed_round_up_to_four_times() {
    let p = Params::default();
    let t = tree(false, true);
    let mut s = stats(0, false);
    let v = s.round_failed(&t, 0, 3, &p);
    assert_eq!(v, RoundVerdict { failed_rounds: 1, shed_to: None, retry_after: Some(Duration::from_millis(500)) });
    let v = s.round_failed(&t, 0, 3, &p);
    assert_eq!(v.retry_after, Some(Duration::from_millis(1000)));
    let v = s.round_failed(&t, 0, 3, &p);
    assert_eq!(v.failed_rounds, 3);
    assert_eq!(v.retry_after, Some(Duration::from_millis(1000)));
}

#[test]
fn timeouts_alone_do_not_count_towards_shedding() {
    let p = Params::default();
    let t = tree(false, true);
    let mut s = stats(0, false);
    let v = s.round_failed(&t, 1, 0, &p);
    assert_eq!(v, RoundVerdict { failed_rounds: 0, shed_to: None, retry_after: Some(Duration::from_millis(250)) });
    assert_eq!(s.failed_rounds, 0);
}

#[test]
fn a_warming_candidate_keeps_the_base_cadence_and_the_count() {
    let p = Params::default();
    let t = tree(false, true);
    let mut s = stats(1, true);
    let v = s.round_failed(&t, 1, 4, &p);
    assert_eq!(v, RoundVerdict { failed_rounds: 1, shed_to: None, retry_after: Some(Duration::from_millis(250)) });
}

#[test]
fn repeated_failure_on_an_upper_layer_sheds_it() {
    let p = Params::default();
    let t = tree(false, true);
    let mut s = stats(1, false);
    let v = s.round_failed(&t, 2, 1, &p);
    assert_eq!(v, RoundVerdict { failed_rounds: 2, shed_to: Some(1), retry_after: None });
}

#[test]
fn an_assigned_tree_keeps_retrying_after_a_shed() {
    let p = Params::default();
    let t = tree(true, true);
    let mut s = stats(1, false);
    let v = s.round_failed(&t, 2, 1, &p);
    assert_eq!(v.shed_to, Some(1));
    assert_eq!(v.retry_after, Some(Duration::from_millis(1000)));
}

#[test]
fn the_base_layer_is_never_shed() {
    let p = Params::default();
    let t = tree(false, true);
    let mut s = stats(5, false);
    let v = s.round_failed(&t, 0, 1, &p);
    assert_eq!(v.shed_to, None);
    assert_eq!(v.failed_rounds, 6);
}

#[test]
fn a_repairing_tree_retries_at_the_base_cadence() {
    let p = Params::default();
    let mut t = tree(false, true);
    t.repairing = true;
    let mut s = stats(0, false);
    let v = s.round_failed(&t, 0, 2, &p);
    assert_eq!(v.retry_after, Some(Duration::from_millis(250)));
}

#[test]
fn losing_the_parent_starts_a_repair() {
    let mut t = tree(false, true);
    t.parent = Some(link(7000));
    t.depth = 3;
    let (p, probe) = t.lose_parent(Instant(42), false).expect("had a parent");
    assert_eq!(p.addr, addr(7000));
    assert!(probe);
    assert!(t.parent.is_none());
    assert!(t.repairing);
    assert_eq!(t.lost_at, Some(Instant(42)));
    assert_eq!(t.depth, 255);
}

#[test]
fn losing_the_parent_after_the_stream_ended_repairs_nothing() {
    let mut t = tree(false, true);
    t.parent = Some(link(7000));
    let (_, probe) = t.lose_parent(Instant(42), true).expect("had a parent");
    assert!(!probe);
    assert!(!t.repairing);
}

#[test]
fn no_parent_nothing_to_lose() {
    let mut t = tree(false, true);
    assert!(t.lose_parent(Instant(1), false).is_none());
    assert!(!t.repairing);
    assert!(t.lost_at.is_none());
}

#[test]
fn unsubscribing_an_unassigned_tree_quits_both_parents() {
    let mut t = tree(false, true);
    t.parent = Some(link(7000));
    t.old_parent = Some(link(7001));
    t.repairing = true;
    let quit = t.set_subscribed(false, Instant(5));
    assert_eq!(quit, vec![addr(7000), addr(7001)]);
    assert!(t.parent.is_none());
    assert!(t.old_parent.is_none());
    assert!(!t.repairing);
    assert!(t.lost_at.is_none());
}

#[test]
fn unsubscribing_an_assigned_tree_keeps_its_parent() {
    let mut t = tree(true, true);
    t.parent = Some(link(7000));
    let quit = t.set_subscribed(false, Instant(5));
    assert!(quit.is_empty());
    assert!(t.parent.is_some());
    assert!(!t.subscribed);
}

#[test]
fn a_drain_from_the_parent_starts_warm_repair() {
    let mut t = tree(false, true);
    t.parent = Some(link(7000));
    assert!(!t.on_drain(addr(7001), false));
    assert!(!t.repairing);
    assert!(!t.on_drain(addr(7000), true));
    assert!(t.on_drain(addr(7000), false));
    assert!(t.repairing);
    assert!(t.parent.is_some());
}

fn record(id: u8, class: NodeClass, tree: u8) -> PeerRecord {
    let mut assigned = TreeSet::empty();
    assigned.insert(TreeId(tree));
    PeerRecord {
        node_id: NodeId([id; 32]),
        node_class: class,
        assigned_trees: assigned,
        flags: PeerFlags::public(),
        addr: addr(9000 + id as u16),
    }
}

#[test]
fn records_sort_by_node_id_bytes() {
    let mut a = record(1, NodeClass::Relay, 1);
    a.node_id.0[0] = 9;
    let mut b = record(1, NodeClass::Relay, 1);
    b.node_id.0[31] = 0;
    let c = record(5, NodeClass::Relay, 1);
    let sorted = sort_by_node_id(vec![a, c, b]);
    assert_eq!(sorted, vec![b, c, a]);
    assert_eq!(sort_by_node_id(vec![]), vec![]);
}

#[test]
fn candidates_skip_us_bad_peers_parents_and_children() {
    let me = NodeId([1; 32]);
    let pool = vec![
        record(9, NodeClass::Relay, 2),
        record(1, NodeClass::Relay, 2),
        record(3, NodeClass::Relay, 2),
        record(4, NodeClass::Relay, 2),
        record(5, NodeClass::Relay, 2),
        record(6, NodeClass::Leaf, 2),
        record(7, NodeClass::Relay, 3),
        record(2, NodeClass::Relay, 2),
    ];
    let bad = vec![NodeId([3; 32])];
    let parents = vec![NodeId([4; 32])];
    let children = vec![NodeId([5; 32])];
    let got = candidates_for(&pool, TreeId(2), &me, &bad, &parents, &children, None, false);
    assert_eq!(got, vec![record(2, NodeClass::Relay, 2), record(9, NodeClass::Relay, 2)]);
}

#[test]
fn symmetric_peers_are_never_candidates_and_the_source_always_relays() {
    let mut sym = record(2, NodeClass::Relay, 1);
    sym.flags.reachability = Reachability::Symmetric;
    let mut src = record(8, NodeClass::Relay, 5);
    src.flags.source = true;
    let parents = vec![NodeId([8; 32])];
    let got = candidates_for(&vec![sym, src], TreeId(1), &NodeId([0; 32]), &vec![], &parents, &vec![], None, true);
    assert_eq!(got, vec![src]);
}

#[test]
fn with_no_candidate_the_source_is_tried() {
    let mut src = record(8, NodeClass::Relay, 5);
    src.flags.source = true;
    let me = NodeId([0; 32]);
    let got = candidates_for(&vec![], TreeId(1), &me, &vec![], &vec![], &vec![], Some(src), true);
    assert_eq!(got, vec![src]);
    // Already our parent elsewhere while this tree has a parent: nothing.
    let got = candidates_for(&vec![], TreeId(1), &me, &vec![], &vec![src.node_id], &vec![], Some(src), true);
    assert!(got.is_empty());
    // This tree has none: try it anyway.
    let got = candidates_for(&vec![], TreeId(1), &me, &vec![], &vec![src.node_id], &vec![], Some(src), false);
    assert_eq!(got, vec![src]);
}

fn answer(state: ProbeTreeState, hop: u8, k: u16) -> Option<ProbeAnswer> {
    Some(ProbeAnswer { tree_state: state, hop, k_avail: k })
}

#[test]
fn a_probing_round_splits_by_state_depth_and_slots() {
    let answers = vec![
        answer(ProbeTreeState::Serving, 1, 2),
        None,
        answer(ProbeTreeState::Warming, 1, 4),
        answer(ProbeTreeState::Serving, 2, 0),
        answer(ProbeTreeState::Unparented, 0, 3),
        answer(ProbeTreeState::Serving, 8, 5),
        answer(ProbeTreeState::Serving, 3, 1),
    ];
    let r = split_round(&answers, 8, false);
    assert_eq!(r, RoundSplit { free: vec![0, 6], full: vec![], saw_warming: true, saturated_seen: 3 });
    let r = split_round(&answers, 8, true);
    assert_eq!(r.full, vec![3]);
    let r = split_round(&vec![None, None], 8, true);
    assert_eq!(r, RoundSplit { free: vec![], full: vec![], saw_warming: false, saturated_seen: 0 });
}

#[test]
fn attaching_sets_depth_and_keeps_a_draining_parent() {
    let mut t = tree(false, true);
    t.parent = Some(link(7000));
    t.repairing = true;
    let repair = t.attach(addr(7002), NodeId([4; 32]), 2, false, Duration::from_millis(40), Instant(10));
    assert!(repair);
    let p = t.parent.as_ref().expect("attached");
    assert_eq!(p.addr, addr(7002));
    assert_eq!(p.parent_depth, 2);
    assert_eq!(p.rttvar, Duration::from_millis(20));
    assert!(p.attached_as_repair);
    assert_eq!(t.depth, 3);
    assert_eq!(t.old_parent.as_ref().map(|o| o.addr), Some(addr(7000)));
    // A drain (no loss pending) ends with the attachment.
    assert!(!t.repairing);
}

#[test]
fn attaching_after_a_loss_keeps_the_repair_open_until_data_flows() {
    let mut t = tree(false, true);
    t.parent = Some(link(7000));
    let _ = t.lose_parent(Instant(5), false);
    assert!(t.repairing);
    let repair = t.attach(addr(7003), NodeId([5; 32]), 254, true, Duration::from_millis(10), Instant(9));
    assert!(repair);
    assert!(t.repairing);
    assert_eq!(t.depth, 255);
    assert!(t.old_parent.is_none());
    assert!(t.parent.as_ref().unwrap().pending);
}

#[test]
fn unshedding_climbs_one_layer_at_a_time_up_to_the_wanted_layer() {
    assert_eq!(unshed_target(0, Some(2), 4), Some(1));
    assert_eq!(unshed_target(1, Some(2), 4), Some(2));
    assert_eq!(unshed_target(2, Some(2), 4), None);
    assert_eq!(unshed_target(1, Some(9), 3), Some(2));
    assert_eq!(unshed_target(2, Some(9), 3), None);
    assert_eq!(unshed_target(0, None, 3), Some(1));
    assert_eq!(unshed_target(0, None, 0), None);
}

#[test]
fn a_join_runs_while_a_parent_is_missing_or_a_repair_is_open() {
    let mut t = tree(false, false);
    assert!(!t.needs_join());
    t.subscribed = true;
    assert!(t.needs_join());
    t.parent = Some(link(7000));
    assert!(!t.needs_join());
    t.repairing = true;
    assert!(t.needs_join());
}

#[test]
fn starved_trees_want_a_parent_have_none_and_failed_a_round() {
    let mut t1 = TreeState::new(TreeId(1));
    t1.subscribed = true;
    let mut t2 = TreeState::new(TreeId(2));
    t2.assigned = true;
    let mut t3 = TreeState::new(TreeId(3));
    t3.subscribed = true;
    t3.parent = Some(link(7000));
    let t4 = TreeState::new(TreeId(4));
    let trees = vec![t1, t2, t3, t4];
    let stats = vec![stats(1, false), stats(0, false), stats(3, false), stats(2, false)];
    let s = starved_trees(&trees, &stats);
    assert!(s.contains(TreeId(1)));
    assert!(!s.contains(TreeId(2)));
    assert!(!s.contains(TreeId(3)));
    assert!(!s.contains(TreeId(4)));
    assert_eq!(s, TreeSet(0b0000_0001));
}

#[test]
fn a_relay_is_assigned_its_rendezvous_tree_and_nothing_else() {
    let me = NodeId([42; 32]);
    let set = assigned_trees(&me, 4, NodeClass::Relay, false);
    let mine = assigned_tree(&me, 4);
    let mut want = TreeSet::empty();
    want.insert(mine);
    assert_eq!(set, want);
    assert_eq!(assigned_trees(&me, 4, NodeClass::Leaf, false), TreeSet::empty());
    assert_eq!(assigned_trees(&me, 4, NodeClass::Relay, true), TreeSet::empty());
}

#[test]
fn roles_follow_the_sets_and_feed_our_record() {
    let mut trees = vec![TreeState::new(TreeId(1)), TreeState::new(TreeId(2)), TreeState::new(TreeId(3))];
    let mut sub = TreeSet::empty();
    sub.insert(TreeId(1));
    sub.insert(TreeId(2));
    let mut asg = TreeSet::empty();
    asg.insert(TreeId(3));
    apply_roles(&mut trees, sub, asg);
    assert!(trees[0].subscribed && !trees[0].assigned);
    assert!(trees[1].subscribed && !trees[1].assigned);
    assert!(!trees[2].subscribed && trees[2].assigned);
    let r = own_record(NodeId([1; 32]), NodeClass::Relay, &trees, false, addr(5000));
    assert_eq!(r.assigned_trees, asg);
    assert!(!r.flags.source);
    assert_eq!(r.flags.reachability, Reachability::Public);
    assert_eq!(r.addr, addr(5000));
}

#[test]
fn pong_samples_smooth_the_parent_rtt() {
    let mut t = tree(false, true);
    t.parent = Some(link(7000));
    // srtt 20 ms, rttvar 5 ms; a 40 ms sample.
    t.rtt_sample(addr(7000), Duration::from_millis(40));
    let p = t.parent.as_ref().unwrap();
    assert_eq!(p.rttvar, Duration::from_micros((3 * 5_000 + 20_000) / 4));
    assert_eq!(p.srtt, Duration::from_micros((7 * 20_000 + 40_000) / 8));
    // A pong from someone else changes nothing.
    let before = (p.srtt, p.rttvar);
    t.rtt_sample(addr(7001), Duration::from_millis(400));
    let p = t.parent.as_ref().unwrap();
    assert_eq!((p.srtt, p.rttvar), before);
}

#[test]
fn probe_answers_describe_the_tree_or_nothing() {
    let mut t1 = TreeState::new(TreeId(1));
    t1.assigned = true;
    t1.k_v = 3;
    t1.parent = Some(link(7000));
    t1.depth = 2;
    t1.verified_segments = 4;
    t1.live_edge = SegmentSeq(9);
    let trees = vec![t1];
    assert_eq!(probe_view(&trees, TreeId(1), false), (3, 2, ProbeTreeState::Serving, SegmentSeq(9)));
    assert_eq!(probe_view(&trees, TreeId(2), false), (0, 255, ProbeTreeState::Unparented, SegmentSeq(0)));
    assert_eq!(probe_view(&trees, TreeId(0), true), (0, 255, ProbeTreeState::Unparented, SegmentSeq(0)));
}

fn child(port: u16) -> ChildLink {
    ChildLink {
        addr: addr(port),
        node_id: NodeId([port as u8; 32]),
        node_class: NodeClass::Relay,
        assigned_trees: TreeSet(1),
        last_tx: Instant(0),
        last_rx: Instant(0),
        admitted_at: Instant(0),
        parity: 1,
        draining_until: Some(SegmentSeq(4)),
        pending: false,
    }
}

#[test]
fn a_departed_parent_is_lost_and_a_departed_child_removed() {
    let mut t = tree(true, false);
    t.parent = Some(link(7000));
    t.old_parent = Some(link(7001));
    t.insert_child(child(7002));
    let left = t.peer_left(addr(7000), Instant(8), false);
    let (p, probe) = left.lost_parent.expect("parent lost");
    assert_eq!(p.addr, addr(7000));
    assert!(probe);
    assert!(left.removed_child.is_none());
    assert!(t.repairing);
    assert!(t.old_parent.is_some());

    let left = t.peer_left(addr(7001), Instant(9), false);
    assert!(left.lost_parent.is_none());
    assert!(t.old_parent.is_none());

    let left = t.peer_left(addr(7002), Instant(10), false);
    let c = left.removed_child.expect("child removed");
    assert_eq!(c.draining_until, Some(SegmentSeq(4)));
    assert!(t.children.is_empty());
}
