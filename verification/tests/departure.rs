//! A peer leaving our trees.

use bitstream::peer::departure::peer_gone;
use bitstream::peer::forest::{ChildLink, ParentLink, PeerAddr, TreeState};
use bitstream::time::{Duration, Instant};
use bitstream::wire::{IpAddress, NodeClass, NodeId, SegmentSeq, TreeId, TreeSet};

fn addr(port: u16) -> PeerAddr {
    PeerAddr { ip: IpAddress::V4([10, 0, 0, 5]), port }
}

fn parent(port: u16) -> ParentLink {
    ParentLink {
        addr: addr(port),
        node_id: NodeId([7; 32]),
        parent_depth: 0,
        last_rx: Instant(0),
        pinged: false,
        srtt: Duration::from_millis(20),
        rttvar: Duration::from_millis(5),
        attached_at: Instant(0),
        first_block_at: None,
        pending: false,
        rejected_blocks: 0,
        attached_as_repair: false,
    }
}

fn child(port: u16, draining: bool, pending: bool) -> ChildLink {
    ChildLink {
        addr: addr(port),
        node_id: NodeId([port as u8; 32]),
        node_class: NodeClass::Relay,
        assigned_trees: TreeSet(3),
        last_tx: Instant(0),
        last_rx: Instant(0),
        admitted_at: Instant(0),
        parity: 1,
        draining_until: if draining { Some(SegmentSeq(9)) } else { None },
        pending,
    }
}

/// The peer at 5 is our parent in tree 1 and a draining child in tree 2,
/// where the peer at 6 waits for its slot.
fn trees() -> Vec<TreeState> {
    let mut t1 = TreeState::new(TreeId(1));
    t1.subscribed = true;
    t1.depth = 1;
    t1.parent = Some(parent(5));
    let mut t2 = TreeState::new(TreeId(2));
    t2.assigned = true;
    t2.insert_child(child(5, true, false));
    t2.insert_child(child(6, false, true));
    vec![t1, t2]
}

#[test]
fn a_departed_peer_leaves_every_tree() {
    let mut ts = trees();
    let r = peer_gone(&mut ts, addr(5), None, Instant(40), false);
    assert_eq!(r.len(), 2);
    let (p, probe) = r[0].left.lost_parent.clone().expect("parent lost");
    assert_eq!(p.addr, addr(5));
    assert!(probe);
    assert!(ts[0].parent.is_none());
    assert_eq!(ts[0].depth, 255);
    assert_eq!(ts[0].lost_at, Some(Instant(40)));
    assert!(r[0].left.removed_child.is_none());
    assert_eq!(r[1].left.removed_child.as_ref().map(|c| c.addr), Some(addr(5)));
    assert_eq!(r[1].released, Some(addr(6)));
    assert_eq!(ts[1].children.len(), 1);
    assert_eq!(ts[1].children[0].addr, addr(6));
    assert!(!ts[1].children[0].pending);
}

#[test]
fn a_scoped_notice_touches_one_tree() {
    let mut ts = trees();
    let r = peer_gone(&mut ts, addr(5), Some(TreeId(2)), Instant(40), false);
    assert!(r[0].left.lost_parent.is_none());
    assert!(ts[0].parent.is_some());
    assert_eq!(r[1].released, Some(addr(6)));
}

#[test]
fn a_departing_served_child_frees_no_pending_slot() {
    let mut ts = trees();
    ts[1].insert_child(child(7, false, false));
    let r = peer_gone(&mut ts, addr(7), None, Instant(40), true);
    assert_eq!(r[1].left.removed_child.as_ref().map(|c| c.addr), Some(addr(7)));
    assert!(r[1].released.is_none());
    assert!(ts[1].children[1].pending);
}

#[test]
fn an_ending_stream_does_not_probe_for_a_lost_parent() {
    let mut ts = trees();
    let r = peer_gone(&mut ts, addr(5), None, Instant(40), true);
    let (_, probe) = r[0].left.lost_parent.clone().unwrap();
    assert!(!probe);
}
