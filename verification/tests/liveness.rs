//! One liveness sweep over a node's trees.

use bitstream::peer::forest::{ChildLink, ParentLink, PeerAddr, TreeState};
use bitstream::peer::liveness::liveness_sweep;
use bitstream::peer::params::Params;
use bitstream::time::{Duration, Instant};
use bitstream::wire::{IpAddress, NodeClass, NodeId, SegmentSeq, TreeId, TreeSet};

fn addr(port: u16) -> PeerAddr {
    PeerAddr { ip: IpAddress::V4([10, 0, 0, 4]), port }
}

fn ms(v: u64) -> Instant {
    Instant(v * 1000)
}

fn parent(port: u16, last_rx: Instant) -> ParentLink {
    ParentLink {
        addr: addr(port),
        node_id: NodeId([2; 32]),
        parent_depth: 0,
        last_rx,
        pinged: false,
        srtt: Duration::from_millis(20),
        rttvar: Duration::from_millis(5),
        attached_at: Instant(0),
        first_block_at: None,
        pending: false,
        rejected_blocks: 0,
        attached_as_repair: false,
    }
}

fn child(port: u16, last_tx: Instant, draining_until: Option<u32>) -> ChildLink {
    ChildLink {
        addr: addr(port),
        node_id: NodeId([port as u8; 32]),
        node_class: NodeClass::Relay,
        assigned_trees: TreeSet(3),
        last_tx,
        last_rx: Instant(0),
        admitted_at: Instant(0),
        parity: 1,
        draining_until: draining_until.map(SegmentSeq),
        pending: false,
    }
}

fn trees() -> Vec<TreeState> {
    let mut t1 = TreeState::new(TreeId(1));
    let mut t2 = TreeState::new(TreeId(2));
    // Silent 200 ms: past τ_ping, within its eviction timeout of 240 ms.
    t1.parent = Some(parent(1, ms(100)));
    // Silent 300 ms: past the eviction timeout.
    t2.parent = Some(parent(2, ms(0)));
    t1.insert_child(child(9100, ms(0), Some(4)));
    t1.insert_child(child(9101, ms(0), None));
    t1.insert_child(child(9102, ms(250), None));
    t2.insert_child(child(9101, ms(0), None));
    t2.insert_child(child(9103, ms(0), None));
    vec![t1, t2]
}

#[test]
fn a_sweep_pings_evicts_releases_drains_and_heartbeats_once_per_address() {
    let mut ts = trees();
    let p = Params::default();
    let s = liveness_sweep(&mut ts, &p, SegmentSeq(5), ms(300));
    assert_eq!(s.ping, vec![addr(1)]);
    assert_eq!(s.evict, vec![TreeId(2)]);
    assert_eq!(s.expired.len(), 1);
    assert_eq!(s.expired[0].0, TreeId(1));
    assert_eq!(s.expired[0].1.addr, addr(9100));
    assert_eq!(s.heartbeats, vec![(TreeId(1), addr(9101)), (TreeId(2), addr(9103))]);

    assert!(ts[0].parent.as_ref().unwrap().pinged);
    assert!(!ts[1].parent.as_ref().unwrap().pinged);
    let kids: Vec<(PeerAddr, Instant)> = ts[0].children.iter().map(|c| (c.addr, c.last_tx)).collect();
    assert_eq!(kids, vec![(addr(9101), ms(300)), (addr(9102), ms(250))]);
    let kids: Vec<(PeerAddr, Instant)> = ts[1].children.iter().map(|c| (c.addr, c.last_tx)).collect();
    assert_eq!(kids, vec![(addr(9101), ms(300)), (addr(9103), ms(300))]);
}

#[test]
fn a_second_sweep_does_not_ping_the_same_silence_again() {
    let mut ts = trees();
    let p = Params::default();
    let _ = liveness_sweep(&mut ts, &p, SegmentSeq(5), ms(300));
    let s = liveness_sweep(&mut ts, &p, SegmentSeq(5), ms(310));
    assert!(s.ping.is_empty());
    assert_eq!(s.evict, vec![TreeId(2)]);
    assert!(s.expired.is_empty());
    assert!(s.heartbeats.is_empty());
}

#[test]
fn a_drain_before_its_deadline_stays() {
    let mut ts = trees();
    let p = Params::default();
    let s = liveness_sweep(&mut ts, &p, SegmentSeq(3), ms(300));
    assert!(s.expired.is_empty());
    assert_eq!(ts[0].children.len(), 3);
    // The draining child is still due a heartbeat.
    assert_eq!(s.heartbeats, vec![(TreeId(1), addr(9100)), (TreeId(1), addr(9101)), (TreeId(2), addr(9103))]);
}
