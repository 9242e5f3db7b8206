//! Peer flags, eligibility and the simulation oracle.

use bitstream::peer::discovery::{eligible_records, sample_records, Oracle, PeerFlags, PeerRecord, Reachability};
use bitstream::peer::forest::PeerAddr;
use bitstream::wire::{IpAddress, NodeClass, NodeId, TreeId, TreeSet, MAX_GET_PEERS_RECORDS};
use rand::SeedableRng;
use rand_chacha::ChaCha8Rng;

fn trees(ts: &[u8]) -> TreeSet {
    let mut s = TreeSet::empty();
    for t in ts {
        s.insert(TreeId(*t));
    }
    s
}

fn rec(id: u8, class: NodeClass, ts: &[u8]) -> PeerRecord {
    PeerRecord {
        node_id: NodeId([id; 32]),
        node_class: class,
        assigned_trees: trees(ts),
        flags: PeerFlags::public(),
        addr: PeerAddr { ip: IpAddress::V4([10, 0, 1, id]), port: 9000 },
    }
}

#[test]
fn flags_byte_layout() {
    assert_eq!(PeerFlags::public().to_byte(), 0);
    assert_eq!(PeerFlags { source: true, reachability: Reachability::Public }.to_byte(), 1);
    assert_eq!(PeerFlags { source: false, reachability: Reachability::Restricted }.to_byte(), 2);
    assert_eq!(PeerFlags { source: true, reachability: Reachability::Symmetric }.to_byte(), 5);
}

#[test]
fn eligibility_keeps_order_and_drops_the_asker() {
    let pool = vec![rec(1, NodeClass::Relay, &[1]), rec(2, NodeClass::Leaf, &[1]), rec(3, NodeClass::Relay, &[2])];
    assert_eq!(eligible_records(&pool, &NodeId([2; 32]), TreeSet::empty()), vec![pool[0], pool[2]]);
    assert_eq!(eligible_records(&pool, &NodeId([9; 32]), trees(&[2])), vec![pool[2]]);
    assert_eq!(eligible_records(&pool, &NodeId([9; 32]), trees(&[1, 2])), vec![pool[0], pool[2]]);
    assert!(eligible_records(&pool, &NodeId([9; 32]), trees(&[3])).is_empty());
}

#[test]
fn a_sample_is_a_capped_permutation() {
    let mut rng = ChaCha8Rng::seed_from_u64(3);
    let pool: Vec<PeerRecord> = (1..=5u8).map(|i| rec(i, NodeClass::Relay, &[1])).collect();
    let mut s = sample_records(&mut rng, pool.clone());
    s.sort_by_key(|r| r.node_id.0);
    assert_eq!(s, pool);

    let big: Vec<PeerRecord> = (1..=50u8).map(|i| rec(i, NodeClass::Relay, &[1])).collect();
    let s = sample_records(&mut rng, big.clone());
    assert_eq!(s.len(), MAX_GET_PEERS_RECORDS);
    for r in &s {
        assert!(big.contains(r));
    }
}

#[test]
fn oracle_registers_refreshes_and_removes() {
    let mut o = Oracle::new();
    let mut rng = ChaCha8Rng::seed_from_u64(1);
    o.register(rec(1, NodeClass::Relay, &[1]));
    o.register(rec(2, NodeClass::Relay, &[2]));
    o.register(rec(1, NodeClass::Relay, &[3]));
    let mut got = o.get_peers(&mut rng, &NodeId([7; 32]), TreeSet::empty());
    got.sort_by_key(|r| r.node_id.0);
    assert_eq!(got, vec![rec(1, NodeClass::Relay, &[3]), rec(2, NodeClass::Relay, &[2])]);
    assert_eq!(o.queries(), 1);

    o.remove(&NodeId([1; 32]));
    let got = o.get_peers(&mut rng, &NodeId([7; 32]), TreeSet::empty());
    assert_eq!(got, vec![rec(2, NodeClass::Relay, &[2])]);
    o.remove(&NodeId([1; 32]));
    assert_eq!(o.get_peers(&mut rng, &NodeId([2; 32]), TreeSet::empty()), vec![]);
    assert_eq!(o.queries(), 3);
    assert!(o.stream_record().is_none());
}

#[test]
fn oracle_filters_by_wanted_trees() {
    let mut o = Oracle::default();
    let mut rng = ChaCha8Rng::seed_from_u64(2);
    o.register(rec(1, NodeClass::Relay, &[1]));
    o.register(rec(2, NodeClass::Leaf, &[1]));
    o.register(rec(3, NodeClass::Relay, &[2]));
    assert_eq!(o.get_peers(&mut rng, &NodeId([9; 32]), trees(&[1])), vec![rec(1, NodeClass::Relay, &[1])]);
    assert_eq!(o.get_peers(&mut rng, &NodeId([1; 32]), trees(&[1])), vec![]);
}
