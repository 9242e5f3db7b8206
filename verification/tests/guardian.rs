//! Discovery guardian: registrations, queries, expiry and sampling.

use bitstream::crypto::identity::Identity;
use bitstream::crypto::pow::Difficulty;
use bitstream::peer::forest::PeerAddr;
use bitstream::peer::discovery::{PeerFlags, PeerRecord};
use bitstream::peer::guardian::{GetPeers, Guardian, RegisterPeer};
use bitstream::wire::{
    FrameType, IpAddress, NodeClass, NodeId, PublicKeyBytes, SignatureBytes, StreamId, TreeId, TreeSet,
    ValidationBlock, MAX_GET_PEERS_RECORDS,
};

const SECOND: u64 = 1_000_000;

fn ident(seed: u8) -> Identity {
    Identity::from_seed([seed; 32], Difficulty::testing()).expect("a nonce exists at test difficulty")
}

fn stream() -> StreamId {
    StreamId([9u8; 32])
}

fn addr(last: u8, port: u16) -> PeerAddr {
    PeerAddr { ip: IpAddress::V4([10, 0, 0, last]), port }
}

fn trees(ts: &[u8]) -> TreeSet {
    let mut s = TreeSet::empty();
    for t in ts {
        s.insert(TreeId(*t));
    }
    s
}

fn blank_validation() -> ValidationBlock {
    ValidationBlock {
        node_id: NodeId([0; 32]),
        public_key: PublicKeyBytes([0; 32]),
        static_nonce: 0,
        dynamic_nonce: 0,
        timestamp_us: 0,
        signature: SignatureBytes([0; 64]),
    }
}

/// A registration signed by `id`, proving the puzzle a guardian holding `held` peers asks.
fn register_frame(id: &Identity, stream_id: StreamId, from: PeerAddr, class: NodeClass, set: TreeSet, ts: u64, held: u32) -> RegisterPeer {
    let msg = RegisterPeer::signable_bytes(&stream_id, &id.node_id(), from.port, class, set, PeerFlags::public(), ts);
    let mut r = RegisterPeer {
        stream_id,
        port: from.port,
        node_class: class,
        assigned_trees: set,
        flags: PeerFlags::public(),
        signature: id.sign(&msg),
        validation: blank_validation(),
    };
    let c2 = Difficulty::testing().dynamic_accepted(held + 1, class, false);
    let nonce = id.solve_dynamic(from.ip, c2).expect("solvable");
    r.validation = id.validation_block(FrameType::register_peer(), nonce, ts, &r.body_bytes());
    r
}

/// A query signed by `id`.
fn query_frame(id: &Identity, stream_id: StreamId, from: PeerAddr, wanted: TreeSet, ts: u64, held: u32) -> GetPeers {
    let mut g = GetPeers {
        stream_id,
        starved_trees: TreeSet::empty(),
        wanted_trees: wanted,
        want_relay_capable: false,
        validation: blank_validation(),
    };
    let c2 = Difficulty::testing().dynamic_accepted(held + 1, NodeClass::Leaf, false);
    let nonce = id.solve_dynamic(from.ip, c2).expect("solvable");
    g.validation = id.validation_block(FrameType::get_peers(), nonce, ts, &g.body_bytes());
    g
}

fn guardian(ttl_us: u64) -> Guardian {
    Guardian::new(stream(), ident(200).node_id(), Difficulty::testing(), ttl_us, 7)
}

#[test]
fn registered_peer_is_offered_at_its_observed_address() {
    let mut g = guardian(30 * SECOND);
    let a = ident(1);
    let from = addr(5, 4000);
    let r = register_frame(&a, stream(), from, NodeClass::Relay, trees(&[1]), 0, 0);
    assert!(g.handle_register(from, &r, 0));
    assert_eq!(g.len(), 1);
    assert_eq!(g.registrations(), 1);

    let b = ident(2);
    let q = query_frame(&b, stream(), addr(6, 5000), TreeSet::empty(), SECOND, 1);
    let resp = g.handle_get_peers(addr(6, 5000), &q, SECOND).expect("answered");
    assert_eq!(g.queries(), 1);
    assert_eq!(resp.guardian, ident(200).node_id());
    assert!(!resp.sampled);
    assert_eq!(
        resp.records,
        vec![PeerRecord {
            node_id: a.node_id(),
            node_class: NodeClass::Relay,
            assigned_trees: trees(&[1]),
            flags: PeerFlags::public(),
            addr: from,
        }]
    );
    assert!(resp.stream_record.is_none());
}

#[test]
fn registration_for_another_stream_is_refused() {
    let mut g = guardian(30 * SECOND);
    let a = ident(1);
    let r = register_frame(&a, StreamId([1u8; 32]), addr(5, 4000), NodeClass::Relay, trees(&[1]), 0, 0);
    assert!(!g.handle_register(addr(5, 4000), &r, 0));
    assert!(g.is_empty());
    assert_eq!(g.registrations(), 0);
}

#[test]
fn registration_with_a_forged_signature_is_refused() {
    let mut g = guardian(30 * SECOND);
    let a = ident(1);
    let mut r = register_frame(&a, stream(), addr(5, 4000), NodeClass::Relay, trees(&[1]), 0, 0);
    // A different port than the one signed.
    r.port = 4001;
    assert!(!g.handle_register(addr(5, 4001), &r, 0));
    assert!(g.is_empty());
}

#[test]
fn reregistration_refreshes_one_entry() {
    let mut g = guardian(30 * SECOND);
    let a = ident(1);
    let r1 = register_frame(&a, stream(), addr(5, 4000), NodeClass::Relay, trees(&[1]), 0, 0);
    assert!(g.handle_register(addr(5, 4000), &r1, 0));
    let r2 = register_frame(&a, stream(), addr(5, 4002), NodeClass::Relay, trees(&[2]), 10, 1);
    assert!(g.handle_register(addr(5, 4002), &r2, 10));
    assert_eq!(g.len(), 1);
    assert_eq!(g.registrations(), 2);
    let q = query_frame(&ident(2), stream(), addr(6, 5000), TreeSet::empty(), 20, 1);
    let resp = g.handle_get_peers(addr(6, 5000), &q, 20).expect("answered");
    assert_eq!(resp.records.len(), 1);
    assert_eq!(resp.records[0].addr.port, 4002);
    assert_eq!(resp.records[0].assigned_trees, trees(&[2]));
}

#[test]
fn the_asker_is_never_offered_itself() {
    let mut g = guardian(30 * SECOND);
    let a = ident(1);
    let r = register_frame(&a, stream(), addr(5, 4000), NodeClass::Relay, trees(&[1]), 0, 0);
    assert!(g.handle_register(addr(5, 4000), &r, 0));
    let q = query_frame(&a, stream(), addr(5, 4000), TreeSet::empty(), 5, 1);
    let resp = g.handle_get_peers(addr(5, 4000), &q, 5).expect("answered");
    assert!(resp.records.is_empty());
}

#[test]
fn wanted_trees_select_relays_of_those_trees() {
    let mut g = guardian(30 * SECOND);
    let relay1 = PeerRecord {
        node_id: NodeId([1; 32]),
        node_class: NodeClass::Relay,
        assigned_trees: trees(&[1]),
        flags: PeerFlags::public(),
        addr: addr(1, 1),
    };
    let leaf1 = PeerRecord { node_id: NodeId([2; 32]), node_class: NodeClass::Leaf, ..relay1 };
    let relay2 = PeerRecord { node_id: NodeId([3; 32]), assigned_trees: trees(&[2]), ..relay1 };
    g.register_local(relay1, 0);
    g.register_local(leaf1, 0);
    g.register_local(relay2, 0);
    assert_eq!(g.len(), 3);
    let q = query_frame(&ident(4), stream(), addr(6, 5000), trees(&[1]), 1, 3);
    let resp = g.handle_get_peers(addr(6, 5000), &q, 1).expect("answered");
    assert_eq!(resp.records, vec![relay1]);

    let q = query_frame(&ident(4), stream(), addr(6, 5000), TreeSet::empty(), 2, 3);
    let resp = g.handle_get_peers(addr(6, 5000), &q, 2).expect("answered");
    assert_eq!(resp.records.len(), 3);
    for r in [relay1, leaf1, relay2] {
        assert!(resp.records.contains(&r));
    }
}

#[test]
fn stale_registrations_are_dropped_before_answering() {
    let mut g = guardian(SECOND);
    let a = ident(1);
    let r = register_frame(&a, stream(), addr(5, 4000), NodeClass::Relay, trees(&[1]), 0, 0);
    assert!(g.handle_register(addr(5, 4000), &r, 0));
    let q = query_frame(&ident(2), stream(), addr(6, 5000), TreeSet::empty(), 2 * SECOND, 1);
    let resp = g.handle_get_peers(addr(6, 5000), &q, 2 * SECOND).expect("answered");
    assert!(resp.records.is_empty());
    assert!(g.is_empty());
}

#[test]
fn a_registration_just_inside_the_ttl_survives() {
    let mut g = guardian(SECOND);
    let a = ident(1);
    let r = register_frame(&a, stream(), addr(5, 4000), NodeClass::Relay, trees(&[1]), 0, 0);
    assert!(g.handle_register(addr(5, 4000), &r, 0));
    let q = query_frame(&ident(2), stream(), addr(6, 5000), TreeSet::empty(), SECOND - 1, 1);
    let resp = g.handle_get_peers(addr(6, 5000), &q, SECOND - 1).expect("answered");
    assert_eq!(resp.records.len(), 1);
    let q = query_frame(&ident(2), stream(), addr(6, 5000), TreeSet::empty(), SECOND, 1);
    let resp = g.handle_get_peers(addr(6, 5000), &q, SECOND).expect("answered");
    assert!(resp.records.is_empty());
}

#[test]
fn answers_are_capped_and_distinct() {
    let mut g = guardian(30 * SECOND);
    for i in 0..40u8 {
        g.register_local(
            PeerRecord {
                node_id: NodeId([i + 1; 32]),
                node_class: NodeClass::Relay,
                assigned_trees: trees(&[1]),
                flags: PeerFlags::public(),
                addr: addr(i, 1000),
            },
            0,
        );
    }
    assert_eq!(g.len(), 40);
    let q = query_frame(&ident(250), stream(), addr(6, 5000), TreeSet::empty(), 1, 40);
    let resp = g.handle_get_peers(addr(6, 5000), &q, 1).expect("answered");
    assert_eq!(resp.records.len(), MAX_GET_PEERS_RECORDS);
    let mut ids: Vec<[u8; 32]> = resp.records.iter().map(|r| r.node_id.0).collect();
    ids.sort();
    ids.dedup();
    assert_eq!(ids.len(), MAX_GET_PEERS_RECORDS);
}

#[test]
fn unsigned_query_is_not_answered() {
    let mut g = guardian(30 * SECOND);
    g.register_local(
        PeerRecord {
            node_id: NodeId([1; 32]),
            node_class: NodeClass::Relay,
            assigned_trees: trees(&[1]),
            flags: PeerFlags::public(),
            addr: addr(1, 1),
        },
        0,
    );
    let mut q = query_frame(&ident(2), stream(), addr(6, 5000), TreeSet::empty(), 1, 1);
    q.wanted_trees = trees(&[3]);
    assert!(g.handle_get_peers(addr(6, 5000), &q, 1).is_none());
    assert_eq!(g.queries(), 0);
    let q = query_frame(&ident(2), StreamId([0; 32]), addr(6, 5000), TreeSet::empty(), 1, 1);
    assert!(g.handle_get_peers(addr(6, 5000), &q, 1).is_none());
}
