//! Identity, proof-of-work, Merkle, rendezvous and signature behaviour.

use bitstream::crypto::cert::{peer_identity, CertError};
use bitstream::crypto::identity::{node_seed, Identity};
use bitstream::peer::publisher::publisher_stream_id;
use bitstream::crypto::merkle::{hash_block, MerkleTree};
use bitstream::crypto::pow::{self, Difficulty};
use bitstream::crypto::rendezvous;
use bitstream::crypto::signing::{CryptoError, Signer, Verifier};
use bitstream::crypto::{blake3_hash, digest_hex, leading_zero_bits, stream_id, xor_distance};
use bitstream::wire::{FrameType, IpAddress, NodeClass};

fn ident(seed: u8) -> Identity {
    Identity::from_seed([seed; 32], Difficulty::testing()).expect("a nonce exists at test difficulty")
}

#[test]
fn static_puzzle_mints_node_id() {
    let id = ident(1);
    assert!(pow::verify_static(&id.public_key(), id.static_nonce(), &id.node_id(), Difficulty::testing().c1).is_ok());
    assert!(leading_zero_bits(&id.node_id().0) >= Difficulty::testing().c1);
    assert!(pow::verify_static(&id.public_key(), id.static_nonce() + 1, &id.node_id(), 1).is_err());
}

#[test]
fn dynamic_puzzle_is_ip_bound() {
    let id = ident(2);
    let ip = IpAddress::V4([203, 0, 113, 9]);
    let nonce = id.solve_dynamic(ip, 6).expect("solvable");
    assert!(pow::verify_dynamic(&id.node_id(), ip, nonce, 6).is_ok());
    let other = IpAddress::V4([203, 0, 113, 10]);
    let mut fails = 0;
    for n in nonce..nonce + 64 {
        if pow::verify_dynamic(&id.node_id(), other, n, 6).is_err() {
            fails += 1;
        }
    }
    assert!(fails > 50);
}

#[test]
fn dynamic_tiers() {
    assert_eq!(Difficulty::dynamic_tier(2), 8);
    assert_eq!(Difficulty::dynamic_tier(49), 8);
    assert_eq!(Difficulty::dynamic_tier(50), 10);
    assert_eq!(Difficulty::dynamic_tier(999), 10);
    assert_eq!(Difficulty::dynamic_tier(1000), 12);
    assert_eq!(Difficulty::dynamic_tier(99_999), 12);
    assert_eq!(Difficulty::dynamic_tier(100_000), 14);
    assert_eq!(Difficulty::dynamic_tier(1_000_000), 14);
}

#[test]
fn discounts_are_alternatives_not_addends() {
    let d = Difficulty::specification();
    assert_eq!(d.dynamic_required(1_000_000, NodeClass::Relay, false), 14);
    assert_eq!(d.dynamic_required(1_000_000, NodeClass::Leaf, false), 12);
    assert_eq!(d.dynamic_required(1_000_000, NodeClass::Relay, true), 8);
    assert_eq!(d.dynamic_required(1_000_000, NodeClass::Leaf, true), 8);
    assert_eq!(d.dynamic_accepted(1_000_000, NodeClass::Relay, false), 12);
    assert_eq!(d.dynamic_accepted(1_000_000, NodeClass::Leaf, false), 10);
    assert_eq!(d.dynamic_accepted(1_000_000, NodeClass::Leaf, true), 8);
    assert_eq!(d.dynamic_required(2, NodeClass::Leaf, true), 8);
}

#[test]
fn validation_block_roundtrip_and_type_binding() {
    let id = ident(3);
    let ip = IpAddress::V4([198, 51, 100, 4]);
    let dyn_nonce = id.solve_dynamic(ip, 4).expect("solvable");
    let body = [0xABu8; 32];
    let vb = id.validation_block(FrameType::ping(), dyn_nonce, 1_700_000_000_000_000, &body);
    assert!(Identity::verify_validation_block(&vb, FrameType::ping(), &body, ip, Difficulty::testing(), 4).is_ok());
    assert!(matches!(
        Identity::verify_validation_block(&vb, FrameType::probe(), &body, ip, Difficulty::testing(), 4),
        Err(CryptoError::BadSignature)
    ));
    let mut tampered = body;
    tampered[0] ^= 1;
    assert!(Identity::verify_validation_block(&vb, FrameType::ping(), &tampered, ip, Difficulty::testing(), 4).is_err());
    assert_eq!(vb.to_vec().len(), 152);
}

#[test]
fn merkle_proofs() {
    let blocks: Vec<Vec<u8>> = (0..12u8).map(|i| vec![i; 16 * 1024]).collect();
    let tree = MerkleTree::from_blocks(&blocks);
    assert_eq!(tree.leaf_count(), 12);
    assert_eq!(tree.depth(), 4, "12 blocks pad to 16 leaves → 4 levels");
    for (i, b) in blocks.iter().enumerate() {
        let proof = tree.sibling_path(i);
        assert_eq!(proof.len(), 4);
        assert!(MerkleTree::verify_block(&tree.root(), b, i, &proof).is_ok());
        let mut bad = b.clone();
        bad[100] ^= 0xFF;
        assert!(MerkleTree::verify_block(&tree.root(), &bad, i, &proof).is_err());
        assert!(MerkleTree::verify_block(&tree.root(), b, (i + 1) % 12, &proof).is_err());
    }
    let first_four: Vec<Vec<u8>> = blocks[..4].to_vec();
    let four = MerkleTree::from_blocks(&first_four);
    let p0 = four.sibling_path(0);
    assert_eq!(p0[0], hash_block(&blocks[1]), "first sibling is h_1");
    let one: Vec<Vec<u8>> = vec![blocks[0].clone()];
    let single = MerkleTree::from_blocks(&one);
    assert_eq!(single.depth(), 0);
    assert_eq!(single.root(), hash_block(&blocks[0]));
}

#[test]
fn rendezvous_assignment() {
    let id = ident(4).node_id();
    let rank = rendezvous::rendezvous_rank(&id, 6);
    assert_eq!(rank.len(), 6);
    let mut sorted = rank.iter().map(|t| t.0).collect::<Vec<_>>();
    sorted.sort();
    assert_eq!(sorted, vec![1, 2, 3, 4, 5, 6]);
    assert_eq!(rendezvous::assigned_tree(&id, 6), rank[0]);
    assert_eq!(rendezvous::assigned_tree(&id, 6), rendezvous::assigned_tree(&id, 6));
}

#[test]
fn stream_id_derivation() {
    let id = ident(5);
    let sid = stream_id(&id.public_key());
    assert_eq!(&sid.0, blake3::hash(&id.public_key().0).as_bytes());
}

#[test]
fn sign_verify() {
    let id = ident(6);
    let msg = b"manifest body bytes";
    let sig = id.sign(msg);
    assert!(Verifier::verify(&id.public_key(), msg, &sig).is_ok());
    assert!(Verifier::verify(&id.public_key(), b"other", &sig).is_err());
    assert!(Verifier::verify(&ident(7).public_key(), msg, &sig).is_err());
}

#[test]
fn xor_distance_and_leading_zeros() {
    let a = [0xFFu8; 32];
    let mut b = [0xFFu8; 32];
    b[31] = 0x0F;
    let d = xor_distance(&a, &b);
    assert_eq!(d[31], 0xF0);
    assert!(d[..31].iter().all(|x| *x == 0));
    assert_eq!(leading_zero_bits(&d), 31 * 8);
    let mut e = [0u8; 32];
    e[0] = 0x10;
    assert_eq!(leading_zero_bits(&e), 3);
    assert_eq!(leading_zero_bits(&[0u8; 32]), 256);
}

#[test]
fn blake3_wrapper_hashes_its_input() {
    let h = blake3_hash(b"abc");
    assert_eq!(&h.0, blake3::hash(b"abc").as_bytes());
    assert_ne!(h.0, [0u8; 32]);
    assert_eq!(hash_block(b"abc"), h);
}

#[test]
fn scale_cap_and_static_hash() {
    assert_eq!(Difficulty::testing().scale_cap(), 4);
    assert_eq!(Difficulty::specification().scale_cap(), u32::MAX);
    let id = ident(8);
    let h = pow::static_hash(&id.public_key(), id.static_nonce());
    assert_eq!(h, id.node_id().0);
}

#[test]
fn node_seed_layout() {
    let s = node_seed(0x0102_0304_0506_0708, 0x1234);
    let mut want = [0u8; 32];
    want[..8].copy_from_slice(&[8, 7, 6, 5, 4, 3, 2, 1]);
    want[8..16].copy_from_slice(&[0x34, 0x12, 0x34, 0x12, 0x34, 0x12, 0x34, 0x12]);
    assert_eq!(s, want);
}

#[test]
fn publisher_stream_id_follows_from_seed_and_port() {
    let id = Identity::from_seed(node_seed(7, 4000), Difficulty::testing()).expect("a nonce exists");
    assert_eq!(publisher_stream_id(7, 4000, false), Some(stream_id(&id.public_key())));
    assert_ne!(publisher_stream_id(7, 4001, false), publisher_stream_id(7, 4000, false));
}

#[test]
fn growing_the_forest_moves_relays_only_onto_the_new_tree() {
    for seed in 0..64u8 {
        let node = bitstream::wire::NodeId([seed; 32]);
        for m in 1..8u8 {
            let before = rendezvous::assigned_tree(&node, m);
            let after = rendezvous::assigned_tree(&node, m + 1);
            assert!(after == before || after.0 == m + 1);
        }
    }
}

#[test]
fn digest_hex_is_the_lower_case_blake3_of_the_cut_bytes() {
    assert_eq!(digest_hex(b"abc", None), "6437b3ac38465133ffb63b75273a8db548c558465d79db03fd359c6cd5bd9d85");
    assert_eq!(digest_hex(b"abcdef", Some(3)), digest_hex(b"abc", None));
    assert_eq!(digest_hex(b"abc", Some(10)), digest_hex(b"abc", None));
    assert_eq!(digest_hex(b"abc", Some(0)), hex::encode(blake3::hash(b"").as_bytes()));
    let data: Vec<u8> = (0..5000u32).map(|i| (i * 7) as u8).collect();
    assert_eq!(digest_hex(&data, Some(4096)), hex::encode(blake3::hash(&data[..4096]).as_bytes()));
    assert_eq!(digest_hex(&data, None).len(), 64);
}

fn san(id: &Identity) -> String {
    format!("bitstream://{}/{}", hex::encode(id.node_id().0), id.static_nonce())
}

#[test]
fn a_certificate_binds_the_key_to_its_node_id() {
    let id = ident(3);
    let c1 = Difficulty::testing().c1;
    let key = id.public_key().0.to_vec();
    let uris = vec!["https://example.org/".to_string(), san(&id)];
    let p = peer_identity(&key, &uris, c1).expect("valid identity");
    assert_eq!(p.node_id, id.node_id());
    assert_eq!(p.public_key, id.public_key());
    assert_eq!(p.static_nonce, id.static_nonce());
    // Upper-case hex and a trailing path segment are read the same way.
    let upper = format!("bitstream://{}/{}/extra", hex::encode_upper(id.node_id().0), id.static_nonce());
    assert_eq!(peer_identity(&key, &vec![upper], c1), Ok(p));
}

#[test]
fn a_certificate_is_refused_for_each_fault() {
    let id = ident(4);
    let other = ident(5);
    let c1 = Difficulty::testing().c1;
    let key = id.public_key().0.to_vec();
    assert_eq!(peer_identity(&key[..31], &vec![san(&id)], c1), Err(CertError::KeyLength));
    assert_eq!(peer_identity(&key, &vec![], c1), Err(CertError::NoBitstreamSan));
    assert_eq!(peer_identity(&key, &vec!["bitstream://abcd".to_string()], c1), Err(CertError::SanNonce));
    assert_eq!(peer_identity(&key, &vec!["bitstream://abcd/x1".to_string()], c1), Err(CertError::SanNonce));
    assert_eq!(peer_identity(&key, &vec!["bitstream://abc/1".to_string()], c1), Err(CertError::SanId));
    assert_eq!(peer_identity(&key, &vec!["bitstream://zz/1".to_string()], c1), Err(CertError::SanId));
    assert_eq!(peer_identity(&key, &vec!["bitstream://abcd/1".to_string()], c1), Err(CertError::SanIdLength));
    // Another node's identity does not match this key.
    assert_eq!(peer_identity(&key, &vec![san(&other)], c1), Err(CertError::IdentityPow));
    // The first unreadable URI refuses the certificate, even before a good one.
    assert_eq!(peer_identity(&key, &vec!["bitstream://abcd".to_string(), san(&id)], c1), Err(CertError::SanNonce));
    // The last readable URI counts.
    assert_eq!(peer_identity(&key, &vec![san(&id), san(&other)], c1), Err(CertError::IdentityPow));
    assert!(peer_identity(&key, &vec![san(&other), san(&id)], c1).is_ok());
}

fn sign_with<S: Signer>(s: &S, message: &[u8]) -> (bitstream::wire::SignatureBytes, bitstream::wire::PublicKeyBytes) {
    (s.sign(message), s.public_key())
}

#[test]
fn an_identity_signs_through_the_signer_interface() {
    let id = ident(6);
    let (sig, pk) = sign_with(&id, b"manifest");
    assert_eq!(sig, id.sign(b"manifest"));
    assert_eq!(pk, id.public_key());
    assert!(Verifier::verify(&pk, b"manifest", &sig).is_ok());
    assert_eq!(Verifier::verify(&pk, b"other", &sig), Err(CryptoError::BadSignature));
}
