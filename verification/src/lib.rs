//! BitStream: the verified core of a tokenless peer-to-peer live-video protocol.
//!
//! Module map:
//! * [`time`] — virtual time.
//! * [`wire`] — identifiers, constants and the byte layouts the logic signs and hashes.
//! * [`crypto`] — Blake3 digests, proof-of-work, Merkle trees, rendezvous assignment, signatures.
//! * [`media`] — layer ladder, tree mapping, chunking, FEC bookkeeping, sources and sinks.
//! * [`ingest`] — TLV records and the ISO BMFF box splitter.
//! * [`peer`] — protocol parameters, per-tree state, parent selection, discovery,
//!   the swarm buffer, the publisher and the forest's structural checks.
//! * [`config`] — ladder specs and scenario layer lists.
//! * [`player`] — the binary frames a local player page is sent.
#![allow(unused_imports)]

pub mod time;
pub mod wire;
pub mod crypto;
pub mod media;
pub mod ingest;
pub mod peer;
pub mod config;
pub mod player;
