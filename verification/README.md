# bitstream

The verified core of BitStream, a tokenless peer-to-peer live-video protocol:
identities minted by proof-of-work, signed per-chunk manifests over Merkle
trees of 16 KB blocks, RaptorQ-coded symbols pushed down a forest of trees,
and a verify-then-forward swarm buffer that plays chunks on a fixed timeline.

Every function under `src/` is checked by Verus against its contract.

* `src/time.rs`, `src/wire.rs` — virtual time, identifiers, byte layouts.
* `src/crypto/` — Blake3 digests (and their hex form for comparing
  recordings), proof-of-work puzzles, Merkle trees, rendezvous tree
  assignment, Ed25519 signatures, identities and the identity a session
  certificate binds.
* `src/media/` — layer ladders, the layer-to-tree slicing matrix, chunk
  building and verification, FEC symbol bookkeeping, sources and reassembly.
* `src/ingest/` — the TLV record container, the ISO BMFF box splitter and the
  simulcast fragment multiplexer.
* `src/peer/` — protocol parameters, per-tree overlay state and its
  admission and heartbeat rules, parent selection (candidates, probe rounds,
  backoff and shedding), peer records and discovery (the bootstrap guardian
  and the simulation oracle), manifest relaying, the swarm buffer, the
  publisher, and the forest's structural checks over a snapshot of every
  node (slot bound, depth bound, parents relay their tree, no shared edges,
  no parent cycles, a live edge that never goes back), the join timers'
  decisions (probe rounds, request timeouts, backoff) and the liveness sweep
  (parent pings and evictions, expired drains, one heartbeat per child),
  and a departed peer leaving every tree it was in.
* `src/config.rs`, `src/player.rs` — ladder specs, scenario layer lists, and
  the frames a local player page receives.

`app/` holds what is not verified: the floating-point formulas (parity sizing,
parent score, slot sizing, the source's pacing window), the ffmpeg-driven
live ingest, and reading a recording from disk to hash it.

Calls into `blake3`, `ed25519-dalek`, `raptorq`, `rand` and `rand_chacha` go through small
trusted wrappers whose contracts say what those crates compute; everything
built on them is proved.
