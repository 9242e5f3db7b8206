//! The peer's protocol state: parameters, per-tree overlay state, parent
//! selection, peer records and discovery, manifest relaying, the swarm
//! buffer, the publisher's chunk emission, the forest's structural
//! checks, the join timers, the liveness sweep and peer departures.
pub mod params;
pub mod swarm;
pub mod publisher;
pub mod forest;
pub mod discovery;
pub mod guardian;
pub mod join;
pub mod relay;
pub mod invariants;
pub mod timers;
pub mod liveness;
pub mod departure;
