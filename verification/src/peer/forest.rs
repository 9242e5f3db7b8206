//! Per-tree overlay state: the parent link, child links, depth and slots.
use vstd::prelude::*;
use crate::peer::params::{tau_evict_spec, Params};
use crate::time::{sat_sub, Duration, Instant};
use crate::crypto::rendezvous::{assigned_tree, is_primary};
use crate::media::fec::{raptorq_repair_symbol, FecEncoder};
use crate::media::manifest::{BlockProof, RaptorQSymbol};
use crate::peer::swarm::VerifiedBlock;
use crate::wire::{tree_bit, BlockIndex, Digest, IpAddress, NodeClass, NodeId, SegmentSeq, TreeId, TreeSet, BLOCK_SIZE, K_BLOCK, SYMBOL_SIZE};

verus! {

/// A peer's transport address.
#[derive(Debug, Clone, Copy, PartialEq, Eq, Hash)]
pub struct PeerAddr {
    /// IP address.
    pub ip: IpAddress,
    /// UDP port.
    pub port: u16,
}

impl PeerAddr {
    /// Whether two addresses are the same.
    pub fn same(&self, other: &PeerAddr) -> (r: bool)
        ensures r == (*self == *other),
    {
        self.ip.same(&other.ip) && self.port == other.port
    }
}

/// Node-level lifecycle state. The per-tree repair sub-state lives in
/// [`TreeState::repairing`].
#[derive(Debug, Clone, Copy, PartialEq, Eq, Structural, Hash)]
pub enum Lifecycle {
    /// Instantiating keys, validating the NodeID.
    Bootstrap,
    /// Querying discovery for the stream.
    Discovery,
    /// Membership handshakes.
    Joining,
    /// Acquiring a parent in every subscribed tree.
    Connecting,
    /// Streaming.
    Active,
    /// Shut down.
    Terminated,
}

impl Lifecycle {
    /// The state's code on the wire and in status reports.
    pub fn code(self) -> (r: u8)
        ensures
            r == match self {
                Lifecycle::Bootstrap => 0x00u8,
                Lifecycle::Discovery => 0x01u8,
                Lifecycle::Joining => 0x02u8,
                Lifecycle::Connecting => 0x03u8,
                Lifecycle::Active => 0x04u8,
                Lifecycle::Terminated => 0x06u8,
            },
    {
        match self {
            Lifecycle::Bootstrap => 0x00,
            Lifecycle::Discovery => 0x01,
            Lifecycle::Joining => 0x02,
            Lifecycle::Connecting => 0x03,
            Lifecycle::Active => 0x04,
            Lifecycle::Terminated => 0x06,
        }
    }
}

/// How a tree looks to a prober.
#[derive(Debug, Clone, Copy, PartialEq, Eq, Structural)]
pub enum ProbeTreeState {
    /// Attached and forwarding verified data (or the source).
    Serving,
    /// Attached but no segment verified yet.
    Warming,
    /// No parent.
    Unparented,
}

/// Our parent in one tree.
#[derive(Debug, Clone)]
pub struct ParentLink {
    /// Address.
    pub addr: PeerAddr,
    /// Identity.
    pub node_id: NodeId,
    /// Parent's advertised depth (from the acceptance, refreshed by block proofs).
    pub parent_depth: u8,
    /// Last packet received from the parent on any channel.
    pub last_rx: Instant,
    /// Whether we already pinged during this silence episode.
    pub pinged: bool,
    /// Smoothed RTT estimate.
    pub srtt: Duration,
    /// RTT variance estimate.
    pub rttvar: Duration,
    /// When we attached.
    pub attached_at: Instant,
    /// First block received from this parent (repair timing).
    pub first_block_at: Option<Instant>,
    /// Slot granted but pending a drain.
    pub pending: bool,
    /// Blocks from this parent that failed verification.
    pub rejected_blocks: u32,
    /// Attached as the replacement in a repair or drain; its first block ends the repair.
    pub attached_as_repair: bool,
}

/// A child we serve in one tree.
#[derive(Debug, Clone, Copy)]
pub struct ChildLink {
    /// Address.
    pub addr: PeerAddr,
    /// Identity.
    pub node_id: NodeId,
    /// Class declared when it asked to join.
    pub node_class: NodeClass,
    /// Assigned trees it declared.
    pub assigned_trees: TreeSet,
    /// Last packet we sent it on any channel.
    pub last_tx: Instant,
    /// Last packet we received from it.
    pub last_rx: Instant,
    /// When admitted.
    pub admitted_at: Instant,
    /// Parity symbols per block on this link.
    pub parity: u16,
    /// Drain in progress: keep serving until this segment.
    pub draining_until: Option<SegmentSeq>,
    /// Admitted pending a draining child's departure; not served until then.
    pub pending: bool,
}

/// State of one tree at this node.
#[derive(Debug)]
pub struct TreeState {
    /// Tree id.
    pub id: TreeId,
    /// Parent, if attached.
    pub parent: Option<ParentLink>,
    /// The previous parent during a warm handover: it keeps delivering until
    /// the new parent's first block arrives.
    pub old_parent: Option<ParentLink>,
    /// Children keyed by address: a list with one entry per address
    /// (`children_unique`), in admission order, so that the newest child to
    /// displace, forwarding and heartbeats follow a stated order (a map keyed
    /// by an address struct would give contracts nothing to say about it).
    pub children: Vec<ChildLink>,
    /// Our hop depth from the source (0 = source; 255 = unknown/unparented).
    pub depth: u8,
    /// Slot count.
    pub k_v: u16,
    /// Whether we relay this tree (assigned); leaves never do.
    pub assigned: bool,
    /// Whether we subscribe to this tree (render its layer).
    pub subscribed: bool,
    /// Segments verified in this tree (while 0, no free slots are advertised).
    pub verified_segments: u32,
    /// Highest segment verified in this tree.
    pub live_edge: SegmentSeq,
    /// Per-tree repair sub-state.
    pub repairing: bool,
    /// When the parent was lost (for repair timing).
    pub lost_at: Option<Instant>,
    /// Segments in which at least one block arrived.
    pub last_segment_seen: SegmentSeq,
}

/// Free slots advertised to joiners: none when not relaying this tree; none
/// while warming or unparented unless we are the source; else the slot
/// count less the children held (draining children still count), floored at 0.
pub open spec fn k_avail_spec(t: TreeState, is_source: bool) -> int {
    if !t.assigned {
        0
    } else if !is_source && (t.verified_segments == 0 || t.parent is None) {
        0
    } else {
        let held = (t.children@.len() as u16) as int;
        if t.k_v >= held { t.k_v - held } else { 0 }
    }
}

impl TreeState {
    /// New, detached tree state.
    pub fn new(id: TreeId) -> (r: TreeState)
        ensures
            r.id == id,
            r.parent is None,
            r.old_parent is None,
            r.children@.len() == 0,
            r.depth == 255,
            r.k_v == 0,
            !r.assigned,
            !r.subscribed,
            r.verified_segments == 0,
            r.live_edge.0 == 0,
            !r.repairing,
            r.lost_at is None,
            r.last_segment_seen.0 == 0,
    {
        TreeState {
            id,
            parent: None,
            old_parent: None,
            children: Vec::new(),
            depth: u8::MAX,
            k_v: 0,
            assigned: false,
            subscribed: false,
            verified_segments: 0,
            live_edge: SegmentSeq::none(),
            repairing: false,
            lost_at: None,
            last_segment_seen: SegmentSeq::none(),
        }
    }

    /// Whether this node should hold a parent here (subscribed or assigned).
    pub fn wants_parent(&self) -> (r: bool)
        ensures r == (self.subscribed || self.assigned),
    {
        self.subscribed || self.assigned
    }

    /// Free slots advertised to joiners.
    pub fn k_avail(&self, is_source: bool) -> (r: u16)
        ensures
            r == k_avail_spec(*self, is_source),
            !is_source && self.verified_segments == 0 ==> r == 0,
            r <= self.k_v,
    {
        if !self.assigned {
            return 0;
        }
        if !is_source && (self.verified_segments == 0 || self.parent.is_none()) {
            return 0;
        }
        self.k_v.saturating_sub(self.children.len() as u16)
    }

    /// How this tree looks to a prober: the source always serves; no parent
    /// is unparented; a parent but nothing verified yet is warming.
    pub fn probe_state(&self, is_source: bool) -> (r: ProbeTreeState)
        ensures
            r == if is_source {
                ProbeTreeState::Serving
            } else if self.parent is None {
                ProbeTreeState::Unparented
            } else if self.verified_segments == 0 {
                ProbeTreeState::Warming
            } else {
                ProbeTreeState::Serving
            },
    {
        if is_source {
            return ProbeTreeState::Serving;
        }
        match (&self.parent, self.verified_segments) {
            (None, _) => ProbeTreeState::Unparented,
            (Some(_), 0) => ProbeTreeState::Warming,
            _ => ProbeTreeState::Serving,
        }
    }

    /// Whether the depth rule allows another child under us: a node at depth
    /// `d_max` or deeper is not a legal parent.
    pub fn depth_allows_children(&self, d_max: u8) -> (r: bool)
        ensures r == (self.depth < d_max),
    {
        self.depth < d_max
    }

    /// Current hop depth for advertisement (source = 0).
    pub fn advertised_depth(&self) -> (r: u8)
        ensures r == self.depth,
    {
        self.depth
    }

    /// Detach the parent, returning it; losing a parent records when and
    /// makes the depth unknown.
    pub fn detach_parent(&mut self, now: Instant) -> (r: Option<ParentLink>)
        ensures
            r == old(self).parent,
            final(self).parent is None,
            old(self).parent is Some ==> final(self).lost_at == Some(now) && final(self).depth == 255,
            old(self).parent is None ==> final(self).lost_at == old(self).lost_at && final(self).depth == old(self).depth,
            final(self).id == old(self).id,
            final(self).old_parent == old(self).old_parent,
            final(self).children == old(self).children,
            final(self).k_v == old(self).k_v,
            final(self).assigned == old(self).assigned,
            final(self).subscribed == old(self).subscribed,
            final(self).verified_segments == old(self).verified_segments,
            final(self).live_edge == old(self).live_edge,
            final(self).repairing == old(self).repairing,
            final(self).last_segment_seen == old(self).last_segment_seen,
    {
        let p = self.parent.take();
        if p.is_some() {
            self.lost_at = Some(now);
            self.depth = u8::MAX;
        }
        p
    }
}

impl TreeState {
    /// Lose the parent (it disconnected, was evicted or its session closed).
    /// Returns the lost link, if there was one, and whether to start probing
    /// for a new parent now: once the stream has ended there is nothing to
    /// repair; otherwise the tree enters repair, and probes if it still wants
    /// a parent.
    pub fn lose_parent(&mut self, now: Instant, ending: bool) -> (r: Option<(ParentLink, bool)>)
        ensures
            old(self).parent is None ==> r is None && *final(self) == *old(self),
            old(self).parent matches Some(p) ==> {
                &&& r matches Some((q, probe)) && q == p && probe == (!ending && (old(self).subscribed
                    || old(self).assigned))
                &&& final(self).parent is None
                &&& final(self).lost_at == Some(now)
                &&& final(self).depth == 255
                &&& final(self).repairing == (old(self).repairing || !ending)
                &&& final(self).id == old(self).id
                &&& final(self).old_parent == old(self).old_parent
                &&& final(self).children == old(self).children
                &&& final(self).k_v == old(self).k_v
                &&& final(self).assigned == old(self).assigned
                &&& final(self).subscribed == old(self).subscribed
                &&& final(self).verified_segments == old(self).verified_segments
                &&& final(self).live_edge == old(self).live_edge
                &&& final(self).last_segment_seen == old(self).last_segment_seen
            },
    {
        if self.parent.is_none() {
            return None;
        }
        let p = match self.detach_parent(now) {
            Some(p) => p,
            None => return None,
        };
        if ending {
            return Some((p, false));
        }
        self.repairing = true;
        let probe = self.wants_parent();
        Some((p, probe))
    }

    /// Set whether we subscribe to this tree (the shed and unshed rules).
    /// A tree that then wants no parent is left: its repair bookkeeping is
    /// cleared, the parent and any previous parent are detached, and their
    /// addresses are returned to be told we quit.
    pub fn set_subscribed(&mut self, subscribed: bool, now: Instant) -> (r: Vec<PeerAddr>)
        ensures
            final(self).subscribed == subscribed,
            final(self).id == old(self).id,
            final(self).children == old(self).children,
            final(self).k_v == old(self).k_v,
            final(self).assigned == old(self).assigned,
            final(self).verified_segments == old(self).verified_segments,
            final(self).live_edge == old(self).live_edge,
            final(self).last_segment_seen == old(self).last_segment_seen,
            subscribed || old(self).assigned ==> {
                &&& r@.len() == 0
                &&& final(self).parent == old(self).parent
                &&& final(self).old_parent == old(self).old_parent
                &&& final(self).repairing == old(self).repairing
                &&& final(self).lost_at == old(self).lost_at
                &&& final(self).depth == old(self).depth
            },
            !subscribed && !old(self).assigned ==> {
                &&& final(self).parent is None
                &&& !final(self).repairing
                &&& final(self).lost_at is None
                &&& old(self).parent is None ==> r@.len() == 0 && final(self).old_parent == old(self).old_parent
                    && final(self).depth == old(self).depth
                &&& old(self).parent matches Some(p) ==> {
                    &&& final(self).old_parent is None
                    &&& final(self).depth == 255
                    &&& r@ == match old(self).old_parent {
                        Some(op) => seq![p.addr, op.addr],
                        None => seq![p.addr],
                    }
                }
            },
    {
        self.subscribed = subscribed;
        let mut quit: Vec<PeerAddr> = Vec::new();
        if self.wants_parent() {
            return quit;
        }
        // Leaving the tree is not a repair.
        self.repairing = false;
        self.lost_at = None;
        if let Some(p) = self.detach_parent(now) {
            self.lost_at = None;
            quit.push(p.addr);
            if let Some(op) = self.old_parent.take() {
                quit.push(op.addr);
            }
        }
        quit
    }

    /// Fold an RTT sample from a pong of `from` into our parent's estimates, if
    /// `from` is our parent: `rttvar ← (3·rttvar + |sample − srtt|) / 4`, then
    /// `srtt ← (7·srtt + sample) / 8`.
    pub fn rtt_sample(&mut self, from: PeerAddr, sample: Duration)
        requires
            sample.0 <= u64::MAX / 8,
            old(self).parent matches Some(p) ==> p.srtt.0 <= u64::MAX / 8 && p.rttvar.0 <= u64::MAX / 8,
        ensures
            match old(self).parent {
                Some(p) => if p.addr == from {
                    final(self).parent == Some(ParentLink {
                        rttvar: Duration(((3 * p.rttvar.0 + (if sample.0 > p.srtt.0 { sample.0 - p.srtt.0 } else { p.srtt.0
                            - sample.0 })) / 4) as u64),
                        srtt: Duration(((7 * p.srtt.0 + sample.0) / 8) as u64),
                        ..p
                    })
                } else {
                    final(self).parent == old(self).parent
                },
                None => final(self).parent == old(self).parent,
            },
            *final(self) == (TreeState { parent: final(self).parent, ..*old(self) }),
    {
        if let Some(p) = &mut self.parent {
            if p.addr.same(&from) {
                let diff = if sample.0 > p.srtt.0 { sample.0 - p.srtt.0 } else { p.srtt.0 - sample.0 };
                p.rttvar = Duration((p.rttvar.0 * 3 + diff) / 4);
                p.srtt = Duration((p.srtt.0 * 7 + sample.0) / 8);
            }
        }
    }

    /// Whether a join round should run for this tree: it wants a parent and
    /// has none, or is repairing (a drain keeps the parent while looking).
    pub fn needs_join(&self) -> (r: bool)
        ensures r == ((self.subscribed || self.assigned) && (self.parent is None || self.repairing)),
    {
        self.wants_parent() && (self.parent.is_none() || self.repairing)
    }

    /// Attach to `addr` (NodeID `node_id`), which accepted us at hop depth
    /// `hop_depth`, with an RTT estimate `srtt` from the probe. Our depth
    /// becomes one more than the parent's. A parent being replaced in a warm
    /// repair stays on as the previous parent until the new one delivers. A
    /// repair with no loss pending (a drain) ends here. Returns whether this
    /// attachment was a repair.
    pub fn attach(&mut self, addr: PeerAddr, node_id: NodeId, hop_depth: u8, pending: bool, srtt: Duration, now: Instant) -> (r: bool)
        ensures
            r == old(self).repairing,
            final(self).parent == Some(ParentLink {
                addr,
                node_id,
                parent_depth: hop_depth,
                last_rx: now,
                pinged: false,
                srtt,
                rttvar: Duration(srtt.0 / 2),
                attached_at: now,
                first_block_at: None,
                pending,
                rejected_blocks: 0,
                attached_as_repair: old(self).repairing,
            }),
            final(self).depth == if hop_depth == 255 { 255 } else { hop_depth + 1 },
            final(self).old_parent == match old(self).parent {
                Some(op) => if op.addr != addr { Some(op) } else { old(self).old_parent },
                None => old(self).old_parent,
            },
            final(self).repairing == (old(self).repairing && old(self).lost_at is Some),
            final(self).id == old(self).id,
            final(self).children == old(self).children,
            final(self).k_v == old(self).k_v,
            final(self).assigned == old(self).assigned,
            final(self).subscribed == old(self).subscribed,
            final(self).verified_segments == old(self).verified_segments,
            final(self).live_edge == old(self).live_edge,
            final(self).lost_at == old(self).lost_at,
            final(self).last_segment_seen == old(self).last_segment_seen,
    {
        let repair = self.repairing;
        let previous = self.parent.take();
        self.parent = Some(ParentLink {
            addr,
            node_id,
            parent_depth: hop_depth,
            last_rx: now,
            pinged: false,
            srtt,
            rttvar: srtt.div_by(2),
            attached_at: now,
            first_block_at: None,
            pending,
            rejected_blocks: 0,
            attached_as_repair: repair,
        });
        self.depth = hop_depth.saturating_add(1);
        if let Some(op) = previous {
            if !op.addr.same(&addr) {
                self.old_parent = Some(op);
            }
        }
        if repair && self.lost_at.is_none() {
            self.repairing = false;
        }
        repair
    }

    /// A drain notice from `from`: warm repair starts (keep the parent, look
    /// for a new one) when it comes from our parent and no join is under way.
    /// Returns whether to start probing.
    pub fn on_drain(&mut self, from: PeerAddr, join_active: bool) -> (r: bool)
        ensures
            r == (old(self).parent matches Some(p) && p.addr == from && !join_active),
            final(self).repairing == (old(self).repairing || r),
            final(self).id == old(self).id,
            final(self).parent == old(self).parent,
            final(self).old_parent == old(self).old_parent,
            final(self).children == old(self).children,
            final(self).depth == old(self).depth,
            final(self).k_v == old(self).k_v,
            final(self).assigned == old(self).assigned,
            final(self).subscribed == old(self).subscribed,
            final(self).verified_segments == old(self).verified_segments,
            final(self).live_edge == old(self).live_edge,
            final(self).lost_at == old(self).lost_at,
            final(self).last_segment_seen == old(self).last_segment_seen,
    {
        let from_parent = match &self.parent {
            Some(p) => p.addr.same(&from),
            None => false,
        };
        if !from_parent || join_active {
            return false;
        }
        self.repairing = true;
        true
    }
}

/// What a departed peer took from a tree.
#[derive(Debug, Clone)]
pub struct PeerLeft {
    /// The parent lost, and whether to probe for a new one now.
    pub lost_parent: Option<(ParentLink, bool)>,
    /// The child removed.
    pub removed_child: Option<ChildLink>,
}

/// What the heartbeat rule asks of a tree's parent link.
#[derive(Debug, Clone, Copy, PartialEq, Eq)]
pub enum ParentCheck {
    /// No parent, or it spoke recently enough.
    Quiet,
    /// Silent past `τ_ping` for the first time in this episode: ping it.
    Ping(PeerAddr),
    /// Silent past `τ_evict`: drop it and repair.
    Evict,
}

impl TreeState {
    /// The heartbeat rule for this tree's parent at `now`: silent longer than
    /// its eviction timeout → evict; else silent longer than `τ_ping` and not
    /// yet pinged in this silence → ping (once); else nothing.
    pub fn check_parent(&mut self, params: &Params, now: Instant) -> (r: ParentCheck)
        ensures
            match old(self).parent {
                None => r == ParentCheck::Quiet && *final(self) == *old(self),
                Some(p) => {
                    let silence = sat_sub(now.0 as int, p.last_rx.0 as int);
                    let tau = tau_evict_spec(params.tau_ping.0, params.tau_evict_floor.0, p.srtt.0, p.rttvar.0);
                    if silence > tau {
                        r == ParentCheck::Evict && *final(self) == *old(self)
                    } else if silence > params.tau_ping.0 && !p.pinged {
                        &&& r == ParentCheck::Ping(p.addr)
                        &&& final(self).parent matches Some(q) && q == (ParentLink { pinged: true, ..p })
                        &&& *final(self) == (TreeState { parent: final(self).parent, ..*old(self) })
                    } else {
                        r == ParentCheck::Quiet && *final(self) == *old(self)
                    }
                },
            },
    {
        match self.parent.take() {
            None => ParentCheck::Quiet,
            Some(mut p) => {
                let silence = now.duration_since(p.last_rx);
                let tau = params.tau_evict(p.srtt, p.rttvar);
                let r = if silence.0 > tau.0 {
                    ParentCheck::Evict
                } else if silence.0 > params.tau_ping.0 && !p.pinged {
                    p.pinged = true;
                    ParentCheck::Ping(p.addr)
                } else {
                    ParentCheck::Quiet
                };
                self.parent = Some(p);
                r
            },
        }
    }

    /// Children we have sent nothing to for `τ_ping` or more: each gets a
    /// heartbeat now (its last-sent time moves to `now`); returns their
    /// addresses in child order.
    pub fn child_heartbeats(&mut self, tau_ping: Duration, now: Instant) -> (r: Vec<PeerAddr>)
        ensures
            final(self).children@.len() == old(self).children@.len(),
            r@ == old(self).children@.filter(|c: ChildLink| sat_sub(now.0 as int, c.last_tx.0 as int) >= tau_ping.0)
                .map_values(|c: ChildLink| c.addr),
            forall|i: int| 0 <= i < old(self).children@.len() ==> #[trigger] final(self).children@[i] == if sat_sub(now.0 as int, old(self).children@[i].last_tx.0 as int) >= tau_ping.0 {
                ChildLink { last_tx: now, ..old(self).children@[i] }
            } else {
                old(self).children@[i]
            },
            *final(self) == (TreeState { children: final(self).children, ..*old(self) }),
    {
        let ghost kids = self.children@;
        let mut out: Vec<PeerAddr> = Vec::new();
        let mut i: usize = 0;
        while i < self.children.len()
            invariant
                self.children@.len() == kids.len(),
                i <= kids.len(),
                *self == (TreeState { children: self.children, ..*old(self) }),
                kids == old(self).children@,
                out@ == kids.take(i as int).filter(|c: ChildLink| sat_sub(now.0 as int, c.last_tx.0 as int) >= tau_ping.0)
                    .map_values(|c: ChildLink| c.addr),
                forall|k: int| 0 <= k < kids.len() ==> #[trigger] self.children@[k] == if k < i && sat_sub(now.0 as int, kids[k].last_tx.0 as int) >= tau_ping.0 {
                    ChildLink { last_tx: now, ..kids[k] }
                } else {
                    kids[k]
                },
            decreases kids.len() - i,
        {
            let due = now.duration_since(self.children[i].last_tx).0 >= tau_ping.0;
            proof {
                let f = |c: ChildLink| sat_sub(now.0 as int, c.last_tx.0 as int) >= tau_ping.0;
                assert(kids.take(i + 1) =~= kids.take(i as int).push(kids[i as int]));
                kids.take(i as int).lemma_filter_push(kids[i as int], f);
            }
            if due {
                out.push(self.children[i].addr);
                self.children[i].last_tx = now;
            }
            i = i + 1;
        }
        assert(kids.take(i as int) =~= kids);
        out
    }
}

/// The lifecycle a viewer moves to after its parents change: connecting
/// becomes active once every subscribed tree has a parent (and some tree
/// does); active falls back to discovery when no tree has a parent, and
/// straight on to connecting when the tree mapping is already known. The
/// flag says whether discovery must be asked again. The source never moves.
pub fn check_active(trees: &Vec<TreeState>, state: Lifecycle, is_source: bool, has_matrix: bool) -> (r: (Lifecycle, bool))
    ensures
        ({
            let all_sub = forall|i: int| 0 <= i < trees@.len() && #[trigger] trees@[i].subscribed ==> trees@[i].parent is Some;
            let any_parent = exists|i: int| 0 <= i < trees@.len() && #[trigger] trees@[i].parent is Some;
            r == if is_source {
                (state, false)
            } else if state == Lifecycle::Connecting && all_sub && any_parent {
                (Lifecycle::Active, false)
            } else if state == Lifecycle::Active && !any_parent {
                (if has_matrix { Lifecycle::Connecting } else { Lifecycle::Discovery }, true)
            } else {
                (state, false)
            }
        }),
{
    if is_source {
        return (state, false);
    }
    let mut all_sub = true;
    let mut any_parent = false;
    let mut i: usize = 0;
    while i < trees.len()
        invariant
            i <= trees@.len(),
            all_sub == forall|k: int| 0 <= k < i && #[trigger] trees@[k].subscribed ==> trees@[k].parent is Some,
            any_parent == exists|k: int| 0 <= k < i && #[trigger] trees@[k].parent is Some,
        decreases trees@.len() - i,
    {
        let with_parent = trees[i].parent.is_some();
        if trees[i].subscribed && !with_parent {
            all_sub = false;
        }
        if with_parent {
            any_parent = true;
        }
        i = i + 1;
    }
    match state {
        Lifecycle::Connecting => {
            if all_sub && any_parent {
                (Lifecycle::Active, false)
            } else {
                (state, false)
            }
        },
        Lifecycle::Active => {
            if !any_parent {
                (if has_matrix { Lifecycle::Connecting } else { Lifecycle::Discovery }, true)
            } else {
                (state, false)
            }
        },
        _ => (state, false),
    }
}

/// Why a join request into a tree was refused.
#[derive(Debug, Clone, Copy, PartialEq, Eq, Structural)]
pub enum JoinRefusal {
    /// We do not relay this tree.
    NotAssigned,
    /// We are too deep for another level under us.
    Depth,
    /// No free slot and nobody to displace.
    Saturated,
}

/// The answer to a join request.
#[derive(Debug, Clone, Copy, PartialEq, Eq)]
pub enum Admission {
    /// Admit; the child learns our hop depth.
    Admit(u8),
    /// Admit after asking `victim`, a child that does not relay this tree, to drain.
    Displace {
        /// The child sent a drain notice.
        victim: PeerAddr,
        /// Our hop depth.
        depth: u8,
    },
    /// Refuse.
    Reject(JoinRefusal),
}

/// A child that may be displaced from `tree`: it does not relay the tree
/// (not a relay, or not assigned it) and is not already draining.
pub open spec fn displaceable(c: ChildLink, tree: TreeId) -> bool {
    &&& (!tree_bit(c.assigned_trees.0, tree.0) || c.node_class != NodeClass::Relay)
    &&& c.draining_until is None
}

/// A child that does not relay a tree is a pure subscriber there and may
/// be displaced for a relay of the tree unless it is already draining,
/// whatever its class: a leaf, or a relay of other trees only. A child
/// that relays the tree (a relay assigned it) never is.
pub proof fn lemma_pure_subscriber_displaceable(c: ChildLink, tree: TreeId)
    ensures
        c.draining_until is None && !tree_bit(c.assigned_trees.0, tree.0) ==> displaceable(c, tree),
        c.draining_until is None && c.node_class != NodeClass::Relay ==> displaceable(c, tree),
        c.node_class == NodeClass::Relay && tree_bit(c.assigned_trees.0, tree.0) ==> !displaceable(c, tree),
        c.draining_until is Some ==> !displaceable(c, tree),
{
}

/// Warm-up gating: a node other than the source advertises no free slot
/// in a tree in which it has verified no segment yet, nor in one in which
/// it has no parent, and never more than the tree's slot count; free slots
/// are the slots its children (draining ones included) leave.
pub proof fn lemma_warming_advertises_no_slot(t: TreeState)
    ensures
        t.verified_segments == 0 ==> k_avail_spec(t, false) == 0,
        t.parent is None ==> k_avail_spec(t, false) == 0,
        !t.assigned ==> k_avail_spec(t, true) == 0,
        0 <= k_avail_spec(t, true) <= t.k_v,
        0 <= k_avail_spec(t, false) <= t.k_v,
        forall|src: bool| t.children@.len() < 65536 && #[trigger] k_avail_spec(t, src) > 0 ==> k_avail_spec(t, src)
            + t.children@.len() == t.k_v,
{
}

/// Whether a requester relays `tree`: a relay, assigned the tree, and the
/// tree is its rendezvous primary among `m`.
pub open spec fn relays_tree(sender: NodeId, class: NodeClass, assigned: TreeSet, tree: TreeId, m: u8) -> bool {
    &&& class == NodeClass::Relay
    &&& tree_bit(assigned.0, tree.0)
    &&& is_primary(sender.0@, tree.0, m)
}

/// Whether some child of `t` is the one at address `a`.
pub open spec fn has_child_spec(t: TreeState, a: PeerAddr) -> bool {
    exists|i: int| 0 <= i < t.children@.len() && #[trigger] t.children@[i].addr == a
}

/// Whether some child of `t` is draining.
pub open spec fn any_draining(t: TreeState) -> bool {
    exists|i: int| 0 <= i < t.children@.len() && (#[trigger] t.children@[i]).draining_until is Some
}

/// Children addresses are distinct.
pub open spec fn children_unique(t: TreeState) -> bool {
    forall|i: int, j: int| 0 <= i < j < t.children@.len() ==> #[trigger] t.children@[i].addr != #[trigger] t.children@[j].addr
}

/// What a departed peer does to a tree `t`, leaving `after` and result `r`
/// (see [`TreeState::peer_left`]).
pub open spec fn left_post(t: TreeState, after: TreeState, r: PeerLeft, from: PeerAddr, now: Instant, ending: bool) -> bool {
    &&& match t.parent {
        Some(p) => if p.addr == from {
            &&& r.lost_parent == Some((p, !ending && (t.subscribed || t.assigned)))
            &&& after.parent is None
            &&& after.lost_at == Some(now)
            &&& after.depth == 255
            &&& after.repairing == (t.repairing || !ending)
        } else {
            &&& r.lost_parent is None
            &&& after.parent == t.parent
            &&& after.lost_at == t.lost_at
            &&& after.depth == t.depth
            &&& after.repairing == t.repairing
        },
        None => {
            &&& r.lost_parent is None
            &&& after.parent is None
            &&& after.lost_at == t.lost_at
            &&& after.depth == t.depth
            &&& after.repairing == t.repairing
        },
    }
    &&& after.old_parent == match t.old_parent {
        Some(op) => if op.addr == from { None } else { t.old_parent },
        None => None,
    }
    &&& match t.child_index_spec(from) {
        Some(i) => r.removed_child == Some(t.children@[i]) && after.children@ == t.children@.remove(i),
        None => r.removed_child is None && after.children@ == t.children@,
    }
    &&& after.id == t.id
    &&& after.k_v == t.k_v
    &&& after.assigned == t.assigned
    &&& after.subscribed == t.subscribed
    &&& after.verified_segments == t.verified_segments
    &&& after.live_edge == t.live_edge
    &&& after.last_segment_seen == t.last_segment_seen
}

/// Releasing a pending slot in tree `t`, leaving `after`: the first pending
/// child, if any, is served from now on and its address returned (see
/// [`TreeState::release_pending`]).
pub open spec fn release_post(t: TreeState, after: TreeState, r: Option<PeerAddr>) -> bool {
    &&& match r {
        Some(a) => exists|i: int| 0 <= i < t.children@.len() && #[trigger] t.children@[i].pending
            && t.children@[i].addr == a
            && (forall|k: int| 0 <= k < i ==> !(#[trigger] t.children@[k]).pending)
            && after.children@ == t.children@.update(i, ChildLink { pending: false, ..t.children@[i] }),
        None => (forall|k: int| 0 <= k < t.children@.len() ==> !(#[trigger] t.children@[k]).pending)
            && after.children@ == t.children@,
    }
    &&& after == (TreeState { children: after.children, ..t })
}

impl TreeState {
    /// Whether `addr` is a child here.
    pub fn has_child(&self, addr: PeerAddr) -> (r: bool)
        ensures r == has_child_spec(*self, addr),
    {
        match self.child_index(addr) {
            Some(_) => true,
            None => false,
        }
    }

    /// Position of the child at `addr`.
    pub fn child_index(&self, addr: PeerAddr) -> (r: Option<usize>)
        ensures
            match r {
                Some(i) => i < self.children@.len() && self.children@[i as int].addr == addr
                    && forall|k: int| 0 <= k < i ==> #[trigger] self.children@[k].addr != addr,
                None => !has_child_spec(*self, addr),
            },
    {
        let mut i: usize = 0;
        while i < self.children.len()
            invariant
                i <= self.children@.len(),
                forall|k: int| 0 <= k < i ==> #[trigger] self.children@[k].addr != addr,
            decreases self.children@.len() - i,
        {
            if self.children[i].addr.same(&addr) {
                return Some(i);
            }
            i = i + 1;
        }
        None
    }

    /// The admission rule for a join request from `from` into this tree:
    /// refuse when we do not relay it or are too deep; with no free slot (and
    /// the requester not already a child) a requester that relays this tree
    /// displaces the newest child that does not, unless a drain is already
    /// under way; otherwise refuse as saturated; else admit.
    pub fn admission(
        &self,
        d_max: u8,
        is_source: bool,
        from: PeerAddr,
        sender: &NodeId,
        node_class: NodeClass,
        assigned_trees: TreeSet,
        m: u8,
    ) -> (r: Admission)
        requires m >= 1,
        ensures
            if !self.assigned {
                r == Admission::Reject(JoinRefusal::NotAssigned)
            } else if !(self.depth < d_max) {
                r == Admission::Reject(JoinRefusal::Depth)
            } else if k_avail_spec(*self, is_source) == 0 && !has_child_spec(*self, from) {
                if relays_tree(*sender, node_class, assigned_trees, self.id, m) && !any_draining(*self)
                    && exists|i: int| 0 <= i < self.children@.len() && displaceable(#[trigger] self.children@[i], self.id) {
                    &&& r matches Admission::Displace { victim, depth }
                    &&& depth == self.depth
                    &&& exists|i: int| 0 <= i < self.children@.len() && #[trigger] self.children@[i].addr == victim
                        && displaceable(self.children@[i], self.id)
                        && forall|k: int| 0 <= k < self.children@.len() && displaceable(#[trigger] self.children@[k], self.id)
                            ==> self.children@[k].admitted_at.0 <= self.children@[i].admitted_at.0
                } else {
                    r == Admission::Reject(JoinRefusal::Saturated)
                }
            } else {
                r == Admission::Admit(self.depth)
            },
            !is_source && self.verified_segments == 0 && !has_child_spec(*self, from) ==> !(r is Admit),
            (self.assigned && self.depth < d_max && k_avail_spec(*self, is_source) == 0 && !has_child_spec(*self, from)
                && relays_tree(*sender, node_class, assigned_trees, self.id, m) && !any_draining(*self)
                && exists|i: int| 0 <= i < self.children@.len() && (#[trigger] self.children@[i]).draining_until is None
                    && !tree_bit(self.children@[i].assigned_trees.0, self.id.0)) ==> r is Displace,
    {
        proof {
            lemma_warming_advertises_no_slot(*self);
            if exists|i: int| 0 <= i < self.children@.len() && (#[trigger] self.children@[i]).draining_until is None
                && !tree_bit(self.children@[i].assigned_trees.0, self.id.0) {
                let i = choose|i: int| 0 <= i < self.children@.len() && (#[trigger] self.children@[i]).draining_until is None
                    && !tree_bit(self.children@[i].assigned_trees.0, self.id.0);
                lemma_pure_subscriber_displaceable(self.children@[i], self.id);
            }
        }
        if !self.assigned {
            return Admission::Reject(JoinRefusal::NotAssigned);
        }
        if !self.depth_allows_children(d_max) {
            return Admission::Reject(JoinRefusal::Depth);
        }
        if self.k_avail(is_source) == 0 && !self.has_child(from) {
            let primary = assigned_tree(sender, m);
            let relays = node_class == NodeClass::Relay && assigned_trees.contains(self.id) && primary.0 == self.id.0;
            assert(relays == relays_tree(*sender, node_class, assigned_trees, self.id, m));
            let mut draining = false;
            let mut victim: Option<usize> = None;
            let mut i: usize = 0;
            while i < self.children.len()
                invariant
                    i <= self.children@.len(),
                    draining == exists|k: int| 0 <= k < i && (#[trigger] self.children@[k]).draining_until is Some,
                    match victim {
                        None => forall|k: int| 0 <= k < i ==> !displaceable(#[trigger] self.children@[k], self.id),
                        Some(v) => v < i && displaceable(self.children@[v as int], self.id)
                            && forall|k: int| 0 <= k < i && displaceable(#[trigger] self.children@[k], self.id)
                                ==> self.children@[k].admitted_at.0 <= self.children@[v as int].admitted_at.0,
                    },
                decreases self.children@.len() - i,
            {
                let c = &self.children[i];
                if c.draining_until.is_some() {
                    draining = true;
                }
                let ok = (!c.assigned_trees.contains(self.id) || c.node_class != NodeClass::Relay) && c.draining_until.is_none();
                if ok {
                    let better = match victim {
                        None => true,
                        Some(v) => self.children[v].admitted_at.0 <= c.admitted_at.0,
                    };
                    if better {
                        victim = Some(i);
                    }
                }
                i = i + 1;
            }
            if relays && !draining {
                match victim {
                    Some(v) => {
                        return Admission::Displace { victim: self.children[v].addr, depth: self.depth };
                    },
                    None => {},
                }
            }
            return Admission::Reject(JoinRefusal::Saturated);
        }
        Admission::Admit(self.depth)
    }

    /// Admit `link`, replacing any child at the same address.
    pub fn insert_child(&mut self, link: ChildLink)
        requires children_unique(*old(self)),
        ensures
            children_unique(*final(self)),
            match old(self).child_index_spec(link.addr) {
                Some(i) => final(self).children@ == old(self).children@.update(i, link),
                None => final(self).children@ == old(self).children@.push(link),
            },
            *final(self) == (TreeState { children: final(self).children, ..*old(self) }),
    {
        match self.child_index(link.addr) {
            Some(i) => {
                proof {
                    assert(old(self).child_index_spec(link.addr) == Some(i as int)) by {
                        self.lemma_unique_index(link.addr, i as int);
                    }
                }
                self.children.set(i, link);
            },
            None => {
                proof {
                    assert(old(self).child_index_spec(link.addr) is None);
                }
                self.children.push(link);
            },
        }
    }

    /// Remove the child at `addr`, returning it.
    pub fn remove_child(&mut self, addr: PeerAddr) -> (r: Option<ChildLink>)
        requires children_unique(*old(self)),
        ensures
            children_unique(*final(self)),
            match old(self).child_index_spec(addr) {
                Some(i) => r == Some(old(self).children@[i]) && final(self).children@ == old(self).children@.remove(i),
                None => r is None && final(self).children@ == old(self).children@,
            },
            !has_child_spec(*final(self), addr),
            *final(self) == (TreeState { children: final(self).children, ..*old(self) }),
    {
        match self.child_index(addr) {
            Some(i) => {
                proof {
                    self.lemma_unique_index(addr, i as int);
                }
                let c = self.children.remove(i);
                proof {
                    assert forall|k: int| 0 <= k < self.children@.len() implies #[trigger] self.children@[k].addr != addr by {
                        if k < i {
                            assert(self.children@[k] == old(self).children@[k]);
                        } else {
                            assert(self.children@[k] == old(self).children@[k + 1]);
                        }
                    }
                }
                Some(c)
            },
            None => {
                proof {
                    assert(old(self).child_index_spec(addr) is None);
                }
                None
            },
        }
    }

    /// The child at `addr`, if any (children being unique).
    pub open spec fn child_index_spec(&self, addr: PeerAddr) -> Option<int> {
        if has_child_spec(*self, addr) {
            Some(choose|i: int| 0 <= i < self.children@.len() && #[trigger] self.children@[i].addr == addr)
        } else {
            None
        }
    }

    /// A peer disconnected from this tree (or its session closed): lose it as
    /// parent (see [`TreeState::lose_parent`]), forget it as previous parent,
    /// and drop it as child. Returns what was lost and the child removed; a
    /// removed child that was draining frees a pending slot.
    pub fn peer_left(&mut self, from: PeerAddr, now: Instant, ending: bool) -> (r: PeerLeft)
        requires children_unique(*old(self)),
        ensures
            children_unique(*final(self)),
            left_post(*old(self), *final(self), r, from, now, ending),
    {
        let from_parent = match &self.parent {
            Some(p) => p.addr.same(&from),
            None => false,
        };
        let lost_parent = if from_parent { self.lose_parent(now, ending) } else { None };
        let from_old = match &self.old_parent {
            Some(op) => op.addr.same(&from),
            None => false,
        };
        if from_old {
            self.old_parent = None;
        }
        let removed_child = self.remove_child(from);
        PeerLeft { lost_parent, removed_child }
    }

    proof fn lemma_unique_index(&self, addr: PeerAddr, i: int)
        requires children_unique(*self), 0 <= i < self.children@.len(), self.children@[i].addr == addr,
        ensures self.child_index_spec(addr) == Some(i),
    {
        assert(has_child_spec(*self, addr));
        let k = choose|k: int| 0 <= k < self.children@.len() && #[trigger] self.children@[k].addr == addr;
        if k != i {
            if k < i {
                assert(self.children@[k].addr != self.children@[i].addr);
            } else {
                assert(self.children@[i].addr != self.children@[k].addr);
            }
        }
    }

    /// Start draining the child at `addr` until segment `deadline`.
    pub fn mark_draining(&mut self, addr: PeerAddr, deadline: SegmentSeq)
        requires children_unique(*old(self)),
        ensures
            children_unique(*final(self)),
            match old(self).child_index_spec(addr) {
                Some(i) => final(self).children@ == old(self).children@.update(i,
                    ChildLink { draining_until: Some(deadline), ..old(self).children@[i] }),
                None => final(self).children@ == old(self).children@,
            },
            *final(self) == (TreeState { children: final(self).children, ..*old(self) }),
    {
        match self.child_index(addr) {
            Some(i) => {
                proof {
                    self.lemma_unique_index(addr, i as int);
                }
                self.children[i].draining_until = Some(deadline);
            },
            None => {
                proof {
                    assert(old(self).child_index_spec(addr) is None);
                }
            },
        }
    }

    /// Start serving the first child admitted pending a drain; returns its address.
    pub fn release_pending(&mut self) -> (r: Option<PeerAddr>)
        ensures
            release_post(*old(self), *final(self), r),
    {
        let mut i: usize = 0;
        while i < self.children.len()
            invariant
                i <= self.children@.len(),
                self.children@ == old(self).children@,
                *self == (TreeState { children: self.children, ..*old(self) }),
                forall|k: int| 0 <= k < i ==> !(#[trigger] self.children@[k]).pending,
            decreases self.children@.len() - i,
        {
            if self.children[i].pending {
                self.children[i].pending = false;
                return Some(self.children[i].addr);
            }
            i = i + 1;
        }
        None
    }
}

/// A child whose drain deadline the live edge has reached.
pub open spec fn drain_expired(c: ChildLink, live_edge: SegmentSeq) -> bool {
    c.draining_until matches Some(d) && live_edge.0 >= d.0
}

impl TreeState {
    /// Remove and return, in child order, the children whose drain deadline
    /// the live edge has reached.
    pub fn take_expired_drains(&mut self, live_edge: SegmentSeq) -> (r: Vec<ChildLink>)
        ensures
            r@ == old(self).children@.filter(|c: ChildLink| drain_expired(c, live_edge)),
            final(self).children@ == old(self).children@.filter(|c: ChildLink| !drain_expired(c, live_edge)),
            *final(self) == (TreeState { children: final(self).children, ..*old(self) }),
    {
        let ghost kids = self.children@;
        let mut rest: Vec<ChildLink> = Vec::new();
        std::mem::swap(&mut rest, &mut self.children);
        let n = rest.len();
        let mut kept: Vec<ChildLink> = Vec::new();
        let mut gone: Vec<ChildLink> = Vec::new();
        let mut i: usize = 0;
        while i < n
            invariant
                n == kids.len(),
                i <= n,
                rest@ == kids.skip(i as int),
                kept@ == kids.take(i as int).filter(|c: ChildLink| !drain_expired(c, live_edge)),
                gone@ == kids.take(i as int).filter(|c: ChildLink| drain_expired(c, live_edge)),
            decreases n - i,
        {
            let c = rest.remove(0);
            proof {
                assert(c == kids[i as int]);
                assert(rest@ =~= kids.skip(i + 1));
                assert(kids.take(i + 1) =~= kids.take(i as int).push(c));
                kids.take(i as int).lemma_filter_push(c, |x: ChildLink| !drain_expired(x, live_edge));
                kids.take(i as int).lemma_filter_push(c, |x: ChildLink| drain_expired(x, live_edge));
            }
            let expired = match c.draining_until {
                Some(d) => live_edge.0 >= d.0,
                None => false,
            };
            if expired {
                gone.push(c);
            } else {
                kept.push(c);
            }
            i = i + 1;
        }
        assert(kids.take(n as int) =~= kids);
        self.children = kept;
        gone
    }
}

/// The symbols pushed down one link for a block: its sixteen source slices,
/// then `parity` repair symbols.
pub open spec fn pushed_symbols(block: Seq<u8>, segment: SegmentSeq, index: BlockIndex, parity: u16, r: Seq<RaptorQSymbol>) -> bool {
    &&& r.len() == K_BLOCK + parity
    &&& forall|i: int| 0 <= i < K_BLOCK ==> {
        &&& (#[trigger] r[i]).segment == segment
        &&& r[i].block == index
        &&& r[i].esi == i
        &&& r[i].payload@ == block.subrange(i * SYMBOL_SIZE, (i + 1) * SYMBOL_SIZE)
    }
    &&& forall|i: int| K_BLOCK <= i < K_BLOCK + parity ==> {
        &&& (#[trigger] r[i]).segment == segment
        &&& r[i].block == index
        &&& r[i].esi == (K_BLOCK + i) as u16
        &&& r[i].payload@ == raptorq_repair_symbol(block, (K_BLOCK + i) as u32)
    }
}

/// What one child is sent for a verified block.
#[derive(Debug)]
pub struct Forward {
    /// The child.
    pub to: PeerAddr,
    /// The block proof, carrying our depth.
    pub proof: BlockProof,
    /// Source symbols then the link's parity symbols.
    pub symbols: Vec<RaptorQSymbol>,
}

/// The children a block is pushed to: those not waiting on a drain.
pub open spec fn served(children: Seq<ChildLink>) -> Seq<ChildLink> {
    children.filter(|c: ChildLink| !c.pending)
}

impl TreeState {
    /// Verify-then-forward fan-out: for every child not admitted pending a
    /// drain, in child order, the block proof (with our depth as sender
    /// depth) and the symbols for that link's parity.
    pub fn forward_plan(&self, vb: &VerifiedBlock) -> (r: Vec<Forward>)
        requires vb.bytes@.len() == BLOCK_SIZE,
        ensures
            r@.len() == served(self.children@).len(),
            forall|k: int| 0 <= k < r@.len() ==> {
                let c = served(self.children@)[k];
                &&& (#[trigger] r@[k]).to == c.addr
                &&& r@[k].proof.segment == vb.segment
                &&& r@[k].proof.block == vb.index
                &&& r@[k].proof.sender_hop_depth == self.depth
                &&& r@[k].proof.siblings@ == vb.siblings@
                &&& pushed_symbols(vb.bytes@, vb.segment, vb.index, c.parity, r@[k].symbols@)
            },
    {
        let ghost kids = self.children@;
        let mut out: Vec<Forward> = Vec::new();
        let mut bytes: Vec<u8> = Vec::new();
        crate::wire::push_bytes(&mut bytes, vb.bytes.as_slice());
        assert(bytes@ =~= vb.bytes@);
        let enc = FecEncoder::new(vb.segment, vb.index, bytes);
        let mut i: usize = 0;
        while i < self.children.len()
            invariant
                i <= kids.len(),
                kids == self.children@,
                enc.block_spec() == vb.bytes@,
                enc.segment_spec() == vb.segment,
                enc.index_spec() == vb.index,
                vb.bytes@.len() == BLOCK_SIZE,
                out@.len() == served(kids.take(i as int)).len(),
                forall|k: int| 0 <= k < out@.len() ==> {
                    let c = served(kids.take(i as int))[k];
                    &&& (#[trigger] out@[k]).to == c.addr
                    &&& out@[k].proof.segment == vb.segment
                    &&& out@[k].proof.block == vb.index
                    &&& out@[k].proof.sender_hop_depth == self.depth
                    &&& out@[k].proof.siblings@ == vb.siblings@
                    &&& pushed_symbols(vb.bytes@, vb.segment, vb.index, c.parity, out@[k].symbols@)
                },
            decreases kids.len() - i,
        {
            proof {
                assert(kids.take(i + 1) =~= kids.take(i as int).push(kids[i as int]));
                kids.take(i as int).lemma_filter_push(kids[i as int], |c: ChildLink| !c.pending);
            }
            let c = &self.children[i];
            if !c.pending {
                let mut siblings: Vec<Digest> = Vec::new();
                let mut q: usize = 0;
                while q < vb.siblings.len()
                    invariant
                        q <= vb.siblings@.len(),
                        siblings@ == vb.siblings@.take(q as int),
                    decreases vb.siblings@.len() - q,
                {
                    siblings.push(vb.siblings[q]);
                    assert(siblings@ =~= vb.siblings@.take(q + 1));
                    q = q + 1;
                }
                assert(siblings@ =~= vb.siblings@);
                let symbols = enc.push_symbols(c.parity);
                let ghost before = out@;
                out.push(Forward {
                    to: c.addr,
                    proof: BlockProof { segment: vb.segment, block: vb.index, sender_hop_depth: self.depth, siblings },
                    symbols,
                });
                proof {
                    assert forall|k: int| 0 <= k < out@.len() implies {
                        let cc = served(kids.take(i + 1))[k];
                        &&& (#[trigger] out@[k]).to == cc.addr
                        &&& out@[k].proof.segment == vb.segment
                        &&& out@[k].proof.block == vb.index
                        &&& out@[k].proof.sender_hop_depth == self.depth
                        &&& out@[k].proof.siblings@ == vb.siblings@
                        &&& pushed_symbols(vb.bytes@, vb.segment, vb.index, cc.parity, out@[k].symbols@)
                    } by {
                        if k < before.len() {
                            assert(out@[k] == before[k]);
                        }
                    }
                }
            }
            i = i + 1;
        }
        assert(kids.take(kids.len() as int) =~= kids);
        out
    }
}

/// Where a block proof on a tree's stream came from.
#[derive(Debug, Clone)]
pub enum ProofSource {
    /// Neither our parent nor the parent we are leaving: ignore it.
    Stranger,
    /// Our parent. On its first block the previous parent (if any) is handed
    /// back to be choked, and a repair it closed reports how long it took.
    Parent {
        /// The parent's identity, the proof's sender.
        sender: NodeId,
        /// The previous parent, released now.
        choke: Option<ParentLink>,
        /// Time from losing the old parent to this first block, when it closed a repair.
        repair_done: Option<Duration>,
    },
    /// The parent we are draining from.
    OldParent {
        /// Its identity.
        sender: NodeId,
    },
}

impl TreeState {
    /// A block proof arrived on this tree's stream from `from`, sent at depth
    /// `sender_depth`. Only our parent or the one we are leaving may push
    /// here. From our parent: our depth becomes one below its advertised depth
    /// (saturating); its first block releases the previous parent and closes
    /// a repair it was attached for.
    pub fn on_proof_from(&mut self, from: PeerAddr, sender_depth: u8, now: Instant) -> (r: ProofSource)
        ensures
            match old(self).parent {
                Some(p) if p.addr == from => {
                    let first = p.first_block_at is None;
                    let closes = first && old(self).repairing && p.attached_as_repair;
                    &&& r matches ProofSource::Parent { sender, choke, repair_done }
                    &&& sender == p.node_id
                    &&& final(self).depth == (if sender_depth == 255 { 255 } else { (sender_depth + 1) as u8 })
                    &&& final(self).parent == Some(ParentLink {
                        parent_depth: sender_depth,
                        first_block_at: if first { Some(now) } else { p.first_block_at },
                        ..p
                    })
                    &&& choke == (if first { old(self).old_parent } else { None })
                    &&& final(self).old_parent == (if first { None } else { old(self).old_parent })
                    &&& final(self).repairing == (old(self).repairing && !closes)
                    &&& final(self).lost_at == (if closes { None } else { old(self).lost_at })
                    &&& repair_done == (if closes && old(self).lost_at is Some {
                        Some(Duration(sat_sub(now.0 as int, old(self).lost_at->Some_0.0 as int) as u64))
                    } else {
                        None
                    })
                    &&& final(self).children == old(self).children
                    &&& final(self).k_v == old(self).k_v
                    &&& final(self).assigned == old(self).assigned
                    &&& final(self).subscribed == old(self).subscribed
                    &&& final(self).verified_segments == old(self).verified_segments
                    &&& final(self).live_edge == old(self).live_edge
                },
                _ => match old(self).old_parent {
                    Some(q) if q.addr == from => r matches ProofSource::OldParent { sender } && sender == q.node_id
                        && *final(self) == *old(self),
                    _ => r matches ProofSource::Stranger && *final(self) == *old(self),
                },
            },
    {
        let is_current = match &self.parent {
            Some(p) => p.addr.same(&from),
            None => false,
        };
        if !is_current {
            return match &self.old_parent {
                Some(q) => {
                    if q.addr.same(&from) {
                        ProofSource::OldParent { sender: q.node_id }
                    } else {
                        ProofSource::Stranger
                    }
                },
                None => ProofSource::Stranger,
            };
        }
        self.depth = if sender_depth == u8::MAX { u8::MAX } else { sender_depth + 1 };
        let mut p = self.parent.take().unwrap();
        p.parent_depth = sender_depth;
        let sender = p.node_id;
        let mut choke: Option<ParentLink> = None;
        let mut repair_done: Option<Duration> = None;
        if p.first_block_at.is_none() {
            p.first_block_at = Some(now);
            choke = self.old_parent.take();
            if self.repairing && p.attached_as_repair {
                self.repairing = false;
                repair_done = match self.lost_at.take() {
                    Some(l) => Some(now.duration_since(l)),
                    None => None,
                };
            }
        }
        self.parent = Some(p);
        ProofSource::Parent { sender, choke, repair_done }
    }

    /// A block of this tree from `bad` failed verification: when `bad` is our
    /// parent its rejection count rises; at three it must be evicted.
    pub fn note_rejected(&mut self, bad: NodeId) -> (r: bool)
        requires old(self).parent matches Some(p) ==> p.rejected_blocks < u32::MAX,
        ensures
            match old(self).parent {
                Some(p) if p.node_id == bad => {
                    &&& final(self).parent == Some(ParentLink { rejected_blocks: (p.rejected_blocks + 1) as u32, ..p })
                    &&& r == (p.rejected_blocks + 1 >= 3)
                    &&& *final(self) == (TreeState { parent: final(self).parent, ..*old(self) })
                },
                _ => !r && *final(self) == *old(self),
            },
    {
        match self.parent.take() {
            Some(mut p) => {
                if p.node_id.same(&bad) {
                    p.rejected_blocks = p.rejected_blocks + 1;
                    let evict = p.rejected_blocks >= 3;
                    self.parent = Some(p);
                    evict
                } else {
                    self.parent = Some(p);
                    false
                }
            },
            None => false,
        }
    }

    /// A block of segment `segment` was verified in this tree; `complete` says
    /// whether every block of this tree in all that segment's chunks is now
    /// verified. A newly completed segment advances the tree's live edge and
    /// its verified-segment count; returns whether that ended warm-up for a
    /// tree we relay (the node then re-registers).
    pub fn note_verified(&mut self, segment: SegmentSeq, complete: bool) -> (r: bool)
        requires old(self).verified_segments < u32::MAX,
        ensures
            final(self).last_segment_seen.0 == if segment.0 > old(self).last_segment_seen.0 { segment.0 } else { old(self).last_segment_seen.0 },
            segment.0 > old(self).live_edge.0 && complete ==> {
                &&& final(self).live_edge == segment
                &&& final(self).verified_segments == old(self).verified_segments + 1
                &&& r == (old(self).verified_segments == 0 && old(self).assigned)
            },
            !(segment.0 > old(self).live_edge.0 && complete) ==> {
                &&& final(self).live_edge == old(self).live_edge
                &&& final(self).verified_segments == old(self).verified_segments
                &&& !r
            },
            *final(self) == (TreeState {
                last_segment_seen: final(self).last_segment_seen,
                live_edge: final(self).live_edge,
                verified_segments: final(self).verified_segments,
                ..*old(self)
            }),
    {
        if segment.0 > self.last_segment_seen.0 {
            self.last_segment_seen = segment;
        }
        if segment.0 > self.live_edge.0 && complete {
            self.live_edge = segment;
            self.verified_segments = self.verified_segments + 1;
            return self.verified_segments == 1 && self.assigned;
        }
        false
    }
}


/// What we answer a probe for tree `tree`: free slots, advertised depth, how
/// the tree looks, and its live edge; for a tree we do not have, nothing free,
/// unknown depth, unparented, no live edge.
pub fn probe_view(trees: &Vec<TreeState>, tree: TreeId, is_source: bool) -> (r: (u16, u8, ProbeTreeState, SegmentSeq))
    ensures
        if 1 <= tree.0 && tree.0 - 1 < trees@.len() {
            let t = trees@[tree.0 - 1];
            &&& r.0 == k_avail_spec(t, is_source)
            &&& r.1 == t.depth
            &&& r.2 == (if is_source {
                ProbeTreeState::Serving
            } else if t.parent is None {
                ProbeTreeState::Unparented
            } else if t.verified_segments == 0 {
                ProbeTreeState::Warming
            } else {
                ProbeTreeState::Serving
            })
            &&& r.3 == t.live_edge
        } else {
            r == (0u16, 255u8, ProbeTreeState::Unparented, SegmentSeq(0))
        },
{
    if tree.0 == 0 || tree.index() >= trees.len() {
        return (0, u8::MAX, ProbeTreeState::Unparented, SegmentSeq::none());
    }
    let t = &trees[tree.index()];
    (t.k_avail(is_source), t.advertised_depth(), t.probe_state(is_source), t.live_edge)
}

} // verus!
