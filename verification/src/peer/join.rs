//! Parent selection for one tree: which known peers to probe, how a round of
//! probe answers splits, and what a failed round leads to (retry backoff and
//! the shed rule).
use vstd::prelude::*;
use crate::peer::discovery::{record_relays, PeerRecord, Reachability};
use crate::peer::forest::{ProbeTreeState, TreeState};
use crate::peer::params::Params;
use crate::crypto::rendezvous::{assigned_tree, is_primary};
use crate::time::Duration;
use crate::wire::{lemma_lex_irreflexive, lemma_lex_total, lemma_lex_transitive, lex_lt, tree_bit, NodeClass, NodeId, TreeId, TreeSet};

verus! {

/// Per-tree failure counters that drive the shed rule.
#[derive(Debug, Clone, Default)]
pub struct JoinStats {
    /// Consecutive rounds in which every candidate was saturated or absent.
    pub failed_rounds: u32,
    /// Rounds attempted in total.
    pub rounds: u32,
    /// Whether the last round saw a warming candidate (the round does not count).
    pub saw_warming: bool,
}

/// What a failed join round leads to.
#[derive(Debug, Clone, Copy, PartialEq, Eq)]
pub struct RoundVerdict {
    /// Consecutive failed rounds after this one.
    pub failed_rounds: u32,
    /// Top layer to shed down to first, when the shed rule fires.
    pub shed_to: Option<u8>,
    /// Wait this long before the next round; `None` when, after shedding, the
    /// tree no longer wants a parent.
    pub retry_after: Option<Duration>,
}

/// Whether a round counts towards shedding: some candidate refused or had no
/// slot, and none was warming up.
pub open spec fn round_counts(saw_warming: bool, saturated: nat) -> bool {
    !saw_warming && saturated > 0
}

/// The shed rule: after enough consecutive failed rounds on a subscribed tree
/// above the base layer, drop that layer and everything above.
pub open spec fn shed_fires(failed: u32, layer: u8, subscribed: bool, params: Params) -> bool {
    failed >= params.shed_after_failed_rounds && layer > 0 && subscribed
}

/// Doublings of the base join backoff: none while repairing (or orphaned
/// after a loss) or after a round that saw a warming candidate, else one per
/// failed round, at most two.
pub open spec fn backoff_doublings(failed: u32, t: TreeState, saw_warming: bool) -> nat {
    if t.repairing || (t.parent is None && t.lost_at is Some) || saw_warming {
        0
    } else if failed < 2 {
        failed as nat
    } else {
        2
    }
}

/// `2^n` for the doublings a backoff takes.
pub open spec fn doubling_factor(n: nat) -> nat {
    if n == 0 { 1 } else if n == 1 { 2 } else { 4 }
}

impl JoinStats {
    /// Score a failed join round for tree `t`, which carries `layer`.
    /// `saturated` counts candidates that refused (saturated or too deep) or
    /// advertised no slots; a round of pure timeouts is a discovery failure,
    /// not a shed signal, and leaves the counter alone.
    pub fn round_failed(&mut self, t: &TreeState, layer: u8, saturated: usize, params: &Params) -> (v: RoundVerdict)
        requires old(self).failed_rounds < u32::MAX,
        ensures
            final(self).failed_rounds == old(self).failed_rounds + if round_counts(old(self).saw_warming, saturated as nat) {
                1int
            } else {
                0int
            },
            final(self).rounds == old(self).rounds,
            final(self).saw_warming == old(self).saw_warming,
            v.failed_rounds == final(self).failed_rounds,
            v.shed_to == if shed_fires(v.failed_rounds, layer, t.subscribed, *params) {
                Some((layer - 1) as u8)
            } else {
                None::<u8>
            },
            v.retry_after == if shed_fires(v.failed_rounds, layer, t.subscribed, *params) && !t.assigned {
                None::<Duration>
            } else {
                Some(Duration(
                    if params.join_backoff.0 * doubling_factor(backoff_doublings(v.failed_rounds, *t, old(self).saw_warming))
                        > u64::MAX {
                        u64::MAX
                    } else {
                        (params.join_backoff.0 * doubling_factor(backoff_doublings(v.failed_rounds, *t, old(self).saw_warming)))
                            as u64
                    },
                ))
            },
    {
        if !self.saw_warming && saturated > 0 {
            self.failed_rounds = self.failed_rounds + 1;
        }
        let failed = self.failed_rounds;
        let shed = failed >= params.shed_after_failed_rounds && layer > 0 && t.subscribed;
        let shed_to = if shed { Some(layer - 1) } else { None };
        // Shedding drops this tree's subscription; an assigned tree keeps retrying.
        if shed && !t.assigned {
            return RoundVerdict { failed_rounds: failed, shed_to, retry_after: None };
        }
        let repairing = t.repairing || (t.parent.is_none() && t.lost_at.is_some());
        let factor: u64 = if repairing || self.saw_warming {
            1
        } else if failed == 0 {
            1
        } else if failed == 1 {
            2
        } else {
            4
        };
        RoundVerdict { failed_rounds: failed, shed_to, retry_after: Some(params.join_backoff.times(factor)) }
    }
}


/// Whether `id` is among `ids`.
fn holds_id(ids: &Vec<NodeId>, id: &NodeId) -> (r: bool)
    ensures r == ids@.contains(*id),
{
    let mut i: usize = 0;
    while i < ids.len()
        invariant
            i <= ids@.len(),
            forall|k: int| 0 <= k < i ==> ids@[k] != *id,
        decreases ids@.len() - i,
    {
        if ids[i].same(id) {
            assert(ids@[i as int] == *id);
            return true;
        }
        i = i + 1;
    }
    false
}

/// Whether a known peer may be probed as a parent in `tree`: it relays the
/// tree, is reachable, is neither us nor a peer caught sending bad blocks, is
/// not already our parent in some tree (the source excepted), and is not our
/// child in this tree.
pub open spec fn join_candidate(
    r: PeerRecord,
    tree: TreeId,
    me: NodeId,
    bad: Seq<NodeId>,
    parents: Seq<NodeId>,
    children: Seq<NodeId>,
) -> bool {
    &&& record_relays(r, tree)
    &&& r.flags.reachability != Reachability::Symmetric
    &&& r.node_id != me
    &&& !bad.contains(r.node_id)
    &&& (!parents.contains(r.node_id) || r.flags.source)
    &&& !children.contains(r.node_id)
}

/// The join candidates among `pool`, in order.
pub open spec fn candidate_pool(
    pool: Seq<PeerRecord>,
    tree: TreeId,
    me: NodeId,
    bad: Seq<NodeId>,
    parents: Seq<NodeId>,
    children: Seq<NodeId>,
) -> Seq<PeerRecord>
    decreases pool.len(),
{
    if pool.len() == 0 {
        Seq::empty()
    } else {
        let rest = candidate_pool(pool.drop_last(), tree, me, bad, parents, children);
        if join_candidate(pool.last(), tree, me, bad, parents, children) {
            rest.push(pool.last())
        } else {
            rest
        }
    }
}

/// The peers to probe for `tree`: the join candidates of the pool; with none,
/// the source, unless it is already our parent elsewhere while this tree has one.
pub open spec fn candidates_spec(
    pool: Seq<PeerRecord>,
    tree: TreeId,
    me: NodeId,
    bad: Seq<NodeId>,
    parents: Seq<NodeId>,
    children: Seq<NodeId>,
    source: Option<PeerRecord>,
    has_parent: bool,
) -> Seq<PeerRecord> {
    let found = candidate_pool(pool, tree, me, bad, parents, children);
    if found.len() == 0 {
        match source {
            Some(s) => if !parents.contains(s.node_id) || !has_parent {
                seq![s]
            } else {
                found
            },
            None => found,
        }
    } else {
        found
    }
}

/// Records in non-decreasing NodeID byte order.
pub open spec fn sorted_by_id(s: Seq<PeerRecord>) -> bool {
    forall|i: int, j: int| 0 <= i < j < s.len() ==> !lex_lt(#[trigger] s[j].node_id.0@, #[trigger] s[i].node_id.0@)
}

/// Inserting `x` at `p` keeps a sorted list sorted when everything before `p`
/// does not come after `x` and `p` is the end or comes after `x`.
proof fn lemma_insert_sorted(out: Seq<PeerRecord>, p: int, x: PeerRecord)
    requires
        sorted_by_id(out),
        0 <= p <= out.len(),
        forall|k: int| 0 <= k < p ==> !lex_lt(x.node_id.0@, #[trigger] out[k].node_id.0@),
        p < out.len() ==> lex_lt(x.node_id.0@, out[p].node_id.0@),
    ensures
        sorted_by_id(out.insert(p, x)),
{
    out.insert_ensures(p, x);
    let n = out.insert(p, x);
    assert forall|a: int, b: int| 0 <= a < b < n.len() implies !lex_lt(#[trigger] n[b].node_id.0@, #[trigger] n[a].node_id.0@) by {
        if b < p {
            assert(n[a] == out[a] && n[b] == out[b]);
        } else if b == p {
            assert(n[a] == out[a]);
        } else if a < p {
            assert(n[a] == out[a] && n[b] == out[b - 1]);
        } else if a == p {
            assert(n[b] == out[b - 1]);
            if lex_lt(out[b - 1].node_id.0@, x.node_id.0@) {
                lemma_lex_transitive(out[b - 1].node_id.0@, x.node_id.0@, out[p].node_id.0@);
                if p < b - 1 {
                    assert(!lex_lt(out[b - 1].node_id.0@, out[p].node_id.0@));
                } else {
                    lemma_lex_irreflexive(out[p].node_id.0@);
                }
            }
        } else {
            assert(n[a] == out[a - 1] && n[b] == out[b - 1]);
        }
    }
}

/// The records in NodeID byte order.
pub fn sort_by_node_id(v: Vec<PeerRecord>) -> (r: Vec<PeerRecord>)
    ensures
        sorted_by_id(r@),
        r@.to_multiset() == v@.to_multiset(),
{
    broadcast use vstd::seq_lib::group_to_multiset_ensures, vstd::multiset::group_multiset_axioms;

    let mut out: Vec<PeerRecord> = Vec::new();
    let mut i: usize = 0;
    while i < v.len()
        invariant
            i <= v@.len(),
            sorted_by_id(out@),
            out@.to_multiset() == v@.take(i as int).to_multiset(),
        decreases v@.len() - i,
    {
        let x = v[i];
        let mut p: usize = 0;
        while p < out.len() && !x.node_id.precedes(&out[p].node_id)
            invariant
                p <= out@.len(),
                forall|k: int| 0 <= k < p ==> !lex_lt(x.node_id.0@, #[trigger] out@[k].node_id.0@),
            decreases out@.len() - p,
        {
            p = p + 1;
        }
        let ghost before = out@;
        proof {
            lemma_insert_sorted(before, p as int, x);
        }
        out.insert(p, x);
        proof {
            let n = out@;
            before.insert_ensures(p as int, x);
            assert(n.remove(p as int) =~= before);
            assert(n[p as int] == x);
            assert(n.to_multiset() =~= before.to_multiset().insert(x)) by {
                n.to_multiset_ensures();
                assert(n.remove(p as int).to_multiset() == n.to_multiset().remove(x));
                assert(n.contains(x));
                assert(n.to_multiset().count(x) > 0);
            }
            assert(v@.take(i + 1) =~= v@.take(i as int).push(x));
            v@.take(i as int).to_multiset_ensures();
        }
        i = i + 1;
    }
    proof {
        assert(v@.take(v@.len() as int) =~= v@);
    }
    out
}

/// The peers to probe for `tree`, in NodeID order (see [`candidates_spec`]).
pub fn candidates_for(
    pool: &Vec<PeerRecord>,
    tree: TreeId,
    me: &NodeId,
    bad: &Vec<NodeId>,
    parents: &Vec<NodeId>,
    children: &Vec<NodeId>,
    source: Option<PeerRecord>,
    has_parent: bool,
) -> (r: Vec<PeerRecord>)
    ensures
        sorted_by_id(r@),
        r@.to_multiset() == candidates_spec(pool@, tree, *me, bad@, parents@, children@, source, has_parent).to_multiset(),
{
    let mut found: Vec<PeerRecord> = Vec::new();
    let mut i: usize = 0;
    while i < pool.len()
        invariant
            i <= pool@.len(),
            found@ == candidate_pool(pool@.take(i as int), tree, *me, bad@, parents@, children@),
        decreases pool@.len() - i,
    {
        let r = pool[i];
        proof {
            assert(pool@.take(i + 1).drop_last() =~= pool@.take(i as int));
        }
        let reachable = match r.flags.reachability {
            Reachability::Symmetric => false,
            _ => true,
        };
        if r.relays(tree) && reachable && !r.node_id.same(me) && !holds_id(bad, &r.node_id) && (!holds_id(parents, &r.node_id)
            || r.flags.source) && !holds_id(children, &r.node_id) {
            found.push(r);
        }
        i = i + 1;
    }
    proof {
        assert(pool@.take(pool@.len() as int) =~= pool@);
    }
    if found.len() == 0 {
        if let Some(s) = source {
            if !holds_id(parents, &s.node_id) || !has_parent {
                found.push(s);
                assert(found@ =~= seq![s]);
            }
        }
    }
    sort_by_node_id(found)
}

/// One probe answer as the join logic reads it.
#[derive(Debug, Clone, Copy, PartialEq, Eq)]
pub struct ProbeAnswer {
    /// How the tree looks at the candidate.
    pub tree_state: ProbeTreeState,
    /// Its hop depth.
    pub hop: u8,
    /// Its free slots.
    pub k_avail: u16,
}

/// How one candidate of a probing round counts.
#[derive(Debug, Clone, Copy, PartialEq, Eq, Structural)]
pub enum AnswerClass {
    /// No answer arrived.
    Silent,
    /// Attached but not yet forwarding: capacity is imminent.
    Warming,
    /// Unparented, or at the depth limit: not a parent now.
    Refused,
    /// Serving with free slots.
    Free,
    /// Serving but out of slots.
    Full,
}

/// The class of one probe answer under depth limit `d_max`.
pub open spec fn answer_class(a: Option<ProbeAnswer>, d_max: u8) -> AnswerClass {
    match a {
        None => AnswerClass::Silent,
        Some(p) => match p.tree_state {
            ProbeTreeState::Warming => AnswerClass::Warming,
            ProbeTreeState::Unparented => AnswerClass::Refused,
            ProbeTreeState::Serving => if p.hop >= d_max {
                AnswerClass::Refused
            } else if p.k_avail > 0 {
                AnswerClass::Free
            } else {
                AnswerClass::Full
            },
        },
    }
}

/// How a probing round splits: the free candidates in order; the full ones
/// in order, kept only when we relay this tree (a relay may displace a pure
/// subscriber, so it asks saturated parents after every free one); whether
/// some candidate was warming; and how many refused or were full.
pub open spec fn split_spec(answers: Seq<Option<ProbeAnswer>>, d_max: u8, we_relay: bool) -> (Seq<usize>, Seq<usize>, bool, nat)
    decreases answers.len(),
{
    if answers.len() == 0 {
        (Seq::empty(), Seq::empty(), false, 0)
    } else {
        let prev = split_spec(answers.drop_last(), d_max, we_relay);
        let i = (answers.len() - 1) as usize;
        match answer_class(answers.last(), d_max) {
            AnswerClass::Silent => prev,
            AnswerClass::Warming => (prev.0, prev.1, true, prev.3),
            AnswerClass::Refused => (prev.0, prev.1, prev.2, prev.3 + 1),
            AnswerClass::Free => (prev.0.push(i), prev.1, prev.2, prev.3),
            AnswerClass::Full => (prev.0, if we_relay { prev.1.push(i) } else { prev.1 }, prev.2, prev.3 + 1),
        }
    }
}

/// A probing round, split.
#[derive(Debug, Clone, PartialEq, Eq)]
pub struct RoundSplit {
    /// Candidates serving with free slots, by index, in order.
    pub free: Vec<usize>,
    /// Full candidates a relay of this tree may still ask, by index, in order.
    pub full: Vec<usize>,
    /// Whether some candidate was warming.
    pub saw_warming: bool,
    /// Candidates that refused or were full.
    pub saturated_seen: usize,
}

/// Split a round of probe answers (one per candidate, `None` when silent).
/// The caller orders each list by score, free ones first; with both empty the
/// round failed, and `saturated_seen` is what it counts.
pub fn split_round(answers: &Vec<Option<ProbeAnswer>>, d_max: u8, we_relay: bool) -> (r: RoundSplit)
    ensures
        (r.free@, r.full@, r.saw_warming, r.saturated_seen as nat) == split_spec(answers@, d_max, we_relay),
{
    let mut free: Vec<usize> = Vec::new();
    let mut full: Vec<usize> = Vec::new();
    let mut saw_warming = false;
    let mut saturated_seen: usize = 0;
    let mut i: usize = 0;
    while i < answers.len()
        invariant
            i <= answers@.len(),
            saturated_seen <= i,
            (free@, full@, saw_warming, saturated_seen as nat) == split_spec(answers@.take(i as int), d_max, we_relay),
        decreases answers@.len() - i,
    {
        proof {
            assert(answers@.take(i + 1).drop_last() =~= answers@.take(i as int));
        }
        match answers[i] {
            None => {},
            Some(a) => match a.tree_state {
                ProbeTreeState::Warming => {
                    saw_warming = true;
                },
                ProbeTreeState::Unparented => {
                    saturated_seen = saturated_seen + 1;
                },
                ProbeTreeState::Serving => {
                    if a.hop >= d_max {
                        saturated_seen = saturated_seen + 1;
                    } else if a.k_avail > 0 {
                        free.push(i);
                    } else {
                        saturated_seen = saturated_seen + 1;
                        if we_relay {
                            full.push(i);
                        }
                    }
                },
            },
        }
        i = i + 1;
    }
    proof {
        assert(answers@.take(answers@.len() as int) =~= answers@);
    }
    RoundSplit { free, full, saw_warming, saturated_seen }
}

/// The layer the unshed rule climbs back to: one above `top` while below the
/// highest layer wanted — the viewer's own choice (`wanted`, `None` for the
/// publisher) capped by the ladder's top layer; `None` once there.
pub fn unshed_target(top: u8, wanted: Option<u8>, layer_count: u8) -> (r: Option<u8>)
    ensures
        ({
            let max_layer: int = if layer_count == 0 { 0 } else { layer_count - 1 };
            let goal: int = match wanted {
                Some(w) => if w <= max_layer { w as int } else { max_layer },
                None => max_layer,
            };
            if top >= goal { r is None } else { r == Some((top + 1) as u8) }
        }),
{
    let max_layer = layer_count.saturating_sub(1);
    let goal = match wanted {
        Some(w) => if w <= max_layer { w } else { max_layer },
        None => max_layer,
    };
    if top >= goal {
        None
    } else {
        Some(top + 1)
    }
}

/// Whether a tree starves: it wants a parent, has none, and a join round failed.
pub open spec fn starving(t: TreeState, s: JoinStats) -> bool {
    (t.subscribed || t.assigned) && t.parent is None && s.failed_rounds > 0
}

/// The trees we starve in, to tell discovery (`trees[i]` goes with `stats[i]`).
pub fn starved_trees(trees: &Vec<TreeState>, stats: &Vec<JoinStats>) -> (r: TreeSet)
    requires
        trees@.len() == stats@.len(),
        forall|i: int| 0 <= i < trees@.len() ==> 1 <= (#[trigger] trees@[i]).id.0 <= 8,
    ensures
        forall|t: u8| 1 <= t <= 8 ==> (#[trigger] tree_bit(r.0, t) <==> exists|i: int|
            0 <= i < trees@.len() && (#[trigger] trees@[i]).id.0 == t && starving(trees@[i], stats@[i])),
{
    let mut set = TreeSet::empty();
    proof {
        assert forall|t: u8| 1 <= t <= 8 implies !#[trigger] tree_bit(set.0, t) by {
            let u = (t - 1) as u8;
            assert((0u8 >> u) & 1u8 == 0u8) by (bit_vector);
        }
    }
    let mut i: usize = 0;
    while i < trees.len()
        invariant
            i <= trees@.len(),
            trees@.len() == stats@.len(),
            forall|k: int| 0 <= k < trees@.len() ==> 1 <= (#[trigger] trees@[k]).id.0 <= 8,
            forall|t: u8| 1 <= t <= 8 ==> (#[trigger] tree_bit(set.0, t) <==> exists|k: int|
                0 <= k < i && (#[trigger] trees@[k]).id.0 == t && starving(trees@[k], stats@[k])),
        decreases trees@.len() - i,
    {
        let t = &trees[i];
        let ghost before = set.0;
        if t.wants_parent() && t.parent.is_none() && stats[i].failed_rounds > 0 {
            set.insert(t.id);
        }
        proof {
            assert forall|u: u8| 1 <= u <= 8 implies (#[trigger] tree_bit(set.0, u) <==> exists|k: int|
                0 <= k < i + 1 && (#[trigger] trees@[k]).id.0 == u && starving(trees@[k], stats@[k])) by {
                if exists|k: int| 0 <= k < i + 1 && (#[trigger] trees@[k]).id.0 == u && starving(trees@[k], stats@[k]) {
                    let k = choose|k: int| 0 <= k < i + 1 && (#[trigger] trees@[k]).id.0 == u && starving(trees@[k], stats@[k]);
                    if k < i {
                        assert(tree_bit(before, u));
                    }
                }
            }
        }
        i = i + 1;
    }
    set
}

/// The trees we relay: for a relay that is not the source, the one tree
/// rendezvous assigns its NodeID among `m`; none otherwise.
pub fn assigned_trees(node_id: &NodeId, m: u8, class: NodeClass, is_source: bool) -> (r: TreeSet)
    requires 1 <= m <= 8,
    ensures
        forall|t: u8| 1 <= t <= 8 ==> (#[trigger] tree_bit(r.0, t) <==> (class == NodeClass::Relay && !is_source
            && is_primary(node_id.0@, t, m))),
{
    let mut set = TreeSet::empty();
    proof {
        assert forall|t: u8| 1 <= t <= 8 implies !#[trigger] tree_bit(set.0, t) by {
            let u = (t - 1) as u8;
            assert((0u8 >> u) & 1u8 == 0u8) by (bit_vector);
        }
    }
    if !class.is_leaf() && !is_source {
        let t = assigned_tree(node_id, m);
        set.insert(t);
        proof {
            assert forall|u: u8| 1 <= u <= 8 implies (#[trigger] tree_bit(set.0, u) <==> is_primary(node_id.0@, u, m)) by {
                if u > m {
                    assert(!is_primary(node_id.0@, u, m));
                }
            }
        }
    } else {
        proof {
            assert forall|u: u8| 1 <= u <= 8 implies !(#[trigger] tree_bit(set.0, u)) by {}
        }
    }
    set
}

/// Give each tree its roles: subscribed and assigned by membership of its id.
pub fn apply_roles(trees: &mut Vec<TreeState>, subscribed: TreeSet, assigned: TreeSet)
    ensures
        final(trees)@.len() == old(trees)@.len(),
        forall|i: int| 0 <= i < old(trees)@.len() ==> #[trigger] final(trees)@[i] == (TreeState {
            subscribed: tree_bit(subscribed.0, old(trees)@[i].id.0),
            assigned: tree_bit(assigned.0, old(trees)@[i].id.0),
            ..old(trees)@[i]
        }),
{
    let ghost before = trees@;
    let mut i: usize = 0;
    while i < trees.len()
        invariant
            i <= trees@.len(),
            trees@.len() == before.len(),
            forall|k: int| 0 <= k < i ==> #[trigger] trees@[k] == (TreeState {
                subscribed: tree_bit(subscribed.0, before[k].id.0),
                assigned: tree_bit(assigned.0, before[k].id.0),
                ..before[k]
            }),
            forall|k: int| i <= k < trees@.len() ==> #[trigger] trees@[k] == before[k],
        decreases trees@.len() - i,
    {
        let id = trees[i].id;
        trees[i].subscribed = subscribed.contains(id);
        trees[i].assigned = assigned.contains(id);
        i = i + 1;
    }
}

} // verus!
