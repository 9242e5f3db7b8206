//! One liveness sweep over a node's trees: which silent parents to ping or
//! evict, which draining children to let go, and which idle children get a
//! heartbeat (one per address, however many trees it shares with us).
use vstd::prelude::*;
use crate::peer::forest::{drain_expired, ChildLink, ParentCheck, ParentLink, PeerAddr, TreeState};
use crate::peer::params::{tau_evict_spec, Params};
use crate::time::{sat_sub, Instant};
use crate::wire::{SegmentSeq, TreeId};

verus! {

/// The heartbeat rule's verdict on a tree's parent at `now`.
pub open spec fn parent_verdict(t: TreeState, params: Params, now: Instant) -> ParentCheck {
    match t.parent {
        None => ParentCheck::Quiet,
        Some(p) => {
            let silence = sat_sub(now.0 as int, p.last_rx.0 as int);
            if silence > tau_evict_spec(params.tau_ping.0, params.tau_evict_floor.0, p.srtt.0, p.rttvar.0) {
                ParentCheck::Evict
            } else if silence > params.tau_ping.0 && !p.pinged {
                ParentCheck::Ping(p.addr)
            } else {
                ParentCheck::Quiet
            }
        },
    }
}

/// The parents to ping, in tree order.
pub open spec fn pings(ts: Seq<TreeState>, params: Params, now: Instant) -> Seq<PeerAddr>
    decreases ts.len(),
{
    if ts.len() == 0 {
        Seq::empty()
    } else {
        let rest = pings(ts.drop_last(), params, now);
        match parent_verdict(ts.last(), params, now) {
            ParentCheck::Ping(a) => rest.push(a),
            _ => rest,
        }
    }
}

/// The trees whose parent timed out, in tree order.
pub open spec fn evictions(ts: Seq<TreeState>, params: Params, now: Instant) -> Seq<TreeId>
    decreases ts.len(),
{
    if ts.len() == 0 {
        Seq::empty()
    } else {
        let rest = evictions(ts.drop_last(), params, now);
        if parent_verdict(ts.last(), params, now) is Evict {
            rest.push(ts.last().id)
        } else {
            rest
        }
    }
}

/// A tree's parent after the heartbeat rule: pinged when it was pinged now.
pub open spec fn parent_after(t: TreeState, params: Params, now: Instant) -> Option<ParentLink> {
    match (t.parent, parent_verdict(t, params, now)) {
        (Some(p), ParentCheck::Ping(_)) => Some(ParentLink { pinged: true, ..p }),
        _ => t.parent,
    }
}

/// A child kept through the sweep: its drain deadline is not reached.
pub open spec fn kept(t: TreeState, live_edge: SegmentSeq) -> Seq<ChildLink> {
    t.children@.filter(|c: ChildLink| !drain_expired(c, live_edge))
}

/// Whether a child has been sent nothing for `τ_ping` or more.
pub open spec fn heartbeat_due(c: ChildLink, params: Params, now: Instant) -> bool {
    sat_sub(now.0 as int, c.last_tx.0 as int) >= params.tau_ping.0
}

/// A kept child after the sweep: a heartbeat moves its last-sent time to `now`.
pub open spec fn after_heartbeat(c: ChildLink, params: Params, now: Instant) -> ChildLink {
    if heartbeat_due(c, params, now) {
        ChildLink { last_tx: now, ..c }
    } else {
        c
    }
}

/// Whether `after` is tree `t` after the sweep: its parent marked pinged
/// when pinged now, its expired drains gone, its idle children's last-sent
/// time at `now`, all else unchanged.
pub open spec fn swept(t: TreeState, after: TreeState, params: Params, live_edge: SegmentSeq, now: Instant) -> bool {
    &&& after == (TreeState { parent: parent_after(t, params, now), children: after.children, ..t })
    &&& after.children@ == kept(t, live_edge).map_values(|c: ChildLink| after_heartbeat(c, params, now))
}

/// The children whose drain deadline the live edge reached, with their
/// tree, in tree order then child order.
pub open spec fn expired_drains(ts: Seq<TreeState>, live_edge: SegmentSeq) -> Seq<(TreeId, ChildLink)>
    decreases ts.len(),
{
    if ts.len() == 0 {
        Seq::empty()
    } else {
        let t = ts.last();
        expired_drains(ts.drop_last(), live_edge) + t.children@.filter(|c: ChildLink| drain_expired(c, live_edge)).map_values(
            |c: ChildLink| (t.id, c),
        )
    }
}

/// Every kept child due a heartbeat, with its tree, in tree order then child order.
pub open spec fn due_heartbeats(ts: Seq<TreeState>, params: Params, live_edge: SegmentSeq, now: Instant) -> Seq<(TreeId, PeerAddr)>
    decreases ts.len(),
{
    if ts.len() == 0 {
        Seq::empty()
    } else {
        let t = ts.last();
        due_heartbeats(ts.drop_last(), params, live_edge, now) + kept(t, live_edge).filter(
            |c: ChildLink| heartbeat_due(c, params, now),
        ).map_values(|c: ChildLink| (t.id, c.addr))
    }
}

/// The first entry for each address, in order.
pub open spec fn first_per_addr(s: Seq<(TreeId, PeerAddr)>) -> Seq<(TreeId, PeerAddr)>
    decreases s.len(),
{
    if s.len() == 0 {
        Seq::empty()
    } else {
        let rest = first_per_addr(s.drop_last());
        if exists|i: int| 0 <= i < s.len() - 1 && (#[trigger] s[i]).1 == s.last().1 {
            rest
        } else {
            rest.push(s.last())
        }
    }
}

/// An address occurs in `s` exactly when it occurs among its first entries.
proof fn lemma_first_per_addr(s: Seq<(TreeId, PeerAddr)>, a: PeerAddr)
    ensures
        (exists|i: int| 0 <= i < s.len() && (#[trigger] s[i]).1 == a) <==> (exists|i: int|
            0 <= i < first_per_addr(s).len() && (#[trigger] first_per_addr(s)[i]).1 == a),
    decreases s.len(),
{
    if s.len() > 0 {
        let d = s.drop_last();
        lemma_first_per_addr(d, a);
        let f = first_per_addr(s);
        let fd = first_per_addr(d);
        if exists|i: int| 0 <= i < s.len() && (#[trigger] s[i]).1 == a {
            let i = choose|i: int| 0 <= i < s.len() && (#[trigger] s[i]).1 == a;
            if i < s.len() - 1 {
                assert(d[i].1 == a);
                let j = choose|j: int| 0 <= j < fd.len() && (#[trigger] fd[j]).1 == a;
                if exists|x: int| 0 <= x < s.len() - 1 && (#[trigger] s[x]).1 == s.last().1 {
                    assert(f[j].1 == a);
                } else {
                    assert(f[j] == fd[j]);
                }
            } else if exists|x: int| 0 <= x < s.len() - 1 && (#[trigger] s[x]).1 == s.last().1 {
                let x = choose|x: int| 0 <= x < s.len() - 1 && (#[trigger] s[x]).1 == s.last().1;
                assert(d[x].1 == a);
                let j = choose|j: int| 0 <= j < fd.len() && (#[trigger] fd[j]).1 == a;
                assert(f[j].1 == a);
            } else {
                assert(f[fd.len() as int].1 == a);
            }
        }
        if exists|i: int| 0 <= i < f.len() && (#[trigger] f[i]).1 == a {
            let i = choose|i: int| 0 <= i < f.len() && (#[trigger] f[i]).1 == a;
            if i < fd.len() {
                assert(f[i] == fd[i]);
                let j = choose|j: int| 0 <= j < d.len() && (#[trigger] d[j]).1 == a;
                assert(s[j].1 == a);
            } else {
                assert(s[s.len() - 1].1 == a);
            }
        }
    }
}

/// No two first entries share an address.
proof fn lemma_first_per_addr_distinct(s: Seq<(TreeId, PeerAddr)>)
    ensures
        forall|x: int, y: int| 0 <= x < y < first_per_addr(s).len() ==> (#[trigger] first_per_addr(s)[x]).1 != (#[trigger] first_per_addr(s)[y]).1,
    decreases s.len(),
{
    if s.len() > 0 {
        let d = s.drop_last();
        lemma_first_per_addr_distinct(d);
        lemma_first_per_addr(d, s.last().1);
        let f = first_per_addr(s);
        let fd = first_per_addr(d);
        if !(exists|i: int| 0 <= i < s.len() - 1 && (#[trigger] s[i]).1 == s.last().1) {
            assert forall|x: int, y: int| 0 <= x < y < f.len() implies (#[trigger] f[x]).1 != (#[trigger] f[y]).1 by {
                if y == fd.len() {
                    if f[x].1 == f[y].1 {
                        assert(fd[x].1 == s.last().1);
                        let j = choose|j: int| 0 <= j < d.len() && (#[trigger] d[j]).1 == s.last().1;
                        assert(s[j].1 == s.last().1);
                    }
                } else {
                    assert(f[x] == fd[x] && f[y] == fd[y]);
                }
            }
        }
    }
}

/// Whether some entry of `hb` is for address `a`.
fn has_addr(hb: &Vec<(TreeId, PeerAddr)>, a: &PeerAddr) -> (r: bool)
    ensures
        r == exists|i: int| 0 <= i < hb@.len() && (#[trigger] hb@[i]).1 == *a,
{
    let mut i: usize = 0;
    while i < hb.len()
        invariant
            i <= hb@.len(),
            forall|x: int| 0 <= x < i ==> (#[trigger] hb@[x]).1 != *a,
        decreases hb@.len() - i,
    {
        if hb[i].1.same(a) {
            return true;
        }
        i = i + 1;
    }
    false
}

/// What one liveness sweep found.
pub struct Sweep {
    /// Parents silent past `τ_ping` for the first time: ping each.
    pub ping: Vec<PeerAddr>,
    /// Trees whose parent is silent past its eviction timeout: lose it.
    pub evict: Vec<TreeId>,
    /// Children removed because the live edge reached their drain deadline.
    pub expired: Vec<(TreeId, ChildLink)>,
    /// Idle children to ping, one entry per address (the first tree in
    /// which it is due).
    pub heartbeats: Vec<(TreeId, PeerAddr)>,
}

/// One liveness sweep at `now`: every tree's parent goes through the
/// heartbeat rule (a first ping is marked on the link), children whose
/// drain deadline the live edge reached are removed, and the remaining
/// children that were sent nothing for `τ_ping` are due a heartbeat, sent
/// once per address.
pub fn liveness_sweep(trees: &mut Vec<TreeState>, params: &Params, live_edge: SegmentSeq, now: Instant) -> (r: Sweep)
    ensures
        final(trees)@.len() == old(trees)@.len(),
        forall|k: int| 0 <= k < old(trees)@.len() ==> swept(old(trees)@[k], #[trigger] final(trees)@[k], *params, live_edge, now),
        r.ping@ == pings(old(trees)@, *params, now),
        r.evict@ == evictions(old(trees)@, *params, now),
        r.expired@ == expired_drains(old(trees)@, live_edge),
        r.heartbeats@ == first_per_addr(due_heartbeats(old(trees)@, *params, live_edge, now)),
        forall|x: int, y: int| 0 <= x < y < r.heartbeats@.len() ==> (#[trigger] r.heartbeats@[x]).1 != (#[trigger] r.heartbeats@[y]).1,
        forall|k: int, i: int| 0 <= k < final(trees)@.len() && 0 <= i < final(trees)@[k].children@.len() ==> !drain_expired(
            #[trigger] final(trees)@[k].children@[i],
            live_edge,
        ),
{
    let ghost before = trees@;
    let mut ping: Vec<PeerAddr> = Vec::new();
    let mut evict: Vec<TreeId> = Vec::new();
    let mut expired: Vec<(TreeId, ChildLink)> = Vec::new();
    let mut hb: Vec<(TreeId, PeerAddr)> = Vec::new();
    let mut k: usize = 0;
    while k < trees.len()
        invariant
            k <= trees@.len(),
            trees@.len() == before.len(),
            ping@ == pings(before.take(k as int), *params, now),
            evict@ == evictions(before.take(k as int), *params, now),
            expired@ == expired_drains(before.take(k as int), live_edge),
            hb@ == first_per_addr(due_heartbeats(before.take(k as int), *params, live_edge, now)),
            forall|x: int| 0 <= x < k ==> swept(before[x], #[trigger] trees@[x], *params, live_edge, now),
            forall|x: int| k <= x < trees@.len() ==> #[trigger] trees@[x] == before[x],
        decreases trees@.len() - k,
    {
        let ghost t0 = before[k as int];
        let ghost pre = before.take(k as int);
        proof {
            assert(before.take(k + 1).drop_last() =~= pre);
            assert(before.take(k + 1).last() == t0);
        }
        let id = trees[k].id;
        let v = trees[k].check_parent(params, now);
        match v {
            ParentCheck::Ping(a) => {
                ping.push(a);
            },
            ParentCheck::Evict => {
                evict.push(id);
            },
            ParentCheck::Quiet => {},
        }
        let gone = trees[k].take_expired_drains(live_edge);
        let ghost e0 = expired@;
        let mut j: usize = 0;
        while j < gone.len()
            invariant
                j <= gone@.len(),
                expired@ == e0 + gone@.map_values(|c: ChildLink| (id, c)).take(j as int),
            decreases gone@.len() - j,
        {
            proof {
                assert(gone@.map_values(|c: ChildLink| (id, c)).take(j + 1) =~= gone@.map_values(|c: ChildLink| (id, c)).take(
                    j as int,
                ).push((id, gone@[j as int])));
            }
            expired.push((id, gone[j]));
            j = j + 1;
        }
        proof {
            assert(gone@.map_values(|c: ChildLink| (id, c)).take(gone@.len() as int) =~= gone@.map_values(|c: ChildLink| (id, c)));
        }
        let ghost kids = trees@[k as int].children@;
        proof {
            let f1 = |c: ChildLink| !drain_expired(c, live_edge);
            assert(kids == t0.children@.filter(f1));
            assert(kids == kept(t0, live_edge));
        }
        let due = trees[k].child_heartbeats(params.tau_ping, now);
        let ghost pairs = due@.map_values(|a: PeerAddr| (id, a));
        let ghost h0 = due_heartbeats(pre, *params, live_edge, now);
        proof {
            let f1 = |c: ChildLink| sat_sub(now.0 as int, c.last_tx.0 as int) >= params.tau_ping.0;
            let f2 = |c: ChildLink| heartbeat_due(c, *params, now);
            assert(f1 =~= f2);
            assert(kids.filter(f1) == kids.filter(f2));
            assert(due@ == kids.filter(f1).map_values(|c: ChildLink| c.addr));
            assert(id == t0.id);
            assert(pairs =~= kept(t0, live_edge).filter(f2).map_values(|c: ChildLink| (t0.id, c.addr)));
        }
        let mut j: usize = 0;
        while j < due.len()
            invariant
                j <= due@.len(),
                pairs == due@.map_values(|a: PeerAddr| (id, a)),
                hb@ == first_per_addr(h0 + pairs.take(j as int)),
            decreases due@.len() - j,
        {
            let a = due[j];
            let ghost s = h0 + pairs.take(j as int);
            proof {
                assert(h0 + pairs.take(j + 1) =~= s.push((id, a)));
                assert((s.push((id, a))).drop_last() =~= s);
                lemma_first_per_addr(s, a);
                if exists|i: int| 0 <= i < s.len() && (#[trigger] s[i]).1 == a {
                    let i = choose|i: int| 0 <= i < s.len() && (#[trigger] s[i]).1 == a;
                    assert(s.push((id, a))[i].1 == a);
                }
                if exists|i: int| 0 <= i < s.push((id, a)).len() - 1 && (#[trigger] s.push((id, a))[i]).1 == a {
                    let i = choose|i: int| 0 <= i < s.push((id, a)).len() - 1 && (#[trigger] s.push((id, a))[i]).1 == a;
                    assert(s[i].1 == a);
                }
            }
            if !has_addr(&hb, &a) {
                hb.push((id, a));
            }
            j = j + 1;
        }
        proof {
            assert(pairs.take(due@.len() as int) =~= pairs);
            let t1 = trees@[k as int];
            assert(t1.children@ =~= kept(t0, live_edge).map_values(|c: ChildLink| after_heartbeat(c, *params, now)));
            assert(swept(t0, t1, *params, live_edge, now));
        }
        k = k + 1;
    }
    proof {
        assert(before.take(before.len() as int) =~= before);
        lemma_first_per_addr_distinct(due_heartbeats(before, *params, live_edge, now));
        assert forall|k: int, i: int| 0 <= k < trees@.len() && 0 <= i < trees@[k].children@.len() implies !drain_expired(
            #[trigger] trees@[k].children@[i],
            live_edge,
        ) by {
            let kk = kept(before[k], live_edge);
            assert(trees@[k].children@[i] == after_heartbeat(kk[i], *params, now));
            before[k].children@.lemma_filter_pred(|c: ChildLink| !drain_expired(c, live_edge), i);
        }
    }
    Sweep { ping, evict, expired, heartbeats: hb }
}

} // verus!
