//! A peer that disconnects (or whose session closes) leaves every tree it
//! was in, or one tree when the notice was scoped to it.
use vstd::prelude::*;
use crate::peer::forest::{children_unique, left_post, release_post, PeerAddr, PeerLeft, TreeState};
use crate::time::Instant;
use crate::wire::TreeId;

verus! {

/// What a departed peer took from one tree.
#[derive(Debug, Clone)]
pub struct Departure {
    /// The parent and child links it held there.
    pub left: PeerLeft,
    /// The pending child served from now on, when the departed child was
    /// draining and so freed its slot.
    pub released: Option<PeerAddr>,
}

/// Whether a notice scoped to `scope` (none: every tree) concerns tree `id`.
pub open spec fn in_scope(id: TreeId, scope: Option<TreeId>) -> bool {
    match scope {
        None => true,
        Some(s) => s == id,
    }
}

/// What the departure of `from` does to tree `t`, leaving `after` with result `d`:
/// out of scope, nothing; else it leaves the tree (see [`left_post`]) and, when
/// the child it removed was draining, the first pending child is released.
pub open spec fn departed(t: TreeState, after: TreeState, d: Departure, from: PeerAddr, scope: Option<TreeId>, now: Instant, ending: bool) -> bool {
    if !in_scope(t.id, scope) {
        &&& after == t
        &&& d.left.lost_parent is None
        &&& d.left.removed_child is None
        &&& d.released is None
    } else {
        exists|mid: TreeState| {
            &&& #[trigger] left_post(t, mid, d.left, from, now, ending)
            &&& if d.left.removed_child matches Some(c) && c.draining_until is Some {
                release_post(mid, after, d.released)
            } else {
                after == mid && d.released is None
            }
        }
    }
}

/// The peer at `from` is gone from our trees (all of them, or only `scope`):
/// in each, it is lost as parent, forgotten as previous parent and dropped
/// as child; a dropped child that was draining frees its slot for the first
/// pending child. One entry per tree, in tree order.
pub fn peer_gone(trees: &mut Vec<TreeState>, from: PeerAddr, scope: Option<TreeId>, now: Instant, ending: bool) -> (r: Vec<Departure>)
    requires
        forall|k: int| 0 <= k < old(trees)@.len() ==> children_unique(#[trigger] old(trees)@[k]),
    ensures
        final(trees)@.len() == old(trees)@.len(),
        r@.len() == old(trees)@.len(),
        forall|k: int| 0 <= k < old(trees)@.len() ==> departed(#[trigger] old(trees)@[k], final(trees)@[k], r@[k], from, scope, now, ending),
{
    let ghost before = trees@;
    let mut out: Vec<Departure> = Vec::new();
    let mut k: usize = 0;
    while k < trees.len()
        invariant
            k <= trees@.len(),
            trees@.len() == before.len(),
            out@.len() == k,
            forall|x: int| 0 <= x < k ==> departed(#[trigger] before[x], trees@[x], out@[x], from, scope, now, ending),
            forall|x: int| k <= x < trees@.len() ==> #[trigger] trees@[x] == before[x],
            forall|x: int| 0 <= x < before.len() ==> children_unique(#[trigger] before[x]),
        decreases trees@.len() - k,
    {
        let id = trees[k].id;
        let concerned = match scope {
            None => true,
            Some(s) => s.0 == id.0,
        };
        if !concerned {
            out.push(Departure { left: PeerLeft { lost_parent: None, removed_child: None }, released: None });
        } else {
            let left = trees[k].peer_left(from, now, ending);
            let ghost mid = trees@[k as int];
            let draining = match &left.removed_child {
                Some(c) => c.draining_until.is_some(),
                None => false,
            };
            let released = if draining {
                trees[k].release_pending()
            } else {
                None
            };
            let d = Departure { left, released };
            proof {
                assert(left_post(before[k as int], mid, d.left, from, now, ending));
            }
            out.push(d);
        }
        k = k + 1;
    }
    out
}

} // verus!
