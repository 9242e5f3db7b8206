//! The forest's structural invariants, checked over a snapshot of every
//! node's per-tree state: the live edge never goes back, no tree serves more
//! children than its slots, a parent relays the tree it serves, depth is
//! consistent and within `D_max`, an edge carries one tree only (save from the
//! source), and no parent chain cycles.
use vstd::prelude::*;
use crate::peer::forest::{k_avail_spec, ChildLink, PeerAddr, TreeState};
use crate::wire::SegmentSeq;
use vstd::set_lib::{lemma_int_range, lemma_len_subset, set_int_range};
use crate::wire::TreeId;

verus! {

/// One node as the checks see it.
pub struct NodeSnapshot {
    /// Its address.
    pub addr: PeerAddr,
    /// Whether it is up.
    pub alive: bool,
    /// Whether it is the stream's source.
    pub is_source: bool,
    /// Its swarm buffer's live edge.
    pub live_edge: u32,
    /// Its trees, tree `k + 1` at position `k`.
    pub trees: Vec<TreeState>,
}

/// Which invariant failed.
#[derive(Debug, Clone, Copy, PartialEq, Eq)]
pub enum ViolationKind {
    /// The live edge went from `from` back to `to`.
    LiveEdgeRegressed { from: u32, to: u32 },
    /// More children served than slots.
    SlotBound { tree: TreeId },
    /// The parent is not assigned to the tree it serves.
    ParentNotAssigned { tree: TreeId },
    /// Depth is not one more than the parent's once blocks flow (soft).
    DepthMismatch { tree: TreeId },
    /// Depth beyond `D_max`.
    DepthBound { tree: TreeId },
    /// One parent serves this node in more than one tree (not the source).
    SharedEdge { parent: PeerAddr },
    /// The parent chain does not end within one hop more than there are
    /// nodes, so it never ends ([`lemma_unended_chain_cycles`]).
    TreeCycle { tree: TreeId },
}

/// A failed invariant at a node.
#[derive(Debug, Clone, Copy, PartialEq, Eq)]
pub struct Violation {
    /// Index of the node in the snapshot.
    pub node: usize,
    /// What failed.
    pub kind: ViolationKind,
}

impl Violation {
    /// Whether the failure is hard (halts a run): all but a depth mismatch.
    pub fn is_hard(&self) -> (r: bool)
        ensures r == !(self.kind is DepthMismatch),
    {
        match self.kind {
            ViolationKind::DepthMismatch { .. } => false,
            _ => true,
        }
    }
}

/// Addresses name nodes uniquely, every node holds the same trees, tree
/// `k + 1` at position `k`.
pub open spec fn well_shaped(nodes: Seq<NodeSnapshot>) -> bool {
    &&& forall|i: int, j: int| 0 <= i < nodes.len() && 0 <= j < nodes.len() && i != j ==> #[trigger] nodes[i].addr != #[trigger] nodes[j].addr
    &&& forall|i: int, j: int| 0 <= i < nodes.len() && 0 <= j < nodes.len() ==> #[trigger] nodes[i].trees@.len() == #[trigger] nodes[j].trees@.len()
    &&& forall|i: int, k: int| 0 <= i < nodes.len() && 0 <= k < nodes[i].trees@.len() ==> (#[trigger] nodes[i].trees@[k]).id.0 == k + 1
    &&& forall|i: int| 0 <= i < nodes.len() ==> (#[trigger] nodes[i].trees@.len()) < 256
}

/// Whether node `n` has tree `tree`.
pub open spec fn has_tree(n: NodeSnapshot, tree: TreeId) -> bool {
    1 <= tree.0 && tree.0 - 1 < n.trees@.len()
}

/// Tree `tree` of node `n`.
pub open spec fn tree_at(n: NodeSnapshot, tree: TreeId) -> TreeState {
    n.trees@[tree.0 - 1]
}

/// The node at address `a`, if any.
pub open spec fn node_at(nodes: Seq<NodeSnapshot>, a: PeerAddr) -> Option<int> {
    if exists|j: int| 0 <= j < nodes.len() && (#[trigger] nodes[j]).addr == a {
        Some(choose|j: int| 0 <= j < nodes.len() && (#[trigger] nodes[j]).addr == a)
    } else {
        None
    }
}

/// Whether a child is draining or admitted pending a drain.
pub open spec fn busy(c: ChildLink) -> bool {
    c.draining_until is Some || c.pending
}

/// Children draining or pending.
pub open spec fn busy_count(s: Seq<ChildLink>) -> nat
    decreases s.len(),
{
    if s.len() == 0 {
        0
    } else {
        busy_count(s.drop_last()) + if busy(s.last()) { 1nat } else { 0nat }
    }
}

/// Whether a tree serves more children than its slot count (children
/// draining or pending do not count; the count is taken as a `u16`).
pub open spec fn over_slots(t: TreeState) -> bool {
    ((t.children@.len() - busy_count(t.children@)) as u16) > t.k_v
}

/// The parent's state in `tree`, when the parent is a live node of the snapshot.
pub open spec fn parent_tree(nodes: Seq<NodeSnapshot>, t: TreeState, tree: TreeId) -> Option<TreeState> {
    match t.parent {
        Some(p) => match node_at(nodes, p.addr) {
            Some(j) => if nodes[j].alive && has_tree(nodes[j], tree) { Some(tree_at(nodes[j], tree)) } else { None },
            None => None,
        },
        None => None,
    }
}

/// Whether the parent chain of `cur` in `tree` reaches its end — the source,
/// a node without a parent, or a parent outside the snapshot — within `fuel` hops.
pub open spec fn chain_ends(nodes: Seq<NodeSnapshot>, tree: TreeId, cur: int, fuel: nat) -> bool
    decreases fuel,
{
    if fuel == 0 || !(0 <= cur < nodes.len()) || !has_tree(nodes[cur], tree) {
        fuel > 0
    } else if nodes[cur].is_source {
        true
    } else {
        match tree_at(nodes[cur], tree).parent {
            None => true,
            Some(p) => match node_at(nodes, p.addr) {
                None => true,
                Some(j) => chain_ends(nodes, tree, j, (fuel - 1) as nat),
            },
        }
    }
}

/// The tree a per-tree rule is about.
pub open spec fn rule_tree(kind: ViolationKind) -> Option<TreeId> {
    match kind {
        ViolationKind::SlotBound { tree } => Some(tree),
        ViolationKind::ParentNotAssigned { tree } => Some(tree),
        ViolationKind::DepthMismatch { tree } => Some(tree),
        ViolationKind::DepthBound { tree } => Some(tree),
        ViolationKind::TreeCycle { tree } => Some(tree),
        _ => None,
    }
}

/// Whether a per-tree rule fails at node `i`; the chain rule asks that the
/// parent chain end within one hop more than there are nodes (a chain that
/// does not, cycles: [`lemma_unended_chain_cycles`]).
pub open spec fn tree_rule(nodes: Seq<NodeSnapshot>, d_max: u8, i: int, kind: ViolationKind) -> bool {
    let n = nodes[i];
    match kind {
        ViolationKind::SlotBound { tree } => has_tree(n, tree) && over_slots(tree_at(n, tree)),
        ViolationKind::ParentNotAssigned { tree } => has_tree(n, tree) && (parent_tree(nodes, tree_at(n, tree), tree) matches Some(pt)
            && !pt.assigned),
        ViolationKind::DepthMismatch { tree } => {
            &&& has_tree(n, tree)
            &&& tree_at(n, tree).parent matches Some(p)
            &&& parent_tree(nodes, tree_at(n, tree), tree) matches Some(pt)
            &&& tree_at(n, tree).depth != 255
            &&& pt.depth != 255
            &&& tree_at(n, tree).depth != pt.depth + 1
            &&& p.first_block_at is Some
        },
        ViolationKind::DepthBound { tree } => has_tree(n, tree) && tree_at(n, tree).parent is Some && tree_at(n, tree).depth != 255
            && tree_at(n, tree).depth > d_max,
        ViolationKind::TreeCycle { tree } => has_tree(n, tree) && !chain_ends(nodes, tree, i, (nodes.len() + 1) as nat),
        _ => false,
    }
}

/// The address of a tree's parent, if any.
pub open spec fn parent_addr(t: TreeState) -> Option<PeerAddr> {
    match t.parent {
        Some(p) => Some(p.addr),
        None => None,
    }
}

/// Whether node `i` has parent `parent` in two of its trees.
pub open spec fn shares_edge(nodes: Seq<NodeSnapshot>, i: int, parent: PeerAddr) -> bool {
    exists|a: int, b: int|
        0 <= a < b < nodes[i].trees@.len() && #[trigger] parent_addr(nodes[i].trees@[a]) == Some(parent) && #[trigger] parent_addr(
            nodes[i].trees@[b],
        ) == Some(parent)
}

/// Whether the node at `a` is the source.
pub open spec fn source_at(nodes: Seq<NodeSnapshot>, a: PeerAddr) -> bool {
    (node_at(nodes, a) matches Some(j) && nodes[j].is_source)
}

/// The live edge node `i` had at the previous snapshot (0 when unknown).
pub open spec fn prev_of(prev: Seq<u32>, i: int) -> u32 {
    if 0 <= i < prev.len() { prev[i] } else { 0 }
}

/// Whether `kind` fails at node `i`.
pub open spec fn rule_holds(nodes: Seq<NodeSnapshot>, d_max: u8, prev: Seq<u32>, i: int, kind: ViolationKind) -> bool {
    match kind {
        ViolationKind::LiveEdgeRegressed { from, to } => from == prev_of(prev, i) && to == nodes[i].live_edge && to < from,
        ViolationKind::SharedEdge { parent } => shares_edge(nodes, i, parent) && !source_at(nodes, parent),
        _ => tree_rule(nodes, d_max, i, kind),
    }
}

/// Whether `v` is a failure of the snapshot: its node is live and its rule fails there.
pub open spec fn violated(nodes: Seq<NodeSnapshot>, d_max: u8, prev: Seq<u32>, v: Violation) -> bool {
    &&& v.node < nodes.len()
    &&& nodes[v.node as int].alive
    &&& rule_holds(nodes, d_max, prev, v.node as int, v.kind)
}

/// The node at address `a`.
fn find_node(nodes: &Vec<NodeSnapshot>, a: &PeerAddr) -> (r: Option<usize>)
    requires well_shaped(nodes@),
    ensures
        match r {
            Some(j) => node_at(nodes@, *a) == Some(j as int),
            None => node_at(nodes@, *a) is None,
        },
{
    let mut j: usize = 0;
    while j < nodes.len()
        invariant
            well_shaped(nodes@),
            j <= nodes@.len(),
            forall|k: int| 0 <= k < j ==> (#[trigger] nodes@[k]).addr != *a,
        decreases nodes@.len() - j,
    {
        if nodes[j].addr.same(a) {
            proof {
                assert(nodes@[j as int].addr == *a);
                assert(exists|x: int| 0 <= x < nodes@.len() && (#[trigger] nodes@[x]).addr == *a);
                if let Some(w) = node_at(nodes@, *a) {
                    assert(0 <= w < nodes@.len() && nodes@[w].addr == *a);
                    assert(nodes@[w].addr == nodes@[j as int].addr);
                }
            }
            return Some(j);
        }
        j = j + 1;
    }
    None
}

/// Children draining or pending in a tree.
fn busy_children(t: &TreeState) -> (r: usize)
    ensures
        r == busy_count(t.children@),
        r <= t.children@.len(),
{
    let mut n: usize = 0;
    let mut k: usize = 0;
    while k < t.children.len()
        invariant
            k <= t.children@.len(),
            n == busy_count(t.children@.take(k as int)),
            n <= k,
        decreases t.children@.len() - k,
    {
        proof {
            assert(t.children@.take(k + 1).drop_last() =~= t.children@.take(k as int));
        }
        let c = &t.children[k];
        if c.draining_until.is_some() || c.pending {
            n = n + 1;
        }
        k = k + 1;
    }
    proof {
        assert(t.children@.take(t.children@.len() as int) =~= t.children@);
    }
    n
}

/// Appends `v` when `cond` holds.
fn push_if(out: &mut Vec<Violation>, cond: bool, v: Violation)
    ensures
        forall|w: Violation| final(out)@.contains(w) <==> (old(out)@.contains(w) || (cond && w == v)),
        old(out)@.no_duplicates() && (cond ==> !old(out)@.contains(v)) ==> final(out)@.no_duplicates(),
{
    if cond {
        let ghost before = out@;
        out.push(v);
        proof {
            assert(out@ == before.push(v));
            if before.no_duplicates() && !before.contains(v) {
                assert forall|x: int, y: int| 0 <= x < out@.len() && 0 <= y < out@.len() && x != y implies out@[x] != out@[y] by {
                    if x < before.len() && y < before.len() {
                        assert(out@[x] == before[x] && out@[y] == before[y]);
                    } else if x < before.len() {
                        assert(before.contains(before[x]));
                    } else if y < before.len() {
                        assert(before.contains(before[y]));
                    }
                }
            }
            assert forall|w: Violation| out@.contains(w) <==> (before.contains(w) || w == v) by {
                if before.contains(w) {
                    let x = choose|x: int| 0 <= x < before.len() && before[x] == w;
                    assert(out@[x] == w);
                }
                if w == v {
                    assert(out@[before.len() as int] == w);
                }
                if out@.contains(w) {
                    let x = choose|x: int| 0 <= x < out@.len() && out@[x] == w;
                    if x < before.len() {
                        assert(before[x] == w);
                    }
                }
            }
        }
    }
}

/// Whether the parent chain of node `i` in tree `tree` ends within one hop
/// more than there are nodes.
fn chain_walk(nodes: &Vec<NodeSnapshot>, tree: TreeId, i: usize) -> (r: bool)
    requires
        well_shaped(nodes@),
        i < nodes@.len(),
        nodes@.len() < usize::MAX,
    ensures
        r == chain_ends(nodes@, tree, i as int, (nodes@.len() + 1) as nat),
{
    let mut cur: usize = i;
    let mut fuel: usize = nodes.len() + 1;
    loop
        invariant
            well_shaped(nodes@),
            cur < nodes@.len(),
            chain_ends(nodes@, tree, i as int, (nodes@.len() + 1) as nat) == chain_ends(nodes@, tree, cur as int, fuel as nat),
        decreases fuel,
    {
        if fuel == 0 {
            return false;
        }
        let n = &nodes[cur];
        if tree.0 < 1 || tree.0 as usize - 1 >= n.trees.len() {
            return true;
        }
        if n.is_source {
            return true;
        }
        match &n.trees[tree.0 as usize - 1].parent {
            None => {
                return true;
            },
            Some(p) => match find_node(nodes, &p.addr) {
                None => {
                    return true;
                },
                Some(j) => {
                    cur = j;
                    fuel = fuel - 1;
                },
            },
        }
    }
}

/// The index of the live parent holding tree `k + 1` of node `i`'s tree `k`.
fn parent_index(nodes: &Vec<NodeSnapshot>, i: usize, k: usize) -> (r: Option<usize>)
    requires
        well_shaped(nodes@),
        i < nodes@.len(),
        k < nodes@[i as int].trees@.len(),
    ensures
        match r {
            Some(j) => j < nodes@.len() && k < nodes@[j as int].trees@.len() && parent_tree(
                nodes@,
                nodes@[i as int].trees@[k as int],
                TreeId((k + 1) as u8),
            ) == Some(nodes@[j as int].trees@[k as int]),
            None => parent_tree(nodes@, nodes@[i as int].trees@[k as int], TreeId((k + 1) as u8)) is None,
        },
{
    match &nodes[i].trees[k].parent {
        None => None,
        Some(p) => match find_node(nodes, &p.addr) {
            None => None,
            Some(j) => {
                if nodes[j].alive && k < nodes[j].trees.len() {
                    Some(j)
                } else {
                    None
                }
            },
        },
    }
}

/// Appends the per-tree failures of node `i`'s tree `k`.
fn tree_checks(nodes: &Vec<NodeSnapshot>, d_max: u8, i: usize, k: usize, out: &mut Vec<Violation>)
    requires
        well_shaped(nodes@),
        i < nodes@.len(),
        k < nodes@[i as int].trees@.len(),
        nodes@.len() < usize::MAX,
        old(out)@.no_duplicates(),
        forall|w: Violation| #[trigger] old(out)@.contains(w) ==> !(w.node == i && rule_tree(w.kind) == Some(TreeId((k + 1) as u8))),
    ensures
        forall|w: Violation| #[trigger] final(out)@.contains(w) <==> (old(out)@.contains(w) || (w.node == i && rule_tree(w.kind)
            == Some(TreeId((k + 1) as u8)) && tree_rule(nodes@, d_max, i as int, w.kind))),
        final(out)@.no_duplicates(),
{
    let t = &nodes[i].trees[k];
    let tree = t.id;
    assert(tree == TreeId((k + 1) as u8));
    let busy = busy_children(t);
    let over = ((t.children.len() - busy) as u16) > t.k_v;
    let pj = parent_index(nodes, i, k);
    let unassigned = match pj {
        Some(j) => !nodes[j].trees[k].assigned,
        None => false,
    };
    let mismatch = match (&t.parent, pj) {
        (Some(p), Some(j)) => {
            let pd = nodes[j].trees[k].depth;
            t.depth != 255 && pd != 255 && t.depth as u16 != pd as u16 + 1 && p.first_block_at.is_some()
        },
        _ => false,
    };
    let too_deep = t.parent.is_some() && t.depth != 255 && t.depth > d_max;
    let cycles = !chain_walk(nodes, tree, i);
    let ghost o0 = out@;
    push_if(out, over, Violation { node: i, kind: ViolationKind::SlotBound { tree } });
    push_if(out, unassigned, Violation { node: i, kind: ViolationKind::ParentNotAssigned { tree } });
    push_if(out, mismatch, Violation { node: i, kind: ViolationKind::DepthMismatch { tree } });
    push_if(out, too_deep, Violation { node: i, kind: ViolationKind::DepthBound { tree } });
    push_if(out, cycles, Violation { node: i, kind: ViolationKind::TreeCycle { tree } });
    proof {
        assert forall|w: Violation| #[trigger] out@.contains(w) <==> (o0.contains(w) || (w.node == i && rule_tree(w.kind) == Some(
            tree,
        ) && tree_rule(nodes@, d_max, i as int, w.kind))) by {
            match w.kind {
                ViolationKind::SlotBound { tree: x } => {},
                ViolationKind::ParentNotAssigned { tree: x } => {},
                ViolationKind::DepthMismatch { tree: x } => {},
                ViolationKind::DepthBound { tree: x } => {},
                ViolationKind::TreeCycle { tree: x } => {},
                _ => {},
            }
        }
    }
}

/// Whether one of node `i`'s trees `lo..hi` has parent `p`.
fn has_parent_in(nodes: &Vec<NodeSnapshot>, i: usize, p: &PeerAddr, lo: usize, hi: usize) -> (r: bool)
    requires
        i < nodes@.len(),
        hi <= nodes@[i as int].trees@.len(),
    ensures
        r == exists|x: int| lo <= x < hi && #[trigger] parent_addr(nodes@[i as int].trees@[x]) == Some(*p),
{
    let trees = &nodes[i].trees;
    let mut x: usize = lo;
    while x < hi
        invariant
            hi <= trees@.len(),
            trees@ == nodes@[i as int].trees@,
            lo <= x,
            forall|y: int| lo <= y < x ==> #[trigger] parent_addr(trees@[y]) != Some(*p),
        decreases hi - x,
    {
        let hit = match &trees[x].parent {
            Some(l) => l.addr.same(p),
            None => false,
        };
        if hit {
            assert(parent_addr(nodes@[i as int].trees@[x as int]) == Some(*p));
            return true;
        }
        x = x + 1;
    }
    false
}

/// Appends a shared-edge failure for each parent that serves node `i` in
/// two or more trees and is not the source, once per parent.
fn shared_edge_checks(nodes: &Vec<NodeSnapshot>, i: usize, out: &mut Vec<Violation>)
    requires
        well_shaped(nodes@),
        i < nodes@.len(),
        old(out)@.no_duplicates(),
        forall|w: Violation| #[trigger] old(out)@.contains(w) ==> !(w.node == i && w.kind is SharedEdge),
    ensures
        forall|w: Violation| #[trigger] final(out)@.contains(w) <==> (old(out)@.contains(w) || (w.node == i && (w.kind matches ViolationKind::SharedEdge { parent }
            && shares_edge(nodes@, i as int, parent) && !source_at(nodes@, parent)))),
        final(out)@.no_duplicates(),
{
    let ghost o0 = out@;
    let ghost trees = nodes@[i as int].trees@;
    let len = nodes[i].trees.len();
    let mut a: usize = 0;
    while a < len
        invariant
            well_shaped(nodes@),
            i < nodes@.len(),
            trees == nodes@[i as int].trees@,
            len == trees.len(),
            a <= len,
            out@.no_duplicates(),
            forall|w: Violation| #[trigger] o0.contains(w) ==> !(w.node == i && w.kind is SharedEdge),
            forall|w: Violation| #[trigger] out@.contains(w) <==> (o0.contains(w) || (w.node == i && (w.kind matches ViolationKind::SharedEdge { parent }
                && shares_edge(nodes@, i as int, parent) && !source_at(nodes@, parent) && exists|x: int| 0 <= x < a && #[trigger] parent_addr(trees[x]) == Some(parent)))),
        decreases len - a,
    {
        let ghost before = out@;
        let pa = match &nodes[i].trees[a].parent {
            Some(l) => Some(l.addr),
            None => None,
        };
        assert(pa == parent_addr(trees[a as int]));
        match pa {
            None => {
                proof {
                    assert forall|w: Violation| #[trigger] out@.contains(w) <==> (o0.contains(w) || (w.node == i && (w.kind matches ViolationKind::SharedEdge { parent }
                        && shares_edge(nodes@, i as int, parent) && !source_at(nodes@, parent) && exists|x: int| 0 <= x < a + 1 && #[trigger] parent_addr(trees[x]) == Some(parent)))) by {
                        if let ViolationKind::SharedEdge { parent } = w.kind {
                            if exists|x: int| 0 <= x < a + 1 && #[trigger] parent_addr(trees[x]) == Some(parent) {
                                let x = choose|x: int| 0 <= x < a + 1 && #[trigger] parent_addr(trees[x]) == Some(parent);
                                assert(x != a);
                            }
                        }
                    }
                }
            },
            Some(p) => {
                let seen = has_parent_in(nodes, i, &p, 0, a);
                let later = has_parent_in(nodes, i, &p, a + 1, len);
                let src = match find_node(nodes, &p) {
                    Some(j) => nodes[j].is_source,
                    None => false,
                };
                assert(src == source_at(nodes@, p));
                let fresh = !seen && later && !src;
                push_if(out, fresh, Violation { node: i, kind: ViolationKind::SharedEdge { parent: p } });
                proof {
                    if later {
                        let c = choose|x: int| a + 1 <= x < len && #[trigger] parent_addr(trees[x]) == Some(p);
                        assert(parent_addr(nodes@[i as int].trees@[a as int]) == Some(p));
                        assert(parent_addr(nodes@[i as int].trees@[c]) == Some(p));
                        assert(shares_edge(nodes@, i as int, p));
                    }
                    if !seen && !later {
                        assert forall|x: int, y: int| 0 <= x < y < len implies !(#[trigger] parent_addr(trees[x]) == Some(p) && #[trigger] parent_addr(trees[y]) == Some(p)) by {
                            if parent_addr(trees[x]) == Some(p) && parent_addr(trees[y]) == Some(p) {
                                if x < a {
                                    assert(exists|z: int| 0 <= z < a && #[trigger] parent_addr(trees[z]) == Some(p));
                                } else {
                                    assert(a + 1 <= y);
                                    assert(exists|z: int| a + 1 <= z < len && #[trigger] parent_addr(trees[z]) == Some(p));
                                }
                            }
                        }
                        assert(!shares_edge(nodes@, i as int, p));
                    }
                    assert forall|w: Violation| #[trigger] out@.contains(w) <==> (o0.contains(w) || (w.node == i && (w.kind matches ViolationKind::SharedEdge { parent }
                        && shares_edge(nodes@, i as int, parent) && !source_at(nodes@, parent) && exists|x: int| 0 <= x < a + 1 && #[trigger] parent_addr(trees[x]) == Some(parent)))) by {
                        if let ViolationKind::SharedEdge { parent } = w.kind {
                            if exists|x: int| 0 <= x < a + 1 && #[trigger] parent_addr(trees[x]) == Some(parent) {
                                let x = choose|x: int| 0 <= x < a + 1 && #[trigger] parent_addr(trees[x]) == Some(parent);
                                if x == a && seen {
                                    let z = choose|z: int| 0 <= z < a && #[trigger] parent_addr(nodes@[i as int].trees@[z]) == Some(p);
                                    assert(parent_addr(trees[z]) == Some(parent));
                                }
                            }
                            if w == (Violation { node: i, kind: ViolationKind::SharedEdge { parent: p } }) && fresh {
                                assert(parent_addr(trees[a as int]) == Some(parent));
                            }
                        }
                    }
                }
            },
        }
        a = a + 1;
    }
    proof {
        assert forall|w: Violation| #[trigger] out@.contains(w) <==> (o0.contains(w) || (w.node == i && (w.kind matches ViolationKind::SharedEdge { parent }
            && shares_edge(nodes@, i as int, parent) && !source_at(nodes@, parent)))) by {
            if let ViolationKind::SharedEdge { parent } = w.kind {
                if shares_edge(nodes@, i as int, parent) {
                    let (x, y) = choose|x: int, y: int| 0 <= x < y < nodes@[i as int].trees@.len() && #[trigger] parent_addr(nodes@[i as int].trees@[x]) == Some(parent) && #[trigger] parent_addr(nodes@[i as int].trees@[y]) == Some(parent);
                    assert(parent_addr(trees[x]) == Some(parent));
                }
            }
        }
    }
}

/// Appends the failures at node `i`.
fn node_checks(nodes: &Vec<NodeSnapshot>, d_max: u8, prev: &Vec<u32>, i: usize, out: &mut Vec<Violation>)
    requires
        well_shaped(nodes@),
        i < nodes@.len(),
        nodes@.len() < usize::MAX,
        old(out)@.no_duplicates(),
        forall|w: Violation| #[trigger] old(out)@.contains(w) ==> w.node < i,
    ensures
        forall|w: Violation| #[trigger] final(out)@.contains(w) <==> (old(out)@.contains(w) || (w.node == i && violated(
            nodes@,
            d_max,
            prev@,
            w,
        ))),
        final(out)@.no_duplicates(),
{
    let ghost o0 = out@;
    if !nodes[i].alive {
        return;
    }
    let le = nodes[i].live_edge;
    let pv: u32 = if i < prev.len() {
        prev[i]
    } else {
        0
    };
    push_if(out, le < pv, Violation { node: i, kind: ViolationKind::LiveEdgeRegressed { from: pv, to: le } });
    let ghost o1 = out@;
    assert(forall|w: Violation| #[trigger] o1.contains(w) ==> w.node < i || w.kind is LiveEdgeRegressed);
    let len = nodes[i].trees.len();
    let mut k: usize = 0;
    while k < len
        invariant
            well_shaped(nodes@),
            i < nodes@.len(),
            nodes@.len() < usize::MAX,
            len == nodes@[i as int].trees@.len(),
            k <= len,
            out@.no_duplicates(),
            forall|w: Violation| #[trigger] o1.contains(w) ==> w.node < i || w.kind is LiveEdgeRegressed,
            forall|w: Violation| #[trigger] out@.contains(w) <==> (o1.contains(w) || (w.node == i && (rule_tree(w.kind) matches Some(t)
                && 1 <= t.0 <= k && tree_rule(nodes@, d_max, i as int, w.kind)))),
        decreases len - k,
    {
        let ghost before = out@;
        tree_checks(nodes, d_max, i, k, out);
        proof {
            assert forall|w: Violation| #[trigger] out@.contains(w) <==> (o1.contains(w) || (w.node == i && (rule_tree(w.kind) matches Some(t)
                && 1 <= t.0 <= k + 1 && tree_rule(nodes@, d_max, i as int, w.kind)))) by {
                assert(before.contains(w) ==> out@.contains(w));
            }
        }
        k = k + 1;
    }
    let ghost o2 = out@;
    shared_edge_checks(nodes, i, out);
    proof {
        assert forall|w: Violation| #[trigger] out@.contains(w) <==> (o0.contains(w) || (w.node == i && violated(nodes@, d_max, prev@, w))) by {
            assert(o2.contains(w) ==> out@.contains(w));
            assert(o1.contains(w) ==> o2.contains(w));
            match w.kind {
                ViolationKind::LiveEdgeRegressed { from, to } => {},
                ViolationKind::SharedEdge { parent } => {},
                _ => {
                    if w.node == i && tree_rule(nodes@, d_max, i as int, w.kind) {
                        assert(rule_tree(w.kind) is Some);
                    }
                },
            }
        }
    }
}

/// Every failed invariant of a snapshot: for each live node, a live edge
/// below the one it had (`prev_live_edge[i]`, 0 when absent), each tree over
/// its slots, served by a live parent not assigned to it, at a depth other
/// than the parent's plus one once blocks flow, deeper than `d_max`, or on a
/// parent chain that cycles, and each parent other than the source that
/// serves it in two or more trees. A violation is in the result exactly when
/// its rule fails at its node.
pub fn forest_violations(nodes: &Vec<NodeSnapshot>, d_max: u8, prev_live_edge: &Vec<u32>) -> (r: Vec<Violation>)
    requires
        well_shaped(nodes@),
        nodes@.len() < usize::MAX,
    ensures
        forall|v: Violation| #[trigger] r@.contains(v) <==> violated(nodes@, d_max, prev_live_edge@, v),
        r@.no_duplicates(),
{
    let mut out: Vec<Violation> = Vec::new();
    let mut i: usize = 0;
    while i < nodes.len()
        invariant
            well_shaped(nodes@),
            nodes@.len() < usize::MAX,
            i <= nodes@.len(),
            out@.no_duplicates(),
            forall|v: Violation| #[trigger] out@.contains(v) <==> (v.node < i && violated(nodes@, d_max, prev_live_edge@, v)),
        decreases nodes@.len() - i,
    {
        node_checks(nodes, d_max, prev_live_edge, i, &mut out);
        i = i + 1;
    }
    out
}

/// The live edges the next snapshot is held to: each live node's current
/// live edge; a node that is down keeps the one it had (0 when none).
pub fn next_live_edges(nodes: &Vec<NodeSnapshot>, prev: &Vec<u32>) -> (r: Vec<u32>)
    ensures
        r@.len() == nodes@.len(),
        forall|i: int| 0 <= i < nodes@.len() ==> #[trigger] r@[i] == if nodes@[i].alive {
            nodes@[i].live_edge
        } else {
            prev_of(prev@, i)
        },
{
    let mut out: Vec<u32> = Vec::new();
    let mut i: usize = 0;
    while i < nodes.len()
        invariant
            i <= nodes@.len(),
            out@.len() == i,
            forall|x: int| 0 <= x < i ==> #[trigger] out@[x] == if nodes@[x].alive {
                nodes@[x].live_edge
            } else {
                prev_of(prev@, x)
            },
        decreases nodes@.len() - i,
    {
        let v: u32 = if nodes[i].alive {
            nodes[i].live_edge
        } else if i < prev.len() {
            prev[i]
        } else {
            0
        };
        out.push(v);
        i = i + 1;
    }
    out
}

/// The check made when node `node` attaches to a parent in `tree` at
/// `depth`: deeper than `d_max` is a depth-bound failure.
pub fn attach_violation(node: usize, tree: TreeId, depth: u8, d_max: u8) -> (r: Option<Violation>)
    ensures
        depth > d_max ==> r == Some(Violation { node, kind: ViolationKind::DepthBound { tree } }),
        depth <= d_max ==> r is None,
{
    if depth > d_max {
        Some(Violation { node, kind: ViolationKind::DepthBound { tree } })
    } else {
        None
    }
}

/// At most every child is draining or pending.
proof fn lemma_busy_le(s: Seq<ChildLink>)
    ensures
        busy_count(s) <= s.len(),
    decreases s.len(),
{
    if s.len() > 0 {
        lemma_busy_le(s.drop_last());
    }
}

/// Marking a child busy never lowers the busy count.
proof fn lemma_busy_update(s: Seq<ChildLink>, i: int, x: ChildLink)
    requires
        0 <= i < s.len(),
        busy(x),
    ensures
        busy_count(s.update(i, x)) >= busy_count(s),
        busy(s[i]) ==> busy_count(s.update(i, x)) == busy_count(s),
        !busy(s[i]) ==> busy_count(s.update(i, x)) == busy_count(s) + 1,
    decreases s.len(),
{
    let u = s.update(i, x);
    if i == s.len() - 1 {
        assert(u.drop_last() =~= s.drop_last());
    } else {
        assert(u.drop_last() =~= s.drop_last().update(i, x));
        lemma_busy_update(s.drop_last(), i, x);
    }
}

/// Admitting a join into a free slot keeps the slot bound: when a tree
/// advertises a free slot and the requester joins as one more child
/// (served or pending), the tree serves no more children than its slots.
pub proof fn lemma_admit_keeps_slot_bound(t: TreeState, is_source: bool, link: ChildLink, after: TreeState)
    requires
        k_avail_spec(t, is_source) > 0,
        t.children@.len() < 65535,
        after.k_v == t.k_v,
        after.children@ == t.children@.push(link),
    ensures
        !over_slots(after),
{
    let s = t.children@;
    assert(after.children@.drop_last() =~= s);
    lemma_busy_le(s);
    assert(busy_count(after.children@) >= busy_count(s));
}

/// Displacing keeps the slot bound: when a tree within its slots marks one
/// child draining and takes a new child, and the new child waits (pending)
/// or the displaced child was being served, the tree still serves no more
/// children than its slots.
pub proof fn lemma_displace_keeps_slot_bound(t: TreeState, i: int, deadline: SegmentSeq, link: ChildLink, after: TreeState)
    requires
        !over_slots(t),
        0 <= i < t.children@.len(),
        t.children@.len() < 65535,
        link.pending || !busy(t.children@[i]),
        after.k_v == t.k_v,
        after.children@ == t.children@.update(i, ChildLink { draining_until: Some(deadline), ..t.children@[i] }).push(link),
    ensures
        !over_slots(after),
{
    let s = t.children@;
    let u = s.update(i, ChildLink { draining_until: Some(deadline), ..s[i] });
    lemma_busy_le(s);
    lemma_busy_update(s, i, ChildLink { draining_until: Some(deadline), ..s[i] });
    assert(after.children@.drop_last() =~= u);
    let a = after.children@;
    assert(busy_count(a) == busy_count(u) + if busy(link) { 1nat } else { 0nat });
    assert(((s.len() - busy_count(s)) as u16) == s.len() - busy_count(s));
    assert(a.len() == s.len() + 1);
    assert(a.len() - busy_count(a) <= s.len() - busy_count(s));
    lemma_busy_le(a);
    assert(((a.len() - busy_count(a)) as u16) == a.len() - busy_count(a));
}

/// The next node on the parent chain of `cur` in `tree`, if the chain goes on.
pub open spec fn hop(nodes: Seq<NodeSnapshot>, tree: TreeId, cur: int) -> Option<int> {
    if !(0 <= cur < nodes.len()) || !has_tree(nodes[cur], tree) || nodes[cur].is_source {
        None
    } else {
        match tree_at(nodes[cur], tree).parent {
            None => None,
            Some(p) => node_at(nodes, p.addr),
        }
    }
}

/// The node `k` hops up the parent chain from `c` (-1 once it has ended).
pub open spec fn walk(nodes: Seq<NodeSnapshot>, tree: TreeId, c: int, k: nat) -> int
    decreases k,
{
    if k == 0 {
        c
    } else {
        match hop(nodes, tree, walk(nodes, tree, c, (k - 1) as nat)) {
            Some(j) => j,
            None => -1,
        }
    }
}

proof fn lemma_walk_shift(nodes: Seq<NodeSnapshot>, tree: TreeId, c: int, j: int, k: nat)
    requires
        hop(nodes, tree, c) == Some(j),
    ensures
        walk(nodes, tree, c, k + 1) == walk(nodes, tree, j, k),
    decreases k,
{
    if k > 0 {
        lemma_walk_shift(nodes, tree, c, j, (k - 1) as nat);
        assert(walk(nodes, tree, c, k + 1) == match hop(nodes, tree, walk(nodes, tree, c, k)) {
            Some(x) => x,
            None => -1,
        });
        assert(walk(nodes, tree, j, k) == match hop(nodes, tree, walk(nodes, tree, j, (k - 1) as nat)) {
            Some(x) => x,
            None => -1,
        });
    } else {
        assert(walk(nodes, tree, c, 1) == match hop(nodes, tree, walk(nodes, tree, c, 0)) {
            Some(x) => x,
            None => -1,
        });
    }
}

/// A chain ends within `f` hops exactly when it reaches a node with no next hop
/// within its first `f` steps.
proof fn lemma_chain_walk(nodes: Seq<NodeSnapshot>, tree: TreeId, c: int, f: nat)
    ensures
        chain_ends(nodes, tree, c, f) <==> exists|k: nat| k < f && #[trigger] hop(nodes, tree, walk(nodes, tree, c, k)) is None,
    decreases f,
{
    if f > 0 {
        match hop(nodes, tree, c) {
            None => {
                assert(hop(nodes, tree, walk(nodes, tree, c, 0)) is None);
            },
            Some(j) => {
                lemma_chain_walk(nodes, tree, j, (f - 1) as nat);
                if exists|k: nat| k < f - 1 && #[trigger] hop(nodes, tree, walk(nodes, tree, j, k)) is None {
                    let k = choose|k: nat| k < f - 1 && #[trigger] hop(nodes, tree, walk(nodes, tree, j, k)) is None;
                    lemma_walk_shift(nodes, tree, c, j, k);
                    assert(hop(nodes, tree, walk(nodes, tree, c, k + 1)) is None);
                }
                if exists|k: nat| k < f && #[trigger] hop(nodes, tree, walk(nodes, tree, c, k)) is None {
                    let k = choose|k: nat| k < f && #[trigger] hop(nodes, tree, walk(nodes, tree, c, k)) is None;
                    assert(k != 0);
                    lemma_walk_shift(nodes, tree, c, j, (k - 1) as nat);
                    assert(hop(nodes, tree, walk(nodes, tree, j, (k - 1) as nat)) is None);
                }
            },
        }
    }
}

/// Two steps of a walk at the same node stay together.
proof fn lemma_walk_periodic(nodes: Seq<NodeSnapshot>, tree: TreeId, c: int, a: nat, b: nat, t: nat)
    requires
        walk(nodes, tree, c, a) == walk(nodes, tree, c, b),
    ensures
        walk(nodes, tree, c, a + t) == walk(nodes, tree, c, b + t),
    decreases t,
{
    if t > 0 {
        lemma_walk_periodic(nodes, tree, c, a, b, (t - 1) as nat);
        assert(walk(nodes, tree, c, a + t) == match hop(nodes, tree, walk(nodes, tree, c, (a + t - 1) as nat)) {
            Some(j) => j,
            None => -1,
        });
        assert(walk(nodes, tree, c, b + t) == match hop(nodes, tree, walk(nodes, tree, c, (b + t - 1) as nat)) {
            Some(j) => j,
            None => -1,
        });
    }
}

/// A parent chain that has not ended after one hop more than there are
/// nodes never ends: it has come back to a node it passed, and goes round
/// from there for ever.
pub proof fn lemma_unended_chain_cycles(nodes: Seq<NodeSnapshot>, tree: TreeId, c: int, f: nat)
    requires
        !chain_ends(nodes, tree, c, (nodes.len() + 1) as nat),
    ensures
        !chain_ends(nodes, tree, c, f),
{
    let n = nodes.len();
    lemma_chain_walk(nodes, tree, c, (n + 1) as nat);
    // Every step up to n is at a node of the snapshot.
    assert forall|k: nat| k <= n implies 0 <= #[trigger] walk(nodes, tree, c, k) < n by {
        assert(hop(nodes, tree, walk(nodes, tree, c, k)) is Some);
    }
    let s = Seq::new((n + 1) as nat, |k: int| walk(nodes, tree, c, k as nat));
    if s.no_duplicates() {
        s.unique_seq_to_set();
        lemma_int_range(0, n as int);
        assert forall|v: int| s.to_set().contains(v) implies set_int_range(0, n as int).contains(v) by {
            let k = choose|k: int| 0 <= k < s.len() && s[k] == v;
            assert(walk(nodes, tree, c, k as nat) == v);
        }
        lemma_len_subset(s.to_set(), set_int_range(0, n as int));
        assert(false);
    }
    let (a, b) = choose|a: int, b: int| 0 <= a < s.len() && 0 <= b < s.len() && a != b && s[a] == s[b];
    let (lo, hi) = if a < b { (a as nat, b as nat) } else { (b as nat, a as nat) };
    assert(walk(nodes, tree, c, lo) == walk(nodes, tree, c, hi));
    assert forall|k: nat| !(#[trigger] hop(nodes, tree, walk(nodes, tree, c, k)) is None) by {
        lemma_step_repeats(nodes, tree, c, lo, hi, k);
    }
    lemma_chain_walk(nodes, tree, c, f);
}

/// Past the repeat, every step is at a node met before `hi`.
proof fn lemma_step_repeats(nodes: Seq<NodeSnapshot>, tree: TreeId, c: int, lo: nat, hi: nat, k: nat)
    requires
        lo < hi <= nodes.len(),
        walk(nodes, tree, c, lo) == walk(nodes, tree, c, hi),
        forall|x: nat| x <= nodes.len() ==> !(#[trigger] hop(nodes, tree, walk(nodes, tree, c, x)) is None),
    ensures
        !(hop(nodes, tree, walk(nodes, tree, c, k)) is None),
    decreases k,
{
    if k >= hi {
        let p = (hi - lo) as nat;
        let k2 = (k - p) as nat;
        lemma_walk_periodic(nodes, tree, c, lo, hi, (k2 - lo) as nat);
        assert(lo + (k2 - lo) == k2);
        assert(hi + (k2 - lo) == k);
        lemma_step_repeats(nodes, tree, c, lo, hi, k2);
    }
}

} // verus!
