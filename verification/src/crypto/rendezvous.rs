//! Rendezvous tree assignment: `a(v) = argmax_m Blake3(NodeID_v ‖ m)`, and the
//! full ranking used for multi-tree super nodes and coverage grants.
use vstd::prelude::*;
use crate::wire::{NodeId, TreeId};
use super::hashing::{blake3_digest, blake3_spec};

verus! {

/// Score of a node for tree `t`.
pub open spec fn score_spec(node: Seq<u8>, t: u8) -> Seq<u8> {
    blake3_spec(node + seq![t])
}

/// Whether a ranking holds tree `u`.
pub open spec fn ranking_holds(r: Seq<TreeId>, u: u8) -> bool {
    exists|i: int| 0 <= i < r.len() && r[i].0 == u
}

/// Whether a scored list holds tree `u`.
spec fn scored_holds(v: Seq<(u8, [u8; 32])>, u: u8) -> bool {
    exists|i: int| 0 <= i < v.len() && v[i].0 == u
}

/// Lexicographic (big-endian numeric) "greater than" on byte strings.
pub open spec fn lex_gt(a: Seq<u8>, b: Seq<u8>) -> bool
    decreases a.len(),
{
    if a.len() == 0 || b.len() == 0 {
        false
    } else if a[0] != b[0] {
        a[0] > b[0]
    } else {
        lex_gt(a.drop_first(), b.drop_first())
    }
}

/// `256^n`.
pub open spec fn pow256(n: nat) -> nat
    decreases n,
{
    if n == 0 { 1 } else { 256 * pow256((n - 1) as nat) }
}

/// A byte string read as a big-endian unsigned number.
pub open spec fn be_num(s: Seq<u8>) -> nat
    decreases s.len(),
{
    if s.len() == 0 { 0 } else { s[0] as nat * pow256((s.len() - 1) as nat) + be_num(s.drop_first()) }
}

proof fn lemma_be_num_bound(s: Seq<u8>)
    ensures
        be_num(s) < pow256(s.len()),
    decreases s.len(),
{
    if s.len() > 0 {
        lemma_be_num_bound(s.drop_first());
        let p = pow256((s.len() - 1) as nat);
        let r = be_num(s.drop_first());
        let d = s[0] as nat;
        assert(d * p + r < 256 * p) by (nonlinear_arith) requires d <= 255, r < p;
    }
}

/// On strings of one length, the order `lex_gt` is the order of the numbers
/// the strings spell in big-endian.
pub proof fn lemma_lex_gt_numeric(a: Seq<u8>, b: Seq<u8>)
    requires
        a.len() == b.len(),
    ensures
        lex_gt(a, b) <==> be_num(a) > be_num(b),
    decreases a.len(),
{
    if a.len() > 0 {
        let p = pow256((a.len() - 1) as nat);
        let (x, y) = (a[0] as nat, b[0] as nat);
        let (ra, rb) = (be_num(a.drop_first()), be_num(b.drop_first()));
        lemma_be_num_bound(a.drop_first());
        lemma_be_num_bound(b.drop_first());
        if x > y {
            assert(x * p + ra > y * p + rb) by (nonlinear_arith) requires x > y, rb < p, ra >= 0;
        } else if x < y {
            assert(x * p + ra < y * p + rb) by (nonlinear_arith) requires x < y, ra < p, rb >= 0;
        } else {
            lemma_lex_gt_numeric(a.drop_first(), b.drop_first());
        }
    }
}

/// Whether tree `a` ranks before tree `b` for `node`: higher score first, ties
/// to the lower tree id (a stable sort by descending score).
pub open spec fn ranks_before(node: Seq<u8>, a: u8, b: u8) -> bool {
    lex_gt(score_spec(node, a), score_spec(node, b))
        || (score_spec(node, a) == score_spec(node, b) && a < b)
}

proof fn lemma_lex_asym(a: Seq<u8>, b: Seq<u8>)
    ensures lex_gt(a, b) ==> !lex_gt(b, a),
    decreases a.len(),
{
    if a.len() > 0 && b.len() > 0 && a[0] == b[0] {
        lemma_lex_asym(a.drop_first(), b.drop_first());
    }
}

proof fn lemma_lex_trans(a: Seq<u8>, b: Seq<u8>, c: Seq<u8>)
    requires lex_gt(a, b), lex_gt(b, c),
    ensures lex_gt(a, c),
    decreases a.len(),
{
    if a[0] == b[0] && b[0] == c[0] {
        lemma_lex_trans(a.drop_first(), b.drop_first(), c.drop_first());
    }
}

proof fn lemma_lex_total(a: Seq<u8>, b: Seq<u8>)
    requires a.len() == b.len(),
    ensures lex_gt(a, b) || lex_gt(b, a) || a == b,
    decreases a.len(),
{
    if a.len() == 0 {
        assert(a =~= b);
    } else if a[0] == b[0] {
        lemma_lex_total(a.drop_first(), b.drop_first());
        if a.drop_first() == b.drop_first() {
            assert(a =~= seq![a[0]] + a.drop_first());
            assert(b =~= seq![b[0]] + b.drop_first());
        }
    }
}

proof fn lemma_rank_trans(node: Seq<u8>, a: u8, b: u8, c: u8)
    requires ranks_before(node, a, b), ranks_before(node, b, c),
    ensures ranks_before(node, a, c),
{
    let (sa, sb, sc) = (score_spec(node, a), score_spec(node, b), score_spec(node, c));
    if lex_gt(sa, sb) && lex_gt(sb, sc) {
        lemma_lex_trans(sa, sb, sc);
    }
}

proof fn lemma_rank_asym(node: Seq<u8>, a: u8, b: u8)
    ensures ranks_before(node, a, b) ==> !ranks_before(node, b, a),
{
    lemma_lex_asym(score_spec(node, a), score_spec(node, b));
    lemma_lex_asym(score_spec(node, b), score_spec(node, a));
}

/// Score of node `v` for tree `m`.
pub fn rendezvous_score(node: &NodeId, tree: TreeId) -> (r: [u8; 32])
    ensures r@ == score_spec(node.0@, tree.0),
{
    let mut buf: Vec<u8> = Vec::with_capacity(33);
    buf.extend_from_slice(node.0.as_slice());
    buf.push(tree.0);
    assert(buf@ =~= node.0@ + seq![tree.0]);
    blake3_digest(buf.as_slice())
}

fn lex_greater(a: &[u8; 32], b: &[u8; 32]) -> (r: bool)
    ensures r == lex_gt(a@, b@),
{
    let mut i: usize = 0;
    assert(a@.skip(0) =~= a@ && b@.skip(0) =~= b@);
    while i < 32
        invariant
            0 <= i <= 32,
            a@.len() == 32 && b@.len() == 32,
            lex_gt(a@, b@) == lex_gt(a@.skip(i as int), b@.skip(i as int)),
        decreases 32 - i,
    {
        assert(a@.skip(i as int)[0] == a@[i as int] && b@.skip(i as int)[0] == b@[i as int]);
        if a[i] != b[i] {
            return a[i] > b[i];
        }
        assert(a@.skip(i as int).drop_first() =~= a@.skip(i + 1));
        assert(b@.skip(i as int).drop_first() =~= b@.skip(i + 1));
        i = i + 1;
    }
    false
}

/// Trees `1..=m` ordered by descending rendezvous score; index 0 is the primary
/// assignment, index 1 the coverage-grant candidate.
pub fn rendezvous_rank(node: &NodeId, m: u8) -> (r: Vec<TreeId>)
    ensures
        r@.len() == m,
        forall|i: int| 0 <= i < r@.len() ==> 1 <= #[trigger] r@[i].0 <= m,
        forall|u: u8| 1 <= u <= m ==> #[trigger] ranking_holds(r@, u),
        forall|i: int, j: int| 0 <= i < j < r@.len() ==> ranks_before(node.0@, #[trigger] r@[i].0, #[trigger] r@[j].0),
        forall|i: int, j: int| 0 <= i < j < r@.len() ==> be_num(score_spec(node.0@, #[trigger] r@[i].0)) >= be_num(
            score_spec(node.0@, #[trigger] r@[j].0),
        ),
{
    let mut v: Vec<(u8, [u8; 32])> = Vec::new();
    let mut t: u8 = 0;
    while t < m
        invariant
            t <= m,
            v@.len() == t,
            forall|i: int| 0 <= i < v@.len() ==> 1 <= #[trigger] v@[i].0 <= t,
            forall|i: int| 0 <= i < v@.len() ==> #[trigger] v@[i].1@ == score_spec(node.0@, v@[i].0),
            forall|u: u8| 1 <= u <= t ==> #[trigger] scored_holds(v@, u),
            forall|i: int, j: int| 0 <= i < j < v@.len() ==> ranks_before(node.0@, #[trigger] v@[i].0, #[trigger] v@[j].0),
        decreases m - t,
    {
        t = t + 1;
        let s = rendezvous_score(node, TreeId(t));
        // First position whose entry the new tree ranks before.
        let mut p: usize = 0;
        while p < v.len() && !lex_greater(&s, &v[p].1)
            invariant
                0 <= p <= v@.len(),
                v@.len() == t - 1,
                forall|i: int| 0 <= i < v@.len() ==> 1 <= #[trigger] v@[i].0 <= t - 1,
                forall|i: int| 0 <= i < v@.len() ==> #[trigger] v@[i].1@ == score_spec(node.0@, v@[i].0),
                forall|i: int| 0 <= i < p ==> !lex_gt(s@, #[trigger] v@[i].1@),
            decreases v@.len() - p,
        {
            p = p + 1;
        }
        let ghost old_v = v@;
        proof {
            assert forall|i: int| 0 <= i < p implies ranks_before(node.0@, #[trigger] old_v[i].0, t) by {
                lemma_lex_total(s@, old_v[i].1@);
            }
            if p < old_v.len() {
                assert(lex_gt(s@, old_v[p as int].1@));
                assert(ranks_before(node.0@, t, old_v[p as int].0));
                assert forall|j: int| p <= j < old_v.len() implies ranks_before(node.0@, t, #[trigger] old_v[j].0) by {
                    if j > p {
                        assert(ranks_before(node.0@, old_v[p as int].0, old_v[j].0));
                        lemma_rank_trans(node.0@, t, old_v[p as int].0, old_v[j].0);
                    }
                }
            }
        }
        v.insert(p, (t, s));
        proof {
            assert(v@ == old_v.insert(p as int, (t, s)));
            assert forall|i: int, j: int| 0 <= i < j < v@.len() implies ranks_before(node.0@, #[trigger] v@[i].0, #[trigger] v@[j].0) by {
                if i < p && j < p {
                } else if i < p && j == p {
                } else if i < p && j > p {
                    assert(v@[j] == old_v[j - 1]);
                } else if i == p {
                    assert(v@[j] == old_v[j - 1]);
                } else {
                    assert(v@[i] == old_v[i - 1] && v@[j] == old_v[j - 1]);
                }
            }
            assert forall|u: u8| 1 <= u <= t implies #[trigger] scored_holds(v@, u) by {
                if u == t {
                    assert(v@[p as int].0 == u);
                } else {
                    assert(scored_holds(old_v, u));
                    let w = choose|i: int| 0 <= i < old_v.len() && old_v[i].0 == u;
                    if w < p {
                        assert(v@[w].0 == u);
                    } else {
                        assert(v@[w + 1].0 == u);
                    }
                }
            }
            assert forall|i: int| 0 <= i < v@.len() implies 1 <= #[trigger] v@[i].0 <= t by {
                if i > p {
                    assert(v@[i] == old_v[i - 1]);
                }
            }
            assert forall|i: int| 0 <= i < v@.len() implies #[trigger] v@[i].1@ == score_spec(node.0@, v@[i].0) by {
                if i > p {
                    assert(v@[i] == old_v[i - 1]);
                }
            }
        }
    }
    let mut out: Vec<TreeId> = Vec::with_capacity(v.len());
    let mut i: usize = 0;
    while i < v.len()
        invariant
            0 <= i <= v@.len(),
            out@.len() == i,
            forall|k: int| 0 <= k < i ==> #[trigger] out@[k].0 == v@[k].0,
        decreases v@.len() - i,
    {
        out.push(TreeId(v[i].0));
        i = i + 1;
    }
    proof {
        assert forall|u: u8| 1 <= u <= m implies #[trigger] ranking_holds(out@, u) by {
            assert(scored_holds(v@, u));
            let w = choose|k: int| 0 <= k < v@.len() && v@[k].0 == u;
            assert(out@[w].0 == u);
        }
        assert forall|a: int, b: int| 0 <= a < b < out@.len() implies ranks_before(node.0@, #[trigger] out@[a].0, #[trigger] out@[b].0) by {
            assert(out@[a].0 == v@[a].0 && out@[b].0 == v@[b].0);
        }
        assert forall|a: int, b: int| 0 <= a < b < out@.len() implies be_num(score_spec(node.0@, #[trigger] out@[a].0)) >= be_num(
            score_spec(node.0@, #[trigger] out@[b].0),
        ) by {
            assert(out@[a].0 == v@[a].0 && out@[b].0 == v@[b].0);
            assert(ranks_before(node.0@, v@[a].0, v@[b].0));
            assert(v@[a].1@.len() == 32 && v@[b].1@.len() == 32);
            lemma_lex_gt_numeric(v@[a].1@, v@[b].1@);
        }
    }
    out
}

/// Whether tree `t` of `1..=m` ranks before every other tree of `1..=m` for `node`.
pub open spec fn is_primary(node: Seq<u8>, t: u8, m: u8) -> bool {
    &&& 1 <= t <= m
    &&& forall|u: u8| 1 <= u <= m && u != t ==> ranks_before(node, t, u)
}

/// Primary tree assignment: the tree that ranks before every other tree of `1..=m`
/// (there is exactly one); the forest holds at least one tree.
pub fn assigned_tree(node: &NodeId, m: u8) -> (r: TreeId)
    requires m >= 1,
    ensures
        1 <= r.0 <= m,
        forall|u: u8| 1 <= u <= m && u != r.0 ==> ranks_before(node.0@, r.0, u),
        forall|u: u8| 1 <= u <= m ==> be_num(#[trigger] score_spec(node.0@, u)) <= be_num(score_spec(node.0@, r.0)),
        forall|t: u8| #[trigger] is_primary(node.0@, t, m) <==> t == r.0,
{
    let rank = rendezvous_rank(node, m);
    let r = rank[0];
    proof {
        assert forall|u: u8| 1 <= u <= m && u != r.0 implies ranks_before(node.0@, r.0, u) by {
            assert(ranking_holds(rank@, u));
            let w = choose|k: int| 0 <= k < rank@.len() && rank@[k].0 == u;
            assert(w != 0);
            assert(ranks_before(node.0@, rank@[0].0, rank@[w].0));
        }
        assert forall|u: u8| 1 <= u <= m implies be_num(#[trigger] score_spec(node.0@, u)) <= be_num(score_spec(node.0@, r.0)) by {
            assert(ranking_holds(rank@, u));
            let w = choose|k: int| 0 <= k < rank@.len() && rank@[k].0 == u;
            if w != 0 {
                assert(be_num(score_spec(node.0@, rank@[0].0)) >= be_num(score_spec(node.0@, rank@[w].0)));
            }
        }
        assert forall|t: u8| #[trigger] is_primary(node.0@, t, m) implies t == r.0 by {
            if t != r.0 {
                assert(ranks_before(node.0@, r.0, t));
                assert(ranks_before(node.0@, t, r.0));
                lemma_rank_asym(node.0@, r.0, t);
            }
        }
    }
    r
}


/// Growing the forest by one tree moves a node only onto the new tree: its
/// primary tree among `1..=m+1` is either the new tree `m + 1` or its primary
/// tree among `1..=m`.
pub proof fn lemma_growth_moves_only_to_new_tree(node: Seq<u8>, t: u8, m: u8)
    requires
        1 <= m < 255,
        is_primary(node, t, (m + 1) as u8),
    ensures
        t == m + 1 || is_primary(node, t, m),
{
}

} // verus!
