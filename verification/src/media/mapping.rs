//! Layer → tree allocation and the slicing matrix.
//!
//! The source builds the matrix from `(M, ladder)` with the minimax rule and
//! publishes it; peers only read it.
use vstd::prelude::*;
use crate::wire::{TreeId, TreeSet, tree_bit, MAX_TREES};
use super::ladder::{rates_of, sum_u32, lemma_sum_prefix_le, Ladder};
use super::manifest::{count_sum, layer_of_from, ManifestBody, TreeMappingEntry};
use super::MediaError;

verus! {

/// Per-tree view of the matrix.
#[derive(Debug, Clone, Copy, PartialEq, Eq, Structural)]
pub struct TreeInfo {
    /// Tree.
    pub tree_id: TreeId,
    /// Lowest layer carried (for bundles, the first of the bundle).
    pub layer: u8,
    /// Highest layer carried (equals `layer` unless bundled, M < L).
    pub layer_end: u8,
    /// Stripe index within the layer (0 for bundles).
    pub stripe_index: u8,
    /// Stripes of the layer (1 for bundles).
    pub stripe_count: u8,
    /// Shed priority; lower is shed first.
    pub priority: u8,
    /// Declared per-tree bitrate.
    pub bitrate_kbps: u16,
}

/// The slicing matrix in force.
#[derive(Debug, Clone, PartialEq, Eq)]
pub struct SlicingMatrix {
    /// Version, strictly increasing at each change.
    pub version: u8,
    /// One entry per tree, ordered by tree id from 1.
    pub trees: Vec<TreeInfo>,
    /// Layers in the ladder this matrix was built for.
    pub layer_count: u8,
}

// ---------------------------------------------------------------- striping (M >= L)

/// The layer with the largest per-tree bitrate `rates[i] / t[i]` among layers
/// `0..=i`, ties to the lower layer.
pub open spec fn best_upto(rates: Seq<u32>, t: Seq<u32>, i: int) -> int
    decreases i,
{
    if i <= 0 {
        0
    } else {
        let b = best_upto(rates, t, i - 1);
        if rates[i] as int * t[b] as int > rates[b] as int * t[i] as int { i } else { b }
    }
}

/// Stripe counts after handing out `extra` spare trees, one at a time, each to
/// the layer with the largest current per-tree bitrate.
pub open spec fn stripe_counts(rates: Seq<u32>, extra: nat) -> Seq<u32>
    decreases extra,
{
    if extra == 0 {
        Seq::new(rates.len(), |i: int| 1u32)
    } else {
        let t = stripe_counts(rates, (extra - 1) as nat);
        let b = best_upto(rates, t, rates.len() - 1);
        t.update(b, (t[b] + 1) as u32)
    }
}

/// Sum of the first `k` stripe counts.
pub open spec fn prefix_sum(t: Seq<u32>, k: int) -> int
    decreases k,
{
    if k <= 0 { 0 } else { prefix_sum(t, k - 1) + t[k - 1] }
}

/// The trees of one striped layer, numbered from `first_id`.
pub open spec fn striped_layer(rates: Seq<u32>, t: Seq<u32>, layer: int, first_id: int) -> Seq<TreeInfo> {
    Seq::new(t[layer] as nat, |s: int| TreeInfo {
        tree_id: TreeId((first_id + s) as u8),
        layer: layer as u8,
        layer_end: layer as u8,
        stripe_index: s as u8,
        stripe_count: t[layer] as u8,
        priority: (rates.len() - 1 - layer) as u8,
        bitrate_kbps: (rates[layer] / t[layer]) as u16,
    })
}

/// The trees of layers `0..upto`, in layer order, ids from 1.
pub open spec fn striped_trees(rates: Seq<u32>, t: Seq<u32>, upto: int) -> Seq<TreeInfo>
    decreases upto,
{
    if upto <= 0 {
        Seq::empty()
    } else {
        striped_trees(rates, t, upto - 1) + striped_layer(rates, t, upto - 1, 1 + prefix_sum(t, upto - 1))
    }
}

// ---------------------------------------------------------------- bundling (M < L)

/// Sum of `rates[s..e]`.
pub open spec fn sum_range(rates: Seq<u32>, s: int, e: int) -> nat {
    sum_u32(rates.subrange(s, e))
}

/// `m - 1` strictly increasing cut points in `1..l`.
pub open spec fn valid_cuts(c: Seq<usize>, l: int, k: int) -> bool {
    &&& c.len() == k
    &&& forall|i: int| 0 <= i < k ==> 1 <= #[trigger] c[i] <= l - 1
    &&& forall|i: int, j: int| 0 <= i < j < k ==> #[trigger] c[i] < #[trigger] c[j]
}

/// First layer of bundle `i`.
pub open spec fn bundle_start(c: Seq<usize>, i: int) -> int {
    if i == 0 { 0 } else { c[i - 1] as int }
}

/// One past the last layer of bundle `i`.
pub open spec fn bundle_end(c: Seq<usize>, i: int, l: int) -> int {
    if i == c.len() { l } else { c[i] as int }
}

/// The bitrate of each bundle.
pub open spec fn bundle_sums(rates: Seq<u32>, c: Seq<usize>) -> Seq<int> {
    Seq::new(c.len() + 1, |i: int| sum_range(rates, bundle_start(c, i), bundle_end(c, i, rates.len() as int)) as int)
}

/// Largest element (0 for an empty sequence).
pub open spec fn seq_max(s: Seq<int>) -> int
    decreases s.len(),
{
    if s.len() == 0 {
        0
    } else {
        let m = seq_max(s.drop_last());
        if s.last() > m { s.last() } else { m }
    }
}

/// Lexicographic "less than" on equal-length integer sequences.
pub open spec fn lex_lt(a: Seq<int>, b: Seq<int>) -> bool
    decreases a.len(),
{
    if a.len() == 0 || b.len() == 0 {
        false
    } else if a[0] != b[0] {
        a[0] < b[0]
    } else {
        lex_lt(a.drop_first(), b.drop_first())
    }
}

/// Cut points as integers.
pub open spec fn cuts_int(c: Seq<usize>) -> Seq<int> {
    c.map_values(|x: usize| x as int)
}

/// Whether cut set `a` is better than `b`: smaller largest bundle, then the
/// lexicographically smaller bundle bitrates (the first tree gets the smaller
/// bundle), then the earlier cut set.
pub open spec fn cut_better(rates: Seq<u32>, a: Seq<usize>, b: Seq<usize>) -> bool {
    let (sa, sb) = (bundle_sums(rates, a), bundle_sums(rates, b));
    ||| seq_max(sa) < seq_max(sb)
    ||| (seq_max(sa) == seq_max(sb) && lex_lt(sa, sb))
    ||| (seq_max(sa) == seq_max(sb) && sa == sb && lex_lt(cuts_int(a), cuts_int(b)))
}

/// The cut set the allocation rule picks: valid and beaten by no valid cut set.
pub open spec fn optimal_cuts(rates: Seq<u32>, m: int, c: Seq<usize>) -> bool {
    &&& valid_cuts(c, rates.len() as int, m - 1)
    &&& forall|y: Seq<usize>| valid_cuts(y, rates.len() as int, m - 1) ==> !#[trigger] cut_better(rates, y, c)
}

/// The bundle trees for a cut set.
pub open spec fn bundled_trees(rates: Seq<u32>, c: Seq<usize>, m: int) -> Seq<TreeInfo> {
    Seq::new(c.len() + 1, |i: int| TreeInfo {
        tree_id: TreeId((i + 1) as u8),
        layer: bundle_start(c, i) as u8,
        layer_end: (bundle_end(c, i, rates.len() as int) - 1) as u8,
        stripe_index: 0,
        stripe_count: 1,
        priority: (m - 1 - i) as u8,
        bitrate_kbps: sum_range(rates, bundle_start(c, i), bundle_end(c, i, rates.len() as int)) as u16,
    })
}

// ---------------------------------------------------------------- lemmas

proof fn lemma_lex_irrefl(a: Seq<int>)
    ensures !lex_lt(a, a),
    decreases a.len(),
{
    if a.len() > 0 {
        lemma_lex_irrefl(a.drop_first());
    }
}

proof fn lemma_lex_trans(a: Seq<int>, b: Seq<int>, c: Seq<int>)
    requires lex_lt(a, b), lex_lt(b, c),
    ensures lex_lt(a, c),
    decreases a.len(),
{
    if a[0] == b[0] && b[0] == c[0] {
        lemma_lex_trans(a.drop_first(), b.drop_first(), c.drop_first());
    }
}

proof fn lemma_lex_total(a: Seq<int>, b: Seq<int>)
    requires a.len() == b.len(),
    ensures lex_lt(a, b) || lex_lt(b, a) || a == b,
    decreases a.len(),
{
    if a.len() == 0 {
        assert(a =~= b);
    } else if a[0] == b[0] {
        lemma_lex_total(a.drop_first(), b.drop_first());
        if a.drop_first() == b.drop_first() {
            assert(a =~= seq![a[0]] + a.drop_first());
            assert(b =~= seq![b[0]] + b.drop_first());
        }
    }
}

proof fn lemma_better_irrefl(rates: Seq<u32>, a: Seq<usize>)
    ensures !cut_better(rates, a, a),
{
    lemma_lex_irrefl(bundle_sums(rates, a));
    lemma_lex_irrefl(cuts_int(a));
}

proof fn lemma_better_trans(rates: Seq<u32>, a: Seq<usize>, b: Seq<usize>, c: Seq<usize>)
    requires
        a.len() == b.len() && b.len() == c.len(),
        cut_better(rates, a, b),
        cut_better(rates, b, c),
    ensures cut_better(rates, a, c),
{
    let (sa, sb, sc) = (bundle_sums(rates, a), bundle_sums(rates, b), bundle_sums(rates, c));
    if seq_max(sa) == seq_max(sb) && seq_max(sb) == seq_max(sc) {
        if lex_lt(sa, sb) && lex_lt(sb, sc) {
            lemma_lex_trans(sa, sb, sc);
        } else if sa == sb && sb == sc {
            lemma_lex_trans(cuts_int(a), cuts_int(b), cuts_int(c));
        }
    }
}

proof fn lemma_better_total(rates: Seq<u32>, a: Seq<usize>, b: Seq<usize>)
    requires a.len() == b.len(),
    ensures cut_better(rates, a, b) || cut_better(rates, b, a) || a == b,
{
    let (sa, sb) = (bundle_sums(rates, a), bundle_sums(rates, b));
    lemma_lex_total(sa, sb);
    lemma_lex_total(cuts_int(a), cuts_int(b));
    if cuts_int(a) == cuts_int(b) {
        assert forall|i: int| 0 <= i < a.len() implies a[i] == b[i] by {
            assert(cuts_int(a)[i] == cuts_int(b)[i]);
        }
        assert(a =~= b);
    }
}

/// The optimum is unique.
pub proof fn lemma_optimal_cuts_unique(rates: Seq<u32>, m: int, a: Seq<usize>, b: Seq<usize>)
    requires optimal_cuts(rates, m, a), optimal_cuts(rates, m, b),
    ensures a == b,
{
    assert(!cut_better(rates, a, b));
    assert(!cut_better(rates, b, a));
    lemma_better_total(rates, a, b);
}


// ---------------------------------------------------------------- striping lemmas

proof fn lemma_best_upto_range(rates: Seq<u32>, t: Seq<u32>, i: int)
    requires 0 <= i,
    ensures 0 <= best_upto(rates, t, i) <= i,
    decreases i,
{
    if i > 0 {
        lemma_best_upto_range(rates, t, i - 1);
    }
}

proof fn lemma_prefix_sum_update(t: Seq<u32>, b: int, x: u32, k: int)
    requires 0 <= b < t.len(), 0 <= k <= t.len(),
    ensures prefix_sum(t.update(b, x), k) == prefix_sum(t, k) + (if b < k { x - t[b] } else { 0 }),
    decreases k,
{
    if k > 0 {
        lemma_prefix_sum_update(t, b, x, k - 1);
    }
}

proof fn lemma_prefix_sum_ones(n: nat, k: int)
    requires 0 <= k <= n,
    ensures prefix_sum(Seq::new(n, |i: int| 1u32), k) == k,
    decreases k,
{
    if k > 0 {
        lemma_prefix_sum_ones(n, k - 1);
    }
}

proof fn lemma_prefix_sum_mono(t: Seq<u32>, j: int, k: int)
    requires 0 <= j <= k <= t.len(),
    ensures prefix_sum(t, j) <= prefix_sum(t, k),
    decreases k - j,
{
    if j < k {
        lemma_prefix_sum_mono(t, j, k - 1);
    }
}

/// Shape of the stripe counts: one entry per layer, each between 1 and
/// `1 + extra`, summing to `L + extra`.
proof fn lemma_stripe_counts(rates: Seq<u32>, extra: nat)
    requires rates.len() >= 1, extra <= MAX_TREES,
    ensures
        stripe_counts(rates, extra).len() == rates.len(),
        forall|i: int| 0 <= i < rates.len() ==> 1 <= #[trigger] stripe_counts(rates, extra)[i] <= 1 + extra,
        prefix_sum(stripe_counts(rates, extra), rates.len() as int) == rates.len() + extra,
    decreases extra,
{
    if extra == 0 {
        lemma_prefix_sum_ones(rates.len(), rates.len() as int);
    } else {
        let e1 = (extra - 1) as nat;
        lemma_stripe_counts(rates, e1);
        let t = stripe_counts(rates, e1);
        let b = best_upto(rates, t, rates.len() - 1);
        lemma_best_upto_range(rates, t, rates.len() - 1);
        lemma_prefix_sum_update(t, b, (t[b] + 1) as u32, rates.len() as int);
        let t2 = stripe_counts(rates, extra);
        assert(t2 == t.update(b, (t[b] + 1) as u32));
        assert forall|i: int| 0 <= i < rates.len() implies 1 <= #[trigger] t2[i] <= 1 + extra by {
            if i != b {
                assert(t2[i] == t[i]);
            }
        }
    }
}

// ---------------------------------------------------------------- striping code

/// Stripe counts for `extra` spare trees.
fn stripe_count_vec(rates: &Vec<u32>, extra: usize) -> (t: Vec<u32>)
    requires rates@.len() >= 1, extra <= MAX_TREES,
    ensures t@ == stripe_counts(rates@, extra as nat),
{
    let l = rates.len();
    let mut t: Vec<u32> = Vec::new();
    let mut i: usize = 0;
    while i < l
        invariant
            l == rates@.len(),
            i <= l,
            t@ == Seq::new(i as nat, |x: int| 1u32),
        decreases l - i,
    {
        t.push(1);
        i = i + 1;
        assert(t@ =~= Seq::new(i as nat, |x: int| 1u32));
    }
    let mut k: usize = 0;
    while k < extra
        invariant
            l == rates@.len(),
            l >= 1,
            k <= extra <= MAX_TREES,
            t@ == stripe_counts(rates@, k as nat),
        decreases extra - k,
    {
        proof {
            lemma_stripe_counts(rates@, k as nat);
        }
        let mut best: usize = 0;
        let mut i: usize = 1;
        while i < l
            invariant
                l == rates@.len(),
                1 <= i <= l,
                t@.len() == l,
                forall|x: int| 0 <= x < l ==> #[trigger] t@[x] <= 1 + MAX_TREES,
                best == best_upto(rates@, t@, i - 1),
                best < i,
            decreases l - i,
        {
            let a: u64 = rates[i] as u64;
            let tb: u64 = t[best] as u64;
            let c: u64 = rates[best] as u64;
            let ti: u64 = t[i] as u64;
            assert(a * tb <= 0xffff_ffff * 9) by (nonlinear_arith)
                requires a <= 0xffff_ffff, tb <= 9;
            assert(c * ti <= 0xffff_ffff * 9) by (nonlinear_arith)
                requires c <= 0xffff_ffff, ti <= 9;
            if a * tb > c * ti {
                best = i;
            }
            i = i + 1;
        }
        let nb: u32 = t[best] + 1;
        t.set(best, nb);
        k = k + 1;
    }
    t
}

/// The striped trees for `t` stripe counts.
fn build_striped(rates: &Vec<u32>, t: &Vec<u32>, m: usize) -> (trees: Vec<TreeInfo>)
    requires
        rates@.len() >= 1,
        t@.len() == rates@.len(),
        forall|i: int| 0 <= i < t@.len() ==> 1 <= #[trigger] t@[i] <= MAX_TREES,
        prefix_sum(t@, t@.len() as int) == m,
        m <= MAX_TREES,
    ensures
        trees@ == striped_trees(rates@, t@, rates@.len() as int),
        trees@.len() == m,
        forall|p: int| 0 <= p < m ==> (#[trigger] trees@[p]).tree_id.0 == p + 1,
        trees@[0].layer == 0,
{
    let l = rates.len();
    let mut trees: Vec<TreeInfo> = Vec::new();
    let mut id: u8 = 1;
    let mut layer: usize = 0;
    while layer < l
        invariant
            l == rates@.len() == t@.len(),
            layer <= l,
            forall|i: int| 0 <= i < t@.len() ==> 1 <= #[trigger] t@[i] <= MAX_TREES,
            prefix_sum(t@, l as int) == m,
            m <= MAX_TREES,
            trees@ == striped_trees(rates@, t@, layer as int),
            trees@.len() == prefix_sum(t@, layer as int),
            id == 1 + trees@.len(),
            forall|p: int| 0 <= p < trees@.len() ==> (#[trigger] trees@[p]).tree_id.0 == p + 1,
            trees@.len() > 0 ==> trees@[0].layer == 0,
            layer > 0 ==> trees@.len() > 0,
        decreases l - layer,
    {
        let tl = t[layer];
        let per_tree = (rates[layer] / tl) as u16;
        let ghost before = trees@;
        let ghost first = 1 + prefix_sum(t@, layer as int);
        let ghost block = striped_layer(rates@, t@, layer as int, first);
        proof {
            lemma_prefix_sum_mono(t@, layer + 1, l as int);
        }
        let mut stripe: u32 = 0;
        while stripe < tl
            invariant
                l == rates@.len() == t@.len(),
                layer < l,
                tl == t@[layer as int],
                1 <= tl <= MAX_TREES,
                per_tree == (rates@[layer as int] / tl) as u16,
                prefix_sum(t@, layer as int + 1) <= m <= MAX_TREES,
                first == 1 + prefix_sum(t@, layer as int),
                block == striped_layer(rates@, t@, layer as int, first),
                stripe <= tl,
                trees@ == before + block.take(stripe as int),
                before.len() == prefix_sum(t@, layer as int),
                id == 1 + trees@.len(),
                forall|p: int| 0 <= p < trees@.len() ==> (#[trigger] trees@[p]).tree_id.0 == p + 1,
                trees@.len() > 0 ==> trees@[0].layer == 0,
                layer > 0 ==> before.len() > 0,
            decreases tl - stripe,
        {
            let info = TreeInfo {
                tree_id: TreeId(id),
                layer: layer as u8,
                layer_end: layer as u8,
                stripe_index: stripe as u8,
                stripe_count: tl as u8,
                priority: (l - 1 - layer) as u8,
                bitrate_kbps: per_tree,
            };
            assert(info == block[stripe as int]);
            trees.push(info);
            assert(trees@ =~= before + block.take(stripe as int + 1));
            id = id + 1;
            stripe = stripe + 1;
        }
        assert(block.take(tl as int) =~= block);
        layer = layer + 1;
    }
    trees
}


// ---------------------------------------------------------------- bundling code

/// Bitrates as integers.
pub open spec fn ints(v: Seq<u32>) -> Seq<int> {
    v.map_values(|x: u32| x as int)
}

/// Every bundle of every cut set of `k` cuts fits in a `u32`.
pub open spec fn bundles_fit(rates: Seq<u32>, k: int) -> bool {
    forall|c: Seq<usize>, i: int|
        valid_cuts(c, rates.len() as int, k) && 0 <= i <= k ==> #[trigger] bundle_sums(rates, c)[i] <= u32::MAX
}

proof fn lemma_cut_upper(y: Seq<usize>, l: int, n: int, i: int)
    requires valid_cuts(y, l, n), 0 <= i < n,
    ensures y[i] + (n - 1 - i) <= l - 1,
    decreases n - i,
{
    if i < n - 1 {
        lemma_cut_upper(y, l, n, i + 1);
        assert(y[i] < y[i + 1]);
    }
}

proof fn lemma_lex_skip(a: Seq<int>, b: Seq<int>, i: int)
    requires a.len() == b.len(), 0 <= i < a.len(),
    ensures
        lex_lt(a.skip(i), b.skip(i)) == if a[i] != b[i] { a[i] < b[i] } else { lex_lt(a.skip(i + 1), b.skip(i + 1)) },
{
    assert(a.skip(i).drop_first() =~= a.skip(i + 1));
    assert(b.skip(i).drop_first() =~= b.skip(i + 1));
}

/// Sum of `rates[s..e]`.
fn range_sum(rates: &Vec<u32>, s: usize, e: usize) -> (r: u32)
    requires s <= e <= rates@.len(), sum_range(rates@, s as int, e as int) <= u32::MAX,
    ensures r == sum_range(rates@, s as int, e as int),
{
    let mut total: u32 = 0;
    let mut i: usize = s;
    while i < e
        invariant
            s <= i <= e <= rates@.len(),
            sum_range(rates@, s as int, e as int) <= u32::MAX,
            total == sum_range(rates@, s as int, i as int),
        decreases e - i,
    {
        proof {
            assert(rates@.subrange(s as int, i + 1).drop_last() =~= rates@.subrange(s as int, i as int));
            assert(rates@.subrange(s as int, e as int).take(i + 1 - s) =~= rates@.subrange(s as int, i + 1));
            lemma_sum_prefix_le(rates@.subrange(s as int, e as int), i + 1 - s);
        }
        total = total + rates[i];
        i = i + 1;
    }
    total
}

/// Bundle bitrates of a cut set.
fn bundle_sum_vec(rates: &Vec<u32>, cuts: &Vec<usize>) -> (r: Vec<u32>)
    requires
        rates@.len() >= 1,
        valid_cuts(cuts@, rates@.len() as int, cuts@.len() as int),
        forall|i: int| 0 <= i <= cuts@.len() ==> #[trigger] bundle_sums(rates@, cuts@)[i] <= u32::MAX,
    ensures ints(r@) == bundle_sums(rates@, cuts@),
{
    let k = cuts.len();
    let l = rates.len();
    proof {
        if k > 0 {
            lemma_cut_upper(cuts@, l as int, k as int, 0);
        }
    }
    let mut sums: Vec<u32> = Vec::new();
    let mut start: usize = 0;
    let mut i: usize = 0;
    while i <= k
        invariant
            k == cuts@.len(),
            l == rates@.len(),
            i <= k + 1,
            k < l,
            valid_cuts(cuts@, l as int, k as int),
            forall|i: int| 0 <= i <= cuts@.len() ==> #[trigger] bundle_sums(rates@, cuts@)[i] <= u32::MAX,
            sums@.len() == i,
            i <= k ==> start == bundle_start(cuts@, i as int),
            forall|j: int| 0 <= j < i ==> #[trigger] sums@[j] as int == bundle_sums(rates@, cuts@)[j],
        decreases k + 1 - i,
    {
        let end = if i < k { cuts[i] } else { l };
        assert(end == bundle_end(cuts@, i as int, l as int));
        proof {
            if i > 0 && i < k {
                assert(cuts@[i - 1] < cuts@[i as int]);
            }
        }
        assert(bundle_sums(rates@, cuts@)[i as int] <= u32::MAX);
        assert(bundle_sums(rates@, cuts@)[i as int] == sum_range(rates@, start as int, end as int));
        let x = range_sum(rates, start, end);
        sums.push(x);
        start = end;
        i = i + 1;
    }
    assert(ints(sums@) =~= bundle_sums(rates@, cuts@));
    sums
}

/// Largest of a list of bitrates.
fn max_u32(v: &Vec<u32>) -> (r: u32)
    ensures r == seq_max(ints(v@)),
{
    let mut mx: u32 = 0;
    let mut i: usize = 0;
    while i < v.len()
        invariant
            i <= v@.len(),
            mx == seq_max(ints(v@).take(i as int)),
        decreases v@.len() - i,
    {
        assert(ints(v@).take(i + 1).drop_last() =~= ints(v@).take(i as int));
        if v[i] > mx {
            mx = v[i];
        }
        i = i + 1;
    }
    assert(ints(v@).take(i as int) =~= ints(v@));
    mx
}

/// Lexicographic comparison of two equal-length bitrate lists.
fn lex_less_u32(a: &Vec<u32>, b: &Vec<u32>) -> (r: bool)
    requires a@.len() == b@.len(),
    ensures r == lex_lt(ints(a@), ints(b@)),
{
    assert(ints(a@).skip(0) =~= ints(a@));
    assert(ints(b@).skip(0) =~= ints(b@));
    let mut i: usize = 0;
    while i < a.len()
        invariant
            a@.len() == b@.len(),
            i <= a@.len(),
            lex_lt(ints(a@), ints(b@)) == lex_lt(ints(a@).skip(i as int), ints(b@).skip(i as int)),
        decreases a@.len() - i,
    {
        proof {
            lemma_lex_skip(ints(a@), ints(b@), i as int);
        }
        if a[i] != b[i] {
            return a[i] < b[i];
        }
        i = i + 1;
    }
    assert(ints(a@).skip(i as int).len() == 0);
    false
}

/// Lexicographic comparison of two equal-length cut sets.
fn lex_less_cuts(a: &Vec<usize>, b: &Vec<usize>) -> (r: bool)
    requires a@.len() == b@.len(),
    ensures r == lex_lt(cuts_int(a@), cuts_int(b@)),
{
    assert(cuts_int(a@).skip(0) =~= cuts_int(a@));
    assert(cuts_int(b@).skip(0) =~= cuts_int(b@));
    let mut i: usize = 0;
    while i < a.len()
        invariant
            a@.len() == b@.len(),
            i <= a@.len(),
            lex_lt(cuts_int(a@), cuts_int(b@)) == lex_lt(cuts_int(a@).skip(i as int), cuts_int(b@).skip(i as int)),
        decreases a@.len() - i,
    {
        proof {
            lemma_lex_skip(cuts_int(a@), cuts_int(b@), i as int);
        }
        if a[i] != b[i] {
            return a[i] < b[i];
        }
        i = i + 1;
    }
    assert(cuts_int(a@).skip(i as int).len() == 0);
    false
}

/// Whether two bitrate lists are equal.
fn same_u32(a: &Vec<u32>, b: &Vec<u32>) -> (r: bool)
    ensures r == (ints(a@) == ints(b@)),
{
    if a.len() != b.len() {
        assert(ints(a@).len() != ints(b@).len());
        return false;
    }
    let mut i: usize = 0;
    while i < a.len()
        invariant
            a@.len() == b@.len(),
            i <= a@.len(),
            forall|j: int| 0 <= j < i ==> a@[j] == b@[j],
        decreases a@.len() - i,
    {
        if a[i] != b[i] {
            assert(ints(a@)[i as int] != ints(b@)[i as int]);
            return false;
        }
        i = i + 1;
    }
    assert(ints(a@) =~= ints(b@));
    true
}

/// A copy of a cut set.
fn copy_cuts(v: &Vec<usize>) -> (r: Vec<usize>)
    ensures r@ == v@,
{
    let mut out: Vec<usize> = Vec::new();
    let mut i: usize = 0;
    while i < v.len()
        invariant
            i <= v@.len(),
            out@ == v@.take(i as int),
        decreases v@.len() - i,
    {
        out.push(v[i]);
        i = i + 1;
        assert(out@ =~= v@.take(i as int));
    }
    assert(v@.take(i as int) =~= v@);
    out
}

/// Enumerates every completion of the cut prefix `cur` (with `left` cuts to
/// go, the next one at least `start`), keeping in `best` the best cut set seen.
fn search_cuts(rates: &Vec<u32>, start: usize, left: usize, cur: &mut Vec<usize>, best: &mut Vec<usize>)
    requires
        rates@.len() >= 1,
        valid_cuts(old(cur)@, rates@.len() as int, old(cur)@.len() as int),
        start == (if old(cur)@.len() == 0 { 1 } else { old(cur)@.last() + 1 }),
        valid_cuts(old(best)@, rates@.len() as int, old(cur)@.len() + left),
        bundles_fit(rates@, old(cur)@.len() + left),
    ensures
        final(cur)@ == old(cur)@,
        valid_cuts(final(best)@, rates@.len() as int, old(cur)@.len() + left),
        forall|y: Seq<usize>|
            #![trigger cut_better(rates@, y, final(best)@)]
            valid_cuts(y, rates@.len() as int, old(cur)@.len() + left) && !cut_better(rates@, y, old(best)@)
                ==> !cut_better(rates@, y, final(best)@),
        forall|y: Seq<usize>|
            #![trigger cut_better(rates@, y, final(best)@)]
            valid_cuts(y, rates@.len() as int, old(cur)@.len() + left) && y.take(old(cur)@.len() as int) == old(cur)@
                ==> !cut_better(rates@, y, final(best)@),
    decreases left,
{
    let ghost cur0 = cur@;
    let ghost best0 = best@;
    let ghost n = cur0.len() + left;
    let l = rates.len();
    let k = cur.len();
    if left == 0 {
        let sums = bundle_sum_vec(rates, cur);
        let bsums = bundle_sum_vec(rates, best);
        let mx = max_u32(&sums);
        let bmx = max_u32(&bsums);
        let better: bool = if mx < bmx {
            true
        } else if mx == bmx {
            if lex_less_u32(&sums, &bsums) {
                true
            } else if same_u32(&sums, &bsums) {
                lex_less_cuts(cur, best)
            } else {
                false
            }
        } else {
            false
        };
        assert(better == cut_better(rates@, cur0, best0));
        if better {
            *best = copy_cuts(cur);
        }
        proof {
            lemma_better_irrefl(rates@, best@);
            assert forall|y: Seq<usize>|
                valid_cuts(y, rates@.len() as int, n) && !cut_better(rates@, y, best0)
                implies !cut_better(rates@, y, best@) by {
                if better && cut_better(rates@, y, best@) {
                    lemma_better_trans(rates@, y, cur0, best0);
                }
            }
            assert forall|y: Seq<usize>|
                valid_cuts(y, rates@.len() as int, n) && y.take(k as int) == cur0
                implies !cut_better(rates@, y, best@) by {
                assert(y.take(k as int) =~= y);
            }
        }
        return;
    }
    let mut c: usize = start;
    while c < l && l - c >= left
        invariant
            l == rates@.len(),
            l >= 1,
            k == cur0.len(),
            left >= 1,
            n == k + left,
            cur@ == cur0,
            valid_cuts(cur0, l as int, k as int),
            start == (if k == 0 { 1 } else { cur0.last() + 1 }),
            start <= c,
            valid_cuts(best@, l as int, n),
            bundles_fit(rates@, n),
            forall|y: Seq<usize>|
                #![trigger cut_better(rates@, y, best@)]
                valid_cuts(y, l as int, n) && !cut_better(rates@, y, best0) ==> !cut_better(rates@, y, best@),
            forall|y: Seq<usize>|
                #![trigger cut_better(rates@, y, best@)]
                valid_cuts(y, l as int, n) && y.take(k as int) == cur0 && y[k as int] < c
                    ==> !cut_better(rates@, y, best@),
        decreases l - c,
    {
        let ghost best1 = best@;
        cur.push(c);
        proof {
            assert forall|i: int, j: int| 0 <= i < j < cur@.len() implies #[trigger] cur@[i] < #[trigger] cur@[j] by {
                if j == k {
                    if i < k - 1 {
                        assert(cur0[i] < cur0[k - 1]);
                    }
                }
            }
            assert(cur@.last() == c);
        }
        search_cuts(rates, c + 1, left - 1, cur, best);
        cur.pop();
        proof {
            assert(cur@ =~= cur0);
            assert forall|y: Seq<usize>|
                valid_cuts(y, l as int, n) && y.take(k as int) == cur0 && y[k as int] < c + 1
                implies !cut_better(rates@, y, best@) by {
                if y[k as int] == c {
                    assert(y.take(k + 1) =~= cur0.push(c));
                } else {
                    assert(!cut_better(rates@, y, best1));
                }
            }
            assert forall|y: Seq<usize>|
                valid_cuts(y, l as int, n) && !cut_better(rates@, y, best0)
                implies !cut_better(rates@, y, best@) by {
                assert(!cut_better(rates@, y, best1));
            }
        }
        c = c + 1;
    }
    proof {
        assert forall|y: Seq<usize>|
            valid_cuts(y, l as int, n) && y.take(k as int) == cur0
            implies !cut_better(rates@, y, best@) by {
            lemma_cut_upper(y, l as int, n, k as int);
            if k > 0 {
                assert(y.take(k as int)[k - 1] == cur0[k - 1]);
                assert(y[k - 1] < y[k as int]);
            }
        }
    }
}


/// Choose `m - 1` cut indices (exclusive ends) over `rates` minimising the
/// largest bundle sum; ties prefer the cut set giving the first bundle the
/// smaller sum, then the earliest cut set. Every cut set is tried.
fn best_cuts(rates: &Vec<u32>, m: usize) -> (c: Vec<usize>)
    requires
        1 <= m <= rates@.len(),
        bundles_fit(rates@, m - 1),
    ensures
        optimal_cuts(rates@, m as int, c@),
{
    let l = rates.len();
    let mut best: Vec<usize> = Vec::new();
    let mut i: usize = 1;
    while i < m
        invariant
            1 <= m <= l == rates@.len(),
            1 <= i <= m,
            best@.len() == i - 1,
            forall|j: int| 0 <= j < best@.len() ==> #[trigger] best@[j] == j + 1,
        decreases m - i,
    {
        best.push(i);
        i = i + 1;
    }
    let mut cur: Vec<usize> = Vec::new();
    search_cuts(rates, 1, m - 1, &mut cur, &mut best);
    proof {
        assert forall|y: Seq<usize>| valid_cuts(y, l as int, m - 1) implies !#[trigger] cut_better(rates@, y, best@) by {
            assert(y.take(0) =~= Seq::<usize>::empty());
        }
    }
    best
}

/// The bundle trees for an optimal cut set.
fn build_bundled(rates: &Vec<u32>, cuts: &Vec<usize>, m: usize) -> (trees: Vec<TreeInfo>)
    requires
        rates@.len() >= 1,
        1 <= m <= MAX_TREES,
        valid_cuts(cuts@, rates@.len() as int, m - 1),
        bundles_fit(rates@, m - 1),
    ensures
        trees@ == bundled_trees(rates@, cuts@, m as int),
        trees@.len() == m,
        forall|p: int| 0 <= p < m ==> (#[trigger] trees@[p]).tree_id.0 == p + 1,
        trees@[0].layer == 0,
{
    let l = rates.len();
    let sums = bundle_sum_vec(rates, cuts);
    assert(sums@.len() == ints(sums@).len());
    let mut trees: Vec<TreeInfo> = Vec::new();
    let mut start: usize = 0;
    let mut i: usize = 0;
    while i < m
        invariant
            l == rates@.len(),
            1 <= m <= MAX_TREES,
            cuts@.len() == m - 1,
            l >= 1,
            valid_cuts(cuts@, l as int, m - 1),
            sums@.len() == m,
            ints(sums@) == bundle_sums(rates@, cuts@),
            i <= m,
            i < m ==> start == bundle_start(cuts@, i as int),
            trees@ == bundled_trees(rates@, cuts@, m as int).take(i as int),
        decreases m - i,
    {
        let end = if i + 1 < m { cuts[i] } else { l };
        assert(end == bundle_end(cuts@, i as int, l as int));
        assert(ints(sums@)[i as int] == sums@[i as int] as int);
        let info = TreeInfo {
            tree_id: TreeId(i as u8 + 1),
            layer: start as u8,
            layer_end: (end - 1) as u8,
            stripe_index: 0,
            stripe_count: 1,
            priority: (m - 1 - i) as u8,
            bitrate_kbps: sums[i] as u16,
        };
        assert(info == bundled_trees(rates@, cuts@, m as int)[i as int]);
        trees.push(info);
        assert(trees@ =~= bundled_trees(rates@, cuts@, m as int).take(i + 1));
        start = end;
        i = i + 1;
    }
    assert(bundled_trees(rates@, cuts@, m as int).take(m as int) =~= bundled_trees(rates@, cuts@, m as int));
    trees
}

/// What a successful allocation holds: the striped trees for `M >= L`, the
/// bundles of the optimal cut set for `M < L`.
pub open spec fn allocated(version: u8, m: u8, rates: Seq<u32>, mx: SlicingMatrix) -> bool {
    &&& mx.version == version
    &&& mx.layer_count == rates.len() as u8
    &&& if m >= rates.len() {
            mx.trees@ == striped_trees(rates, stripe_counts(rates, (m - rates.len()) as nat), rates.len() as int)
        } else {
            exists|c: Seq<usize>| optimal_cuts(rates, m as int, c) && #[trigger] bundled_trees(rates, c, m as int) == mx.trees@
        }
}

impl SlicingMatrix {
    /// Build the matrix for forest size `m` over `ladder` by the allocation rule.
    ///
    /// * `M >= L`: every layer gets one tree, then each spare tree goes to the
    ///   layer with the largest current per-tree bitrate (ties → lower layer).
    ///   Layer `l` is striped over its `t_l` trees; tree ids run in layer order.
    /// * `M < L`: layers are cut into `M` contiguous bundles minimising the largest
    ///   bundle bitrate (ties → the cut giving Tree 1 the smaller bundle).
    ///
    /// Bundle bitrates are summed in `u32`; the caller keeps every bundle the
    /// search visits within that range.
    pub fn allocate(version: u8, m: u8, ladder: &Ladder) -> (r: Result<SlicingMatrix, MediaError>)
        requires
            (1 <= m <= MAX_TREES && (m as int) < ladder.layers@.len())
                ==> bundles_fit(rates_of(ladder.layers@), m - 1),
        ensures
            (m == 0 || ladder.layers@.len() == 0)
                ==> (r matches Err(MediaError::Mapping(msg)) && msg@ == "M and L must be >= 1"@),
            (m > MAX_TREES && ladder.layers@.len() >= 1)
                ==> (r matches Err(MediaError::Mapping(msg)) && msg@ == "M exceeds 8 trees"@),
            (1 <= m <= MAX_TREES && ladder.layers@.len() >= 1)
                ==> (r matches Ok(mx) && allocated(version, m, rates_of(ladder.layers@), mx)),
            r matches Ok(mx) ==> {
                &&& mx.trees@.len() == m
                &&& forall|p: int| 0 <= p < m ==> (#[trigger] mx.trees@[p]).tree_id.0 == p + 1
                &&& mx.trees@[0].layer == 0
            },
    {
        let l = ladder.len();
        if m == 0 || l == 0 {
            return Err(MediaError::Mapping("M and L must be >= 1"));
        }
        if m as usize > MAX_TREES {
            return Err(MediaError::Mapping("M exceeds 8 trees"));
        }
        let rates = ladder.rates();
        let trees = if m as usize >= l {
            let t = stripe_count_vec(&rates, m as usize - l);
            proof {
                lemma_stripe_counts(rates@, (m - l) as nat);
            }
            build_striped(&rates, &t, m as usize)
        } else {
            let best = best_cuts(&rates, m as usize);
            build_bundled(&rates, &best, m as usize)
        };
        Ok(SlicingMatrix { version, trees, layer_count: l as u8 })
    }
}


// ---------------------------------------------------------------- reading the matrix

/// Whether tree `t` carries layer `l`.
pub open spec fn carries_layer(t: TreeInfo, l: u8) -> bool {
    t.layer <= l && l <= t.layer_end
}

/// The predicate "carries layer `l`".
pub open spec fn layer_pred(l: u8) -> spec_fn(TreeInfo) -> bool {
    |t: TreeInfo| carries_layer(t, l)
}

/// The trees carrying layer `l`, in matrix order.
pub open spec fn layer_trees(trees: Seq<TreeInfo>, l: u8) -> Seq<TreeInfo> {
    trees.filter(layer_pred(l))
}

/// Whether some tree carrying a layer in `0..=top` has id `t`.
pub open spec fn in_prefix_set(trees: Seq<TreeInfo>, top: u8, t: u8) -> bool {
    exists|i: int| 0 <= i < trees.len() && (#[trigger] trees[i]).layer <= top && trees[i].tree_id.0 == t
}

/// The tree that carries block `j` of a chunk with the given per-layer block counts.
pub open spec fn block_tree(trees: Seq<TreeInfo>, counts: Seq<u16>, j: u16) -> Option<TreeId> {
    match layer_of_from(counts, 0, j as int) {
        None => None,
        Some((layer, jl)) => {
            let s = layer_trees(trees, layer);
            if s.len() == 0 {
                None
            } else {
                Some(s[(jl as int) % (s.len() as int)].tree_id)
            }
        },
    }
}

/// The wire entry of a tree.
pub open spec fn entry_of(t: TreeInfo) -> TreeMappingEntry {
    TreeMappingEntry {
        tree_id: t.tree_id,
        layer: t.layer,
        stripe_index: t.stripe_index,
        stripe_count: t.stripe_count,
        priority: t.priority,
        bitrate_kbps: t.bitrate_kbps,
    }
}

/// The wire entries of a tree sequence.
pub open spec fn entries_of(trees: Seq<TreeInfo>) -> Seq<TreeMappingEntry> {
    trees.map_values(|t: TreeInfo| entry_of(t))
}

/// The tree read back from a wire entry, before bundle ends are known.
pub open spec fn info_of(e: TreeMappingEntry) -> TreeInfo {
    TreeInfo {
        tree_id: e.tree_id,
        layer: e.layer,
        layer_end: e.layer,
        stripe_index: e.stripe_index,
        stripe_count: e.stripe_count,
        priority: e.priority,
        bitrate_kbps: e.bitrate_kbps,
    }
}

/// `s` with `x` placed after every entry whose id is at most `x`'s.
pub open spec fn insert_by_id(s: Seq<TreeInfo>, x: TreeInfo) -> Seq<TreeInfo>
    decreases s.len(),
{
    if s.len() == 0 || s.last().tree_id.0 <= x.tree_id.0 {
        s.push(x)
    } else {
        insert_by_id(s.drop_last(), x).push(s.last())
    }
}

/// Stable sort by tree id.
pub open spec fn sort_by_id(s: Seq<TreeInfo>) -> Seq<TreeInfo>
    decreases s.len(),
{
    if s.len() == 0 {
        s
    } else {
        insert_by_id(sort_by_id(s.drop_last()), s.last())
    }
}

/// Tree `i` of `s` with its bundle end recovered: a single-stripe tree whose
/// next tree starts more than one layer later owns the layers up to it.
pub open spec fn end_filled(s: Seq<TreeInfo>, layer_count: u8, i: int) -> TreeInfo {
    let next = if i + 1 < s.len() { s[i + 1].layer } else { layer_count };
    let t = s[i];
    if t.stripe_count == 1 && next > t.layer + 1 {
        TreeInfo {
            tree_id: t.tree_id,
            layer: t.layer,
            layer_end: (next - 1) as u8,
            stripe_index: t.stripe_index,
            stripe_count: t.stripe_count,
            priority: t.priority,
            bitrate_kbps: t.bitrate_kbps,
        }
    } else {
        t
    }
}

/// The trees rebuilt from wire entries.
pub open spec fn rebuilt_trees(entries: Seq<TreeMappingEntry>, layer_count: u8) -> Seq<TreeInfo> {
    let s = sort_by_id(entries.map_values(|e: TreeMappingEntry| info_of(e)));
    Seq::new(s.len(), |i: int| end_filled(s, layer_count, i))
}

proof fn lemma_insert_by_id_len(s: Seq<TreeInfo>, x: TreeInfo)
    ensures insert_by_id(s, x).len() == s.len() + 1,
    decreases s.len(),
{
    if s.len() > 0 && s.last().tree_id.0 > x.tree_id.0 {
        lemma_insert_by_id_len(s.drop_last(), x);
    }
}

proof fn lemma_sort_by_id_len(s: Seq<TreeInfo>)
    ensures sort_by_id(s).len() == s.len(),
    decreases s.len(),
{
    if s.len() > 0 {
        lemma_sort_by_id_len(s.drop_last());
        lemma_insert_by_id_len(sort_by_id(s.drop_last()), s.last());
    }
}

/// Insert `x` into `v` after every tree whose id is at most `x`'s.
fn insert_sorted(v: &mut Vec<TreeInfo>, x: TreeInfo)
    ensures final(v)@ == insert_by_id(old(v)@, x),
{
    let ghost s0 = v@;
    let mut tail: Vec<TreeInfo> = Vec::new();
    while v.len() > 0 && v[v.len() - 1].tree_id.0 > x.tree_id.0
        invariant
            s0 == v@ + tail@,
            insert_by_id(s0, x) == insert_by_id(v@, x) + tail@,
        decreases v@.len(),
    {
        let ghost before = v@;
        let ghost t0 = tail@;
        let last = v.pop().unwrap();
        proof {
            assert(before =~= v@.push(last));
            assert(insert_by_id(before, x) == insert_by_id(v@, x).push(last));
            assert(insert_by_id(v@, x).push(last) + t0 =~= insert_by_id(v@, x) + (seq![last] + t0));
            assert(v@.push(last) + t0 =~= v@ + (seq![last] + t0));
        }
        tail.insert(0, last);
        assert(tail@ =~= seq![last] + t0);
    }
    v.push(x);
    let ghost head = v@;
    let mut i: usize = 0;
    while i < tail.len()
        invariant
            i <= tail@.len(),
            v@ == head + tail@.take(i as int),
            insert_by_id(s0, x) == head + tail@,
        decreases tail@.len() - i,
    {
        v.push(tail[i]);
        i = i + 1;
        assert(v@ =~= head + tail@.take(i as int));
    }
    assert(tail@.take(i as int) =~= tail@);
}


impl SlicingMatrix {
    /// Number of trees.
    pub fn m(&self) -> (r: u8)
        ensures r == self.trees@.len() as u8,
    {
        self.trees.len() as u8
    }

    /// Info for a tree.
    pub fn tree(&self, id: TreeId) -> (r: Option<&TreeInfo>)
        requires id.0 >= 1,
        ensures
            r == (if id.0 - 1 < self.trees@.len() { Some(&self.trees@[id.0 - 1]) } else { None::<&TreeInfo> }),
    {
        let i = id.index();
        if i < self.trees.len() {
            Some(&self.trees[i])
        } else {
            None
        }
    }

    /// Trees carrying layer `l`, in stripe order.
    pub fn trees_for_layer(&self, l: u8) -> (r: Vec<TreeInfo>)
        ensures r@ == layer_trees(self.trees@, l),
    {
        let mut out: Vec<TreeInfo> = Vec::new();
        let mut i: usize = 0;
        while i < self.trees.len()
            invariant
                i <= self.trees@.len(),
                out@ == self.trees@.take(i as int).filter(layer_pred(l)),
            decreases self.trees@.len() - i,
        {
            let t = self.trees[i];
            proof {
                reveal(Seq::filter);
                assert(self.trees@.take(i + 1).drop_last() =~= self.trees@.take(i as int));
            }
            if t.layer <= l && l <= t.layer_end {
                out.push(t);
            }
            i = i + 1;
        }
        assert(self.trees@.take(i as int) =~= self.trees@);
        out
    }

    /// Trees carrying any layer in `0..=top_layer`: the subscribed set for a
    /// layer prefix. Every such tree must have an id in `1..=8`.
    pub fn trees_for_layer_prefix(&self, top_layer: u8) -> (r: TreeSet)
        requires
            forall|i: int| 0 <= i < self.trees@.len() && (#[trigger] self.trees@[i]).layer <= top_layer
                ==> 1 <= self.trees@[i].tree_id.0 <= MAX_TREES,
        ensures
            forall|t: u8| 1 <= t <= MAX_TREES ==> (#[trigger] tree_bit(r.0, t) <==> in_prefix_set(self.trees@, top_layer, t)),
    {
        let mut set = TreeSet::empty();
        let mut i: usize = 0;
        proof {
            assert forall|t: u8| 1 <= t <= MAX_TREES implies !#[trigger] tree_bit(set.0, t) by {
                let u = (t - 1) as u8;
                assert((0u8 >> u) & 1u8 == 0u8) by (bit_vector);
            }
        }
        while i < self.trees.len()
            invariant
                i <= self.trees@.len(),
                forall|i: int| 0 <= i < self.trees@.len() && (#[trigger] self.trees@[i]).layer <= top_layer
                    ==> 1 <= self.trees@[i].tree_id.0 <= MAX_TREES,
                forall|t: u8| 1 <= t <= MAX_TREES
                    ==> (#[trigger] tree_bit(set.0, t) <==> in_prefix_set(self.trees@.take(i as int), top_layer, t)),
            decreases self.trees@.len() - i,
        {
            let info = self.trees[i];
            let ghost old_bits = set.0;
            if info.layer <= top_layer {
                set.insert(info.tree_id);
            }
            proof {
                let pre = self.trees@.take(i as int);
                let post = self.trees@.take(i + 1);
                assert forall|t: u8| 1 <= t <= MAX_TREES implies
                    (#[trigger] tree_bit(set.0, t) <==> in_prefix_set(post, top_layer, t)) by {
                    let u = (t - 1) as u8;
                    assert(post[i as int] == info);
                    assert(tree_bit(old_bits, t) <==> in_prefix_set(pre, top_layer, t));
                    if in_prefix_set(pre, top_layer, t) {
                        let w = choose|w: int| 0 <= w < pre.len() && (#[trigger] pre[w]).layer <= top_layer && pre[w].tree_id.0 == t;
                        assert(post[w] == pre[w]);
                    }
                    if in_prefix_set(post, top_layer, t) {
                        let w = choose|w: int| 0 <= w < post.len() && (#[trigger] post[w]).layer <= top_layer && post[w].tree_id.0 == t;
                        if w < i {
                            assert(pre[w] == post[w]);
                        }
                    }
                    if info.layer <= top_layer && info.tree_id.0 == t {
                        assert(post[i as int] == info);
                    }
                }
            }
            i = i + 1;
        }
        assert(self.trees@.take(i as int) =~= self.trees@);
        set
    }

    /// Which tree carries block `j` of a chunk described by `manifest`.
    /// Block `j'` of layer `l` travels on the tree with `StripeIndex = j' mod t_l`.
    pub fn tree_for_block(&self, manifest: &ManifestBody, j: u16) -> (r: Option<TreeId>)
        ensures r == block_tree(self.trees@, manifest.layer_block_counts@, j),
    {
        let (layer, j_in_layer) = match manifest.layer_of(j) {
            Some(p) => p,
            None => return None,
        };
        let stripes = self.trees_for_layer(layer);
        if stripes.len() == 0 {
            return None;
        }
        let idx = (j_in_layer as usize) % stripes.len();
        Some(stripes[idx].tree_id)
    }

    /// Wire entries for `MANIFEST_UPDATE` / Stream Record.
    pub fn to_entries(&self) -> (r: Vec<TreeMappingEntry>)
        ensures r@ == entries_of(self.trees@),
    {
        let mut out: Vec<TreeMappingEntry> = Vec::new();
        let mut i: usize = 0;
        while i < self.trees.len()
            invariant
                i <= self.trees@.len(),
                out@ == entries_of(self.trees@.take(i as int)),
            decreases self.trees@.len() - i,
        {
            let t = self.trees[i];
            out.push(TreeMappingEntry {
                tree_id: t.tree_id,
                layer: t.layer,
                stripe_index: t.stripe_index,
                stripe_count: t.stripe_count,
                priority: t.priority,
                bitrate_kbps: t.bitrate_kbps,
            });
            i = i + 1;
            assert(out@ =~= entries_of(self.trees@.take(i as int)));
        }
        assert(self.trees@.take(i as int) =~= self.trees@);
        out
    }

    /// Reconstruct from wire entries (bundles are recovered by contiguity: a
    /// tree whose `layer` is followed by a gap owns the layers up to the next
    /// tree's `layer`). Entries are taken in tree-id order, equal ids keeping
    /// their order.
    pub fn from_entries(version: u8, entries: &[TreeMappingEntry], layer_count: u8) -> (r: SlicingMatrix)
        requires
            forall|i: int| 0 <= i < entries@.len() && (#[trigger] entries@[i]).stripe_count == 1
                ==> entries@[i].layer < 255,
        ensures
            r.version == version,
            r.layer_count == layer_count,
            r.trees@ == rebuilt_trees(entries@, layer_count),
    {
        let ghost infos = entries@.map_values(|e: TreeMappingEntry| info_of(e));
        let mut trees: Vec<TreeInfo> = Vec::new();
        let mut i: usize = 0;
        while i < entries.len()
            invariant
                i <= entries@.len(),
                infos == entries@.map_values(|e: TreeMappingEntry| info_of(e)),
                trees@ == sort_by_id(infos.take(i as int)),
            decreases entries@.len() - i,
        {
            let e = entries[i];
            let info = TreeInfo {
                tree_id: e.tree_id,
                layer: e.layer,
                layer_end: e.layer,
                stripe_index: e.stripe_index,
                stripe_count: e.stripe_count,
                priority: e.priority,
                bitrate_kbps: e.bitrate_kbps,
            };
            assert(infos.take(i + 1).drop_last() =~= infos.take(i as int));
            insert_sorted(&mut trees, info);
            i = i + 1;
        }
        assert(infos.take(i as int) =~= infos);
        let ghost sorted = trees@;
        proof {
            lemma_sort_by_id_len(infos);
            assert forall|k: int| 0 <= k < sorted.len() && (#[trigger] sorted[k]).stripe_count == 1
                implies sorted[k].layer < 255 by {
                lemma_sort_by_id_members(infos, k);
                let w = choose|w: int| 0 <= w < infos.len() && infos[w] == sorted[k];
                assert(entries@[w].stripe_count == 1);
            }
        }
        let n = trees.len();
        let mut i: usize = 0;
        while i < n
            invariant
                n == sorted.len() == trees@.len(),
                i <= n,
                forall|k: int| 0 <= k < sorted.len() && (#[trigger] sorted[k]).stripe_count == 1 ==> sorted[k].layer < 255,
                forall|k: int| 0 <= k < i ==> #[trigger] trees@[k] == end_filled(sorted, layer_count, k),
                forall|k: int| i <= k < n ==> #[trigger] trees@[k] == sorted[k],
            decreases n - i,
        {
            let next_layer = if i + 1 < n { trees[i + 1].layer } else { layer_count };
            let mut t = trees[i];
            if t.stripe_count == 1 && next_layer > t.layer + 1 {
                t.layer_end = next_layer - 1;
                trees.set(i, t);
            }
            assert(trees@[i as int] == end_filled(sorted, layer_count, i as int));
            i = i + 1;
        }
        assert(trees@ =~= rebuilt_trees(entries@, layer_count));
        SlicingMatrix { version, trees, layer_count }
    }
}

/// Every tree of the sorted sequence comes from the input.
proof fn lemma_insert_by_id_members(s: Seq<TreeInfo>, x: TreeInfo, k: int)
    requires 0 <= k < insert_by_id(s, x).len(),
    ensures
        insert_by_id(s, x)[k] == x || exists|w: int| 0 <= w < s.len() && s[w] == insert_by_id(s, x)[k],
    decreases s.len(),
{
    lemma_insert_by_id_len(s, x);
    if s.len() == 0 || s.last().tree_id.0 <= x.tree_id.0 {
        if k < s.len() {
            assert(s[k] == insert_by_id(s, x)[k]);
        }
    } else {
        let d = s.drop_last();
        lemma_insert_by_id_len(d, x);
        if k == s.len() {
            assert(s[s.len() - 1] == insert_by_id(s, x)[k]);
        } else {
            lemma_insert_by_id_members(d, x, k);
            if insert_by_id(d, x)[k] != x {
                let w = choose|w: int| 0 <= w < d.len() && d[w] == insert_by_id(d, x)[k];
                assert(s[w] == insert_by_id(s, x)[k]);
            }
        }
    }
}

proof fn lemma_sort_by_id_members(s: Seq<TreeInfo>, k: int)
    requires 0 <= k < sort_by_id(s).len(),
    ensures exists|w: int| 0 <= w < s.len() && s[w] == sort_by_id(s)[k],
    decreases s.len(),
{
    let d = s.drop_last();
    lemma_sort_by_id_len(d);
    let sd = sort_by_id(d);
    lemma_insert_by_id_members(sd, s.last(), k);
    if sort_by_id(s)[k] == s.last() {
        assert(s[s.len() - 1] == sort_by_id(s)[k]);
    } else {
        let w = choose|w: int| 0 <= w < sd.len() && sd[w] == sort_by_id(s)[k];
        lemma_sort_by_id_members(d, w);
        let w2 = choose|w2: int| 0 <= w2 < d.len() && d[w2] == sd[w];
        assert(s[w2] == sort_by_id(s)[k]);
    }
}


// ---------------------------------------------------------------- round trip

proof fn lemma_sort_sorted(s: Seq<TreeInfo>)
    requires forall|i: int, j: int| 0 <= i < j < s.len() ==> #[trigger] s[i].tree_id.0 <= #[trigger] s[j].tree_id.0,
    ensures sort_by_id(s) == s,
    decreases s.len(),
{
    if s.len() > 0 {
        let d = s.drop_last();
        lemma_sort_sorted(d);
        if d.len() > 0 {
            assert(d.last() == s[s.len() - 2]);
        }
        assert(s =~= d.push(s.last()));
    }
}

/// Shape of the striped trees of layers `0..k`: ids run from 1, every tree
/// carries one layer, and layers rise by at most one from tree to tree.
proof fn lemma_striped_shape(rates: Seq<u32>, t: Seq<u32>, k: int)
    requires
        t.len() == rates.len(),
        0 <= k <= t.len() < 256,
        forall|i: int| 0 <= i < t.len() ==> #[trigger] t[i] >= 1,
        prefix_sum(t, t.len() as int) < 255,
    ensures
        striped_trees(rates, t, k).len() == prefix_sum(t, k),
        forall|p: int| 0 <= p < prefix_sum(t, k) ==> {
            let x = #[trigger] striped_trees(rates, t, k)[p];
            &&& x.tree_id.0 == p + 1
            &&& x.layer_end == x.layer
            &&& x.layer < k
        },
        forall|p: int, q: int| 0 <= p && q == p + 1 && q < prefix_sum(t, k)
            ==> #[trigger] striped_trees(rates, t, k)[q].layer <= #[trigger] striped_trees(rates, t, k)[p].layer + 1,
        prefix_sum(t, k) > 0 ==> striped_trees(rates, t, k)[prefix_sum(t, k) - 1].layer == k - 1,
    decreases k,
{
    if k > 0 {
        lemma_striped_shape(rates, t, k - 1);
        lemma_prefix_sum_mono(t, k, t.len() as int);
        let a = striped_trees(rates, t, k - 1);
        let first = 1 + prefix_sum(t, k - 1);
        let b = striped_layer(rates, t, k - 1, first);
        let sk = striped_trees(rates, t, k);
        assert(sk == a + b);
        assert forall|p: int| 0 <= p < prefix_sum(t, k) implies {
            let x = #[trigger] sk[p];
            &&& x.tree_id.0 == p + 1
            &&& x.layer_end == x.layer
            &&& x.layer < k
        } by {
            if p >= a.len() {
                assert(sk[p] == b[p - a.len()]);
            } else {
                assert(sk[p] == a[p]);
            }
        }
        assert forall|p: int, q: int| 0 <= p && q == p + 1 && q < prefix_sum(t, k)
            implies #[trigger] sk[q].layer <= #[trigger] sk[p].layer + 1 by {
            if q < a.len() {
                assert(sk[q] == a[q] && sk[p] == a[p]);
            } else if p >= a.len() {
                assert(sk[q] == b[q - a.len()] && sk[p] == b[p - a.len()]);
            } else {
                assert(sk[q] == b[0] && sk[p] == a[p]);
            }
        }
        assert(sk[prefix_sum(t, k) - 1] == b[b.len() - 1]);
    }
}

/// Publishing an allocated matrix as wire entries and reading the entries back
/// gives the same trees, and the entries meet what `from_entries` asks.
pub proof fn lemma_entries_roundtrip(version: u8, m: u8, rates: Seq<u32>, mx: SlicingMatrix)
    requires
        1 <= m <= MAX_TREES,
        1 <= rates.len() < 256,
        allocated(version, m, rates, mx),
    ensures
        forall|i: int| 0 <= i < mx.trees@.len() && (#[trigger] entries_of(mx.trees@)[i]).stripe_count == 1
            ==> entries_of(mx.trees@)[i].layer < 255,
        rebuilt_trees(entries_of(mx.trees@), mx.layer_count) == mx.trees@,
{
    let l = rates.len() as int;
    let s = mx.trees@;
    let entries = entries_of(s);
    let infos = entries.map_values(|e: TreeMappingEntry| info_of(e));
    if m >= l {
        let t = stripe_counts(rates, (m - l) as nat);
        lemma_stripe_counts(rates, (m - l) as nat);
        lemma_striped_shape(rates, t, l);
        assert forall|i: int| 0 <= i < infos.len() implies #[trigger] infos[i] == s[i] by {
            assert(entries[i] == entry_of(s[i]));
        }
        assert(infos =~= s);
        lemma_sort_sorted(s);
        assert forall|i: int| 0 <= i < s.len() implies #[trigger] end_filled(s, mx.layer_count, i) == s[i] by {
            if i + 1 < s.len() {
                assert(s[i + 1].layer <= s[i].layer + 1);
            }
        }
        assert(rebuilt_trees(entries, mx.layer_count) =~= s);
    } else {
        let c = choose|c: Seq<usize>| optimal_cuts(rates, m as int, c) && #[trigger] bundled_trees(rates, c, m as int) == mx.trees@;
        assert(s.len() == m);
        assert forall|i: int| 0 <= i < s.len() implies
            bundle_start(c, i) < bundle_end(c, i, l) <= l && (i + 1 < s.len() ==> bundle_start(c, i + 1) == bundle_end(c, i, l)) by {
            if 0 < i < c.len() {
                assert(c[i - 1] < c[i]);
            }
        }
        let stripped = Seq::new(s.len(), |i: int| TreeInfo {
            tree_id: s[i].tree_id,
            layer: s[i].layer,
            layer_end: s[i].layer,
            stripe_index: s[i].stripe_index,
            stripe_count: s[i].stripe_count,
            priority: s[i].priority,
            bitrate_kbps: s[i].bitrate_kbps,
        });
        assert forall|i: int| 0 <= i < infos.len() implies #[trigger] infos[i] == stripped[i] by {
            assert(entries[i] == entry_of(s[i]));
        }
        assert(infos =~= stripped);
        lemma_sort_sorted(stripped);
        assert forall|i: int| 0 <= i < s.len() implies #[trigger] end_filled(stripped, mx.layer_count, i) == s[i] by {
            if i + 1 < s.len() {
                assert(stripped[i + 1].layer == bundle_start(c, i + 1));
            }
        }
        assert(rebuilt_trees(entries, mx.layer_count) =~= s);
    }
}

/// Scanning from layer `l0` with the position relative to that layer's
/// start finds block `j` in layer `l` at `j` less the blocks of the layers
/// below `l`.
proof fn lemma_layer_of_scan(c: Seq<u16>, l0: int, l: int, j: int)
    requires
        0 <= l0 <= l < c.len(),
        l < 256,
        count_sum(c.take(l)) <= j < count_sum(c.take(l)) + c[l],
    ensures
        layer_of_from(c, l0 as nat, j - count_sum(c.take(l0))) == Some((l as u8, (j - count_sum(c.take(l))) as u16)),
    decreases l - l0,
{
    if l0 < l {
        assert(c.take(l0 + 1).drop_last() =~= c.take(l0));
        lemma_count_sum_mono(c, l0 + 1, l);
        lemma_layer_of_scan(c, l0 + 1, l, j);
    }
}

/// More layers hold at least as many blocks.
proof fn lemma_count_sum_mono(c: Seq<u16>, a: int, b: int)
    requires
        0 <= a <= b <= c.len(),
    ensures
        count_sum(c.take(a)) <= count_sum(c.take(b)),
    decreases b - a,
{
    if a < b {
        assert(c.take(b).drop_last() =~= c.take(b - 1));
        lemma_count_sum_mono(c, a, b - 1);
    }
}

/// Block `j` of a chunk that lies in layer `l` (at least the blocks of the
/// layers below, fewer than those plus the layer's own) travels on the
/// layer's stripe numbered by its index within the layer, `j` less the blocks
/// below, modulo the layer's stripe count; the first block of every layer
/// goes on the layer's stripe 0.
pub proof fn lemma_block_stripe(trees: Seq<TreeInfo>, counts: Seq<u16>, l: int, j: u16)
    requires
        0 <= l < counts.len(),
        l < 256,
        count_sum(counts.take(l)) <= j < count_sum(counts.take(l)) + counts[l],
        layer_trees(trees, l as u8).len() > 0,
    ensures
        block_tree(trees, counts, j) == Some(
            layer_trees(trees, l as u8)[(j - count_sum(counts.take(l))) % (layer_trees(trees, l as u8).len() as int)].tree_id,
        ),
        j == count_sum(counts.take(l)) ==> block_tree(trees, counts, j) == Some(layer_trees(trees, l as u8)[0].tree_id),
{
    assert(counts.take(0) =~= Seq::<u16>::empty());
    lemma_layer_of_scan(counts, 0, l, j as int);
    let n = layer_trees(trees, l as u8).len() as int;
    if j == count_sum(counts.take(l)) {
        assert(0int % n == 0) by (nonlinear_arith) requires n > 0;
    }
}

} // verus!
