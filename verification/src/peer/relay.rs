//! Manifest relaying: which children a manifest goes to, and the record that
//! keeps any one manifest from going to any one peer twice.
use vstd::prelude::*;
use crate::peer::forest::{PeerAddr, TreeState};
use crate::wire::SegmentSeq;

verus! {

/// A manifest sent: its segment, its chunk, and the peer it went to.
pub type SentKey = (u32, u8, PeerAddr);

/// Nothing appears twice.
pub open spec fn keys_distinct(s: Seq<SentKey>) -> bool {
    forall|i: int, j: int| 0 <= i < s.len() && 0 <= j < s.len() && i != j ==> s[i] != s[j]
}

/// Which manifests went to which peers.
pub struct ManifestLog {
    sent: Vec<SentKey>,
}

impl ManifestLog {
    /// The manifests recorded as sent.
    pub closed spec fn entries(&self) -> Seq<SentKey> {
        self.sent@
    }

    /// Whether manifest `(segment, chunk)` is recorded as sent to `to`.
    pub open spec fn has(&self, k: SentKey) -> bool {
        self.entries().contains(k)
    }

    /// How many sends are recorded.
    pub open spec fn size(&self) -> nat {
        self.entries().len()
    }

    /// Each send recorded once.
    pub closed spec fn wf(&self) -> bool {
        keys_distinct(self.sent@)
    }

    /// An empty log.
    pub fn new() -> (r: ManifestLog)
        ensures
            r.wf(),
            r.size() == 0,
            forall|k: SentKey| !r.has(k),
    {
        ManifestLog { sent: Vec::new() }
    }

    /// Record that manifest `(segment, chunk)` goes to `to`; returns whether
    /// this is the first time (and so whether to send it).
    pub fn first_send(&mut self, segment: u32, chunk: u8, to: PeerAddr) -> (r: bool)
        requires old(self).wf(),
        ensures
            final(self).wf(),
            r == !old(self).has((segment, chunk, to)),
            forall|k: SentKey| #[trigger] final(self).has(k) <==> (old(self).has(k) || k == (segment, chunk, to)),
            final(self).size() == old(self).size() + if r { 1int } else { 0int },
    {
        let mut i: usize = 0;
        while i < self.sent.len()
            invariant
                *self == *old(self),
                keys_distinct(self.sent@),
                i <= self.sent@.len(),
                forall|j: int| 0 <= j < i ==> self.sent@[j] != (segment, chunk, to),
            decreases self.sent@.len() - i,
        {
            let (s, c, a) = self.sent[i];
            if s == segment && c == chunk && a.same(&to) {
                assert(self.sent@[i as int] == (segment, chunk, to));
                return false;
            }
            i = i + 1;
        }
        let ghost before = self.sent@;
        self.sent.push((segment, chunk, to));
        proof {
            assert(self.sent@ == before.push((segment, chunk, to)));
            assert forall|k: SentKey| #[trigger] self.has(k) <==> (before.contains(k) || k == (segment, chunk, to)) by {
                if self.has(k) {
                    let j = choose|j: int| 0 <= j < self.sent@.len() && self.sent@[j] == k;
                    if j < before.len() {
                        assert(before[j] == k);
                    }
                }
                if before.contains(k) {
                    let j = choose|j: int| 0 <= j < before.len() && before[j] == k;
                    assert(self.sent@[j] == k);
                }
                if k == (segment, chunk, to) {
                    assert(self.sent@[before.len() as int] == k);
                }
            }
        }
        true
    }

    /// Forget the sends of segments before `floor`.
    pub fn prune(&mut self, floor: u32)
        requires old(self).wf(),
        ensures
            final(self).wf(),
            forall|k: SentKey| #[trigger] final(self).has(k) <==> (old(self).has(k) && k.0 >= floor),
    {
        let ghost before = self.sent@;
        let mut kept: Vec<SentKey> = Vec::new();
        let mut i: usize = 0;
        while i < self.sent.len()
            invariant
                self.sent@ == before,
                keys_distinct(before),
                i <= before.len(),
                forall|k: SentKey| #[trigger] kept@.contains(k) <==> (before.take(i as int).contains(k) && k.0 >= floor),
                keys_distinct(kept@),
            decreases before.len() - i,
        {
            let k = self.sent[i];
            let ghost prev = kept@;
            proof {
                assert(before.take(i + 1) == before.take(i as int).push(k));
                let pre = before.take(i as int);
                assert(!pre.contains(k)) by {
                    if pre.contains(k) {
                        let j = choose|j: int| 0 <= j < pre.len() && pre[j] == k;
                        assert(before[j] == before[i as int]);
                    }
                }
            }
            if k.0 >= floor {
                kept.push(k);
                proof {
                    assert forall|a: int, b: int| 0 <= a < kept@.len() && 0 <= b < kept@.len() && a != b implies kept@[a] != kept@[b] by {
                        if a == prev.len() {
                            assert(prev.contains(kept@[b]) ==> kept@[b] != k);
                            assert(kept@[b] == prev[b]);
                        } else if b == prev.len() {
                            assert(kept@[a] == prev[a]);
                        } else {
                            assert(kept@[a] == prev[a] && kept@[b] == prev[b]);
                        }
                    }
                }
            }
            proof {
                let pre = before.take(i as int);
                let post = before.take(i + 1);
                assert forall|x: SentKey| #[trigger] kept@.contains(x) <==> (post.contains(x) && x.0 >= floor) by {
                    if kept@.contains(x) {
                        let j = choose|j: int| 0 <= j < kept@.len() && kept@[j] == x;
                        if j < prev.len() {
                            assert(prev[j] == x);
                            assert(prev.contains(x));
                            let w = choose|w: int| 0 <= w < pre.len() && pre[w] == x;
                            assert(post[w] == x);
                        } else {
                            assert(post[i as int] == x);
                        }
                    }
                    if post.contains(x) && x.0 >= floor {
                        let w = choose|w: int| 0 <= w < post.len() && post[w] == x;
                        if w < i {
                            assert(pre[w] == x);
                            assert(prev.contains(x));
                            let j = choose|j: int| 0 <= j < prev.len() && prev[j] == x;
                            assert(kept@[j] == x);
                        } else {
                            assert(x == k);
                            assert(kept@[prev.len() as int] == x);
                        }
                    }
                }
            }
            i = i + 1;
        }
        proof {
            assert(before.take(before.len() as int) == before);
        }
        self.sent = kept;
    }

    /// How many sends are recorded.
    pub fn len(&self) -> (r: usize)
        ensures r == self.size(),
    {
        self.sent.len()
    }
}

/// Whether `a` is a child, not admitted pending a drain, of some tree.
pub open spec fn serves(trees: Seq<TreeState>, a: PeerAddr) -> bool {
    exists|i: int, j: int|
        0 <= i < trees.len() && 0 <= j < trees[i].children@.len() && (#[trigger] trees[i].children@[j]).addr == a
            && !trees[i].children@[j].pending
}

/// The children we serve in any tree, each once, leaving out `except`.
pub fn serving_children(trees: &Vec<TreeState>, except: Option<PeerAddr>) -> (r: Vec<PeerAddr>)
    ensures
        forall|a: int, b: int| 0 <= a < r@.len() && 0 <= b < r@.len() && a != b ==> r@[a] != r@[b],
        forall|x: PeerAddr| #[trigger] r@.contains(x) <==> (serves(trees@, x) && except != Some(x)),
{
    let mut out: Vec<PeerAddr> = Vec::new();
    let mut i: usize = 0;
    while i < trees.len()
        invariant
            i <= trees@.len(),
            forall|a: int, b: int| 0 <= a < out@.len() && 0 <= b < out@.len() && a != b ==> out@[a] != out@[b],
            forall|x: PeerAddr| #[trigger] out@.contains(x) <==> (serves(trees@.take(i as int), x) && except != Some(x)),
        decreases trees@.len() - i,
    {
        let t = &trees[i];
        let mut j: usize = 0;
        while j < t.children.len()
            invariant
                i < trees@.len(),
                *t == trees@[i as int],
                j <= t.children@.len(),
                forall|a: int, b: int| 0 <= a < out@.len() && 0 <= b < out@.len() && a != b ==> out@[a] != out@[b],
                forall|x: PeerAddr| #[trigger] out@.contains(x) <==> ((serves(trees@.take(i as int), x) || exists|k: int|
                    0 <= k < j && (#[trigger] t.children@[k]).addr == x && !t.children@[k].pending) && except != Some(x)),
            decreases t.children@.len() - j,
        {
            let c = &t.children[j];
            let a = c.addr;
            let excepted = match except {
                Some(e) => e.same(&a),
                None => false,
            };
            let ghost prev = out@;
            if !c.pending && !excepted && !holds_addr(&out, &a) {
                out.push(a);
            }
            proof {
                assert forall|x: PeerAddr| #[trigger] out@.contains(x) <==> ((serves(trees@.take(i as int), x) || exists|k: int|
                    0 <= k < j + 1 && (#[trigger] t.children@[k]).addr == x && !t.children@[k].pending) && except != Some(x)) by {
                    if out@.contains(x) && !prev.contains(x) {
                        assert(x == a);
                        assert(t.children@[j as int].addr == x);
                    }
                    if prev.contains(x) {
                        let w = choose|w: int| 0 <= w < prev.len() && prev[w] == x;
                        assert(out@[w] == x);
                        if !serves(trees@.take(i as int), x) {
                            let k = choose|k: int| 0 <= k < j && (#[trigger] t.children@[k]).addr == x && !t.children@[k].pending;
                            assert(0 <= k < j + 1);
                        }
                    }
                    if exists|k: int| 0 <= k < j + 1 && (#[trigger] t.children@[k]).addr == x && !t.children@[k].pending {
                        let k = choose|k: int| 0 <= k < j + 1 && (#[trigger] t.children@[k]).addr == x && !t.children@[k].pending;
                        if k == j && except != Some(x) && !prev.contains(x) {
                            assert(out@[prev.len() as int] == x);
                        }
                    }
                }
            }
            j = j + 1;
        }
        proof {
            assert forall|x: PeerAddr| #[trigger] serves(trees@.take(i + 1), x) <==> (serves(trees@.take(i as int), x) || exists|k: int|
                0 <= k < t.children@.len() && (#[trigger] t.children@[k]).addr == x && !t.children@[k].pending) by {
                let pre = trees@.take(i as int);
                let post = trees@.take(i + 1);
                if serves(post, x) {
                    let (u, k) = choose|u: int, k: int| 0 <= u < post.len() && 0 <= k < post[u].children@.len()
                        && (#[trigger] post[u].children@[k]).addr == x && !post[u].children@[k].pending;
                    if u < i {
                        assert(pre[u] == post[u]);
                        assert(pre[u].children@[k].addr == x);
                    } else {
                        assert(post[u] == *t);
                    }
                }
                if serves(pre, x) {
                    let (u, k) = choose|u: int, k: int| 0 <= u < pre.len() && 0 <= k < pre[u].children@.len()
                        && (#[trigger] pre[u].children@[k]).addr == x && !pre[u].children@[k].pending;
                    assert(post[u] == pre[u]);
                    assert(post[u].children@[k].addr == x);
                }
                if exists|k: int| 0 <= k < t.children@.len() && (#[trigger] t.children@[k]).addr == x && !t.children@[k].pending {
                    let k = choose|k: int| 0 <= k < t.children@.len() && (#[trigger] t.children@[k]).addr == x && !t.children@[k].pending;
                    assert(post[i as int] == *t);
                    assert(post[i as int].children@[k].addr == x);
                }
            }
        }
        i = i + 1;
    }
    proof {
        assert(trees@.take(trees@.len() as int) == trees@);
    }
    out
}

/// Whether `a` is among `addrs`.
fn holds_addr(addrs: &Vec<PeerAddr>, a: &PeerAddr) -> (r: bool)
    ensures r == addrs@.contains(*a),
{
    let mut i: usize = 0;
    while i < addrs.len()
        invariant
            i <= addrs@.len(),
            forall|k: int| 0 <= k < i ==> addrs@[k] != *a,
        decreases addrs@.len() - i,
    {
        if addrs[i].same(a) {
            assert(addrs@[i as int] == *a);
            return true;
        }
        i = i + 1;
    }
    false
}

/// The peers a manifest `(segment, chunk)` is forwarded to: every child we
/// serve in any tree, except the peer it came from, that has not had it yet.
/// The log records them; once it holds more than 4096 sends it forgets the
/// segments more than sixteen before the live edge.
pub fn forward_targets(
    trees: &Vec<TreeState>,
    except: Option<PeerAddr>,
    log: &mut ManifestLog,
    segment: u32,
    chunk: u8,
    live_edge: u32,
) -> (r: Vec<PeerAddr>)
    requires old(log).wf(),
    ensures
        final(log).wf(),
        forall|a: int, b: int| 0 <= a < r@.len() && 0 <= b < r@.len() && a != b ==> r@[a] != r@[b],
        forall|x: PeerAddr| #[trigger] r@.contains(x) <==> (serves(trees@, x) && except != Some(x) && !old(log).has(
            (segment, chunk, x),
        )),
        forall|k: SentKey| #[trigger] final(log).has(k) <==> ((old(log).has(k) || (k.0 == segment && k.1 == chunk
            && r@.contains(k.2))) && (old(log).size() + r@.len() > 4096 ==> k.0 >= (if live_edge >= 16 {
            live_edge - 16
        } else {
            0
        }))),
{
    let children = serving_children(trees, except);
    let mut targets: Vec<PeerAddr> = Vec::new();
    let mut j: usize = 0;
    while j < children.len()
        invariant
            j <= children@.len(),
            forall|a: int, b: int| 0 <= a < children@.len() && 0 <= b < children@.len() && a != b ==> children@[a] != children@[b],
            log.wf(),
            log.size() == old(log).size() + targets@.len(),
            forall|k: SentKey| #[trigger] log.has(k) <==> (old(log).has(k) || (k.0 == segment && k.1 == chunk
                && targets@.contains(k.2))),
            forall|x: PeerAddr| #[trigger] targets@.contains(x) <==> (children@.take(j as int).contains(x)
                && !old(log).has((segment, chunk, x))),
            forall|a: int, b: int| 0 <= a < targets@.len() && 0 <= b < targets@.len() && a != b ==> targets@[a] != targets@[b],
        decreases children@.len() - j,
    {
        let c = children[j];
        let ghost prev = targets@;
        proof {
            let pre = children@.take(j as int);
            assert(!pre.contains(c)) by {
                if pre.contains(c) {
                    let w = choose|w: int| 0 <= w < pre.len() && pre[w] == c;
                    assert(children@[w] == children@[j as int]);
                }
            }
            assert(!prev.contains(c));
        }
        if log.first_send(segment, chunk, c) {
            targets.push(c);
        }
        proof {
            let pre = children@.take(j as int);
            let post = children@.take(j + 1);
            assert(post == pre.push(c));
            assert forall|x: PeerAddr| #[trigger] targets@.contains(x) <==> (post.contains(x) && !old(log).has((segment, chunk, x))) by {
                if targets@.contains(x) {
                    let w = choose|w: int| 0 <= w < targets@.len() && targets@[w] == x;
                    if w < prev.len() {
                        assert(prev[w] == x);
                        assert(prev.contains(x));
                        let u = choose|u: int| 0 <= u < pre.len() && pre[u] == x;
                        assert(post[u] == x);
                    } else {
                        assert(x == c);
                        assert(post[j as int] == x);
                    }
                }
                if post.contains(x) && !old(log).has((segment, chunk, x)) {
                    let u = choose|u: int| 0 <= u < post.len() && post[u] == x;
                    if u < j {
                        assert(pre[u] == x);
                        assert(pre.contains(x));
                        assert(prev.contains(x));
                        let w = choose|w: int| 0 <= w < prev.len() && prev[w] == x;
                        assert(targets@[w] == x);
                    } else {
                        assert(x == c);
                        assert(targets@[prev.len() as int] == x);
                    }
                }
            }
            assert forall|k: SentKey| #[trigger] log.has(k) <==> (old(log).has(k) || (k.0 == segment && k.1 == chunk
                && targets@.contains(k.2))) by {
                if prev.contains(k.2) {
                    let w = choose|w: int| 0 <= w < prev.len() && prev[w] == k.2;
                    assert(targets@[w] == k.2);
                }
                if targets@.contains(k.2) && !prev.contains(k.2) {
                    assert(k.2 == c);
                }
            }
            assert forall|a: int, b: int| 0 <= a < targets@.len() && 0 <= b < targets@.len() && a != b implies targets@[a] != targets@[b] by {
                if a < prev.len() && b < prev.len() {
                    assert(targets@[a] == prev[a] && targets@[b] == prev[b]);
                } else if a < prev.len() {
                    assert(targets@[a] == prev[a]);
                    assert(prev.contains(prev[a]));
                } else if b < prev.len() {
                    assert(targets@[b] == prev[b]);
                    assert(prev.contains(prev[b]));
                }
            }
        }
        j = j + 1;
    }
    proof {
        assert(children@.take(children@.len() as int) == children@);
    }
    if log.len() > 4096 {
        log.prune(live_edge.saturating_sub(16));
    }
    targets
}

/// A manifest forwarded twice never goes to the same peer twice, as long as
/// its segment is not more than sixteen before the live edge of the first
/// forwarding (so the log cannot have forgotten it).
pub proof fn lemma_forwarded_once(
    before: ManifestLog,
    between: ManifestLog,
    segment: u32,
    chunk: u8,
    live_edge: u32,
    first: Seq<PeerAddr>,
    second: Seq<PeerAddr>,
)
    requires
        forall|k: SentKey| #[trigger] between.has(k) <==> ((before.has(k) || (k.0 == segment && k.1 == chunk
            && first.contains(k.2))) && (before.size() + first.len() > 4096 ==> k.0 >= (if live_edge >= 16 {
            live_edge - 16
        } else {
            0
        }))),
        forall|x: PeerAddr| #[trigger] second.contains(x) ==> !between.has((segment, chunk, x)),
        live_edge < 16 || segment >= live_edge - 16,
    ensures
        forall|x: PeerAddr| !(#[trigger] first.contains(x) && second.contains(x)),
{
    assert forall|x: PeerAddr| !(#[trigger] first.contains(x) && second.contains(x)) by {
        if first.contains(x) && second.contains(x) {
            assert(between.has((segment, chunk, x)));
        }
    }
}

/// The first segment whose manifests a newly served child is sent: the one
/// before the live edge, and never before the first segment.
pub fn recent_manifest_floor(live_edge: SegmentSeq) -> (r: SegmentSeq)
    ensures r.0 == if live_edge.0 >= 2 { live_edge.0 - 1 } else { 1 },
{
    let prev = live_edge.0.saturating_sub(1);
    SegmentSeq(if prev >= 1 { prev } else { 1 })
}

} // verus!
