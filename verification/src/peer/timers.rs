//! What a node's timers decide for each tree's join attempt, who hears of
//! a stream's end, and when a stream that is ending has finished playing.
use vstd::prelude::*;
use crate::peer::forest::{Lifecycle, PeerAddr, TreeState};
use crate::time::{sat_add_u64, Duration, Instant};

verus! {

/// Where a tree's join attempt stands, as far as its timers go.
#[derive(Debug, Clone, Copy, PartialEq, Eq)]
pub enum JoinPhase {
    /// Nothing in flight.
    Idle,
    /// Waiting for discovery to answer since `since`.
    Discovering { since: Instant },
    /// Probes out, collecting answers until `deadline`.
    Probing { deadline: Instant },
    /// Asking `current` to take us, until `deadline`.
    Requesting { deadline: Instant, current: PeerAddr },
    /// Every candidate failed; retry at `until`.
    Backoff { until: Instant },
}

/// What a tree's join timer asks for.
#[derive(Debug, Clone, Copy, PartialEq, Eq)]
pub enum TimerAction {
    /// Nothing is due.
    Wait,
    /// The probe round is over: score the answers.
    FinishProbing,
    /// The request timed out: close the session with `close` unless it is
    /// still needed, and ask the next candidate.
    RequestNext { close: PeerAddr },
    /// Start a probe round.
    BeginProbing,
    /// Drop back to idle.
    GoIdle,
}

/// Whether a tree still needs a parent: it wants one and has none, or is
/// repairing.
pub open spec fn seeks_parent(t: TreeState) -> bool {
    (t.subscribed || t.assigned) && (t.parent is None || t.repairing)
}

/// The join timer's decision for a tree at `now`.
pub open spec fn join_timer_spec(
    phase: JoinPhase,
    t: TreeState,
    now: Instant,
    is_source: bool,
    has_matrix: bool,
    state: Lifecycle,
) -> TimerAction {
    match phase {
        JoinPhase::Probing { deadline } => if now.0 >= deadline.0 {
            TimerAction::FinishProbing
        } else {
            TimerAction::Wait
        },
        JoinPhase::Requesting { deadline, current } => if now.0 >= deadline.0 {
            TimerAction::RequestNext { close: current }
        } else {
            TimerAction::Wait
        },
        JoinPhase::Backoff { until } => if now.0 < until.0 {
            TimerAction::Wait
        } else if seeks_parent(t) {
            TimerAction::BeginProbing
        } else {
            TimerAction::GoIdle
        },
        JoinPhase::Idle => if !is_source && seeks_parent(t) && has_matrix && state != Lifecycle::Discovery {
            TimerAction::BeginProbing
        } else {
            TimerAction::Wait
        },
        JoinPhase::Discovering { .. } => TimerAction::Wait,
    }
}

/// A tree's join timer at `now`: a probe round or a request whose deadline
/// passed moves on; a backoff that ran out probes again if the tree still
/// seeks a parent, else goes idle; an idle tree of a viewer that seeks a
/// parent, knows the tree mapping and is past discovery starts probing.
pub fn join_timer(
    phase: JoinPhase,
    t: &TreeState,
    now: Instant,
    is_source: bool,
    has_matrix: bool,
    state: Lifecycle,
) -> (r: TimerAction)
    ensures
        r == join_timer_spec(phase, *t, now, is_source, has_matrix, state),
{
    let seeks = t.wants_parent() && (t.parent.is_none() || t.repairing);
    match phase {
        JoinPhase::Probing { deadline } => if now.0 >= deadline.0 {
            TimerAction::FinishProbing
        } else {
            TimerAction::Wait
        },
        JoinPhase::Requesting { deadline, current } => if now.0 >= deadline.0 {
            TimerAction::RequestNext { close: current }
        } else {
            TimerAction::Wait
        },
        JoinPhase::Backoff { until } => if now.0 < until.0 {
            TimerAction::Wait
        } else if seeks {
            TimerAction::BeginProbing
        } else {
            TimerAction::GoIdle
        },
        JoinPhase::Idle => {
            let discovering = match state {
                Lifecycle::Discovery => true,
                _ => false,
            };
            if !is_source && seeks && has_matrix && !discovering {
                TimerAction::BeginProbing
            } else {
                TimerAction::Wait
            }
        },
        JoinPhase::Discovering { .. } => TimerAction::Wait,
    }
}

/// Whether an ending stream has finished: it is ending, nothing is left to
/// play, and the node has not terminated yet.
pub fn playout_finished(ending: bool, next_deadline: Option<Instant>, state: Lifecycle) -> (r: bool)
    ensures
        r == (ending && next_deadline is None && state != Lifecycle::Terminated),
{
    let terminated = match state {
        Lifecycle::Terminated => true,
        _ => false,
    };
    ending && next_deadline.is_none() && !terminated
}

/// How a probe round starts.
#[derive(Debug, Clone, Copy, PartialEq, Eq)]
pub enum RoundStart {
    /// The source never joins.
    Skip,
    /// No candidate at all: ask discovery and wait for its answer.
    AwaitDiscovery,
    /// Probe every candidate until `deadline`; with fewer than two and no
    /// discovery query in flight, also ask discovery for this tree.
    Probe { ask_discovery: bool, deadline: Instant },
}

/// How a probe round over `candidates` peers starts at `now`: the source
/// skips it; a thin pool (fewer than two) asks discovery when no query is in
/// flight, and with no candidate at all then waits for it; otherwise every
/// candidate is probed until `now + probe_timeout`.
pub fn round_start(is_source: bool, candidates: usize, discovery_inflight: bool, now: Instant, probe_timeout: Duration) -> (r: RoundStart)
    ensures
        is_source ==> r == RoundStart::Skip,
        !is_source && candidates == 0 && !discovery_inflight ==> r == RoundStart::AwaitDiscovery,
        !is_source && (candidates > 0 || discovery_inflight) ==> r == (RoundStart::Probe {
            ask_discovery: candidates < 2 && !discovery_inflight,
            deadline: Instant(sat_add_u64(now.0 as int, probe_timeout.0 as int) as u64),
        }),
{
    if is_source {
        return RoundStart::Skip;
    }
    let ask = candidates < 2 && !discovery_inflight;
    if ask && candidates == 0 {
        return RoundStart::AwaitDiscovery;
    }
    RoundStart::Probe { ask_discovery: ask, deadline: now.plus(probe_timeout) }
}

/// Whether `a` is a child in some tree of `ts`.
pub open spec fn child_anywhere(ts: Seq<TreeState>, a: PeerAddr) -> bool {
    exists|k: int, i: int| 0 <= k < ts.len() && 0 <= i < ts[k].children@.len() && (#[trigger] ts[k].children@[i]).addr == a
}

/// Whether `a` occurs in `v`.
fn holds_addr(v: &Vec<PeerAddr>, a: &PeerAddr) -> (r: bool)
    ensures
        r == v@.contains(*a),
{
    let mut i: usize = 0;
    while i < v.len()
        invariant
            i <= v@.len(),
            forall|x: int| 0 <= x < i ==> v@[x] != *a,
        decreases v@.len() - i,
    {
        if v[i].same(a) {
            return true;
        }
        i = i + 1;
    }
    false
}

/// Every child of every tree, each address once, in tree order then child
/// order: the peers a stream's end is passed on to.
pub fn all_children(trees: &Vec<TreeState>) -> (r: Vec<PeerAddr>)
    ensures
        forall|a: PeerAddr| r@.contains(a) <==> child_anywhere(trees@, a),
        r@.no_duplicates(),
{
    let mut out: Vec<PeerAddr> = Vec::new();
    let mut k: usize = 0;
    while k < trees.len()
        invariant
            k <= trees@.len(),
            out@.no_duplicates(),
            forall|a: PeerAddr| out@.contains(a) <==> child_anywhere(trees@.take(k as int), a),
        decreases trees@.len() - k,
    {
        let kids = &trees[k].children;
        let mut i: usize = 0;
        while i < kids.len()
            invariant
                k < trees@.len(),
                kids@ == trees@[k as int].children@,
                i <= kids@.len(),
                out@.no_duplicates(),
                forall|a: PeerAddr| out@.contains(a) <==> (child_anywhere(trees@.take(k as int), a) || exists|j: int|
                    0 <= j < i && (#[trigger] kids@[j]).addr == a),
            decreases kids@.len() - i,
        {
            let a = kids[i].addr;
            let ghost before = out@;
            if !holds_addr(&out, &a) {
                out.push(a);
                proof {
                    assert(out@ == before.push(a));
                    assert forall|x: int, y: int| 0 <= x < out@.len() && 0 <= y < out@.len() && x != y implies out@[x] != out@[y] by {
                        if x < before.len() && y < before.len() {
                        } else if x < before.len() {
                            assert(before.contains(before[x]));
                        } else if y < before.len() {
                            assert(before.contains(before[y]));
                        }
                    }
                }
            }
            proof {
                assert forall|b: PeerAddr| out@.contains(b) <==> (child_anywhere(trees@.take(k as int), b) || exists|j: int|
                    0 <= j < i + 1 && (#[trigger] kids@[j]).addr == b) by {
                    if out@.contains(b) && !before.contains(b) {
                        let x = choose|x: int| 0 <= x < out@.len() && out@[x] == b;
                        assert(x == before.len());
                        assert(kids@[i as int].addr == b);
                    }
                    if before.contains(b) {
                        let x = choose|x: int| 0 <= x < before.len() && before[x] == b;
                        assert(out@[x] == b);
                    }
                    if exists|j: int| 0 <= j < i + 1 && (#[trigger] kids@[j]).addr == b {
                        let j = choose|j: int| 0 <= j < i + 1 && (#[trigger] kids@[j]).addr == b;
                        if j == i && !before.contains(b) {
                            assert(out@[before.len() as int] == b);
                        }
                    }
                }
            }
            i = i + 1;
        }
        proof {
            assert forall|b: PeerAddr| out@.contains(b) <==> child_anywhere(trees@.take(k + 1), b) by {
                let t = trees@.take(k + 1);
                if child_anywhere(t, b) {
                    let (x, j) = choose|x: int, j: int| 0 <= x < t.len() && 0 <= j < t[x].children@.len() && (#[trigger] t[x].children@[j]).addr == b;
                    if x < k {
                        assert(trees@.take(k as int)[x].children@[j].addr == b);
                    } else {
                        assert(kids@[j].addr == b);
                    }
                }
                if child_anywhere(trees@.take(k as int), b) {
                    let (x, j) = choose|x: int, j: int| 0 <= x < k && 0 <= j < trees@.take(k as int)[x].children@.len() && (#[trigger] trees@.take(k as int)[x].children@[j]).addr == b;
                    assert(t[x].children@[j].addr == b);
                }
                if exists|j: int| 0 <= j < kids@.len() && (#[trigger] kids@[j]).addr == b {
                    let j = choose|j: int| 0 <= j < kids@.len() && (#[trigger] kids@[j]).addr == b;
                    assert(t[k as int].children@[j].addr == b);
                }
            }
        }
        k = k + 1;
    }
    proof {
        assert(trees@.take(trees@.len() as int) =~= trees@);
    }
    out
}

/// When the source may push block `j` of a chunk of `blocks` blocks: `j / n`
/// of the pacing window after `now`, with `n` the block count (at least 1);
/// other nodes forward at once.
pub fn pacing_slot(is_source: bool, now: Instant, window: Duration, j: u16, blocks: usize) -> (r: Option<Instant>)
    requires
        window.0 * j <= u64::MAX,
    ensures
        !is_source ==> r is None,
        is_source ==> r == Some(Instant(sat_add_u64(
            now.0 as int,
            (window.0 * j) / (if blocks >= 1 { blocks as int } else { 1 }),
        ) as u64)),
{
    if !is_source {
        return None;
    }
    let n: u64 = if blocks >= 1 { blocks as u64 } else { 1 };
    let offset: u64 = window.0 * (j as u64) / n;
    Some(now.plus(Duration(offset)))
}

} // verus!
