//! Join timers, probe-round starts and the end of playout.

use bitstream::peer::forest::{ChildLink, Lifecycle, ParentLink, PeerAddr, TreeState};
use bitstream::peer::timers::{all_children, join_timer, pacing_slot, playout_finished, round_start, JoinPhase, RoundStart, TimerAction};
use bitstream::time::{Duration, Instant};
use bitstream::wire::{IpAddress, NodeClass, NodeId, TreeId, TreeSet};

fn addr(port: u16) -> PeerAddr {
    PeerAddr { ip: IpAddress::V4([10, 0, 0, 3]), port }
}

fn seeking() -> TreeState {
    let mut t = TreeState::new(TreeId(1));
    t.subscribed = true;
    t
}

fn parented() -> TreeState {
    let mut t = seeking();
    t.parent = Some(ParentLink {
        addr: addr(1),
        node_id: NodeId([1; 32]),
        parent_depth: 0,
        last_rx: Instant(0),
        pinged: false,
        srtt: Duration::from_millis(20),
        rttvar: Duration::from_millis(5),
        attached_at: Instant(0),
        first_block_at: None,
        pending: false,
        rejected_blocks: 0,
        attached_as_repair: false,
    });
    t
}

#[test]
fn a_probe_round_finishes_at_its_deadline() {
    let t = seeking();
    let p = JoinPhase::Probing { deadline: Instant(100) };
    assert_eq!(join_timer(p, &t, Instant(99), false, true, Lifecycle::Connecting), TimerAction::Wait);
    assert_eq!(join_timer(p, &t, Instant(100), false, true, Lifecycle::Connecting), TimerAction::FinishProbing);
}

#[test]
fn a_request_that_times_out_moves_to_the_next_candidate() {
    let t = seeking();
    let p = JoinPhase::Requesting { deadline: Instant(50), current: addr(7) };
    assert_eq!(join_timer(p, &t, Instant(49), false, true, Lifecycle::Connecting), TimerAction::Wait);
    assert_eq!(join_timer(p, &t, Instant(60), false, true, Lifecycle::Connecting), TimerAction::RequestNext { close: addr(7) });
}

#[test]
fn a_backoff_that_runs_out_probes_again_or_goes_idle() {
    let p = JoinPhase::Backoff { until: Instant(10) };
    assert_eq!(join_timer(p, &seeking(), Instant(9), false, true, Lifecycle::Active), TimerAction::Wait);
    assert_eq!(join_timer(p, &seeking(), Instant(10), false, true, Lifecycle::Active), TimerAction::BeginProbing);
    assert_eq!(join_timer(p, &parented(), Instant(10), false, true, Lifecycle::Active), TimerAction::GoIdle);
    let mut repairing = parented();
    repairing.repairing = true;
    assert_eq!(join_timer(p, &repairing, Instant(10), false, true, Lifecycle::Active), TimerAction::BeginProbing);
}

#[test]
fn an_idle_tree_starts_probing_only_when_ready() {
    let t = seeking();
    assert_eq!(join_timer(JoinPhase::Idle, &t, Instant(0), false, true, Lifecycle::Connecting), TimerAction::BeginProbing);
    assert_eq!(join_timer(JoinPhase::Idle, &t, Instant(0), true, true, Lifecycle::Connecting), TimerAction::Wait);
    assert_eq!(join_timer(JoinPhase::Idle, &t, Instant(0), false, false, Lifecycle::Connecting), TimerAction::Wait);
    assert_eq!(join_timer(JoinPhase::Idle, &t, Instant(0), false, true, Lifecycle::Discovery), TimerAction::Wait);
    assert_eq!(join_timer(JoinPhase::Idle, &parented(), Instant(0), false, true, Lifecycle::Active), TimerAction::Wait);
    let unwanted = TreeState::new(TreeId(2));
    assert_eq!(join_timer(JoinPhase::Idle, &unwanted, Instant(0), false, true, Lifecycle::Active), TimerAction::Wait);
}

#[test]
fn waiting_on_discovery_has_no_timer() {
    let p = JoinPhase::Discovering { since: Instant(0) };
    assert_eq!(join_timer(p, &seeking(), Instant(1_000_000), false, true, Lifecycle::Connecting), TimerAction::Wait);
}

#[test]
fn a_probe_round_start_depends_on_the_pool() {
    let d = Duration::from_millis(300);
    assert_eq!(round_start(true, 5, false, Instant(0), d), RoundStart::Skip);
    assert_eq!(round_start(false, 0, false, Instant(0), d), RoundStart::AwaitDiscovery);
    assert_eq!(round_start(false, 0, true, Instant(0), d), RoundStart::Probe { ask_discovery: false, deadline: Instant(300_000) });
    assert_eq!(round_start(false, 1, false, Instant(5), d), RoundStart::Probe { ask_discovery: true, deadline: Instant(300_005) });
    assert_eq!(round_start(false, 3, false, Instant(5), d), RoundStart::Probe { ask_discovery: false, deadline: Instant(300_005) });
    assert_eq!(round_start(false, 3, false, Instant(u64::MAX - 1), d), RoundStart::Probe { ask_discovery: false, deadline: Instant(u64::MAX) });
}

#[test]
fn an_ending_stream_finishes_once_nothing_is_left_to_play() {
    assert!(playout_finished(true, None, Lifecycle::Active));
    assert!(!playout_finished(true, Some(Instant(3)), Lifecycle::Active));
    assert!(!playout_finished(false, None, Lifecycle::Active));
    assert!(!playout_finished(true, None, Lifecycle::Terminated));
}

fn child(port: u16) -> ChildLink {
    ChildLink {
        addr: addr(port),
        node_id: NodeId([port as u8; 32]),
        node_class: NodeClass::Leaf,
        assigned_trees: TreeSet(0),
        last_tx: Instant(0),
        last_rx: Instant(0),
        admitted_at: Instant(0),
        parity: 1,
        draining_until: None,
        pending: false,
    }
}

#[test]
fn a_stream_end_reaches_each_child_once() {
    let mut t1 = TreeState::new(TreeId(1));
    let mut t2 = TreeState::new(TreeId(2));
    t1.insert_child(child(20));
    t1.insert_child(child(21));
    t2.insert_child(child(21));
    t2.insert_child(child(22));
    assert_eq!(all_children(&vec![t1, t2]), vec![addr(20), addr(21), addr(22)]);
    assert!(all_children(&vec![TreeState::new(TreeId(1))]).is_empty());
}

#[test]
fn the_source_spreads_a_chunk_over_its_pacing_window() {
    let w = Duration::from_millis(125);
    assert_eq!(pacing_slot(false, Instant(10), w, 3, 4), None);
    assert_eq!(pacing_slot(true, Instant(10), w, 0, 4), Some(Instant(10)));
    assert_eq!(pacing_slot(true, Instant(10), w, 3, 4), Some(Instant(10 + 93_750)));
    // An unknown chunk counts as one block.
    assert_eq!(pacing_slot(true, Instant(10), w, 1, 0), Some(Instant(10 + 125_000)));
}
