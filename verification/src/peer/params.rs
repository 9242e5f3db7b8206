//! The protocol's timers, counts and limits, each named as in the protocol's
//! parameter appendix, in one place. `Params::default()` is the specification;
//! simulation scenarios override fields. The weights of the parent score and of
//! slot sizing are real numbers and live with the floating-point driver code.
use vstd::prelude::*;
use crate::time::{sat_add_u64, Duration};

verus! {

/// Protocol parameters: the timers, counts and limits.
#[derive(Debug, Clone, PartialEq)]
pub struct Params {
    /// Heartbeat after this much silence toward a child; the child probes after it.
    pub tau_ping: Duration,
    /// Floor of the eviction timeout.
    pub tau_evict_floor: Duration,
    /// Tit-for-tat cycle.
    pub tau_tft: Duration,
    /// Bitfield gossip interval.
    pub tau_gossip: Duration,
    /// Buffer scheduler / pull evaluation cycle.
    pub tau_sched: Duration,
    /// Roster distribution interval.
    pub tau_roster: Duration,
    /// An orphan's deputy-response timer.
    pub tau_deputy: Duration,
    /// Minimum dwell between forest-size changes.
    pub tau_forest: Duration,
    /// Migration window, segments.
    pub migration_window_segments: u32,
    /// Segments a parent keeps serving a released child.
    pub tau_drain_segments: u32,
    /// Verified segments kept for late joiners.
    pub tau_retain: Duration,
    /// Discovery registration lifetime.
    pub tau_ttl: Duration,
    /// Probe timeout during parent selection.
    pub probe_timeout: Duration,
    /// Failed join rounds before a layer is shed.
    pub shed_after_failed_rounds: u32,
    /// Hysteresis before re-joining a shed layer.
    pub shed_hysteresis: Duration,
    /// Upward-migration evaluation interval.
    pub tau_migrate: Duration,
    /// Join retry backoff base.
    pub join_backoff: Duration,
    /// Active set target.
    pub c_a: usize,
    /// Passive set target.
    pub c_p: usize,
    /// Maximum hop depth.
    pub d_max: u8,
    /// Playout deadline behind the live edge.
    pub delta_buffer: Duration,
    /// Pull window floor.
    pub w_pull_min: Duration,
    /// Pull window ceiling.
    pub w_pull_max: Duration,
    /// Relay counts at which the forest size steps to 2..=6.
    pub forest_ladder_relays: Vec<u32>,
    /// Static proof-of-work bits.
    pub c1: u32,
    /// Dynamic proof-of-work floor.
    pub c2_min: u32,
    /// Chunk period.
    pub chunk_period: Duration,
    /// Manifest acceptance window ahead of the live edge, segments.
    pub manifest_window_ahead: u32,
    /// Parity symbols per block before any loss report.
    pub default_parity: u16,
}

/// The eviction timeout `max(floor, 2·τ_ping + SRTT + 4·RTTVAR)`, each step
/// saturating at the end of the `u64` range.
pub open spec fn tau_evict_spec(ping: u64, floor: u64, srtt: u64, rttvar: u64) -> int {
    let two_ping = if ping * 2 > u64::MAX { u64::MAX as int } else { ping * 2 };
    let four_var = if rttvar * 4 > u64::MAX { u64::MAX as int } else { rttvar * 4 };
    let computed = sat_add_u64(sat_add_u64(two_ping, srtt as int), four_var);
    if computed > floor { computed } else { floor as int }
}

/// `v` clamped into `[lo, hi]`.
pub open spec fn clamp_int(v: int, lo: int, hi: int) -> int {
    if v < lo { lo } else if v > hi { hi } else { v }
}

/// The forest size after looking at the first `n` ladder rungs: the last rung
/// `i >= 2` whose threshold the relay count reaches sets it to `i + 1` (kept
/// as a byte), 2 when none does.
pub open spec fn ladder_scan(ladder: Seq<u32>, relays: u32, n: int) -> u8
    decreases n,
{
    if n <= 2 {
        2
    } else if relays >= ladder[n - 1] {
        (n as int) as u8
    } else {
        ladder_scan(ladder, relays, n - 1)
    }
}

/// Forest size for a relay count: the ladder's answer, clamped into `2..=6`.
pub open spec fn forest_size_spec(ladder: Seq<u32>, relays: u32) -> int {
    clamp_int(ladder_scan(ladder, relays, ladder.len() as int) as int, 2, 6)
}

impl Default for Params {
    /// The specification values.
    fn default() -> (r: Params)
        ensures
            r.tau_ping.0 == 100_000,
            r.tau_evict_floor.0 == 200_000,
            r.delta_buffer.0 == 3_000_000,
            r.w_pull_min.0 == 1_500_000,
            r.w_pull_max.0 == 2_000_000,
            r.tau_retain.0 == 8_000_000,
            r.chunk_period.0 == 250_000,
            r.manifest_window_ahead == 3,
            r.d_max == 8,
            r.c1 == 16,
            r.c2_min == 8,
            r.shed_after_failed_rounds == 2,
            r.default_parity == 1,
            r.forest_ladder_relays@ == seq![0u32, 6, 12, 24, 48, 96],
    {
        Params {
            tau_ping: Duration::from_millis(100),
            tau_evict_floor: Duration::from_millis(200),
            tau_tft: Duration::from_millis(500),
            tau_gossip: Duration::from_millis(1000),
            tau_sched: Duration::from_millis(100),
            tau_roster: Duration::from_millis(1000),
            tau_deputy: Duration::from_millis(45),
            tau_forest: Duration::from_secs(30),
            migration_window_segments: 5,
            tau_drain_segments: 5,
            tau_retain: Duration::from_secs(8),
            tau_ttl: Duration::from_secs(180),
            probe_timeout: Duration::from_millis(200),
            shed_after_failed_rounds: 2,
            shed_hysteresis: Duration::from_secs(10),
            tau_migrate: Duration::from_secs(5),
            join_backoff: Duration::from_millis(250),
            c_a: 8,
            c_p: 32,
            d_max: 8,
            delta_buffer: Duration::from_secs(3),
            w_pull_min: Duration::from_millis(1500),
            w_pull_max: Duration::from_millis(2000),
            forest_ladder_relays: vec![0, 6, 12, 24, 48, 96],
            c1: 16,
            c2_min: 8,
            chunk_period: Duration::from_millis(250),
            manifest_window_ahead: 3,
            default_parity: 1,
        }
    }
}

impl Params {
    /// The specification values with cheap proof-of-work, for simulation and tests.
    pub fn for_simulation() -> (r: Params)
        ensures
            r.c1 == 4,
            r.c2_min == 2,
            r.tau_ping.0 == 100_000,
            r.tau_evict_floor.0 == 200_000,
            r.delta_buffer.0 == 3_000_000,
            r.chunk_period.0 == 250_000,
            r.manifest_window_ahead == 3,
            r.tau_retain.0 == 8_000_000,
    {
        let mut p = Params::default();
        p.c1 = 4;
        p.c2_min = 2;
        p
    }

    /// The eviction timeout for a connection with the given RTT estimator state.
    pub fn tau_evict(&self, srtt: Duration, rttvar: Duration) -> (r: Duration)
        ensures r.0 == tau_evict_spec(self.tau_ping.0, self.tau_evict_floor.0, srtt.0, rttvar.0),
    {
        let computed = self.tau_ping.times(2).plus(srtt).plus(rttvar.times(4));
        if computed.0 > self.tau_evict_floor.0 {
            computed
        } else {
            self.tau_evict_floor
        }
    }

    /// The pull window: `τ_evict_max + 6·SRTT_max` clamped into
    /// `[w_pull_min, w_pull_max]`.
    pub fn w_pull(&self, tau_evict_max: Duration, srtt_max: Duration) -> (r: Duration)
        requires self.w_pull_min.0 <= self.w_pull_max.0,
        ensures
            r.0 == clamp_int(
                sat_add_u64(
                    tau_evict_max.0 as int,
                    if srtt_max.0 * 6 > u64::MAX { u64::MAX as int } else { srtt_max.0 * 6 },
                ),
                self.w_pull_min.0 as int,
                self.w_pull_max.0 as int,
            ),
    {
        let w = tau_evict_max.plus(srtt_max.times(6));
        w.clamp(self.w_pull_min, self.w_pull_max)
    }

    /// Parents wanted before a node counts as joined: `max(1, min(4, N - 1))`.
    pub fn theta_join(&self, swarm_size: u32) -> (r: usize)
        ensures r == clamp_int(if swarm_size >= 1 { swarm_size - 1 } else { 0 }, 1, 4),
    {
        let n = swarm_size.saturating_sub(1);
        if n < 1 {
            1
        } else if n > 4 {
            4
        } else {
            n as usize
        }
    }

    /// Forest size for a relay count, from the ladder.
    pub fn forest_size(&self, relay_count: u32) -> (r: u8)
        ensures r == forest_size_spec(self.forest_ladder_relays@, relay_count),
    {
        let ladder = &self.forest_ladder_relays;
        let mut m: u8 = 2;
        let mut i: usize = 2;
        if ladder.len() < 2 {
            i = ladder.len();
        }
        while i < ladder.len()
            invariant
                i <= ladder@.len(),
                i >= 2 || i == ladder@.len(),
                m == ladder_scan(ladder@, relay_count, i as int),
            decreases ladder@.len() - i,
        {
            let ghost before = m;
            if relay_count >= ladder[i] {
                m = (i + 1) as u8;
            }
            proof {
                let n = (i + 1) as int;
                assert(n > 2);
                assert(ladder_scan(ladder@, relay_count, n) == if relay_count >= ladder@[n - 1] {
                    (n as int) as u8
                } else {
                    ladder_scan(ladder@, relay_count, n - 1)
                });
            }
            i = i + 1;
        }
        if m < 2 {
            2
        } else if m > 6 {
            6
        } else {
            m
        }
    }
}

} // verus!
