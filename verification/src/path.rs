//! One overlay TCP as the session sees it, and the clocks that hang on it.

use std::collections::BTreeMap;
use vstd::prelude::*;

use crate::cfg::SessionConfig;
use crate::frames::Frame;
use crate::num::{above, capped, larger, max_u64, min_u64, mul_capped, smaller, within};
use crate::recv::StreamAck;
use crate::stream::StreamState;
use crate::tuning::clamp;

verus! {

#[derive(Clone, Copy, Debug, PartialEq, Eq, Structural)]
pub enum Health {
    Up,
    Degraded,
    Down,
}

/// The numbers of one path.
#[derive(Clone, Copy, Debug, PartialEq, Eq, Structural)]
pub struct PathStat {
    pub state: Health,
    /// Fast RTT average. 0 = no ping completed yet.
    pub rtt_us: u64,
    /// Slow RTT the loss budget is drawn from.
    pub stable_rtt_us: u64,
    pub class_rtt_us: u64,
    pub class_known: bool,
    /// When the class became known.
    pub class_known_at: u64,
    pub last_rx: u64,
    pub up_since: u64,
    /// RTT and probe interval assumed while deciding on down.
    pub assumed_rtt: u64,
    pub assumed_probe: u64,
    /// Probe interval of the measured RTT.
    pub probe: u64,
    /// Silence that degrades the path.
    pub degrade_for: u64,
    /// May be picked for new frames.
    pub schedulable: bool,
    /// Was heard within its loss timeout.
    pub loss_fresh: bool,
    /// May take bulk that makes way for small frames.
    pub bulk_dest_ok: bool,
    /// The urgent queue refused a frame.
    pub congested: bool,
    /// The writer missed its deadline.
    pub write_stalled: bool,
    /// The writer task takes frames.
    pub writer_open: bool,
    /// Frames a full queue refused.
    pub send_drops: u64,
    pub inflight: u64,
    /// Bulk bytes the path still takes.
    pub room: u64,
    /// Streams that call this path home.
    pub sticky: u64,
    pub picks: u64,
    /// ACK clock: bytes delivered, when, and the first send since.
    pub delivered: u64,
    pub delivered_at_us: u64,
    pub first_tx_us: u64,
    pub min_rtt_us: Option<u64>,
    /// Loaded ACK loop of bulk pieces.
    pub ack_rtt_us: Option<u64>,
    pub outlier_since: Option<u64>,
    pub failover_recorded: bool,
    /// Probes that expired since the last tick, and probes still out.
    pub probe_miss: u64,
    pub pending_pings: u64,
    /// Segments and bytes the kernel sent again.
    pub total_retrans: u32,
    pub bytes_retrans: u64,
}

pub struct PathState {
    pub id: u32,
    pub name: String,
    /// The named link this connection belongs to.
    pub link: String,
    pub stat: PathStat,
    /// Newest ACK per stream, waiting for the writer.
    pub pending_acks: BTreeMap<u32, StreamAck>,
    /// Frames ahead of bulk, and bulk frames, not yet written.
    pub urgent: Vec<Frame>,
    pub writer: Vec<Frame>,
}

impl PathStat {
    pub open spec fn alive(self) -> bool {
        !(self.state is Down)
    }

    pub open spec fn rtt_known(self) -> bool {
        self.rtt_us != 0
    }

    /// Alive with a measured RTT.
    pub open spec fn measured(self) -> bool {
        self.alive() && self.rtt_known()
    }

    /// How long nothing was heard.
    pub open spec fn quiet_for(self, now: u64) -> int {
        above(now as int, self.last_rx as int)
    }

    pub fn is_alive(&self) -> (r: bool)
        ensures
            r == self.alive(),
    {
        match self.state {
            Health::Down => false,
            _ => true,
        }
    }

    pub fn is_up(&self) -> (r: bool)
        ensures
            r == (self.state is Up),
    {
        match self.state {
            Health::Up => true,
            _ => false,
        }
    }

    pub fn is_rtt_known(&self) -> (r: bool)
        ensures
            r == self.rtt_known(),
    {
        self.rtt_us != 0
    }

    pub fn last_rx_ago(&self, now: u64) -> (r: u64)
        ensures
            r == self.quiet_for(now),
    {
        now.saturating_sub(self.last_rx)
    }

    /// Probe interval; the operator minimum until the first Pong.
    pub open spec fn probe_of(self, cfg: SessionConfig) -> u64 {
        if self.rtt_known() {
            self.probe
        } else {
            cfg.ping_interval_min
        }
    }

    pub fn probe_interval_for(&self, cfg: &SessionConfig) -> (r: u64)
        ensures
            r == self.probe_of(*cfg),
    {
        if self.is_rtt_known() {
            self.probe
        } else {
            cfg.ping_interval_min
        }
    }

    /// Silence that takes the path down, by its assumed RTT.
    pub open spec fn down_after(self, cfg: SessionConfig) -> int {
        cfg.tuning.down_timeout_of(self.assumed_rtt as int, self.assumed_probe as int)
    }

    pub fn down_for(&self, cfg: &SessionConfig) -> (r: u64)
        requires
            cfg.wf(),
        ensures
            r == self.down_after(*cfg),
    {
        cfg.tuning.down_timeout(self.assumed_rtt, self.assumed_probe)
    }

    /// The down timeout of the stable RTT; bulk pieces wait by it.
    pub open spec fn stable_down(self, cfg: SessionConfig) -> int {
        cfg.tuning.down_timeout_of(self.stable_rtt_us as int, self.probe_of(cfg) as int)
    }

    pub fn stable_down_timeout(&self, cfg: &SessionConfig) -> (r: u64)
        requires
            cfg.wf(),
        ensures
            r == self.stable_down(*cfg),
    {
        cfg.tuning.down_timeout(self.stable_rtt_us, self.probe_interval_for(cfg))
    }

    /// Largest sample that may be recorded as this path's RTT: its own class
    /// (or stable) loss clock, never a faster neighbour's. Unknown paths keep
    /// the first-sample window.
    pub open spec fn sample_cap(self, cfg: SessionConfig) -> int {
        if self.class_known {
            cfg.tuning.loss_timeout_of(self.class_rtt_us as int)
        } else if self.rtt_known() {
            cfg.tuning.loss_timeout_of(self.stable_rtt_us as int)
        } else {
            cfg.tuning.unknown_degrade_min as int
        }
    }

    pub fn rtt_sample_cap(&self, cfg: &SessionConfig) -> (r: u64)
        requires
            cfg.wf(),
        ensures
            r == self.sample_cap(*cfg),
    {
        if self.class_known {
            cfg.tuning.loss_timeout(self.class_rtt_us)
        } else if self.is_rtt_known() {
            cfg.tuning.loss_timeout(self.stable_rtt_us)
        } else {
            cfg.tuning.unknown_degrade_min
        }
    }

    /// Belt for a bulk piece on a *fresh* path: the down timeout doubled with
    /// every path tried, capped.
    pub open spec fn belt(self, cfg: SessionConfig, tries: int) -> int {
        smaller(
            capped(self.stable_down(cfg) * doubling(tries)),
            cfg.tuning.down_timeout_ceil as int,
        )
    }

    pub fn hedge_belt(&self, cfg: &SessionConfig, tries: usize) -> (r: u64)
        requires
            cfg.wf(),
        ensures
            r == self.belt(*cfg, tries as int),
    {
        let base: u64 = self.stable_down_timeout(cfg);
        min_u64(mul_capped(base, backoff_factor(tries)), cfg.tuning.down_timeout_ceil)
    }

    pub fn add_inflight(&mut self, n: u64)
        ensures
            *final(self) == (PathStat {
                inflight: capped(old(self).inflight + n) as u64,
                ..*old(self)
            }),
    {
        self.inflight = self.inflight.saturating_add(n);
    }

    pub fn sub_inflight(&mut self, n: u64)
        ensures
            *final(self) == (PathStat {
                inflight: above(old(self).inflight as int, n as int) as u64,
                ..*old(self)
            }),
    {
        self.inflight = self.inflight.saturating_sub(n);
    }
}

/// 1, 1, 2, 4, 8, 16, 16, ... for 0, 1, 2, ... paths tried.
pub open spec fn doubling(tries: int) -> int {
    if tries <= 1 {
        1
    } else if tries == 2 {
        2
    } else if tries == 3 {
        4
    } else if tries == 4 {
        8
    } else {
        16
    }
}

pub fn backoff_factor(tries: usize) -> (r: u64)
    ensures
        r == doubling(tries as int),
{
    if tries <= 1 {
        1
    } else if tries == 2 {
        2
    } else if tries == 3 {
        4
    } else if tries == 4 {
        8
    } else {
        16
    }
}

// ---------------------------------------------------------------------------
// The pool
// ---------------------------------------------------------------------------
/// No two paths share an id.
pub open spec fn distinct_ids(ps: Seq<PathState>) -> bool {
    forall|i: int, j: int| 0 <= i < j < ps.len() ==> ps[i].id != ps[j].id
}

/// Index of the path with this id.
pub open spec fn index_of(ps: Seq<PathState>, id: u32) -> Option<int> {
    if exists|i: int| 0 <= i < ps.len() && #[trigger] ps[i].id == id {
        Some(choose|i: int| 0 <= i < ps.len() && #[trigger] ps[i].id == id)
    } else {
        None
    }
}

/// The numbers of the path with this id.
pub open spec fn stat_of(ps: Seq<PathState>, id: u32) -> Option<PathStat> {
    match index_of(ps, id) {
        Some(i) => Some(ps[i].stat),
        None => None,
    }
}

pub fn find_path(paths: &Vec<PathState>, id: u32) -> (r: Option<usize>)
    requires
        distinct_ids(paths@),
    ensures
        match r {
            Some(i) => i < paths@.len() && paths@[i as int].id == id && index_of(paths@, id) == Some(
                i as int,
            ),
            None => index_of(paths@, id) is None,
        },
{
    let mut i: usize = 0;
    while i < paths.len()
        invariant
            i <= paths@.len(),
            distinct_ids(paths@),
            forall|k: int| 0 <= k < i ==> paths@[k].id != id,
        decreases paths.len() - i,
    {
        if paths[i].id == id {
            proof {
                let w = choose|w: int| 0 <= w < paths@.len() && #[trigger] paths@[w].id == id;
                assert(w == i);
            }
            return Some(i);
        }
        i += 1;
    }
    None
}

pub fn get_path(paths: &Vec<PathState>, id: u32) -> (r: Option<PathStat>)
    requires
        distinct_ids(paths@),
    ensures
        r == stat_of(paths@, id),
{
    match find_path(paths, id) {
        Some(i) => Some(paths[i].stat),
        None => None,
    }
}

/// The smaller of an optional and a value.
pub open spec fn min_opt(a: Option<u64>, b: u64) -> Option<u64> {
    match a {
        Some(x) => if x <= b {
            Some(x)
        } else {
            Some(b)
        },
        None => Some(b),
    }
}

/// Smallest fast RTT among alive, measured paths.
pub open spec fn min_fast(ps: Seq<PathState>) -> Option<u64>
    decreases ps.len(),
{
    if ps.len() == 0 {
        None
    } else if ps.last().stat.measured() {
        min_opt(min_fast(ps.drop_last()), ps.last().stat.rtt_us)
    } else {
        min_fast(ps.drop_last())
    }
}

/// It is the RTT of one of them, and none of them is below it.
pub proof fn lemma_min_fast(ps: Seq<PathState>)
    ensures
        match min_fast(ps) {
            Some(m) => {
                &&& m > 0
                &&& exists|i: int|
                    0 <= i < ps.len() && (#[trigger] ps[i]).stat.measured() && ps[i].stat.rtt_us
                        == m
                &&& forall|i: int|
                    0 <= i < ps.len() && (#[trigger] ps[i]).stat.measured() ==> ps[i].stat.rtt_us
                        >= m
            },
            None => forall|i: int| 0 <= i < ps.len() ==> !(#[trigger] ps[i]).stat.measured(),
        },
    decreases ps.len(),
{
    if ps.len() > 0 {
        let front = ps.drop_last();
        lemma_min_fast(front);
        let last = ps.len() - 1;
        assert(ps[last] == ps.last());
        match min_fast(front) {
            Some(m) => {
                let i = choose|i: int|
                    0 <= i < front.len() && (#[trigger] front[i]).stat.measured()
                        && front[i].stat.rtt_us == m;
                assert(ps[i] == front[i]);
                assert forall|j: int| 0 <= j < ps.len() && (#[trigger] ps[j]).stat.measured() implies ps[j].stat.rtt_us
                    >= min_fast(ps)->0 by {
                    if j < last {
                        assert(front[j] == ps[j]);
                    }
                }
            },
            None => {
                assert forall|j: int| 0 <= j < last implies !(#[trigger] ps[j]).stat.measured() by {
                    assert(front[j] == ps[j]);
                }
            },
        }
    }
}

pub fn min_alive_fast_rtt(paths: &Vec<PathState>) -> (r: Option<u64>)
    ensures
        r == min_fast(paths@),
{
    let mut best: Option<u64> = None;
    let mut i: usize = 0;
    while i < paths.len()
        invariant
            i <= paths@.len(),
            best == min_fast(paths@.take(i as int)),
        decreases paths.len() - i,
    {
        proof {
            assert(paths@.take(i + 1).drop_last() =~= paths@.take(i as int));
        }
        let s: PathStat = paths[i].stat;
        if s.is_alive() && s.is_rtt_known() {
            best =
            match best {
                Some(x) => if x <= s.rtt_us {
                    Some(x)
                } else {
                    Some(s.rtt_us)
                },
                None => Some(s.rtt_us),
            };
        }
        i += 1;
    }
    assert(paths@.take(paths@.len() as int) =~= paths@);
    best
}

/// Smallest measured RTT, dead paths included.
pub open spec fn min_known(ps: Seq<PathState>) -> Option<u64>
    decreases ps.len(),
{
    if ps.len() == 0 {
        None
    } else if ps.last().stat.rtt_known() {
        min_opt(min_known(ps.drop_last()), ps.last().stat.rtt_us)
    } else {
        min_known(ps.drop_last())
    }
}

/// Smallest measured RTT; the largest probe interval where none is measured.
pub fn min_known_rtt(paths: &Vec<PathState>, cfg: &SessionConfig) -> (r: u64)
    ensures
        r == (match min_known(paths@) {
            Some(m) => m,
            None => cfg.ping_interval_max,
        }),
{
    let mut best: Option<u64> = None;
    let mut i: usize = 0;
    while i < paths.len()
        invariant
            i <= paths@.len(),
            best == min_known(paths@.take(i as int)),
        decreases paths.len() - i,
    {
        proof {
            assert(paths@.take(i + 1).drop_last() =~= paths@.take(i as int));
        }
        let s: PathStat = paths[i].stat;
        if s.is_rtt_known() {
            best =
            match best {
                Some(x) => if x <= s.rtt_us {
                    Some(x)
                } else {
                    Some(s.rtt_us)
                },
                None => Some(s.rtt_us),
            };
        }
        i += 1;
    }
    assert(paths@.take(paths@.len() as int) =~= paths@);
    match best {
        Some(m) => m,
        None => cfg.ping_interval_max,
    }
}

/// How many paths are alive.
pub open spec fn alive_count(ps: Seq<PathState>) -> nat
    decreases ps.len(),
{
    if ps.len() == 0 {
        0
    } else {
        alive_count(ps.drop_last()) + (if ps.last().stat.alive() {
            1nat
        } else {
            0nat
        })
    }
}

pub proof fn lemma_alive_count(ps: Seq<PathState>)
    ensures
        alive_count(ps) <= ps.len(),
        alive_count(ps) == 0 <==> forall|i: int|
            0 <= i < ps.len() ==> !(#[trigger] ps[i]).stat.alive(),
    decreases ps.len(),
{
    if ps.len() > 0 {
        let front = ps.drop_last();
        lemma_alive_count(front);
        assert forall|i: int| 0 <= i < front.len() implies front[i] == #[trigger] ps[i] by {}
        assert(ps[ps.len() - 1] == ps.last());
        if alive_count(ps) == 0 {
            assert forall|i: int| 0 <= i < ps.len() implies !(#[trigger] ps[i]).stat.alive() by {
                if i < front.len() {
                    assert(!front[i].stat.alive());
                }
            }
        }
        if forall|i: int| 0 <= i < ps.len() ==> !(#[trigger] ps[i]).stat.alive() {
            assert forall|i: int| 0 <= i < front.len() implies !(#[trigger] front[i]).stat.alive() by {
                assert(ps[i] == front[i]);
            }
        }
    }
}

pub fn alive_path_count(paths: &Vec<PathState>) -> (r: usize)
    ensures
        r == alive_count(paths@),
{
    let mut n: usize = 0;
    let mut i: usize = 0;
    while i < paths.len()
        invariant
            i <= paths@.len(),
            n == alive_count(paths@.take(i as int)),
            n <= i,
        decreases paths.len() - i,
    {
        proof {
            assert(paths@.take(i + 1).drop_last() =~= paths@.take(i as int));
        }
        if paths[i].stat.is_alive() {
            n += 1;
        }
        i += 1;
    }
    assert(paths@.take(paths@.len() as int) =~= paths@);
    n
}

pub fn has_alive_path(paths: &Vec<PathState>) -> (r: bool)
    ensures
        r == (exists|i: int| 0 <= i < paths@.len() && (#[trigger] paths@[i]).stat.alive()),
{
    let n: usize = alive_path_count(paths);
    proof {
        lemma_alive_count(paths@);
    }
    n > 0
}

// ---------------------------------------------------------------------------
// Retry clocks
// ---------------------------------------------------------------------------
/// Late against the paths one could still send to: the loss timeout of the
/// fastest alive path, else of this one, else the floor.
pub open spec fn late_after(ps: Seq<PathState>, path_id: u32, cfg: SessionConfig) -> int {
    match min_fast(ps) {
        Some(d) => cfg.tuning.loss_timeout_of(d as int),
        None => match stat_of(ps, path_id) {
            Some(p) => cfg.tuning.loss_timeout_of(p.rtt_us as int),
            None => cfg.tuning.loss_timeout_floor as int,
        },
    }
}

pub fn retry_after(paths: &Vec<PathState>, path_id: u32, cfg: &SessionConfig) -> (r: u64)
    requires
        cfg.wf(),
        distinct_ids(paths@),
    ensures
        r == late_after(paths@, path_id, *cfg),
{
    match min_alive_fast_rtt(paths) {
        Some(d) => cfg.tuning.loss_timeout(d),
        None => match get_path(paths, path_id) {
            Some(p) => cfg.tuning.loss_timeout(p.rtt_us),
            None => cfg.tuning.loss_timeout_floor,
        },
    }
}

/// Unknown, gone, or up for less than the first-sample window.
pub open spec fn young_or_unknown(p: Option<PathStat>, cfg: SessionConfig, now: u64) -> bool {
    match p {
        Some(p) => !p.rtt_known() || above(now as int, p.up_since as int)
            < cfg.tuning.unknown_degrade_min,
        None => true,
    }
}

/// How long one write may take before the path counts as stalled.
pub fn write_deadline(
    paths: &Vec<PathState>,
    path_id: u32,
    cfg: &SessionConfig,
    now: u64,
) -> (r: u64)
    requires
        cfg.wf(),
        distinct_ids(paths@),
    ensures
        r == if young_or_unknown(stat_of(paths@, path_id), *cfg, now) || min_fast(paths@) is None {
            cfg.tuning.unknown_degrade_min as int
        } else {
            late_after(paths@, path_id, *cfg)
        },
{
    let young: bool = match get_path(paths, path_id) {
        Some(p) => !p.is_rtt_known() || now.saturating_sub(p.up_since)
            < cfg.tuning.unknown_degrade_min,
        None => true,
    };
    if young || min_alive_fast_rtt(paths).is_none() {
        cfg.tuning.unknown_degrade_min
    } else {
        retry_after(paths, path_id, cfg)
    }
}

/// Bulk hedge clock: twice the path's loaded ACK loop, never below the pool
/// loss clock and never above the path's down timeout.
pub open spec fn late_after_bulk(
    ps: Seq<PathState>,
    path_id: u32,
    p: PathStat,
    cfg: SessionConfig,
) -> int {
    let lo = late_after(ps, path_id, cfg);
    match p.ack_rtt_us {
        Some(a) => within(capped(a * 2), lo, larger(p.stable_down(cfg), lo)),
        None => lo,
    }
}

pub fn retry_after_bulk(
    paths: &Vec<PathState>,
    path_id: u32,
    p: &PathStat,
    cfg: &SessionConfig,
) -> (r: u64)
    requires
        cfg.wf(),
        distinct_ids(paths@),
    ensures
        r == late_after_bulk(paths@, path_id, *p, *cfg),
{
    let lo: u64 = retry_after(paths, path_id, cfg);
    let hi: u64 = max_u64(p.stable_down_timeout(cfg), lo);
    match p.ack_rtt_us {
        Some(a) => clamp(mul_capped(a, 2), lo, hi),
        None => lo,
    }
}

/// RTT of the loop a stream's DATA rides: the last arrival path, then its
/// home, then the fastest of the pool.
pub open spec fn loop_rtt(ps: Seq<PathState>, last_recv_path: u32, sticky: u32) -> Option<u64> {
    if usable_rtt(ps, last_recv_path) is Some {
        usable_rtt(ps, last_recv_path)
    } else if usable_rtt(ps, sticky) is Some {
        usable_rtt(ps, sticky)
    } else {
        min_fast(ps)
    }
}

/// The RTT of this path where it is named, alive and measured.
pub open spec fn usable_rtt(ps: Seq<PathState>, id: u32) -> Option<u64> {
    if id == 0 {
        None
    } else {
        match stat_of(ps, id) {
            Some(p) => if p.measured() {
                Some(p.rtt_us)
            } else {
                None
            },
            None => None,
        }
    }
}

fn known_rtt(paths: &Vec<PathState>, id: u32) -> (r: Option<u64>)
    requires
        distinct_ids(paths@),
    ensures
        r == usable_rtt(paths@, id),
{
    if id == 0 {
        return None;
    }
    match get_path(paths, id) {
        Some(p) => if p.is_alive() && p.is_rtt_known() {
            Some(p.rtt_us)
        } else {
            None
        },
        None => None,
    }
}

pub fn loop_rtt_for(paths: &Vec<PathState>, last_recv_path: u32, sticky: u32) -> (r: Option<u64>)
    requires
        distinct_ids(paths@),
    ensures
        r == loop_rtt(paths@, last_recv_path, sticky),
{
    match known_rtt(paths, last_recv_path) {
        Some(d) => Some(d),
        None => match known_rtt(paths, sticky) {
            Some(d) => Some(d),
            None => min_alive_fast_rtt(paths),
        },
    }
}

pub fn bdp_rtt(paths: &Vec<PathState>, st: &StreamState) -> (r: Option<u64>)
    requires
        distinct_ids(paths@),
    ensures
        r == loop_rtt(paths@, st.recv.last_recv_path, st.life.sticky),
{
    loop_rtt_for(paths, st.recv.last_recv_path, st.life.sticky)
}

// ---------------------------------------------------------------------------
// Affinity
// ---------------------------------------------------------------------------
/// Reuse the last path for interactive DATA while it is schedulable, fresh
/// and still one of the class.
pub fn interactive_affinity(
    paths: &Vec<PathState>,
    sticky: u32,
    class: &Vec<u32>,
) -> (r: Option<u32>)
    requires
        distinct_ids(paths@),
    ensures
        r == (match stat_of(paths@, sticky) {
            Some(p) => if sticky != 0 && p.schedulable && p.loss_fresh && class@.contains(sticky) {
                Some(sticky)
            } else {
                None
            },
            None => None,
        }),
{
    if sticky == 0 {
        return None;
    }
    match get_path(paths, sticky) {
        Some(p) => {
            if !p.schedulable || !p.loss_fresh || !crate::tried::contains_id(class, sticky) {
                None
            } else {
                Some(sticky)
            }
        },
        None => None,
    }
}

/// A bulk stream may stay on this path: alive and fresh, and either flushing
/// behind a stalled writer or schedulable; a full urgent queue without a
/// stalled writer does not pin.
pub open spec fn keeps_bulk(p: PathStat) -> bool {
    &&& p.alive()
    &&& p.write_stalled || !p.congested
    &&& p.write_stalled || p.schedulable
    &&& p.loss_fresh
}

/// One bulk stream stays on one connection while that works.
pub fn bulk_affinity(paths: &Vec<PathState>, sticky: u32) -> (r: Option<u32>)
    requires
        distinct_ids(paths@),
    ensures
        r == (match stat_of(paths@, sticky) {
            Some(p) => if sticky != 0 && keeps_bulk(p) {
                Some(sticky)
            } else {
                None
            },
            None => None,
        }),
{
    if sticky == 0 {
        return None;
    }
    match get_path(paths, sticky) {
        Some(p) => {
            if !p.is_alive() {
                return None;
            }
            if p.congested && !p.write_stalled {
                return None;
            }
            if (p.write_stalled || p.schedulable) && p.loss_fresh {
                Some(sticky)
            } else {
                None
            }
        },
        None => None,
    }
}

// ---------------------------------------------------------------------------
// Laws
// ---------------------------------------------------------------------------
/// The retry clock always lies between the loss floor and ceiling.
pub proof fn law_retry_clock_is_bounded(ps: Seq<PathState>, path_id: u32, cfg: SessionConfig)
    requires
        cfg.tuning.loss_timeout_floor <= cfg.tuning.loss_timeout_ceil,
    ensures
        cfg.tuning.loss_timeout_floor <= late_after(ps, path_id, cfg)
            <= cfg.tuning.loss_timeout_ceil,
{
}

/// A slow path cannot hold a retry back while a faster path is alive: the
/// clock depends on the fastest measured path alone.
pub proof fn law_retry_clock_ignores_the_slow(
    ps: Seq<PathState>,
    a: u32,
    b: u32,
    cfg: SessionConfig,
)
    requires
        min_fast(ps) is Some,
    ensures
        late_after(ps, a, cfg) == late_after(ps, b, cfg),
{
}

/// The bulk clock is never earlier than the interactive one.
pub proof fn law_bulk_waits_no_less(ps: Seq<PathState>, id: u32, p: PathStat, cfg: SessionConfig)
    ensures
        late_after_bulk(ps, id, p, cfg) >= late_after(ps, id, cfg),
{
}

/// The belt never shrinks with another path tried, and never exceeds the
/// down ceiling.
pub proof fn law_belt_grows(p: PathStat, cfg: SessionConfig, a: int, b: int)
    requires
        a <= b,
        p.stable_down(cfg) >= 0,
    ensures
        p.belt(cfg, a) <= p.belt(cfg, b) <= cfg.tuning.down_timeout_ceil,
{
    assert(p.stable_down(cfg) * doubling(a) <= p.stable_down(cfg) * doubling(b))
        by (nonlinear_arith)
        requires
            p.stable_down(cfg) >= 0,
            doubling(a) <= doubling(b),
    ;
}

/// The bulk clock is twice the loaded ACK loop wherever that lies between the
/// pool's loss clock and the path's down timeout; below it stays at the loss
/// clock, above at the down timeout. Without a loop it is the loss clock.
pub proof fn law_bulk_waits_two_loops(
    ps: Seq<PathState>,
    id: u32,
    p: PathStat,
    cfg: SessionConfig,
)
    requires
        p.ack_rtt_us is Some ==> p.ack_rtt_us->0 <= 0x7fff_ffff_ffff_ffff,
    ensures
        ({
            let clock = late_after_bulk(ps, id, p, cfg);
            let loss = late_after(ps, id, cfg);
            let down = p.stable_down(cfg);
            match p.ack_rtt_us {
                None => clock == loss,
                Some(a) => {
                    &&& loss <= 2 * a <= down ==> clock == 2 * a
                    &&& 2 * a <= loss ==> clock == loss
                    &&& loss <= down <= 2 * a ==> clock == down
                    &&& down <= loss ==> clock == loss
                },
            }
        }),
{
}

/// On the production table: the pool's loss clock is two round trips of the
/// fastest measured path, and a path's own down timeout goes by its stable RTT
/// and its probe.
pub proof fn law_clocks_of_a_pool(
    ps: Seq<PathState>,
    i: int,
    id: u32,
    cfg: SessionConfig,
)
    requires
        cfg.tuning == crate::tuning::standard_table(),
        0 <= i < ps.len(),
        ps[i].stat.rtt_us != 0,
        ps[i].stat.state != Health::Down,
        forall|k: int|
            0 <= k < ps.len() && (#[trigger] ps[k]).stat.state != Health::Down
                && ps[k].stat.rtt_us != 0 ==> ps[i].stat.rtt_us <= ps[k].stat.rtt_us,
        10_000 <= ps[i].stat.rtt_us <= 1_000_000,
    ensures
        late_after(ps, id, cfg) == 2 * ps[i].stat.rtt_us,
        ({
            let p = ps[i].stat;
            64_000 <= p.stable_rtt_us <= 900_000 && p.probe <= 100_000 ==> p.stable_down(cfg) == 5
                * p.stable_rtt_us + p.probe
        }),
{
    lemma_min_fast_is_least(ps);
    assert(min_fast(ps) is Some && min_fast(ps)->0 == ps[i].stat.rtt_us) by {
        assert(ps[i].stat.measured());
        let j = choose|j: int|
            0 <= j < ps.len() && (#[trigger] ps[j]).stat.measured() && min_fast(ps) == Some(
                ps[j].stat.rtt_us,
            );
        assert(ps[j].stat.measured());
    }
    crate::tuning::law_loss_takes_two_round_trips(ps[i].stat.rtt_us);
    let p = ps[i].stat;
    if 64_000 <= p.stable_rtt_us <= 900_000 && p.probe <= 100_000 {
        crate::tuning::law_down_takes_five_round_trips(p.stable_rtt_us, p.probe);
    }
}

/// The fastest measured path is measured, and none is faster.
pub proof fn lemma_min_fast_is_least(ps: Seq<PathState>)
    ensures
        forall|k: int|
            0 <= k < ps.len() && (#[trigger] ps[k]).stat.measured() ==> min_fast(ps) is Some
                && min_fast(ps)->0 <= ps[k].stat.rtt_us,
        min_fast(ps) is Some ==> exists|k: int|
            0 <= k < ps.len() && (#[trigger] ps[k]).stat.measured() && min_fast(ps) == Some(
                ps[k].stat.rtt_us,
            ),
    decreases ps.len(),
{
    if ps.len() > 0 {
        let before = ps.drop_last();
        lemma_min_fast_is_least(before);
        assert forall|k: int|
            0 <= k < ps.len() && (#[trigger] ps[k]).stat.measured() implies min_fast(ps) is Some
            && min_fast(ps)->0 <= ps[k].stat.rtt_us by {
            if k < before.len() {
                assert(before[k] == ps[k]);
            }
        }
        if min_fast(ps) is Some {
            if ps.last().stat.measured() && min_fast(ps) == Some(ps.last().stat.rtt_us) {
                assert(ps[ps.len() - 1].stat.measured());
            } else {
                let k = choose|k: int|
                    0 <= k < before.len() && (#[trigger] before[k]).stat.measured() && min_fast(
                        before,
                    ) == Some(before[k].stat.rtt_us);
                assert(ps[k] == before[k]);
            }
        }
    }
}

/// Without a measured path alive the loss clock goes by the piece's own path;
/// without that path by the floor.
pub proof fn law_loss_clock_without_a_measured_path(
    ps: Seq<PathState>,
    id: u32,
    cfg: SessionConfig,
)
    requires
        forall|k: int|
            0 <= k < ps.len() ==> (#[trigger] ps[k]).stat.state == Health::Down
                || ps[k].stat.rtt_us == 0,
        cfg.tuning.loss_timeout_floor <= cfg.tuning.loss_timeout_ceil,
    ensures
        (forall|k: int| 0 <= k < ps.len() ==> (#[trigger] ps[k]).id != id) ==> late_after(
            ps,
            id,
            cfg,
        ) == cfg.tuning.loss_timeout_floor,
        forall|k: int|
            distinct_ids(ps) && 0 <= k < ps.len() && (#[trigger] ps[k]).id == id ==> late_after(
                ps,
                id,
                cfg,
            ) == cfg.tuning.loss_timeout_of(ps[k].stat.rtt_us as int),
{
    lemma_min_fast_is_least(ps);
}

/// The belt doubles with each path tried, up to sixteen times the down
/// timeout, and ends at the down ceiling.
pub proof fn law_belt_doubles(p: PathStat, cfg: SessionConfig, tries: int)
    requires
        1 <= tries,
        0 <= p.stable_down(cfg) <= 0xffff_ffff_ffff,
    ensures
        ({
            let (one, two) = (p.belt(cfg, tries), p.belt(cfg, tries + 1));
            let ceil = cfg.tuning.down_timeout_ceil;
            &&& tries <= 4 ==> two == if 2 * one <= ceil {
                2 * one
            } else {
                ceil as int
            } || one == ceil && two == ceil
            &&& tries >= 5 ==> two == one
            &&& tries == 1 && p.stable_down(cfg) <= ceil ==> one == p.stable_down(cfg)
        }),
{
}

/// A path is alive unless it is down, measured once it has an RTT, and its
/// silence is the time since it was heard.
pub proof fn law_what_a_path_is(p: PathStat, now: u64)
    ensures
        p.alive() <==> p.state == Health::Up || p.state == Health::Degraded,
        p.measured() <==> p.state != Health::Down && p.rtt_us > 0,
        now >= p.last_rx ==> p.last_rx + p.quiet_for(now) == now,
        now < p.last_rx ==> p.quiet_for(now) == 0,
{
}

/// The RTT of the loop that a stream rides is that of the path its data last
/// came in on; of its home where that is gone or not measured; and of the
/// fastest path where neither will do.
pub proof fn law_loop_is_the_last_path(ps: Seq<PathState>, last: u32, home: u32, i: int)
    requires
        distinct_ids(ps),
        0 <= i < ps.len(),
        ps[i].id != 0,
        ps[i].stat.state != Health::Down,
        ps[i].stat.rtt_us > 0,
    ensures
        ps[i].id == last ==> loop_rtt(ps, last, home) == Some(ps[i].stat.rtt_us),
        ps[i].id == home && (forall|k: int|
            0 <= k < ps.len() && (#[trigger] ps[k]).id == last ==> ps[k].stat.state
                == Health::Down || ps[k].stat.rtt_us == 0) ==> loop_rtt(ps, last, home) == Some(
            ps[i].stat.rtt_us,
        ),
{
}

} // verus!
