//! The health tick: who is quiet, who is torn down, who is recycled.

use vstd::prelude::*;

use crate::cfg::SessionConfig;
use crate::failover::PathFailed;
use crate::frames::ResetReason;
use crate::maps::lists_ids;
use crate::metrics::{plus, Counters};
use crate::num::above;
use crate::outbound::any_alive;
use crate::path::{get_path, has_alive_path, stat_of, Health, PathStat, PathState};
use crate::pool::{put_stat, with_stat};
use crate::quiet::{
    correlated_hold, holds_correlated, links_at, list_members, members, places, unique_link_count,
    Silence,
};
use crate::sched::Scheduler;
use crate::session::{Finished, Marks, Session};

verus! {

broadcast use vstd::laws_cmp::group_laws_cmp;

// ---------------------------------------------------------------------------
// Probes
// ---------------------------------------------------------------------------
/// Probes that expired on alive paths, as a counter sees them.
pub open spec fn misses_counted(c: u64, ps: Seq<PathState>) -> u64
    decreases ps.len(),
{
    if ps.len() == 0 {
        c
    } else {
        let before = misses_counted(c, ps.drop_last());
        if ps.last().stat.alive() {
            plus(before, ps.last().stat.probe_miss as int)
        } else {
            before
        }
    }
}

fn count_misses(c: u64, paths: &Vec<PathState>) -> (r: u64)
    ensures
        r == misses_counted(c, paths@),
{
    let mut r: u64 = c;
    let mut i: usize = 0;
    assert(paths@.take(0) =~= seq![]);
    while i < paths.len()
        invariant
            i <= paths@.len(),
            r == misses_counted(c, paths@.take(i as int)),
        decreases paths.len() - i,
    {
        assert(paths@.take(i as int + 1).drop_last() =~= paths@.take(i as int));
        if paths[i].stat.is_alive() {
            r = r.saturating_add(paths[i].stat.probe_miss);
        }
        i += 1;
    }
    assert(paths@.take(paths@.len() as int) =~= paths@);
    r
}

impl PathStat {
    /// How long a probe may stay unanswered.
    pub fn probe_timeout(&self, cfg: &SessionConfig) -> (r: u64)
        requires
            cfg.wf(),
        ensures
            r == cfg.tuning.loss_timeout_of(self.stable_rtt_us as int),
    {
        cfg.tuning.loss_timeout(self.stable_rtt_us)
    }
}

// ---------------------------------------------------------------------------
// Verdicts
// ---------------------------------------------------------------------------
/// What a tick does to one path.
#[derive(Clone, Copy, Debug, PartialEq, Eq, Structural)]
pub enum Verdict {
    Keep,
    Degrade,
    Tear,
}

/// Silence past the degrade timeout degrades a path only with a sign of loss:
/// an expired probe, or no probe under way that could still be answered.
pub open spec fn marks_degraded(ago: int, degrade: int, miss: u64, pending: u64) -> bool {
    ago >= degrade && (miss > 0 || pending == 0)
}

/// A silent path is torn down; one whose RTT is known is held while the
/// silence is correlated and its budget lasts. An up path that is quiet is
/// degraded.
pub open spec fn verdict_of(
    s: PathStat,
    correlated: bool,
    budget_elapsed: bool,
    cfg: SessionConfig,
    now: u64,
) -> Verdict {
    if !s.alive() {
        Verdict::Keep
    } else if s.quiet_for(now) >= s.down_after(cfg) && (!s.rtt_known() || !correlated
        || budget_elapsed) {
        Verdict::Tear
    } else if s.state is Up && marks_degraded(
        s.quiet_for(now),
        s.degrade_for as int,
        s.probe_miss,
        s.pending_pings,
    ) {
        Verdict::Degrade
    } else {
        Verdict::Keep
    }
}

fn judge_path(
    s: &PathStat,
    correlated: bool,
    budget_elapsed: bool,
    cfg: &SessionConfig,
    now: u64,
) -> (v: Verdict)
    requires
        cfg.wf(),
    ensures
        v == verdict_of(*s, correlated, budget_elapsed, *cfg, now),
{
    if !s.is_alive() {
        return Verdict::Keep;
    }
    let ago: u64 = s.last_rx_ago(now);
    if ago >= s.down_for(cfg) && (!s.is_rtt_known() || !correlated || budget_elapsed) {
        return Verdict::Tear;
    }
    if s.is_up() && ago >= s.degrade_for && (s.probe_miss > 0 || s.pending_pings == 0) {
        Verdict::Degrade
    } else {
        Verdict::Keep
    }
}

/// One path's id and what happens to it.
#[derive(Clone, Copy, Debug, PartialEq, Eq, Structural)]
pub struct Judged {
    pub id: u32,
    pub verdict: Verdict,
}

/// What a tick saw and decided.
pub struct Judgement {
    /// Places in the pool.
    pub alive: Vec<usize>,
    pub quiet: Vec<usize>,
    pub silent: Vec<usize>,
    pub known_quiet: usize,
    pub quiet_links: usize,
    /// The silence is held.
    pub correlated: bool,
    /// The hold has used up the all-down timeout.
    pub budget_elapsed: bool,
    /// Every path of the pool, in order.
    pub verdicts: Vec<Judged>,
}

/// Since when silence is held.
pub open spec fn held_since(before: Option<u64>, correlated: bool, now: u64) -> Option<u64> {
    if !correlated {
        None
    } else if before is None {
        Some(now)
    } else {
        before
    }
}

impl Session {
    /// What a tick sees and decides.
    pub open spec fn judges(self, n: Self, j: Judgement, now: u64) -> bool {
        let ps = self.paths@;
        let since = held_since(self.marks.correlated_since, j.correlated, now);
        &&& places(j.alive@) == members(ps, Silence::Alive, self.cfg, now)
        &&& places(j.quiet@) == members(ps, Silence::Quiet, self.cfg, now)
        &&& places(j.silent@) == members(ps, Silence::Silent, self.cfg, now)
        &&& j.known_quiet == members(ps, Silence::KnownQuiet, self.cfg, now).len()
        &&& j.quiet_links == links_at(ps, places(j.quiet@)).len()
        &&& j.correlated == holds_correlated(
            j.alive@.len() as int,
            j.quiet@.len() as int,
            j.silent@.len() as int,
            j.known_quiet as int,
            j.quiet_links as int,
        )
        &&& j.budget_elapsed == (since is Some && above(now as int, since->0 as int)
            >= self.cfg.all_down_timeout)
        &&& j.verdicts@.len() == ps.len()
        &&& forall|i: int|
            0 <= i < ps.len() ==> (#[trigger] j.verdicts@[i]) == (Judged {
                id: ps[i].id,
                verdict: verdict_of(
                    ps[i].stat,
                    j.correlated,
                    j.budget_elapsed,
                    self.cfg,
                    now,
                ),
            })
        &&& n == (Session {
            marks: Marks { correlated_since: since, ..self.marks },
            metrics: Counters {
                probe_miss: misses_counted(self.metrics.probe_miss, ps),
                correlated_silence: plus(
                    self.metrics.correlated_silence,
                    if j.correlated && self.marks.correlated_since is None {
                        1
                    } else {
                        0
                    },
                ),
                ..self.metrics
            },
            ..self
        })
    }

    /// Look at every path: count its expired probes, see who is quiet, and
    /// decide what happens to it. A path counts as quiet from the degrade
    /// timeout on, so that paths that cross the down timeout one after the
    /// other still form one hold; a hold begins only once one of them has.
    pub fn judge(&mut self, now: u64) -> (j: Judgement)
        requires
            old(self).wf(),
        ensures
            final(self).wf(),
            old(self).judges(*final(self), j, now),
            forall|k: int|
                0 <= k < j.alive@.len() ==> (#[trigger] j.alive@[k]) < old(self).paths@.len(),
            forall|k: int|
                0 <= k < j.quiet@.len() ==> (#[trigger] j.quiet@[k]) < old(self).paths@.len(),
    {
        let ghost o = *self;
        self.metrics.probe_miss = count_misses(self.metrics.probe_miss, &self.paths);
        let alive: Vec<usize> = list_members(&self.paths, Silence::Alive, &self.cfg, now);
        let quiet: Vec<usize> = list_members(&self.paths, Silence::Quiet, &self.cfg, now);
        let silent: Vec<usize> = list_members(&self.paths, Silence::Silent, &self.cfg, now);
        let known: Vec<usize> = list_members(&self.paths, Silence::KnownQuiet, &self.cfg, now);
        let known_quiet: usize = known.len();
        let quiet_links: usize = unique_link_count(&self.paths, &quiet);
        let correlated: bool = correlated_hold(
            alive.len(),
            quiet.len(),
            silent.len(),
            known_quiet,
            quiet_links,
        );
        if correlated {
            if self.marks.correlated_since.is_none() {
                self.marks.correlated_since = Some(now);
                self.metrics.correlated_silence = self.metrics.correlated_silence.saturating_add(1);
            }
        } else {
            self.marks.correlated_since = None;
        }
        let budget_elapsed: bool = match self.marks.correlated_since {
            Some(t) => now.saturating_sub(t) >= self.cfg.all_down_timeout,
            None => false,
        };
        let verdicts: Vec<Judged> = self.judge_all(correlated, budget_elapsed, now);
        proof {
            assert(places(known@).len() == known@.len());
        }
        Judgement {
            alive,
            quiet,
            silent,
            known_quiet,
            quiet_links,
            correlated,
            budget_elapsed,
            verdicts,
        }
    }

    fn judge_all(&self, correlated: bool, budget_elapsed: bool, now: u64) -> (out: Vec<Judged>)
        requires
            self.wf(),
        ensures
            out@.len() == self.paths@.len(),
            forall|i: int|
                0 <= i < self.paths@.len() ==> (#[trigger] out@[i]) == (Judged {
                    id: self.paths@[i].id,
                    verdict: verdict_of(
                        self.paths@[i].stat,
                        correlated,
                        budget_elapsed,
                        self.cfg,
                        now,
                    ),
                }),
    {
        let mut out: Vec<Judged> = Vec::new();
        let mut i: usize = 0;
        while i < self.paths.len()
            invariant
                i <= self.paths@.len(),
                self.wf(),
                out@.len() == i,
                forall|k: int|
                    0 <= k < i ==> (#[trigger] out@[k]) == (Judged {
                        id: self.paths@[k].id,
                        verdict: verdict_of(
                            self.paths@[k].stat,
                            correlated,
                            budget_elapsed,
                            self.cfg,
                            now,
                        ),
                    }),
            decreases self.paths.len() - i,
        {
            let verdict: Verdict = judge_path(
                &self.paths[i].stat,
                correlated,
                budget_elapsed,
                &self.cfg,
                now,
            );
            out.push(Judged { id: self.paths[i].id, verdict });
            i += 1;
        }
        out
    }

    // -----------------------------------------------------------------------
    // Carrying verdicts out
    // -----------------------------------------------------------------------
    /// `n` is this session with path `id` degraded.
    pub open spec fn degrades(self, n: Self, id: u32) -> bool {
        &&& n == (Session {
            paths: n.paths,
            metrics: Counters {
                path_degraded: plus(self.metrics.path_degraded, 1),
                ..self.metrics
            },
            ..self
        })
        &&& n.paths@ == match stat_of(self.paths@, id) {
            Some(p) => with_stat(self.paths@, id, PathStat { state: Health::Degraded, ..p }),
            None => self.paths@,
        }
    }

    pub fn mark_degraded(&mut self, id: u32)
        requires
            old(self).wf(),
        ensures
            final(self).wf(),
            old(self).degrades(*final(self), id),
    {
        self.metrics.path_degraded = self.metrics.path_degraded.saturating_add(1);
        match get_path(&self.paths, id) {
            Some(stat) => {
                let mut p: PathStat = stat;
                p.state = Health::Degraded;
                put_stat(&mut self.paths, id, p);
            },
            None => {},
        }
    }

    /// `n` is this session once one verdict was carried out.
    pub open spec fn obeys<S: Scheduler>(
        self,
        sched: &S,
        n: Self,
        v: Judged,
        out: Option<PathFailed>,
        now: u64,
    ) -> bool {
        match v.verdict {
            Verdict::Keep => out is None && n == self,
            Verdict::Degrade => out is None && self.degrades(n, v.id),
            Verdict::Tear => out is Some && self.fails(sched, n, v.id, out->0, now),
        }
    }

    /// `n` is this session once the verdicts were carried out in order.
    pub open spec fn obeys_all<S: Scheduler>(
        self,
        sched: &S,
        n: Self,
        vs: Seq<Judged>,
        outs: Seq<Option<PathFailed>>,
        now: u64,
    ) -> bool
        decreases vs.len(),
    {
        if vs.len() == 0 {
            n == self && outs.len() == 0
        } else {
            &&& outs.len() == vs.len()
            &&& exists|mid: Self|
                self.obeys_all(sched, mid, vs.drop_last(), outs.drop_last(), now) && #[trigger] mid.obeys(
                    sched,
                    n,
                    vs.last(),
                    outs.last(),
                    now,
                )
        }
    }

    /// Carry the verdicts out.
    pub fn carry_out<S: Scheduler>(&mut self, vs: &Vec<Judged>, sched: &S, now: u64) -> (outs: Vec<
        Option<PathFailed>,
    >)
        requires
            old(self).wf(),
        ensures
            final(self).wf(),
            old(self).obeys_all(sched, *final(self), vs@, outs@, now),
    {
        let ghost o = *self;
        let mut outs: Vec<Option<PathFailed>> = Vec::new();
        let mut i: usize = 0;
        assert(vs@.take(0) =~= seq![]);
        while i < vs.len()
            invariant
                i <= vs@.len(),
                self.wf(),
                outs@.len() == i,
                o.obeys_all(sched, *self, vs@.take(i as int), outs@, now),
            decreases vs.len() - i,
        {
            let ghost before = *self;
            let ghost outs0 = outs@;
            let v: Judged = vs[i];
            match v.verdict {
                Verdict::Keep => {
                    outs.push(None);
                },
                Verdict::Degrade => {
                    self.mark_degraded(v.id);
                    outs.push(None);
                },
                Verdict::Tear => {
                    let out: PathFailed = self.path_failed(v.id, sched, now);
                    outs.push(Some(out));
                },
            }
            proof {
                assert(vs@.take(i as int + 1).drop_last() =~= vs@.take(i as int));
                assert(outs@.drop_last() =~= outs0);
                assert(before.obeys(sched, *self, vs@.take(i as int + 1).last(), outs@.last(), now));
                assert(o.obeys_all(sched, *self, vs@.take(i as int + 1), outs@, now));
            }
            i += 1;
        }
        assert(vs@.take(vs@.len() as int) =~= vs@);
        outs
    }

    /// What the end of a hold does: with its budget used up and no path left,
    /// every stream times out.
    pub open spec fn ends_hold<S: Scheduler>(
        self,
        sched: &S,
        n: Self,
        budget_elapsed: bool,
        out: Option<(Vec<u32>, Vec<Finished>)>,
        now: u64,
    ) -> bool {
        let due = budget_elapsed && !any_alive(self.paths@) && exists|id: u32| #[trigger]
            self.streams@.contains_key(id);
        &&& out is Some <==> due
        &&& match out {
            Some(r) => self.resets_all(sched, n, r.0@, r.1@, now),
            None => n == self,
        }
    }

    /// `n` is this session once every stream timed out, counted as one
    /// all-down.
    pub open spec fn resets_all<S: Scheduler>(
        self,
        sched: &S,
        n: Self,
        ids: Seq<u32>,
        ended: Seq<Finished>,
        now: u64,
    ) -> bool {
        let counted = Session {
            metrics: Counters {
                session_all_down_resets: plus(self.metrics.session_all_down_resets, 1),
                ..self.metrics
            },
            ..self
        };
        &&& lists_ids(ids, self.streams@)
        &&& counted.finishes_all(sched, n, ids, ResetReason::Timeout, true, ended, now)
    }

    pub(crate) fn reset_all<S: Scheduler>(&mut self, sched: &S, now: u64) -> (r: (
        Vec<u32>,
        Vec<Finished>,
    ))
        requires
            old(self).wf(),
        ensures
            final(self).wf(),
            old(self).resets_all(sched, *final(self), r.0@, r.1@, now),
    {
        self.metrics.session_all_down_resets = self.metrics.session_all_down_resets.saturating_add(
            1,
        );
        self.finish_all(ResetReason::Timeout, true, sched, now)
    }

    pub fn end_hold<S: Scheduler>(&mut self, budget_elapsed: bool, sched: &S, now: u64) -> (out:
        Option<(Vec<u32>, Vec<Finished>)>)
        requires
            old(self).wf(),
        ensures
            final(self).wf(),
            old(self).ends_hold(sched, *final(self), budget_elapsed, out, now),
    {
        if budget_elapsed && !has_alive_path(&self.paths) && self.has_streams() {
            Some(self.reset_all(sched, now))
        } else {
            None
        }
    }

    pub fn has_streams(&self) -> (r: bool)
        ensures
            r == exists|id: u32| #[trigger] self.streams@.contains_key(id),
    {
        let ids: Vec<u32> = crate::maps::ids_of(&self.streams);
        proof {
            if ids@.len() > 0 {
                assert(ids@.contains(ids@[0]));
                assert(self.streams@.contains_key(ids@[0]));
            } else {
                assert forall|id: u32| !#[trigger] self.streams@.contains_key(id) by {
                    assert(!ids@.contains(id));
                }
            }
        }
        ids.len() > 0
    }
}

// ---------------------------------------------------------------------------
// Laws
// ---------------------------------------------------------------------------
/// A path of known RTT is never torn down while its silence is held within
/// the budget; one that was never measured is.
pub proof fn law_held_paths_stay(s: PathStat, cfg: SessionConfig, now: u64)
    requires
        s.alive(),
        s.quiet_for(now) >= s.down_after(cfg),
    ensures
        s.rtt_known() ==> !(verdict_of(s, true, false, cfg, now) is Tear),
        !s.rtt_known() ==> verdict_of(s, true, false, cfg, now) is Tear,
        verdict_of(s, false, false, cfg, now) is Tear,
        verdict_of(s, true, true, cfg, now) is Tear,
{
}

/// A path that was just heard keeps its health.
pub proof fn law_heard_paths_stay(
    s: PathStat,
    correlated: bool,
    budget_elapsed: bool,
    cfg: SessionConfig,
    now: u64,
)
    requires
        s.quiet_for(now) < s.degrade_for,
        s.quiet_for(now) < s.down_after(cfg),
    ensures
        verdict_of(s, correlated, budget_elapsed, cfg, now) is Keep,
{
}

/// Silence with every probe answerable in time degrades nothing.
pub proof fn law_no_loss_no_degrade(
    s: PathStat,
    correlated: bool,
    budget_elapsed: bool,
    cfg: SessionConfig,
    now: u64,
)
    requires
        s.probe_miss == 0,
        s.pending_pings > 0,
    ensures
        !(verdict_of(s, correlated, budget_elapsed, cfg, now) is Degrade),
{
}

/// A living path is torn down exactly where nothing was heard of it for its
/// down timeout, unless it is measured and the hold of a correlated silence is
/// on and has not run out. One that is up and stays is degraded exactly where
/// nothing was heard for its degrade timeout, and a probe was missed or none is
/// out. Nothing else happens to it.
pub proof fn law_what_silence_does_to_a_path(
    s: PathStat,
    correlated: bool,
    budget_elapsed: bool,
    cfg: SessionConfig,
    now: u64,
)
    requires
        now >= s.last_rx,
    ensures
        ({
            let silence = now - s.last_rx;
            let down = cfg.tuning.down_timeout_of(s.assumed_rtt as int, s.assumed_probe as int);
            let spared = s.rtt_us > 0 && correlated && !budget_elapsed;
            let torn = s.state != Health::Down && silence >= down && !spared;
            let v = verdict_of(s, correlated, budget_elapsed, cfg, now);
            &&& v is Tear <==> torn
            &&& v is Degrade <==> !torn && s.state == Health::Up && silence >= s.degrade_for && (
            s.probe_miss > 0 || s.pending_pings == 0)
        }),
{
}

/// A correlated silence is timed from when it began, counted once, and given up
/// after the all-down timeout; its clock stops with it.
pub proof fn law_a_hold_is_timed_from_its_start(o: Session, n: Session, j: Judgement, now: u64)
    requires
        o.judges(n, j, now),
        o.metrics.correlated_silence < u64::MAX,
        o.marks.correlated_since is Some ==> o.marks.correlated_since->0 <= now,
    ensures
        !j.correlated ==> n.marks.correlated_since is None && !j.budget_elapsed,
        j.correlated && o.marks.correlated_since is Some ==> n.marks.correlated_since
            == o.marks.correlated_since && n.metrics.correlated_silence
            == o.metrics.correlated_silence && (j.budget_elapsed <==> now
            - o.marks.correlated_since->0 >= o.cfg.all_down_timeout),
        j.correlated && o.marks.correlated_since is None ==> n.marks.correlated_since == Some(now)
            && n.metrics.correlated_silence == o.metrics.correlated_silence + 1,
        n.paths@ == o.paths@ && n.streams@ == o.streams@,
{
}

/// The tick judges every path by itself: the verdict on the i-th path is that
/// on the i-th path.
pub proof fn law_each_path_is_judged(o: Session, n: Session, j: Judgement, i: int, now: u64)
    requires
        o.judges(n, j, now),
        0 <= i < o.paths@.len(),
        now >= o.paths@[i].stat.last_rx,
    ensures
        ({
            let s = o.paths@[i].stat;
            let silence = now - s.last_rx;
            let down = o.cfg.tuning.down_timeout_of(s.assumed_rtt as int, s.assumed_probe as int);
            &&& j.verdicts@.len() == o.paths@.len()
            &&& j.verdicts@[i].id == o.paths@[i].id
            &&& s.state != Health::Down && silence >= down && !j.correlated
                ==> j.verdicts@[i].verdict is Tear
            &&& silence < down ==> !(j.verdicts@[i].verdict is Tear)
            &&& places(j.quiet@).contains(i) <==> s.state != Health::Down && silence
                >= s.degrade_for
            &&& places(j.silent@).contains(i) <==> s.state != Health::Down && silence >= down
            &&& places(j.alive@).contains(i) <==> s.state != Health::Down
        }),
{
    crate::quiet::lemma_members_are_all(o.paths@, Silence::Quiet, o.cfg, now, i);
    crate::quiet::lemma_members_are_all(o.paths@, Silence::Silent, o.cfg, now, i);
    crate::quiet::lemma_members_are_all(o.paths@, Silence::Alive, o.cfg, now, i);
}

/// Degrading a path changes its state and nothing else of the pool.
pub proof fn law_degrading_is_all_that_changes(o: Session, n: Session, id: u32, i: int)
    requires
        o.wf(),
        o.degrades(n, id),
        0 <= i < o.paths@.len(),
        o.metrics.path_degraded < u64::MAX,
    ensures
        n.paths@.len() == o.paths@.len(),
        o.paths@[i].id != id ==> n.paths@[i] == o.paths@[i],
        o.paths@[i].id == id ==> n.paths@[i].stat == (PathStat {
            state: Health::Degraded,
            ..o.paths@[i].stat
        }) && n.paths@[i].id == id,
        n.metrics.path_degraded == o.metrics.path_degraded + 1,
        n.streams@ == o.streams@,
{
    if o.paths@[i].id == id {
        assert(crate::path::index_of(o.paths@, id) == Some(i));
    }
}

} // verus!
