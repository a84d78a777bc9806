//! The maintenance tick of a session.

use vstd::prelude::*;

use crate::closing::Death;
use crate::failover::PathFailed;
use crate::health::Judgement;
use crate::maps::lists_ids;
use crate::metrics::{plus, Counters};
use crate::num::above;
use crate::outbound::any_alive;
use crate::outlier::Recycled;
use crate::path::has_alive_path;
use crate::quiet::{track_quiet_set, tracks, QuietChange, QuietEpisode};
use crate::replies::RecvClosed;
use crate::sched::Scheduler;
use crate::session::{Finished, Marks, Session};
use crate::sweep::Swept;
use crate::upkeep::{Repeated, Steered};

verus! {

broadcast use vstd::laws_cmp::group_laws_cmp;

// ---------------------------------------------------------------------------
// No path left
// ---------------------------------------------------------------------------
/// What a session without a path comes to.
pub enum AllDown {
    /// Some path is alive.
    No,
    /// The all-down timeout runs, or nothing is left to reset.
    Waiting,
    /// A session nobody can rejoin ended.
    Died(Option<Death>),
    /// Every stream timed out.
    Reset { ids: Vec<u32>, ended: Vec<Finished> },
}

impl Session {
    /// This session with the all-down clock as it stands after a look.
    pub open spec fn clocked_down(self, now: u64) -> Self {
        Session {
            marks: Marks {
                all_down_since: if any_alive(self.paths@) {
                    None
                } else if self.marks.all_down_since is None {
                    Some(now)
                } else {
                    self.marks.all_down_since
                },
                ..self.marks
            },
            ..self
        }
    }

    /// The all-down timeout has run out.
    pub open spec fn down_too_long(self, now: u64) -> bool {
        let since = self.clocked_down(now).marks.all_down_since;
        since is Some && above(now as int, since->0 as int) >= self.cfg.all_down_timeout
    }

    /// This session with one all-down counted.
    pub open spec fn all_down_counted(self) -> Self {
        Session {
            metrics: Counters {
                session_all_down_resets: plus(self.metrics.session_all_down_resets, 1),
                ..self.metrics
            },
            ..self
        }
    }

    /// What the lack of paths does to this session.
    pub open spec fn goes_all_down<S: Scheduler>(
        self,
        sched: &S,
        n: Self,
        out: AllDown,
        now: u64,
    ) -> bool {
        let m = self.clocked_down(now);
        let here = exists|id: u32| #[trigger] self.streams@.contains_key(id);
        match out {
            AllDown::No => any_alive(self.paths@) && n == m,
            AllDown::Waiting => {
                &&& !any_alive(self.paths@)
                &&& !self.down_too_long(now) || (!self.marks.reap_on_all_down && !here)
                &&& n == m
            },
            AllDown::Died(d) => {
                &&& self.down_too_long(now) && self.marks.reap_on_all_down
                &&& match d {
                    Some(death) => !self.marks.dead && m.all_down_counted().dies(sched, n, true, death, now),
                    None => self.marks.dead && n == m.all_down_counted(),
                }
            },
            AllDown::Reset { ids, ended } => {
                &&& self.down_too_long(now) && !self.marks.reap_on_all_down && here
                &&& m.resets_all(sched, n, ids@, ended@, now)
            },
        }
    }

    /// Without a path for the all-down timeout, a session that nobody can
    /// rejoin ends, and any other times its streams out.
    pub fn check_all_down<S: Scheduler>(&mut self, sched: &S, now: u64) -> (out: AllDown)
        requires
            old(self).wf(),
        ensures
            final(self).wf(),
            old(self).goes_all_down(sched, *final(self), out, now),
    {
        if has_alive_path(&self.paths) {
            self.marks.all_down_since = None;
            return AllDown::No;
        }
        let since: u64 = match self.marks.all_down_since {
            Some(t) => t,
            None => now,
        };
        self.marks.all_down_since = Some(since);
        if now.saturating_sub(since) < self.cfg.all_down_timeout {
            return AllDown::Waiting;
        }
        if self.marks.reap_on_all_down {
            self.metrics.session_all_down_resets =
            self.metrics.session_all_down_resets.saturating_add(1);
            return AllDown::Died(self.shutdown(sched, now));
        }
        if !self.has_streams() {
            return AllDown::Waiting;
        }
        let (ids, ended) = self.reset_all(sched, now);
        AllDown::Reset { ids, ended }
    }
}

// ---------------------------------------------------------------------------
// Paths
// ---------------------------------------------------------------------------
/// What a tick did to the paths.
pub struct PathTick {
    pub judgement: Judgement,
    pub quiet: QuietChange,
    pub failed: Vec<Option<PathFailed>>,
    /// Streams that timed out with a hold.
    pub hold_reset: Option<(Vec<u32>, Vec<Finished>)>,
    /// Outliers, on the side that dials.
    pub recycled: Option<Recycled>,
}

impl Session {
    /// What the path half of a tick does to this session and to the episode of
    /// a quiet set.
    pub open spec fn ticks_paths<S: Scheduler>(
        self,
        sched: &S,
        n: Self,
        before: Option<QuietEpisode>,
        after: Option<QuietEpisode>,
        t: PathTick,
        now: u64,
    ) -> bool {
        let j = t.judgement;
        &&& tracks(before, after, t.quiet, self.paths@, j.alive@, j.quiet@, now)
        &&& exists|a: Self, b: Self, c: Self|
            #![trigger self.judges(a, j, now), a.obeys_all(sched, b, j.verdicts@, t.failed@, now), b.ends_hold(
                sched,
                c,
                j.budget_elapsed,
                t.hold_reset,
                now,
            )]
            {
                &&& self.judges(a, j, now)
                &&& a.obeys_all(sched, b, j.verdicts@, t.failed@, now)
                &&& b.ends_hold(sched, c, j.budget_elapsed, t.hold_reset, now)
                &&& t.recycled is Some <==> c.is_client
                &&& match t.recycled {
                    Some(r) => c.recycles_outliers(sched, n, r, now),
                    None => n == c,
                }
            }
    }

    /// The path half of a tick: judge every path, tear down or degrade, and
    /// recycle outliers.
    pub fn tick_paths<S: Scheduler>(
        &mut self,
        episode: &mut Option<QuietEpisode>,
        sched: &S,
        now: u64,
    ) -> (t: PathTick)
        requires
            old(self).wf(),
        ensures
            final(self).wf(),
            old(self).ticks_paths(sched, *final(self), *old(episode), *final(episode), t, now),
    {
        let ghost o = *self;
        let judgement: Judgement = self.judge(now);
        let ghost a = *self;
        let quiet: QuietChange = track_quiet_set(
            episode,
            &self.paths,
            &judgement.alive,
            &judgement.quiet,
            now,
        );
        let failed: Vec<Option<PathFailed>> = self.carry_out(&judgement.verdicts, sched, now);
        let ghost b = *self;
        let hold_reset: Option<(Vec<u32>, Vec<Finished>)> = self.end_hold(
            judgement.budget_elapsed,
            sched,
            now,
        );
        let ghost c = *self;
        let recycled: Option<Recycled> = if self.is_client {
            Some(self.maybe_recycle_outliers(sched, now))
        } else {
            None
        };
        let t: PathTick = PathTick { judgement, quiet, failed, hold_reset, recycled };
        proof {
            assert(o.judges(a, t.judgement, now));
            assert(a.obeys_all(sched, b, t.judgement.verdicts@, t.failed@, now));
            assert(b.ends_hold(sched, c, t.judgement.budget_elapsed, t.hold_reset, now));
        }
        t
    }
}

// ---------------------------------------------------------------------------
// Streams
// ---------------------------------------------------------------------------
/// What a tick did to the streams.
pub struct StreamTick {
    pub swept: Vec<Swept>,
    pub steered: Steered,
    pub repeated: Repeated,
    pub close_ids: Vec<u32>,
    pub closed: Vec<RecvClosed>,
}

impl Session {
    /// `n` is this session with stale early DATA dropped.
    pub open spec fn expires_early(self, n: Self, now: u64) -> bool {
        &&& n == (Session { early: n.early, ..self })
        &&& forall|id: u32| #[trigger]
            n.early.waiting(id) == crate::early::young(
                self.early.waiting(id),
                self.early_for() as u64,
                now,
            )
    }

    /// What the stream half of a tick does to this session: sweep, windows,
    /// homes and stalls and late pieces, repeats, early DATA, ends that are
    /// due.
    pub open spec fn ticks_streams<S: Scheduler>(
        self,
        sched: &S,
        n: Self,
        t: StreamTick,
        now: u64,
    ) -> bool {
        exists|a: Self, b: Self, c: Self, d: Self|
            #![trigger self.sweeps(sched, a, t.swept@, now), a.tunes_windows(b, now), b.steers(
                sched,
                c,
                t.steered,
                now,
            ), c.repeats_late(sched, d, t.repeated, now)]
            {
                &&& self.sweeps(sched, a, t.swept@, now)
                &&& a.tunes_windows(b, now)
                &&& b.steers(sched, c, t.steered, now)
                &&& c.repeats_late(sched, d, t.repeated, now)
                &&& d.ticks_ends(n, t.close_ids@, t.closed@, now)
            }
    }

    /// `n` is this session once stale early DATA was dropped and the receive
    /// sides that are due were ended.
    pub open spec fn ticks_ends(
        self,
        n: Self,
        ids: Seq<u32>,
        outs: Seq<RecvClosed>,
        now: u64,
    ) -> bool {
        exists|e: Self| #[trigger]
            self.expires_early(e, now) && lists_ids(ids, e.streams@) && e.expires_closes(
                n,
                ids,
                outs,
                now,
            )
    }

    /// The stream half of a tick.
    pub fn tick_streams<S: Scheduler>(&mut self, sched: &S, now: u64) -> (t: StreamTick)
        requires
            old(self).wf(),
        ensures
            final(self).wf(),
            old(self).ticks_streams(sched, *final(self), t, now),
    {
        let ghost o = *self;
        let swept: Vec<Swept> = self.reap_closed_streams(sched, now);
        let ghost a = *self;
        self.tune_recv_windows(now);
        let ghost b = *self;
        let steered: Steered = self.steer_streams(sched, now);
        let ghost c = *self;
        let repeated: Repeated = self.repeat_late(sched, now);
        let ghost d = *self;
        self.expire_early(now);
        let ghost e = *self;
        let (close_ids, closed) = self.expire_recv_closes(now);
        let t: StreamTick = StreamTick { swept, steered, repeated, close_ids, closed };
        proof {
            assert(d.expires_early(e, now));
            assert(d.ticks_ends(*self, t.close_ids@, t.closed@, now));
            assert(o.sweeps(sched, a, t.swept@, now));
            assert(a.tunes_windows(b, now));
            assert(b.steers(sched, c, t.steered, now));
            assert(c.repeats_late(sched, d, t.repeated, now));
        }
        t
    }
}

// ---------------------------------------------------------------------------
// The tick
// ---------------------------------------------------------------------------
pub struct Tick {
    pub paths: PathTick,
    pub streams: StreamTick,
    pub all_down: AllDown,
}

impl Session {
    /// What one tick does to this session: paths, then streams, then the
    /// all-down clock.
    pub open spec fn maintains<S: Scheduler>(
        self,
        sched: &S,
        n: Self,
        before: Option<QuietEpisode>,
        after: Option<QuietEpisode>,
        t: Tick,
        now: u64,
    ) -> bool {
        exists|a: Self, b: Self|
            #![trigger self.ticks_paths(sched, a, before, after, t.paths, now), a.ticks_streams(
                sched,
                b,
                t.streams,
                now,
            )]
            {
                &&& self.ticks_paths(sched, a, before, after, t.paths, now)
                &&& a.ticks_streams(sched, b, t.streams, now)
                &&& b.goes_all_down(sched, n, t.all_down, now)
            }
    }

    /// One maintenance tick. A dead session has none.
    pub fn maintain<S: Scheduler>(
        &mut self,
        episode: &mut Option<QuietEpisode>,
        sched: &S,
        now: u64,
    ) -> (out: Option<Tick>)
        requires
            old(self).wf(),
        ensures
            final(self).wf(),
            out is None <==> old(self).marks.dead,
            match out {
                Some(t) => old(self).maintains(sched, *final(self), *old(episode), *final(episode), t, now),
                None => *final(self) == *old(self) && *final(episode) == *old(episode),
            },
    {
        if self.marks.dead {
            return None;
        }
        let ghost o = *self;
        let ghost e0 = *episode;
        let paths: PathTick = self.tick_paths(episode, sched, now);
        let ghost a = *self;
        let streams: StreamTick = self.tick_streams(sched, now);
        let ghost b = *self;
        let all_down: AllDown = self.check_all_down(sched, now);
        let t: Tick = Tick { paths, streams, all_down };
        proof {
            assert(o.ticks_paths(sched, a, e0, *episode, t.paths, now));
            assert(a.ticks_streams(sched, b, t.streams, now));
            assert(b.goes_all_down(sched, *self, t.all_down, now));
        }
        Some(t)
    }
}

// ---------------------------------------------------------------------------
// Laws
// ---------------------------------------------------------------------------
/// The all-down clock stands while a path is alive, and once it runs it is
/// not started anew.
pub proof fn law_all_down_clock_runs_once(s: Session, now: u64, later: u64)
    requires
        now <= later,
    ensures
        any_alive(s.paths@) ==> s.clocked_down(now).marks.all_down_since is None,
        !any_alive(s.paths@) ==> {
            &&& s.clocked_down(now).marks.all_down_since is Some
            &&& s.clocked_down(now).clocked_down(later).marks.all_down_since == s.clocked_down(
                now,
            ).marks.all_down_since
        },
{
}

/// Only a session that nobody can rejoin dies of it, and no stream is reset
/// before the timeout.
pub proof fn law_all_down_ends_only_what_it_must<S: Scheduler>(
    sched: &S,
    s: Session,
    n: Session,
    out: AllDown,
    now: u64,
)
    requires
        s.goes_all_down(sched, n, out, now),
    ensures
        out is Died ==> s.marks.reap_on_all_down,
        !s.down_too_long(now) ==> n.streams == s.streams && n.marks.dead == s.marks.dead,
{
}

/// A session whose paths are all down waits for the all-down timeout, counted
/// from the first tick that found none alive. Then a session that is reaped
/// dies, and another resets its streams where it has any; never earlier. The
/// clock stops as soon as a path is alive.
pub proof fn law_all_down_waits_for_its_timeout<S: Scheduler>(
    sched: &S,
    o: Session,
    n: Session,
    out: AllDown,
    now: u64,
)
    requires
        o.goes_all_down(sched, n, out, now),
        o.marks.all_down_since is Some ==> o.marks.all_down_since->0 <= now,
    ensures
        ({
            let lit = exists|i: int|
                0 <= i < o.paths@.len() && (#[trigger] o.paths@[i]).stat.state
                    != crate::path::Health::Down;
            let since = if o.marks.all_down_since is Some {
                o.marks.all_down_since->0
            } else {
                now
            };
            let late = now - since >= o.cfg.all_down_timeout;
            let busy = exists|id: u32| #[trigger] o.streams@.contains_key(id);
            &&& out is No <==> lit
            &&& lit ==> n.marks.all_down_since is None
            &&& out is Waiting ==> n.marks.all_down_since == Some(since) && n.streams@ == o.streams@
            &&& out is Died <==> !lit && late && o.marks.reap_on_all_down
            &&& out is Reset <==> !lit && late && !o.marks.reap_on_all_down && busy
        }),
{
    assert(any_alive(o.paths@) <==> exists|i: int|
        0 <= i < o.paths@.len() && (#[trigger] o.paths@[i]).stat.state
            != crate::path::Health::Down) by {
        if any_alive(o.paths@) {
            let i = choose|i: int| 0 <= i < o.paths@.len() && (#[trigger] o.paths@[i]).stat.alive();
            assert(o.paths@[i].stat.state != crate::path::Health::Down);
        }
        if exists|i: int|
            0 <= i < o.paths@.len() && (#[trigger] o.paths@[i]).stat.state
                != crate::path::Health::Down {
            let i = choose|i: int|
                0 <= i < o.paths@.len() && (#[trigger] o.paths@[i]).stat.state
                    != crate::path::Health::Down;
            assert(o.paths@[i].stat.alive());
        }
    }
}

} // verus!
