//! Connections that stay slow beside their siblings are recycled.

use vstd::prelude::*;

use crate::failover::PathFailed;
use crate::metrics::{plus, Counters};
use crate::num::above;
use crate::path::{distinct_ids, find_path, index_of, PathStat, PathState};
use crate::pool::{on_same_link, same_link};
use crate::sched::{backup_said, Scheduler};
use crate::session::Session;

verus! {

broadcast use vstd::laws_cmp::group_laws_cmp;

/// The path is up with a class that is known for at least `hold`.
pub open spec fn settled(s: PathStat, hold: u64, now: u64) -> bool {
    s.state is Up && s.class_known && above(now as int, s.class_known_at as int) >= hold
}

/// Path `j` is an up sibling of path `i` with a known class.
pub open spec fn sibling(ps: Seq<PathState>, i: int, j: int) -> bool {
    &&& ps[j].id != ps[i].id
    &&& ps[j].stat.state is Up
    &&& ps[j].stat.class_known
    &&& same_link(ps, ps[j].id, ps[i].id)
}

/// `best` is the smallest class RTT among the siblings of path `i`.
pub open spec fn best_sibling(ps: Seq<PathState>, i: int, best: Option<u64>) -> bool {
    match best {
        Some(b) => {
            &&& exists|j: int|
                0 <= j < ps.len() && #[trigger] sibling(ps, i, j) && ps[j].stat.class_rtt_us == b
            &&& forall|j: int|
                0 <= j < ps.len() && #[trigger] sibling(ps, i, j) ==> b <= ps[j].stat.class_rtt_us
        },
        None => forall|j: int| 0 <= j < ps.len() ==> !#[trigger] sibling(ps, i, j),
    }
}

/// One path's check: its best sibling, and what the scheduler said of its
/// class and of its fast RTT beside that sibling.
#[derive(Clone, Copy, Debug, PartialEq, Eq, Structural)]
pub struct OutlierCheck {
    pub id: u32,
    pub best: Option<u64>,
    pub class_backup: Option<bool>,
    pub fast_backup: Option<bool>,
    /// The path has been an outlier for the whole hold.
    pub recycle: bool,
}

impl OutlierCheck {
    /// Both say backup. A class alone would still name a path that has
    /// already recovered.
    pub open spec fn slow(self) -> bool {
        self.class_backup == Some(true) && self.fast_backup == Some(true)
    }
}

/// Since when the path is an outlier, after its check.
pub open spec fn outlier_after(s: PathStat, c: OutlierCheck, now: u64) -> Option<u64> {
    if !c.slow() {
        None
    } else if s.outlier_since is None {
        Some(now)
    } else {
        s.outlier_since
    }
}

/// `c` is a true account of the check of path `i`.
pub open spec fn checked<S: Scheduler>(
    sched: &S,
    ps: Seq<PathState>,
    i: int,
    c: OutlierCheck,
    hold: u64,
    now: u64,
) -> bool {
    let s = ps[i].stat;
    let since = outlier_after(s, c, now);
    &&& c.id == ps[i].id
    &&& if !settled(s, hold, now) {
        c.best is None && c.class_backup is None && c.fast_backup is None
    } else {
        &&& best_sibling(ps, i, c.best)
        &&& c.class_backup is Some <==> c.best is Some
        &&& c.fast_backup is Some <==> c.class_backup == Some(true)
        &&& c.class_backup is Some ==> backup_said(
            sched,
            s.class_rtt_us,
            c.best->0,
            c.class_backup->0,
        )
        &&& c.fast_backup is Some ==> backup_said(sched, s.rtt_us, c.best->0, c.fast_backup->0)
    }
    &&& c.recycle == (since is Some && above(now as int, since->0 as int) >= hold)
}

/// The pool once every path was checked.
pub open spec fn outliers_marked(
    ps: Seq<PathState>,
    n: Seq<PathState>,
    cs: Seq<OutlierCheck>,
    now: u64,
) -> bool {
    &&& n.len() == ps.len()
    &&& forall|i: int|
        0 <= i < ps.len() ==> (#[trigger] n[i]) == (PathState {
            stat: PathStat { outlier_since: outlier_after(ps[i].stat, cs[i], now), ..ps[i].stat },
            ..ps[i]
        })
}

fn find_best_sibling(paths: &Vec<PathState>, i: usize) -> (best: Option<u64>)
    requires
        distinct_ids(paths@),
        i < paths@.len(),
    ensures
        best_sibling(paths@, i as int, best),
{
    let mut best: Option<u64> = None;
    let mut j: usize = 0;
    while j < paths.len()
        invariant
            j <= paths@.len(),
            i < paths@.len(),
            distinct_ids(paths@),
            match best {
                Some(b) => {
                    &&& exists|k: int|
                        0 <= k < paths@.len() && #[trigger] sibling(paths@, i as int, k)
                            && paths@[k].stat.class_rtt_us == b
                    &&& forall|k: int|
                        0 <= k < j && #[trigger] sibling(paths@, i as int, k) ==> b
                            <= paths@[k].stat.class_rtt_us
                },
                None => forall|k: int| 0 <= k < j ==> !#[trigger] sibling(paths@, i as int, k),
            },
        decreases paths.len() - j,
    {
        if paths[j].id != paths[i].id && paths[j].stat.is_up() && paths[j].stat.class_known
            && on_same_link(paths, paths[j].id, paths[i].id) {
            assert(sibling(paths@, i as int, j as int));
            let c: u64 = paths[j].stat.class_rtt_us;
            best = match best {
                Some(b) => if b <= c {
                    Some(b)
                } else {
                    Some(c)
                },
                None => Some(c),
            };
        }
        j += 1;
    }
    best
}

fn check_one<S: Scheduler>(paths: &Vec<PathState>, i: usize, hold: u64, sched: &S, now: u64) -> (c:
    OutlierCheck)
    requires
        distinct_ids(paths@),
        i < paths@.len(),
    ensures
        checked(sched, paths@, i as int, c, hold, now),
{
    let s: PathStat = paths[i].stat;
    let id: u32 = paths[i].id;
    let mut c: OutlierCheck = OutlierCheck {
        id,
        best: None,
        class_backup: None,
        fast_backup: None,
        recycle: false,
    };
    if !s.is_up() || !s.class_known || now.saturating_sub(s.class_known_at) < hold {
        return c;
    }
    c.best = find_best_sibling(paths, i);
    match c.best {
        Some(b) => {
            let class_backup: bool = sched.is_backup(s.class_rtt_us, b);
            c.class_backup = Some(class_backup);
            if class_backup {
                let fast_backup: bool = sched.is_backup(s.rtt_us, b);
                c.fast_backup = Some(fast_backup);
                if fast_backup {
                    let since: u64 = match s.outlier_since {
                        Some(t) => t,
                        None => now,
                    };
                    c.recycle = now.saturating_sub(since) >= hold;
                }
            }
        },
        None => {},
    }
    c
}

/// `ids` are the paths to recycle, in order.
pub open spec fn to_recycle(cs: Seq<OutlierCheck>) -> Seq<u32>
    decreases cs.len(),
{
    if cs.len() == 0 {
        seq![]
    } else if cs.last().recycle {
        to_recycle(cs.drop_last()).push(cs.last().id)
    } else {
        to_recycle(cs.drop_last())
    }
}

/// What a check for outliers found and did.
pub struct Recycled {
    pub checks: Vec<OutlierCheck>,
    pub ids: Vec<u32>,
    pub failed: Vec<PathFailed>,
}

impl Session {
    /// `n` is this session with the outliers marked.
    pub open spec fn marks_outliers<S: Scheduler>(
        self,
        sched: &S,
        n: Self,
        cs: Seq<OutlierCheck>,
        now: u64,
    ) -> bool {
        let hold = self.cfg.tuning.stable_up_hold;
        &&& n == (Session { paths: n.paths, ..self })
        &&& cs.len() == self.paths@.len()
        &&& forall|i: int| 0 <= i < cs.len() ==> checked(sched, self.paths@, i, #[trigger] cs[i], hold, now)
        &&& outliers_marked(self.paths@, n.paths@, cs, now)
    }

    /// `n` is this session once path `id`, where it is still here, was counted
    /// as recycled and taken down.
    pub open spec fn recycles_one<S: Scheduler>(
        self,
        sched: &S,
        n: Self,
        id: u32,
        out: PathFailed,
        now: u64,
    ) -> bool {
        if index_of(self.paths@, id) is None {
            out is Unknown && n == self
        } else {
            let counted = Session {
                metrics: Counters {
                    path_outlier_recycle: plus(self.metrics.path_outlier_recycle, 1),
                    ..self.metrics
                },
                ..self
            };
            counted.fails(sched, n, id, out, now)
        }
    }

    /// `n` is this session once these paths were recycled in order.
    pub open spec fn recycles<S: Scheduler>(
        self,
        sched: &S,
        n: Self,
        ids: Seq<u32>,
        outs: Seq<PathFailed>,
        now: u64,
    ) -> bool
        decreases ids.len(),
    {
        if ids.len() == 0 {
            n == self && outs.len() == 0
        } else {
            &&& outs.len() == ids.len()
            &&& exists|mid: Self|
                self.recycles(sched, mid, ids.drop_last(), outs.drop_last(), now)
                    && #[trigger] mid.recycles_one(sched, n, ids.last(), outs.last(), now)
        }
    }

    /// What a check for outliers does to this session.
    pub open spec fn recycles_outliers<S: Scheduler>(
        self,
        sched: &S,
        n: Self,
        r: Recycled,
        now: u64,
    ) -> bool {
        exists|mid: Self| #[trigger]
            self.marks_outliers(sched, mid, r.checks@, now) && r.ids@ == to_recycle(r.checks@)
                && mid.recycles(sched, n, r.ids@, r.failed@, now)
    }

    fn mark_outliers<S: Scheduler>(&mut self, sched: &S, now: u64) -> (cs: Vec<OutlierCheck>)
        requires
            old(self).wf(),
        ensures
            final(self).wf(),
            old(self).marks_outliers(sched, *final(self), cs@, now),
    {
        let ghost o = *self;
        let hold: u64 = self.cfg.tuning.stable_up_hold;
        let mut cs: Vec<OutlierCheck> = Vec::new();
        let mut i: usize = 0;
        while i < self.paths.len()
            invariant
                i <= self.paths@.len(),
                *self == o,
                distinct_ids(self.paths@),
                hold == o.cfg.tuning.stable_up_hold,
                cs@.len() == i,
                forall|k: int|
                    0 <= k < i ==> checked(sched, o.paths@, k, #[trigger] cs@[k], hold, now),
            decreases self.paths.len() - i,
        {
            let c: OutlierCheck = check_one(&self.paths, i, hold, sched, now);
            cs.push(c);
            i += 1;
        }
        set_outliers(&mut self.paths, &cs, now);
        cs
    }

    fn recycle<S: Scheduler>(&mut self, ids: &Vec<u32>, sched: &S, now: u64) -> (outs: Vec<
        PathFailed,
    >)
        requires
            old(self).wf(),
        ensures
            final(self).wf(),
            old(self).recycles(sched, *final(self), ids@, outs@, now),
    {
        let ghost o = *self;
        let mut outs: Vec<PathFailed> = Vec::new();
        let mut i: usize = 0;
        assert(ids@.take(0) =~= seq![]);
        while i < ids.len()
            invariant
                i <= ids@.len(),
                self.wf(),
                outs@.len() == i,
                o.recycles(sched, *self, ids@.take(i as int), outs@, now),
            decreases ids.len() - i,
        {
            let ghost before = *self;
            let ghost outs0 = outs@;
            let id: u32 = ids[i];
            if find_path(&self.paths, id).is_some() {
                self.metrics.path_outlier_recycle =
                self.metrics.path_outlier_recycle.saturating_add(1);
                let out: PathFailed = self.path_failed(id, sched, now);
                outs.push(out);
            } else {
                outs.push(PathFailed::Unknown);
            }
            proof {
                assert(ids@.take(i as int + 1).drop_last() =~= ids@.take(i as int));
                assert(outs@.drop_last() =~= outs0);
                assert(before.recycles_one(sched, *self, ids@.take(i as int + 1).last(), outs@.last(), now));
                assert(o.recycles(sched, *self, ids@.take(i as int + 1), outs@, now));
            }
            i += 1;
        }
        assert(ids@.take(ids@.len() as int) =~= ids@);
        outs
    }

    /// Take down connections whose class and fast RTT have both been a mere
    /// backup beside a sibling for the whole hold.
    pub fn maybe_recycle_outliers<S: Scheduler>(&mut self, sched: &S, now: u64) -> (r: Recycled)
        requires
            old(self).wf(),
        ensures
            final(self).wf(),
            old(self).recycles_outliers(sched, *final(self), r, now),
    {
        let ghost o = *self;
        let checks: Vec<OutlierCheck> = self.mark_outliers(sched, now);
        let ghost mid = *self;
        let ids: Vec<u32> = recycle_ids(&checks);
        let failed: Vec<PathFailed> = self.recycle(&ids, sched, now);
        let r: Recycled = Recycled { checks, ids, failed };
        proof {
            assert(o.marks_outliers(sched, mid, r.checks@, now));
            assert(mid.recycles(sched, *self, r.ids@, r.failed@, now));
        }
        r
    }
}

fn recycle_ids(cs: &Vec<OutlierCheck>) -> (ids: Vec<u32>)
    ensures
        ids@ == to_recycle(cs@),
{
    let mut ids: Vec<u32> = Vec::new();
    let mut i: usize = 0;
    assert(cs@.take(0) =~= seq![]);
    while i < cs.len()
        invariant
            i <= cs@.len(),
            ids@ == to_recycle(cs@.take(i as int)),
        decreases cs.len() - i,
    {
        assert(cs@.take(i as int + 1).drop_last() =~= cs@.take(i as int));
        if cs[i].recycle {
            ids.push(cs[i].id);
        }
        i += 1;
    }
    assert(cs@.take(cs@.len() as int) =~= cs@);
    ids
}

fn set_outliers(paths: &mut Vec<PathState>, cs: &Vec<OutlierCheck>, now: u64)
    requires
        distinct_ids(old(paths)@),
        cs@.len() == old(paths)@.len(),
    ensures
        outliers_marked(old(paths)@, final(paths)@, cs@, now),
        distinct_ids(final(paths)@),
{
    let ghost ps = paths@;
    let mut i: usize = 0;
    while i < paths.len()
        invariant
            i <= paths@.len(),
            paths@.len() == ps.len(),
            cs@.len() == ps.len(),
            forall|k: int|
                0 <= k < i ==> (#[trigger] paths@[k]) == (PathState {
                    stat: PathStat {
                        outlier_since: outlier_after(ps[k].stat, cs@[k], now),
                        ..ps[k].stat
                    },
                    ..ps[k]
                }),
            forall|k: int| i <= k < ps.len() ==> (#[trigger] paths@[k]) == ps[k],
        decreases paths.len() - i,
    {
        let c: OutlierCheck = cs[i];
        let slow: bool = match (c.class_backup, c.fast_backup) {
            (Some(a), Some(b)) => a && b,
            _ => false,
        };
        let p: &mut PathState = &mut paths[i];
        if !slow {
            p.stat.outlier_since = None;
        } else if p.stat.outlier_since.is_none() {
            p.stat.outlier_since = Some(now);
        }
        i += 1;
    }
    proof {
        assert forall|a: int, b: int| 0 <= a < b < paths@.len() implies paths@[a].id != paths@[b].id by {
            assert(paths@[a].id == ps[a].id && paths@[b].id == ps[b].id);
        }
    }
}

// ---------------------------------------------------------------------------
// Laws
// ---------------------------------------------------------------------------
/// A path whose fast RTT has recovered is never recycled, and its outlier
/// clock starts anew.
pub proof fn law_recovered_is_not_recycled<S: Scheduler>(
    sched: &S,
    ps: Seq<PathState>,
    i: int,
    c: OutlierCheck,
    hold: u64,
    now: u64,
)
    requires
        checked(sched, ps, i, c, hold, now),
        c.fast_backup != Some(true),
    ensures
        !c.recycle,
        outlier_after(ps[i].stat, c, now) is None,
{
}

/// Only a path with an up sibling on its own link is recycled: a link never
/// loses its last connection this way.
pub proof fn law_recycling_leaves_a_sibling<S: Scheduler>(
    sched: &S,
    ps: Seq<PathState>,
    i: int,
    c: OutlierCheck,
    hold: u64,
    now: u64,
)
    requires
        checked(sched, ps, i, c, hold, now),
        c.recycle,
    ensures
        exists|j: int| 0 <= j < ps.len() && #[trigger] sibling(ps, i, j),
{
}

/// A path is recycled exactly where it has been much slower than the best
/// sibling of its link, by its class and by its latest RTT, for the hold; the
/// clock of that starts with the first such look and stops with the first that
/// finds it recovered.
pub proof fn law_a_lasting_outlier_is_recycled<S: Scheduler>(
    sched: &S,
    ps: Seq<PathState>,
    i: int,
    c: OutlierCheck,
    hold: u64,
    now: u64,
)
    requires
        0 <= i < ps.len(),
        checked(sched, ps, i, c, hold, now),
        ps[i].stat.outlier_since is Some ==> ps[i].stat.outlier_since->0 <= now,
        ps[i].stat.class_known_at <= now,
        hold > 0,
    ensures
        ({
            let s = ps[i].stat;
            let slow = c.class_backup == Some(true) && c.fast_backup == Some(true);
            &&& c.recycle <==> slow && s.outlier_since is Some && now - s.outlier_since->0 >= hold
            &&& slow ==> s.state == crate::path::Health::Up && s.class_known && now
                - s.class_known_at >= hold && c.best is Some
            &&& outlier_after(s, c, now) == if !slow {
                None
            } else if s.outlier_since is Some {
                s.outlier_since
            } else {
                Some(now)
            }
        }),
{
}

} // verus!
