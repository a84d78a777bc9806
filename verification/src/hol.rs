//! Keeping small frames out from behind bulk, and streams on fast paths.

use std::collections::BTreeMap;
use vstd::prelude::*;

use crate::cfg::SessionConfig;
use crate::maps::{ids_of, lists_ids};
use crate::metrics::{plus, Counters};
use crate::num::{above, larger, max_u64};
use crate::path::{distinct_ids, find_path, index_of, stat_of, PathState};
use crate::pool::{moved_home, on_same_link, same_link};
use crate::sched::{
    failback_said, fastest_said, fell_back, rebalance_said, FailbackReason, FailbackTarget,
    Scheduler,
};
use crate::session::Session;
use crate::stream::StreamState;
use crate::tried::contains_id;

verus! {

broadcast use vstd::laws_cmp::group_laws_cmp;

// ---------------------------------------------------------------------------
// Which connections carry small frames
// ---------------------------------------------------------------------------
/// The stream keeps its home for small frames. A stream that has been stalled
/// for the whole linger no longer does.
pub open spec fn pins(st: StreamState, path_id: u32, cfg: SessionConfig, now_ms: int) -> bool {
    &&& st.steerable()
    &&& st.life.sticky == path_id
    &&& !st.send.bulk
    &&& !(st.life.stalled && st.life.stall_from_ms != 0 && above(
        now_ms,
        st.life.stall_from_ms as int,
    ) >= cfg.linger_ms())
}

/// Some stream keeps `path_id` for small frames.
pub open spec fn has_interactive(
    m: Map<u32, StreamState>,
    path_id: u32,
    cfg: SessionConfig,
    now_ms: int,
) -> bool {
    exists|id: u32| #[trigger] m.contains_key(id) && pins(m[id], path_id, cfg, now_ms)
}

fn stream_pins(st: &StreamState, path_id: u32, cfg: &SessionConfig, now_ms: u64) -> (r: bool)
    ensures
        r == pins(*st, path_id, *cfg, now_ms as int),
{
    if !st.is_steerable() || st.life.sticky != path_id || st.send.bulk {
        return false;
    }
    let linger_ms: u64 = cfg.close_linger / 1000;
    !(st.life.stalled && st.life.stall_from_ms != 0 && now_ms.saturating_sub(
        st.life.stall_from_ms,
    ) >= linger_ms)
}

pub fn conn_has_interactive(
    streams: &BTreeMap<u32, StreamState>,
    path_id: u32,
    cfg: &SessionConfig,
    now_ms: u64,
) -> (r: bool)
    ensures
        r == has_interactive(streams@, path_id, *cfg, now_ms as int),
{
    let ids: Vec<u32> = ids_of(streams);
    let mut i: usize = 0;
    while i < ids.len()
        invariant
            i <= ids@.len(),
            lists_ids(ids@, streams@),
            forall|j: int|
                0 <= j < i ==> !pins(
                    streams@[#[trigger] ids@[j]],
                    path_id,
                    *cfg,
                    now_ms as int,
                ),
        decreases ids.len() - i,
    {
        let id: u32 = ids[i];
        proof {
            assert(ids@.contains(id));
        }
        let hit: bool = match streams.get(&id) {
            Some(st) => stream_pins(st, path_id, cfg, now_ms),
            None => false,
        };
        if hit {
            assert(streams@.contains_key(id) && pins(streams@[id], path_id, *cfg, now_ms as int));
            return true;
        }
        i += 1;
    }
    proof {
        if has_interactive(streams@, path_id, *cfg, now_ms as int) {
            let id = choose|id: u32| #[trigger]
                streams@.contains_key(id) && pins(streams@[id], path_id, *cfg, now_ms as int);
            assert(ids@.contains(id));
            let j = choose|j: int| 0 <= j < ids@.len() && ids@[j] == id;
            assert(!pins(streams@[ids@[j]], path_id, *cfg, now_ms as int));
        }
    }
    false
}

/// `out` lists, in pool order, the paths that carry small frames.
pub open spec fn lists_interactive(
    out: Seq<u32>,
    ps: Seq<PathState>,
    m: Map<u32, StreamState>,
    cfg: SessionConfig,
    now_ms: int,
) -> bool
    decreases ps.len(),
{
    if ps.len() == 0 {
        out.len() == 0
    } else if has_interactive(m, ps.last().id, cfg, now_ms) {
        &&& out.len() > 0
        &&& out.last() == ps.last().id
        &&& lists_interactive(out.drop_last(), ps.drop_last(), m, cfg, now_ms)
    } else {
        lists_interactive(out, ps.drop_last(), m, cfg, now_ms)
    }
}

pub fn interactive_conns(
    paths: &Vec<PathState>,
    streams: &BTreeMap<u32, StreamState>,
    cfg: &SessionConfig,
    now_ms: u64,
) -> (out: Vec<u32>)
    ensures
        lists_interactive(out@, paths@, streams@, *cfg, now_ms as int),
{
    let mut out: Vec<u32> = Vec::new();
    let mut i: usize = 0;
    assert(paths@.take(0) =~= seq![]);
    while i < paths.len()
        invariant
            i <= paths@.len(),
            lists_interactive(out@, paths@.take(i as int), streams@, *cfg, now_ms as int),
        decreases paths.len() - i,
    {
        let id: u32 = paths[i].id;
        assert(paths@.take(i as int + 1).drop_last() =~= paths@.take(i as int));
        let ghost out0 = out@;
        if conn_has_interactive(streams, id, cfg, now_ms) {
            out.push(id);
            assert(out@.drop_last() =~= out0);
        }
        i += 1;
    }
    assert(paths@.take(paths@.len() as int) =~= paths@);
    out
}

// ---------------------------------------------------------------------------
// Where bulk goes
// ---------------------------------------------------------------------------
/// Path `i` is a sibling of `cur` that takes bulk and carries no small frames.
pub open spec fn free_sibling(
    ps: Seq<PathState>,
    i: int,
    cur: u32,
    m: Map<u32, StreamState>,
    cfg: SessionConfig,
    now_ms: int,
) -> bool {
    &&& ps[i].id != cur
    &&& same_link(ps, ps[i].id, cur)
    &&& ps[i].stat.bulk_dest_ok
    &&& !has_interactive(m, ps[i].id, cfg, now_ms)
}

/// The first free sibling, where there is one.
pub open spec fn first_free(
    ps: Seq<PathState>,
    cur: u32,
    m: Map<u32, StreamState>,
    cfg: SessionConfig,
    now_ms: int,
    r: Option<u32>,
) -> bool {
    match r {
        Some(id) => exists|i: int|
            0 <= i < ps.len() && #[trigger] free_sibling(ps, i, cur, m, cfg, now_ms) && ps[i].id
                == id && forall|j: int|
                0 <= j < i ==> !#[trigger] free_sibling(ps, j, cur, m, cfg, now_ms),
        None => forall|i: int|
            0 <= i < ps.len() ==> !#[trigger] free_sibling(ps, i, cur, m, cfg, now_ms),
    }
}

/// Where bulk goes that would sit before small frames.
pub struct HolPlace {
    pub dest: Option<u32>,
    /// What the scheduler answered, where no sibling was free.
    pub fallback: Option<Option<u32>>,
}

/// Bulk stays where nobody small waits behind it; else a free sibling takes
/// it, else the scheduler's choice.
pub open spec fn places_bulk<S: Scheduler>(
    sched: &S,
    ps: Seq<PathState>,
    cur: u32,
    m: Map<u32, StreamState>,
    cfg: SessionConfig,
    now_ms: int,
    r: HolPlace,
) -> bool {
    if !has_interactive(m, cur, cfg, now_ms) || index_of(ps, cur) is None {
        r.dest is None && r.fallback is None
    } else {
        match r.fallback {
            None => r.dest is Some && first_free(ps, cur, m, cfg, now_ms, r.dest),
            Some(answer) => {
                &&& r.dest == answer
                &&& first_free(ps, cur, m, cfg, now_ms, None)
                &&& exists|small: Seq<u32>| #[trigger]
                    lists_interactive(small, ps, m, cfg, now_ms) && fell_back(
                        sched,
                        ps,
                        cur,
                        small,
                        answer,
                    )
            },
        }
    }
}

fn find_free_sibling(
    paths: &Vec<PathState>,
    cur: u32,
    streams: &BTreeMap<u32, StreamState>,
    cfg: &SessionConfig,
    now_ms: u64,
) -> (r: Option<u32>)
    requires
        distinct_ids(paths@),
    ensures
        first_free(paths@, cur, streams@, *cfg, now_ms as int, r),
{
    let mut i: usize = 0;
    while i < paths.len()
        invariant
            i <= paths@.len(),
            distinct_ids(paths@),
            forall|j: int|
                0 <= j < i ==> !#[trigger] free_sibling(
                    paths@,
                    j,
                    cur,
                    streams@,
                    *cfg,
                    now_ms as int,
                ),
        decreases paths.len() - i,
    {
        let id: u32 = paths[i].id;
        if id != cur && on_same_link(paths, id, cur) && paths[i].stat.bulk_dest_ok
            && !conn_has_interactive(streams, id, cfg, now_ms) {
            assert(free_sibling(paths@, i as int, cur, streams@, *cfg, now_ms as int));
            return Some(id);
        }
        i += 1;
    }
    None
}

pub fn hol_place_bulk<S: Scheduler>(
    paths: &Vec<PathState>,
    cur: u32,
    streams: &BTreeMap<u32, StreamState>,
    cfg: &SessionConfig,
    sched: &S,
    now_ms: u64,
) -> (r: HolPlace)
    requires
        distinct_ids(paths@),
    ensures
        places_bulk(sched, paths@, cur, streams@, *cfg, now_ms as int, r),
{
    if !conn_has_interactive(streams, cur, cfg, now_ms) {
        return HolPlace { dest: None, fallback: None };
    }
    match find_path(paths, cur) {
        None => HolPlace { dest: None, fallback: None },
        Some(_) => match find_free_sibling(paths, cur, streams, cfg, now_ms) {
            Some(sib) => HolPlace { dest: Some(sib), fallback: None },
            None => {
                let interactive: Vec<u32> = interactive_conns(paths, streams, cfg, now_ms);
                let answer: Option<u32> = sched.bulk_fallback(paths, cur, &interactive);
                proof {
                    assert(lists_interactive(
                        interactive@,
                        paths@,
                        streams@,
                        *cfg,
                        now_ms as int,
                    ));
                    assert(fell_back(sched, paths@, cur, interactive@, answer));
                }
                HolPlace { dest: answer, fallback: Some(answer) }
            },
        },
    }
}

/// Where a small stream goes: the first path the scheduler says yes to.
/// `answers` are its answers of a move from path `at` to each path in pool
/// order, up to the first yes.
pub open spec fn rebalances<S: Scheduler>(
    sched: &S,
    ps: Seq<PathState>,
    at: int,
    answers: Seq<bool>,
    dest: Option<u32>,
) -> bool {
    &&& answers.len() <= ps.len()
    &&& forall|i: int|
        0 <= i < answers.len() ==> rebalance_said(sched, ps[at], ps[i], #[trigger] answers[i])
    &&& forall|i: int| 0 <= i < answers.len() - 1 ==> !#[trigger] answers[i]
    &&& match dest {
        Some(d) => answers.len() > 0 && answers.last() && d == ps[answers.len() - 1].id,
        None => answers.len() == ps.len() && (answers.len() > 0 ==> !answers.last()),
    }
}

fn rebalance_conn<S: Scheduler>(paths: &Vec<PathState>, at: usize, sched: &S) -> (r: (
    Option<u32>,
    Vec<bool>,
))
    requires
        at < paths@.len(),
    ensures
        rebalances(sched, paths@, at as int, r.1@, r.0),
{
    let mut answers: Vec<bool> = Vec::new();
    let mut i: usize = 0;
    while i < paths.len()
        invariant
            i <= paths@.len(),
            at < paths@.len(),
            answers@.len() == i,
            forall|k: int| 0 <= k < i ==> !#[trigger] answers@[k],
            forall|k: int|
                0 <= k < i ==> rebalance_said(
                    sched,
                    paths@[at as int],
                    paths@[k],
                    #[trigger] answers@[k],
                ),
        decreases paths.len() - i,
    {
        let yes: bool = sched.should_rebalance(&paths[at], &paths[i]);
        answers.push(yes);
        if yes {
            return (Some(paths[i].id), answers);
        }
        i += 1;
    }
    (None, answers)
}

// ---------------------------------------------------------------------------
// Moving a stream
// ---------------------------------------------------------------------------
/// How a destination was found.
pub enum HolChoice {
    Bulk(HolPlace),
    Small(Vec<bool>),
    /// The stream cannot be moved, or its home is gone.
    NotAsked,
}

pub struct HolOutcome {
    pub dest: Option<u32>,
    pub choice: HolChoice,
}

impl Session {
    /// `n` is this session once stream `id` made `to` its home.
    pub open spec fn rehomes(self, n: Self, id: u32, to: u32, now: u64) -> bool {
        let st = self.streams@[id];
        &&& n == (Session {
            streams: n.streams,
            paths: n.paths,
            metrics: n.metrics,
            ..self
        })
        &&& n.paths@ == moved_home(self.paths@, st.life.sticky, to)
        &&& n.streams@ == self.streams@.insert(
            id,
            StreamState { life: st.rehomed_life(to, now), ..st },
        )
    }

    fn rehome(&mut self, id: u32, to: u32, now: u64)
        requires
            old(self).wf(),
            old(self).streams@.contains_key(id),
            old(self).streams@[id].steerable(),
        ensures
            final(self).wf(),
            old(self).rehomes(*final(self), id, to, now),
            final(self).metrics == old(self).metrics,
    {
        let ghost o = *self;
        match self.streams.remove(&id) {
            Some(stream) => {
                let mut st: StreamState = stream;
                let ghost st0 = st;
                st.set_sticky(&mut self.paths, to, now);
                assert(st == (StreamState { life: st0.rehomed_life(to, now), ..st0 }));
                assert(st.recv_wf() && st.send_wf());
                let _ = self.streams.insert(id, st);
                assert(self.streams@ =~= o.streams@.insert(id, st));
            },
            None => {},
        }
    }

    /// What head-of-line placement of stream `id` does to this session.
    pub open spec fn hols<S: Scheduler>(
        self,
        sched: &S,
        n: Self,
        id: u32,
        out: HolOutcome,
        now: u64,
    ) -> bool {
        let st = self.streams@[id];
        let cur = st.life.sticky;
        let now_ms = now as int / 1000;
        if !self.streams@.contains_key(id) || !st.steerable() || index_of(self.paths@, cur) is None {
            out.dest is None && out.choice is NotAsked && n == self
        } else {
            &&& match out.choice {
                HolChoice::Bulk(place) => st.send.bulk && places_bulk(
                    sched,
                    self.paths@,
                    cur,
                    self.streams@,
                    self.cfg,
                    now_ms,
                    place,
                ) && out.dest == place.dest,
                HolChoice::Small(answers) => !st.send.bulk && rebalances(
                    sched,
                    self.paths@,
                    index_of(self.paths@, cur)->0,
                    answers@,
                    out.dest,
                ),
                HolChoice::NotAsked => false,
            }
            &&& if out.dest is Some && out.dest->0 != cur {
                &&& self.rehomes(n, id, out.dest->0, now)
                &&& n.metrics == (Counters {
                    hol_rebalances: plus(self.metrics.hol_rebalances, 1),
                    ..self.metrics
                })
            } else {
                n == self
            }
        }
    }

    /// Move a stream so that small frames do not wait behind bulk.
    pub fn maybe_hol<S: Scheduler>(&mut self, id: u32, sched: &S, now: u64) -> (out: HolOutcome)
        requires
            old(self).wf(),
        ensures
            final(self).wf(),
            old(self).hols(sched, *final(self), id, out, now),
    {
        let (cur, bulk): (u32, bool) = match self.streams.get(&id) {
            Some(st) => if st.is_steerable() {
                (st.life.sticky, st.send.bulk)
            } else {
                return HolOutcome { dest: None, choice: HolChoice::NotAsked };
            },
            None => {
                return HolOutcome { dest: None, choice: HolChoice::NotAsked };
            },
        };
        let at: usize = match find_path(&self.paths, cur) {
            Some(i) => i,
            None => {
                return HolOutcome { dest: None, choice: HolChoice::NotAsked };
            },
        };
        let out: HolOutcome = if bulk {
            let place: HolPlace = hol_place_bulk(
                &self.paths,
                cur,
                &self.streams,
                &self.cfg,
                sched,
                now / 1000,
            );
            HolOutcome { dest: place.dest, choice: HolChoice::Bulk(place) }
        } else {
            let (dest, answers) = rebalance_conn(&self.paths, at, sched);
            HolOutcome { dest, choice: HolChoice::Small(answers) }
        };
        match out.dest {
            Some(dest) => if dest != cur {
                self.rehome(id, dest, now);
                self.metrics.hol_rebalances = self.metrics.hol_rebalances.saturating_add(1);
            },
            None => {},
        }
        out
    }
}

// ---------------------------------------------------------------------------
// Failback
// ---------------------------------------------------------------------------
/// What the scheduler was asked before a stream went back, and what it said.
pub struct Failback {
    /// The stream was free to move, so a faster path was asked for.
    pub asked: bool,
    /// The faster path, where one was named.
    pub target: Option<FailbackTarget>,
    /// The fastest class, where a bulk stream asked for an upgrade.
    pub fastest: Option<Vec<u32>>,
    /// The stream moved.
    pub moved: bool,
}

/// The stream may move at all: it can be steered, its home is there, and it
/// sat there for the cooldown of the home's slower RTT.
pub open spec fn may_fail_back(
    st: StreamState,
    ps: Seq<PathState>,
    cfg: SessionConfig,
    now: u64,
) -> bool {
    match stat_of(ps, st.life.sticky) {
        Some(p) => st.steerable() && above(now as int, st.life.last_stick_change as int)
            >= crate::tuning::hold_of(
            cfg.tuning.failback_cooldown as int,
            larger(p.rtt_us as int, p.class_rtt_us as int),
        ),
        None => false,
    }
}

/// A named faster path is taken, but a bulk stream follows an upgrade only
/// from the fastest class.
pub open spec fn takes_failback(st: StreamState, ps: Seq<PathState>, f: Failback) -> bool {
    match f.target {
        Some(t) => {
            &&& t.to != st.life.sticky
            &&& !(t.why is Upgrade && st.send.bulk) || (f.fastest is Some && f.fastest->0@.contains(
                st.life.sticky,
            ))
            &&& index_of(ps, t.to) is Some
        },
        None => false,
    }
}

/// The counters after a stream went back.
pub open spec fn failback_counted(c: Counters, cross_link: bool, why: FailbackReason) -> Counters {
    if !cross_link {
        Counters { failbacks_same_link: plus(c.failbacks_same_link, 1), ..c }
    } else {
        match why {
            FailbackReason::Upgrade => Counters {
                failbacks: plus(c.failbacks, 1),
                failbacks_upgrade: plus(c.failbacks_upgrade, 1),
                ..c
            },
            FailbackReason::ClassEmpty => Counters {
                failbacks: plus(c.failbacks, 1),
                failbacks_class_empty: plus(c.failbacks_class_empty, 1),
                ..c
            },
        }
    }
}

impl Session {
    /// What a failback of stream `id` does to this session.
    pub open spec fn fails_back<S: Scheduler>(
        self,
        sched: &S,
        n: Self,
        id: u32,
        out: Failback,
        now: u64,
    ) -> bool {
        let st = self.streams@[id];
        &&& out.asked == (self.streams@.contains_key(id) && may_fail_back(
            st,
            self.paths@,
            self.cfg,
            now,
        ))
        &&& out.target is Some ==> out.asked
        &&& out.asked ==> failback_said(sched, self.paths@, st.life.sticky, out.target)
        &&& out.fastest is Some ==> fastest_said(sched, self.paths@, out.fastest->0)
        &&& out.fastest is Some ==> out.target is Some && out.target->0.why is Upgrade
            && st.send.bulk && out.target->0.to != st.life.sticky
        &&& (out.target is Some && out.target->0.why is Upgrade && st.send.bulk && out.target->0.to
            != st.life.sticky) ==> out.fastest is Some
        &&& out.moved == (out.target is Some && takes_failback(st, self.paths@, out))
        &&& if out.moved {
            &&& self.rehomes(n, id, out.target->0.to, now)
            &&& n.metrics == failback_counted(
                self.metrics,
                !same_link(self.paths@, st.life.sticky, out.target->0.to),
                out.target->0.why,
            )
        } else {
            n == self
        }
    }

    /// Take a stream back to a faster path once it sat still long enough.
    pub fn maybe_failback<S: Scheduler>(&mut self, id: u32, sched: &S, now: u64) -> (out: Failback)
        requires
            old(self).wf(),
        ensures
            final(self).wf(),
            old(self).fails_back(sched, *final(self), id, out, now),
    {
        let (cur, bulk): (u32, bool) = match self.streams.get(&id) {
            Some(st) => {
                let cool: u64 = match crate::path::get_path(&self.paths, st.life.sticky) {
                    Some(p) => self.cfg.tuning.failback_cooldown_for(
                        max_u64(p.rtt_us, p.class_rtt_us),
                    ),
                    None => {
                        return Failback { asked: false, target: None, fastest: None, moved: false };
                    },
                };
                if !st.is_steerable() || !st.stick_changed_ago_ge(cool, now) {
                    return Failback { asked: false, target: None, fastest: None, moved: false };
                }
                (st.life.sticky, st.send.bulk)
            },
            None => {
                return Failback { asked: false, target: None, fastest: None, moved: false };
            },
        };
        let target: Option<FailbackTarget> = sched.failback_target(&self.paths, cur);
        let ghost ps = self.paths@;
        assert(failback_said(sched, ps, cur, target));
        let (to, why): (u32, FailbackReason) = match target {
            Some(t) => (t.to, t.why),
            None => {
                return Failback { asked: true, target, fastest: None, moved: false };
            },
        };
        if to == cur {
            return Failback { asked: true, target, fastest: None, moved: false };
        }
        let upgrade: bool = match why {
            FailbackReason::Upgrade => true,
            FailbackReason::ClassEmpty => false,
        };
        let mut fastest: Option<Vec<u32>> = None;
        if upgrade && bulk {
            let class: Vec<u32> = sched.fastest_class(&self.paths);
            assert(fastest_said(sched, ps, class));
            let stays: bool = !contains_id(&class, cur);
            fastest = Some(class);
            if stays {
                return Failback { asked: true, target, fastest, moved: false };
            }
        }
        if find_path(&self.paths, to).is_none() {
            return Failback { asked: true, target, fastest, moved: false };
        }
        let cross_link: bool = !on_same_link(&self.paths, cur, to);
        self.rehome(id, to, now);
        if cross_link {
            self.metrics.failbacks = self.metrics.failbacks.saturating_add(1);
            match why {
                FailbackReason::Upgrade => {
                    self.metrics.failbacks_upgrade = self.metrics.failbacks_upgrade.saturating_add(
                        1,
                    );
                },
                FailbackReason::ClassEmpty => {
                    self.metrics.failbacks_class_empty =
                    self.metrics.failbacks_class_empty.saturating_add(1);
                },
            }
        } else {
            self.metrics.failbacks_same_link = self.metrics.failbacks_same_link.saturating_add(1);
        }
        Failback { asked: true, target, fastest, moved: true }
    }
}

// ---------------------------------------------------------------------------
// Laws
// ---------------------------------------------------------------------------
/// Bulk is only ever placed on a connection without small frames, as long as
/// a sibling of that kind is there.
pub proof fn law_bulk_avoids_small_frames<S: Scheduler>(
    sched: &S,
    ps: Seq<PathState>,
    cur: u32,
    m: Map<u32, StreamState>,
    cfg: SessionConfig,
    now_ms: int,
    r: HolPlace,
)
    requires
        places_bulk(sched, ps, cur, m, cfg, now_ms, r),
        exists|i: int| 0 <= i < ps.len() && #[trigger] free_sibling(ps, i, cur, m, cfg, now_ms),
        has_interactive(m, cur, cfg, now_ms),
        index_of(ps, cur) is Some,
    ensures
        r.dest is Some,
        r.dest->0 != cur,
        !has_interactive(m, r.dest->0, cfg, now_ms),
        same_link(ps, r.dest->0, cur),
{
}

/// Moving one stream changes no other stream, and no table of repeats.
pub proof fn law_hol_keeps_other_streams<S: Scheduler>(
    sched: &S,
    o: Session,
    n: Session,
    id: u32,
    out: HolOutcome,
    now: u64,
    k: u32,
)
    requires
        o.hols(sched, n, id, out, now),
        k != id,
    ensures
        n.streams@.contains_key(k) == o.streams@.contains_key(k),
        o.streams@.contains_key(k) ==> n.streams@[k] == o.streams@[k],
        n.opens == o.opens,
        n.closes == o.closes,
        n.resets == o.resets,
{
}

/// A stream that may move goes where the scheduler names another path of the
/// pool: always where its own class is empty, and for an upgrade unless it is
/// bulk and sits outside the fastest class. The move is counted by its reason
/// where it leaves the link, and as one within the link otherwise.
pub proof fn law_a_named_path_is_taken<S: Scheduler>(
    sched: &S,
    o: Session,
    n: Session,
    id: u32,
    out: Failback,
    t: FailbackTarget,
    i: int,
    now: u64,
)
    requires
        o.wf(),
        o.fails_back(sched, n, id, out, now),
        out.target == Some(t),
        0 <= i < o.paths@.len(),
        o.paths@[i].id == t.to,
        t.to != o.streams@[id].life.sticky,
        o.metrics.failbacks < u64::MAX,
        o.metrics.failbacks_upgrade < u64::MAX,
        o.metrics.failbacks_class_empty < u64::MAX,
        o.metrics.failbacks_same_link < u64::MAX,
    ensures
        ({
            let st = o.streams@[id];
            let stays = t.why is Upgrade && st.send.bulk && !(out.fastest is Some
                && out.fastest->0@.contains(st.life.sticky));
            &&& out.moved == !stays
            &&& stays ==> n == o
            &&& !stays ==> {
                &&& n.streams@.contains_key(id)
                &&& n.streams@[id].life.sticky == t.to
                &&& forall|k: u32|
                    k != id ==> n.streams@.contains_key(k) == #[trigger] o.streams@.contains_key(k)
                &&& if same_link(o.paths@, st.life.sticky, t.to) {
                    &&& n.metrics.failbacks_same_link == o.metrics.failbacks_same_link + 1
                    &&& n.metrics.failbacks == o.metrics.failbacks
                } else {
                    &&& n.metrics.failbacks == o.metrics.failbacks + 1
                    &&& n.metrics.failbacks_same_link == o.metrics.failbacks_same_link
                    &&& t.why is Upgrade ==> n.metrics.failbacks_upgrade
                        == o.metrics.failbacks_upgrade + 1 && n.metrics.failbacks_class_empty
                        == o.metrics.failbacks_class_empty
                    &&& t.why is ClassEmpty ==> n.metrics.failbacks_class_empty
                        == o.metrics.failbacks_class_empty + 1 && n.metrics.failbacks_upgrade
                        == o.metrics.failbacks_upgrade
                }
            }
        }),
{
}

/// The scheduler is asked exactly where the stream can be steered, its home is
/// in the pool, and it sat there for the cooldown and for two round trips of
/// the slower of the home's two RTTs. Without a target nothing changes.
pub proof fn law_a_settled_stream_asks_for_a_faster_path<S: Scheduler>(
    sched: &S,
    o: Session,
    n: Session,
    id: u32,
    out: Failback,
    i: int,
    now: u64,
)
    requires
        o.wf(),
        o.fails_back(sched, n, id, out, now),
        o.streams@.contains_key(id),
        0 <= i < o.paths@.len(),
        o.paths@[i].id == o.streams@[id].life.sticky,
        o.paths@[i].stat.rtt_us <= 0x7fff_ffff_ffff_ffff,
        o.paths@[i].stat.class_rtt_us <= 0x7fff_ffff_ffff_ffff,
        now >= o.streams@[id].life.last_stick_change,
    ensures
        ({
            let st = o.streams@[id];
            let sat = now - st.life.last_stick_change;
            &&& out.asked <==> st.steerable() && sat >= o.cfg.tuning.failback_cooldown && sat >= 2
                * o.paths@[i].stat.rtt_us && sat >= 2 * o.paths@[i].stat.class_rtt_us
            &&& out.target is None ==> n == o && !out.moved
        }),
{
    assert(index_of(o.paths@, o.streams@[id].life.sticky) == Some(i));
}

/// A small stream holds its path while it is steered there, unless it has been
/// stalled for as long as a stall lingers.
pub proof fn law_when_a_small_stream_holds_its_path(
    st: StreamState,
    path_id: u32,
    cfg: SessionConfig,
    now_ms: int,
)
    requires
        st.life.stall_from_ms <= now_ms,
        st.steerable(),
        st.life.sticky == path_id,
    ensures
        st.send.bulk ==> !pins(st, path_id, cfg, now_ms),
        !st.send.bulk && !st.life.stalled ==> pins(st, path_id, cfg, now_ms),
        !st.send.bulk && st.life.stalled && st.life.stall_from_ms > 0 ==> (pins(
            st,
            path_id,
            cfg,
            now_ms,
        ) <==> now_ms - st.life.stall_from_ms < cfg.linger_ms()),
{
}

/// A small stream goes to the first path for which the scheduler says so, and
/// stays where it says so for none.
pub proof fn law_the_first_yes_is_taken<S: Scheduler>(
    sched: &S,
    ps: Seq<PathState>,
    at: int,
    answers: Seq<bool>,
    dest: Option<u32>,
    i: int,
)
    requires
        rebalances(sched, ps, at, answers, dest),
        0 <= i < answers.len(),
    ensures
        answers[i] ==> dest == Some(ps[i].id) && i == answers.len() - 1,
        dest is None ==> !answers[i] && answers.len() == ps.len(),
        dest is Some ==> answers[answers.len() - 1],
{
}

/// A move leaves a mark: the stream's new home, the moment of the move, and a
/// sticky stream less on the old path and one more on the new.
pub proof fn law_a_move_is_stamped(o: Session, n: Session, id: u32, to: u32, now: u64)
    requires
        o.rehomes(n, id, to, now),
        o.streams@.contains_key(id),
        o.streams@[id].steerable(),
        o.streams@[id].life.sticky != 0,
        o.streams@[id].life.sticky != to,
    ensures
        n.streams@[id].life.sticky == to,
        n.streams@[id].life.last_stick_change == now,
        n.streams@[id].counters == o.streams@[id].counters,
        n.streams@[id].unacked == o.streams@[id].unacked,
        forall|k: u32|
            k != id && o.streams@.contains_key(k) ==> #[trigger] n.streams@[k] == o.streams@[k],
{
}

/// The rebalancing of a stream is counted where it moved, and only there.
pub proof fn law_moves_are_counted<S: Scheduler>(
    sched: &S,
    o: Session,
    n: Session,
    id: u32,
    out: HolOutcome,
    now: u64,
)
    requires
        o.hols(sched, n, id, out, now),
        o.metrics.hol_rebalances < u64::MAX,
        o.streams@.contains_key(id),
    ensures
        n.metrics.hol_rebalances - o.metrics.hol_rebalances == if out.dest is Some && out.dest->0
            != o.streams@[id].life.sticky {
            1int
        } else {
            0
        },
        out.dest is None ==> n == o,
        out.dest is Some && out.dest->0 != o.streams@[id].life.sticky ==> n.streams@[id].life.sticky
            == out.dest->0,
{
}

} // verus!
