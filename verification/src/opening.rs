//! Opening, accepting and closing streams; paths that join; the end of a
//! session.

use vstd::prelude::*;

use crate::cfg::SessionConfig;
use crate::frames::{copy_target, Frame, Target};
use crate::ledger::{announces, frame_of, same_what, Ledger, Pending, What};
use crate::lifecycle::entry_of;
use crate::metrics::{plus, Counters};
use crate::path::{
    alive_count, alive_path_count, distinct_ids, get_path, index_of, stat_of, PathStat, PathState,
};
use crate::pool::{moved_home, put_stat, with_stat};
use crate::sched::{picked, picked_again, PickPref, Scheduler};
use crate::session::{Marks, Session, SessionError};
use crate::stream::{
    fresh_counters, fresh_life, fresh_recv, fresh_send, Lifecycle, StreamState, Unacked,
};
use crate::wire::{pool_accepts, pool_offered, send_on_path};

verus! {

broadcast use vstd::laws_cmp::group_laws_cmp;

// ---------------------------------------------------------------------------
// One control frame
// ---------------------------------------------------------------------------
/// `qs` is the pool once `what` of stream `id` was offered to `path_id`.
pub open spec fn ctl_offered(
    ps: Seq<PathState>,
    qs: Seq<PathState>,
    path_id: u32,
    id: u32,
    what: What,
    cfg: SessionConfig,
    ok: bool,
) -> bool {
    exists|f: Frame|
        announces(f, id, what) && #[trigger] pool_offered(ps, qs, path_id, f, cfg) && ok
            == pool_accepts(ps, path_id, f, cfg)
}

pub fn offer_what(
    paths: &mut Vec<PathState>,
    path_id: u32,
    id: u32,
    what: &What,
    cfg: &SessionConfig,
) -> (ok: bool)
    requires
        distinct_ids(old(paths)@),
    ensures
        ctl_offered(old(paths)@, final(paths)@, path_id, id, *what, *cfg, ok),
        distinct_ids(final(paths)@),
{
    let ghost ps = paths@;
    let frame: Frame = frame_of(id, what);
    let ghost f = frame;
    let ok: bool = send_on_path(paths, path_id, frame, cfg);
    assert(announces(f, id, *what) && pool_offered(ps, paths@, path_id, f, *cfg));
    ok
}

// ---------------------------------------------------------------------------
// Picks
// ---------------------------------------------------------------------------
/// The pool with one more pick of `path_id`.
pub open spec fn picked_on(ps: Seq<PathState>, path_id: u32) -> Seq<PathState> {
    match stat_of(ps, path_id) {
        Some(p) => with_stat(ps, path_id, PathStat { picks: plus(p.picks, 1), ..p }),
        None => ps,
    }
}

/// The counters once a path was picked: its RTT, 0 while that is unknown.
pub open spec fn pick_counted(c: Counters, ps: Seq<PathState>, path_id: u32) -> Counters {
    match stat_of(ps, path_id) {
        Some(p) => Counters { pick_rtt_us: p.rtt_us, ..c },
        None => c,
    }
}

/// Some path has a measured RTT.
pub open spec fn any_known(ps: Seq<PathState>) -> bool {
    exists|i: int| 0 <= i < ps.len() && (#[trigger] ps[i]).stat.rtt_known()
}

/// The counters once an unmeasured path was picked, and whether a measured
/// one was passed over.
pub open spec fn unknown_pick_counted(c: Counters, ps: Seq<PathState>, path_id: u32) -> Counters {
    match stat_of(ps, path_id) {
        Some(p) => if p.rtt_known() {
            c
        } else {
            Counters {
                picks_unknown_rtt: plus(c.picks_unknown_rtt, 1),
                picks_unknown_over_known: plus(
                    c.picks_unknown_over_known,
                    if any_known(ps) {
                        1
                    } else {
                        0
                    },
                ),
                ..c
            }
        },
        None => c,
    }
}

fn has_known(paths: &Vec<PathState>) -> (r: bool)
    ensures
        r == any_known(paths@),
{
    let mut i: usize = 0;
    while i < paths.len()
        invariant
            i <= paths@.len(),
            forall|k: int| 0 <= k < i ==> !(#[trigger] paths@[k]).stat.rtt_known(),
        decreases paths.len() - i,
    {
        if paths[i].stat.is_rtt_known() {
            assert(paths@[i as int].stat.rtt_known());
            return true;
        }
        i += 1;
    }
    false
}

impl Session {
    pub fn note_pick(&mut self, path_id: u32)
        requires
            old(self).wf(),
        ensures
            final(self).wf(),
            *final(self) == (Session {
                paths: final(self).paths,
                metrics: pick_counted(old(self).metrics, old(self).paths@, path_id),
                ..*old(self)
            }),
            final(self).paths@ == picked_on(old(self).paths@, path_id),
    {
        match get_path(&self.paths, path_id) {
            Some(stat) => {
                let mut p: PathStat = stat;
                self.metrics.pick_rtt_us = p.rtt_us;
                p.picks = p.picks.saturating_add(1);
                put_stat(&mut self.paths, path_id, p);
            },
            None => {},
        }
    }

    pub fn note_unknown_pick(&mut self, path_id: u32)
        requires
            old(self).wf(),
        ensures
            final(self).wf(),
            *final(self) == (Session {
                metrics: unknown_pick_counted(old(self).metrics, old(self).paths@, path_id),
                ..*old(self)
            }),
    {
        match get_path(&self.paths, path_id) {
            Some(p) => if !p.is_rtt_known() {
                self.metrics.picks_unknown_rtt = self.metrics.picks_unknown_rtt.saturating_add(1);
                if has_known(&self.paths) {
                    self.metrics.picks_unknown_over_known =
                    self.metrics.picks_unknown_over_known.saturating_add(1);
                }
            },
            None => {},
        }
    }
}

// ---------------------------------------------------------------------------
// Waiting for paths
// ---------------------------------------------------------------------------
/// What a wait for paths comes to.
#[derive(Clone, Copy, Debug, PartialEq, Eq, Structural)]
pub enum Ready {
    Yes,
    /// Look again after a poll interval or when a path joins.
    Wait,
    Failed(SessionError),
}

/// Paths that are alive with a measured RTT.
pub open spec fn measured_count(ps: Seq<PathState>) -> nat
    decreases ps.len(),
{
    if ps.len() == 0 {
        0
    } else {
        measured_count(ps.drop_last()) + if ps.last().stat.measured() {
            1nat
        } else {
            0nat
        }
    }
}

/// Enough comes before death, death before the timeout.
pub open spec fn ready_of(have: nat, want: nat, dead: bool, waited: u64, timeout: u64) -> Ready {
    if have >= want {
        Ready::Yes
    } else if dead {
        Ready::Failed(SessionError::Dead)
    } else if waited >= timeout {
        Ready::Failed(SessionError::NoPath)
    } else {
        Ready::Wait
    }
}

fn decide_ready(have: usize, want: usize, dead: bool, waited: u64, timeout: u64) -> (r: Ready)
    ensures
        r == ready_of(have as nat, want as nat, dead, waited, timeout),
{
    if have >= want {
        Ready::Yes
    } else if dead {
        Ready::Failed(SessionError::Dead)
    } else if waited >= timeout {
        Ready::Failed(SessionError::NoPath)
    } else {
        Ready::Wait
    }
}

impl Session {
    /// At least `n` connections are alive; their RTT may still be unknown.
    pub fn wait_alive(&self, n: usize, waited: u64, timeout: u64) -> (r: Ready)
        ensures
            r == ready_of(
                alive_count(self.paths@),
                n as nat,
                self.marks.dead,
                waited,
                timeout,
            ),
    {
        decide_ready(alive_path_count(&self.paths), n, self.marks.dead, waited, timeout)
    }

    pub fn wait_ready(&self, waited: u64, timeout: u64) -> (r: Ready)
        ensures
            r == ready_of(alive_count(self.paths@), 1, self.marks.dead, waited, timeout),
    {
        self.wait_alive(1, waited, timeout)
    }

    /// At least `n` paths are alive and have a measured RTT.
    pub fn wait_paths(&self, n: usize, waited: u64, timeout: u64) -> (r: Ready)
        ensures
            r == ready_of(
                measured_count(self.paths@),
                n as nat,
                self.marks.dead,
                waited,
                timeout,
            ),
    {
        let mut known: usize = 0;
        let mut i: usize = 0;
        assert(self.paths@.take(0) =~= seq![]);
        while i < self.paths.len()
            invariant
                i <= self.paths@.len(),
                known == measured_count(self.paths@.take(i as int)),
                known <= i,
            decreases self.paths.len() - i,
        {
            assert(self.paths@.take(i as int + 1).drop_last() =~= self.paths@.take(i as int));
            if self.paths[i].stat.is_alive() && self.paths[i].stat.is_rtt_known() {
                known += 1;
            }
            i += 1;
        }
        assert(self.paths@.take(self.paths@.len() as int) =~= self.paths@);
        decide_ready(known, n, self.marks.dead, waited, timeout)
    }

    /// A connection joins: not a dead session, and not one that is full. The
    /// result is its path id.
    pub fn start_path(&mut self, name: String, link: String, stat: PathStat) -> (r: Option<u32>)
        requires
            old(self).wf(),
            !old(self).marks.dead && old(self).paths@.len() < old(self).cfg.max_paths ==> {
                &&& old(self).marks.next_path_id < u32::MAX
                &&& index_of(old(self).paths@, old(self).marks.next_path_id) is None
            },
        ensures
            final(self).wf(),
            r == if old(self).marks.dead || old(self).paths@.len() >= old(self).cfg.max_paths {
                None
            } else {
                Some(old(self).marks.next_path_id)
            },
            match r {
                Some(id) => {
                    &&& *final(self) == (Session {
                        paths: final(self).paths,
                        marks: Marks {
                            next_path_id: (id + 1) as u32,
                            all_down_since: None,
                            ..old(self).marks
                        },
                        metrics: Counters {
                            path_added: plus(old(self).metrics.path_added, 1),
                            ..old(self).metrics
                        },
                        ..*old(self)
                    })
                    &&& final(self).paths@.len() == old(self).paths@.len() + 1
                    &&& final(self).paths@.drop_last() == old(self).paths@
                    &&& joined(final(self).paths@.last(), id, name@, link@, stat)
                },
                None => *final(self) == *old(self),
            },
    {
        if self.marks.dead || self.paths.len() >= self.cfg.max_paths {
            return None;
        }
        let id: u32 = self.marks.next_path_id;
        let ghost ps = self.paths@;
        self.marks.next_path_id = id + 1;
        self.marks.all_down_since = None;
        self.metrics.path_added = self.metrics.path_added.saturating_add(1);
        self.paths.push(
            PathState {
                id,
                name,
                link,
                stat,
                pending_acks: std::collections::BTreeMap::new(),
                urgent: Vec::new(),
                writer: Vec::new(),
            },
        );
        proof {
            assert(self.paths@.drop_last() =~= ps);
            assert forall|i: int, j: int| 0 <= i < j < self.paths@.len() implies self.paths@[i].id
                != self.paths@[j].id by {
                if j == ps.len() {
                    assert(ps[i].id != id);
                }
            }
        }
        Some(id)
    }
}

/// A path as it joins: nothing queued, no ACK waiting.
pub open spec fn joined(
    p: PathState,
    id: u32,
    name: Seq<char>,
    link: Seq<char>,
    stat: PathStat,
) -> bool {
    &&& p.id == id
    &&& p.name@ == name
    &&& p.link@ == link
    &&& p.stat == stat
    &&& p.pending_acks@ == Map::<u32, crate::recv::StreamAck>::empty()
    &&& p.urgent@.len() == 0
    &&& p.writer@.len() == 0
}

// ---------------------------------------------------------------------------
// Opening
// ---------------------------------------------------------------------------
/// A stream both ends just opened, at home on `home`.
pub open spec fn opened(st: StreamState, id: u32, window: u32, home: u32, now: u64) -> bool {
    &&& st.id == id
    &&& st.initial_window == window
    &&& st.counters == fresh_counters(window)
    &&& st.recv == fresh_recv()
    &&& st.send == fresh_send()
    &&& st.life == (Lifecycle { sticky: home, ..fresh_life(now) })
    &&& st.paths_used@.len() == 0
    &&& st.unacked@ == Map::<u64, Unacked>::empty()
    &&& st.recv_buf@ == Map::<u64, Vec<u8>>::empty()
}

/// A stream that was opened here, and how its StreamOpen left.
#[derive(Clone, Copy, Debug, PartialEq, Eq, Structural)]
pub struct Opened {
    pub id: u32,
    /// The path that was picked, and whether it took the StreamOpen.
    pub path_id: u32,
    pub sent: bool,
    /// The second path the scheduler named after a refusal, and whether it
    /// took the StreamOpen.
    pub alt: Option<u32>,
    pub alt_sent: bool,
}

impl Opened {
    /// The path that counts as the stream's home.
    pub open spec fn home(self) -> u32 {
        if self.alt_sent {
            self.alt->0
        } else {
            self.path_id
        }
    }
}

/// The memory of a StreamOpen: the picked path, then the path that took it.
pub open spec fn open_entry(
    before: Option<Pending>,
    e: Pending,
    what: What,
    o: Opened,
    now: u64,
) -> bool {
    exists|first: Pending| #[trigger]
        Ledger::remembered(before, first, o.path_id, what, now) && if o.alt_sent {
            exists|again: What| #[trigger]
                same_what(again, what) && Ledger::remembered(Some(first), e, o.alt->0, again, now)
        } else {
            e == first
        }
}

/// A copy of a StreamOpen announcement.
fn copy_open(what: &What) -> (r: What)
    requires
        what is Open,
    ensures
        same_what(r, *what),
        r is Open,
{
    match what {
        What::Open(t) => What::Open(copy_target(t)),
        What::Close { second_closer, final_offset } => What::Close {
            second_closer: *second_closer,
            final_offset: *final_offset,
        },
        What::Reset(reason) => What::Reset(*reason),
    }
}

impl Session {
    /// `n` is this session with the new stream `id` at home on `home`.
    pub open spec fn registers(self, n: Self, id: u32, home: u32, now: u64) -> bool {
        &&& n == (Session { streams: n.streams, paths: n.paths, metrics: n.metrics, ..self })
        &&& n.streams@.contains_key(id)
        &&& n.streams@ == self.streams@.insert(id, n.streams@[id])
        &&& opened(n.streams@[id], id, self.cfg.tuning.initial_window, home, now)
        &&& n.paths@ == moved_home(self.paths@, 0, home)
        &&& n.metrics == (Counters {
            streams_opened: plus(self.metrics.streams_opened, 1),
            ..self.metrics
        })
    }

    pub(crate) fn register(&mut self, id: u32, home: u32, now: u64)
        requires
            old(self).wf(),
            !old(self).streams@.contains_key(id),
        ensures
            final(self).wf(),
            old(self).registers(*final(self), id, home, now),
    {
        let ghost o = *self;
        let mut st: StreamState = StreamState::new(id, self.cfg.tuning.initial_window, now);
        st.set_sticky(&mut self.paths, home, now);
        proof {
            crate::recv::lemma_fresh_recv_wf(st);
            assert(st.send_wf());
        }
        let _ = self.streams.insert(id, st);
        self.metrics.streams_opened = self.metrics.streams_opened.saturating_add(1);
        assert(self.streams@ =~= o.streams@.insert(id, st));
    }

    /// What opening a stream does to this session. A refused StreamOpen gets
    /// one more path at once; else the repeats take it from here.
    pub open spec fn opens<S: Scheduler>(
        self,
        sched: &S,
        n: Self,
        target: Target,
        o: Opened,
        now: u64,
    ) -> bool {
        let id = self.marks.next_stream_id;
        let what = What::Open(target);
        let counted = unknown_pick_counted(
            Counters {
                streams_opened: plus(self.metrics.streams_opened, 1),
                ..self.metrics
            },
            moved_home(self.paths@, 0, o.path_id),
            o.path_id,
        );
        &&& picked(sched, self.paths@, PickPref::Interactive, Some(o.path_id))
        &&& o.id == id
        &&& n.marks == (Marks { next_stream_id: (id + 1) as u32, ..self.marks })
        &&& n == (Session {
            marks: n.marks,
            streams: n.streams,
            paths: n.paths,
            metrics: n.metrics,
            opens: n.opens,
            ..self
        })
        &&& n.streams@.contains_key(id)
        &&& n.streams@ == self.streams@.insert(id, n.streams@[id])
        &&& opened(n.streams@[id], id, self.cfg.tuning.initial_window, o.home(), now)
        &&& n.opens@.contains_key(id)
        &&& n.opens@ == self.opens@.insert(id, n.opens@[id])
        &&& exists|w: What| #[trigger]
            same_what(w, what) && open_entry(entry_of(self.opens@, id), n.opens@[id], w, o, now)
        &&& exists|qs: Seq<PathState>|
            #[trigger] ctl_offered(
                moved_home(self.paths@, 0, o.path_id),
                qs,
                o.path_id,
                id,
                what,
                self.cfg,
                o.sent,
            ) && self.opened_pool(sched, n, qs, what, o, counted)
    }

    /// The pool and the counters after the first offer of a StreamOpen.
    pub open spec fn opened_pool<S: Scheduler>(
        self,
        sched: &S,
        n: Self,
        qs: Seq<PathState>,
        what: What,
        o: Opened,
        counted: Counters,
    ) -> bool {
        if o.sent {
            &&& o.alt is None
            &&& !o.alt_sent
            &&& n.paths@ == picked_on(qs, o.path_id)
            &&& n.metrics == pick_counted(counted, qs, o.path_id)
        } else {
            &&& picked_again(sched, qs, seq![o.path_id], o.alt)
            &&& match o.alt {
                None => !o.alt_sent && n.paths@ == qs && n.metrics == counted,
                Some(alt) => exists|rs: Seq<PathState>|
                    #[trigger] ctl_offered(qs, rs, alt, o.id, what, self.cfg, o.alt_sent)
                        && if o.alt_sent {
                        let home = moved_home(rs, o.path_id, alt);
                        &&& n.paths@ == picked_on(home, alt)
                        &&& n.metrics == pick_counted(counted, home, alt)
                    } else {
                        n.paths@ == rs && n.metrics == counted
                    },
            }
        }
    }

    /// Open a stream to `target`. Only a client opens, and only with a path
    /// picked for it; an id is spent either way.
    pub fn open_stream<S: Scheduler>(&mut self, target: Target, sched: &S, now: u64) -> (r: Result<
        Opened,
        SessionError,
    >)
        requires
            old(self).wf(),
            old(self).is_client ==> {
                &&& old(self).marks.next_stream_id < u32::MAX
                &&& !old(self).streams@.contains_key(old(self).marks.next_stream_id)
            },
        ensures
            final(self).wf(),
            match r {
                Ok(o) => old(self).is_client && old(self).opens(sched, *final(self), target, o, now),
                Err(SessionError::ServerCannotOpen) => !old(self).is_client && *final(self) == *old(
                    self,
                ),
                Err(SessionError::NoPath) => {
                    &&& old(self).is_client
                    &&& picked(sched, old(self).paths@, PickPref::Interactive, None)
                    &&& *final(self) == (Session {
                        marks: Marks {
                            next_stream_id: (old(self).marks.next_stream_id + 1) as u32,
                            ..old(self).marks
                        },
                        ..*old(self)
                    })
                },
                Err(_) => false,
            },
    {
        if !self.is_client {
            return Err(SessionError::ServerCannotOpen);
        }
        let ghost s0 = *self;
        let id: u32 = self.marks.next_stream_id;
        self.marks.next_stream_id = id + 1;
        let first: Option<u32> = sched.pick_pref(&self.paths, PickPref::Interactive);
        assert(picked(sched, s0.paths@, PickPref::Interactive, first));
        let path_id: u32 = match first {
            Some(p) => p,
            None => {
                return Err(SessionError::NoPath);
            },
        };
        self.register(id, path_id, now);
        let ghost m0 = *self;
        self.note_unknown_pick(path_id);
        let ghost m1 = *self;
        let o: Opened = self.announce_open(id, path_id, What::Open(target), sched, now);
        proof {
            assert(self.streams@ =~= s0.streams@.insert(id, self.streams@[id]));
        }
        Ok(o)
    }

    /// What the first offers of a StreamOpen do to a session that registered
    /// the stream.
    pub open spec fn announces_open<S: Scheduler>(
        self,
        sched: &S,
        n: Self,
        what: What,
        o: Opened,
        now: u64,
    ) -> bool {
        let id = o.id;
        &&& n == (Session {
            streams: n.streams,
            paths: n.paths,
            metrics: n.metrics,
            opens: n.opens,
            ..self
        })
        &&& n.streams@.contains_key(id)
        &&& n.streams@ == self.streams@.insert(id, n.streams@[id])
        &&& opened(n.streams@[id], id, self.cfg.tuning.initial_window, o.home(), now)
        &&& n.opens@.contains_key(id)
        &&& n.opens@ == self.opens@.insert(id, n.opens@[id])
        &&& exists|w: What| #[trigger]
            same_what(w, what) && open_entry(entry_of(self.opens@, id), n.opens@[id], w, o, now)
        &&& exists|qs: Seq<PathState>|
            #[trigger] ctl_offered(self.paths@, qs, o.path_id, id, what, self.cfg, o.sent)
                && self.opened_pool(sched, n, qs, what, o, self.metrics)
    }

    fn announce_open<S: Scheduler>(
        &mut self,
        id: u32,
        path_id: u32,
        what: What,
        sched: &S,
        now: u64,
    ) -> (o: Opened)
        requires
            old(self).wf(),
            what is Open,
            old(self).streams@.contains_key(id),
            opened(
                old(self).streams@[id],
                id,
                old(self).cfg.tuning.initial_window,
                path_id,
                now,
            ),
        ensures
            final(self).wf(),
            o.id == id,
            o.path_id == path_id,
            old(self).announces_open(sched, *final(self), what, o, now),
    {
        let ghost s0 = *self;
        let first_what: What = copy_open(&what);
        let ghost w = first_what;
        self.opens.remember(id, path_id, first_what, now);
        let ghost first = self.opens@[id];
        assert(Ledger::remembered(entry_of(s0.opens@, id), first, path_id, w, now));
        assert(same_what(w, what));
        let sent: bool = offer_what(&mut self.paths, path_id, id, &what, &self.cfg);
        let ghost qs = self.paths@;
        assert(ctl_offered(s0.paths@, qs, path_id, id, what, s0.cfg, sent));
        if sent {
            self.note_pick(path_id);
            let o: Opened = Opened { id, path_id, sent, alt: None, alt_sent: false };
            proof {
                assert(s0.streams@ =~= s0.streams@.insert(id, self.streams@[id]));
                assert(self.opens@[id] == first);
                assert(Ledger::remembered(entry_of(s0.opens@, id), first, o.path_id, w, now));
                assert(open_entry(entry_of(s0.opens@, id), self.opens@[id], w, o, now));
                assert(s0.opened_pool(sched, *self, qs, what, o, s0.metrics));
            }
            return o;
        }
        let mut tried: Vec<u32> = Vec::new();
        tried.push(path_id);
        let alt: Option<u32> = sched.pick_retry(&self.paths, &tried);
        proof {
            assert(tried@ =~= seq![path_id]);
            assert(picked_again(sched, qs, seq![path_id], alt));
        }
        match alt {
            Some(to) => {
                let alt_sent: bool = offer_what(&mut self.paths, to, id, &what, &self.cfg);
                let ghost rs = self.paths@;
                assert(ctl_offered(qs, rs, to, id, what, s0.cfg, alt_sent));
                let o: Opened = Opened { id, path_id, sent, alt, alt_sent };
                if alt_sent {
                    self.make_home(id, to, now);
                    let again: What = copy_open(&what);
                    let ghost w2 = again;
                    self.opens.remember(id, to, again, now);
                    assert(same_what(w2, w));
                    assert(Ledger::remembered(Some(first), self.opens@[id], to, w2, now));
                    self.note_pick(to);
                    assert(self.opens@ =~= s0.opens@.insert(id, self.opens@[id]));
                    assert(s0.streams@[id].steerable());
                    assert(self.paths@ == picked_on(moved_home(rs, path_id, to), to));
                    assert(self.metrics == pick_counted(
                        s0.metrics,
                        moved_home(rs, path_id, to),
                        to,
                    ));
                }
                proof {
                    assert(ctl_offered(qs, rs, to, o.id, what, s0.cfg, o.alt_sent));
                    assert(Ledger::remembered(entry_of(s0.opens@, id), first, o.path_id, w, now));
                    assert(self.streams@ =~= s0.streams@.insert(id, self.streams@[id]));
                    assert(open_entry(entry_of(s0.opens@, id), self.opens@[id], w, o, now));
                    assert(s0.opened_pool(sched, *self, qs, what, o, s0.metrics));
                }
                o
            },
            None => {
                let o: Opened = Opened { id, path_id, sent, alt, alt_sent: false };
                proof {
                    assert(Ledger::remembered(entry_of(s0.opens@, id), first, o.path_id, w, now));
                    assert(s0.streams@ =~= s0.streams@.insert(id, self.streams@[id]));
                    assert(open_entry(entry_of(s0.opens@, id), self.opens@[id], w, o, now));
                    assert(s0.opened_pool(sched, *self, qs, what, o, s0.metrics));
                }
                o
            },
        }
    }
}

/// Readiness: enough measured paths make a session ready; without them a dead
/// session fails as dead, and one that waited for its timeout for want of a
/// path.
pub proof fn law_when_a_session_is_ready(have: nat, want: nat, dead: bool, waited: u64, timeout: u64)
    ensures
        ready_of(have, want, dead, waited, timeout) is Yes <==> have >= want,
        have < want && dead ==> ready_of(have, want, dead, waited, timeout) == Ready::Failed(
            SessionError::Dead,
        ),
        have < want && !dead && waited >= timeout ==> ready_of(have, want, dead, waited, timeout)
            == Ready::Failed(SessionError::NoPath),
        have < want && !dead && waited < timeout ==> ready_of(have, want, dead, waited, timeout)
            is Wait,
{
}

/// Every path that is alive and has an RTT counts as measured, and no other.
pub proof fn law_measured_paths_are_counted(ps: Seq<PathState>, p: PathState)
    ensures
        measured_count(ps.push(p)) == measured_count(ps) + if p.stat.state
            != crate::path::Health::Down && p.stat.rtt_us > 0 {
            1nat
        } else {
            0
        },
        measured_count(seq![]) == 0,
{
    assert(ps.push(p).drop_last() =~= ps);
}

/// An opened stream is a new one under the next id, at home on the path that
/// took its Open, or on the first one where none did.
pub proof fn law_an_opened_stream_is_new<S: Scheduler>(
    sched: &S,
    o: Session,
    n: Session,
    target: Target,
    out: Opened,
    now: u64,
)
    requires
        o.opens(sched, n, target, out, now),
        o.marks.next_stream_id < u32::MAX,
    ensures
        ({
            let id = o.marks.next_stream_id;
            let st = n.streams@[id];
            &&& out.id == id
            &&& n.marks.next_stream_id == id + 1
            &&& n.streams@.contains_key(id)
            &&& st.id == id
            &&& st.counters.send_next == 0 && st.counters.recv_next == 0
            &&& st.counters.send_window == o.cfg.tuning.initial_window
            &&& st.counters.recv_cap == o.cfg.tuning.initial_window
            &&& st.life.sticky == if out.alt_sent {
                out.alt->0
            } else {
                out.path_id
            }
            &&& !st.life.reset
            &&& n.opens@.contains_key(id)
            &&& n.opens@[id].path_id == st.life.sticky
            &&& n.opens@[id].sent_at == now
            &&& out.sent ==> !out.alt_sent
            &&& forall|k: u32|
                k != id && o.streams@.contains_key(k) ==> n.streams@.contains_key(k)
                    && #[trigger] n.streams@[k] == o.streams@[k]
        }),
{
}

} // verus!
