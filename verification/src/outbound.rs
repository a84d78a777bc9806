//! Sending application data: the window gate, the path choice, the queue.

use vstd::prelude::*;

use crate::cfg::SessionConfig;
use crate::hol::{hol_place_bulk, interactive_conns, lists_interactive, places_bulk, HolPlace};
use crate::metrics::{plus, Counters};
use crate::num::larger;
use crate::path::{
    bulk_affinity, distinct_ids, get_path, has_alive_path, interactive_affinity, keeps_bulk,
    stat_of, PathStat, PathState,
};
use crate::pool::{loaded, moved_home, put_stat, with_stat};
use crate::sched::{classed, found_room, picked, spilled, PickPref, Scheduler};
use crate::send::{fresh_piece, stamp_delivered, stamped_path};
use crate::session::{Session, SessionError};
use crate::stream::{used_after, SendState, StreamCounters, StreamState, Unacked};

verus! {

broadcast use vstd::laws_cmp::group_laws_cmp;

// ---------------------------------------------------------------------------
// The window gate
// ---------------------------------------------------------------------------
#[derive(Clone, Copy, Debug, PartialEq, Eq, Structural)]
pub enum Gate {
    /// The next piece may hold this many bytes.
    Open(usize),
    /// The peer's window is closed; wait for an ACK or the all-down timeout.
    Closed,
}

/// Some path is alive.
pub open spec fn any_alive(ps: Seq<PathState>) -> bool {
    exists|i: int| 0 <= i < ps.len() && (#[trigger] ps[i]).stat.alive()
}

impl Session {
    /// A stream takes application data where it is known and not reset.
    pub open spec fn begin_answer(self, id: u32) -> Result<(), SessionError> {
        if !self.streams@.contains_key(id) {
            Err(SessionError::UnknownStream)
        } else if self.streams@[id].life.reset {
            Err(SessionError::Reset)
        } else {
            Ok(())
        }
    }

    pub fn begin_send(&self, id: u32) -> (r: Result<(), SessionError>)
        ensures
            r == self.begin_answer(id),
    {
        match self.streams.get(&id) {
            Some(st) => if st.life.reset {
                Err(SessionError::Reset)
            } else {
                Ok(())
            },
            None => Err(SessionError::UnknownStream),
        }
    }

    /// The wait of stream `id` for the peer's window is counted; `room` says
    /// that some path could have taken the bytes.
    pub open spec fn window_blocked(self, n: Self, id: u32, room: bool) -> bool {
        let st = self.streams@[id];
        let one: int = if room {
            1
        } else {
            0
        };
        &&& n == (Session { streams: n.streams, metrics: n.metrics, ..self })
        &&& n.metrics == (Counters {
            window_blocks: plus(self.metrics.window_blocks, 1),
            send_window_limited_with_room: plus(self.metrics.send_window_limited_with_room, one),
            ..self.metrics
        })
        &&& n.streams@ == self.streams@.insert(
            id,
            StreamState {
                counters: StreamCounters {
                    window_blocks: plus(st.counters.window_blocks, 1),
                    window_limited_with_room: plus(st.counters.window_limited_with_room, one),
                    ..st.counters
                },
                ..st
            },
        )
    }

    /// What the window gate answers for `remaining` bytes of stream `id`.
    pub open spec fn gates<S: Scheduler>(
        self,
        sched: &S,
        n: Self,
        id: u32,
        remaining: nat,
        waited: bool,
        expired: bool,
        r: Result<Gate, SessionError>,
        room: Option<bool>,
    ) -> bool {
        let st = self.streams@[id];
        if !self.streams@.contains_key(id) {
            r == Err::<Gate, SessionError>(SessionError::Reset) && n == self && room is None
        } else {
            match st.piece_len_of(remaining, self.cfg.max_stream_payload as nat) {
                Some(len) => {
                    &&& r == Ok::<Gate, SessionError>(Gate::Open(len as usize))
                    &&& n == self
                    &&& room is None
                },
                None => if expired && !any_alive(self.paths@) {
                    &&& r == Err::<Gate, SessionError>(SessionError::NoPath)
                    &&& n == self
                    &&& room is None
                } else {
                    &&& r == if self.marks.dead || st.life.reset {
                        Err::<Gate, SessionError>(SessionError::Reset)
                    } else {
                        Ok(Gate::Closed)
                    }
                    &&& if waited {
                        n == self && room is None
                    } else {
                        room is Some && found_room(sched, self.paths@, room->0)
                            && self.window_blocked(n, id, room->0)
                    }
                },
            }
        }
    }

    /// May stream `id` send now, and how much of `remaining` bytes? `waited`
    /// says that this wait was counted already, `expired` that the all-down
    /// timeout ran out. The second result is what the scheduler said of room,
    /// where it was asked.
    pub fn window_gate<S: Scheduler>(
        &mut self,
        id: u32,
        remaining: usize,
        waited: bool,
        expired: bool,
        sched: &S,
    ) -> (r: (Result<Gate, SessionError>, Option<bool>))
        requires
            old(self).wf(),
        ensures
            final(self).wf(),
            old(self).gates(sched, *final(self), id, remaining as nat, waited, expired, r.0, r.1),
    {
        let (len, reset): (Option<usize>, bool) = match self.streams.get(&id) {
            Some(st) => (st.next_piece_len(remaining, &self.cfg), st.life.reset),
            None => {
                return (Err(SessionError::Reset), None);
            },
        };
        match len {
            Some(n) => (Ok(Gate::Open(n)), None),
            None => {
                if expired && !has_alive_path(&self.paths) {
                    return (Err(SessionError::NoPath), None);
                }
                let r: Result<Gate, SessionError> = if self.marks.dead || reset {
                    Err(SessionError::Reset)
                } else {
                    Ok(Gate::Closed)
                };
                if waited {
                    return (r, None);
                }
                let room: bool = sched.any_bulk_room(&self.paths);
                assert(found_room(sched, self.paths@, room));
                self.note_window_block(id, room);
                (r, Some(room))
            },
        }
    }

    fn note_window_block(&mut self, id: u32, room: bool)
        requires
            old(self).wf(),
            old(self).streams@.contains_key(id),
        ensures
            final(self).wf(),
            old(self).window_blocked(*final(self), id, room),
    {
        let ghost o = *self;
        self.metrics.window_blocks = self.metrics.window_blocks.saturating_add(1);
        if room {
            self.metrics.send_window_limited_with_room =
            self.metrics.send_window_limited_with_room.saturating_add(1);
        }
        match self.streams.remove(&id) {
            Some(stream) => {
                let mut st: StreamState = stream;
                st.note_window_block(room);
                assert(st.recv_wf() && st.send_wf());
                let _ = self.streams.insert(id, st);
                assert(self.streams@ =~= o.streams@.insert(id, st));
            },
            None => {},
        }
    }

    /// Give the next `n` bytes of stream `id` their offset.
    pub fn cut_piece(&mut self, id: u32, n: u64) -> (r: Option<u64>)
        requires
            old(self).wf(),
            old(self).streams@.contains_key(id) ==> old(self).streams@[id].counters.send_next + n
                <= u64::MAX,
        ensures
            final(self).wf(),
            match r {
                Some(offset) => {
                    let st = old(self).streams@[id];
                    &&& old(self).streams@.contains_key(id)
                    &&& offset == st.counters.send_next
                    &&& *final(self) == (Session { streams: final(self).streams, ..*old(self) })
                    &&& final(self).streams@ == old(self).streams@.insert(
                        id,
                        StreamState {
                            counters: StreamCounters {
                                send_next: (st.counters.send_next + n) as u64,
                                ..st.counters
                            },
                            ..st
                        },
                    )
                },
                None => !old(self).streams@.contains_key(id) && *final(self) == *old(self),
            },
    {
        let ghost o = *self;
        if !self.streams.contains_key(&id) {
            return None;
        }
        match self.streams.remove(&id) {
            Some(stream) => {
                let mut st: StreamState = stream;
                let offset: u64 = st.cut_piece(n);
                assert(st.recv_wf());
                let _ = self.streams.insert(id, st);
                assert(self.streams@ =~= o.streams@.insert(id, st));
                Some(offset)
            },
            None => None,
        }
    }
}

// ---------------------------------------------------------------------------
// The path of a piece
// ---------------------------------------------------------------------------
/// The path a piece takes, and what the scheduler was asked on the way.
pub struct Choice {
    pub picked: Option<u32>,
    /// The piece rides a sibling; the stream keeps its home.
    pub overflow: bool,
    pub class: Option<Vec<u32>>,
    pub spill: Option<Option<u32>>,
    pub room: Option<bool>,
    pub pick: Option<Option<u32>>,
}

/// The home of a bulk stream while it works and has room.
pub open spec fn roomy_home(ps: Seq<PathState>, home: u32) -> Option<u32> {
    match stat_of(ps, home) {
        Some(p) => if home != 0 && keeps_bulk(p) && p.room >= 1 {
            Some(home)
        } else {
            None
        },
        None => None,
    }
}

/// The home of a small stream while it is one of the class.
pub open spec fn class_home(ps: Seq<PathState>, home: u32, class: Seq<u32>) -> Option<u32> {
    match stat_of(ps, home) {
        Some(p) => if home != 0 && p.schedulable && p.loss_fresh && class.contains(home) {
            Some(home)
        } else {
            None
        },
        None => None,
    }
}

/// A small stream keeps its home, else takes the scheduler's pick. A bulk
/// stream keeps its home while that has room, else spills to a sibling, else
/// takes the pick, if there is room anywhere.
pub open spec fn chooses<S: Scheduler>(
    sched: &S,
    ps: Seq<PathState>,
    m: Map<u32, StreamState>,
    cfg: SessionConfig,
    home: u32,
    bulk: bool,
    c: Choice,
    now_ms: int,
) -> bool {
    if !bulk {
        &&& c.class is Some
        &&& classed(sched, ps, c.class->0)
        &&& !c.overflow
        &&& c.spill is None
        &&& c.room is None
        &&& match class_home(ps, home, c.class->0@) {
            Some(h) => c.picked == Some(h) && c.pick is None,
            None => {
                &&& c.pick is Some
                &&& c.picked == c.pick->0
                &&& picked(sched, ps, PickPref::Interactive, c.pick->0)
            },
        }
    } else {
        &&& c.class is None
        &&& match roomy_home(ps, home) {
            Some(h) => {
                &&& c.picked == Some(h)
                &&& !c.overflow
                &&& c.spill is None
                &&& c.room is None
                &&& c.pick is None
            },
            None => {
                &&& c.spill is Some
                &&& exists|small: Seq<u32>| #[trigger]
                    lists_interactive(small, ps, m, cfg, now_ms) && spilled(
                        sched,
                        ps,
                        home,
                        small,
                        c.spill->0,
                    )
                &&& c.overflow == (c.spill->0 is Some)
                &&& match c.spill->0 {
                    Some(alt) => c.picked == Some(alt) && c.room is None && c.pick is None,
                    None => {
                        &&& c.room is Some
                        &&& found_room(sched, ps, c.room->0)
                        &&& c.pick is Some <==> c.room->0
                        &&& c.pick is Some ==> picked(sched, ps, PickPref::Any, c.pick->0)
                        &&& c.picked == match c.pick {
                            Some(p) => p,
                            None => None,
                        }
                    },
                }
            },
        }
    }
}

/// The next step for a piece that was cut.
pub enum Pick {
    Path(Choice),
    /// No path takes it now. `limited` are the paths the wait was charged to,
    /// where it was counted here.
    Wait { choice: Choice, limited: Option<Vec<u32>> },
}

/// `out` lists, in pool order, the alive paths without room.
pub open spec fn lists_full(out: Seq<u32>, ps: Seq<PathState>) -> bool
    decreases ps.len(),
{
    if ps.len() == 0 {
        out.len() == 0
    } else if ps.last().stat.alive() && ps.last().stat.room == 0 {
        &&& out.len() > 0
        &&& out.last() == ps.last().id
        &&& lists_full(out.drop_last(), ps.drop_last())
    } else {
        lists_full(out, ps.drop_last())
    }
}

fn full_paths(paths: &Vec<PathState>) -> (out: Vec<u32>)
    ensures
        lists_full(out@, paths@),
{
    let mut out: Vec<u32> = Vec::new();
    let mut i: usize = 0;
    assert(paths@.take(0) =~= seq![]);
    while i < paths.len()
        invariant
            i <= paths@.len(),
            lists_full(out@, paths@.take(i as int)),
        decreases paths.len() - i,
    {
        assert(paths@.take(i as int + 1).drop_last() =~= paths@.take(i as int));
        let ghost out0 = out@;
        if paths[i].stat.is_alive() && paths[i].stat.room == 0 {
            out.push(paths[i].id);
            assert(out@.drop_last() =~= out0);
        }
        i += 1;
    }
    assert(paths@.take(paths@.len() as int) =~= paths@);
    out
}

impl Session {
    fn choose_path<S: Scheduler>(&self, home: u32, bulk: bool, sched: &S, now: u64) -> (c: Choice)
        requires
            self.wf(),
        ensures
            chooses(
                sched,
                self.paths@,
                self.streams@,
                self.cfg,
                home,
                bulk,
                c,
                now as int / 1000,
            ),
    {
        if !bulk {
            let class: Vec<u32> = sched.interactive_class(&self.paths);
            assert(classed(sched, self.paths@, class));
            let kept: Option<u32> = interactive_affinity(&self.paths, home, &class);
            let pick: Option<Option<u32>> = match kept {
                Some(_) => None,
                None => Some(sched.pick_pref(&self.paths, PickPref::Interactive)),
            };
            proof {
                if pick is Some {
                    assert(picked(sched, self.paths@, PickPref::Interactive, pick->0));
                }
            }
            let taken: Option<u32> = match pick {
                Some(p) => p,
                None => kept,
            };
            return Choice {
                picked: taken,
                overflow: false,
                class: Some(class),
                spill: None,
                room: None,
                pick,
            };
        }
        let kept: Option<u32> = match bulk_affinity(&self.paths, home) {
            Some(h) => match get_path(&self.paths, h) {
                Some(p) => if p.room >= 1 {
                    Some(h)
                } else {
                    None
                },
                None => None,
            },
            None => None,
        };
        if kept.is_some() {
            return Choice {
                picked: kept,
                overflow: false,
                class: None,
                spill: None,
                room: None,
                pick: None,
            };
        }
        let interactive: Vec<u32> = interactive_conns(
            &self.paths,
            &self.streams,
            &self.cfg,
            now / 1000,
        );
        let spill: Option<u32> = sched.bulk_overflow(&self.paths, home, &interactive);
        proof {
            assert(lists_interactive(
                interactive@,
                self.paths@,
                self.streams@,
                self.cfg,
                now as int / 1000,
            ));
            assert(spilled(sched, self.paths@, home, interactive@, spill));
        }
        if spill.is_some() {
            return Choice {
                picked: spill,
                overflow: true,
                class: None,
                spill: Some(spill),
                room: None,
                pick: None,
            };
        }
        let room: bool = sched.any_bulk_room(&self.paths);
        assert(found_room(sched, self.paths@, room));
        let pick: Option<Option<u32>> = if room {
            Some(sched.pick_pref(&self.paths, PickPref::Any))
        } else {
            None
        };
        proof {
            if pick is Some {
                assert(picked(sched, self.paths@, PickPref::Any, pick->0));
            }
        }
        let taken: Option<u32> = match pick {
            Some(p) => p,
            None => None,
        };
        Choice { picked: taken, overflow: false, class: None, spill: Some(spill), room: Some(room), pick }
    }

    /// The wait of stream `id` for a path budget is counted.
    pub open spec fn budget_blocked(self, n: Self, id: u32) -> bool {
        let st = self.streams@[id];
        &&& n == (Session { streams: n.streams, metrics: n.metrics, ..self })
        &&& n.metrics == (Counters {
            send_budget_blocks: plus(self.metrics.send_budget_blocks, 1),
            ..self.metrics
        })
        &&& n.streams@ == self.streams@.insert(
            id,
            StreamState {
                counters: StreamCounters {
                    budget_blocks: plus(st.counters.budget_blocks, 1),
                    ..st.counters
                },
                ..st
            },
        )
    }

    /// `c` is the choice of a path for a piece of `st`.
    pub open spec fn choice_of<S: Scheduler>(
        self,
        sched: &S,
        st: StreamState,
        c: Choice,
        now: u64,
    ) -> bool {
        chooses(
            sched,
            self.paths@,
            self.streams@,
            self.cfg,
            st.life.sticky,
            st.send.bulk,
            c,
            now as int / 1000,
        )
    }

    /// What the search for a path answers. A bulk stream's first wait with a
    /// path alive is charged to the paths without room.
    pub open spec fn picks<S: Scheduler>(
        self,
        sched: &S,
        n: Self,
        id: u32,
        waited: bool,
        parked: u64,
        r: Result<Pick, SessionError>,
        now: u64,
    ) -> bool {
        let st = self.streams@[id];
        let counts = st.send.bulk && !waited && any_alive(self.paths@);
        if !self.streams@.contains_key(id) {
            r matches Err(e) && e is Reset && n == self
        } else {
            match r {
                Ok(Pick::Path(c)) => {
                    &&& self.choice_of(sched, st, c, now)
                    &&& c.picked is Some
                    &&& n == self
                },
                Ok(Pick::Wait { choice, limited }) => {
                    &&& self.choice_of(sched, st, choice, now)
                    &&& choice.picked is None
                    &&& !self.marks.dead && !st.life.reset
                    &&& parked < self.cfg.all_down_timeout || any_alive(self.paths@)
                    &&& match limited {
                        Some(ids) => counts && lists_full(ids@, self.paths@)
                            && self.budget_blocked(n, id),
                        None => !counts && n == self,
                    }
                },
                Err(SessionError::Reset) => {
                    &&& self.marks.dead || st.life.reset
                    &&& exists|c: Choice| #[trigger] self.choice_of(sched, st, c, now) && c.picked is None
                    &&& n == self
                },
                Err(SessionError::NoPath) => {
                    &&& !self.marks.dead && !st.life.reset
                    &&& parked >= self.cfg.all_down_timeout && !any_alive(self.paths@)
                    &&& exists|c: Choice| #[trigger] self.choice_of(sched, st, c, now) && c.picked is None
                    &&& n == self
                },
                Err(_) => false,
            }
        }
    }

    /// Look for a path for a piece of stream `id` that has been parked for
    /// `parked`; `waited` says that its wait was counted already.
    pub fn pick_send_path<S: Scheduler>(
        &mut self,
        id: u32,
        waited: bool,
        parked: u64,
        sched: &S,
        now: u64,
    ) -> (r: Result<Pick, SessionError>)
        requires
            old(self).wf(),
        ensures
            final(self).wf(),
            old(self).picks(sched, *final(self), id, waited, parked, r, now),
    {
        let (home, bulk, reset): (u32, bool, bool) = match self.streams.get(&id) {
            Some(st) => (st.life.sticky, st.send.bulk, st.life.reset),
            None => {
                return Err(SessionError::Reset);
            },
        };
        let choice: Choice = self.choose_path(home, bulk, sched, now);
        assert(self.choice_of(sched, self.streams@[id], choice, now));
        if choice.picked.is_some() {
            return Ok(Pick::Path(choice));
        }
        if self.marks.dead || reset {
            return Err(SessionError::Reset);
        }
        let alive: bool = has_alive_path(&self.paths);
        if parked >= self.cfg.all_down_timeout && !alive {
            return Err(SessionError::NoPath);
        }
        if bulk && !waited && alive {
            let ids: Vec<u32> = full_paths(&self.paths);
            self.note_budget_block(id);
            Ok(Pick::Wait { choice, limited: Some(ids) })
        } else {
            Ok(Pick::Wait { choice, limited: None })
        }
    }

    fn note_budget_block(&mut self, id: u32)
        requires
            old(self).wf(),
            old(self).streams@.contains_key(id),
        ensures
            final(self).wf(),
            old(self).budget_blocked(*final(self), id),
    {
        let ghost o = *self;
        self.metrics.send_budget_blocks = self.metrics.send_budget_blocks.saturating_add(1);
        match self.streams.remove(&id) {
            Some(stream) => {
                let mut st: StreamState = stream;
                st.note_budget_block();
                assert(st.recv_wf() && st.send_wf());
                let _ = self.streams.insert(id, st);
                assert(self.streams@ =~= o.streams@.insert(id, st));
            },
            None => {},
        }
    }
}

// ---------------------------------------------------------------------------
// Onto the queue
// ---------------------------------------------------------------------------
/// Where a piece goes once head-of-line placement had its say.
pub struct Prepared {
    pub path_id: u32,
    /// The stream makes that path its home.
    pub stick: bool,
    /// The placement, where this piece made the stream bulk.
    pub hol: Option<HolPlace>,
}

/// The stream with its size class noted.
pub open spec fn sized(st: StreamState, len: nat, cfg: SessionConfig) -> StreamState {
    StreamState {
        send: SendState { bulk: st.send.bulk || len > cfg.tuning.interactive_max, ..st.send },
        ..st
    }
}

/// What a piece does to its stream: home, paths used, and the piece itself.
pub open spec fn holds_piece(
    st: StreamState,
    n: StreamState,
    offset: u64,
    u: Unacked,
    path_id: u32,
    stick: bool,
    now: u64,
) -> bool {
    &&& n.unacked@ == st.unacked@.insert(offset, u)
    &&& n.paths_used@ == used_after(st.paths_used@, path_id)
    &&& n == (StreamState {
        life: if stick {
            st.rehomed_life(path_id, now)
        } else {
            st.life
        },
        paths_used: n.paths_used,
        unacked: n.unacked,
        ..st
    })
}

/// A new piece with the ACK clock of its path, where that is known.
pub open spec fn stamped_piece(
    u: Unacked,
    data: Seq<u8>,
    path_id: u32,
    p: Option<PathStat>,
    now: u64,
) -> bool {
    match p {
        Some(s) => {
            &&& fresh_piece(
                (Unacked {
                    delivered_at_send: 0,
                    delivered_time_at_send_us: 0,
                    sent_us: 0,
                    first_tx_at_send_us: 0,
                    ..u
                }),
                data,
                path_id,
                now,
            )
            &&& u.delivered_at_send == s.delivered
            &&& u.delivered_time_at_send_us == s.delivered_at_us
            &&& u.sent_us == larger(now as int, 1)
            &&& u.first_tx_at_send_us == s.first_tx_us
        },
        None => fresh_piece(u, data, path_id, now),
    }
}

/// The numbers of a path that takes `len` more bytes.
pub open spec fn taking(p: PathStat, len: nat, now: u64) -> PathStat {
    stamped_path(loaded(p, len as int), len, now)
}

/// The pool once the stream of a piece has its home.
pub open spec fn homed(ps: Seq<PathState>, st: StreamState, path_id: u32, stick: bool) -> Seq<
    PathState,
> {
    if stick && st.steerable() {
        moved_home(ps, st.life.sticky, path_id)
    } else {
        ps
    }
}

/// Put a piece into its stream and onto the load of its path.
fn load_onto(
    st: &mut StreamState,
    paths: &mut Vec<PathState>,
    offset: u64,
    data: Vec<u8>,
    path_id: u32,
    now: u64,
)
    requires
        old(st).send_wf(),
        distinct_ids(old(paths)@),
        offset + data@.len() <= old(st).counters.send_next,
    ensures
        final(st).send_wf(),
        distinct_ids(final(paths)@),
        *final(st) == (StreamState { unacked: final(st).unacked, ..*old(st) }),
        final(st).unacked@.contains_key(offset),
        final(st).unacked@ == old(st).unacked@.insert(offset, final(st).unacked@[offset]),
        match stat_of(old(paths)@, path_id) {
            Some(p) => {
                &&& final(paths)@ == with_stat(
                    old(paths)@,
                    path_id,
                    taking(p, data@.len(), now),
                )
                &&& stamped_piece(
                    final(st).unacked@[offset],
                    data@,
                    path_id,
                    Some(taking(p, data@.len(), now)),
                    now,
                )
            },
            None => {
                &&& final(paths)@ == old(paths)@
                &&& stamped_piece(final(st).unacked@[offset], data@, path_id, None, now)
            },
        },
{
    let ghost bytes = data@;
    let ghost st0 = *st;
    st.place_piece(offset, data, path_id, now);
    match get_path(paths, path_id) {
        Some(stat) => {
            let mut p: PathStat = stat;
            match st.unacked.remove(&offset) {
                Some(piece) => {
                    let mut u: Unacked = piece;
                    p.add_inflight(u.data.len() as u64);
                    stamp_delivered(&mut u, &mut p, now);
                    put_stat(paths, path_id, p);
                    assert(u.data@ == bytes);
                    assert(p == taking(stat, bytes.len(), now));
                    let _ = st.unacked.insert(offset, u);
                    assert(st.unacked@ =~= st0.unacked@.insert(offset, u));
                },
                None => {
                    assert(false);
                },
            }
        },
        None => {},
    }
}

impl Session {
    /// `n` is this session once the size of a piece was noted: a piece that
    /// makes the stream bulk is placed away from small frames.
    pub open spec fn prepares<S: Scheduler>(
        self,
        sched: &S,
        n: Self,
        id: u32,
        len: nat,
        path_id: u32,
        overflow: bool,
        p: Prepared,
        now: u64,
    ) -> bool {
        let st = self.streams@[id];
        let becomes_bulk = len > self.cfg.tuning.interactive_max && !st.send.bulk;
        &&& n == (Session { streams: n.streams, metrics: n.metrics, ..self })
        &&& n.streams@ == self.streams@.insert(id, sized(st, len, self.cfg))
        &&& p.hol is Some <==> becomes_bulk
        &&& p.hol is Some ==> places_bulk(
            sched,
            self.paths@,
            path_id,
            n.streams@,
            self.cfg,
            now as int / 1000,
            p.hol->0,
        )
        &&& match p.hol {
            Some(place) => match place.dest {
                Some(dest) => {
                    &&& p.path_id == dest
                    &&& p.stick
                    &&& n.metrics == (Counters {
                        hol_rebalances: plus(self.metrics.hol_rebalances, 1),
                        ..self.metrics
                    })
                },
                None => p.path_id == path_id && p.stick == !overflow && n.metrics == self.metrics,
            },
            None => p.path_id == path_id && p.stick == !overflow && n.metrics == self.metrics,
        }
    }

    pub(crate) fn prepare<S: Scheduler>(
        &mut self,
        id: u32,
        len: usize,
        path_id: u32,
        overflow: bool,
        sched: &S,
        now: u64,
    ) -> (p: Prepared)
        requires
            old(self).wf(),
            old(self).streams@.contains_key(id),
        ensures
            final(self).wf(),
            old(self).prepares(sched, *final(self), id, len as nat, path_id, overflow, p, now),
    {
        let ghost o = *self;
        let mut becoming_bulk: bool = false;
        match self.streams.remove(&id) {
            Some(stream) => {
                let mut st: StreamState = stream;
                becoming_bulk = st.note_piece_size(len, &self.cfg);
                assert(st == sized(o.streams@[id], len as nat, o.cfg));
                assert(st.recv_wf() && st.send_wf());
                let _ = self.streams.insert(id, st);
                assert(self.streams@ =~= o.streams@.insert(id, st));
            },
            None => {},
        }
        if !becoming_bulk {
            return Prepared { path_id, stick: !overflow, hol: None };
        }
        let place: HolPlace = hol_place_bulk(
            &self.paths,
            path_id,
            &self.streams,
            &self.cfg,
            sched,
            now / 1000,
        );
        match place.dest {
            Some(dest) => {
                self.metrics.hol_rebalances = self.metrics.hol_rebalances.saturating_add(1);
                Prepared { path_id: dest, stick: true, hol: Some(place) }
            },
            None => Prepared { path_id, stick: !overflow, hol: Some(place) },
        }
    }

    /// `n` is this session once a piece sits in its stream and on the load of
    /// its path.
    pub open spec fn loads(
        self,
        n: Self,
        id: u32,
        offset: u64,
        data: Seq<u8>,
        path_id: u32,
        stick: bool,
        now: u64,
    ) -> bool {
        let st = self.streams@[id];
        let ps = homed(self.paths@, st, path_id, stick);
        &&& n == (Session { streams: n.streams, paths: n.paths, ..self })
        &&& n.streams@.contains_key(id)
        &&& n.streams@ == self.streams@.insert(id, n.streams@[id])
        &&& n.streams@[id].unacked@.contains_key(offset)
        &&& holds_piece(
            st,
            n.streams@[id],
            offset,
            n.streams@[id].unacked@[offset],
            path_id,
            stick,
            now,
        )
        &&& match stat_of(ps, path_id) {
            Some(p) => {
                &&& n.paths@ == with_stat(ps, path_id, taking(p, data.len(), now))
                &&& stamped_piece(
                    n.streams@[id].unacked@[offset],
                    data,
                    path_id,
                    Some(taking(p, data.len(), now)),
                    now,
                )
            },
            None => {
                &&& n.paths@ == ps
                &&& stamped_piece(n.streams@[id].unacked@[offset], data, path_id, None, now)
            },
        }
    }

    pub(crate) fn load_piece(
        &mut self,
        id: u32,
        offset: u64,
        data: Vec<u8>,
        path_id: u32,
        stick: bool,
        now: u64,
    )
        requires
            old(self).wf(),
            old(self).streams@.contains_key(id),
            offset + data@.len() <= old(self).streams@[id].counters.send_next,
        ensures
            final(self).wf(),
            old(self).loads(*final(self), id, offset, data@, path_id, stick, now),
    {
        let ghost o = *self;
        let ghost bytes = data@;
        match self.streams.remove(&id) {
            Some(stream) => {
                let mut st: StreamState = stream;
                let ghost st0 = st;
                if stick {
                    st.set_sticky(&mut self.paths, path_id, now);
                }
                assert(self.paths@ == homed(o.paths@, st0, path_id, stick));
                st.note_path_used(path_id);
                let ghost s1 = st;
                load_onto(&mut st, &mut self.paths, offset, data, path_id, now);
                proof {
                    assert(holds_piece(
                        st0,
                        st,
                        offset,
                        st.unacked@[offset],
                        path_id,
                        stick,
                        now,
                    ));
                    assert(st.recv_wf());
                }
                let _ = self.streams.insert(id, st);
                assert(self.streams@ =~= o.streams@.insert(id, st));
            },
            None => {},
        }
    }
}

/// The window gate: an open window lets a piece through; a shut one makes the
/// stream wait, which is counted once; a dead session or a reset ends it, and so
/// does a wait that ran out with every path down.
pub proof fn law_what_the_gate_answers<S: Scheduler>(
    sched: &S,
    o: Session,
    n: Session,
    id: u32,
    remaining: nat,
    waited: bool,
    expired: bool,
    r: Result<Gate, SessionError>,
    room: Option<bool>,
)
    requires
        o.wf(),
        o.gates(sched, n, id, remaining, waited, expired, r, room),
        o.streams@.contains_key(id),
        1 <= remaining <= usize::MAX,
        o.streams@[id].counters.window_blocks < u64::MAX,
        o.metrics.window_blocks < u64::MAX,
        o.metrics.send_window_limited_with_room < u64::MAX,
    ensures
        ({
            let st = o.streams@[id];
            let open = st.inflight() < st.counters.send_window;
            let dark = forall|i: int|
                0 <= i < o.paths@.len() ==> (#[trigger] o.paths@[i]).stat.state
                    == crate::path::Health::Down;
            &&& open ==> r is Ok && r->Ok_0 is Open && n == o
            &&& r is Ok && r->Ok_0 is Open ==> open
            &&& !open && expired && dark ==> r == Err::<Gate, SessionError>(SessionError::NoPath)
            &&& !open && !(expired && dark) && (o.marks.dead || st.life.reset) ==> r == Err::<
                Gate,
                SessionError,
            >(SessionError::Reset)
            &&& !open && !(expired && dark) && !o.marks.dead && !st.life.reset ==> r == Ok::<
                Gate,
                SessionError,
            >(Gate::Closed)
            &&& !open && !(expired && dark) && !waited ==> n.streams@[id].counters.window_blocks
                == st.counters.window_blocks + 1 && n.metrics.window_blocks
                == o.metrics.window_blocks + 1 && room is Some
                && n.metrics.send_window_limited_with_room
                == o.metrics.send_window_limited_with_room + if room->0 {
                1int
            } else {
                0
            }
            &&& waited ==> n == o
        }),
{
    let st = o.streams@[id];
    crate::send::law_pieces_fill_the_window(st, remaining, o.cfg.max_stream_payload as nat);
    assert(any_alive(o.paths@) <==> !(forall|i: int|
        0 <= i < o.paths@.len() ==> (#[trigger] o.paths@[i]).stat.state
            == crate::path::Health::Down)) by {
        if any_alive(o.paths@) {
            let i = choose|i: int| 0 <= i < o.paths@.len() && (#[trigger] o.paths@[i]).stat.alive();
            assert(o.paths@[i].stat.state != crate::path::Health::Down);
        }
        if !any_alive(o.paths@) {
            assert forall|i: int| 0 <= i < o.paths@.len() implies (#[trigger] o.paths@[i]).stat.state
                == crate::path::Health::Down by {
                assert(!o.paths@[i].stat.alive());
            }
        }
    }
}

/// A bulk stream stays at home while its home is alive, heard of lately and has
/// room, and is neither congested nor unfit for new frames unless its writer is
/// stalled; an interactive one while its home is fit, heard of lately and of
/// the class.
pub proof fn law_when_a_stream_stays_home(ps: Seq<PathState>, i: int, class: Seq<u32>)
    requires
        distinct_ids(ps),
        0 <= i < ps.len(),
        ps[i].id != 0,
    ensures
        ({
            let p = ps[i].stat;
            &&& roomy_home(ps, ps[i].id) == if p.state != crate::path::Health::Down && p.loss_fresh
                && p.room > 0 && (p.write_stalled || !p.congested && p.schedulable) {
                Some(ps[i].id)
            } else {
                None
            }
            &&& class_home(ps, ps[i].id, class) == if p.schedulable && p.loss_fresh && class.contains(
                ps[i].id,
            ) {
                Some(ps[i].id)
            } else {
                None
            }
        }),
{
    assert(crate::path::index_of(ps, ps[i].id) == Some(i));
}

/// Where a bulk piece goes: home where that will do; else to the path that the
/// scheduler spills to, as overflow; else where the scheduler picks, if any
/// path has room at all.
pub proof fn law_where_bulk_goes<S: Scheduler>(
    sched: &S,
    ps: Seq<PathState>,
    m: Map<u32, StreamState>,
    cfg: SessionConfig,
    home: u32,
    c: Choice,
    now_ms: int,
)
    requires
        chooses(sched, ps, m, cfg, home, true, c, now_ms),
    ensures
        roomy_home(ps, home) is Some ==> c.picked == Some(home) && !c.overflow,
        roomy_home(ps, home) is None && c.spill is Some && c.spill->0 is Some ==> c.picked
            == c.spill->0 && c.overflow,
        roomy_home(ps, home) is None && c.spill is Some && c.spill->0 is None ==> !c.overflow
            && c.room is Some && (!c.room->0 ==> c.picked is None) && (c.room->0 ==> c.pick is Some
            && c.picked == c.pick->0),
        roomy_home(ps, home) is None ==> c.spill is Some,
{
}

/// Where a small piece goes: home where that is of the class; else where the
/// scheduler picks.
pub proof fn law_where_small_pieces_go<S: Scheduler>(
    sched: &S,
    ps: Seq<PathState>,
    m: Map<u32, StreamState>,
    cfg: SessionConfig,
    home: u32,
    c: Choice,
    now_ms: int,
)
    requires
        chooses(sched, ps, m, cfg, home, false, c, now_ms),
    ensures
        !c.overflow,
        c.class is Some,
        class_home(ps, home, c.class->0@) is Some ==> c.picked == Some(home),
        class_home(ps, home, c.class->0@) is None ==> c.pick is Some && c.picked == c.pick->0,
{
}

/// A piece over the interactive bound makes its stream bulk for good, and a
/// piece at the bound does not.
pub proof fn law_what_makes_a_stream_bulk(st: StreamState, len: nat, cfg: SessionConfig)
    ensures
        st.send.bulk ==> sized(st, len, cfg).send.bulk,
        len > cfg.tuning.interactive_max ==> sized(st, len, cfg).send.bulk,
        len <= cfg.tuning.interactive_max ==> sized(st, len, cfg).send.bulk == st.send.bulk,
        sized(st, len, cfg).counters == st.counters,
{
}

/// A loaded piece is held under its offset with its bytes, unsent elsewhere,
/// and its bytes are on its path's load.
pub proof fn law_a_loaded_piece_weighs_on_its_path(
    o: Session,
    n: Session,
    id: u32,
    offset: u64,
    data: Seq<u8>,
    i: int,
    now: u64,
)
    requires
        o.wf(),
        o.loads(n, id, offset, data, o.paths@[i].id, false, now),
        o.streams@.contains_key(id),
        0 <= i < o.paths@.len(),
        o.paths@[i].stat.inflight + data.len() <= u64::MAX,
        now > 0,
    ensures
        ({
            let u = n.streams@[id].unacked@[offset];
            let p = n.paths@[i].stat;
            &&& u.data@ == data
            &&& u.path_id == o.paths@[i].id
            &&& u.last_sent == now && u.first_sent == now && u.sent_us == now
            &&& u.tried@ == seq![o.paths@[i].id]
            &&& !u.dropped
            &&& p.inflight == o.paths@[i].stat.inflight + data.len()
            &&& u.delivered_at_send == p.delivered && p.delivered == o.paths@[i].stat.delivered
            &&& o.paths@[i].stat.inflight == 0 ==> p.first_tx_us == now && p.delivered_at_us == now
            &&& n.streams@[id].life == o.streams@[id].life
            &&& n.streams@[id].counters == o.streams@[id].counters
        }),
{
    assert(crate::path::index_of(o.paths@, o.paths@[i].id) == Some(i));
}

/// The paths that a wait is charged to are those alive without room.
pub proof fn law_full_paths_are_listed(out: Seq<u32>, ps: Seq<PathState>, i: int)
    requires
        lists_full(out, ps),
        0 <= i < ps.len(),
        ps[i].stat.state != crate::path::Health::Down,
        ps[i].stat.room == 0,
    ensures
        out.contains(ps[i].id),
    decreases ps.len(),
{
    if i == ps.len() - 1 {
        assert(out[out.len() - 1] == ps[i].id);
    } else if ps.last().stat.alive() && ps.last().stat.room == 0 {
        law_full_paths_are_listed(out.drop_last(), ps.drop_last(), i);
        let k = choose|k: int| 0 <= k < out.len() - 1 && out.drop_last()[k] == ps[i].id;
        assert(out[k] == ps[i].id);
    } else {
        law_full_paths_are_listed(out, ps.drop_last(), i);
    }
}

} // verus!
