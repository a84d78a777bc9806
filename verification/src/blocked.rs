//! Pieces a queue refused: wait, move or mark them.

use vstd::prelude::*;

use crate::frames::{copy_bytes, Frame};
use crate::num::{capped, larger};
use crate::outbound::{homed, Prepared};
use crate::path::{find_path, get_path, index_of, stat_of, PathStat, PathState};
use crate::pool::{put_stat, transferred, with_stat, xfer_inflight};
use crate::sched::{picked_again, Scheduler};
use crate::send::{stamp_delivered, stamped_path};
use crate::session::Session;
use crate::stream::{StreamState, Unacked};
use crate::tried::{after_try, push_tried};
use crate::wire::{pool_accepts, pool_offered, send_on_path};

verus! {

broadcast use vstd::laws_cmp::group_laws_cmp;

// ---------------------------------------------------------------------------
// One piece of one stream
// ---------------------------------------------------------------------------
/// A piece with the ACK clock of the path it was just queued on.
pub open spec fn clocked(u: Unacked, p: PathStat, now: u64) -> Unacked {
    Unacked {
        delivered_at_send: p.delivered,
        delivered_time_at_send_us: p.delivered_at_us,
        sent_us: larger(now as int, 1) as u64,
        first_tx_at_send_us: p.first_tx_us,
        ..u
    }
}

/// A piece that no queue holds: the next retry may take it at once.
pub open spec fn marked_dropped(u: Unacked, now: u64) -> Unacked {
    Unacked { dropped: true, retry_not_before: now, ..u }
}

/// A piece that just reached a queue.
pub open spec fn enqueued(u: Unacked, now: u64) -> Unacked {
    Unacked { last_sent: now, retry_not_before: now, dropped: false, ..u }
}

/// The pool once a piece of `len` bytes was stamped on `path_id`.
pub open spec fn stamped_pool(ps: Seq<PathState>, path_id: u32, len: nat, now: u64) -> Seq<
    PathState,
> {
    match stat_of(ps, path_id) {
        Some(p) => with_stat(ps, path_id, stamped_path(p, len, now)),
        None => ps,
    }
}

/// A piece once it was stamped on `path_id`.
pub open spec fn stamped_by(u: Unacked, ps: Seq<PathState>, path_id: u32, now: u64) -> Unacked {
    match stat_of(ps, path_id) {
        Some(p) => clocked(u, stamped_path(p, u.data@.len(), now), now),
        None => u,
    }
}

impl Session {
    /// The piece of stream `id` at `offset`, while it is unacknowledged.
    pub open spec fn piece(self, id: u32, offset: u64) -> Option<Unacked> {
        if self.streams@.contains_key(id) && self.streams@[id].unacked@.contains_key(offset) {
            Some(self.streams@[id].unacked@[offset])
        } else {
            None
        }
    }

    /// `m` is the stream table with `u` as the piece of stream `id` at
    /// `offset`.
    pub open spec fn with_piece(
        self,
        m: Map<u32, StreamState>,
        id: u32,
        offset: u64,
        u: Unacked,
    ) -> bool {
        let st = self.streams@[id];
        &&& m.contains_key(id)
        &&& m == self.streams@.insert(id, m[id])
        &&& m[id] == (StreamState { unacked: m[id].unacked, ..st })
        &&& m[id].unacked@ == st.unacked@.insert(offset, u)
    }

    fn take_piece(&mut self, id: u32, offset: u64) -> (r: Option<Unacked>)
        requires
            old(self).wf(),
        ensures
            final(self).wf(),
            r == old(self).piece(id, offset),
            match r {
                Some(u) => {
                    let st = old(self).streams@[id];
                    &&& *final(self) == (Session { streams: final(self).streams, ..*old(self) })
                    &&& final(self).streams@.contains_key(id)
                    &&& final(self).streams@ == old(self).streams@.insert(
                        id,
                        final(self).streams@[id],
                    )
                    &&& final(self).streams@[id] == (StreamState {
                        unacked: final(self).streams@[id].unacked,
                        ..st
                    })
                    &&& final(self).streams@[id].unacked@ == st.unacked@.remove(offset)
                },
                None => *final(self) == *old(self),
            },
    {
        let here: bool = match self.streams.get(&id) {
            Some(st) => st.unacked.contains_key(&offset),
            None => false,
        };
        if !here {
            return None;
        }
        let ghost o = *self;
        match self.streams.remove(&id) {
            Some(stream) => {
                let mut st: StreamState = stream;
                let u: Option<Unacked> = st.unacked.remove(&offset);
                assert(st.recv_wf() && st.send_wf());
                let _ = self.streams.insert(id, st);
                assert(self.streams@ =~= o.streams@.insert(id, st));
                u
            },
            None => None,
        }
    }

    fn put_piece(&mut self, id: u32, offset: u64, u: Unacked)
        requires
            old(self).wf(),
            old(self).streams@.contains_key(id),
            offset + u.data@.len() <= old(self).streams@[id].counters.send_next,
        ensures
            final(self).wf(),
            *final(self) == (Session { streams: final(self).streams, ..*old(self) }),
            old(self).with_piece(final(self).streams@, id, offset, u),
    {
        let ghost o = *self;
        match self.streams.remove(&id) {
            Some(stream) => {
                let mut st: StreamState = stream;
                let _ = st.unacked.insert(offset, u);
                assert(st.recv_wf() && st.send_wf());
                let _ = self.streams.insert(id, st);
                assert(self.streams@ =~= o.streams@.insert(id, st));
            },
            None => {},
        }
    }

    /// `n` is this session with the piece at `offset` replaced by `u`.
    pub open spec fn edits(self, n: Self, id: u32, offset: u64, u: Unacked) -> bool {
        &&& n == (Session { streams: n.streams, ..self })
        &&& self.with_piece(n.streams@, id, offset, u)
    }

    proof fn lemma_edit(o: Self, bare: Self, n: Self, id: u32, offset: u64, u: Unacked)
        requires
            o.piece(id, offset) is Some,
            bare.streams@ == o.streams@.insert(id, bare.streams@[id]),
            bare.streams@.contains_key(id),
            bare.streams@[id] == (StreamState {
                unacked: bare.streams@[id].unacked,
                ..o.streams@[id]
            }),
            bare.streams@[id].unacked@ == o.streams@[id].unacked@.remove(offset),
            bare.with_piece(n.streams@, id, offset, u),
        ensures
            o.with_piece(n.streams@, id, offset, u),
    {
        assert(n.streams@ =~= o.streams@.insert(id, n.streams@[id]));
        assert(o.streams@[id].unacked@.remove(offset).insert(offset, u)
            =~= o.streams@[id].unacked@.insert(offset, u));
    }

    /// The piece is in its stream but no queue holds it.
    pub fn note_data_dropped(&mut self, id: u32, offset: u64, now: u64)
        requires
            old(self).wf(),
        ensures
            final(self).wf(),
            old(self).drops(*final(self), id, offset, now),
    {
        let ghost o = *self;
        match self.take_piece(id, offset) {
            Some(piece) => {
                let ghost bare = *self;
                let mut u: Unacked = piece;
                u.dropped = true;
                u.retry_not_before = now;
                assert(o.streams@[id].unacked@.contains_key(offset));
                self.put_piece(id, offset, u);
                proof {
                    Self::lemma_edit(o, bare, *self, id, offset, u);
                }
            },
            None => {},
        }
    }

    /// Keep the retries off a piece until `until`.
    fn pin_retry(&mut self, id: u32, offset: u64, until: u64)
        requires
            old(self).wf(),
        ensures
            final(self).wf(),
            match old(self).piece(id, offset) {
                Some(u) => old(self).edits(
                    *final(self),
                    id,
                    offset,
                    (Unacked { retry_not_before: until, ..u }),
                ),
                None => *final(self) == *old(self),
            },
    {
        let ghost o = *self;
        match self.take_piece(id, offset) {
            Some(piece) => {
                let ghost bare = *self;
                let mut u: Unacked = piece;
                u.retry_not_before = until;
                assert(o.streams@[id].unacked@.contains_key(offset));
                self.put_piece(id, offset, u);
                proof {
                    Self::lemma_edit(o, bare, *self, id, offset, u);
                }
            },
            None => {},
        }
    }

    /// `n` is this session once the piece at `offset`, now `u`, was stamped
    /// on `path_id`; a piece that was acknowledged meanwhile stamps the path
    /// alone.
    pub open spec fn stamps(
        self,
        n: Self,
        id: u32,
        offset: u64,
        u: Option<Unacked>,
        path_id: u32,
        now: u64,
    ) -> bool {
        &&& n == (Session { streams: n.streams, paths: n.paths, ..self })
        &&& match u {
            Some(v) => {
                &&& n.paths@ == stamped_pool(self.paths@, path_id, v.data@.len(), now)
                &&& self.with_piece(
                    n.streams@,
                    id,
                    offset,
                    stamped_by(v, self.paths@, path_id, now),
                )
            },
            None => {
                &&& n.paths@ == stamped_pool(self.paths@, path_id, 0, now)
                &&& n.streams == self.streams
            },
        }
    }

    /// Restart the clock of a path whose pipe is empty.
    fn stamp_path_alone(&mut self, path_id: u32, now: u64)
        requires
            old(self).wf(),
        ensures
            final(self).wf(),
            *final(self) == (Session { paths: final(self).paths, ..*old(self) }),
            final(self).paths@ == stamped_pool(old(self).paths@, path_id, 0, now),
    {
        match get_path(&self.paths, path_id) {
            Some(stat) => {
                let mut p: PathStat = stat;
                if p.inflight == 0 {
                    let now_us: u64 = crate::num::max_u64(now, 1);
                    p.first_tx_us = now_us;
                    p.delivered_at_us = now_us;
                }
                put_stat(&mut self.paths, path_id, p);
            },
            None => {},
        }
    }

    /// A piece that waited reached the queue of its path.
    fn mark_enqueued(&mut self, id: u32, offset: u64, path_id: u32, now: u64)
        requires
            old(self).wf(),
        ensures
            final(self).wf(),
            old(self).stamps(
                *final(self),
                id,
                offset,
                match old(self).piece(id, offset) {
                    Some(u) => Some(enqueued(u, now)),
                    None => None,
                },
                path_id,
                now,
            ),
    {
        let ghost o = *self;
        match self.take_piece(id, offset) {
            Some(piece) => {
                let ghost bare = *self;
                let mut u: Unacked = piece;
                assert(o.streams@[id].unacked@.contains_key(offset));
                u.last_sent = now;
                u.retry_not_before = now;
                u.dropped = false;
                self.stamp_piece(&mut u, path_id, now);
                self.put_piece(id, offset, u);
                proof {
                    Self::lemma_edit(o, bare, *self, id, offset, u);
                }
            },
            None => {
                self.stamp_path_alone(path_id, now);
            },
        }
    }

    fn stamp_piece(&mut self, u: &mut Unacked, path_id: u32, now: u64)
        requires
            old(self).wf(),
        ensures
            final(self).wf(),
            *final(self) == (Session { paths: final(self).paths, ..*old(self) }),
            final(self).paths@ == stamped_pool(old(self).paths@, path_id, old(u).data@.len(), now),
            *final(u) == stamped_by(*old(u), old(self).paths@, path_id, now),
    {
        match get_path(&self.paths, path_id) {
            Some(stat) => {
                let mut p: PathStat = stat;
                stamp_delivered(u, &mut p, now);
                put_stat(&mut self.paths, path_id, p);
            },
            None => {},
        }
    }

    // -----------------------------------------------------------------------
    // Offering and moving
    // -----------------------------------------------------------------------
    /// `n` is this session once a STREAM_DATA of `data` was offered to
    /// `path_id`.
    pub open spec fn offers(
        self,
        n: Self,
        id: u32,
        offset: u64,
        data: Seq<u8>,
        path_id: u32,
        ok: bool,
    ) -> bool {
        &&& n == (Session { paths: n.paths, ..self })
        &&& exists|f: Frame|
            f.carries(id, offset, data) && #[trigger] pool_offered(
                self.paths@,
                n.paths@,
                path_id,
                f,
                self.cfg,
            ) && ok == pool_accepts(self.paths@, path_id, f, self.cfg)
    }

    fn offer_piece(&mut self, id: u32, offset: u64, data: &Vec<u8>, path_id: u32) -> (ok: bool)
        requires
            old(self).wf(),
        ensures
            final(self).wf(),
            old(self).offers(*final(self), id, offset, data@, path_id, ok),
    {
        let frame: Frame = Frame::StreamData { stream_id: id, offset, data: copy_bytes(data) };
        let ghost f = frame;
        let ghost o = *self;
        let ok: bool = send_on_path(&mut self.paths, path_id, frame, &self.cfg);
        proof {
            assert(f.carries(id, offset, data@));
            assert(pool_offered(o.paths@, self.paths@, path_id, f, self.cfg));
        }
        ok
    }

    /// `n` is this session once a piece that `from` refused sits on `to`: the
    /// stream's home, the piece's memory, its load and its clock moved along.
    pub open spec fn moves(
        self,
        n: Self,
        id: u32,
        offset: u64,
        len: u64,
        from: u32,
        to: u32,
        now: u64,
    ) -> bool {
        let st = self.streams@[id];
        let ps = transferred(homed(self.paths@, st, to, true), from, to, len);
        let home = Session {
            streams: n.streams,
            paths: n.paths,
            metrics: self.metrics,
            ..self
        };
        &&& n == (Session {
            streams: n.streams,
            paths: n.paths,
            metrics: self.metrics.note_migrate_counted("send_blocked"@),
            ..self
        })
        &&& n.streams@.contains_key(id)
        &&& n.streams@ == self.streams@.insert(id, n.streams@[id])
        &&& n.streams@[id] == (StreamState {
            life: st.rehomed_life(to, now),
            unacked: n.streams@[id].unacked,
            ..st
        })
        &&& match self.piece(id, offset) {
            Some(u) => {
                &&& n.streams@[id].unacked@.contains_key(offset)
                &&& n.streams@[id].unacked@ == st.unacked@.insert(
                    offset,
                    n.streams@[id].unacked@[offset],
                )
                &&& moved_piece(u, n.streams@[id].unacked@[offset], ps, to, now)
                &&& n.paths@ == stamped_pool(ps, to, u.data@.len(), now)
            },
            None => {
                &&& n.streams@[id].unacked@ == st.unacked@
                &&& n.paths@ == stamped_pool(ps, to, 0, now)
            },
        }
    }

    pub(crate) fn make_home(&mut self, id: u32, to: u32, now: u64)
        requires
            old(self).wf(),
            old(self).streams@.contains_key(id),
        ensures
            final(self).wf(),
            *final(self) == (Session {
                streams: final(self).streams,
                paths: final(self).paths,
                ..*old(self)
            }),
            final(self).streams@ == old(self).streams@.insert(
                id,
                StreamState {
                    life: old(self).streams@[id].rehomed_life(to, now),
                    ..old(self).streams@[id]
                },
            ),
            final(self).paths@ == homed(old(self).paths@, old(self).streams@[id], to, true),
    {
        let ghost o = *self;
        match self.streams.remove(&id) {
            Some(stream) => {
                let mut st: StreamState = stream;
                let ghost st0 = st;
                st.set_sticky(&mut self.paths, to, now);
                assert(st == (StreamState { life: st0.rehomed_life(to, now), ..st0 }));
                assert(st.recv_wf() && st.send_wf());
                let _ = self.streams.insert(id, st);
                assert(self.streams@ =~= o.streams@.insert(id, st));
            },
            None => {},
        }
    }

    fn move_piece(&mut self, id: u32, offset: u64, len: u64, from: u32, to: u32, now: u64)
        requires
            old(self).wf(),
            old(self).streams@.contains_key(id),
        ensures
            final(self).wf(),
            old(self).moves(*final(self), id, offset, len, from, to, now),
    {
        let ghost o = *self;
        self.make_home(id, to, now);
        let ghost m1 = *self;
        let _ = xfer_inflight(&mut self.paths, from, to, len);
        let ghost ps = self.paths@;
        self.metrics.note_migrate("send_blocked");
        let ghost m2 = *self;
        match self.take_piece(id, offset) {
            Some(piece) => {
                let ghost bare = *self;
                let mut u: Unacked = piece;
                let ghost u0 = u;
                assert(m2.streams@[id].unacked@.contains_key(offset));
                u.path_id = to;
                u.last_sent = now;
                u.retry_not_before = now;
                u.dropped = false;
                push_tried(&mut u.tried, to);
                self.stamp_piece(&mut u, to, now);
                self.put_piece(id, offset, u);
                proof {
                    Self::lemma_edit(m2, bare, *self, id, offset, u);
                    assert(moved_piece(u0, u, ps, to, now));
                    assert(self.streams@ =~= o.streams@.insert(id, self.streams@[id]));
                }
            },
            None => {
                self.stamp_path_alone(to, now);
                assert(self.streams@ =~= o.streams@.insert(id, self.streams@[id]));
            },
        }
    }
}

/// A refused piece once it sits on `to`.
pub open spec fn moved_piece(
    u: Unacked,
    n: Unacked,
    ps: Seq<PathState>,
    to: u32,
    now: u64,
) -> bool {
    let v = Unacked {
        path_id: to,
        last_sent: now,
        retry_not_before: now,
        dropped: false,
        tried: n.tried,
        ..u
    };
    &&& n.tried@ == after_try(u.tried@, to)
    &&& n == stamped_by(v, ps, to, now)
}

/// Where a refused piece went.
#[derive(Clone, Copy, Debug, PartialEq, Eq, Structural)]
pub struct Moved {
    /// The other path the scheduler named.
    pub alt: Option<u32>,
    /// That path took the piece.
    pub sent: bool,
}

impl Session {
    /// What a refusal by `path_id` does to this session: the piece moves to
    /// the scheduler's other path, or is marked as dropped.
    pub open spec fn migrates<S: Scheduler>(
        self,
        sched: &S,
        n: Self,
        id: u32,
        path_id: u32,
        offset: u64,
        data: Seq<u8>,
        out: Moved,
        now: u64,
    ) -> bool {
        &&& picked_again(sched, self.paths@, seq![path_id], out.alt)
        &&& match out.alt {
            None => !out.sent && self.drops(n, id, offset, now),
            Some(alt) => exists|mid: Self| #[trigger]
                self.offers(mid, id, offset, data, alt, out.sent) && if out.sent {
                    mid.moves(n, id, offset, data.len() as u64, path_id, alt, now)
                } else {
                    mid.drops(n, id, offset, now)
                },
        }
    }

    /// `n` is this session with the piece marked as dropped.
    pub open spec fn drops(self, n: Self, id: u32, offset: u64, now: u64) -> bool {
        match self.piece(id, offset) {
            Some(u) => self.edits(n, id, offset, marked_dropped(u, now)),
            None => n == self,
        }
    }

    /// Move a piece that `path_id` refused.
    pub fn migrate_send_blocked<S: Scheduler>(
        &mut self,
        id: u32,
        path_id: u32,
        offset: u64,
        data: &Vec<u8>,
        sched: &S,
        now: u64,
    ) -> (out: Moved)
        requires
            old(self).wf(),
            old(self).streams@.contains_key(id),
        ensures
            final(self).wf(),
            old(self).migrates(sched, *final(self), id, path_id, offset, data@, out, now),
    {
        let ghost o = *self;
        let mut tried: Vec<u32> = Vec::new();
        tried.push(path_id);
        let alt: Option<u32> = sched.pick_retry(&self.paths, &tried);
        proof {
            assert(tried@ =~= seq![path_id]);
            assert(picked_again(sched, o.paths@, seq![path_id], alt));
        }
        match alt {
            None => {
                self.note_data_dropped(id, offset, now);
                assert(o.drops(*self, id, offset, now));
                let out: Moved = Moved { alt, sent: false };
                assert(o.migrates(sched, *self, id, path_id, offset, data@, out, now));
                out
            },
            Some(to) => {
                let sent: bool = self.offer_piece(id, offset, data, to);
                let ghost mid = *self;
                assert(o.offers(mid, id, offset, data@, to, sent));
                if sent {
                    self.move_piece(id, offset, data.len() as u64, path_id, to, now);
                    assert(mid.moves(
                        *self,
                        id,
                        offset,
                        data@.len() as u64,
                        path_id,
                        to,
                        now,
                    ));
                } else {
                    self.note_data_dropped(id, offset, now);
                    assert(mid.drops(*self, id, offset, now));
                }
                let out: Moved = Moved { alt, sent };
                assert(o.offers(mid, id, offset, data@, to, out.sent));
                assert(o.migrates(sched, *self, id, path_id, offset, data@, out, now));
                out
            },
        }
    }
}

// ---------------------------------------------------------------------------
// Waiting for the bulk queue
// ---------------------------------------------------------------------------
/// What became of a piece that waits for queue space.
#[derive(Clone, Copy, Debug, PartialEq, Eq, Structural)]
pub enum BulkWait {
    /// The session or the stream is gone.
    Over,
    Queued,
    Moved(Moved),
    /// Wait for queue space, the stream, or the deadline.
    Wait,
}

/// The bulk queue of `path_id` has a slot.
pub open spec fn bulk_slot(ps: Seq<PathState>, path_id: u32, chan: nat) -> bool {
    match index_of(ps, path_id) {
        Some(i) => ps[i].writer@.len() < chan,
        None => false,
    }
}

/// The path is in the pool and alive.
pub open spec fn path_alive(ps: Seq<PathState>, path_id: u32) -> bool {
    match stat_of(ps, path_id) {
        Some(p) => p.alive(),
        None => false,
    }
}

impl Session {
    /// `n` is this session once the piece was offered again, and queued where
    /// it was taken.
    pub open spec fn requeues(
        self,
        n: Self,
        id: u32,
        path_id: u32,
        offset: u64,
        data: Seq<u8>,
        ok: bool,
        now: u64,
    ) -> bool {
        exists|mid: Self| #[trigger]
            self.offers(mid, id, offset, data, path_id, ok) && if ok {
                mid.stamps(
                    n,
                    id,
                    offset,
                    match mid.piece(id, offset) {
                        Some(u) => Some(enqueued(u, now)),
                        None => None,
                    },
                    path_id,
                    now,
                )
            } else {
                n == mid
            }
    }

    fn requeue(
        &mut self,
        id: u32,
        path_id: u32,
        offset: u64,
        data: &Vec<u8>,
        now: u64,
    ) -> (ok: bool)
        requires
            old(self).wf(),
        ensures
            final(self).wf(),
            old(self).requeues(*final(self), id, path_id, offset, data@, ok, now),
    {
        let ghost o = *self;
        let ok: bool = self.offer_piece(id, offset, data, path_id);
        let ghost mid = *self;
        assert(o.offers(mid, id, offset, data@, path_id, ok));
        if ok {
            self.mark_enqueued(id, offset, path_id, now);
        }
        ok
    }

    /// What one wake-up of a waiting piece does, after the queue was tried.
    /// A path that died or ran out of time gives the piece one last try while
    /// alive, then another path.
    pub open spec fn waits<S: Scheduler>(
        self,
        sched: &S,
        n: Self,
        id: u32,
        path_id: u32,
        offset: u64,
        data: Seq<u8>,
        deadline: u64,
        out: BulkWait,
        now: u64,
    ) -> bool {
        let alive = path_alive(self.paths@, path_id);
        if self.marks.dead || !self.streams@.contains_key(id) || self.streams@[id].life.reset {
            out is Over && n == self
        } else if alive && now < deadline {
            out is Wait && n == self
        } else if !alive {
            out matches BulkWait::Moved(m) && self.migrates(sched, n, id, path_id, offset, data, m, now)
        } else {
            match out {
                BulkWait::Queued => self.requeues(n, id, path_id, offset, data, true, now),
                BulkWait::Moved(m) => exists|mid: Self| #[trigger]
                    self.requeues(mid, id, path_id, offset, data, false, now) && mid.migrates(
                        sched,
                        n,
                        id,
                        path_id,
                        offset,
                        data,
                        m,
                        now,
                    ),
                _ => false,
            }
        }
    }

    fn wait_on<S: Scheduler>(
        &mut self,
        id: u32,
        path_id: u32,
        offset: u64,
        data: &Vec<u8>,
        deadline: u64,
        sched: &S,
        now: u64,
    ) -> (out: BulkWait)
        requires
            old(self).wf(),
        ensures
            final(self).wf(),
            old(self).waits(sched, *final(self), id, path_id, offset, data@, deadline, out, now),
    {
        let ghost o = *self;
        let gone: bool = match self.streams.get(&id) {
            Some(st) => st.life.reset,
            None => true,
        };
        if self.marks.dead || gone {
            return BulkWait::Over;
        }
        let alive: bool = match get_path(&self.paths, path_id) {
            Some(p) => p.is_alive(),
            None => false,
        };
        if alive && now < deadline {
            return BulkWait::Wait;
        }
        if alive {
            if self.requeue(id, path_id, offset, data, now) {
                return BulkWait::Queued;
            }
            let ghost mid = *self;
            assert(o.requeues(mid, id, path_id, offset, data@, false, now));
            return BulkWait::Moved(self.migrate_send_blocked(id, path_id, offset, data, sched, now));
        }
        BulkWait::Moved(self.migrate_send_blocked(id, path_id, offset, data, sched, now))
    }

    /// What one wake-up of a waiting piece does. Queue space is tried first;
    /// any other wake-up only looks at the deadline.
    pub open spec fn wakes<S: Scheduler>(
        self,
        sched: &S,
        n: Self,
        id: u32,
        path_id: u32,
        offset: u64,
        data: Seq<u8>,
        deadline: u64,
        queue_woke: bool,
        out: BulkWait,
        now: u64,
    ) -> bool {
        if queue_woke && bulk_slot(self.paths@, path_id, self.cfg.tuning.chan as nat) {
            ||| out is Queued && self.requeues(n, id, path_id, offset, data, true, now)
            ||| exists|mid: Self| #[trigger]
                self.requeues(mid, id, path_id, offset, data, false, now) && mid.waits(
                    sched,
                    n,
                    id,
                    path_id,
                    offset,
                    data,
                    deadline,
                    out,
                    now,
                )
        } else {
            self.waits(sched, n, id, path_id, offset, data, deadline, out, now)
        }
    }

    /// A waiting piece wakes up; `queue_woke` says that its path's bulk queue
    /// moved.
    pub fn wait_bulk_send<S: Scheduler>(
        &mut self,
        id: u32,
        path_id: u32,
        offset: u64,
        data: &Vec<u8>,
        deadline: u64,
        queue_woke: bool,
        sched: &S,
        now: u64,
    ) -> (out: BulkWait)
        requires
            old(self).wf(),
        ensures
            final(self).wf(),
            old(self).wakes(
                sched,
                *final(self),
                id,
                path_id,
                offset,
                data@,
                deadline,
                queue_woke,
                out,
                now,
            ),
    {
        let ghost o = *self;
        let slot: bool = match find_path(&self.paths, path_id) {
            Some(i) => self.paths[i].writer.len() < self.cfg.tuning.chan,
            None => false,
        };
        if queue_woke && slot {
            if self.requeue(id, path_id, offset, data, now) {
                return BulkWait::Queued;
            }
            let ghost mid = *self;
            assert(o.requeues(mid, id, path_id, offset, data@, false, now));
            let out: BulkWait = self.wait_on(id, path_id, offset, data, deadline, sched, now);
            assert(mid.waits(sched, *self, id, path_id, offset, data@, deadline, out, now));
            return out;
        }
        self.wait_on(id, path_id, offset, data, deadline, sched, now)
    }
}

// ---------------------------------------------------------------------------
// A piece from choice to queue
// ---------------------------------------------------------------------------
/// What became of a piece that was sent.
#[derive(Clone, Copy, Debug, PartialEq, Eq, Structural)]
pub enum Fate {
    Queued,
    /// A live bulk path is full: the piece waits for it until the deadline,
    /// and retries keep off it.
    Parked { deadline: u64 },
    Moved(Moved),
}

pub struct SentPiece {
    pub prepared: Prepared,
    pub fate: Fate,
}

impl Session {
    /// What an offer to `path_id` comes to.
    pub open spec fn comes_to<S: Scheduler>(
        self,
        sched: &S,
        n: Self,
        id: u32,
        path_id: u32,
        offset: u64,
        data: Seq<u8>,
        fate: Fate,
        now: u64,
    ) -> bool {
        exists|mid: Self, ok: bool| #[trigger]
            self.offers(mid, id, offset, data, path_id, ok) && mid.ends_as(
                sched,
                n,
                id,
                path_id,
                offset,
                data,
                ok,
                fate,
                now,
            )
    }

    /// What follows an offer that was taken, or was not.
    pub open spec fn ends_as<S: Scheduler>(
        self,
        sched: &S,
        n: Self,
        id: u32,
        path_id: u32,
        offset: u64,
        data: Seq<u8>,
        ok: bool,
        fate: Fate,
        now: u64,
    ) -> bool {
        if ok {
            fate is Queued && n == self
        } else if self.streams@[id].send.bulk && path_alive(self.paths@, path_id) {
            let deadline = capped(
                now + stat_of(self.paths@, path_id)->0.stable_down(self.cfg),
            ) as u64;
            &&& fate == (Fate::Parked { deadline })
            &&& match self.piece(id, offset) {
                Some(u) => self.edits(
                    n,
                    id,
                    offset,
                    (Unacked { retry_not_before: deadline, ..u }),
                ),
                None => n == self,
            }
        } else {
            fate matches Fate::Moved(m) && self.migrates(sched, n, id, path_id, offset, data, m, now)
        }
    }

    fn offer_or_park<S: Scheduler>(
        &mut self,
        id: u32,
        path_id: u32,
        offset: u64,
        data: &Vec<u8>,
        sched: &S,
        now: u64,
    ) -> (fate: Fate)
        requires
            old(self).wf(),
            old(self).streams@.contains_key(id),
        ensures
            final(self).wf(),
            old(self).comes_to(sched, *final(self), id, path_id, offset, data@, fate, now),
    {
        let ghost o = *self;
        let ok: bool = self.offer_piece(id, offset, data, path_id);
        let ghost mid = *self;
        assert(o.offers(mid, id, offset, data@, path_id, ok));
        if ok {
            return Fate::Queued;
        }
        let bulk: bool = match self.streams.get(&id) {
            Some(st) => st.send.bulk,
            None => false,
        };
        let wait: Option<u64> = match get_path(&self.paths, path_id) {
            Some(p) => if bulk && p.is_alive() {
                Some(p.stable_down_timeout(&self.cfg))
            } else {
                None
            },
            None => None,
        };
        match wait {
            Some(w) => {
                let deadline: u64 = now.saturating_add(w);
                self.pin_retry(id, offset, deadline);
                Fate::Parked { deadline }
            },
            None => Fate::Moved(self.migrate_send_blocked(id, path_id, offset, data, sched, now)),
        }
    }

    /// What sending a piece does to this session: its size is noted, it is
    /// placed, loaded and offered, in that order.
    pub open spec fn sends_piece<S: Scheduler>(
        self,
        sched: &S,
        n: Self,
        id: u32,
        offset: u64,
        data: Seq<u8>,
        path_id: u32,
        overflow: bool,
        out: SentPiece,
        now: u64,
    ) -> bool {
        let p = out.prepared;
        exists|a: Self, b: Self|
            #![trigger self.prepares(sched, a, id, data.len(), path_id, overflow, p, now), a.loads(
                b,
                id,
                offset,
                data,
                p.path_id,
                p.stick,
                now,
            )]
            {
                &&& self.prepares(sched, a, id, data.len(), path_id, overflow, p, now)
                &&& a.loads(b, id, offset, data, p.path_id, p.stick, now)
                &&& b.comes_to(sched, n, id, p.path_id, offset, data, out.fate, now)
            }
    }

    /// Send a piece of stream `id` that was cut at `offset` on the path that
    /// was picked for it.
    pub fn send_piece<S: Scheduler>(
        &mut self,
        id: u32,
        offset: u64,
        data: &Vec<u8>,
        path_id: u32,
        overflow: bool,
        sched: &S,
        now: u64,
    ) -> (out: Option<SentPiece>)
        requires
            old(self).wf(),
            old(self).streams@.contains_key(id) ==> offset + data@.len() <= old(
                self,
            ).streams@[id].counters.send_next,
        ensures
            final(self).wf(),
            match out {
                Some(s) => old(self).streams@.contains_key(id) && old(self).sends_piece(
                    sched,
                    *final(self),
                    id,
                    offset,
                    data@,
                    path_id,
                    overflow,
                    s,
                    now,
                ),
                None => !old(self).streams@.contains_key(id) && *final(self) == *old(self),
            },
    {
        if !self.streams.contains_key(&id) {
            return None;
        }
        let ghost o = *self;
        let p: Prepared = self.prepare(id, data.len(), path_id, overflow, sched, now);
        let ghost a = *self;
        self.load_piece(id, offset, copy_bytes(data), p.path_id, p.stick, now);
        let ghost b = *self;
        let fate: Fate = self.offer_or_park(id, p.path_id, offset, data, sched, now);
        let out: SentPiece = SentPiece { prepared: p, fate };
        proof {
            assert(o.prepares(sched, a, id, data@.len(), path_id, overflow, out.prepared, now));
            assert(a.loads(b, id, offset, data@, p.path_id, p.stick, now));
            assert(b.comes_to(sched, *self, id, p.path_id, offset, data@, fate, now));
        }
        Some(out)
    }
}

/// A piece that finds its queue full: a bulk piece waits on a living path until
/// the path's down clock has run; any other goes elsewhere at once.
pub proof fn law_what_a_full_queue_does<S: Scheduler>(
    sched: &S,
    o: Session,
    n: Session,
    id: u32,
    i: int,
    offset: u64,
    data: Seq<u8>,
    fate: Fate,
    now: u64,
)
    requires
        crate::path::distinct_ids(o.paths@),
        0 <= i < o.paths@.len(),
        o.ends_as(sched, n, id, o.paths@[i].id, offset, data, false, fate, now),
        now + o.paths@[i].stat.stable_down(o.cfg) <= u64::MAX,
    ensures
        ({
            let p = o.paths@[i].stat;
            let parked = o.streams@[id].send.bulk && p.state != crate::path::Health::Down;
            &&& fate is Parked <==> parked
            &&& fate is Moved <==> !parked
            &&& parked ==> fate->deadline == now + p.stable_down(o.cfg)
            &&& parked && o.piece(id, offset) is Some ==> n.streams@[id].unacked@[offset]
                == (Unacked { retry_not_before: fate->deadline, ..o.piece(id, offset)->0 })
        }),
{
    assert(index_of(o.paths@, o.paths@[i].id) == Some(i));
}

/// What a waiting bulk piece comes to: over with its stream, longer while its
/// path lives and its deadline is ahead, and elsewhere once its path is down.
pub proof fn law_how_long_a_bulk_piece_waits<S: Scheduler>(
    sched: &S,
    o: Session,
    n: Session,
    id: u32,
    i: int,
    offset: u64,
    data: Seq<u8>,
    deadline: u64,
    out: BulkWait,
    now: u64,
)
    requires
        crate::path::distinct_ids(o.paths@),
        0 <= i < o.paths@.len(),
        o.waits(sched, n, id, o.paths@[i].id, offset, data, deadline, out, now),
    ensures
        ({
            let over = o.marks.dead || !o.streams@.contains_key(id) || o.streams@[id].life.reset;
            let lit = o.paths@[i].stat.state != crate::path::Health::Down;
            &&& out is Over <==> over
            &&& out is Wait <==> !over && lit && now < deadline
            &&& out is Over || out is Wait ==> n == o
            &&& !over && !lit ==> out is Moved
        }),
{
    assert(index_of(o.paths@, o.paths@[i].id) == Some(i));
}

/// A piece marked as dropped may be sent again from now on; one that was queued
/// after all was sent now and is not dropped.
pub proof fn law_dropped_and_queued_pieces(u: Unacked, now: u64)
    ensures
        marked_dropped(u, now).dropped,
        marked_dropped(u, now).retry_not_before == now,
        marked_dropped(u, now).data == u.data,
        marked_dropped(u, now).last_sent == u.last_sent,
        !enqueued(u, now).dropped,
        enqueued(u, now).last_sent == now,
        enqueued(u, now).retry_not_before == now,
        enqueued(u, now).first_sent == u.first_sent,
        enqueued(u, now).data == u.data,
{
}

} // verus!
