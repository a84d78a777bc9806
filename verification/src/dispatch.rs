//! Frames of an established path.

use vstd::prelude::*;

use crate::closing::Death;
use crate::early::PendingEarly;
use crate::frames::{Frame, Target};
use crate::inbound::DataOutcome;
use crate::maps::{ids_of, lists_ids};
use crate::num::above;
use crate::path::{find_path, get_path, index_of, stat_of};
use crate::replies::{Acked, RecvClosed};
use crate::sched::Scheduler;
use crate::session::{Finished, Session};
use crate::stream::{StreamState, StreamStats};
use crate::wire::{pool_accepts, pool_offered, send_on_path};

verus! {

broadcast use vstd::laws_cmp::group_laws_cmp;

/// How a Pong counts for the RTT of its path.
#[derive(Clone, Copy, Debug, PartialEq, Eq, Structural)]
pub struct PongGate {
    /// Not waiting behind bulk: the sample is recorded.
    pub record: bool,
    /// Larger samples are not.
    pub cap: u64,
    /// The path has no RTT yet.
    pub first: bool,
}

/// What a frame asks of the host.
pub enum Handled {
    /// A Pong was offered; whether the path took it.
    Ponged(bool),
    /// How to record the Pong; nothing for a path that is gone.
    Pong(Option<PongGate>),
    /// A new stream for `target`, and what became of the pieces that came
    /// before it, in order.
    Accepted { id: u32, target: Target, early: Vec<Option<DataOutcome>> },
    Data(DataOutcome),
    Ack(Option<Acked>),
    Closed(Option<RecvClosed>),
    Reset(Option<Finished>),
    Dead(Option<Death>),
    Ignored,
}

/// How many chunks a piece handed to the application.
pub open spec fn chunks_handed(out: Option<DataOutcome>) -> nat {
    match out {
        Some(DataOutcome::Taken { absorbed, .. }) => match absorbed.handed {
            Some(h) => h.chunks@.len(),
            None => 0,
        },
        _ => 0,
    }
}

/// The slots that are left of `free` after these deliveries.
pub open spec fn slots_left(free: nat, outs: Seq<Option<DataOutcome>>) -> nat
    decreases outs.len(),
{
    if outs.len() == 0 {
        free
    } else {
        above(
            slots_left(free, outs.drop_last()) as int,
            chunks_handed(outs.last()) as int,
        ) as nat
    }
}

fn count_handed(out: &Option<DataOutcome>) -> (n: usize)
    ensures
        n == chunks_handed(*out),
{
    match out {
        Some(DataOutcome::Taken { absorbed, .. }) => match &absorbed.handed {
            Some(h) => h.chunks.len(),
            None => 0,
        },
        _ => 0,
    }
}

impl Session {
    /// Stream `id` is open and can count this piece.
    pub open spec fn takes_early(self, id: u32, e: PendingEarly) -> bool {
        &&& self.streams@.contains_key(id)
        &&& e.offset + e.data@.len() <= u64::MAX
        &&& self.streams@[id].recv.buffered_in + self.streams@[id].recv.recv_buffered
            + e.data@.len() <= u64::MAX
    }

    fn can_take(&self, id: u32, e: &PendingEarly) -> (r: bool)
        ensures
            r == self.takes_early(id, *e),
    {
        let len: u64 = e.data.len() as u64;
        match self.streams.get(&id) {
            Some(st) => {
                let held: u128 = st.recv.buffered_in as u128 + st.recv.recv_buffered as u128;
                e.offset as u128 + len as u128 <= u64::MAX as u128 && held + len as u128
                    <= u64::MAX as u128
            },
            None => false,
        }
    }

    /// What one piece that came before its stream does to this session once
    /// the stream is open; a piece that cannot be counted does nothing.
    pub open spec fn delivers_one<S: Scheduler>(
        self,
        sched: &S,
        n: Self,
        id: u32,
        e: PendingEarly,
        out: Option<DataOutcome>,
        free: nat,
        now: u64,
    ) -> bool {
        match out {
            Some(d) => {
                &&& self.takes_early(id, e)
                &&& self.receives(
                    sched,
                    n,
                    d,
                    e.path_id,
                    id,
                    e.offset,
                    e.data@,
                    false,
                    free,
                    now,
                )
            },
            None => !self.takes_early(id, e) && n == self,
        }
    }

    /// What the pieces that came before their stream do to this session, in
    /// order of arrival; the application has `free` slots to begin with.
    pub open spec fn delivers_early<S: Scheduler>(
        self,
        sched: &S,
        n: Self,
        id: u32,
        pieces: Seq<PendingEarly>,
        outs: Seq<Option<DataOutcome>>,
        free: nat,
        now: u64,
    ) -> bool
        decreases pieces.len(),
    {
        if pieces.len() == 0 {
            n == self && outs.len() == 0
        } else {
            &&& outs.len() == pieces.len()
            &&& exists|mid: Self|
                self.delivers_early(
                    sched,
                    mid,
                    id,
                    pieces.drop_last(),
                    outs.drop_last(),
                    free,
                    now,
                ) && #[trigger] mid.delivers_one(
                    sched,
                    n,
                    id,
                    pieces.last(),
                    outs.last(),
                    slots_left(free, outs.drop_last()),
                    now,
                )
        }
    }

    /// `mid` is this session with the new stream `id` at home on `path_id` and
    /// the pieces that waited for it taken out.
    pub open spec fn admits(self, mid: Self, path_id: u32, id: u32, now: u64) -> bool {
        &&& !self.streams@.contains_key(id)
        &&& mid.early.waiting(id).len() == 0
        &&& forall|other: u32|
            other != id ==> #[trigger] mid.early.waiting(other) == self.early.waiting(other)
        &&& self.registers((Session { early: self.early, ..mid }), id, path_id, now)
    }

    /// What the StreamOpen of a new stream does to this session: the stream is
    /// there, and what came before it is delivered.
    pub open spec fn accepts<S: Scheduler>(
        self,
        sched: &S,
        n: Self,
        path_id: u32,
        id: u32,
        outs: Seq<Option<DataOutcome>>,
        now: u64,
    ) -> bool {
        exists|mid: Self| #[trigger]
            self.admits(mid, path_id, id, now) && mid.delivers_early(
                sched,
                n,
                id,
                self.early.waiting(id),
                outs,
                self.cfg.tuning.chan as nat,
                now,
            )
    }

    /// The peer opened a stream. The pieces that came before it are delivered,
    /// in order; the application starts with an empty channel. A StreamOpen for
    /// a stream that is here is a repeat and changes nothing.
    pub fn accept_remote_stream<S: Scheduler>(
        &mut self,
        path_id: u32,
        id: u32,
        sched: &S,
        now: u64,
    ) -> (r: Option<Vec<Option<DataOutcome>>>)
        requires
            old(self).wf(),
        ensures
            final(self).wf(),
            r is Some <==> !old(self).streams@.contains_key(id),
            match r {
                Some(outs) => old(self).accepts(
                    sched,
                    *final(self),
                    path_id,
                    id,
                    outs@,
                    now,
                ),
                None => *final(self) == *old(self),
            },
    {
        if self.streams.contains_key(&id) {
            return None;
        }
        let ghost o = *self;
        self.register(id, path_id, now);
        let ghost m = *self;
        let early: Vec<PendingEarly> = self.early.take_early_data(id);
        proof {
            let back = Session { early: o.early, ..*self };
            assert(back == m);
            assert(o.registers(back, id, path_id, now));
            assert(o.admits(*self, path_id, id, now));
        }
        let free: usize = self.cfg.tuning.chan;
        Some(self.deliver_early(id, early, free, sched, now))
    }

    fn deliver_early<S: Scheduler>(
        &mut self,
        id: u32,
        pieces: Vec<PendingEarly>,
        free: usize,
        sched: &S,
        now: u64,
    ) -> (outs: Vec<Option<DataOutcome>>)
        requires
            old(self).wf(),
        ensures
            final(self).wf(),
            old(self).delivers_early(
                sched,
                *final(self),
                id,
                pieces@,
                outs@,
                free as nat,
                now,
            ),
    {
        let ghost o = *self;
        let ghost all = pieces@;
        let mut rest: Vec<PendingEarly> = pieces;
        let mut outs: Vec<Option<DataOutcome>> = Vec::new();
        let mut left: usize = free;
        let ghost mut i: int = 0;
        assert(all.take(0) =~= Seq::empty());
        assert(all.skip(0) =~= all);
        while rest.len() > 0
            invariant
                self.wf(),
                0 <= i <= all.len(),
                rest@ == all.skip(i),
                outs@.len() == i,
                left == slots_left(free as nat, outs@),
                o.delivers_early(sched, *self, id, all.take(i), outs@, free as nat, now),
            decreases rest.len(),
        {
            let ghost before = *self;
            let ghost outs0 = outs@;
            let e: PendingEarly = rest.remove(0);
            let ghost e0 = e;
            proof {
                assert(e0 == all[i]);
                assert(rest@ =~= all.skip(i + 1));
            }
            let out: Option<DataOutcome> = if self.can_take(id, &e) {
                Some(self.on_data(e.path_id, id, e.offset, e.data, false, left, sched, now))
            } else {
                None
            };
            let handed: usize = count_handed(&out);
            outs.push(out);
            left = left.saturating_sub(handed);
            proof {
                assert(all.take(i + 1).drop_last() =~= all.take(i));
                assert(outs@.drop_last() =~= outs0);
                assert(before.delivers_one(
                    sched,
                    *self,
                    id,
                    all.take(i + 1).last(),
                    outs@.last(),
                    slots_left(free as nat, outs@.drop_last()),
                    now,
                ));
                i = i + 1;
            }
        }
        assert(all.take(i) =~= all);
        outs
    }

    /// How a Pong on `path_id` counts.
    pub open spec fn pong_gate(self, path_id: u32) -> Option<PongGate> {
        match stat_of(self.paths@, path_id) {
            Some(p) => Some(
                PongGate {
                    record: p.inflight < self.cfg.tuning.inflight_bias,
                    cap: p.sample_cap(self.cfg) as u64,
                    first: !p.rtt_known(),
                },
            ),
            None => None,
        }
    }

    pub fn on_pong(&self, path_id: u32) -> (r: Option<PongGate>)
        requires
            self.wf(),
        ensures
            r == self.pong_gate(path_id),
    {
        match get_path(&self.paths, path_id) {
            Some(p) => Some(
                PongGate {
                    record: p.inflight < self.cfg.tuning.inflight_bias,
                    cap: p.rtt_sample_cap(&self.cfg),
                    first: !p.is_rtt_known(),
                },
            ),
            None => None,
        }
    }

    /// A piece that fits the offsets this side can count.
    pub open spec fn fits(self, frame: Frame) -> bool {
        match frame {
            Frame::StreamData { stream_id, offset, data } => {
                &&& offset + data@.len() <= u64::MAX
                &&& self.streams@.contains_key(stream_id)
                    ==> self.streams@[stream_id].recv.buffered_in
                    + self.streams@[stream_id].recv.recv_buffered + data@.len() <= u64::MAX
            },
            _ => true,
        }
    }

    /// What a frame on `path_id` does to this session.
    pub open spec fn handles<S: Scheduler>(
        self,
        sched: &S,
        n: Self,
        path_id: u32,
        frame: Frame,
        hit: bool,
        free: nat,
        out: Handled,
        now: u64,
    ) -> bool {
        match frame {
            Frame::Ping { seq, sent_at_ms } => {
                let pong = Frame::Pong { seq, sent_at_ms };
                &&& out == Handled::Ponged(pool_accepts(self.paths@, path_id, pong, self.cfg))
                &&& n == (Session { paths: n.paths, ..self })
                &&& pool_offered(self.paths@, n.paths@, path_id, pong, self.cfg)
            },
            Frame::Pong { .. } => out == Handled::Pong(self.pong_gate(path_id)) && n == self,
            Frame::StreamOpen { stream_id, target } => match out {
                Handled::Accepted { id, target: t, early } => {
                    &&& !self.is_client
                    &&& id == stream_id
                    &&& t == target
                    &&& self.accepts(sched, n, path_id, id, early@, now)
                },
                Handled::Ignored => {
                    &&& self.is_client || self.streams@.contains_key(stream_id)
                    &&& n == self
                },
                _ => false,
            },
            Frame::StreamData { stream_id, offset, data } => {
                &&& out matches Handled::Data(d)
                &&& self.receives(sched, n, d, path_id, stream_id, offset, data@, hit, free, now)
            },
            Frame::StreamAck(ack) => {
                &&& out matches Handled::Ack(r)
                &&& match r {
                    Some(a) => self.takes_ack(n, ack, a, now),
                    None => !self.streams@.contains_key(ack.stream_id) && n == self,
                }
            },
            Frame::StreamClose { stream_id, final_offset } => {
                &&& out matches Handled::Closed(r)
                &&& match r {
                    Some(c) => self.streams@.contains_key(stream_id) && self.finishes_recv(
                        n,
                        stream_id,
                        self.streams@[stream_id].peer_closed(final_offset, (now / 1000) as u64),
                        c,
                        now,
                    ),
                    None => !self.streams@.contains_key(stream_id) && n == self,
                }
            },
            Frame::StreamReset { stream_id, reason } => {
                &&& out matches Handled::Reset(r)
                &&& self.peer_resets(sched, n, stream_id, reason, r, now)
            },
            Frame::SessionClose => {
                &&& out matches Handled::Dead(r)
                &&& match r {
                    Some(d) => !self.marks.dead && self.dies(sched, n, false, d, now),
                    None => self.marks.dead && n == self,
                }
            },
        }
    }

    /// Take a frame that arrived on `path_id`. For a STREAM_DATA, `hit` says
    /// that it ended on an advertised edge, and the application has `free`
    /// slots.
    pub fn handle_frame<S: Scheduler>(
        &mut self,
        path_id: u32,
        frame: Frame,
        hit: bool,
        free: usize,
        sched: &S,
        now: u64,
    ) -> (out: Handled)
        requires
            old(self).wf(),
            old(self).fits(frame),
        ensures
            final(self).wf(),
            old(self).handles(sched, *final(self), path_id, frame, hit, free as nat, out, now),
    {
        match frame {
            Frame::Ping { seq, sent_at_ms } => {
                let sent: bool = send_on_path(
                    &mut self.paths,
                    path_id,
                    Frame::Pong { seq, sent_at_ms },
                    &self.cfg,
                );
                Handled::Ponged(sent)
            },
            Frame::Pong { .. } => Handled::Pong(self.on_pong(path_id)),
            Frame::StreamOpen { stream_id, target } => {
                if self.is_client {
                    return Handled::Ignored;
                }
                match self.accept_remote_stream(path_id, stream_id, sched, now) {
                    Some(early) => Handled::Accepted { id: stream_id, target, early },
                    None => Handled::Ignored,
                }
            },
            Frame::StreamData { stream_id, offset, data } => Handled::Data(
                self.on_data(path_id, stream_id, offset, data, hit, free, sched, now),
            ),
            Frame::StreamAck(ack) => Handled::Ack(self.on_ack(ack, now)),
            Frame::StreamClose { stream_id, final_offset } => Handled::Closed(
                self.on_peer_close(stream_id, final_offset, now),
            ),
            Frame::StreamReset { stream_id, reason } => Handled::Reset(
                self.on_peer_reset(stream_id, reason, sched, now),
            ),
            Frame::SessionClose => Handled::Dead(self.mark_dead(false, sched, now)),
        }
    }

    /// A frame of `encoded` bytes went out, or came in: its payload counts as
    /// data, the rest as control.
    pub fn account_overlay_frame(&mut self, frame: &Frame, encoded: u64, tx: bool)
        ensures
            *final(self) == (Session {
                metrics: old(self).metrics.bytes_counted(
                    frame.payload_len() as int,
                    above(encoded as int, frame.payload_len() as int),
                    tx,
                ),
                ..*old(self)
            }),
    {
        let data: u64 = frame.data_len() as u64;
        self.metrics.note_bytes(data, encoded.saturating_sub(data), tx);
    }

    /// The writer of `path_id` sent the ACK of a stream. `Some` is how long
    /// the stream waited for it; a newer ACK on that path keeps it waiting.
    pub fn note_ack_sent(&mut self, path_id: u32, id: u32, now: u64) -> (waited: Option<u64>)
        requires
            old(self).wf(),
        ensures
            final(self).wf(),
            *final(self) == (Session { streams: final(self).streams, ..*old(self) }),
            if ack_flushed(*old(self), path_id, id) {
                    let st = old(self).streams@[id];
                    &&& final(self).streams@ == old(self).streams@.insert(
                        id,
                        StreamState {
                            recv: crate::stream::RecvState {
                                ack_dirty: false,
                                ack_flush_from_us: 0,
                                ..st.recv
                            },
                            ..st
                        },
                    )
                    &&& waited == if st.recv.ack_flush_from_us != 0 {
                        Some(
                            crate::num::above(
                                now as int,
                                st.recv.ack_flush_from_us as int,
                            ) as u64,
                        )
                    } else {
                        None
                    }
                } else {
                    waited is None && final(self).streams@ == old(self).streams@
                },
    {
        let ghost o = *self;
        if !self.streams.contains_key(&id) {
            return None;
        }
        let pending: bool = match find_path(&self.paths, path_id) {
            Some(i) => self.paths[i].pending_acks.contains_key(&id),
            None => false,
        };
        match self.streams.remove(&id) {
            Some(stream) => {
                let mut st: StreamState = stream;
                let waited: Option<u64> = st.note_ack_sent(pending, now);
                assert(st.recv_wf());
                let _ = self.streams.insert(id, st);
                assert(self.streams@ =~= o.streams@.insert(id, st));
                assert(pending ==> self.streams@ =~= o.streams@);
                waited
            },
            None => None,
        }
    }

    /// Per-stream limiter summary.
    pub fn stream_stats(&self, id: u32) -> (r: Option<StreamStats>)
        ensures
            r is Some <==> self.streams@.contains_key(id),
            r is Some ==> r->0 == self.streams@[id].stats_of(),
    {
        match self.streams.get(&id) {
            Some(st) => Some(st.stats()),
            None => None,
        }
    }

    /// Limiter summary of every stream, by id.
    pub fn all_stream_stats(&self) -> (out: Vec<(u32, StreamStats)>)
        ensures
            lists_ids(out@.map_values(|e: (u32, StreamStats)| e.0), self.streams@),
            forall|i: int|
                0 <= i < out@.len() ==> (#[trigger] out@[i]).1
                    == self.streams@[out@[i].0].stats_of(),
    {
        let ids: Vec<u32> = ids_of(&self.streams);
        let mut out: Vec<(u32, StreamStats)> = Vec::new();
        let mut i: usize = 0;
        while i < ids.len()
            invariant
                i <= ids@.len(),
                lists_ids(ids@, self.streams@),
                out@.len() == i,
                forall|k: int|
                    0 <= k < i ==> (#[trigger] out@[k]).0 == ids@[k] && out@[k].1
                        == self.streams@[ids@[k]].stats_of(),
            decreases ids.len() - i,
        {
            assert(ids@.contains(ids@[i as int]));
            match self.streams.get(&ids[i]) {
                Some(st) => {
                    out.push((ids[i], st.stats()));
                },
                None => {
                    assert(false);
                },
            }
            i += 1;
        }
        assert(out@.map_values(|e: (u32, StreamStats)| e.0) =~= ids@);
        out
    }
}

/// Nothing newer than the ACK just sent waits on its path.
pub open spec fn ack_flushed(s: Session, path_id: u32, id: u32) -> bool {
    &&& s.streams@.contains_key(id)
    &&& match index_of(s.paths@, path_id) {
        Some(i) => !s.paths@[i].pending_acks@.contains_key(id),
        None => true,
    }
}

/// A ping is answered with its own number and stamp, on the path it came in on.
pub proof fn law_a_ping_is_answered_in_kind<S: Scheduler>(
    sched: &S,
    o: Session,
    n: Session,
    i: int,
    seq: u64,
    sent_at_ms: u64,
    out: Handled,
    free: nat,
    now: u64,
)
    requires
        crate::path::distinct_ids(o.paths@),
        0 <= i < o.paths@.len(),
        o.handles(
            sched,
            n,
            o.paths@[i].id,
            Frame::Ping { seq, sent_at_ms },
            false,
            free,
            out,
            now,
        ),
    ensures
        n.streams@ == o.streams@,
        n.metrics == o.metrics,
        out is Ponged,
{
}

/// The slots that hand-overs leave free: one fewer for each chunk, never below
/// none.
pub proof fn law_each_chunk_takes_a_slot(
    free: nat,
    outs: Seq<Option<DataOutcome>>,
    out: Option<DataOutcome>,
)
    ensures
        ({
            let before = slots_left(free, outs);
            let after = slots_left(free, outs.push(out));
            let taken = chunks_handed(out);
            &&& taken <= before ==> after + taken == before
            &&& taken > before ==> after == 0
            &&& slots_left(free, seq![]) == free
        }),
{
    assert(outs.push(out).drop_last() =~= outs);
}

/// A pong counts as a sample while the path carries little; its cap is the loss
/// clock of its class, or of its own RTT before a class is known; the first one
/// is marked.
pub proof fn law_when_a_pong_is_a_sample(s: Session, i: int)
    requires
        crate::path::distinct_ids(s.paths@),
        0 <= i < s.paths@.len(),
    ensures
        ({
            let p = s.paths@[i].stat;
            let g = s.pong_gate(s.paths@[i].id);
            &&& g is Some
            &&& g->0.record <==> p.inflight < s.cfg.tuning.inflight_bias
            &&& g->0.first <==> p.rtt_us == 0
            &&& p.class_known ==> g->0.cap == s.cfg.tuning.loss_timeout_of(
                p.class_rtt_us as int,
            ) as u64
            &&& !p.class_known && p.rtt_us > 0 ==> g->0.cap == s.cfg.tuning.loss_timeout_of(
                p.stable_rtt_us as int,
            ) as u64
            &&& !p.class_known && p.rtt_us == 0 ==> g->0.cap == s.cfg.tuning.unknown_degrade_min
        }),
{
    assert(crate::path::index_of(s.paths@, s.paths@[i].id) == Some(i));
}

/// Only a server takes a stream that it does not know, and hands out what came
/// early for it.
pub proof fn law_who_accepts_a_stream<S: Scheduler>(
    sched: &S,
    o: Session,
    n: Session,
    path_id: u32,
    stream_id: u32,
    target: crate::frames::Target,
    out: Handled,
    free: nat,
    now: u64,
)
    requires
        o.handles(
            sched,
            n,
            path_id,
            Frame::StreamOpen { stream_id, target },
            false,
            free,
            out,
            now,
        ),
    ensures
        out is Accepted <==> !o.is_client && !o.streams@.contains_key(stream_id),
        out is Ignored <==> o.is_client || o.streams@.contains_key(stream_id),
        out is Ignored ==> n == o,
        out is Accepted ==> out->Accepted_id == stream_id && out->Accepted_target == target,
{
}

} // verus!
