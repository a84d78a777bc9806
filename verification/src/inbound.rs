//! Frames that carry the peer's side of a stream.

use vstd::prelude::*;

use crate::cfg::SessionConfig;
use crate::early::PendingEarly;
use crate::lifecycle::EndRecord;
use crate::metrics::{plus, Counters};
use crate::path::{distinct_ids, find_path, loop_rtt, loop_rtt_for, stat_of, PathState};
use crate::pool::left_home;
use crate::recv::{Absorbed, Arrival, Handed, StreamAck};
use crate::sched::{picked, PickPref, Scheduler};
use crate::session::Session;
use crate::stream::{Lifecycle, StreamCounters, StreamState};
use crate::window::ProbeEvent;

verus! {

broadcast use vstd::laws_cmp::group_laws_cmp;

// ---------------------------------------------------------------------------
// Where an ACK waits
// ---------------------------------------------------------------------------
/// The path is in the pool and alive.
pub open spec fn alive_in(ps: Seq<PathState>, id: u32) -> bool {
    match stat_of(ps, id) {
        Some(s) => s.alive(),
        None => false,
    }
}

/// Where an ACK waits for its writer.
#[derive(Clone, Copy, Debug, PartialEq, Eq, Structural)]
pub struct AckStored {
    pub to: Option<u32>,
    /// What the scheduler answered, where it was asked.
    pub picked: Option<u32>,
}

/// The arrival path, else the stream's home, else a picked path that is
/// neither; each only while alive.
pub open spec fn ack_target(
    ps: Seq<PathState>,
    path_id: u32,
    sticky: u32,
    picked: Option<u32>,
) -> Option<u32> {
    if alive_in(ps, path_id) {
        Some(path_id)
    } else if sticky != 0 && sticky != path_id && alive_in(ps, sticky) {
        Some(sticky)
    } else {
        match picked {
            Some(p) => if p != path_id && p != sticky && alive_in(ps, p) {
                Some(p)
            } else {
                None
            },
            None => None,
        }
    }
}

/// The scheduler picks a path for an ACK only where neither the path it came
/// for nor the home is alive.
pub open spec fn ack_asked<S: Scheduler>(
    sched: &S,
    ps: Seq<PathState>,
    path_id: u32,
    sticky: u32,
    answer: Option<u32>,
) -> bool {
    if alive_in(ps, path_id) || (sticky != 0 && sticky != path_id && alive_in(ps, sticky)) {
        answer is None
    } else {
        picked(sched, ps, PickPref::Interactive, answer)
    }
}

/// `n` is the pool with `ack` waiting on path `to`, in place of an older one.
pub open spec fn ack_waits(
    ps: Seq<PathState>,
    n: Seq<PathState>,
    to: Option<u32>,
    id: u32,
    ack: StreamAck,
) -> bool {
    &&& n.len() == ps.len()
    &&& forall|i: int|
        0 <= i < ps.len() ==> if to == Some((#[trigger] n[i]).id) {
            &&& n[i] == (PathState { pending_acks: n[i].pending_acks, ..ps[i] })
            &&& n[i].pending_acks@ == ps[i].pending_acks@.insert(id, ack)
        } else {
            n[i] == ps[i]
        }
}

fn is_alive_in(paths: &Vec<PathState>, id: u32) -> (r: bool)
    requires
        distinct_ids(paths@),
    ensures
        r == alive_in(paths@, id),
{
    match crate::path::get_path(paths, id) {
        Some(p) => p.is_alive(),
        None => false,
    }
}

/// The same acknowledgement.
pub open spec fn same_ack(a: StreamAck, b: StreamAck) -> bool {
    &&& a.stream_id == b.stream_id
    &&& a.acked_offset == b.acked_offset
    &&& a.window == b.window
    &&& a.sack@ == b.sack@
}

fn copy_ack(ack: &StreamAck) -> (r: StreamAck)
    ensures
        same_ack(r, *ack),
{
    let mut sack: Vec<(u64, u64)> = Vec::new();
    let mut i: usize = 0;
    while i < ack.sack.len()
        invariant
            i <= ack.sack@.len(),
            sack@ == ack.sack@.take(i as int),
        decreases ack.sack.len() - i,
    {
        sack.push(ack.sack[i]);
        i += 1;
    }
    assert(ack.sack@.take(ack.sack@.len() as int) =~= ack.sack@);
    StreamAck {
        stream_id: ack.stream_id,
        acked_offset: ack.acked_offset,
        window: ack.window,
        sack,
    }
}

/// Leave an ACK with the best path for it; a newer ACK overwrites an older
/// one and takes no queue slot.
pub fn store_ack<S: Scheduler>(
    paths: &mut Vec<PathState>,
    id: u32,
    ack: StreamAck,
    path_id: u32,
    sticky: u32,
    sched: &S,
) -> (r: AckStored)
    requires
        distinct_ids(old(paths)@),
    ensures
        r.to == ack_target(old(paths)@, path_id, sticky, r.picked),
        ack_asked(sched, old(paths)@, path_id, sticky, r.picked),
        ack_waits(old(paths)@, final(paths)@, r.to, id, ack),
        distinct_ids(final(paths)@),
{
    let mut answer: Option<u32> = None;
    let to: Option<u32> = if is_alive_in(paths, path_id) {
        Some(path_id)
    } else if sticky != 0 && sticky != path_id && is_alive_in(paths, sticky) {
        Some(sticky)
    } else {
        answer = sched.pick_pref(paths, PickPref::Interactive);
        assert(picked(sched, paths@, PickPref::Interactive, answer));
        match answer {
            Some(p) => if p != path_id && p != sticky && is_alive_in(paths, p) {
                Some(p)
            } else {
                None
            },
            None => None,
        }
    };
    let ghost ps = paths@;
    match to {
        Some(t) => match find_path(paths, t) {
            Some(i) => {
                let p: &mut PathState = &mut paths[i];
                let _ = p.pending_acks.insert(id, ack);
                proof {
                    assert forall|a: int, b: int| 0 <= a < b < paths@.len() implies paths@[a].id
                        != paths@[b].id by {
                        assert(paths@[a].id == ps[a].id && paths@[b].id == ps[b].id);
                    }
                    assert forall|k: int| 0 <= k < ps.len() && k != i implies #[trigger] paths@[k]
                        == ps[k] && ps[k].id != t by {}
                }
            },
            None => {},
        },
        None => {},
    }
    AckStored { to, picked: answer }
}

// ---------------------------------------------------------------------------
// STREAM_DATA
// ---------------------------------------------------------------------------
/// What a STREAM_DATA brought about in a session.
pub enum DataOutcome {
    /// Its stream is not open yet; it waits.
    Early,
    Taken {
        absorbed: Absorbed,
        stored: AckStored,
        /// The stream left with this arrival, and how it was counted.
        left: Option<Option<EndRecord>>,
    },
}

/// The session counters after a stream absorbed a piece.
pub open spec fn absorb_counted(
    c: Counters,
    before: StreamCounters,
    after: StreamCounters,
    out: Absorbed,
) -> Counters {
    Counters {
        data_dup_rx_bytes: plus(c.data_dup_rx_bytes, after.dup_rx_bytes - before.dup_rx_bytes),
        ack_after_fin: plus(
            c.ack_after_fin,
            if out.arrival is AfterFin {
                1
            } else {
                0
            },
        ),
        zero_window_hole: plus(c.zero_window_hole, after.zero_win_hole - before.zero_win_hole),
        zero_window_app: plus(c.zero_window_app, after.zero_win_app - before.zero_win_app),
        recv_cap_probes: plus(
            c.recv_cap_probes,
            if out.event() is Started {
                1
            } else {
                0
            },
        ),
        recv_cap_probe_kept: plus(
            c.recv_cap_probe_kept,
            if out.event() is Kept {
                1
            } else {
                0
            },
        ),
        recv_cap_probe_reverted: plus(
            c.recv_cap_probe_reverted,
            if out.event() is Reverted {
                1
            } else {
                0
            },
        ),
        ..c
    }
}

fn count_absorbed(
    metrics: &mut Counters,
    before: &StreamCounters,
    after: &StreamCounters,
    out: &Absorbed,
)
    requires
        after.dup_rx_bytes >= before.dup_rx_bytes,
        after.zero_win_hole >= before.zero_win_hole,
        after.zero_win_app >= before.zero_win_app,
    ensures
        *final(metrics) == absorb_counted(*old(metrics), *before, *after, *out),
{
    metrics.data_dup_rx_bytes = metrics.data_dup_rx_bytes.saturating_add(
        after.dup_rx_bytes - before.dup_rx_bytes,
    );
    match out.arrival {
        Arrival::AfterFin => {
            metrics.ack_after_fin = metrics.ack_after_fin.saturating_add(1);
        },
        _ => {},
    }
    metrics.zero_window_hole = metrics.zero_window_hole.saturating_add(
        after.zero_win_hole - before.zero_win_hole,
    );
    metrics.zero_window_app = metrics.zero_window_app.saturating_add(
        after.zero_win_app - before.zero_win_app,
    );
    let event: ProbeEvent = match &out.handed {
        Some(h) => h.event,
        None => ProbeEvent::Quiet,
    };
    match event {
        ProbeEvent::Quiet => {},
        ProbeEvent::Started => {
            metrics.recv_cap_probes = metrics.recv_cap_probes.saturating_add(1);
        },
        ProbeEvent::Kept => {
            metrics.recv_cap_probe_kept = metrics.recv_cap_probe_kept.saturating_add(1);
        },
        ProbeEvent::Reverted => {
            metrics.recv_cap_probe_reverted = metrics.recv_cap_probe_reverted.saturating_add(1);
        },
    }
}

/// A drain alone, as what an arrival brought about.
pub open spec fn drained_only(h: Handed) -> Absorbed {
    Absorbed { arrival: Arrival::Buffered, forget_open: false, handed: Some(h) }
}

/// What a read by the application brought about.
pub struct AppRead {
    pub handed: Handed,
    pub stored: AckStored,
    /// The stream left with this read, and how it was counted.
    pub left: Option<Option<EndRecord>>,
}

/// `n` holds `s1` as stream `id`; where its receive side ended it has no home
/// and no Close to repeat. `qs` is the pool before that.
pub open spec fn filed(
    o: Session,
    n: Session,
    id: u32,
    s1: StreamState,
    fin: bool,
    qs: Seq<PathState>,
) -> bool {
    &&& n.closes@ == if fin {
        o.closes@.remove(id)
    } else {
        o.closes@
    }
    &&& n.paths@ == if fin && s1.life.sticky != 0 {
        left_home(qs, s1.life.sticky)
    } else {
        qs
    }
    &&& n.streams@.contains_key(id)
    &&& n.streams@ == o.streams@.insert(id, n.streams@[id])
    &&& n.streams@[id] == if fin {
        StreamState { life: Lifecycle { sticky: 0, ..s1.life }, ..s1 }
    } else {
        s1
    }
}

proof fn lemma_drain_counts_up(
    st: StreamState,
    n: StreamState,
    out: Handed,
    hit: bool,
    free: nat,
    rtt: Option<u64>,
    cfg: SessionConfig,
    now: u64,
)
    requires
        st.drains_and_acks(n, out, hit, free, rtt, cfg, now),
    ensures
        n.counters.dup_rx_bytes >= st.counters.dup_rx_bytes,
        n.counters.zero_win_hole >= st.counters.zero_win_hole,
        n.counters.zero_win_app >= st.counters.zero_win_app,
        n.id == st.id,
        n.life == st.life,
        n.send == st.send,
        n.unacked == st.unacked,
        n.counters.send_next == st.counters.send_next,
{
}

proof fn lemma_absorb_counts_up(
    st: StreamState,
    n: StreamState,
    out: Absorbed,
    path_id: u32,
    offset: u64,
    data: Seq<u8>,
    hit: bool,
    free: nat,
    rtt: Option<u64>,
    cfg: SessionConfig,
    now: u64,
)
    requires
        st.absorbs(n, out, path_id, offset, data, hit, free, rtt, cfg, now),
    ensures
        n.counters.dup_rx_bytes >= st.counters.dup_rx_bytes,
        n.counters.zero_win_hole >= st.counters.zero_win_hole,
        n.counters.zero_win_app >= st.counters.zero_win_app,
        n.id == st.id,
        n.life == st.life,
        n.send == st.send,
        n.unacked == st.unacked,
        n.counters.send_next == st.counters.send_next,
{
    let s1 = choose|s1: StreamState| #[trigger]
        st.delivers_to(s1, path_id, offset, data, (out.arrival, out.forget_open))
            && s1.follows_up(n, out, hit, free, rtt, cfg, now);
}

impl Session {
    /// `n` is this session once `s1`, stream `id` after a piece or a drain, is
    /// filed with its ACK stored; a stream whose receive side ends with it
    /// gives up its home and its Close. `before` are its counters before.
    pub open spec fn takes_data<S: Scheduler>(
        self,
        sched: &S,
        n: Self,
        id: u32,
        before: StreamCounters,
        s1: StreamState,
        qs: Seq<PathState>,
        absorbed: Absorbed,
        stored: AckStored,
        path_id: u32,
    ) -> bool {
        &&& n.cfg == self.cfg
        &&& n.is_client == self.is_client
        &&& n.marks == self.marks
        &&& n.memory == self.memory
        &&& n.early == self.early
        &&& n.resets == self.resets
        &&& n.opens@ == if absorbed.forget_open {
            self.opens@.remove(id)
        } else {
            self.opens@
        }
        &&& n.metrics == absorb_counted(self.metrics, before, s1.counters, absorbed)
        &&& match absorbed.handed {
            Some(h) => {
                &&& stored.to == ack_target(self.paths@, path_id, s1.life.sticky, stored.picked)
                &&& ack_asked(sched, self.paths@, path_id, s1.life.sticky, stored.picked)
                &&& exists|kept: StreamAck| #[trigger]
                    same_ack(kept, h.ack) && ack_waits(self.paths@, qs, stored.to, id, kept)
            },
            None => qs == self.paths@ && stored.to is None && stored.picked is None,
        }
        &&& filed(self, n, id, s1, absorbed.fin(), qs)
    }

    /// What a STREAM_DATA does to this session.
    pub open spec fn receives<S: Scheduler>(
        self,
        sched: &S,
        n: Self,
        out: DataOutcome,
        path_id: u32,
        id: u32,
        offset: u64,
        data: Seq<u8>,
        hit: bool,
        free: nat,
        now: u64,
    ) -> bool {
        match out {
            DataOutcome::Early => {
                &&& !self.streams@.contains_key(id)
                &&& n == (Session { early: n.early, ..self })
                &&& n.early.waiting(id).len() == self.early.waiting(id).len() + 1
                &&& n.early.waiting(id).drop_last() == self.early.waiting(id)
                &&& ({
                    let e = n.early.waiting(id).last();
                    e.at == now && e.path_id == path_id && e.offset == offset && e.data@ == data
                })
                &&& forall|other: u32|
                    other != id ==> #[trigger] n.early.waiting(other) == self.early.waiting(other)
            },
            DataOutcome::Taken { absorbed, stored, left } => self.delivers(
                sched,
                n,
                absorbed,
                stored,
                left,
                path_id,
                id,
                offset,
                data,
                hit,
                free,
                now,
            ),
        }
    }

    /// What a piece of an open stream does to this session.
    pub open spec fn delivers<S: Scheduler>(
        self,
        sched: &S,
        n: Self,
        absorbed: Absorbed,
        stored: AckStored,
        left: Option<Option<EndRecord>>,
        path_id: u32,
        id: u32,
        offset: u64,
        data: Seq<u8>,
        hit: bool,
        free: nat,
        now: u64,
    ) -> bool {
        let st = self.streams@[id];
        &&& self.streams@.contains_key(id)
        &&& exists|mid: Self, s1: StreamState, qs: Seq<PathState>| #[trigger]
            self.takes_data(sched, mid, id, st.counters, s1, qs, absorbed, stored, path_id) && st.absorbs(
                s1,
                absorbed,
                path_id,
                offset,
                data,
                hit,
                free,
                loop_rtt(self.paths@, path_id, st.life.sticky),
                self.cfg,
                now,
            ) && mid.ends_with_fin(n, id, absorbed.fin(), left, now)
    }

    /// A stream that ended in both directions with this arrival leaves.
    pub open spec fn ends_with_fin(
        self,
        n: Self,
        id: u32,
        fin: bool,
        left: Option<Option<EndRecord>>,
        now: u64,
    ) -> bool {
        &&& left is Some <==> fin && self.both_ended(id)
        &&& match left {
            Some(record) => self.leaves_quietly(n, id, None, record, now),
            None => n == self,
        }
    }

    /// File a stream after a piece or a drain: count, store its ACK, and end
    /// it where its receive side ended.
    fn settle<S: Scheduler>(
        &mut self,
        id: u32,
        before: &StreamCounters,
        stream: StreamState,
        absorbed: &Absorbed,
        path_id: u32,
        sched: &S,
        now: u64,
    ) -> (r: (AckStored, Option<Option<EndRecord>>))
        requires
            old(self).wf(),
            !old(self).streams@.contains_key(id),
            stream.id == id,
            stream.recv_wf(),
            stream.send_wf(),
            stream.counters.dup_rx_bytes >= before.dup_rx_bytes,
            stream.counters.zero_win_hole >= before.zero_win_hole,
            stream.counters.zero_win_app >= before.zero_win_app,
        ensures
            final(self).wf(),
            exists|mid: Self, qs: Seq<PathState>| #[trigger]
                old(self).takes_data(sched, mid, id, *before, stream, qs, *absorbed, r.0, path_id)
                    && mid.ends_with_fin(*final(self), id, absorbed.fin(), r.1, now),
    {
        let ghost o = *self;
        let ghost s1 = stream;
        let mut st: StreamState = stream;
        let sticky: u32 = st.life.sticky;
        count_absorbed(&mut self.metrics, before, &st.counters, absorbed);
        if absorbed.forget_open {
            self.opens.forget(id);
        }
        let stored: AckStored = match &absorbed.handed {
            Some(h) => {
                let kept: StreamAck = copy_ack(&h.ack);
                assert(same_ack(kept, absorbed.handed->0.ack));
                store_ack(&mut self.paths, id, kept, path_id, sticky, sched)
            },
            None => AckStored { to: None, picked: None },
        };
        let ghost qs = self.paths@;
        let fin: bool = match &absorbed.handed {
            Some(h) => h.fin,
            None => false,
        };
        if fin {
            st.unstick(&mut self.paths);
            self.closes.forget(id);
        }
        let _ = self.streams.insert(id, st);
        let ghost mid = *self;
        proof {
            assert(mid.streams@ =~= o.streams@.insert(id, mid.streams@[id]));
            assert(filed(o, mid, id, s1, absorbed.fin(), qs));
            assert(o.takes_data(sched, mid, id, *before, s1, qs, *absorbed, stored, path_id));
        }
        let left: Option<Option<EndRecord>> = if fin {
            self.maybe_count_graceful(id, now)
        } else {
            None
        };
        proof {
            assert(mid.ends_with_fin(*self, id, absorbed.fin(), left, now));
        }
        let r: (AckStored, Option<Option<EndRecord>>) = (stored, left);
        assert(old(self).takes_data(sched, mid, id, *before, s1, qs, *absorbed, r.0, path_id)
            && mid.ends_with_fin(*self, id, absorbed.fin(), r.1, now));
        r
    }

    /// Take a STREAM_DATA that arrived on `path_id`. The application has
    /// `free` slots; `hit` says that the piece ended on an advertised edge.
    pub fn on_data<S: Scheduler>(
        &mut self,
        path_id: u32,
        id: u32,
        offset: u64,
        data: Vec<u8>,
        hit: bool,
        free: usize,
        sched: &S,
        now: u64,
    ) -> (out: DataOutcome)
        requires
            old(self).wf(),
            offset + data@.len() <= u64::MAX,
            old(self).streams@.contains_key(id) ==> old(self).streams@[id].recv.buffered_in + old(
                self,
            ).streams@[id].recv.recv_buffered + data@.len() <= u64::MAX,
        ensures
            final(self).wf(),
            old(self).receives(
                sched,
                *final(self),
                out,
                path_id,
                id,
                offset,
                data@,
                hit,
                free as nat,
                now,
            ),
    {
        let ghost o = *self;
        let ghost bytes = data@;
        if !self.streams.contains_key(&id) {
            self.early.push_early_data(id, PendingEarly { at: now, path_id, offset, data });
            proof {
                assert(self.early.waiting(id).drop_last() =~= o.early.waiting(id));
            }
            return DataOutcome::Early;
        }
        match self.streams.remove(&id) {
            Some(stream) => {
                let mut st: StreamState = stream;
                let ghost st0 = st;
                let before: StreamCounters = st.counters;
                let rtt: Option<u64> = loop_rtt_for(&self.paths, path_id, st.life.sticky);
                let absorbed: Absorbed = st.absorb_data(
                    path_id,
                    offset,
                    data,
                    hit,
                    free,
                    rtt,
                    &self.cfg,
                    now,
                );
                let ghost s1 = st;
                let ghost bare = *self;
                proof {
                    lemma_absorb_counts_up(
                        st0,
                        s1,
                        absorbed,
                        path_id,
                        offset,
                        bytes,
                        hit,
                        free as nat,
                        rtt,
                        o.cfg,
                        now,
                    );
                }
                let (stored, left) = self.settle(id, &before, st, &absorbed, path_id, sched, now);
                proof {
                    let (mid, qs) = choose|mid: Self, qs: Seq<PathState>| #[trigger]
                        bare.takes_data(sched, mid, id, before, s1, qs, absorbed, stored, path_id)
                            && mid.ends_with_fin(*self, id, absorbed.fin(), left, now);
                    assert(bare.streams@.insert(id, mid.streams@[id]) =~= o.streams@.insert(
                        id,
                        mid.streams@[id],
                    ));
                    assert(filed(o, mid, id, s1, absorbed.fin(), qs));
                    assert(o.takes_data(sched, mid, id, before, s1, qs, absorbed, stored, path_id));
                }
                DataOutcome::Taken { absorbed, stored, left }
            },
            None => DataOutcome::Early,
        }
    }

    /// What a read by the application does to this session.
    pub open spec fn reads<S: Scheduler>(
        self,
        sched: &S,
        n: Self,
        out: AppRead,
        id: u32,
        len: u64,
        free: nat,
        now: u64,
    ) -> bool {
        let st = self.streams@[id];
        &&& self.streams@.contains_key(id)
        &&& exists|mid: Self, s1: StreamState, qs: Seq<PathState>| #[trigger]
            self.takes_data(
                sched,
                mid,
                id,
                st.counters,
                s1,
                qs,
                drained_only(out.handed),
                out.stored,
                st.recv.last_recv_path,
            ) && st.after_read(len).drains_and_acks(
                s1,
                out.handed,
                false,
                free,
                loop_rtt(self.paths@, st.recv.last_recv_path, st.life.sticky),
                self.cfg,
                now,
            ) && mid.ends_with_fin(n, id, out.handed.fin, out.left, now)
    }

    /// The application took `len` bytes and has `free` slots: hand over what
    /// a full channel left behind, and send the window update.
    pub fn note_app_read<S: Scheduler>(
        &mut self,
        id: u32,
        len: u64,
        free: usize,
        sched: &S,
        now: u64,
    ) -> (out: Option<AppRead>)
        requires
            old(self).wf(),
        ensures
            final(self).wf(),
            match out {
                Some(r) => old(self).reads(sched, *final(self), r, id, len, free as nat, now),
                None => !old(self).streams@.contains_key(id) && *final(self) == *old(self),
            },
    {
        let ghost o = *self;
        if !self.streams.contains_key(&id) {
            return None;
        }
        match self.streams.remove(&id) {
            Some(stream) => {
                let mut st: StreamState = stream;
                let before: StreamCounters = st.counters;
                let path_id: u32 = st.recv.last_recv_path;
                st.note_app_read(len);
                let ghost read = st;
                assert(read == o.streams@[id].after_read(len));
                let rtt: Option<u64> = loop_rtt_for(&self.paths, path_id, st.life.sticky);
                let handed: Handed = st.drain_and_ack(false, free, rtt, &self.cfg, now);
                let ghost s1 = st;
                let ghost bare = *self;
                proof {
                    lemma_drain_counts_up(
                        read,
                        s1,
                        handed,
                        false,
                        free as nat,
                        rtt,
                        o.cfg,
                        now,
                    );
                }
                let absorbed: Absorbed = Absorbed {
                    arrival: Arrival::Buffered,
                    forget_open: false,
                    handed: Some(handed),
                };
                let (stored, left) = self.settle(id, &before, st, &absorbed, path_id, sched, now);
                proof {
                    let (mid, qs) = choose|mid: Self, qs: Seq<PathState>| #[trigger]
                        bare.takes_data(sched, mid, id, before, s1, qs, absorbed, stored, path_id)
                            && mid.ends_with_fin(*self, id, absorbed.fin(), left, now);
                    assert(bare.streams@.insert(id, mid.streams@[id]) =~= o.streams@.insert(
                        id,
                        mid.streams@[id],
                    ));
                    assert(absorbed == drained_only(handed));
                    assert(filed(o, mid, id, s1, absorbed.fin(), qs));
                    assert(o.takes_data(
                        sched,
                        mid,
                        id,
                        before,
                        s1,
                        qs,
                        drained_only(handed),
                        stored,
                        path_id,
                    ));
                }
                match absorbed.handed {
                    Some(h) => Some(AppRead { handed: h, stored, left }),
                    None => None,
                }
            },
            None => None,
        }
    }
}

/// An ACK waits on the path its data came in on where that is alive; else on
/// the stream's home; else on the one the scheduler names; and nowhere where
/// none of these is alive.
pub proof fn law_where_an_ack_waits(ps: Seq<PathState>, i: int, j: int, answer: Option<u32>)
    requires
        crate::path::distinct_ids(ps),
        0 <= i < ps.len(),
        0 <= j < ps.len(),
        i != j,
        ps[j].id != 0,
    ensures
        ({
            let (a, b) = (ps[i], ps[j]);
            let lit = a.stat.state != crate::path::Health::Down;
            let home_lit = b.stat.state != crate::path::Health::Down;
            &&& lit ==> ack_target(ps, a.id, b.id, answer) == Some(a.id)
            &&& !lit && home_lit ==> ack_target(ps, a.id, b.id, answer) == Some(b.id)
            &&& !lit && !home_lit ==> ack_target(ps, a.id, b.id, None) is None
            &&& !lit && !home_lit && answer is Some && alive_in(ps, answer->0) ==> ack_target(
                ps,
                a.id,
                b.id,
                answer,
            ) == answer
            &&& ack_target(ps, a.id, b.id, answer) is Some ==> alive_in(
                ps,
                ack_target(ps, a.id, b.id, answer)->0,
            )
        }),
{
    assert(crate::path::index_of(ps, ps[i].id) == Some(i));
    assert(crate::path::index_of(ps, ps[j].id) == Some(j));
}

/// What an arrival adds to the counters is what it added to the stream's, one
/// for data after the end, and one for each turn of a probe.
pub proof fn law_what_an_arrival_counts(
    c: Counters,
    before: StreamCounters,
    after: StreamCounters,
    out: Absorbed,
)
    requires
        before.dup_rx_bytes <= after.dup_rx_bytes,
        before.zero_win_hole <= after.zero_win_hole,
        before.zero_win_app <= after.zero_win_app,
        c.data_dup_rx_bytes + after.dup_rx_bytes <= u64::MAX,
        c.zero_window_hole + after.zero_win_hole <= u64::MAX,
        c.zero_window_app + after.zero_win_app <= u64::MAX,
        c.ack_after_fin < u64::MAX,
        c.recv_cap_probes < u64::MAX,
        c.recv_cap_probe_kept < u64::MAX,
        c.recv_cap_probe_reverted < u64::MAX,
    ensures
        ({
            let n = absorb_counted(c, before, after, out);
            &&& n.data_dup_rx_bytes - c.data_dup_rx_bytes == after.dup_rx_bytes
                - before.dup_rx_bytes
            &&& n.zero_window_hole - c.zero_window_hole == after.zero_win_hole
                - before.zero_win_hole
            &&& n.zero_window_app - c.zero_window_app == after.zero_win_app - before.zero_win_app
            &&& n.ack_after_fin - c.ack_after_fin == if out.arrival is AfterFin {
                1int
            } else {
                0
            }
            &&& n.recv_cap_probes - c.recv_cap_probes == if out.event() is Started {
                1int
            } else {
                0
            }
            &&& n.recv_cap_probe_kept - c.recv_cap_probe_kept == if out.event() is Kept {
                1int
            } else {
                0
            }
            &&& n.recv_cap_probe_reverted - c.recv_cap_probe_reverted == if out.event() is Reverted {
                1int
            } else {
                0
            }
        }),
{
}

} // verus!
