//! What the peer answers: acknowledgements and the end of its side.

use vstd::prelude::*;

use crate::cfg::SessionConfig;
use crate::inbound::filed;
use crate::lifecycle::EndRecord;
use crate::maps::{ids_of, lists_ids};
use crate::metrics::{plus, Counters};
use crate::num::{above, capped, larger};
use crate::path::{distinct_ids, get_path, stat_of, PathStat, PathState};
use crate::pool::{lemma_with_stat, put_stat, with_stat};
use crate::recv::{close_off_after, StreamAck};
use crate::resend::Resend;
use crate::sched::Scheduler;
use crate::send::{
    clock_advanced, leaves, lists_gone, release_piece, samples_of, AckOutcome, PieceSamples,
};
use crate::session::Session;
use crate::stream::{
    close_stamp, Lifecycle, RecvState, SendState, StreamCounters, StreamState, Unacked,
};

verus! {

broadcast use vstd::laws_cmp::group_laws_cmp;

// ---------------------------------------------------------------------------
// STREAM_ACK
// ---------------------------------------------------------------------------
impl StreamState {
    /// `n` is this stream, and `out` what it gave up, once `ack` arrived.
    pub open spec fn acknowledged(
        self,
        n: Self,
        ack: StreamAck,
        out: AckOutcome,
        now_ms: u64,
    ) -> bool {
        &&& lists_gone(self.unacked@, out.cum@, self.by_cum(ack.acked_offset))
        &&& lists_gone(self.unacked@, out.sacked@, self.by_sack(ack.acked_offset, ack.sack@))
        &&& leaves(self.unacked@, n.unacked@, self.by_ack(ack.acked_offset, ack.sack@))
        &&& n.counters == (StreamCounters { send_window: ack.window, ..self.counters })
        &&& n.send == (SendState {
            send_acked: larger(self.send.send_acked as int, ack.acked_offset as int) as u64,
            last_ack_ms: if self.advances(ack.acked_offset) {
                larger(now_ms as int, 1) as u64
            } else {
                self.send.last_ack_ms
            },
            sacked: capped(self.send.sacked + out.sacked@.len()) as u64,
            last_sack_ms: if out.sacked@.len() > 0 {
                larger(now_ms as int, 1) as u64
            } else {
                self.send.last_sack_ms
            },
            ..self.send
        })
        &&& n.same_but_send(self)
    }
}

/// The pool once each of these pieces, in order, was accounted for on the path
/// that carried it: its bytes leave the path's load and its ACK clock moves.
pub open spec fn released_pool(ps: Seq<PathState>, pieces: Seq<(u64, Unacked)>, now: u64) -> Seq<
    PathState,
>
    decreases pieces.len(),
{
    if pieces.len() == 0 {
        ps
    } else {
        let qs = released_pool(ps, pieces.drop_last(), now);
        let u = pieces.last().1;
        match stat_of(qs, u.path_id) {
            Some(p) => with_stat(qs, u.path_id, clock_advanced(u, p, now)),
            None => qs,
        }
    }
}

/// What each of these pieces, in order, tells of its path; nothing of a path
/// that is gone.
pub open spec fn release_samples(
    ps: Seq<PathState>,
    pieces: Seq<(u64, Unacked)>,
    cfg: SessionConfig,
    now: u64,
) -> Seq<Option<PieceSamples>>
    decreases pieces.len(),
{
    if pieces.len() == 0 {
        seq![]
    } else {
        let qs = released_pool(ps, pieces.drop_last(), now);
        let u = pieces.last().1;
        release_samples(ps, pieces.drop_last(), cfg, now).push(
            match stat_of(qs, u.path_id) {
                Some(p) => Some(samples_of(u, p, cfg, now)),
                None => None,
            },
        )
    }
}

/// What a STREAM_ACK released, and what that tells of the paths.
pub struct Acked {
    pub gone: AckOutcome,
    /// One for each piece that was released, the cumulative ones first.
    pub samples: Vec<Option<PieceSamples>>,
}

impl Acked {
    /// The pieces that were released, in order.
    pub open spec fn pieces(self) -> Seq<(u64, Unacked)> {
        self.gone.cum@ + self.gone.sacked@
    }
}

impl Session {
    /// What a STREAM_ACK does to this session: nothing to an unknown stream;
    /// else the stream takes it, its StreamOpen needs no repeat, and every
    /// piece that leaves gives its bytes back to its path.
    pub open spec fn takes_ack(self, n: Self, ack: StreamAck, a: Acked, now: u64) -> bool {
        let id = ack.stream_id;
        let out = a.gone;
        &&& self.streams@.contains_key(id)
        &&& n.streams@.contains_key(id)
        &&& n.streams@ == self.streams@.insert(id, n.streams@[id])
        &&& self.streams@[id].acknowledged(n.streams@[id], ack, out, (now / 1000) as u64)
        &&& n.opens@ == self.opens@.remove(id)
        &&& n.metrics == (Counters {
            data_sacked: plus(self.metrics.data_sacked, out.sacked@.len() as int),
            ..self.metrics
        })
        &&& n.paths@ == released_pool(self.paths@, a.pieces(), now)
        &&& a.samples@ == release_samples(self.paths@, a.pieces(), self.cfg, now)
        &&& n == (Session {
            streams: n.streams,
            opens: n.opens,
            metrics: n.metrics,
            paths: n.paths,
            ..self
        })
    }

    /// Take a STREAM_ACK: what it covers leaves the stream and the load of the
    /// paths. The samples are for the paths' own estimators.
    pub fn on_ack(&mut self, ack: StreamAck, now: u64) -> (out: Option<Acked>)
        requires
            old(self).wf(),
        ensures
            final(self).wf(),
            match out {
                Some(a) => old(self).takes_ack(*final(self), ack, a, now),
                None => !old(self).streams@.contains_key(ack.stream_id) && *final(self) == *old(
                    self,
                ),
            },
    {
        let ghost o = *self;
        let id: u32 = ack.stream_id;
        if !self.streams.contains_key(&id) {
            return None;
        }
        match self.streams.remove(&id) {
            Some(stream) => {
                let mut st: StreamState = stream;
                let gone: AckOutcome = st.on_ack(ack, now / 1000);
                let ghost s1 = st;
                self.opens.forget(id);
                self.metrics.data_sacked = self.metrics.data_sacked.saturating_add(
                    gone.sacked.len() as u64,
                );
                let _ = self.streams.insert(id, st);
                proof {
                    assert(s1.recv_wf());
                    assert(self.streams@ =~= o.streams@.insert(id, self.streams@[id]));
                }
                let mut samples: Vec<Option<PieceSamples>> = Vec::new();
                self.release_all(&gone.cum, Ghost(Seq::empty()), Ghost(o.paths@), &mut samples, now);
                self.release_all(&gone.sacked, Ghost(gone.cum@), Ghost(o.paths@), &mut samples, now);
                proof {
                    assert(Seq::empty() + gone.cum@ =~= gone.cum@);
                }
                Some(Acked { gone, samples })
            },
            None => None,
        }
    }

    /// Account for more acknowledged pieces: `before` were accounted for, from
    /// the pool `ps` on.
    fn release_all(
        &mut self,
        pieces: &Vec<(u64, Unacked)>,
        Ghost(before): Ghost<Seq<(u64, Unacked)>>,
        Ghost(ps): Ghost<Seq<PathState>>,
        samples: &mut Vec<Option<PieceSamples>>,
        now: u64,
    )
        requires
            old(self).wf(),
            old(self).paths@ == released_pool(ps, before, now),
            old(samples)@ == release_samples(ps, before, old(self).cfg, now),
        ensures
            final(self).wf(),
            *final(self) == (Session { paths: final(self).paths, ..*old(self) }),
            final(self).paths@ == released_pool(ps, before + pieces@, now),
            final(samples)@ == release_samples(ps, before + pieces@, old(self).cfg, now),
    {
        let ghost o = *self;
        let mut i: usize = 0;
        assert(before + pieces@.take(0) =~= before);
        while i < pieces.len()
            invariant
                i <= pieces@.len(),
                self.wf(),
                *self == (Session { paths: self.paths, ..o }),
                self.paths@ == released_pool(ps, before + pieces@.take(i as int), now),
                samples@ == release_samples(ps, before + pieces@.take(i as int), o.cfg, now),
            decreases pieces.len() - i,
        {
            let s: Option<PieceSamples> = self.release(&pieces[i].1, now);
            samples.push(s);
            proof {
                let next = before + pieces@.take(i as int + 1);
                assert(next.drop_last() =~= before + pieces@.take(i as int));
                assert(next.last() == pieces@[i as int]);
            }
            i += 1;
        }
        assert(pieces@.take(pieces@.len() as int) =~= pieces@);
    }

    /// Account for one acknowledged piece on the path that carried it. The
    /// samples are for the path's own estimators; nothing for a path that is
    /// gone.
    pub fn release(&mut self, u: &Unacked, now: u64) -> (r: Option<PieceSamples>)
        requires
            old(self).wf(),
        ensures
            final(self).wf(),
            match stat_of(old(self).paths@, u.path_id) {
                Some(p) => {
                    &&& r == Some(samples_of(*u, p, old(self).cfg, now))
                    &&& final(self).paths@ == with_stat(
                        old(self).paths@,
                        u.path_id,
                        clock_advanced(*u, p, now),
                    )
                },
                None => r is None && final(self).paths@ == old(self).paths@,
            },
            *final(self) == (Session { paths: final(self).paths, ..*old(self) }),
    {
        match get_path(&self.paths, u.path_id) {
            Some(stat) => {
                let mut p: PathStat = stat;
                let s: PieceSamples = release_piece(u, &mut p, &self.cfg, now);
                put_stat(&mut self.paths, u.path_id, p);
                Some(s)
            },
            None => None,
        }
    }
}

// ---------------------------------------------------------------------------
// STREAM_CLOSE
// ---------------------------------------------------------------------------
impl StreamState {
    /// This stream once the peer named its final offset.
    pub open spec fn peer_closed(self, final_offset: Option<u64>, now_ms: u64) -> Self {
        StreamState {
            recv: RecvState {
                recv_close_off: close_off_after(
                    self.recv.recv_close_off,
                    final_offset,
                    self.counters.recv_next,
                ),
                ..self.recv
            },
            life: Lifecycle {
                close_started_ms: close_stamp(self.life.close_started_ms, now_ms),
                ..self.life
            },
            ..self
        }
    }

    /// This stream once its receive side ended, where it did.
    pub open spec fn recv_finished(self, fin: bool) -> Self {
        StreamState {
            recv: RecvState { recv_fin: self.recv.recv_fin || fin, ..self.recv },
            ..self
        }
    }
}

/// What the end of the peer's side brought about.
#[derive(Clone, Copy, Debug, PartialEq, Eq, Structural)]
pub struct RecvClosed {
    /// Tell the application of the end.
    pub fin: bool,
    /// The stream left, and how it was counted.
    pub left: Option<Option<EndRecord>>,
}

impl Session {
    /// `n` is this session once `st`, stream `id`, was filed, its receive
    /// side ended where that is due.
    pub open spec fn finishes_recv(
        self,
        n: Self,
        id: u32,
        st: StreamState,
        out: RecvClosed,
        now: u64,
    ) -> bool {
        &&& out.fin == st.fin_due()
        &&& exists|mid: Self| #[trigger]
            filed(self, mid, id, st.recv_finished(out.fin), out.fin, self.paths@) && mid == (Session {
                streams: mid.streams,
                closes: mid.closes,
                paths: mid.paths,
                ..self
            }) && mid.ends_with_fin(n, id, out.fin, out.left, now)
    }

    fn finish_recv(&mut self, id: u32, stream: StreamState, now: u64) -> (out: RecvClosed)
        requires
            old(self).wf(),
            stream.id == id,
            stream.recv_wf(),
            stream.send_wf(),
        ensures
            final(self).wf(),
            old(self).finishes_recv(*final(self), id, stream, out, now),
    {
        let ghost o = *self;
        let ghost st0 = stream;
        let mut st: StreamState = stream;
        let fin: bool = st.try_finish_recv_close();
        let ghost s1 = st;
        assert(s1 == st0.recv_finished(fin));
        if fin {
            st.unstick(&mut self.paths);
            self.closes.forget(id);
        }
        let _ = self.streams.insert(id, st);
        let ghost mid = *self;
        proof {
            assert(mid.streams@ =~= o.streams@.insert(id, mid.streams@[id]));
            assert(filed(o, mid, id, s1, fin, o.paths@));
        }
        let left: Option<Option<EndRecord>> = if fin {
            self.maybe_count_graceful(id, now)
        } else {
            None
        };
        proof {
            assert(mid.ends_with_fin(*self, id, fin, left, now));
        }
        RecvClosed { fin, left }
    }

    /// The peer named the end of its side.
    pub fn on_peer_close(&mut self, id: u32, final_offset: Option<u64>, now: u64) -> (out: Option<
        RecvClosed,
    >)
        requires
            old(self).wf(),
        ensures
            final(self).wf(),
            match out {
                Some(c) => old(self).streams@.contains_key(id) && old(self).finishes_recv(
                    *final(self),
                    id,
                    old(self).streams@[id].peer_closed(final_offset, (now / 1000) as u64),
                    c,
                    now,
                ),
                None => !old(self).streams@.contains_key(id) && *final(self) == *old(self),
            },
    {
        let ghost o = *self;
        if !self.streams.contains_key(&id) {
            return None;
        }
        match self.streams.remove(&id) {
            Some(stream) => {
                let mut st: StreamState = stream;
                st.on_peer_close(final_offset, now / 1000);
                let ghost s1 = st;
                assert(s1 == o.streams@[id].peer_closed(final_offset, (now / 1000) as u64));
                assert(s1.recv_wf());
                let ghost bare = *self;
                let out: RecvClosed = self.finish_recv(id, st, now);
                proof {
                    lemma_finishes_recv_over(o, bare, *self, id, s1, out, now);
                }
                Some(out)
            },
            None => None,
        }
    }

    /// `n` is this session once the streams `ids`, in order, were ended where
    /// that is due.
    pub open spec fn expires_closes(
        self,
        n: Self,
        ids: Seq<u32>,
        outs: Seq<RecvClosed>,
        now: u64,
    ) -> bool
        decreases ids.len(),
    {
        if ids.len() == 0 {
            n == self && outs.len() == 0
        } else {
            &&& outs.len() == ids.len()
            &&& exists|mid: Self|
                self.expires_closes(mid, ids.drop_last(), outs.drop_last(), now)
                    && mid.streams@.contains_key(ids.last()) && #[trigger] mid.finishes_recv(
                    n,
                    ids.last(),
                    mid.streams@[ids.last()],
                    outs.last(),
                    now,
                )
        }
    }

    /// End the receive side of every stream that reached its final offset.
    /// Not a clock: nothing else ends here.
    pub fn expire_recv_closes(&mut self, now: u64) -> (r: (Vec<u32>, Vec<RecvClosed>))
        requires
            old(self).wf(),
        ensures
            final(self).wf(),
            lists_ids(r.0@, old(self).streams@),
            old(self).expires_closes(*final(self), r.0@, r.1@, now),
    {
        let ghost o = *self;
        let ids: Vec<u32> = ids_of(&self.streams);
        let mut outs: Vec<RecvClosed> = Vec::new();
        let mut i: usize = 0;
        proof {
            assert forall|j: int| 0 <= j < ids@.len() implies self.streams@.contains_key(
                #[trigger] ids@[j],
            ) by {
                assert(ids@.contains(ids@[j]));
            }
            assert(ids@.take(0) =~= seq![]);
        }
        while i < ids.len()
            invariant
                i <= ids@.len(),
                self.wf(),
                outs@.len() == i,
                forall|a: int, b: int| 0 <= a < b < ids@.len() ==> ids@[a] < ids@[b],
                forall|j: int|
                    i <= j < ids@.len() ==> self.streams@.contains_key(#[trigger] ids@[j]),
                o.expires_closes(*self, ids@.take(i as int), outs@, now),
            decreases ids.len() - i,
        {
            let id: u32 = ids[i];
            let ghost before = *self;
            let ghost outs0 = outs@;
            assert(self.streams@.contains_key(ids@[i as int]));
            match self.streams.remove(&id) {
                Some(st) => {
                    let ghost st0 = st;
                    let ghost bare = *self;
                    let out: RecvClosed = self.finish_recv(id, st, now);
                    outs.push(out);
                    proof {
                        lemma_finishes_recv_over(before, bare, *self, id, st0, out, now);
                        assert(ids@.take(i as int + 1).drop_last() =~= ids@.take(i as int));
                        assert(outs@.drop_last() =~= outs0);
                        assert(o.expires_closes(
                            before,
                            ids@.take(i as int + 1).drop_last(),
                            outs@.drop_last(),
                            now,
                        ));
                        assert(before.finishes_recv(
                            *self,
                            ids@.take(i as int + 1).last(),
                            st0,
                            outs@.last(),
                            now,
                        ));
                        assert(st0 == before.streams@[ids@.take(i as int + 1).last()]);
                        assert(o.expires_closes(*self, ids@.take(i as int + 1), outs@, now));
                        lemma_others_stay(before, *self, id, st0, out, now);
                        assert forall|j: int| i < j < ids@.len() implies self.streams@.contains_key(
                            #[trigger] ids@[j],
                        ) by {
                            assert(before.streams@.contains_key(ids@[j]));
                            assert(ids@[i as int] < ids@[j]);
                        }
                    }
                },
                None => {
                    assert(false);
                },
            }
            i += 1;
        }
        assert(ids@.take(ids@.len() as int) =~= ids@);
        (ids, outs)
    }
}

/// Filing over a session that still holds the stream is filing over one that
/// gave it up for that.
proof fn lemma_finishes_recv_over(
    o: Session,
    bare: Session,
    n: Session,
    id: u32,
    st: StreamState,
    out: RecvClosed,
    now: u64,
)
    requires
        bare == (Session { streams: bare.streams, ..o }),
        bare.streams@ == o.streams@.remove(id),
        bare.finishes_recv(n, id, st, out, now),
    ensures
        o.finishes_recv(n, id, st, out, now),
{
    let s1 = st.recv_finished(out.fin);
    let mid = choose|mid: Session| #[trigger]
        filed(bare, mid, id, s1, out.fin, bare.paths@) && mid == (Session {
            streams: mid.streams,
            closes: mid.closes,
            paths: mid.paths,
            ..bare
        }) && mid.ends_with_fin(n, id, out.fin, out.left, now);
    assert(bare.streams@.insert(id, mid.streams@[id]) =~= o.streams@.insert(id, mid.streams@[id]));
    assert(filed(o, mid, id, s1, out.fin, o.paths@));
}

proof fn lemma_others_stay(
    o: Session,
    n: Session,
    id: u32,
    st: StreamState,
    out: RecvClosed,
    now: u64,
)
    requires
        o.finishes_recv(n, id, st, out, now),
    ensures
        forall|k: u32|
            k != id && o.streams@.contains_key(k) ==> #[trigger] n.streams@.contains_key(k)
                && n.streams@[k] == o.streams@[k],
{
}

// ---------------------------------------------------------------------------
// Laws
// ---------------------------------------------------------------------------
/// Every unacknowledged piece holds the bytes of `s` at its offset, and `s` is
/// all that was sent.
pub open spec fn sends(st: StreamState, s: Seq<u8>) -> bool {
    &&& s.len() == st.counters.send_next
    &&& forall|k: u64| #[trigger]
        st.unacked@.contains_key(k) ==> k + st.unacked@[k].data@.len() <= s.len()
            && st.unacked@[k].data@ == s.subrange(k as int, k + st.unacked@[k].data@.len())
}

/// Some unacknowledged piece holds byte `b` of the stream.
pub open spec fn in_piece(m: Map<u64, Unacked>, b: int) -> bool {
    exists|k: u64| #[trigger] m.contains_key(k) && k <= b < k + m[k].data@.len()
}

/// Every sent byte is cumulatively acknowledged, held by a piece that may be
/// sent again, or `held` by the receiver behind a hole.
pub open spec fn accounted(st: StreamState, held: spec_fn(int) -> bool) -> bool {
    forall|b: int|
        st.send.send_acked <= b < st.counters.send_next ==> held(b) || #[trigger] in_piece(
            st.unacked@,
            b,
        )
}

/// An acknowledgement never touches the bytes of the pieces that stay.
pub proof fn law_ack_keeps_the_stream(
    st: StreamState,
    n: StreamState,
    ack: StreamAck,
    out: AckOutcome,
    now_ms: u64,
    s: Seq<u8>,
)
    requires
        st.acknowledged(n, ack, out, now_ms),
        sends(st, s),
    ensures
        sends(n, s),
{
    assert forall|k: u64| #[trigger] n.unacked@.contains_key(k) implies k
        + n.unacked@[k].data@.len() <= s.len() && n.unacked@[k].data@ == s.subrange(
        k as int,
        k + n.unacked@[k].data@.len(),
    ) by {
        assert(st.unacked@.contains_key(k));
    }
}

/// No byte is forgotten before the peer has it: whatever an acknowledgement
/// releases lies below its cumulative offset or inside one of its ranges.
pub proof fn law_no_byte_is_forgotten(
    st: StreamState,
    n: StreamState,
    ack: StreamAck,
    out: AckOutcome,
    now_ms: u64,
    held: spec_fn(int) -> bool,
)
    requires
        st.acknowledged(n, ack, out, now_ms),
        accounted(st, held),
        forall|i: int, b: int|
            #![trigger ack.sack@[i], held(b)]
            0 <= i < ack.sack@.len() && ack.sack@[i].0 <= b < ack.sack@[i].1 ==> held(b),
    ensures
        accounted(n, held),
{
    assert forall|b: int| n.send.send_acked <= b < n.counters.send_next implies held(b)
        || #[trigger] in_piece(n.unacked@, b) by {
        assert(st.send.send_acked <= b < st.counters.send_next ==> held(b) || in_piece(
            st.unacked@,
            b,
        ));
        if !held(b) {
            let k = choose|k: u64| #[trigger]
                st.unacked@.contains_key(k) && k <= b < k + st.unacked@[k].data@.len();
            let gone = st.by_ack(ack.acked_offset, ack.sack@);
            if gone(k, st.unacked@[k]) {
                if crate::send::sack_covers(k, st.unacked@[k].data@.len(), ack.sack@) {
                    let i = choose|i: int|
                        0 <= i < ack.sack@.len() && (#[trigger] ack.sack@[i]).0 <= k && k
                            + st.unacked@[k].data@.len() <= ack.sack@[i].1;
                    assert(ack.sack@[i].0 <= b < ack.sack@[i].1);
                    assert(held(b));
                }
            } else {
                assert(st.unacked@.contains_key(k) && !gone(k, st.unacked@[k]));
                assert(n.unacked@.contains_key(k));
            }
        }
    }
}

/// The acknowledged offset never moves back, and pieces never appear.
pub proof fn law_acks_only_advance(
    st: StreamState,
    n: StreamState,
    ack: StreamAck,
    out: AckOutcome,
    now_ms: u64,
)
    requires
        st.acknowledged(n, ack, out, now_ms),
    ensures
        n.send.send_acked >= st.send.send_acked,
        n.unacked@.dom().subset_of(st.unacked@.dom()),
{
    assert forall|k: u64| #[trigger] n.unacked@.dom().contains(k) implies st.unacked@.dom().contains(
        k,
    ) by {
        assert(n.unacked@.contains_key(k));
    }
}

/// The next piece extends the stream: what was sent is the old stream and the
/// new bytes, and the new piece is accounted for.
pub proof fn law_piece_extends_the_stream(
    st: StreamState,
    n: StreamState,
    u: Unacked,
    s: Seq<u8>,
    held: spec_fn(int) -> bool,
)
    requires
        sends(st, s),
        accounted(st, held),
        n.unacked@ == st.unacked@.insert(st.counters.send_next, u),
        n.counters.send_next == st.counters.send_next + u.data@.len(),
        n.send.send_acked == st.send.send_acked,
        !st.unacked@.contains_key(st.counters.send_next),
    ensures
        sends(n, s + u.data@),
        accounted(n, held),
{
    let t = s + u.data@;
    assert forall|k: u64| #[trigger] n.unacked@.contains_key(k) implies k
        + n.unacked@[k].data@.len() <= t.len() && n.unacked@[k].data@ == t.subrange(
        k as int,
        k + n.unacked@[k].data@.len(),
    ) by {
        if k == st.counters.send_next {
            assert(t.subrange(k as int, k + u.data@.len()) =~= u.data@);
        } else {
            assert(st.unacked@.contains_key(k));
            assert(t.subrange(k as int, k + n.unacked@[k].data@.len()) =~= s.subrange(
                k as int,
                k + n.unacked@[k].data@.len(),
            ));
        }
    }
    assert forall|b: int| n.send.send_acked <= b < n.counters.send_next implies held(b)
        || #[trigger] in_piece(n.unacked@, b) by {
        assert(st.send.send_acked <= b < st.counters.send_next ==> held(b) || in_piece(
            st.unacked@,
            b,
        ));
        let at = st.counters.send_next;
        if b >= at {
            assert(n.unacked@.contains_key(at));
        } else if !held(b) {
            let k = choose|k: u64| #[trigger]
                st.unacked@.contains_key(k) && k <= b < k + st.unacked@[k].data@.len();
            assert(n.unacked@.contains_key(k));
        }
    }
}

/// `n` holds the pieces of `st` with the bytes they had.
pub open spec fn same_pieces(st: StreamState, n: StreamState) -> bool {
    &&& n.unacked@.dom() == st.unacked@.dom()
    &&& forall|k: u64| #[trigger]
        st.unacked@.contains_key(k) ==> n.unacked@[k].data@ == st.unacked@[k].data@
    &&& n.counters.send_next == st.counters.send_next
    &&& n.send.send_acked == st.send.send_acked
}

proof fn lemma_same_pieces(st: StreamState, n: StreamState, s: Seq<u8>, held: spec_fn(int) -> bool)
    requires
        same_pieces(st, n),
        sends(st, s),
        accounted(st, held),
    ensures
        sends(n, s),
        accounted(n, held),
{
    assert forall|k: u64| #[trigger] n.unacked@.contains_key(k) implies k
        + n.unacked@[k].data@.len() <= s.len() && n.unacked@[k].data@ == s.subrange(
        k as int,
        k + n.unacked@[k].data@.len(),
    ) by {
        assert(n.unacked@.dom().contains(k));
        assert(st.unacked@.contains_key(k));
    }
    assert forall|b: int| n.send.send_acked <= b < n.counters.send_next implies held(b)
        || #[trigger] in_piece(n.unacked@, b) by {
        assert(held(b) || in_piece(st.unacked@, b));
        if !held(b) {
            let k = choose|k: u64| #[trigger]
                st.unacked@.contains_key(k) && k <= b < k + st.unacked@[k].data@.len();
            assert(st.unacked@.dom().contains(k));
            assert(n.unacked@.contains_key(k));
        }
    }
}

/// Sending late pieces again changes no byte of the stream and forgets none.
pub proof fn law_resends_keep_the_stream<S: Scheduler>(
    sched: &S,
    st: StreamState,
    n: StreamState,
    ps: Seq<PathState>,
    qs: Seq<PathState>,
    out: Seq<Resend>,
    cfg: SessionConfig,
    now: u64,
    s: Seq<u8>,
    held: spec_fn(int) -> bool,
)
    requires
        st.resends(sched, n, ps, qs, out, cfg, now),
        sends(st, s),
        accounted(st, held),
    ensures
        sends(n, s),
        accounted(n, held),
{
    assert forall|k: u64| #[trigger] st.unacked@.contains_key(k) implies n.unacked@[k].data@
        == st.unacked@[k].data@ by {
        if exists|i: int| 0 <= i < out.len() && (#[trigger] out[i]).offset == k {
            let i = choose|i: int| 0 <= i < out.len() && (#[trigger] out[i]).offset == k;
            assert(st.accounts_for(n.unacked@, out[i], ps, qs, cfg, now));
        }
    }
    lemma_same_pieces(st, n, s, held);
}

/// A failed path changes no byte of the stream and forgets none.
pub proof fn law_failover_keeps_the_stream(
    st: StreamState,
    n: StreamState,
    from: u32,
    to: u32,
    ps: Seq<PathState>,
    qs: Seq<PathState>,
    cfg: SessionConfig,
    now: u64,
    s: Seq<u8>,
    held: spec_fn(int) -> bool,
)
    requires
        st.retransmits(n, from, to, ps, qs, cfg, now),
        sends(st, s),
        accounted(st, held),
    ensures
        sends(n, s),
        accounted(n, held),
{
    assert forall|k: u64| #[trigger] st.unacked@.contains_key(k) implies n.unacked@[k].data@
        == st.unacked@[k].data@ by {
        if st.unacked@[k].path_id == from {
            assert(crate::failover::moved(
                st.id,
                k,
                st.unacked@[k],
                n.unacked@[k],
                to,
                ps,
                qs,
                cfg,
                now,
            ));
        }
    }
    lemma_same_pieces(st, n, s, held);
}

/// How many bytes of these pieces `path_id` carried.
pub open spec fn carried_by(pieces: Seq<(u64, Unacked)>, path_id: u32) -> nat
    decreases pieces.len(),
{
    if pieces.len() == 0 {
        0
    } else {
        carried_by(pieces.drop_last(), path_id) + if pieces.last().1.path_id == path_id {
            pieces.last().1.data@.len()
        } else {
            0
        }
    }
}

/// Every path gets back exactly the load of the acknowledged pieces that it
/// carried, and counts them as delivered; no path gains or loses its place.
pub proof fn law_acks_give_the_load_back(
    ps: Seq<PathState>,
    pieces: Seq<(u64, Unacked)>,
    id: u32,
    now: u64,
)
    requires
        distinct_ids(ps),
    ensures
        distinct_ids(released_pool(ps, pieces, now)),
        match stat_of(ps, id) {
            Some(p) => {
                let n = stat_of(released_pool(ps, pieces, now), id);
                &&& n is Some
                &&& n->0.inflight == above(p.inflight as int, carried_by(pieces, id) as int)
                &&& n->0.delivered == capped(p.delivered + carried_by(pieces, id))
            },
            None => stat_of(released_pool(ps, pieces, now), id) is None,
        },
    decreases pieces.len(),
{
    if pieces.len() > 0 {
        let rest = pieces.drop_last();
        let u = pieces.last().1;
        law_acks_give_the_load_back(ps, rest, id, now);
        let qs = released_pool(ps, rest, now);
        match stat_of(qs, u.path_id) {
            Some(p) => {
                lemma_with_stat(qs, u.path_id, clock_advanced(u, p, now));
            },
            None => {},
        }
    }
}

/// What an acknowledgement leaves of the sender's state: the window it
/// advertises, the furthest offset it told, the moment of real progress, and
/// every piece it did not cover.
pub proof fn law_what_an_ack_moves(
    st: StreamState,
    n: StreamState,
    ack: StreamAck,
    out: AckOutcome,
    now_ms: u64,
    k: u64,
)
    requires
        st.acknowledged(n, ack, out, now_ms),
        now_ms > 0,
        st.send.sacked + out.sacked@.len() <= u64::MAX,
    ensures
        n.counters.send_window == ack.window,
        n.send.send_acked >= st.send.send_acked,
        n.send.send_acked >= ack.acked_offset,
        n.send.send_acked == st.send.send_acked || n.send.send_acked == ack.acked_offset,
        n.send.sacked - st.send.sacked == out.sacked@.len(),
        out.sacked@.len() > 0 ==> n.send.last_sack_ms == now_ms,
        out.sacked@.len() == 0 ==> n.send.last_sack_ms == st.send.last_sack_ms,
        ack.acked_offset > st.send.send_acked ==> n.send.last_ack_ms == now_ms,
        n.send.last_ack_ms != st.send.last_ack_ms ==> ack.acked_offset > st.send.send_acked
            || n.unacked@.dom() != st.unacked@.dom(),
        n.counters.send_next == st.counters.send_next,
{
}

/// A close from the peer fixes where its bytes end: at the offset it names, or
/// at what has come where it names none; the first close stands.
pub proof fn law_the_first_close_fixes_the_end(st: StreamState, o: Option<u64>, now_ms: u64)
    requires
        now_ms > 0,
    ensures
        ({
            let n = st.peer_closed(o, now_ms);
            &&& st.recv.recv_close_off != u64::MAX ==> n.recv.recv_close_off
                == st.recv.recv_close_off
            &&& st.recv.recv_close_off == u64::MAX && o is Some ==> n.recv.recv_close_off == o->0
            &&& st.recv.recv_close_off == u64::MAX && o is None ==> n.recv.recv_close_off
                == st.counters.recv_next
            &&& st.life.close_started_ms == 0 ==> n.life.close_started_ms == now_ms
            &&& st.life.close_started_ms > 0 ==> n.life.close_started_ms
                == st.life.close_started_ms
            &&& n.counters == st.counters
            &&& n.send == st.send
        }),
{
}

/// The samples of released pieces are those of each piece against its path as
/// the pieces before it left it, in their order.
pub proof fn law_each_released_piece_is_sampled(
    ps: Seq<PathState>,
    pieces: Seq<(u64, Unacked)>,
    cfg: SessionConfig,
    now: u64,
)
    ensures
        release_samples(ps, pieces, cfg, now).len() == pieces.len(),
    decreases pieces.len(),
{
    if pieces.len() > 0 {
        law_each_released_piece_is_sampled(ps, pieces.drop_last(), cfg, now);
    }
}

} // verus!
