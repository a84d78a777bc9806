//! The end of a stream's send side, of all streams, of the session.

use vstd::prelude::*;

use crate::cfg::SessionConfig;
use crate::frames::{Frame, ResetReason};
use crate::ledger::{Ledger, Pending, What};
use crate::lifecycle::{entry_of, EndRecord};
use crate::maps::{ids_of, lists_ids};
use crate::opening::{ctl_offered, offer_what};
use crate::path::PathState;
use crate::pool::left_home;
use crate::sched::{picked, picked_again, PickPref, Scheduler};
use crate::session::{Finished, Marks, Session};
use crate::stream::{close_stamp, Lifecycle, SendState, StreamState};
use crate::wire::{pool_accepts, pool_offered, send_on_path};

verus! {

broadcast use vstd::laws_cmp::group_laws_cmp;

// ---------------------------------------------------------------------------
// The send side of one stream
// ---------------------------------------------------------------------------
/// How a StreamClose left.
#[derive(Clone, Copy, Debug, PartialEq, Eq, Structural)]
pub struct CloseTold {
    /// The path that was picked, if any, and whether it took the Close.
    pub path: Option<u32>,
    pub sent: bool,
    /// The second path named after a refusal, and whether it took the Close.
    pub alt: Option<u32>,
    pub alt_sent: bool,
}

#[derive(Clone, Copy, Debug, PartialEq, Eq, Structural)]
pub struct CloseSent {
    pub told: CloseTold,
    /// The stream left, and how it was counted.
    pub left: Option<Option<EndRecord>>,
}

/// A stream that just closed its send side: no home, and the linger clock
/// runs.
pub open spec fn send_closed(st: StreamState, now_ms: u64) -> StreamState {
    StreamState {
        send: SendState { send_fin_sent: true, ..st.send },
        life: Lifecycle {
            sticky: 0,
            close_started_ms: close_stamp(st.life.close_started_ms, now_ms),
            ..st.life
        },
        ..st
    }
}

/// The Close of a stream: where it ends, and whether the peer closed first.
pub open spec fn close_of(st: StreamState) -> What {
    What::Close {
        second_closer: st.recv.recv_fin,
        final_offset: Some(st.counters.send_next),
    }
}

/// The pool and the table of Closes once a Close was offered to the path that
/// `sched` picks for it and, after a refusal, to a second one that it names
/// for what is left. Without a path nothing is remembered.
pub open spec fn close_announced<S: Scheduler>(
    sched: &S,
    ps: Seq<PathState>,
    n: Seq<PathState>,
    closes: Map<u32, Pending>,
    m: Map<u32, Pending>,
    id: u32,
    what: What,
    cfg: SessionConfig,
    out: CloseTold,
    now: u64,
) -> bool {
    &&& picked(sched, ps, PickPref::Any, out.path)
    &&& match out.path {
        None => {
            &&& n == ps
            &&& m == closes
            &&& !out.sent
            &&& out.alt is None
            &&& !out.alt_sent
        },
        Some(p) => {
            &&& m.contains_key(id)
            &&& m == closes.insert(id, m[id])
            &&& exists|qs: Seq<PathState>, first: Pending|
                #![trigger ctl_offered(ps, qs, p, id, what, cfg, out.sent), Ledger::remembered(
                    entry_of(closes, id),
                    first,
                    p,
                    what,
                    now,
                )]
                {
                    &&& ctl_offered(ps, qs, p, id, what, cfg, out.sent)
                    &&& Ledger::remembered(entry_of(closes, id), first, p, what, now)
                    &&& !out.sent ==> picked_again(sched, qs, seq![p], out.alt)
                    &&& match out.alt {
                        Some(a) => {
                            &&& !out.sent
                            &&& ctl_offered(qs, n, a, id, what, cfg, out.alt_sent)
                            &&& Ledger::remembered(Some(first), m[id], a, what, now)
                        },
                        None => !out.alt_sent && n == qs && m[id] == first,
                    }
                }
        },
    }
}

impl Session {
    /// `mid` is this session once stream `id` closed its send side and its
    /// Close was offered.
    pub open spec fn closes_send<S: Scheduler>(
        self,
        mid: Self,
        id: u32,
        sched: &S,
        out: CloseTold,
        now: u64,
    ) -> bool {
        let st = self.streams@[id];
        &&& mid == (Session {
            streams: mid.streams,
            paths: mid.paths,
            closes: mid.closes,
            ..self
        })
        &&& mid.streams@ == self.streams@.insert(id, send_closed(st, (now / 1000) as u64))
        &&& close_announced(
            sched,
            if st.life.sticky != 0 {
                left_home(self.paths@, st.life.sticky)
            } else {
                self.paths@
            },
            mid.paths@,
            self.closes@,
            mid.closes@,
            id,
            close_of(st),
            self.cfg,
            out,
            now,
        )
    }

    /// Mark the send side closed and give the home up. The Close to announce
    /// is the result.
    fn end_send(&mut self, id: u32, now: u64) -> (what: What)
        requires
            old(self).wf(),
            old(self).streams@.contains_key(id),
        ensures
            final(self).wf(),
            what == close_of(old(self).streams@[id]),
            *final(self) == (Session {
                streams: final(self).streams,
                paths: final(self).paths,
                ..*old(self)
            }),
            final(self).streams@ == old(self).streams@.insert(
                id,
                send_closed(old(self).streams@[id], (now / 1000) as u64),
            ),
            final(self).paths@ == (if old(self).streams@[id].life.sticky != 0 {
                left_home(old(self).paths@, old(self).streams@[id].life.sticky)
            } else {
                old(self).paths@
            }),
    {
        let ghost o = *self;
        match self.streams.remove(&id) {
            Some(stream) => {
                let mut st: StreamState = stream;
                let ghost st0 = st;
                let what: What = What::Close {
                    second_closer: st.recv.recv_fin,
                    final_offset: Some(st.counters.send_next),
                };
                st.send.send_fin_sent = true;
                st.note_close_started(now / 1000);
                st.unstick(&mut self.paths);
                assert(st == send_closed(st0, (now / 1000) as u64));
                assert(st.recv_wf() && st.send_wf());
                let _ = self.streams.insert(id, st);
                assert(self.streams@ =~= o.streams@.insert(id, st));
                what
            },
            None => What::Reset(ResetReason::Unknown),
        }
    }

    /// Offer a Close, and a second time after a refusal.
    fn announce_close<S: Scheduler>(&mut self, id: u32, what: &What, sched: &S, now: u64) -> (out:
        CloseTold)
        requires
            old(self).wf(),
            what is Close,
        ensures
            final(self).wf(),
            *final(self) == (Session {
                paths: final(self).paths,
                closes: final(self).closes,
                ..*old(self)
            }),
            close_announced(
                sched,
                old(self).paths@,
                final(self).paths@,
                old(self).closes@,
                final(self).closes@,
                id,
                *what,
                old(self).cfg,
                out,
                now,
            ),
    {
        let ghost o = *self;
        let path: Option<u32> = sched.pick_pref(&self.paths, PickPref::Any);
        let p: u32 = match path {
            Some(p) => p,
            None => {
                return CloseTold { path, sent: false, alt: None, alt_sent: false };
            },
        };
        self.closes.remember(id, p, copy_close(what), now);
        let ghost first = self.closes@[id];
        let sent: bool = offer_what(&mut self.paths, p, id, what, &self.cfg);
        let ghost qs = self.paths@;
        if sent {
            let out: CloseTold = CloseTold { path, sent, alt: None, alt_sent: false };
            proof {
                assert(ctl_offered(o.paths@, qs, p, id, *what, o.cfg, out.sent));
                assert(Ledger::remembered(entry_of(o.closes@, id), first, p, *what, now));
            }
            return out;
        }
        let mut tried: Vec<u32> = Vec::new();
        tried.push(p);
        let alt: Option<u32> = sched.pick_retry(&self.paths, &tried);
        let mut alt_sent: bool = false;
        match alt {
            Some(a) => {
                self.closes.remember(id, a, copy_close(what), now);
                alt_sent = offer_what(&mut self.paths, a, id, what, &self.cfg);
                assert(self.closes@ =~= o.closes@.insert(id, self.closes@[id]));
            },
            None => {},
        }
        let out: CloseTold = CloseTold { path, sent, alt, alt_sent };
        proof {
            assert(ctl_offered(o.paths@, qs, p, id, *what, o.cfg, out.sent));
            assert(Ledger::remembered(entry_of(o.closes@, id), first, p, *what, now));
        }
        out
    }

    /// The application ended its side. Once only; an unknown stream is none
    /// of it.
    pub fn close_send<S: Scheduler>(&mut self, id: u32, sched: &S, now: u64) -> (out: Option<
        CloseSent,
    >)
        requires
            old(self).wf(),
        ensures
            final(self).wf(),
            out is Some <==> old(self).streams@.contains_key(id) && !old(
                self,
            ).streams@[id].send.send_fin_sent,
            match out {
                Some(c) => exists|mid: Self| #[trigger]
                    old(self).closes_send(mid, id, sched, c.told, now) && mid.ends_with_fin(
                        *final(self),
                        id,
                        true,
                        c.left,
                        now,
                    ),
                None => *final(self) == *old(self),
            },
    {
        let again: bool = match self.streams.get(&id) {
            Some(st) => st.send.send_fin_sent,
            None => true,
        };
        if again {
            return None;
        }
        let ghost o = *self;
        let what: What = self.end_send(id, now);
        let told: CloseTold = self.announce_close(id, &what, sched, now);
        let ghost mid = *self;
        let left: Option<Option<EndRecord>> = self.maybe_count_graceful(id, now);
        let out: CloseSent = CloseSent { told, left };
        proof {
            assert(o.closes_send(mid, id, sched, out.told, now));
            assert(mid.ends_with_fin(*self, id, true, out.left, now));
        }
        Some(out)
    }
}

fn copy_close(what: &What) -> (r: What)
    requires
        what is Close,
    ensures
        r == *what,
{
    match what {
        What::Close { second_closer, final_offset } => What::Close {
            second_closer: *second_closer,
            final_offset: *final_offset,
        },
        _ => What::Reset(ResetReason::Unknown),
    }
}

// ---------------------------------------------------------------------------
// All streams
// ---------------------------------------------------------------------------
impl Session {
    /// `n` is this session once the streams `ids` were finished in order.
    pub open spec fn finishes_all<S: Scheduler>(
        self,
        sched: &S,
        n: Self,
        ids: Seq<u32>,
        reason: ResetReason,
        send_frame: bool,
        outs: Seq<Finished>,
        now: u64,
    ) -> bool
        decreases ids.len(),
    {
        if ids.len() == 0 {
            n == self && outs.len() == 0
        } else {
            &&& outs.len() == ids.len()
            &&& exists|mid: Self|
                self.finishes_all(
                    sched,
                    mid,
                    ids.drop_last(),
                    reason,
                    send_frame,
                    outs.drop_last(),
                    now,
                ) && mid.streams@.contains_key(ids.last()) && #[trigger] mid.finishes(
                    sched,
                    n,
                    ids.last(),
                    Some(reason),
                    send_frame,
                    outs.last(),
                    now,
                )
        }
    }

    /// End every stream.
    pub fn finish_all<S: Scheduler>(
        &mut self,
        reason: ResetReason,
        send_frame: bool,
        sched: &S,
        now: u64,
    ) -> (r: (Vec<u32>, Vec<Finished>))
        requires
            old(self).wf(),
        ensures
            final(self).wf(),
            lists_ids(r.0@, old(self).streams@),
            old(self).finishes_all(sched, *final(self), r.0@, reason, send_frame, r.1@, now),
            final(self).streams@ == Map::<u32, StreamState>::empty(),
            final(self).same_frame(*old(self)),
    {
        let ghost o = *self;
        let ids: Vec<u32> = ids_of(&self.streams);
        let mut outs: Vec<Finished> = Vec::new();
        let mut i: usize = 0;
        proof {
            assert forall|k: u32| #[trigger] self.streams@.contains_key(k) implies exists|j: int|
                0 <= j < ids@.len() && ids@[j] == k by {
                assert(ids@.contains(k));
            }
            assert forall|j: int| 0 <= j < ids@.len() implies self.streams@.contains_key(
                #[trigger] ids@[j],
            ) by {
                assert(ids@.contains(ids@[j]));
            }
            assert(ids@.take(0) =~= seq![]);
        }
        while i < ids.len()
            invariant
                i <= ids@.len(),
                self.wf(),
                self.same_frame(o),
                outs@.len() == i,
                forall|a: int, b: int| 0 <= a < b < ids@.len() ==> ids@[a] < ids@[b],
                forall|j: int|
                    i <= j < ids@.len() ==> self.streams@.contains_key(#[trigger] ids@[j]),
                forall|k: u32| #[trigger]
                    self.streams@.contains_key(k) ==> exists|j: int|
                        i <= j < ids@.len() && ids@[j] == k,
                o.finishes_all(sched, *self, ids@.take(i as int), reason, send_frame, outs@, now),
            decreases ids.len() - i,
        {
            let id: u32 = ids[i];
            let ghost before = *self;
            let ghost outs0 = outs@;
            assert(self.streams@.contains_key(ids@[i as int]));
            match self.finish_stream(id, Some(reason), send_frame, sched, now) {
                Some(f) => {
                    outs.push(f);
                    proof {
                        assert(ids@.take(i as int + 1).drop_last() =~= ids@.take(i as int));
                        assert(outs@.drop_last() =~= outs0);
                        assert(before.finishes(
                            sched,
                            *self,
                            ids@.take(i as int + 1).last(),
                            Some(reason),
                            send_frame,
                            outs@.last(),
                            now,
                        ));
                        assert forall|j: int| i < j < ids@.len() implies self.streams@.contains_key(
                            #[trigger] ids@[j],
                        ) by {
                            assert(before.streams@.contains_key(ids@[j]));
                            assert(ids@[i as int] < ids@[j]);
                        }
                        assert forall|k: u32| #[trigger] self.streams@.contains_key(k) implies exists|
                            j: int,
                        |
                            i < j < ids@.len() && ids@[j] == k by {
                            assert(before.streams@.contains_key(k));
                            let j = choose|j: int| i <= j < ids@.len() && ids@[j] == k;
                            assert(j != i);
                        }
                    }
                },
                None => {
                    assert(false);
                },
            }
            i += 1;
        }
        assert(ids@.take(ids@.len() as int) =~= ids@);
        assert(self.streams@ =~= Map::<u32, StreamState>::empty());
        (ids, outs)
    }
}

// ---------------------------------------------------------------------------
// The session
// ---------------------------------------------------------------------------
/// How a session died.
pub struct Death {
    /// The path the SessionClose was offered to, and whether it was taken.
    pub told: Option<u32>,
    pub told_sent: bool,
    pub ids: Vec<u32>,
    pub ended: Vec<Finished>,
}

impl Session {
    /// What the end does to this session: streams end without a word to the
    /// peer beyond one SessionClose, and nothing is left to repeat.
    pub open spec fn dies<S: Scheduler>(
        self,
        sched: &S,
        n: Self,
        send_frame: bool,
        d: Death,
        now: u64,
    ) -> bool {
        exists|a: Self, b: Self|
            #![trigger self.closes_session(sched, a, send_frame, d), a.finishes_all(
                sched,
                b,
                d.ids@,
                ResetReason::SessionDead,
                send_frame,
                d.ended@,
                now,
            )]
            {
                &&& self.closes_session(sched, a, send_frame, d)
                &&& lists_ids(d.ids@, self.streams@)
                &&& a.finishes_all(
                    sched,
                    b,
                    d.ids@,
                    ResetReason::SessionDead,
                    send_frame,
                    d.ended@,
                    now,
                )
                &&& n == (Session { resets: n.resets, ..b })
                &&& n.resets@ == Map::<u32, Pending>::empty()
            }
    }

    /// `a` is this session marked dead, its Closes forgotten and the peer
    /// told, where a frame may be sent and a path is picked.
    pub open spec fn closes_session<S: Scheduler>(
        self,
        sched: &S,
        a: Self,
        send_frame: bool,
        d: Death,
    ) -> bool {
        &&& a == (Session {
            marks: Marks { dead: true, ..self.marks },
            closes: a.closes,
            paths: a.paths,
            ..self
        })
        &&& a.closes@ == Map::<u32, Pending>::empty()
        &&& if send_frame {
            picked(sched, self.paths@, PickPref::Any, d.told)
        } else {
            d.told is None
        }
        &&& match d.told {
            Some(p) => {
                &&& send_frame
                &&& pool_offered(self.paths@, a.paths@, p, Frame::SessionClose, self.cfg)
                &&& d.told_sent == pool_accepts(self.paths@, p, Frame::SessionClose, self.cfg)
            },
            None => a.paths@ == self.paths@ && !d.told_sent,
        }
    }

    /// End the session, once.
    pub fn mark_dead<S: Scheduler>(
        &mut self,
        send_frame: bool,
        sched: &S,
        now: u64,
    ) -> (out: Option<
        Death,
    >)
        requires
            old(self).wf(),
        ensures
            final(self).wf(),
            final(self).marks == (Marks { dead: true, ..old(self).marks }),
            out is Some <==> !old(self).marks.dead,
            match out {
                Some(d) => {
                    &&& old(self).dies(sched, *final(self), send_frame, d, now)
                    &&& final(self).streams@ == Map::<u32, StreamState>::empty()
                    &&& final(self).resets@ == Map::<u32, Pending>::empty()
                },
                None => *final(self) == *old(self),
            },
    {
        if self.marks.dead {
            return None;
        }
        let ghost o = *self;
        self.marks.dead = true;
        self.closes.clear();
        let mut told: Option<u32> = None;
        let mut told_sent: bool = false;
        if send_frame {
            told = sched.pick_pref(&self.paths, PickPref::Any);
            assert(picked(sched, o.paths@, PickPref::Any, told));
            match told {
                Some(p) => {
                    told_sent = send_on_path(&mut self.paths, p, Frame::SessionClose, &self.cfg);
                },
                None => {},
            }
        }
        let ghost a = *self;
        let (ids, ended) = self.finish_all(ResetReason::SessionDead, send_frame, sched, now);
        let ghost b = *self;
        self.resets.clear();
        let d: Death = Death { told, told_sent, ids, ended };
        proof {
            assert(o.closes_session(sched, a, send_frame, d));
            assert(a.finishes_all(
                sched,
                b,
                d.ids@,
                ResetReason::SessionDead,
                send_frame,
                d.ended@,
                now,
            ));
        }
        Some(d)
    }

    pub fn shutdown<S: Scheduler>(&mut self, sched: &S, now: u64) -> (out: Option<Death>)
        requires
            old(self).wf(),
        ensures
            final(self).wf(),
            final(self).marks == (Marks { dead: true, ..old(self).marks }),
            out is Some <==> !old(self).marks.dead,
            match out {
                Some(d) => old(self).dies(sched, *final(self), true, d, now),
                None => *final(self) == *old(self),
            },
    {
        self.mark_dead(true, sched, now)
    }
}

// ---------------------------------------------------------------------------
// Laws
// ---------------------------------------------------------------------------
/// Each stream that ends with others hears of its end at most once, and is
/// counted exactly where it was not counted before.
pub proof fn law_each_end_is_counted_once<S: Scheduler>(
    sched: &S,
    o: Session,
    n: Session,
    ids: Seq<u32>,
    reason: ResetReason,
    send_frame: bool,
    outs: Seq<Finished>,
    now: u64,
    i: int,
)
    requires
        o.finishes_all(sched, n, ids, reason, send_frame, outs, now),
        forall|a: int, b: int| 0 <= a < b < ids.len() ==> ids[a] < ids[b],
        0 <= i < ids.len(),
    ensures
        outs.len() == ids.len(),
        o.streams@.contains_key(ids[i]),
        outs[i].record is Some <==> !o.streams@[ids[i]].life.counted_close,
        o.streams@[ids[i]].life.reset ==> outs[i].inbound is None,
    decreases ids.len(),
{
    let mid = choose|mid: Session|
        o.finishes_all(sched, mid, ids.drop_last(), reason, send_frame, outs.drop_last(), now)
            && mid.streams@.contains_key(ids.last()) && #[trigger] mid.finishes(
            sched,
            n,
            ids.last(),
            Some(reason),
            send_frame,
            outs.last(),
            now,
        );
    if i < ids.len() - 1 {
        law_each_end_is_counted_once(
            sched,
            o,
            mid,
            ids.drop_last(),
            reason,
            send_frame,
            outs.drop_last(),
            now,
            i,
        );
        assert(ids.drop_last()[i] == ids[i] && outs.drop_last()[i] == outs[i]);
    } else {
        lemma_untouched(sched, o, mid, ids.drop_last(), reason, send_frame, outs.drop_last(), now, ids[i]);
    }
}

/// A stream that is not among those finished stays as it was.
proof fn lemma_untouched<S: Scheduler>(
    sched: &S,
    o: Session,
    n: Session,
    ids: Seq<u32>,
    reason: ResetReason,
    send_frame: bool,
    outs: Seq<Finished>,
    now: u64,
    id: u32,
)
    requires
        o.finishes_all(sched, n, ids, reason, send_frame, outs, now),
        n.streams@.contains_key(id),
    ensures
        o.streams@.contains_key(id),
        n.streams@[id] == o.streams@[id],
    decreases ids.len(),
{
    if ids.len() > 0 {
        let mid = choose|mid: Session|
            o.finishes_all(sched, mid, ids.drop_last(), reason, send_frame, outs.drop_last(), now)
                && mid.streams@.contains_key(ids.last()) && #[trigger] mid.finishes(
                sched,
                n,
                ids.last(),
                Some(reason),
                send_frame,
                outs.last(),
                now,
            );
        assert(n.streams@ == mid.streams@.remove(ids.last()));
        lemma_untouched(sched, o, mid, ids.drop_last(), reason, send_frame, outs.drop_last(), now, id);
    }
}

/// A close tells the peer where the bytes end, and whether the peer ended
/// first; the stream has then ended its side, has no home, and remembers when it
/// began to close.
pub proof fn law_a_close_tells_where_the_bytes_end(st: StreamState, now_ms: u64)
    requires
        now_ms > 0,
    ensures
        close_of(st) == (What::Close {
            second_closer: st.recv.recv_fin,
            final_offset: Some(st.counters.send_next),
        }),
        ({
            let n = send_closed(st, now_ms);
            &&& n.send.send_fin_sent
            &&& n.life.sticky == 0
            &&& st.life.close_started_ms == 0 ==> n.life.close_started_ms == now_ms
            &&& st.life.close_started_ms > 0 ==> n.life.close_started_ms
                == st.life.close_started_ms
            &&& n.counters == st.counters && n.unacked == st.unacked && n.recv == st.recv
        }),
{
}

/// A session that dies is dead, owes no close and no reset any more, and tells
/// the peer only where it is to.
pub proof fn law_a_dead_session_owes_nothing<S: Scheduler>(
    sched: &S,
    o: Session,
    n: Session,
    send_frame: bool,
    d: Death,
    now: u64,
)
    requires
        o.dies(sched, n, send_frame, d, now),
    ensures
        n.resets@ == Map::<u32, Pending>::empty(),
        !send_frame ==> d.told is None && !d.told_sent,
        lists_ids(d.ids@, o.streams@),
        d.ended@.len() == d.ids@.len(),
{
}

} // verus!
