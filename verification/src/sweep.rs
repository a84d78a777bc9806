//! The periodic sweep over streams that are ending.

use vstd::prelude::*;

use crate::cfg::SessionConfig;
use crate::maps::{ids_of, lists_ids};
use crate::num::above;
use crate::sched::Scheduler;
use crate::session::{Lingered, Session};
use crate::stream::StreamState;

verus! {

broadcast use vstd::laws_cmp::group_laws_cmp;

/// What the sweep does with a stream.
#[derive(Clone, Copy, Debug, PartialEq, Eq, Structural)]
pub enum Sweep {
    Keep,
    /// Counted or reset, and still filed.
    Drop,
    /// Half-closed for the whole linger.
    Over,
}

impl StreamState {
    pub open spec fn sweep(self, cfg: SessionConfig, now_ms: int) -> Sweep {
        if self.life.counted_close || self.life.reset {
            Sweep::Drop
        } else if (self.send.send_fin_sent || self.recv.recv_fin) && self.life.close_started_ms != 0
            && above(now_ms, self.life.close_started_ms as int) >= cfg.linger_ms() {
            Sweep::Over
        } else {
            Sweep::Keep
        }
    }

    pub fn sweep_verdict(&self, cfg: &SessionConfig, now_ms: u64) -> (r: Sweep)
        ensures
            r == self.sweep(*cfg, now_ms as int),
    {
        if self.life.counted_close || self.life.reset {
            return Sweep::Drop;
        }
        if !self.send.send_fin_sent && !self.recv.recv_fin {
            return Sweep::Keep;
        }
        let start: u64 = self.life.close_started_ms;
        if start != 0 && now_ms.saturating_sub(start) >= cfg.close_linger / 1000 {
            Sweep::Over
        } else {
            Sweep::Keep
        }
    }
}

/// One stream the sweep took away.
#[derive(Clone, Copy, Debug, PartialEq, Eq, Structural)]
pub struct Swept {
    pub id: u32,
    /// `None` for a stream that was only still filed.
    pub how: Option<Lingered>,
}

impl Session {
    /// How a stream past its linger ends: quietly where nothing is
    /// outstanding, except that a client whose peer never ended tells it; by a
    /// timeout otherwise.
    pub open spec fn ends_over<S: Scheduler>(
        self,
        sched: &S,
        n: Self,
        id: u32,
        out: Lingered,
        now: u64,
    ) -> bool {
        if self.streams@.contains_key(id) && self.fine(id) && self.is_client
            && !self.streams@[id].recv.recv_fin {
            self.residual(sched, n, id, out, now)
        } else {
            self.lingers(sched, n, id, out, now)
        }
    }

    pub fn end_lingering<S: Scheduler>(&mut self, id: u32, sched: &S, now: u64) -> (out: Lingered)
        requires
            old(self).wf(),
        ensures
            final(self).wf(),
            old(self).ends_over(sched, *final(self), id, out, now),
    {
        let residual: bool = match self.streams.get(&id) {
            None => false,
            Some(st) => self.is_client && !st.recv.recv_fin && st.overlay_progress_fine(
                self.opens.contains(id),
            ),
        };
        if residual {
            self.residual_d_client(id, sched, now)
        } else {
            self.linger_reap_progress_fine(id, sched, now)
        }
    }

    /// The kind of end a stream past its linger comes to.
    pub open spec fn over_kind(self, id: u32, out: Lingered) -> bool {
        if !self.fine(id) {
            out is TimedOut
        } else if self.is_client && !self.streams@[id].recv.recv_fin {
            out is ResetSent
        } else {
            &&& out is Reaped
            &&& out->inbound_close == !self.streams@[id].recv.recv_fin
        }
    }

    /// `r` is a true account of what the sweep did with the stream `r.id`.
    pub open spec fn swept(self, r: Swept, now: u64) -> bool {
        &&& self.streams@.contains_key(r.id)
        &&& match r.how {
            None => self.streams@[r.id].sweep(self.cfg, now as int / 1000) is Drop,
            Some(l) => {
                &&& self.streams@[r.id].sweep(self.cfg, now as int / 1000) is Over
                &&& self.over_kind(r.id, l)
            },
        }
    }

    /// `n` is this session once the sweep took `r.id` away.
    pub open spec fn sweeps_one<S: Scheduler>(
        self,
        sched: &S,
        n: Self,
        r: Swept,
        now: u64,
    ) -> bool {
        &&& self.streams@.contains_key(r.id)
        &&& match r.how {
            None => self.forgets(n, r.id),
            Some(l) => self.ends_over(sched, n, r.id, l, now),
        }
    }

    /// `n` is this session once the sweep took these streams away, in order.
    pub open spec fn sweeps<S: Scheduler>(
        self,
        sched: &S,
        n: Self,
        outs: Seq<Swept>,
        now: u64,
    ) -> bool
        decreases outs.len(),
    {
        if outs.len() == 0 {
            n == self
        } else {
            exists|mid: Self|
                self.sweeps(sched, mid, outs.drop_last(), now) && #[trigger] mid.sweeps_one(
                    sched,
                    n,
                    outs.last(),
                    now,
                )
        }
    }

    /// Take away the streams that are counted, reset or past their linger;
    /// every other stream stays as it is.
    pub fn reap_closed_streams<S: Scheduler>(&mut self, sched: &S, now: u64) -> (out: Vec<Swept>)
        requires
            old(self).wf(),
        ensures
            final(self).wf(),
            final(self).same_frame(*old(self)),
            forall|id: u32| #[trigger]
                final(self).streams@.contains_key(id) <==> old(self).streams@.contains_key(id)
                    && old(self).streams@[id].sweep(old(self).cfg, now as int / 1000) is Keep,
            forall|id: u32| #[trigger]
                final(self).streams@.contains_key(id) ==> final(self).streams@[id] == old(
                    self,
                ).streams@[id],
            old(self).sweeps(sched, *final(self), out@, now),
            forall|i: int| 0 <= i < out@.len() ==> old(self).swept(#[trigger] out@[i], now),
            forall|i: int, j: int| 0 <= i < j < out@.len() ==> out@[i].id < out@[j].id,
            forall|id: u32| #[trigger]
                old(self).streams@.contains_key(id) && !(old(self).streams@[id].sweep(
                    old(self).cfg,
                    now as int / 1000,
                ) is Keep) ==> exists|i: int| 0 <= i < out@.len() && (#[trigger] out@[i]).id == id,
    {
        let ids: Vec<u32> = ids_of(&self.streams);
        let mut out: Vec<Swept> = Vec::new();
        let ghost o = *self;
        let mut i: usize = 0;
        proof {
            assert forall|j: int| 0 <= j < ids@.len() implies o.streams@.contains_key(
                #[trigger] ids@[j],
            ) by {
                assert(ids@.contains(ids@[j]));
            }
        }
        while i < ids.len()
            invariant
                i <= ids@.len(),
                lists_ids(ids@, o.streams@),
                o.wf(),
                self.wf(),
                self.same_frame(o),
                forall|id: u32| #[trigger]
                    self.streams@.contains_key(id) ==> o.streams@.contains_key(id)
                        && self.streams@[id] == o.streams@[id],
                forall|j: int|
                    i <= j < ids@.len() ==> self.streams@.contains_key(#[trigger] ids@[j])
                        && self.opens@.contains_key(ids@[j]) == o.opens@.contains_key(ids@[j]),
                forall|j: int|
                    0 <= j < i ==> (self.streams@.contains_key(#[trigger] ids@[j]) <==> o.streams@[ids@[j]].sweep(
                    o.cfg, now as int / 1000) is Keep),
                o.sweeps(sched, *self, out@, now),
                forall|a: int| 0 <= a < out@.len() ==> o.swept(#[trigger] out@[a], now),
                forall|a: int|
                    0 <= a < out@.len() && i < ids@.len() ==> (#[trigger] out@[a]).id
                        < ids@[i as int],
                forall|a: int, b: int| 0 <= a < b < out@.len() ==> out@[a].id < out@[b].id,
                forall|j: int|
                    0 <= j < i && !(o.streams@[#[trigger] ids@[j]].sweep(
                        o.cfg,
                        now as int / 1000,
                    ) is Keep) ==> exists|a: int|
                        0 <= a < out@.len() && (#[trigger] out@[a]).id == ids@[j],
            decreases ids.len() - i,
        {
            let id: u32 = ids[i];
            let ghost s1 = *self;
            let ghost out1 = out@;
            proof {
                assert(self.streams@.contains_key(ids@[i as int]));
            }
            let verdict: Sweep = match self.streams.get(&id) {
                Some(st) => st.sweep_verdict(&self.cfg, now / 1000),
                None => Sweep::Keep,
            };
            match verdict {
                Sweep::Keep => {},
                Sweep::Drop => {
                    self.remove_held_stream(id);
                    out.push(Swept { id, how: None });
                },
                Sweep::Over => {
                    let l: Lingered = self.end_lingering(id, sched, now);
                    proof {
                        assert(s1.fine(id) == o.fine(id));
                        assert(o.over_kind(id, l));
                        assert(self.streams@ == s1.streams@.remove(id));
                        assert(self.opens@ == s1.opens@.remove(id));
                    }
                    out.push(Swept { id, how: Some(l) });
                },
            }
            proof {
                if !(verdict is Keep) {
                    assert(out@[out1.len() as int].id == id);
                    assert(out@.drop_last() =~= out1);
                    assert(s1.sweeps_one(sched, *self, out@.last(), now));
                    assert(o.sweeps(sched, *self, out@, now));
                    assert(o.swept(out@[out1.len() as int], now));
                    assert forall|a: int| 0 <= a < out@.len() implies o.swept(#[trigger] out@[a], now) by {
                        if a < out1.len() {
                            assert(out@[a] == out1[a]);
                        }
                    }
                }
                assert forall|j: int|
                    0 <= j < i + 1 && !(o.streams@[#[trigger] ids@[j]].sweep(
                        o.cfg,
                        now as int / 1000,
                    ) is Keep) implies exists|a: int|
                    0 <= a < out@.len() && (#[trigger] out@[a]).id == ids@[j] by {
                    if j < i {
                        let a = choose|a: int| 0 <= a < out1.len() && (#[trigger] out1[a]).id == ids@[j];
                        assert(out@[a].id == ids@[j]);
                    } else {
                        assert(out@[out1.len() as int].id == ids@[j]);
                    }
                }
            }
            i += 1;
        }
        proof {
            assert forall|id: u32| #[trigger] self.streams@.contains_key(id) <==> o.streams@.contains_key(
                id,
            ) && o.streams@[id].sweep(o.cfg, now as int / 1000) is Keep by {
                if o.streams@.contains_key(id) {
                    assert(ids@.contains(id));
                    let j = choose|j: int| 0 <= j < ids@.len() && ids@[j] == id;
                    assert(self.streams@.contains_key(ids@[j]) <==> o.streams@[ids@[j]].sweep(
                        o.cfg,
                        now as int / 1000,
                    ) is Keep);
                }
            }
            assert forall|id: u32| #[trigger]
                o.streams@.contains_key(id) && !(o.streams@[id].sweep(
                    o.cfg,
                    now as int / 1000,
                ) is Keep) implies exists|a: int| 0 <= a < out@.len() && (#[trigger] out@[a]).id
                == id by {
                assert(ids@.contains(id));
                let j = choose|j: int| 0 <= j < ids@.len() && ids@[j] == id;
                assert(!(o.streams@[ids@[j]].sweep(o.cfg, now as int / 1000) is Keep));
            }
        }
        out
    }
}

/// A stream that was counted or reset is dropped; one that a side has ended is
/// over once its close has lingered; any other is kept.
pub proof fn law_when_a_stream_is_swept(st: StreamState, cfg: SessionConfig, now_ms: int)
    requires
        st.life.close_started_ms <= now_ms,
    ensures
        ({
            let gone = st.life.counted_close || st.life.reset;
            let ended = st.send.send_fin_sent || st.recv.recv_fin;
            let late = st.life.close_started_ms > 0 && now_ms - st.life.close_started_ms
                >= cfg.close_linger as int / 1000;
            &&& st.sweep(cfg, now_ms) is Drop <==> gone
            &&& st.sweep(cfg, now_ms) is Over <==> !gone && ended && late
            &&& st.sweep(cfg, now_ms) is Keep <==> !gone && !(ended && late)
        }),
{
}

} // verus!
