//! What every tick does for the streams: windows, homes, stalls, repeats.

use vstd::prelude::*;

use crate::cfg::SessionConfig;
use crate::hol::HolOutcome;
use crate::ledger::{
    count_sent, late_ends, late_opens, note_retries, repeats, retries_counted, sent_retries, Ledger,
    Pending, Retry,
};
use crate::maps::{ids_of, lists_ids};
use crate::metrics::{plus, Counters};
use crate::num::{capped, mul_capped};
use crate::path::{bdp_rtt, distinct_ids, loop_rtt, min_known, min_known_rtt, PathState};
use crate::pool::{note_retry, retry_counted};
use crate::resend::{pool_after_all, sent_count, used_after_all, Resend, ResendOutcome, ResendWhy};
use crate::sched::Scheduler;
use crate::session::Session;
use crate::stall::StallChange;
use crate::stream::{StreamCounters, StreamState};
use crate::window::{tuned_counters, tuned_recv};

verus! {

broadcast use vstd::laws_cmp::group_laws_cmp;

// ---------------------------------------------------------------------------
// Receive windows
// ---------------------------------------------------------------------------
/// A stream whose window was looked at without a new rate sample.
pub open spec fn retuned(
    st: StreamState,
    ps: Seq<PathState>,
    cfg: SessionConfig,
    now: u64,
) -> StreamState {
    let rtt = loop_rtt(ps, st.recv.last_recv_path, st.life.sticky);
    StreamState {
        counters: tuned_counters(st.initial_window, st.counters, st.recv, false, rtt, cfg, now),
        recv: tuned_recv(st.initial_window, st.counters, st.recv, false, rtt, cfg, now),
        ..st
    }
}

impl Session {
    /// `n` is this session with every window looked at.
    pub open spec fn tunes_windows(self, n: Self, now: u64) -> bool {
        &&& n == (Session { streams: n.streams, ..self })
        &&& n.streams@.dom() == self.streams@.dom()
        &&& forall|id: u32| #[trigger]
            self.streams@.contains_key(id) ==> n.streams@[id] == retuned(
                self.streams@[id],
                self.paths@,
                self.cfg,
                now,
            )
    }

    pub fn tune_recv_windows(&mut self, now: u64)
        requires
            old(self).wf(),
        ensures
            final(self).wf(),
            old(self).tunes_windows(*final(self), now),
    {
        let ghost o = *self;
        let ids: Vec<u32> = ids_of(&self.streams);
        let mut i: usize = 0;
        proof {
            assert forall|j: int| 0 <= j < ids@.len() implies o.streams@.contains_key(
                #[trigger] ids@[j],
            ) by {
                assert(ids@.contains(ids@[j]));
            }
        }
        while i < ids.len()
            invariant
                i <= ids@.len(),
                lists_ids(ids@, o.streams@),
                forall|j: int| 0 <= j < ids@.len() ==> o.streams@.contains_key(#[trigger] ids@[j]),
                o.wf(),
                self.wf(),
                *self == (Session { streams: self.streams, ..o }),
                self.streams@.dom() == o.streams@.dom(),
                forall|j: int|
                    0 <= j < i ==> self.streams@[#[trigger] ids@[j]] == retuned(
                        o.streams@[ids@[j]],
                        o.paths@,
                        o.cfg,
                        now,
                    ),
                forall|j: int|
                    i <= j < ids@.len() ==> self.streams@[#[trigger] ids@[j]]
                        == o.streams@[ids@[j]],
            decreases ids.len() - i,
        {
            let id: u32 = ids[i];
            let ghost before = *self;
            assert(o.streams@.contains_key(ids@[i as int]));
            assert(self.streams@.dom().contains(id));
            match self.streams.remove(&id) {
                Some(stream) => {
                    let mut st: StreamState = stream;
                    let ghost st0 = st;
                    let rtt: Option<u64> = bdp_rtt(&self.paths, &st);
                    let _ = st.tune_recv_cap_sampled(false, rtt, &self.cfg, now);
                    assert(st == retuned(st0, o.paths@, o.cfg, now));
                    assert(st.recv_wf() && st.send_wf());
                    let _ = self.streams.insert(id, st);
                    assert(self.streams@ =~= before.streams@.insert(id, st));
                    assert(self.streams@.dom() =~= o.streams@.dom());
                },
                None => {},
            }
            proof {
                assert forall|j: int| 0 <= j < i + 1 implies self.streams@[#[trigger] ids@[j]]
                    == retuned(o.streams@[ids@[j]], o.paths@, o.cfg, now) by {
                    if j < i {
                        assert(ids@[j] < ids@[i as int]);
                    }
                }
                assert forall|j: int| i < j < ids@.len() implies self.streams@[#[trigger] ids@[j]]
                    == o.streams@[ids@[j]] by {
                    assert(ids@[i as int] < ids@[j]);
                }
            }
            i += 1;
        }
        proof {
            assert forall|id: u32| #[trigger] o.streams@.contains_key(id) implies self.streams@[id]
                == retuned(o.streams@[id], o.paths@, o.cfg, now) by {
                assert(ids@.contains(id));
                let j = choose|j: int| 0 <= j < ids@.len() && ids@[j] == id;
                assert(self.streams@[ids@[j]] == retuned(
                    o.streams@[ids@[j]],
                    o.paths@,
                    o.cfg,
                    now,
                ));
            }
        }
    }
}

// ---------------------------------------------------------------------------
// Late pieces
// ---------------------------------------------------------------------------
impl ResendWhy {
    pub open spec fn text(self) -> Seq<char> {
        match self {
            ResendWhy::Dropped => "dropped"@,
            ResendWhy::Gone => "gone"@,
            ResendWhy::Down => "down"@,
            ResendWhy::Age => "age"@,
            ResendWhy::Silence => "silence"@,
            ResendWhy::Belt => "belt"@,
        }
    }

    pub fn name(&self) -> (s: &'static str)
        ensures
            s@ == self.text(),
    {
        match self {
            ResendWhy::Dropped => "dropped",
            ResendWhy::Gone => "gone",
            ResendWhy::Down => "down",
            ResendWhy::Age => "age",
            ResendWhy::Silence => "silence",
            ResendWhy::Belt => "belt",
        }
    }
}

/// The counters after one due piece.
pub open spec fn resend_counted(c: Counters, ps: Seq<PathState>, r: Resend) -> Counters {
    match r.outcome {
        ResendOutcome::Sent => {
            let d = if r.why is Dropped {
                Counters { data_dropped_resend: plus(c.data_dropped_resend, 1), ..c }
            } else {
                c
            };
            retry_counted(d, ps, r.from, r.alt->0).note_resend_why_counted(r.why.text())
        },
        ResendOutcome::AllTried => c.note_resend_skipped_counted("all_tried"@),
        ResendOutcome::WriteStalled => c.note_resend_skipped_counted("write_stalled"@),
        ResendOutcome::NoAlt => c.note_resend_skipped_counted("no_alt"@),
        ResendOutcome::NotFresh => c,
        ResendOutcome::QueueFull => c,
    }
}

/// The counters after these due pieces.
pub open spec fn resends_counted(c: Counters, ps: Seq<PathState>, out: Seq<Resend>) -> Counters
    decreases out.len(),
{
    if out.len() == 0 {
        c
    } else {
        resend_counted(resends_counted(c, ps, out.drop_last()), ps, out.last())
    }
}

fn count_resend(metrics: &mut Counters, paths: &Vec<PathState>, r: &Resend)
    requires
        distinct_ids(paths@),
        r.outcome is Sent ==> r.alt is Some,
    ensures
        *final(metrics) == resend_counted(*old(metrics), paths@, *r),
{
    match r.outcome {
        ResendOutcome::Sent => {
            match r.why {
                ResendWhy::Dropped => {
                    metrics.data_dropped_resend = metrics.data_dropped_resend.saturating_add(1);
                },
                _ => {},
            }
            match r.alt {
                Some(to) => {
                    note_retry(metrics, paths, r.from, to);
                },
                None => {},
            }
            metrics.note_resend_why(r.why.name());
        },
        ResendOutcome::AllTried => {
            metrics.note_resend_skipped("all_tried");
        },
        ResendOutcome::WriteStalled => {
            metrics.note_resend_skipped("write_stalled");
        },
        ResendOutcome::NoAlt => {
            metrics.note_resend_skipped("no_alt");
        },
        ResendOutcome::NotFresh => {},
        ResendOutcome::QueueFull => {},
    }
}

fn count_resends(metrics: &mut Counters, paths: &Vec<PathState>, out: &Vec<Resend>)
    requires
        distinct_ids(paths@),
        forall|i: int|
            0 <= i < out@.len() && (#[trigger] out@[i]).outcome is Sent ==> out@[i].alt is Some,
    ensures
        *final(metrics) == resends_counted(*old(metrics), paths@, out@),
{
    let ghost c = *metrics;
    let mut i: usize = 0;
    assert(out@.take(0) =~= seq![]);
    while i < out.len()
        invariant
            i <= out@.len(),
            distinct_ids(paths@),
            forall|k: int|
                0 <= k < out@.len() && (#[trigger] out@[k]).outcome is Sent ==> out@[k].alt is Some,
            *metrics == resends_counted(c, paths@, out@.take(i as int)),
        decreases out.len() - i,
    {
        assert(out@.take(i as int + 1).drop_last() =~= out@.take(i as int));
        count_resend(metrics, paths, &out[i]);
        i += 1;
    }
    assert(out@.take(out@.len() as int) =~= out@);
}

impl StreamState {
    /// `n` and `qs` are this stream and the pool once every due piece was
    /// tried on another path; `out` accounts for them in offset order.
    pub open spec fn resends<S: Scheduler>(
        self,
        sched: &S,
        n: Self,
        ps: Seq<PathState>,
        qs: Seq<PathState>,
        out: Seq<Resend>,
        cfg: SessionConfig,
        now: u64,
    ) -> bool {
        &&& forall|k: u64|
            (exists|i: int| 0 <= i < out.len() && (#[trigger] out[i]).offset == k) <==> (
            #[trigger] self.unacked@.contains_key(k) && self.due(
                self.unacked@[k],
                ps,
                cfg,
                now,
            ) is Some)
        &&& forall|i: int, j: int| 0 <= i < j < out.len() ==> out[i].offset < out[j].offset
        &&& forall|i: int|
            0 <= i < out.len() ==> self.accounts_for(
                n.unacked@,
                #[trigger] out[i],
                ps,
                qs,
                cfg,
                now,
            )
        &&& n.unacked@.dom() == self.unacked@.dom()
        &&& forall|k: u64| #[trigger]
            self.unacked@.contains_key(k) && !(exists|i: int|
                0 <= i < out.len() && (#[trigger] out[i]).offset == k) ==> n.unacked@[k]
                == self.unacked@[k]
        &&& n.counters == (StreamCounters {
            hedges: capped(self.counters.hedges + sent_count(out)) as u64,
            ..self.counters
        })
        &&& n.paths_used@ == used_after_all(self.paths_used@, out)
        &&& pool_after_all(
            sched,
            ps,
            qs,
            self.id,
            self.unacked@,
            self.stalled_long(cfg, now as int / 1000),
            out,
            cfg,
        )
        &&& n == (StreamState {
            counters: n.counters,
            paths_used: n.paths_used,
            unacked: n.unacked,
            ..self
        })
    }
}

impl Session {
    /// What the retry of stream `id` does to this session.
    pub open spec fn retries<S: Scheduler>(
        self,
        sched: &S,
        n: Self,
        id: u32,
        out: Seq<Resend>,
        now: u64,
    ) -> bool {
        let st = self.streams@[id];
        if !self.streams@.contains_key(id) || !st.steerable() {
            out.len() == 0 && n == self
        } else {
            &&& n == (Session {
                streams: n.streams,
                paths: n.paths,
                metrics: resends_counted(self.metrics, n.paths@, out),
                ..self
            })
            &&& n.streams@.contains_key(id)
            &&& n.streams@ == self.streams@.insert(id, n.streams@[id])
            &&& st.resends(sched, n.streams@[id], self.paths@, n.paths@, out, self.cfg, now)
        }
    }

    /// Try the due pieces of a stream on other paths.
    pub fn retry_expired<S: Scheduler>(
        &mut self,
        id: u32,
        sched: &S,
        now: u64,
    ) -> (out: Vec<Resend>)
        requires
            old(self).wf(),
        ensures
            final(self).wf(),
            old(self).retries(sched, *final(self), id, out@, now),
    {
        let steerable: bool = match self.streams.get(&id) {
            Some(st) => st.is_steerable(),
            None => false,
        };
        if !steerable {
            return Vec::new();
        }
        let ghost o = *self;
        match self.streams.remove(&id) {
            Some(stream) => {
                let mut st: StreamState = stream;
                let ghost st0 = st;
                let out: Vec<Resend> = st.retry_expired_unacked(
                    &mut self.paths,
                    &self.cfg,
                    sched,
                    now,
                );
                proof {
                    assert(st0.resends(sched, st, o.paths@, self.paths@, out@, o.cfg, now));
                    lemma_resent_wf(sched, st0, st, o.paths@, self.paths@, out@, o.cfg, now);
                    assert forall|i: int|
                        0 <= i < out@.len() && (#[trigger] out@[i]).outcome is Sent implies out@[i].alt is Some by {
                        assert(st0.accounts_for(
                            st.unacked@,
                            out@[i],
                            o.paths@,
                            self.paths@,
                            o.cfg,
                            now,
                        ));
                    }
                }
                count_resends(&mut self.metrics, &self.paths, &out);
                let _ = self.streams.insert(id, st);
                assert(self.streams@ =~= o.streams@.insert(id, st));
                out
            },
            None => Vec::new(),
        }
    }
}

/// A retried stream is as well-formed as before: pieces keep their bytes.
proof fn lemma_resent_wf<S: Scheduler>(
    sched: &S,
    st: StreamState,
    n: StreamState,
    ps: Seq<PathState>,
    qs: Seq<PathState>,
    out: Seq<Resend>,
    cfg: SessionConfig,
    now: u64,
)
    requires
        st.recv_wf(),
        st.send_wf(),
        st.resends(sched, n, ps, qs, out, cfg, now),
    ensures
        n.recv_wf(),
        n.send_wf(),
{
    assert forall|k: u64| #[trigger] n.unacked@.contains_key(k) implies n.unacked@[k].data@
        == st.unacked@[k].data@ && st.unacked@.contains_key(k) by {
        assert(n.unacked@.dom().contains(k));
        assert(st.unacked@.dom().contains(k));
        if exists|i: int| 0 <= i < out.len() && (#[trigger] out[i]).offset == k {
            let i = choose|i: int| 0 <= i < out.len() && (#[trigger] out[i]).offset == k;
            assert(st.accounts_for(n.unacked@, out[i], ps, qs, cfg, now));
        } else {
            assert(st.unacked@.contains_key(k));
        }
    }
}

// ---------------------------------------------------------------------------
// Repeats
// ---------------------------------------------------------------------------
/// What was announced again.
pub struct Repeated {
    pub opens: Vec<Retry>,
    pub closes: Vec<Retry>,
    pub resets: Vec<Retry>,
}

impl Session {
    /// `n` is this session once its late StreamOpens, Closes and Resets were
    /// repeated, in that order.
    pub open spec fn repeats_late<S: Scheduler>(
        self,
        sched: &S,
        n: Self,
        r: Repeated,
        now: u64,
    ) -> bool {
        exists|q1: Seq<PathState>, q2: Seq<PathState>|
            #![trigger self.repeats_opens(sched, n, r.opens@, q1, now), self.repeats_closes(
                sched,
                n,
                r.closes@,
                q1,
                q2,
                now,
            )]
            {
                &&& self.repeats_opens(sched, n, r.opens@, q1, now)
                &&& self.repeats_closes(sched, n, r.closes@, q1, q2, now)
                &&& self.repeats_resets(sched, n, r.resets@, q2, now)
                &&& n == (Session {
                    opens: n.opens,
                    closes: n.closes,
                    resets: n.resets,
                    paths: n.paths,
                    metrics: repeats_counted(self.metrics, q1, r),
                    ..self
                })
            }
    }

    pub open spec fn repeats_opens<S: Scheduler>(
        self,
        sched: &S,
        n: Self,
        out: Seq<Retry>,
        q1: Seq<PathState>,
        now: u64,
    ) -> bool {
        repeats(sched, self.opens@, n.opens@, late_opens(), self.paths@, q1, self.cfg, now, out)
    }

    pub open spec fn repeats_closes<S: Scheduler>(
        self,
        sched: &S,
        n: Self,
        out: Seq<Retry>,
        q1: Seq<PathState>,
        q2: Seq<PathState>,
        now: u64,
    ) -> bool {
        exists|mid: Map<u32, Pending>| #[trigger]
            Ledger::live_closes(self.closes@, mid, self.streams@, self.cfg.close_linger, now)
                && repeats(sched, mid, n.closes@, late_ends(), q1, q2, self.cfg, now, out)
    }

    pub open spec fn repeats_resets<S: Scheduler>(
        self,
        sched: &S,
        n: Self,
        out: Seq<Retry>,
        q2: Seq<PathState>,
        now: u64,
    ) -> bool {
        exists|mid: Map<u32, Pending>| #[trigger]
            Ledger::live_resets(self.resets@, mid, self.cfg.close_linger, now) && repeats(
                sched,
                mid,
                n.resets@,
                late_ends(),
                q2,
                n.paths@,
                self.cfg,
                now,
                out,
            )
    }

    /// Repeat what the peer has not answered in time.
    pub fn repeat_late<S: Scheduler>(&mut self, sched: &S, now: u64) -> (r: Repeated)
        requires
            old(self).wf(),
        ensures
            final(self).wf(),
            old(self).repeats_late(sched, *final(self), r, now),
    {
        let ghost o = *self;
        let opens: Vec<Retry> = self.opens.retry_opens(&mut self.paths, &self.cfg, sched, now);
        let ghost q1 = self.paths@;
        note_retries(&mut self.metrics, &self.paths, &opens);
        let closes: Vec<Retry> = self.closes.retry_closes(
            &self.streams,
            &mut self.paths,
            &self.cfg,
            sched,
            now,
        );
        let ghost q2 = self.paths@;
        self.metrics.close_retry = self.metrics.close_retry.saturating_add(count_sent(&closes));
        let resets: Vec<Retry> = self.resets.retry_resets(&mut self.paths, &self.cfg, sched, now);
        self.metrics.reset_retry = self.metrics.reset_retry.saturating_add(count_sent(&resets));
        let r: Repeated = Repeated { opens, closes, resets };
        proof {
            assert(o.repeats_opens(sched, *self, r.opens@, q1, now));
            assert(o.repeats_closes(sched, *self, r.closes@, q1, q2, now));
            assert(o.repeats_resets(sched, *self, r.resets@, q2, now));
        }
        r
    }

    /// How long early DATA waits for its stream: two loss clocks of the
    /// fastest measured path, so that a repeated StreamOpen still finds it.
    pub open spec fn early_for(self) -> int {
        let rtt = match min_known(self.paths@) {
            Some(m) => m,
            None => self.cfg.ping_interval_max,
        };
        capped(self.cfg.tuning.loss_timeout_of(rtt as int) * 2)
    }

    /// Drop early DATA whose stream never opened.
    pub fn expire_early(&mut self, now: u64)
        requires
            old(self).wf(),
        ensures
            final(self).wf(),
            *final(self) == (Session { early: final(self).early, ..*old(self) }),
            forall|id: u32| #[trigger]
                final(self).early.waiting(id) == crate::early::young(
                    old(self).early.waiting(id),
                    old(self).early_for() as u64,
                    now,
                ),
    {
        let rtt: u64 = min_known_rtt(&self.paths, &self.cfg);
        let thresh: u64 = mul_capped(self.cfg.tuning.loss_timeout(rtt), 2);
        self.early.expire_early_data(thresh, now);
    }
}

/// The counters after the repeats of a tick.
pub open spec fn repeats_counted(c: Counters, q1: Seq<PathState>, r: Repeated) -> Counters {
    let d = retries_counted(c, q1, r.opens@);
    Counters {
        close_retry: plus(d.close_retry, sent_retries(r.closes@) as int),
        reset_retry: plus(d.reset_retry, sent_retries(r.resets@) as int),
        ..d
    }
}

// ---------------------------------------------------------------------------
// Homes, stalls and late pieces of every stream
// ---------------------------------------------------------------------------
/// `v` lists, by id, the steerable streams that are bulk, or those that are
/// not.
pub open spec fn lists_steerable(v: Seq<u32>, m: Map<u32, StreamState>, bulk: bool) -> bool {
    &&& forall|i: int, j: int| 0 <= i < j < v.len() ==> v[i] < v[j]
    &&& forall|k: u32| #[trigger]
        v.contains(k) <==> m.contains_key(k) && m[k].steerable() && m[k].send.bulk == bulk
}

/// How many of these streams are stalled.
pub open spec fn stalled_count(m: Map<u32, StreamState>, ids: Seq<u32>) -> nat
    decreases ids.len(),
{
    if ids.len() == 0 {
        0
    } else {
        stalled_count(m, ids.drop_last()) + if m.contains_key(ids.last())
            && m[ids.last()].life.stalled {
            1nat
        } else {
            0nat
        }
    }
}

impl Session {
    fn steerable_ids(&self, bulk: bool) -> (v: Vec<u32>)
        ensures
            lists_steerable(v@, self.streams@, bulk),
    {
        let ids: Vec<u32> = ids_of(&self.streams);
        let mut v: Vec<u32> = Vec::new();
        let mut i: usize = 0;
        while i < ids.len()
            invariant
                i <= ids@.len(),
                lists_ids(ids@, self.streams@),
                forall|a: int, b: int| 0 <= a < b < v@.len() ==> v@[a] < v@[b],
                forall|a: int|
                    0 <= a < v@.len() ==> self.streams@.contains_key(#[trigger] v@[a])
                        && self.streams@[v@[a]].steerable() && self.streams@[v@[a]].send.bulk
                        == bulk && (i < ids@.len() ==> v@[a] < ids@[i as int]),
                forall|j: int|
                    0 <= j < i && self.streams@[#[trigger] ids@[j]].steerable()
                        && self.streams@[ids@[j]].send.bulk == bulk ==> v@.contains(ids@[j]),
            decreases ids.len() - i,
        {
            let id: u32 = ids[i];
            assert(ids@.contains(id));
            let wanted: bool = match self.streams.get(&id) {
                Some(st) => st.is_steerable() && st.send.bulk == bulk,
                None => false,
            };
            let ghost v0 = v@;
            if wanted {
                v.push(id);
                assert(v@[v0.len() as int] == id);
            }
            proof {
                assert forall|j: int|
                    0 <= j < i + 1 && self.streams@[#[trigger] ids@[j]].steerable()
                        && self.streams@[ids@[j]].send.bulk == bulk implies v@.contains(ids@[j]) by {
                    if j < i {
                        assert(v0.contains(ids@[j]));
                        let a = choose|a: int| 0 <= a < v0.len() && v0[a] == ids@[j];
                        assert(v@[a] == ids@[j]);
                    }
                }
            }
            i += 1;
        }
        proof {
            assert forall|k: u32| #[trigger]
                v@.contains(k) <==> self.streams@.contains_key(k) && self.streams@[k].steerable()
                    && self.streams@[k].send.bulk == bulk by {
                if v@.contains(k) {
                    let a = choose|a: int| 0 <= a < v@.len() && v@[a] == k;
                    assert(self.streams@.contains_key(v@[a]));
                }
                if self.streams@.contains_key(k) && self.streams@[k].steerable()
                    && self.streams@[k].send.bulk == bulk {
                    assert(ids@.contains(k));
                    let j = choose|j: int| 0 <= j < ids@.len() && ids@[j] == k;
                    assert(v@.contains(ids@[j]));
                }
            }
        }
        v
    }

    /// Bulk streams first, so that they make way before small ones look.
    pub open spec fn steer_order(self, ids: Seq<u32>) -> bool {
        exists|bulk: Seq<u32>, rest: Seq<u32>|
            #![trigger lists_steerable(bulk, self.streams@, true), lists_steerable(
                rest,
                self.streams@,
                false,
            )]
            lists_steerable(bulk, self.streams@, true) && lists_steerable(
                rest,
                self.streams@,
                false,
            ) && ids == bulk + rest
    }

    fn steerable_order(&self) -> (ids: Vec<u32>)
        ensures
            self.steer_order(ids@),
    {
        let mut ids: Vec<u32> = self.steerable_ids(true);
        let rest: Vec<u32> = self.steerable_ids(false);
        let ghost bulk = ids@;
        let mut i: usize = 0;
        assert(bulk + rest@.take(0) =~= bulk);
        while i < rest.len()
            invariant
                i <= rest@.len(),
                ids@ == bulk + rest@.take(i as int),
            decreases rest.len() - i,
        {
            ids.push(rest[i]);
            assert(bulk + rest@.take(i as int + 1) =~= (bulk + rest@.take(i as int)).push(
                rest@[i as int],
            ));
            i += 1;
        }
        assert(rest@.take(rest@.len() as int) =~= rest@);
        assert(lists_steerable(bulk, self.streams@, true) && lists_steerable(
            rest@,
            self.streams@,
            false,
        ));
        ids
    }

    /// `n` is this session once these streams were placed in order.
    pub open spec fn hols_all<S: Scheduler>(
        self,
        sched: &S,
        n: Self,
        ids: Seq<u32>,
        outs: Seq<HolOutcome>,
        now: u64,
    ) -> bool
        decreases ids.len(),
    {
        if ids.len() == 0 {
            n == self && outs.len() == 0
        } else {
            &&& outs.len() == ids.len()
            &&& exists|mid: Self|
                self.hols_all(sched, mid, ids.drop_last(), outs.drop_last(), now) && #[trigger] mid.hols(
                    sched,
                    n,
                    ids.last(),
                    outs.last(),
                    now,
                )
        }
    }

    /// `n` is this session once these streams were scanned in order.
    pub open spec fn scans_all(
        self,
        n: Self,
        ids: Seq<u32>,
        outs: Seq<StallChange>,
        now: u64,
    ) -> bool
        decreases ids.len(),
    {
        if ids.len() == 0 {
            n == self && outs.len() == 0
        } else {
            &&& outs.len() == ids.len()
            &&& exists|mid: Self|
                self.scans_all(mid, ids.drop_last(), outs.drop_last(), now) && #[trigger] mid.scans(
                    n,
                    ids.last(),
                    outs.last(),
                    now,
                )
        }
    }

    /// `n` is this session once the late pieces of these streams were tried
    /// in order.
    pub open spec fn retries_all<S: Scheduler>(
        self,
        sched: &S,
        n: Self,
        ids: Seq<u32>,
        outs: Seq<Vec<Resend>>,
        now: u64,
    ) -> bool
        decreases ids.len(),
    {
        if ids.len() == 0 {
            n == self && outs.len() == 0
        } else {
            &&& outs.len() == ids.len()
            &&& exists|mid: Self|
                self.retries_all(sched, mid, ids.drop_last(), outs.drop_last(), now)
                    && #[trigger] mid.retries(sched, n, ids.last(), outs.last()@, now)
        }
    }

    fn hol_all<S: Scheduler>(&mut self, ids: &Vec<u32>, sched: &S, now: u64) -> (outs: Vec<
        HolOutcome,
    >)
        requires
            old(self).wf(),
        ensures
            final(self).wf(),
            old(self).hols_all(sched, *final(self), ids@, outs@, now),
    {
        let ghost o = *self;
        let mut outs: Vec<HolOutcome> = Vec::new();
        let mut i: usize = 0;
        assert(ids@.take(0) =~= seq![]);
        while i < ids.len()
            invariant
                i <= ids@.len(),
                self.wf(),
                outs@.len() == i,
                o.hols_all(sched, *self, ids@.take(i as int), outs@, now),
            decreases ids.len() - i,
        {
            let ghost before = *self;
            let ghost outs0 = outs@;
            let out: HolOutcome = self.maybe_hol(ids[i], sched, now);
            outs.push(out);
            proof {
                assert(ids@.take(i as int + 1).drop_last() =~= ids@.take(i as int));
                assert(outs@.drop_last() =~= outs0);
                assert(before.hols(sched, *self, ids@.take(i as int + 1).last(), outs@.last(), now));
                assert(o.hols_all(sched, *self, ids@.take(i as int + 1), outs@, now));
            }
            i += 1;
        }
        assert(ids@.take(ids@.len() as int) =~= ids@);
        outs
    }

    fn scan_all(&mut self, ids: &Vec<u32>, now: u64) -> (outs: Vec<StallChange>)
        requires
            old(self).wf(),
        ensures
            final(self).wf(),
            old(self).scans_all(*final(self), ids@, outs@, now),
    {
        let ghost o = *self;
        let mut outs: Vec<StallChange> = Vec::new();
        let mut i: usize = 0;
        assert(ids@.take(0) =~= seq![]);
        while i < ids.len()
            invariant
                i <= ids@.len(),
                self.wf(),
                outs@.len() == i,
                o.scans_all(*self, ids@.take(i as int), outs@, now),
            decreases ids.len() - i,
        {
            let ghost before = *self;
            let ghost outs0 = outs@;
            let out: StallChange = self.scan_stall(ids[i], now);
            outs.push(out);
            proof {
                assert(ids@.take(i as int + 1).drop_last() =~= ids@.take(i as int));
                assert(outs@.drop_last() =~= outs0);
                assert(before.scans(*self, ids@.take(i as int + 1).last(), outs@.last(), now));
                assert(o.scans_all(*self, ids@.take(i as int + 1), outs@, now));
            }
            i += 1;
        }
        assert(ids@.take(ids@.len() as int) =~= ids@);
        outs
    }

    fn retry_all<S: Scheduler>(&mut self, ids: &Vec<u32>, sched: &S, now: u64) -> (outs: Vec<
        Vec<Resend>,
    >)
        requires
            old(self).wf(),
        ensures
            final(self).wf(),
            old(self).retries_all(sched, *final(self), ids@, outs@, now),
    {
        let ghost o = *self;
        let mut outs: Vec<Vec<Resend>> = Vec::new();
        let mut i: usize = 0;
        assert(ids@.take(0) =~= seq![]);
        while i < ids.len()
            invariant
                i <= ids@.len(),
                self.wf(),
                outs@.len() == i,
                o.retries_all(sched, *self, ids@.take(i as int), outs@, now),
            decreases ids.len() - i,
        {
            let ghost before = *self;
            let ghost outs0 = outs@;
            let out: Vec<Resend> = self.retry_expired(ids[i], sched, now);
            outs.push(out);
            proof {
                assert(ids@.take(i as int + 1).drop_last() =~= ids@.take(i as int));
                assert(outs@.drop_last() =~= outs0);
                assert(before.retries(sched, *self, ids@.take(i as int + 1).last(), outs@.last()@, now));
                assert(o.retries_all(sched, *self, ids@.take(i as int + 1), outs@, now));
            }
            i += 1;
        }
        assert(ids@.take(ids@.len() as int) =~= ids@);
        outs
    }

    fn count_stalled(&self, ids: &Vec<u32>) -> (n: u64)
        ensures
            n == stalled_count(self.streams@, ids@),
    {
        let mut n: u64 = 0;
        let mut i: usize = 0;
        assert(ids@.take(0) =~= seq![]);
        while i < ids.len()
            invariant
                i <= ids@.len(),
                n == stalled_count(self.streams@, ids@.take(i as int)),
                n <= i,
            decreases ids.len() - i,
        {
            assert(ids@.take(i as int + 1).drop_last() =~= ids@.take(i as int));
            let stalled: bool = match self.streams.get(&ids[i]) {
                Some(st) => st.life.stalled,
                None => false,
            };
            if stalled {
                n += 1;
            }
            i += 1;
        }
        assert(ids@.take(ids@.len() as int) =~= ids@);
        n
    }
}

/// What a tick did for the streams that may still be moved.
pub struct Steered {
    pub ids: Vec<u32>,
    pub hols: Vec<HolOutcome>,
    pub stalls: Vec<StallChange>,
    pub resends: Vec<Vec<Resend>>,
}

impl Session {
    /// What a tick does for the streams that may still be moved: homes, then
    /// stalls, then late pieces.
    pub open spec fn steers<S: Scheduler>(self, sched: &S, n: Self, s: Steered, now: u64) -> bool {
        &&& self.steer_order(s.ids@)
        &&& exists|a: Self, b: Self|
            #![trigger self.hols_all(sched, a, s.ids@, s.hols@, now), a.scans_all(
                b,
                s.ids@,
                s.stalls@,
                now,
            )]
            {
                let counted = Session {
                    metrics: Counters {
                        streams_stalled: stalled_count(b.streams@, s.ids@) as u64,
                        ..b.metrics
                    },
                    ..b
                };
                &&& self.hols_all(sched, a, s.ids@, s.hols@, now)
                &&& a.scans_all(b, s.ids@, s.stalls@, now)
                &&& counted.retries_all(sched, n, s.ids@, s.resends@, now)
            }
    }

    pub fn steer_streams<S: Scheduler>(&mut self, sched: &S, now: u64) -> (s: Steered)
        requires
            old(self).wf(),
        ensures
            final(self).wf(),
            old(self).steers(sched, *final(self), s, now),
    {
        let ghost o = *self;
        let ids: Vec<u32> = self.steerable_order();
        let hols: Vec<HolOutcome> = self.hol_all(&ids, sched, now);
        let ghost a = *self;
        let stalls: Vec<StallChange> = self.scan_all(&ids, now);
        let ghost b = *self;
        self.metrics.streams_stalled = self.count_stalled(&ids);
        let resends: Vec<Vec<Resend>> = self.retry_all(&ids, sched, now);
        let s: Steered = Steered { ids, hols, stalls, resends };
        proof {
            assert(o.hols_all(sched, a, s.ids@, s.hols@, now));
            assert(a.scans_all(b, s.ids@, s.stalls@, now));
        }
        s
    }
}

/// A resend is counted under its reason, and as a hedge or a retransmit; a piece
/// that found no path under why it found none.
pub proof fn law_a_resend_is_counted_under_its_reason(c: Counters, ps: Seq<PathState>, r: Resend)
    requires
        c.data_resend_silence < u64::MAX,
        c.data_resend_belt < u64::MAX,
        c.data_resend_down < u64::MAX,
        c.data_resend_gone < u64::MAX,
        c.data_resend_dropped < u64::MAX,
        c.data_resend_age < u64::MAX,
        c.data_dropped_resend < u64::MAX,
        c.data_retransmit < u64::MAX,
        c.data_hedge < u64::MAX,
        c.data_resend_skipped_all_tried < u64::MAX,
        c.data_resend_skipped_write_stalled < u64::MAX,
        c.data_resend_skipped_no_alt < u64::MAX,
    ensures
        ({
            let n = resend_counted(c, ps, r);
            let sent = r.outcome is Sent;
            let one = |b: bool|
                if b {
                    1int
                } else {
                    0int
                };
            &&& n.data_resend_silence - c.data_resend_silence == one(sent && r.why is Silence)
            &&& n.data_resend_belt - c.data_resend_belt == one(sent && r.why is Belt)
            &&& n.data_resend_down - c.data_resend_down == one(sent && r.why is Down)
            &&& n.data_resend_gone - c.data_resend_gone == one(sent && r.why is Gone)
            &&& n.data_resend_dropped - c.data_resend_dropped == one(sent && r.why is Dropped)
            &&& n.data_dropped_resend - c.data_dropped_resend == one(sent && r.why is Dropped)
            &&& n.data_resend_age - c.data_resend_age == one(sent && r.why is Age)
            &&& n.data_retransmit - c.data_retransmit + n.data_hedge - c.data_hedge == one(sent)
            &&& n.data_resend_skipped_all_tried - c.data_resend_skipped_all_tried == one(
                r.outcome is AllTried,
            )
            &&& n.data_resend_skipped_write_stalled - c.data_resend_skipped_write_stalled == one(
                r.outcome is WriteStalled,
            )
            &&& n.data_resend_skipped_no_alt - c.data_resend_skipped_no_alt == one(
                r.outcome is NoAlt,
            )
        }),
{
    lemma_reasons_differ();
    let d = if r.outcome is Sent && r.why is Dropped {
        Counters { data_dropped_resend: plus(c.data_dropped_resend, 1), ..c }
    } else {
        c
    };
    if r.outcome is Sent {
        let e = retry_counted(d, ps, r.from, r.alt->0);
        assert(e.data_retransmit - c.data_retransmit + e.data_hedge - c.data_hedge == 1);
    }
}

/// No two names of a reason are the same.
proof fn lemma_reasons_differ()
    ensures
        "belt"@ != "silence"@,
        "down"@ != "silence"@ && "down"@ != "belt"@,
        "gone"@ != "silence"@ && "gone"@ != "belt"@ && "gone"@ != "down"@,
        "dropped"@ != "silence"@ && "dropped"@ != "belt"@ && "dropped"@ != "down"@ && "dropped"@
            != "gone"@,
        "age"@ != "silence"@ && "age"@ != "belt"@ && "age"@ != "down"@ && "age"@ != "gone"@
            && "age"@ != "dropped"@,
        "write_stalled"@ != "no_fresh_alt"@ && "write_stalled"@ != "allquiet_wait"@
            && "write_stalled"@ != "queue_full"@,
        "all_tried"@ != "no_fresh_alt"@ && "all_tried"@ != "allquiet_wait"@ && "all_tried"@
            != "queue_full"@ && "all_tried"@ != "write_stalled"@,
        "no_alt"@ != "no_fresh_alt"@ && "no_alt"@ != "allquiet_wait"@ && "no_alt"@ != "queue_full"@
            && "no_alt"@ != "write_stalled"@ && "no_alt"@ != "all_tried"@,
{
    reveal_strlit("silence");
    reveal_strlit("belt");
    reveal_strlit("down");
    reveal_strlit("gone");
    reveal_strlit("dropped");
    reveal_strlit("age");
    reveal_strlit("no_fresh_alt");
    reveal_strlit("allquiet_wait");
    reveal_strlit("queue_full");
    reveal_strlit("write_stalled");
    reveal_strlit("all_tried");
    reveal_strlit("no_alt");
    assert("belt"@.len() == 4 && "down"@.len() == 4 && "gone"@.len() == 4 && "age"@.len() == 3);
    assert("silence"@.len() == 7 && "dropped"@.len() == 7);
    assert("down"@[0] == 'd' && "gone"@[0] == 'g' && "belt"@[0] == 'b');
    assert("silence"@[0] == 's' && "dropped"@[0] == 'd');
    assert("write_stalled"@.len() == 13 && "allquiet_wait"@.len() == 13);
    assert("write_stalled"@[0] == 'w' && "allquiet_wait"@[0] == 'a');
    assert("no_fresh_alt"@.len() == 12 && "queue_full"@.len() == 10);
    assert("all_tried"@.len() == 9 && "no_alt"@.len() == 6);
}

/// Data that came early waits two loss clocks of the fastest measured path.
pub proof fn law_early_data_waits_two_losses(s: Session)
    requires
        2 * s.cfg.tuning.loss_timeout_of(
            (match min_known(s.paths@) {
                Some(m) => m,
                None => s.cfg.ping_interval_max,
            }) as int,
        ) <= u64::MAX,
    ensures
        s.early_for() == 2 * s.cfg.tuning.loss_timeout_of(
            (match min_known(s.paths@) {
                Some(m) => m,
                None => s.cfg.ping_interval_max,
            }) as int,
        ),
        forall|i: int|
            0 <= i < s.paths@.len() && (#[trigger] s.paths@[i]).stat.rtt_us > 0 ==> min_known(
                s.paths@,
            ) is Some && min_known(s.paths@)->0 <= s.paths@[i].stat.rtt_us,
        min_known(s.paths@) is Some ==> exists|i: int|
            0 <= i < s.paths@.len() && (#[trigger] s.paths@[i]).stat.rtt_us == min_known(
                s.paths@,
            )->0 && s.paths@[i].stat.rtt_us > 0,
{
    lemma_min_known_is_least(s.paths@);
}

/// The smallest measured RTT is that of a measured path, and none is below it.
proof fn lemma_min_known_is_least(ps: Seq<PathState>)
    ensures
        forall|i: int|
            0 <= i < ps.len() && (#[trigger] ps[i]).stat.rtt_us > 0 ==> min_known(ps) is Some
                && min_known(ps)->0 <= ps[i].stat.rtt_us,
        min_known(ps) is Some ==> exists|i: int|
            0 <= i < ps.len() && (#[trigger] ps[i]).stat.rtt_us == min_known(ps)->0
                && ps[i].stat.rtt_us > 0,
    decreases ps.len(),
{
    if ps.len() > 0 {
        let d = ps.drop_last();
        lemma_min_known_is_least(d);
        assert forall|i: int| 0 <= i < ps.len() && (#[trigger] ps[i]).stat.rtt_us > 0 implies min_known(
            ps,
        ) is Some && min_known(ps)->0 <= ps[i].stat.rtt_us by {
            if i < ps.len() - 1 {
                assert(d[i] == ps[i]);
            }
        }
        if min_known(ps) is Some {
            if min_known(d) is Some {
                let j = choose|j: int|
                    0 <= j < d.len() && (#[trigger] d[j]).stat.rtt_us == min_known(d)->0
                        && d[j].stat.rtt_us > 0;
                assert(ps[j] == d[j]);
            }
            assert(ps[ps.len() - 1] == ps.last());
        }
    }
}

/// Each stalled stream among those looked at is counted.
pub proof fn law_stalled_streams_are_counted(m: Map<u32, StreamState>, ids: Seq<u32>, id: u32)
    ensures
        stalled_count(m, ids.push(id)) == stalled_count(m, ids) + if m.contains_key(id)
            && m[id].life.stalled {
            1nat
        } else {
            0
        },
        stalled_count(m, seq![]) == 0,
{
    assert(ids.push(id).drop_last() =~= ids);
}

/// Bulk streams are steered before small ones, each kind by its id, and every
/// stream that may be steered once.
pub proof fn law_bulk_is_steered_first(s: Session, ids: Seq<u32>, i: int, j: int)
    requires
        s.steer_order(ids),
        0 <= i < j < ids.len(),
    ensures
        s.streams@.contains_key(ids[i]),
        s.streams@[ids[j]].send.bulk ==> s.streams@[ids[i]].send.bulk,
        s.streams@[ids[i]].send.bulk == s.streams@[ids[j]].send.bulk ==> ids[i] < ids[j],
        ids[i] != ids[j],
        !s.streams@[ids[i]].life.reset,
{
    let (bulk, rest) = choose|bulk: Seq<u32>, rest: Seq<u32>|
        #![trigger lists_steerable(bulk, s.streams@, true), lists_steerable(rest, s.streams@, false)]
        lists_steerable(bulk, s.streams@, true) && lists_steerable(rest, s.streams@, false) && ids
            == bulk + rest;
    let pick = |k: int|
        if k < bulk.len() {
            bulk[k]
        } else {
            rest[k - bulk.len()]
        };
    assert(ids[i] == pick(i));
    assert(ids[j] == pick(j));
    if i < bulk.len() {
        assert(bulk.contains(ids[i]));
    } else {
        assert(rest.contains(ids[i]));
    }
    if j < bulk.len() {
        assert(bulk.contains(ids[j]));
    } else {
        assert(rest.contains(ids[j]));
    }
}

} // verus!
