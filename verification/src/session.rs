//! One overlay session: many paths, many multiplexed streams.

use std::collections::BTreeMap;
use vstd::prelude::*;

use crate::cfg::SessionConfig;
use crate::early::EarlyData;
use crate::frames::ResetReason;
use crate::ledger::{Ledger, Pending};
use crate::lifecycle::{
    announce_accounts, announce_reset, end_counted, end_of, entry_of, load_released,
    observe_stream_end, progress_fine, record_of, release_unacked, reset_entry, Announce,
    EndRecord, StreamEnd,
};
use crate::memory::PathMemory;
use crate::metrics::{plus, zero_counters, Counters};
use crate::path::{alive_count, alive_path_count, distinct_ids, PathState};
use crate::pool::{left_home, queues_grow, steady};
use crate::sched::Scheduler;
use crate::stream::StreamState;
use crate::text::{push_line, text, views};

verus! {

broadcast use vstd::laws_cmp::group_laws_cmp;

#[derive(Clone, Copy, Debug, PartialEq, Eq, Structural)]
pub enum SessionError {
    Dead,
    NoPath,
    UnknownStream,
    Reset,
    ServerCannotOpen,
}

impl SessionError {
    pub open spec fn text(self) -> Seq<char> {
        match self {
            SessionError::Dead => "session is dead"@,
            SessionError::NoPath => "no healthy path"@,
            SessionError::UnknownStream => "unknown stream"@,
            SessionError::Reset => "stream reset"@,
            SessionError::ServerCannotOpen => "server cannot open streams"@,
        }
    }

    pub fn message(&self) -> (s: &'static str)
        ensures
            s@ == self.text(),
    {
        match self {
            SessionError::Dead => "session is dead",
            SessionError::NoPath => "no healthy path",
            SessionError::UnknownStream => "unknown stream",
            SessionError::Reset => "stream reset",
            SessionError::ServerCannotOpen => "server cannot open streams",
        }
    }
}

/// Where a session stands.
#[derive(Clone, Copy, Debug, PartialEq, Eq, Structural)]
pub struct Marks {
    pub dead: bool,
    /// Since when no path is alive.
    pub all_down_since: Option<u64>,
    /// Since when silent paths are held instead of torn down.
    pub correlated_since: Option<u64>,
    pub next_path_id: u32,
    pub next_stream_id: u32,
    /// A session nobody can rejoin ends with its last path.
    pub reap_on_all_down: bool,
}

pub struct Session {
    pub cfg: SessionConfig,
    pub is_client: bool,
    pub marks: Marks,
    pub metrics: Counters,
    pub paths: Vec<PathState>,
    pub streams: BTreeMap<u32, StreamState>,
    pub opens: Ledger,
    pub closes: Ledger,
    pub resets: Ledger,
    pub early: EarlyData,
    pub memory: PathMemory,
}

/// What the end of a stream asks of the host.
#[derive(Clone, Copy, Debug, PartialEq, Eq, Structural)]
pub struct Finished {
    /// Tell the application that the stream was reset.
    pub inbound: Option<ResetReason>,
    /// How the peer was told.
    pub announce: Option<Announce>,
    /// The accounting, where this call owned it.
    pub record: Option<EndRecord>,
}

/// `n` is the pool once the stream let go of its home and its load.
pub open spec fn let_go(ps: Seq<PathState>, n: Seq<PathState>, st: StreamState) -> bool {
    load_released(
        if st.life.sticky != 0 {
            left_home(ps, st.life.sticky)
        } else {
            ps
        },
        n,
        st.unacked@,
    )
}

/// Names of the living paths, in pool order.
pub open spec fn alive_names(ps: Seq<PathState>) -> Seq<Seq<char>>
    decreases ps.len(),
{
    if ps.len() == 0 {
        seq![]
    } else if ps.last().stat.alive() {
        alive_names(ps.drop_last()).push(ps.last().name@)
    } else {
        alive_names(ps.drop_last())
    }
}

/// A session in which nothing happened yet.
pub open spec fn fresh_session(s: Session, cfg: SessionConfig, is_client: bool) -> bool {
    &&& s.cfg == cfg
    &&& s.is_client == is_client
    &&& s.marks == (Marks {
        dead: false,
        all_down_since: None,
        correlated_since: None,
        next_path_id: 1,
        next_stream_id: 1,
        reap_on_all_down: false,
    })
    &&& s.metrics == zero_counters()
    &&& s.paths@.len() == 0
    &&& s.streams@ == Map::<u32, StreamState>::empty()
    &&& s.opens@ == Map::<u32, Pending>::empty()
    &&& s.closes@ == Map::<u32, Pending>::empty()
    &&& s.resets@ == Map::<u32, Pending>::empty()
    &&& s.early.entries@.dom().is_empty()
    &&& forall|name: Seq<char>| #[trigger] s.memory.last_rtt.known(name) is None
    &&& forall|name: Seq<char>| #[trigger] s.memory.last_lived.known(name) is None
}

impl Session {
    /// Paths have distinct ids; every stream is filed under its own id, its
    /// reorder buffer counted and its pieces in range.
    pub open spec fn wf(self) -> bool {
        &&& self.cfg.wf()
        &&& distinct_ids(self.paths@)
        &&& forall|id: u32| #[trigger]
            self.streams@.contains_key(id) ==> self.streams@[id].id == id
                && self.streams@[id].recv_wf() && self.streams@[id].send_wf()
    }

    pub fn new(cfg: SessionConfig, is_client: bool) -> (s: Self)
        requires
            cfg.wf(),
        ensures
            s.wf(),
            fresh_session(s, cfg, is_client),
    {
        Session {
            cfg,
            is_client,
            marks: Marks {
                dead: false,
                all_down_since: None,
                correlated_since: None,
                next_path_id: 1,
                next_stream_id: 1,
                reap_on_all_down: false,
            },
            metrics: Counters::zero(),
            paths: Vec::new(),
            streams: BTreeMap::new(),
            opens: Ledger::new(),
            closes: Ledger::new(),
            resets: Ledger::new(),
            early: EarlyData::new(),
            memory: PathMemory::new(),
        }
    }

    /// The side that opens streams.
    pub fn new_client(cfg: SessionConfig) -> (s: Self)
        requires
            cfg.wf(),
        ensures
            s.wf(),
            fresh_session(s, cfg, true),
    {
        Session::new(cfg, true)
    }

    /// The side that streams are opened to.
    pub fn new_server(cfg: SessionConfig) -> (s: Self)
        requires
            cfg.wf(),
        ensures
            s.wf(),
            fresh_session(s, cfg, false),
    {
        Session::new(cfg, false)
    }

    pub fn config(&self) -> (c: &SessionConfig)
        ensures
            *c == self.cfg,
    {
        &self.cfg
    }

    pub fn alive_path_count(&self) -> (n: usize)
        ensures
            n == alive_count(self.paths@),
    {
        alive_path_count(&self.paths)
    }

    /// Names of the living paths, in pool order.
    pub fn alive_path_names(&self) -> (v: Vec<String>)
        ensures
            views(v@) == alive_names(self.paths@),
    {
        let mut v: Vec<String> = Vec::new();
        let mut i: usize = 0;
        assert(self.paths@.take(0) =~= seq![]);
        assert(views(v@) =~= seq![]);
        while i < self.paths.len()
            invariant
                i <= self.paths@.len(),
                views(v@) == alive_names(self.paths@.take(i as int)),
            decreases self.paths.len() - i,
        {
            assert(self.paths@.take(i as int + 1).drop_last() =~= self.paths@.take(i as int));
            if self.paths[i].stat.is_alive() {
                push_line(&mut v, text(self.paths[i].name.as_str()));
            }
            i += 1;
        }
        assert(self.paths@.take(self.paths@.len() as int) =~= self.paths@);
        v
    }

    pub fn is_dead(&self) -> (r: bool)
        ensures
            r == self.marks.dead,
    {
        self.marks.dead
    }

    /// Nothing but streams, tables, paths and counters differs from `o`.
    pub open spec fn same_frame(self, o: Self) -> bool {
        &&& self.cfg == o.cfg
        &&& self.is_client == o.is_client
        &&& self.marks == o.marks
        &&& self.early == o.early
        &&& self.memory == o.memory
    }

    /// The stream `id` is not yet sure to be known to the peer.
    pub open spec fn open_pending(self, id: u32) -> bool {
        self.opens@.contains_key(id)
    }

    /// Nothing of stream `id` is outstanding.
    pub open spec fn fine(self, id: u32) -> bool {
        progress_fine(self.streams@[id], self.open_pending(id))
    }

    /// `n` is this session, and `out` what it asks for, once stream `id` was
    /// finished for `reason`.
    pub open spec fn finishes<S: Scheduler>(
        self,
        sched: &S,
        n: Self,
        id: u32,
        reason: Option<ResetReason>,
        send_frame: bool,
        out: Finished,
        now: u64,
    ) -> bool {
        let st = self.streams@[id];
        let first = !st.life.reset;
        let why = match reason {
            Some(r) => r,
            None => ResetReason::SessionDead,
        };
        let live = send_frame && !self.marks.dead;
        let end = end_of(reason, self.fine(id));
        let counts = !st.life.counted_close;
        &&& n.same_frame(self)
        &&& n.streams@ == self.streams@.remove(id)
        &&& n.opens@ == self.opens@.remove(id)
        &&& n.closes@ == if counts {
            self.closes@.remove(id)
        } else {
            self.closes@
        }
        // The application hears of it once, and not after a clean end.
        &&& out.inbound == if first && !(st.recv.recv_fin && self.fine(id)) {
            Some(why)
        } else {
            None
        }
        // The end is counted once.
        &&& out.record == if counts {
            Some(record_of(st, end, (now / 1000) as u64))
        } else {
            None
        }
        &&& n.metrics == if counts {
            end_counted(retry_noted(self.metrics, out.announce), end)
        } else {
            retry_noted(self.metrics, out.announce)
        }
        // The peer is told where a frame may be sent; a clean linger forgets
        // the Reset again.
        &&& exists|mid: Map<u32, Pending>, qs: Seq<PathState>|
            #![trigger let_go(qs, n.paths@, st), entry_of(mid, id)]
            tells(
                sched,
                self.resets@,
                self.paths@,
                mid,
                qs,
                id,
                first,
                live,
                why,
                self.cfg,
                out.announce,
                now,
            ) && let_go(qs, n.paths@, st) && n.resets@ == if counts && end is Linger
                && st.recv.recv_fin {
                mid.remove(id)
            } else {
                mid
            }
    }

    /// Tell the peer of a Reset, where a frame may be sent; a Reset that
    /// stays here is forgotten.
    fn tell_peer<S: Scheduler>(
        &mut self,
        id: u32,
        first: bool,
        live: bool,
        why: ResetReason,
        sched: &S,
        now: u64,
    ) -> (announce: Option<Announce>)
        requires
            distinct_ids(old(self).paths@),
        ensures
            tells(
                sched,
                old(self).resets@,
                old(self).paths@,
                final(self).resets@,
                final(self).paths@,
                id,
                first,
                live,
                why,
                old(self).cfg,
                announce,
                now,
            ),
            final(self).metrics == retry_noted(old(self).metrics, announce),
            distinct_ids(final(self).paths@),
            final(self).same_frame(*old(self)),
            final(self).streams == old(self).streams,
            final(self).opens == old(self).opens,
            final(self).closes == old(self).closes,
    {
        if !first {
            return None;
        }
        if !live {
            self.resets.forget(id);
            return None;
        }
        let a: Announce = announce_reset(
            &mut self.resets,
            &mut self.paths,
            id,
            why,
            false,
            &self.cfg,
            sched,
            now,
        );
        if a.second_sent {
            self.metrics.reset_retry = self.metrics.reset_retry.saturating_add(1);
        }
        Some(a)
    }

    /// Give the home and the load of a stream back and forget its StreamOpen.
    fn release_stream(&mut self, id: u32, stream: StreamState)
        requires
            distinct_ids(old(self).paths@),
        ensures
            let_go(old(self).paths@, final(self).paths@, stream),
            distinct_ids(final(self).paths@),
            final(self).opens@ == old(self).opens@.remove(id),
            final(self).same_frame(*old(self)),
            final(self).metrics == old(self).metrics,
            final(self).streams == old(self).streams,
            final(self).closes == old(self).closes,
            final(self).resets == old(self).resets,
    {
        let mut st: StreamState = stream;
        st.unstick(&mut self.paths);
        release_unacked(&mut st, &mut self.paths);
        self.opens.forget(id);
    }

    /// Count the end of a stream that nobody counted yet.
    fn count_end(
        &mut self,
        st: &mut StreamState,
        reason: Option<ResetReason>,
        now: u64,
    ) -> (record: Option<EndRecord>)
        ensures
            ({
                let counts = !old(st).life.counted_close;
                let end = end_of(
                    reason,
                    progress_fine(*old(st), old(self).opens@.contains_key(old(st).id)),
                );
                &&& record == if counts {
                    Some(record_of(*old(st), end, (now / 1000) as u64))
                } else {
                    None
                }
                &&& final(self).metrics == if counts {
                    end_counted(old(self).metrics, end)
                } else {
                    old(self).metrics
                }
                &&& final(self).closes@ == if counts {
                    old(self).closes@.remove(old(st).id)
                } else {
                    old(self).closes@
                }
                &&& final(self).resets@ == if counts && end is Linger && old(st).recv.recv_fin {
                    old(self).resets@.remove(old(st).id)
                } else {
                    old(self).resets@
                }
            }),
            final(st).same_but_life(*old(st)),
            final(st).life.sticky == old(st).life.sticky,
            final(self).same_frame(*old(self)),
            final(self).paths == old(self).paths,
            final(self).streams == old(self).streams,
            final(self).opens == old(self).opens,
    {
        if st.life.counted_close {
            return None;
        }
        let id: u32 = st.id;
        let open_pending: bool = self.opens.contains(id);
        let ghost st0 = *st;
        st.life.counted_close = true;
        let rec: EndRecord = observe_stream_end(
            st,
            reason,
            open_pending,
            &mut self.metrics,
            now / 1000,
        );
        self.closes.forget(id);
        let lingered: bool = match rec.end {
            StreamEnd::Linger => true,
            _ => false,
        };
        if lingered && st.recv.recv_fin {
            self.resets.forget(id);
        }
        Some(rec)
    }

    /// End a stream: tell the application and the peer, count it, give its
    /// load back and forget it.
    pub fn finish_stream<S: Scheduler>(
        &mut self,
        id: u32,
        reason: Option<ResetReason>,
        send_frame: bool,
        sched: &S,
        now: u64,
    ) -> (out: Option<Finished>)
        requires
            old(self).wf(),
        ensures
            final(self).wf(),
            match out {
                Some(f) => old(self).streams@.contains_key(id) && old(self).finishes(
                    sched,
                    *final(self),
                    id,
                    reason,
                    send_frame,
                    f,
                    now,
                ),
                None => !old(self).streams@.contains_key(id) && *final(self) == *old(self),
            },
    {
        if !self.streams.contains_key(&id) {
            return None;
        }
        let ghost o = *self;
        match self.streams.remove(&id) {
            Some(stream) => {
                let mut st: StreamState = stream;
                let ghost st0 = st;
                let first: bool = !st.life.reset;
                st.life.reset = true;
                let why: ResetReason = match reason {
                    Some(r) => r,
                    None => ResetReason::SessionDead,
                };
                let open_pending: bool = self.opens.contains(id);
                let fine: bool = st.overlay_progress_fine(open_pending);
                assert(fine == o.fine(id));
                let inbound: Option<ResetReason> = if first && !(st.recv.recv_fin && fine) {
                    Some(why)
                } else {
                    None
                };
                let live: bool = send_frame && !self.marks.dead;
                let announce: Option<Announce> = self.tell_peer(id, first, live, why, sched, now);
                let ghost mid = self.resets@;
                let ghost qs = self.paths@;
                let record: Option<EndRecord> = self.count_end(&mut st, reason, now);
                self.release_stream(id, st);
                let out: Finished = Finished { inbound, announce, record };
                proof {
                    assert(let_go(qs, self.paths@, st0));
                    assert(entry_of(mid, id) == entry_of(mid, id));
                    assert(self.streams@ == o.streams@.remove(id));
                    assert(tells(
                        sched,
                        o.resets@,
                        o.paths@,
                        mid,
                        qs,
                        id,
                        first,
                        live,
                        why,
                        o.cfg,
                        announce,
                        now,
                    ));
                    assert(o.finishes(sched, *self, id, reason, send_frame, out, now));
                }
                Some(out)
            },
            None => None,
        }
    }

    /// End a stream and tell the peer.
    pub fn reset_stream<S: Scheduler>(
        &mut self,
        id: u32,
        reason: ResetReason,
        sched: &S,
        now: u64,
    ) -> (out: Option<Finished>)
        requires
            old(self).wf(),
        ensures
            final(self).wf(),
            match out {
                Some(f) => old(self).streams@.contains_key(id) && old(self).finishes(
                    sched,
                    *final(self),
                    id,
                    Some(reason),
                    true,
                    f,
                    now,
                ),
                None => !old(self).streams@.contains_key(id) && *final(self) == *old(self),
            },
    {
        self.finish_stream(id, Some(reason), true, sched, now)
    }

    /// What a Reset by the peer does to this session: our own is moot, the
    /// stream ends for that reason, and no frame is sent back.
    pub open spec fn peer_resets<S: Scheduler>(
        self,
        sched: &S,
        n: Self,
        id: u32,
        reason: ResetReason,
        out: Option<Finished>,
        now: u64,
    ) -> bool {
        exists|mid: Self| #[trigger]
            self.forgets_reset(mid, id) && match out {
                Some(f) => self.streams@.contains_key(id) && mid.finishes(
                    sched,
                    n,
                    id,
                    Some(reason),
                    false,
                    f,
                    now,
                ),
                None => !self.streams@.contains_key(id) && n == mid,
            }
    }

    /// `n` is this session without its own Reset of stream `id`.
    pub open spec fn forgets_reset(self, n: Self, id: u32) -> bool {
        &&& n.resets@ == self.resets@.remove(id)
        &&& n == (Session { resets: n.resets, ..self })
    }

    /// The peer reset a stream.
    pub fn on_peer_reset<S: Scheduler>(
        &mut self,
        id: u32,
        reason: ResetReason,
        sched: &S,
        now: u64,
    ) -> (out: Option<Finished>)
        requires
            old(self).wf(),
        ensures
            final(self).wf(),
            final(self).streams@ == old(self).streams@.remove(id),
            final(self).resets@ == old(self).resets@.remove(id),
            old(self).peer_resets(sched, *final(self), id, reason, out, now),
    {
        let ghost o = *self;
        self.resets.forget(id);
        let ghost mid = *self;
        let out: Option<Finished> = self.finish_stream(id, Some(reason), false, sched, now);
        proof {
            assert(o.resets@.remove(id).remove(id) =~= o.resets@.remove(id));
            assert(self.resets@ =~= o.resets@.remove(id));
            assert(self.streams@ =~= o.streams@.remove(id));
            assert(o.forgets_reset(mid, id));
        }
        out
    }

    /// `n` is this session once stream `id` left it with its end counted for
    /// `reason`, without a word to the peer.
    pub open spec fn leaves_quietly(
        self,
        n: Self,
        id: u32,
        reason: Option<ResetReason>,
        record: Option<EndRecord>,
        now: u64,
    ) -> bool {
        let st = self.streams@[id];
        let end = end_of(reason, self.fine(id));
        let counts = !st.life.counted_close;
        &&& n.same_frame(self)
        &&& n.streams@ == self.streams@.remove(id)
        &&& n.opens@ == self.opens@.remove(id)
        &&& n.closes@ == if counts {
            self.closes@.remove(id)
        } else {
            self.closes@
        }
        &&& n.resets@ == if counts && end is Linger && st.recv.recv_fin {
            self.resets@.remove(id)
        } else {
            self.resets@
        }
        &&& record == if counts {
            Some(record_of(st, end, (now / 1000) as u64))
        } else {
            None
        }
        &&& n.metrics == if counts {
            end_counted(self.metrics, end)
        } else {
            self.metrics
        }
        &&& let_go(self.paths@, n.paths@, st)
    }

    fn leave_quietly(&mut self, id: u32, reason: Option<ResetReason>, now: u64) -> (record: Option<
        EndRecord,
    >)
        requires
            old(self).wf(),
            old(self).streams@.contains_key(id),
        ensures
            final(self).wf(),
            old(self).leaves_quietly(*final(self), id, reason, record, now),
    {
        let ghost o = *self;
        match self.streams.remove(&id) {
            Some(stream) => {
                let mut st: StreamState = stream;
                let record: Option<EndRecord> = self.count_end(&mut st, reason, now);
                self.release_stream(id, st);
                proof {
                    assert(self.streams@ == o.streams@.remove(id));
                }
                record
            },
            None => None,
        }
    }

    /// `n` is this session once it forgot stream `id`.
    pub open spec fn forgets(self, n: Self, id: u32) -> bool {
        &&& n.same_frame(self)
        &&& n.streams@ == self.streams@.remove(id)
        &&& n.opens@ == self.opens@.remove(id)
        &&& n.closes == self.closes
        &&& n.resets == self.resets
        &&& n.metrics == self.metrics
        &&& let_go(self.paths@, n.paths@, self.streams@[id])
    }

    /// Forget a stream: its home, its load and its StreamOpen.
    pub fn remove_held_stream(&mut self, id: u32)
        requires
            old(self).wf(),
        ensures
            final(self).wf(),
            !old(self).streams@.contains_key(id) ==> *final(self) == *old(self),
            old(self).streams@.contains_key(id) ==> old(self).forgets(*final(self), id),
    {
        if !self.streams.contains_key(&id) {
            return;
        }
        match self.streams.remove(&id) {
            Some(st) => {
                self.release_stream(id, st);
            },
            None => {},
        }
    }

    /// Both directions ended: count the stream once and forget it. The outer
    /// result says whether it left.
    pub fn maybe_count_graceful(&mut self, id: u32, now: u64) -> (out: Option<Option<EndRecord>>)
        requires
            old(self).wf(),
        ensures
            final(self).wf(),
            out is Some <==> old(self).both_ended(id),
            match out {
                Some(record) => old(self).leaves_quietly(*final(self), id, None, record, now),
                None => *final(self) == *old(self),
            },
    {
        let ended: bool = match self.streams.get(&id) {
            Some(st) => st.send.send_fin_sent && st.recv.recv_fin,
            None => false,
        };
        if ended {
            Some(self.leave_quietly(id, None, now))
        } else {
            None
        }
    }

    /// The stream is here and both directions have ended.
    pub open spec fn both_ended(self, id: u32) -> bool {
        &&& self.streams@.contains_key(id)
        &&& self.streams@[id].send.send_fin_sent
        &&& self.streams@[id].recv.recv_fin
    }

    /// Half-closed past the linger with nothing outstanding: forget the
    /// stream without a Reset. What is outstanding makes it a timeout; a
    /// stream that is already counted is left alone.
    pub fn linger_reap_progress_fine<S: Scheduler>(&mut self, id: u32, sched: &S, now: u64) -> (out:
        Lingered)
        requires
            old(self).wf(),
        ensures
            final(self).wf(),
            old(self).lingers(sched, *final(self), id, out, now),
    {
        let st_fine: bool = match self.streams.get(&id) {
            None => {
                return Lingered::Nothing;
            },
            Some(st) => st.overlay_progress_fine(self.opens.contains(id)),
        };
        if !st_fine {
            return match self.reset_stream(id, ResetReason::Timeout, sched, now) {
                Some(f) => Lingered::TimedOut(f),
                None => Lingered::Nothing,
            };
        }
        let (counted, recv_fin): (bool, bool) = match self.streams.get(&id) {
            None => (true, true),
            Some(st) => (st.life.counted_close, st.recv.recv_fin),
        };
        if counted {
            return Lingered::Nothing;
        }
        let record: Option<EndRecord> = self.leave_quietly(id, Some(ResetReason::Timeout), now);
        Lingered::Reaped { record, inbound_close: !recv_fin }
    }

    /// What a linger reap does to this session.
    pub open spec fn lingers<S: Scheduler>(
        self,
        sched: &S,
        n: Self,
        id: u32,
        out: Lingered,
        now: u64,
    ) -> bool {
        let st = self.streams@[id];
        if !self.streams@.contains_key(id) {
            out is Nothing && n == self
        } else if !self.fine(id) {
            &&& out is TimedOut
            &&& self.finishes(sched, n, id, Some(ResetReason::Timeout), true, out->TimedOut_0, now)
        } else if st.life.counted_close {
            out is Nothing && n == self
        } else {
            &&& out matches Lingered::Reaped { record, inbound_close }
            &&& inbound_close == !st.recv.recv_fin
            &&& self.leaves_quietly(n, id, Some(ResetReason::Timeout), record, now)
        }
    }

    /// The client closed, everything it sent is acknowledged, and the peer
    /// never ended its side: a Reset on the wire, a plain end for the
    /// application. Counted before the end is marked, so that the Reset stays
    /// remembered.
    pub fn residual_d_client<S: Scheduler>(
        &mut self,
        id: u32,
        sched: &S,
        now: u64,
    ) -> (out: Lingered)
        requires
            old(self).wf(),
        ensures
            final(self).wf(),
            old(self).residual(sched, *final(self), id, out, now),
    {
        let (recv_fin, fine, counted): (bool, bool, bool) = match self.streams.get(&id) {
            None => {
                return Lingered::Nothing;
            },
            Some(st) => (
                st.recv.recv_fin,
                st.overlay_progress_fine(self.opens.contains(id)),
                st.life.counted_close,
            ),
        };
        if !self.is_client || recv_fin || !fine {
            return self.linger_reap_progress_fine(id, sched, now);
        }
        if counted {
            return Lingered::Nothing;
        }
        let ghost o = *self;
        let a: Announce = announce_reset(
            &mut self.resets,
            &mut self.paths,
            id,
            ResetReason::Timeout,
            true,
            &self.cfg,
            sched,
            now,
        );
        if a.second_sent {
            self.metrics.reset_retry = self.metrics.reset_retry.saturating_add(1);
        }
        let ghost mid = *self;
        let record: Option<EndRecord> = self.leave_quietly(id, Some(ResetReason::Timeout), now);
        proof {
            assert(self.resets@ == mid.resets@);
            assert(let_go(mid.paths@, self.paths@, o.streams@[id]));
        }
        Lingered::ResetSent { record, announce: a }
    }

    /// What the client's residual reap does to this session.
    pub open spec fn residual<S: Scheduler>(
        self,
        sched: &S,
        n: Self,
        id: u32,
        out: Lingered,
        now: u64,
    ) -> bool {
        let st = self.streams@[id];
        if !self.streams@.contains_key(id) || !self.is_client || st.recv.recv_fin || !self.fine(
            id,
        ) {
            self.lingers(sched, n, id, out, now)
        } else if st.life.counted_close {
            out is Nothing && n == self
        } else {
            &&& out matches Lingered::ResetSent { record, announce }
            &&& n.same_frame(self)
            &&& n.streams@ == self.streams@.remove(id)
            &&& n.opens@ == self.opens@.remove(id)
            &&& n.closes@ == self.closes@.remove(id)
            &&& n.resets@.contains_key(id)
            &&& n.resets@ == self.resets@.insert(id, n.resets@[id])
            &&& reset_entry(
                entry_of(self.resets@, id),
                n.resets@[id],
                announce,
                ResetReason::Timeout,
                now,
            )
            &&& announce.second is Some ==> announce.second != announce.first
            &&& record == Some(record_of(st, StreamEnd::Linger, (now / 1000) as u64))
            &&& n.metrics == end_counted(
                retry_noted(self.metrics, Some(announce)),
                StreamEnd::Linger,
            )
            &&& exists|qs: Seq<PathState>| #[trigger]
                let_go(qs, n.paths@, st) && announce_accounts(
                    sched,
                    announce,
                    self.paths@,
                    qs,
                    id,
                    ResetReason::Timeout,
                    true,
                    self.cfg,
                )
        }
    }

    /// The application side of a stream is gone: forget what is counted or
    /// ended, keep a half-close that may still be answered, time out the rest.
    pub fn reap_stream<S: Scheduler>(&mut self, id: u32, sched: &S, now: u64) -> (out: Reaped)
        requires
            old(self).wf(),
        ensures
            final(self).wf(),
            old(self).reaps(sched, *final(self), id, out, now),
    {
        let (counted, ended, fine): (bool, bool, bool) = match self.streams.get(&id) {
            None => {
                return Reaped::Nothing;
            },
            Some(st) => (
                st.life.counted_close,
                st.send.send_fin_sent && st.recv.recv_fin,
                st.overlay_progress_fine(self.opens.contains(id)),
            ),
        };
        if counted {
            let _ = self.leave_quietly(id, None, now);
            return Reaped::Forgotten;
        }
        if ended {
            return Reaped::Graceful(self.leave_quietly(id, None, now));
        }
        if fine {
            return Reaped::Nothing;
        }
        match self.finish_stream(id, Some(ResetReason::Timeout), true, sched, now) {
            Some(f) => Reaped::TimedOut(f),
            None => Reaped::Nothing,
        }
    }

    pub open spec fn reaps<S: Scheduler>(
        self,
        sched: &S,
        n: Self,
        id: u32,
        out: Reaped,
        now: u64,
    ) -> bool {
        let st = self.streams@[id];
        if !self.streams@.contains_key(id) {
            out is Nothing && n == self
        } else if st.life.counted_close {
            out is Forgotten && self.leaves_quietly(n, id, None, None, now)
        } else if self.both_ended(id) {
            &&& out matches Reaped::Graceful(record)
            &&& self.leaves_quietly(n, id, None, record, now)
        } else if self.fine(id) {
            out is Nothing && n == self
        } else {
            &&& out matches Reaped::TimedOut(f)
            &&& self.finishes(sched, n, id, Some(ResetReason::Timeout), true, f, now)
        }
    }
}

/// What a linger reap did.
#[derive(Clone, Copy, Debug, PartialEq, Eq, Structural)]
pub enum Lingered {
    Nothing,
    TimedOut(Finished),
    /// Forgotten without a Reset; the application is told of a plain end
    /// where it was not yet.
    Reaped { record: Option<EndRecord>, inbound_close: bool },
    /// Forgotten with a Reset on the wire and a plain end for the application.
    ResetSent { record: Option<EndRecord>, announce: Announce },
}

/// What became of a stream whose application side is gone.
#[derive(Clone, Copy, Debug, PartialEq, Eq, Structural)]
pub enum Reaped {
    Nothing,
    Forgotten,
    Graceful(Option<EndRecord>),
    TimedOut(Finished),
}

/// The repeat on a second path is counted.
pub open spec fn retry_noted(c: Counters, announce: Option<Announce>) -> Counters {
    match announce {
        Some(a) => if a.second_sent {
            Counters { reset_retry: plus(c.reset_retry, 1), ..c }
        } else {
            c
        },
        None => c,
    }
}

/// `mid` and `qs` are the reset table and the pool once the peer was told
/// (`live`), or the Reset was dropped; a stream that was reset before changes
/// neither.
pub open spec fn tells<S: Scheduler>(
    sched: &S,
    resets: Map<u32, Pending>,
    ps: Seq<PathState>,
    mid: Map<u32, Pending>,
    qs: Seq<PathState>,
    id: u32,
    first: bool,
    live: bool,
    why: ResetReason,
    cfg: SessionConfig,
    announce: Option<Announce>,
    now: u64,
) -> bool {
    if first && live {
        &&& announce is Some
        &&& mid.contains_key(id)
        &&& mid == resets.insert(id, mid[id])
        &&& reset_entry(entry_of(resets, id), mid[id], announce->0, why, now)
        &&& announce_accounts(sched, announce->0, ps, qs, id, why, false, cfg)
        &&& steady(ps, qs)
        &&& queues_grow(ps, qs)
    } else {
        &&& announce is None
        &&& qs == ps
        &&& mid == if first {
            resets.remove(id)
        } else {
            resets
        }
    }
}

} // verus!
