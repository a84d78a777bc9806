//! How a stream ends: counted once, its load given back, its peer told.

use vstd::prelude::*;

use crate::cfg::SessionConfig;
use crate::frames::{Frame, ResetReason};
use crate::ledger::{announces, frame_of, Ledger, Pending, What};
use crate::maps::{keys_of, lemma_sum_split, lists_keys, sum_by};
use crate::metrics::{plus, Counters};
use crate::num::above;
use crate::opening::ctl_offered;
use crate::path::{distinct_ids, find_path, PathStat, PathState};
use crate::pool::{
    lemma_queues_grow_trans, lemma_steady_refl, lemma_steady_trans, queues_grow, steady,
};
use crate::sched::{elsewhere, picked, picked_again, PickPref, Scheduler};
use crate::stream::{Lifecycle, StreamState, Unacked, NO_CLOSE};
use crate::wire::{lemma_offer_steady, pool_offered, send_on_path};

verus! {

broadcast use vstd::laws_cmp::group_laws_cmp;

// ---------------------------------------------------------------------------
// Progress
// ---------------------------------------------------------------------------
/// Nothing of this stream is outstanding in either direction, and one side
/// has ended it: everything sent is acknowledged, everything announced by the
/// peer has arrived, and either the peer ended or we did and the peer knows
/// the stream.
pub open spec fn progress_fine(st: StreamState, open_pending: bool) -> bool {
    &&& st.send.send_acked >= st.counters.send_next
    &&& st.recv.recv_close_off == NO_CLOSE || st.counters.recv_next >= st.recv.recv_close_off
    &&& st.recv.recv_fin || (st.send.send_fin_sent && !open_pending)
}

impl StreamState {
    pub fn overlay_progress_fine(&self, open_pending: bool) -> (r: bool)
        ensures
            r == progress_fine(*self, open_pending),
    {
        if self.send.send_acked < self.counters.send_next {
            return false;
        }
        let off: u64 = self.recv.recv_close_off;
        if off != NO_CLOSE && self.counters.recv_next < off {
            return false;
        }
        if self.recv.recv_fin {
            return true;
        }
        if !self.send.send_fin_sent {
            return false;
        }
        !open_pending
    }
}

// ---------------------------------------------------------------------------
// Accounting
// ---------------------------------------------------------------------------
/// How a stream is counted.
#[derive(Clone, Copy, Debug, PartialEq, Eq, Structural)]
pub enum StreamEnd {
    Closed,
    /// Half-closed past the linger, with nothing outstanding.
    Linger,
    Reset(ResetReason),
}

/// What a stream leaves behind for the histograms.
#[derive(Clone, Copy, Debug, PartialEq, Eq, Structural)]
pub struct EndRecord {
    pub end: StreamEnd,
    pub lifetime_ms: Option<u64>,
    pub stall_ms: Option<u64>,
    /// Largest cap advertised, where anything was received.
    pub recv_cap_max: Option<u64>,
}

/// How a stream that ends for `reason` is counted.
pub open spec fn end_of(reason: Option<ResetReason>, fine: bool) -> StreamEnd {
    match reason {
        None => StreamEnd::Closed,
        Some(ResetReason::Timeout) => if fine {
            StreamEnd::Linger
        } else {
            StreamEnd::Reset(ResetReason::Timeout)
        },
        Some(r) => StreamEnd::Reset(r),
    }
}

/// The counters after a stream ended so.
pub open spec fn end_counted(c: Counters, end: StreamEnd) -> Counters {
    match end {
        StreamEnd::Closed => Counters { streams_closed: plus(c.streams_closed, 1), ..c },
        StreamEnd::Linger => Counters {
            streams_closed: plus(c.streams_closed, 1),
            stream_reaps_linger: plus(c.stream_reaps_linger, 1),
            ..c
        },
        StreamEnd::Reset(r) => c.reset_counted(r),
    }
}

/// What this stream leaves behind.
pub open spec fn record_of(st: StreamState, end: StreamEnd, now_ms: u64) -> EndRecord {
    EndRecord {
        end,
        lifetime_ms: if st.life.opened_ms != 0 {
            Some(above(now_ms as int, st.life.opened_ms as int) as u64)
        } else {
            None
        },
        stall_ms: if st.life.stalled && st.life.stall_from_ms != 0 {
            Some(above(now_ms as int, st.life.stall_from_ms as int) as u64)
        } else {
            None
        },
        recv_cap_max: if st.counters.recv_next > 0 {
            Some(st.counters.recv_cap_max as u64)
        } else {
            None
        },
    }
}

/// Count the end of a stream; a stall ends with it.
pub fn observe_stream_end(
    st: &mut StreamState,
    reason: Option<ResetReason>,
    open_pending: bool,
    metrics: &mut Counters,
    now_ms: u64,
) -> (rec: EndRecord)
    ensures
        rec == record_of(
            *old(st),
            end_of(reason, progress_fine(*old(st), open_pending)),
            now_ms,
        ),
        *final(metrics) == end_counted(*old(metrics), rec.end),
        final(st).life == (if old(st).life.stalled {
            Lifecycle { stalled: false, stall_from_ms: 0, ..old(st).life }
        } else {
            old(st).life
        }),
        final(st).same_but_life(*old(st)),
{
    let lifetime_ms: Option<u64> = if st.life.opened_ms != 0 {
        Some(now_ms.saturating_sub(st.life.opened_ms))
    } else {
        None
    };
    let mut stall_ms: Option<u64> = None;
    let fine: bool = st.overlay_progress_fine(open_pending);
    if st.life.stalled {
        let from: u64 = st.life.stall_from_ms;
        if from != 0 {
            stall_ms = Some(now_ms.saturating_sub(from));
        }
        st.life.stalled = false;
        st.life.stall_from_ms = 0;
    }
    let recv_cap_max: Option<u64> = if st.counters.recv_next > 0 {
        Some(st.counters.recv_cap_max as u64)
    } else {
        None
    };
    let end: StreamEnd = match reason {
        None => {
            metrics.streams_closed = metrics.streams_closed.saturating_add(1);
            StreamEnd::Closed
        },
        Some(r) => {
            let timeout: bool = match r {
                ResetReason::Timeout => true,
                _ => false,
            };
            if timeout && fine {
                metrics.streams_closed = metrics.streams_closed.saturating_add(1);
                metrics.stream_reaps_linger = metrics.stream_reaps_linger.saturating_add(1);
                StreamEnd::Linger
            } else {
                metrics.note_reset(r);
                StreamEnd::Reset(r)
            }
        },
    };
    EndRecord { end, lifetime_ms, stall_ms, recv_cap_max }
}

// ---------------------------------------------------------------------------
// Giving the load back
// ---------------------------------------------------------------------------
/// Bytes of a piece that ride path `id`.
pub open spec fn on_path(id: u32) -> spec_fn(Unacked) -> nat {
    |u: Unacked|
        if u.path_id == id {
            u.data@.len()
        } else {
            0
        }
}

/// Bytes of all pieces that ride path `id`.
pub open spec fn bytes_on(m: Map<u64, Unacked>, id: u32) -> nat {
    sum_by(m, on_path(id))
}

/// `n` is the pool without the load of the pieces `m`.
pub open spec fn load_released(
    ps: Seq<PathState>,
    n: Seq<PathState>,
    m: Map<u64, Unacked>,
) -> bool {
    &&& n.len() == ps.len()
    &&& forall|i: int|
        0 <= i < ps.len() ==> #[trigger] n[i] == (PathState {
            stat: PathStat {
                inflight: above(
                    ps[i].stat.inflight as int,
                    bytes_on(m, ps[i].id) as int,
                ) as u64,
                ..ps[i].stat
            },
            ..ps[i]
        })
}

/// Drop every unacknowledged piece and give its load back to its path.
pub fn release_unacked(st: &mut StreamState, paths: &mut Vec<PathState>)
    requires
        distinct_ids(old(paths)@),
    ensures
        final(st).unacked@ == Map::<u64, Unacked>::empty(),
        final(st).id == old(st).id,
        final(st).initial_window == old(st).initial_window,
        final(st).counters == old(st).counters,
        final(st).recv == old(st).recv,
        final(st).send == old(st).send,
        final(st).life == old(st).life,
        final(st).paths_used == old(st).paths_used,
        final(st).recv_buf == old(st).recv_buf,
        load_released(old(paths)@, final(paths)@, old(st).unacked@),
        distinct_ids(final(paths)@),
{
    let keys: Vec<u64> = keys_of(&st.unacked);
    let ghost m = st.unacked@;
    let ghost ps = paths@;
    let mut i: usize = 0;
    proof {
        assert forall|k: int| 0 <= k < ps.len() implies #[trigger] paths@[k] == (PathState {
            stat: PathStat {
                inflight: above(
                    ps[k].stat.inflight as int,
                    bytes_on(m, ps[k].id) - bytes_on(st.unacked@, ps[k].id),
                ) as u64,
                ..ps[k].stat
            },
            ..ps[k]
        }) by {}
    }
    while i < keys.len()
        invariant
            i <= keys@.len(),
            lists_keys(keys@, m),
            distinct_ids(ps),
            distinct_ids(paths@),
            paths@.len() == ps.len(),
            st.unacked@.dom().finite(),
            forall|k: u64| #[trigger]
                st.unacked@.contains_key(k) ==> m.contains_key(k) && st.unacked@[k] == m[k],
            forall|j: int| 0 <= j < i ==> !st.unacked@.contains_key(#[trigger] keys@[j]),
            forall|k: int|
                0 <= k < ps.len() ==> bytes_on(st.unacked@, ps[k].id) <= bytes_on(m, ps[k].id)
                    && #[trigger] paths@[k] == (PathState {
                    stat: PathStat {
                        inflight: above(
                            ps[k].stat.inflight as int,
                            bytes_on(m, ps[k].id) - bytes_on(st.unacked@, ps[k].id),
                        ) as u64,
                        ..ps[k].stat
                    },
                    ..ps[k]
                }),
            st.id == old(st).id,
            st.initial_window == old(st).initial_window,
            st.counters == old(st).counters,
            st.recv == old(st).recv,
            st.send == old(st).send,
            st.life == old(st).life,
            st.paths_used == old(st).paths_used,
            st.recv_buf == old(st).recv_buf,
        decreases keys.len() - i,
    {
        let key: u64 = keys[i];
        let ghost u0 = st.unacked@;
        let ghost ps1 = paths@;
        match st.unacked.remove(&key) {
            Some(u) => {
                let len: u64 = u.data.len() as u64;
                proof {
                    assert forall|id: u32| #[trigger] bytes_on(u0, id) == bytes_on(st.unacked@, id)
                        + on_path(id)(u) by {
                        lemma_sum_split(u0, on_path(id), key);
                    }
                    assert(st.unacked@.dom() =~= u0.dom().remove(key));
                }
                match find_path(paths, u.path_id) {
                    Some(at) => {
                        let p: &mut PathState = &mut paths[at];
                        p.stat.sub_inflight(len);
                    },
                    None => {},
                }
                proof {
                    assert forall|k: int| 0 <= k < ps.len() implies bytes_on(
                        st.unacked@,
                        ps[k].id,
                    ) <= bytes_on(m, ps[k].id) && #[trigger] paths@[k] == (PathState {
                        stat: PathStat {
                            inflight: above(
                                ps[k].stat.inflight as int,
                                bytes_on(m, ps[k].id) - bytes_on(st.unacked@, ps[k].id),
                            ) as u64,
                            ..ps[k].stat
                        },
                        ..ps[k]
                    }) by {
                        assert(bytes_on(u0, ps[k].id) == bytes_on(st.unacked@, ps[k].id) + on_path(
                            ps[k].id,
                        )(u));
                        assert(ps1[k].id == ps[k].id);
                    }
                    assert forall|a: int, b: int| 0 <= a < b < paths@.len() implies paths@[a].id
                        != paths@[b].id by {
                        assert(paths@[a].id == ps[a].id && paths@[b].id == ps[b].id);
                    }
                }
            },
            None => {
                proof {
                    assert(st.unacked@ =~= u0);
                }
            },
        }
        i += 1;
    }
    proof {
        assert(st.unacked@ =~= Map::<u64, Unacked>::empty()) by {
            assert forall|k: u64| !st.unacked@.contains_key(k) by {
                if st.unacked@.contains_key(k) {
                    assert(m.contains_key(k));
                    assert(keys@.contains(k));
                    let j = choose|j: int| 0 <= j < keys@.len() && keys@[j] == k;
                    assert(!st.unacked@.contains_key(keys@[j]));
                }
            }
        }
    }
}

// ---------------------------------------------------------------------------
// Telling the peer
// ---------------------------------------------------------------------------
/// Where a Reset was offered: the path picked first, and the other one where
/// the first refused.
#[derive(Clone, Copy, Debug, PartialEq, Eq, Structural)]
pub struct Announce {
    pub first: Option<u32>,
    pub first_sent: bool,
    pub second: Option<u32>,
    pub second_sent: bool,
}

/// The entry of `id`, where there is one.
pub open spec fn entry_of(m: Map<u32, Pending>, id: u32) -> Option<Pending> {
    if m.contains_key(id) {
        Some(m[id])
    } else {
        None
    }
}

/// `e` is the reset entry that the announcement `a` leaves: the path it was
/// last offered to, none where no path was found.
pub open spec fn reset_entry(
    before: Option<Pending>,
    e: Pending,
    a: Announce,
    why: ResetReason,
    now: u64,
) -> bool {
    let what = What::Reset(why);
    match a.first {
        None => Ledger::remembered(before, e, 0, what, now),
        Some(p) => match a.second {
            None => Ledger::remembered(before, e, p, what, now),
            Some(alt) => exists|mid: Pending| #[trigger]
                Ledger::remembered(before, mid, p, what, now) && Ledger::remembered(
                    Some(mid),
                    e,
                    alt,
                    what,
                    now,
                ),
        },
    }
}

/// The announcement is a true account: the Reset went to the path that was
/// picked and, where that refused it, to the path named next. With `untried` a
/// second offer to the first path counts as none.
pub open spec fn announce_accounts<S: Scheduler>(
    sched: &S,
    a: Announce,
    ps: Seq<PathState>,
    qs: Seq<PathState>,
    id: u32,
    why: ResetReason,
    untried: bool,
    cfg: SessionConfig,
) -> bool {
    &&& picked(sched, ps, PickPref::Any, a.first)
    &&& match a.first {
        None => !a.first_sent && a.second is None && !a.second_sent && qs == ps,
        Some(p) => exists|rs: Seq<PathState>| #[trigger]
            ctl_offered(ps, rs, p, id, What::Reset(why), cfg, a.first_sent) && if a.first_sent {
                a.second is None && !a.second_sent && qs == rs
            } else {
                second_accounts(sched, a, p, rs, qs, id, why, untried, cfg)
            },
    }
}

/// The second offer of a Reset that `p` refused.
pub open spec fn second_accounts<S: Scheduler>(
    sched: &S,
    a: Announce,
    p: u32,
    rs: Seq<PathState>,
    qs: Seq<PathState>,
    id: u32,
    why: ResetReason,
    untried: bool,
    cfg: SessionConfig,
) -> bool {
    &&& exists|named: Option<u32>| #[trigger]
        picked_again(sched, rs, seq![p], named) && a.second == if untried {
            elsewhere(named, p)
        } else {
            named
        }
    &&& match a.second {
        None => !a.second_sent && qs == rs,
        Some(alt) => ctl_offered(rs, qs, alt, id, What::Reset(why), cfg, a.second_sent),
    }
}

/// Offer one control frame to a path.
fn offer_ctl(
    paths: &mut Vec<PathState>,
    path_id: u32,
    id: u32,
    what: &What,
    cfg: &SessionConfig,
) -> (sent: bool)
    requires
        distinct_ids(old(paths)@),
    ensures
        ctl_offered(old(paths)@, final(paths)@, path_id, id, *what, *cfg, sent),
        distinct_ids(final(paths)@),
        steady(old(paths)@, final(paths)@),
        queues_grow(old(paths)@, final(paths)@),
{
    let ghost ps = paths@;
    let frame: Frame = frame_of(id, what);
    let ghost f = frame;
    let sent: bool = send_on_path(paths, path_id, frame, cfg);
    proof {
        assert(announces(f, id, *what) && pool_offered(ps, paths@, path_id, f, *cfg));
        lemma_offer_steady(ps, paths@, path_id, f, *cfg);
    }
    sent
}

/// Tell the peer that a stream is reset, on the first path that takes it, and
/// remember it for repeats. With `untried` the second path differs from the
/// first.
pub fn announce_reset<S: Scheduler>(
    resets: &mut Ledger,
    paths: &mut Vec<PathState>,
    id: u32,
    why: ResetReason,
    untried: bool,
    cfg: &SessionConfig,
    sched: &S,
    now: u64,
) -> (a: Announce)
    requires
        distinct_ids(old(paths)@),
    ensures
        final(resets)@.contains_key(id),
        final(resets)@ == old(resets)@.insert(id, final(resets)@[id]),
        reset_entry(entry_of(old(resets)@, id), final(resets)@[id], a, why, now),
        announce_accounts(sched, a, old(paths)@, final(paths)@, id, why, untried, *cfg),
        untried && a.second is Some ==> a.second != a.first,
        distinct_ids(final(paths)@),
        steady(old(paths)@, final(paths)@),
        queues_grow(old(paths)@, final(paths)@),
{
    let ghost m = resets@;
    let ghost ps = paths@;
    proof {
        lemma_steady_refl(ps);
    }
    let what: What = What::Reset(why);
    let first: Option<u32> = sched.pick_pref(paths, PickPref::Any);
    assert(picked(sched, ps, PickPref::Any, first));
    let p: u32 = match first {
        Some(p) => p,
        None => {
            resets.remember(id, 0, What::Reset(why), now);
            return Announce { first, first_sent: false, second: None, second_sent: false };
        },
    };
    resets.remember(id, p, What::Reset(why), now);
    let ghost mid = resets@[id];
    let first_sent: bool = offer_ctl(paths, p, id, &what, cfg);
    let ghost rs = paths@;
    assert(ctl_offered(ps, rs, p, id, what, *cfg, first_sent));
    if first_sent {
        let a: Announce = Announce { first, first_sent, second: None, second_sent: false };
        assert(ctl_offered(ps, rs, p, id, What::Reset(why), *cfg, a.first_sent));
        return a;
    }
    let mut avoid: Vec<u32> = Vec::new();
    avoid.push(p);
    let named: Option<u32> = sched.pick_retry(paths, &avoid);
    proof {
        assert(avoid@ =~= seq![p]);
        assert(picked_again(sched, rs, seq![p], named));
    }
    let second: Option<u32> = match named {
        Some(alt) => if untried && alt == p {
            None
        } else {
            Some(alt)
        },
        None => None,
    };
    match second {
        Some(alt) => {
            resets.remember(id, alt, What::Reset(why), now);
            let second_sent: bool = offer_ctl(paths, alt, id, &what, cfg);
            let a: Announce = Announce { first, first_sent, second, second_sent };
            proof {
                lemma_steady_trans(ps, rs, paths@);
                lemma_queues_grow_trans(ps, rs, paths@);
                assert(resets@ =~= m.insert(id, resets@[id]));
                assert(ctl_offered(ps, rs, p, id, What::Reset(why), *cfg, a.first_sent));
                assert(second_accounts(sched, a, p, rs, paths@, id, why, untried, *cfg));
            }
            a
        },
        None => {
            let a: Announce = Announce { first, first_sent, second, second_sent: false };
            proof {
                assert(ctl_offered(ps, rs, p, id, What::Reset(why), *cfg, a.first_sent));
                assert(second_accounts(sched, a, p, rs, paths@, id, why, untried, *cfg));
            }
            a
        },
    }
}

/// How a stream ends: one that is closed, closed; one that ran out of its
/// linger with everything acknowledged and received, as lingered; any other by
/// its reason.
pub proof fn law_how_a_stream_ends(r: ResetReason, fine: bool)
    ensures
        end_of(None, fine) is Closed,
        end_of(Some(ResetReason::Timeout), true) is Linger,
        end_of(Some(ResetReason::Timeout), false) == StreamEnd::Reset(ResetReason::Timeout),
        r != ResetReason::Timeout ==> end_of(Some(r), fine) == StreamEnd::Reset(r),
{
}

/// A stream is fine where the peer acknowledged every byte, every byte before
/// the peer's end was handed out, and a side has ended whose Open was answered.
pub proof fn law_when_a_stream_is_fine(st: StreamState, open_pending: bool)
    ensures
        progress_fine(st, open_pending) <==> {
            &&& st.counters.send_next <= st.send.send_acked
            &&& st.recv.recv_close_off != u64::MAX ==> st.recv.recv_close_off
                <= st.counters.recv_next
            &&& st.recv.recv_fin || st.send.send_fin_sent && !open_pending
        },
{
}

/// Each end is counted once: as closed, or as a reset.
pub proof fn law_an_end_is_closed_or_reset(c: Counters, end: StreamEnd)
    requires
        c.streams_closed < u64::MAX,
        c.stream_resets < u64::MAX,
        c.stream_reaps_linger < u64::MAX,
    ensures
        ({
            let n = end_counted(c, end);
            &&& n.streams_closed - c.streams_closed == if end is Reset {
                0int
            } else {
                1
            }
            &&& n.stream_resets - c.stream_resets == if end is Reset {
                1int
            } else {
                0
            }
            &&& n.stream_reaps_linger - c.stream_reaps_linger == if end is Linger {
                1int
            } else {
                0
            }
        }),
{
}

/// The record of an end tells how long the stream lived, and how long its last
/// stall lasted.
pub proof fn law_an_end_is_timed(st: StreamState, end: StreamEnd, now_ms: u64)
    requires
        0 < st.life.opened_ms <= now_ms,
        st.life.stall_from_ms <= now_ms,
    ensures
        ({
            let r = record_of(st, end, now_ms);
            &&& r.end == end
            &&& r.lifetime_ms == Some((now_ms - st.life.opened_ms) as u64)
            &&& st.life.stalled && st.life.stall_from_ms > 0 ==> r.stall_ms == Some(
                (now_ms - st.life.stall_from_ms) as u64,
            )
            &&& !st.life.stalled ==> r.stall_ms is None
            &&& r.recv_cap_max is Some <==> st.counters.recv_next > 0
        }),
{
}

/// Every path gets back what the stream's pieces held of its load.
pub proof fn law_the_load_is_given_back(
    ps: Seq<PathState>,
    n: Seq<PathState>,
    m: Map<u64, Unacked>,
    i: int,
)
    requires
        load_released(ps, n, m),
        0 <= i < ps.len(),
        bytes_on(m, ps[i].id) <= ps[i].stat.inflight,
    ensures
        n[i].stat.inflight + bytes_on(m, ps[i].id) == ps[i].stat.inflight,
        n[i].id == ps[i].id,
        n[i].stat == (PathStat { inflight: n[i].stat.inflight, ..ps[i].stat }),
{
}

} // verus!
