//! A path goes down: its pieces, its waiting frames and its ACKs move on.

use std::collections::BTreeMap;
use vstd::prelude::*;

use crate::cfg::SessionConfig;
use crate::frames::Frame;
use crate::ledger::{
    closes_from, count_sent, note_retries, opens_from, repeats, resets_from, retries_counted,
    sent_retries, Ledger, Pending, Retry,
};
use crate::maps::{ids_of, keys_of, lists_ids, lists_keys};
use crate::memory::PathMemory;
use crate::metrics::{plus, Counters};
use crate::num::{above, capped};
use crate::path::{
    distinct_ids, find_path, get_path, has_alive_path, index_of, stat_of, Health, PathStat,
    PathState,
};
use crate::pool::{
    clocks, lemma_queues_grow_trans, lemma_steady, lemma_steady_refl, lemma_steady_trans,
    queues_grow, same_paths, steady, transferred,
};
use crate::recv::StreamAck;
use crate::resend::{
    lemma_queued_stays, lemma_slot_shrinks, pool_has_slot, queue_copy, queued_on, rehome_unacked,
    rehomed,
};
use crate::sched::{elsewhere, picked_again, Scheduler};
use crate::session::{Marks, Session};
use crate::stream::{used_after, StreamCounters, StreamState, Unacked};
use crate::wire::{goes_urgent, pool_offered};

verus! {

broadcast use vstd::laws_cmp::group_laws_cmp;

/// How many of the first `n` keys name pieces on path `from`.
pub open spec fn count_on(m: Map<u64, Unacked>, keys: Seq<u64>, from: u32) -> nat
    decreases keys.len(),
{
    if keys.len() == 0 {
        0
    } else {
        count_on(m, keys.drop_last(), from) + (if m[keys.last()].path_id == from {
            1nat
        } else {
            0nat
        })
    }
}

/// The moved piece is queued on `to`, or `to` had no slot left for it.
pub open spec fn moved(
    id: u32,
    k: u64,
    u: Unacked,
    n: Unacked,
    to: u32,
    ps: Seq<PathState>,
    qs: Seq<PathState>,
    cfg: SessionConfig,
    now: u64,
) -> bool {
    &&& rehomed(u, n, to, stat_of(ps, to), now)
    &&& n.retry_not_before == now
    &&& {
        ||| index_of(qs, to) is Some && queued_on(qs[index_of(qs, to)->0], id, k, u.data@)
        ||| !pool_has_slot(qs, to, u.data@.len(), cfg)
    }
}

/// The pool once one piece moved: its load is on `to`, and a copy was offered
/// there.
pub open spec fn move_step(
    ps: Seq<PathState>,
    qs: Seq<PathState>,
    id: u32,
    k: u64,
    u: Unacked,
    to: u32,
    cfg: SessionConfig,
) -> bool {
    exists|f: Frame|
        f.carries(id, k, u.data@) && #[trigger] pool_offered(
            transferred(ps, u.path_id, to, u.data@.len() as u64),
            qs,
            to,
            f,
            cfg,
        )
}

/// The pool once the pieces of stream `id` on `from`, of those at `keys`,
/// moved in order.
#[verifier::opaque]
pub open spec fn moved_pool(
    ps: Seq<PathState>,
    qs: Seq<PathState>,
    id: u32,
    m: Map<u64, Unacked>,
    keys: Seq<u64>,
    from: u32,
    to: u32,
    cfg: SessionConfig,
) -> bool
    decreases keys.len(),
{
    if keys.len() == 0 {
        qs == ps
    } else if m[keys.last()].path_id == from {
        exists|mid: Seq<PathState>|
            moved_pool(ps, mid, id, m, keys.drop_last(), from, to, cfg) && #[trigger] move_step(
                mid,
                qs,
                id,
                keys.last(),
                m[keys.last()],
                to,
                cfg,
            )
    } else {
        moved_pool(ps, qs, id, m, keys.drop_last(), from, to, cfg)
    }
}

impl StreamState {
    /// The pool once the pieces of this stream on `from` moved to `to`.
    pub open spec fn moves_load(
        self,
        ps: Seq<PathState>,
        qs: Seq<PathState>,
        from: u32,
        to: u32,
        cfg: SessionConfig,
    ) -> bool {
        moved_pool(
            ps,
            qs,
            self.id,
            self.unacked@,
            crate::maps::sorted_keys(self.unacked@),
            from,
            to,
            cfg,
        )
    }

    /// `n` is this stream once its pieces on `from` were sent again on `to`.
    pub open spec fn retransmits(
        self,
        n: Self,
        from: u32,
        to: u32,
        ps: Seq<PathState>,
        qs: Seq<PathState>,
        cfg: SessionConfig,
        now: u64,
    ) -> bool {
        let count = count_on(self.unacked@, crate::maps::sorted_keys(self.unacked@), from);
        &&& n.unacked@.dom() == self.unacked@.dom()
        &&& forall|k: u64| #[trigger]
            self.unacked@.contains_key(k) && self.unacked@[k].path_id != from ==> n.unacked@[k]
                == self.unacked@[k]
        &&& forall|k: u64| #[trigger]
            self.unacked@.contains_key(k) && self.unacked@[k].path_id == from ==> moved(
                self.id,
                k,
                self.unacked@[k],
                n.unacked@[k],
                to,
                ps,
                qs,
                cfg,
                now,
            )
        &&& n.counters == (StreamCounters {
            hedges: capped(self.counters.hedges + count) as u64,
            ..self.counters
        })
        &&& n.paths_used@ == if count > 0 {
            used_after(self.paths_used@, to)
        } else {
            self.paths_used@
        }
        &&& n.id == self.id
        &&& n.initial_window == self.initial_window
        &&& n.recv == self.recv
        &&& n.send == self.send
        &&& n.life == self.life
        &&& n.recv_buf == self.recv_buf
    }

    /// Retransmit the pieces still assigned to `from` onto `to`. Returns how
    /// many there were.
    #[verifier::rlimit(30)]
    pub fn retransmit_from_on(
        &mut self,
        from: u32,
        to: u32,
        paths: &mut Vec<PathState>,
        cfg: &SessionConfig,
        now: u64,
    ) -> (count: u64)
        requires
            distinct_ids(old(paths)@),
        ensures
            old(self).retransmits(
                *final(self),
                from,
                to,
                old(paths)@,
                final(paths)@,
                *cfg,
                now,
            ),
            count == count_on(
                old(self).unacked@,
                crate::maps::sorted_keys(old(self).unacked@),
                from,
            ),
            old(self).moves_load(old(paths)@, final(paths)@, from, to, *cfg),
            distinct_ids(final(paths)@),
            steady(old(paths)@, final(paths)@),
            queues_grow(old(paths)@, final(paths)@),
    {
        let keys: Vec<u64> = keys_of(&self.unacked);
        let id: u32 = self.id;
        let ghost m = self.unacked@;
        let ghost ps0 = paths@;
        let mut count: u64 = 0;
        let mut i: usize = 0;
        proof {
            reveal_with_fuel(moved_pool, 2);
            lemma_steady_refl(ps0);
            assert forall|j: int| 0 <= j < keys@.len() implies m.contains_key(#[trigger] keys@[j]) by {
                assert(keys@.contains(keys@[j]));
            }
        }
        while i < keys.len()
            invariant
                i <= keys@.len(),
                count <= i,
                id == old(self).id,
                lists_keys(keys@, m),
                forall|j: int| 0 <= j < keys@.len() ==> m.contains_key(#[trigger] keys@[j]),
                distinct_ids(ps0),
                distinct_ids(paths@),
                steady(ps0, paths@),
                queues_grow(ps0, paths@),
                self.unacked@.dom() == m.dom(),
                count == count_on(m, keys@.take(i as int), from),
                moved_pool(ps0, paths@, id, m, keys@.take(i as int), from, to, *cfg),
                forall|j: int| i <= j < keys@.len() ==> self.unacked@[#[trigger] keys@[j]]
                    == m[keys@[j]],
                forall|j: int|
                    0 <= j < i && m[#[trigger] keys@[j]].path_id != from
                        ==> self.unacked@[keys@[j]] == m[keys@[j]],
                forall|j: int|
                    0 <= j < i && m[#[trigger] keys@[j]].path_id == from ==> moved(
                        id,
                        keys@[j],
                        m[keys@[j]],
                        self.unacked@[keys@[j]],
                        to,
                        ps0,
                        paths@,
                        *cfg,
                        now,
                    ),
                self.counters == old(self).counters,
                self.paths_used == old(self).paths_used,
                self.id == old(self).id,
                self.initial_window == old(self).initial_window,
                self.recv == old(self).recv,
                self.send == old(self).send,
                self.life == old(self).life,
                self.recv_buf == old(self).recv_buf,
            decreases keys.len() - i,
        {
            let k: u64 = keys[i];
            let ghost n1 = self.unacked@;
            let ghost ps1 = paths@;
            proof {
                assert(m.contains_key(keys@[i as int]));
                assert(self.unacked@.dom().contains(k));
                assert(self.unacked@[keys@[i as int]] == m[keys@[i as int]]);
                assert(keys@.take(i + 1).drop_last() =~= keys@.take(i as int));
                reveal_with_fuel(moved_pool, 2);
            }
            match self.unacked.remove(&k) {
                Some(piece) => {
                    let mut u: Unacked = piece;
                    if u.path_id == from {
                        rehome_unacked(&mut u, paths, to, now);
                        let ghost ps2 = paths@;
                        let _ = queue_copy(&u, id, k, to, paths, cfg);
                        proof {
                            assert(move_step(ps1, paths@, id, k, m[k], to, *cfg));
                            lemma_moved(id, k, m[k], u, to, ps0, ps1, ps2, paths@, *cfg, now);
                            lemma_steady_trans(ps1, ps2, paths@);
                            lemma_queues_grow_trans(ps1, ps2, paths@);
                            lemma_steady_trans(ps0, ps1, paths@);
                            lemma_queues_grow_trans(ps0, ps1, paths@);
                        }
                        count += 1;
                    }
                    let _ = self.unacked.insert(k, u);
                    proof {
                        assert(self.unacked@ =~= n1.insert(k, self.unacked@[k]));
                        assert(self.unacked@.dom() =~= m.dom());
                        assert forall|j: int| 0 <= j < i && m[#[trigger] keys@[j]].path_id == from implies moved(
                            id,
                            keys@[j],
                            m[keys@[j]],
                            self.unacked@[keys@[j]],
                            to,
                            ps0,
                            paths@,
                            *cfg,
                            now,
                        ) by {
                            assert(keys@[j] < keys@[i as int]);
                            lemma_steady_refl(ps1);
                            lemma_moved_stays(
                                id,
                                keys@[j],
                                m[keys@[j]],
                                self.unacked@[keys@[j]],
                                to,
                                ps0,
                                ps1,
                                paths@,
                                *cfg,
                                now,
                            );
                        }
                    }
                },
                None => {
                    assert(false);
                },
            }
            i += 1;
        }
        proof {
            assert(keys@.take(keys@.len() as int) =~= keys@);
            assert forall|k: u64| #[trigger]
                m.contains_key(k) && m[k].path_id != from implies self.unacked@[k] == m[k] by {
                assert(keys@.contains(k));
                let j = choose|j: int| 0 <= j < keys@.len() && keys@[j] == k;
                assert(m[keys@[j]].path_id != from);
            }
            assert forall|k: u64| #[trigger] m.contains_key(k) && m[k].path_id == from implies moved(
                id,
                k,
                m[k],
                self.unacked@[k],
                to,
                ps0,
                paths@,
                *cfg,
                now,
            ) by {
                assert(keys@.contains(k));
                let j = choose|j: int| 0 <= j < keys@.len() && keys@[j] == k;
                assert(m[keys@[j]].path_id == from);
            }
        }
        if count > 0 {
            self.counters.hedges = self.counters.hedges.saturating_add(count);
            self.note_path_used(to);
        }
        count
    }
}

proof fn lemma_moved_stays(
    id: u32,
    k: u64,
    u: Unacked,
    n: Unacked,
    to: u32,
    ps: Seq<PathState>,
    qs: Seq<PathState>,
    qs2: Seq<PathState>,
    cfg: SessionConfig,
    now: u64,
)
    requires
        moved(id, k, u, n, to, ps, qs, cfg, now),
        distinct_ids(qs),
        steady(qs, qs2),
        queues_grow(qs, qs2),
    ensures
        moved(id, k, u, n, to, ps, qs2, cfg, now),
{
    lemma_steady(qs, qs2, to);
    if index_of(qs, to) is Some && queued_on(qs[index_of(qs, to)->0], id, k, u.data@) {
        let i = index_of(qs, to)->0;
        assert(0 <= i < qs.len() && qs[i].id == to);
        lemma_queued_stays(qs, qs2, i, id, k, u.data@);
    } else if pool_has_slot(qs2, to, u.data@.len(), cfg) {
        lemma_slot_shrinks(qs, qs2, to, u.data@.len(), cfg);
    }
}

/// A piece that was rehomed and whose copy was then offered.
proof fn lemma_moved(
    id: u32,
    k: u64,
    u: Unacked,
    n: Unacked,
    to: u32,
    ps0: Seq<PathState>,
    ps1: Seq<PathState>,
    ps2: Seq<PathState>,
    ps3: Seq<PathState>,
    cfg: SessionConfig,
    now: u64,
)
    requires
        distinct_ids(ps0),
        steady(ps0, ps1),
        steady(ps1, ps2),
        queues_grow(ps1, ps2),
        steady(ps2, ps3),
        queues_grow(ps2, ps3),
        rehomed(u, n, to, stat_of(ps1, to), now),
        n.retry_not_before == now,
        exists|f: Frame|
            f.carries(id, k, n.data@) && #[trigger] pool_offered(ps2, ps3, to, f, cfg),
    ensures
        moved(id, k, u, n, to, ps0, ps3, cfg, now),
{
    lemma_steady(ps0, ps1, to);
    lemma_steady(ps1, ps2, to);
    lemma_steady(ps2, ps3, to);
    if stat_of(ps0, to) is Some {
        let p = clocks(stat_of(ps0, to)->0);
        let q = clocks(stat_of(ps1, to)->0);
        assert(p.delivered == q.delivered && p.delivered_at_us == q.delivered_at_us
            && p.first_tx_us == q.first_tx_us);
    }
    let f = choose|f: Frame|
        f.carries(id, k, n.data@) && #[trigger] pool_offered(ps2, ps3, to, f, cfg);
    match index_of(ps2, to) {
        Some(i) => {
            assert(0 <= i < ps2.len() && ps2[i].id == to);
            assert(ps2[i].offered(ps3[i], f, cfg));
            if ps2[i].accepts(f, cfg) {
                if goes_urgent(ps2[i].stat, f, cfg) {
                    assert(ps3[i].urgent@[ps2[i].urgent@.len() as int] == f);
                } else {
                    assert(ps3[i].writer@[ps2[i].writer@.len() as int] == f);
                }
            } else {
                let p = clocks(ps2[i].stat);
                let q = clocks(ps3[i].stat);
                assert(p == q);
                assert(p.state == q.state && p.writer_open == q.writer_open && p.rtt_us == q.rtt_us
                    && p.write_stalled == q.write_stalled);
                assert(!pool_has_slot(ps3, to, u.data@.len(), cfg));
            }
        },
        None => {},
    }
}

// ---------------------------------------------------------------------------
// ACKs
// ---------------------------------------------------------------------------
/// `n` holds, per stream, the ACK of `a` and `b` that reaches further; `a`
/// where both reach as far.
pub open spec fn merged_acks(
    a: Map<u32, StreamAck>,
    b: Map<u32, StreamAck>,
    n: Map<u32, StreamAck>,
) -> bool {
    &&& forall|id: u32| #[trigger] n.contains_key(id) <==> a.contains_key(id) || b.contains_key(id)
    &&& forall|id: u32| #[trigger]
        n.contains_key(id) ==> n[id] == if a.contains_key(id) && (!b.contains_key(id)
            || a[id].acked_offset >= b[id].acked_offset) {
            a[id]
        } else {
            b[id]
        }
}

/// Keep the ACK that reaches further, per stream.
pub fn merge_acks(acks: &mut BTreeMap<u32, StreamAck>, taken: BTreeMap<u32, StreamAck>)
    ensures
        merged_acks(old(acks)@, taken@, final(acks)@),
{
    let mut rest: BTreeMap<u32, StreamAck> = taken;
    let ids: Vec<u32> = ids_of(&rest);
    let ghost a = acks@;
    let ghost b = rest@;
    let mut i: usize = 0;
    proof {
        assert forall|j: int| 0 <= j < ids@.len() implies b.contains_key(#[trigger] ids@[j]) by {
            assert(ids@.contains(ids@[j]));
        }
    }
    while i < ids.len()
        invariant
            i <= ids@.len(),
            lists_ids(ids@, b),
            forall|j: int| 0 <= j < ids@.len() ==> b.contains_key(#[trigger] ids@[j]),
            forall|j: int|
                i <= j < ids@.len() ==> rest@.contains_key(#[trigger] ids@[j]) && rest@[ids@[j]]
                    == b[ids@[j]] && acks@.contains_key(ids@[j]) == a.contains_key(ids@[j])
                    && acks@[ids@[j]] == a[ids@[j]],
            forall|id: u32|
                #![trigger acks@.contains_key(id)]
                !b.contains_key(id) ==> acks@.contains_key(id) == a.contains_key(id) && acks@[id]
                    == a[id],
            forall|j: int|
                0 <= j < i ==> acks@.contains_key(#[trigger] ids@[j]) && acks@[ids@[j]] == if a.contains_key(
                ids@[j]) && a[ids@[j]].acked_offset >= b[ids@[j]].acked_offset {
                    a[ids@[j]]
                } else {
                    b[ids@[j]]
                },
        decreases ids.len() - i,
    {
        let id: u32 = ids[i];
        proof {
            assert(b.contains_key(ids@[i as int]));
            assert(rest@.contains_key(ids@[i as int]));
        }
        match rest.remove(&id) {
            Some(ack) => {
                let keep: bool = match acks.get(&id) {
                    Some(have) => have.acked_offset >= ack.acked_offset,
                    None => false,
                };
                if !keep {
                    let _ = acks.insert(id, ack);
                }
            },
            None => {
                assert(false);
            },
        }
        i += 1;
    }
    proof {
        let n = acks@;
        assert forall|id: u32| #[trigger] n.contains_key(id) <==> a.contains_key(id)
            || b.contains_key(id) by {
            if b.contains_key(id) {
                assert(ids@.contains(id));
                let j = choose|j: int| 0 <= j < ids@.len() && ids@[j] == id;
                assert(n.contains_key(ids@[j]));
            }
        }
        assert forall|id: u32| #[trigger] n.contains_key(id) implies n[id] == if a.contains_key(id)
            && (!b.contains_key(id) || a[id].acked_offset >= b[id].acked_offset) {
            a[id]
        } else {
            b[id]
        } by {
            if b.contains_key(id) {
                assert(ids@.contains(id));
                let j = choose|j: int| 0 <= j < ids@.len() && ids@[j] == id;
                assert(n.contains_key(ids@[j]));
            }
        }
    }
}

// ---------------------------------------------------------------------------
// The session
// ---------------------------------------------------------------------------
/// Total pieces on path `from` over the streams in `ids`.
pub open spec fn pieces_on(streams: Map<u32, StreamState>, ids: Seq<u32>, from: u32) -> nat
    decreases ids.len(),
{
    if ids.len() == 0 {
        0
    } else {
        let m = streams[ids.last()].unacked@;
        pieces_on(streams, ids.drop_last(), from) + count_on(
            m,
            crate::maps::sorted_keys(m),
            from,
        )
    }
}

/// The pool once the pieces of these streams on `from` moved to `to`, stream
/// by stream.
#[verifier::opaque]
pub open spec fn streams_moved(
    ps: Seq<PathState>,
    qs: Seq<PathState>,
    streams: Map<u32, StreamState>,
    ids: Seq<u32>,
    from: u32,
    to: u32,
    cfg: SessionConfig,
) -> bool
    decreases ids.len(),
{
    if ids.len() == 0 {
        qs == ps
    } else {
        exists|mid: Seq<PathState>|
            streams_moved(ps, mid, streams, ids.drop_last(), from, to, cfg)
                && #[trigger] streams[ids.last()].moves_load(mid, qs, from, to, cfg)
    }
}

impl Session {
    /// `n` is the stream table once every stream's pieces on `dead` were sent
    /// again on `alt`.
    pub open spec fn all_retransmit(
        streams: Map<u32, StreamState>,
        n: Map<u32, StreamState>,
        dead: u32,
        alt: u32,
        ps: Seq<PathState>,
        qs: Seq<PathState>,
        cfg: SessionConfig,
        now: u64,
    ) -> bool {
        &&& n.dom() == streams.dom()
        &&& forall|id: u32| #[trigger]
            streams.contains_key(id) ==> streams[id].retransmits(
                n[id],
                dead,
                alt,
                ps,
                qs,
                cfg,
                now,
            )
    }
}

proof fn lemma_retransmits_stays(
    st: StreamState,
    n: StreamState,
    from: u32,
    to: u32,
    ps0: Seq<PathState>,
    ps: Seq<PathState>,
    qs: Seq<PathState>,
    qs2: Seq<PathState>,
    cfg: SessionConfig,
    now: u64,
)
    requires
        st.retransmits(n, from, to, ps, qs, cfg, now),
        distinct_ids(ps0),
        steady(ps0, ps),
        distinct_ids(qs),
        steady(qs, qs2),
        queues_grow(qs, qs2),
    ensures
        st.retransmits(n, from, to, ps0, qs2, cfg, now),
{
    lemma_steady(ps0, ps, to);
    if stat_of(ps0, to) is Some {
        let p = clocks(stat_of(ps0, to)->0);
        let q = clocks(stat_of(ps, to)->0);
        assert(p.delivered == q.delivered && p.delivered_at_us == q.delivered_at_us
            && p.first_tx_us == q.first_tx_us);
    }
    assert forall|k: u64| #[trigger]
        st.unacked@.contains_key(k) && st.unacked@[k].path_id == from implies moved(
        st.id,
        k,
        st.unacked@[k],
        n.unacked@[k],
        to,
        ps0,
        qs2,
        cfg,
        now,
    ) by {
        lemma_moved_stays(
            st.id,
            k,
            st.unacked@[k],
            n.unacked@[k],
            to,
            ps,
            qs,
            qs2,
            cfg,
            now,
        );
    }
}

/// Send every stream's pieces on `dead` again on `alt`. Returns how many.
#[verifier::rlimit(30)]
pub fn retransmit_all(
    streams: &mut BTreeMap<u32, StreamState>,
    dead: u32,
    alt: u32,
    paths: &mut Vec<PathState>,
    cfg: &SessionConfig,
    now: u64,
) -> (total: u64)
    requires
        distinct_ids(old(paths)@),
    ensures
        Session::all_retransmit(
            old(streams)@,
            final(streams)@,
            dead,
            alt,
            old(paths)@,
            final(paths)@,
            *cfg,
            now,
        ),
        exists|ids: Seq<u32>| #[trigger]
            lists_ids(ids, old(streams)@) && total == capped(
                pieces_on(old(streams)@, ids, dead) as int,
            ) && streams_moved(
                old(paths)@,
                final(paths)@,
                old(streams)@,
                ids,
                dead,
                alt,
                *cfg,
            ),
        distinct_ids(final(paths)@),
        steady(old(paths)@, final(paths)@),
        queues_grow(old(paths)@, final(paths)@),
{
    let ids: Vec<u32> = ids_of(streams);
    let ghost m = streams@;
    let ghost ps0 = paths@;
    let mut total: u64 = 0;
    let mut i: usize = 0;
    proof {
        reveal_with_fuel(streams_moved, 2);
        lemma_steady_refl(ps0);
        assert forall|j: int| 0 <= j < ids@.len() implies m.contains_key(#[trigger] ids@[j]) by {
            assert(ids@.contains(ids@[j]));
        }
    }
    while i < ids.len()
        invariant
            i <= ids@.len(),
            lists_ids(ids@, m),
            forall|j: int| 0 <= j < ids@.len() ==> m.contains_key(#[trigger] ids@[j]),
            distinct_ids(ps0),
            distinct_ids(paths@),
            steady(ps0, paths@),
            queues_grow(ps0, paths@),
            streams@.dom() == m.dom(),
            total == capped(pieces_on(m, ids@.take(i as int), dead) as int),
            streams_moved(ps0, paths@, m, ids@.take(i as int), dead, alt, *cfg),
            forall|j: int| i <= j < ids@.len() ==> streams@[#[trigger] ids@[j]] == m[ids@[j]],
            forall|j: int|
                0 <= j < i ==> m[#[trigger] ids@[j]].retransmits(
                    streams@[ids@[j]],
                    dead,
                    alt,
                    ps0,
                    paths@,
                    *cfg,
                    now,
                ),
        decreases ids.len() - i,
    {
        let id: u32 = ids[i];
        let ghost n1 = streams@;
        let ghost ps1 = paths@;
        proof {
            assert(m.contains_key(ids@[i as int]));
            assert(streams@.dom().contains(id));
            assert(streams@[ids@[i as int]] == m[ids@[i as int]]);
            assert(ids@.take(i + 1).drop_last() =~= ids@.take(i as int));
            reveal_with_fuel(streams_moved, 2);
        }
        match streams.remove(&id) {
            Some(stream) => {
                let mut st: StreamState = stream;
                let count: u64 = st.retransmit_from_on(dead, alt, paths, cfg, now);
                total = total.saturating_add(count);
                let _ = streams.insert(id, st);
                proof {
                    assert(streams@ =~= n1.insert(id, st));
                    assert(streams@.dom() =~= m.dom());
                    assert(m[ids@.take(i + 1).last()].moves_load(ps1, paths@, dead, alt, *cfg));
                    lemma_steady_refl(paths@);
                    lemma_retransmits_stays(
                        m[id],
                        st,
                        dead,
                        alt,
                        ps0,
                        ps1,
                        paths@,
                        paths@,
                        *cfg,
                        now,
                    );
                    lemma_steady_trans(ps0, ps1, paths@);
                    lemma_queues_grow_trans(ps0, ps1, paths@);
                    lemma_steady_refl(ps0);
                    assert forall|j: int| 0 <= j < i + 1 implies m[#[trigger] ids@[j]].retransmits(
                        streams@[ids@[j]],
                        dead,
                        alt,
                        ps0,
                        paths@,
                        *cfg,
                        now,
                    ) by {
                        if j < i {
                            assert(ids@[j] < ids@[i as int]);
                            lemma_retransmits_stays(
                                m[ids@[j]],
                                n1[ids@[j]],
                                dead,
                                alt,
                                ps0,
                                ps0,
                                ps1,
                                paths@,
                                *cfg,
                                now,
                            );
                        }
                    }
                }
            },
            None => {
                assert(false);
            },
        }
        i += 1;
    }
    proof {
        assert(ids@.take(ids@.len() as int) =~= ids@);
        assert forall|id: u32| #[trigger] m.contains_key(id) implies m[id].retransmits(
            streams@[id],
            dead,
            alt,
            ps0,
            paths@,
            *cfg,
            now,
        ) by {
            assert(ids@.contains(id));
            let j = choose|j: int| 0 <= j < ids@.len() && ids@[j] == id;
            assert(m[ids@[j]].retransmits(
                streams@[ids@[j]],
                dead,
                alt,
                ps0,
                paths@,
                *cfg,
                now,
            ));
        }
    }
    total
}

/// What a path that went down left to others.
pub struct PathDown {
    /// How long the path had been silent, recorded once.
    pub failover_ms: Option<u64>,
    /// Where its pieces went, and how many there were.
    pub alt: Option<u32>,
    pub pieces: u64,
    pub opens: Vec<Retry>,
    pub closes: Vec<Retry>,
    pub resets: Vec<Retry>,
    /// Where its waiting ACKs went.
    pub acks_to: Option<u32>,
}

/// What a report of failure did.
pub enum PathFailed {
    Unknown,
    AlreadyDown,
    Down(PathDown),
}

/// The numbers of a path that is marked down.
pub open spec fn downed(s: PathStat) -> PathStat {
    PathStat { state: Health::Down, failover_recorded: true, ..s }
}

/// The counters once path `id` of this pool is counted as down: what it
/// refused is kept.
pub open spec fn down_counted(c: Counters, ps: Seq<PathState>, id: u32) -> Counters {
    Counters {
        path_down: plus(c.path_down, 1),
        frame_send_drop: match stat_of(ps, id) {
            Some(p) => plus(c.frame_send_drop, p.send_drops as int),
            None => c.frame_send_drop,
        },
        ..c
    }
}

fn count_down(metrics: &mut Counters, paths: &Vec<PathState>, id: u32)
    requires
        distinct_ids(paths@),
    ensures
        *final(metrics) == down_counted(*old(metrics), paths@, id),
{
    metrics.path_down = metrics.path_down.saturating_add(1);
    match get_path(paths, id) {
        Some(p) => {
            metrics.frame_send_drop = metrics.frame_send_drop.saturating_add(p.send_drops);
        },
        None => {},
    }
}

impl Session {
    /// `n` remembers the RTT and the lifetime of the path that failed.
    pub open spec fn remembers(
        m: PathMemory,
        n: PathMemory,
        name: Seq<char>,
        s: PathStat,
        first: bool,
        now: u64,
    ) -> bool {
        &&& forall|x: Seq<char>| #[trigger]
            n.last_rtt.known(x) == if x == name && s.rtt_known() {
                Some(s.rtt_us)
            } else {
                m.last_rtt.known(x)
            }
        &&& forall|x: Seq<char>| #[trigger]
            n.last_lived.known(x) == if x == name && first {
                Some(above(now as int, s.up_since as int) as u64)
            } else {
                m.last_lived.known(x)
            }
    }

    /// Everything waiting on the dead path was repeated elsewhere: pieces
    /// first, then Opens, Closes and Resets, from pool `p1` to pool `q4`.
    pub open spec fn hands_over<S: Scheduler>(
        self,
        sched: &S,
        n: Self,
        id: u32,
        out: PathDown,
        p1: Seq<PathState>,
        q1: Seq<PathState>,
        q2: Seq<PathState>,
        q3: Seq<PathState>,
        q4: Seq<PathState>,
        now: u64,
    ) -> bool {
        &&& exists|named: Option<u32>| #[trigger]
            picked_again(sched, p1, seq![id], named) && out.alt == elsewhere(named, id)
        &&& match out.alt {
            Some(alt) => {
                &&& Session::all_retransmit(
                    self.streams@,
                    n.streams@,
                    id,
                    alt,
                    p1,
                    q1,
                    self.cfg,
                    now,
                )
                &&& exists|ids: Seq<u32>| #[trigger]
                    lists_ids(ids, self.streams@) && out.pieces == capped(
                        pieces_on(self.streams@, ids, id) as int,
                    ) && streams_moved(p1, q1, self.streams@, ids, id, alt, self.cfg)
            },
            None => n.streams@ == self.streams@ && out.pieces == 0 && q1 == p1,
        }
        &&& repeats(sched, self.opens@, n.opens@, opens_from(id), q1, q2, self.cfg, now, out.opens@)
        &&& exists|mid: Map<u32, Pending>| #[trigger]
            Ledger::closes_on(self.closes@, mid, n.streams@, id) && repeats(
                sched,
                mid,
                n.closes@,
                closes_from(id),
                q2,
                q3,
                self.cfg,
                now,
                out.closes@,
            )
        &&& repeats(sched, self.resets@, n.resets@, resets_from(id), q3, q4, self.cfg, now, out.resets@)
        &&& n.metrics == handed_counted(
            down_counted(self.metrics, p1, id),
            q2,
            out,
        )
        &&& distinct_ids(q4)
        &&& steady(p1, q4)
        &&& queues_grow(p1, q4)
    }

    #[verifier::rlimit(40)]
    fn hand_over<S: Scheduler>(&mut self, id: u32, sched: &S, now: u64) -> (out: PathDown)
        requires
            old(self).wf(),
        ensures
            final(self).wf(),
            out.failover_ms is None,
            out.acks_to is None,
            exists|q1: Seq<PathState>, q2: Seq<PathState>, q3: Seq<PathState>|
                #![trigger handed_via(q1, q2, q3)]
                old(self).hands_over(
                    sched,
                    *final(self),
                    id,
                    out,
                    old(self).paths@,
                    q1,
                    q2,
                    q3,
                    final(self).paths@,
                    now,
                ) && handed_via(q1, q2, q3),
            final(self).cfg == old(self).cfg,
            final(self).is_client == old(self).is_client,
            final(self).marks == old(self).marks,
            final(self).early == old(self).early,
            final(self).memory == old(self).memory,
    {
        let ghost o = *self;
        let ghost p1 = self.paths@;
        proof {
            lemma_steady_refl(p1);
        }
        count_down(&mut self.metrics, &self.paths, id);
        let mut avoid: Vec<u32> = Vec::new();
        avoid.push(id);
        let named: Option<u32> = sched.pick_retry(&self.paths, &avoid);
        proof {
            assert(avoid@ =~= seq![id]);
            assert(picked_again(sched, p1, seq![id], named));
        }
        let alt: Option<u32> = match named {
            Some(to) => if to == id {
                None
            } else {
                Some(to)
            },
            None => None,
        };
        let mut pieces: u64 = 0;
        match alt {
            Some(to) => {
                pieces =
                retransmit_all(&mut self.streams, id, to, &mut self.paths, &self.cfg, now);
                self.metrics.data_retransmit = self.metrics.data_retransmit.saturating_add(pieces);
            },
            None => {},
        }
        let ghost q1 = self.paths@;
        let ghost s1 = self.streams@;
        proof {
            assert(steady(p1, q1) && queues_grow(p1, q1));
            assert forall|sid: u32| #[trigger] s1.contains_key(sid) implies s1[sid].id == sid
                && s1[sid].recv_wf() && s1[sid].send_wf() by {
                if alt is Some {
                    assert(o.streams@.dom().contains(sid));
                    assert(o.streams@.contains_key(sid));
                    lemma_retransmits_wf(
                        o.streams@[sid],
                        s1[sid],
                        id,
                        alt->0,
                        p1,
                        q1,
                        o.cfg,
                        now,
                    );
                } else {
                    assert(o.streams@.contains_key(sid));
                }
            }
        }
        let opens: Vec<Retry> = self.opens.retry_open_from(
            id,
            &mut self.paths,
            &self.cfg,
            sched,
            now,
        );
        let ghost q2 = self.paths@;
        note_retries(&mut self.metrics, &self.paths, &opens);
        let closes: Vec<Retry> = self.closes.retry_close_from(
            id,
            &self.streams,
            &mut self.paths,
            &self.cfg,
            sched,
            now,
        );
        let ghost q3 = self.paths@;
        self.metrics.close_retry = self.metrics.close_retry.saturating_add(count_sent(&closes));
        let resets: Vec<Retry> = self.resets.retry_reset_from(
            id,
            &mut self.paths,
            &self.cfg,
            sched,
            now,
        );
        self.metrics.reset_retry = self.metrics.reset_retry.saturating_add(count_sent(&resets));
        proof {
            lemma_steady_trans(p1, q1, q2);
            lemma_queues_grow_trans(p1, q1, q2);
            lemma_steady_trans(p1, q2, q3);
            lemma_queues_grow_trans(p1, q2, q3);
            lemma_steady_trans(p1, q3, self.paths@);
            lemma_queues_grow_trans(p1, q3, self.paths@);
        }
        let out: PathDown = PathDown {
            failover_ms: None,
            alt,
            pieces,
            opens,
            closes,
            resets,
            acks_to: None,
        };
        proof {
            assert(handed_via(q1, q2, q3)) by {
                reveal(handed_via);
            }
            assert(self.metrics == handed_counted(
                down_counted(o.metrics, p1, id),
                q2,
                out,
            ));
            assert(picked_again(sched, p1, seq![id], named) && out.alt == elsewhere(named, id));
            assert(out.alt is None ==> q1 == p1);
            assert(o.hands_over(sched, *self, id, out, p1, q1, q2, q3, self.paths@, now));
        }
        out
    }
}

/// The pools between the steps of a hand-over: each step keeps the paths and
/// their clocks, and takes no frame from a queue.
#[verifier::opaque]
pub open spec fn handed_via(q1: Seq<PathState>, q2: Seq<PathState>, q3: Seq<PathState>) -> bool {
    &&& steady(q1, q2) && queues_grow(q1, q2)
    &&& steady(q2, q3) && queues_grow(q2, q3)
}

/// The counters after a hand-over.
pub open spec fn handed_counted(c: Counters, q2: Seq<PathState>, out: PathDown) -> Counters {
    let a = Counters { data_retransmit: plus(c.data_retransmit, out.pieces as int), ..c };
    let b = retries_counted(a, q2, out.opens@);
    Counters {
        close_retry: plus(b.close_retry, sent_retries(out.closes@) as int),
        reset_retry: plus(b.reset_retry, sent_retries(out.resets@) as int),
        ..b
    }
}

proof fn lemma_retransmits_wf(
    st: StreamState,
    n: StreamState,
    from: u32,
    to: u32,
    ps: Seq<PathState>,
    qs: Seq<PathState>,
    cfg: SessionConfig,
    now: u64,
)
    requires
        st.retransmits(n, from, to, ps, qs, cfg, now),
        st.recv_wf(),
        st.send_wf(),
    ensures
        n.recv_wf(),
        n.send_wf(),
{
    assert forall|k: u64| #[trigger] n.unacked@.contains_key(k) implies k + n.unacked@[k].data@.len()
        <= u64::MAX && k + n.unacked@[k].data@.len() <= n.counters.send_next by {
        assert(n.unacked@.dom().contains(k));
        assert(st.unacked@.contains_key(k));
        if st.unacked@[k].path_id == from {
            assert(moved(st.id, k, st.unacked@[k], n.unacked@[k], to, ps, qs, cfg, now));
        }
    }
}

// ---------------------------------------------------------------------------
// A path goes down
// ---------------------------------------------------------------------------
/// `p1` is the pool with the path at `i` marked down and its ACKs taken.
pub open spec fn marked_down(ps: Seq<PathState>, p1: Seq<PathState>, i: int) -> bool {
    &&& 0 <= i < ps.len()
    &&& p1.len() == ps.len()
    &&& forall|j: int| 0 <= j < ps.len() && j != i ==> #[trigger] p1[j] == ps[j]
    &&& p1[i] == (PathState {
        stat: downed(ps[i].stat),
        pending_acks: p1[i].pending_acks,
        ..ps[i]
    })
}

/// `to` is where the ACKs of the dead path `id` go: the path that the scheduler
/// names in its place, while the pool has it. Without ACKs it is not asked.
pub open spec fn acks_named<S: Scheduler>(
    sched: &S,
    ps: Seq<PathState>,
    id: u32,
    taken: Map<u32, StreamAck>,
    to: Option<u32>,
) -> bool {
    if taken.dom().is_empty() {
        to is None
    } else {
        exists|named: Option<u32>| #[trigger]
            picked_again(sched, ps, seq![id], named) && to == acks_home(ps, named)
    }
}

/// `n` is the pool `q` without the path `id` at `i`, the ACKs it left merged
/// into the path `acks_to`.
pub open spec fn left_pool<S: Scheduler>(
    sched: &S,
    q: Seq<PathState>,
    n: Seq<PathState>,
    i: int,
    id: u32,
    taken: Map<u32, StreamAck>,
    acks_to: Option<u32>,
) -> bool {
    let r = q.remove(i);
    &&& acks_named(sched, r, id, taken, acks_to)
    &&& n.len() == r.len()
    &&& forall|j: int|
        0 <= j < r.len() ==> if acks_to == Some((#[trigger] n[j]).id) {
            &&& n[j] == (PathState { pending_acks: n[j].pending_acks, ..r[j] })
            &&& merged_acks(r[j].pending_acks@, taken, n[j].pending_acks@)
        } else {
            n[j] == r[j]
        }
}

impl Session {
    /// What a report that path `id` failed does to this session.
    pub open spec fn fails<S: Scheduler>(
        self,
        sched: &S,
        n: Self,
        id: u32,
        out: PathFailed,
        now: u64,
    ) -> bool {
        match index_of(self.paths@, id) {
            None => out is Unknown && n == self,
            Some(i) => {
                let p = self.paths@[i];
                if p.stat.state is Down {
                    &&& out is AlreadyDown
                    &&& Session::remembers(self.memory, n.memory, p.name@, p.stat, false, now)
                    &&& n == (Session { memory: n.memory, ..self })
                } else {
                    &&& out matches PathFailed::Down(d)
                    &&& self.goes_down(sched, n, i, id, d, now)
                }
            },
        }
    }

    /// The first report of a failure: the path is marked down and counted,
    /// everything that waited on it is handed over, and it leaves the pool.
    pub open spec fn goes_down<S: Scheduler>(
        self,
        sched: &S,
        n: Self,
        i: int,
        id: u32,
        d: PathDown,
        now: u64,
    ) -> bool {
        let p = self.paths@[i];
        &&& Session::remembers(self.memory, n.memory, p.name@, p.stat, true, now)
        &&& d.failover_ms == if p.stat.failover_recorded {
            None
        } else {
            Some((p.stat.quiet_for(now) / 1000) as u64)
        }
        &&& n.cfg == self.cfg
        &&& n.is_client == self.is_client
        &&& n.early == self.early
        &&& n.marks == if exists|j: int|
            0 <= j < n.paths@.len() && (#[trigger] n.paths@[j]).stat.alive() {
            self.marks
        } else {
            Marks { all_down_since: Some(now), ..self.marks }
        }
        &&& exists|
            p1: Seq<PathState>,
            q1: Seq<PathState>,
            q2: Seq<PathState>,
            q3: Seq<PathState>,
            q4: Seq<PathState>,
        |
            #![trigger
                marked_down(self.paths@, p1, i),
                handed_via(q1, q2, q3),
                left_pool(sched, q4, n.paths@, i, id, p.pending_acks@, d.acks_to)]
            marked_down(self.paths@, p1, i) && handed_via(q1, q2, q3) && left_pool(
                sched,
                q4,
                n.paths@,
                i,
                id,
                p.pending_acks@,
                d.acks_to,
            ) && self.hands_over(sched, n, id, d, p1, q1, q2, q3, q4, now)
    }
}

/// Mark the path at `i` down and take its waiting ACKs.
fn mark_down(paths: &mut Vec<PathState>, i: usize) -> (taken: BTreeMap<u32, StreamAck>)
    requires
        i < old(paths)@.len(),
        distinct_ids(old(paths)@),
    ensures
        marked_down(old(paths)@, final(paths)@, i as int),
        taken@ == old(paths)@[i as int].pending_acks@,
        distinct_ids(final(paths)@),
{
    let mut taken: BTreeMap<u32, StreamAck> = BTreeMap::new();
    let p: &mut PathState = &mut paths[i];
    p.stat.state = Health::Down;
    p.stat.failover_recorded = true;
    std::mem::swap(&mut p.pending_acks, &mut taken);
    proof {
        assert forall|a: int, b: int| 0 <= a < b < paths@.len() implies paths@[a].id != paths@[b].id by {
            assert(paths@[a].id == old(paths)@[a].id && paths@[b].id == old(paths)@[b].id);
        }
    }
    taken
}

/// Take the path at `i` out of the pool and merge the ACKs it left into the
/// path a scheduler names, if any.
fn leave_pool<S: Scheduler>(
    paths: &mut Vec<PathState>,
    i: usize,
    id: u32,
    taken: BTreeMap<u32, StreamAck>,
    sched: &S,
) -> (acks_to: Option<u32>)
    requires
        i < old(paths)@.len(),
        distinct_ids(old(paths)@),
    ensures
        left_pool(sched, old(paths)@, final(paths)@, i as int, id, taken@, acks_to),
        distinct_ids(final(paths)@),
{
    let ghost q = paths@;
    let _ = paths.remove(i);
    let ghost r = paths@;
    proof {
        assert forall|a: int, b: int| 0 <= a < b < r.len() implies r[a].id != r[b].id by {}
    }
    if taken.is_empty() {
        return None;
    }
    let mut avoid: Vec<u32> = Vec::new();
    avoid.push(id);
    let named: Option<u32> = sched.pick_retry(paths, &avoid);
    proof {
        assert(avoid@ =~= seq![id]);
        assert(picked_again(sched, r, seq![id], named));
    }
    match named {
        Some(alt) => match find_path(paths, alt) {
            Some(j) => {
                let p: &mut PathState = &mut paths[j];
                merge_acks(&mut p.pending_acks, taken);
                proof {
                    assert forall|k: int| 0 <= k < r.len() && k != j implies #[trigger] paths@[k]
                        == r[k] && r[k].id != alt by {}
                }
                Some(alt)
            },
            None => None,
        },
        None => None,
    }
}

impl Session {
    /// A path failed. The first report counts it, hands over everything that
    /// waited on it and takes it out of the pool; sister paths are not
    /// touched.
    #[verifier::rlimit(40)]
    pub fn path_failed<S: Scheduler>(&mut self, id: u32, sched: &S, now: u64) -> (out: PathFailed)
        requires
            old(self).wf(),
        ensures
            final(self).wf(),
            old(self).fails(sched, *final(self), id, out, now),
    {
        let i: usize = match find_path(&self.paths, id) {
            Some(i) => i,
            None => {
                return PathFailed::Unknown;
            },
        };
        let ghost o = *self;
        let stat: PathStat = self.paths[i].stat;
        if stat.is_rtt_known() {
            self.memory.last_rtt.set(self.paths[i].name.as_str(), stat.rtt_us);
        }
        if !stat.is_alive() {
            return PathFailed::AlreadyDown;
        }
        self.memory.last_lived.set(
            self.paths[i].name.as_str(),
            now.saturating_sub(stat.up_since),
        );
        let failover_ms: Option<u64> = if stat.failover_recorded {
            None
        } else {
            Some(stat.last_rx_ago(now) / 1000)
        };
        let taken: BTreeMap<u32, StreamAck> = mark_down(&mut self.paths, i);
        let ghost p1 = self.paths@;
        let ghost mid = *self;
        let mut down: PathDown = self.hand_over(id, sched, now);
        let ghost q4 = self.paths@;
        let ghost d0 = down;
        proof {
            assert(same_paths(p1, q4));
            assert(q4.len() == p1.len());
        }
        let acks_to: Option<u32> = leave_pool(&mut self.paths, i, id, taken, sched);
        down.failover_ms = failover_ms;
        down.acks_to = acks_to;
        if !has_alive_path(&self.paths) {
            self.marks.all_down_since = Some(now);
        }
        proof {
            let (q1, q2, q3) = choose|q1: Seq<PathState>, q2: Seq<PathState>, q3: Seq<PathState>|
                #![trigger handed_via(q1, q2, q3)]
                mid.hands_over(
                    sched,
                    Session { ..*self },
                    id,
                    d0,
                    p1,
                    q1,
                    q2,
                    q3,
                    q4,
                    now,
                ) && handed_via(q1, q2, q3);
            assert(o.hands_over(sched, *self, id, down, p1, q1, q2, q3, q4, now));
            assert(handed_via(q1, q2, q3));
            assert(marked_down(o.paths@, p1, i as int));
            assert(o.goes_down(sched, *self, i as int, id, down, now));
        }
        PathFailed::Down(down)
    }
}

/// The path that ACKs go to: the one that was named, while the pool has it.
pub open spec fn acks_home(ps: Seq<PathState>, named: Option<u32>) -> Option<u32> {
    match named {
        Some(alt) => if index_of(ps, alt) is Some {
            Some(alt)
        } else {
            None
        },
        None => None,
    }
}

/// `n` is the pool `ps` with the ACKs of a dead path merged into the path
/// `to`.
pub open spec fn acks_merged(
    ps: Seq<PathState>,
    n: Seq<PathState>,
    taken: Map<u32, StreamAck>,
    to: Option<u32>,
) -> bool {
    &&& n.len() == ps.len()
    &&& forall|j: int|
        0 <= j < ps.len() ==> if to == Some((#[trigger] n[j]).id) {
            &&& n[j] == (PathState { pending_acks: n[j].pending_acks, ..ps[j] })
            &&& merged_acks(ps[j].pending_acks@, taken, n[j].pending_acks@)
        } else {
            n[j] == ps[j]
        }
}

impl Session {
    /// ACKs that a writer had taken when its path `dead` failed: they go to
    /// the path that a scheduler names in its place, the further one of each
    /// stream wins. Without ACKs it is not asked.
    pub fn merge_pending_acks<S: Scheduler>(
        &mut self,
        dead: u32,
        taken: BTreeMap<u32, StreamAck>,
        sched: &S,
    ) -> (to: Option<u32>)
        requires
            old(self).wf(),
        ensures
            final(self).wf(),
            *final(self) == (Session { paths: final(self).paths, ..*old(self) }),
            acks_merged(old(self).paths@, final(self).paths@, taken@, to),
            acks_named(sched, old(self).paths@, dead, taken@, to),
    {
        let ghost ps = self.paths@;
        if taken.is_empty() {
            return None;
        }
        let mut avoid: Vec<u32> = Vec::new();
        avoid.push(dead);
        let named: Option<u32> = sched.pick_retry(&self.paths, &avoid);
        proof {
            assert(avoid@ =~= seq![dead]);
            assert(picked_again(sched, ps, seq![dead], named));
        }
        match named {
            Some(alt) => match find_path(&self.paths, alt) {
                Some(j) => {
                    let p: &mut PathState = &mut self.paths[j];
                    merge_acks(&mut p.pending_acks, taken);
                    proof {
                        assert forall|k: int| 0 <= k < ps.len() && k != j implies #[trigger] self.paths@[k]
                            == ps[k] && ps[k].id != alt by {}
                    }
                    Some(alt)
                },
                None => None,
            },
            None => None,
        }
    }
}

// ---------------------------------------------------------------------------
// Laws
// ---------------------------------------------------------------------------
/// A failed path costs no byte: every stream keeps every unacknowledged piece
/// with the bytes it had, and what it received.
pub proof fn law_failover_loses_no_byte<S: Scheduler>(
    sched: &S,
    s: Session,
    n: Session,
    id: u32,
    out: PathFailed,
    now: u64,
    stream: u32,
    offset: u64,
)
    requires
        s.fails(sched, n, id, out, now),
        s.streams@.contains_key(stream),
    ensures
        n.streams@.contains_key(stream),
        n.streams@[stream].recv_buf == s.streams@[stream].recv_buf,
        n.streams@[stream].recv == s.streams@[stream].recv,
        n.streams@[stream].unacked@.contains_key(offset)
            == s.streams@[stream].unacked@.contains_key(offset),
        s.streams@[stream].unacked@.contains_key(offset) ==> n.streams@[stream].unacked@[offset].data@
            == s.streams@[stream].unacked@[offset].data@,
{
    if out is Down {
        let d = out->Down_0;
        let i = index_of(s.paths@, id)->0;
        let p = s.paths@[i];
        let (p1, q1, q2, q3, q4) = choose|
            p1: Seq<PathState>,
            q1: Seq<PathState>,
            q2: Seq<PathState>,
            q3: Seq<PathState>,
            q4: Seq<PathState>,
        |
            #![trigger
                marked_down(s.paths@, p1, i),
                handed_via(q1, q2, q3),
                left_pool(sched, q4, n.paths@, i, id, p.pending_acks@, d.acks_to)]
            marked_down(s.paths@, p1, i) && handed_via(q1, q2, q3) && left_pool(
                sched,
                q4,
                n.paths@,
                i,
                id,
                p.pending_acks@,
                d.acks_to,
            ) && s.hands_over(sched, n, id, d, p1, q1, q2, q3, q4, now);
        match d.alt {
            Some(alt) => {
                assert(s.streams@[stream].retransmits(
                    n.streams@[stream],
                    id,
                    alt,
                    p1,
                    q1,
                    s.cfg,
                    now,
                ));
                assert(n.streams@.dom().contains(stream));
                assert(n.streams@[stream].unacked@.dom().contains(offset)
                    == s.streams@[stream].unacked@.dom().contains(offset));
            },
            None => {},
        }
    }
}

/// `q` stands in this pool as it did, but for its load and its queues.
pub open spec fn stands_in(q: PathState, n: Seq<PathState>) -> bool {
    exists|k: int|
        0 <= k < n.len() && (#[trigger] n[k]).id == q.id && n[k].name == q.name && clocks(n[k].stat)
            == clocks(q.stat)
}

proof fn lemma_sister<S: Scheduler>(
    sched: &S,
    ps: Seq<PathState>,
    p1: Seq<PathState>,
    q4: Seq<PathState>,
    n: Seq<PathState>,
    i: int,
    j: int,
    id: u32,
    taken: Map<u32, StreamAck>,
    acks_to: Option<u32>,
)
    requires
        marked_down(ps, p1, i),
        steady(p1, q4),
        left_pool(sched, q4, n, i, id, taken, acks_to),
        0 <= j < ps.len(),
        j != i,
    ensures
        n.len() == ps.len() - 1,
        stands_in(ps[j], n),
{
    let k = if j < i {
        j
    } else {
        j - 1
    };
    assert(q4.remove(i)[k] == q4[j]);
    assert(p1[j] == ps[j]);
    assert(p1[j].id == q4[j].id);
    assert(clocks(q4[j].stat) == clocks(p1[j].stat));
    assert(n[k].id == ps[j].id);
}

/// A failed path leaves the pool and takes no other path with it: its sisters
/// stay, with their health and their clocks.
#[verifier::spinoff_prover]
#[verifier::rlimit(40)]
pub proof fn law_sisters_survive<S: Scheduler>(
    sched: &S,
    s: Session,
    n: Session,
    id: u32,
    d: PathDown,
    now: u64,
    j: int,
)
    requires
        s.fails(sched, n, id, PathFailed::Down(d), now),
        0 <= j < s.paths@.len(),
        s.paths@[j].id != id,
    ensures
        n.paths@.len() == s.paths@.len() - 1,
        stands_in(s.paths@[j], n.paths@),
{
    let i = index_of(s.paths@, id)->0;
    let taken = s.paths@[i].pending_acks@;
    assert(s.goes_down(sched, n, i, id, d, now));
    let (p1, q1, q2, q3, q4) = choose|
        p1: Seq<PathState>,
        q1: Seq<PathState>,
        q2: Seq<PathState>,
        q3: Seq<PathState>,
        q4: Seq<PathState>,
    |
        #![trigger
            marked_down(s.paths@, p1, i),
            handed_via(q1, q2, q3),
            left_pool(sched, q4, n.paths@, i, id, taken, d.acks_to)]
        marked_down(s.paths@, p1, i) && handed_via(q1, q2, q3) && left_pool(
            sched,
            q4,
            n.paths@,
            i,
            id,
            taken,
            d.acks_to,
        ) && s.hands_over(sched, n, id, d, p1, q1, q2, q3, q4, now);
    assert(steady(p1, q4));
    assert(s.paths@[i].id == id);
    lemma_sister(sched, s.paths@, p1, q4, n.paths@, i, j, id, taken, d.acks_to);
}

/// Every piece that waited on a failed path sits on the path named in its
/// place, where one was named: another path, with the bytes it had.
pub proof fn law_failed_pieces_move<S: Scheduler>(
    sched: &S,
    s: Session,
    n: Session,
    id: u32,
    d: PathDown,
    now: u64,
    stream: u32,
    offset: u64,
)
    requires
        s.fails(sched, n, id, PathFailed::Down(d), now),
        s.streams@.contains_key(stream),
        s.streams@[stream].unacked@.contains_key(offset),
        s.streams@[stream].unacked@[offset].path_id == id,
        d.alt is Some,
    ensures
        d.alt->0 != id,
        n.streams@[stream].unacked@[offset].path_id == d.alt->0,
{
    let i = index_of(s.paths@, id)->0;
    let taken = s.paths@[i].pending_acks@;
    assert(s.goes_down(sched, n, i, id, d, now));
    let (p1, q1, q2, q3, q4) = choose|
        p1: Seq<PathState>,
        q1: Seq<PathState>,
        q2: Seq<PathState>,
        q3: Seq<PathState>,
        q4: Seq<PathState>,
    |
        #![trigger
            marked_down(s.paths@, p1, i),
            handed_via(q1, q2, q3),
            left_pool(sched, q4, n.paths@, i, id, taken, d.acks_to)]
        marked_down(s.paths@, p1, i) && handed_via(q1, q2, q3) && left_pool(
            sched,
            q4,
            n.paths@,
            i,
            id,
            taken,
            d.acks_to,
        ) && s.hands_over(sched, n, id, d, p1, q1, q2, q3, q4, now);
    let st = s.streams@[stream];
    assert(st.retransmits(n.streams@[stream], id, d.alt->0, p1, q1, s.cfg, now));
    assert(moved(
        st.id,
        offset,
        st.unacked@[offset],
        n.streams@[stream].unacked@[offset],
        d.alt->0,
        p1,
        q1,
        s.cfg,
        now,
    ));
}

proof fn lemma_retries_keep_downs(c: Counters, ps: Seq<PathState>, out: Seq<Retry>)
    ensures
        retries_counted(c, ps, out).path_down == c.path_down,
    decreases out.len(),
{
    if out.len() > 0 {
        lemma_retries_keep_downs(c, ps, out.drop_last());
    }
}

/// A path fails once: it leaves the pool with the first report, and a second
/// report changes nothing.
pub proof fn law_a_second_report_changes_nothing<S: Scheduler>(
    sched: &S,
    s: Session,
    n: Session,
    n2: Session,
    id: u32,
    d: PathDown,
    again: PathFailed,
    now: u64,
    later: u64,
)
    requires
        distinct_ids(s.paths@),
        s.fails(sched, n, id, PathFailed::Down(d), now),
        n.fails(sched, n2, id, again, later),
    ensures
        index_of(n.paths@, id) is None,
        again is Unknown,
        n2 == n,
        n.metrics.path_down == plus(s.metrics.path_down, 1),
{
    let i = index_of(s.paths@, id)->0;
    let taken = s.paths@[i].pending_acks@;
    assert(s.goes_down(sched, n, i, id, d, now));
    let (p1, q1, q2, q3, q4) = choose|
        p1: Seq<PathState>,
        q1: Seq<PathState>,
        q2: Seq<PathState>,
        q3: Seq<PathState>,
        q4: Seq<PathState>,
    |
        #![trigger
            marked_down(s.paths@, p1, i),
            handed_via(q1, q2, q3),
            left_pool(sched, q4, n.paths@, i, id, taken, d.acks_to)]
        marked_down(s.paths@, p1, i) && handed_via(q1, q2, q3) && left_pool(
            sched,
            q4,
            n.paths@,
            i,
            id,
            taken,
            d.acks_to,
        ) && s.hands_over(sched, n, id, d, p1, q1, q2, q3, q4, now);
    let counted = down_counted(s.metrics, p1, id);
    lemma_retries_keep_downs(
        Counters { data_retransmit: plus(counted.data_retransmit, d.pieces as int), ..counted },
        q2,
        d.opens@,
    );
    assert(s.paths@[i].id == id);
    assert forall|k: int| 0 <= k < n.paths@.len() implies (#[trigger] n.paths@[k]).id != id by {
        let j = if k < i {
            k
        } else {
            k + 1
        };
        assert(q4.remove(i)[k] == q4[j]);
        assert(p1[j] == s.paths@[j]);
        assert(p1[j].id == q4[j].id);
        assert(n.paths@[k].id == q4[j].id);
    }
}

/// A path that goes down is down, and its end is reported once; everything else
/// of it stays.
pub proof fn law_a_downed_path_is_down(s: PathStat)
    ensures
        downed(s).state == Health::Down,
        downed(s).failover_recorded,
        downed(s).rtt_us == s.rtt_us,
        downed(s).inflight == s.inflight,
        downed(s).last_rx == s.last_rx,
        downed(s).delivered == s.delivered,
{
}

/// The time a failover took is what the path was silent for, told once.
pub proof fn law_a_failover_is_timed<S: Scheduler>(
    sched: &S,
    o: Session,
    n: Session,
    i: int,
    id: u32,
    d: PathDown,
    now: u64,
)
    requires
        o.goes_down(sched, n, i, id, d, now),
        o.paths@[i].stat.last_rx <= now,
    ensures
        o.paths@[i].stat.failover_recorded ==> d.failover_ms is None,
        !o.paths@[i].stat.failover_recorded ==> d.failover_ms is Some && d.failover_ms->0 * 1000
            <= now - o.paths@[i].stat.last_rx < d.failover_ms->0 * 1000 + 1000,
{
}

/// What is remembered of a path that left: its RTT where it was measured, and at
/// its first report how long it lived.
pub proof fn law_what_is_remembered_of_a_path(
    m: PathMemory,
    n: PathMemory,
    name: Seq<char>,
    s: PathStat,
    first: bool,
    now: u64,
)
    requires
        Session::remembers(m, n, name, s, first, now),
        s.up_since <= now,
    ensures
        s.rtt_us > 0 ==> n.last_rtt.known(name) == Some(s.rtt_us),
        s.rtt_us == 0 ==> n.last_rtt.known(name) == m.last_rtt.known(name),
        first ==> n.last_lived.known(name) == Some((now - s.up_since) as u64),
        !first ==> n.last_lived.known(name) == m.last_lived.known(name),
        forall|x: Seq<char>|
            x != name ==> #[trigger] n.last_rtt.known(x) == m.last_rtt.known(x),
        forall|x: Seq<char>|
            x != name ==> #[trigger] n.last_lived.known(x) == m.last_lived.known(x),
{
}

/// A loss of a path is counted once, with the frames that its queue refused.
pub proof fn law_a_down_path_is_counted(c: Counters, ps: Seq<PathState>, i: int)
    requires
        distinct_ids(ps),
        0 <= i < ps.len(),
        c.path_down < u64::MAX,
        c.frame_send_drop + ps[i].stat.send_drops <= u64::MAX,
    ensures
        down_counted(c, ps, ps[i].id).path_down == c.path_down + 1,
        down_counted(c, ps, ps[i].id).frame_send_drop == c.frame_send_drop
            + ps[i].stat.send_drops,
{
    assert(index_of(ps, ps[i].id) == Some(i));
}

/// Of two acknowledgements of one stream the one that tells more is kept, and
/// none is lost.
pub proof fn law_the_further_ack_is_kept(
    a: Map<u32, StreamAck>,
    b: Map<u32, StreamAck>,
    n: Map<u32, StreamAck>,
    id: u32,
)
    requires
        merged_acks(a, b, n),
    ensures
        n.contains_key(id) <==> a.contains_key(id) || b.contains_key(id),
        a.contains_key(id) ==> n[id].acked_offset >= a[id].acked_offset,
        b.contains_key(id) ==> n[id].acked_offset >= b[id].acked_offset,
        n.contains_key(id) ==> (a.contains_key(id) && n[id] == a[id]) || (b.contains_key(id)
            && n[id] == b[id]),
        a.contains_key(id) && b.contains_key(id) && a[id].acked_offset == b[id].acked_offset
            ==> n[id] == a[id],
{
}

/// Pieces that move go to the new path at once, keep their bytes and the time of
/// their first sending, and may be sent again from now on.
pub proof fn law_what_a_moved_piece_keeps(
    id: u32,
    k: u64,
    u: Unacked,
    n: Unacked,
    to: u32,
    ps: Seq<PathState>,
    qs: Seq<PathState>,
    cfg: SessionConfig,
    now: u64,
)
    requires
        moved(id, k, u, n, to, ps, qs, cfg, now),
    ensures
        n.data@ == u.data@,
        n.path_id == to,
        n.last_sent == now,
        n.first_sent == u.first_sent,
        n.retry_not_before == now,
        !n.dropped,
{
}

/// The pieces that a failover moves are those on the failed path.
pub proof fn law_moved_pieces_are_counted(m: Map<u64, Unacked>, keys: Seq<u64>, k: u64, from: u32)
    ensures
        count_on(m, keys.push(k), from) == count_on(m, keys, from) + if m[k].path_id == from {
            1nat
        } else {
            0
        },
        count_on(m, seq![], from) == 0,
{
    assert(keys.push(k).drop_last() =~= keys);
}

/// What a failover counts: the moved pieces as retransmits, the repeated closes
/// and resets each under its own name.
pub proof fn law_a_failover_is_counted(c: Counters, q2: Seq<PathState>, out: PathDown)
    requires
        out.opens@.len() == 0,
        c.data_retransmit + out.pieces <= u64::MAX,
        c.close_retry + sent_retries(out.closes@) <= u64::MAX,
        c.reset_retry + sent_retries(out.resets@) <= u64::MAX,
    ensures
        handed_counted(c, q2, out).data_retransmit - c.data_retransmit == out.pieces,
        handed_counted(c, q2, out).close_retry - c.close_retry == sent_retries(out.closes@),
        handed_counted(c, q2, out).reset_retry - c.reset_retry == sent_retries(out.resets@),
{
}

} // verus!
