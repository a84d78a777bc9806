//! Handing frames to a path's two writer queues.

use vstd::prelude::*;

use crate::cfg::SessionConfig;
use crate::frames::Frame;
use crate::num::capped;
use crate::path::{distinct_ids, find_path, index_of, PathStat, PathState};
use crate::pool::{clocks, queues_grow, steady};

verus! {

/// Control frames and small STREAM_DATA go out ahead of bulk on the same TCP.
pub open spec fn interactive(frame: Frame, cfg: SessionConfig) -> bool {
    frame.is_data() ==> frame.payload_len() <= cfg.tuning.interactive_max
}

/// Which queue a frame takes. Unmeasured paths keep STREAM_DATA off the
/// urgent queue so that the first RTT can complete, and a stalled writer's
/// DATA is forced onto bulk.
pub open spec fn goes_urgent(p: PathStat, frame: Frame, cfg: SessionConfig) -> bool {
    if frame.is_data() && (!p.rtt_known() || p.write_stalled) {
        false
    } else {
        interactive(frame, cfg)
    }
}

pub fn frame_is_interactive(frame: &Frame, cfg: &SessionConfig) -> (r: bool)
    ensures
        r == interactive(*frame, *cfg),
{
    if frame.is_stream_data() {
        frame.data_len() <= cfg.tuning.interactive_max
    } else {
        true
    }
}

impl PathState {
    /// A frame is taken: the path is alive, its writer is there, and the
    /// queue the frame takes has a slot.
    pub open spec fn accepts(self, frame: Frame, cfg: SessionConfig) -> bool {
        &&& self.stat.alive()
        &&& self.stat.writer_open
        &&& if goes_urgent(self.stat, frame, cfg) {
            self.urgent@.len() < cfg.tuning.chan
        } else {
            self.writer@.len() < cfg.tuning.chan
        }
    }

    /// `n` is this path once `frame` was offered to it: queued where it is
    /// accepted; a refusing urgent queue marks the path congested, an
    /// accepting one clears the mark, a refusing bulk queue leaves it alone.
    /// A path that is alive counts its refusals.
    pub open spec fn offered(self, n: Self, frame: Frame, cfg: SessionConfig) -> bool {
        let urgent = goes_urgent(self.stat, frame, cfg);
        let ok = self.accepts(frame, cfg);
        &&& n.id == self.id
        &&& n.name == self.name
        &&& n.link == self.link
        &&& n.pending_acks == self.pending_acks
        &&& n.stat == if !self.stat.alive() {
            self.stat
        } else {
            PathStat {
                congested: if urgent {
                    !ok
                } else {
                    self.stat.congested
                },
                send_drops: if ok {
                    self.stat.send_drops
                } else {
                    capped(self.stat.send_drops + 1) as u64
                },
                ..self.stat
            }
        }
        &&& n.urgent@ == if ok && urgent {
            self.urgent@.push(frame)
        } else {
            self.urgent@
        }
        &&& n.writer@ == if ok && !urgent {
            self.writer@.push(frame)
        } else {
            self.writer@
        }
    }

    pub fn offer(&mut self, frame: Frame, cfg: &SessionConfig) -> (ok: bool)
        ensures
            ok == old(self).accepts(frame, *cfg),
            old(self).offered(*final(self), frame, *cfg),
    {
        if !self.stat.is_alive() {
            return false;
        }
        let urgent: bool = if frame.is_stream_data() && (!self.stat.is_rtt_known()
            || self.stat.write_stalled) {
            false
        } else {
            frame_is_interactive(&frame, cfg)
        };
        let queued: usize = if urgent {
            self.urgent.len()
        } else {
            self.writer.len()
        };
        if self.stat.writer_open && queued < cfg.tuning.chan {
            if urgent {
                self.urgent.push(frame);
                self.stat.congested = false;
            } else {
                self.writer.push(frame);
            }
            true
        } else {
            if urgent {
                self.stat.congested = true;
            }
            self.stat.send_drops = self.stat.send_drops.saturating_add(1);
            false
        }
    }
}

/// The pool accepts `frame` on path `id`.
pub open spec fn pool_accepts(
    ps: Seq<PathState>,
    id: u32,
    frame: Frame,
    cfg: SessionConfig,
) -> bool {
    match index_of(ps, id) {
        Some(i) => ps[i].accepts(frame, cfg),
        None => false,
    }
}

/// `n` is the pool once `frame` was offered to path `id`; no other path
/// changes.
pub open spec fn pool_offered(
    ps: Seq<PathState>,
    n: Seq<PathState>,
    id: u32,
    frame: Frame,
    cfg: SessionConfig,
) -> bool {
    &&& n.len() == ps.len()
    &&& forall|i: int|
        0 <= i < ps.len() && Some(i) != index_of(ps, id) ==> #[trigger] n[i] == ps[i]
    &&& match index_of(ps, id) {
        Some(i) => 0 <= i < ps.len() && ps[i].offered(n[i], frame, cfg),
        None => true,
    }
}

/// Offer a frame to one path of the pool.
pub fn send_on_path(
    paths: &mut Vec<PathState>,
    path_id: u32,
    frame: Frame,
    cfg: &SessionConfig,
) -> (ok: bool)
    requires
        distinct_ids(old(paths)@),
    ensures
        ok == pool_accepts(old(paths)@, path_id, frame, *cfg),
        pool_offered(old(paths)@, final(paths)@, path_id, frame, *cfg),
        distinct_ids(final(paths)@),
{
    match find_path(paths, path_id) {
        Some(i) => {
            let mut p: PathState = paths.remove(i);
            let ok: bool = p.offer(frame, cfg);
            paths.insert(i, p);
            proof {
                assert forall|k: int| 0 <= k < old(paths)@.len() && k != i implies #[trigger] paths@[k]
                    == old(paths)@[k] by {}
                assert(old(paths)@[i as int].offered(paths@[i as int], frame, *cfg));
            }
            ok
        },
        None => false,
    }
}

/// Offering a frame keeps a pool steady, and queues only grow.
pub proof fn lemma_offer_steady(
    ps: Seq<PathState>,
    n: Seq<PathState>,
    id: u32,
    frame: Frame,
    cfg: SessionConfig,
)
    requires
        pool_offered(ps, n, id, frame, cfg),
    ensures
        steady(ps, n),
        queues_grow(ps, n),
{
    assert forall|i: int| 0 <= i < ps.len() implies (#[trigger] ps[i]).id == n[i].id && ps[i].name
        == n[i].name && ps[i].link == n[i].link && clocks(n[i].stat) == clocks(ps[i].stat)
        && ps[i].urgent@.is_prefix_of(n[i].urgent@) && ps[i].writer@.is_prefix_of(n[i].writer@) by {
        if Some(i) != index_of(ps, id) {
            assert(n[i] == ps[i]);
        }
    }
    assert forall|i: int| 0 <= i < ps.len() implies clocks((#[trigger] n[i]).stat) == clocks(
        ps[i].stat,
    ) by {
        assert(ps[i].id == n[i].id);
    }
    assert forall|i: int| 0 <= i < ps.len() implies ps[i].urgent@.is_prefix_of(
        (#[trigger] n[i]).urgent@,
    ) && ps[i].writer@.is_prefix_of(n[i].writer@) by {
        assert(ps[i].id == n[i].id);
    }
}

/// Only congestion, refusals and the queues move when a frame is offered: every clock,
/// the health and the load of every path stay.
pub proof fn law_offer_moves_no_clock(
    ps: Seq<PathState>,
    n: Seq<PathState>,
    id: u32,
    frame: Frame,
    cfg: SessionConfig,
    i: int,
)
    requires
        pool_offered(ps, n, id, frame, cfg),
        0 <= i < ps.len(),
    ensures
        n[i].id == ps[i].id,
        n[i].stat == (PathStat {
            congested: n[i].stat.congested,
            send_drops: n[i].stat.send_drops,
            ..ps[i].stat
        }),
        n[i].urgent@.len() + n[i].writer@.len() <= ps[i].urgent@.len() + ps[i].writer@.len() + 1,
{
    if Some(i) != index_of(ps, id) {
        assert(n[i] == ps[i]);
    }
}

/// Bulk never takes a slot that control and small frames ride on: whatever is
/// offered, a bulk frame leaves the urgent queue as it was.
pub proof fn law_bulk_leaves_urgent_alone(
    p: PathState,
    n: PathState,
    frame: Frame,
    cfg: SessionConfig,
)
    requires
        p.offered(n, frame, cfg),
        frame.is_data(),
        frame.payload_len() > cfg.tuning.interactive_max,
    ensures
        n.urgent@ == p.urgent@,
        n.stat.congested == p.stat.congested,
{
}

/// A frame that is taken stands last in exactly one queue, and nothing that
/// waited before is lost or moved.
pub proof fn law_queues_are_fifo(p: PathState, n: PathState, frame: Frame, cfg: SessionConfig)
    requires
        p.offered(n, frame, cfg),
    ensures
        n.urgent@.len() + n.writer@.len() == p.urgent@.len() + p.writer@.len() + if p.accepts(
            frame,
            cfg,
        ) {
            1int
        } else {
            0
        },
        n.urgent@.take(p.urgent@.len() as int) == p.urgent@,
        n.writer@.take(p.writer@.len() as int) == p.writer@,
{
    assert(n.urgent@.take(p.urgent@.len() as int) =~= p.urgent@);
    assert(n.writer@.take(p.writer@.len() as int) =~= p.writer@);
}

/// Small data and every other frame go to the urgent queue; data over the
/// interactive bound, and all data on a path that is not measured or whose
/// writer is stalled, go to the bulk queue. The frame is taken exactly where
/// the path is alive, its writer runs and that queue has a slot, and it is then
/// the last one there.
pub proof fn law_which_queue_takes_a_frame(
    p: PathState,
    n: PathState,
    frame: Frame,
    cfg: SessionConfig,
)
    requires
        p.offered(n, frame, cfg),
        p.stat.send_drops < u64::MAX,
    ensures
        ({
            let bulk = frame is StreamData && (frame.payload_len() > cfg.tuning.interactive_max
                || p.stat.rtt_us == 0 || p.stat.write_stalled);
            let here = p.stat.state != crate::path::Health::Down;
            let room = here && p.stat.writer_open && (bulk && p.writer@.len() < cfg.tuning.chan
                || !bulk && p.urgent@.len() < cfg.tuning.chan);
            &&& p.accepts(frame, cfg) <==> room
            &&& room && bulk ==> n.writer@ == p.writer@.push(frame) && n.urgent@ == p.urgent@
            &&& room && !bulk ==> n.urgent@ == p.urgent@.push(frame) && n.writer@ == p.writer@
            &&& !room ==> n.urgent@ == p.urgent@ && n.writer@ == p.writer@
            &&& !room && here ==> n.stat.send_drops == p.stat.send_drops + 1
            &&& room ==> n.stat.send_drops == p.stat.send_drops
            &&& here && !bulk ==> n.stat.congested == !room
            &&& bulk || !here ==> n.stat.congested == p.stat.congested
        }),
{
}

} // verus!
