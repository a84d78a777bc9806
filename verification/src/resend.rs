//! Re-sending pieces whose acknowledgement is late.
//!
//! Interactive pieces keep the age clock. Bulk pieces are re-sent only when
//! their *path* has been silent for a full loop, when they never reached the
//! wire, or on the slow belt: a path's per-frame ACKs prove it is delivering,
//! and a bulk ACK loop longer than the loss clock is transfer delay, not loss.

use vstd::prelude::*;

use crate::cfg::SessionConfig;
use crate::frames::{copy_bytes, Frame};
use crate::maps::{keys_of, lists_keys};
use crate::num::{above, capped, larger, max_u64, min_u64, mul_capped, smaller};
use crate::path::{
    backoff_factor, distinct_ids, doubling, get_path, index_of, late_after, late_after_bulk,
    retry_after, retry_after_bulk, stat_of, Health, PathStat, PathState,
};
use crate::pool::{
    clocks, lemma_queues_grow_trans, lemma_steady, lemma_steady_refl, lemma_steady_trans,
    lemma_transfer_steady, queues_grow, steady, transferred, xfer_inflight,
};
use crate::sched::{elsewhere, picked_again, Scheduler};
use crate::stream::{used_after, StreamCounters, StreamState, Unacked};
use crate::tried::{after_try, contains_id, copy_ids, push_tried};
use crate::wire::{goes_urgent, lemma_offer_steady, pool_offered, send_on_path};

verus! {

broadcast use vstd::laws_cmp::group_laws_cmp;

/// Why a piece is due.
#[derive(Clone, Copy, Debug, PartialEq, Eq, Structural)]
pub enum ResendWhy {
    /// It never reached a writer queue.
    Dropped,
    /// Its path left the pool.
    Gone,
    /// Its path is down.
    Down,
    /// An interactive piece is older than the loss clock.
    Age,
    /// A bulk piece on a path silent for a full loop.
    Silence,
    /// A bulk piece older than the belt while ACKs have stopped.
    Belt,
}

/// What became of a due piece.
#[derive(Clone, Copy, Debug, PartialEq, Eq, Structural)]
pub enum ResendOutcome {
    /// A long-stalled stream has tried every alive path.
    AllTried,
    /// Its path, or the one it would go to, is behind a stalled writer.
    WriteStalled,
    /// No path but its own.
    NoAlt,
    /// A belt re-send would go to a silent path.
    NotFresh,
    /// The other path's queue is full.
    QueueFull,
    Sent,
}

/// One due piece.
#[derive(Clone, Copy, Debug, PartialEq, Eq, Structural)]
pub struct Resend {
    pub offset: u64,
    /// The path that carried it so far.
    pub from: u32,
    pub why: ResendWhy,
    /// What the scheduler answered, where it was asked.
    pub alt: Option<u32>,
    pub outcome: ResendOutcome,
}

impl StreamState {
    /// The piece counts as bulk: large, or part of a bulk stream.
    pub open spec fn bulk_piece(self, u: Unacked, cfg: SessionConfig) -> bool {
        self.send.bulk || u.data@.len() > cfg.tuning.interactive_max
    }

    /// How long ago the receiver last acknowledged anything; unbounded where
    /// it never did.
    pub open spec fn ack_silence_ms(self, now_ms: int) -> int {
        let t = larger(self.send.last_ack_ms as int, self.send.last_sack_ms as int);
        if t == 0 {
            u64::MAX as int
        } else {
            above(now_ms, t)
        }
    }

    /// Stalled for longer than a half-closed stream is kept.
    pub open spec fn stalled_long(self, cfg: SessionConfig, now_ms: int) -> bool {
        &&& self.life.stalled
        &&& self.life.stall_from_ms != 0
        &&& above(now_ms, self.life.stall_from_ms as int) >= cfg.linger_ms()
    }

    /// Why a piece is due, if it is.
    pub open spec fn due(
        self,
        u: Unacked,
        ps: Seq<PathState>,
        cfg: SessionConfig,
        now: u64,
    ) -> Option<ResendWhy> {
        let age = above(now as int, u.last_sent as int);
        if now < u.retry_not_before {
            None
        } else if u.dropped {
            Some(ResendWhy::Dropped)
        } else {
            match stat_of(ps, u.path_id) {
                None => Some(ResendWhy::Gone),
                Some(p) => if !p.alive() {
                    Some(ResendWhy::Down)
                } else if !self.bulk_piece(u, cfg) {
                    if age >= late_after(ps, u.path_id, cfg) {
                        Some(ResendWhy::Age)
                    } else {
                        None
                    }
                } else {
                    let quiet = late_after_bulk(ps, u.path_id, p, cfg);
                    let belt = p.belt(cfg, u.tried@.len() as int);
                    if p.quiet_for(now) >= quiet && age >= quiet {
                        Some(ResendWhy::Silence)
                    } else if age >= belt && self.ack_silence_ms(now as int / 1000) >= belt / 1000 {
                        Some(ResendWhy::Belt)
                    } else {
                        None
                    }
                },
            }
        }
    }

    pub fn resend_due(
        &self,
        u: &Unacked,
        paths: &Vec<PathState>,
        cfg: &SessionConfig,
        now: u64,
    ) -> (r: Option<ResendWhy>)
        requires
            cfg.wf(),
            distinct_ids(paths@),
        ensures
            r == self.due(*u, paths@, *cfg, now),
    {
        if now < u.retry_not_before {
            return None;
        }
        let age: u64 = now.saturating_sub(u.last_sent);
        let bulk: bool = self.send.bulk || u.data.len() > cfg.tuning.interactive_max;
        if u.dropped {
            return Some(ResendWhy::Dropped);
        }
        match get_path(paths, u.path_id) {
            None => Some(ResendWhy::Gone),
            Some(p) => {
                if !p.is_alive() {
                    return Some(ResendWhy::Down);
                }
                if !bulk {
                    if age >= retry_after(paths, u.path_id, cfg) {
                        return Some(ResendWhy::Age);
                    }
                    return None;
                }
                let quiet: u64 = retry_after_bulk(paths, u.path_id, &p, cfg);
                let belt: u64 = p.hedge_belt(cfg, u.tried.len());
                if p.last_rx_ago(now) >= quiet && age >= quiet {
                    Some(ResendWhy::Silence)
                } else if age >= belt && self.ack_stalled_ms(now / 1000) >= belt / 1000 {
                    Some(ResendWhy::Belt)
                } else {
                    None
                }
            },
        }
    }

    pub fn ack_stalled_ms(&self, now_ms: u64) -> (r: u64)
        ensures
            r == self.ack_silence_ms(now_ms as int),
    {
        let t: u64 = max_u64(self.send.last_ack_ms, self.send.last_sack_ms);
        if t == 0 {
            u64::MAX
        } else {
            now_ms.saturating_sub(t)
        }
    }

    pub fn is_stalled_long(&self, cfg: &SessionConfig, now_ms: u64) -> (r: bool)
        ensures
            r == self.stalled_long(*cfg, now_ms as int),
    {
        self.life.stalled && self.life.stall_from_ms != 0 && now_ms.saturating_sub(
            self.life.stall_from_ms,
        ) >= cfg.close_linger / 1000
    }
}

/// A piece once it was re-sent on `to`: same bytes, same first send, new path
/// and clock, and the path's delivery clock where the path is known.
pub open spec fn rehomed(
    u: Unacked,
    n: Unacked,
    to: u32,
    dest: Option<PathStat>,
    now: u64,
) -> bool {
    &&& n.data@ == u.data@
    &&& n.path_id == to
    &&& n.last_sent == now
    &&& n.first_sent == u.first_sent
    &&& n.tried@ == after_try(u.tried@, to)
    &&& !n.dropped
    &&& match dest {
        Some(p) => {
            &&& n.delivered_at_send == p.delivered
            &&& n.delivered_time_at_send_us == p.delivered_at_us
            &&& n.sent_us == larger(now as int, 1)
            &&& n.first_tx_at_send_us == p.first_tx_us
        },
        None => {
            &&& n.delivered_at_send == u.delivered_at_send
            &&& n.delivered_time_at_send_us == u.delivered_time_at_send_us
            &&& n.sent_us == u.sent_us
            &&& n.first_tx_at_send_us == u.first_tx_at_send_us
        },
    }
}

/// Move a piece to another path: its load, its clock, its memory of paths.
pub fn rehome_unacked(u: &mut Unacked, paths: &mut Vec<PathState>, to: u32, now: u64)
    requires
        distinct_ids(old(paths)@),
    ensures
        rehomed(*old(u), *final(u), to, stat_of(old(paths)@, to), now),
        final(u).retry_not_before == now,
        final(paths)@ == transferred(
            old(paths)@,
            old(u).path_id,
            to,
            old(u).data@.len() as u64,
        ),
        distinct_ids(final(paths)@),
        steady(old(paths)@, final(paths)@),
        queues_grow(old(paths)@, final(paths)@),
{
    let ghost ps = paths@;
    let len: u64 = u.data.len() as u64;
    let _ = xfer_inflight(paths, u.path_id, to, len);
    proof {
        lemma_transfer_steady(ps, u.path_id, to, len);
        lemma_steady(ps, paths@, to);
    }
    u.path_id = to;
    u.last_sent = now;
    u.retry_not_before = now;
    u.dropped = false;
    push_tried(&mut u.tried, to);
    match get_path(paths, to) {
        Some(p) => {
            proof {
                let q = stat_of(ps, to)->0;
                assert(clocks(p).delivered == clocks(q).delivered);
                assert(clocks(p).delivered_at_us == clocks(q).delivered_at_us);
                assert(clocks(p).first_tx_us == clocks(q).first_tx_us);
            }
            u.delivered_at_send = p.delivered;
            u.delivered_time_at_send_us = p.delivered_at_us;
            u.sent_us = max_u64(now, 1);
            u.first_tx_at_send_us = p.first_tx_us;
        },
        None => {},
    }
}

// ---------------------------------------------------------------------------
// One piece
// ---------------------------------------------------------------------------
/// A STREAM_DATA of `len` bytes has a slot on this path.
pub open spec fn has_slot(p: PathState, len: nat, cfg: SessionConfig) -> bool {
    &&& p.stat.alive()
    &&& p.stat.writer_open
    &&& if p.stat.rtt_known() && !p.stat.write_stalled && len <= cfg.tuning.interactive_max {
        p.urgent@.len() < cfg.tuning.chan
    } else {
        p.writer@.len() < cfg.tuning.chan
    }
}

/// The pool has a slot for `len` bytes on path `id`.
pub open spec fn pool_has_slot(ps: Seq<PathState>, id: u32, len: nat, cfg: SessionConfig) -> bool {
    match index_of(ps, id) {
        Some(i) => has_slot(ps[i], len, cfg),
        None => false,
    }
}

/// Every alive path is one of `tried`.
pub open spec fn all_alive_tried(ps: Seq<PathState>, tried: Seq<u32>) -> bool {
    forall|i: int|
        0 <= i < ps.len() && (#[trigger] ps[i]).stat.alive() ==> tried.contains(ps[i].id)
}

/// The path is alive and its writer is stalled.
pub open spec fn stalled_alive(p: Option<PathStat>) -> bool {
    match p {
        Some(s) => s.alive() && s.write_stalled,
        None => false,
    }
}

pub open spec fn stalled(p: Option<PathStat>) -> bool {
    match p {
        Some(s) => s.write_stalled,
        None => false,
    }
}

pub open spec fn known_stale(p: Option<PathStat>) -> bool {
    match p {
        Some(s) => !s.loss_fresh,
        None => false,
    }
}

/// What becomes of a due piece, given what the scheduler answered.
pub open spec fn outcome_of(
    u: Unacked,
    why: ResendWhy,
    ps: Seq<PathState>,
    stalled_long: bool,
    alt: Option<u32>,
    cfg: SessionConfig,
) -> ResendOutcome {
    if stalled_long && all_alive_tried(ps, u.tried@) {
        ResendOutcome::AllTried
    } else if !u.dropped && stalled_alive(stat_of(ps, u.path_id)) {
        ResendOutcome::WriteStalled
    } else {
        match alt {
            None => ResendOutcome::NoAlt,
            Some(a) => if stalled(stat_of(ps, a)) {
                ResendOutcome::WriteStalled
            } else if why is Belt && known_stale(stat_of(ps, a)) {
                ResendOutcome::NotFresh
            } else if pool_has_slot(ps, a, u.data@.len(), cfg) {
                ResendOutcome::Sent
            } else {
                ResendOutcome::QueueFull
            },
        }
    }
}

/// The scheduler is asked at all.
pub open spec fn asks(u: Unacked, ps: Seq<PathState>, stalled_long: bool) -> bool {
    &&& !(stalled_long && all_alive_tried(ps, u.tried@))
    &&& u.dropped || !stalled_alive(stat_of(ps, u.path_id))
}

/// `alt` is the path named for a piece: the scheduler is asked for one that is
/// neither its own nor one it was tried on, and an answer that names its own
/// path again counts as none.
pub open spec fn alt_named<S: Scheduler>(
    sched: &S,
    ps: Seq<PathState>,
    u: Unacked,
    stalled_long: bool,
    alt: Option<u32>,
) -> bool {
    if asks(u, ps, stalled_long) {
        exists|named: Option<u32>| #[trigger]
            picked_again(sched, ps, after_try(u.tried@, u.path_id), named) && alt == elsewhere(
                named,
                u.path_id,
            )
    } else {
        alt is None
    }
}

/// How long a re-sent piece waits before it may be re-sent again: nothing for
/// an interactive piece, a doubling bulk clock otherwise.
pub open spec fn backoff(
    u: Unacked,
    alt: u32,
    bulk: bool,
    ps: Seq<PathState>,
    cfg: SessionConfig,
) -> int {
    let base = match stat_of(ps, u.path_id) {
        Some(p) => if bulk {
            late_after_bulk(ps, u.path_id, p, cfg)
        } else {
            0
        },
        None => 0,
    };
    smaller(
        capped(base * doubling(after_try(u.tried@, alt).len() as int)),
        cfg.tuning.down_timeout_ceil as int,
    )
}

/// `n` is what the piece becomes.
pub open spec fn piece_after(
    u: Unacked,
    n: Unacked,
    r: Resend,
    bulk: bool,
    ps: Seq<PathState>,
    cfg: SessionConfig,
    now: u64,
) -> bool {
    match r.outcome {
        ResendOutcome::Sent => {
            &&& rehomed(u, n, r.alt->0, stat_of(ps, r.alt->0), now)
            &&& n.retry_not_before == capped(now + backoff(u, r.alt->0, bulk, ps, cfg))
        },
        ResendOutcome::QueueFull => {
            &&& n == (Unacked {
                tried: n.tried,
                dropped: true,
                retry_not_before: capped(now + late_after(ps, u.path_id, cfg)) as u64,
                ..u
            })
            &&& n.tried@ == after_try(u.tried@, r.alt->0)
        },
        _ => n == u,
    }
}

/// `n` is what the pool becomes.
pub open spec fn pool_after(
    ps: Seq<PathState>,
    n: Seq<PathState>,
    id: u32,
    offset: u64,
    u: Unacked,
    r: Resend,
    cfg: SessionConfig,
) -> bool {
    match r.outcome {
        ResendOutcome::Sent => exists|f: Frame, mid: Seq<PathState>|
            #![trigger pool_offered(ps, mid, r.alt->0, f, cfg)]
            f.carries(id, offset, u.data@) && pool_offered(ps, mid, r.alt->0, f, cfg) && n
                == transferred(mid, u.path_id, r.alt->0, u.data@.len() as u64),
        ResendOutcome::QueueFull => exists|f: Frame|
            f.carries(id, offset, u.data@) && #[trigger] pool_offered(ps, n, r.alt->0, f, cfg),
        _ => n == ps,
    }
}

fn alive_all_in(paths: &Vec<PathState>, tried: &Vec<u32>) -> (r: bool)
    ensures
        r == all_alive_tried(paths@, tried@),
{
    let mut i: usize = 0;
    while i < paths.len()
        invariant
            i <= paths@.len(),
            forall|k: int|
                0 <= k < i && (#[trigger] paths@[k]).stat.alive() ==> tried@.contains(paths@[k].id),
        decreases paths.len() - i,
    {
        if paths[i].stat.is_alive() && !contains_id(tried, paths[i].id) {
            assert(paths@[i as int].stat.alive());
            return false;
        }
        i += 1;
    }
    true
}

/// Ask for another path. The second result says what already stops the
/// re-send.
fn choose_alt<S: Scheduler>(
    u: &Unacked,
    why: ResendWhy,
    stalled_long: bool,
    paths: &Vec<PathState>,
    cfg: &SessionConfig,
    sched: &S,
) -> (r: (Option<u32>, Option<ResendOutcome>))
    requires
        distinct_ids(paths@),
    ensures
        r.0 is Some ==> asks(*u, paths@, stalled_long),
        alt_named(sched, paths@, *u, stalled_long, r.0),
        match r.1 {
            Some(o) => {
                &&& o == outcome_of(*u, why, paths@, stalled_long, r.0, *cfg)
                &&& !(o is Sent) && !(o is QueueFull)
            },
            None => {
                &&& r.0 is Some
                &&& outcome_of(*u, why, paths@, stalled_long, r.0, *cfg) == (if pool_has_slot(
                    paths@,
                    r.0->0,
                    u.data@.len(),
                    *cfg,
                ) {
                    ResendOutcome::Sent
                } else {
                    ResendOutcome::QueueFull
                })
            },
        },
{
    if stalled_long && alive_all_in(paths, &u.tried) {
        return (None, Some(ResendOutcome::AllTried));
    }
    let from_stalled: bool = match get_path(paths, u.path_id) {
        Some(p) => p.is_alive() && p.write_stalled,
        None => false,
    };
    if !u.dropped && from_stalled {
        return (None, Some(ResendOutcome::WriteStalled));
    }
    let mut tried: Vec<u32> = copy_ids(&u.tried);
    push_tried(&mut tried, u.path_id);
    let named: Option<u32> = sched.pick_retry(paths, &tried);
    assert(picked_again(sched, paths@, after_try(u.tried@, u.path_id), named));
    let alt: u32 = match named {
        Some(a) => if a == u.path_id {
            return (None, Some(ResendOutcome::NoAlt));
        } else {
            a
        },
        None => {
            return (None, Some(ResendOutcome::NoAlt));
        },
    };
    let (dest_stalled, dest_stale): (bool, bool) = match get_path(paths, alt) {
        Some(p) => (p.write_stalled, !p.loss_fresh),
        None => (false, false),
    };
    if dest_stalled {
        return (Some(alt), Some(ResendOutcome::WriteStalled));
    }
    let belt: bool = match why {
        ResendWhy::Belt => true,
        _ => false,
    };
    if belt && dest_stale {
        return (Some(alt), Some(ResendOutcome::NotFresh));
    }
    (Some(alt), None)
}

/// Queue a copy of a piece on `alt`.
pub fn queue_copy(
    u: &Unacked,
    stream_id: u32,
    offset: u64,
    alt: u32,
    paths: &mut Vec<PathState>,
    cfg: &SessionConfig,
) -> (sent: bool)
    requires
        distinct_ids(old(paths)@),
    ensures
        sent == pool_has_slot(old(paths)@, alt, u.data@.len(), *cfg),
        exists|f: Frame|
            f.carries(stream_id, offset, u.data@) && #[trigger] pool_offered(
                old(paths)@,
                final(paths)@,
                alt,
                f,
                *cfg,
            ),
        distinct_ids(final(paths)@),
        steady(old(paths)@, final(paths)@),
        queues_grow(old(paths)@, final(paths)@),
{
    let ghost ps = paths@;
    let frame: Frame = Frame::StreamData { stream_id, offset, data: copy_bytes(&u.data) };
    let ghost f = frame;
    let sent: bool = send_on_path(paths, alt, frame, cfg);
    proof {
        assert(f.carries(stream_id, offset, u.data@));
        lemma_offer_steady(ps, paths@, alt, f, *cfg);
        match index_of(ps, alt) {
            Some(i) => {
                assert(goes_urgent(ps[i].stat, f, *cfg) == (ps[i].stat.rtt_known()
                    && !ps[i].stat.write_stalled && f.payload_len() <= cfg.tuning.interactive_max));
            },
            None => {},
        }
    }
    sent
}

/// Queue a piece on `alt` and move it there, or remember that `alt` refused.
fn resend_on(
    u: &mut Unacked,
    stream_id: u32,
    offset: u64,
    why: ResendWhy,
    alt: u32,
    bulk: bool,
    paths: &mut Vec<PathState>,
    cfg: &SessionConfig,
    now: u64,
) -> (r: Resend)
    requires
        cfg.wf(),
        distinct_ids(old(paths)@),
    ensures
        r.offset == offset,
        r.from == old(u).path_id,
        r.why == why,
        r.alt == Some(alt),
        r.outcome == (if pool_has_slot(old(paths)@, alt, old(u).data@.len(), *cfg) {
            ResendOutcome::Sent
        } else {
            ResendOutcome::QueueFull
        }),
        piece_after(*old(u), *final(u), r, bulk, old(paths)@, *cfg, now),
        pool_after(old(paths)@, final(paths)@, stream_id, offset, *old(u), r, *cfg),
        distinct_ids(final(paths)@),
        steady(old(paths)@, final(paths)@),
        queues_grow(old(paths)@, final(paths)@),
{
    let ghost ps = paths@;
    let from: u32 = u.path_id;
    let base: u64 = match get_path(paths, from) {
        Some(p) => if bulk {
            retry_after_bulk(paths, from, &p, cfg)
        } else {
            0
        },
        None => 0,
    };
    let late: u64 = retry_after(paths, from, cfg);
    let sent: bool = queue_copy(u, stream_id, offset, alt, paths, cfg);
    let ghost mid = paths@;
    if sent {
        rehome_unacked(u, paths, alt, now);
        proof {
            lemma_steady(ps, mid, alt);
            lemma_steady_trans(ps, mid, paths@);
            lemma_queues_grow_trans(ps, mid, paths@);
            if stat_of(ps, alt) is Some {
                let p = stat_of(ps, alt)->0;
                let q = stat_of(mid, alt)->0;
                assert(clocks(p).delivered == clocks(q).delivered);
                assert(clocks(p).delivered_at_us == clocks(q).delivered_at_us);
                assert(clocks(p).first_tx_us == clocks(q).first_tx_us);
            }
        }
        let factor: u64 = backoff_factor(u.tried.len());
        let wait: u64 = min_u64(mul_capped(base, factor), cfg.tuning.down_timeout_ceil);
        u.retry_not_before = now.saturating_add(wait);
        Resend { offset, from, why, alt: Some(alt), outcome: ResendOutcome::Sent }
    } else {
        push_tried(&mut u.tried, alt);
        u.dropped = true;
        u.retry_not_before = now.saturating_add(late);
        Resend { offset, from, why, alt: Some(alt), outcome: ResendOutcome::QueueFull }
    }
}

/// Try to re-send one due piece on another path.
pub fn resend_piece<S: Scheduler>(
    u: &mut Unacked,
    stream_id: u32,
    offset: u64,
    why: ResendWhy,
    bulk: bool,
    stalled_long: bool,
    paths: &mut Vec<PathState>,
    cfg: &SessionConfig,
    sched: &S,
    now: u64,
) -> (r: Resend)
    requires
        cfg.wf(),
        distinct_ids(old(paths)@),
    ensures
        r.offset == offset,
        r.from == old(u).path_id,
        r.why == why,
        r.alt is Some ==> asks(*old(u), old(paths)@, stalled_long),
        alt_named(sched, old(paths)@, *old(u), stalled_long, r.alt),
        r.outcome == outcome_of(*old(u), why, old(paths)@, stalled_long, r.alt, *cfg),
        piece_after(*old(u), *final(u), r, bulk, old(paths)@, *cfg, now),
        pool_after(old(paths)@, final(paths)@, stream_id, offset, *old(u), r, *cfg),
        distinct_ids(final(paths)@),
        steady(old(paths)@, final(paths)@),
        queues_grow(old(paths)@, final(paths)@),
{
    let (alt, stop) = choose_alt(u, why, stalled_long, paths, cfg, sched);
    match stop {
        Some(outcome) => {
            proof {
                lemma_steady_refl(paths@);
            }
            Resend { offset, from: u.path_id, why, alt, outcome }
        },
        None => {
            let to: u32 = match alt {
                Some(a) => a,
                None => 0,
            };
            resend_on(u, stream_id, offset, why, to, bulk, paths, cfg, now)
        },
    }
}

// ---------------------------------------------------------------------------
// All pieces of a stream
// ---------------------------------------------------------------------------
/// What stops a re-send, apart from a full queue.
pub open spec fn stopped_by(
    u: Unacked,
    why: ResendWhy,
    ps: Seq<PathState>,
    stalled_long: bool,
    alt: Option<u32>,
) -> Option<ResendOutcome> {
    if stalled_long && all_alive_tried(ps, u.tried@) {
        Some(ResendOutcome::AllTried)
    } else if !u.dropped && stalled_alive(stat_of(ps, u.path_id)) {
        Some(ResendOutcome::WriteStalled)
    } else {
        match alt {
            None => Some(ResendOutcome::NoAlt),
            Some(a) => if stalled(stat_of(ps, a)) {
                Some(ResendOutcome::WriteStalled)
            } else if why is Belt && known_stale(stat_of(ps, a)) {
                Some(ResendOutcome::NotFresh)
            } else {
                None
            },
        }
    }
}

/// Some queued frame of the path carries these bytes.
pub open spec fn queued_on(p: PathState, id: u32, offset: u64, bytes: Seq<u8>) -> bool {
    ||| exists|j: int|
        0 <= j < p.urgent@.len() && (#[trigger] p.urgent@[j]).carries(id, offset, bytes)
    ||| exists|j: int|
        0 <= j < p.writer@.len() && (#[trigger] p.writer@[j]).carries(id, offset, bytes)
}

/// `qs` is the pool once the pieces of `m` were re-sent in order, each on the
/// path named for it: queues and load as each piece left them.
pub open spec fn pool_after_all<S: Scheduler>(
    sched: &S,
    ps: Seq<PathState>,
    qs: Seq<PathState>,
    id: u32,
    m: Map<u64, Unacked>,
    stalled_long: bool,
    out: Seq<Resend>,
    cfg: SessionConfig,
) -> bool
    decreases out.len(),
{
    if out.len() == 0 {
        qs == ps
    } else {
        exists|mid: Seq<PathState>|
            pool_after_all(sched, ps, mid, id, m, stalled_long, out.drop_last(), cfg) && alt_named(
                sched,
                mid,
                m[out.last().offset],
                stalled_long,
                out.last().alt,
            ) && #[trigger] pool_after(
                mid,
                qs,
                id,
                out.last().offset,
                m[out.last().offset],
                out.last(),
                cfg,
            )
    }
}

/// How many of the pieces were re-sent.
pub open spec fn sent_count(out: Seq<Resend>) -> nat
    decreases out.len(),
{
    if out.len() == 0 {
        0
    } else {
        sent_count(out.drop_last()) + (if out.last().outcome is Sent {
            1nat
        } else {
            0nat
        })
    }
}

/// The paths a stream has used after these re-sends.
pub open spec fn used_after_all(used: Seq<u32>, out: Seq<Resend>) -> Seq<u32>
    decreases out.len(),
{
    if out.len() == 0 {
        used
    } else {
        let before = used_after_all(used, out.drop_last());
        if out.last().outcome is Sent {
            used_after(before, out.last().alt->0)
        } else {
            before
        }
    }
}

impl StreamState {
    /// `r` is a true account of the piece at its offset: why it was due, what
    /// became of it, and where its bytes are queued.
    pub open spec fn accounts_for(
        self,
        n: Map<u64, Unacked>,
        r: Resend,
        ps: Seq<PathState>,
        qs: Seq<PathState>,
        cfg: SessionConfig,
        now: u64,
    ) -> bool {
        let u = self.unacked@[r.offset];
        let stop = stopped_by(
            u,
            r.why,
            ps,
            self.stalled_long(cfg, now as int / 1000),
            r.alt,
        );
        &&& self.unacked@.contains_key(r.offset)
        &&& r.from == u.path_id
        &&& self.due(u, ps, cfg, now) == Some(r.why)
        &&& r.alt is Some ==> asks(u, ps, self.stalled_long(cfg, now as int / 1000))
        &&& r.alt != Some(u.path_id)
        &&& match stop {
            Some(o) => r.outcome == o,
            None => {
                ||| {
                    &&& r.outcome is Sent
                    &&& pool_has_slot(ps, r.alt->0, u.data@.len(), cfg)
                    &&& index_of(qs, r.alt->0) is Some
                    &&& queued_on(qs[index_of(qs, r.alt->0)->0], self.id, r.offset, u.data@)
                }
                ||| {
                    &&& r.outcome is QueueFull
                    &&& !pool_has_slot(qs, r.alt->0, u.data@.len(), cfg)
                }
            },
        }
        &&& n.contains_key(r.offset)
        &&& piece_after(u, n[r.offset], r, self.bulk_piece(u, cfg), ps, cfg, now)
    }

    /// Offsets of the pieces that are due, in order, and why.
    fn due_pieces(&self, paths: &Vec<PathState>, cfg: &SessionConfig, now: u64) -> (out: Vec<
        (u64, ResendWhy),
    >)
        requires
            cfg.wf(),
            distinct_ids(paths@),
        ensures
            forall|i: int, j: int| 0 <= i < j < out@.len() ==> out@[i].0 < out@[j].0,
            forall|i: int|
                0 <= i < out@.len() ==> self.unacked@.contains_key((#[trigger] out@[i]).0)
                    && self.due(self.unacked@[out@[i].0], paths@, *cfg, now) == Some(out@[i].1),
            forall|k: u64| #[trigger]
                self.unacked@.contains_key(k) && self.due(self.unacked@[k], paths@, *cfg, now) is Some
                    ==> exists|i: int| 0 <= i < out@.len() && (#[trigger] out@[i]).0 == k,
    {
        let keys: Vec<u64> = keys_of(&self.unacked);
        let mut out: Vec<(u64, ResendWhy)> = Vec::new();
        let mut i: usize = 0;
        while i < keys.len()
            invariant
                i <= keys@.len(),
                cfg.wf(),
                distinct_ids(paths@),
                lists_keys(keys@, self.unacked@),
                forall|a: int, b: int| 0 <= a < b < out@.len() ==> out@[a].0 < out@[b].0,
                forall|a: int|
                    0 <= a < out@.len() ==> self.unacked@.contains_key((#[trigger] out@[a]).0)
                        && self.due(self.unacked@[out@[a].0], paths@, *cfg, now) == Some(
                        out@[a].1,
                    ) && (i < keys@.len() ==> out@[a].0 < keys@[i as int]),
                forall|j: int|
                    0 <= j < i && self.due(
                        self.unacked@[#[trigger] keys@[j]],
                        paths@,
                        *cfg,
                        now,
                    ) is Some ==> exists|a: int|
                        0 <= a < out@.len() && (#[trigger] out@[a]).0 == keys@[j],
            decreases keys.len() - i,
        {
            let k: u64 = keys[i];
            let ghost out0 = out@;
            proof {
                assert(keys@.contains(k));
            }
            match self.unacked.get(&k) {
                Some(u) => {
                    match self.resend_due(u, paths, cfg, now) {
                        Some(why) => {
                            out.push((k, why));
                            assert(out@[out0.len() as int].0 == k);
                        },
                        None => {},
                    }
                },
                None => {
                    assert(false);
                },
            }
            proof {
                assert forall|j: int|
                    0 <= j < i + 1 && self.due(
                        self.unacked@[#[trigger] keys@[j]],
                        paths@,
                        *cfg,
                        now,
                    ) is Some implies exists|a: int|
                    0 <= a < out@.len() && (#[trigger] out@[a]).0 == keys@[j] by {
                    if j < i {
                        let a = choose|a: int| 0 <= a < out0.len() && (#[trigger] out0[a]).0 == keys@[j];
                        assert(out@[a].0 == keys@[j]);
                    } else {
                        assert(out@[out0.len() as int].0 == keys@[j]);
                    }
                }
            }
            i += 1;
        }
        proof {
            assert forall|k: u64| #[trigger]
                self.unacked@.contains_key(k) && self.due(
                    self.unacked@[k],
                    paths@,
                    *cfg,
                    now,
                ) is Some implies exists|a: int| 0 <= a < out@.len() && (#[trigger] out@[a]).0 == k by {
                assert(keys@.contains(k));
                let j = choose|j: int| 0 <= j < keys@.len() && keys@[j] == k;
                assert(self.due(self.unacked@[keys@[j]], paths@, *cfg, now) is Some);
            }
        }
        out
    }
}

// ---------------------------------------------------------------------------
// Steady pools decide alike
// ---------------------------------------------------------------------------
proof fn lemma_steady_decides(
    a: Seq<PathState>,
    b: Seq<PathState>,
    u: Unacked,
    why: ResendWhy,
    stalled_long: bool,
    alt: Option<u32>,
)
    requires
        steady(a, b),
        distinct_ids(a),
    ensures
        stopped_by(u, why, a, stalled_long, alt) == stopped_by(u, why, b, stalled_long, alt),
        asks(u, a, stalled_long) == asks(u, b, stalled_long),
{
    assert forall|i: int| 0 <= i < a.len() implies (#[trigger] a[i]).stat.alive()
        == b[i].stat.alive() && a[i].id == b[i].id by {
        assert(clocks(b[i].stat) == clocks(a[i].stat));
        assert(clocks(b[i].stat).state == b[i].stat.state);
    }
    assert(all_alive_tried(a, u.tried@) == all_alive_tried(b, u.tried@)) by {
        if all_alive_tried(a, u.tried@) {
            assert forall|i: int| 0 <= i < b.len() && (#[trigger] b[i]).stat.alive() implies u.tried@.contains(
                b[i].id,
            ) by {
                assert(a[i].stat.alive());
            }
        }
        if all_alive_tried(b, u.tried@) {
            assert forall|i: int| 0 <= i < a.len() && (#[trigger] a[i]).stat.alive() implies u.tried@.contains(
                a[i].id,
            ) by {
                assert(b[i].stat.alive());
            }
        }
    }
    lemma_steady_flags(a, b, u.path_id);
    if alt is Some {
        lemma_steady_flags(a, b, alt->0);
    }
}

proof fn lemma_steady_flags(a: Seq<PathState>, b: Seq<PathState>, id: u32)
    requires
        steady(a, b),
        distinct_ids(a),
    ensures
        stalled_alive(stat_of(a, id)) == stalled_alive(stat_of(b, id)),
        stalled(stat_of(a, id)) == stalled(stat_of(b, id)),
        known_stale(stat_of(a, id)) == known_stale(stat_of(b, id)),
{
    lemma_steady(a, b, id);
    if stat_of(a, id) is Some {
        let p = clocks(stat_of(a, id)->0);
        let q = clocks(stat_of(b, id)->0);
        assert(p.state == q.state && p.write_stalled == q.write_stalled && p.loss_fresh
            == q.loss_fresh);
    }
}

proof fn lemma_steady_late(a: Seq<PathState>, b: Seq<PathState>, id: u32, cfg: SessionConfig)
    requires
        steady(a, b),
        distinct_ids(a),
    ensures
        late_after(a, id, cfg) == late_after(b, id, cfg),
        stat_of(a, id) is Some ==> stat_of(b, id) is Some && late_after_bulk(
            a,
            id,
            stat_of(a, id)->0,
            cfg,
        ) == late_after_bulk(b, id, stat_of(b, id)->0, cfg),
        stat_of(a, id) is None ==> stat_of(b, id) is None,
{
    lemma_steady(a, b, id);
    if stat_of(a, id) is Some {
        let p = clocks(stat_of(a, id)->0);
        let q = clocks(stat_of(b, id)->0);
        assert(p.rtt_us == q.rtt_us && p.stable_rtt_us == q.stable_rtt_us && p.probe == q.probe
            && p.ack_rtt_us == q.ack_rtt_us);
    }
}

proof fn lemma_piece_after_steady(
    a: Seq<PathState>,
    b: Seq<PathState>,
    u: Unacked,
    n: Unacked,
    r: Resend,
    bulk: bool,
    cfg: SessionConfig,
    now: u64,
)
    requires
        steady(a, b),
        distinct_ids(a),
        piece_after(u, n, r, bulk, b, cfg, now),
    ensures
        piece_after(u, n, r, bulk, a, cfg, now),
{
    lemma_steady_late(a, b, u.path_id, cfg);
    if r.alt is Some {
        lemma_steady(a, b, r.alt->0);
        if stat_of(a, r.alt->0) is Some {
            let p = clocks(stat_of(a, r.alt->0)->0);
            let q = clocks(stat_of(b, r.alt->0)->0);
            assert(p.delivered == q.delivered && p.delivered_at_us == q.delivered_at_us
                && p.first_tx_us == q.first_tx_us);
        }
    } else {
        lemma_steady(a, b, r.alt->0);
        if stat_of(a, r.alt->0) is Some {
            let p = clocks(stat_of(a, r.alt->0)->0);
            let q = clocks(stat_of(b, r.alt->0)->0);
            assert(p.delivered == q.delivered && p.delivered_at_us == q.delivered_at_us
                && p.first_tx_us == q.first_tx_us);
        }
    }
}

/// A slot that is there now was there before.
pub proof fn lemma_slot_shrinks(
    a: Seq<PathState>,
    b: Seq<PathState>,
    id: u32,
    len: nat,
    cfg: SessionConfig,
)
    requires
        steady(a, b),
        queues_grow(a, b),
        distinct_ids(a),
        pool_has_slot(b, id, len, cfg),
    ensures
        pool_has_slot(a, id, len, cfg),
{
    lemma_steady(a, b, id);
    let i = index_of(a, id)->0;
    assert(0 <= i < a.len() && a[i].id == id);
    assert(a[i].urgent@.is_prefix_of(b[i].urgent@));
    let p = clocks(a[i].stat);
    let q = clocks(b[i].stat);
    assert(p.state == q.state && p.writer_open == q.writer_open && p.rtt_us == q.rtt_us
        && p.write_stalled == q.write_stalled);
}

pub proof fn lemma_queued_stays(
    a: Seq<PathState>,
    b: Seq<PathState>,
    i: int,
    id: u32,
    offset: u64,
    bytes: Seq<u8>,
)
    requires
        queues_grow(a, b),
        0 <= i < a.len(),
        queued_on(a[i], id, offset, bytes),
    ensures
        queued_on(b[i], id, offset, bytes),
{
    assert(a[i].urgent@.is_prefix_of(b[i].urgent@) && a[i].writer@.is_prefix_of(b[i].writer@));
    if exists|j: int|
        0 <= j < a[i].urgent@.len() && (#[trigger] a[i].urgent@[j]).carries(id, offset, bytes) {
        let j = choose|j: int|
            0 <= j < a[i].urgent@.len() && (#[trigger] a[i].urgent@[j]).carries(id, offset, bytes);
        assert(b[i].urgent@[j] == a[i].urgent@[j]);
    } else {
        let j = choose|j: int|
            0 <= j < a[i].writer@.len() && (#[trigger] a[i].writer@[j]).carries(id, offset, bytes);
        assert(b[i].writer@[j] == a[i].writer@[j]);
    }
}

/// A re-sent piece is queued on the path it went to.
proof fn lemma_sent_is_queued(
    ps: Seq<PathState>,
    n: Seq<PathState>,
    id: u32,
    offset: u64,
    u: Unacked,
    r: Resend,
    cfg: SessionConfig,
)
    requires
        distinct_ids(ps),
        r.outcome is Sent,
        pool_has_slot(ps, r.alt->0, u.data@.len(), cfg),
        pool_after(ps, n, id, offset, u, r, cfg),
    ensures
        index_of(n, r.alt->0) is Some,
        queued_on(n[index_of(n, r.alt->0)->0], id, offset, u.data@),
{
    let alt = r.alt->0;
    let (f, mid) = choose|f: Frame, mid: Seq<PathState>|
        #![trigger pool_offered(ps, mid, alt, f, cfg)]
        f.carries(id, offset, u.data@) && pool_offered(ps, mid, alt, f, cfg) && n == transferred(
            mid,
            u.path_id,
            alt,
            u.data@.len() as u64,
        );
    lemma_offer_steady(ps, mid, alt, f, cfg);
    lemma_steady(ps, mid, alt);
    lemma_transfer_steady(mid, u.path_id, alt, u.data@.len() as u64);
    lemma_steady(mid, n, alt);
    let i = index_of(ps, alt)->0;
    assert(0 <= i < ps.len() && ps[i].id == alt);
    assert(ps[i].accepts(f, cfg));
    if goes_urgent(ps[i].stat, f, cfg) {
        assert(mid[i].urgent@[ps[i].urgent@.len() as int] == f);
    } else {
        assert(mid[i].writer@[ps[i].writer@.len() as int] == f);
    }
    lemma_queued_stays(mid, n, i, id, offset, u.data@);
}

proof fn lemma_accounts_persist(
    st: StreamState,
    n: Map<u64, Unacked>,
    n2: Map<u64, Unacked>,
    r: Resend,
    ps: Seq<PathState>,
    qs: Seq<PathState>,
    qs2: Seq<PathState>,
    cfg: SessionConfig,
    now: u64,
)
    requires
        st.accounts_for(n, r, ps, qs, cfg, now),
        n2.contains_key(r.offset),
        n2[r.offset] == n[r.offset],
        distinct_ids(qs),
        steady(qs, qs2),
        queues_grow(qs, qs2),
    ensures
        st.accounts_for(n2, r, ps, qs2, cfg, now),
{
    let u = st.unacked@[r.offset];
    let stop = stopped_by(u, r.why, ps, st.stalled_long(cfg, now as int / 1000), r.alt);
    if stop is None {
        let alt = r.alt->0;
        lemma_steady(qs, qs2, alt);
        if r.outcome is Sent {
            let i = index_of(qs, alt)->0;
            assert(0 <= i < qs.len() && qs[i].id == alt);
            lemma_queued_stays(qs, qs2, i, st.id, r.offset, u.data@);
        } else if pool_has_slot(qs2, alt, u.data@.len(), cfg) {
            lemma_slot_shrinks(qs, qs2, alt, u.data@.len(), cfg);
        }
    }
}

impl StreamState {
    /// Re-send the due piece at one offset.
    fn resend_at<S: Scheduler>(
        &mut self,
        offset: u64,
        why: ResendWhy,
        stalled_long: bool,
        paths: &mut Vec<PathState>,
        cfg: &SessionConfig,
        sched: &S,
        now: u64,
    ) -> (r: Resend)
        requires
            cfg.wf(),
            distinct_ids(old(paths)@),
            old(self).unacked@.contains_key(offset),
        ensures
            r.offset == offset,
            r.from == old(self).unacked@[offset].path_id,
            r.why == why,
            final(self).unacked@.contains_key(offset),
            final(self).unacked@ == old(self).unacked@.insert(
                offset,
                final(self).unacked@[offset],
            ),
            ({
                let u = old(self).unacked@[offset];
                &&& r.alt is Some ==> asks(u, old(paths)@, stalled_long)
                &&& alt_named(sched, old(paths)@, u, stalled_long, r.alt)
                &&& r.outcome == outcome_of(u, why, old(paths)@, stalled_long, r.alt, *cfg)
                &&& piece_after(
                    u,
                    final(self).unacked@[offset],
                    r,
                    old(self).bulk_piece(u, *cfg),
                    old(paths)@,
                    *cfg,
                    now,
                )
                &&& pool_after(old(paths)@, final(paths)@, old(self).id, offset, u, r, *cfg)
            }),
            final(self).counters == (StreamCounters {
                hedges: if r.outcome is Sent {
                    capped(old(self).counters.hedges + 1) as u64
                } else {
                    old(self).counters.hedges
                },
                ..old(self).counters
            }),
            final(self).paths_used@ == (if r.outcome is Sent {
                used_after(old(self).paths_used@, r.alt->0)
            } else {
                old(self).paths_used@
            }),
            final(self).id == old(self).id,
            final(self).initial_window == old(self).initial_window,
            final(self).recv == old(self).recv,
            final(self).send == old(self).send,
            final(self).life == old(self).life,
            final(self).recv_buf == old(self).recv_buf,
            distinct_ids(final(paths)@),
            steady(old(paths)@, final(paths)@),
            queues_grow(old(paths)@, final(paths)@),
    {
        let ghost m = self.unacked@;
        let id: u32 = self.id;
        match self.unacked.remove(&offset) {
            Some(piece) => {
                let mut u: Unacked = piece;
                let bulk: bool = self.send.bulk || u.data.len() > cfg.tuning.interactive_max;
                let r: Resend = resend_piece(
                    &mut u,
                    id,
                    offset,
                    why,
                    bulk,
                    stalled_long,
                    paths,
                    cfg,
                    sched,
                    now,
                );
                let _ = self.unacked.insert(offset, u);
                assert(self.unacked@ =~= m.insert(offset, self.unacked@[offset]));
                match r.outcome {
                    ResendOutcome::Sent => {
                        self.counters.hedges = self.counters.hedges.saturating_add(1);
                        let alt: u32 = match r.alt {
                            Some(a) => a,
                            None => 0,
                        };
                        self.note_path_used(alt);
                    },
                    _ => {},
                }
                r
            },
            None => {
                assert(false);
                Resend { offset, from: 0, why, alt: None, outcome: ResendOutcome::NoAlt }
            },
        }
    }

    /// Late pieces: one send each on a *different* path, never in place. The
    /// result accounts for every due piece, in offset order; pieces that are
    /// not due stay as they are.
    #[verifier::rlimit(40)]
    pub fn retry_expired_unacked<S: Scheduler>(
        &mut self,
        paths: &mut Vec<PathState>,
        cfg: &SessionConfig,
        sched: &S,
        now: u64,
    ) -> (out: Vec<Resend>)
        requires
            cfg.wf(),
            distinct_ids(old(paths)@),
        ensures
            !old(self).steerable() ==> out@.len() == 0,
            old(self).steerable() ==> forall|k: u64|
                (exists|i: int| 0 <= i < out@.len() && (#[trigger] out@[i]).offset == k) <==> (
                #[trigger] old(self).unacked@.contains_key(k) && old(self).due(
                    old(self).unacked@[k],
                    old(paths)@,
                    *cfg,
                    now,
                ) is Some),
            forall|i: int, j: int| 0 <= i < j < out@.len() ==> out@[i].offset < out@[j].offset,
            forall|i: int|
                0 <= i < out@.len() ==> old(self).accounts_for(
                    final(self).unacked@,
                    #[trigger] out@[i],
                    old(paths)@,
                    final(paths)@,
                    *cfg,
                    now,
                ),
            final(self).unacked@.dom() == old(self).unacked@.dom(),
            forall|k: u64| #[trigger]
                old(self).unacked@.contains_key(k) && !(exists|i: int|
                    0 <= i < out@.len() && (#[trigger] out@[i]).offset == k)
                    ==> final(self).unacked@[k] == old(self).unacked@[k],
            final(self).counters == (StreamCounters {
                hedges: capped(old(self).counters.hedges + sent_count(out@)) as u64,
                ..old(self).counters
            }),
            final(self).paths_used@ == used_after_all(old(self).paths_used@, out@),
            pool_after_all(
                sched,
                old(paths)@,
                final(paths)@,
                old(self).id,
                old(self).unacked@,
                old(self).stalled_long(*cfg, now as int / 1000),
                out@,
                *cfg,
            ),
            final(self).id == old(self).id,
            final(self).initial_window == old(self).initial_window,
            final(self).recv == old(self).recv,
            final(self).send == old(self).send,
            final(self).life == old(self).life,
            final(self).recv_buf == old(self).recv_buf,
            distinct_ids(final(paths)@),
            steady(old(paths)@, final(paths)@),
            queues_grow(old(paths)@, final(paths)@),
    {
        let mut out: Vec<Resend> = Vec::new();
        if !self.is_steerable() {
            return out;
        }
        let ghost st0 = *self;
        let ghost ps0 = paths@;
        let stalled_long: bool = self.is_stalled_long(cfg, now / 1000);
        let due: Vec<(u64, ResendWhy)> = self.due_pieces(paths, cfg, now);
        let mut i: usize = 0;
        proof {
            lemma_steady_refl(ps0);
        }
        while i < due.len()
            invariant
                i <= due@.len(),
                out@.len() == i,
                cfg.wf(),
                distinct_ids(ps0),
                distinct_ids(paths@),
                steady(ps0, paths@),
                queues_grow(ps0, paths@),
                st0 == *old(self),
                stalled_long == st0.stalled_long(*cfg, now as int / 1000),
                forall|a: int, b: int| 0 <= a < b < due@.len() ==> due@[a].0 < due@[b].0,
                forall|a: int|
                    0 <= a < due@.len() ==> st0.unacked@.contains_key((#[trigger] due@[a]).0)
                        && st0.due(st0.unacked@[due@[a].0], ps0, *cfg, now) == Some(due@[a].1),
                forall|a: int| 0 <= a < i ==> (#[trigger] out@[a]).offset == due@[a].0,
                forall|a: int|
                    0 <= a < i ==> st0.accounts_for(
                        self.unacked@,
                        #[trigger] out@[a],
                        ps0,
                        paths@,
                        *cfg,
                        now,
                    ),
                self.unacked@.dom() == st0.unacked@.dom(),
                forall|k: u64|
                    #![trigger st0.unacked@.contains_key(k)]
                    st0.unacked@.contains_key(k) && !(exists|a: int|
                        0 <= a < i && (#[trigger] due@[a]).0 == k) ==> self.unacked@[k]
                        == st0.unacked@[k],
                self.counters == (StreamCounters {
                    hedges: capped(st0.counters.hedges + sent_count(out@)) as u64,
                    ..st0.counters
                }),
                self.paths_used@ == used_after_all(st0.paths_used@, out@),
                pool_after_all(
                    sched,
                    ps0,
                    paths@,
                    st0.id,
                    st0.unacked@,
                    stalled_long,
                    out@,
                    *cfg,
                ),
                self.id == st0.id,
                self.initial_window == st0.initial_window,
                self.recv == st0.recv,
                self.send == st0.send,
                self.life == st0.life,
                self.recv_buf == st0.recv_buf,
            decreases due.len() - i,
        {
            let offset: u64 = due[i].0;
            let why: ResendWhy = due[i].1;
            let ghost n1 = self.unacked@;
            let ghost ps1 = paths@;
            let ghost out1 = out@;
            proof {
                assert(st0.unacked@.contains_key(due@[i as int].0));
                assert(self.unacked@.dom().contains(offset));
                assert(n1[offset] == st0.unacked@[offset]) by {
                    if exists|a: int| 0 <= a < i && (#[trigger] due@[a]).0 == offset {
                        let a = choose|a: int| 0 <= a < i && (#[trigger] due@[a]).0 == offset;
                        assert(due@[a].0 < due@[i as int].0);
                    }
                }
            }
            let r: Resend = self.resend_at(offset, why, stalled_long, paths, cfg, sched, now);
            proof {
                let u = st0.unacked@[offset];
                let bulk = st0.bulk_piece(u, *cfg);
                lemma_steady_decides(ps0, ps1, u, why, stalled_long, r.alt);
                lemma_piece_after_steady(
                    ps0,
                    ps1,
                    u,
                    self.unacked@[offset],
                    r,
                    bulk,
                    *cfg,
                    now,
                );
                if stopped_by(u, why, ps1, stalled_long, r.alt) is None {
                    if r.outcome is Sent {
                        lemma_slot_shrinks(ps0, ps1, r.alt->0, u.data@.len(), *cfg);
                        lemma_sent_is_queued(ps1, paths@, st0.id, offset, u, r, *cfg);
                    } else if pool_has_slot(paths@, r.alt->0, u.data@.len(), *cfg) {
                        lemma_slot_shrinks(ps1, paths@, r.alt->0, u.data@.len(), *cfg);
                    }
                }
                assert(st0.accounts_for(self.unacked@, r, ps0, paths@, *cfg, now));
                lemma_steady_trans(ps0, ps1, paths@);
                lemma_queues_grow_trans(ps0, ps1, paths@);
            }
            out.push(r);
            proof {
                assert(out@.drop_last() =~= out1);
                assert(pool_after(
                    ps1,
                    paths@,
                    st0.id,
                    out@.last().offset,
                    st0.unacked@[out@.last().offset],
                    out@.last(),
                    *cfg,
                ));
                assert(alt_named(sched, ps1, st0.unacked@[out@.last().offset], stalled_long, out@.last().alt));
                assert(pool_after_all(
                    sched,
                    ps0,
                    paths@,
                    st0.id,
                    st0.unacked@,
                    stalled_long,
                    out@,
                    *cfg,
                ));
                assert forall|a: int| 0 <= a < i + 1 implies st0.accounts_for(
                    self.unacked@,
                    #[trigger] out@[a],
                    ps0,
                    paths@,
                    *cfg,
                    now,
                ) by {
                    if a < i {
                        assert(out@[a] == out1[a]);
                        assert(out1[a].offset == due@[a].0);
                        assert(due@[a].0 < due@[i as int].0);
                        lemma_accounts_persist(
                            st0,
                            n1,
                            self.unacked@,
                            out1[a],
                            ps0,
                            ps1,
                            paths@,
                            *cfg,
                            now,
                        );
                    }
                }
                assert(self.unacked@.dom() =~= st0.unacked@.dom());
                assert forall|k: u64|
                    #![trigger st0.unacked@.contains_key(k)]
                    st0.unacked@.contains_key(k) && !(exists|a: int|
                        0 <= a < i + 1 && (#[trigger] due@[a]).0 == k) implies self.unacked@[k]
                    == st0.unacked@[k] by {
                    assert(due@[i as int].0 != k);
                    assert(!(exists|a: int| 0 <= a < i && (#[trigger] due@[a]).0 == k));
                    assert(n1[k] == st0.unacked@[k]);
                }
            }
            i += 1;
        }
        proof {
            assert forall|k: u64|
                (exists|i: int| 0 <= i < out@.len() && (#[trigger] out@[i]).offset == k) <==> (
                #[trigger] st0.unacked@.contains_key(k) && st0.due(
                    st0.unacked@[k],
                    ps0,
                    *cfg,
                    now,
                ) is Some) by {
                if exists|i: int| 0 <= i < out@.len() && (#[trigger] out@[i]).offset == k {
                    let a = choose|a: int| 0 <= a < out@.len() && (#[trigger] out@[a]).offset == k;
                    assert(due@[a].0 == k);
                }
                if st0.unacked@.contains_key(k) && st0.due(st0.unacked@[k], ps0, *cfg, now) is Some {
                    let a = choose|a: int| 0 <= a < due@.len() && (#[trigger] due@[a]).0 == k;
                    assert(out@[a].offset == k);
                }
            }
            assert forall|k: u64| #[trigger]
                st0.unacked@.contains_key(k) && !(exists|i: int|
                    0 <= i < out@.len() && (#[trigger] out@[i]).offset == k) implies self.unacked@[k]
                == st0.unacked@[k] by {
                if exists|a: int| 0 <= a < i && (#[trigger] due@[a]).0 == k {
                    let a = choose|a: int| 0 <= a < i && (#[trigger] due@[a]).0 == k;
                    assert(out@[a].offset == k);
                }
            }
        }
        out
    }
}

// ---------------------------------------------------------------------------
// Laws
// ---------------------------------------------------------------------------
/// A piece that was re-sent or found no slot is left alone until its wait is
/// over, whatever its path does meanwhile.
pub proof fn law_backoff_holds_a_piece(
    st: StreamState,
    u: Unacked,
    ps: Seq<PathState>,
    cfg: SessionConfig,
    now: u64,
)
    requires
        now < u.retry_not_before,
    ensures
        st.due(u, ps, cfg, now) is None,
{
}

/// A piece that its path dropped, or whose path is down or gone, is due at
/// once, whatever its age.
pub proof fn law_lost_paths_make_pieces_due(
    st: StreamState,
    u: Unacked,
    ps: Seq<PathState>,
    cfg: SessionConfig,
    now: u64,
)
    requires
        now >= u.retry_not_before,
        u.dropped || match stat_of(ps, u.path_id) {
            Some(p) => !p.alive(),
            None => true,
        },
    ensures
        st.due(u, ps, cfg, now) is Some,
{
}

/// A bulk piece on a live path that was heard of lately is not sent twice
/// while the receiver keeps acknowledging.
pub proof fn law_fresh_bulk_is_not_hedged(
    st: StreamState,
    u: Unacked,
    ps: Seq<PathState>,
    p: PathStat,
    cfg: SessionConfig,
    now: u64,
)
    requires
        !u.dropped,
        stat_of(ps, u.path_id) == Some(p),
        p.alive(),
        st.bulk_piece(u, cfg),
        p.quiet_for(now) < late_after_bulk(ps, u.path_id, p, cfg),
        st.ack_silence_ms(now as int / 1000) < p.belt(cfg, u.tried@.len() as int) / 1000,
    ensures
        st.due(u, ps, cfg, now) is None,
{
}

/// A piece that waits for a stalled but living writer stays where it is.
pub proof fn law_stalled_writers_keep_their_pieces(
    u: Unacked,
    n: Unacked,
    r: Resend,
    bulk: bool,
    ps: Seq<PathState>,
    stalled_long: bool,
    cfg: SessionConfig,
    now: u64,
)
    requires
        !u.dropped,
        stalled_alive(stat_of(ps, u.path_id)),
        r.outcome == outcome_of(u, r.why, ps, stalled_long, r.alt, cfg),
        piece_after(u, n, r, bulk, ps, cfg, now),
    ensures
        n == u,
{
}

/// A late piece is never sent in place: the one send it gets is on another
/// path than the one it was on.
pub proof fn law_never_in_place(
    st: StreamState,
    n: Map<u64, Unacked>,
    r: Resend,
    ps: Seq<PathState>,
    qs: Seq<PathState>,
    cfg: SessionConfig,
    now: u64,
)
    requires
        st.accounts_for(n, r, ps, qs, cfg, now),
    ensures
        r.alt != Some(st.unacked@[r.offset].path_id),
        r.outcome is Sent ==> n[r.offset].path_id == r.alt->0 && n[r.offset].path_id
            != st.unacked@[r.offset].path_id && !n[r.offset].dropped,
        !(r.outcome is Sent) ==> n[r.offset].path_id == st.unacked@[r.offset].path_id,
{
}

/// Whatever becomes of a piece, its bytes and its first send do not change.
pub proof fn law_resend_keeps_the_bytes(
    u: Unacked,
    n: Unacked,
    r: Resend,
    bulk: bool,
    ps: Seq<PathState>,
    cfg: SessionConfig,
    now: u64,
)
    requires
        piece_after(u, n, r, bulk, ps, cfg, now),
    ensures
        n.data@ == u.data@,
        n.first_sent == u.first_sent,
{
}

/// A bulk piece on a live path with a loaded ACK loop is left alone while the
/// path was heard of within two loops, or the piece is younger than that, as
/// long as its belt has not run out; and it is due for silence once both are
/// past. Two loops lie here between the pool's loss clock and the path's down
/// timeout.
pub proof fn law_bulk_is_due_after_two_silent_loops(
    st: StreamState,
    u: Unacked,
    ps: Seq<PathState>,
    i: int,
    a: u64,
    cfg: SessionConfig,
    now: u64,
)
    requires
        distinct_ids(ps),
        0 <= i < ps.len(),
        ps[i].id == u.path_id,
        ps[i].stat.state != Health::Down,
        ps[i].stat.ack_rtt_us == Some(a),
        late_after(ps, u.path_id, cfg) <= 2 * a <= ps[i].stat.stable_down(cfg),
        2 * a <= u64::MAX,
        !u.dropped,
        st.send.bulk || u.data@.len() > cfg.tuning.interactive_max,
        now >= u.retry_not_before,
        now >= u.last_sent,
        now >= ps[i].stat.last_rx,
    ensures
        ({
            let heard = now - ps[i].stat.last_rx < 2 * a;
            let young = now - u.last_sent < 2 * a;
            let belt = ps[i].stat.belt(cfg, u.tried@.len() as int);
            &&& !heard && !young ==> st.due(u, ps, cfg, now) == Some(ResendWhy::Silence)
            &&& (heard || young) && now - u.last_sent < belt ==> st.due(u, ps, cfg, now) is None
            &&& (heard || young) && 0 < st.send.last_ack_ms <= now / 1000 && now / 1000
                - st.send.last_ack_ms < belt / 1000 ==> st.due(u, ps, cfg, now) is None
        }),
{
    assert(index_of(ps, u.path_id) == Some(i));
    crate::path::law_bulk_waits_two_loops(ps, u.path_id, ps[i].stat, cfg);
}

/// A small piece of an interactive stream is due exactly at the age of the
/// pool's loss clock, whatever was heard of its path.
pub proof fn law_small_pieces_go_by_age(
    st: StreamState,
    u: Unacked,
    ps: Seq<PathState>,
    i: int,
    cfg: SessionConfig,
    now: u64,
)
    requires
        distinct_ids(ps),
        0 <= i < ps.len(),
        ps[i].id == u.path_id,
        ps[i].stat.state != Health::Down,
        !u.dropped,
        !st.send.bulk,
        u.data@.len() <= cfg.tuning.interactive_max,
        now >= u.retry_not_before,
        now >= u.last_sent,
    ensures
        st.due(u, ps, cfg, now) == if now - u.last_sent >= late_after(ps, u.path_id, cfg) {
            Some(ResendWhy::Age)
        } else {
            None
        },
{
}

/// Why a piece is due says what befell it.
pub proof fn law_reasons_are_what_happened(
    st: StreamState,
    u: Unacked,
    ps: Seq<PathState>,
    cfg: SessionConfig,
    now: u64,
)
    requires
        distinct_ids(ps),
    ensures
        ({
            let here = exists|i: int| 0 <= i < ps.len() && #[trigger] ps[i].id == u.path_id;
            let living = exists|i: int|
                0 <= i < ps.len() && #[trigger] ps[i].id == u.path_id && ps[i].stat.state
                    != Health::Down;
            match st.due(u, ps, cfg, now) {
                None => now < u.retry_not_before || (!u.dropped && living),
                Some(ResendWhy::Dropped) => u.dropped,
                Some(ResendWhy::Gone) => !u.dropped && !here,
                Some(ResendWhy::Down) => !u.dropped && here && !living,
                Some(ResendWhy::Age) => !u.dropped && living && !st.send.bulk && u.data@.len()
                    <= cfg.tuning.interactive_max,
                Some(_) => !u.dropped && living && (st.send.bulk || u.data@.len()
                    > cfg.tuning.interactive_max),
            }
        }),
{
    if index_of(ps, u.path_id) is Some {
        let i = index_of(ps, u.path_id)->0;
        assert(ps[i].id == u.path_id);
    }
}

/// A due piece is sent exactly where another path is named for it that has a
/// slot and whose writer runs, unless its own writer is stalled, every living
/// path was tried in a long stall, or a belt asks for a path heard of lately.
pub proof fn law_what_becomes_of_a_due_piece(
    u: Unacked,
    why: ResendWhy,
    ps: Seq<PathState>,
    stalled_long: bool,
    alt: Option<u32>,
    cfg: SessionConfig,
    i: int,
)
    requires
        distinct_ids(ps),
        alt is Some,
        0 <= i < ps.len(),
        ps[i].id == alt->0,
        !(stalled_long && forall|k: int|
            0 <= k < ps.len() && (#[trigger] ps[k]).stat.state != Health::Down
                ==> u.tried@.contains(ps[k].id)),
        u.dropped || forall|k: int|
            0 <= k < ps.len() && (#[trigger] ps[k]).id == u.path_id ==> ps[k].stat.state
                == Health::Down || !ps[k].stat.write_stalled,
    ensures
        ({
            let p = ps[i];
            let urgent = p.stat.rtt_us > 0 && !p.stat.write_stalled && u.data@.len()
                <= cfg.tuning.interactive_max;
            let room = p.stat.state != Health::Down && p.stat.writer_open && if urgent {
                p.urgent@.len() < cfg.tuning.chan
            } else {
                p.writer@.len() < cfg.tuning.chan
            };
            let out = outcome_of(u, why, ps, stalled_long, alt, cfg);
            if p.stat.write_stalled {
                out is WriteStalled
            } else if why is Belt && !p.stat.loss_fresh {
                out is NotFresh
            } else if room {
                out is Sent
            } else {
                out is QueueFull
            }
        }),
{
    assert(index_of(ps, alt->0) == Some(i));
    assert(all_alive_tried(ps, u.tried@) <==> forall|k: int|
        0 <= k < ps.len() && (#[trigger] ps[k]).stat.state != Health::Down ==> u.tried@.contains(
            ps[k].id,
        ));
    if index_of(ps, u.path_id) is Some {
        let k = index_of(ps, u.path_id)->0;
        assert(ps[k].id == u.path_id);
    }
}

/// A bulk piece that was sent again waits twice as long with each further path
/// tried, an interactive one not at all; both at most for the down ceiling.
pub proof fn law_waits_double(
    u: Unacked,
    n: Unacked,
    r: Resend,
    bulk: bool,
    ps: Seq<PathState>,
    i: int,
    cfg: SessionConfig,
    now: u64,
)
    requires
        distinct_ids(ps),
        0 <= i < ps.len(),
        ps[i].id == u.path_id,
        r.outcome is Sent,
        piece_after(u, n, r, bulk, ps, cfg, now),
        0 <= late_after_bulk(ps, u.path_id, ps[i].stat, cfg) <= 0xffff_ffff_ffff,
        now + cfg.tuning.down_timeout_ceil <= u64::MAX,
    ensures
        ({
            let clock = late_after_bulk(ps, u.path_id, ps[i].stat, cfg);
            let tries = after_try(u.tried@, r.alt->0).len();
            let wait = n.retry_not_before - now;
            &&& 0 <= wait <= cfg.tuning.down_timeout_ceil
            &&& !bulk ==> wait == 0
            &&& bulk && tries == 2 && 2 * clock <= cfg.tuning.down_timeout_ceil ==> wait == 2 * clock
            &&& bulk && tries == 3 && 4 * clock <= cfg.tuning.down_timeout_ceil ==> wait == 4 * clock
            &&& bulk && tries == 4 && 8 * clock <= cfg.tuning.down_timeout_ceil ==> wait == 8 * clock
        }),
{
    assert(index_of(ps, u.path_id) == Some(i));
}

} // verus!
