//! Windowed send: pieces, acknowledgements, and what an ACK tells of a path.

use vstd::prelude::*;

use crate::cfg::SessionConfig;
use crate::maps::{keys_of, lists_keys};
use crate::num::{above, capped, larger, max_u64, smaller};
use crate::path::PathStat;
use crate::recv::StreamAck;
use crate::stream::{SendState, StreamCounters, StreamState, Unacked};

verus! {

broadcast use vstd::laws_cmp::group_laws_cmp;

// ---------------------------------------------------------------------------
// Acknowledgement
// ---------------------------------------------------------------------------
/// The cumulative offset covers the whole piece.
pub open spec fn cum_covers(off: u64, len: nat, acked: u64) -> bool {
    off + len <= acked
}

/// One selective range covers the whole piece.
pub open spec fn sack_covers(off: u64, len: nat, sack: Seq<(u64, u64)>) -> bool {
    exists|i: int| 0 <= i < sack.len() && (#[trigger] sack[i]).0 <= off && off + len <= sack[i].1
}

/// Every piece ends at an offset that can be counted.
pub open spec fn pieces_fit(m: Map<u64, Unacked>) -> bool {
    forall|k: u64| #[trigger] m.contains_key(k) ==> k + m[k].data@.len() <= u64::MAX
}

/// `out` lists, in offset order, exactly the pieces of `m` for which `gone`
/// holds.
pub open spec fn lists_gone(
    m: Map<u64, Unacked>,
    out: Seq<(u64, Unacked)>,
    gone: spec_fn(u64, Unacked) -> bool,
) -> bool {
    &&& forall|i: int, j: int| 0 <= i < j < out.len() ==> out[i].0 < out[j].0
    &&& forall|i: int|
        0 <= i < out.len() ==> m.contains_key((#[trigger] out[i]).0) && m[out[i].0] == out[i].1
            && gone(out[i].0, out[i].1)
    &&& forall|k: u64| #[trigger]
        m.contains_key(k) && gone(k, m[k]) ==> exists|i: int|
            0 <= i < out.len() && (#[trigger] out[i]).0 == k
}

/// `left` is `m` without the pieces for which `gone` holds.
pub open spec fn leaves(
    m: Map<u64, Unacked>,
    left: Map<u64, Unacked>,
    gone: spec_fn(u64, Unacked) -> bool,
) -> bool {
    &&& forall|k: u64| #[trigger]
        left.contains_key(k) ==> m.contains_key(k) && left[k] == m[k] && !gone(k, m[k])
    &&& forall|k: u64| #[trigger] m.contains_key(k) && !gone(k, m[k]) ==> left.contains_key(k)
}

/// What an ACK released: pieces below the cumulative offset, then pieces the
/// receiver holds behind a hole.
pub struct AckOutcome {
    pub cum: Vec<(u64, Unacked)>,
    pub sacked: Vec<(u64, Unacked)>,
}

fn in_sack(off: u64, end: u64, sack: &Vec<(u64, u64)>) -> (r: bool)
    requires
        off <= end,
    ensures
        r == sack_covers(off, (end - off) as nat, sack@),
{
    let mut i: usize = 0;
    while i < sack.len()
        invariant
            i <= sack@.len(),
            off <= end,
            forall|k: int| 0 <= k < i ==> !((#[trigger] sack@[k]).0 <= off && end <= sack@[k].1),
        decreases sack.len() - i,
    {
        if sack[i].0 <= off && end <= sack[i].1 {
            proof {
                let k = i as int;
                assert(sack@[k].0 <= off && off + (end - off) as nat <= sack@[k].1);
            }
            return true;
        }
        i += 1;
    }
    false
}

/// One way an ACK covers pieces.
pub enum Covering {
    Cum(u64),
    Sack(Vec<(u64, u64)>),
}

impl Covering {
    pub open spec fn covers(self, off: u64, len: nat) -> bool {
        match self {
            Covering::Cum(acked) => cum_covers(off, len, acked),
            Covering::Sack(sack) => sack_covers(off, len, sack@),
        }
    }

    pub open spec fn gone(self) -> spec_fn(u64, Unacked) -> bool {
        |k: u64, u: Unacked| self.covers(k, u.data@.len())
    }

    fn covers_piece(&self, off: u64, len: usize) -> (r: bool)
        requires
            off + len <= u64::MAX,
        ensures
            r == self.covers(off, len as nat),
    {
        let end: u64 = off + len as u64;
        match self {
            Covering::Cum(acked) => end <= *acked,
            Covering::Sack(sack) => in_sack(off, end, sack),
        }
    }
}

impl StreamState {
    pub open spec fn send_wf(self) -> bool {
        &&& pieces_fit(self.unacked@)
        &&& forall|k: u64| #[trigger]
            self.unacked@.contains_key(k) ==> k + self.unacked@[k].data@.len()
                <= self.counters.send_next
    }

    /// Everything but the send side, the counters and the unacked pieces is
    /// as in `o`.
    pub open spec fn same_but_send(self, o: Self) -> bool {
        &&& self.id == o.id
        &&& self.initial_window == o.initial_window
        &&& self.recv == o.recv
        &&& self.life == o.life
        &&& self.paths_used == o.paths_used
        &&& self.recv_buf == o.recv_buf
    }

    /// Take out the pieces that `by` acknowledges.
    fn release(&mut self, by: &Covering) -> (out: Vec<(u64, Unacked)>)
        requires
            old(self).send_wf(),
        ensures
            final(self).send_wf(),
            lists_gone(old(self).unacked@, out@, by.gone()),
            leaves(old(self).unacked@, final(self).unacked@, by.gone()),
            final(self).counters == old(self).counters,
            final(self).send == old(self).send,
            final(self).same_but_send(*old(self)),
    {
        let keys: Vec<u64> = keys_of(&self.unacked);
        let mut out: Vec<(u64, Unacked)> = Vec::new();
        let ghost m = self.unacked@;
        proof {
            assert forall|j: int| 0 <= j < keys@.len() implies m.contains_key(#[trigger] keys@[j]) by {
                assert(keys@.contains(keys@[j]));
            }
        }
        let mut i: usize = 0;
        while i < keys.len()
            invariant
                i <= keys@.len(),
                lists_keys(keys@, m),
                m == old(self).unacked@,
                old(self).send_wf(),
                forall|k: u64| #[trigger]
                    self.unacked@.contains_key(k) ==> m.contains_key(k) && self.unacked@[k] == m[k],
                forall|j: int|
                    i <= j < keys@.len() ==> self.unacked@.contains_key(#[trigger] keys@[j]),
                forall|j: int|
                    0 <= j < i ==> (self.unacked@.contains_key(#[trigger] keys@[j]) <==> !by.covers(keys@[j], m[keys@[j]].data@.len())),
                forall|a: int, b: int| 0 <= a < b < out@.len() ==> out@[a].0 < out@[b].0,
                forall|a: int|
                    0 <= a < out@.len() ==> m.contains_key((#[trigger] out@[a]).0)
                        && m[out@[a].0] == out@[a].1 && by.covers(out@[a].0, out@[a].1.data@.len()) && (i < keys@.len() ==> out@[a].0 < keys@[i as int]),
                forall|j: int|
                    0 <= j < i && by.covers(#[trigger] keys@[j], m[keys@[j]].data@.len())
                        ==> exists|a: int| 0 <= a < out@.len() && (#[trigger] out@[a]).0 == keys@[j],
                self.counters == old(self).counters,
                self.send == old(self).send,
                self.same_but_send(*old(self)),
            decreases keys.len() - i,
        {
            let k: u64 = keys[i];
            proof {
                assert(keys@.contains(k));
                assert(self.unacked@.contains_key(keys@[i as int]));
            }
            let covered: bool = match self.unacked.get(&k) {
                Some(u) => {
                    assert(*u == m[k]);
                    by.covers_piece(k, u.data.len())
                },
                None => {
                    assert(false);
                    false
                },
            };
            let ghost out0 = out@;
            if covered {
                match self.unacked.remove(&k) {
                    Some(u) => {
                        out.push((k, u));
                        assert(out@[out0.len() as int].0 == k);
                    },
                    None => {
                        assert(false);
                    },
                }
            }
            proof {
                assert forall|j: int|
                    0 <= j < i + 1 && by.covers(#[trigger] keys@[j], m[keys@[j]].data@.len()) implies exists|a: int|
                    0 <= a < out@.len() && (#[trigger] out@[a]).0 == keys@[j] by {
                    if j < i {
                        let a = choose|a: int| 0 <= a < out0.len() && (#[trigger] out0[a]).0 == keys@[j];
                        assert(out@[a].0 == keys@[j]);
                    } else {
                        assert(out@[out0.len() as int].0 == keys@[j]);
                    }
                }
            }
            i += 1;
        }
        proof {
            let gone = by.gone();
            let left = self.unacked@;
            assert forall|k: u64| #[trigger] left.contains_key(k) implies m.contains_key(k)
                && left[k] == m[k] && !gone(k, m[k]) by {
                assert(keys@.contains(k));
                let j = choose|j: int| 0 <= j < keys@.len() && keys@[j] == k;
                assert(left.contains_key(keys@[j]));
            }
            assert forall|k: u64| #[trigger] m.contains_key(k) && gone(k, m[k]) implies exists|a: int|
                0 <= a < out@.len() && (#[trigger] out@[a]).0 == k by {
                assert(keys@.contains(k));
                let j = choose|j: int| 0 <= j < keys@.len() && keys@[j] == k;
                assert(by.covers(keys@[j], m[keys@[j]].data@.len()));
            }
            assert forall|k: u64| #[trigger] m.contains_key(k) && !gone(k, m[k]) implies left.contains_key(
                k,
            ) by {
                assert(keys@.contains(k));
                let j = choose|j: int| 0 <= j < keys@.len() && keys@[j] == k;
                assert(!by.covers(keys@[j], m[keys@[j]].data@.len()));
                assert(left.contains_key(keys@[j]));
            }
        }
        out
    }
}

impl StreamState {
    /// The ACK moves the cumulative offset.
    pub open spec fn advances(self, acked_offset: u64) -> bool {
        acked_offset > self.send.send_acked
    }

    /// Pieces an ACK releases by its cumulative offset.
    pub open spec fn by_cum(self, acked_offset: u64) -> spec_fn(u64, Unacked) -> bool {
        |k: u64, u: Unacked|
            self.advances(acked_offset) && cum_covers(k, u.data@.len(), acked_offset)
    }

    /// Pieces an ACK releases by its ranges alone.
    pub open spec fn by_sack(self, acked_offset: u64, sack: Seq<(u64, u64)>) -> spec_fn(
        u64,
        Unacked,
    ) -> bool {
        |k: u64, u: Unacked|
            sack_covers(k, u.data@.len(), sack) && !(self.advances(acked_offset) && cum_covers(
                k,
                u.data@.len(),
                acked_offset,
            ))
    }

    /// Pieces an ACK releases.
    pub open spec fn by_ack(self, acked_offset: u64, sack: Seq<(u64, u64)>) -> spec_fn(
        u64,
        Unacked,
    ) -> bool {
        |k: u64, u: Unacked|
            sack_covers(k, u.data@.len(), sack) || (self.advances(acked_offset) && cum_covers(
                k,
                u.data@.len(),
                acked_offset,
            ))
    }

    /// Take an acknowledgement: the peer's window, the cumulative offset, and
    /// the pieces it holds behind a hole. Delivered pieces leave; a piece
    /// that is only partly covered stays.
    pub fn on_ack(&mut self, ack: StreamAck, now_ms: u64) -> (out: AckOutcome)
        requires
            old(self).send_wf(),
        ensures
            final(self).send_wf(),
            lists_gone(old(self).unacked@, out.cum@, old(self).by_cum(ack.acked_offset)),
            lists_gone(
                old(self).unacked@,
                out.sacked@,
                old(self).by_sack(ack.acked_offset, ack.sack@),
            ),
            leaves(
                old(self).unacked@,
                final(self).unacked@,
                old(self).by_ack(ack.acked_offset, ack.sack@),
            ),
            final(self).counters == (StreamCounters {
                send_window: ack.window,
                ..old(self).counters
            }),
            final(self).send == (SendState {
                send_acked: larger(
                    old(self).send.send_acked as int,
                    ack.acked_offset as int,
                ) as u64,
                last_ack_ms: if old(self).advances(ack.acked_offset) {
                    larger(now_ms as int, 1) as u64
                } else {
                    old(self).send.last_ack_ms
                },
                sacked: capped(old(self).send.sacked + out.sacked@.len()) as u64,
                last_sack_ms: if out.sacked@.len() > 0 {
                    larger(now_ms as int, 1) as u64
                } else {
                    old(self).send.last_sack_ms
                },
                ..old(self).send
            }),
            final(self).same_but_send(*old(self)),
    {
        let ghost m = self.unacked@;
        let ghost acked = ack.acked_offset;
        let ghost sack = ack.sack@;
        let ghost o = *self;
        self.counters.send_window = ack.window;
        let mut cum: Vec<(u64, Unacked)> = Vec::new();
        if ack.acked_offset > self.send.send_acked {
            self.send.send_acked = ack.acked_offset;
            self.send.last_ack_ms = max_u64(now_ms, 1);
            cum = self.release(&Covering::Cum(ack.acked_offset));
        }
        let ghost mid = self.unacked@;
        let by: Covering = Covering::Sack(ack.sack);
        let sacked: Vec<(u64, Unacked)> = self.release(&by);
        if sacked.len() > 0 {
            self.send.last_sack_ms = max_u64(now_ms, 1);
            self.send.sacked = self.send.sacked.saturating_add(sacked.len() as u64);
        }
        proof {
            let cumf = o.by_cum(acked);
            let sackf = o.by_sack(acked, sack);
            assert(leaves(m, mid, cumf));
            assert(lists_gone(m, cum@, cumf));
            assert forall|k: u64| #[trigger] m.contains_key(k) && sackf(k, m[k]) implies exists|i: int|
                0 <= i < sacked@.len() && (#[trigger] sacked@[i]).0 == k by {
                assert(mid.contains_key(k));
                assert(by.gone()(k, mid[k]));
            }
            assert forall|i: int| 0 <= i < sacked@.len() implies m.contains_key(
                (#[trigger] sacked@[i]).0,
            ) && m[sacked@[i].0] == sacked@[i].1 && sackf(sacked@[i].0, sacked@[i].1) by {
                assert(mid.contains_key(sacked@[i].0));
            }
        }
        AckOutcome { cum, sacked }
    }
}

// ---------------------------------------------------------------------------
// What an acknowledged piece tells of its path
// ---------------------------------------------------------------------------
/// Samples that one acknowledged piece yields for the path that carried it.
#[derive(Clone, Copy, Debug, PartialEq, Eq, Structural)]
pub struct PieceSamples {
    /// Delivery rate, bytes per second.
    pub bandwidth: Option<u64>,
    /// ACK loop of an un-hedged piece.
    pub loop_rtt: Option<u64>,
    /// ACK loop of an un-hedged bulk piece.
    pub ack_rtt: Option<u64>,
    /// ACK loop of any bulk piece, for the histogram.
    pub ack_loop_ms: Option<u64>,
    /// A sample that counts as path RTT.
    pub rtt: Option<u64>,
}

/// Interval of the rate sample: the longer of the send-side and the ACK-side
/// clock, so that a burst of coalesced ACKs is not a rate.
pub open spec fn sample_interval(u: Unacked, sample: int, now_us: int) -> int {
    larger(
        if u.delivered_time_at_send_us == 0 {
            sample
        } else {
            above(now_us, u.delivered_time_at_send_us as int)
        },
        above(u.sent_us as int, u.first_tx_at_send_us as int),
    )
}

/// Delivery rate sampled by an acknowledged piece: only from un-hedged
/// pieces, over at least a quarter of the path's smallest RTT.
pub open spec fn bandwidth_sample(
    u: Unacked,
    p: PathStat,
    cfg: SessionConfig,
    sample: int,
    now_us: int,
) -> Option<u64> {
    let dd = above(capped(p.delivered + u.data@.len()), u.delivered_at_send as int);
    let dt = sample_interval(u, sample, now_us);
    let min_rtt = match p.min_rtt_us {
        Some(d) => d,
        None => cfg.tuning.unknown_rtt_us,
    };
    if u.tried@.len() == 1 && dd > 0 && dt >= min_rtt as int / 4 && dt > 0 {
        Some(capped(dd * 1_000_000 / dt) as u64)
    } else {
        None
    }
}

/// A sample counts as path RTT: small frame, within bounds and the path's own
/// cap, not luckily low against its class, and not waiting behind bulk.
pub open spec fn counts_as_rtt(u: Unacked, p: PathStat, cfg: SessionConfig, sample: int) -> bool {
    &&& u.data@.len() <= cfg.tuning.interactive_max
    &&& cfg.tuning.ack_rtt_min < sample < cfg.tuning.ack_rtt_max
    &&& sample <= p.sample_cap(cfg)
    &&& !p.class_known || sample * 2 >= p.class_rtt_us
    &&& p.inflight < cfg.tuning.inflight_bias
}

/// Everything an acknowledged piece yields.
pub open spec fn samples_of(u: Unacked, p: PathStat, cfg: SessionConfig, now: u64) -> PieceSamples {
    let sample = above(now as int, u.last_sent as int);
    let bulk = u.data@.len() > cfg.tuning.interactive_max;
    let alone = u.tried@.len() == 1;
    PieceSamples {
        bandwidth: bandwidth_sample(u, p, cfg, sample, larger(now as int, 1)),
        loop_rtt: if alone {
            Some(sample as u64)
        } else {
            None
        },
        ack_rtt: if alone && bulk {
            Some(sample as u64)
        } else {
            None
        },
        ack_loop_ms: if bulk {
            Some((sample / 1000) as u64)
        } else {
            None
        },
        rtt: if counts_as_rtt(u, p, cfg, sample) {
            Some(sample as u64)
        } else {
            None
        },
    }
}

/// The path's ACK clock after an acknowledged piece.
pub open spec fn clock_advanced(u: Unacked, p: PathStat, now: u64) -> PathStat {
    PathStat {
        inflight: above(p.inflight as int, u.data@.len() as int) as u64,
        delivered: capped(p.delivered + u.data@.len()) as u64,
        delivered_at_us: larger(now as int, 1) as u64,
        first_tx_us: if u.tried@.len() == 1 && u.sent_us > p.first_tx_us {
            u.sent_us
        } else {
            p.first_tx_us
        },
        ..p
    }
}

/// Account for one acknowledged piece on the path that carried it.
pub fn release_piece(
    u: &Unacked,
    p: &mut PathStat,
    cfg: &SessionConfig,
    now: u64,
) -> (s: PieceSamples)
    requires
        cfg.wf(),
    ensures
        s == samples_of(*u, *old(p), *cfg, now),
        *final(p) == clock_advanced(*u, *old(p), now),
{
    let loaded: u64 = p.inflight;
    let len: u64 = u.data.len() as u64;
    p.sub_inflight(len);
    let sample: u64 = now.saturating_sub(u.last_sent);
    let now_us: u64 = max_u64(now, 1);
    let delivered: u64 = p.delivered.saturating_add(len);
    p.delivered = delivered;
    let bulk: bool = u.data.len() > cfg.tuning.interactive_max;
    let mut bandwidth: Option<u64> = None;
    let mut loop_rtt: Option<u64> = None;
    let mut ack_rtt: Option<u64> = None;
    if u.tried.len() == 1 {
        let dd: u64 = delivered.saturating_sub(u.delivered_at_send);
        let ack_us: u64 = if u.delivered_time_at_send_us == 0 {
            sample
        } else {
            now_us.saturating_sub(u.delivered_time_at_send_us)
        };
        let snd_us: u64 = u.sent_us.saturating_sub(u.first_tx_at_send_us);
        let dt: u64 = max_u64(ack_us, snd_us);
        let min_rtt: u64 = match p.min_rtt_us {
            Some(d) => d,
            None => cfg.tuning.unknown_rtt_us,
        };
        if dd > 0 && dt >= min_rtt / 4 && dt > 0 {
            let wide: u128 = dd as u128 * 1_000_000 / dt as u128;
            bandwidth = Some(
                if wide > u64::MAX as u128 {
                    u64::MAX
                } else {
                    wide as u64
                },
            );
        }
        loop_rtt = Some(sample);
        if bulk {
            ack_rtt = Some(sample);
        }
        if u.sent_us > p.first_tx_us {
            p.first_tx_us = u.sent_us;
        }
    }
    let ack_loop_ms: Option<u64> = if bulk {
        Some(sample / 1000)
    } else {
        None
    };
    p.delivered_at_us = now_us;
    let cap: u64 = p.rtt_sample_cap(cfg);
    let not_lucky_low: bool = !p.class_known || sample as u128 * 2 >= p.class_rtt_us as u128;
    let rtt: Option<u64> = if !bulk && sample > cfg.tuning.ack_rtt_min && sample
        < cfg.tuning.ack_rtt_max && sample <= cap && not_lucky_low && loaded
        < cfg.tuning.inflight_bias {
        Some(sample)
    } else {
        None
    };
    PieceSamples { bandwidth, loop_rtt, ack_rtt, ack_loop_ms, rtt }
}

/// The path's clocks at a (re)send: an empty pipe restarts both, so that an
/// idle gap is not rate.
pub open spec fn stamped_path(p: PathStat, len: nat, now: u64) -> PathStat {
    if p.inflight <= len {
        PathStat {
            first_tx_us: larger(now as int, 1) as u64,
            delivered_at_us: larger(now as int, 1) as u64,
            ..p
        }
    } else {
        p
    }
}

/// Remember the path's ACK clock at (re)send.
pub fn stamp_delivered(u: &mut Unacked, p: &mut PathStat, now: u64)
    ensures
        *final(p) == stamped_path(*old(p), old(u).data@.len(), now),
        *final(u) == (Unacked {
            delivered_at_send: final(p).delivered,
            delivered_time_at_send_us: final(p).delivered_at_us,
            sent_us: larger(now as int, 1) as u64,
            first_tx_at_send_us: final(p).first_tx_us,
            ..*old(u)
        }),
{
    let now_us: u64 = max_u64(now, 1);
    if p.inflight <= u.data.len() as u64 {
        p.first_tx_us = now_us;
        p.delivered_at_us = now_us;
    }
    u.delivered_at_send = p.delivered;
    u.delivered_time_at_send_us = p.delivered_at_us;
    u.sent_us = now_us;
    u.first_tx_at_send_us = p.first_tx_us;
}

// ---------------------------------------------------------------------------
// Cutting data into pieces
// ---------------------------------------------------------------------------
impl StreamState {
    /// How much of `remaining` bytes the next piece takes; nothing while the
    /// peer's window is closed.
    pub open spec fn piece_len_of(self, remaining: nat, max_payload: nat) -> Option<int> {
        if self.inflight() + 1 > self.counters.send_window {
            None
        } else {
            Some(
                smaller(
                    smaller(remaining as int, self.counters.send_window - self.inflight()),
                    max_payload as int,
                ),
            )
        }
    }

    pub fn next_piece_len(&self, remaining: usize, cfg: &SessionConfig) -> (r: Option<usize>)
        ensures
            match r {
                Some(n) => self.piece_len_of(
                    remaining as nat,
                    cfg.max_stream_payload as nat,
                ) == Some(n as int),
                None => self.piece_len_of(
                    remaining as nat,
                    cfg.max_stream_payload as nat,
                ) is None,
            },
    {
        if !self.window_ok(1) {
            return None;
        }
        let room: u64 = self.counters.send_window as u64 - self.inflight_send();
        let mut n: usize = remaining;
        if n as u64 > room {
            n = room as usize;
        }
        if n > cfg.max_stream_payload {
            n = cfg.max_stream_payload;
        }
        Some(n)
    }

    /// The send waits for the peer's window; `room` says that some path could
    /// have taken the bytes.
    pub fn note_window_block(&mut self, room: bool)
        ensures
            final(self).counters == (StreamCounters {
                window_blocks: capped(old(self).counters.window_blocks + 1) as u64,
                window_limited_with_room: if room {
                    capped(old(self).counters.window_limited_with_room + 1) as u64
                } else {
                    old(self).counters.window_limited_with_room
                },
                ..old(self).counters
            }),
            final(self).send == old(self).send,
            final(self).unacked == old(self).unacked,
            final(self).same_but_send(*old(self)),
    {
        self.counters.window_blocks = self.counters.window_blocks.saturating_add(1);
        if room {
            self.counters.window_limited_with_room =
            self.counters.window_limited_with_room.saturating_add(1);
        }
    }

    /// The send waits for a path budget.
    pub fn note_budget_block(&mut self)
        ensures
            final(self).counters == (StreamCounters {
                budget_blocks: capped(old(self).counters.budget_blocks + 1) as u64,
                ..old(self).counters
            }),
            final(self).send == old(self).send,
            final(self).unacked == old(self).unacked,
            final(self).same_but_send(*old(self)),
    {
        self.counters.budget_blocks = self.counters.budget_blocks.saturating_add(1);
    }

    /// Give the next `n` bytes of the stream their offset.
    pub fn cut_piece(&mut self, n: u64) -> (offset: u64)
        requires
            old(self).send_wf(),
            old(self).counters.send_next + n <= u64::MAX,
        ensures
            final(self).send_wf(),
            offset == old(self).counters.send_next,
            final(self).counters == (StreamCounters {
                send_next: (old(self).counters.send_next + n) as u64,
                ..old(self).counters
            }),
            final(self).unacked == old(self).unacked,
            final(self).send == old(self).send,
            final(self).same_but_send(*old(self)),
    {
        let offset: u64 = self.counters.send_next;
        self.counters.send_next = offset + n;
        offset
    }

    /// Put a piece that was cut at `offset` on `path_id`.
    pub fn place_piece(&mut self, offset: u64, data: Vec<u8>, path_id: u32, now: u64)
        requires
            old(self).send_wf(),
            offset + data@.len() <= old(self).counters.send_next,
        ensures
            final(self).send_wf(),
            final(self).counters == old(self).counters,
            final(self).unacked@.contains_key(offset),
            final(self).unacked@ == old(self).unacked@.insert(
                offset,
                final(self).unacked@[offset],
            ),
            fresh_piece(final(self).unacked@[offset], data@, path_id, now),
            final(self).send == old(self).send,
            final(self).same_but_send(*old(self)),
    {
        let mut tried: Vec<u32> = Vec::new();
        tried.push(path_id);
        assert(tried@ =~= seq![path_id]);
        let u: Unacked = Unacked {
            data,
            path_id,
            last_sent: now,
            first_sent: now,
            tried,
            retry_not_before: now,
            dropped: false,
            delivered_at_send: 0,
            delivered_time_at_send_us: 0,
            sent_us: 0,
            first_tx_at_send_us: 0,
        };
        let _ = self.unacked.insert(offset, u);
    }

    /// A piece larger than the interactive bound makes the stream bulk; `true`
    /// where this one did.
    pub fn note_piece_size(&mut self, n: usize, cfg: &SessionConfig) -> (becoming_bulk: bool)
        ensures
            becoming_bulk == (n > cfg.tuning.interactive_max && !old(self).send.bulk),
            final(self).send == (SendState {
                bulk: old(self).send.bulk || n > cfg.tuning.interactive_max,
                ..old(self).send
            }),
            final(self).counters == old(self).counters,
            final(self).unacked == old(self).unacked,
            final(self).same_but_send(*old(self)),
    {
        if n > cfg.tuning.interactive_max && !self.send.bulk {
            self.send.bulk = true;
            true
        } else {
            false
        }
    }
}

/// A piece as it first leaves.
pub open spec fn fresh_piece(u: Unacked, data: Seq<u8>, path_id: u32, now: u64) -> bool {
    &&& u.data@ == data
    &&& u.path_id == path_id
    &&& u.last_sent == now
    &&& u.first_sent == now
    &&& u.tried@ == seq![path_id]
    &&& u.retry_not_before == now
    &&& !u.dropped
    &&& u.delivered_at_send == 0
    &&& u.delivered_time_at_send_us == 0
    &&& u.sent_us == 0
    &&& u.first_tx_at_send_us == 0
}

// ---------------------------------------------------------------------------
// Laws
// ---------------------------------------------------------------------------
/// A bulk piece is never a sample of its path's RTT, whenever it is
/// acknowledged.
pub proof fn law_bulk_is_no_rtt_sample(u: Unacked, p: PathStat, cfg: SessionConfig, now: u64)
    requires
        u.data@.len() > cfg.tuning.interactive_max,
    ensures
        samples_of(u, p, cfg, now).rtt is None,
{
}

/// A piece that was sent on more than one path tells nothing of any: no rate,
/// no loop.
pub proof fn law_hedged_pieces_tell_nothing(u: Unacked, p: PathStat, cfg: SessionConfig, now: u64)
    requires
        u.tried@.len() != 1,
    ensures
        samples_of(u, p, cfg, now).bandwidth is None,
        samples_of(u, p, cfg, now).loop_rtt is None,
        samples_of(u, p, cfg, now).ack_rtt is None,
        clock_advanced(u, p, now).first_tx_us == p.first_tx_us,
{
}

/// A rate sample is the bytes that were delivered in the interval, per second,
/// without what follows the point; an interval shorter than a quarter of the
/// path's least RTT gives none, and neither does a piece that was sent twice.
pub proof fn law_a_rate_is_bytes_per_second(u: Unacked, p: PathStat, cfg: SessionConfig, now: u64)
    requires
        p.delivered + u.data@.len() <= u64::MAX,
        u.delivered_at_send <= p.delivered,
        now >= u.last_sent,
        now >= 1,
        now >= u.delivered_time_at_send_us,
        u.sent_us >= u.first_tx_at_send_us,
    ensures
        ({
            let bytes = p.delivered + u.data@.len() - u.delivered_at_send;
            let acks = if u.delivered_time_at_send_us == 0 {
                now - u.last_sent
            } else {
                now - u.delivered_time_at_send_us
            };
            let sends = u.sent_us - u.first_tx_at_send_us;
            let us = if acks >= sends {
                acks
            } else {
                sends
            };
            let least = match p.min_rtt_us {
                Some(d) => d as int,
                None => cfg.tuning.unknown_rtt_us as int,
            };
            match samples_of(u, p, cfg, now).bandwidth {
                Some(r) => {
                    &&& r < u64::MAX ==> r * us <= bytes * 1_000_000 < (r + 1) * us
                    &&& r == u64::MAX ==> r * us <= bytes * 1_000_000
                    &&& us > 0 && bytes > 0 && u.tried@.len() == 1 && 4 * us >= least - 3
                },
                None => u.tried@.len() != 1 || us == 0 || bytes == 0 || 4 * us < least,
            }
        }),
{
    let bytes = p.delivered + u.data@.len() - u.delivered_at_send;
    let sample = above(now as int, u.last_sent as int);
    let us = sample_interval(u, sample, larger(now as int, 1));
    if us > 0 {
        let q = bytes * 1_000_000 / us;
        vstd::arithmetic::div_mod::lemma_fundamental_div_mod(bytes * 1_000_000, us);
        assert(q * us <= bytes * 1_000_000 < (q + 1) * us) by (nonlinear_arith)
            requires
                bytes * 1_000_000 == us * q + (bytes * 1_000_000) % us,
                0 <= (bytes * 1_000_000) % us < us,
        ;
        if q > u64::MAX {
            assert(u64::MAX * us <= q * us) by (nonlinear_arith)
                requires
                    q > u64::MAX,
                    us > 0,
            ;
        }
    }
}

/// Which loops a piece measures: its age, in every piece that was sent once;
/// the loaded loop in a bulk one of these; the path's RTT only in a small one
/// within its bounds.
pub proof fn law_what_a_piece_measures(u: Unacked, p: PathStat, cfg: SessionConfig, now: u64)
    requires
        now >= u.last_sent,
    ensures
        ({
            let s = samples_of(u, p, cfg, now);
            let age = now - u.last_sent;
            let bulk = u.data@.len() > cfg.tuning.interactive_max;
            &&& s.loop_rtt == if u.tried@.len() == 1 {
                Some(age as u64)
            } else {
                None
            }
            &&& s.ack_rtt == if u.tried@.len() == 1 && bulk {
                Some(age as u64)
            } else {
                None
            }
            &&& s.rtt is Some ==> s.rtt == Some(age as u64) && !bulk && cfg.tuning.ack_rtt_min < age
                < cfg.tuning.ack_rtt_max && p.inflight < cfg.tuning.inflight_bias && age
                <= p.sample_cap(cfg) && (p.class_known ==> 2 * age >= p.class_rtt_us)
            &&& !bulk && cfg.tuning.ack_rtt_min < age < cfg.tuning.ack_rtt_max && p.inflight
                < cfg.tuning.inflight_bias && age <= p.sample_cap(cfg) && !p.class_known
                ==> s.rtt is Some
            &&& bulk ==> s.ack_loop_ms == Some((age / 1000) as u64)
        }),
{
}

/// An acknowledged piece gives its bytes back to the path's load and adds them
/// to what the path delivered.
pub proof fn law_an_ack_moves_the_load(u: Unacked, p: PathStat, now: u64)
    requires
        u.data@.len() <= p.inflight,
        p.delivered + u.data@.len() <= u64::MAX,
        now >= 1,
    ensures
        ({
            let q = clock_advanced(u, p, now);
            &&& q.inflight + u.data@.len() == p.inflight
            &&& q.delivered == p.delivered + u.data@.len()
            &&& q.delivered_at_us == now
            &&& q.first_tx_us >= p.first_tx_us
            &&& u.tried@.len() == 1 && u.sent_us > p.first_tx_us ==> q.first_tx_us == u.sent_us
            &&& q == (PathStat {
                inflight: q.inflight,
                delivered: q.delivered,
                delivered_at_us: q.delivered_at_us,
                first_tx_us: q.first_tx_us,
                ..p
            })
        }),
{
}

/// The first bytes in flight on a path start its clocks; later ones do not.
pub proof fn law_an_idle_path_starts_its_clock(p: PathStat, len: nat, now: u64)
    requires
        now >= 1,
    ensures
        p.inflight <= len ==> stamped_path(p, len, now).first_tx_us == now && stamped_path(
            p,
            len,
            now,
        ).delivered_at_us == now,
        p.inflight > len ==> stamped_path(p, len, now) == p,
        stamped_path(p, len, now).inflight == p.inflight,
        stamped_path(p, len, now).delivered == p.delivered,
{
}

/// A piece holds as many bytes as there are, as the window leaves, and as a
/// frame carries: the least of the three, and at least one.
pub proof fn law_pieces_fill_the_window(st: StreamState, remaining: nat, payload: nat)
    requires
        remaining >= 1,
        payload >= 1,
    ensures
        ({
            let room = st.counters.send_window - st.inflight();
            match st.piece_len_of(remaining, payload) {
                None => room < 1,
                Some(n) => {
                    &&& 1 <= n <= remaining
                    &&& n <= room
                    &&& n <= payload
                    &&& n == remaining || n == room || n == payload
                },
            }
        }),
{
}

/// An ACK covers a piece exactly where every byte of it lies below the offset,
/// or within one of the ranges.
pub proof fn law_an_ack_covers_whole_pieces(
    off: u64,
    len: nat,
    acked: u64,
    sack: Seq<(u64, u64)>,
    i: int,
)
    requires
        len >= 1,
    ensures
        cum_covers(off, len, acked) <==> forall|b: int| #[trigger]
            in_piece(b, off, len) ==> b < acked,
        0 <= i < sack.len() && (forall|b: int| #[trigger]
            in_piece(b, off, len) ==> sack[i].0 <= b < sack[i].1) ==> sack_covers(off, len, sack),
        sack_covers(off, len, sack) ==> exists|k: int|
            0 <= k < sack.len() && (#[trigger] sack[k]).0 <= off && off + len - 1 < sack[k].1,
{
    assert(in_piece(off as int, off, len));
    assert(in_piece(off + len - 1, off, len));
}

/// Byte `b` of a stream lies in the piece of `len` bytes at `off`.
pub open spec fn in_piece(b: int, off: u64, len: nat) -> bool {
    off <= b < off + len
}

} // verus!
