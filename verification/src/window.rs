//! Delivery rate and the receive window that follows from it.

use vstd::prelude::*;

use crate::accuracy::{lemma_rate_is_near, lemma_twice_carried_is_near};
use crate::cfg::SessionConfig;
use crate::double::{
    lemma_whole_exact, product, quotient, secs_double, secs_of, whole, whole_double, zero, Dbl, Double,
};
use crate::num::{above, capped, larger, max_u64, mul_capped, smaller, within};
use crate::stream::{Probe, RecvState, StreamCounters, StreamState, WinCtl};

verus! {

/// Bytes per second of `bytes` in `us` microseconds, as a floating point
/// register computes it. No time at all is the fastest rate there is, or none
/// where no byte came.
pub open spec fn rate_of(bytes: int, us: int) -> int {
    if us == 0 {
        if bytes == 0 {
            0
        } else {
            u64::MAX as int
        }
    } else {
        capped(quotient(whole(bytes), secs_of(us)).floor())
    }
}

pub fn bytes_per_second(bytes: u64, us: u64) -> (r: u64)
    ensures
        r == rate_of(bytes as int, us as int),
{
    if us == 0 {
        if bytes == 0 {
            0
        } else {
            u64::MAX
        }
    } else {
        whole_double(bytes).over(secs_double(us)).floor_capped()
    }
}

/// What the loop carries: `rate` bytes per second for `rtt` microseconds.
pub open spec fn in_flight(rate: int, rtt: int) -> Dbl {
    product(whole(rate), secs_of(rtt))
}

pub(crate) fn loop_carries(rate: u64, rtt: u64) -> (d: Double)
    ensures
        d@ == in_flight(rate as int, rtt as int),
        d.within(400),
{
    whole_double(rate).times(secs_double(rtt))
}

/// The rate average after one sample.
pub open spec fn rate_folded(old_rate: int, sample: int) -> int {
    if old_rate == 0 {
        sample
    } else {
        capped(capped(old_rate * 7) + sample) / 8
    }
}

/// `len` delivered bytes close a sample: the clock was running, a full
/// interval has passed, and the rate is not zero.
pub open spec fn closes_sample(r: RecvState, len: u64, min_dt: u64, now: u64) -> bool {
    &&& len != 0
    &&& interval_over(r, min_dt, now)
    &&& rate_of(capped(r.pending_deliver + len), above(now as int, r.last_deliver->0 as int)) != 0
}

/// A full, non-empty interval has passed since the last sample.
pub open spec fn interval_over(r: RecvState, min_dt: u64, now: u64) -> bool {
    match r.last_deliver {
        Some(prev) => {
            let dt = above(now as int, prev as int);
            dt != 0 && dt >= min_dt
        },
        None => false,
    }
}

/// The receive side once `len` bytes were delivered.
pub open spec fn delivered(r: RecvState, len: u64, min_dt: u64, now: u64) -> RecvState {
    if len == 0 {
        r
    } else if interval_over(r, min_dt, now) {
        RecvState {
            pending_deliver: 0,
            last_deliver: Some(now),
            deliver_rate_ewma: if closes_sample(r, len, min_dt, now) {
                rate_folded(
                    r.deliver_rate_ewma as int,
                    rate_of(
                        capped(r.pending_deliver + len),
                        above(now as int, r.last_deliver->0 as int),
                    ),
                ) as u64
            } else {
                r.deliver_rate_ewma
            },
            ..r
        }
    } else {
        RecvState {
            pending_deliver: capped(r.pending_deliver + len) as u64,
            last_deliver: if r.last_deliver is None {
                Some(now)
            } else {
                r.last_deliver
            },
            ..r
        }
    }
}

/// What a look at the receive window did.
#[derive(Clone, Copy, Debug, PartialEq, Eq, Structural)]
pub enum ProbeEvent {
    Quiet,
    Started,
    Kept,
    Reverted,
}

/// Twice what the loop carries, within the stream's bounds.
pub open spec fn cap_target(floor: u32, chan: usize, rate: u64, rtt: Option<u64>) -> int {
    let ceil = cap_ceil(floor, chan);
    match rtt {
        None => floor as int,
        Some(rtt) => if rate == 0 {
            floor as int
        } else {
            within(
                product(whole(2), in_flight(rate as int, rtt as int)).floor(),
                floor as int,
                ceil,
            )
        },
    }
}

/// The largest cap a stream may reach.
pub open spec fn cap_ceil(floor: u32, chan: usize) -> int {
    smaller(floor * chan, u32::MAX as int)
}

/// What the controller decides: the cap before the final clamp, its next
/// state, and what it did.
pub struct Tuned {
    pub cap: int,
    pub ctl: WinCtl,
    pub event: ProbeEvent,
}

/// The application holds more than half the window.
pub open spec fn app_behind(r: RecvState, cur: int) -> bool {
    r.buffered_in + r.recv_buffered > cur / 2
}

/// The cap a past probe earned, while the rate stays within half of what
/// earned it and the application keeps up.
pub open spec fn held_cap(c: WinCtl, rate: u64, app: bool) -> int {
    if capped(rate * 2) >= c.hold_rate && !app {
        c.hold_cap as int
    } else {
        0
    }
}

/// The base is the BDP formula. A window-limited sender whose application
/// keeps up earns a doubled cap for four RTTs, kept unless delivery got worse
/// by a tenth or the application fell behind.
pub open spec fn tune(
    floor: u32,
    counters: StreamCounters,
    recv: RecvState,
    sampled: bool,
    rtt: Option<u64>,
    chan: usize,
    unknown_rtt: u64,
    now: u64,
) -> Tuned {
    let ceil = cap_ceil(floor, chan);
    let rate = recv.deliver_rate_ewma;
    let base = cap_target(floor, chan, rate, rtt);
    let cur = within(counters.recv_cap as int, floor as int, ceil);
    let app = app_behind(recv, cur);
    let c = recv.win_ctl;
    let min_rtt = match rtt {
        Some(d) => d,
        None => unknown_rtt,
    };
    if !sampled {
        Tuned {
            cap: if c.probing is None {
                larger(base, held_cap(c, rate, app))
            } else {
                cur
            },
            ctl: c,
            event: ProbeEvent::Quiet,
        }
    } else {
        let c1 = if app {
            WinCtl { hold_cap: 0, hold_rate: 0, ..c }
        } else {
            c
        };
        match c.probing {
            Some(p) => {
                let el = above(now as int, p.since as int);
                if el < capped(min_rtt * 4) {
                    Tuned { cap: cur, ctl: c1, event: ProbeEvent::Quiet }
                } else {
                    let got = above(counters.recv_next as int, p.next0 as int);
                    let probe_rate = rate_of(got, el);
                    let worse = capped(probe_rate * 10) < capped(p.rate0 * 9);
                    if worse || app {
                        Tuned {
                            cap: larger(p.cap0 as int, base),
                            ctl: WinCtl { probing: None, last_probe_end: Some(now), ..c1 },
                            event: ProbeEvent::Reverted,
                        }
                    } else {
                        Tuned {
                            cap: cur,
                            ctl: WinCtl {
                                hold_cap: cur as u32,
                                hold_rate: larger(probe_rate, rate as int) as u64,
                                probing: None,
                                last_probe_end: Some(now),
                            },
                            event: ProbeEvent::Kept,
                        }
                    }
                }
            },
            None => {
                let cooled = match c.last_probe_end {
                    Some(t) => above(now as int, t as int) >= capped(min_rtt * 8),
                    None => true,
                };
                if recv.edge_hits > 0 && !app && cooled && cur < ceil && rate > 0 {
                    Tuned {
                        cap: smaller(cur * 2, ceil),
                        ctl: WinCtl {
                            probing: Some(
                                Probe {
                                    cap0: cur as u32,
                                    rate0: rate,
                                    since: now,
                                    next0: counters.recv_next,
                                },
                            ),
                            ..c1
                        },
                        event: ProbeEvent::Started,
                    }
                } else {
                    Tuned {
                        cap: larger(base, held_cap(c1, rate, app)),
                        ctl: c1,
                        event: ProbeEvent::Quiet,
                    }
                }
            },
        }
    }
}

/// The counters once the decided cap is clamped and in force.
pub open spec fn tuned_counters(
    floor: u32,
    counters: StreamCounters,
    recv: RecvState,
    sampled: bool,
    rtt: Option<u64>,
    cfg: SessionConfig,
    now: u64,
) -> StreamCounters {
    let t = tune(
        floor,
        counters,
        recv,
        sampled,
        rtt,
        cfg.tuning.chan,
        cfg.tuning.unknown_rtt_us,
        now,
    );
    let cap = within(t.cap, floor as int, cap_ceil(floor, cfg.tuning.chan));
    StreamCounters {
        recv_cap: cap as u32,
        recv_cap_max: larger(counters.recv_cap_max as int, cap) as u32,
        ..counters
    }
}

/// The receive side once the controller has decided; a sample uses up the
/// edge hits.
pub open spec fn tuned_recv(
    floor: u32,
    counters: StreamCounters,
    recv: RecvState,
    sampled: bool,
    rtt: Option<u64>,
    cfg: SessionConfig,
    now: u64,
) -> RecvState {
    RecvState {
        win_ctl: tune(
            floor,
            counters,
            recv,
            sampled,
            rtt,
            cfg.tuning.chan,
            cfg.tuning.unknown_rtt_us,
            now,
        ).ctl,
        edge_hits: if sampled {
            0
        } else {
            recv.edge_hits
        },
        ..recv
    }
}

fn clamp_u32(d: u32, floor: u32, ceil: u32) -> (r: u32)
    ensures
        r == within(d as int, floor as int, ceil as int),
{
    if d < floor {
        floor
    } else if d > ceil {
        ceil
    } else {
        d
    }
}

fn max_u32(a: u32, b: u32) -> (r: u32)
    ensures
        r == larger(a as int, b as int),
{
    if a >= b {
        a
    } else {
        b
    }
}

impl StreamState {
    /// Coalesce until one RTT (or the maintain interval) has passed. First
    /// bytes are kept; a collapsed-but-nonzero interval is not a rate.
    /// `true` when a new rate sample was recorded.
    pub fn note_deliver(&mut self, len: u64, min_dt: u64, now: u64) -> (sampled: bool)
        ensures
            sampled == closes_sample(old(self).recv, len, min_dt, now),
            final(self).recv == delivered(old(self).recv, len, min_dt, now),
            final(self).counters == old(self).counters,
            final(self).recv_buf == old(self).recv_buf,
            final(self).same_but_recv(*old(self)),
    {
        if len == 0 {
            return false;
        }
        let pending: u64 = self.recv.pending_deliver.saturating_add(len);
        match self.recv.last_deliver {
            None => {
                self.recv.pending_deliver = pending;
                self.recv.last_deliver = Some(now);
                false
            },
            Some(prev) => {
                let dt: u64 = now.saturating_sub(prev);
                if dt == 0 || dt < min_dt {
                    self.recv.pending_deliver = pending;
                    return false;
                }
                self.recv.last_deliver = Some(now);
                self.recv.pending_deliver = 0;
                let sample: u64 = bytes_per_second(pending, dt);
                if sample == 0 {
                    return false;
                }
                let before: u64 = self.recv.deliver_rate_ewma;
                self.recv.deliver_rate_ewma =
                if before == 0 {
                    sample
                } else {
                    mul_capped(before, 7).saturating_add(sample) / 8
                };
                true
            },
        }
    }

    /// `2 * rate * rtt` within the stream's bounds; an unknown loop does not grow.
    pub fn recv_cap_target(&self, rtt: Option<u64>, cfg: &SessionConfig) -> (r: u32)
        requires
            cfg.wf(),
        ensures
            r == cap_target(
                self.initial_window,
                cfg.tuning.chan,
                self.recv.deliver_rate_ewma,
                rtt,
            ),
    {
        let floor: u32 = self.initial_window;
        let ceil: u32 = self.recv_cap_ceil(cfg);
        let rate: u64 = self.recv.deliver_rate_ewma;
        match rtt {
            None => floor,
            Some(rtt) => {
                if rate == 0 {
                    return floor;
                }
                let carried: u64 = whole_double(2).times(loop_carries(rate, rtt)).floor_capped();
                let twice: u32 = if carried > u32::MAX as u64 {
                    u32::MAX
                } else {
                    carried as u32
                };
                clamp_u32(twice, floor, ceil)
            },
        }
    }

    pub fn recv_cap_ceil(&self, cfg: &SessionConfig) -> (r: u32)
        requires
            cfg.wf(),
        ensures
            r == cap_ceil(self.initial_window, cfg.tuning.chan),
            r >= self.initial_window,
    {
        let floor: u64 = self.initial_window as u64;
        let chan: u64 = cfg.tuning.chan as u64;
        assert(floor <= floor * chan <= u64::MAX) by (nonlinear_arith)
            requires
                floor <= u32::MAX,
                1 <= chan <= u32::MAX,
        ;
        let wide: u64 = floor * chan;
        if wide > u32::MAX as u64 {
            u32::MAX
        } else {
            wide as u32
        }
    }

    /// Receiver window: the BDP formula as the base, and the probe controller
    /// on top. `sampled` = a new rate sample closed this call; the controller
    /// decides only then.
    pub fn tune_recv_cap_sampled(
        &mut self,
        sampled: bool,
        rtt: Option<u64>,
        cfg: &SessionConfig,
        now: u64,
    ) -> (event: ProbeEvent)
        requires
            cfg.wf(),
        ensures
            event == tune(
                old(self).initial_window,
                old(self).counters,
                old(self).recv,
                sampled,
                rtt,
                cfg.tuning.chan,
                cfg.tuning.unknown_rtt_us,
                now,
            ).event,
            final(self).counters == tuned_counters(
                old(self).initial_window,
                old(self).counters,
                old(self).recv,
                sampled,
                rtt,
                *cfg,
                now,
            ),
            final(self).recv == tuned_recv(
                old(self).initial_window,
                old(self).counters,
                old(self).recv,
                sampled,
                rtt,
                *cfg,
                now,
            ),
            final(self).recv_buf == old(self).recv_buf,
            final(self).same_but_recv(*old(self)),
    {
        let base: u32 = self.recv_cap_target(rtt, cfg);
        let floor: u32 = self.initial_window;
        let ceil: u32 = self.recv_cap_ceil(cfg);
        let cur: u32 = clamp_u32(self.counters.recv_cap, floor, ceil);
        let rate: u64 = self.recv.deliver_rate_ewma;
        let app: bool = self.recv.buffered_in as u128 + self.recv.recv_buffered as u128 > (cur
            / 2) as u128;
        let mut c: WinCtl = self.recv.win_ctl;
        let mut cap: u32 = cur;
        let mut event: ProbeEvent = ProbeEvent::Quiet;
        if sampled {
            let min_rtt: u64 = match rtt {
                Some(d) => d,
                None => cfg.tuning.unknown_rtt_us,
            };
            let window_limited: bool = self.recv.edge_hits > 0;
            self.recv.edge_hits = 0;
            if app {
                c.hold_cap = 0;
                c.hold_rate = 0;
            }
            match c.probing {
                Some(p) => {
                    let el: u64 = now.saturating_sub(p.since);
                    if el >= mul_capped(min_rtt, 4) {
                        let got: u64 = self.counters.recv_next.saturating_sub(p.next0);
                        let probe_rate: u64 = bytes_per_second(got, el);
                        let worse: bool = mul_capped(probe_rate, 10) < mul_capped(p.rate0, 9);
                        if worse || app {
                            cap = max_u32(p.cap0, base);
                            event = ProbeEvent::Reverted;
                        } else {
                            c.hold_cap = cur;
                            c.hold_rate = max_u64(probe_rate, rate);
                            event = ProbeEvent::Kept;
                        }
                        c.probing = None;
                        c.last_probe_end = Some(now);
                    }
                },
                None => {
                    let cooled: bool = match c.last_probe_end {
                        Some(t) => now.saturating_sub(t) >= mul_capped(min_rtt, 8),
                        None => true,
                    };
                    if window_limited && !app && cooled && cur < ceil && rate > 0 {
                        c.probing = Some(
                            Probe {
                                cap0: cur,
                                rate0: rate,
                                since: now,
                                next0: self.counters.recv_next,
                            },
                        );
                        cap =
                        if cur as u64 * 2 > ceil as u64 {
                            ceil
                        } else {
                            cur * 2
                        };
                        event = ProbeEvent::Started;
                    } else {
                        cap = max_u32(base, hold_of(&c, rate, app));
                    }
                },
            }
        } else if c.probing.is_none() {
            cap = max_u32(base, hold_of(&c, rate, app));
        }
        let clamped: u32 = clamp_u32(cap, floor, ceil);
        self.recv.win_ctl = c;
        self.counters.recv_cap = clamped;
        self.counters.recv_cap_max = max_u32(self.counters.recv_cap_max, clamped);
        event
    }
}

fn hold_of(c: &WinCtl, rate: u64, app: bool) -> (r: u32)
    ensures
        r == held_cap(*c, rate, app),
{
    if mul_capped(rate, 2) >= c.hold_rate && !app {
        c.hold_cap
    } else {
        0
    }
}

/// Whatever the controller decides, the cap stays between the initial window
/// and that window times the channel depth.
pub proof fn law_cap_stays_in_bounds(cap: int, floor: u32, chan: usize)
    requires
        chan >= 1,
    ensures
        floor <= within(cap, floor as int, cap_ceil(floor, chan)) <= cap_ceil(floor, chan),
{
    assert(floor <= floor * chan) by (nonlinear_arith)
        requires
            chan >= 1,
    ;
}

/// A probe never starts for an application that is behind, nor above the
/// ceiling, nor without a rate; and a cap that is being probed was doubled.
pub proof fn law_probe_needs_evidence(
    floor: u32,
    counters: StreamCounters,
    recv: RecvState,
    sampled: bool,
    rtt: Option<u64>,
    chan: usize,
    unknown_rtt: u64,
    now: u64,
)
    requires
        tune(floor, counters, recv, sampled, rtt, chan, unknown_rtt, now).event is Started,
    ensures
        ({
            let ceil = cap_ceil(floor, chan);
            let cur = within(counters.recv_cap as int, floor as int, ceil);
            &&& sampled
            &&& recv.edge_hits > 0
            &&& recv.deliver_rate_ewma > 0
            &&& !app_behind(recv, cur)
            &&& cur < ceil
            &&& tune(floor, counters, recv, sampled, rtt, chan, unknown_rtt, now).cap == smaller(
                cur * 2,
                ceil,
            )
        }),
{
}

/// Without a rate or without a known loop the base does not grow.
pub proof fn law_no_rate_no_growth(floor: u32, chan: usize, rate: u64, rtt: Option<u64>)
    ensures
        rate == 0 || rtt is None ==> cap_target(floor, chan, rate, rtt) == floor,
{
}

/// A rate is so many bytes in so many microseconds, per second, but for one
/// part in 2^49 and what follows the point.
pub proof fn law_a_rate_is_bytes_over_time(bytes: u64, us: u64)
    requires
        us > 0,
    ensures
        ({
            let r = rate_of(bytes as int, us as int);
            &&& bytes == 0 ==> r == 0
            &&& 0 <= r <= u64::MAX
            &&& 0x2_0000_0000_0000 * (r * us) <= 0x2_0000_0000_0001 * (bytes * 1_000_000)
            &&& r < u64::MAX ==> 0x2_0000_0000_0000 * ((r + 1) * us) >= 0x1_ffff_ffff_ffff * (bytes
                * 1_000_000)
        }),
{
    if bytes == 0 {
        lemma_no_rate(us as int);
    } else {
        lemma_rate_is_near(bytes as int, us as int);
        let q = quotient(whole(bytes as int), secs_of(us as int)).floor();
        if q > u64::MAX {
            assert(u64::MAX * us <= q * us) by (nonlinear_arith)
                requires
                    q > u64::MAX,
                    us > 0,
            ;
        }
    }
}

proof fn lemma_no_rate(us: int)
    requires
        0 < us <= u64::MAX,
    ensures
        quotient(whole(0), secs_of(us)).floor() == 0,
{
    assert(whole(0) == zero());
    assert(quotient(whole(0), secs_of(us)) == zero());
    lemma_whole_exact(0);
}

/// The base of the window is twice what the loop carries, `rate` bytes per
/// second for `rtt` microseconds, but for one part in 2^49, wherever that lies
/// between the bounds; and the bounds elsewhere.
pub proof fn law_the_base_is_two_loops(floor: u32, chan: usize, rate: u64, rtt: u64)
    requires
        chan >= 1,
        rate > 0,
        rtt > 0,
    ensures
        ({
            let t = cap_target(floor, chan, rate, Some(rtt));
            let top = if floor * chan <= u32::MAX {
                floor * chan
            } else {
                u32::MAX as int
            };
            &&& floor <= t <= top
            &&& t > floor ==> 0x2_0000_0000_0000 * (t * 1_000_000) <= 0x2_0000_0000_0001 * (2 * (rate
                * rtt))
            &&& t < top ==> 0x2_0000_0000_0000 * ((t + 1) * 1_000_000) >= 0x1_ffff_ffff_ffff * (2
                * (rate * rtt))
        }),
{
    assert(floor <= floor * chan) by (nonlinear_arith)
        requires
            chan >= 1,
    ;
    lemma_twice_carried_is_near(rate as int, rtt as int);
}

/// An average of rates lies between what it was and the sample, an eighth of
/// the way; the first sample is taken as it is.
pub proof fn law_rates_fold_by_an_eighth(old_rate: u64, sample: u64)
    requires
        old_rate <= 0xff_ffff_ffff_ffff,
        sample <= 0xff_ffff_ffff_ffff,
    ensures
        old_rate == 0 ==> rate_folded(old_rate as int, sample as int) == sample,
        old_rate > 0 ==> 8 * rate_folded(old_rate as int, sample as int) <= 7 * old_rate + sample < 8
            * (rate_folded(old_rate as int, sample as int) + 1),
{
}

/// A delivery closes a sample exactly where bytes came, a clock ran and a full
/// interval is over; otherwise the bytes are kept for the next one.
pub proof fn law_bytes_wait_for_their_interval(r: RecvState, len: u64, min_dt: u64, now: u64)
    requires
        r.pending_deliver + len <= u64::MAX,
        len > 0,
    ensures
        ({
            let n = delivered(r, len, min_dt, now);
            let over = match r.last_deliver {
                Some(t) => now > t && now - t >= min_dt,
                None => false,
            };
            &&& !over ==> n.pending_deliver == r.pending_deliver + len && n.deliver_rate_ewma
                == r.deliver_rate_ewma && (r.last_deliver is Some ==> n.last_deliver
                == r.last_deliver) && (r.last_deliver is None ==> n.last_deliver == Some(now))
            &&& over ==> n.pending_deliver == 0 && n.last_deliver == Some(now)
            &&& closes_sample(r, len, min_dt, now) ==> over
            &&& over && r.deliver_rate_ewma == 0 && closes_sample(r, len, min_dt, now)
                ==> n.deliver_rate_ewma == rate_of(
                r.pending_deliver + len,
                now - r.last_deliver->0,
            )
        }),
{
    if r.last_deliver is Some && now > r.last_deliver->0 {
        law_a_rate_is_bytes_over_time(
            (r.pending_deliver + len) as u64,
            (now - r.last_deliver->0) as u64,
        );
    }
}

/// A probe that ran for four round trips ends by what it delivered. Where the
/// application keeps up and the bytes since it began came at nine tenths of the
/// rate before it, or faster, it is kept: the cap stays and is held. Where they
/// came slower, or the application is behind, it is taken back: the cap is that
/// before the probe, or the base where that is larger. The tenths are those of
/// whole bytes per second, two of which are left open on each side.
pub proof fn law_a_probe_ends_by_what_it_delivered(
    floor: u32,
    counters: StreamCounters,
    recv: RecvState,
    p: Probe,
    rtt: u64,
    cfg: SessionConfig,
    now: u64,
)
    requires
        cfg.tuning.chan >= 1,
        recv.win_ctl.probing == Some(p),
        now > p.since,
        now - p.since >= 4 * rtt,
        counters.recv_next >= p.next0,
        floor <= counters.recv_cap,
        counters.recv_cap <= floor * cfg.tuning.chan,
        p.rate0 <= 0xff_ffff_ffff_ffff,
        (counters.recv_next - p.next0) * 1_000_000 <= 0xff_ffff_ffff * (now - p.since),
    ensures
        ({
            let got = counters.recv_next - p.next0;
            let el = now - p.since;
            let behind = 2 * (recv.buffered_in + recv.recv_buffered) > counters.recv_cap + 1;
            let ahead = 2 * (recv.buffered_in + recv.recv_buffered) <= counters.recv_cap - 1;
            let t = tune(
                floor,
                counters,
                recv,
                true,
                Some(rtt),
                cfg.tuning.chan,
                cfg.tuning.unknown_rtt_us,
                now,
            );
            let n = tuned_counters(floor, counters, recv, true, Some(rtt), cfg, now);
            let r = tuned_recv(floor, counters, recv, true, Some(rtt), cfg, now);
            let base = cap_target(floor, cfg.tuning.chan, recv.deliver_rate_ewma, Some(rtt));
            let fast = got * 10_000_000 >= (9 * p.rate0 + 20) * el;
            let slow = got * 10_000_000 < (9 * p.rate0 - 20) * el;
            &&& r.win_ctl.probing is None && r.win_ctl.last_probe_end == Some(now)
            &&& ahead && fast ==> {
                &&& t.event is Kept
                &&& n.recv_cap == counters.recv_cap
                &&& r.win_ctl.hold_cap == counters.recv_cap
                &&& r.win_ctl.hold_rate >= recv.deliver_rate_ewma
                &&& (r.win_ctl.hold_rate + 2) * el >= got * 1_000_000
            }
            &&& behind || slow ==> {
                &&& t.event is Reverted
                &&& p.cap0 <= floor * cfg.tuning.chan ==> n.recv_cap >= p.cap0
                &&& n.recv_cap >= base
                &&& floor <= p.cap0 <= floor * cfg.tuning.chan ==> n.recv_cap == p.cap0
                    || n.recv_cap == base
            }
        }),
{
    let got = (counters.recv_next - p.next0) as u64;
    let el = (now - p.since) as u64;
    let r = rate_of(got as int, el as int);
    law_a_rate_is_bytes_over_time(got, el);
    assert(floor <= floor * cfg.tuning.chan) by (nonlinear_arith)
        requires
            cfg.tuning.chan >= 1,
    ;
    lemma_rate_to_two(got as int, el as int, r);
    assert(10 * (r * el) == (10 * r) * el && 9 * (p.rate0 * el) == (9 * p.rate0) * el)
        by (nonlinear_arith);
    let fast = got * 10_000_000 >= (9 * p.rate0 + 20) * el;
    let slow = got * 10_000_000 < (9 * p.rate0 - 20) * el;
    assert((9 * p.rate0 + 20) * el == 9 * (p.rate0 * el) + 20 * el && (9 * p.rate0 - 20) * el == 9
        * (p.rate0 * el) - 20 * el) by (nonlinear_arith);
    if fast {
        assert(10 * r >= 9 * p.rate0) by (nonlinear_arith)
            requires
                10 * (r * el) >= 9 * (p.rate0 * el),
                el > 0,
        ;
    }
    if slow {
        assert(10 * r < 9 * p.rate0) by (nonlinear_arith)
            requires
                10 * (r * el) < 9 * (p.rate0 * el),
                el > 0,
        ;
    }
    assert(r <= 0x1ff_ffff_ffff) by (nonlinear_arith)
        requires
            r * el <= got * 1_000_000 + el,
            got * 1_000_000 <= 0xff_ffff_ffff * el,
            el > 0,
    ;
    assert((r + 2) * el >= got * 1_000_000) by (nonlinear_arith)
        requires
            r * el >= got * 1_000_000 - 2 * el,
    ;
    let hold = larger(r, recv.deliver_rate_ewma as int);
    assert((hold + 2) * el >= (r + 2) * el) by (nonlinear_arith)
        requires
            hold >= r,
            el > 0,
    ;
}

/// Below 2^40 bytes per second a rate is within two of the exact one.
proof fn lemma_rate_to_two(got: int, el: int, r: int)
    requires
        0 <= got,
        0 < el,
        0 <= r <= u64::MAX,
        got * 1_000_000 <= 0xff_ffff_ffff * el,
        0x2_0000_0000_0000 * (r * el) <= 0x2_0000_0000_0001 * (got * 1_000_000),
        r < u64::MAX ==> 0x2_0000_0000_0000 * ((r + 1) * el) >= 0x1_ffff_ffff_ffff * (got
            * 1_000_000),
    ensures
        r < u64::MAX,
        r * el <= got * 1_000_000 + el,
        r * el >= got * 1_000_000 - 2 * el,
{
    assert((r + 1) * el == r * el + el) by (nonlinear_arith);
    if r == u64::MAX {
        assert(r * el == 0xffff_ffff_ffff_ffff * el) by (nonlinear_arith)
            requires
                r == 0xffff_ffff_ffff_ffff,
        ;
    }
}

/// A running probe changes nothing before its four round trips are over.
pub proof fn law_a_probe_runs_four_round_trips(
    floor: u32,
    counters: StreamCounters,
    recv: RecvState,
    p: Probe,
    sampled: bool,
    rtt: u64,
    cfg: SessionConfig,
    now: u64,
)
    requires
        cfg.tuning.chan >= 1,
        recv.win_ctl.probing == Some(p),
        now >= p.since,
        now - p.since < 4 * rtt || !sampled,
        4 * rtt <= u64::MAX,
        floor <= counters.recv_cap,
        counters.recv_cap <= floor * cfg.tuning.chan,
    ensures
        ({
            let n = tuned_counters(floor, counters, recv, sampled, Some(rtt), cfg, now);
            let r = tuned_recv(floor, counters, recv, sampled, Some(rtt), cfg, now);
            &&& n.recv_cap == counters.recv_cap
            &&& r.win_ctl.probing == Some(p)
        }),
{
}

/// A probe begins exactly where a sample closed, the sender ran into the
/// window, the application holds no more than half of it, a rate is known, the
/// cap can still grow and the last probe ended eight round trips ago. It
/// doubles the cap, up to the ceiling, and remembers where it began.
pub proof fn law_when_a_probe_begins(
    floor: u32,
    counters: StreamCounters,
    recv: RecvState,
    rtt: u64,
    cfg: SessionConfig,
    now: u64,
)
    requires
        cfg.tuning.chan >= 1,
        recv.win_ctl.probing is None,
        floor <= counters.recv_cap,
        counters.recv_cap <= floor * cfg.tuning.chan,
        floor * cfg.tuning.chan <= u32::MAX,
        8 * rtt <= u64::MAX,
    ensures
        ({
            let top = floor * cfg.tuning.chan;
            let keeps_up = recv.buffered_in + recv.recv_buffered <= counters.recv_cap as int / 2;
            let rested = match recv.win_ctl.last_probe_end {
                Some(t) => now >= t && now - t >= 8 * rtt || rtt == 0,
                None => true,
            };
            let n = tuned_counters(floor, counters, recv, true, Some(rtt), cfg, now);
            let r = tuned_recv(floor, counters, recv, true, Some(rtt), cfg, now);
            &&& r.win_ctl.probing is Some <==> recv.edge_hits > 0 && keeps_up && rested
                && counters.recv_cap < top && recv.deliver_rate_ewma > 0
            &&& r.win_ctl.probing is Some ==> {
                let p = r.win_ctl.probing->0;
                &&& n.recv_cap == 2 * counters.recv_cap || n.recv_cap == top && top <= 2
                    * counters.recv_cap
                &&& p.cap0 == counters.recv_cap
                &&& p.rate0 == recv.deliver_rate_ewma
                &&& p.since == now
                &&& p.next0 == counters.recv_next
            }
            &&& r.edge_hits == 0
        }),
{
}

/// Outside a probe the cap is the base, or what a past probe earned where that
/// is larger, the rate is still half of what earned it and the application
/// keeps up. An application that is behind forfeits what was earned.
pub proof fn law_what_a_probe_earned_is_held(
    floor: u32,
    counters: StreamCounters,
    recv: RecvState,
    sampled: bool,
    rtt: u64,
    cfg: SessionConfig,
    now: u64,
)
    requires
        cfg.tuning.chan >= 1,
        recv.win_ctl.probing is None,
        recv.edge_hits == 0 || !sampled,
        floor <= counters.recv_cap,
        counters.recv_cap <= floor * cfg.tuning.chan,
        recv.win_ctl.hold_cap <= floor * cfg.tuning.chan,
        recv.deliver_rate_ewma <= 0x7fff_ffff_ffff_ffff,
    ensures
        ({
            let base = cap_target(floor, cfg.tuning.chan, recv.deliver_rate_ewma, Some(rtt));
            let keeps_up = recv.buffered_in + recv.recv_buffered <= counters.recv_cap as int / 2;
            let fast = 2 * recv.deliver_rate_ewma >= recv.win_ctl.hold_rate;
            let n = tuned_counters(floor, counters, recv, sampled, Some(rtt), cfg, now);
            let r = tuned_recv(floor, counters, recv, sampled, Some(rtt), cfg, now);
            &&& keeps_up && fast ==> n.recv_cap >= base && n.recv_cap >= recv.win_ctl.hold_cap && (
            n.recv_cap == base || n.recv_cap == recv.win_ctl.hold_cap)
            &&& !keeps_up || !fast ==> n.recv_cap == base
            &&& n.recv_cap_max >= n.recv_cap && n.recv_cap_max >= counters.recv_cap_max
            &&& sampled && !keeps_up ==> r.win_ctl.hold_cap == 0 && r.win_ctl.hold_rate == 0
            &&& r.win_ctl.probing is None
        }),
{
    assert(floor <= floor * cfg.tuning.chan) by (nonlinear_arith)
        requires
            cfg.tuning.chan >= 1,
    ;
}

} // verus!
