//! Faults on links: their kinds, how strong and how long they are, and what
//! they do to a link.

use vstd::prelude::*;
use vstd::string::*;

use crate::chance::{draw, pick_ms};
use crate::impair::{lemma_live_of, live_of, ppm_of, with_live, ConnCtrl, LinkCounts, LinkState};
use crate::mixed::LinkSpec;
use crate::num::{capped, larger, max_u64, min_u64, mul_capped, smaller};
use crate::double::{
    added, frac, frac_double, least, lemma_added_no_less, lemma_floor_order, lemma_frac_order,
    lemma_over_order, lemma_plus_order, lemma_product_wf, lemma_quotient_wf, lemma_times_order,
    lemma_whole_fine, lemma_whole_order, millionths, most, norm, per_million, product, quotient,
    whole, whole_double, Dbl, Double,
};
use crate::text::{decimal, push_decimal, push_text, push_thousandths, text, thousandths};

verus! {

// ---------------------------------------------------------------------------
// Kinds
// ---------------------------------------------------------------------------
#[derive(Clone, Copy, Debug, PartialEq, Eq, Structural)]
pub enum Kind {
    FlashDisconnect,
    Offline,
    Blackhole,
    DelaySpike,
    DelayShift,
    LossBurst,
    JitterBurst,
    ConnBlackhole,
    ConnStall,
    ConnDisconnect,
}

pub open spec fn all_kinds() -> Seq<Kind> {
    seq![
        Kind::FlashDisconnect,
        Kind::Offline,
        Kind::Blackhole,
        Kind::DelaySpike,
        Kind::DelayShift,
        Kind::LossBurst,
        Kind::JitterBurst,
        Kind::ConnBlackhole,
        Kind::ConnStall,
        Kind::ConnDisconnect,
    ]
}

pub open spec fn mild_kinds() -> Seq<Kind> {
    seq![Kind::DelaySpike, Kind::JitterBurst, Kind::LossBurst]
}

impl Kind {
    pub fn all() -> (v: Vec<Kind>)
        ensures
            v@ == all_kinds(),
    {
        let v: Vec<Kind> = vec![
            Kind::FlashDisconnect,
            Kind::Offline,
            Kind::Blackhole,
            Kind::DelaySpike,
            Kind::DelayShift,
            Kind::LossBurst,
            Kind::JitterBurst,
            Kind::ConnBlackhole,
            Kind::ConnStall,
            Kind::ConnDisconnect,
        ];
        assert(v@ =~= all_kinds());
        v
    }

    /// The kinds that a slow link takes.
    pub fn mild() -> (v: Vec<Kind>)
        ensures
            v@ == mild_kinds(),
    {
        let v: Vec<Kind> = vec![Kind::DelaySpike, Kind::JitterBurst, Kind::LossBurst];
        assert(v@ =~= mild_kinds());
        v
    }

    pub open spec fn name_text(self) -> Seq<char> {
        match self {
            Kind::FlashDisconnect => "flash_disconnect"@,
            Kind::Offline => "offline"@,
            Kind::Blackhole => "blackhole"@,
            Kind::DelaySpike => "delay_spike"@,
            Kind::DelayShift => "delay_shift"@,
            Kind::LossBurst => "loss_burst"@,
            Kind::JitterBurst => "jitter_burst"@,
            Kind::ConnBlackhole => "conn_blackhole"@,
            Kind::ConnStall => "conn_stall"@,
            Kind::ConnDisconnect => "conn_disconnect"@,
        }
    }

    pub fn name(self) -> (s: &'static str)
        ensures
            s@ == self.name_text(),
    {
        match self {
            Kind::FlashDisconnect => "flash_disconnect",
            Kind::Offline => "offline",
            Kind::Blackhole => "blackhole",
            Kind::DelaySpike => "delay_spike",
            Kind::DelayShift => "delay_shift",
            Kind::LossBurst => "loss_burst",
            Kind::JitterBurst => "jitter_burst",
            Kind::ConnBlackhole => "conn_blackhole",
            Kind::ConnStall => "conn_stall",
            Kind::ConnDisconnect => "conn_disconnect",
        }
    }

    /// The link carries nothing while the fault lasts.
    pub open spec fn is_hard(self) -> bool {
        self is Offline || self is Blackhole
    }

    pub fn hard_down(self) -> (r: bool)
        ensures
            r == self.is_hard(),
    {
        match self {
            Kind::Offline => true,
            Kind::Blackhole => true,
            _ => false,
        }
    }
}

// ---------------------------------------------------------------------------
// Strength
// ---------------------------------------------------------------------------
/// Up to here a link is near: its windows do not scale.
pub const NEAR_MS: u64 = 24;

/// Where a shifted round trip lands.
pub open spec fn shift_range(base: int, harsh: bool) -> (int, int) {
    if base <= NEAR_MS {
        if harsh {
            (100, 180)
        } else {
            (70, 110)
        }
    } else if harsh {
        let lo = larger(larger(base + 80, capped(18 * base) / 10), base + 20);
        (lo, larger(larger(base + 180, capped(28 * base) / 10), lo + 1))
    } else {
        let lo = larger(larger(base + 50, capped(17 * base) / 10), base + 20);
        (lo, larger(larger(base + 150, capped(25 * base) / 10), lo + 1))
    }
}

/// The round trip of a delay shift. Always slower than the base.
pub fn delay_shift_range(base_ms: u64, harsh: bool) -> (r: (u64, u64))
    requires
        base_ms <= u64::MAX - 200,
    ensures
        (r.0 as int, r.1 as int) == shift_range(base_ms as int, harsh),
{
    if base_ms <= NEAR_MS {
        return if harsh {
            (100, 180)
        } else {
            (70, 110)
        };
    }
    let (add_lo, add_hi, mul_lo, mul_hi): (u64, u64, u64, u64) = if harsh {
        (80, 180, 18, 28)
    } else {
        (50, 150, 17, 25)
    };
    let lo: u64 = max_u64(
        max_u64(base_ms + add_lo, mul_capped(base_ms, mul_lo) / 10),
        base_ms + 20,
    );
    let hi: u64 = max_u64(
        max_u64(base_ms + add_hi, mul_capped(base_ms, mul_hi) / 10),
        lo + 1,
    );
    (lo, hi)
}

/// What a spike adds.
pub open spec fn spike_range(base: int, slow: bool, harsh: bool) -> (int, int) {
    if slow {
        (larger(base / 8, 20), larger(base / 3, 60))
    } else if base <= NEAR_MS {
        if harsh {
            (120, 400)
        } else {
            (80, 250)
        }
    } else if harsh {
        (larger(base, 120), larger(capped(2 * base), 400))
    } else {
        (larger(base, 80), larger(capped(2 * base), 250))
    }
}

/// The delay that a spike adds.
pub fn extra_range(base_ms: u64, slow: bool, harsh: bool) -> (r: (u64, u64))
    ensures
        (r.0 as int, r.1 as int) == spike_range(base_ms as int, slow, harsh),
{
    if slow {
        return (max_u64(base_ms / 8, 20), max_u64(base_ms / 3, 60));
    }
    if base_ms <= NEAR_MS {
        return if harsh {
            (120, 400)
        } else {
            (80, 250)
        };
    }
    if harsh {
        (max_u64(base_ms, 120), max_u64(mul_capped(base_ms, 2), 400))
    } else {
        (max_u64(base_ms, 80), max_u64(mul_capped(base_ms, 2), 250))
    }
}

/// What a burst of jitter reaches.
pub open spec fn burst_range(base: int, slow: bool, harsh: bool) -> (int, int) {
    if slow {
        (larger(base / 20, 6), larger(base / 10, 14))
    } else if base <= NEAR_MS {
        if harsh {
            (20, 40)
        } else {
            (12, 28)
        }
    } else if harsh {
        (larger(base / 5, 20), larger(base / 2, 40))
    } else {
        (larger(base / 6, 12), larger(base / 2, 28))
    }
}

/// The jitter of a burst.
pub fn jitter_range(base_ms: u64, slow: bool, harsh: bool) -> (r: (u64, u64))
    ensures
        (r.0 as int, r.1 as int) == burst_range(base_ms as int, slow, harsh),
{
    if slow {
        return (max_u64(base_ms / 20, 6), max_u64(base_ms / 10, 14));
    }
    if base_ms <= NEAR_MS {
        return if harsh {
            (20, 40)
        } else {
            (12, 28)
        };
    }
    if harsh {
        (max_u64(base_ms / 5, 20), max_u64(base_ms / 2, 40))
    } else {
        (max_u64(base_ms / 6, 12), max_u64(base_ms / 2, 28))
    }
}

/// A loss that grows with the round trip: `start` and `base / per`, at most
/// `top`.
pub open spec fn rising(base: int, per: int, start: Dbl, top: Dbl) -> Dbl {
    least(added(quotient(whole(base), whole(per)), start), top)
}

/// A share in whole parts per million.
pub open spec fn in_ppm(x: Dbl) -> int {
    capped(product(x, whole(1_000_000)).floor())
}

/// What a burst of loss reaches, as shares.
pub open spec fn drop_shares(base: int, slow: bool, harsh: bool) -> (Dbl, Dbl) {
    if slow {
        let lo = rising(base, 20_000, frac(1, 100), frac(4, 100));
        (lo, most(rising(base, 8_000, frac(3, 100), frac(8, 100)), added(lo, frac(5, 1000))))
    } else if base <= NEAR_MS {
        if harsh {
            (frac(8, 100), frac(18, 100))
        } else {
            (frac(4, 100), frac(12, 100))
        }
    } else if harsh {
        let lo = rising(base, 4_000, frac(8, 100), frac(22, 100));
        (lo, most(rising(base, 2_500, frac(18, 100), frac(30, 100)), added(lo, frac(2, 100))))
    } else {
        let lo = rising(base, 5_000, frac(4, 100), frac(15, 100));
        (lo, most(rising(base, 2_500, frac(12, 100), frac(22, 100)), added(lo, frac(2, 100))))
    }
}

/// What a burst of loss reaches, in parts per million.
#[verifier::opaque]
pub open spec fn drop_range(base: int, slow: bool, harsh: bool) -> (int, int) {
    let shares = drop_shares(base, slow, harsh);
    (in_ppm(shares.0), in_ppm(shares.1))
}

/// How large the shares are that bound a loss.
proof fn lemma_shares()
    ensures
        forall|a: int|
            #![trigger frac(a, 100)]
            a == 1 || a == 2 || a == 3 || a == 4 || a == 8 || a == 12 || a == 15 || a == 18 || a
                == 22 || a == 30 ==> frac(a, 100).wf() && frac(a, 100).m > 0 && -59 <= frac(
                a,
                100,
            ).e <= -54,
        frac(5, 1000).wf() && frac(5, 1000).m > 0 && frac(5, 1000).e == -60,
{
    reveal_with_fuel(norm, 64);
}

proof fn lemma_divisors()
    ensures
        whole(20_000).m > 0 && whole(20_000).e == -38,
        whole(8_000).m > 0 && whole(8_000).e == -40,
        whole(4_000).m > 0 && whole(4_000).e == -41,
        whole(2_500).m > 0 && whole(2_500).e == -41,
        whole(5_000).m > 0 && whole(5_000).e == -40,
{
    reveal_with_fuel(norm, 64);
}

proof fn lemma_rising(near: int, far: int, per: int, start: Dbl, top: Dbl)
    requires
        0 <= near <= far,
        per > 0,
        start.wf(),
        start.m > 0,
        top.wf(),
        top.m > 0,
        !top.lt(start),
    ensures
        rising(near, per, start, top).wf(),
        rising(near, per, start, top).m > 0,
        !rising(near, per, start, top).lt(start),
        !top.lt(rising(near, per, start, top)),
        !rising(far, per, start, top).lt(rising(near, per, start, top)),
{
    let (a, b) = (quotient(whole(near), whole(per)), quotient(whole(far), whole(per)));
    lemma_whole_order(near, far);
    lemma_whole_order(per, per);
    lemma_over_order(whole(near), whole(far), whole(per));
    lemma_quotient_wf(whole(near), whole(per));
    lemma_quotient_wf(whole(far), whole(per));
    lemma_plus_order(a, b, start);
    lemma_added_no_less(a, start);
    lemma_added_no_less(b, start);
}

proof fn lemma_in_ppm(x: Dbl, y: Dbl)
    requires
        x.wf(),
        y.wf(),
        !y.lt(x),
    ensures
        0 <= in_ppm(x) <= in_ppm(y),
{
    let million = whole(1_000_000);
    lemma_whole_order(1_000_000, 1_000_000);
    lemma_times_order(x, y, million, million);
    lemma_product_wf(x, million);
    lemma_product_wf(y, million);
    lemma_floor_order(product(x, million), product(y, million));
}

fn rise(base: u64, per: u64, start: Double, top: Double) -> (d: Double)
    requires
        per > 0,
        whole(per as int).m > 0,
        -41 <= whole(per as int).e <= -38,
        start@.wf(),
        top@.wf(),
        start.m > 0,
        top.m > 0,
        -59 <= start.e <= -54,
        -59 <= top.e <= -54,
        !top@.lt(start@),
    ensures
        d@ == rising(base as int, per as int, start@, top@),
        d.m > 0,
        d@.wf(),
        -59 <= d.e <= -54,
{
    proof {
        if base > 0 {
            lemma_whole_fine(base as int);
        }
        lemma_rising(base as int, base as int, per as int, start@, top@);
    }
    whole_double(base).over(whole_double(per)).plus(start).min(top)
}

fn as_ppm(x: Double) -> (n: u64)
    requires
        x.within(900),
    ensures
        n == in_ppm(x@),
{
    x.times(whole_double(1_000_000)).floor_capped()
}

fn loss_between(
    base: u64,
    low: (u64, u64, u64),
    high: (u64, u64, u64),
    gap: Double,
) -> (r: (u64, u64))
    requires
        low.0 > 0 && whole(low.0 as int).m > 0 && -41 <= whole(low.0 as int).e <= -38,
        high.0 > 0 && whole(high.0 as int).m > 0 && -41 <= whole(high.0 as int).e <= -38,
        low.1 <= low.2,
        high.1 <= high.2,
        bounding(low.1) && bounding(low.2) && bounding(high.1) && bounding(high.2),
        gap@.wf(),
        gap.m > 0,
        -60 <= gap.e <= -54,
    ensures
        ({
            let lo = rising(
                base as int,
                low.0 as int,
                frac(low.1 as int, 100),
                frac(low.2 as int, 100),
            );
            let hi = rising(
                base as int,
                high.0 as int,
                frac(high.1 as int, 100),
                frac(high.2 as int, 100),
            );
            r.0 == in_ppm(lo) && r.1 == in_ppm(most(hi, added(lo, gap@)))
        }),
{
    proof {
        lemma_shares();
        lemma_frac_order(low.1 as int, low.2 as int, 100);
        lemma_frac_order(high.1 as int, high.2 as int, 100);
    }
    let lo: Double = rise(base, low.0, frac_double(low.1, 100), frac_double(low.2, 100));
    let hi: Double = rise(base, high.0, frac_double(high.1, 100), frac_double(high.2, 100));
    let top: Double = hi.max(lo.plus(gap));
    (as_ppm(lo), as_ppm(top))
}

/// One of the percentages that bound a loss.
spec fn bounding(a: u64) -> bool {
    a == 1 || a == 2 || a == 3 || a == 4 || a == 8 || a == 12 || a == 15 || a == 18 || a == 22 || a
        == 30
}

/// The loss of a burst, in parts per million.
pub fn loss_range(base_ms: u64, slow: bool, harsh: bool) -> (r: (u64, u64))
    ensures
        (r.0 as int, r.1 as int) == drop_range(base_ms as int, slow, harsh),
{
    proof {
        reveal(drop_range);
        lemma_shares();
        lemma_divisors();
    }
    if slow {
        return loss_between(base_ms, (20_000, 1, 4), (8_000, 3, 8), frac_double(5, 1000));
    }
    if base_ms <= NEAR_MS {
        return if harsh {
            (as_ppm(frac_double(8, 100)), as_ppm(frac_double(18, 100)))
        } else {
            (as_ppm(frac_double(4, 100)), as_ppm(frac_double(12, 100)))
        };
    }
    if harsh {
        loss_between(base_ms, (4_000, 8, 22), (2_500, 18, 30), frac_double(2, 100))
    } else {
        loss_between(base_ms, (5_000, 4, 15), (2_500, 12, 22), frac_double(2, 100))
    }
}

/// Rising bounds, each with the other.
proof fn lemma_drop_order(
    near: int,
    far: int,
    low: (int, int, int),
    high: (int, int, int),
    gap: Dbl,
)
    requires
        0 <= near <= far,
        low.0 > 0,
        high.0 > 0,
        0 < low.1 <= low.2,
        0 < high.1 <= high.2,
        frac(low.1, 100).m > 0 && frac(low.2, 100).m > 0,
        frac(high.1, 100).m > 0 && frac(high.2, 100).m > 0,
        gap.wf(),
        gap.m > 0,
    ensures
        ({
            let lo = rising(near, low.0, frac(low.1, 100), frac(low.2, 100));
            let hi = most(
                rising(near, high.0, frac(high.1, 100), frac(high.2, 100)),
                added(lo, gap),
            );
            let lo2 = rising(far, low.0, frac(low.1, 100), frac(low.2, 100));
            let hi2 = most(
                rising(far, high.0, frac(high.1, 100), frac(high.2, 100)),
                added(lo2, gap),
            );
            &&& 0 <= in_ppm(frac(low.1, 100)) <= in_ppm(lo) <= in_ppm(hi)
            &&& in_ppm(frac(high.1, 100)) <= in_ppm(hi)
            &&& in_ppm(lo) <= in_ppm(lo2)
            &&& in_ppm(hi) <= in_ppm(hi2)
        }),
{
    let (l1, l2) = (frac(low.1, 100), frac(low.2, 100));
    let (h1, h2) = (frac(high.1, 100), frac(high.2, 100));
    lemma_frac_order(low.1, low.2, 100);
    lemma_frac_order(high.1, high.2, 100);
    lemma_rising(near, far, low.0, l1, l2);
    lemma_rising(far, far, low.0, l1, l2);
    lemma_rising(near, far, high.0, h1, h2);
    lemma_rising(far, far, high.0, h1, h2);
    let lo = rising(near, low.0, l1, l2);
    let lo2 = rising(far, low.0, l1, l2);
    let (up, up2) = (rising(near, high.0, h1, h2), rising(far, high.0, h1, h2));
    lemma_added_no_less(lo, gap);
    lemma_added_no_less(lo2, gap);
    lemma_plus_order(lo, lo2, gap);
    let hi = most(up, added(lo, gap));
    let hi2 = most(up2, added(lo2, gap));
    lemma_in_ppm(l1, lo);
    lemma_in_ppm(lo, hi);
    lemma_in_ppm(h1, hi);
    lemma_in_ppm(lo, lo2);
    lemma_in_ppm(hi, hi2);
}

/// How long a fault lasts, in milliseconds.
pub open spec fn hold_span(kind: Kind, slow: bool, harsh: bool) -> (u64, u64) {
    match kind {
        Kind::FlashDisconnect => (200, 200),
        Kind::ConnDisconnect => (200, 200),
        Kind::Offline => if harsh {
            (4000, 8000)
        } else {
            (2000, 7000)
        },
        Kind::Blackhole => if harsh {
            (3000, 8000)
        } else {
            (1500, 5000)
        },
        Kind::DelaySpike => if slow {
            (400, 1200)
        } else {
            (800, 2500)
        },
        Kind::DelayShift => if harsh {
            (4000, 9000)
        } else {
            (2500, 7000)
        },
        Kind::LossBurst => burst_span(slow, harsh),
        Kind::JitterBurst => burst_span(slow, harsh),
        Kind::ConnBlackhole => (1500, 4000),
        Kind::ConnStall => (1500, 4000),
    }
}

pub open spec fn burst_span(slow: bool, harsh: bool) -> (u64, u64) {
    if slow {
        (800, 2500)
    } else if harsh {
        (3000, 8000)
    } else {
        (2000, 6000)
    }
}

/// The bounds of a fault's length.
pub fn hold_range(kind: Kind, slow: bool, harsh: bool) -> (r: (u64, u64))
    ensures
        r == hold_span(kind, slow, harsh),
        r.0 <= r.1,
{
    match kind {
        Kind::FlashDisconnect => (200, 200),
        Kind::ConnDisconnect => (200, 200),
        Kind::Offline => if harsh {
            (4000, 8000)
        } else {
            (2000, 7000)
        },
        Kind::Blackhole => if harsh {
            (3000, 8000)
        } else {
            (1500, 5000)
        },
        Kind::DelaySpike => if slow {
            (400, 1200)
        } else {
            (800, 2500)
        },
        Kind::DelayShift => if harsh {
            (4000, 9000)
        } else {
            (2500, 7000)
        },
        Kind::ConnBlackhole => (1500, 4000),
        Kind::ConnStall => (1500, 4000),
        Kind::LossBurst | Kind::JitterBurst => if slow {
            (800, 2500)
        } else if harsh {
            (3000, 8000)
        } else {
            (2000, 6000)
        },
    }
}

// ---------------------------------------------------------------------------
// What a fault does
// ---------------------------------------------------------------------------
/// What a fault does to its link. Delays in milliseconds, loss in parts per
/// million.
#[derive(Clone, Copy, Debug, PartialEq, Eq, Structural)]
pub enum Change {
    ResetAll,
    DarkAndReset,
    Dark,
    Extra(u64),
    Rtt(u64),
    Loss(u64),
    Jitter(u64),
    DarkFirst,
    StallFirst,
    ResetFirst,
}

/// How strong a fault of a kind may be; none for those that have no strength.
pub open spec fn strength_span(kind: Kind, base: int, slow: bool, harsh: bool) -> Option<
    (int, int),
> {
    match kind {
        Kind::DelaySpike => Some(spike_range(base, slow, harsh)),
        Kind::DelayShift => Some(shift_range(base, harsh)),
        Kind::LossBurst => Some(drop_range(base, slow, harsh)),
        Kind::JitterBurst => Some(burst_range(base, slow, harsh)),
        _ => None,
    }
}

/// What a fault of a kind does at a given strength.
pub open spec fn change_with(kind: Kind, strength: u64) -> Change {
    match kind {
        Kind::FlashDisconnect => Change::ResetAll,
        Kind::Offline => Change::DarkAndReset,
        Kind::Blackhole => Change::Dark,
        Kind::DelaySpike => Change::Extra(strength),
        Kind::DelayShift => Change::Rtt(strength),
        Kind::LossBurst => Change::Loss(strength),
        Kind::JitterBurst => Change::Jitter(strength),
        Kind::ConnBlackhole => Change::DarkFirst,
        Kind::ConnStall => Change::StallFirst,
        Kind::ConnDisconnect => Change::ResetFirst,
    }
}

pub fn change_of(kind: Kind, strength: u64) -> (c: Change)
    ensures
        c == change_with(kind, strength),
{
    match kind {
        Kind::FlashDisconnect => Change::ResetAll,
        Kind::Offline => Change::DarkAndReset,
        Kind::Blackhole => Change::Dark,
        Kind::DelaySpike => Change::Extra(strength),
        Kind::DelayShift => Change::Rtt(strength),
        Kind::LossBurst => Change::Loss(strength),
        Kind::JitterBurst => Change::Jitter(strength),
        Kind::ConnBlackhole => Change::DarkFirst,
        Kind::ConnStall => Change::StallFirst,
        Kind::ConnDisconnect => Change::ResetFirst,
    }
}

/// A change in words.
pub open spec fn change_text(c: Change) -> Seq<char> {
    match c {
        Change::ResetAll => "rst_all"@,
        Change::DarkAndReset => "blackhole+rst"@,
        Change::Dark => ""@,
        Change::Extra(ms) => "extra="@ + decimal(ms as int) + "ms"@,
        Change::Rtt(ms) => "rtt→"@ + decimal(ms as int) + "ms"@,
        Change::Loss(ppm) => "loss="@ + thousandths(capped(per_million(ppm as int).shown(1000))),
        Change::Jitter(ms) => "jitter="@ + decimal(ms as int) + "ms"@,
        Change::DarkFirst => "conn0"@,
        Change::StallFirst => "conn0"@,
        Change::ResetFirst => "rst_conn0"@,
    }
}

fn amount(before: &str, n: u64, unit: &str) -> (s: String)
    ensures
        s@ == before@ + decimal(n as int) + unit@,
{
    let mut s: String = text(before);
    push_decimal(&mut s, n);
    push_text(&mut s, unit);
    s
}

pub fn describe(c: Change) -> (s: String)
    ensures
        s@ == change_text(c),
{
    match c {
        Change::ResetAll => text("rst_all"),
        Change::DarkAndReset => text("blackhole+rst"),
        Change::Dark => text(""),
        Change::Extra(ms) => amount("extra=", ms, "ms"),
        Change::Rtt(ms) => amount("rtt→", ms, "ms"),
        Change::Loss(ppm) => {
            let mut s: String = text("loss=");
            push_thousandths(&mut s, millionths(ppm).shown_capped(1000));
            s
        },
        Change::Jitter(ms) => amount("jitter=", ms, "ms"),
        Change::DarkFirst => text("conn0"),
        Change::StallFirst => text("conn0"),
        Change::ResetFirst => text("rst_conn0"),
    }
}

/// A fault that is about to start.
#[derive(Clone, Copy, Debug)]
pub struct Fault {
    pub kind: Kind,
    pub hold_ms: u64,
    pub change: Change,
}

/// `f` is a fault that a link of this base may take.
pub open spec fn fits(f: Fault, kind: Kind, base: int, slow: bool, harsh: bool) -> bool {
    let (lo, hi) = hold_span(kind, slow, harsh);
    &&& f.kind == kind
    &&& lo <= f.hold_ms <= hi
    &&& match strength_span(kind, base, slow, harsh) {
        Some(span) => exists|x: u64|
            span.0 <= x <= span.1 && f.change == #[trigger] change_with(kind, x),
        None => f.change == change_with(kind, 0),
    }
}

/// Draw the length and the strength of a fault.
pub fn plan_fault(
    kind: Kind,
    base_ms: u64,
    slow: bool,
    harsh: bool,
    rng: &mut rand::rngs::StdRng,
) -> (f: Fault)
    requires
        base_ms <= u64::MAX - 200,
    ensures
        fits(f, kind, base_ms as int, slow, harsh),
{
    let (lo, hi): (u64, u64) = hold_range(kind, slow, harsh);
    let hold_ms: u64 = draw(rng, lo, hi);
    let span: Option<(u64, u64)> = match kind {
        Kind::DelaySpike => Some(extra_range(base_ms, slow, harsh)),
        Kind::DelayShift => Some(delay_shift_range(base_ms, harsh)),
        Kind::LossBurst => Some(loss_range(base_ms, slow, harsh)),
        Kind::JitterBurst => Some(jitter_range(base_ms, slow, harsh)),
        _ => None,
    };
    let strength: u64 = match span {
        Some(s) => {
            let (from, to): (u64, u64) = s;
            proof {
                law_ranges_are_ranges(kind, base_ms as int, slow, harsh);
            }
            pick_ms(rng, from, to)
        },
        None => 0,
    };
    let f: Fault = Fault { kind, hold_ms, change: change_of(kind, strength) };
    assert(f.change == change_with(kind, strength));
    f
}

// ---------------------------------------------------------------------------
// On the link
// ---------------------------------------------------------------------------
/// What a link is like without a fault.
#[derive(Clone, Copy, Debug, PartialEq, Eq, Structural)]
pub struct Baseline {
    pub rtt_us: u64,
    pub jitter_us: u64,
    pub loss_ppm: u64,
}

impl Baseline {
    pub fn of(l: &LinkSpec) -> (b: Baseline)
        ensures
            b.rtt_us == capped(l.rtt_ms * 1000),
            b.jitter_us == capped(l.jitter_ms * 1000),
            b.loss_ppm == l.loss_ppm,
    {
        Baseline {
            rtt_us: mul_capped(l.rtt_ms, 1000),
            jitter_us: mul_capped(l.jitter_ms, 1000),
            loss_ppm: l.loss_ppm,
        }
    }
}

/// The connections without faults of their own.
pub open spec fn cleared(conns: Seq<ConnCtrl>) -> Seq<ConnCtrl> {
    conns.map_values(|c: ConnCtrl| ConnCtrl { blackhole: false, stall: false, ..c })
}

impl LinkState {
    /// What is left of this link once a fault is lifted.
    pub open spec fn restored(self, b: Baseline, l: LinkState) -> bool {
        &&& l.conns@ == cleared(self.conns@)
        &&& l == (LinkState {
            rtt_us: b.rtt_us,
            jitter_us: b.jitter_us,
            loss_ppm: ppm_of(b.loss_ppm),
            extra_us: 0,
            blackhole: false,
            conns: l.conns,
            ..self
        })
    }

    /// Lift whatever was done to the link.
    pub fn restore(&mut self, b: Baseline)
        ensures
            old(self).restored(b, *final(self)),
    {
        self.set_rtt(b.rtt_us);
        self.set_jitter(b.jitter_us);
        self.set_loss(b.loss_ppm);
        self.set_extra(0);
        self.set_blackhole(false);
        self.clear_conn_faults();
        assert(self.conns@ =~= cleared(old(self).conns@));
    }

    /// The link with every connection closed.
    pub open spec fn reset_all(self) -> LinkState {
        LinkState {
            kills: 0,
            counts: LinkCounts {
                drops: capped(self.counts.drops + self.kills) as u64,
                ..self.counts
            },
            ..self
        }
    }

    /// The link after a change.
    pub open spec fn changed(self, c: Change, l: LinkState) -> bool {
        match c {
            Change::ResetAll => l == self.reset_all(),
            Change::DarkAndReset => l == (LinkState { blackhole: true, ..self.reset_all() }),
            Change::Dark => l == (LinkState { blackhole: true, ..self }),
            Change::Extra(ms) => l == (LinkState { extra_us: capped(ms * 1000) as u64, ..self }),
            Change::Rtt(ms) => l == (LinkState { rtt_us: capped(ms * 1000) as u64, ..self }),
            Change::Loss(ppm) => l == (LinkState { loss_ppm: ppm_of(ppm), ..self }),
            Change::Jitter(ms) => l == (LinkState { jitter_us: capped(ms * 1000) as u64, ..self }),
            Change::DarkFirst => {
                &&& l.conns@ == with_live(
                    self.conns@,
                    0,
                    |c: ConnCtrl| ConnCtrl { blackhole: true, ..c },
                )
                &&& l == (LinkState { conns: l.conns, ..self })
            },
            Change::StallFirst => {
                &&& l.conns@ == with_live(
                    self.conns@,
                    0,
                    |c: ConnCtrl| ConnCtrl { stall: true, ..c },
                )
                &&& l == (LinkState { conns: l.conns, ..self })
            },
            Change::ResetFirst => {
                &&& l.conns@ == with_live(
                    self.conns@,
                    0,
                    |c: ConnCtrl| ConnCtrl { alive: false, ..c },
                )
                &&& l == (LinkState {
                    conns: l.conns,
                    counts: LinkCounts {
                        drops: if live_of(self.conns@).len() > 0 {
                            capped(self.counts.drops + 1) as u64
                        } else {
                            self.counts.drops
                        },
                        ..self.counts
                    },
                    ..self
                })
            },
        }
    }

    /// Start a fault.
    pub fn change(&mut self, c: Change)
        ensures
            old(self).changed(c, *final(self)),
    {
        match c {
            Change::ResetAll => {
                let _n: u64 = self.disconnect_all();
            },
            Change::DarkAndReset => {
                self.set_blackhole(true);
                let _n: u64 = self.disconnect_all();
            },
            Change::Dark => {
                self.set_blackhole(true);
            },
            Change::Extra(ms) => {
                self.set_extra(mul_capped(ms, 1000));
            },
            Change::Rtt(ms) => {
                self.set_rtt(mul_capped(ms, 1000));
            },
            Change::Loss(ppm) => {
                self.set_loss(ppm);
            },
            Change::Jitter(ms) => {
                self.set_jitter(mul_capped(ms, 1000));
            },
            Change::DarkFirst => {
                self.set_conn_blackhole(0, true);
            },
            Change::StallFirst => {
                self.set_conn_stall(0, true);
            },
            Change::ResetFirst => {
                let _at: Option<usize> = self.disconnect_conn(0);
            },
        }
    }
}

// ---------------------------------------------------------------------------
// Laws
// ---------------------------------------------------------------------------
/// A delay shift always makes a link slower.
pub proof fn law_delay_shift_never_speeds_up(base: int, harsh: bool)
    requires
        0 <= base <= u64::MAX - 200,
    ensures
        base < shift_range(base, harsh).0 < shift_range(base, harsh).1,
{
}

/// Every strength has its smaller bound first.
pub proof fn law_ranges_are_ranges(kind: Kind, base: int, slow: bool, harsh: bool)
    requires
        0 <= base <= u64::MAX,
    ensures
        match strength_span(kind, base, slow, harsh) {
            Some(span) => 0 <= span.0 <= span.1,
            None => true,
        },
{
    if kind is LossBurst {
        lemma_drop_ordered(base, base, slow, harsh);
    }
}

proof fn lemma_drop_ordered(near: int, far: int, slow: bool, harsh: bool)
    requires
        0 <= near <= far,
    ensures
        ({
            let (a, b) = (drop_range(near, slow, harsh), drop_range(far, slow, harsh));
            0 <= a.0 <= a.1 && a.0 <= b.0 && a.1 <= b.1
        }),
{
    reveal(drop_range);
    lemma_shares();
    lemma_drop_order(near, far, (20_000, 1, 4), (8_000, 3, 8), frac(5, 1000));
    lemma_drop_order(near, far, (4_000, 8, 22), (2_500, 18, 30), frac(2, 100));
    lemma_drop_order(far, far, (4_000, 8, 22), (2_500, 18, 30), frac(2, 100));
    lemma_drop_order(near, far, (5_000, 4, 15), (2_500, 12, 22), frac(2, 100));
    lemma_drop_order(far, far, (5_000, 4, 15), (2_500, 12, 22), frac(2, 100));
    lemma_frac_order(8, 18, 100);
    lemma_frac_order(4, 12, 100);
    lemma_in_ppm(frac(8, 100), frac(18, 100));
    lemma_in_ppm(frac(4, 100), frac(12, 100));
}

/// On a link that is not slow, a longer round trip never makes a fault of it
/// weaker.
pub proof fn law_far_faults_are_harsher(kind: Kind, near: int, far: int, harsh: bool)
    requires
        0 <= near <= far <= u64::MAX - 200,
    ensures
        match (
            strength_span(kind, near, false, harsh),
            strength_span(kind, far, false, harsh),
        ) {
            (Some(a), Some(b)) => a.0 <= b.0 && a.1 <= b.1,
            _ => true,
        },
{
    if kind is LossBurst {
        lemma_drop_ordered(near, far, false, harsh);
    }
}

/// Nothing that a slow link takes brings it down.
pub proof fn law_mild_is_never_hard(kind: Kind)
    requires
        mild_kinds().contains(kind),
    ensures
        !kind.is_hard(),
        all_kinds().contains(kind),
{
    assert(all_kinds()[3] == Kind::DelaySpike);
    assert(all_kinds()[5] == Kind::LossBurst);
    assert(all_kinds()[6] == Kind::JitterBurst);
}

/// Every kind is listed, once.
pub proof fn law_all_kinds_are_listed(kind: Kind)
    ensures
        all_kinds().contains(kind),
        all_kinds().no_duplicates(),
{
    let k = all_kinds();
    match kind {
        Kind::FlashDisconnect => assert(k[0] == kind),
        Kind::Offline => assert(k[1] == kind),
        Kind::Blackhole => assert(k[2] == kind),
        Kind::DelaySpike => assert(k[3] == kind),
        Kind::DelayShift => assert(k[4] == kind),
        Kind::LossBurst => assert(k[5] == kind),
        Kind::JitterBurst => assert(k[6] == kind),
        Kind::ConnBlackhole => assert(k[7] == kind),
        Kind::ConnStall => assert(k[8] == kind),
        Kind::ConnDisconnect => assert(k[9] == kind),
    }
}

/// A fault that was lifted leaves its link as one that never had it: only
/// what it closed stays closed, and what it counted stays counted.
pub proof fn law_restore_undoes_a_fault(
    start: LinkState,
    b: Baseline,
    c: Change,
    mid: LinkState,
    end: LinkState,
    calm: LinkState,
)
    requires
        start.changed(c, mid),
        mid.restored(b, end),
        start.restored(b, calm),
    ensures
        end.rtt_us == calm.rtt_us,
        end.jitter_us == calm.jitter_us,
        end.extra_us == calm.extra_us,
        end.loss_ppm == calm.loss_ppm,
        end.blackhole == calm.blackhole,
        end.conns@.len() == calm.conns@.len(),
        forall|i: int|
            0 <= i < end.conns@.len() ==> end.conns@[i].blackhole == (
            #[trigger] calm.conns@[i]).blackhole && end.conns@[i].stall == calm.conns@[i].stall,
        !(c is ResetFirst) ==> end.conns@ == calm.conns@,
{
    lemma_live_of(start.conns@);
    if !(c is ResetFirst) {
        assert(end.conns@ =~= calm.conns@);
    }
}

/// Every range of strengths goes up, and a harsher one of the same kind starts
/// no lower; a slow link is given less than it takes itself.
pub proof fn law_strengths_are_ordered(base: int, slow: bool, harsh: bool)
    requires
        0 <= base <= 1_000_000,
    ensures
        shift_range(base, harsh).0 < shift_range(base, harsh).1,
        shift_range(base, harsh).0 >= base + 20,
        shift_range(base, true).0 >= shift_range(base, false).0,
        spike_range(base, slow, harsh).0 < spike_range(base, slow, harsh).1,
        spike_range(base, slow, true).0 >= spike_range(base, slow, false).0,
        burst_range(base, slow, harsh).0 < burst_range(base, slow, harsh).1,
        burst_range(base, slow, true).0 >= burst_range(base, slow, false).0,
        base >= 200 ==> spike_range(base, true, harsh).1 <= base,
{
}

/// A hold lasts some time and goes up.
pub proof fn law_holds_are_spans(kind: Kind, slow: bool, harsh: bool)
    ensures
        200 <= hold_span(kind, slow, harsh).0 <= hold_span(kind, slow, harsh).1 <= 9000,
{
}

/// A fault changes the link in the way of its kind and a restoration takes every
/// change back.
pub proof fn law_a_restored_link_is_as_before(
    l: LinkState,
    n: LinkState,
    m: LinkState,
    c: Change,
    b: Baseline,
)
    requires
        l.changed(c, n),
        n.restored(b, m),
        b.rtt_us == l.rtt_us,
        b.jitter_us == l.jitter_us,
        b.loss_ppm == l.loss_ppm,
        l.loss_ppm <= 1_000_000,
    ensures
        m.rtt_us == l.rtt_us,
        m.jitter_us == l.jitter_us,
        m.loss_ppm == l.loss_ppm,
        m.extra_us == 0,
        !m.blackhole,
        m.rate_bps == l.rate_bps,
        m.queue_bytes == l.queue_bytes,
{
}

/// What a fault does to a link while it lasts.
pub proof fn law_what_a_fault_does(l: LinkState, n: LinkState, ms: u64, ppm: u64)
    requires
        ms * 1000 <= u64::MAX,
        ppm <= 1_000_000,
    ensures
        l.changed(change_with(Kind::DelaySpike, ms), n) ==> n.extra_us == ms * 1000 && n.rtt_us
            == l.rtt_us,
        l.changed(change_with(Kind::DelayShift, ms), n) ==> n.rtt_us == ms * 1000 && n.extra_us
            == l.extra_us,
        l.changed(change_with(Kind::JitterBurst, ms), n) ==> n.jitter_us == ms * 1000,
        l.changed(change_with(Kind::LossBurst, ppm), n) ==> n.loss_ppm == ppm,
        l.changed(change_with(Kind::Blackhole, ms), n) ==> n.blackhole && n.kills == l.kills,
        l.changed(change_with(Kind::Offline, ms), n) ==> n.blackhole && n.kills == 0,
        l.changed(change_with(Kind::FlashDisconnect, ms), n) ==> n.kills == 0 && n.blackhole
            == l.blackhole,
{
}

} // verus!
