//! Health / failback / class / IO / reconnect formulas.
//!
//! Durations are microseconds held in a `u64`. Sums that would not fit are
//! held at `u64::MAX`, which no timer on this clock can reach.

use vstd::prelude::*;

use crate::accuracy::{lemma_exact_part, lemma_stretch_is_near};
use crate::double::{
    frac, frac_double, lemma_floor_order, lemma_frac_order, lemma_half_again,
    lemma_nine_twentieths, lemma_product_wf, lemma_times_order,
    lemma_whole_exact, lemma_whole_order, product, two_to, whole, whole_double, zero,
};
use crate::num::{above, capped, larger, max_u64, mul_capped, within};

verus! {

/// A non-negative multiplier: the double nearest to `num / den`.
#[derive(Clone, Copy, Debug, PartialEq, Eq, Structural)]
pub struct Ratio {
    pub num: u64,
    pub den: u64,
}

/// `us` times the ratio, in doubles, rounded down.
#[verifier::opaque]
pub open spec fn stretched(us: int, mult: Ratio) -> int {
    capped(product(whole(us), frac(mult.num as int, mult.den as int)).floor())
}

/// `rtt` times the ratio, rounded down, plus `add`.
pub open spec fn scaled(rtt: int, mult: Ratio, add: int) -> int {
    capped(stretched(rtt, mult) + add)
}

/// Hidden overlay parameters. Take [`Tuning::standard`] and change what a test needs.
#[derive(Clone, Copy, Debug, PartialEq, Eq, Structural)]
pub struct Tuning {
    // --- health extras (formula is `clamp(rtt * mult + add, floor, ceil)`) ---
    /// Maintain tick. Must be << loss timeout on fast paths.
    pub maintain_interval: u64,
    pub loss_timeout_mult: Ratio,
    pub loss_timeout_floor: u64,
    pub loss_timeout_add: u64,
    pub loss_timeout_ceil: u64,
    pub down_timeout_mult: Ratio,
    pub down_timeout_add: u64,
    pub down_timeout_ceil: u64,
    /// Floor on path-down silence (then +probe). Keeps 80-250ms delay spikes
    /// from tearing TCP on fast paths; 5xRTT still binds on slow paths.
    pub down_min_silence: u64,
    /// First-Pong floor for degrade when RTT is still unknown.
    pub unknown_degrade_min: u64,
    pub backup_rtt_mult: Ratio,
    pub backup_rtt_add: u64,
    /// Class-jump failback: current >= better x mult + add.
    pub failback_class_mult: Ratio,
    pub failback_class_add: u64,
    /// Same-class failback floor. Actual delta is
    /// `max(failback_abs, better_rtt * failback_abs_frac)`.
    pub failback_abs: u64,
    pub failback_abs_frac: Ratio,
    pub failback_stable: u64,
    pub failback_cooldown: u64,
    /// Fast RTT must stay high this long before stable RTT (loss budget) rises.
    pub stable_up_hold: u64,
    // --- path RTT ---
    /// Assumed RTT before the first ping completes.
    pub unknown_rtt_us: u64,
    /// Extra score penalty for unknown RTT in path pick.
    pub unknown_rtt_score_mult: u64,
    /// Raise stable RTT only if fast > stable x this and + add_us.
    pub stable_raise_mult: u64,
    pub stable_raise_add_us: u64,
    /// Class-RTT drop floor. Actual need is `max(abs, class * class_drop_frac)`
    /// for `stable_up_hold`, then 7/8.
    pub class_drop_abs_us: u64,
    /// Of *class*. A quarter recovers a 2-step 7/8 raise (~1.35x) and ignores
    /// jitter of a fifth of the RTT.
    pub class_drop_frac: Ratio,
    pub pending_ping_max: usize,
    // --- IO / QoS ---
    /// Path writer, incoming, and inbound channel depth.
    pub chan: usize,
    /// STREAM_DATA up to this length rides the urgent writer; bulk ACKs are not RTT.
    pub interactive_max: usize,
    pub ack_rtt_min: u64,
    pub ack_rtt_max: u64,
    // --- scheduler / stream ---
    pub inflight_bias: u64,
    pub min_rebalance_slack: u64,
    pub initial_window: u32,
    // --- wait / reconnect ---
    pub handshake_timeout: u64,
    pub reconnect_backoff_min: u64,
    pub reconnect_backoff_max: u64,
    pub join_poll: u64,
    pub ready_poll: u64,
}

/// The production table.
pub open spec fn standard_table() -> Tuning {
    Tuning {
        maintain_interval: 5_000,
        loss_timeout_mult: Ratio { num: 2, den: 1 },
        loss_timeout_floor: 20_000,
        loss_timeout_add: 0,
        loss_timeout_ceil: 2_000_000,
        down_timeout_mult: Ratio { num: 5, den: 1 },
        down_timeout_add: 0,
        down_timeout_ceil: 5_000_000,
        down_min_silence: 320_000,
        unknown_degrade_min: 300_000,
        backup_rtt_mult: Ratio { num: 2, den: 1 },
        backup_rtt_add: 20_000,
        failback_class_mult: Ratio { num: 3, den: 2 },
        failback_class_add: 8_000,
        failback_abs: 8_000,
        failback_abs_frac: Ratio { num: 9, den: 20 },
        failback_stable: 250_000,
        failback_cooldown: 200_000,
        stable_up_hold: 1_000_000,
        unknown_rtt_us: 20_000,
        unknown_rtt_score_mult: 2,
        stable_raise_mult: 2,
        stable_raise_add_us: 15_000,
        class_drop_abs_us: 8_000,
        class_drop_frac: Ratio { num: 1, den: 4 },
        pending_ping_max: 32,
        chan: 64,
        interactive_max: 1500,
        ack_rtt_min: 100,
        ack_rtt_max: 2_000_000,
        inflight_bias: 65_536,
        min_rebalance_slack: 16_384,
        initial_window: 131_072,
        handshake_timeout: 3_000_000,
        reconnect_backoff_min: 200_000,
        reconnect_backoff_max: 2_000_000,
        join_poll: 20_000,
        ready_poll: 50_000,
    }
}

impl Tuning {
    /// Every multiplier has a denominator.
    pub open spec fn wf(self) -> bool {
        &&& self.loss_timeout_mult.den > 0
        &&& self.down_timeout_mult.den > 0
        &&& self.backup_rtt_mult.den > 0
        &&& self.failback_class_mult.den > 0
        &&& self.failback_abs_frac.den > 0
        &&& self.class_drop_frac.den > 0
    }

    /// How long a piece may stay unacknowledged on a path of this RTT.
    pub open spec fn loss_timeout_of(self, rtt: int) -> int {
        within(
            scaled(rtt, self.loss_timeout_mult, self.loss_timeout_add as int),
            self.loss_timeout_floor as int,
            self.loss_timeout_ceil as int,
        )
    }

    /// How long a path of this RTT and probe interval may stay silent.
    pub open spec fn down_timeout_of(self, rtt: int, probe: int) -> int {
        let min_silence = capped(self.down_min_silence + probe);
        within(
            larger(
                capped(scaled(rtt, self.down_timeout_mult, self.down_timeout_add as int) + probe),
                min_silence,
            ),
            min_silence,
            self.down_timeout_ceil as int,
        )
    }

    /// `current` is a whole class slower than `better`.
    pub open spec fn is_class_jump(self, current: int, better: int) -> bool {
        current >= stretched(better, self.failback_class_mult) + self.failback_class_add
    }

    /// The gain a move inside one class must bring.
    pub open spec fn failback_delta_of(self, better: int) -> int {
        larger(self.failback_abs as int, stretched(better, self.failback_abs_frac))
    }

    /// A stream on `current` should go home to `better`.
    pub open spec fn failback_due(self, current: int, better: int) -> bool {
        &&& better < current
        &&& self.is_class_jump(current, better) || current - better >= self.failback_delta_of(better)
    }

    /// The gap by which `fast` must undercut `class` before the class follows.
    pub open spec fn class_drop_need(self, class_us: int) -> int {
        larger(self.class_drop_abs_us as int, stretched(class_us, self.class_drop_frac))
    }

    /// The production table.
    pub fn standard() -> (t: Self)
        ensures
            t == standard_table(),
            t.wf(),
    {
        Tuning {
            maintain_interval: 5_000,
            loss_timeout_mult: Ratio { num: 2, den: 1 },
            loss_timeout_floor: 20_000,
            loss_timeout_add: 0,
            loss_timeout_ceil: 2_000_000,
            down_timeout_mult: Ratio { num: 5, den: 1 },
            down_timeout_add: 0,
            down_timeout_ceil: 5_000_000,
            down_min_silence: 320_000,
            unknown_degrade_min: 300_000,
            backup_rtt_mult: Ratio { num: 2, den: 1 },
            backup_rtt_add: 20_000,
            failback_class_mult: Ratio { num: 3, den: 2 },
            failback_class_add: 8_000,
            failback_abs: 8_000,
            failback_abs_frac: Ratio { num: 9, den: 20 },
            failback_stable: 250_000,
            failback_cooldown: 200_000,
            stable_up_hold: 1_000_000,
            unknown_rtt_us: 20_000,
            unknown_rtt_score_mult: 2,
            stable_raise_mult: 2,
            stable_raise_add_us: 15_000,
            class_drop_abs_us: 8_000,
            class_drop_frac: Ratio { num: 1, den: 4 },
            pending_ping_max: 32,
            chan: 64,
            interactive_max: 1500,
            ack_rtt_min: 100,
            ack_rtt_max: 2_000_000,
            inflight_bias: 65_536,
            min_rebalance_slack: 16_384,
            initial_window: 131_072,
            handshake_timeout: 3_000_000,
            reconnect_backoff_min: 200_000,
            reconnect_backoff_max: 2_000_000,
            join_poll: 20_000,
            ready_poll: 50_000,
        }
    }

    pub fn rebalance_slack(&self) -> (r: u64)
        ensures
            r == larger(self.inflight_bias as int / 2, self.min_rebalance_slack as int),
    {
        max_u64(self.inflight_bias / 2, self.min_rebalance_slack)
    }

    pub fn loss_timeout(&self, rtt: u64) -> (r: u64)
        requires
            self.wf(),
        ensures
            r == self.loss_timeout_of(rtt as int),
    {
        clamp(
            scale(rtt, self.loss_timeout_mult, self.loss_timeout_add),
            self.loss_timeout_floor,
            self.loss_timeout_ceil,
        )
    }

    pub fn down_timeout(&self, rtt: u64, probe: u64) -> (r: u64)
        requires
            self.wf(),
        ensures
            r == self.down_timeout_of(rtt as int, probe as int),
    {
        let scaled_up: u64 = scale(rtt, self.down_timeout_mult, self.down_timeout_add).saturating_add(
            probe,
        );
        let min_silence: u64 = self.down_min_silence.saturating_add(probe);
        clamp(max_u64(scaled_up, min_silence), min_silence, self.down_timeout_ceil)
    }

    pub fn class_jump(&self, current: u64, better: u64) -> (r: bool)
        requires
            self.wf(),
        ensures
            r == self.is_class_jump(current as int, better as int),
    {
        let bound: u128 = stretch(better, self.failback_class_mult) as u128
            + self.failback_class_add as u128;
        current as u128 >= bound
    }

    /// Same-class failback threshold: `max(abs, better_rtt * frac)`.
    pub fn failback_delta(&self, better_rtt: u64) -> (r: u64)
        requires
            self.wf(),
        ensures
            r == self.failback_delta_of(better_rtt as int),
    {
        max_u64(self.failback_abs, stretch(better_rtt, self.failback_abs_frac))
    }

    pub fn should_failback(&self, current: u64, better: u64) -> (r: bool)
        requires
            self.wf(),
        ensures
            r == self.failback_due(current as int, better as int),
    {
        if better >= current {
            return false;
        }
        self.class_jump(current, better) || current - better >= self.failback_delta(better)
    }

    /// RTT-adaptive hold before a failback.
    pub fn failback_stable_for(&self, rtt: u64) -> (r: u64)
        ensures
            r == hold_of(self.failback_stable as int, rtt as int),
    {
        rtt_hold(self.failback_stable, rtt)
    }

    pub fn failback_cooldown_for(&self, rtt: u64) -> (r: u64)
        ensures
            r == hold_of(self.failback_cooldown as int, rtt as int),
    {
        rtt_hold(self.failback_cooldown, rtt)
    }

    /// Class drops toward `fast` only when `class - fast` exceeds a
    /// fraction of *class* (or the 8ms floor on lab-near paths).
    pub fn class_should_drop(&self, class_us: u64, fast_us: u64) -> (r: bool)
        requires
            self.wf(),
        ensures
            r == (above(class_us as int, fast_us as int) >= self.class_drop_need(class_us as int)),
    {
        let need: u64 = max_u64(self.class_drop_abs_us, stretch(class_us, self.class_drop_frac));
        class_us.saturating_sub(fast_us) >= need
    }
}

impl Default for Tuning {
    fn default() -> (t: Self)
        ensures
            t == standard_table(),
            t.wf(),
    {
        Tuning::standard()
    }
}

/// The hold that goes with an RTT.
pub open spec fn hold_of(floor: int, rtt: int) -> int {
    larger(floor, capped(rtt * 2))
}

/// Twice the RTT, and at least the floor.
pub fn rtt_hold(floor: u64, rtt: u64) -> (r: u64)
    ensures
        r == hold_of(floor as int, rtt as int),
{
    max_u64(floor, mul_capped(rtt, 2))
}

pub fn clamp(d: u64, floor: u64, ceil: u64) -> (r: u64)
    ensures
        r == within(d as int, floor as int, ceil as int),
{
    if d < floor {
        floor
    } else if d > ceil {
        ceil
    } else {
        d
    }
}

pub fn scale(rtt: u64, mult: Ratio, add: u64) -> (r: u64)
    requires
        mult.den > 0,
    ensures
        r == scaled(rtt as int, mult, add as int),
{
    stretch(rtt, mult).saturating_add(add)
}

/// The time times the ratio, without what follows the point.
pub fn stretch(us: u64, mult: Ratio) -> (r: u64)
    requires
        mult.den > 0,
    ensures
        r == stretched(us as int, mult),
{
    proof {
        reveal(stretched);
    }
    whole_double(us).times(frac_double(mult.num, mult.den)).floor_capped()
}

// ---------------------------------------------------------------------------
// Laws
// ---------------------------------------------------------------------------
proof fn lemma_scaled_grows(a: int, b: int, mult: Ratio, add: int)
    requires
        0 <= a <= b,
        mult.den > 0,
        add >= 0,
    ensures
        0 <= scaled(a, mult, add) <= scaled(b, mult, add),
{
    reveal(stretched);
    let m = frac(mult.num as int, mult.den as int);
    lemma_frac_order(mult.num as int, mult.num as int, mult.den as int);
    lemma_whole_order(a, b);
    lemma_whole_order(b, b);
    lemma_times_order(whole(a), whole(b), m, m);
    lemma_product_wf(whole(a), m);
    lemma_product_wf(whole(b), m);
    lemma_floor_order(product(whole(a), m), product(whole(b), m));
}

/// A slower path is given more time, never less: before a piece on it counts
/// as lost, and before it counts as down.
pub proof fn law_timeouts_grow_with_rtt(t: Tuning, fast: u64, slow: u64, probe: u64)
    requires
        t.wf(),
        t.loss_timeout_floor <= t.loss_timeout_ceil,
        fast <= slow,
    ensures
        t.loss_timeout_of(fast as int) <= t.loss_timeout_of(slow as int),
        t.down_timeout_of(fast as int, probe as int) <= t.down_timeout_of(
            slow as int,
            probe as int,
        ),
{
    lemma_scaled_grows(
        fast as int,
        slow as int,
        t.loss_timeout_mult,
        t.loss_timeout_add as int,
    );
    lemma_scaled_grows(
        fast as int,
        slow as int,
        t.down_timeout_mult,
        t.down_timeout_add as int,
    );
}

/// A path is never down before the shortest silence and a probe have passed,
/// where the ceiling leaves room for them.
pub proof fn law_short_silence_is_not_down(t: Tuning, rtt: u64, probe: u64)
    requires
        t.wf(),
        t.down_min_silence + probe <= t.down_timeout_ceil,
    ensures
        t.down_timeout_of(rtt as int, probe as int) >= capped(t.down_min_silence + probe),
{
}

/// On the production table a piece counts as lost no later than its path
/// counts as down.
pub proof fn law_loss_comes_before_down(rtt: u64, probe: u64)
    ensures
        standard_table().loss_timeout_of(rtt as int) <= standard_table().down_timeout_of(
            rtt as int,
            probe as int,
        ),
{
    reveal(stretched);
    let x = whole(rtt as int);
    lemma_whole_order(rtt as int, rtt as int);
    lemma_frac_order(2, 5, 1);
    lemma_frac_order(5, 5, 1);
    lemma_times_order(x, x, frac(2, 1), frac(5, 1));
    lemma_product_wf(x, frac(2, 1));
    lemma_product_wf(x, frac(5, 1));
    lemma_floor_order(product(x, frac(2, 1)), product(x, frac(5, 1)));
}

/// On the production table a path is a home to fall back to exactly where it
/// is faster by the same-class threshold, 8 ms or 45 percent of its own RTT: a
/// class jump asks for more. Up to four years the 45 percent are exact, below
/// the microsecond rounded down.
pub proof fn law_a_class_jump_passes_the_threshold(current: u64, better: u64)
    ensures
        standard_table().failback_delta_of(better as int) == larger(
            8_000,
            stretched(better as int, (Ratio { num: 9, den: 20 })),
        ),
        better < 0x8000_0000_0000 ==> stretched(better as int, (Ratio { num: 9, den: 20 }))
            == better as int * 9 / 20,
        standard_table().failback_due(current as int, better as int) == (better < current && current
            - better >= standard_table().failback_delta_of(better as int)),
        better < current && standard_table().is_class_jump(current as int, better as int)
            ==> standard_table().failback_due(current as int, better as int),
        !standard_table().failback_due(current as int, current as int),
{
    reveal(stretched);
    lemma_half_again(better as int);
    if better < 0x8000_0000_0000 {
        lemma_nine_twentieths(better as int);
    }
}

/// No two paths are each a home to fall back to from the other.
pub proof fn law_failback_is_one_way(t: Tuning, a: u64, b: u64)
    requires
        t.failback_due(a as int, b as int),
    ensures
        !t.failback_due(b as int, a as int),
{
}

/// A class never drops to a path that is no faster.
pub proof fn law_class_drops_only_down(t: Tuning, class_us: u64, fast_us: u64)
    requires
        t.wf(),
        t.class_drop_abs_us > 0,
        above(class_us as int, fast_us as int) >= t.class_drop_need(class_us as int),
    ensures
        fast_us < class_us,
{
}

/// A scaled time is the time times the multiplier, without what follows the
/// point, but for one part in 2^49.
pub proof fn law_scaling_is_a_product(us: u64, mult: Ratio)
    requires
        us > 0,
        mult.num > 0,
        mult.den > 0,
        stretched(us as int, mult) < u64::MAX,
    ensures
        0x2_0000_0000_0000 * (stretched(us as int, mult) * mult.den) <= 0x2_0000_0000_0001 * (us
            * mult.num),
        0x2_0000_0000_0000 * ((stretched(us as int, mult) + 1) * mult.den)
            >= 0x1_ffff_ffff_ffff * (us * mult.num),
{
    reveal(stretched);
    lemma_stretch_is_near(us as int, mult.num as int, mult.den as int);
}

/// Whole multipliers, halves and quarters are exact up to 52 bits.
proof fn lemma_plain_multiples(us: u64)
    requires
        us < 0x2_0000_0000_0000,
    ensures
        stretched(us as int, (Ratio { num: 2, den: 1 })) == 2 * us,
        stretched(us as int, (Ratio { num: 5, den: 1 })) == 5 * us,
        stretched(us as int, (Ratio { num: 3, den: 2 })) == 3 * us / 2,
        stretched(us as int, (Ratio { num: 1, den: 4 })) == us as int / 4,
{
    reveal(stretched);
    assert(two_to(2) == 2 * two_to(1) && two_to(1) == 2 * two_to(0) && two_to(0) == 1);
    let n = us as int;
    if n == 0 {
        lemma_no_time(2, 1);
        lemma_no_time(5, 1);
        lemma_no_time(3, 2);
        lemma_no_time(1, 4);
    } else {
        lemma_exact_part(n, 2, 0);
        lemma_exact_part(n, 5, 0);
        lemma_exact_part(n, 3, 1);
        lemma_exact_part(n, 1, 2);
    }
}

proof fn lemma_no_time(num: int, den: int)
    ensures
        product(whole(0), frac(num, den)).floor() == 0,
{
    let y = frac(num, den);
    assert(whole(0) == zero());
    assert(0 * y.m == 0) by (nonlinear_arith);
    assert(product(whole(0), y) == zero());
    lemma_whole_exact(0);
}

/// On the production table a piece may stay unacknowledged for two round
/// trips, no less than 20 ms and no more than two seconds.
pub proof fn law_loss_takes_two_round_trips(rtt: u64)
    requires
        rtt < 0x2_0000_0000_0000,
    ensures
        standard_table().loss_timeout_of(rtt as int) == if rtt <= 10_000 {
            20_000
        } else if rtt >= 1_000_000 {
            2_000_000
        } else {
            2 * rtt
        },
{
    lemma_plain_multiples(rtt);
}

/// On the production table a path is down after five round trips or 320 ms,
/// whichever is longer, and one probe; after five seconds at the latest.
pub proof fn law_down_takes_five_round_trips(rtt: u64, probe: u64)
    requires
        rtt < 0x2_0000_0000_0000,
        probe <= 4_000_000,
    ensures
        standard_table().down_timeout_of(rtt as int, probe as int) == if rtt <= 64_000 {
            320_000 + probe
        } else if 5 * rtt + probe >= 5_000_000 {
            5_000_000
        } else {
            5 * rtt + probe
        },
{
    lemma_plain_multiples(rtt);
}

/// On the production table a path is a class jump away where it takes half as
/// long again and 8 ms more; the class of a path follows a faster sample that
/// undercuts it by a quarter, and by 8 ms.
pub proof fn law_classes_are_halves_apart(a: u64, b: u64)
    requires
        a < 0x2_0000_0000_0000,
        b < 0x2_0000_0000_0000,
    ensures
        standard_table().is_class_jump(a as int, b as int) <==> 2 * (a - 8_000) >= 3 * b - 1,
        standard_table().class_drop_need(a as int) == if a <= 32_000 {
            8_000
        } else {
            a as int / 4
        },
{
    lemma_plain_multiples(a);
    lemma_plain_multiples(b);
}

/// A hold lasts for two round trips, and no less than its floor.
pub proof fn law_holds_last_two_round_trips(floor: u64, rtt: u64)
    requires
        rtt <= 0x7fff_ffff_ffff_ffff,
    ensures
        hold_of(floor as int, rtt as int) >= floor,
        hold_of(floor as int, rtt as int) >= 2 * rtt,
        hold_of(floor as int, rtt as int) == floor || hold_of(floor as int, rtt as int) == 2 * rtt,
{
}

} // verus!
