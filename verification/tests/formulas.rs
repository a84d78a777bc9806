use nya_core::double::{frac_double, secs_double, whole_double};
use nya_core::quiet::{correlated_hold, quiet_set_holds};
use nya_core::tuning::{clamp, rtt_hold, scale, stretch, Ratio, Tuning};
use nya_core::window::bytes_per_second;
use std::time::Duration;

/// Numbers of every size, the same ones each time.
fn numbers() -> Vec<u64> {
    let mut out = vec![0, 1, 2, 3, 10, 1 << 52, (1 << 53) - 1, (1 << 53) + 1, u64::MAX - 1, u64::MAX];
    let mut x: u64 = 0x9e37_79b9_7f4a_7c15;
    for i in 0..120 {
        x ^= x << 13;
        x ^= x >> 7;
        x ^= x << 17;
        out.push(x >> (i % 64));
    }
    out
}

#[test]
fn doubles_compute_like_the_machine() {
    for &a in &numbers() {
        let x = whole_double(a);
        assert_eq!(x.floor_capped(), a as f64 as u64);
        assert_eq!(secs_double(a).floor_capped(), Duration::from_micros(a).as_secs_f64() as u64);
        for &b in numbers().iter().filter(|b| **b > 0) {
            let y = whole_double(b);
            let (f, g) = (a as f64, b as f64);
            assert_eq!(x.over(y).floor_capped(), (f / g) as u64, "{a} / {b}");
            assert_eq!(x.times(y).floor_capped(), (f * g) as u64, "{a} * {b}");
            assert_eq!(x.plus(y).floor_capped(), (f + g) as u64, "{a} + {b}");
            assert_eq!(x.less_than(y), f < g);
            assert_eq!(x.over(y).round_capped(), (f / g).round() as u64, "{a} / {b}");
            assert_eq!(x.over(y).less_than(frac_double(1, 3)), f / g < 1.0 / 3.0);
            if a / b < 1 << 40 {
                let shown = x.over(y).shown_capped(1000);
                let text = format!("{:.3}", f / g);
                assert_eq!(format!("{}.{:03}", shown / 1000, shown % 1000), text, "{a} / {b}");
            }
        }
    }
}

#[test]
fn rates_and_scaled_times_are_those_of_doubles() {
    assert_eq!(bytes_per_second(7, 70_000), 99);
    assert_eq!(bytes_per_second(350_000, 7_000), 50_000_000);
    for &us in numbers().iter().filter(|us| **us > 0) {
        for &n in &numbers() {
            let rate = n as f64 / Duration::from_micros(us).as_secs_f64();
            assert_eq!(bytes_per_second(n, us), rate as u64, "{n} bytes in {us} us");
        }
        for (mult, r) in [(2.0, times(2, 1)), (1.5, times(3, 2)), (0.45, times(9, 20)), (0.25, times(1, 4))] {
            assert_eq!(stretch(us, r), (us as f64 * mult) as u64, "{us} * {mult}");
        }
    }
}

#[test]
fn no_time_is_too_long_for_a_class_jump() {
    let t = Tuning::standard();
    let max = u64::MAX;
    assert!(!t.class_jump(max, max) && !t.class_jump(max, max - max / 4));
    assert!(!t.should_failback(max, max) && !t.should_failback(max, max - 9_000));
    assert!(t.class_jump(max, max / 2) && t.should_failback(max, max / 2));
    // the sum of a multiple and its addend is not cut short
    let mut wide = t;
    wide.failback_class_add = max;
    assert!(!wide.class_jump(max, 1) && wide.class_jump(max, 0));
}

/// `quiet_set` includes all-N and exact N-1; `correlated_hold` never holds on
/// all-N. The two must differ exactly there.
#[test]
fn quiet_set_vs_correlated_hold() {
    assert!(quiet_set_holds(4, 4), "all-N is a quiet_set");
    assert!(quiet_set_holds(4, 3));
    assert!(!quiet_set_holds(4, 2));
    assert!(quiet_set_holds(2, 1));
    assert!(!quiet_set_holds(1, 1), "a lone path cannot form a set");
    assert!(!quiet_set_holds(3, 0));
    assert!(
        !correlated_hold(4, 4, 4, 4, 2),
        "correlated_hold never all-N"
    );
    assert!(correlated_hold(4, 3, 1, 3, 2));
}

#[test]
fn a_hold_needs_two_quiet_links() {
    assert!(!correlated_hold(4, 3, 1, 3, 1), "one link can fail by itself");
    assert!(!correlated_hold(8, 5, 1, 5, 1));
    assert!(!correlated_hold(8, 5, 1, 5, 0));
    assert!(correlated_hold(8, 3, 1, 3, 2), "three paths of two links");
    assert!(!correlated_hold(8, 2, 1, 2, 2));
}

#[test]
fn a_class_jump_passes_the_threshold() {
    let t = Tuning::standard();
    // the threshold is 8 ms, or 45 percent of the better path
    assert_eq!(t.failback_delta(10_000), 8_000);
    assert_eq!(t.failback_delta(100_000), 45_000);
    assert!(t.should_failback(18_000, 10_000) && !t.should_failback(17_999, 10_000));
    assert!(t.should_failback(145_000, 100_000) && !t.should_failback(144_999, 100_000));
    assert!(!t.class_jump(145_000, 100_000), "a jump asks for more");
    assert!(t.class_jump(158_000, 100_000) && t.should_failback(158_000, 100_000));
    assert!(!t.should_failback(10_000, 10_000) && !t.should_failback(10_000, 158_000));
}

fn times(num: u64, den: u64) -> Ratio {
    Ratio { num, den }
}

#[test]
fn standard_is_the_production_table() {
    let t = Tuning::standard();
    assert_eq!(t.maintain_interval, 5_000);
    assert_eq!(t.loss_timeout_mult, times(2, 1));
    assert_eq!(t.loss_timeout_floor, 20_000);
    assert_eq!(t.loss_timeout_add, 0);
    assert_eq!(t.loss_timeout_ceil, 2000_000);
    assert_eq!(t.down_timeout_mult, times(5, 1));
    assert_eq!(t.down_timeout_ceil, 5000_000);
    assert_eq!(t.down_min_silence, 320_000);
    assert_eq!(t.unknown_degrade_min, 300_000);
    assert_eq!(t.backup_rtt_mult, times(2, 1));
    assert_eq!(t.backup_rtt_add, 20_000);
    assert_eq!(t.failback_class_mult, times(3, 2));
    assert_eq!(t.failback_class_add, 8_000);
    assert_eq!(t.failback_abs, 8_000);
    assert_eq!(t.failback_abs_frac, times(9, 20));
    assert_eq!(t.failback_stable, 250_000);
    assert_eq!(t.failback_cooldown, 200_000);
    assert_eq!(t.stable_up_hold, 1000_000);
    assert_eq!(t.class_drop_abs_us, 8_000);
    assert_eq!(t.class_drop_frac, times(1, 4));
    assert_eq!(t.unknown_rtt_us, 20_000);
    assert_eq!(t.interactive_max, 1500);
    assert_eq!(t.inflight_bias, 64 * 1024);
    assert_eq!(t.rebalance_slack(), 32 * 1024);
    assert_eq!(t.chan, 64);
    assert_eq!(t.handshake_timeout, 3_000_000);
}

#[test]
fn class_drop_ignores_jitter_recovers_class_jump() {
    let t = Tuning::standard();
    assert!(!t.class_should_drop(180_000, 140_000), "40ms jitter");
    assert!(!t.class_should_drop(220_000, 180_000), "220 vs 180");
    assert!(t.class_should_drop(280_000, 180_000), "280 vs 180");
    assert!(t.class_should_drop(20_000, 10_000), "8ms floor on near");
    assert!(!t.class_should_drop(96_000, 80_000), "mid jitter 16ms");
}

#[test]
fn timeouts_follow_the_table() {
    let t = Tuning::default();
    assert_eq!(t.loss_timeout(5_000), 20_000);
    assert_eq!(t.loss_timeout(60_000), 120_000);
    assert_eq!(t.loss_timeout(9_000_000), 2_000_000);
    assert_eq!(t.down_timeout(10_000, 10_000), 330_000);
    assert_eq!(t.down_timeout(200_000, 50_000), 1_050_000);
    assert_eq!(t.down_timeout(9_000_000, 50_000), 5_000_000);
    assert_eq!(t.failback_stable_for(10_000), 250_000);
    assert_eq!(t.failback_stable_for(200_000), 400_000);
    assert_eq!(t.failback_cooldown_for(150_000), 300_000);
    assert_eq!(rtt_hold(5, 2), 5);
    assert_eq!(rtt_hold(5, 3), 6);
    assert_eq!(clamp(5, 10, 20), 10);
    assert_eq!(clamp(25, 10, 20), 20);
    assert_eq!(scale(7, times(3, 2), 1), 11);
    assert_eq!(scale(u64::MAX, times(3, 2), 1), u64::MAX);
}

#[test]
fn failback_goes_one_way() {
    let t = Tuning::standard();
    assert!(t.class_jump(23_000, 10_000));
    assert!(!t.class_jump(22_999, 10_000));
    assert_eq!(t.failback_delta(10_000), 8_000);
    assert_eq!(t.failback_delta(100_000), 45_000);
    assert!(t.should_failback(60_000, 10_000));
    assert!(!t.should_failback(10_000, 60_000));
    assert!(!t.should_failback(17_999, 10_000));
    assert!(t.should_failback(18_000, 10_000));
}
