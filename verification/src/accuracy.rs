//! How near the doubles come to the numbers they stand for.

use vstd::prelude::*;

use crate::double::{
    added, fine, frac, lemma_fine_floor, lemma_known_powers, lemma_norm_error, lemma_norm_low,
    lemma_norm_shift, lemma_norm_wf, lemma_shift_order, lemma_two_to, lemma_whole_fine, norm, product, quotient,
    secs_of, two_to, unit, whole, zero, Dbl, LOW, TOP,
};

verus! {

// ---------------------------------------------------------------------------
// One operation
// ---------------------------------------------------------------------------
/// `near` is `exact` but for one part in 2^53.
pub open spec fn close(near: int, exact: int) -> bool {
    (TOP - 1) * exact <= TOP * near <= (TOP + 1) * exact
}

proof fn lemma_close_scaled(v: int, a: int, w: int)
    requires
        close(v, a),
        w >= 0,
    ensures
        close(v * w, a * w),
{
    assert((TOP - 1) * (a * w) <= TOP * (v * w) <= (TOP + 1) * (a * w)) by (nonlinear_arith)
        requires
            (TOP - 1) * a <= TOP * v <= (TOP + 1) * a,
            w >= 0,
    ;
}

pub proof fn lemma_quotient_fine(x: Dbl, y: Dbl)
    requires
        x.wf(),
        y.wf(),
        x.m > 0,
        y.m > 0,
        -90 <= x.e <= 90,
        -90 <= y.e <= 90,
    ensures
        quotient(x, y).wf(),
        quotient(x, y).m > 0,
        x.e - y.e - 53 <= quotient(x, y).e,
        close(fine(quotient(x, y)) * fine(y), fine(x) * unit()),
{
    let e = x.e - y.e - 53;
    let a = x.m * two_to(53);
    lemma_known_powers();
    lemma_norm_shift(x.m, y.m, e, 53);
    assert(a >= LOW * y.m) by (nonlinear_arith)
        requires
            a == x.m * TOP,
            x.m >= LOW,
            0 < y.m < TOP,
    ;
    lemma_norm_error(a, y.m, e);
    lemma_norm_wf(a, y.m, e);
    let d = norm(a, y.m, e);
    assert(d == quotient(x, y));
    assert(d.m > 0) by {
        if d.m == 0 {
            assert((0 * two_to((d.e - e) as nat)) * y.m == 0) by (nonlinear_arith);
        }
    }
    let s = (d.e - e) as nat;
    let w = (x.e + 547) as nat;
    let v = (d.m * two_to(s)) * y.m;
    lemma_two_to((d.e + 300) as nat, (y.e + 300) as nat);
    lemma_two_to(s, w);
    lemma_two_to(w, 0);
    assert((d.e + 300) as nat + (y.e + 300) as nat == s + w);
    assert(fine(d) * fine(y) == v * two_to(w)) by (nonlinear_arith)
        requires
            fine(d) == d.m * two_to((d.e + 300) as nat),
            fine(y) == y.m * two_to((y.e + 300) as nat),
            two_to((d.e + 300) as nat) * two_to((y.e + 300) as nat) == two_to(s) * two_to(w),
            v == (d.m * two_to(s)) * y.m,
    ;
    lemma_two_to((x.e + 300) as nat, 300);
    lemma_two_to(53, w);
    assert((x.e + 300) as nat + 300 == 53 + w);
    assert(fine(x) * unit() == a * two_to(w)) by (nonlinear_arith)
        requires
            fine(x) == x.m * two_to((x.e + 300) as nat),
            two_to((x.e + 300) as nat) * unit() == two_to(53) * two_to(w),
            a == x.m * two_to(53),
    ;
    lemma_close_scaled(v, a, two_to(w) as int);
}

pub proof fn lemma_times_fine(x: Dbl, y: Dbl)
    requires
        x.wf(),
        y.wf(),
        x.m > 0,
        y.m > 0,
        -140 <= x.e,
        -140 <= y.e,
    ensures
        product(x, y).wf(),
        product(x, y).m > 0,
        x.e + y.e <= product(x, y).e,
        close(fine(product(x, y)) * unit(), fine(x) * fine(y)),
{
    let e = x.e + y.e;
    let a = x.m * y.m;
    assert(a >= LOW) by (nonlinear_arith)
        requires
            a == x.m * y.m,
            x.m >= LOW,
            y.m >= LOW,
    ;
    lemma_norm_error(a, 1, e);
    lemma_norm_wf(a, 1, e);
    let d = norm(a, 1, e);
    let s = (d.e - e) as nat;
    let w = (e + 600) as nat;
    let v = d.m * two_to(s);
    assert(d.m > 0) by {
        if d.m == 0 {
            assert(0 * two_to(s) == 0) by (nonlinear_arith);
        }
    }
    lemma_two_to((d.e + 300) as nat, 300);
    lemma_two_to(s, w);
    lemma_two_to(w, 0);
    assert((d.e + 300) as nat + 300 == s + w);
    assert(fine(d) * unit() == v * two_to(w)) by (nonlinear_arith)
        requires
            fine(d) == d.m * two_to((d.e + 300) as nat),
            two_to((d.e + 300) as nat) * unit() == two_to(s) * two_to(w),
            v == d.m * two_to(s),
    ;
    lemma_two_to((x.e + 300) as nat, (y.e + 300) as nat);
    assert((x.e + 300) as nat + (y.e + 300) as nat == w);
    assert(fine(x) * fine(y) == a * two_to(w)) by (nonlinear_arith)
        requires
            fine(x) == x.m * two_to((x.e + 300) as nat),
            fine(y) == y.m * two_to((y.e + 300) as nat),
            two_to((x.e + 300) as nat) * two_to((y.e + 300) as nat) == two_to(w),
            a == x.m * y.m,
    ;
    lemma_close_scaled(v, a, two_to(w) as int);
}

pub proof fn lemma_added_fine(x: Dbl, y: Dbl)
    requires
        x.wf(),
        y.wf(),
        x.m > 0,
        y.m > 0,
        -290 <= x.e,
        -290 <= y.e,
    ensures
        added(x, y).wf(),
        added(x, y).m > 0,
        x.e <= added(x, y).e || y.e <= added(x, y).e,
        close(fine(added(x, y)), fine(x) + fine(y)),
{
    let (big, small) = if x.e >= y.e {
        (x, y)
    } else {
        (y, x)
    };
    let k = (big.e - small.e) as nat;
    let e = small.e;
    let a = big.m * two_to(k) + small.m;
    lemma_two_to(k, 0);
    assert(a >= LOW) by (nonlinear_arith)
        requires
            a == big.m * two_to(k) + small.m,
            big.m >= LOW,
            small.m >= 0,
            two_to(k) >= 1,
    ;
    lemma_norm_error(a, 1, e);
    lemma_norm_wf(a, 1, e);
    let d = norm(a, 1, e);
    assert(d == added(x, y));
    let s = (d.e - e) as nat;
    let w = (e + 300) as nat;
    let v = d.m * two_to(s);
    assert(d.m > 0) by {
        if d.m == 0 {
            assert(0 * two_to(s) == 0) by (nonlinear_arith);
        }
    }
    lemma_two_to(s, w);
    lemma_two_to(k, w);
    lemma_two_to(w, 0);
    assert(fine(d) == v * two_to(w)) by (nonlinear_arith)
        requires
            fine(d) == d.m * (two_to(s) * two_to(w)),
            v == d.m * two_to(s),
    ;
    assert(fine(big) + fine(small) == a * two_to(w)) by (nonlinear_arith)
        requires
            fine(big) == big.m * (two_to(k) * two_to(w)),
            fine(small) == small.m * two_to(w),
            a == big.m * two_to(k) + small.m,
    ;
    lemma_close_scaled(v, a, two_to(w) as int);
}

/// Rounding to an integer leads no further than one half.
pub proof fn lemma_fine_round(x: Dbl)
    requires
        x.wf(),
        x.e >= -300,
    ensures
        (2 * x.round() - 1) * unit() <= 2 * fine(x) < (2 * x.round() + 1) * unit(),
{
    let r = x.round();
    lemma_two_to(300, 0);
    if x.e >= 0 {
        lemma_two_to(x.e as nat, 300);
        let n = x.m * two_to(x.e as nat);
        assert(r == n) by {
            assert(x.num() == n && x.den() == 1);
            assert((2 * n + 1) / 2 == n);
        }
        assert(fine(x) == n * unit()) by (nonlinear_arith)
            requires
                fine(x) == x.m * (two_to(x.e as nat) * two_to(300)),
                n == x.m * two_to(x.e as nat),
                unit() == two_to(300),
        ;
        assert((2 * n - 1) * unit() <= 2 * (n * unit()) < (2 * n + 1) * unit())
            by (nonlinear_arith)
            requires
                unit() >= 1,
        ;
    } else {
        let k = (-x.e) as nat;
        let p = two_to(k) as int;
        let q = two_to((300 - k) as nat) as int;
        lemma_two_to(k, (300 - k) as nat);
        lemma_two_to(k, 0);
        lemma_two_to((300 - k) as nat, 0);
        assert((x.e + 300) as nat == (300 - k) as nat);
        let t = 2 * x.m + p;
        assert(x.num() == x.m && x.den() == p);
        vstd::arithmetic::div_mod::lemma_fundamental_div_mod(t, 2 * p);
        assert((2 * r - 1) * p <= 2 * x.m < (2 * r + 1) * p) by (nonlinear_arith)
            requires
                t == (2 * p) * r + t % (2 * p),
                0 <= t % (2 * p) < 2 * p,
                t == 2 * x.m + p,
        ;
        assert((2 * r - 1) * (p * q) <= 2 * (x.m * q) < (2 * r + 1) * (p * q)) by (nonlinear_arith)
            requires
                (2 * r - 1) * p <= 2 * x.m < (2 * r + 1) * p,
                q >= 1,
        ;
    }
}

// ---------------------------------------------------------------------------
// Times and rates
// ---------------------------------------------------------------------------
proof fn lemma_close_cancels(v: int, a: int, w: int)
    requires
        close(v * w, a * w),
        w >= 1,
    ensures
        close(v, a),
{
    assert((TOP - 1) * a <= TOP * v <= (TOP + 1) * a) by (nonlinear_arith)
        requires
            (TOP - 1) * (a * w) <= TOP * (v * w) <= (TOP + 1) * (a * w),
            w >= 1,
    ;
}

/// A number below 2^k has a small exponent.
proof fn lemma_small_exponent(x: Dbl, k: nat)
    requires
        x.m >= LOW,
        x.e >= -300,
        fine(x) <= two_to(k) * unit(),
    ensures
        x.e <= k - 52,
{
    if x.e > k - 52 {
        lemma_known_powers();
        let t = (x.e + 300) as nat;
        lemma_two_to(52, t);
        lemma_two_to(k, 300);
        let j = (52 + t - k - 300) as nat;
        lemma_two_to(k + 300, j);
        lemma_two_to(j, 0);
        lemma_two_to(k + 300, 0);
        assert(two_to(j) == 2 * two_to((j - 1) as nat));
        lemma_two_to((j - 1) as nat, 0);
        assert(fine(x) >= LOW * two_to(t)) by (nonlinear_arith)
            requires
                fine(x) == x.m * two_to(t),
                x.m >= LOW,
                two_to(t) >= 0,
        ;
        assert(two_to(k + 300) * two_to(j) > two_to(k + 300)) by (nonlinear_arith)
            requires
                two_to(j) >= 2,
                two_to(k + 300) >= 1,
        ;
        assert(k + 300 + j == 52 + t);
    }
}

/// A count of 64 bits, in units.
pub proof fn lemma_count_fine(n: int)
    requires
        0 < n <= u64::MAX,
    ensures
        whole(n).wf(),
        whole(n).m > 0,
        -52 <= whole(n).e <= 13,
        close(fine(whole(n)), n * unit()),
        n < LOW ==> fine(whole(n)) == n * unit(),
        fine(whole(n)) > 0,
{
    lemma_whole_fine(n);
    lemma_known_powers();
    lemma_two_to(64, 1);
    lemma_two_to(300, 0);
    assert(two_to(1) == 2 * two_to(0));
    let u = unit();
    assert(n * u <= 0x1_0000_0000_0000_0000 * u && n * u >= u) by (nonlinear_arith)
        requires
            1 <= n <= 0x1_0000_0000_0000_0000,
            u >= 1,
    ;
    assert(fine(whole(n)) <= two_to(65) * u) by {
        assert(two_to(65) == 0x2_0000_0000_0000_0000);
    }
    lemma_small_exponent(whole(n), 65);
}

/// A time in seconds is held to within three parts in 2^53.
pub proof fn lemma_secs_fine(us: int)
    requires
        0 < us <= u64::MAX,
    ensures
        secs_of(us).wf(),
        secs_of(us).m > 0,
        -90 <= secs_of(us).e <= 14,
        fine(secs_of(us)) > 0,
        (TOP - 3) * (us * unit()) <= TOP * (1_000_000 * fine(secs_of(us))) <= (TOP + 3) * (us
            * unit()),
{
    let u = unit();
    lemma_two_to(300, 0);
    lemma_known_powers();
    lemma_two_to(64, 1);
    assert(two_to(1) == 2 * two_to(0));
    let s = us / 1_000_000;
    let ns = us % 1_000_000 * 1000;
    let q = quotient(whole(ns), whole(1_000_000_000));
    if s > 0 {
        lemma_count_fine(s);
    } else {
        assert(whole(0) == zero());
    }
    if ns > 0 {
        lemma_count_fine(ns);
        lemma_count_fine(1_000_000_000);
        lemma_quotient_fine(whole(ns), whole(1_000_000_000));
        assert(fine(q) * (1_000_000_000 * u) == (fine(q) * 1_000_000_000) * u) by (nonlinear_arith);
        lemma_close_cancels(fine(q) * 1_000_000_000, ns * u, u);
        assert(whole(1_000_000_000).e <= -22) by {
            reveal_with_fuel(two_to, 31);
            assert(two_to(30) == 1_073_741_824);
            lemma_small_exponent(whole(1_000_000_000), 30);
        }
    } else {
        assert(whole(0) == zero());
        assert(q == zero());
    }
    let d = secs_of(us);
    if s > 0 && ns > 0 {
        lemma_added_fine(whole(s), q);
    }
    assert(us * u * 1000 == s * u * 1_000_000_000 + ns * u) by (nonlinear_arith)
        requires
            us * 1000 == s * 1_000_000_000 + ns,
    ;
    assert(us * u >= u && us * u <= 0x1_0000_0000_0000_0000 * u) by (nonlinear_arith)
        requires
            1 <= us <= 0x1_0000_0000_0000_0000,
            u >= 1,
    ;
    assert(s * u >= 0 && ns * u >= 0) by (nonlinear_arith)
        requires
            s >= 0,
            ns >= 0,
            u >= 1,
    ;
    assert(0x20_0000_0000_0000 * (1_000_000 * fine(d)) <= 0x20_0000_0000_0003 * (us * u));
    assert(two_to(65) * u == 0x2_0000_0000_0000_0000 * u) by (nonlinear_arith)
        requires
            two_to(65) == 0x2_0000_0000_0000_0000,
    ;
    lemma_small_exponent(d, 65);
}

/// A rate is what its name says: so many bytes in so many microseconds, per
/// second, but for one part in 2^49 and what follows the point.
pub proof fn lemma_rate_is_near(bytes: int, us: int)
    requires
        0 < bytes <= u64::MAX,
        0 < us <= u64::MAX,
    ensures
        ({
            let r = quotient(whole(bytes), secs_of(us)).floor();
            &&& r >= 0
            &&& 0x2_0000_0000_0000 * (r * us) <= 0x2_0000_0000_0001 * (bytes * 1_000_000)
            &&& 0x2_0000_0000_0000 * ((r + 1) * us) >= 0x1_ffff_ffff_ffff * (bytes * 1_000_000)
        }),
{
    let u = unit();
    lemma_two_to(300, 0);
    lemma_count_fine(bytes);
    lemma_secs_fine(us);
    let (x, y) = (whole(bytes), secs_of(us));
    lemma_quotient_fine(x, y);
    let q = quotient(x, y);
    lemma_fine_floor(q);
    let r = q.floor();
    let f = fine(q);
    let s = fine(y);
    let b = fine(x);
    // in units of u * u
    let got = f * (us * u);
    let held = f * s;
    let asked = b * u;
    let exact = (bytes * u) * u;
    assert((TOP - 3) * got <= TOP * (1_000_000 * held) <= (TOP + 3) * got) by (nonlinear_arith)
        requires
            (TOP - 3) * (us * u) <= TOP * (1_000_000 * s) <= (TOP + 3) * (us * u),
            f >= 0,
            got == f * (us * u),
            held == f * s,
    ;
    assert((TOP - 1) * exact <= TOP * asked <= (TOP + 1) * exact) by (nonlinear_arith)
        requires
            (TOP - 1) * (bytes * u) <= TOP * b <= (TOP + 1) * (bytes * u),
            u >= 1,
            asked == b * u,
            exact == (bytes * u) * u,
    ;
    assert(exact > 0) by (nonlinear_arith)
        requires
            exact == (bytes * u) * u,
            bytes >= 1,
            u >= 1,
    ;
    lemma_rate_sums(got, held, asked, exact);
    assert((r * us) * (u * u) <= got && got <= ((r + 1) * us) * (u * u)) by (nonlinear_arith)
        requires
            r * u <= f < (r + 1) * u,
            got == f * (us * u),
            us >= 1,
            u >= 1,
    ;
    let w = u * u;
    assert(w >= 1) by (nonlinear_arith)
        requires
            w == u * u,
            u >= 1,
    ;
    assert(exact == bytes * w) by (nonlinear_arith)
        requires
            exact == (bytes * u) * u,
            w == u * u,
    ;
    let (lo, hi, all) = (r * us, (r + 1) * us, bytes * 1_000_000);
    assert(all * w == 1_000_000 * exact) by (nonlinear_arith)
        requires
            all == bytes * 1_000_000,
            exact == bytes * w,
    ;
    assert(0x2_0000_0000_0000 * lo <= 0x2_0000_0000_0001 * all && 0x2_0000_0000_0000 * hi
        >= 0x1_ffff_ffff_ffff * all) by (nonlinear_arith)
        requires
            0x2_0000_0000_0000 * (lo * w) <= 0x2_0000_0000_0001 * (all * w),
            0x2_0000_0000_0000 * (hi * w) >= 0x1_ffff_ffff_ffff * (all * w),
            w >= 1,
    {
        if 0x2_0000_0000_0000 * lo > 0x2_0000_0000_0001 * all {
            assert(0x2_0000_0000_0000 * (lo * w) > 0x2_0000_0000_0001 * (all * w));
        }
        if 0x2_0000_0000_0000 * hi < 0x1_ffff_ffff_ffff * all {
            assert(0x2_0000_0000_0000 * (hi * w) < 0x1_ffff_ffff_ffff * (all * w));
        }
    }
}

proof fn lemma_rate_sums(got: int, held: int, asked: int, exact: int)
    requires
        exact > 0,
        0x1f_ffff_ffff_fffd * got <= 0x20_0000_0000_0000 * (1_000_000 * held)
            <= 0x20_0000_0000_0003 * got,
        0x1f_ffff_ffff_ffff * asked <= 0x20_0000_0000_0000 * held <= 0x20_0000_0000_0001 * asked,
        0x1f_ffff_ffff_ffff * exact <= 0x20_0000_0000_0000 * asked <= 0x20_0000_0000_0001 * exact,
    ensures
        0x2_0000_0000_0000 * got <= 0x2_0000_0000_0001 * (1_000_000 * exact),
        0x2_0000_0000_0000 * got >= 0x1_ffff_ffff_ffff * (1_000_000 * exact),
{
}

/// `a` times `b / c`, without what follows the point, but for one part in 2^49.
pub proof fn lemma_stretch_is_near(a: int, b: int, c: int)
    requires
        0 < a <= u64::MAX,
        0 < b <= u64::MAX,
        0 < c <= u64::MAX,
    ensures
        ({
            let r = product(whole(a), frac(b, c)).floor();
            &&& r >= 0
            &&& 0x2_0000_0000_0000 * (r * c) <= 0x2_0000_0000_0001 * (a * b)
            &&& 0x2_0000_0000_0000 * ((r + 1) * c) >= 0x1_ffff_ffff_ffff * (a * b)
        }),
{
    let u = unit();
    lemma_two_to(300, 0);
    lemma_count_fine(a);
    lemma_frac_fine(b, c);
    let (x, y) = (whole(a), frac(b, c));
    lemma_times_fine(x, y);
    let q = product(x, y);
    lemma_fine_floor(q);
    let r = q.floor();
    let (f, g, h) = (fine(q), fine(x), fine(y));
    // in units of u * u
    let got = (f * u) * c;
    let held = (g * h) * c;
    let asked = g * (b * u);
    let exact = (a * u) * (b * u);
    lemma_close_scaled(f * u, g * h, c);
    assert(h >= 0 && g >= 0);
    assert((TOP - 1) * asked <= TOP * held <= (TOP + 1) * asked) by (nonlinear_arith)
        requires
            (TOP - 1) * (b * u) <= TOP * (h * c) <= (TOP + 1) * (b * u),
            g >= 0,
            held == (g * h) * c,
            asked == g * (b * u),
    ;
    assert((TOP - 1) * exact <= TOP * asked <= (TOP + 1) * exact) by (nonlinear_arith)
        requires
            (TOP - 1) * (a * u) <= TOP * g <= (TOP + 1) * (a * u),
            b >= 1,
            u >= 1,
            asked == g * (b * u),
            exact == (a * u) * (b * u),
    ;
    let w = u * u;
    assert(w >= 1 && exact == (a * b) * w && exact > 0) by (nonlinear_arith)
        requires
            w == u * u,
            u >= 1,
            a >= 1,
            b >= 1,
            exact == (a * u) * (b * u),
    ;
    lemma_stretch_sums(got, held, asked, exact);
    assert((r * c) * w <= got && got <= ((r + 1) * c) * w) by (nonlinear_arith)
        requires
            r * u <= f < (r + 1) * u,
            got == (f * u) * c,
            c >= 1,
            u >= 1,
            w == u * u,
    ;
    lemma_cancel_near(r * c, (r + 1) * c, a * b, w);
}

/// What holds of a range and a number times `w` holds of them.
proof fn lemma_cancel_near(lo: int, hi: int, all: int, w: int)
    requires
        0x2_0000_0000_0000 * (lo * w) <= 0x2_0000_0000_0001 * (all * w),
        0x2_0000_0000_0000 * (hi * w) >= 0x1_ffff_ffff_ffff * (all * w),
        w >= 1,
    ensures
        0x2_0000_0000_0000 * lo <= 0x2_0000_0000_0001 * all,
        0x2_0000_0000_0000 * hi >= 0x1_ffff_ffff_ffff * all,
{
    if 0x2_0000_0000_0000 * lo > 0x2_0000_0000_0001 * all {
        assert(0x2_0000_0000_0000 * (lo * w) > 0x2_0000_0000_0001 * (all * w)) by (nonlinear_arith)
            requires
                0x2_0000_0000_0000 * lo > 0x2_0000_0000_0001 * all,
                w >= 1,
        ;
    }
    if 0x2_0000_0000_0000 * hi < 0x1_ffff_ffff_ffff * all {
        assert(0x2_0000_0000_0000 * (hi * w) < 0x1_ffff_ffff_ffff * (all * w)) by (nonlinear_arith)
            requires
                0x2_0000_0000_0000 * hi < 0x1_ffff_ffff_ffff * all,
                w >= 1,
        ;
    }
}

proof fn lemma_stretch_sums(got: int, held: int, asked: int, exact: int)
    requires
        exact > 0,
        0x1f_ffff_ffff_ffff * held <= 0x20_0000_0000_0000 * got <= 0x20_0000_0000_0001 * held,
        0x1f_ffff_ffff_ffff * asked <= 0x20_0000_0000_0000 * held <= 0x20_0000_0000_0001 * asked,
        0x1f_ffff_ffff_ffff * exact <= 0x20_0000_0000_0000 * asked <= 0x20_0000_0000_0001 * exact,
    ensures
        0x2_0000_0000_0000 * got <= 0x2_0000_0000_0001 * exact,
        0x2_0000_0000_0000 * got >= 0x1_ffff_ffff_ffff * exact,
{
}

/// A fraction of two counts, in units.
pub proof fn lemma_frac_fine(b: int, c: int)
    requires
        0 < b <= u64::MAX,
        0 < c <= u64::MAX,
    ensures
        frac(b, c).wf(),
        frac(b, c).m > 0,
        -120 <= frac(b, c).e <= 14,
        fine(frac(b, c)) > 0,
        close(fine(frac(b, c)) * c, b * unit()),
{
    lemma_known_powers();
    let u = unit();
    let a = b * two_to(116);
    lemma_two_to(52, 64);
    lemma_two_to(300, 0);
    lemma_two_to(116, 0);
    assert(a >= LOW * c) by (nonlinear_arith)
        requires
            a == b * two_to(116),
            two_to(116) == LOW * 0x1_0000_0000_0000_0000,
            b >= 1,
            0 < c <= 0x1_0000_0000_0000_0000,
    ;
    lemma_norm_shift(b, c, -116, 116);
    lemma_norm_error(a, c, -116);
    lemma_norm_wf(a, c, -116);
    let d = norm(a, c, -116);
    assert(d == frac(b, c));
    let s = (d.e + 116) as nat;
    let v = (d.m * two_to(s)) * c;
    assert(d.m > 0) by {
        if d.m == 0 {
            assert((0 * two_to(s)) * c == 0) by (nonlinear_arith);
        }
    }
    lemma_two_to(s, 184);
    lemma_two_to(116, 184);
    lemma_two_to(184, 0);
    assert(fine(d) * c == v * two_to(184)) by (nonlinear_arith)
        requires
            fine(d) == d.m * (two_to(s) * two_to(184)),
            v == (d.m * two_to(s)) * c,
    ;
    assert(b * u == a * two_to(184)) by (nonlinear_arith)
        requires
            a == b * two_to(116),
            u == two_to(116) * two_to(184),
    ;
    lemma_close_scaled(v, a, two_to(184) as int);
    assert(fine(d) > 0) by (nonlinear_arith)
        requires
            fine(d) == d.m * (two_to(s) * two_to(184)),
            d.m > 0,
            two_to(s) >= 1,
            two_to(184) >= 1,
    ;
    assert(b * u <= 0x1_0000_0000_0000_0000 * u && b * u >= u) by (nonlinear_arith)
        requires
            1 <= b <= 0x1_0000_0000_0000_0000,
            u >= 1,
    ;
    assert(fine(d) <= fine(d) * c) by (nonlinear_arith)
        requires
            fine(d) > 0,
            c >= 1,
    ;
    lemma_two_to(64, 1);
    assert(two_to(1) == 2 * two_to(0));
    assert(two_to(65) * u == 0x2_0000_0000_0000_0000 * u) by (nonlinear_arith)
        requires
            two_to(65) == 0x2_0000_0000_0000_0000,
    ;
    lemma_small_exponent(d, 65);
}

/// What the loop carries, in units: `rate` bytes per second for `rtt`
/// microseconds.
pub proof fn lemma_carried_fine(rate: int, rtt: int)
    requires
        0 < rate <= u64::MAX,
        0 < rtt <= u64::MAX,
    ensures
        ({
            let d = product(whole(rate), secs_of(rtt));
            let exact = (rate * rtt) * unit();
            &&& d.wf()
            &&& d.m > 0
            &&& -142 <= d.e <= 80
            &&& exact > 0
            &&& (TOP - 6) * exact <= TOP * (1_000_000 * fine(d)) <= (TOP + 6) * exact
        }),
{
    let u = unit();
    lemma_two_to(300, 0);
    lemma_count_fine(rate);
    lemma_secs_fine(rtt);
    let (x, y) = (whole(rate), secs_of(rtt));
    lemma_times_fine(x, y);
    let d = product(x, y);
    let (f, g, h) = (fine(d), fine(x), fine(y));
    let got = f * u;
    let held = g * h;
    let asked = g * (rtt * u);
    let exact = (rate * u) * (rtt * u);
    assert((TOP - 3) * asked <= TOP * (1_000_000 * held) <= (TOP + 3) * asked) by (nonlinear_arith)
        requires
            (TOP - 3) * (rtt * u) <= TOP * (1_000_000 * h) <= (TOP + 3) * (rtt * u),
            g >= 0,
            held == g * h,
            asked == g * (rtt * u),
    ;
    assert((TOP - 1) * exact <= TOP * asked <= (TOP + 1) * exact) by (nonlinear_arith)
        requires
            (TOP - 1) * (rate * u) <= TOP * g <= (TOP + 1) * (rate * u),
            rtt >= 1,
            u >= 1,
            asked == g * (rtt * u),
            exact == (rate * u) * (rtt * u),
    ;
    let e = (rate * rtt) * u;
    assert(exact == e * u && e > 0) by (nonlinear_arith)
        requires
            exact == (rate * u) * (rtt * u),
            e == (rate * rtt) * u,
            rate >= 1,
            rtt >= 1,
            u >= 1,
    ;
    assert(exact > 0) by (nonlinear_arith)
        requires
            exact == e * u,
            e > 0,
            u >= 1,
    ;
    lemma_carried_sums(got, held, asked, exact);
    assert((TOP - 6) * e <= TOP * (1_000_000 * f) <= (TOP + 6) * e) by (nonlinear_arith)
        requires
            (TOP - 6) * (e * u) <= TOP * (1_000_000 * (f * u)) <= (TOP + 6) * (e * u),
            u >= 1,
    ;
    lemma_known_powers();
    lemma_two_to(64, 64);
    assert(e <= 0x1_0000_0000_0000_0000_0000_0000_0000_0000 * u) by (nonlinear_arith)
        requires
            e == (rate * rtt) * u,
            0 < rate <= 0x1_0000_0000_0000_0000,
            0 < rtt <= 0x1_0000_0000_0000_0000,
            u >= 1,
    ;
    assert(two_to(128) * u == 0x1_0000_0000_0000_0000_0000_0000_0000_0000 * u)
        by (nonlinear_arith)
        requires
            two_to(128) == 0x1_0000_0000_0000_0000_0000_0000_0000_0000,
    ;
    assert(0x20_0000_0000_0000 * (1_000_000 * f) <= 0x20_0000_0000_0006 * e);
    lemma_small_exponent(d, 128);
}

proof fn lemma_carried_sums(got: int, held: int, asked: int, exact: int)
    requires
        exact > 0,
        0x1f_ffff_ffff_ffff * held <= 0x20_0000_0000_0000 * got <= 0x20_0000_0000_0001 * held,
        0x1f_ffff_ffff_fffd * asked <= 0x20_0000_0000_0000 * (1_000_000 * held)
            <= 0x20_0000_0000_0003 * asked,
        0x1f_ffff_ffff_ffff * exact <= 0x20_0000_0000_0000 * asked <= 0x20_0000_0000_0001 * exact,
    ensures
        0x1f_ffff_ffff_fffa * exact <= 0x20_0000_0000_0000 * (1_000_000 * got)
            <= 0x20_0000_0000_0006 * exact,
{
}

/// Twice what the loop carries, without what follows the point.
pub proof fn lemma_twice_carried_is_near(rate: int, rtt: int)
    requires
        0 < rate <= u64::MAX,
        0 < rtt <= u64::MAX,
    ensures
        ({
            let t = product(whole(2), product(whole(rate), secs_of(rtt))).floor();
            &&& t >= 0
            &&& 0x2_0000_0000_0000 * (t * 1_000_000) <= 0x2_0000_0000_0001 * (2 * (rate * rtt))
            &&& 0x2_0000_0000_0000 * ((t + 1) * 1_000_000) >= 0x1_ffff_ffff_ffff * (2 * (rate
                * rtt))
        }),
{
    let u = unit();
    lemma_two_to(300, 0);
    lemma_carried_fine(rate, rtt);
    lemma_count_fine(2);
    let d = product(whole(rate), secs_of(rtt));
    // the product with two keeps the digits
    let two = whole(2);
    lemma_twice(d);
    let t = product(two, d);
    lemma_fine_floor(t);
    let r = t.floor();
    let e = (rate * rtt) * u;
    let w = u;
    let lo = r * 1_000_000;
    let hi = (r + 1) * 1_000_000;
    let all = 2 * (rate * rtt);
    assert(lo * w == 1_000_000 * (r * u) && hi * w == 1_000_000 * ((r + 1) * u) && all * w == 2 * e)
        by (nonlinear_arith)
        requires
            lo == r * 1_000_000,
            hi == (r + 1) * 1_000_000,
            all == 2 * (rate * rtt),
            e == (rate * rtt) * u,
            w == u,
    ;
    assert(0x1f_ffff_ffff_fffa * e <= 0x20_0000_0000_0000 * (1_000_000 * fine(d))
        <= 0x20_0000_0000_0006 * e);
    lemma_cancel_near(lo, hi, all, w);
}

/// Twice a number is held as exactly as the number.
proof fn lemma_twice(d: Dbl)
    requires
        d.wf(),
        d.m > 0,
        -290 <= d.e,
    ensures
        product(whole(2), d).wf(),
        product(whole(2), d).e == d.e + 1,
        fine(product(whole(2), d)) == 2 * fine(d),
{
    assert(whole(2) == (Dbl { m: LOW as int, e: -51 })) by {
        reveal_with_fuel(norm, 54);
    }
    lemma_known_powers();
    lemma_norm_shift(d.m, 1, d.e - 51, 52);
    assert(LOW * d.m == d.m * two_to(52)) by (nonlinear_arith)
        requires
            two_to(52) == LOW,
    ;
    assert(norm(d.m, 1, d.e + 1) == (Dbl { m: d.m, e: d.e + 1 })) by {
        assert(d.m / 1 == d.m && d.m % 1 == 0);
    }
    assert(two_to((d.e + 301) as nat) == 2 * two_to((d.e + 300) as nat));
    assert(d.m * (2 * two_to((d.e + 300) as nat)) == 2 * (d.m * two_to((d.e + 300) as nat)))
        by (nonlinear_arith);
}

/// The place of a percentile among `n` sorted numbers.
pub proof fn lemma_rank_is_near(p: int, n: int)
    requires
        0 <= p <= 100,
        1 <= n < 0x8_0000_0000_0000,
    ensures
        ({
            let r = product(quotient(whole(p), whole(100)), whole(n - 1)).round();
            let off = 100 * r - p * (n - 1);
            &&& n < 0x5555_5555_5555 ==> -53 <= off <= 53
            &&& n < 0x800_0000_0000 ==> -50 <= off <= 50
        }),
{
    let u = unit();
    lemma_two_to(300, 0);
    let x = whole(n - 1);
    let q = quotient(whole(p), whole(100));
    let d = product(q, x);
    let r = d.round();
    if p == 0 {
        assert(whole(0) == zero());
        assert(q == zero());
        assert(0 * x.m == 0) by (nonlinear_arith);
        assert(d == zero());
        assert(d.round() == 0) by {
            crate::double::lemma_whole_exact(0);
        }
        assert(0 * (n - 1) == 0);
    } else if n == 1 {
        assert(whole(0) == zero());
        assert(q.m * 0 == 0) by (nonlinear_arith);
        assert(d == zero());
        crate::double::lemma_whole_exact(0);
        assert(p * 0 == 0);
    } else {
        lemma_count_fine(p);
        lemma_count_fine(100);
        lemma_count_fine(n - 1);
        lemma_quotient_fine(whole(p), whole(100));
        assert(fine(q) * (100 * u) == (100 * fine(q)) * u && (p * u) * u == (p * u) * u)
            by (nonlinear_arith);
        lemma_close_cancels(100 * fine(q), p * u, u);
        assert(whole(100).e <= 13);
        lemma_times_fine(q, x);
        let k = n - 1;
        assert(fine(q) * (k * u) == (fine(q) * k) * u) by (nonlinear_arith);
        lemma_close_cancels(fine(d), fine(q) * k, u);
        lemma_close_scaled(100 * fine(q), p * u, k);
        lemma_fine_round(d);
        let part = fine(q) * k;
        let exact = (p * k) * u;
        assert((100 * fine(q)) * k == 100 * part && (p * u) * k == exact) by (nonlinear_arith)
            requires
                part == fine(q) * k,
                exact == (p * k) * u,
        ;
        let off = 100 * r - p * k;
        assert((2 * r - 1) * u * 100 == (2 * off - 100) * u + 2 * exact && (2 * r + 1) * u * 100
            == (2 * off + 100) * u + 2 * exact) by (nonlinear_arith)
            requires
                off == 100 * r - p * k,
                exact == (p * k) * u,
        ;
        assert(0 <= exact <= (100 * k) * u) by (nonlinear_arith)
            requires
                exact == (p * k) * u,
                0 <= p <= 100,
                k >= 0,
                u >= 1,
        ;
        assert((2 * off - 100) * u == 2 * (off * u) - 100 * u && (2 * off + 100) * u == 2 * (off
            * u) + 100 * u) by (nonlinear_arith);
        lemma_rank_sums(fine(d), part, exact, off * u, u);
        if n < 0x5555_5555_5555 {
            assert((100 * k) * u <= 9_382_499_223_688_500 * u) by (nonlinear_arith)
                requires
                    0 <= k <= 0x5555_5555_5555,
                    u >= 1,
            ;
            lemma_off(off, u, 53);
        }
        if n < 0x800_0000_0000 {
            assert((100 * k) * u <= 879_609_302_220_800 * u) by (nonlinear_arith)
                requires
                    0 <= k <= 0x800_0000_0000,
                    u >= 1,
            ;
            lemma_off(off, u, 50);
        }
    }
}

proof fn lemma_off(off: int, u: int, most: int)
    requires
        u >= 1,
        -(most + 1) * u < off * u < (most + 1) * u,
    ensures
        -most <= off <= most,
{
    assert(-(most + 1) < off < most + 1) by (nonlinear_arith)
        requires
            u >= 1,
            -(most + 1) * u < off * u < (most + 1) * u,
    ;
}

proof fn lemma_rank_sums(d: int, part: int, exact: int, off: int, u: int)
    requires
        u >= 1,
        0 <= exact,
        0x1f_ffff_ffff_ffff * part <= 0x20_0000_0000_0000 * d <= 0x20_0000_0000_0001 * part,
        0x1f_ffff_ffff_ffff * exact <= 0x20_0000_0000_0000 * (100 * part) <= 0x20_0000_0000_0001
            * exact,
        2 * off - 100 * u + 2 * exact <= 200 * d < 2 * off + 100 * u + 2 * exact,
    ensures
        exact <= 879_609_302_220_800 * u ==> -51 * u < off < 51 * u,
        exact <= 9_382_499_223_688_500 * u ==> -54 * u < off < 54 * u,
{
}

// ---------------------------------------------------------------------------
// Where nothing is lost
// ---------------------------------------------------------------------------
/// A count times a fraction of a power of two is exact while the product has
/// no more than 52 bits.
pub proof fn lemma_exact_part(n: int, b: int, k: nat)
    requires
        0 < n,
        0 < b,
        n * b < LOW,
        k <= 2,
    ensures
        product(whole(n), frac(b, two_to(k) as int)).floor() == n * b / (two_to(k) as int),
{
    lemma_known_powers();
    assert(n <= n * b && b <= n * b) by (nonlinear_arith)
        requires
            n >= 1,
            b >= 1,
    ;
    assert(two_to(1) == 2 * two_to(0) && two_to(2) == 2 * two_to(1));
    // frac(b, 2^k) is b, k places down
    lemma_norm_shift(b, two_to(k) as int, -(k as int), k);
    if k == 1 {
        crate::double::lemma_norm_same(b, 1, -1);
        assert(b * two_to(1) == 2 * b) by (nonlinear_arith)
            requires
                two_to(1) == 2,
        ;
    } else if k == 2 {
        crate::double::lemma_norm_same(2 * b, 2, -2);
        crate::double::lemma_norm_same(b, 1, -2);
        assert(b * two_to(2) == 2 * (2 * b)) by (nonlinear_arith)
            requires
                two_to(2) == 4,
        ;
    } else {
        assert(b * two_to(0) == b) by (nonlinear_arith)
            requires
                two_to(0) == 1,
        ;
    }
    let i = crate::double::lemma_lifted(n, 0);
    let j = crate::double::lemma_lifted(b, -(k as int));
    let (x, y) = (whole(n), frac(b, two_to(k) as int));
    assert(y == (Dbl { m: b * two_to(j), e: -(k as int) - j }));
    let c = n * b;
    lemma_two_to(i, j);
    assert(x.m * y.m == c * two_to(i + j)) by (nonlinear_arith)
        requires
            x.m == n * two_to(i),
            y.m == b * two_to(j),
            c == n * b,
            two_to(i + j) == two_to(i) * two_to(j),
    ;
    lemma_norm_shift(c, 1, -(k as int) - (i + j), i + j);
    let l = crate::double::lemma_lifted(c, -(k as int));
    let d = product(x, y);
    assert(d == (Dbl { m: c * two_to(l), e: -(k as int) - l }));
    assert(l > 0) by {
        if l == 0 {
            assert(c * two_to(0) == c) by (nonlinear_arith)
                requires
                    two_to(0) == 1,
            ;
            lemma_norm_wf(c, 1, -(k as int));
        }
    }
    lemma_two_to(k, l);
    lemma_two_to(l, 0);
    lemma_two_to(k, 0);
    assert(d.den() == two_to(k + l));
    let (p, t) = (two_to(k) as int, two_to(l) as int);
    assert((c * t) / (p * t) == c / p) by {
        vstd::arithmetic::div_mod::lemma_truncate_middle(c, p, t);
        vstd::arithmetic::div_mod::lemma_div_denominator(c * t, t, p);
        vstd::arithmetic::div_mod::lemma_div_multiples_vanish(c, t);
        assert(t * p == p * t && c * t == t * c) by (nonlinear_arith);
    }
}

/// An eighth of what the loop carries, without what follows the point.
pub proof fn lemma_eighth_carried_is_near(rate: int, rtt: int)
    requires
        0 < rate <= u64::MAX,
        0 < rtt <= u64::MAX,
    ensures
        ({
            let t = quotient(product(whole(rate), secs_of(rtt)), whole(8)).floor();
            &&& t >= 0
            &&& 0x2_0000_0000_0000 * (t * 8_000_000) <= 0x2_0000_0000_0001 * (rate * rtt)
            &&& 0x2_0000_0000_0000 * ((t + 1) * 8_000_000) >= 0x1_ffff_ffff_ffff * (rate * rtt)
        }),
{
    let u = unit();
    lemma_two_to(300, 0);
    lemma_carried_fine(rate, rtt);
    let d = product(whole(rate), secs_of(rtt));
    lemma_eighth(d);
    let t = quotient(d, whole(8));
    lemma_fine_floor(t);
    let r = t.floor();
    let e = (rate * rtt) * u;
    let lo = r * 8_000_000;
    let hi = (r + 1) * 8_000_000;
    let all = rate * rtt;
    assert(lo * u == 8_000_000 * (r * u) && hi * u == 8_000_000 * ((r + 1) * u) && all * u == e)
        by (nonlinear_arith)
        requires
            lo == r * 8_000_000,
            hi == (r + 1) * 8_000_000,
            all == rate * rtt,
            e == (rate * rtt) * u,
    ;
    assert(0x1f_ffff_ffff_fffa * e <= 0x20_0000_0000_0000 * (1_000_000 * fine(d))
        <= 0x20_0000_0000_0006 * e);
    lemma_cancel_near(lo, hi, all, u);
}

/// An eighth of a number is held as exactly as the number.
proof fn lemma_eighth(d: Dbl)
    requires
        d.wf(),
        d.m > 0,
        -280 <= d.e,
    ensures
        quotient(d, whole(8)).wf(),
        quotient(d, whole(8)).e == d.e - 3,
        8 * fine(quotient(d, whole(8))) == fine(d),
{
    assert(whole(8) == (Dbl { m: LOW as int, e: -49 })) by {
        reveal_with_fuel(norm, 54);
    }
    lemma_known_powers();
    let e = d.e + 49;
    // d.m / 2^52, 52 places up
    lemma_norm_shift(d.m, LOW as int, e - 52, 52);
    let a = d.m * two_to(52);
    assert(norm(a, LOW as int, e - 52) == (Dbl { m: d.m, e: e - 52 })) by {
        assert(a == d.m * LOW);
        assert(a / (LOW as int) == d.m && a % (LOW as int) == 0) by {
            vstd::arithmetic::div_mod::lemma_div_multiples_vanish(d.m, LOW as int);
            vstd::arithmetic::div_mod::lemma_mod_multiples_basic(d.m, LOW as int);
            assert(d.m * LOW == LOW * d.m) by (nonlinear_arith);
        }
        assert(LOW * LOW <= a < TOP * LOW) by (nonlinear_arith)
            requires
                a == d.m * LOW,
                LOW <= d.m < TOP,
        ;
    }
    let k = (d.e + 297) as nat;
    assert(two_to(k + 1) == 2 * two_to(k) && two_to(k + 2) == 2 * two_to(k + 1) && two_to(k + 3) == 2
        * two_to(k + 2));
    assert(8 * (d.m * two_to(k)) == d.m * (8 * two_to(k))) by (nonlinear_arith);
}

/// Doubles stand in the order of their numbers.
proof fn lemma_fine_order(x: Dbl, y: Dbl)
    requires
        x.wf(),
        y.wf(),
        x.m > 0,
        y.m > 0,
        -290 <= x.e,
        !y.lt(x),
    ensures
        fine(x) <= fine(y),
{
    lemma_shift_order(x, y);
    let k = (y.e - x.e) as nat;
    let j = (x.e + 300) as nat;
    lemma_two_to(k, j);
    lemma_two_to(j, k);
    lemma_two_to(j, 0);
    let (p, q, xm, ym) = (two_to(j) as int, two_to(k) as int, x.m as int, y.m as int);
    assert((y.e + 300) as nat == k + j);
    assert(xm * p <= ym * (q * p)) by (nonlinear_arith)
        requires
            xm <= ym * q,
            p >= 0,
    ;
}

/// A share, its billionth and a bound in thousandths, each as near as its
/// double.
proof fn lemma_share_near(ok: int, n: int, min: int) -> (r: (int, int, int, int))
    requires
        0 < ok <= n < LOW,
        0 < min <= 1000,
    ensures
        ({
            let (a, f, s, e) = r;
            let share = quotient(whole(ok), whole(n));
            let sum = added(share, frac(1, 1_000_000_000));
            let bound = frac(min, 1000);
            &&& !sum.lt(bound) ==> f <= a
            &&& sum.lt(bound) ==> a <= f
            &&& close(a, s + e)
            &&& close(1000 * f, min * (n * unit()))
            &&& close(s, ok * unit())
            &&& close(1_000_000_000 * e, n * unit())
            &&& unit() > 0
        }),
{
    let u = unit();
    let (wo, wn) = (whole(ok), whole(n));
    lemma_two_to(300, 0);
    lemma_count_fine(ok);
    lemma_count_fine(n);
    lemma_quotient_fine(wo, wn);
    lemma_frac_fine(1, 1_000_000_000);
    lemma_frac_fine(min, 1000);
    let share = quotient(wo, wn);
    let bit = frac(1, 1_000_000_000);
    lemma_added_fine(share, bit);
    let sum = added(share, bit);
    let bound = frac(min, 1000);
    let (sa, sf, ss, se) = (fine(sum), fine(bound), fine(share), fine(bit));
    if sum.lt(bound) {
        lemma_fine_order(sum, bound);
    } else {
        lemma_fine_order(bound, sum);
    }
    assert(u > 0);
    let (a, f, s, e) = (sa * n, sf * n, ss * n, se * n);
    lemma_close_scaled(sa, ss + se, n);
    assert((ss + se) * n == s + e) by (nonlinear_arith)
        requires
            s == ss * n,
            e == se * n,
    ;
    lemma_close_scaled(sf * 1000, min * u, n);
    assert((sf * 1000) * n == 1000 * f && (min * u) * n == min * (n * u)) by (nonlinear_arith)
        requires
            f == sf * n,
    ;
    lemma_close_scaled(se * 1_000_000_000, 1 * u, n);
    assert((se * 1_000_000_000) * n == 1_000_000_000 * e && (1 * u) * n == n * u) by (nonlinear_arith)
        requires
            e == se * n,
    ;
    let (v, w) = (s, ok * u);
    assert(ss * (n * u) == v * u) by (nonlinear_arith)
        requires
            v == ss * n,
    ;
    assert((TOP - 1) * w <= TOP * v) by (nonlinear_arith)
        requires
            (TOP - 1) * (w * u) <= TOP * (v * u),
            u > 0,
    ;
    assert(TOP * v <= (TOP + 1) * w) by (nonlinear_arith)
        requires
            TOP * (v * u) <= (TOP + 1) * (w * u),
            u > 0,
    ;
    assert(sa <= sf ==> a <= f) by (nonlinear_arith)
        requires
            a == sa * n,
            f == sf * n,
            n > 0,
    ;
    assert(sf <= sa ==> f <= a) by (nonlinear_arith)
        requires
            a == sa * n,
            f == sf * n,
            n > 0,
    ;
    (a, f, s, e)
}

/// A share with a billionth on top reaches a bound in thousandths where the
/// share itself does, and nowhere below but for two billionths.
pub proof fn lemma_share_reaches_its_bound(ok: int, n: int, min: int)
    requires
        0 < ok <= n < LOW,
        0 < min <= 1000,
    ensures
        ({
            let low = added(quotient(whole(ok), whole(n)), frac(1, 1_000_000_000)).lt(
                frac(min, 1000),
            );
            &&& 1000 * ok >= min * n ==> !low
            &&& !low ==> 1_000_000 * (min * n - 1000 * ok) <= 2 * n
        }),
{
    let (a, f, s, e) = lemma_share_near(ok, n, min);
    let u = unit();
    let w = n * u;
    let p = min * w;
    let q = ok * u;
    assert(w > 0 && p <= 1000 * w && 0 <= q <= w && p >= 0) by (nonlinear_arith)
        requires
            w == n * u,
            p == min * w,
            q == ok * u,
            0 < ok <= n,
            0 < min <= 1000,
            u > 0,
    ;
    if 1000 * ok >= min * n {
        assert(1000 * q >= p) by (nonlinear_arith)
            requires
                1000 * ok >= min * n,
                u > 0,
                q == ok * u,
                p == min * (n * u),
        ;
    }
    if 1_000_000 * (p - 1000 * q) <= 2 * w {
        assert(1_000_000 * (min * n - 1000 * ok) <= 2 * n) by (nonlinear_arith)
            requires
                1_000_000 * (p - 1000 * q) <= 2 * w,
                u > 0,
                w == n * u,
                q == ok * u,
                p == min * (n * u),
        ;
    }
}

} // verus!
