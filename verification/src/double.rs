//! Numbers as a 64-bit floating point register holds them.
//!
//! Rates, shares and scaled times are computed in binary floating point: 53
//! bits, every operation rounded to the nearest number, a tie to the even one.
//! They stand here as integers, so that what is computed and what is shown can
//! be stated exactly. All numbers are zero or positive, and far from the ends
//! of the exponent's range.

use vstd::prelude::*;

use crate::num::capped;

verus! {

/// The smallest number of 53 bits.
pub const LOW: u64 = 0x10_0000_0000_0000;

/// The smallest number of 54 bits.
pub const TOP: u64 = 0x20_0000_0000_0000;

// ---------------------------------------------------------------------------
// Rounding
// ---------------------------------------------------------------------------
/// The integer nearest to `num / den`; of two equally near ones, the even one.
pub open spec fn nearest(num: int, den: int) -> int {
    let q = num / den;
    let twice = 2 * (num % den);
    if twice > den || twice == den && q % 2 == 1 {
        q + 1
    } else {
        q
    }
}

/// Round a fraction to the nearest integer, a tie to the even one.
pub fn round_nearest(num: u128, den: u128) -> (q: u128)
    requires
        den > 0,
    ensures
        q == nearest(num as int, den as int),
        q <= num,
{
    let q: u128 = num / den;
    let r: u128 = num % den;
    proof {
        assert(num == q * den + r && r < den) by (nonlinear_arith)
            requires
                den > 0,
                q == num / den,
                r == num % den,
        ;
        assert(q * den >= q) by (nonlinear_arith)
            requires
                den > 0,
        ;
    }
    if r > den - r || r == den - r && q % 2 == 1 {
        q + 1
    } else {
        q
    }
}

proof fn lemma_nearest(num: int, den: int)
    requires
        den > 0,
        num >= 0,
    ensures
        2 * num - den <= 2 * (nearest(num, den) * den) <= 2 * num + den,
        num / den <= nearest(num, den) <= num / den + 1,
        nearest(num, den) >= 0,
{
    let q = num / den;
    let r = num % den;
    assert(num == q * den + r && 0 <= r < den && 0 <= q) by (nonlinear_arith)
        requires
            den > 0,
            num >= 0,
            q == num / den,
            r == num % den,
    ;
    assert((q + 1) * den == q * den + den) by (nonlinear_arith);
}

// ---------------------------------------------------------------------------
// Powers of two
// ---------------------------------------------------------------------------
pub open spec fn two_to(k: nat) -> nat
    decreases k,
{
    if k == 0 {
        1
    } else {
        2 * two_to((k - 1) as nat)
    }
}

pub proof fn lemma_two_to(a: nat, b: nat)
    ensures
        two_to(a) >= 1,
        two_to(a + b) == two_to(a) * two_to(b),
    decreases b, a,
{
    if b == 0 {
        if a > 0 {
            lemma_two_to((a - 1) as nat, 0);
        }
        assert(two_to(a) * two_to(0) == two_to(a)) by (nonlinear_arith)
            requires
                two_to(0) == 1,
        ;
    } else {
        lemma_two_to(a, (b - 1) as nat);
        let p = two_to(a);
        let q = two_to((b - 1) as nat);
        assert(two_to(b) == 2 * q);
        assert(two_to(a + b) == 2 * two_to((a + b - 1) as nat));
        assert((a + b - 1) as nat == a + (b - 1) as nat);
        assert(2 * (p * q) == p * (2 * q)) by (nonlinear_arith);
    }
}

proof fn lemma_two_to_grows(a: nat, b: nat)
    requires
        a <= b,
    ensures
        1 <= two_to(a) <= two_to(b),
{
    lemma_two_to(a, (b - a) as nat);
    lemma_two_to((b - a) as nat, 0);
    assert(two_to(a) <= two_to(a) * two_to((b - a) as nat)) by (nonlinear_arith)
        requires
            two_to((b - a) as nat) >= 1,
    ;
}

pub proof fn lemma_known_powers()
    ensures
        two_to(11) == 2048,
        two_to(52) == LOW,
        two_to(53) == TOP,
        two_to(64) == 0x1_0000_0000_0000_0000,
        two_to(74) == 0x400_0000_0000_0000_0000,
        two_to(126) == 0x4000_0000_0000_0000_0000_0000_0000_0000,
        two_to(127) == 0x8000_0000_0000_0000_0000_0000_0000_0000,
{
    reveal_with_fuel(two_to, 54);
    assert(two_to(11) == 2048);
    assert(two_to(52) == LOW);
    assert(two_to(53) == TOP);
    lemma_two_to(53, 11);
    lemma_two_to(64, 10);
    assert(two_to(10) == 1024);
    lemma_two_to(74, 52);
    lemma_two_to(126, 1);
    assert(two_to(1) == 2);
}

fn power_of_two(k: u64) -> (p: u128)
    requires
        k <= 127,
    ensures
        p == two_to(k as nat),
{
    let mut p: u128 = 1;
    let mut i: u64 = 0;
    while i < k
        invariant
            i <= k <= 127,
            p == two_to(i as nat),
        decreases k - i,
    {
        proof {
            lemma_known_powers();
            lemma_two_to_grows((i + 1) as nat, 127);
            assert(two_to((i + 1) as nat) == 2 * two_to(i as nat));
        }
        p = 2 * p;
        i += 1;
    }
    p
}

// ---------------------------------------------------------------------------
// The number
// ---------------------------------------------------------------------------
/// The number `m * 2^e`. Zero has no exponent; any other has 53 bits.
pub struct Dbl {
    pub m: int,
    pub e: int,
}

pub open spec fn zero() -> Dbl {
    Dbl { m: 0, e: 0 }
}

impl Dbl {
    pub open spec fn wf(self) -> bool {
        self == zero() || LOW <= self.m < TOP
    }

    /// This number as a fraction.
    pub open spec fn num(self) -> int {
        if self.e >= 0 {
            self.m * two_to(self.e as nat)
        } else {
            self.m
        }
    }

    pub open spec fn den(self) -> int {
        if self.e >= 0 {
            1
        } else {
            two_to((-self.e) as nat) as int
        }
    }

    /// The integer part.
    pub open spec fn floor(self) -> int {
        self.num() / self.den()
    }

    /// The nearest integer; of two equally near ones, the larger.
    pub open spec fn round(self) -> int {
        (2 * self.num() + self.den()) / (2 * self.den())
    }

    /// The nearest integer to `by` times this number; of two equally near
    /// ones, the even one: its decimals, where `by` is a power of ten.
    pub open spec fn shown(self, by: int) -> int {
        nearest(by * self.num(), self.den())
    }

    /// This number is less than the other.
    pub open spec fn lt(self, other: Dbl) -> bool {
        if self.m == 0 || other.m == 0 {
            self.m == 0 && other.m != 0
        } else {
            self.e < other.e || self.e == other.e && self.m < other.m
        }
    }
}

pub open spec fn gap(a: int, b: int) -> nat {
    if a < LOW * b {
        (LOW * b - a) as nat
    } else if a >= TOP * b {
        (a - TOP * b + 1) as nat
    } else {
        0
    }
}

/// The number nearest to `a / b * 2^e`.
pub open spec fn norm(a: int, b: int, e: int) -> Dbl
    decreases gap(a, b),
{
    if a <= 0 || b <= 0 {
        zero()
    } else if a < LOW * b {
        norm(2 * a, b, e - 1)
    } else if a >= TOP * b {
        norm(a, 2 * b, e + 1)
    } else if nearest(a, b) == TOP {
        Dbl { m: LOW as int, e: e + 1 }
    } else {
        Dbl { m: nearest(a, b), e }
    }
}

/// An integer.
pub open spec fn whole(n: int) -> Dbl {
    norm(n, 1, 0)
}

/// The number nearest to a fraction, such as a decimal that is written out.
pub open spec fn frac(a: int, b: int) -> Dbl {
    norm(a, b, 0)
}

pub open spec fn product(x: Dbl, y: Dbl) -> Dbl {
    norm(x.m * y.m, 1, x.e + y.e)
}

pub open spec fn quotient(x: Dbl, y: Dbl) -> Dbl {
    norm(x.m, y.m, x.e - y.e)
}

pub open spec fn added(x: Dbl, y: Dbl) -> Dbl {
    if x.m == 0 {
        y
    } else if y.m == 0 {
        x
    } else if x.e >= y.e {
        norm(x.m * two_to((x.e - y.e) as nat) + y.m, 1, y.e)
    } else {
        norm(x.m + y.m * two_to((y.e - x.e) as nat), 1, x.e)
    }
}

/// `n` millionths.
pub open spec fn per_million(n: int) -> Dbl {
    quotient(whole(n), whole(1_000_000))
}

/// A time of `us` microseconds in seconds: the whole seconds and the rest, in
/// nanoseconds, divided by a billion.
pub open spec fn secs_of(us: int) -> Dbl {
    added(whole(us / 1_000_000), quotient(whole(us % 1_000_000 * 1000), whole(1_000_000_000)))
}

// ---------------------------------------------------------------------------
// What rounding keeps
// ---------------------------------------------------------------------------
pub proof fn lemma_norm_wf(a: int, b: int, e: int)
    ensures
        norm(a, b, e).wf(),
    decreases gap(a, b),
{
    if a <= 0 || b <= 0 {
    } else if a < LOW * b {
        lemma_norm_wf(2 * a, b, e - 1);
    } else if a >= TOP * b {
        lemma_norm_wf(a, 2 * b, e + 1);
    } else {
        lemma_nearest(a, b);
        assert(LOW <= a / b < TOP) by (nonlinear_arith)
            requires
                LOW * b <= a < TOP * b,
                b > 0,
        ;
    }
}

/// `k` doublings lift the fraction to 53 bits, so the exponent falls by no
/// more than that.
pub proof fn lemma_norm_low(a: int, b: int, e: int, k: nat)
    requires
        a > 0,
        b > 0,
        a * two_to(k) >= LOW * b,
    ensures
        norm(a, b, e).e >= e - k,
        norm(a, b, e).m > 0,
    decreases gap(a, b),
{
    if a < LOW * b {
        assert(k > 0) by {
            if k == 0 {
                assert(a * two_to(0) == a) by (nonlinear_arith)
                    requires
                        two_to(0) == 1,
                ;
            }
        }
        let p = two_to((k - 1) as nat);
        assert(a * (2 * p) == (2 * a) * p) by (nonlinear_arith);
        lemma_norm_low(2 * a, b, e - 1, (k - 1) as nat);
    } else if a >= TOP * b {
        lemma_two_to(k, 0);
        lemma_norm_high(a, 2 * b, e + 1);
    } else {
        lemma_norm_high(a, b, e);
    }
}

proof fn lemma_norm_high(a: int, b: int, e: int)
    requires
        b > 0,
        a >= LOW * b,
    ensures
        norm(a, b, e).e >= e,
        norm(a, b, e).m > 0,
    decreases gap(a, b),
{
    if a >= TOP * b {
        lemma_norm_high(a, 2 * b, e + 1);
    } else {
        lemma_norm_wf(a, b, e);
        lemma_nearest(a, b);
        assert(LOW <= a / b) by (nonlinear_arith)
            requires
                LOW * b <= a,
                b > 0,
        ;
    }
}

/// `k` halvings bring the fraction below 54 bits, so the exponent rises by no
/// more than that and the carry.
proof fn lemma_norm_up(a: int, b: int, e: int, k: nat)
    requires
        a > 0,
        b > 0,
        a < TOP * b * two_to(k),
    ensures
        norm(a, b, e).e <= e + k + 1,
    decreases gap(a, b),
{
    if a < LOW * b {
        lemma_norm_down(2 * a, b, e - 1);
    } else if a >= TOP * b {
        assert(k > 0) by {
            if k == 0 {
                assert(TOP * b * two_to(0) == TOP * b) by (nonlinear_arith)
                    requires
                        two_to(0) == 1,
                ;
            }
        }
        let p = two_to((k - 1) as nat);
        assert(TOP * b * (2 * p) == TOP * (2 * b) * p) by (nonlinear_arith);
        lemma_norm_up(a, 2 * b, e + 1, (k - 1) as nat);
    }
}

proof fn lemma_norm_down(a: int, b: int, e: int)
    requires
        b > 0,
        0 < a < TOP * b,
    ensures
        norm(a, b, e).e <= e + 1,
        norm(a, b, e).e == e + 1 ==> norm(a, b, e).m == LOW,
    decreases gap(a, b),
{
    if a < LOW * b {
        lemma_norm_down(2 * a, b, e - 1);
    }
}

// ---------------------------------------------------------------------------
// Order
// ---------------------------------------------------------------------------
proof fn lemma_nearest_order(a: int, b: int, c: int, d: int)
    requires
        b > 0,
        d > 0,
        a >= 0,
        c >= 0,
        a * d <= c * b,
    ensures
        nearest(a, b) <= nearest(c, d),
{
    lemma_nearest(a, b);
    lemma_nearest(c, d);
    let x = nearest(a, b);
    let y = nearest(c, d);
    if x > y {
        let q = a / b;
        let r = a % b;
        let s = c / d;
        let t = c % d;
        assert(a == q * b + r && 0 <= r < b) by (nonlinear_arith)
            requires
                b > 0,
                q == a / b,
                r == a % b,
        ;
        assert(c == s * d + t && 0 <= t < d) by (nonlinear_arith)
            requires
                d > 0,
                s == c / d,
                t == c % d,
        ;
        assert(q <= s) by (nonlinear_arith)
            requires
                a == q * b + r,
                c == s * d + t,
                0 <= r < b,
                0 <= t < d,
                a * d <= c * b,
                b > 0,
                d > 0,
        ;
        assert(x == q + 1 && y == q && s == q);
        assert(r * d <= t * b) by (nonlinear_arith)
            requires
                a == q * b + r,
                c == q * d + t,
                a * d <= c * b,
        ;
        assert(2 * r >= b && 2 * t <= d);
        assert(2 * r == b && 2 * t == d) by (nonlinear_arith)
            requires
                r * d <= t * b,
                2 * r >= b,
                2 * t <= d,
                b > 0,
                d > 0,
        ;
    }
}

/// Rounding keeps the order.
pub proof fn lemma_norm_order(a: int, b: int, c: int, d: int, e: int)
    requires
        a > 0,
        b > 0,
        c > 0,
        d > 0,
        a * d <= c * b,
    ensures
        !norm(c, d, e).lt(norm(a, b, e)),
    decreases gap(a, b) + gap(c, d),
{
    if a < LOW * b && c < LOW * d {
        assert((2 * a) * d <= (2 * c) * b) by (nonlinear_arith)
            requires
                a * d <= c * b,
        ;
        lemma_norm_order(2 * a, b, 2 * c, d, e - 1);
    } else if a >= TOP * b {
        assert(c >= TOP * d) by (nonlinear_arith)
            requires
                a >= TOP * b,
                a * d <= c * b,
                b > 0,
                d > 0,
        ;
        assert(a * (2 * d) <= c * (2 * b)) by (nonlinear_arith)
            requires
                a * d <= c * b,
        ;
        lemma_norm_order(a, 2 * b, c, 2 * d, e + 1);
    } else if a < LOW * b {
        lemma_norm_down(2 * a, b, e - 1);
        lemma_norm_high(c, d, e);
        lemma_norm_wf(c, d, e);
        lemma_norm_wf(a, b, e);
    } else {
        assert(c >= LOW * d) by (nonlinear_arith)
            requires
                a >= LOW * b,
                a * d <= c * b,
                b > 0,
                d > 0,
        ;
        lemma_norm_wf(a, b, e);
        lemma_norm_wf(c, d, e);
        if c >= TOP * d {
            lemma_norm_high(c, 2 * d, e + 1);
        } else {
            lemma_nearest_order(a, b, c, d);
        }
    }
}

pub proof fn lemma_norm_same(a: int, b: int, e: int)
    requires
        a > 0,
        b > 0,
    ensures
        norm(2 * a, 2 * b, e) == norm(a, b, e),
    decreases gap(a, b),
{
    if a < LOW * b {
        lemma_norm_same(2 * a, b, e - 1);
    } else if a >= TOP * b {
        lemma_norm_same(a, 2 * b, e + 1);
    } else {
        assert((2 * a) / (2 * b) == a / b && (2 * a) % (2 * b) == 2 * (a % b)) by {
            vstd::arithmetic::div_mod::lemma_truncate_middle(a, b, 2);
            let q = a / b;
            let r = a % b;
            vstd::arithmetic::div_mod::lemma_fundamental_div_mod(a, b);
            assert(2 * a == (2 * b) * q + 2 * r) by (nonlinear_arith)
                requires
                    a == b * q + r,
            ;
            vstd::arithmetic::div_mod::lemma_fundamental_div_mod_converse(
                2 * a,
                2 * b,
                q,
                2 * r,
            );
        }
    }
}

/// Twice the fraction is one more in the exponent.
pub proof fn lemma_norm_shift(a: int, b: int, e: int, k: nat)
    requires
        a > 0,
        b > 0,
    ensures
        norm(a * two_to(k), b, e) == norm(a, b, e + k),
        a * two_to(k) > 0,
    decreases k,
{
    if k == 0 {
        assert(a * two_to(0) == a) by (nonlinear_arith)
            requires
                two_to(0) == 1,
        ;
    } else {
        let p = two_to((k - 1) as nat);
        let c = a * p;
        lemma_norm_shift(a, b, e + 1, (k - 1) as nat);
        assert(a * (2 * p) == 2 * c) by (nonlinear_arith)
            requires
                c == a * p,
        ;
        if c >= LOW * b {
            lemma_norm_same(c, b, e + 1);
        }
    }
}

pub proof fn lemma_times_order(x: Dbl, y: Dbl, s: Dbl, t: Dbl)
    requires
        x.wf(),
        y.wf(),
        s.wf(),
        t.wf(),
        !y.lt(x),
        !t.lt(s),
    ensures
        !product(y, t).lt(product(x, s)),
{
    if x.m > 0 && s.m > 0 {
        let k = (y.e - x.e) as nat;
        let j = (t.e - s.e) as nat;
        lemma_two_to(k, j);
        lemma_two_to(j, 0);
        lemma_known_powers();
        assert(x.m <= y.m * two_to(k)) by {
            lemma_shift_order(x, y);
        }
        assert(s.m <= t.m * two_to(j)) by {
            lemma_shift_order(s, t);
        }
        let a = x.m * s.m;
        let c = y.m * t.m;
        assert(a > 0 && c > 0) by (nonlinear_arith)
            requires
                x.m > 0,
                s.m > 0,
                y.m > 0,
                t.m > 0,
                a == x.m * s.m,
                c == y.m * t.m,
        ;
        assert(a <= c * (two_to(k) * two_to(j))) by (nonlinear_arith)
            requires
                0 < x.m <= y.m * two_to(k),
                0 < s.m <= t.m * two_to(j),
                a == x.m * s.m,
                c == y.m * t.m,
        ;
        lemma_norm_shift(c, 1, x.e + s.e, k + j);
        lemma_norm_order(a, 1, c * two_to(k + j), 1, x.e + s.e);
    } else {
        assert(x.m * s.m == 0) by (nonlinear_arith)
            requires
                x.m == 0 || s.m == 0,
        ;
    }
}

pub proof fn lemma_shift_order(x: Dbl, y: Dbl)
    requires
        x.wf(),
        y.wf(),
        x.m > 0,
        !y.lt(x),
    ensures
        y.e >= x.e,
        y.m > 0,
        x.m <= y.m * two_to((y.e - x.e) as nat),
{
    let k = (y.e - x.e) as nat;
    if y.e > x.e {
        lemma_two_to_grows(1, k);
        assert(two_to(1) == 2 * two_to(0));
        assert(x.m <= y.m * two_to(k)) by (nonlinear_arith)
            requires
                x.m < TOP,
                y.m >= LOW,
                two_to(k) >= 2,
        ;
    } else {
        assert(y.m * two_to(0) == y.m) by (nonlinear_arith)
            requires
                two_to(0) == 1,
        ;
    }
}

/// The larger number has the larger integer part.
pub proof fn lemma_floor_order(x: Dbl, y: Dbl)
    requires
        x.wf(),
        y.wf(),
        !y.lt(x),
    ensures
        0 <= x.floor() <= y.floor(),
{
    lemma_two_to((-x.e) as nat, 0);
    lemma_two_to((-y.e) as nat, 0);
    lemma_two_to(x.e as nat, 0);
    lemma_two_to(y.e as nat, 0);
    if x.m == 0 {
        assert(0int / x.den() == 0);
        assert(y.num() >= 0) by (nonlinear_arith)
            requires
                y.m >= 0,
                y.num() == y.m || y.num() == y.m * two_to(y.e as nat),
        ;
        vstd::arithmetic::div_mod::lemma_div_pos_is_pos(y.num(), y.den());
    } else {
        lemma_shift_order(x, y);
        let k = (y.e - x.e) as nat;
        vstd::arithmetic::div_mod::lemma_div_pos_is_pos(x.m, x.den());
        if x.e >= 0 {
            lemma_two_to(k, x.e as nat);
            assert(x.m * two_to(x.e as nat) <= y.m * (two_to(k) * two_to(x.e as nat)))
                by (nonlinear_arith)
                requires
                    x.m <= y.m * two_to(k),
                    two_to(x.e as nat) >= 1,
            ;
            assert(0 <= x.m * two_to(x.e as nat)) by (nonlinear_arith)
                requires
                    x.m >= 0,
            ;
        } else if y.e >= 0 {
            // x < 2^y.e * m, over the denominator of x
            let p = two_to((-x.e) as nat);
            lemma_two_to(y.e as nat, (-x.e) as nat);
            assert(x.m <= (y.m * two_to(y.e as nat)) * p) by (nonlinear_arith)
                requires
                    x.m <= y.m * two_to(k),
                    two_to(k) == two_to(y.e as nat) * p,
            ;
            assert(x.m / (p as int) <= y.m * two_to(y.e as nat)) by (nonlinear_arith)
                requires
                    x.m <= (y.m * two_to(y.e as nat)) * p,
                    p >= 1,
            ;
        } else {
            let p = two_to((-y.e) as nat);
            let q = two_to(k);
            lemma_two_to((-y.e) as nat, k);
            lemma_two_to(k, 0);
            assert(two_to((-x.e) as nat) == p * q);
            assert(x.m / ((p * q) as int) <= y.m / (p as int)) by {
                vstd::arithmetic::div_mod::lemma_div_denominator(x.m, q as int, p as int);
                assert(q * p == p * q) by (nonlinear_arith);
                assert(x.m / (q as int) <= y.m) by (nonlinear_arith)
                    requires
                        x.m <= y.m * q,
                        q >= 1,
                ;
                vstd::arithmetic::div_mod::lemma_div_is_ordered(
                    x.m / (q as int),
                    y.m,
                    p as int,
                );
            }
        }
    }
}

pub proof fn lemma_whole_order(a: int, b: int)
    requires
        0 <= a <= b,
    ensures
        !whole(b).lt(whole(a)),
        whole(a).wf(),
        whole(b).wf(),
        b > 0 ==> whole(b).m > 0,
{
    if b > 0 {
        lemma_known_powers();
        assert(b * two_to(52) >= LOW) by (nonlinear_arith)
            requires
                b >= 1,
                two_to(52) == LOW,
        ;
        lemma_norm_low(b, 1, 0, 52);
    }
    lemma_norm_wf(a, 1, 0);
    lemma_norm_wf(b, 1, 0);
    if a > 0 {
        lemma_norm_order(a, 1, b, 1, 0);
    } else {
        assert(whole(a) == zero());
    }
}

// ---------------------------------------------------------------------------
// Computing
// ---------------------------------------------------------------------------
/// A number in a register.
#[derive(Clone, Copy, Debug, PartialEq, Eq, Structural)]
pub struct Double {
    pub m: u64,
    pub e: i64,
}

impl View for Double {
    type V = Dbl;

    open spec fn view(&self) -> Dbl {
        Dbl { m: self.m as int, e: self.e as int }
    }
}

impl Double {
    /// A number that further operations cannot take out of range.
    pub open spec fn within(self, k: int) -> bool {
        self@.wf() && -k <= self.e <= k
    }
}

fn nearest_double(a: u128, b: u128, e: i64) -> (d: Double)
    requires
        0 < b <= 0x400_0000_0000_0000_0000,
        -2000 <= e <= 2000,
    ensures
        d@ == norm(a as int, b as int, e as int),
        d.within(2130),
        d.m == 0 || e - 126 <= d.e <= e + 128,
{
    proof {
        lemma_known_powers();
        lemma_norm_wf(a as int, b as int, e as int);
        if a > 0 {
            assert(a * two_to(126) >= LOW * b) by (nonlinear_arith)
                requires
                    a >= 1,
                    b <= 0x400_0000_0000_0000_0000,
                    two_to(126) == 0x4000_0000_0000_0000_0000_0000_0000_0000,
            ;
            lemma_norm_low(a as int, b as int, e as int, 126);
            assert(a < TOP * b * two_to(127)) by (nonlinear_arith)
                requires
                    b >= 1,
                    a <= u128::MAX,
                    two_to(127) == 0x8000_0000_0000_0000_0000_0000_0000_0000,
            ;
            lemma_norm_up(a as int, b as int, e as int, 127);
        }
    }
    if a == 0 {
        return Double { m: 0, e: 0 };
    }
    let ghost whole_norm = norm(a as int, b as int, e as int);
    let mut x: u128 = a;
    let mut y: u128 = b;
    let mut f: i64 = e;
    let ghost mut k: nat = 0;
    while x < LOW as u128 * y
        invariant
            0 < x,
            0 < y <= 0x400_0000_0000_0000_0000,
            y == b,
            k > 0 ==> x < 0x8000_0000_0000_0000_0000_0000_0000_0000,
            whole_norm == norm(x as int, y as int, f as int),
            x >= two_to(k),
            f == e - k,
            -2000 <= e <= 2000,
        decreases gap(x as int, y as int),
    {
        proof {
            lemma_known_powers();
            if k >= 127 {
                lemma_two_to_grows(127, k);
            }
            assert(two_to(k + 1) == 2 * two_to(k));
            k = k + 1;
        }
        x = 2 * x;
        f -= 1;
    }
    let ghost mut j: nat = 0;
    proof {
        lemma_known_powers();
        if k >= 127 {
            lemma_two_to_grows(127, k);
        }
        lemma_two_to(0, 0);
    }
    while x / y >= TOP as u128
        invariant
            0 < y,
            LOW * y <= x,
            whole_norm == norm(x as int, y as int, f as int),
            y >= two_to(j),
            f <= 2000 + j,
            f >= -2000 - 127,
        decreases x - y,
    {
        proof {
            lemma_known_powers();
            assert(x >= TOP * y) by (nonlinear_arith)
                requires
                    x / y >= TOP,
                    y > 0,
            ;
            if j >= 127 {
                lemma_two_to_grows(127, j);
            }
            assert(two_to(j + 1) == 2 * two_to(j));
            j = j + 1;
        }
        y = 2 * y;
        f += 1;
    }
    let q: u128 = round_nearest(x, y);
    proof {
        lemma_nearest(x as int, y as int);
        assert(x < TOP * y) by (nonlinear_arith)
            requires
                x / y < TOP,
                y > 0,
        ;
        if j >= 127 {
            lemma_two_to_grows(127, j);
            lemma_known_powers();
        }
    }
    if q == TOP as u128 {
        Double { m: LOW, e: f + 1 }
    } else {
        Double { m: q as u64, e: f }
    }
}

pub fn whole_double(n: u64) -> (d: Double)
    ensures
        d@ == whole(n as int),
        d.within(64),
        d.e <= 12,
        n > 0 ==> d.m > 0,
        n == 0 ==> d.m == 0,
{
    proof {
        lemma_known_powers();
        if n > 0 {
            assert(n * two_to(52) >= LOW) by (nonlinear_arith)
                requires
                    n >= 1,
                    two_to(52) == LOW,
            ;
            lemma_norm_low(n as int, 1, 0, 52);
            lemma_norm_up(n as int, 1, 0, 11);
        }
    }
    nearest_double(n as u128, 1, 0)
}

/// A sum that may not fit a `u64`.
pub fn wide_double(n: u128) -> (d: Double)
    ensures
        d@ == whole(n as int),
        d.within(128),
        n > 0 ==> d.m > 0,
{
    proof {
        lemma_known_powers();
        if n > 0 {
            assert(n * two_to(52) >= LOW) by (nonlinear_arith)
                requires
                    n >= 1,
                    two_to(52) == LOW,
            ;
            lemma_norm_low(n as int, 1, 0, 52);
            assert(n < TOP * 1 * two_to(126));
            lemma_norm_up(n as int, 1, 0, 126);
        }
    }
    nearest_double(n, 1, 0)
}

/// A decimal that is written out as a fraction.
pub fn frac_double(a: u64, b: u64) -> (d: Double)
    requires
        b > 0,
    ensures
        d@ == frac(a as int, b as int),
        d.within(128),
        a > 0 ==> d.m > 0,
        a == 0 ==> d.m == 0,
{
    proof {
        lemma_known_powers();
        if a > 0 {
            lemma_norm_low_of(a as int, b as int);
            assert(a < TOP * b * two_to(11)) by (nonlinear_arith)
                requires
                    a <= u64::MAX,
                    b >= 1,
                    two_to(11) == 2048,
            ;
            lemma_norm_up(a as int, b as int, 0, 11);
        }
    }
    nearest_double(a as u128, b as u128, 0)
}

proof fn lemma_norm_low_of(a: int, b: int)
    requires
        a > 0,
        0 < b <= u64::MAX,
    ensures
        norm(a, b, 0).e >= -117,
        norm(a, b, 0).m > 0,
{
    lemma_known_powers();
    lemma_two_to(64, 53);
    assert(a * two_to(117) >= LOW * b) by (nonlinear_arith)
        requires
            a >= 1,
            b <= u64::MAX,
            two_to(117) == 0x1_0000_0000_0000_0000 * TOP,
    ;
    lemma_norm_low(a, b, 0, 117);
}

impl Double {
    pub fn times(self, other: Double) -> (d: Double)
        requires
            self.within(900),
            other.within(900),
        ensures
            d@ == product(self@, other@),
            d.within(2130),
            d.m == 0 || self.e + other.e - 126 <= d.e <= self.e + other.e + 128,
            d.m == 0 <==> self.m == 0 || other.m == 0,
    {
        proof {
            assert(self.m * other.m < TOP * TOP) by (nonlinear_arith)
                requires
                    self.m < TOP,
                    other.m < TOP,
            ;
            assert(self.m * other.m == 0 <==> self.m == 0 || other.m == 0) by (nonlinear_arith);
            if self.m > 0 && other.m > 0 {
                assert(self.m * other.m >= LOW) by (nonlinear_arith)
                    requires
                        self.m >= LOW,
                        other.m >= 1,
                ;
                lemma_norm_high(self.m * other.m, 1, self.e + other.e);
            }
        }
        nearest_double(self.m as u128 * other.m as u128, 1, self.e + other.e)
    }

    pub fn over(self, other: Double) -> (d: Double)
        requires
            self.within(900),
            other.within(900),
            other.m > 0,
        ensures
            d@ == quotient(self@, other@),
            d.within(2130),
            d.m == 0 || self.e - other.e - 53 <= d.e <= self.e - other.e - 51,
            d.m == 0 <==> self.m == 0,
    {
        proof {
            lemma_known_powers();
            if self.m > 0 {
                assert(self.m * two_to(53) >= LOW * other.m) by (nonlinear_arith)
                    requires
                        self.m >= LOW,
                        other.m < TOP,
                        two_to(53) == TOP,
                ;
                lemma_norm_low(self.m as int, other.m as int, self.e - other.e, 53);
                assert(self.m * two_to(52) < TOP * other.m) by (nonlinear_arith)
                    requires
                        self.m < TOP,
                        other.m >= LOW,
                        two_to(52) == LOW,
                ;
                lemma_norm_small(self.m as int, other.m as int, self.e - other.e, 52);
            }
        }
        nearest_double(self.m as u128, other.m as u128, self.e - other.e)
    }

    /// The sum of two numbers of like size.
    pub fn plus(self, other: Double) -> (d: Double)
        requires
            self.within(900),
            other.within(900),
            self.m > 0 && other.m > 0 ==> -73 <= self.e - other.e <= 73,
        ensures
            d@ == added(self@, other@),
            d.within(2130),
            self.m > 0 && other.m > 0 ==> (d.e >= self.e || d.e >= other.e) && (d.e <= self.e + 2
                || d.e <= other.e + 2),
            d.m == 0 || -1030 <= d.e <= 1030,
            d.m == 0 <==> self.m == 0 && other.m == 0,
    {
        if self.m == 0 {
            return other;
        }
        if other.m == 0 {
            return self;
        }
        let (big, small): (Double, Double) = if self.e >= other.e {
            (self, other)
        } else {
            (other, self)
        };
        let up: u128 = power_of_two((big.e - small.e) as u64);
        proof {
            lemma_known_powers();
            lemma_two_to(53, 73);
            lemma_two_to_grows((big.e - small.e) as nat, 73);
            assert(two_to(73) * 2 == two_to(74));
            assert(big.m * up < TOP * two_to(73)) by (nonlinear_arith)
                requires
                    big.m < TOP,
                    0 < up <= two_to(73),
            ;
            assert(big.m * up >= big.m) by (nonlinear_arith)
                requires
                    up >= 1,
            ;
            lemma_norm_high(big.m * up + small.m, 1, small.e as int);
            let k = (big.e - small.e) as nat;
            assert(two_to(k + 1) == 2 * two_to(k));
            assert(big.m * up + small.m < TOP * 1 * two_to(k + 1)) by (nonlinear_arith)
                requires
                    big.m < TOP,
                    small.m < TOP,
                    up == two_to(k),
                    up >= 1,
                    two_to(k + 1) == 2 * two_to(k),
            ;
            lemma_norm_up(big.m * up + small.m, 1, small.e as int, k + 1);
        }
        nearest_double(big.m as u128 * up + small.m as u128, 1, small.e)
    }

    pub fn less_than(self, other: Double) -> (r: bool)
        ensures
            r == self@.lt(other@),
    {
        if self.m == 0 || other.m == 0 {
            self.m == 0 && other.m != 0
        } else {
            self.e < other.e || self.e == other.e && self.m < other.m
        }
    }
}

proof fn lemma_norm_small(a: int, b: int, e: int, k: nat)
    requires
        a > 0,
        b > 0,
        a * two_to(k) < TOP * b,
    ensures
        norm(a, b, e).e <= e - k + 1,
    decreases k,
{
    if k == 0 {
        assert(a * two_to(0) == a) by (nonlinear_arith)
            requires
                two_to(0) == 1,
        ;
        lemma_norm_down(a, b, e);
    } else {
        let p = two_to((k - 1) as nat);
        lemma_two_to((k - 1) as nat, 0);
        assert(a * (2 * p) == (2 * a) * p) by (nonlinear_arith);
        assert(2 * a <= (2 * a) * p) by (nonlinear_arith)
            requires
                a > 0,
                p >= 1,
        ;
        lemma_norm_small(2 * a, b, e - 1, (k - 1) as nat);
    }
}

/// A time in seconds.
pub fn secs_double(us: u64) -> (d: Double)
    ensures
        d@ == secs_of(us as int),
        d.within(1030),
        d.m == 0 || -200 <= d.e <= 200,
        d.m == 0 <==> us == 0,
{
    let secs: u64 = us / 1_000_000;
    let nanos: u64 = us % 1_000_000 * 1000;
    let w: Double = whole_double(secs);
    let n: Double = whole_double(nanos);
    let g: Double = whole_double(1_000_000_000);
    proof {
        lemma_known_powers();
        reveal_with_fuel(two_to, 54);
        assert(two_to(23) == 8_388_608);
        assert(two_to(43) == 8_796_093_022_208);
        assert(two_to(8) == 256);
        lemma_norm_small(1_000_000_000, 1, 0, 23);
        lemma_norm_low(1_000_000_000, 1, 0, 23);
        if secs > 0 {
            lemma_norm_small(secs as int, 1, 0, 8);
        }
        if nanos > 0 {
            lemma_norm_low(nanos as int, 1, 0, 43);
            lemma_norm_small(nanos as int, 1, 0, 23);
        }
    }
    let part: Double = n.over(g);
    let sum: Double = w.plus(part);
    proof {
        if sum.m > 0 {
            lemma_sum_near(w@, part@);
        }
    }
    sum
}

/// A sum lies no lower than the finer summand and no higher than 128 places
/// above it.
proof fn lemma_sum_near(x: Dbl, y: Dbl)
    requires
        x.wf(),
        y.wf(),
        x.m > 0 || y.m > 0,
        x.m > 0 ==> -64 <= x.e <= 64,
        y.m > 0 ==> -74 <= y.e <= 64,
        x.m > 0 && y.m > 0 ==> -73 <= x.e - y.e <= 73,
    ensures
        -200 <= added(x, y).e <= 200,
{
    if x.m > 0 && y.m > 0 {
        let (big, small) = if x.e >= y.e {
            (x, y)
        } else {
            (y, x)
        };
        let up = two_to((big.e - small.e) as nat);
        lemma_known_powers();
        lemma_two_to(53, 74);
        lemma_two_to_grows((big.e - small.e) as nat, 73);
        lemma_two_to(73, 1);
        assert(two_to(1) == 2 * two_to(0));
        let a = big.m * up + small.m;
        assert(big.m * up < TOP * two_to(73)) by (nonlinear_arith)
            requires
                0 < big.m < TOP,
                0 < up <= two_to(73),
        ;
        assert(big.m * up >= big.m) by (nonlinear_arith)
            requires
                up >= 1,
                big.m > 0,
        ;
        assert(TOP * two_to(73) >= TOP) by (nonlinear_arith)
            requires
                two_to(73) >= 1,
        ;
        assert(a < TOP * 1 * two_to(74)) by (nonlinear_arith)
            requires
                a < TOP * two_to(73) + TOP,
                TOP * two_to(73) >= TOP,
                two_to(74) == 2 * two_to(73),
        ;
        lemma_norm_high(a, 1, small.e);
        lemma_norm_up(a, 1, small.e, 74);
        assert(x.m + y.m * two_to((y.e - x.e) as nat) == y.m * two_to((y.e - x.e) as nat) + x.m);
    }
}

proof fn lemma_big_exponent(m: int, e: int)
    requires
        LOW <= m,
        e >= 12,
    ensures
        m * two_to(e as nat) > u64::MAX,
{
    lemma_known_powers();
    lemma_two_to(11, 1);
    lemma_two_to_grows(12, e as nat);
    assert(two_to(1) == 2 * two_to(0));
    assert(m * two_to(e as nat) >= LOW * 4096) by (nonlinear_arith)
        requires
            m >= LOW,
            two_to(e as nat) >= 4096,
    ;
}

impl Double {
    /// The integer part.
    pub fn floor_wide(self) -> (r: u128)
        requires
            self.within(2130),
            self.e <= 60,
        ensures
            r == self@.floor(),
            self.e <= 11 ==> r <= u64::MAX,
    {
        if self.e >= 0 {
            let p: u128 = power_of_two(self.e as u64);
            proof {
                lemma_known_powers();
                lemma_two_to_grows(self.e as nat, 64);
                assert(0 <= self.m * p <= TOP * 0x1_0000_0000_0000_0000) by (nonlinear_arith)
                    requires
                        self.m < TOP,
                        0 < p <= 0x1_0000_0000_0000_0000,
                ;
                if self.e <= 11 {
                    lemma_two_to_grows(self.e as nat, 11);
                    assert(self.m * p <= (TOP - 1) * 2048) by (nonlinear_arith)
                        requires
                            self.m <= TOP - 1,
                            0 < p <= 2048,
                    ;
                }
            }
            return self.m as u128 * p;
        }
        if self.e <= -64 {
            proof {
                lemma_known_powers();
                lemma_two_to_grows(64, (-self.e) as nat);
                assert(self@.num() / self@.den() == 0) by (nonlinear_arith)
                    requires
                        0 <= self@.num() < self@.den(),
                ;
            }
            return 0;
        }
        let p: u128 = power_of_two((-self.e) as u64);
        proof {
            lemma_two_to((-self.e) as nat, 0);
            assert(self.m as int / (p as int) <= self.m) by (nonlinear_arith)
                requires
                    p >= 1,
            ;
        }
        self.m as u128 / p
    }

    /// The integer part, held at the largest `u64`.
    pub fn floor_capped(self) -> (r: u64)
        requires
            self.within(2130),
        ensures
            r == capped(self@.floor()),
    {
        if self.m > 0 && self.e >= 12 {
            proof {
                lemma_big_exponent(self.m as int, self.e as int);
            }
            return u64::MAX;
        }
        self.floor_wide() as u64
    }

    /// The nearest integer, the larger of two.
    pub fn round_capped(self) -> (r: u64)
        requires
            self.within(2130),
        ensures
            r == capped(self@.round()),
    {
        if self.e >= 0 {
            let r: u64 = self.floor_capped();
            assert((2 * self@.num() + 1) / 2 == self@.num());
            return r;
        }
        if self.e <= -64 {
            proof {
                lemma_known_powers();
                lemma_two_to_grows(64, (-self.e) as nat);
                let n = 2 * self@.num() + self@.den();
                let d = 2 * self@.den();
                assert(n / d == 0) by (nonlinear_arith)
                    requires
                        0 <= n < d,
                ;
            }
            return 0;
        }
        let p: u128 = power_of_two((-self.e) as u64);
        proof {
            lemma_known_powers();
            lemma_two_to_grows((-self.e) as nat, 64);
            let n = 2 * self.m + p;
            let d = 2 * p as int;
            assert(n / d <= self.m + 1) by (nonlinear_arith)
                requires
                    n == 2 * self.m + p,
                    d == 2 * p,
                    p >= 1,
                    self.m >= 0,
            ;
            assert(0 <= n / d) by (nonlinear_arith)
                requires
                    n >= 0,
                    d > 0,
            ;
        }
        ((2 * self.m as u128 + p) / (2 * p)) as u64
    }

    /// The nearest integer to `by` times this number, the even one of two.
    pub fn shown_capped(self, by: u64) -> (r: u64)
        requires
            self.within(2130),
            1 <= by <= 1000,
        ensures
            r == capped(self@.shown(by as int)),
    {
        if self.m == 0 {
            proof {
                lemma_two_to((-self.e) as nat, 0);
                assert(by * self@.num() == 0) by (nonlinear_arith)
                    requires
                        self@.num() == 0,
                ;
                assert(0int % self@.den() == 0 && 0int / self@.den() == 0);
            }
            return 0;
        }
        if self.e >= 12 {
            proof {
                lemma_big_exponent(self.m as int, self.e as int);
                assert(by * self@.num() >= self@.num()) by (nonlinear_arith)
                    requires
                        by >= 1,
                        self@.num() >= 0,
                ;
                assert(by * self@.num() % 1 == 0);
            }
            return u64::MAX;
        }
        if self.e >= 0 {
            let p: u128 = power_of_two(self.e as u64);
            proof {
                lemma_known_powers();
                lemma_two_to_grows(self.e as nat, 11);
                assert(0 <= self.m * p < TOP * 2048) by (nonlinear_arith)
                    requires
                        self.m < TOP,
                        0 < p <= 2048,
                ;
                assert(0 <= by * (self.m * p) <= 1000 * (self.m * p)) by (nonlinear_arith)
                    requires
                        by <= 1000,
                        self.m * p >= 0,
                ;
            }
            let wide: u128 = by as u128 * (self.m as u128 * p);
            assert(wide as int % 1 == 0);
            return if wide > u64::MAX as u128 {
                u64::MAX
            } else {
                wide as u64
            };
        }
        proof {
            assert(0 <= by * self.m < 1000 * TOP) by (nonlinear_arith)
                requires
                    by <= 1000,
                    self.m < TOP,
                    by >= 1,
            ;
        }
        if self.e <= -127 {
            proof {
                lemma_known_powers();
                lemma_two_to_grows(127, (-self.e) as nat);
                let n = by * self@.num();
                let d = self@.den();
                assert(n / d == 0 && n % d == n) by (nonlinear_arith)
                    requires
                        0 <= n < d,
                ;
            }
            return 0;
        }
        let p: u128 = power_of_two((-self.e) as u64);
        proof {
            lemma_two_to((-self.e) as nat, 0);
        }
        round_nearest(by as u128 * self.m as u128, p) as u64
    }
}

/// A share of a whole lies at most at one, and not below what a count can
/// tell apart.
pub proof fn lemma_share(ok: int, n: int)
    requires
        0 <= ok <= n <= u64::MAX,
        n > 0,
    ensures
        whole(n).m > 0,
        ok > 0 ==> -117 <= quotient(whole(ok), whole(n)).e <= -51,
{
    lemma_whole_order(ok, n);
    lemma_known_powers();
    assert(n * two_to(52) >= LOW) by (nonlinear_arith)
        requires
            n >= 1,
            two_to(52) == LOW,
    ;
    lemma_norm_low(n, 1, 0, 52);
    lemma_norm_up(n, 1, 0, 11);
    if ok > 0 {
        assert(ok * two_to(52) >= LOW) by (nonlinear_arith)
            requires
                ok >= 1,
                two_to(52) == LOW,
        ;
        lemma_norm_low(ok, 1, 0, 52);
        let x = whole(ok);
        let y = whole(n);
        assert(x.m * two_to(53) >= LOW * y.m) by (nonlinear_arith)
            requires
                x.m >= LOW,
                y.m < TOP,
                two_to(53) == TOP,
        ;
        lemma_norm_low(x.m, y.m, x.e - y.e, 53);
        assert(x.m * two_to(52) < TOP * y.m) by (nonlinear_arith)
            requires
                x.m < TOP,
                y.m >= LOW,
                two_to(52) == LOW,
        ;
        lemma_norm_small(x.m, y.m, x.e - y.e, 52);
    }
}

pub proof fn lemma_billionth()
    ensures
        frac(1, 1_000_000_000).wf(),
        frac(1, 1_000_000_000).m > 0,
        -82 <= frac(1, 1_000_000_000).e <= -80,
{
    lemma_norm_wf(1, 1_000_000_000, 0);
    reveal_with_fuel(two_to, 54);
    lemma_known_powers();
    lemma_two_to(53, 29);
    assert(two_to(29) == 536_870_912);
    assert(two_to(28) == 268_435_456);
    lemma_norm_low(1, 1_000_000_000, 0, 82);
    lemma_two_to(53, 28);
    lemma_norm_small(1, 1_000_000_000, 0, 81);
}

/// So many millionths.
pub fn millionths(n: u64) -> (d: Double)
    ensures
        d@ == per_million(n as int),
        d.within(200),
{
    whole_double(n).over(whole_double(1_000_000))
}

pub proof fn lemma_over_order(x: Dbl, y: Dbl, by: Dbl)
    requires
        x.wf(),
        y.wf(),
        by.wf(),
        by.m > 0,
        !y.lt(x),
    ensures
        !quotient(y, by).lt(quotient(x, by)),
        quotient(x, by).wf(),
        quotient(y, by).wf(),
{
    lemma_norm_wf(x.m, by.m, x.e - by.e);
    lemma_norm_wf(y.m, by.m, y.e - by.e);
    if x.m > 0 {
        lemma_shift_order(x, y);
        let k = (y.e - x.e) as nat;
        lemma_norm_shift(y.m, by.m, x.e - by.e, k);
        assert(x.m * by.m <= (y.m * two_to(k)) * by.m) by (nonlinear_arith)
            requires
                x.m <= y.m * two_to(k),
                by.m > 0,
        ;
        lemma_norm_order(x.m, by.m, y.m * two_to(k), by.m, x.e - by.e);
    }
}

/// A sum over any common exponent.
proof fn lemma_plus_at(x: Dbl, y: Dbl, at: int)
    requires
        x.wf(),
        y.wf(),
        y.m > 0,
        at <= y.e,
        x.m > 0 ==> at <= x.e,
    ensures
        added(x, y) == norm(
            (if x.m > 0 {
                x.m * two_to((x.e - at) as nat)
            } else {
                0
            }) + y.m * two_to((y.e - at) as nat),
            1,
            at,
        ),
{
    let low = if x.m > 0 && x.e < y.e {
        x.e
    } else {
        y.e
    };
    let k = (low - at) as nat;
    let a = if x.m > 0 {
        x.m * two_to((x.e - low) as nat)
    } else {
        0
    };
    let b = y.m * two_to((y.e - low) as nat);
    assert(y.m * two_to(0) == y.m && x.m * two_to(0) == x.m) by (nonlinear_arith)
        requires
            two_to(0) == 1,
    ;
    lemma_two_to((y.e - low) as nat, k);
    lemma_two_to((y.e - low) as nat, 0);
    assert(b >= y.m) by (nonlinear_arith)
        requires
            b == y.m * two_to((y.e - low) as nat),
            two_to((y.e - low) as nat) >= 1,
            y.m > 0,
    ;
    assert(b * two_to(k) == y.m * two_to((y.e - at) as nat)) by (nonlinear_arith)
        requires
            b == y.m * two_to((y.e - low) as nat),
            two_to((y.e - at) as nat) == two_to((y.e - low) as nat) * two_to(k),
    ;
    if x.m > 0 {
        lemma_two_to((x.e - low) as nat, k);
        lemma_two_to((x.e - low) as nat, 0);
        assert(a >= 0) by (nonlinear_arith)
            requires
                a == x.m * two_to((x.e - low) as nat),
                x.m > 0,
        ;
        assert(a * two_to(k) == x.m * two_to((x.e - at) as nat)) by (nonlinear_arith)
            requires
                a == x.m * two_to((x.e - low) as nat),
                two_to((x.e - at) as nat) == two_to((x.e - low) as nat) * two_to(k),
        ;
    } else {
        assert(nearest(y.m, 1) == y.m);
        assert(norm(y.m, 1, y.e) == y);
    }
    assert((a + b) * two_to(k) == a * two_to(k) + b * two_to(k)) by (nonlinear_arith);
    lemma_norm_shift(a + b, 1, at, k);
}

/// A larger summand gives no smaller sum.
pub proof fn lemma_plus_order(x: Dbl, y: Dbl, by: Dbl)
    requires
        x.wf(),
        y.wf(),
        by.wf(),
        by.m > 0,
        !y.lt(x),
    ensures
        !added(y, by).lt(added(x, by)),
{
    let at = if x.m > 0 && x.e < by.e {
        x.e
    } else {
        by.e
    };
    if x.m > 0 {
        lemma_shift_order(x, y);
    }
    let at = if y.m > 0 && y.e < at {
        y.e
    } else {
        at
    };
    lemma_plus_at(x, by, at);
    lemma_plus_at(y, by, at);
    let c = by.m * two_to((by.e - at) as nat);
    lemma_two_to((by.e - at) as nat, 0);
    assert(c > 0) by (nonlinear_arith)
        requires
            c == by.m * two_to((by.e - at) as nat),
            by.m > 0,
            two_to((by.e - at) as nat) >= 1,
    ;
    if y.m > 0 {
        lemma_two_to((y.e - at) as nat, 0);
        assert(y.m * two_to((y.e - at) as nat) >= 0) by (nonlinear_arith)
            requires
                y.m > 0,
        ;
        let a = if x.m > 0 {
            x.m * two_to((x.e - at) as nat)
        } else {
            0
        };
        let b = y.m * two_to((y.e - at) as nat);
        if x.m > 0 {
            let k = (y.e - x.e) as nat;
            lemma_two_to(k, (x.e - at) as nat);
            assert(0 <= a <= b) by (nonlinear_arith)
                requires
                    0 < x.m <= y.m * two_to(k),
                    a == x.m * two_to((x.e - at) as nat),
                    b == y.m * two_to((y.e - at) as nat),
                    two_to((y.e - at) as nat) == two_to(k) * two_to((x.e - at) as nat),
            ;
        }
        lemma_norm_order(a + c, 1, b + c, 1, at);
    } else {
        lemma_norm_order(c, 1, c, 1, at);
    }
}

/// A share and a billionth stay below two.
#[verifier::rlimit(40)]
#[verifier::spinoff_prover]
pub proof fn lemma_share_below_two(ok: int, n: int)
    requires
        0 <= ok <= n,
        n > 0,
    ensures
        added(quotient(whole(ok), whole(n)), frac(1, 1_000_000_000)).lt(frac(2000, 1000)),
{
    let bit = frac(1, 1_000_000_000);
    let one = whole(1);
    lemma_billionth();
    lemma_norm_wf(1, 1_000_000_000, 0);
    lemma_known_powers();
    lemma_two_to(53, 29);
    reveal_with_fuel(two_to, 54);
    assert(two_to(29) == 536_870_912);
    lemma_norm_low(1, 1_000_000_000, 0, 82);
    lemma_whole_order(ok, n);
    lemma_whole_order(n, n);
    assert(whole(n).m > 0) by {
        assert(n * two_to(52) >= LOW) by (nonlinear_arith)
            requires
                n >= 1,
                two_to(52) == LOW,
        ;
        lemma_norm_low(n, 1, 0, 52);
    }
    lemma_over_order(whole(ok), whole(n), whole(n));
    let w = whole(n);
    // a number over itself is one
    assert(quotient(w, w) == one) by {
        lemma_ratio_one(w.m);
    }
    assert(one == (Dbl { m: LOW as int, e: -52 })) by {
        reveal_with_fuel(norm, 54);
    }
    lemma_plus_order(quotient(whole(ok), whole(n)), one, bit);
    let sum = added(one, bit);
    assert(frac(2000, 1000) == (Dbl { m: LOW as int, e: -51 })) by {
        reveal_with_fuel(norm, 54);
    }
    lemma_plus_at(one, bit, bit.e);
    let k = (-52 - bit.e) as nat;
    lemma_two_to_grows(28, k);
    let a = LOW * two_to(k);
    let c = 3 * LOW * two_to((k - 1) as nat);
    assert(two_to(k) == 2 * two_to((k - 1) as nat));
    assert(bit.m * two_to(0) == bit.m) by (nonlinear_arith)
        requires
            two_to(0) == 1,
    ;
    lemma_two_to_grows(27, (k - 1) as nat);
    assert(a + bit.m <= c) by (nonlinear_arith)
        requires
            a == LOW * (2 * two_to((k - 1) as nat)),
            c == 3 * LOW * two_to((k - 1) as nat),
            two_to((k - 1) as nat) >= 2,
            bit.m < TOP,
    ;
    assert(a > 0) by (nonlinear_arith)
        requires
            a == LOW * two_to(k),
            two_to(k) >= 1,
    ;
    lemma_norm_order(a + bit.m, 1, c, 1, bit.e);
    lemma_norm_shift(3 * LOW, 1, bit.e, (k - 1) as nat);
    assert(norm(3 * LOW, 1, -53) == (Dbl { m: 3 * (LOW / 2), e: -52 })) by {
        reveal_with_fuel(norm, 3);
    }
}

pub proof fn lemma_ratio_one(m: int)
    requires
        m > 0,
    ensures
        norm(m, m, 0) == whole(1),
{
    lemma_ratio_scaled(1, m, 0);
}

/// A common factor changes nothing.
proof fn lemma_ratio_scaled(a: int, m: int, e: int)
    requires
        a > 0,
        m > 0,
    ensures
        norm(a * m, m, e) == norm(a, 1, e),
    decreases gap(a, 1),
{
    assert(a * m > 0) by (nonlinear_arith)
        requires
            a > 0,
            m > 0,
    ;
    if a < LOW {
        assert(a * m < LOW * m && 2 * (a * m) == (2 * a) * m) by (nonlinear_arith)
            requires
                a < LOW,
                m > 0,
        ;
        lemma_ratio_scaled(2 * a, m, e - 1);
    } else {
        lemma_norm_ratio(a, 1, m, e);
    }
}

proof fn lemma_norm_ratio(a: int, b: int, m: int, e: int)
    requires
        b > 0,
        m > 0,
        a >= LOW * b,
    ensures
        norm(a * m, b * m, e) == norm(a, b, e),
    decreases gap(a, b),
{
    assert(a * m > 0 && b * m > 0) by (nonlinear_arith)
        requires
            a > 0,
            b > 0,
            m > 0,
    ;
    assert(a * m >= LOW * (b * m)) by (nonlinear_arith)
        requires
            a >= LOW * b,
            m > 0,
    ;
    if a >= TOP * b {
        assert(a * m >= TOP * (b * m) && (2 * b) * m == 2 * (b * m)) by (nonlinear_arith)
            requires
                a >= TOP * b,
                m > 0,
        ;
        lemma_norm_ratio(a, 2 * b, m, e + 1);
    } else {
        assert(a * m < TOP * (b * m)) by (nonlinear_arith)
            requires
                a < TOP * b,
                m > 0,
        ;
        let q = a / b;
        let r = a % b;
        vstd::arithmetic::div_mod::lemma_fundamental_div_mod(a, b);
        assert(a * m == (b * m) * q + r * m && 0 <= r * m < b * m) by (nonlinear_arith)
            requires
                a == b * q + r,
                0 <= r < b,
                m > 0,
        ;
        vstd::arithmetic::div_mod::lemma_fundamental_div_mod_converse(a * m, b * m, q, r * m);
        assert(2 * (r * m) > b * m <==> 2 * r > b) by (nonlinear_arith)
            requires
                m > 0,
        ;
        assert(2 * (r * m) == b * m <==> 2 * r == b) by (nonlinear_arith)
            requires
                m > 0,
        ;
    }
}

pub proof fn lemma_no_share_below_two()
    ensures
        added(zero(), frac(1, 1_000_000_000)).lt(frac(2000, 1000)),
{
    lemma_billionth();
    assert(frac(2000, 1000) == (Dbl { m: LOW as int, e: -51 })) by {
        reveal_with_fuel(norm, 54);
    }
}

pub proof fn lemma_lt_order(x: Dbl, y: Dbl, z: Dbl)
    requires
        !y.lt(x),
        !x.lt(z),
    ensures
        !y.lt(z),
{
}

pub proof fn lemma_whole_one()
    ensures
        whole(1) == (Dbl { m: LOW as int, e: -52 }),
        whole(1).floor() == 1,
{
    reveal_with_fuel(norm, 54);
    lemma_known_powers();
    assert(whole(1).den() == LOW);
}

/// A count of up to 53 bits is held as it is.
pub proof fn lemma_whole_exact(n: int)
    requires
        0 <= n < TOP,
    ensures
        whole(n).num() == n * whole(n).den(),
        whole(n).den() >= 1,
        whole(n).floor() == n,
        whole(n).round() == n,
{
    if n > 0 {
        let j = lemma_lifted(n, 0);
        let d = whole(n);
        lemma_two_to(j, 0);
        if d.e < 0 {
            assert(d.den() == two_to(j));
        } else {
            assert(j == 0);
            assert(n * two_to(0) == n && d.m * two_to(0) == d.m) by (nonlinear_arith)
                requires
                    two_to(0) == 1,
            ;
        }
    } else {
        assert(whole(n).num() == 0 * two_to(0));
    }
    let p = whole(n).den();
    assert((n * p) / p == n) by (nonlinear_arith)
        requires
            p >= 1,
    ;
    assert((2 * (n * p) + p) / (2 * p) == n) by (nonlinear_arith)
        requires
            p >= 1,
    ;
}

pub proof fn lemma_lifted(n: int, e: int) -> (j: nat)
    requires
        0 < n < TOP,
    ensures
        norm(n, 1, e) == (Dbl { m: n * two_to(j), e: e - j }),
    decreases TOP - n,
{
    if n < LOW {
        let k = lemma_lifted(2 * n, e - 1);
        assert((2 * n) * two_to(k) == n * (2 * two_to(k))) by (nonlinear_arith);
        assert(two_to(k + 1) == 2 * two_to(k));
        k + 1
    } else {
        assert(n * two_to(0) == n) by (nonlinear_arith)
            requires
                two_to(0) == 1,
        ;
        assert(nearest(n, 1) == n);
        0
    }
}

/// Once times a number is that number.
pub proof fn lemma_product_one(x: Dbl)
    requires
        x.wf(),
    ensures
        product(whole(1), x) == x,
{
    lemma_whole_one();
    lemma_known_powers();
    if x.m > 0 {
        lemma_norm_shift(x.m, 1, x.e - 52, 52);
        assert(LOW * x.m == x.m * two_to(52)) by (nonlinear_arith)
            requires
                two_to(52) == LOW,
        ;
        assert(nearest(x.m, 1) == x.m);
    } else {
        assert(LOW * x.m == 0) by (nonlinear_arith)
            requires
                x.m == 0,
        ;
    }
}

pub proof fn lemma_quotient_wf(x: Dbl, y: Dbl)
    ensures
        quotient(x, y).wf(),
{
    lemma_norm_wf(x.m, y.m, x.e - y.e);
}

pub proof fn lemma_product_wf(x: Dbl, y: Dbl)
    ensures
        product(x, y).wf(),
{
    lemma_norm_wf(x.m * y.m, 1, x.e + y.e);
}

proof fn lemma_ratio_order(x: Dbl, y: Dbl)
    requires
        x.wf(),
        y.wf(),
        !y.lt(x),
    ensures
        x.den() >= 1,
        y.den() >= 1,
        0 <= x.num(),
        0 <= x.num() * y.den() <= y.num() * x.den(),
{
    lemma_two_to((-x.e) as nat, 0);
    lemma_two_to((-y.e) as nat, 0);
    lemma_two_to(x.e as nat, 0);
    lemma_two_to(y.e as nat, 0);
    assert(x.m >= 0 && y.m >= 0);
    assert(0 <= x.m * two_to(x.e as nat) && 0 <= y.m * two_to(y.e as nat)) by (nonlinear_arith)
        requires
            x.m >= 0,
            y.m >= 0,
    ;
    if x.m == 0 {
        assert(x.num() == 0) by (nonlinear_arith)
            requires
                x.m == 0,
                x.num() == x.m || x.num() == x.m * two_to(x.e as nat),
        ;
        assert(0 <= y.num() * x.den() && 0 == 0 * y.den()) by (nonlinear_arith)
            requires
                y.num() >= 0,
                x.den() >= 1,
        ;
    } else {
        lemma_shift_order(x, y);
        let k = (y.e - x.e) as nat;
        if x.e >= 0 {
            lemma_two_to(k, x.e as nat);
            assert(x.m * two_to(x.e as nat) <= y.m * (two_to(k) * two_to(x.e as nat)))
                by (nonlinear_arith)
                requires
                    x.m <= y.m * two_to(k),
                    two_to(x.e as nat) >= 1,
            ;
        } else if y.e >= 0 {
            let p = two_to((-x.e) as nat);
            lemma_two_to(y.e as nat, (-x.e) as nat);
            assert(x.m <= (y.m * two_to(y.e as nat)) * p) by (nonlinear_arith)
                requires
                    x.m <= y.m * two_to(k),
                    two_to(k) == two_to(y.e as nat) * p,
            ;
        } else {
            let p = two_to((-y.e) as nat);
            lemma_two_to((-y.e) as nat, k);
            assert(x.m * p <= y.m * (p * two_to(k))) by (nonlinear_arith)
                requires
                    x.m <= y.m * two_to(k),
                    p >= 1,
            ;
            assert(0 <= x.m * p) by (nonlinear_arith)
                requires
                    x.m >= 0,
                    p >= 1,
            ;
        }
    }
}

/// The larger number has the larger nearest integer.
pub proof fn lemma_round_order(x: Dbl, y: Dbl)
    requires
        x.wf(),
        y.wf(),
        !y.lt(x),
    ensures
        0 <= x.round() <= y.round(),
{
    lemma_ratio_order(x, y);
    let a = 2 * x.num() + x.den();
    let b = 2 * x.den();
    let c = 2 * y.num() + y.den();
    let d = 2 * y.den();
    assert(a * d <= c * b) by (nonlinear_arith)
        requires
            x.num() * y.den() <= y.num() * x.den(),
            a == 2 * x.num() + x.den(),
            b == 2 * x.den(),
            c == 2 * y.num() + y.den(),
            d == 2 * y.den(),
    ;
    let q = a / b;
    assert(q * b <= a && q >= 0) by (nonlinear_arith)
        requires
            q == a / b,
            b > 0,
            a >= 0,
    ;
    assert(q * d <= c) by (nonlinear_arith)
        requires
            q * b <= a,
            a * d <= c * b,
            b > 0,
            d > 0,
    ;
    assert(c / d >= q) by (nonlinear_arith)
        requires
            q * d <= c,
            d > 0,
    ;
}

// ---------------------------------------------------------------------------
// How far rounding leads
// ---------------------------------------------------------------------------
/// The number in units that are small enough for any that is computed here.
pub open spec fn fine(x: Dbl) -> int {
    x.m * two_to((x.e + 300) as nat)
}

pub open spec fn unit() -> int {
    two_to(300) as int
}

/// Rounding moves a number by no more than one part in 2^53.
pub proof fn lemma_norm_error(a: int, b: int, e: int)
    requires
        b > 0,
        a >= LOW * b,
    ensures
        norm(a, b, e).e >= e,
        ({
            let d = norm(a, b, e);
            let v = (d.m * two_to((d.e - e) as nat)) * b;
            (TOP - 1) * a <= TOP * v <= (TOP + 1) * a
        }),
    decreases gap(a, b),
{
    lemma_norm_high(a, b, e);
    let d = norm(a, b, e);
    if a >= TOP * b {
        lemma_norm_error(a, 2 * b, e + 1);
        lemma_norm_high(a, 2 * b, e + 1);
        let p = two_to((d.e - e - 1) as nat);
        assert(two_to((d.e - e) as nat) == 2 * p);
        assert((d.m * p) * (2 * b) == (d.m * (2 * p)) * b) by (nonlinear_arith);
    } else {
        lemma_nearest(a, b);
        let q = nearest(a, b);
        let v = q * b;
        assert(two_to(1) == 2 * two_to(0));
        assert(d.m * two_to((d.e - e) as nat) == q) by {
            if q == TOP {
                assert(LOW * two_to(1) == TOP);
            } else {
                assert(q * two_to(0) == q) by (nonlinear_arith)
                    requires
                        two_to(0) == 1,
                ;
            }
        }
        assert((TOP - 1) * a <= TOP * v <= (TOP + 1) * a) by (nonlinear_arith)
            requires
                2 * a - b <= 2 * v <= 2 * a + b,
                LOW * b <= a,
                TOP == 2 * LOW,
        ;
    }
}

/// The integer part lies below the number, by less than one.
pub proof fn lemma_fine_floor(x: Dbl)
    requires
        x.wf(),
        x.e >= -300,
    ensures
        0 <= x.floor() * unit() <= fine(x) < (x.floor() + 1) * unit(),
        x.floor() >= 0,
{
    let f = x.floor();
    lemma_two_to(300, 0);
    if x.e >= 0 {
        lemma_two_to(x.e as nat, 300);
        lemma_two_to(x.e as nat, 0);
        assert(x.num() / 1 == x.num());
        assert(x.m * (two_to(x.e as nat) * two_to(300)) == (x.m * two_to(x.e as nat)) * two_to(300))
            by (nonlinear_arith);
        assert(f >= 0) by (nonlinear_arith)
            requires
                f == x.m * two_to(x.e as nat),
                x.m >= 0,
        ;
        assert(0 <= f * unit() < (f + 1) * unit()) by (nonlinear_arith)
            requires
                f >= 0,
                unit() >= 1,
        ;
    } else {
        let k = (-x.e) as nat;
        let p = two_to(k);
        let r = two_to((300 - k) as nat);
        lemma_two_to(k, (300 - k) as nat);
        lemma_two_to(k, 0);
        lemma_two_to((300 - k) as nat, 0);
        assert((x.e + 300) as nat == (300 - k) as nat);
        vstd::arithmetic::div_mod::lemma_fundamental_div_mod(x.m, p as int);
        assert(f * p <= x.m < (f + 1) * p && f >= 0) by (nonlinear_arith)
            requires
                x.m == p * f + x.m % (p as int),
                0 <= x.m % (p as int) < p,
                x.m >= 0,
                f == x.m / (p as int),
                p >= 1,
        ;
        assert(0 <= f * (p * r) <= x.m * r < (f + 1) * (p * r)) by (nonlinear_arith)
            requires
                f * p <= x.m < (f + 1) * p,
                r >= 1,
                p >= 1,
                f >= 0,
        ;
    }
}

/// A count is held to within one part in 2^53.
pub proof fn lemma_whole_fine(n: int)
    requires
        n > 0,
    ensures
        whole(n).e >= -52,
        whole(n).m >= LOW,
        whole(n).wf(),
        (TOP - 1) * (n * unit()) <= TOP * fine(whole(n)) <= (TOP + 1) * (n * unit()),
        n < LOW ==> fine(whole(n)) == n * unit(),
{
    lemma_whole_order(n, n);
    lemma_known_powers();
    assert(n * two_to(52) >= LOW) by (nonlinear_arith)
        requires
            n >= 1,
            two_to(52) == LOW,
    ;
    lemma_norm_low(n, 1, 0, 52);
    let d = whole(n);
    lemma_two_to(300, 0);
    if n >= LOW {
        lemma_norm_error(n, 1, 0);
        lemma_two_to(d.e as nat, 300);
        let v = d.m * two_to(d.e as nat);
        assert(fine(d) == v * unit()) by (nonlinear_arith)
            requires
                fine(d) == d.m * (two_to(d.e as nat) * two_to(300)),
                v == d.m * two_to(d.e as nat),
                unit() == two_to(300),
        ;
        assert((TOP - 1) * (n * unit()) <= TOP * (v * unit()) <= (TOP + 1) * (n * unit()))
            by (nonlinear_arith)
            requires
                (TOP - 1) * n <= TOP * v <= (TOP + 1) * n,
                unit() >= 1,
        ;
    } else {
        let j = lemma_lifted(n, 0);
        lemma_two_to(j, (300 - j) as nat);
        assert((d.e + 300) as nat == (300 - j) as nat);
        assert(fine(d) == n * unit()) by (nonlinear_arith)
            requires
                fine(d) == (n * two_to(j)) * two_to((300 - j) as nat),
                unit() == two_to(j) * two_to((300 - j) as nat),
        ;
        assert(n * unit() >= 0) by (nonlinear_arith)
            requires
                n > 0,
                unit() >= 1,
        ;
    }
}

/// A product is held to within one part in 2^53.
proof fn lemma_product_fine(x: Dbl, m: int, k: nat)
    requires
        x.wf(),
        x.m >= LOW,
        x.e >= -52,
        m >= LOW,
        k <= 54,
    ensures
        product(x, Dbl { m, e: -k }).e >= -106,
        product(x, Dbl { m, e: -k }).wf(),
        ({
            let v = fine(product(x, Dbl { m, e: -k })) * two_to(k);
            let exact = fine(x) * m;
            (TOP - 1) * exact <= TOP * v <= (TOP + 1) * exact
        }),
{
    let a = x.m * m;
    let e = x.e - k;
    assert(a >= LOW) by (nonlinear_arith)
        requires
            a == x.m * m,
            x.m >= LOW,
            m >= LOW,
    ;
    lemma_norm_error(a, 1, e);
    lemma_norm_wf(a, 1, e);
    let d = norm(a, 1, e);
    let v = d.m * two_to((d.e - e) as nat);
    let low = two_to((e + 300) as nat);
    let up = two_to(k);
    lemma_two_to((d.e - e) as nat, (e + 300) as nat);
    lemma_two_to((e + 300) as nat, k);
    lemma_two_to(k, 0);
    lemma_two_to((e + 300) as nat, 0);
    assert(fine(d) * up == v * (low * up)) by (nonlinear_arith)
        requires
            fine(d) == d.m * (two_to((d.e - e) as nat) * low),
            v == d.m * two_to((d.e - e) as nat),
    ;
    assert(fine(x) * m == a * (low * up)) by (nonlinear_arith)
        requires
            fine(x) == x.m * (low * up),
            a == x.m * m,
    ;
    let w = low * up;
    assert(w >= 1) by (nonlinear_arith)
        requires
            w == low * up,
            low >= 1,
            up >= 1,
    ;
    assert((TOP - 1) * (a * w) <= TOP * (v * w) <= (TOP + 1) * (a * w)) by (nonlinear_arith)
        requires
            (TOP - 1) * a <= TOP * v <= (TOP + 1) * a,
            w >= 1,
    ;
}

/// The double of 0.45.
pub const M45: u64 = 8_106_479_329_266_893;

proof fn lemma_constants()
    ensures
        frac(3, 2) == (Dbl { m: 3int * 0x8_0000_0000_0000int, e: -52 }),
        frac(9, 20) == (Dbl { m: M45 as int, e: -54 }),
{
    reveal_with_fuel(norm, 60);
}

/// Half as much again, against the number and 45 percent of it.
pub proof fn lemma_half_again(n: int)
    requires
        n >= 0,
    ensures
        ({
            let more = product(whole(n), frac(3, 2)).floor();
            let part = product(whole(n), frac(9, 20)).floor();
            &&& more >= n
            &&& part >= 0
            &&& n <= u64::MAX ==> more + 8000 >= n + part
        }),
{
    lemma_constants();
    let m15 = 3 * 0x8_0000_0000_0000int;
    let x = whole(n);
    if n == 0 {
        assert(x == zero());
        assert(0 * m15 == 0 && 0 * M45 == 0) by (nonlinear_arith);
        lemma_whole_exact(0);
    } else {
        lemma_whole_fine(n);
        lemma_product_fine(x, m15, 52);
        lemma_product_fine(x, M45 as int, 54);
        let a = product(x, frac(3, 2));
        let b = product(x, frac(9, 20));
        lemma_fine_floor(a);
        lemma_fine_floor(b);
        lemma_known_powers();
        lemma_two_to(52, 2);
        assert(two_to(2) == 2 * two_to(1) && two_to(1) == 2 * two_to(0));
        let p = unit();
        lemma_two_to(300, 0);
        let np = n * p;
        let fa = a.floor() * p;
        let fb = b.floor() * p;
        assert((a.floor() + 1) * p == fa + p && (b.floor() + 1) * p == fb + p) by (nonlinear_arith)
            requires
                fa == a.floor() * p,
                fb == b.floor() * p,
        ;
        assert(np >= p) by (nonlinear_arith)
            requires
                np == n * p,
                n >= 1,
                p >= 1,
        ;
        assert(n <= u64::MAX ==> np <= 0xffff_ffff_ffff_ffff * p) by (nonlinear_arith)
            requires
                np == n * p,
                p >= 1,
        ;
        assert(two_to(54) == 0x40_0000_0000_0000);
        assert(fine(x) * m15 == 0x18_0000_0000_0000 * fine(x)) by (nonlinear_arith)
            requires
                m15 == 0x18_0000_0000_0000,
        ;
        assert(fine(x) * M45 as int == 8_106_479_329_266_893 * fine(x)) by (nonlinear_arith)
            requires
                M45 == 8_106_479_329_266_893,
        ;
        lemma_half_again_sums(p, np, fine(x), fine(a), fine(b), fa, fb);
        if a.floor() < n {
            assert(fa + p <= np) by (nonlinear_arith)
                requires
                    fa == a.floor() * p,
                    np == n * p,
                    a.floor() <= n - 1,
                    p >= 1,
            ;
        }
        if n <= u64::MAX && a.floor() + 8000 < n + b.floor() {
            assert(fa + 8001 * p <= np + fb) by (nonlinear_arith)
                requires
                    fa == a.floor() * p,
                    fb == b.floor() * p,
                    np == n * p,
                    a.floor() + 8001 <= n + b.floor(),
                    p >= 1,
            ;
        }
    }
}

/// The sums behind [`lemma_half_again`], each in units of `p`: the count, its
/// double, the two products and their integer parts.
proof fn lemma_half_again_sums(p: int, np: int, x: int, a: int, b: int, fa: int, fb: int)
    requires
        1 <= p <= np,
        0x1f_ffff_ffff_ffff * np <= 0x20_0000_0000_0000 * x <= 0x20_0000_0000_0001 * np,
        0x1f_ffff_ffff_ffff * (0x18_0000_0000_0000 * x) <= 0x20_0000_0000_0000 * (a
            * 0x10_0000_0000_0000) <= 0x20_0000_0000_0001 * (0x18_0000_0000_0000 * x),
        0x1f_ffff_ffff_ffff * (8_106_479_329_266_893 * x) <= 0x20_0000_0000_0000 * (b
            * 0x40_0000_0000_0000) <= 0x20_0000_0000_0001 * (8_106_479_329_266_893 * x),
        0 <= fa <= a < fa + p,
        0 <= fb <= b < fb + p,
    ensures
        fa + p > np,
        fa + 8001 * p > np + fb,
{
}

/// Fractions of one denominator keep the order of their numerators.
pub proof fn lemma_frac_order(a: int, c: int, b: int)
    requires
        0 <= a <= c,
        b > 0,
    ensures
        frac(a, b).wf(),
        frac(c, b).wf(),
        !frac(c, b).lt(frac(a, b)),
{
    lemma_norm_wf(a, b, 0);
    lemma_norm_wf(c, b, 0);
    if a > 0 {
        assert(a * b <= c * b) by (nonlinear_arith)
            requires
                a <= c,
                b > 0,
        ;
        lemma_norm_order(a, b, c, b, 0);
    }
}

/// 45 percent of a count below 2^47 are exact but for what follows the point.
pub proof fn lemma_nine_twentieths(n: int)
    requires
        0 <= n < 0x8000_0000_0000,
    ensures
        product(whole(n), frac(9, 20)).floor() == n * 9 / 20,
{
    lemma_constants();
    let x = whole(n);
    let b = product(x, frac(9, 20));
    if n == 0 {
        assert(x == zero());
        assert(0 * M45 == 0) by (nonlinear_arith);
        lemma_whole_exact(0);
    } else {
        lemma_whole_fine(n);
        lemma_product_fine(x, M45 as int, 54);
        lemma_fine_floor(b);
        lemma_known_powers();
        let p = unit();
        lemma_two_to(300, 0);
        let f = b.floor();
        let k = n * 9 / 20;
        let r = n * 9 % 20;
        let fb = f * p;
        assert((f + 1) * p == fb + p) by (nonlinear_arith)
            requires
                fb == f * p,
        ;
        assert(two_to(54) == 0x40_0000_0000_0000);
        assert(fine(x) * M45 as int == 8_106_479_329_266_893 * fine(x)) by (nonlinear_arith)
            requires
                M45 == 8_106_479_329_266_893,
        ;
        assert(20 * (k * p) + r * p == 9 * (n * p)) by (nonlinear_arith)
            requires
                20 * k + r == 9 * n,
        ;
        assert(0 < n * p <= 0x7fff_ffff_ffff * p) by (nonlinear_arith)
            requires
                0 < n <= 0x7fff_ffff_ffff,
                p >= 1,
        ;
        assert(0 <= r * p <= 19 * p && (r > 0 ==> r * p >= p)) by (nonlinear_arith)
            requires
                0 <= r <= 19,
                p >= 1,
        ;
        lemma_nine_twentieths_sums(p, n * p, fine(x), fine(b), k * p, r * p);
        if f > k {
            assert(fb >= k * p + p) by (nonlinear_arith)
                requires
                    fb == f * p,
                    f >= k + 1,
                    p >= 1,
            ;
        }
        if f < k {
            assert(fb + p <= k * p) by (nonlinear_arith)
                requires
                    fb == f * p,
                    f <= k - 1,
                    p >= 1,
            ;
            if r == 0 {
                let j = lemma_lifted(n, 0);
                let top = two_to(j + 54);
                lemma_two_to(j, 54);
                lemma_two_to(j, 0);
                lemma_norm_shift(k, 1, -(j + 54), j + 54);
                assert(k * top * 1 <= (n * two_to(j)) * M45 * 1) by (nonlinear_arith)
                    requires
                        top == two_to(j) * 0x40_0000_0000_0000,
                        20 * k == 9 * n,
                        n > 0,
                        two_to(j) >= 1,
                        M45 == 8_106_479_329_266_893,
                ;
                assert(k * top > 0);
                assert((n * two_to(j)) * M45 > 0);
                lemma_norm_order(k * top, 1, (n * two_to(j)) * M45, 1, -(j + 54));
                lemma_whole_order(k, k);
                lemma_whole_exact(k);
                lemma_floor_order(whole(k), b);
            }
        }
    }
}

/// The sums behind [`lemma_nine_twentieths`], each in units of `p`: the count,
/// its double, the product, and the quotient and remainder of the division.
proof fn lemma_nine_twentieths_sums(p: int, np: int, x: int, b: int, kp: int, rp: int)
    requires
        p >= 1,
        0 < np <= 0x7fff_ffff_ffff * p,
        0x1f_ffff_ffff_ffff * np <= 0x20_0000_0000_0000 * x <= 0x20_0000_0000_0001 * np,
        0x1f_ffff_ffff_ffff * (8_106_479_329_266_893 * x) <= 0x20_0000_0000_0000 * (b
            * 0x40_0000_0000_0000) <= 0x20_0000_0000_0001 * (8_106_479_329_266_893 * x),
        20 * kp + rp == 9 * np,
        0 <= rp <= 19 * p,
    ensures
        b < kp + p,
        rp >= p ==> b >= kp,
{
}

// ---------------------------------------------------------------------------
// The smaller and the larger
// ---------------------------------------------------------------------------
pub open spec fn least(x: Dbl, y: Dbl) -> Dbl {
    if y.lt(x) {
        y
    } else {
        x
    }
}

pub open spec fn most(x: Dbl, y: Dbl) -> Dbl {
    if x.lt(y) {
        y
    } else {
        x
    }
}

impl Double {
    pub fn min(self, other: Double) -> (d: Double)
        ensures
            d@ == least(self@, other@),
            d == self || d == other,
    {
        if other.less_than(self) {
            other
        } else {
            self
        }
    }

    pub fn max(self, other: Double) -> (d: Double)
        ensures
            d@ == most(self@, other@),
            d == self || d == other,
    {
        if self.less_than(other) {
            other
        } else {
            self
        }
    }
}

/// A sum is no smaller than what was added.
pub proof fn lemma_added_no_less(x: Dbl, y: Dbl)
    requires
        x.wf(),
        y.wf(),
        y.m > 0,
    ensures
        !added(x, y).lt(x),
        !added(x, y).lt(y),
        added(x, y).wf(),
{
    if x.m == 0 {
    } else {
        let at = if x.e < y.e {
            x.e
        } else {
            y.e
        };
        let (i, j) = ((x.e - at) as nat, (y.e - at) as nat);
        let (a, c) = (x.m * two_to(i), y.m * two_to(j));
        lemma_plus_at(x, y, at);
        lemma_norm_shift(x.m, 1, at, i);
        lemma_norm_shift(y.m, 1, at, j);
        lemma_held(x);
        lemma_held(y);
        lemma_norm_order(a, 1, a + c, 1, at);
        lemma_norm_order(c, 1, a + c, 1, at);
        lemma_norm_wf(a + c, 1, at);
    }
}

/// A double is its own nearest one.
proof fn lemma_held(x: Dbl)
    requires
        x.wf(),
        x.m > 0,
    ensures
        norm(x.m, 1, x.e) == x,
{
    lemma_nearest(x.m, 1);
}

} // verus!
