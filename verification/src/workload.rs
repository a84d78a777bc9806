//! What a ping workload measured.
//!
//! Times are whole microseconds.

use vstd::prelude::*;

use crate::accuracy::lemma_rank_is_near;
use crate::double::{
    lemma_floor_order, lemma_over_order, lemma_product_one, lemma_product_wf, lemma_ratio_one,
    lemma_round_order, lemma_times_order, lemma_whole_exact, lemma_whole_one, lemma_whole_order,
    product, quotient, whole, whole_double, wide_double, zero, Dbl, Double, TOP,
};
use crate::num::{above, capped, larger, max_u64};

verus! {

/// One ping: when it left, and its round trip where an answer came.
#[derive(Clone, Copy, Debug, PartialEq, Eq, Structural)]
pub struct PingSample {
    pub at: u64,
    pub rtt: Option<u64>,
}

pub struct WorkloadStats {
    pub samples: Vec<PingSample>,
    pub timeouts: u64,
    pub io_errors: u64,
    pub bytes_ok: u64,
    pub disconnect: bool,
}

// ---------------------------------------------------------------------------
// Views
// ---------------------------------------------------------------------------
/// Round trips of the answered pings, in order.
pub open spec fn rtts_of(s: Seq<PingSample>) -> Seq<u64>
    decreases s.len(),
{
    if s.len() == 0 {
        seq![]
    } else {
        match s.last().rtt {
            Some(r) => rtts_of(s.drop_last()).push(r),
            None => rtts_of(s.drop_last()),
        }
    }
}

/// When the answered pings left, in order.
pub open spec fn ok_times(s: Seq<PingSample>) -> Seq<u64>
    decreases s.len(),
{
    if s.len() == 0 {
        seq![]
    } else if s.last().rtt is Some {
        ok_times(s.drop_last()).push(s.last().at)
    } else {
        ok_times(s.drop_last())
    }
}

/// The samples that left from `start` on and before `end`, in order.
pub open spec fn slice_of(s: Seq<PingSample>, start: u64, end: u64) -> Seq<PingSample>
    decreases s.len(),
{
    if s.len() == 0 {
        seq![]
    } else {
        let before = slice_of(s.drop_last(), start, end);
        if start <= s.last().at < end {
            before.push(s.last())
        } else {
            before
        }
    }
}

/// How many pings were not answered.
pub open spec fn unanswered(s: Seq<PingSample>) -> nat
    decreases s.len(),
{
    if s.len() == 0 {
        0
    } else {
        unanswered(s.drop_last()) + if s.last().rtt is None {
            1nat
        } else {
            0nat
        }
    }
}

/// The largest step between consecutive times.
pub open spec fn widest_gap(t: Seq<u64>) -> int
    decreases t.len(),
{
    if t.len() < 2 {
        0
    } else {
        larger(
            widest_gap(t.drop_last()),
            above(t.last() as int, t[t.len() - 2] as int),
        )
    }
}

/// The largest step between consecutive times with `t0` in it.
pub open spec fn gap_over(t: Seq<u64>, t0: u64) -> int
    decreases t.len(),
{
    if t.len() < 2 {
        0
    } else if t[t.len() - 2] <= t0 <= t.last() {
        larger(
            gap_over(t.drop_last(), t0),
            above(t.last() as int, t[t.len() - 2] as int),
        )
    } else {
        gap_over(t.drop_last(), t0)
    }
}

/// Never smaller than the one before.
pub open spec fn sorted(v: Seq<u64>) -> bool {
    forall|i: int, j: int| 0 <= i < j < v.len() ==> v[i] <= v[j]
}

/// The sum of these numbers.
pub open spec fn sum_of(v: Seq<u64>) -> nat
    decreases v.len(),
{
    if v.len() == 0 {
        0
    } else {
        sum_of(v.drop_last()) + v.last() as nat
    }
}

/// One less than a count.
pub open spec fn one_less(n: int) -> Dbl {
    whole(whole(n).floor() - 1)
}

/// The place of the `p`-th percentile among `n` sorted numbers: the nearest
/// one, the upper of two.
#[verifier::opaque]
pub open spec fn rank_of(p: int, n: int) -> int {
    let at = product(quotient(whole(p), whole(100)), one_less(n)).round();
    if at > n - 1 {
        n - 1
    } else {
        at
    }
}

/// `r` is the `p`-th percentile of these numbers.
pub open spec fn percentile_is(v: Seq<u64>, p: u64, r: Option<u64>) -> bool {
    match r {
        None => v.len() == 0,
        Some(x) => v.len() > 0 && exists|s: Seq<u64>|
            #![trigger sorted(s)]
            sorted(s) && s.to_multiset() == v.to_multiset() && s.len() == v.len() && x
                == s[rank_of(p as int, v.len() as int)],
    }
}

/// `r` is the smallest of these numbers.
pub open spec fn min_is(v: Seq<u64>, r: Option<u64>) -> bool {
    match r {
        Some(x) => v.contains(x) && forall|i: int| 0 <= i < v.len() ==> x <= #[trigger] v[i],
        None => v.len() == 0,
    }
}

/// `r` is the largest of these numbers.
pub open spec fn max_is(v: Seq<u64>, r: Option<u64>) -> bool {
    match r {
        Some(x) => v.contains(x) && forall|i: int| 0 <= i < v.len() ==> #[trigger] v[i] <= x,
        None => v.len() == 0,
    }
}

/// `r` is the mean of these numbers, as a sum and a count.
pub open spec fn mean_is(v: Seq<u64>, r: Option<(u128, u128)>) -> bool {
    match r {
        Some(m) => {
            let (sum, n) = m;
            v.len() > 0 && sum == sum_of(v) && n == v.len()
        },
        None => v.len() == 0,
    }
}

/// The round trips of a workload at a glance.
pub struct Latency {
    pub n_ok: usize,
    pub n: usize,
    pub min: Option<u64>,
    pub mean: Option<(u128, u128)>,
    pub p0: Option<u64>,
    pub p50: Option<u64>,
    pub p90: Option<u64>,
    pub p95: Option<u64>,
    pub p99: Option<u64>,
    pub max: Option<u64>,
}

/// `l` is the summary of these samples.
pub open spec fn latency_is(s: Seq<PingSample>, l: Latency) -> bool {
    let v = rtts_of(s);
    &&& l.n_ok == v.len()
    &&& l.n == s.len()
    &&& min_is(v, l.min)
    &&& mean_is(v, l.mean)
    &&& percentile_is(v, 0, l.p0)
    &&& percentile_is(v, 50, l.p50)
    &&& percentile_is(v, 90, l.p90)
    &&& percentile_is(v, 95, l.p95)
    &&& percentile_is(v, 99, l.p99)
    &&& max_is(v, l.max)
}

/// The `p`-th percentile of these numbers.
pub open spec fn percentile_of(v: Seq<u64>, p: u64) -> Option<u64> {
    choose|r: Option<u64>| percentile_is(v, p, r)
}

/// The smallest of these numbers.
pub open spec fn min_of(v: Seq<u64>) -> Option<u64> {
    choose|r: Option<u64>| min_is(v, r)
}

/// The largest of these numbers.
pub open spec fn max_of(v: Seq<u64>) -> Option<u64> {
    choose|r: Option<u64>| max_is(v, r)
}

/// The mean of these numbers, as a sum and a count.
pub open spec fn mean_of(v: Seq<u64>) -> Option<(u128, u128)> {
    if v.len() == 0 {
        None
    } else {
        Some((sum_of(v) as u128, v.len() as u128))
    }
}

/// The summary of these samples.
pub open spec fn latency_of(s: Seq<PingSample>) -> Latency {
    let v = rtts_of(s);
    Latency {
        n_ok: v.len() as usize,
        n: s.len() as usize,
        min: min_of(v),
        mean: mean_of(v),
        p0: percentile_of(v, 0),
        p50: percentile_of(v, 50),
        p90: percentile_of(v, 90),
        p95: percentile_of(v, 95),
        p99: percentile_of(v, 99),
        max: max_of(v),
    }
}

proof fn lemma_percentile_unique(v: Seq<u64>, p: u64, a: Option<u64>, b: Option<u64>)
    requires
        percentile_is(v, p, a),
        percentile_is(v, p, b),
    ensures
        a == b,
{
    if v.len() > 0 {
        let at = rank_of(p as int, v.len() as int);
        let sa = choose|s: Seq<u64>|
            #![trigger sorted(s)]
            sorted(s) && s.to_multiset() == v.to_multiset() && s.len() == v.len() && a->0 == s[at];
        let sb = choose|s: Seq<u64>|
            #![trigger sorted(s)]
            sorted(s) && s.to_multiset() == v.to_multiset() && s.len() == v.len() && b->0 == s[at];
        let leq = |x: u64, y: u64| x <= y;
        vstd::seq_lib::lemma_sorted_unique(sa, sb, leq);
    }
}

/// Numbers have one percentile of each rank.
pub proof fn law_one_percentile(v: Seq<u64>, p: u64, r: Option<u64>)
    requires
        percentile_is(v, p, r),
    ensures
        r == percentile_of(v, p),
{
    lemma_percentile_unique(v, p, r, percentile_of(v, p));
}

/// Samples have one summary.
pub proof fn law_one_summary(s: Seq<PingSample>, l: Latency)
    requires
        latency_is(s, l),
    ensures
        l == latency_of(s),
{
    let v = rtts_of(s);
    assert(min_is(v, min_of(v)));
    assert(max_is(v, max_of(v)));
    law_one_percentile(v, 0, l.p0);
    law_one_percentile(v, 50, l.p50);
    law_one_percentile(v, 90, l.p90);
    law_one_percentile(v, 95, l.p95);
    law_one_percentile(v, 99, l.p99);
}

/// Two sorted lists in one.
fn merge_sorted(a: &Vec<u64>, b: &Vec<u64>) -> (out: Vec<u64>)
    requires
        sorted(a@),
        sorted(b@),
    ensures
        sorted(out@),
        out@.len() == a@.len() + b@.len(),
        out@.to_multiset() == a@.to_multiset().add(b@.to_multiset()),
{
    let mut out: Vec<u64> = Vec::new();
    let mut i: usize = 0;
    let mut j: usize = 0;
    proof {
        a@.to_multiset_ensures();
        assert(a@.take(0) =~= seq![]);
        assert(b@.take(0) =~= seq![]);
        assert(out@ =~= seq![]);
        out@.to_multiset_ensures();
        assert(out@.to_multiset().add(out@.to_multiset()) =~= out@.to_multiset());
    }
    while i < a.len() || j < b.len()
        invariant
            i <= a@.len(),
            j <= b@.len(),
            sorted(a@),
            sorted(b@),
            sorted(out@),
            out@.len() == i + j,
            forall|k: int, m: int|
                0 <= k < out@.len() && i <= m < a@.len() ==> #[trigger] out@[k] <= #[trigger] a@[m],
            forall|k: int, m: int|
                0 <= k < out@.len() && j <= m < b@.len() ==> #[trigger] out@[k] <= #[trigger] b@[m],
            out@.to_multiset() == a@.take(i as int).to_multiset().add(
                b@.take(j as int).to_multiset(),
            ),
        decreases a.len() - i + (b.len() - j),
    {
        let ghost before = out@;
        let first: bool = j >= b.len() || (i < a.len() && a[i] <= b[j]);
        if first {
            let x: u64 = a[i];
            out.push(x);
            proof {
                vstd::seq_lib::to_multiset_build(before, x);
                vstd::seq_lib::to_multiset_build(a@.take(i as int), x);
                assert(a@.take(i as int + 1) =~= a@.take(i as int).push(x));
                assert(out@.to_multiset() =~= a@.take(i as int + 1).to_multiset().add(
                    b@.take(j as int).to_multiset(),
                ));
            }
            i += 1;
        } else {
            let x: u64 = b[j];
            out.push(x);
            proof {
                vstd::seq_lib::to_multiset_build(before, x);
                vstd::seq_lib::to_multiset_build(b@.take(j as int), x);
                assert(b@.take(j as int + 1) =~= b@.take(j as int).push(x));
                assert(out@.to_multiset() =~= a@.take(i as int).to_multiset().add(
                    b@.take(j as int + 1).to_multiset(),
                ));
            }
            j += 1;
        }
    }
    assert(a@.take(a@.len() as int) =~= a@);
    assert(b@.take(b@.len() as int) =~= b@);
    out
}

/// A part of a list.
fn part_of(v: &Vec<u64>, from: usize, to: usize) -> (out: Vec<u64>)
    requires
        from <= to <= v@.len(),
    ensures
        out@ == v@.subrange(from as int, to as int),
{
    let mut out: Vec<u64> = Vec::new();
    let mut i: usize = from;
    while i < to
        invariant
            from <= i <= to <= v@.len(),
            out@ == v@.subrange(from as int, i as int),
        decreases to - i,
    {
        out.push(v[i]);
        assert(out@ =~= v@.subrange(from as int, i as int + 1));
        i += 1;
    }
    out
}

/// A sorted copy.
pub fn sorted_copy(v: &Vec<u64>) -> (out: Vec<u64>)
    ensures
        sorted(out@),
        out@.len() == v@.len(),
        out@.to_multiset() == v@.to_multiset(),
    decreases v@.len(),
{
    let n: usize = v.len();
    if n < 2 {
        let out: Vec<u64> = part_of(v, 0, n);
        assert(out@ =~= v@);
        return out;
    }
    let half: usize = n / 2;
    let left: Vec<u64> = part_of(v, 0, half);
    let right: Vec<u64> = part_of(v, half, n);
    let a: Vec<u64> = sorted_copy(&left);
    let b: Vec<u64> = sorted_copy(&right);
    proof {
        assert(v@ =~= left@ + right@);
        vstd::seq_lib::lemma_multiset_commutative(left@, right@);
    }
    merge_sorted(&a, &b)
}

impl WorkloadStats {
    /// Nothing happened yet.
    pub open spec fn is_new(self) -> bool {
        &&& self.samples@.len() == 0
        &&& self.timeouts == 0
        &&& self.io_errors == 0
        &&& self.bytes_ok == 0
        &&& !self.disconnect
    }

    pub fn new() -> (s: Self)
        ensures
            s.is_new(),
    {
        WorkloadStats {
            samples: Vec::new(),
            timeouts: 0,
            io_errors: 0,
            bytes_ok: 0,
            disconnect: false,
        }
    }

    pub fn rtts_us(&self) -> (v: Vec<u64>)
        ensures
            v@ == rtts_of(self.samples@),
    {
        let mut v: Vec<u64> = Vec::new();
        let mut i: usize = 0;
        assert(self.samples@.take(0) =~= seq![]);
        while i < self.samples.len()
            invariant
                i <= self.samples@.len(),
                v@ == rtts_of(self.samples@.take(i as int)),
            decreases self.samples.len() - i,
        {
            assert(self.samples@.take(i as int + 1).drop_last() =~= self.samples@.take(i as int));
            match self.samples[i].rtt {
                Some(r) => {
                    v.push(r);
                },
                None => {},
            }
            i += 1;
        }
        assert(self.samples@.take(self.samples@.len() as int) =~= self.samples@);
        v
    }

    /// The `p`-th percentile of the round trips; past the hundredth it is the
    /// largest.
    pub fn percentile_us(&self, p: u64) -> (r: Option<u64>)
        ensures
            percentile_is(rtts_of(self.samples@), p, r),
    {
        let v: Vec<u64> = self.rtts_us();
        if v.len() == 0 {
            return None;
        }
        let s: Vec<u64> = sorted_copy(&v);
        let last: u64 = (s.len() - 1) as u64;
        let n: Double = whole_double(s.len() as u64);
        proof {
            lemma_whole_order(1, s@.len() as int);
            lemma_floor_order(whole(1), whole(s@.len() as int));
            lemma_whole_one();
        }
        let less: Double = wide_double(n.floor_wide() - 1);
        reveal(rank_of);
        let mut at: u64 = whole_double(p).over(whole_double(100)).times(less).round_capped();
        if at > last {
            at = last;
        }
        assert(sorted(s@));
        Some(s[at as usize])
    }

    pub fn n_samples(&self) -> (n: usize)
        ensures
            n == self.samples@.len(),
    {
        self.samples.len()
    }

    pub fn n_ok(&self) -> (n: usize)
        ensures
            n == rtts_of(self.samples@).len(),
    {
        self.rtts_us().len()
    }

    /// The share of answered pings, as a fraction: how many of how many.
    pub fn success_rate(&self) -> (r: (usize, usize))
        ensures
            r.0 == rtts_of(self.samples@).len(),
            r.1 == self.samples@.len(),
    {
        (self.n_ok(), self.n_samples())
    }

    pub fn min_us(&self) -> (r: Option<u64>)
        ensures
            min_is(rtts_of(self.samples@), r),
    {
        let v: Vec<u64> = self.rtts_us();
        if v.len() == 0 {
            return None;
        }
        let mut best: u64 = v[0];
        let mut i: usize = 1;
        while i < v.len()
            invariant
                1 <= i <= v@.len(),
                v@.contains(best),
                forall|k: int| 0 <= k < i ==> best <= #[trigger] v@[k],
            decreases v.len() - i,
        {
            if v[i] < best {
                best = v[i];
            }
            i += 1;
        }
        Some(best)
    }

    pub fn max_us(&self) -> (r: Option<u64>)
        ensures
            max_is(rtts_of(self.samples@), r),
    {
        let v: Vec<u64> = self.rtts_us();
        if v.len() == 0 {
            return None;
        }
        let mut best: u64 = v[0];
        let mut i: usize = 1;
        while i < v.len()
            invariant
                1 <= i <= v@.len(),
                v@.contains(best),
                forall|k: int| 0 <= k < i ==> #[trigger] v@[k] <= best,
            decreases v.len() - i,
        {
            if v[i] > best {
                best = v[i];
            }
            i += 1;
        }
        Some(best)
    }

    /// The mean round trip as a sum and a count.
    pub fn mean_us(&self) -> (r: Option<(u128, u128)>)
        ensures
            mean_is(rtts_of(self.samples@), r),
            crate::report::mean_counts(r),
    {
        let v: Vec<u64> = self.rtts_us();
        if v.len() == 0 {
            return None;
        }
        let mut sum: u128 = 0;
        let mut i: usize = 0;
        assert(v@.take(0) =~= seq![]);
        while i < v.len()
            invariant
                i <= v@.len(),
                sum == sum_of(v@.take(i as int)),
                sum <= i as int * u64::MAX,
            decreases v.len() - i,
        {
            assert(v@.take(i as int + 1).drop_last() =~= v@.take(i as int));
            proof {
                assert((i as int + 1) * u64::MAX == i as int * u64::MAX + u64::MAX)
                    by (nonlinear_arith);
                assert(i as int * u64::MAX <= u64::MAX * u64::MAX) by (nonlinear_arith)
                    requires
                        i as int <= u64::MAX,
                ;
            }
            sum = sum + v[i] as u128;
            i += 1;
        }
        assert(v@.take(v@.len() as int) =~= v@);
        proof {
            assert(v@.len() * u64::MAX == v@.len() as int * u64::MAX);
        }
        Some((sum, v.len() as u128))
    }

    /// Everything a report says of the round trips.
    pub fn latency(&self) -> (l: Latency)
        ensures
            latency_is(self.samples@, l),
            l.n_ok <= l.n,
            crate::report::mean_counts(l.mean),
    {
        proof {
            law_samples_are_answered_or_not(self.samples@);
        }
        Latency {
            n_ok: self.n_ok(),
            n: self.n_samples(),
            min: self.min_us(),
            mean: self.mean_us(),
            p0: self.percentile_us(0),
            p50: self.percentile_us(50),
            p90: self.percentile_us(90),
            p95: self.percentile_us(95),
            p99: self.percentile_us(99),
            max: self.max_us(),
        }
    }

    /// Take in another workload.
    pub fn merge(&mut self, add: &WorkloadStats)
        ensures
            final(self).samples@ == old(self).samples@ + add.samples@,
            final(self).timeouts == capped(old(self).timeouts + add.timeouts),
            final(self).io_errors == capped(old(self).io_errors + add.io_errors),
            final(self).bytes_ok == capped(old(self).bytes_ok + add.bytes_ok),
            final(self).disconnect == (old(self).disconnect || add.disconnect),
    {
        let ghost s0 = self.samples@;
        let mut i: usize = 0;
        assert(s0 + add.samples@.take(0) =~= s0);
        while i < add.samples.len()
            invariant
                i <= add.samples@.len(),
                self.samples@ == s0 + add.samples@.take(i as int),
                self.timeouts == old(self).timeouts,
                self.io_errors == old(self).io_errors,
                self.bytes_ok == old(self).bytes_ok,
                self.disconnect == old(self).disconnect,
            decreases add.samples.len() - i,
        {
            self.samples.push(add.samples[i]);
            assert(s0 + add.samples@.take(i as int + 1) =~= (s0 + add.samples@.take(
                i as int,
            )).push(add.samples@[i as int]));
            i += 1;
        }
        assert(add.samples@.take(add.samples@.len() as int) =~= add.samples@);
        self.timeouts = self.timeouts.saturating_add(add.timeouts);
        self.io_errors = self.io_errors.saturating_add(add.io_errors);
        self.bytes_ok = self.bytes_ok.saturating_add(add.bytes_ok);
        self.disconnect = self.disconnect || add.disconnect;
    }

    /// How long after `t0` the first answered ping left.
    pub fn resume_after(&self, t0: u64) -> (r: Option<u64>)
        ensures
            match r {
                Some(d) => exists|i: int|
                    0 <= i < self.samples@.len() && (#[trigger] self.samples@[i]).at >= t0
                        && self.samples@[i].rtt is Some && d == self.samples@[i].at - t0 && forall|
                        k: int,
                    |
                        0 <= k < i ==> !((#[trigger] self.samples@[k]).at >= t0
                            && self.samples@[k].rtt is Some),
                None => forall|k: int|
                    0 <= k < self.samples@.len() ==> !((#[trigger] self.samples@[k]).at >= t0
                        && self.samples@[k].rtt is Some),
            },
    {
        let mut i: usize = 0;
        while i < self.samples.len()
            invariant
                i <= self.samples@.len(),
                forall|k: int|
                    0 <= k < i ==> !((#[trigger] self.samples@[k]).at >= t0
                        && self.samples@[k].rtt is Some),
            decreases self.samples.len() - i,
        {
            let s: PingSample = self.samples[i];
            if s.at >= t0 && s.rtt.is_some() {
                assert(self.samples@[i as int].at >= t0 && self.samples@[i as int].rtt is Some);
                return Some(s.at - t0);
            }
            i += 1;
        }
        None
    }

    fn ok_at(&self) -> (v: Vec<u64>)
        ensures
            v@ == ok_times(self.samples@),
    {
        let mut v: Vec<u64> = Vec::new();
        let mut i: usize = 0;
        assert(self.samples@.take(0) =~= seq![]);
        while i < self.samples.len()
            invariant
                i <= self.samples@.len(),
                v@ == ok_times(self.samples@.take(i as int)),
            decreases self.samples.len() - i,
        {
            assert(self.samples@.take(i as int + 1).drop_last() =~= self.samples@.take(i as int));
            if self.samples[i].rtt.is_some() {
                v.push(self.samples[i].at);
            }
            i += 1;
        }
        assert(self.samples@.take(self.samples@.len() as int) =~= self.samples@);
        v
    }

    /// The largest gap between consecutive answered pings.
    pub fn max_ok_gap(&self) -> (d: u64)
        ensures
            d == widest_gap(ok_times(self.samples@)),
    {
        let t: Vec<u64> = self.ok_at();
        let mut best: u64 = 0;
        let mut i: usize = 0;
        assert(t@.take(0) =~= seq![]);
        while i < t.len()
            invariant
                i <= t@.len(),
                best == widest_gap(t@.take(i as int)),
            decreases t.len() - i,
        {
            assert(t@.take(i as int + 1).drop_last() =~= t@.take(i as int));
            if i > 0 {
                best = max_u64(best, t[i].saturating_sub(t[i - 1]));
            }
            i += 1;
        }
        assert(t@.take(t@.len() as int) =~= t@);
        best
    }

    /// The largest gap between consecutive answered pings with `t0` in it.
    pub fn gap_around(&self, t0: u64) -> (d: u64)
        ensures
            d == gap_over(ok_times(self.samples@), t0),
    {
        let t: Vec<u64> = self.ok_at();
        let mut best: u64 = 0;
        let mut i: usize = 0;
        assert(t@.take(0) =~= seq![]);
        while i < t.len()
            invariant
                i <= t@.len(),
                best == gap_over(t@.take(i as int), t0),
            decreases t.len() - i,
        {
            assert(t@.take(i as int + 1).drop_last() =~= t@.take(i as int));
            if i > 0 && t[i - 1] <= t0 && t0 <= t[i] {
                best = max_u64(best, t[i].saturating_sub(t[i - 1]));
            }
            i += 1;
        }
        assert(t@.take(t@.len() as int) =~= t@);
        best
    }

    /// The samples of one window, with its timeouts alone.
    pub fn slice_from(&self, start: u64, end: u64) -> (w: WorkloadStats)
        ensures
            w.samples@ == slice_of(self.samples@, start, end),
            w.timeouts == unanswered(w.samples@),
            w.io_errors == 0,
            w.bytes_ok == 0,
            !w.disconnect,
    {
        let mut samples: Vec<PingSample> = Vec::new();
        let mut timeouts: u64 = 0;
        let mut i: usize = 0;
        assert(self.samples@.take(0) =~= seq![]);
        while i < self.samples.len()
            invariant
                i <= self.samples@.len(),
                samples@ == slice_of(self.samples@.take(i as int), start, end),
                timeouts == unanswered(samples@),
                timeouts <= i,
            decreases self.samples.len() - i,
        {
            assert(self.samples@.take(i as int + 1).drop_last() =~= self.samples@.take(i as int));
            let s: PingSample = self.samples[i];
            if s.at >= start && s.at < end {
                let ghost before = samples@;
                samples.push(s);
                assert(samples@.drop_last() =~= before);
                if s.rtt.is_none() {
                    timeouts += 1;
                }
            }
            i += 1;
        }
        assert(self.samples@.take(self.samples@.len() as int) =~= self.samples@);
        WorkloadStats { samples, timeouts, io_errors: 0, bytes_ok: 0, disconnect: false }
    }
}

// ---------------------------------------------------------------------------
// One ping
// ---------------------------------------------------------------------------
/// What came back for a ping.
#[derive(Clone, Copy, Debug, PartialEq, Eq, Structural)]
pub enum EchoRead {
    Match,
    /// The answer of a later ping: this one was lost.
    SkippedLate,
    Timeout,
    Dead,
    /// The ping could not be written.
    WriteFailed,
}

/// What an answer with this sequence number means for ping `want`: nothing
/// yet for the late answer of an earlier one.
pub open spec fn echo_of(seq: u64, want: u64) -> Option<EchoRead> {
    if seq == want {
        Some(EchoRead::Match)
    } else if seq < want {
        None
    } else {
        Some(EchoRead::SkippedLate)
    }
}

pub fn classify_echo(seq: u64, want: u64) -> (r: Option<EchoRead>)
    ensures
        r == echo_of(seq, want),
{
    if seq == want {
        Some(EchoRead::Match)
    } else if seq < want {
        None
    } else {
        Some(EchoRead::SkippedLate)
    }
}

impl WorkloadStats {
    /// Count a ping that left at `at`; `now` is when its outcome was known.
    /// `true` where no further ping can be sent.
    pub fn note_ping(&mut self, at: u64, now: u64, outcome: EchoRead) -> (stop: bool)
        ensures
            stop == (outcome is Dead || outcome is WriteFailed),
            final(self).samples@ == old(self).samples@.push(
                PingSample {
                    at,
                    rtt: if outcome is Match {
                        Some(above(now as int, at as int) as u64)
                    } else {
                        None
                    },
                },
            ),
            final(self).bytes_ok == if outcome is Match {
                capped(old(self).bytes_ok + 16)
            } else {
                old(self).bytes_ok as int
            },
            final(self).timeouts == if outcome is Timeout || outcome is SkippedLate {
                capped(old(self).timeouts + 1)
            } else {
                old(self).timeouts as int
            },
            final(self).io_errors == if outcome is Match || outcome is Timeout {
                old(self).io_errors as int
            } else {
                capped(old(self).io_errors + 1)
            },
            final(self).disconnect == (old(self).disconnect || stop),
    {
        match outcome {
            EchoRead::Match => {
                self.bytes_ok = self.bytes_ok.saturating_add(16);
                self.samples.push(PingSample { at, rtt: Some(now.saturating_sub(at)) });
                false
            },
            EchoRead::SkippedLate => {
                self.io_errors = self.io_errors.saturating_add(1);
                self.timeouts = self.timeouts.saturating_add(1);
                self.samples.push(PingSample { at, rtt: None });
                false
            },
            EchoRead::Timeout => {
                self.timeouts = self.timeouts.saturating_add(1);
                self.samples.push(PingSample { at, rtt: None });
                false
            },
            EchoRead::Dead | EchoRead::WriteFailed => {
                self.io_errors = self.io_errors.saturating_add(1);
                self.disconnect = true;
                self.samples.push(PingSample { at, rtt: None });
                true
            },
        }
    }
}

/// Byte `i` of a bulk transfer.
pub open spec fn bulk_byte(i: int) -> u8 {
    (i % 251) as u8
}

/// The bytes of a bulk transfer.
pub fn bulk_pattern(n: usize) -> (v: Vec<u8>)
    ensures
        v@.len() == n,
        forall|i: int| 0 <= i < n ==> #[trigger] v@[i] == bulk_byte(i),
{
    let mut v: Vec<u8> = Vec::new();
    let mut i: usize = 0;
    while i < n
        invariant
            i <= n,
            v@.len() == i,
            forall|k: int| 0 <= k < i ==> #[trigger] v@[k] == bulk_byte(k),
        decreases n - i,
    {
        v.push((i % 251) as u8);
        i += 1;
    }
    v
}

/// A bulk transfer came back as it was sent.
pub fn bulk_intact(recv: &Vec<u8>) -> (r: bool)
    ensures
        r == forall|i: int| 0 <= i < recv@.len() ==> #[trigger] recv@[i] == bulk_byte(i),
{
    let mut i: usize = 0;
    while i < recv.len()
        invariant
            i <= recv@.len(),
            forall|k: int| 0 <= k < i ==> #[trigger] recv@[k] == bulk_byte(k),
        decreases recv.len() - i,
    {
        if recv[i] != (i % 251) as u8 {
            assert(recv@[i as int] != bulk_byte(i as int));
            return false;
        }
        i += 1;
    }
    true
}

// ---------------------------------------------------------------------------
// Laws
// ---------------------------------------------------------------------------
proof fn lemma_rtts_concat(a: Seq<PingSample>, b: Seq<PingSample>)
    ensures
        rtts_of(a + b) == rtts_of(a) + rtts_of(b),
    decreases b.len(),
{
    if b.len() == 0 {
        assert(a + b =~= a);
        assert(rtts_of(a) + rtts_of(b) =~= rtts_of(a));
    } else {
        lemma_rtts_concat(a, b.drop_last());
        assert((a + b).drop_last() =~= a + b.drop_last());
        assert(rtts_of(a + b) =~= rtts_of(a) + rtts_of(b));
    }
}

/// A merged workload answered what its parts answered, in order: no sample is
/// lost or counted twice.
pub proof fn law_merge_keeps_every_sample(a: Seq<PingSample>, b: Seq<PingSample>)
    ensures
        (a + b).len() == a.len() + b.len(),
        rtts_of(a + b) == rtts_of(a) + rtts_of(b),
        rtts_of(a + b).len() == rtts_of(a).len() + rtts_of(b).len(),
{
    lemma_rtts_concat(a, b);
}

/// Every ping is answered or not.
pub proof fn law_samples_are_answered_or_not(s: Seq<PingSample>)
    ensures
        rtts_of(s).len() + unanswered(s) == s.len(),
    decreases s.len(),
{
    if s.len() > 0 {
        law_samples_are_answered_or_not(s.drop_last());
    }
}

/// The gap around a moment is never wider than the widest gap.
pub proof fn law_gap_around_is_a_gap(t: Seq<u64>, t0: u64)
    ensures
        0 <= gap_over(t, t0) <= widest_gap(t),
    decreases t.len(),
{
    if t.len() >= 2 {
        law_gap_around_is_a_gap(t.drop_last(), t0);
    }
}

/// The 0th percentile is the smallest number, the 100th and every one past it
/// the largest; a higher percentile never stands lower. A count past 53 bits
/// is not held exactly; no list is that long.
pub proof fn law_percentile_ends(n: int, p: int, q: int)
    requires
        0 < n < TOP,
        0 <= p <= q,
    ensures
        rank_of(0, n) == 0,
        q >= 100 ==> rank_of(q, n) == n - 1,
        0 <= rank_of(p, n) <= rank_of(q, n) <= n - 1,
{
    reveal(rank_of);
    let x = one_less(n);
    let cent = whole(100);
    lemma_whole_exact(n);
    lemma_whole_exact(n - 1);
    lemma_whole_order(0, n - 1);
    lemma_whole_order(0, 100);
    lemma_whole_order(0, p);
    lemma_whole_order(p, q);
    lemma_over_order(whole(0), whole(p), cent);
    lemma_over_order(whole(p), whole(q), cent);
    let a = quotient(whole(p), cent);
    let b = quotient(whole(q), cent);
    lemma_times_order(a, b, x, x);
    lemma_product_wf(a, x);
    lemma_product_wf(b, x);
    lemma_round_order(product(a, x), product(b, x));
    assert(quotient(whole(0), cent) == zero());
    assert(0 * x.m == 0) by (nonlinear_arith);
    assert(product(zero(), x) == zero());
    lemma_whole_exact(0);
    if q >= 100 {
        lemma_whole_order(100, q);
        lemma_over_order(cent, whole(q), cent);
        lemma_ratio_one(cent.m);
        lemma_whole_order(0, 1);
        lemma_times_order(whole(1), b, x, x);
        lemma_product_one(x);
        lemma_round_order(x, product(b, x));
    }
}

/// The p-th percentile of `n` numbers stands p hundredths of the way from the
/// first to the last, to the nearest place.
pub proof fn law_percentiles_stand_in_proportion(n: int, p: int)
    requires
        0 < n < 0x5555_5555_5555,
        0 <= p <= 100,
    ensures
        -53 <= 100 * rank_of(p, n) - p * (n - 1) <= 53,
        n < 0x800_0000_0000 ==> -50 <= 100 * rank_of(p, n) - p * (n - 1) <= 50,
{
    reveal(rank_of);
    lemma_whole_exact(n);
    lemma_rank_is_near(p, n);
    let r = product(quotient(whole(p), whole(100)), whole(n - 1)).round();
    assert(p * (n - 1) <= 100 * (n - 1)) by (nonlinear_arith)
        requires
            0 <= p <= 100,
            n >= 1,
    ;
}

/// The widest gap is that of two neighbours, and no two neighbours are further
/// apart.
pub proof fn law_the_widest_gap_is_of_neighbours(t: Seq<u64>, i: int)
    requires
        sorted(t),
        0 < i < t.len(),
    ensures
        t[i] - t[i - 1] <= widest_gap(t),
        exists|j: int| 0 < j < t.len() && #[trigger] t[j] - t[j - 1] == widest_gap(t),
    decreases t.len(),
{
    let d = t.drop_last();
    let last = t.len() - 1;
    assert(t[last] == t.last() && t[last - 1] == t[t.len() - 2]);
    if t.len() > 2 {
        assert(sorted(d));
        if i < last {
            law_the_widest_gap_is_of_neighbours(d, i);
            assert(d[i] == t[i] && d[i - 1] == t[i - 1]);
        } else {
            law_the_widest_gap_is_of_neighbours(d, 1);
        }
        let j = choose|j: int| 0 < j < d.len() && #[trigger] d[j] - d[j - 1] == widest_gap(d);
        assert(t[j] - t[j - 1] == widest_gap(d));
        assert(t[last] - t[last - 1] >= 0);
    } else {
        assert(widest_gap(d) == 0);
        assert(t[last] - t[last - 1] == widest_gap(t));
    }
}

/// A gap over a moment is no wider than the widest, and covers every pair of
/// neighbours around the moment.
pub proof fn law_a_gap_spans_its_moment(t: Seq<u64>, t0: u64, i: int)
    requires
        sorted(t),
        0 < i < t.len(),
        t[i - 1] <= t0 <= t[i],
    ensures
        t[i] - t[i - 1] <= gap_over(t, t0) <= widest_gap(t),
    decreases t.len(),
{
    let d = t.drop_last();
    lemma_gap_is_a_gap(t, t0);
    if i < t.len() - 1 {
        assert(sorted(d));
        assert(d[i] == t[i] && d[i - 1] == t[i - 1]);
        law_a_gap_spans_its_moment(d, t0, i);
    }
}

proof fn lemma_gap_is_a_gap(t: Seq<u64>, t0: u64)
    ensures
        0 <= gap_over(t, t0) <= widest_gap(t),
    decreases t.len(),
{
    if t.len() >= 2 {
        lemma_gap_is_a_gap(t.drop_last(), t0);
    }
}

/// A slice holds the samples of its span, from its start up to its end.
pub proof fn law_a_slice_is_its_span(s: Seq<PingSample>, start: u64, end: u64, x: PingSample)
    ensures
        slice_of(s, start, end).contains(x) <==> s.contains(x) && start <= x.at < end,
    decreases s.len(),
{
    if s.len() > 0 {
        let d = s.drop_last();
        law_a_slice_is_its_span(d, start, end, x);
        let before = slice_of(d, start, end);
        assert(s =~= d.push(s.last()));
        assert(s[s.len() - 1] == s.last());
        if d.contains(x) {
            let i = choose|i: int| 0 <= i < d.len() && d[i] == x;
            assert(s[i] == x);
        }
        if s.contains(x) && x != s.last() {
            let i = choose|i: int| 0 <= i < s.len() && s[i] == x;
            assert(d[i] == x);
        }
        let all = before.push(s.last());
        assert(all[before.len() as int] == s.last());
        if before.contains(x) {
            let i = choose|i: int| 0 <= i < before.len() && before[i] == x;
            assert(all[i] == x);
        }
        if all.contains(x) && x != s.last() {
            let i = choose|i: int| 0 <= i < all.len() && all[i] == x;
            assert(before[i] == x);
        }
    }
}

/// A mean is the sum of the answers over their number.
pub proof fn law_a_sum_counts_each_answer(v: Seq<u64>, x: u64)
    ensures
        sum_of(v.push(x)) == sum_of(v) + x,
        sum_of(seq![]) == 0,
{
    assert(v.push(x).drop_last() =~= v);
}

/// An echo of an earlier ping is skipped, that of a later one tells that the
/// awaited one is late.
pub proof fn law_which_echo_is_awaited(seq: u64, want: u64)
    ensures
        seq == want <==> echo_of(seq, want) == Some(EchoRead::Match),
        seq < want <==> echo_of(seq, want) is None,
        seq > want <==> echo_of(seq, want) == Some(EchoRead::SkippedLate),
{
}

} // verus!
