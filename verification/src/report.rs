//! What a scenario must meet, and how its outcome is written down.

use vstd::prelude::*;
use vstd::string::*;

use crate::double::{
    added, frac, frac_double, lemma_billionth, lemma_lt_order, lemma_no_share_below_two,
    lemma_over_order, lemma_plus_order, lemma_share, lemma_share_below_two, lemma_whole_order,
    product, quotient, whole, whole_double, wide_double, zero, Dbl, Double,
};
use crate::num::capped;
use crate::text::{
    bool_text, contains_text, decimal, decimal_of, join, joined, left_column, occurs, push_bool,
    push_decimal, push_left, push_line, push_right, push_tenths, push_text, push_thousandths,
    right_column, stands_at, starts_with, tenths, text, thousandths, views,
};
use crate::workload::{
    latency_of, law_one_percentile, law_one_summary, law_samples_are_answered_or_not,
    percentile_of, rtts_of, Latency, WorkloadStats,
};

verus! {

// ---------------------------------------------------------------------------
// Service levels
// ---------------------------------------------------------------------------
/// A success rate that no workload meets: the scenario fails.
pub const NEVER: u64 = 2000;

/// What a scenario must meet.
#[derive(Clone, Copy, Debug, PartialEq, Eq, Structural)]
pub struct Sla {
    /// The application's connection must stay up.
    pub must_survive: bool,
    /// Upper bound of the 99th percentile.
    pub p99_ms: Option<u64>,
    /// Longest gap around a fault.
    pub failover_ms: Option<u64>,
    /// Smallest share of answered pings, in thousandths.
    pub min_success: u64,
}

impl Sla {
    pub fn healthy(p99_ms: u64) -> (s: Self)
        ensures
            s == (Sla {
                must_survive: true,
                p99_ms: Some(p99_ms),
                failover_ms: None,
                min_success: 950,
            }),
    {
        Sla { must_survive: true, p99_ms: Some(p99_ms), failover_ms: None, min_success: 950 }
    }

    pub fn failover(p99_ms: u64, failover_ms: u64) -> (s: Self)
        ensures
            s == (Sla {
                must_survive: true,
                p99_ms: Some(p99_ms),
                failover_ms: Some(failover_ms),
                min_success: 700,
            }),
    {
        Sla {
            must_survive: true,
            p99_ms: Some(p99_ms),
            failover_ms: Some(failover_ms),
            min_success: 700,
        }
    }

    /// Whatever was measured, it is not enough.
    pub fn force_fail(&mut self)
        ensures
            *final(self) == (Sla { min_success: NEVER, ..*old(self) }),
    {
        self.min_success = NEVER;
    }
}

/// The counters of a session that a report shows.
#[derive(Clone, Copy, Debug, PartialEq, Eq, Structural)]
pub struct SnapCounts {
    pub bytes_data_tx: u64,
    pub migrates: u64,
    pub failbacks: u64,
    pub failbacks_upgrade: u64,
    pub failbacks_class_empty: u64,
    pub hol_rebalances: u64,
    pub path_down: u64,
    pub path_added: u64,
    pub stream_resets: u64,
    pub stream_resets_timeout: u64,
    pub session_all_down_resets: u64,
    pub frame_send_drop: u64,
    pub streams_opened: u64,
    pub streams_closed: u64,
    pub streams_held: u64,
    pub streams_live: u64,
    pub data_hedge: u64,
    pub data_retransmit: u64,
    pub close_retry: u64,
    pub correlated_silence: u64,
    pub migrates_speculative: u64,
    pub migrates_path_down: u64,
    pub migrates_ensure_sticky: u64,
    pub migrates_send_blocked: u64,
    pub probe_miss: u64,
    pub picks_unknown_over_known: u64,
    pub picks_unknown_rtt: u64,
}

/// Nothing counted.
pub open spec fn zero_snap() -> SnapCounts {
    SnapCounts {
        bytes_data_tx: 0,
        migrates: 0,
        failbacks: 0,
        failbacks_upgrade: 0,
        failbacks_class_empty: 0,
        hol_rebalances: 0,
        path_down: 0,
        path_added: 0,
        stream_resets: 0,
        stream_resets_timeout: 0,
        session_all_down_resets: 0,
        frame_send_drop: 0,
        streams_opened: 0,
        streams_closed: 0,
        streams_held: 0,
        streams_live: 0,
        data_hedge: 0,
        data_retransmit: 0,
        close_retry: 0,
        correlated_silence: 0,
        migrates_speculative: 0,
        migrates_path_down: 0,
        migrates_ensure_sticky: 0,
        migrates_send_blocked: 0,
        probe_miss: 0,
        picks_unknown_over_known: 0,
        picks_unknown_rtt: 0,
    }
}

pub fn no_counts() -> (c: SnapCounts)
    ensures
        c == zero_snap(),
{
    SnapCounts {
        bytes_data_tx: 0,
        migrates: 0,
        failbacks: 0,
        failbacks_upgrade: 0,
        failbacks_class_empty: 0,
        hol_rebalances: 0,
        path_down: 0,
        path_added: 0,
        stream_resets: 0,
        stream_resets_timeout: 0,
        session_all_down_resets: 0,
        frame_send_drop: 0,
        streams_opened: 0,
        streams_closed: 0,
        streams_held: 0,
        streams_live: 0,
        data_hedge: 0,
        data_retransmit: 0,
        close_retry: 0,
        correlated_silence: 0,
        migrates_speculative: 0,
        migrates_path_down: 0,
        migrates_ensure_sticky: 0,
        migrates_send_blocked: 0,
        probe_miss: 0,
        picks_unknown_over_known: 0,
        picks_unknown_rtt: 0,
    }
}

/// A link as a session sees it.
pub struct LinkBrief {
    pub name: String,
    /// Connections that are up, and those of them that are degraded.
    pub up: u64,
    pub degraded: u64,
    pub rtt_us: u64,
}

/// What a session says of stalls, failovers and links. The percentiles are
/// absent where nothing was recorded.
pub struct Overlay {
    pub stall_p99_ms: Option<u64>,
    pub failover_p99_ms: Option<u64>,
    pub links: Vec<LinkBrief>,
}

impl Overlay {
    /// Nothing recorded, no links.
    pub open spec fn is_none(self) -> bool {
        self.stall_p99_ms is None && self.failover_p99_ms is None && self.links@.len() == 0
    }

    pub fn none() -> (o: Self)
        ensures
            o.is_none(),
    {
        Overlay { stall_p99_ms: None, failover_p99_ms: None, links: Vec::new() }
    }
}

pub struct ScenarioReport {
    pub name: String,
    pub stats: WorkloadStats,
    pub snap: SnapCounts,
    pub overlay: Overlay,
    pub sla: Sla,
    pub failover_observed_ms: Option<u64>,
    pub notes: Vec<String>,
}

/// The share of answered pings; without a ping it is zero.
pub open spec fn share_of(ok: nat, n: nat) -> Dbl {
    if n == 0 {
        zero()
    } else {
        quotient(whole(ok as int), whole(n as int))
    }
}

pub(crate) fn share(ok: usize, n: usize) -> (d: Double)
    requires
        ok <= n,
    ensures
        d@ == share_of(ok as nat, n as nat),
        d.within(200),
        d.m > 0 ==> -117 <= d.e <= -51,
{
    if n == 0 {
        return Double { m: 0, e: 0 };
    }
    proof {
        lemma_share(ok as int, n as int);
    }
    whole_double(ok as u64).over(whole_double(n as u64))
}

/// The share of answered pings, give or take a billionth, is at least `min`
/// thousandths.
#[verifier::opaque]
pub open spec fn enough(ok: nat, n: nat, min: u64) -> bool {
    !added(share_of(ok, n), frac(1, 1_000_000_000)).lt(frac(min as int, 1000))
}

fn billionth() -> (d: Double)
    ensures
        d@ == frac(1, 1_000_000_000),
        d.within(128),
        d.m > 0,
        -82 <= d.e <= -80,
{
    proof {
        lemma_billionth();
    }
    frac_double(1, 1_000_000_000)
}

/// A workload with 99th percentile `p99` meets its level.
pub open spec fn meets(
    sla: Sla,
    disconnect: bool,
    ok: nat,
    n: nat,
    p99: Option<u64>,
    gap_ms: Option<u64>,
) -> bool {
    &&& !(sla.must_survive && disconnect)
    &&& enough(ok, n, sla.min_success)
    &&& match sla.p99_ms {
        Some(lim) => match p99 {
            Some(us) => us as int / 1000 <= lim,
            None => !sla.must_survive,
        },
        None => true,
    }
    &&& match (sla.failover_ms, gap_ms) {
        (Some(lim), Some(seen)) => seen <= lim,
        _ => true,
    }
}

impl ScenarioReport {
    /// The scenario passed.
    pub open spec fn passed(self) -> bool {
        let v = rtts_of(self.stats.samples@);
        meets(
            self.sla,
            self.stats.disconnect,
            v.len(),
            self.stats.samples@.len(),
            percentile_of(v, 99),
            self.failover_observed_ms,
        )
    }

    pub fn pass(&self) -> (r: bool)
        ensures
            r == self.passed(),
    {
        let p99: Option<u64> = self.stats.percentile_us(99);
        proof {
            law_one_percentile(rtts_of(self.stats.samples@), 99, p99);
        }
        if self.sla.must_survive && self.stats.disconnect {
            return false;
        }
        let n: usize = self.stats.n_samples();
        let ok: usize = self.stats.n_ok();
        let enough: bool = {
            proof {
                law_samples_are_answered_or_not(self.stats.samples@);
                reveal(enough);
            }
            let near: Double = share(ok, n).plus(billionth());
            !near.less_than(frac_double(self.sla.min_success, 1000))
        };
        if !enough {
            return false;
        }
        match self.sla.p99_ms {
            Some(lim) => match p99 {
                Some(us) => {
                    if us / 1000 > lim {
                        return false;
                    }
                },
                None => {
                    if self.sla.must_survive {
                        return false;
                    }
                },
            },
            None => {},
        }
        match (self.sla.failover_ms, self.failover_observed_ms) {
            (Some(lim), Some(seen)) => seen <= lim,
            _ => true,
        }
    }
}

// ---------------------------------------------------------------------------
// Findings
// ---------------------------------------------------------------------------
/// What is said of a scenario, and whether it fails for it.
pub struct Finding {
    pub notes: Seq<Seq<char>>,
    pub fail: bool,
}

pub open spec fn nothing() -> Finding {
    Finding { notes: seq![], fail: false }
}

impl Finding {
    /// Both findings, one after the other.
    pub open spec fn and(self, more: Finding) -> Finding {
        Finding { notes: self.notes + more.notes, fail: self.fail || more.fail }
    }
}

impl ScenarioReport {
    /// This report with a finding added.
    pub open spec fn with(self, f: Finding, r: ScenarioReport) -> bool {
        &&& views(r.notes@) == views(self.notes@) + f.notes
        &&& r == (ScenarioReport {
            notes: r.notes,
            sla: if f.fail {
                Sla { min_success: NEVER, ..self.sla }
            } else {
                self.sla
            },
            ..self
        })
    }
}

// ---------------------------------------------------------------------------
// Numbers
// ---------------------------------------------------------------------------
/// Milliseconds of so many microseconds, in tenths: the nearest one, the even
/// one of two.
#[verifier::opaque]
pub open spec fn ms_tenths(us: Dbl) -> int {
    capped(quotient(us, whole(1000)).shown(10))
}

/// Microseconds as milliseconds with one decimal.
pub open spec fn ms_text(us: Option<u64>) -> Seq<char> {
    match us {
        Some(u) => tenths(ms_tenths(whole(u as int))),
        None => "-"@,
    }
}

fn show_ms(us: Double) -> (s: String)
    requires
        us.within(400),
    ensures
        s@ == tenths(ms_tenths(us@)),
{
    let mut s: String = String::new();
    let thousand: Double = whole_double(1000);
    reveal(ms_tenths);
    push_tenths(&mut s, us.over(thousand).shown_capped(10));
    assert(s@ =~= tenths(ms_tenths(us@)));
    s
}

pub fn fmt_ms_us(us: Option<u64>) -> (s: String)
    ensures
        s@ == ms_text(us),
{
    match us {
        Some(u) => show_ms(whole_double(u)),
        None => text("-"),
    }
}

/// A mean, given as a sum and a count, in milliseconds with one decimal.
pub open spec fn mean_text(mean: Option<(u128, u128)>) -> Seq<char> {
    match mean {
        Some(m) => tenths(ms_tenths(quotient(whole(m.0 as int), whole(m.1 as int)))),
        None => "-"@,
    }
}

/// The mean is one of something.
pub open spec fn mean_counts(mean: Option<(u128, u128)>) -> bool {
    match mean {
        Some(m) => 0 < m.1,
        None => true,
    }
}

pub fn fmt_mean(mean: Option<(u128, u128)>) -> (s: String)
    requires
        mean_counts(mean),
    ensures
        s@ == mean_text(mean),
{
    match mean {
        Some(m) => {
            let (sum, n): (u128, u128) = m;
            show_ms(wide_double(sum).over(wide_double(n)))
        },
        None => text("-"),
    }
}

/// A span of time, by its size.
pub open spec fn dur_text(us: u64) -> Seq<char> {
    let secs = us as int / 1_000_000;
    if secs >= 60 {
        decimal(secs / 60) + "m"@ + decimal(secs % 60) + "s"@
    } else if us as int / 1000 >= 1000 {
        decimal(secs) + "s"@
    } else {
        decimal(us as int / 1000) + "ms"@
    }
}

pub fn fmt_dur(us: u64) -> (s: String)
    ensures
        s@ == dur_text(us),
{
    let secs: u64 = us / 1_000_000;
    if secs >= 60 {
        let mut s: String = decimal_of(secs / 60);
        push_text(&mut s, "m");
        push_decimal(&mut s, secs % 60);
        push_text(&mut s, "s");
        s
    } else if us / 1000 >= 1000 {
        let mut s: String = decimal_of(secs);
        push_text(&mut s, "s");
        s
    } else {
        let mut s: String = decimal_of(us / 1000);
        push_text(&mut s, "ms");
        s
    }
}

/// The share of answered pings in thousandths: the nearest one, the even one of
/// two.
#[verifier::opaque]
pub open spec fn rate_pm(ok: nat, n: nat) -> int {
    capped(share_of(ok, n).shown(1000))
}

pub(crate) fn rate_of(ok: usize, n: usize) -> (r: u64)
    requires
        ok <= n,
    ensures
        r == rate_pm(ok as nat, n as nat),
{
    reveal(rate_pm);
    share(ok, n).shown_capped(1000)
}

// ---------------------------------------------------------------------------
// Lines
// ---------------------------------------------------------------------------
/// The latency part of a line.
pub open spec fn latency_text(l: Latency) -> Seq<char> {
    "min="@ + ms_text(l.min) + " avg="@ + mean_text(l.mean) + " p50="@ + ms_text(l.p50) + " p90="@
        + ms_text(l.p90) + " p99="@ + ms_text(l.p99) + " max="@ + ms_text(l.max)
}

pub fn show_latency(l: &Latency) -> (s: String)
    requires
        mean_counts(l.mean),
    ensures
        s@ == latency_text(*l),
{
    let mut s: String = text("min=");
    push_text(&mut s, fmt_ms_us(l.min).as_str());
    push_text(&mut s, " avg=");
    push_text(&mut s, fmt_mean(l.mean).as_str());
    push_text(&mut s, " p50=");
    push_text(&mut s, fmt_ms_us(l.p50).as_str());
    push_text(&mut s, " p90=");
    push_text(&mut s, fmt_ms_us(l.p90).as_str());
    push_text(&mut s, " p99=");
    push_text(&mut s, fmt_ms_us(l.p99).as_str());
    push_text(&mut s, " max=");
    push_text(&mut s, fmt_ms_us(l.max).as_str());
    s
}

/// A gap in milliseconds, where one was seen.
pub open spec fn gap_text(gap: Option<u64>, unit: Seq<char>) -> Seq<char> {
    match gap {
        Some(m) => decimal(m as int) + unit,
        None => "-"@,
    }
}

fn show_gap(gap: Option<u64>, unit: &str) -> (s: String)
    ensures
        s@ == gap_text(gap, unit@),
{
    match gap {
        Some(m) => {
            let mut s: String = decimal_of(m);
            push_text(&mut s, unit);
            s
        },
        None => text("-"),
    }
}

pub open spec fn verdict_text(pass: bool) -> Seq<char> {
    if pass {
        "PASS"@
    } else {
        "FAIL"@
    }
}

impl ScenarioReport {
    /// The line of this report, given its verdict and latencies.
    pub open spec fn line_text(self, pass: bool, l: Latency) -> Seq<char> {
        left_column(self.name@, 28) + " "@ + left_column(verdict_text(pass), 5) + " surv="@
            + bool_text(!self.stats.disconnect) + " n="@ + decimal(l.n_ok as int) + "/"@ + decimal(
            l.n as int,
        ) + " ok_rate="@ + thousandths(rate_pm(l.n_ok as nat, l.n as nat)) + " "@ + latency_text(l)
            + " gap="@ + left_column(gap_text(self.failover_observed_ms, "ms"@), 8) + " to="@
            + decimal(self.stats.timeouts as int) + " err="@ + decimal(self.stats.io_errors as int)
            + " tx="@ + decimal(self.snap.bytes_data_tx as int) + " mig="@ + decimal(
            self.snap.migrates as int,
        ) + " down="@ + decimal(self.snap.path_down as int) + " drops="@ + decimal(
            self.snap.frame_send_drop as int,
        )
    }

    fn show_line(&self, pass: bool, l: &Latency) -> (s: String)
        requires
            mean_counts(l.mean),
            l.n_ok <= l.n,
        ensures
            s@ == self.line_text(pass, *l),
    {
        let mut s: String = String::new();
        push_left(&mut s, self.name.as_str(), 28);
        assert(s@ =~= left_column(self.name@, 28));
        push_text(&mut s, " ");
        push_left(
            &mut s,
            if pass {
                "PASS"
            } else {
                "FAIL"
            },
            5,
        );
        push_text(&mut s, " surv=");
        push_bool(&mut s, !self.stats.disconnect);
        push_text(&mut s, " n=");
        push_decimal(&mut s, l.n_ok as u64);
        push_text(&mut s, "/");
        push_decimal(&mut s, l.n as u64);
        push_text(&mut s, " ok_rate=");
        push_thousandths(&mut s, rate_of(l.n_ok, l.n));
        push_text(&mut s, " ");
        push_text(&mut s, show_latency(l).as_str());
        push_text(&mut s, " gap=");
        push_left(&mut s, show_gap(self.failover_observed_ms, "ms").as_str(), 8);
        push_text(&mut s, " to=");
        push_decimal(&mut s, self.stats.timeouts);
        push_text(&mut s, " err=");
        push_decimal(&mut s, self.stats.io_errors);
        push_text(&mut s, " tx=");
        push_decimal(&mut s, self.snap.bytes_data_tx);
        push_text(&mut s, " mig=");
        push_decimal(&mut s, self.snap.migrates);
        push_text(&mut s, " down=");
        push_decimal(&mut s, self.snap.path_down);
        push_text(&mut s, " drops=");
        push_decimal(&mut s, self.snap.frame_send_drop);
        s
    }

    /// One line: verdict, answers, latencies, counters.
    pub fn line(&self) -> (s: String)
        ensures
            s@ == self.line_text(self.passed(), latency_of(self.stats.samples@)),
    {
        let l: Latency = self.stats.latency();
        proof {
            law_one_summary(self.stats.samples@, l);
        }
        self.show_line(self.pass(), &l)
    }

    /// The latencies of this scenario.
    pub fn latency_ms(&self) -> (s: String)
        ensures
            s@ == latency_text(latency_of(self.stats.samples@)),
    {
        let l: Latency = self.stats.latency();
        proof {
            law_one_summary(self.stats.samples@, l);
        }
        show_latency(&l)
    }

    /// The row of this report in the table of latencies.
    pub open spec fn row_text(self, l: Latency) -> Seq<char> {
        left_column(self.name@, 28) + " "@ + right_column(decimal(l.n as int), 5) + " "@
            + right_column(decimal(pct_of(l.n_ok as nat, l.n as nat)), 5) + " "@ + right_column(
            ms_text(l.min),
            7,
        ) + " "@ + right_column(mean_text(l.mean), 7) + " "@ + right_column(ms_text(l.p50), 7)
            + " "@ + right_column(ms_text(l.p90), 7) + " "@ + right_column(ms_text(l.p99), 7)
            + " "@ + right_column(ms_text(l.max), 7) + " "@ + right_column(
            gap_text(self.failover_observed_ms, ""@),
            7,
        )
    }

    fn show_row(&self, l: &Latency) -> (s: String)
        requires
            mean_counts(l.mean),
            l.n_ok <= l.n,
        ensures
            s@ == self.row_text(*l),
    {
        let mut s: String = String::new();
        push_left(&mut s, self.name.as_str(), 28);
        assert(s@ =~= left_column(self.name@, 28));
        push_text(&mut s, " ");
        push_right(&mut s, decimal_of(l.n as u64).as_str(), 5);
        push_text(&mut s, " ");
        push_right(&mut s, decimal_of(percent(l.n_ok, l.n)).as_str(), 5);
        push_text(&mut s, " ");
        push_right(&mut s, fmt_ms_us(l.min).as_str(), 7);
        push_text(&mut s, " ");
        push_right(&mut s, fmt_mean(l.mean).as_str(), 7);
        push_text(&mut s, " ");
        push_right(&mut s, fmt_ms_us(l.p50).as_str(), 7);
        push_text(&mut s, " ");
        push_right(&mut s, fmt_ms_us(l.p90).as_str(), 7);
        push_text(&mut s, " ");
        push_right(&mut s, fmt_ms_us(l.p99).as_str(), 7);
        push_text(&mut s, " ");
        push_right(&mut s, fmt_ms_us(l.max).as_str(), 7);
        push_text(&mut s, " ");
        push_right(&mut s, show_gap(self.failover_observed_ms, "").as_str(), 7);
        s
    }
}

/// The share of answered pings in percent: the nearest one, the larger of two.
#[verifier::opaque]
pub open spec fn pct_of(ok: nat, n: nat) -> int {
    capped(product(share_of(ok, n), whole(100)).round())
}

fn percent(ok: usize, n: usize) -> (r: u64)
    requires
        ok <= n,
    ensures
        r == pct_of(ok as nat, n as nat),
{
    reveal(pct_of);
    share(ok, n).times(whole_double(100)).round_capped()
}

// ---------------------------------------------------------------------------
// The suite
// ---------------------------------------------------------------------------
/// A note that the table shows: a churn count always, the reason of a failure
/// where the scenario failed.
pub open spec fn note_shown(note: Seq<char>, pass: bool) -> bool {
    ||| occurs(note, "churn="@)
    ||| !pass && {
        ||| stands_at(note, "FAIL"@, 0)
        ||| stands_at(note, "UNCOVERED"@, 0)
        ||| stands_at(note, "p50="@, 0)
        ||| occurs(note, "incomplete"@)
        ||| occurs(note, "panicked"@)
        ||| occurs(note, "failback chatter"@)
        ||| occurs(note, "did not mix"@)
        ||| occurs(note, "stream table leak"@)
        ||| occurs(note, "migrate storm"@)
        ||| occurs(note, "short-stream"@)
    }
}

pub fn shows_note(note: &str, pass: bool) -> (r: bool)
    ensures
        r == note_shown(note@, pass),
{
    contains_text(note, "churn=") || (!pass && (starts_with(note, "FAIL") || starts_with(
        note,
        "UNCOVERED",
    ) || starts_with(note, "p50=") || contains_text(note, "incomplete") || contains_text(
        note,
        "panicked",
    ) || contains_text(note, "failback chatter") || contains_text(note, "did not mix")
        || contains_text(note, "stream table leak") || contains_text(note, "migrate storm")
        || contains_text(note, "short-stream")))
}

/// A note under its report.
pub open spec fn note_line(note: Seq<char>) -> Seq<char> {
    "    note: "@ + note
}

fn show_note(note: &str) -> (s: String)
    ensures
        s@ == note_line(note@),
{
    let mut s: String = text("    note: ");
    push_text(&mut s, note);
    s
}

/// The totals of a suite.
pub open spec fn totals_text(n: int, fail: int) -> Seq<char> {
    "ran "@ + decimal(n) + "  pass "@ + decimal(n - fail) + "  fail "@ + decimal(fail)
}

/// How many of these reports failed.
pub open spec fn failed_of(reports: Seq<ScenarioReport>) -> nat
    decreases reports.len(),
{
    if reports.len() == 0 {
        0
    } else {
        failed_of(reports.drop_last()) + if reports.last().passed() {
            0nat
        } else {
            1nat
        }
    }
}

pub fn count_failed(reports: &Vec<ScenarioReport>) -> (fail: usize)
    ensures
        fail == failed_of(reports@),
        fail <= reports@.len(),
{
    let mut fail: usize = 0;
    let mut i: usize = 0;
    assert(reports@.take(0) =~= seq![]);
    while i < reports.len()
        invariant
            i <= reports@.len(),
            fail == failed_of(reports@.take(i as int)),
            fail <= i,
        decreases reports.len() - i,
    {
        assert(reports@.take(i as int + 1).drop_last() =~= reports@.take(i as int));
        if !reports[i].pass() {
            fail += 1;
        }
        i += 1;
    }
    assert(reports@.take(reports@.len() as int) =~= reports@);
    fail
}

/// The last line of a suite.
pub fn show_totals(reports: &Vec<ScenarioReport>) -> (s: String)
    ensures
        s@ == totals_text(reports@.len() as int, failed_of(reports@) as int),
{
    let fail: usize = count_failed(reports);
    let n: usize = reports.len();
    let mut s: String = text("ran ");
    push_decimal(&mut s, n as u64);
    push_text(&mut s, "  pass ");
    push_decimal(&mut s, (n - fail) as u64);
    push_text(&mut s, "  fail ");
    push_decimal(&mut s, fail as u64);
    s
}

/// A link in a note.
pub open spec fn link_text(l: LinkBrief) -> Seq<char> {
    l.name@ + ":"@ + decimal(l.up as int) + "/"@ + decimal(l.degraded as int) + " "@ + decimal(
        l.rtt_us as int / 1000,
    ) + "ms"@
}

fn show_link(l: &LinkBrief) -> (s: String)
    ensures
        s@ == link_text(*l),
{
    let mut s: String = text(l.name.as_str());
    push_text(&mut s, ":");
    push_decimal(&mut s, l.up);
    push_text(&mut s, "/");
    push_decimal(&mut s, l.degraded);
    push_text(&mut s, " ");
    push_decimal(&mut s, l.rtt_us / 1000);
    push_text(&mut s, "ms");
    s
}

impl ScenarioReport {
    /// Stalls, failovers and streams.
    pub open spec fn streams_note(self) -> Seq<char> {
        "overlay stall_p99="@ + gap_text(self.overlay.stall_p99_ms, ""@) + "ms failover_p99="@
            + gap_text(self.overlay.failover_p99_ms, ""@) + "ms resets="@ + decimal(
            self.snap.stream_resets as int,
        ) + " closed="@ + decimal(self.snap.streams_closed as int) + " opened="@ + decimal(
            self.snap.streams_opened as int,
        ) + " held="@ + decimal(self.snap.streams_held as int) + " live="@ + decimal(
            self.snap.streams_live as int,
        )
    }

    fn show_streams(&self) -> (s: String)
        ensures
            s@ == self.streams_note(),
    {
        let mut s: String = text("overlay stall_p99=");
        push_text(&mut s, show_gap(self.overlay.stall_p99_ms, "").as_str());
        push_text(&mut s, "ms failover_p99=");
        push_text(&mut s, show_gap(self.overlay.failover_p99_ms, "").as_str());
        push_text(&mut s, "ms resets=");
        push_decimal(&mut s, self.snap.stream_resets);
        push_text(&mut s, " closed=");
        push_decimal(&mut s, self.snap.streams_closed);
        push_text(&mut s, " opened=");
        push_decimal(&mut s, self.snap.streams_opened);
        push_text(&mut s, " held=");
        push_decimal(&mut s, self.snap.streams_held);
        push_text(&mut s, " live=");
        push_decimal(&mut s, self.snap.streams_live);
        s
    }

    /// Links and what was moved or sent again.
    pub open spec fn links_note(self) -> Seq<char> {
        "links="@ + joined(
            self.overlay.links@.map_values(|l: LinkBrief| link_text(l)),
            ","@,
        ) + " mig spec="@ + decimal(self.snap.migrates_speculative as int) + " down="@ + decimal(
            self.snap.migrates_path_down as int,
        ) + " ens="@ + decimal(self.snap.migrates_ensure_sticky as int) + " blk="@ + decimal(
            self.snap.migrates_send_blocked as int,
        ) + " retransmit="@ + decimal(self.snap.data_retransmit as int) + " hedge="@ + decimal(
            self.snap.data_hedge as int,
        ) + " probe_miss="@ + decimal(self.snap.probe_miss as int) + " unk_pick="@ + decimal(
            self.snap.picks_unknown_over_known as int,
        ) + "/"@ + decimal(self.snap.picks_unknown_rtt as int)
    }

    fn show_links(&self) -> (s: String)
        ensures
            s@ == self.links_note(),
    {
        let ghost t = self.overlay.links@.map_values(|l: LinkBrief| link_text(l));
        let mut parts: Vec<String> = Vec::new();
        let mut i: usize = 0;
        assert(views(parts@) =~= t.take(0));
        while i < self.overlay.links.len()
            invariant
                i <= self.overlay.links@.len(),
                t == self.overlay.links@.map_values(|l: LinkBrief| link_text(l)),
                views(parts@) == t.take(i as int),
            decreases self.overlay.links.len() - i,
        {
            push_line(&mut parts, show_link(&self.overlay.links[i]));
            assert(views(parts@) =~= t.take(i as int + 1));
            i += 1;
        }
        assert(t.take(t.len() as int) =~= t);
        let mut s: String = text("links=");
        push_text(&mut s, join(&parts, ",").as_str());
        push_text(&mut s, " mig spec=");
        push_decimal(&mut s, self.snap.migrates_speculative);
        push_text(&mut s, " down=");
        push_decimal(&mut s, self.snap.migrates_path_down);
        push_text(&mut s, " ens=");
        push_decimal(&mut s, self.snap.migrates_ensure_sticky);
        push_text(&mut s, " blk=");
        push_decimal(&mut s, self.snap.migrates_send_blocked);
        push_text(&mut s, " retransmit=");
        push_decimal(&mut s, self.snap.data_retransmit);
        push_text(&mut s, " hedge=");
        push_decimal(&mut s, self.snap.data_hedge);
        push_text(&mut s, " probe_miss=");
        push_decimal(&mut s, self.snap.probe_miss);
        push_text(&mut s, " unk_pick=");
        push_decimal(&mut s, self.snap.picks_unknown_over_known);
        push_text(&mut s, "/");
        push_decimal(&mut s, self.snap.picks_unknown_rtt);
        s
    }

    pub fn overlay_notes(&self) -> (v: Vec<String>)
        ensures
            views(v@) == seq![self.streams_note(), self.links_note()],
    {
        let mut v: Vec<String> = Vec::new();
        push_line(&mut v, self.show_streams());
        push_line(&mut v, self.show_links());
        assert(views(v@) =~= seq![self.streams_note(), self.links_note()]);
        v
    }

    /// The line of this report, and every note under it.
    pub open spec fn full_text(self) -> Seq<Seq<char>> {
        seq![
            self.line_text(self.passed(), latency_of(self.stats.samples@)),
            note_line(self.streams_note()),
            note_line(self.links_note()),
        ] + views(self.notes@).map_values(|n: Seq<char>| note_line(n))
    }

    /// The report in full.
    pub fn full(&self) -> (s: String)
        ensures
            s@ == joined(self.full_text(), "\n"@),
    {
        let mut lines: Vec<String> = Vec::new();
        push_line(&mut lines, self.line());
        push_line(&mut lines, show_note(self.show_streams().as_str()));
        push_line(&mut lines, show_note(self.show_links().as_str()));
        let ghost head = views(lines@);
        let ghost t = views(self.notes@).map_values(|n: Seq<char>| note_line(n));
        let mut i: usize = 0;
        assert(views(lines@) =~= head + t.take(0));
        while i < self.notes.len()
            invariant
                i <= self.notes@.len(),
                t == views(self.notes@).map_values(|n: Seq<char>| note_line(n)),
                views(lines@) == head + t.take(i as int),
            decreases self.notes.len() - i,
        {
            push_line(&mut lines, show_note(self.notes[i].as_str()));
            assert(views(lines@) =~= head + t.take(i as int + 1));
            i += 1;
        }
        assert(t.take(t.len() as int) =~= t);
        assert(views(lines@) =~= self.full_text());
        join(&lines, "\n")
    }

    /// What is kept in a file: the notes, then the report in full.
    pub open spec fn kept_text(self) -> Seq<char> {
        joined(views(self.notes@), "\n"@) + "\n"@ + joined(self.full_text(), "\n"@) + "\n"@
    }

    pub fn kept(&self) -> (s: String)
        ensures
            s@ == self.kept_text(),
    {
        let mut s: String = join(&self.notes, "\n");
        push_text(&mut s, "\n");
        push_text(&mut s, self.full().as_str());
        push_text(&mut s, "\n");
        s
    }
}

/// The lines of one report: its own, the notes on the overlay, and the notes
/// that are shown.
#[verifier::opaque]
pub open spec fn report_lines(r: ScenarioReport) -> Seq<Seq<char>> {
    seq![
        r.line_text(r.passed(), latency_of(r.stats.samples@)),
        note_line(r.streams_note()),
        note_line(r.links_note()),
    ] + shown_lines(r.notes@, r.passed())
}

/// The notes that are shown, in order.
pub open spec fn shown_lines(notes: Seq<String>, pass: bool) -> Seq<Seq<char>>
    decreases notes.len(),
{
    if notes.len() == 0 {
        seq![]
    } else {
        let before = shown_lines(notes.drop_last(), pass);
        if note_shown(notes.last()@, pass) {
            before.push(note_line(notes.last()@))
        } else {
            before
        }
    }
}

/// Write down one report.
fn push_report(lines: &mut Vec<String>, r: &ScenarioReport)
    ensures
        views(final(lines)@) == views(old(lines)@) + report_lines(*r),
{
    let pass: bool = r.pass();
    let ghost o = views(lines@);
    push_line(lines, r.line());
    push_line(lines, show_note(r.show_streams().as_str()));
    push_line(lines, show_note(r.show_links().as_str()));
    let ghost mid = views(lines@);
    let mut k: usize = 0;
    assert(r.notes@.take(0) =~= seq![]);
    assert(views(lines@) =~= mid + shown_lines(r.notes@.take(0), pass));
    while k < r.notes.len()
        invariant
            k <= r.notes@.len(),
            views(lines@) == mid + shown_lines(r.notes@.take(k as int), pass),
        decreases r.notes.len() - k,
    {
        assert(r.notes@.take(k as int + 1).drop_last() =~= r.notes@.take(k as int));
        if shows_note(r.notes[k].as_str(), pass) {
            push_line(lines, show_note(r.notes[k].as_str()));
            assert(views(lines@) =~= mid + shown_lines(r.notes@.take(k as int + 1), pass));
        }
        k += 1;
    }
    assert(r.notes@.take(r.notes@.len() as int) =~= r.notes@);
    assert(views(lines@) =~= o + report_lines(*r)) by {
        reveal(report_lines);
    }
}

/// The row of a report in the table of latencies.
fn show_row(r: &ScenarioReport) -> (s: String)
    ensures
        s@ == r.row_text(latency_of(r.stats.samples@)),
{
    let l: Latency = r.stats.latency();
    proof {
        law_one_summary(r.stats.samples@, l);
    }
    r.show_row(&l)
}

/// The lines of these reports, one after another.
pub open spec fn all_report_lines(reports: Seq<ScenarioReport>) -> Seq<Seq<char>>
    decreases reports.len(),
{
    if reports.len() == 0 {
        seq![]
    } else {
        all_report_lines(reports.drop_last()) + report_lines(reports.last())
    }
}

/// Heading of the reports.
pub open spec fn heading() -> Seq<char> {
    left_column("SCENARIO"@, 28) + " "@ + left_column("SLA"@, 5) + " DETAIL"@
}

/// Heading of the table of latencies.
pub open spec fn table_heading() -> Seq<char> {
    left_column("SCENARIO"@, 28) + " "@ + right_column("n"@, 5) + " "@ + right_column("ok%"@, 5)
        + " "@ + right_column("min"@, 7) + " "@ + right_column("avg"@, 7) + " "@ + right_column(
        "p50"@,
        7,
    ) + " "@ + right_column("p90"@, 7) + " "@ + right_column("p99"@, 7) + " "@ + right_column(
        "max"@,
        7,
    ) + " "@ + right_column("gap"@, 7)
}

fn show_heading() -> (s: String)
    ensures
        s@ == heading(),
{
    let mut s: String = String::new();
    push_left(&mut s, "SCENARIO", 28);
    assert(s@ =~= left_column("SCENARIO"@, 28));
    push_text(&mut s, " ");
    push_left(&mut s, "SLA", 5);
    push_text(&mut s, " DETAIL");
    s
}

fn show_table_heading() -> (s: String)
    ensures
        s@ == table_heading(),
{
    let mut s: String = String::new();
    push_left(&mut s, "SCENARIO", 28);
    assert(s@ =~= left_column("SCENARIO"@, 28));
    push_text(&mut s, " ");
    push_right(&mut s, "n", 5);
    push_text(&mut s, " ");
    push_right(&mut s, "ok%", 5);
    push_text(&mut s, " ");
    push_right(&mut s, "min", 7);
    push_text(&mut s, " ");
    push_right(&mut s, "avg", 7);
    push_text(&mut s, " ");
    push_right(&mut s, "p50", 7);
    push_text(&mut s, " ");
    push_right(&mut s, "p90", 7);
    push_text(&mut s, " ");
    push_right(&mut s, "p99", 7);
    push_text(&mut s, " ");
    push_right(&mut s, "max", 7);
    push_text(&mut s, " ");
    push_right(&mut s, "gap", 7);
    s
}

/// A suite as it is printed: the reports, the table of latencies, the totals.
pub open spec fn suite_text(reports: Seq<ScenarioReport>) -> Seq<Seq<char>> {
    seq![""@, heading()] + all_report_lines(reports) + seq![""@, table_heading()]
        + latency_rows(reports) + seq![
        ""@,
        totals_text(reports.len() as int, failed_of(reports) as int),
    ]
}

fn push_reports(lines: &mut Vec<String>, reports: &Vec<ScenarioReport>)
    ensures
        views(final(lines)@) == views(old(lines)@) + all_report_lines(reports@),
{
    let ghost head = views(lines@);
    let mut i: usize = 0;
    assert(reports@.take(0) =~= seq![]);
    assert(views(lines@) =~= head + all_report_lines(reports@.take(0)));
    while i < reports.len()
        invariant
            i <= reports@.len(),
            views(lines@) == head + all_report_lines(reports@.take(i as int)),
        decreases reports.len() - i,
    {
        assert(reports@.take(i as int + 1).drop_last() =~= reports@.take(i as int));
        push_report(lines, &reports[i]);
        assert(views(lines@) =~= head + all_report_lines(reports@.take(i as int + 1)));
        i += 1;
    }
    assert(reports@.take(reports@.len() as int) =~= reports@);
}

/// The rows of the table of latencies.
pub open spec fn latency_rows(reports: Seq<ScenarioReport>) -> Seq<Seq<char>> {
    reports.map_values(|r: ScenarioReport| r.row_text(latency_of(r.stats.samples@)))
}

fn push_rows(lines: &mut Vec<String>, reports: &Vec<ScenarioReport>)
    ensures
        views(final(lines)@) == views(old(lines)@) + latency_rows(reports@),
{
    let ghost mid = views(lines@);
    let ghost rows = latency_rows(reports@);
    let mut k: usize = 0;
    assert(views(lines@) =~= mid + rows.take(0));
    while k < reports.len()
        invariant
            k <= reports@.len(),
            rows == latency_rows(reports@),
            views(lines@) == mid + rows.take(k as int),
        decreases reports.len() - k,
    {
        push_line(lines, show_row(&reports[k]));
        assert(views(lines@) =~= mid + rows.take(k as int + 1));
        k += 1;
    }
    assert(rows.take(rows.len() as int) =~= rows);
}

pub fn suite_lines(reports: &Vec<ScenarioReport>) -> (lines: Vec<String>)
    ensures
        views(lines@) == suite_text(reports@),
{
    let mut lines: Vec<String> = Vec::new();
    push_line(&mut lines, text(""));
    push_line(&mut lines, show_heading());
    assert(views(lines@) =~= seq![""@, heading()]);
    push_reports(&mut lines, reports);
    push_line(&mut lines, text(""));
    push_line(&mut lines, show_table_heading());
    push_rows(&mut lines, reports);
    push_line(&mut lines, text(""));
    push_line(&mut lines, show_totals(reports));
    assert(views(lines@) =~= suite_text(reports@));
    lines
}

// ---------------------------------------------------------------------------
// Laws
// ---------------------------------------------------------------------------
/// A report that is forced to fail fails, whatever was measured.
pub proof fn law_forced_failure_fails(
    sla: Sla,
    disconnect: bool,
    ok: nat,
    n: nat,
    p99: Option<u64>,
    gap: Option<u64>,
)
    requires
        sla.min_success == NEVER,
        ok <= n,
    ensures
        !meets(sla, disconnect, ok, n, p99, gap),
{
    if n > 0 {
        reveal(enough);
        lemma_share_below_two(ok as int, n as int);
    } else {
        reveal(enough);
        lemma_no_share_below_two();
    }
}

/// More answers never turn a pass into a failure.
pub proof fn law_more_answers_never_hurt(ok: nat, more: nat, n: nat, min: u64)
    requires
        enough(ok, n, min),
        ok <= more,
    ensures
        enough(more, n, min),
{
    reveal(enough);
    let bit = frac(1, 1_000_000_000);
    lemma_billionth();
    if n > 0 {
        lemma_whole_order(ok as int, more as int);
        lemma_whole_order(0, n as int);
        lemma_over_order(whole(ok as int), whole(more as int), whole(n as int));
        lemma_plus_order(share_of(ok, n), share_of(more, n), bit);
        lemma_lt_order(
            added(share_of(ok, n), bit),
            added(share_of(more, n), bit),
            frac(min as int, 1000),
        );
    }
}

/// The success level: a share of answers that reaches it is enough, and one
/// that stays below it by more than two billionths is not.
pub proof fn law_enough_answers_reach_the_level(ok: nat, n: nat, min: u64)
    requires
        0 < ok <= n < 0x10_0000_0000_0000,
        0 < min <= 1000,
    ensures
        1000 * ok >= min * n ==> enough(ok, n, min),
        enough(ok, n, min) ==> 1_000_000 * (min * n - 1000 * ok) <= 2 * n,
{
    reveal(enough);
    crate::accuracy::lemma_share_reaches_its_bound(ok as int, n as int, min as int);
}

/// When a level is met: nothing that must survive was cut off, enough was
/// answered, the 99th percentile in whole milliseconds and the failover are
/// within their limits; without an answer only what need not survive passes.
pub proof fn law_when_a_level_is_met(
    sla: Sla,
    disconnect: bool,
    ok: nat,
    n: nat,
    us: u64,
    gap: u64,
)
    ensures
        sla.must_survive && disconnect ==> !meets(sla, disconnect, ok, n, Some(us), Some(gap)),
        meets(sla, disconnect, ok, n, Some(us), Some(gap)) ==> enough(ok, n, sla.min_success),
        sla.p99_ms is Some && us >= 1000 * (sla.p99_ms->0 + 1) ==> !meets(
            sla,
            disconnect,
            ok,
            n,
            Some(us),
            Some(gap),
        ),
        sla.failover_ms is Some && gap > sla.failover_ms->0 ==> !meets(
            sla,
            disconnect,
            ok,
            n,
            Some(us),
            Some(gap),
        ),
        !(sla.must_survive && disconnect) && enough(ok, n, sla.min_success) && (sla.p99_ms is Some
            ==> us < 1000 * (sla.p99_ms->0 + 1)) && (sla.failover_ms is Some ==> gap
            <= sla.failover_ms->0) ==> meets(sla, disconnect, ok, n, Some(us), Some(gap)),
        sla.p99_ms is Some && sla.must_survive ==> !meets(
            sla,
            disconnect,
            ok,
            n,
            None,
            Some(gap),
        ),
{
}

} // verus!
