//! What is said of a scenario once it ran, and what it fails for.

use vstd::prelude::*;
use vstd::string::*;

use crate::num::capped;
use crate::report::{
    no_counts, nothing, zero_snap, Finding, Overlay, ScenarioReport, Sla, SnapCounts,
};
use crate::scenarios::{healthy_sla, Scene, ALL_DARK_SECS};
use crate::text::{
    bool_text, decimal, digit, join, joined, push_bool, push_decimal, push_line, push_text,
    sort_texts, text, texts_sorted, views,
};
use crate::workload::{law_one_percentile, percentile_of, rtts_of, PingSample, WorkloadStats};

verus! {

/// Above this the traffic is not on the fast class, in microseconds.
pub const FAST_CLASS_US: u64 = 35_000;

/// Streams that the table may hold beyond the live ones.
pub const HELD_SLACK: u64 = 2;

/// Moves of closed streams that are too many.
pub const FLAP_MOVES: u64 = 8;

// ---------------------------------------------------------------------------
// Reports
// ---------------------------------------------------------------------------
/// A report without notes.
pub open spec fn fresh_report(
    r: ScenarioReport,
    name: Seq<char>,
    stats: WorkloadStats,
    snap: SnapCounts,
    overlay: Overlay,
    sla: Sla,
    gap_ms: Option<u64>,
) -> bool {
    &&& r.name@ == name
    &&& r.stats == stats
    &&& r.snap == snap
    &&& r.overlay == overlay
    &&& r.sla == sla
    &&& r.failover_observed_ms == gap_ms
    &&& r.notes@.len() == 0
}

/// The report of a scenario.
pub fn finish(
    scene: Scene,
    stats: WorkloadStats,
    snap: SnapCounts,
    overlay: Overlay,
    gap_ms: Option<u64>,
) -> (r: ScenarioReport)
    ensures
        fresh_report(r, scene.name_text(), stats, snap, overlay, scene.sla_of(), gap_ms),
{
    ScenarioReport {
        name: scene.name(),
        stats,
        snap,
        overlay,
        sla: scene.sla(),
        failover_observed_ms: gap_ms,
        notes: Vec::new(),
    }
}

/// The report of a scenario that did not run to its end.
pub fn error_report(name: &str, err: &str) -> (r: ScenarioReport)
    ensures
        r.name@ == name@ + " (error)"@,
        r.stats.is_new(),
        r.snap == zero_snap(),
        r.overlay.is_none(),
        r.sla == healthy_sla(1),
        r.failover_observed_ms is None,
        views(r.notes@) == seq![err@],
{
    let mut full: String = text(name);
    push_text(&mut full, " (error)");
    let mut notes: Vec<String> = Vec::new();
    push_line(&mut notes, text(err));
    assert(views(notes@) =~= seq![err@]);
    ScenarioReport {
        name: full,
        stats: WorkloadStats::new(),
        snap: no_counts(),
        overlay: Overlay::none(),
        sla: Sla::healthy(1),
        failover_observed_ms: None,
        notes,
    }
}

/// Join what was measured to what was measured before.
pub fn merge_stats(into: &mut WorkloadStats, add: &WorkloadStats)
    ensures
        final(into).samples@ == old(into).samples@ + add.samples@,
        final(into).timeouts == capped(old(into).timeouts + add.timeouts),
        final(into).io_errors == capped(old(into).io_errors + add.io_errors),
        final(into).bytes_ok == capped(old(into).bytes_ok + add.bytes_ok),
        final(into).disconnect == (old(into).disconnect || add.disconnect),
{
    into.merge(add);
}

impl WorkloadStats {
    /// The median, or what is taken where nothing was answered.
    pub open spec fn median(self, otherwise: u64) -> u64 {
        match percentile_of(rtts_of(self.samples@), 50) {
            Some(us) => us,
            None => otherwise,
        }
    }

    pub fn p50_or(&self, otherwise: u64) -> (us: u64)
        ensures
            us == self.median(otherwise),
    {
        let p: Option<u64> = self.percentile_us(50);
        proof {
            law_one_percentile(rtts_of(self.samples@), 50, p);
        }
        match p {
            Some(us) => us,
            None => otherwise,
        }
    }

    /// A first byte came back after `rtt`, or never.
    pub fn note_first_byte(&mut self, at: u64, rtt: Option<u64>, len: u64)
        ensures
            final(self).samples@ == old(self).samples@.push(PingSample { at, rtt }),
            final(self).timeouts == if rtt is None {
                capped(old(self).timeouts + 1)
            } else {
                old(self).timeouts as int
            },
            final(self).bytes_ok == if rtt is Some {
                capped(old(self).bytes_ok + len)
            } else {
                old(self).bytes_ok as int
            },
            final(self).io_errors == old(self).io_errors,
            final(self).disconnect == old(self).disconnect,
    {
        match rtt {
            Some(_) => {
                self.bytes_ok = self.bytes_ok.saturating_add(len);
            },
            None => {
                self.timeouts = self.timeouts.saturating_add(1);
            },
        }
        self.samples.push(PingSample { at, rtt });
    }
}

/// One note; the scenario fails for `reason` where `bad`.
pub open spec fn said(note: Seq<char>, bad: bool, reason: Seq<char>) -> Finding {
    Finding {
        notes: if bad {
            seq![note, reason]
        } else {
            seq![note]
        },
        fail: bad,
    }
}

/// One note; the scenario fails without a word where `bad`.
pub open spec fn said_only(note: Seq<char>, bad: bool) -> Finding {
    Finding { notes: seq![note], fail: bad }
}

fn say(r: &mut ScenarioReport, note: String, bad: bool, reason: &str)
    ensures
        old(r).with(said(note@, bad, reason@), *final(r)),
{
    let ghost o = views(r.notes@);
    let ghost n = note@;
    push_line(&mut r.notes, note);
    if bad {
        push_line(&mut r.notes, text(reason));
        r.sla.force_fail();
    }
    assert(views(r.notes@) =~= o + said(n, bad, reason@).notes);
}

fn say_only(r: &mut ScenarioReport, note: String, bad: bool)
    ensures
        old(r).with(said_only(note@, bad), *final(r)),
{
    let ghost o = views(r.notes@);
    let ghost n = note@;
    push_line(&mut r.notes, note);
    if bad {
        r.sla.force_fail();
    }
    assert(views(r.notes@) =~= o + said_only(n, bad).notes);
}

// ---------------------------------------------------------------------------
// Every link dark
// ---------------------------------------------------------------------------
pub open spec fn dark_note(secs: u64, during: WorkloadStats) -> Seq<char> {
    if secs < ALL_DARK_SECS {
        "during_hole timeouts="@ + decimal(during.timeouts as int) + " survive="@ + bool_text(
            !during.disconnect,
        )
    } else {
        "RST after all-down timeout is expected"@
    }
}

/// Every link was dark for `secs` seconds. What counts is what came after;
/// the connection must have lived through the dark as well.
pub fn judge_all_dark(r: &mut ScenarioReport, secs: u64, during: &WorkloadStats)
    ensures
        final(r).stats.disconnect == (old(r).stats.disconnect || during.disconnect),
        views(final(r).notes@) == views(old(r).notes@).push(dark_note(secs, *during)),
        *final(r) == (ScenarioReport {
            notes: final(r).notes,
            stats: WorkloadStats {
                disconnect: final(r).stats.disconnect,
                ..old(r).stats
            },
            ..*old(r)
        }),
{
    if during.disconnect {
        r.stats.disconnect = true;
    }
    let note: String = if secs < ALL_DARK_SECS {
        let mut s: String = text("during_hole timeouts=");
        push_decimal(&mut s, during.timeouts);
        push_text(&mut s, " survive=");
        push_bool(&mut s, !during.disconnect);
        s
    } else {
        text("RST after all-down timeout is expected")
    };
    push_line(&mut r.notes, note);
}

// ---------------------------------------------------------------------------
// Failback
// ---------------------------------------------------------------------------
/// What took the fast links away.
#[derive(Clone, Copy, Debug, PartialEq, Eq, Structural)]
pub enum Away {
    /// A blackhole; the median before it.
    Blackhole(u64),
    Spike,
    Shift,
}

pub open spec fn failback_note(away: Away, mid: u64, after: u64, failbacks: u64) -> Seq<char> {
    (match away {
        Away::Blackhole(warm) => "p50_warm="@ + decimal(warm as int) + "us p50_backup="@,
        Away::Spike => "p50_backup="@,
        Away::Shift => "p50_shifted="@,
    }) + decimal(mid as int) + "us p50_after="@ + decimal(after as int) + "us failbacks="@
        + decimal(failbacks as int)
}

pub open spec fn failback_verdict(away: Away, mid: u64, after: u64, failbacks: u64) -> Finding {
    said(
        failback_note(away, mid, after, failbacks),
        after > FAST_CLASS_US,
        "FAILBACK_INCOMPLETE: still on high-rtt path"@,
    )
}

/// The fast links went away and came back: the traffic must be back on them.
pub fn judge_failback(r: &mut ScenarioReport, away: Away, mid: u64, after: u64)
    ensures
        old(r).with(failback_verdict(away, mid, after, old(r).snap.failbacks), *final(r)),
{
    let mut s: String = match away {
        Away::Blackhole(warm) => {
            let mut s: String = text("p50_warm=");
            push_decimal(&mut s, warm);
            push_text(&mut s, "us p50_backup=");
            s
        },
        Away::Spike => text("p50_backup="),
        Away::Shift => text("p50_shifted="),
    };
    push_decimal(&mut s, mid);
    push_text(&mut s, "us p50_after=");
    push_decimal(&mut s, after);
    push_text(&mut s, "us failbacks=");
    push_decimal(&mut s, r.snap.failbacks);
    say(r, s, after > FAST_CLASS_US, "FAILBACK_INCOMPLETE: still on high-rtt path");
}

pub open spec fn offline_verdict(after: u64, snap: SnapCounts) -> Finding {
    said(
        "p50_after="@ + decimal(after as int) + "us path_down="@ + decimal(snap.path_down as int)
            + " migrates="@ + decimal(snap.migrates as int),
        after > FAST_CLASS_US,
        "stayed on backup after other fast paths were up"@,
    )
}

/// One fast link was reset: the others must keep the traffic.
pub fn judge_offline(r: &mut ScenarioReport, after: u64)
    ensures
        old(r).with(offline_verdict(after, old(r).snap), *final(r)),
{
    let mut s: String = text("p50_after=");
    push_decimal(&mut s, after);
    push_text(&mut s, "us path_down=");
    push_decimal(&mut s, r.snap.path_down);
    push_text(&mut s, " migrates=");
    push_decimal(&mut s, r.snap.migrates);
    say(r, s, after > FAST_CLASS_US, "stayed on backup after other fast paths were up");
}

pub open spec fn ip_loss_verdict(drops: u64, retrans: u64) -> Finding {
    said(
        "wan_drops="@ + decimal(drops as int) + " wan_retrans="@ + decimal(retrans as int),
        drops > 0 && retrans == 0,
        "no WAN retransmit observed"@,
    )
}

/// Packets were lost: they must have been sent again.
pub fn judge_ip_loss(r: &mut ScenarioReport, drops: u64, retrans: u64)
    ensures
        old(r).with(ip_loss_verdict(drops, retrans), *final(r)),
{
    let mut s: String = text("wan_drops=");
    push_decimal(&mut s, drops);
    push_text(&mut s, " wan_retrans=");
    push_decimal(&mut s, retrans);
    say(r, s, drops > 0 && retrans == 0, "no WAN retransmit observed");
}

// ---------------------------------------------------------------------------
// Several connections on one link
// ---------------------------------------------------------------------------
pub open spec fn multi_conn_verdict(alive: u64, conns: u64) -> Finding {
    said(
        "alive_paths="@ + decimal(alive as int) + " impair_conns="@ + decimal(conns as int),
        alive < 3,
        "expected 3 overlay TCP connections on the link"@,
    )
}

pub fn judge_multi_conn(r: &mut ScenarioReport, alive: u64, conns: u64)
    ensures
        old(r).with(multi_conn_verdict(alive, conns), *final(r)),
{
    let mut s: String = text("alive_paths=");
    push_decimal(&mut s, alive);
    push_text(&mut s, " impair_conns=");
    push_decimal(&mut s, conns);
    say(r, s, alive < 3, "expected 3 overlay TCP connections on the link");
}

pub open spec fn conn_hole_note(p50: u64, snap: SnapCounts, alive: u64) -> Seq<char> {
    "p50="@ + decimal(p50 as int) + "us migrates="@ + decimal(snap.migrates as int) + " drops="@
        + decimal(snap.frame_send_drop as int) + " paths="@ + decimal(alive as int)
}

pub fn note_conn_hole(r: &mut ScenarioReport, alive: u64)
    ensures
        old(r).with(
            said_only(conn_hole_note(old(r).stats.median(u64::MAX), old(r).snap, alive), false),
            *final(r),
        ),
{
    let mut s: String = text("p50=");
    push_decimal(&mut s, r.stats.p50_or(u64::MAX));
    push_text(&mut s, "us migrates=");
    push_decimal(&mut s, r.snap.migrates);
    push_text(&mut s, " drops=");
    push_decimal(&mut s, r.snap.frame_send_drop);
    push_text(&mut s, " paths=");
    push_decimal(&mut s, alive);
    say_only(r, s, false);
}

pub open spec fn conn_stall_note(snap: SnapCounts, alive: u64) -> Seq<char> {
    "migrates="@ + decimal(snap.migrates as int) + " send_drops="@ + decimal(
        snap.frame_send_drop as int,
    ) + " alive="@ + decimal(alive as int)
}

pub fn note_conn_stall(r: &mut ScenarioReport, alive: u64)
    ensures
        old(r).with(said_only(conn_stall_note(old(r).snap, alive), false), *final(r)),
{
    let mut s: String = text("migrates=");
    push_decimal(&mut s, r.snap.migrates);
    push_text(&mut s, " send_drops=");
    push_decimal(&mut s, r.snap.frame_send_drop);
    push_text(&mut s, " alive=");
    push_decimal(&mut s, alive);
    say_only(r, s, false);
}

pub open spec fn conn_churn_note(snap: SnapCounts) -> Seq<char> {
    "path_down="@ + decimal(snap.path_down as int) + " path_added="@ + decimal(
        snap.path_added as int,
    ) + " resets="@ + decimal(snap.stream_resets as int)
}

pub fn note_conn_churn(r: &mut ScenarioReport)
    ensures
        old(r).with(said_only(conn_churn_note(old(r).snap), false), *final(r)),
{
    let mut s: String = text("path_down=");
    push_decimal(&mut s, r.snap.path_down);
    push_text(&mut s, " path_added=");
    push_decimal(&mut s, r.snap.path_added);
    push_text(&mut s, " resets=");
    push_decimal(&mut s, r.snap.stream_resets);
    say_only(r, s, false);
}

// ---------------------------------------------------------------------------
// First bytes
// ---------------------------------------------------------------------------
/// The last `d` digits of `f`.
pub open spec fn padded(f: int, d: int) -> Seq<char>
    decreases d,
{
    if d <= 0 {
        seq![]
    } else {
        padded(f / 10, d - 1).push(digit(f % 10))
    }
}

/// `f` as `d` decimals, without zeros at the end.
pub open spec fn decimals(f: int, d: int) -> Seq<char>
    decreases d,
{
    if d <= 0 || f == 0 {
        seq![]
    } else if f % 10 == 0 {
        decimals(f / 10, d - 1)
    } else {
        padded(f, d)
    }
}

pub open spec fn mixed_number(whole: int, f: int, d: int) -> Seq<char> {
    if f == 0 {
        decimal(whole)
    } else {
        decimal(whole) + "."@ + decimals(f, d)
    }
}

/// A span of time in the largest unit that it fills.
pub open spec fn span_text(us: u64) -> Seq<char> {
    if us == 0 {
        "0ns"@
    } else if us < 1000 {
        decimal(us as int) + "µs"@
    } else if us < 1_000_000 {
        mixed_number(us as int / 1000, us as int % 1000, 3) + "ms"@
    } else {
        mixed_number(us as int / 1_000_000, us as int % 1_000_000, 6) + "s"@
    }
}

fn push_padded(s: &mut String, f: u64, d: u64)
    ensures
        final(s)@ == old(s)@ + padded(f as int, d as int),
    decreases d,
{
    let ghost s0 = s@;
    if d == 0 {
        assert(s@ =~= s0 + padded(f as int, 0));
        return;
    }
    push_padded(s, f / 10, d - 1);
    push_decimal(s, f % 10);
    proof {
        assert(decimal(f as int % 10) =~= seq![digit(f as int % 10)]);
        assert(s@ =~= s0 + padded(f as int, d as int));
    }
}

fn push_mixed(s: &mut String, whole: u64, f: u64, d: u64)
    ensures
        final(s)@ == old(s)@ + mixed_number(whole as int, f as int, d as int),
{
    let ghost s0 = s@;
    push_decimal(s, whole);
    if f == 0 {
        return;
    }
    push_text(s, ".");
    let ghost mid = s@;
    let mut g: u64 = f;
    let mut n: u64 = d;
    while n > 0 && g % 10 == 0
        invariant
            decimals(f as int, d as int) == decimals(g as int, n as int),
            g > 0,
        decreases n,
    {
        g = g / 10;
        n = n - 1;
    }
    push_padded(s, g, n);
    proof {
        if n == 0 {
            assert(padded(g as int, 0) =~= seq![]);
        }
        assert(s@ =~= mid + decimals(f as int, d as int));
        assert(s@ =~= s0 + mixed_number(whole as int, f as int, d as int));
    }
}

pub fn show_span(us: u64) -> (s: String)
    ensures
        s@ == span_text(us),
{
    if us == 0 {
        return text("0ns");
    }
    let mut s: String = String::new();
    if us < 1000 {
        push_decimal(&mut s, us);
        assert(s@ =~= decimal(us as int));
        push_text(&mut s, "µs");
    } else if us < 1_000_000 {
        push_mixed(&mut s, us / 1000, us % 1000, 3);
        assert(s@ =~= mixed_number(us as int / 1000, us as int % 1000, 3));
        push_text(&mut s, "ms");
    } else {
        push_mixed(&mut s, us / 1_000_000, us % 1_000_000, 6);
        assert(s@ =~= mixed_number(us as int / 1_000_000, us as int % 1_000_000, 6));
        push_text(&mut s, "s");
    }
    s
}

pub open spec fn prod_note(baseline_us: u64, snap: SnapCounts, alive: u64) -> Seq<char> {
    "baseline="@ + span_text(baseline_us) + " hedge="@ + decimal(snap.data_hedge as int) + " rtx="@
        + decimal(snap.data_retransmit as int) + " alive="@ + decimal(alive as int)
}

/// The best first byte before the fault, and what was sent again.
pub fn note_prod_like(r: &mut ScenarioReport, baseline_us: u64, alive: u64)
    ensures
        old(r).with(said_only(prod_note(baseline_us, old(r).snap, alive), false), *final(r)),
{
    let mut s: String = text("baseline=");
    push_text(&mut s, show_span(baseline_us).as_str());
    push_text(&mut s, " hedge=");
    push_decimal(&mut s, r.snap.data_hedge);
    push_text(&mut s, " rtx=");
    push_decimal(&mut s, r.snap.data_retransmit);
    push_text(&mut s, " alive=");
    push_decimal(&mut s, alive);
    say_only(r, s, false);
}

/// A session that reset its streams, or let more than two of them time out.
pub open spec fn unclean(snap: SnapCounts) -> bool {
    snap.session_all_down_resets != 0 || snap.stream_resets_timeout > 2
}

pub open spec fn hygiene_verdict(snap: SnapCounts) -> Finding {
    if unclean(snap) {
        Finding {
            notes: seq![
                "hygiene all_down="@ + decimal(snap.session_all_down_resets as int) + " timeout="@
                    + decimal(snap.stream_resets_timeout as int),
            ],
            fail: true,
        }
    } else {
        nothing()
    }
}

pub fn judge_hygiene(r: &mut ScenarioReport)
    ensures
        old(r).with(hygiene_verdict(old(r).snap), *final(r)),
{
    let ghost o = views(r.notes@);
    if r.snap.session_all_down_resets != 0 || r.snap.stream_resets_timeout > 2 {
        r.sla.force_fail();
        let mut s: String = text("hygiene all_down=");
        push_decimal(&mut s, r.snap.session_all_down_resets);
        push_text(&mut s, " timeout=");
        push_decimal(&mut s, r.snap.stream_resets_timeout);
        push_line(&mut r.notes, s);
    }
    assert(views(r.notes@) =~= o + hygiene_verdict(r.snap).notes);
}

/// Two of three providers dark: no stream may have been reset for it.
pub fn judge_two_isp(r: &mut ScenarioReport)
    ensures
        old(r).with(
            Finding { notes: seq![], fail: old(r).snap.session_all_down_resets != 0 },
            *final(r),
        ),
{
    if r.snap.session_all_down_resets != 0 {
        r.sla.force_fail();
    }
    assert(views(r.notes@) =~= views(old(r).notes@) + seq![]);
}

/// A probe that stands for the whole workload: answered after `rtt`, or not.
pub fn single_probe(at: u64, rtt: Option<u64>) -> (s: WorkloadStats)
    ensures
        s.samples@ == seq![PingSample { at, rtt }],
        s.timeouts == if rtt is None {
            1int
        } else {
            0
        },
        s.bytes_ok == if rtt is Some {
            1int
        } else {
            0
        },
        s.io_errors == 0,
        !s.disconnect,
{
    let mut s: WorkloadStats = WorkloadStats::new();
    s.note_first_byte(at, rtt, 1);
    assert(s.samples@ =~= seq![PingSample { at, rtt }]);
    s
}

/// Streams that timed out since `before`.
pub open spec fn timed_out(snap: SnapCounts, before: u64) -> int {
    if snap.stream_resets_timeout > before {
        snap.stream_resets_timeout - before
    } else {
        0
    }
}

pub open spec fn close_verdict(eof: bool, snap: SnapCounts, before: u64) -> Finding {
    said_only(
        "eof="@ + bool_text(eof) + " close_retry="@ + decimal(snap.close_retry as int)
            + " timeout_delta="@ + decimal(timed_out(snap, before)) + " all_down="@ + decimal(
            snap.session_all_down_resets as int,
        ),
        timed_out(snap, before) != 0 || snap.session_all_down_resets != 0,
    )
}

/// A close went into silent connections: it must still arrive, and no stream
/// may have timed out for it.
pub fn judge_close(r: &mut ScenarioReport, eof: bool, snap: &SnapCounts, timeouts_before: u64)
    ensures
        old(r).with(close_verdict(eof, *snap, timeouts_before), *final(r)),
{
    let delta: u64 = snap.stream_resets_timeout.saturating_sub(timeouts_before);
    let mut s: String = text("eof=");
    push_bool(&mut s, eof);
    push_text(&mut s, " close_retry=");
    push_decimal(&mut s, snap.close_retry);
    push_text(&mut s, " timeout_delta=");
    push_decimal(&mut s, delta);
    push_text(&mut s, " all_down=");
    push_decimal(&mut s, snap.session_all_down_resets);
    say_only(r, s, delta != 0 || snap.session_all_down_resets != 0);
}

pub open spec fn all_path_verdict(during: SnapCounts, recovered: bool) -> Finding {
    said_only(
        "during_all_down="@ + decimal(during.session_all_down_resets as int) + " corr="@ + decimal(
            during.correlated_silence as int,
        ) + " recovered="@ + bool_text(recovered),
        during.session_all_down_resets != 0,
    )
}

/// Every path was dark for a while: no stream may have been reset for it.
pub fn judge_all_path(r: &mut ScenarioReport, during: &SnapCounts, recovered: bool)
    ensures
        old(r).with(all_path_verdict(*during, recovered), *final(r)),
{
    let mut s: String = text("during_all_down=");
    push_decimal(&mut s, during.session_all_down_resets);
    push_text(&mut s, " corr=");
    push_decimal(&mut s, during.correlated_silence);
    push_text(&mut s, " recovered=");
    push_bool(&mut s, recovered);
    say_only(r, s, during.session_all_down_resets != 0);
}

// ---------------------------------------------------------------------------
// Many streams
// ---------------------------------------------------------------------------
pub open spec fn slow_consumer_note(snap: SnapCounts, alive: u64) -> Seq<char> {
    "resets="@ + decimal(snap.stream_resets as int) + " alive="@ + decimal(alive as int)
}

pub fn note_slow_consumer(r: &mut ScenarioReport, alive: u64)
    ensures
        old(r).with(said_only(slow_consumer_note(old(r).snap, alive), false), *final(r)),
{
    let mut s: String = text("resets=");
    push_decimal(&mut s, r.snap.stream_resets);
    push_text(&mut s, " alive=");
    push_decimal(&mut s, alive);
    say_only(r, s, false);
}

pub open spec fn many_streams_verdict(failed: u64, snap: SnapCounts, alive: u64) -> Finding {
    said(
        "join_fail="@ + decimal(failed as int) + " resets="@ + decimal(snap.stream_resets as int)
            + " paths="@ + decimal(alive as int),
        failed > 0,
        "a ping task panicked"@,
    )
}

pub fn judge_many_streams(r: &mut ScenarioReport, failed: u64, alive: u64)
    ensures
        old(r).with(many_streams_verdict(failed, old(r).snap, alive), *final(r)),
{
    let mut s: String = text("join_fail=");
    push_decimal(&mut s, failed);
    push_text(&mut s, " resets=");
    push_decimal(&mut s, r.snap.stream_resets);
    push_text(&mut s, " paths=");
    push_decimal(&mut s, alive);
    say(r, s, failed > 0, "a ping task panicked");
}

pub open spec fn bulk_verdict(ok: bool) -> Finding {
    said("bulk_ok="@ + bool_text(ok), !ok, "bulk transfer corrupted or failed"@)
}

pub fn judge_bulk(r: &mut ScenarioReport, ok: bool)
    ensures
        old(r).with(bulk_verdict(ok), *final(r)),
{
    let mut s: String = text("bulk_ok=");
    push_bool(&mut s, ok);
    say(r, s, !ok, "bulk transfer corrupted or failed");
}

pub open spec fn spike_note(before: SnapCounts, now: SnapCounts, after_p50: u64) -> Seq<char> {
    "path_down "@ + decimal(before.path_down as int) + "→"@ + decimal(now.path_down as int)
        + " path_added "@ + decimal(before.path_added as int) + "→"@ + decimal(
        now.path_added as int,
    ) + " p50_after="@ + decimal(after_p50 as int) + "us"@
}

pub open spec fn tore(before: SnapCounts, now: SnapCounts) -> bool {
    now.path_down > before.path_down || now.path_added > before.path_added
}

pub open spec fn spike_verdict(before: SnapCounts, now: SnapCounts, after_p50: u64) -> Finding {
    said(
        spike_note(before, now, after_p50),
        tore(before, now),
        "delay spike tore TCP (path_down/path_added grew)"@,
    ).and(
        if after_p50 as int / 1000 > 40 {
            Finding { notes: seq!["p50 after spike left 12ms class"@], fail: true }
        } else {
            nothing()
        },
    )
}

/// A delay spike must move the traffic, not tear connections down.
pub fn judge_spike(
    r: &mut ScenarioReport,
    before: &SnapCounts,
    now: &SnapCounts,
    after_p50: u64,
)
    ensures
        old(r).with(spike_verdict(*before, *now, after_p50), *final(r)),
{
    let ghost o = views(r.notes@);
    let mut s: String = text("path_down ");
    push_decimal(&mut s, before.path_down);
    push_text(&mut s, "→");
    push_decimal(&mut s, now.path_down);
    push_text(&mut s, " path_added ");
    push_decimal(&mut s, before.path_added);
    push_text(&mut s, "→");
    push_decimal(&mut s, now.path_added);
    push_text(&mut s, " p50_after=");
    push_decimal(&mut s, after_p50);
    push_text(&mut s, "us");
    let bad: bool = now.path_down > before.path_down || now.path_added > before.path_added;
    say(r, s, bad, "delay spike tore TCP (path_down/path_added grew)");
    if after_p50 / 1000 > 40 {
        push_line(&mut r.notes, text("p50 after spike left 12ms class"));
        r.sla.force_fail();
    }
    assert(views(r.notes@) =~= o + spike_verdict(*before, *now, after_p50).notes);
}

// ---------------------------------------------------------------------------
// Streams by link
// ---------------------------------------------------------------------------
/// What stands before the last `#`; all of it where there is none.
pub open spec fn key_of(name: Seq<char>) -> Seq<char>
    decreases name.len(),
{
    if !name.contains('#') {
        name
    } else if name.last() == '#' {
        name.drop_last()
    } else {
        key_of(name.drop_last())
    }
}

proof fn lemma_key_at(name: Seq<char>, i: int)
    requires
        0 <= i < name.len(),
        name[i] == '#',
        forall|k: int| i < k < name.len() ==> name[k] != '#',
    ensures
        key_of(name) == name.take(i),
    decreases name.len(),
{
    assert(name.contains('#'));
    if i == name.len() - 1 {
        assert(name.drop_last() =~= name.take(i));
    } else {
        assert(name.drop_last()[i] == '#');
        lemma_key_at(name.drop_last(), i);
        assert(name.drop_last().take(i) =~= name.take(i));
    }
}

/// The name of the link that a path belongs to.
pub fn link_key(name: &str) -> (key: &str)
    ensures
        key@ == key_of(name@),
{
    let n: usize = name.unicode_len();
    let mut i: usize = n;
    while i > 0
        invariant
            i <= n,
            n == name@.len(),
            forall|k: int| i <= k < n ==> name@[k] != '#',
        decreases i,
    {
        i -= 1;
        if name.get_char(i) == '#' {
            proof {
                lemma_key_at(name@, i as int);
            }
            let key: &str = name.substring_char(0, i);
            assert(key@ =~= name@.take(i as int));
            return key;
        }
    }
    name
}

/// A path and the streams that stick to it.
pub struct PathLoad {
    pub name: String,
    pub sticky: u64,
}

/// The links of these paths, path by path.
pub open spec fn keys_of(paths: Seq<PathLoad>) -> Seq<Seq<char>> {
    paths.map_values(|p: PathLoad| key_of(p.name@))
}

/// The streams on a link.
pub open spec fn load_of(paths: Seq<PathLoad>, key: Seq<char>) -> int
    decreases paths.len(),
{
    if paths.len() == 0 {
        0
    } else {
        load_of(paths.drop_last(), key) + if key_of(paths.last().name@) == key {
            paths.last().sticky as int
        } else {
            0
        }
    }
}

/// A sorted list without repetitions.
pub open spec fn distinct(keys: Seq<Seq<char>>) -> Seq<Seq<char>>
    decreases keys.len(),
{
    if keys.len() == 0 {
        seq![]
    } else {
        let before = distinct(keys.drop_last());
        if keys.len() >= 2 && keys[keys.len() - 2] == keys.last() {
            before
        } else {
            before.push(keys.last())
        }
    }
}

/// The links among these that carry streams, with how many.
pub open spec fn used_links(keys: Seq<Seq<char>>, paths: Seq<PathLoad>) -> Seq<Seq<char>>
    decreases keys.len(),
{
    if keys.len() == 0 {
        seq![]
    } else {
        let before = used_links(keys.drop_last(), paths);
        let n = capped(load_of(paths, keys.last()));
        if n > 0 {
            before.push(keys.last() + "="@ + decimal(n))
        } else {
            before
        }
    }
}

/// `keys` are the links of these paths, each once, in order.
pub open spec fn lists_links(paths: Seq<PathLoad>, keys: Seq<Seq<char>>) -> bool {
    exists|sorted: Seq<Seq<char>>| #[trigger]
        texts_sorted(sorted) && sorted.to_multiset() == keys_of(paths).to_multiset() && keys
            == distinct(sorted)
}

pub open spec fn mix_verdict(used: Seq<Seq<char>>, path_down: u64) -> Finding {
    said(
        "sticky_by_link "@ + joined(used, " "@),
        path_down != 0,
        "unexpected path_down on quiet mix"@,
    ).and(
        if used.len() < 2 {
            Finding { notes: seq!["stickies did not mix across named links"@], fail: true }
        } else {
            nothing()
        },
    )
}

fn load_on(paths: &Vec<PathLoad>, key: &str) -> (n: u64)
    ensures
        n == capped(load_of(paths@, key@)),
{
    let mut n: u64 = 0;
    let mut i: usize = 0;
    assert(paths@.take(0) =~= seq![]);
    while i < paths.len()
        invariant
            i <= paths@.len(),
            n == capped(load_of(paths@.take(i as int), key@)),
            load_of(paths@.take(i as int), key@) >= 0,
        decreases paths.len() - i,
    {
        assert(paths@.take(i as int + 1).drop_last() =~= paths@.take(i as int));
        if crate::text::str_eq(link_key(paths[i].name.as_str()), key) {
            n = n.saturating_add(paths[i].sticky);
        }
        i += 1;
    }
    assert(paths@.take(paths@.len() as int) =~= paths@);
    n
}

fn sorted_keys(paths: &Vec<PathLoad>) -> (v: Vec<String>)
    ensures
        lists_links(paths@, views(v@)),
{
    let ghost all = keys_of(paths@);
    let mut keys: Vec<String> = Vec::new();
    let mut i: usize = 0;
    assert(views(keys@) =~= all.take(0));
    while i < paths.len()
        invariant
            i <= paths@.len(),
            all == keys_of(paths@),
            views(keys@) == all.take(i as int),
        decreases paths.len() - i,
    {
        push_line(&mut keys, text(link_key(paths[i].name.as_str())));
        assert(views(keys@) =~= all.take(i as int + 1));
        i += 1;
    }
    assert(all.take(all.len() as int) =~= all);
    let keys: Vec<String> = sort_texts(keys);
    let ghost kv = views(keys@);
    let mut v: Vec<String> = Vec::new();
    let mut k: usize = 0;
    assert(kv.take(0) =~= seq![]);
    assert(views(v@) =~= seq![]);
    while k < keys.len()
        invariant
            k <= keys@.len(),
            kv == views(keys@),
            views(v@) == distinct(kv.take(k as int)),
        decreases keys.len() - k,
    {
        proof {
            assert(kv.take(k as int + 1).drop_last() =~= kv.take(k as int));
            assert(kv[k as int] == keys@[k as int]@);
        }
        let again: bool = k > 0 && crate::text::str_eq(keys[k - 1].as_str(), keys[k].as_str());
        if !again {
            push_line(&mut v, text(keys[k].as_str()));
        }
        k += 1;
    }
    assert(kv.take(kv.len() as int) =~= kv);
    assert(texts_sorted(kv));
    v
}

/// Streams on links of one class must spread over more than one of them, and
/// no path may have gone down.
pub fn judge_mix(r: &mut ScenarioReport, paths: &Vec<PathLoad>, path_down: u64)
    ensures
        exists|keys: Seq<Seq<char>>| #[trigger]
            lists_links(paths@, keys) && old(r).with(
                mix_verdict(used_links(keys, paths@), path_down),
                *final(r),
            ),
{
    let ghost o = views(r.notes@);
    let keys: Vec<String> = sorted_keys(paths);
    let ghost kv = views(keys@);
    let mut used: Vec<String> = Vec::new();
    let mut i: usize = 0;
    assert(kv.take(0) =~= seq![]);
    assert(views(used@) =~= seq![]);
    while i < keys.len()
        invariant
            i <= keys@.len(),
            kv == views(keys@),
            views(used@) == used_links(kv.take(i as int), paths@),
        decreases keys.len() - i,
    {
        assert(kv.take(i as int + 1).drop_last() =~= kv.take(i as int));
        assert(kv[i as int] == keys@[i as int]@);
        let n: u64 = load_on(paths, keys[i].as_str());
        if n > 0 {
            let mut s: String = text(keys[i].as_str());
            push_text(&mut s, "=");
            push_decimal(&mut s, n);
            push_line(&mut used, s);
        }
        i += 1;
    }
    assert(kv.take(kv.len() as int) =~= kv);
    let mut s: String = text("sticky_by_link ");
    push_text(&mut s, join(&used, " ").as_str());
    say(r, s, path_down != 0, "unexpected path_down on quiet mix");
    if used.len() < 2 {
        push_line(&mut r.notes, text("stickies did not mix across named links"));
        r.sla.force_fail();
    }
    assert(views(r.notes@) =~= o + mix_verdict(used_links(kv, paths@), path_down).notes);
}

// ---------------------------------------------------------------------------
// The stream table
// ---------------------------------------------------------------------------
pub open spec fn churn_note(n: u64, after: SnapCounts, moved: u64, io_fail: u64) -> Seq<char> {
    "churn="@ + decimal(n as int) + " io_fail="@ + decimal(io_fail as int) + " held="@ + decimal(
        after.streams_held as int,
    ) + " live="@ + decimal(after.streams_live as int) + " closed="@ + decimal(
        after.streams_closed as int,
    ) + " opened="@ + decimal(after.streams_opened as int) + " resets="@ + decimal(
        after.stream_resets as int,
    ) + " mig_on_flap="@ + decimal(moved as int)
}

pub open spec fn leaks(after: SnapCounts) -> bool {
    after.streams_held > after.streams_live + HELD_SLACK
}

pub open spec fn leak_finding(n: u64, after: SnapCounts) -> Finding {
    if leaks(after) {
        Finding {
            notes: seq![
                "stream table leak: held="@ + decimal(after.streams_held as int) + " live="@
                    + decimal(after.streams_live as int) + " after "@ + decimal(n as int)
                    + " short closes"@,
            ],
            fail: true,
        }
    } else {
        nothing()
    }
}

pub open spec fn storm_finding(moved: u64) -> Finding {
    if moved > FLAP_MOVES {
        Finding {
            notes: seq![
                "migrate storm on closed streams: "@ + decimal(moved as int) + " (limit 8)"@,
            ],
            fail: true,
        }
    } else {
        nothing()
    }
}

pub open spec fn io_finding(io_fail: u64, fail_on_io: bool) -> Finding {
    if fail_on_io && io_fail > 0 {
        Finding {
            notes: seq!["short-stream io failures: "@ + decimal(io_fail as int)],
            fail: true,
        }
    } else {
        nothing()
    }
}

pub open spec fn table_verdict(
    n: u64,
    after: SnapCounts,
    moved: u64,
    io_fail: u64,
    fail_on_io: bool,
) -> Finding {
    said_only(churn_note(n, after, moved, io_fail), false).and(leak_finding(n, after)).and(
        storm_finding(moved),
    ).and(io_finding(io_fail, fail_on_io))
}

fn show_churn(n: u64, after: &SnapCounts, moved: u64, io_fail: u64) -> (s: String)
    ensures
        s@ == churn_note(n, *after, moved, io_fail),
{
    let mut s: String = text("churn=");
    push_decimal(&mut s, n);
    push_text(&mut s, " io_fail=");
    push_decimal(&mut s, io_fail);
    push_text(&mut s, " held=");
    push_decimal(&mut s, after.streams_held);
    push_text(&mut s, " live=");
    push_decimal(&mut s, after.streams_live);
    push_text(&mut s, " closed=");
    push_decimal(&mut s, after.streams_closed);
    push_text(&mut s, " opened=");
    push_decimal(&mut s, after.streams_opened);
    push_text(&mut s, " resets=");
    push_decimal(&mut s, after.stream_resets);
    push_text(&mut s, " mig_on_flap=");
    push_decimal(&mut s, moved);
    s
}

fn add_finding(r: &mut ScenarioReport, bad: bool, note: String)
    ensures
        old(r).with(
            if bad {
                Finding { notes: seq![note@], fail: true }
            } else {
                nothing()
            },
            *final(r),
        ),
{
    let ghost o = views(r.notes@);
    let ghost n = note@;
    if bad {
        push_line(&mut r.notes, note);
        r.sla.force_fail();
        assert(views(r.notes@) =~= o + seq![n]);
    } else {
        assert(views(r.notes@) =~= o + nothing().notes);
    }
}

/// `n` short streams came and went: the table must be empty again, nothing
/// that was closed may have been moved, and every stream must have worked
/// where that is asked for.
pub fn apply_table_invariants(
    r: &mut ScenarioReport,
    n: u64,
    after: &SnapCounts,
    moved: u64,
    io_fail: u64,
    fail_on_io: bool,
)
    ensures
        old(r).with(table_verdict(n, *after, moved, io_fail, fail_on_io), *final(r)),
{
    let ghost o = views(r.notes@);
    say_only(r, show_churn(n, after, moved, io_fail), false);
    let mut leak: String = text("stream table leak: held=");
    push_decimal(&mut leak, after.streams_held);
    push_text(&mut leak, " live=");
    push_decimal(&mut leak, after.streams_live);
    push_text(&mut leak, " after ");
    push_decimal(&mut leak, n);
    push_text(&mut leak, " short closes");
    add_finding(
        r,
        after.streams_held > after.streams_live.saturating_add(HELD_SLACK),
        leak,
    );
    let mut storm: String = text("migrate storm on closed streams: ");
    push_decimal(&mut storm, moved);
    push_text(&mut storm, " (limit 8)");
    add_finding(r, moved > FLAP_MOVES, storm);
    let mut io: String = text("short-stream io failures: ");
    push_decimal(&mut io, io_fail);
    add_finding(r, fail_on_io && io_fail > 0, io);
    assert(views(r.notes@) =~= o + table_verdict(n, *after, moved, io_fail, fail_on_io).notes);
}

// ---------------------------------------------------------------------------
// Laws
// ---------------------------------------------------------------------------
/// A finding that a scenario fails for makes it fail, whatever was measured;
/// no finding makes it pass.
pub proof fn law_findings_only_hurt(r: ScenarioReport, f: Finding, r1: ScenarioReport)
    requires
        r.with(f, r1),
    ensures
        f.fail ==> !r1.passed(),
        !f.fail ==> r1.passed() == r.passed(),
{
    crate::workload::law_samples_are_answered_or_not(r.stats.samples@);
    let v = rtts_of(r.stats.samples@);
    if f.fail {
        crate::report::law_forced_failure_fails(
            r1.sla,
            r1.stats.disconnect,
            v.len(),
            r.stats.samples@.len(),
            percentile_of(v, 99),
            r1.failover_observed_ms,
        );
    }
}

/// A table that holds more streams than are live, beyond the slack, fails the
/// scenario.
pub proof fn law_leaks_fail(
    r: ScenarioReport,
    n: u64,
    after: SnapCounts,
    moved: u64,
    io_fail: u64,
    fail_on_io: bool,
    r1: ScenarioReport,
)
    requires
        r.with(table_verdict(n, after, moved, io_fail, fail_on_io), r1),
        leaks(after),
    ensures
        !r1.passed(),
{
    law_findings_only_hurt(r, table_verdict(n, after, moved, io_fail, fail_on_io), r1);
}

} // verus!
