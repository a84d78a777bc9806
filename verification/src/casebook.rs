//! The written account of a mixed-fault case, and its verdict.

use vstd::prelude::*;
use vstd::string::*;

use crate::actors::{
    event_views, missing_of, times, Board, EventView, FaultEvent,
};
use crate::faults::{all_kinds, Kind};
use crate::mixed::{link_views, CaseView, LinkSpec, LinkView, MixCase, Role};
use crate::num::{capped, mul_capped};
use crate::report::{
    dur_text, fmt_dur, fmt_mean, fmt_ms_us, mean_text, ms_text, no_counts, nothing, rate_of,
    rate_pm, Finding, Overlay, ScenarioReport, Sla, SnapCounts, zero_snap, NEVER,
};
use crate::double::{
    millionths, per_million, product, quotient, whole, whole_double, Dbl, Double,
};
use crate::text::{
    bool_text, decimal, decimal_of, join, joined, left_column, number_of, parse_number, push_bool,
    push_decimal, push_left, push_line, push_right, push_tenths, push_text, push_thousandths,
    right_column, sort_texts, stands_at, starts_with, str_eq, tenths, text, texts_sorted,
    thousandths, views,
};
use crate::workload::{
    latency_of, law_one_summary, ok_times, rtts_of, slice_of, widest_gap, Latency, PingSample,
    WorkloadStats,
};

verus! {

/// Length of a window of the account.
pub const WINDOW_US: u64 = 60_000_000;

// ---------------------------------------------------------------------------
// Latencies
// ---------------------------------------------------------------------------
/// The latencies of a workload in one line.
pub open spec fn lat_text(l: Latency) -> Seq<char> {
    "n="@ + decimal(l.n_ok as int) + "/"@ + decimal(l.n as int) + " ok="@ + thousandths(
        rate_pm(l.n_ok as nat, l.n as nat),
    ) + " min="@ + ms_text(l.p0) + " avg="@ + mean_text(l.mean) + " p50="@ + ms_text(l.p50)
        + " p90="@ + ms_text(l.p90) + " p95="@ + ms_text(l.p95) + " p99="@ + ms_text(l.p99)
        + " max="@ + ms_text(l.max)
}

pub fn lat_line(st: &WorkloadStats) -> (s: String)
    ensures
        s@ == lat_text(latency_of(st.samples@)),
{
    let l: Latency = st.latency();
    proof {
        law_one_summary(st.samples@, l);
    }
    let mut s: String = text("n=");
    push_decimal(&mut s, l.n_ok as u64);
    push_text(&mut s, "/");
    push_decimal(&mut s, l.n as u64);
    push_text(&mut s, " ok=");
    push_thousandths(&mut s, rate_of(l.n_ok, l.n));
    push_text(&mut s, " min=");
    push_text(&mut s, fmt_ms_us(l.p0).as_str());
    push_text(&mut s, " avg=");
    push_text(&mut s, fmt_mean(l.mean).as_str());
    push_text(&mut s, " p50=");
    push_text(&mut s, fmt_ms_us(l.p50).as_str());
    push_text(&mut s, " p90=");
    push_text(&mut s, fmt_ms_us(l.p90).as_str());
    push_text(&mut s, " p95=");
    push_text(&mut s, fmt_ms_us(l.p95).as_str());
    push_text(&mut s, " p99=");
    push_text(&mut s, fmt_ms_us(l.p99).as_str());
    push_text(&mut s, " max=");
    push_text(&mut s, fmt_ms_us(l.max).as_str());
    s
}

/// How many of these round trips lie in `lo .. hi` milliseconds.
pub open spec fn within_ms(v: Seq<u64>, lo: int, hi: int) -> nat
    decreases v.len(),
{
    if v.len() == 0 {
        0
    } else {
        within_ms(v.drop_last(), lo, hi) + if lo <= v.last() as int / 1000 < hi {
            1nat
        } else {
            0nat
        }
    }
}

/// Beyond every round trip.
pub open spec fn endless() -> int {
    u64::MAX as int + 1
}

/// The round trips by size.
pub open spec fn hist_text(v: Seq<u64>, timeouts: u64) -> Seq<char> {
    "<20="@ + decimal(within_ms(v, 0, 20) as int) + " 20-40="@ + decimal(
        within_ms(v, 20, 40) as int,
    ) + " 40-80="@ + decimal(within_ms(v, 40, 80) as int) + " 80-200="@ + decimal(
        within_ms(v, 80, 200) as int,
    ) + " 200-500="@ + decimal(within_ms(v, 200, 500) as int) + " 500-1000="@ + decimal(
        within_ms(v, 500, 1000) as int,
    ) + " 1000-2000="@ + decimal(within_ms(v, 1000, 2000) as int) + " ≥2000="@ + decimal(
        within_ms(v, 2000, endless()) as int,
    ) + " timeout="@ + decimal(timeouts as int)
}

fn count_within(v: &Vec<u64>, lo: u64, hi: u64) -> (n: u64)
    ensures
        n == within_ms(
            v@,
            lo as int,
            if hi == u64::MAX {
                endless()
            } else {
                hi as int
            },
        ),
{
    let ghost top = if hi == u64::MAX {
        endless()
    } else {
        hi as int
    };
    let mut n: u64 = 0;
    let mut i: usize = 0;
    assert(v@.take(0) =~= seq![]);
    while i < v.len()
        invariant
            i <= v@.len(),
            n == within_ms(v@.take(i as int), lo as int, top),
            n <= i,
            top == if hi == u64::MAX {
                endless()
            } else {
                hi as int
            },
        decreases v.len() - i,
    {
        assert(v@.take(i as int + 1).drop_last() =~= v@.take(i as int));
        let ms: u64 = v[i] / 1000;
        if lo <= ms && (hi == u64::MAX || ms < hi) {
            n += 1;
        }
        i += 1;
    }
    assert(v@.take(v@.len() as int) =~= v@);
    n
}

pub fn hist(stats: &WorkloadStats) -> (s: String)
    ensures
        s@ == hist_text(rtts_of(stats.samples@), stats.timeouts),
{
    let v: Vec<u64> = stats.rtts_us();
    let mut s: String = text("<20=");
    push_decimal(&mut s, count_within(&v, 0, 20));
    push_text(&mut s, " 20-40=");
    push_decimal(&mut s, count_within(&v, 20, 40));
    push_text(&mut s, " 40-80=");
    push_decimal(&mut s, count_within(&v, 40, 80));
    push_text(&mut s, " 80-200=");
    push_decimal(&mut s, count_within(&v, 80, 200));
    push_text(&mut s, " 200-500=");
    push_decimal(&mut s, count_within(&v, 200, 500));
    push_text(&mut s, " 500-1000=");
    push_decimal(&mut s, count_within(&v, 500, 1000));
    push_text(&mut s, " 1000-2000=");
    push_decimal(&mut s, count_within(&v, 1000, 2000));
    push_text(&mut s, " ≥2000=");
    push_decimal(&mut s, count_within(&v, 2000, u64::MAX));
    push_text(&mut s, " timeout=");
    push_decimal(&mut s, stats.timeouts);
    s
}

// ---------------------------------------------------------------------------
// Switches
// ---------------------------------------------------------------------------
/// A path as the account shows it.
pub struct PathBrief {
    pub name: String,
    pub rtt_us: u64,
    pub stable_rtt_us: u64,
    pub class_rtt_us: u64,
    pub alive: bool,
}

/// What moved between two looks at a session.
pub struct SwitchEvent {
    pub t_ms: u64,
    pub migrates: u64,
    pub failbacks: u64,
    pub failbacks_upgrade: u64,
    pub failbacks_class_empty: u64,
    pub hol_rebalances: u64,
    pub path_down: u64,
    pub path_added: u64,
    pub alive: u64,
    pub path_rtts: String,
}

pub open spec fn brief_text(p: PathBrief) -> Seq<char> {
    p.name@ + "="@ + decimal(p.rtt_us as int / 1000) + "/"@ + decimal(p.stable_rtt_us as int / 1000)
        + "/"@ + decimal(p.class_rtt_us as int / 1000) + "ms"@
}

fn show_brief(p: &PathBrief) -> (s: String)
    ensures
        s@ == brief_text(*p),
{
    let mut s: String = text(p.name.as_str());
    push_text(&mut s, "=");
    push_decimal(&mut s, p.rtt_us / 1000);
    push_text(&mut s, "/");
    push_decimal(&mut s, p.stable_rtt_us / 1000);
    push_text(&mut s, "/");
    push_decimal(&mut s, p.class_rtt_us / 1000);
    push_text(&mut s, "ms");
    s
}

pub open spec fn alive_count(paths: Seq<PathBrief>) -> nat
    decreases paths.len(),
{
    if paths.len() == 0 {
        0
    } else {
        alive_count(paths.drop_last()) + if paths.last().alive {
            1nat
        } else {
            0nat
        }
    }
}

/// How far a counter moved; zero where it fell.
pub open spec fn grown(now: u64, prev: u64) -> u64 {
    if now >= prev {
        (now - prev) as u64
    } else {
        0
    }
}

/// A counter of the switches moved.
pub open spec fn any_switch(prev: SnapCounts, now: SnapCounts) -> bool {
    now.migrates > prev.migrates || now.failbacks > prev.failbacks || now.path_down
        > prev.path_down || now.path_added > prev.path_added || now.hol_rebalances
        > prev.hol_rebalances
}

/// The paths as they stand in an event: each with its round trips, in order
/// of the texts.
pub open spec fn lists_paths(paths: Seq<PathBrief>, s: Seq<char>) -> bool {
    exists|parts: Seq<Seq<char>>| #[trigger]
        texts_sorted(parts) && parts.to_multiset() == paths.map_values(
            |p: PathBrief| brief_text(p),
        ).to_multiset() && s == joined(parts, ","@)
}

/// What moved since the last look, where anything did.
pub fn switch_since(
    prev: &SnapCounts,
    now: &SnapCounts,
    paths: &Vec<PathBrief>,
    t_ms: u64,
) -> (r: Option<SwitchEvent>)
    ensures
        r is Some <==> any_switch(*prev, *now),
        match r {
            Some(e) => {
                &&& e.t_ms == t_ms
                &&& e.migrates == grown(now.migrates, prev.migrates)
                &&& e.failbacks == grown(now.failbacks, prev.failbacks)
                &&& e.failbacks_upgrade == grown(now.failbacks_upgrade, prev.failbacks_upgrade)
                &&& e.failbacks_class_empty == grown(
                    now.failbacks_class_empty,
                    prev.failbacks_class_empty,
                )
                &&& e.hol_rebalances == grown(now.hol_rebalances, prev.hol_rebalances)
                &&& e.path_down == grown(now.path_down, prev.path_down)
                &&& e.path_added == grown(now.path_added, prev.path_added)
                &&& e.alive == alive_count(paths@)
                &&& lists_paths(paths@, e.path_rtts@)
            },
            None => true,
        },
{
    let dm: u64 = now.migrates.saturating_sub(prev.migrates);
    let df: u64 = now.failbacks.saturating_sub(prev.failbacks);
    let dh: u64 = now.hol_rebalances.saturating_sub(prev.hol_rebalances);
    let dd: u64 = now.path_down.saturating_sub(prev.path_down);
    let da: u64 = now.path_added.saturating_sub(prev.path_added);
    if dm == 0 && df == 0 && dd == 0 && da == 0 && dh == 0 {
        return None;
    }
    let mut parts: Vec<String> = Vec::new();
    let mut alive: u64 = 0;
    let mut i: usize = 0;
    let ghost texts = paths@.map_values(|p: PathBrief| brief_text(p));
    assert(paths@.take(0) =~= seq![]);
    assert(views(parts@) =~= texts.take(0));
    while i < paths.len()
        invariant
            i <= paths@.len(),
            texts == paths@.map_values(|p: PathBrief| brief_text(p)),
            views(parts@) == texts.take(i as int),
            alive == alive_count(paths@.take(i as int)),
            alive <= i,
        decreases paths.len() - i,
    {
        assert(paths@.take(i as int + 1).drop_last() =~= paths@.take(i as int));
        push_line(&mut parts, show_brief(&paths[i]));
        assert(views(parts@) =~= texts.take(i as int + 1));
        if paths[i].alive {
            alive += 1;
        }
        i += 1;
    }
    assert(paths@.take(paths@.len() as int) =~= paths@);
    assert(texts.take(texts.len() as int) =~= texts);
    let parts: Vec<String> = sort_texts(parts);
    let path_rtts: String = join(&parts, ",");
    assert(texts_sorted(views(parts@)));
    Some(
        SwitchEvent {
            t_ms,
            migrates: dm,
            failbacks: df,
            failbacks_upgrade: now.failbacks_upgrade.saturating_sub(prev.failbacks_upgrade),
            failbacks_class_empty: now.failbacks_class_empty.saturating_sub(
                prev.failbacks_class_empty,
            ),
            hol_rebalances: dh,
            path_down: dd,
            path_added: da,
            alive,
            path_rtts,
        },
    )
}

// ---------------------------------------------------------------------------
// The links
// ---------------------------------------------------------------------------
/// A link as it stands at the end of a case.
pub struct LinkWan {
    pub name: String,
    pub rtt_us: u64,
    pub jitter_us: u64,
    pub loss_ppm: u64,
    pub drops: u64,
    pub retrans: u64,
    pub bytes_fwd: u64,
    pub bytes_rev: u64,
    pub conns: u64,
}

/// The role of the first link of this name; a peer where there is none.
pub open spec fn role_of(links: Seq<LinkView>, name: Seq<char>) -> Role
    decreases links.len(),
{
    if links.len() == 0 {
        Role::Peer
    } else if links[0].name == name {
        links[0].role
    } else {
        role_of(links.skip(1), name)
    }
}

fn find_role(links: &Vec<LinkSpec>, name: &str) -> (r: Role)
    ensures
        r == role_of(link_views(links@), name@),
{
    let ghost lv = link_views(links@);
    let mut i: usize = 0;
    assert(lv.skip(0) =~= lv);
    while i < links.len()
        invariant
            i <= links@.len(),
            lv == link_views(links@),
            role_of(lv, name@) == role_of(lv.skip(i as int), name@),
        decreases links.len() - i,
    {
        assert(lv.skip(i as int).skip(1) =~= lv.skip(i as int + 1));
        assert(lv.skip(i as int)[0] == links@[i as int]@);
        if str_eq(links[i].name, name) {
            return links[i].role;
        }
        i += 1;
    }
    Role::Peer
}

pub open spec fn role_text(r: Role) -> Seq<char> {
    match r {
        Role::Peer => "Peer"@,
        Role::Slow => "Slow"@,
    }
}

/// A link in the first line.
pub open spec fn topo_text(links: Seq<LinkView>, l: LinkWan) -> Seq<char> {
    l.name@ + "["@ + role_text(role_of(links, l.name@)) + "]="@ + decimal(l.rtt_us as int / 1000)
        + "ms±"@ + decimal(l.jitter_us as int / 1000) + "ms/"@ + tenths(
        capped(product(per_million(l.loss_ppm as int), whole(100)).shown(10)),
    ) + "%"@
}

fn show_topo(links: &Vec<LinkSpec>, l: &LinkWan) -> (s: String)
    ensures
        s@ == topo_text(link_views(links@), *l),
{
    let mut s: String = text(l.name.as_str());
    push_text(&mut s, "[");
    push_text(
        &mut s,
        match find_role(links, l.name.as_str()) {
            Role::Peer => "Peer",
            Role::Slow => "Slow",
        },
    );
    push_text(&mut s, "]=");
    push_decimal(&mut s, l.rtt_us / 1000);
    push_text(&mut s, "ms±");
    push_decimal(&mut s, l.jitter_us / 1000);
    push_text(&mut s, "ms/");
    push_tenths(&mut s, millionths(l.loss_ppm).times(whole_double(100)).shown_capped(10));
    push_text(&mut s, "%");
    s
}

/// A link in the last lines.
pub open spec fn wan_text(l: LinkWan) -> Seq<char> {
    "  "@ + l.name@ + " rtt="@ + decimal(l.rtt_us as int / 1000) + "ms jitter="@ + decimal(
        l.jitter_us as int / 1000,
    ) + "ms loss="@ + thousandths(
        capped(per_million(l.loss_ppm as int).shown(1000)),
    ) + " wan_drops="@ + decimal(l.drops as int) + " retrans="@ + decimal(l.retrans as int) + " bytes="@ + decimal(l.bytes_fwd as int) + "/"@
        + decimal(l.bytes_rev as int) + " conns="@ + decimal(l.conns as int)
}

fn show_wan(l: &LinkWan) -> (s: String)
    ensures
        s@ == wan_text(*l),
{
    let mut s: String = text("  ");
    push_text(&mut s, l.name.as_str());
    push_text(&mut s, " rtt=");
    push_decimal(&mut s, l.rtt_us / 1000);
    push_text(&mut s, "ms jitter=");
    push_decimal(&mut s, l.jitter_us / 1000);
    push_text(&mut s, "ms loss=");
    push_thousandths(&mut s, millionths(l.loss_ppm).shown_capped(1000));
    push_text(&mut s, " wan_drops=");
    push_decimal(&mut s, l.drops);
    push_text(&mut s, " retrans=");
    push_decimal(&mut s, l.retrans);
    push_text(&mut s, " bytes=");
    push_decimal(&mut s, l.bytes_fwd);
    push_text(&mut s, "/");
    push_decimal(&mut s, l.bytes_rev);
    push_text(&mut s, " conns=");
    push_decimal(&mut s, l.conns);
    s
}

// ---------------------------------------------------------------------------
// The account, part by part
// ---------------------------------------------------------------------------
/// How a case was run.
#[derive(Clone, Copy, Debug)]
pub struct CaseRun {
    pub duration_us: u64,
    pub n_ping: u64,
    pub harsh: bool,
    /// Transfers that came back whole, and those that did not.
    pub bulk: Option<(u64, u64)>,
    /// Ping tasks that panicked.
    pub ping_fail: u64,
}

pub open spec fn bulk_text(bulk: Option<(u64, u64)>) -> Seq<char> {
    match bulk {
        Some(b) => "ok="@ + decimal(b.0 as int) + " fail="@ + decimal(b.1 as int),
        None => "off"@,
    }
}

fn show_bulk(bulk: Option<(u64, u64)>) -> (s: String)
    ensures
        s@ == bulk_text(bulk),
{
    match bulk {
        Some(b) => {
            let (ok, fail): (u64, u64) = b;
            let mut s: String = text("ok=");
            push_decimal(&mut s, ok);
            push_text(&mut s, " fail=");
            push_decimal(&mut s, fail);
            s
        },
        None => text("off"),
    }
}

/// The first line.
pub open spec fn first_line(case: CaseView, run: CaseRun, wan: Seq<LinkWan>) -> Seq<char> {
    "duration="@ + dur_text(run.duration_us) + " case="@ + case.name + " harsh="@ + bool_text(
        run.harsh,
    ) + " pings="@ + decimal(run.n_ping as int) + " bulk="@ + bulk_text(run.bulk) + " ping_fail="@
        + decimal(run.ping_fail as int) + " "@ + joined(
        wan.map_values(|l: LinkWan| topo_text(case.links, l)),
        " "@,
    )
}

fn show_first(case: &MixCase, run: &CaseRun, wan: &Vec<LinkWan>) -> (s: String)
    ensures
        s@ == first_line(case@, *run, wan@),
{
    let mut parts: Vec<String> = Vec::new();
    let ghost cv = case@;
    let ghost texts = wan@.map_values(|l: LinkWan| topo_text(cv.links, l));
    let mut i: usize = 0;
    assert(views(parts@) =~= texts.take(0));
    while i < wan.len()
        invariant
            i <= wan@.len(),
            cv == case@,
            texts == wan@.map_values(|l: LinkWan| topo_text(cv.links, l)),
            views(parts@) == texts.take(i as int),
        decreases wan.len() - i,
    {
        push_line(&mut parts, show_topo(&case.links, &wan[i]));
        assert(views(parts@) =~= texts.take(i as int + 1));
        i += 1;
    }
    assert(texts.take(texts.len() as int) =~= texts);
    let mut s: String = text("duration=");
    push_text(&mut s, fmt_dur(run.duration_us).as_str());
    push_text(&mut s, " case=");
    push_text(&mut s, case.name);
    push_text(&mut s, " harsh=");
    push_bool(&mut s, run.harsh);
    push_text(&mut s, " pings=");
    push_decimal(&mut s, run.n_ping);
    push_text(&mut s, " bulk=");
    push_text(&mut s, show_bulk(run.bulk).as_str());
    push_text(&mut s, " ping_fail=");
    push_decimal(&mut s, run.ping_fail);
    push_text(&mut s, " ");
    push_text(&mut s, join(&parts, " ").as_str());
    s
}

/// How the workload ended.
pub open spec fn survival_line(stats: WorkloadStats) -> Seq<char> {
    "survive="@ + bool_text(!stats.disconnect) + " disconnect="@ + bool_text(stats.disconnect)
        + " timeouts="@ + decimal(stats.timeouts as int) + " io_err="@ + decimal(
        stats.io_errors as int,
    ) + " max_ok_gap_ms="@ + decimal(widest_gap(ok_times(stats.samples@)) / 1000)
}

fn show_survival(stats: &WorkloadStats) -> (s: String)
    ensures
        s@ == survival_line(*stats),
{
    let mut s: String = text("survive=");
    push_bool(&mut s, !stats.disconnect);
    push_text(&mut s, " disconnect=");
    push_bool(&mut s, stats.disconnect);
    push_text(&mut s, " timeouts=");
    push_decimal(&mut s, stats.timeouts);
    push_text(&mut s, " io_err=");
    push_decimal(&mut s, stats.io_errors);
    push_text(&mut s, " max_ok_gap_ms=");
    push_decimal(&mut s, stats.max_ok_gap() / 1000);
    s
}

/// How often paths were switched.
pub open spec fn switch_line(snap: SnapCounts) -> Seq<char> {
    "switch migrates="@ + decimal(snap.migrates as int) + " failbacks="@ + decimal(
        snap.failbacks as int,
    ) + " fb_upgrade="@ + decimal(snap.failbacks_upgrade as int) + " fb_class_empty="@ + decimal(
        snap.failbacks_class_empty as int,
    ) + " hol="@ + decimal(snap.hol_rebalances as int) + " path_down="@ + decimal(
        snap.path_down as int,
    ) + " path_added="@ + decimal(snap.path_added as int) + " stream_resets="@ + decimal(
        snap.stream_resets as int,
    ) + " send_drops="@ + decimal(snap.frame_send_drop as int)
}

fn show_switches(snap: &SnapCounts) -> (s: String)
    ensures
        s@ == switch_line(*snap),
{
    let mut s: String = text("switch migrates=");
    push_decimal(&mut s, snap.migrates);
    push_text(&mut s, " failbacks=");
    push_decimal(&mut s, snap.failbacks);
    push_text(&mut s, " fb_upgrade=");
    push_decimal(&mut s, snap.failbacks_upgrade);
    push_text(&mut s, " fb_class_empty=");
    push_decimal(&mut s, snap.failbacks_class_empty);
    push_text(&mut s, " hol=");
    push_decimal(&mut s, snap.hol_rebalances);
    push_text(&mut s, " path_down=");
    push_decimal(&mut s, snap.path_down);
    push_text(&mut s, " path_added=");
    push_decimal(&mut s, snap.path_added);
    push_text(&mut s, " stream_resets=");
    push_decimal(&mut s, snap.stream_resets);
    push_text(&mut s, " send_drops=");
    push_decimal(&mut s, snap.frame_send_drop);
    s
}

/// How often a kind hit each link.
pub open spec fn hits(links: Seq<LinkView>, events: Seq<EventView>, kind: Kind) -> nat
    decreases links.len(),
{
    if links.len() == 0 {
        0
    } else {
        hits(links.drop_last(), events, kind) + times(events, links.last().name, kind)
    }
}

pub open spec fn cell_text(link: LinkView, events: Seq<EventView>, kind: Kind) -> Seq<char> {
    link.name + "="@ + decimal(times(events, link.name, kind) as int)
}

/// How often a kind hit each link, and all of them.
pub open spec fn kind_line(links: Seq<LinkView>, events: Seq<EventView>, kind: Kind) -> Seq<char> {
    "  "@ + left_column(kind.name_text(), 18) + " "@ + joined(
        links.map_values(|l: LinkView| cell_text(l, events, kind)),
        " "@,
    ) + " sum="@ + decimal(capped(hits(links, events, kind) as int))
}

fn show_kind(case: &MixCase, board: &Board, kind: Kind) -> (s: String)
    ensures
        s@ == kind_line(link_views(case.links@), event_views(board.events@), kind),
{
    let ghost lv = link_views(case.links@);
    let ghost ev = event_views(board.events@);
    let ghost cells = lv.map_values(|l: LinkView| cell_text(l, ev, kind));
    let mut parts: Vec<String> = Vec::new();
    let mut sum: u64 = 0;
    let mut i: usize = 0;
    assert(lv.take(0) =~= seq![]);
    assert(views(parts@) =~= cells.take(0));
    while i < case.links.len()
        invariant
            i <= case.links@.len(),
            lv == link_views(case.links@),
            ev == event_views(board.events@),
            cells == lv.map_values(|l: LinkView| cell_text(l, ev, kind)),
            views(parts@) == cells.take(i as int),
            sum == capped(hits(lv.take(i as int), ev, kind) as int),
        decreases case.links.len() - i,
    {
        assert(lv.take(i as int + 1).drop_last() =~= lv.take(i as int));
        let n: u64 = board.count(case.links[i].name, kind);
        let mut cell: String = text(case.links[i].name);
        push_text(&mut cell, "=");
        push_decimal(&mut cell, n);
        push_line(&mut parts, cell);
        assert(views(parts@) =~= cells.take(i as int + 1));
        sum = sum.saturating_add(n);
        i += 1;
    }
    assert(lv.take(lv.len() as int) =~= lv);
    assert(cells.take(cells.len() as int) =~= cells);
    let mut s: String = text("  ");
    push_left(&mut s, kind.name(), 18);
    push_text(&mut s, " ");
    push_text(&mut s, join(&parts, " ").as_str());
    push_text(&mut s, " sum=");
    push_decimal(&mut s, sum);
    s
}

/// A minute, with two digits at least.
pub open spec fn minute_text(i: int) -> Seq<char> {
    if i < 10 {
        "0"@ + decimal(i)
    } else {
        decimal(i)
    }
}

/// Where window `i` starts.
pub open spec fn window_at(t0: u64, i: int) -> u64 {
    capped(t0 + i * WINDOW_US) as u64
}

/// The windows that hold samples, in order.
pub open spec fn minute_lines(samples: Seq<PingSample>, t0: u64, n: int) -> Seq<Seq<char>>
    decreases n,
{
    if n <= 0 {
        seq![]
    } else {
        let before = minute_lines(samples, t0, n - 1);
        let w = slice_of(samples, window_at(t0, n - 1), window_at(t0, n));
        if w.len() == 0 {
            before
        } else {
            before.push("  min"@ + minute_text(n - 1) + " "@ + lat_text(latency_of(w)))
        }
    }
}

/// How many windows a case of this length has.
pub open spec fn windows_of(duration_us: u64) -> int {
    let secs = duration_us as int / 1_000_000;
    if secs == 0 {
        1
    } else {
        (secs + 59) / 60
    }
}

fn push_minutes(out: &mut Vec<String>, stats: &WorkloadStats, t0: u64, duration_us: u64)
    ensures
        views(final(out)@) == views(old(out)@) + minute_lines(
            stats.samples@,
            t0,
            windows_of(duration_us),
        ),
{
    let secs: u64 = duration_us / 1_000_000;
    let n: u64 = if secs == 0 {
        1
    } else {
        (secs + 59) / 60
    };
    let ghost o = views(out@);
    let mut i: u64 = 0;
    assert(o =~= o + minute_lines(stats.samples@, t0, 0));
    while i < n
        invariant
            i <= n,
            n <= 400_000_000_000,
            views(out@) == o + minute_lines(stats.samples@, t0, i as int),
        decreases n - i,
    {
        let from: u64 = t0.saturating_add(mul_capped(i, WINDOW_US));
        let to: u64 = t0.saturating_add(mul_capped(i + 1, WINDOW_US));
        let w: WorkloadStats = stats.slice_from(from, to);
        let ghost before = views(out@);
        if w.n_samples() > 0 {
            let mut s: String = text("  min");
            if i < 10 {
                push_text(&mut s, "0");
            }
            push_decimal(&mut s, i);
            push_text(&mut s, " ");
            push_text(&mut s, lat_line(&w).as_str());
            proof {
                assert(s@ =~= "  min"@ + minute_text(i as int) + " "@ + lat_text(
                    latency_of(w.samples@),
                ));
            }
            push_line(out, s);
        }
        proof {
            assert(from == window_at(t0, i as int));
            assert(to == window_at(t0, i as int + 1));
            assert(views(out@) =~= o + minute_lines(stats.samples@, t0, i as int + 1));
        }
        i += 1;
    }
}

/// What an event is called.
pub open spec fn event_name(e: EventView) -> Seq<char> {
    match e.kind {
        Some(k) => k.name_text(),
        None => "peer_collapse"@,
    }
}

pub open spec fn event_line(e: EventView) -> Seq<char> {
    "  t="@ + right_column(decimal(e.t_ms as int), 7) + " "@ + left_column(e.link, 4) + " "@
        + left_column(event_name(e), 18) + " hold="@ + left_column(decimal(e.hold_ms as int), 5)
        + " "@ + e.note
}

fn show_event(e: &FaultEvent) -> (s: String)
    ensures
        s@ == event_line(e@),
{
    let mut s: String = text("  t=");
    push_right(&mut s, decimal_of(e.t_ms).as_str(), 7);
    push_text(&mut s, " ");
    push_left(&mut s, e.link.as_str(), 4);
    push_text(&mut s, " ");
    push_left(
        &mut s,
        match e.kind {
            Some(k) => k.name(),
            None => "peer_collapse",
        },
        18,
    );
    push_text(&mut s, " hold=");
    push_left(&mut s, decimal_of(e.hold_ms).as_str(), 5);
    push_text(&mut s, " ");
    push_text(&mut s, e.note.as_str());
    s
}

pub open spec fn moved_line(e: SwitchEvent) -> Seq<char> {
    "  t="@ + right_column(decimal(e.t_ms as int), 7) + " mig=+"@ + decimal(e.migrates as int)
        + " fb=+"@ + decimal(e.failbacks as int) + " up=+"@ + decimal(e.failbacks_upgrade as int)
        + " empty=+"@ + decimal(e.failbacks_class_empty as int) + " hol=+"@ + decimal(
        e.hol_rebalances as int,
    ) + " down=+"@ + decimal(e.path_down as int) + " add=+"@ + decimal(e.path_added as int)
        + " alive="@ + decimal(e.alive as int) + " ["@ + e.path_rtts@ + "]"@
}

fn show_moved(e: &SwitchEvent) -> (s: String)
    ensures
        s@ == moved_line(*e),
{
    let mut s: String = text("  t=");
    push_right(&mut s, decimal_of(e.t_ms).as_str(), 7);
    push_text(&mut s, " mig=+");
    push_decimal(&mut s, e.migrates);
    push_text(&mut s, " fb=+");
    push_decimal(&mut s, e.failbacks);
    push_text(&mut s, " up=+");
    push_decimal(&mut s, e.failbacks_upgrade);
    push_text(&mut s, " empty=+");
    push_decimal(&mut s, e.failbacks_class_empty);
    push_text(&mut s, " hol=+");
    push_decimal(&mut s, e.hol_rebalances);
    push_text(&mut s, " down=+");
    push_decimal(&mut s, e.path_down);
    push_text(&mut s, " add=+");
    push_decimal(&mut s, e.path_added);
    push_text(&mut s, " alive=");
    push_decimal(&mut s, e.alive);
    push_text(&mut s, " [");
    push_text(&mut s, e.path_rtts.as_str());
    push_text(&mut s, "]");
    s
}

// ---------------------------------------------------------------------------
// The account
// ---------------------------------------------------------------------------
/// When the first sample was taken; `now` where there is none.
pub open spec fn start_of_samples(samples: Seq<PingSample>, now: u64) -> u64 {
    if samples.len() == 0 {
        now
    } else {
        samples[0].at
    }
}

/// What stands before the coverage.
pub open spec fn head_lines(
    case: CaseView,
    run: CaseRun,
    stats: WorkloadStats,
    snap: SnapCounts,
    wan: Seq<LinkWan>,
) -> Seq<Seq<char>> {
    seq![
        first_line(case, run, wan),
        "TOP "@ + lat_text(latency_of(stats.samples@)),
        "hist "@ + hist_text(rtts_of(stats.samples@), stats.timeouts),
        survival_line(stats),
        switch_line(snap),
        "--- coverage kind×link ---"@,
    ]
}

/// How many faults and switches there were.
pub open spec fn counts_line(events: int, switches: int) -> Seq<char> {
    "fault_events="@ + decimal(events) + " switch_events="@ + decimal(switches)
}

/// The whole account.
pub open spec fn report_lines(
    case: CaseView,
    run: CaseRun,
    stats: WorkloadStats,
    snap: SnapCounts,
    events: Seq<EventView>,
    switches: Seq<SwitchEvent>,
    wan: Seq<LinkWan>,
    now: u64,
) -> Seq<Seq<char>> {
    head_lines(case, run, stats, snap, wan) + all_kinds().map_values(
        |k: Kind| kind_line(case.links, events, k),
    ) + seq![
        counts_line(events.len() as int, switches.len() as int),
        "--- per-minute business RTT ---"@,
    ] + minute_lines(
        stats.samples@,
        start_of_samples(stats.samples@, now),
        windows_of(run.duration_us),
    ) + seq!["--- faults (t_ms link kind hold note) ---"@] + events.map_values(
        |e: EventView| event_line(e),
    ) + seq!["--- switches (delta) ---"@] + switches.map_values(|e: SwitchEvent| moved_line(e))
        + seq!["--- link wan ---"@] + wan.map_values(|l: LinkWan| wan_text(l))
}

fn push_head(
    out: &mut Vec<String>,
    case: &MixCase,
    run: &CaseRun,
    stats: &WorkloadStats,
    snap: &SnapCounts,
    wan: &Vec<LinkWan>,
)
    ensures
        views(final(out)@) == views(old(out)@) + head_lines(case@, *run, *stats, *snap, wan@),
{
    let ghost o = views(out@);
    push_line(out, show_first(case, run, wan));
    let mut top: String = text("TOP ");
    push_text(&mut top, lat_line(stats).as_str());
    push_line(out, top);
    let mut h: String = text("hist ");
    push_text(&mut h, hist(stats).as_str());
    push_line(out, h);
    push_line(out, show_survival(stats));
    push_line(out, show_switches(snap));
    push_line(out, text("--- coverage kind×link ---"));
    assert(views(out@) =~= o + head_lines(case@, *run, *stats, *snap, wan@));
}

fn push_kinds(out: &mut Vec<String>, case: &MixCase, board: &Board)
    ensures
        views(final(out)@) == views(old(out)@) + all_kinds().map_values(
            |k: Kind| kind_line(link_views(case.links@), event_views(board.events@), k),
        ),
{
    let ghost o = views(out@);
    let ghost lv = link_views(case.links@);
    let ghost ev = event_views(board.events@);
    let all: Vec<Kind> = Kind::all();
    let ghost lines = all_kinds().map_values(|k: Kind| kind_line(lv, ev, k));
    let mut i: usize = 0;
    assert(views(out@) =~= o + lines.take(0));
    while i < all.len()
        invariant
            i <= all@.len(),
            all@ == all_kinds(),
            lv == link_views(case.links@),
            ev == event_views(board.events@),
            lines == all_kinds().map_values(|k: Kind| kind_line(lv, ev, k)),
            views(out@) == o + lines.take(i as int),
        decreases all.len() - i,
    {
        push_line(out, show_kind(case, board, all[i]));
        assert(views(out@) =~= o + lines.take(i as int + 1));
        i += 1;
    }
    assert(lines.take(lines.len() as int) =~= lines);
}

fn push_events(out: &mut Vec<String>, board: &Board)
    ensures
        views(final(out)@) == views(old(out)@) + event_views(board.events@).map_values(
            |e: EventView| event_line(e),
        ),
{
    let ghost o = views(out@);
    let ghost lines = event_views(board.events@).map_values(|e: EventView| event_line(e));
    let mut i: usize = 0;
    assert(views(out@) =~= o + lines.take(0));
    while i < board.events.len()
        invariant
            i <= board.events@.len(),
            lines == event_views(board.events@).map_values(|e: EventView| event_line(e)),
            views(out@) == o + lines.take(i as int),
        decreases board.events.len() - i,
    {
        push_line(out, show_event(&board.events[i]));
        assert(views(out@) =~= o + lines.take(i as int + 1));
        i += 1;
    }
    assert(lines.take(lines.len() as int) =~= lines);
}

fn push_moves(out: &mut Vec<String>, switches: &Vec<SwitchEvent>)
    ensures
        views(final(out)@) == views(old(out)@) + switches@.map_values(
            |e: SwitchEvent| moved_line(e),
        ),
{
    let ghost o = views(out@);
    let ghost lines = switches@.map_values(|e: SwitchEvent| moved_line(e));
    let mut i: usize = 0;
    assert(views(out@) =~= o + lines.take(0));
    while i < switches.len()
        invariant
            i <= switches@.len(),
            lines == switches@.map_values(|e: SwitchEvent| moved_line(e)),
            views(out@) == o + lines.take(i as int),
        decreases switches.len() - i,
    {
        push_line(out, show_moved(&switches[i]));
        assert(views(out@) =~= o + lines.take(i as int + 1));
        i += 1;
    }
    assert(lines.take(lines.len() as int) =~= lines);
}

fn push_wan(out: &mut Vec<String>, wan: &Vec<LinkWan>)
    ensures
        views(final(out)@) == views(old(out)@) + wan@.map_values(|l: LinkWan| wan_text(l)),
{
    let ghost o = views(out@);
    let ghost lines = wan@.map_values(|l: LinkWan| wan_text(l));
    let mut i: usize = 0;
    assert(views(out@) =~= o + lines.take(0));
    while i < wan.len()
        invariant
            i <= wan@.len(),
            lines == wan@.map_values(|l: LinkWan| wan_text(l)),
            views(out@) == o + lines.take(i as int),
        decreases wan.len() - i,
    {
        push_line(out, show_wan(&wan[i]));
        assert(views(out@) =~= o + lines.take(i as int + 1));
        i += 1;
    }
    assert(lines.take(lines.len() as int) =~= lines);
}

/// Write the account of a case.
pub fn build_report(
    case: &MixCase,
    run: &CaseRun,
    stats: &WorkloadStats,
    snap: &SnapCounts,
    board: &Board,
    switches: &Vec<SwitchEvent>,
    wan: &Vec<LinkWan>,
    now: u64,
) -> (out: Vec<String>)
    ensures
        views(out@) == report_lines(
            case@,
            *run,
            *stats,
            *snap,
            event_views(board.events@),
            switches@,
            wan@,
            now,
        ),
{
    let mut out: Vec<String> = Vec::new();
    push_head(&mut out, case, run, stats, snap, wan);
    push_kinds(&mut out, case, board);
    let mut counts: String = text("fault_events=");
    push_decimal(&mut counts, board.events.len() as u64);
    push_text(&mut counts, " switch_events=");
    push_decimal(&mut counts, switches.len() as u64);
    push_line(&mut out, counts);
    push_line(&mut out, text("--- per-minute business RTT ---"));
    let t0: u64 = if stats.samples.len() == 0 {
        now
    } else {
        stats.samples[0].at
    };
    push_minutes(&mut out, stats, t0, run.duration_us);
    push_line(&mut out, text("--- faults (t_ms link kind hold note) ---"));
    push_events(&mut out, board);
    push_line(&mut out, text("--- switches (delta) ---"));
    push_moves(&mut out, switches);
    push_line(&mut out, text("--- link wan ---"));
    push_wan(&mut out, wan);
    assert(views(out@) =~= report_lines(
        case@,
        *run,
        *stats,
        *snap,
        event_views(board.events@),
        switches@,
        wan@,
        now,
    ));
    out
}

// ---------------------------------------------------------------------------
// The gap in the notes
// ---------------------------------------------------------------------------
/// The number behind the first note that begins with the name of the gap;
/// zero where there is none or it is no number.
pub open spec fn gap_in(notes: Seq<Seq<char>>) -> u64
    decreases notes.len(),
{
    if notes.len() == 0 {
        0
    } else if stands_at(notes[0], "max_ok_gap_ms="@, 0) {
        match number_of(notes[0].skip("max_ok_gap_ms="@.len() as int)) {
            Some(n) => n,
            None => 0,
        }
    } else {
        gap_in(notes.skip(1))
    }
}

pub fn r_gap_ms(notes: &Vec<String>) -> (ms: u64)
    ensures
        ms == gap_in(views(notes@)),
{
    let ghost nv = views(notes@);
    let mut i: usize = 0;
    assert(nv.skip(0) =~= nv);
    while i < notes.len()
        invariant
            i <= notes@.len(),
            nv == views(notes@),
            gap_in(nv) == gap_in(nv.skip(i as int)),
        decreases notes.len() - i,
    {
        let note: &str = notes[i].as_str();
        proof {
            assert(nv.skip(i as int)[0] == note@);
            assert(nv.skip(i as int).skip(1) =~= nv.skip(i as int + 1));
        }
        if starts_with(note, "max_ok_gap_ms=") {
            let n: usize = note.unicode_len();
            let p: usize = "max_ok_gap_ms=".unicode_len();
            let rest: &str = note.substring_char(p, n);
            assert(rest@ =~= note@.skip("max_ok_gap_ms="@.len() as int));
            return match parse_number(rest) {
                Some(ms) => ms,
                None => 0,
            };
        }
        i += 1;
    }
    0
}

// ---------------------------------------------------------------------------
// The verdict
// ---------------------------------------------------------------------------
/// From this length on every kind must have taken place.
pub const COVER_US: u64 = 480_000_000;

/// From this length on the rate of failbacks and the mix of bytes count.
pub const LONG_US: u64 = 300_000_000;

/// Failbacks per minute that are too many.
pub const CHATTER_PER_MIN: u64 = 25;

pub open spec fn kind_names(kinds: Seq<Kind>) -> Seq<Seq<char>> {
    kinds.map_values(|k: Kind| k.name_text())
}

pub open spec fn uncovered_notes(missing: Seq<Kind>) -> Seq<Seq<char>> {
    if missing.len() == 0 {
        seq![]
    } else {
        seq!["UNCOVERED kinds: "@ + joined(kind_names(missing), ","@)]
    }
}

pub open spec fn coverage_finding(missing: Seq<Kind>, duration_us: u64) -> Finding {
    if missing.len() > 0 && duration_us >= COVER_US {
        Finding { notes: seq!["coverage incomplete"@], fail: true }
    } else {
        nothing()
    }
}

#[verifier::opaque]
pub open spec fn p50_finding(p50: Option<u64>, limit_ms: u64) -> Finding {
    match p50 {
        Some(us) => if us as int / 1000 > limit_ms {
            Finding {
                notes: seq![
                    "p50="@ + decimal(us as int) + "us left peer class (limit "@ + decimal(
                        limit_ms as int,
                    ) + "ms)"@,
                ],
                fail: true,
            }
        } else {
            nothing()
        },
        None => nothing(),
    }
}

pub open spec fn ping_finding(ping_fail: u64) -> Finding {
    if ping_fail > 0 {
        Finding { notes: seq!["ping tasks panicked: "@ + decimal(ping_fail as int)], fail: true }
    } else {
        nothing()
    }
}

pub open spec fn bulk_finding(bulk: Option<(u64, u64)>, disconnect: bool) -> Finding {
    match bulk {
        Some(b) => if b.1 > 0 && disconnect {
            Finding { notes: seq!["bulk stream died with business TCP"@], fail: false }
        } else {
            nothing()
        },
        None => nothing(),
    }
}

/// How many minutes these are; less than one counts as one.
pub open spec fn minutes(secs: int) -> Dbl {
    if secs < 60 {
        whole(1)
    } else {
        quotient(whole(secs), whole(60))
    }
}

/// A count per minute.
pub open spec fn each_minute(count: u64, secs: int) -> Dbl {
    quotient(whole(count as int), minutes(secs))
}

/// A count per minute, in tenths: the nearest one, the even one of two.
pub open spec fn per_minute(count: u64, secs: int) -> int {
    capped(each_minute(count, secs).shown(10))
}

pub open spec fn failback_finding(snap: SnapCounts, secs: int) -> Finding {
    let rate = tenths(per_minute(snap.failbacks, secs));
    let said = seq![
        "failbacks_per_min="@ + rate,
        "fb_upgrade_per_min="@ + tenths(per_minute(snap.failbacks_upgrade, secs)),
        "fb_class_empty_per_min="@ + tenths(per_minute(snap.failbacks_class_empty, secs)),
        "hol_rebalances="@ + decimal(snap.hol_rebalances as int),
    ];
    if each_minute(snap.failbacks, secs).floor() >= CHATTER_PER_MIN {
        Finding {
            notes: said.push("failback chatter "@ + rate + "/min (limit 25)"@),
            fail: true,
        }
    } else {
        Finding { notes: said, fail: false }
    }
}

/// A link of this name is one of the peers.
pub open spec fn names_peer(links: Seq<LinkView>, name: Seq<char>) -> bool {
    exists|i: int|
        0 <= i < links.len() && (#[trigger] links[i]).role is Peer && links[i].name == name
}

/// Bytes that a link carried, both ways.
pub open spec fn carried(l: LinkWan) -> int {
    capped(l.bytes_fwd + l.bytes_rev)
}

/// Bytes that the peers carried.
pub open spec fn peer_bytes(links: Seq<LinkView>, wan: Seq<LinkWan>) -> int
    decreases wan.len(),
{
    if wan.len() == 0 {
        0
    } else {
        peer_bytes(links, wan.drop_last()) + if names_peer(links, wan.last().name@) {
            carried(wan.last())
        } else {
            0
        }
    }
}

/// Peers that carried a tenth of `total` at least.
pub open spec fn sharers(links: Seq<LinkView>, wan: Seq<LinkWan>, total: int) -> nat
    decreases wan.len(),
{
    if wan.len() == 0 {
        0
    } else {
        sharers(links, wan.drop_last(), total) + if names_peer(links, wan.last().name@) && total > 0
            && carried(wan.last()) * 10 >= total {
            1nat
        } else {
            0nat
        }
    }
}

pub open spec fn mix_finding(links: Seq<LinkView>, wan: Seq<LinkWan>) -> Finding {
    let total = capped(peer_bytes(links, wan));
    let n = sharers(links, wan, total);
    let said = seq!["peer_wan_10pct_names="@ + decimal(n as int) + " total="@ + decimal(total)];
    if n < 2 {
        Finding {
            notes: said.push("bulk did not mix across ≥2 peer names at 10% WAN bytes"@),
            fail: true,
        }
    } else {
        Finding { notes: said, fail: false }
    }
}

/// What a case of some length is held to besides.
#[verifier::opaque]
pub open spec fn long_finding(
    case: CaseView,
    duration_us: u64,
    snap: SnapCounts,
    wan: Seq<LinkWan>,
) -> Finding {
    if duration_us < LONG_US {
        nothing()
    } else {
        let f = failback_finding(snap, duration_us as int / 1_000_000);
        if case.bulk_streams > 0 {
            f.and(mix_finding(case.links, wan))
        } else {
            f
        }
    }
}

/// Everything that is found.
pub open spec fn findings(
    case: CaseView,
    run: CaseRun,
    stats: WorkloadStats,
    snap: SnapCounts,
    missing: Seq<Kind>,
    wan: Seq<LinkWan>,
) -> Finding {
    coverage_finding(missing, run.duration_us).and(
        p50_finding(latency_of(stats.samples@).p50, case.p50_ms),
    ).and(ping_finding(run.ping_fail)).and(bulk_finding(run.bulk, stats.disconnect)).and(
        long_finding(case, run.duration_us, snap, wan),
    )
}

fn name_missing(missing: &Vec<Kind>) -> (s: String)
    ensures
        s@ == "UNCOVERED kinds: "@ + joined(kind_names(missing@), ","@),
{
    let mut parts: Vec<String> = Vec::new();
    let ghost names = kind_names(missing@);
    let mut i: usize = 0;
    assert(views(parts@) =~= names.take(0));
    while i < missing.len()
        invariant
            i <= missing@.len(),
            names == kind_names(missing@),
            views(parts@) == names.take(i as int),
        decreases missing.len() - i,
    {
        push_line(&mut parts, text(missing[i].name()));
        assert(views(parts@) =~= names.take(i as int + 1));
        i += 1;
    }
    assert(names.take(names.len() as int) =~= names);
    let mut s: String = text("UNCOVERED kinds: ");
    push_text(&mut s, join(&parts, ",").as_str());
    s
}

fn rate(count: u64, secs: u64) -> (d: Double)
    ensures
        d@ == each_minute(count, secs as int),
        d.within(900),
{
    let mins: Double = if secs < 60 {
        whole_double(1)
    } else {
        whole_double(secs).over(whole_double(60))
    };
    whole_double(count).over(mins)
}

fn push_failbacks(notes: &mut Vec<String>, snap: &SnapCounts, secs: u64) -> (fail: bool)
    ensures
        views(final(notes)@) == views(old(notes)@) + failback_finding(*snap, secs as int).notes,
        fail == failback_finding(*snap, secs as int).fail,
{
    let ghost o = views(notes@);
    let often: Double = rate(snap.failbacks, secs);
    let per: u64 = often.shown_capped(10);
    let mut a: String = text("failbacks_per_min=");
    push_tenths(&mut a, per);
    push_line(notes, a);
    let mut b: String = text("fb_upgrade_per_min=");
    push_tenths(&mut b, rate(snap.failbacks_upgrade, secs).shown_capped(10));
    push_line(notes, b);
    let mut c: String = text("fb_class_empty_per_min=");
    push_tenths(&mut c, rate(snap.failbacks_class_empty, secs).shown_capped(10));
    push_line(notes, c);
    let mut d: String = text("hol_rebalances=");
    push_decimal(&mut d, snap.hol_rebalances);
    push_line(notes, d);
    let fail: bool = often.floor_capped() >= CHATTER_PER_MIN;
    if fail {
        let mut e: String = text("failback chatter ");
        push_tenths(&mut e, per);
        push_text(&mut e, "/min (limit 25)");
        push_line(notes, e);
    }
    assert(views(notes@) =~= o + failback_finding(*snap, secs as int).notes);
    fail
}

fn is_peer(links: &Vec<LinkSpec>, name: &str) -> (r: bool)
    ensures
        r == names_peer(link_views(links@), name@),
{
    let ghost lv = link_views(links@);
    let mut i: usize = 0;
    while i < links.len()
        invariant
            i <= links@.len(),
            lv == link_views(links@),
            forall|k: int|
                0 <= k < i ==> !((#[trigger] lv[k]).role is Peer && lv[k].name == name@),
        decreases links.len() - i,
    {
        assert(lv[i as int] == links@[i as int]@);
        let peer: bool = match links[i].role {
            Role::Peer => true,
            Role::Slow => false,
        };
        if peer && str_eq(links[i].name, name) {
            return true;
        }
        i += 1;
    }
    false
}

fn sum_peers(links: &Vec<LinkSpec>, wan: &Vec<LinkWan>) -> (total: u64)
    ensures
        total == capped(peer_bytes(link_views(links@), wan@)),
{
    let ghost lv = link_views(links@);
    let mut total: u64 = 0;
    let mut i: usize = 0;
    assert(wan@.take(0) =~= seq![]);
    while i < wan.len()
        invariant
            i <= wan@.len(),
            lv == link_views(links@),
            total == capped(peer_bytes(lv, wan@.take(i as int))),
            peer_bytes(lv, wan@.take(i as int)) >= 0,
        decreases wan.len() - i,
    {
        assert(wan@.take(i as int + 1).drop_last() =~= wan@.take(i as int));
        if is_peer(links, wan[i].name.as_str()) {
            total = total.saturating_add(wan[i].bytes_fwd.saturating_add(wan[i].bytes_rev));
        }
        i += 1;
    }
    assert(wan@.take(wan@.len() as int) =~= wan@);
    total
}

fn count_sharers(links: &Vec<LinkSpec>, wan: &Vec<LinkWan>, total: u64) -> (n: u64)
    ensures
        n == sharers(link_views(links@), wan@, total as int),
{
    let ghost lv = link_views(links@);
    let mut n: u64 = 0;
    let mut i: usize = 0;
    assert(wan@.take(0) =~= seq![]);
    while i < wan.len()
        invariant
            i <= wan@.len(),
            lv == link_views(links@),
            n == sharers(lv, wan@.take(i as int), total as int),
            n <= i,
        decreases wan.len() - i,
    {
        assert(wan@.take(i as int + 1).drop_last() =~= wan@.take(i as int));
        let bytes: u64 = wan[i].bytes_fwd.saturating_add(wan[i].bytes_rev);
        if is_peer(links, wan[i].name.as_str()) && total > 0 && bytes as u128 * 10 >= total as u128 {
            n += 1;
        }
        i += 1;
    }
    assert(wan@.take(wan@.len() as int) =~= wan@);
    n
}

fn push_mix(notes: &mut Vec<String>, links: &Vec<LinkSpec>, wan: &Vec<LinkWan>) -> (fail: bool)
    ensures
        views(final(notes)@) == views(old(notes)@) + mix_finding(link_views(links@), wan@).notes,
        fail == mix_finding(link_views(links@), wan@).fail,
{
    let ghost o = views(notes@);
    let total: u64 = sum_peers(links, wan);
    let n: u64 = count_sharers(links, wan, total);
    let mut a: String = text("peer_wan_10pct_names=");
    push_decimal(&mut a, n);
    push_text(&mut a, " total=");
    push_decimal(&mut a, total);
    push_line(notes, a);
    if n < 2 {
        push_line(notes, text("bulk did not mix across ≥2 peer names at 10% WAN bytes"));
    }
    assert(views(notes@) =~= o + mix_finding(link_views(links@), wan@).notes);
    n < 2
}

fn push_coverage(notes: &mut Vec<String>, missing: &Vec<Kind>, duration_us: u64) -> (fail: bool)
    ensures
        views(final(notes)@) == views(old(notes)@) + coverage_finding(missing@, duration_us).notes,
        fail == coverage_finding(missing@, duration_us).fail,
{
    let ghost o = views(notes@);
    let fail: bool = missing.len() > 0 && duration_us >= COVER_US;
    if fail {
        push_line(notes, text("coverage incomplete"));
    }
    assert(views(notes@) =~= o + coverage_finding(missing@, duration_us).notes);
    fail
}

fn push_p50(notes: &mut Vec<String>, p50: Option<u64>, limit_ms: u64) -> (fail: bool)
    ensures
        views(final(notes)@) == views(old(notes)@) + p50_finding(p50, limit_ms).notes,
        fail == p50_finding(p50, limit_ms).fail,
{
    reveal(p50_finding);
    let ghost o = views(notes@);
    let mut fail: bool = false;
    match p50 {
        Some(us) => {
            if us / 1000 > limit_ms {
                let mut s: String = text("p50=");
                push_decimal(&mut s, us);
                push_text(&mut s, "us left peer class (limit ");
                push_decimal(&mut s, limit_ms);
                push_text(&mut s, "ms)");
                push_line(notes, s);
                fail = true;
            }
        },
        None => {},
    }
    assert(views(notes@) =~= o + p50_finding(p50, limit_ms).notes);
    fail
}

fn push_ping(notes: &mut Vec<String>, ping_fail: u64) -> (fail: bool)
    ensures
        views(final(notes)@) == views(old(notes)@) + ping_finding(ping_fail).notes,
        fail == ping_finding(ping_fail).fail,
{
    let ghost o = views(notes@);
    if ping_fail > 0 {
        let mut s: String = text("ping tasks panicked: ");
        push_decimal(&mut s, ping_fail);
        push_line(notes, s);
    }
    assert(views(notes@) =~= o + ping_finding(ping_fail).notes);
    ping_fail > 0
}

fn push_bulk(notes: &mut Vec<String>, bulk: Option<(u64, u64)>, disconnect: bool)
    ensures
        !bulk_finding(bulk, disconnect).fail,
        views(final(notes)@) == views(old(notes)@) + bulk_finding(bulk, disconnect).notes,
{
    let ghost o = views(notes@);
    match bulk {
        Some(b) => {
            let (_ok, lost): (u64, u64) = b;
            if lost > 0 && disconnect {
                push_line(notes, text("bulk stream died with business TCP"));
            }
        },
        None => {},
    }
    assert(views(notes@) =~= o + bulk_finding(bulk, disconnect).notes);
}

fn push_long(
    notes: &mut Vec<String>,
    case: &MixCase,
    duration_us: u64,
    snap: &SnapCounts,
    wan: &Vec<LinkWan>,
) -> (fail: bool)
    ensures
        views(final(notes)@) == views(old(notes)@) + long_finding(
            case@,
            duration_us,
            *snap,
            wan@,
        ).notes,
        fail == long_finding(case@, duration_us, *snap, wan@).fail,
{
    reveal(long_finding);
    let ghost o = views(notes@);
    if duration_us < LONG_US {
        assert(views(notes@) =~= o + nothing().notes);
        return false;
    }
    let chatter: bool = push_failbacks(notes, snap, duration_us / 1_000_000);
    let ghost f = failback_finding(*snap, duration_us as int / 1_000_000);
    if case.bulk_streams == 0 {
        return chatter;
    }
    let apart: bool = push_mix(notes, &case.links, wan);
    assert(views(notes@) =~= o + f.and(mix_finding(link_views(case.links@), wan@)).notes);
    chatter || apart
}

proof fn lemma_findings_add_up(
    o: Seq<Seq<char>>,
    f1: Finding,
    f2: Finding,
    f3: Finding,
    f4: Finding,
    f5: Finding,
)
    ensures
        o + f1.notes + f2.notes + f3.notes + f4.notes + f5.notes == o + f1.and(f2).and(f3).and(
            f4,
        ).and(f5).notes,
        f1.and(f2).and(f3).and(f4).and(f5).fail == (f1.fail || f2.fail || f3.fail || f4.fail
            || f5.fail),
{
    assert(o + f1.notes + f2.notes + f3.notes + f4.notes + f5.notes =~= o + f1.and(f2).and(f3).and(
        f4,
    ).and(f5).notes);
}

#[verifier::spinoff_prover]
fn push_findings(
    notes: &mut Vec<String>,
    case: &MixCase,
    run: &CaseRun,
    stats: &WorkloadStats,
    snap: &SnapCounts,
    missing: &Vec<Kind>,
    wan: &Vec<LinkWan>,
) -> (fail: bool)
    ensures
        views(final(notes)@) == views(old(notes)@) + findings(
            case@,
            *run,
            *stats,
            *snap,
            missing@,
            wan@,
        ).notes,
        fail == findings(case@, *run, *stats, *snap, missing@, wan@).fail,
{
    let ghost o = views(notes@);
    let l: Latency = stats.latency();
    proof {
        law_one_summary(stats.samples@, l);
    }
    let a: bool = push_coverage(notes, missing, run.duration_us);
    let b: bool = push_p50(notes, l.p50, case.p50_ms);
    let c: bool = push_ping(notes, run.ping_fail);
    push_bulk(notes, run.bulk, stats.disconnect);
    let d: bool = push_long(notes, case, run.duration_us, snap, wan);
    proof {
        lemma_findings_add_up(
            o,
            coverage_finding(missing@, run.duration_us),
            p50_finding(l.p50, case.p50_ms),
            ping_finding(run.ping_fail),
            bulk_finding(run.bulk, stats.disconnect),
            long_finding(case@, run.duration_us, *snap, wan@),
        );
    }
    a || b || c || d
}

/// What a case must meet: never, where something was found that it fails for.
pub open spec fn case_sla(case: CaseView, fail: bool) -> Sla {
    Sla {
        must_survive: true,
        p99_ms: Some(case.p99_ms),
        failover_ms: None,
        min_success: if fail {
            NEVER
        } else {
            case.min_success
        },
    }
}

/// Write a case down and judge it.
pub fn conclude(
    case: &MixCase,
    run: &CaseRun,
    stats: WorkloadStats,
    snap: SnapCounts,
    board: &Board,
    switches: &Vec<SwitchEvent>,
    wan: &Vec<LinkWan>,
    overlay: Overlay,
    now: u64,
) -> (r: ScenarioReport)
    ensures
        r.overlay == overlay,
        ({
            let ev = event_views(board.events@);
            let missing = missing_of(all_kinds(), ev);
            let said = report_lines(case@, *run, stats, snap, ev, switches@, wan@, now)
                + uncovered_notes(missing);
            let found = findings(case@, *run, stats, snap, missing, wan@);
            &&& r.name@ == case@.name + "_"@ + dur_text(run.duration_us)
            &&& r.stats == stats
            &&& r.snap == snap
            &&& r.sla == case_sla(case@, found.fail)
            &&& r.failover_observed_ms == Some(gap_in(said))
            &&& views(r.notes@) == said + found.notes
        }),
{
    let mut notes: Vec<String> = build_report(
        case,
        run,
        &stats,
        &snap,
        board,
        switches,
        wan,
        now,
    );
    let ghost lines = views(notes@);
    let missing: Vec<Kind> = board.missing();
    if missing.len() > 0 {
        push_line(&mut notes, name_missing(&missing));
    }
    assert(views(notes@) =~= lines + uncovered_notes(missing@));
    let gap: u64 = r_gap_ms(&notes);
    let fail: bool = push_findings(&mut notes, case, run, &stats, &snap, &missing, wan);
    let mut name: String = text(case.name);
    push_text(&mut name, "_");
    push_text(&mut name, fmt_dur(run.duration_us).as_str());
    let sla: Sla = Sla {
        must_survive: true,
        p99_ms: Some(case.p99_ms),
        failover_ms: None,
        min_success: if fail {
            NEVER
        } else {
            case.min_success
        },
    };
    ScenarioReport { name, stats, snap, overlay, sla, failover_observed_ms: Some(gap), notes }
}

/// The report of a case that did not run to its end.
pub fn fail_report(name: &str, err: &str) -> (r: ScenarioReport)
    ensures
        r.name@ == name@,
        r.stats.is_new(),
        r.snap == zero_snap(),
        r.overlay.is_none(),
        r.sla == (Sla {
            must_survive: true,
            p99_ms: Some(1),
            failover_ms: None,
            min_success: 950,
        }),
        r.failover_observed_ms is None,
        views(r.notes@) == seq![err@],
{
    let mut notes: Vec<String> = Vec::new();
    push_line(&mut notes, text(err));
    assert(views(notes@) =~= seq![err@]);
    ScenarioReport {
        name: text(name),
        stats: WorkloadStats::new(),
        snap: no_counts(),
        overlay: Overlay::none(),
        sla: Sla::healthy(1),
        failover_observed_ms: None,
        notes,
    }
}

// ---------------------------------------------------------------------------
// Laws
// ---------------------------------------------------------------------------
proof fn lemma_one_place(v: Seq<u64>)
    ensures
        within_ms(v, 0, 20) + within_ms(v, 20, 40) + within_ms(v, 40, 80) + within_ms(v, 80, 200)
            + within_ms(v, 200, 500) + within_ms(v, 500, 1000) + within_ms(v, 1000, 2000)
            + within_ms(v, 2000, endless()) == v.len(),
    decreases v.len(),
{
    if v.len() > 0 {
        lemma_one_place(v.drop_last());
    }
}

/// Every answered ping stands in exactly one place of the histogram.
pub proof fn law_histogram_counts_every_answer(samples: Seq<PingSample>)
    ensures
        ({
            let v = rtts_of(samples);
            within_ms(v, 0, 20) + within_ms(v, 20, 40) + within_ms(v, 40, 80) + within_ms(
                v,
                80,
                200,
            ) + within_ms(v, 200, 500) + within_ms(v, 500, 1000) + within_ms(v, 1000, 2000)
                + within_ms(v, 2000, endless()) == v.len()
        }),
{
    lemma_one_place(rtts_of(samples));
}

/// A case that runs long enough fails where a kind of fault never took place.
pub proof fn law_long_cases_cover_every_kind(
    case: CaseView,
    run: CaseRun,
    stats: WorkloadStats,
    snap: SnapCounts,
    missing: Seq<Kind>,
    wan: Seq<LinkWan>,
)
    requires
        missing.len() > 0,
        run.duration_us >= COVER_US,
    ensures
        findings(case, run, stats, snap, missing, wan).fail,
        case_sla(case, findings(case, run, stats, snap, missing, wan).fail).min_success == NEVER,
{
}

} // verus!
