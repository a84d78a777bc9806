//! The scenarios: what each runs on, what it must meet, and which of them
//! run.

use vstd::prelude::*;
use vstd::string::*;

use crate::double::{millionths, per_million, product, whole, whole_double, Double};
use crate::harness::{
    cfg_views, plain_link, plain_view, CfgView, HarnessSpec, LinkCfg, SpecView,
};
use crate::impair::ImpairConfig;
use crate::num::{capped, mul_capped};
use crate::report::Sla;
use crate::text::{contains_text, decimal, occurs, push_decimal, push_text, text};

verus! {

// ---------------------------------------------------------------------------
// Levels
// ---------------------------------------------------------------------------
pub open spec fn healthy_sla(p99_ms: u64) -> Sla {
    Sla { must_survive: true, p99_ms: Some(p99_ms), failover_ms: None, min_success: 950 }
}

pub open spec fn failover_sla(p99_ms: u64, failover_ms: u64) -> Sla {
    Sla {
        must_survive: true,
        p99_ms: Some(p99_ms),
        failover_ms: Some(failover_ms),
        min_success: 700,
    }
}

/// A level with its own share of answers, in thousandths.
pub open spec fn steady_sla(p99_ms: u64, min_success: u64) -> Sla {
    Sla { must_survive: true, p99_ms: Some(p99_ms), failover_ms: None, min_success }
}

fn steady(p99_ms: u64, min_success: u64) -> (s: Sla)
    ensures
        s == steady_sla(p99_ms, min_success),
{
    Sla { must_survive: true, p99_ms: Some(p99_ms), failover_ms: None, min_success }
}

/// With every link dark the connection must survive for less than this many
/// seconds; afterwards a reset is expected.
pub const ALL_DARK_SECS: u64 = 8;

pub open spec fn hole_sla(secs: u64) -> Sla {
    if secs < ALL_DARK_SECS {
        steady_sla(200, 800)
    } else {
        Sla { must_survive: false, p99_ms: None, failover_ms: None, min_success: 0 }
    }
}

fn hole(secs: u64) -> (s: Sla)
    ensures
        s == hole_sla(secs),
{
    if secs < ALL_DARK_SECS {
        steady(200, 800)
    } else {
        Sla { must_survive: false, p99_ms: None, failover_ms: None, min_success: 0 }
    }
}

/// Four round trips and 80 ms.
pub open spec fn delay_budget_of(ms: u64) -> u64 {
    capped(4 * ms + 80) as u64
}

pub fn delay_budget(ms: u64) -> (b: u64)
    ensures
        b == delay_budget_of(ms),
{
    mul_capped(ms, 4).saturating_add(80)
}

/// From one percent on, a single lost packet may show in the latency.
pub open spec fn loss_budget_of(ppm: u64) -> u64 {
    if ppm >= 10_000 {
        500
    } else {
        200
    }
}

pub fn loss_budget(ppm: u64) -> (b: u64)
    ensures
        b == loss_budget_of(ppm),
{
    if ppm >= 10_000 {
        500
    } else {
        200
    }
}

/// A tenth of a percent has a name of its own; other losses are named by the
/// nearest percent.
pub open spec fn loss_text(ppm: u64) -> Seq<char> {
    if product(per_million(ppm as int), whole(1000)).round() == 1 {
        "loss_a_0p1pct"@
    } else {
        "loss_a_"@ + decimal(
            capped(product(per_million(ppm as int), whole(100)).round()),
        ) + "pct"@
    }
}

fn with_number(before: &str, n: u64, after: &str) -> (s: String)
    ensures
        s@ == before@ + decimal(n as int) + after@,
{
    let mut s: String = text(before);
    push_decimal(&mut s, n);
    push_text(&mut s, after);
    s
}

pub fn loss_name(ppm: u64) -> (s: String)
    ensures
        s@ == loss_text(ppm),
{
    let loss: Double = millionths(ppm);
    if loss.times(whole_double(1000)).round_capped() == 1 {
        text("loss_a_0p1pct")
    } else {
        with_number("loss_a_", loss.times(whole_double(100)).round_capped(), "pct")
    }
}

// ---------------------------------------------------------------------------
// Test beds
// ---------------------------------------------------------------------------
pub open spec fn bed_view(links: Seq<CfgView>, connections: u32) -> SpecView {
    SpecView { links, connections, psk: "e2e-psk"@ }
}

fn bed_with(link_cfgs: Vec<LinkCfg>, connections: u32) -> (h: HarnessSpec)
    ensures
        h@ == bed_view(cfg_views(link_cfgs@), connections),
{
    HarnessSpec { link_cfgs, connections, psk: text("e2e-psk") }
}

pub open spec fn three_view(a: u64, b: u64, c: u64) -> SpecView {
    bed_view(seq![plain_view("a"@, a), plain_view("b"@, b), plain_view("c"@, c)], 2)
}

pub fn three_paths(a: u64, b: u64, c: u64) -> (h: HarnessSpec)
    ensures
        h@ == three_view(a, b, c),
{
    let v: Vec<LinkCfg> = vec![plain_link("a", a), plain_link("b", b), plain_link("c", c)];
    assert(cfg_views(v@) =~= three_view(a, b, c).links);
    bed_with(v, 2)
}

/// The first link with jitter.
pub open spec fn with_jitter(s: SpecView, us: u64) -> SpecView {
    SpecView {
        links: s.links.update(
            0,
            CfgView { cfg: ImpairConfig { jitter_us: us, ..s.links[0].cfg }, ..s.links[0] },
        ),
        ..s
    }
}

/// The first link with loss.
pub open spec fn with_loss(s: SpecView, ppm: u64) -> SpecView {
    SpecView {
        links: s.links.update(
            0,
            CfgView { cfg: ImpairConfig { loss_ppm: ppm, ..s.links[0].cfg }, ..s.links[0] },
        ),
        ..s
    }
}

fn jittery() -> (h: HarnessSpec)
    ensures
        h@ == with_jitter(three_view(10, 60, 150), 15_000),
{
    let mut a: LinkCfg = plain_link("a", 10);
    a.cfg.jitter_us = 15_000;
    let v: Vec<LinkCfg> = vec![a, plain_link("b", 60), plain_link("c", 150)];
    assert(cfg_views(v@) =~= with_jitter(three_view(10, 60, 150), 15_000).links);
    bed_with(v, 2)
}

fn lossy(ppm: u64) -> (h: HarnessSpec)
    ensures
        h@ == with_loss(three_view(10, 60, 150), ppm),
{
    let mut a: LinkCfg = plain_link("a", 10);
    a.cfg.loss_ppm = ppm;
    let v: Vec<LinkCfg> = vec![a, plain_link("b", 60), plain_link("c", 150)];
    assert(cfg_views(v@) =~= with_loss(three_view(10, 60, 150), ppm).links);
    bed_with(v, 2)
}

pub open spec fn two_view() -> SpecView {
    bed_view(seq![plain_view("a"@, 10), plain_view("b"@, 10)], 2)
}

fn two_paths() -> (h: HarnessSpec)
    ensures
        h@ == two_view(),
{
    let v: Vec<LinkCfg> = vec![plain_link("a", 10), plain_link("b", 10)];
    assert(cfg_views(v@) =~= two_view().links);
    bed_with(v, 2)
}

pub open spec fn fleet_view() -> SpecView {
    bed_view(
        seq![
            plain_view("f1"@, 10),
            plain_view("f2"@, 12),
            plain_view("f3"@, 11),
            plain_view("b1"@, 60),
            plain_view("b2"@, 65),
        ],
        2,
    )
}

/// Three fast links and two slow ones.
pub fn fleet_3x10_2x60() -> (h: HarnessSpec)
    ensures
        h@ == fleet_view(),
{
    let v: Vec<LinkCfg> = vec![
        plain_link("f1", 10),
        plain_link("f2", 12),
        plain_link("f3", 11),
        plain_link("b1", 60),
        plain_link("b2", 65),
    ];
    assert(cfg_views(v@) =~= fleet_view().links);
    bed_with(v, 2)
}

pub open spec fn one_view(ms: u64, connections: u32) -> SpecView {
    bed_view(seq![plain_view("a"@, ms)], connections)
}

pub fn one_link(ms: u64, connections: u32) -> (h: HarnessSpec)
    ensures
        h@ == one_view(ms, connections),
{
    let v: Vec<LinkCfg> = vec![plain_link("a", ms)];
    assert(cfg_views(v@) =~= one_view(ms, connections).links);
    bed_with(v, connections)
}

pub open spec fn prod_view() -> SpecView {
    bed_view(
        seq![plain_view("akcdn"@, 10), plain_view("soy"@, 10), plain_view("nsix"@, 10)],
        2,
    )
}

/// Three named providers with two connections each.
pub fn prod_like_spec() -> (h: HarnessSpec)
    ensures
        h@ == prod_view(),
{
    let v: Vec<LinkCfg> = vec![
        plain_link("akcdn", 10),
        plain_link("soy", 10),
        plain_link("nsix", 10),
    ];
    assert(cfg_views(v@) =~= prod_view().links);
    bed_with(v, 2)
}

// ---------------------------------------------------------------------------
// Scenarios
// ---------------------------------------------------------------------------
/// The scenarios.
#[derive(Clone, Copy, Debug, PartialEq, Eq, Structural)]
pub enum Scene {
    /// Three links of one class.
    Baseline,
    /// Every link with this delay, in milliseconds.
    Delay(u64),
    Hetero,
    /// The fast link with jitter.
    Jitter,
    /// The fast link with this loss, in parts per million.
    Loss(u64),
    TimedSpike,
    RandomSpikes,
    SameClass,
    /// The fast link dark for this many seconds.
    Blackhole(u64),
    /// Every link dark for this many seconds.
    BlackholeAll(u64),
    Disconnect,
    Fleet,
    FailbackFast,
    FailbackSpike,
    ShiftRestore,
    Chaos,
    IpLoss,
    Flash,
    Offline,
    MultiConn,
    ConnBlackhole,
    ProdOneConn,
    ProdOneLink,
    ProdConcurrent,
    ProdClose,
    ProdTwoIsp,
    ProdAllPath,
    ConnStall,
    ConnDisconnect,
    ConnChurn,
    SlowConsumer,
    ManyStreams,
    BulkPing,
    SpikeKeepsTcp,
    SameClassMix,
    ShortChurn,
    SocksChurn,
    ConcurrentChurn,
    AbortChurn,
    FlapChurn,
}

impl Scene {
    pub open spec fn name_text(self) -> Seq<char> {
        match self {
            Scene::Baseline => "baseline_10ms"@,
            Scene::Delay(ms) => "delay_"@ + decimal(ms as int) + "ms"@,
            Scene::Hetero => "hetero_10_60_150"@,
            Scene::Jitter => "jitter_15ms_on_a"@,
            Scene::Loss(ppm) => loss_text(ppm),
            Scene::TimedSpike => "timed_spike_a"@,
            Scene::RandomSpikes => "random_spikes_a"@,
            Scene::SameClass => "blackhole_same_class"@,
            Scene::Blackhole(secs) => "blackhole_a_"@ + decimal(secs as int) + "s"@,
            Scene::BlackholeAll(secs) => "blackhole_all_"@ + decimal(secs as int) + "s"@,
            Scene::Disconnect => "disconnect_a"@,
            Scene::Fleet => "fleet_3x10_2x60"@,
            Scene::FailbackFast => "failback_fast_paths"@,
            Scene::FailbackSpike => "failback_after_spike"@,
            Scene::ShiftRestore => "delay_shift_restore"@,
            Scene::Chaos => "chaos_independent"@,
            Scene::IpLoss => "ip_loss_retransmit"@,
            Scene::Flash => "flash_disconnect_f1"@,
            Scene::Offline => "offline_then_return"@,
            Scene::MultiConn => "multi_conn_baseline"@,
            Scene::ConnBlackhole => "one_conn_blackhole"@,
            Scene::ProdOneConn => "prod_like_one_conn_hole_first_byte"@,
            Scene::ProdOneLink => "prod_like_one_link_hole_first_byte"@,
            Scene::ProdConcurrent => "prod_like_concurrent_hole_first_byte"@,
            Scene::ProdClose => "prod_like_close_swallowed"@,
            Scene::ProdTwoIsp => "prod_like_two_isp_hole_first_byte"@,
            Scene::ProdAllPath => "prod_like_all_path_blackhole"@,
            Scene::ConnStall => "one_conn_stall"@,
            Scene::ConnDisconnect => "one_conn_disconnect"@,
            Scene::ConnChurn => "conn_churn"@,
            Scene::SlowConsumer => "slow_consumer"@,
            Scene::ManyStreams => "many_concurrent_streams"@,
            Scene::BulkPing => "bulk_plus_ping"@,
            Scene::SpikeKeepsTcp => "delay_spike_keeps_tcp"@,
            Scene::SameClassMix => "same_class_mix_warm"@,
            Scene::ShortChurn => "short_stream_churn"@,
            Scene::SocksChurn => "socks_short_churn"@,
            Scene::ConcurrentChurn => "concurrent_short_churn"@,
            Scene::AbortChurn => "abort_unread_churn"@,
            Scene::FlapChurn => "churn_during_path_flap"@,
        }
    }

    pub fn name(self) -> (s: String)
        ensures
            s@ == self.name_text(),
    {
        match self {
            Scene::Baseline => text("baseline_10ms"),
            Scene::Delay(ms) => with_number("delay_", ms, "ms"),
            Scene::Hetero => text("hetero_10_60_150"),
            Scene::Jitter => text("jitter_15ms_on_a"),
            Scene::Loss(ppm) => loss_name(ppm),
            Scene::TimedSpike => text("timed_spike_a"),
            Scene::RandomSpikes => text("random_spikes_a"),
            Scene::SameClass => text("blackhole_same_class"),
            Scene::Blackhole(secs) => with_number("blackhole_a_", secs, "s"),
            Scene::BlackholeAll(secs) => with_number("blackhole_all_", secs, "s"),
            Scene::Disconnect => text("disconnect_a"),
            Scene::Fleet => text("fleet_3x10_2x60"),
            Scene::FailbackFast => text("failback_fast_paths"),
            Scene::FailbackSpike => text("failback_after_spike"),
            Scene::ShiftRestore => text("delay_shift_restore"),
            Scene::Chaos => text("chaos_independent"),
            Scene::IpLoss => text("ip_loss_retransmit"),
            Scene::Flash => text("flash_disconnect_f1"),
            Scene::Offline => text("offline_then_return"),
            Scene::MultiConn => text("multi_conn_baseline"),
            Scene::ConnBlackhole => text("one_conn_blackhole"),
            Scene::ProdOneConn => text("prod_like_one_conn_hole_first_byte"),
            Scene::ProdOneLink => text("prod_like_one_link_hole_first_byte"),
            Scene::ProdConcurrent => text("prod_like_concurrent_hole_first_byte"),
            Scene::ProdClose => text("prod_like_close_swallowed"),
            Scene::ProdTwoIsp => text("prod_like_two_isp_hole_first_byte"),
            Scene::ProdAllPath => text("prod_like_all_path_blackhole"),
            Scene::ConnStall => text("one_conn_stall"),
            Scene::ConnDisconnect => text("one_conn_disconnect"),
            Scene::ConnChurn => text("conn_churn"),
            Scene::SlowConsumer => text("slow_consumer"),
            Scene::ManyStreams => text("many_concurrent_streams"),
            Scene::BulkPing => text("bulk_plus_ping"),
            Scene::SpikeKeepsTcp => text("delay_spike_keeps_tcp"),
            Scene::SameClassMix => text("same_class_mix_warm"),
            Scene::ShortChurn => text("short_stream_churn"),
            Scene::SocksChurn => text("socks_short_churn"),
            Scene::ConcurrentChurn => text("concurrent_short_churn"),
            Scene::AbortChurn => text("abort_unread_churn"),
            Scene::FlapChurn => text("churn_during_path_flap"),
        }
    }

    /// Left out unless long ones are asked for.
    pub open spec fn is_long(self) -> bool {
        match self {
            Scene::Blackhole(secs) => secs >= 30,
            _ => false,
        }
    }

    pub fn long(self) -> (r: bool)
        ensures
            r == self.is_long(),
    {
        match self {
            Scene::Blackhole(secs) => secs >= 30,
            _ => false,
        }
    }

    /// What the scenario must meet.
    pub open spec fn sla_of(self) -> Sla {
        match self {
            Scene::Baseline => healthy_sla(80),
            Scene::Delay(ms) => healthy_sla(delay_budget_of(ms)),
            Scene::Hetero => healthy_sla(100),
            Scene::Jitter => healthy_sla(120),
            Scene::Loss(ppm) => healthy_sla(loss_budget_of(ppm)),
            Scene::TimedSpike => failover_sla(500, 1200),
            Scene::RandomSpikes => failover_sla(500, 1500),
            Scene::SameClass => failover_sla(80, 200),
            Scene::Blackhole(_) => failover_sla(400, 1000),
            Scene::BlackholeAll(secs) => hole_sla(secs),
            Scene::Disconnect => failover_sla(200, 1000),
            Scene::Fleet => healthy_sla(50),
            Scene::FailbackFast => steady_sla(120, 850),
            Scene::FailbackSpike => steady_sla(500, 850),
            Scene::ShiftRestore => steady_sla(200, 900),
            Scene::Chaos => steady_sla(800, 750),
            Scene::IpLoss => healthy_sla(250),
            Scene::Flash => failover_sla(80, 1000),
            Scene::Offline => steady_sla(80, 900),
            Scene::MultiConn => healthy_sla(50),
            Scene::ConnBlackhole => failover_sla(80, 1000),
            Scene::ProdOneConn => steady_sla(120, 950),
            Scene::ProdOneLink => steady_sla(120, 950),
            Scene::ProdConcurrent => steady_sla(180, 900),
            Scene::ProdClose => steady_sla(400, 1000),
            Scene::ProdTwoIsp => steady_sla(180, 950),
            Scene::ProdAllPath => steady_sla(400, 1000),
            Scene::ConnStall => failover_sla(120, 1500),
            Scene::ConnDisconnect => failover_sla(80, 1000),
            Scene::ConnChurn => steady_sla(200, 800),
            Scene::SlowConsumer => healthy_sla(120),
            Scene::ManyStreams => steady_sla(150, 900),
            Scene::BulkPing => healthy_sla(150),
            Scene::SpikeKeepsTcp => steady_sla(800, 900),
            Scene::SameClassMix => healthy_sla(80),
            Scene::ShortChurn => healthy_sla(120),
            Scene::SocksChurn => healthy_sla(120),
            Scene::ConcurrentChurn => healthy_sla(120),
            Scene::AbortChurn => healthy_sla(120),
            Scene::FlapChurn => healthy_sla(150),
        }
    }

    pub fn sla(self) -> (s: Sla)
        ensures
            s == self.sla_of(),
    {
        match self {
            Scene::Baseline => Sla::healthy(80),
            Scene::Delay(ms) => Sla::healthy(delay_budget(ms)),
            Scene::Hetero => Sla::healthy(100),
            Scene::Jitter => Sla::healthy(120),
            Scene::Loss(ppm) => Sla::healthy(loss_budget(ppm)),
            Scene::TimedSpike => Sla::failover(500, 1200),
            Scene::RandomSpikes => Sla::failover(500, 1500),
            Scene::SameClass => Sla::failover(80, 200),
            Scene::Blackhole(_) => Sla::failover(400, 1000),
            Scene::BlackholeAll(secs) => hole(secs),
            Scene::Disconnect => Sla::failover(200, 1000),
            Scene::Fleet => Sla::healthy(50),
            Scene::FailbackFast => steady(120, 850),
            Scene::FailbackSpike => steady(500, 850),
            Scene::ShiftRestore => steady(200, 900),
            Scene::Chaos => steady(800, 750),
            Scene::IpLoss => Sla::healthy(250),
            Scene::Flash => Sla::failover(80, 1000),
            Scene::Offline => steady(80, 900),
            Scene::MultiConn => Sla::healthy(50),
            Scene::ConnBlackhole => Sla::failover(80, 1000),
            Scene::ProdOneConn => steady(120, 950),
            Scene::ProdOneLink => steady(120, 950),
            Scene::ProdConcurrent => steady(180, 900),
            Scene::ProdClose => steady(400, 1000),
            Scene::ProdTwoIsp => steady(180, 950),
            Scene::ProdAllPath => steady(400, 1000),
            Scene::ConnStall => Sla::failover(120, 1500),
            Scene::ConnDisconnect => Sla::failover(80, 1000),
            Scene::ConnChurn => steady(200, 800),
            Scene::SlowConsumer => Sla::healthy(120),
            Scene::ManyStreams => steady(150, 900),
            Scene::BulkPing => Sla::healthy(150),
            Scene::SpikeKeepsTcp => steady(800, 900),
            Scene::SameClassMix => Sla::healthy(80),
            Scene::ShortChurn => Sla::healthy(120),
            Scene::SocksChurn => Sla::healthy(120),
            Scene::ConcurrentChurn => Sla::healthy(120),
            Scene::AbortChurn => Sla::healthy(120),
            Scene::FlapChurn => Sla::healthy(150),
        }
    }

    /// The test bed that the scenario runs on.
    pub open spec fn bed_of(self) -> SpecView {
        match self {
            Scene::Baseline => three_view(10, 10, 10),
            Scene::Delay(ms) => three_view(ms, ms, ms),
            Scene::Hetero => three_view(10, 60, 150),
            Scene::Jitter => with_jitter(three_view(10, 60, 150), 15_000),
            Scene::Loss(ppm) => with_loss(three_view(10, 60, 150), ppm),
            Scene::TimedSpike => three_view(10, 60, 150),
            Scene::RandomSpikes => three_view(10, 60, 150),
            Scene::SameClass => two_view(),
            Scene::Blackhole(_) => three_view(10, 60, 150),
            Scene::BlackholeAll(_) => three_view(10, 10, 10),
            Scene::Disconnect => three_view(10, 60, 150),
            Scene::Fleet => fleet_view(),
            Scene::FailbackFast => fleet_view(),
            Scene::FailbackSpike => fleet_view(),
            Scene::ShiftRestore => fleet_view(),
            Scene::Chaos => fleet_view(),
            Scene::IpLoss => fleet_view(),
            Scene::Flash => fleet_view(),
            Scene::Offline => fleet_view(),
            Scene::MultiConn => one_view(10, 3),
            Scene::ConnBlackhole => one_view(10, 3),
            Scene::ProdOneConn => prod_view(),
            Scene::ProdOneLink => prod_view(),
            Scene::ProdConcurrent => prod_view(),
            Scene::ProdClose => prod_view(),
            Scene::ProdTwoIsp => prod_view(),
            Scene::ProdAllPath => prod_view(),
            Scene::ConnStall => one_view(10, 3),
            Scene::ConnDisconnect => one_view(10, 3),
            Scene::ConnChurn => one_view(10, 3),
            Scene::SlowConsumer => three_view(10, 10, 10),
            Scene::ManyStreams => three_view(10, 10, 10),
            Scene::BulkPing => three_view(10, 10, 10),
            Scene::SpikeKeepsTcp => three_view(12, 12, 12),
            Scene::SameClassMix => three_view(12, 14, 16),
            Scene::ShortChurn => three_view(10, 10, 10),
            Scene::SocksChurn => three_view(10, 10, 10),
            Scene::ConcurrentChurn => three_view(10, 10, 10),
            Scene::AbortChurn => three_view(10, 10, 10),
            Scene::FlapChurn => three_view(10, 10, 10),
        }
    }

    pub fn bed(self) -> (h: HarnessSpec)
        ensures
            h@ == self.bed_of(),
    {
        match self {
            Scene::Baseline => three_paths(10, 10, 10),
            Scene::Delay(ms) => three_paths(ms, ms, ms),
            Scene::Hetero => three_paths(10, 60, 150),
            Scene::Jitter => jittery(),
            Scene::Loss(ppm) => lossy(ppm),
            Scene::TimedSpike => three_paths(10, 60, 150),
            Scene::RandomSpikes => three_paths(10, 60, 150),
            Scene::SameClass => two_paths(),
            Scene::Blackhole(_) => three_paths(10, 60, 150),
            Scene::BlackholeAll(_) => three_paths(10, 10, 10),
            Scene::Disconnect => three_paths(10, 60, 150),
            Scene::Fleet => fleet_3x10_2x60(),
            Scene::FailbackFast => fleet_3x10_2x60(),
            Scene::FailbackSpike => fleet_3x10_2x60(),
            Scene::ShiftRestore => fleet_3x10_2x60(),
            Scene::Chaos => fleet_3x10_2x60(),
            Scene::IpLoss => fleet_3x10_2x60(),
            Scene::Flash => fleet_3x10_2x60(),
            Scene::Offline => fleet_3x10_2x60(),
            Scene::MultiConn => one_link(10, 3),
            Scene::ConnBlackhole => one_link(10, 3),
            Scene::ProdOneConn => prod_like_spec(),
            Scene::ProdOneLink => prod_like_spec(),
            Scene::ProdConcurrent => prod_like_spec(),
            Scene::ProdClose => prod_like_spec(),
            Scene::ProdTwoIsp => prod_like_spec(),
            Scene::ProdAllPath => prod_like_spec(),
            Scene::ConnStall => one_link(10, 3),
            Scene::ConnDisconnect => one_link(10, 3),
            Scene::ConnChurn => one_link(10, 3),
            Scene::SlowConsumer => three_paths(10, 10, 10),
            Scene::ManyStreams => three_paths(10, 10, 10),
            Scene::BulkPing => three_paths(10, 10, 10),
            Scene::SpikeKeepsTcp => three_paths(12, 12, 12),
            Scene::SameClassMix => three_paths(12, 14, 16),
            Scene::ShortChurn => three_paths(10, 10, 10),
            Scene::SocksChurn => three_paths(10, 10, 10),
            Scene::ConcurrentChurn => three_paths(10, 10, 10),
            Scene::AbortChurn => three_paths(10, 10, 10),
            Scene::FlapChurn => three_paths(10, 10, 10),
        }
    }
}

/// The scenarios of the matrix, in order.
pub open spec fn catalog_list() -> Seq<Scene> {
    seq![
        Scene::Baseline,
        Scene::Delay(10),
        Scene::Delay(60),
        Scene::Delay(150),
        Scene::Delay(200),
        Scene::Hetero,
        Scene::Jitter,
        Scene::Loss(0),
        Scene::Loss(1_000),
        Scene::Loss(10_000),
        Scene::Loss(30_000),
        Scene::TimedSpike,
        Scene::RandomSpikes,
        Scene::SameClass,
        Scene::Blackhole(5),
        Scene::Blackhole(15),
        Scene::Blackhole(30),
        Scene::Blackhole(60),
        Scene::Blackhole(300),
        Scene::BlackholeAll(5),
        Scene::Disconnect,
        Scene::Fleet,
        Scene::FailbackFast,
        Scene::FailbackSpike,
        Scene::ShiftRestore,
        Scene::Chaos,
        Scene::IpLoss,
        Scene::Flash,
        Scene::Offline,
        Scene::MultiConn,
        Scene::ConnBlackhole,
        Scene::ProdOneConn,
        Scene::ProdOneLink,
        Scene::ProdConcurrent,
        Scene::ProdClose,
        Scene::ProdTwoIsp,
        Scene::ProdAllPath,
        Scene::ConnStall,
        Scene::ConnDisconnect,
        Scene::ConnChurn,
        Scene::SlowConsumer,
        Scene::ManyStreams,
        Scene::BulkPing,
        Scene::SpikeKeepsTcp,
        Scene::SameClassMix,
    ]
}

pub fn catalog() -> (v: Vec<Scene>)
    ensures
        v@ == catalog_list(),
{
    let v: Vec<Scene> = vec![
        Scene::Baseline,
        Scene::Delay(10),
        Scene::Delay(60),
        Scene::Delay(150),
        Scene::Delay(200),
        Scene::Hetero,
        Scene::Jitter,
        Scene::Loss(0),
        Scene::Loss(1_000),
        Scene::Loss(10_000),
        Scene::Loss(30_000),
        Scene::TimedSpike,
        Scene::RandomSpikes,
        Scene::SameClass,
        Scene::Blackhole(5),
        Scene::Blackhole(15),
        Scene::Blackhole(30),
        Scene::Blackhole(60),
        Scene::Blackhole(300),
        Scene::BlackholeAll(5),
        Scene::Disconnect,
        Scene::Fleet,
        Scene::FailbackFast,
        Scene::FailbackSpike,
        Scene::ShiftRestore,
        Scene::Chaos,
        Scene::IpLoss,
        Scene::Flash,
        Scene::Offline,
        Scene::MultiConn,
        Scene::ConnBlackhole,
        Scene::ProdOneConn,
        Scene::ProdOneLink,
        Scene::ProdConcurrent,
        Scene::ProdClose,
        Scene::ProdTwoIsp,
        Scene::ProdAllPath,
        Scene::ConnStall,
        Scene::ConnDisconnect,
        Scene::ConnChurn,
        Scene::SlowConsumer,
        Scene::ManyStreams,
        Scene::BulkPing,
        Scene::SpikeKeepsTcp,
        Scene::SameClassMix,
    ];
    assert(v@ =~= catalog_list());
    v
}

/// The scenarios on short streams, which stay out of the matrix so that their
/// connects do not slow the others down.
pub open spec fn lifecycle_list() -> Seq<Scene> {
    seq![
        Scene::ShortChurn,
        Scene::SocksChurn,
        Scene::ConcurrentChurn,
        Scene::AbortChurn,
        Scene::FlapChurn,
    ]
}

pub fn lifecycle() -> (v: Vec<Scene>)
    ensures
        v@ == lifecycle_list(),
{
    let v: Vec<Scene> = vec![
        Scene::ShortChurn,
        Scene::SocksChurn,
        Scene::ConcurrentChurn,
        Scene::AbortChurn,
        Scene::FlapChurn,
    ];
    assert(v@ =~= lifecycle_list());
    v
}
/// Whether a scenario runs: long ones only where they are asked for, and by
/// name where a pattern is given.
pub open spec fn chosen(s: Scene, filter: Option<Seq<char>>, long: bool) -> bool {
    &&& long || !s.is_long()
    &&& match filter {
        Some(f) => occurs(s.name_text(), f),
        None => true,
    }
}

/// The scenarios that run, in order.
pub open spec fn chosen_of(v: Seq<Scene>, filter: Option<Seq<char>>, long: bool) -> Seq<Scene>
    decreases v.len(),
{
    if v.len() == 0 {
        seq![]
    } else if chosen(v.last(), filter, long) {
        chosen_of(v.drop_last(), filter, long).push(v.last())
    } else {
        chosen_of(v.drop_last(), filter, long)
    }
}

pub open spec fn filter_text(filter: Option<&str>) -> Option<Seq<char>> {
    match filter {
        Some(f) => Some(f@),
        None => None,
    }
}

pub fn select(filter: Option<&str>, long: bool) -> (v: Vec<Scene>)
    ensures
        v@ == chosen_of(catalog_list(), filter_text(filter), long),
{
    let all: Vec<Scene> = catalog();
    let mut v: Vec<Scene> = Vec::new();
    let mut i: usize = 0;
    assert(all@.take(0) =~= seq![]);
    while i < all.len()
        invariant
            i <= all@.len(),
            v@ == chosen_of(all@.take(i as int), filter_text(filter), long),
        decreases all.len() - i,
    {
        assert(all@.take(i as int + 1).drop_last() =~= all@.take(i as int));
        let s: Scene = all[i];
        let hit: bool = match filter {
            Some(f) => contains_text(s.name().as_str(), f),
            None => true,
        };
        if (long || !s.long()) && hit {
            v.push(s);
        }
        i += 1;
    }
    assert(all@.take(all@.len() as int) =~= all@);
    v
}

// ---------------------------------------------------------------------------
// Laws
// ---------------------------------------------------------------------------
proof fn lemma_chosen(v: Seq<Scene>, filter: Option<Seq<char>>, long: bool, i: int)
    requires
        0 <= i < v.len(),
    ensures
        chosen(v[i], filter, long) ==> chosen_of(v, filter, long).contains(v[i]),
    decreases v.len(),
{
    let all = chosen_of(v, filter, long);
    let before = chosen_of(v.drop_last(), filter, long);
    if i == v.len() - 1 {
        if chosen(v[i], filter, long) {
            assert(all[all.len() - 1] == v[i]);
        }
    } else {
        lemma_chosen(v.drop_last(), filter, long, i);
        if chosen(v[i], filter, long) {
            let k = choose|k: int| 0 <= k < before.len() && before[k] == v[i];
            assert(all[k] == v[i]);
        }
    }
}

proof fn lemma_chosen_only(v: Seq<Scene>, filter: Option<Seq<char>>, long: bool, k: int)
    requires
        0 <= k < chosen_of(v, filter, long).len(),
    ensures
        chosen(chosen_of(v, filter, long)[k], filter, long),
        v.contains(chosen_of(v, filter, long)[k]),
    decreases v.len(),
{
    let before = chosen_of(v.drop_last(), filter, long);
    let all = chosen_of(v, filter, long);
    if k < before.len() {
        assert(all[k] == before[k]);
        lemma_chosen_only(v.drop_last(), filter, long, k);
        let i = choose|i: int| 0 <= i < v.drop_last().len() && v.drop_last()[i] == before[k];
        assert(v[i] == before[k]);
    } else {
        assert(all[k] == v[v.len() - 1]);
    }
}

/// A scenario of the catalog runs exactly where it was chosen.
pub proof fn law_the_chosen_run(s: Scene, filter: Option<Seq<char>>, long: bool)
    requires
        catalog_list().contains(s),
    ensures
        chosen_of(catalog_list(), filter, long).contains(s) <==> chosen(s, filter, long),
{
    let v = catalog_list();
    let i = choose|i: int| 0 <= i < v.len() && v[i] == s;
    lemma_chosen(v, filter, long, i);
    let all = chosen_of(v, filter, long);
    if all.contains(s) {
        let k = choose|k: int| 0 <= k < all.len() && all[k] == s;
        lemma_chosen_only(v, filter, long, k);
    }
}

} // verus!
