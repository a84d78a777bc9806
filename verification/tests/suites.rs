use nya_core::actors::{
    coverage_for, pause_range, shuffled_kinds, Action, Actor, Board, Collapse, CollapseAction, Pause,
    Phase, Stage,
};
use nya_core::casebook::{
    build_report, conclude, fail_report, hist, lat_line, r_gap_ms, switch_since, CaseRun, LinkWan,
    PathBrief, SwitchEvent,
};
use nya_core::chance::pick_ms;
use nya_core::faults::{
    change_of, delay_shift_range, describe, extra_range, hold_range, jitter_range, loss_range,
    plan_fault, Baseline, Change, Fault, Kind,
};
use nya_core::harness::{choose_jobs, default_jobs, mixed_duration_us, HarnessSpec};
use nya_core::impair::{ImpairConfig, LinkState};
use nya_core::mixed::{
    parse_bands, peer3, peer3_slow1, peer5, peer5_slow2, suite, suite_for, LinkSpec, MixBand,
    MixCase, MixedOpts, Role, PING_TO_FLOOR_MS,
};
use nya_core::report::{
    count_failed, fmt_dur, fmt_mean, fmt_ms_us, no_counts, shows_note, suite_lines, LinkBrief,
    Overlay, ScenarioReport, Sla, NEVER,
};
use nya_core::scenarios::{catalog, lifecycle, select, Scene};
use nya_core::verdicts::{
    apply_table_invariants, error_report, finish, judge_all_dark, judge_all_path, judge_bulk,
    judge_close, judge_failback, judge_hygiene, judge_ip_loss, judge_many_streams, judge_mix,
    judge_multi_conn, judge_offline, judge_spike, judge_two_isp, link_key, merge_stats,
    note_conn_churn, note_conn_hole, note_conn_stall, note_prod_like, note_slow_consumer, show_span,
    single_probe, Away, PathLoad,
};
use nya_core::workload::{
    bulk_intact, bulk_pattern, classify_echo, EchoRead, PingSample, WorkloadStats,
};
use rand::rngs::StdRng;
use rand::SeedableRng;

fn rng() -> StdRng {
    StdRng::seed_from_u64(7)
}

fn stats_of(rtts_ms: &[u64]) -> WorkloadStats {
    let mut s = WorkloadStats::new();
    let mut at = 1_000;
    for r in rtts_ms {
        s.samples.push(PingSample {
            at,
            rtt: Some(r * 1000),
        });
        at += 40_000;
    }
    s
}

fn report_of(scene: Scene, stats: WorkloadStats) -> ScenarioReport {
    finish(scene, stats, no_counts(), Overlay::none(), None)
}

// ---------------------------------------------------------------------------
// Kinds and bands
// ---------------------------------------------------------------------------
#[test]
fn all_kinds_named() {
    assert_eq!(Kind::all().len(), 10);
    assert_eq!(Kind::mild().len(), 3);
    assert!(Kind::mild().iter().all(|k| !k.hard_down()));
}

#[test]
fn kind_names_are_the_ones_reports_show() {
    let names: Vec<&str> = Kind::all().iter().map(|k| k.name()).collect();
    assert_eq!(
        names,
        vec![
            "flash_disconnect",
            "offline",
            "blackhole",
            "delay_spike",
            "delay_shift",
            "loss_burst",
            "jitter_burst",
            "conn_blackhole",
            "conn_stall",
            "conn_disconnect"
        ]
    );
    assert!(Kind::Offline.hard_down());
    assert!(Kind::Blackhole.hard_down());
    assert!(!Kind::FlashDisconnect.hard_down());
}

#[test]
fn suite_matches_typical_mix() {
    let s = suite();
    assert_eq!(s.len(), 4);
    let names: Vec<_> = s.iter().map(|c| c.name).collect();
    assert_eq!(names, ["peer3", "peer5", "peer3_slow1", "peer5_slow2"]);
    assert_eq!(peer3().ping_streams, 3);
    assert_eq!(peer5().ping_streams, 5);
    assert_eq!(peer3_slow1().bulk_streams, 1);
    assert_eq!(peer5_slow2().bulk_streams, 2);
    assert_eq!(
        peer3()
            .links
            .iter()
            .filter(|l| l.role == Role::Peer)
            .count(),
        3
    );
    assert_eq!(
        peer5()
            .links
            .iter()
            .filter(|l| l.role == Role::Peer)
            .count(),
        5
    );
    assert_eq!(
        peer3_slow1()
            .links
            .iter()
            .filter(|l| l.role == Role::Slow)
            .count(),
        1
    );
    assert_eq!(
        peer5_slow2()
            .links
            .iter()
            .filter(|l| l.role == Role::Slow)
            .count(),
        2
    );
}

fn peer_rtts(c: &MixCase) -> Vec<u64> {
    c.links
        .iter()
        .filter(|l| l.role == Role::Peer)
        .map(|l| l.rtt_ms)
        .collect()
}

fn in_window(c: &MixCase, lo: u64, hi: u64) {
    for r in peer_rtts(c) {
        assert!(
            (lo..=hi).contains(&r),
            "{} peer rtt {r} not in {lo}-{hi}",
            c.name
        );
    }
    for l in c.links.iter().filter(|l| l.role == Role::Slow) {
        assert!(
            l.rtt_ms > hi,
            "{} slow {}={}ms should sit above peer window {hi}",
            c.name,
            l.name,
            l.rtt_ms
        );
    }
}

#[test]
fn all_bands_have_four_cases() {
    for b in MixBand::all() {
        assert_eq!(b.suite().len(), 4, "{}", b.tag());
    }
    assert_eq!(suite_for(&MixBand::all()).len(), 16);
    assert_eq!(parse_bands("all").unwrap().len(), 4);
    assert_eq!(
        parse_bands("mid,far").unwrap(),
        vec![MixBand::Mid, MixBand::Far]
    );
    assert_eq!(parse_bands("60-100").unwrap(), vec![MixBand::Mid]);
    assert!(parse_bands("nope").is_none());
}

#[test]
fn rtt_bands_match_requested_windows() {
    for c in MixBand::Near.suite() {
        in_window(&c, 11, 16);
    }
    for c in MixBand::Mid.suite() {
        in_window(&c, 60, 100);
    }
    for c in MixBand::High.suite() {
        in_window(&c, 120, 150);
    }
    for c in MixBand::Far.suite() {
        in_window(&c, 160, 200);
    }
}

#[test]
fn ping_timeout_tracks_band() {
    assert_eq!(peer3().ping_timeout(), PING_TO_FLOOR_MS);
    let far_to = MixBand::Far
        .suite()
        .iter()
        .map(|c| c.ping_timeout())
        .max()
        .unwrap();
    assert!(far_to >= 280 * 12, "far ping timeout {far_to:?}");
}

#[test]
fn bands_are_parsed_like_a_person_writes_them() {
    assert_eq!(MixBand::parse(" NEAR "), Some(MixBand::Near));
    assert_eq!(MixBand::parse("lab"), Some(MixBand::Near));
    assert_eq!(MixBand::parse("120-150"), Some(MixBand::High));
    assert_eq!(MixBand::parse("160"), Some(MixBand::Far));
    assert_eq!(MixBand::parse(""), None);
    for b in MixBand::all() {
        assert_eq!(MixBand::parse(b.tag()), Some(b));
    }
    assert_eq!(
        parse_bands("Far, near,far").unwrap(),
        vec![MixBand::Far, MixBand::Near]
    );
    assert!(parse_bands("   ").is_none());
    assert!(parse_bands("mid,").is_none());
}

#[test]
fn options_choose_cases() {
    let mut o = MixedOpts::suite(900_000_000, 6);
    assert_eq!(o.select().len(), 4);
    assert_eq!(o.jobs_for(4), 4);
    assert_eq!(o.jobs_for(9), 6);
    o.jobs = 0;
    assert_eq!(o.jobs_for(4), 1);
    o.bands = vec![];
    assert_eq!(o.select()[0].name, "peer3");
    o.bands = MixBand::all();
    o.filter = Some("peer5_slow".to_string());
    let names: Vec<&str> = o.select().iter().map(|c| c.name).collect();
    assert_eq!(
        names,
        vec![
            "peer5_slow2",
            "mid_peer5_slow2",
            "high_peer5_slow2",
            "far_peer5_slow2"
        ]
    );
}

#[test]
fn a_case_names_its_peers() {
    let c = peer3_slow1();
    assert!(c.has_slow());
    assert!(!peer5().has_slow());
    assert_eq!(c.peers(), vec!["a", "b", "c"]);
    let spec = c.spec();
    assert_eq!(spec.connections, 2);
    assert_eq!(spec.psk, "e2e-psk");
    assert_eq!(spec.link_cfgs.len(), 4);
    assert_eq!(spec.link_cfgs[3].name, "s");
    assert_eq!(spec.link_cfgs[3].cfg.rtt_us, 30_000);
    assert_eq!(spec.link_cfgs[3].cfg.loss_ppm, 500);
}

// ---------------------------------------------------------------------------
// Faults
// ---------------------------------------------------------------------------
#[test]
fn delay_shift_never_speeds_up() {
    for base in [12u64, 16, 80, 96, 130, 148, 180, 198] {
        for harsh in [false, true] {
            let (lo, hi) = delay_shift_range(base, harsh);
            assert!(lo > base, "lo={lo} base={base} harsh={harsh}");
            assert!(hi >= lo);
        }
    }
    assert_eq!(delay_shift_range(12, false), (70, 110));
    assert_eq!(delay_shift_range(16, false), (70, 110));
}

#[test]
fn high_rtt_faults_are_harsher() {
    let near_j = jitter_range(12, false, false);
    let far_j = jitter_range(180, false, false);
    assert!(far_j.0 > near_j.0 && far_j.1 > near_j.1);
    let near_l = loss_range(12, false, false);
    let far_l = loss_range(180, false, false);
    assert!(far_l.0 > near_l.0 && far_l.1 > near_l.1);
    let far_x = extra_range(180, false, false);
    assert!(far_x.0 >= 180 && far_x.1 >= 360);
}

fn parts_per_million(lo: f64, hi: f64) -> (u64, u64) {
    ((lo * 1_000_000.0) as u64, (hi * 1_000_000.0) as u64)
}

#[test]
fn fault_strengths_are_exact() {
    assert_eq!(delay_shift_range(100, false), (170, 250));
    assert_eq!(delay_shift_range(100, true), (180, 280));
    assert_eq!(delay_shift_range(30, false), (80, 180));
    assert_eq!(extra_range(30, true, false), (20, 60));
    assert_eq!(extra_range(300, true, false), (37, 100));
    assert_eq!(extra_range(12, false, true), (120, 400));
    assert_eq!(extra_range(200, false, true), (200, 400));
    assert_eq!(jitter_range(258, true, false), (12, 25));
    assert_eq!(jitter_range(100, false, true), (20, 50));
    for base in 0..1000u64 {
        let rtt = base as f64;
        let lo = (0.01 + rtt / 20_000.0).min(0.04);
        let hi = (0.03 + rtt / 8_000.0).min(0.08).max(lo + 0.005);
        assert_eq!(loss_range(base, true, true), parts_per_million(lo, hi));
        let near = base <= 24;
        let lo = if near { 0.08 } else { (0.08 + rtt / 4_000.0).min(0.22) };
        let hi = if near { 0.18 } else { (0.18 + rtt / 2_500.0).min(0.30).max(lo + 0.02) };
        assert_eq!(loss_range(base, false, true), parts_per_million(lo, hi));
        let lo = if near { 0.04 } else { (0.04 + rtt / 5_000.0).min(0.15) };
        let hi = if near { 0.12 } else { (0.12 + rtt / 2_500.0).min(0.22).max(lo + 0.02) };
        assert_eq!(loss_range(base, false, false), parts_per_million(lo, hi));
    }
    assert_eq!(loss_range(30, true, false), (11_500, 33_750));
    assert_eq!(loss_range(10_000, true, false), (40_000, 80_000));
    assert_eq!(loss_range(100, false, false), (60_000, 160_000));
    assert_eq!(loss_range(100, false, true), (105_000, 220_000));
    assert_eq!(loss_range(900, false, true), (220_000, 300_000));
    assert_eq!(hold_range(Kind::Offline, false, true), (4000, 8000));
    assert_eq!(hold_range(Kind::DelaySpike, true, false), (400, 1200));
    assert_eq!(hold_range(Kind::ConnDisconnect, false, false), (200, 200));
}

#[test]
fn planned_faults_keep_to_their_ranges() {
    let mut r = rng();
    for _ in 0..50 {
        let f = plan_fault(Kind::DelayShift, 100, false, false, &mut r);
        assert!((2500..=7000).contains(&f.hold_ms));
        match f.change {
            Change::Rtt(ms) => assert!((170..=250).contains(&ms)),
            _ => panic!("a shift changes the delay"),
        }
        let j = plan_fault(Kind::JitterBurst, 30, true, false, &mut r);
        match j.change {
            Change::Jitter(ms) => assert!((6..=14).contains(&ms)),
            _ => panic!("a burst changes the jitter"),
        }
    }
    assert_eq!(pick_ms(&mut r, 5, 5), 5);
    assert_eq!(pick_ms(&mut r, 9, 5), 9);
}

#[test]
fn changes_are_described() {
    assert_eq!(describe(change_of(Kind::FlashDisconnect, 0)), "rst_all");
    assert_eq!(describe(change_of(Kind::Offline, 0)), "blackhole+rst");
    assert_eq!(describe(change_of(Kind::Blackhole, 0)), "");
    assert_eq!(describe(change_of(Kind::DelaySpike, 90)), "extra=90ms");
    assert_eq!(describe(change_of(Kind::DelayShift, 90)), "rtt→90ms");
    assert_eq!(describe(change_of(Kind::LossBurst, 41_600)), "loss=0.042");
    assert_eq!(describe(change_of(Kind::JitterBurst, 7)), "jitter=7ms");
    assert_eq!(describe(change_of(Kind::ConnBlackhole, 0)), "conn0");
    assert_eq!(describe(change_of(Kind::ConnStall, 0)), "conn0");
    assert_eq!(describe(change_of(Kind::ConnDisconnect, 0)), "rst_conn0");
}

#[test]
fn restore_undoes_every_change() {
    let spec = LinkSpec {
        name: "a",
        rtt_ms: 12,
        jitter_ms: 2,
        loss_ppm: 1000,
        role: Role::Peer,
    };
    let b = Baseline::of(&spec);
    assert_eq!(b.rtt_us, 12_000);
    for kind in Kind::all() {
        let mut l = LinkState::new(&ImpairConfig {
            rtt_us: b.rtt_us,
            jitter_us: b.jitter_us,
            loss_ppm: b.loss_ppm,
            blackhole: false,
        });
        l.add_conn();
        l.add_conn();
        l.change(change_of(kind, 77));
        match kind {
            Kind::Blackhole | Kind::Offline => assert!(l.blackhole),
            Kind::DelaySpike => assert_eq!(l.extra_us, 77_000),
            Kind::DelayShift => assert_eq!(l.rtt_us, 77_000),
            Kind::LossBurst => assert_eq!(l.loss_ppm, 77),
            Kind::JitterBurst => assert_eq!(l.jitter_us, 77_000),
            Kind::ConnBlackhole => assert!(l.conns[0].blackhole && !l.conns[1].blackhole),
            Kind::ConnStall => assert!(l.conns[0].stall),
            Kind::ConnDisconnect => assert_eq!(l.live_conn_count(), 1),
            Kind::FlashDisconnect => assert_eq!(l.kills, 0),
        }
        l.restore(b);
        assert_eq!(
            (l.rtt_us, l.jitter_us, l.loss_ppm, l.extra_us, l.blackhole),
            (12_000, 2_000, 1000, 0, false)
        );
        assert!(l.conns.iter().all(|c| !c.blackhole && !c.stall));
    }
}

// ---------------------------------------------------------------------------
// Actors
// ---------------------------------------------------------------------------
#[test]
fn shuffles_keep_every_kind() {
    let mut r = rng();
    let v = shuffled_kinds(&mut r);
    assert_eq!(v.len(), 10);
    for k in Kind::all() {
        assert!(v.contains(&k));
    }
    let other: Vec<Vec<Kind>> = (0..20).map(|_| shuffled_kinds(&mut r)).collect();
    assert!(other.iter().any(|o| *o != Kind::all()));
}

#[test]
fn coverage_rotates_by_three() {
    let all = Kind::all();
    let c = coverage_for(&all, 2, Role::Peer);
    assert_eq!(c[0], Kind::JitterBurst);
    assert_eq!(c[9], Kind::LossBurst);
    assert_eq!(c.len(), 10);
    let d = coverage_for(&all, 4, Role::Peer);
    assert_eq!(d[0], Kind::Blackhole);
    assert_eq!(coverage_for(&all, 1, Role::Slow), Kind::mild());
}

#[test]
fn the_board_limits_links_that_are_down() {
    let mut b = Board::new(2, false);
    assert!(b.take_hard());
    assert!(b.take_hard());
    assert!(!b.take_hard());
    b.give_hard();
    b.storm = true;
    assert!(!b.take_hard());
    assert_eq!(Board::new(0, false).max_hard, 1);
}

#[test]
fn an_actor_walks_its_list_then_picks_at_random() {
    let mut b = Board::new(1, false);
    let mut a = Actor::new(vec![Kind::Offline, Kind::LossBurst], Role::Peer);
    let end = 100_000_000;
    assert_eq!(
        a.advance(&mut b, 0, end, 900, Kind::Offline),
        Action::Sleep(900)
    );
    assert_eq!(
        a.advance(&mut b, 0, end, 1, Kind::Offline),
        Action::Fire(Kind::Offline)
    );
    assert_eq!(b.hard, 1);
    // another actor finds no place and tries again
    let mut other = Actor::new(vec![Kind::Blackhole], Role::Peer);
    other.advance(&mut b, 0, end, 5, Kind::Offline);
    assert_eq!(
        other.advance(&mut b, 0, end, 5, Kind::Offline),
        Action::Sleep(400)
    );
    assert_eq!(
        other.advance(&mut b, end - 4_000_000, end, 7, Kind::Offline),
        Action::Sleep(7)
    );
    assert_eq!(
        a.advance(&mut b, 0, end, 1600, Kind::Offline),
        Action::Sleep(1600)
    );
    assert_eq!(b.hard, 0);
    a.advance(&mut b, 0, end, 900, Kind::Offline);
    assert_eq!(
        a.advance(&mut b, 0, end, 900, Kind::Offline),
        Action::Fire(Kind::LossBurst)
    );
    a.advance(&mut b, 0, end, 900, Kind::Offline);
    // the list is over
    assert_eq!(
        a.advance(&mut b, 0, end, 2000, Kind::Offline),
        Action::Sleep(2000)
    );
    assert_eq!(a.phase, Phase::Random);
    b.storm = true;
    assert_eq!(
        a.advance(&mut b, 0, end, 2000, Kind::Blackhole),
        Action::Fire(Kind::DelaySpike)
    );
    b.storm = false;
    a.advance(&mut b, 0, end, 2000, Kind::Offline);
    assert_eq!(
        a.advance(&mut b, 0, end, 2000, Kind::Blackhole),
        Action::Fire(Kind::Blackhole)
    );
    assert_eq!(b.hard, 1);
    assert_eq!(
        a.advance(&mut b, end - 6_000_000, end, 2000, Kind::Offline),
        Action::Stop
    );
    assert_eq!(b.hard, 0);
    assert_eq!(a.phase, Phase::Done);
}

#[test]
fn a_slow_actor_stays_mild() {
    let mut b = Board::new(3, true);
    let mut a = Actor::new(Kind::mild(), Role::Slow);
    let mut r = rng();
    let mut now = 0;
    let end = 600_000_000;
    let mut fired = 0;
    while fired < 20 {
        match a.step(&mut b, now, end, &mut r) {
            Action::Sleep(ms) => {
                assert!((4000..=20000).contains(&ms));
                now += ms * 1000;
            }
            Action::Fire(k) => {
                assert!(Kind::mild().contains(&k));
                fired += 1;
            }
            Action::Stop => break,
        }
        assert_eq!(b.hard, 0);
    }
    assert!(fired >= 3);
    assert_eq!(pause_range(Pause::Gap, true, false), (800, 2500));
    assert_eq!(pause_range(Pause::Idle, false, false), (800, 3500));
    assert_eq!(pause_range(Pause::Loop, false, false), (2000, 8000));
}

#[test]
fn peers_collapse_at_most_twice() {
    let mut b = Board::new(2, false);
    let mut c = Collapse::new();
    let end = 3_600_000_000;
    let mut now = 0;
    let mut dark = 0;
    let mut r = rng();
    loop {
        match c.step(&mut b, 3, now, end, now / 1000, &mut r) {
            CollapseAction::Sleep(ms) => now += ms * 1000 + 1,
            CollapseAction::Darken(ms) => {
                assert!(b.storm);
                assert!((800..=1500).contains(&ms));
                dark += 1;
                now += ms * 1000;
            }
            CollapseAction::Lift => assert!(!b.storm),
            CollapseAction::Stop => break,
        }
    }
    assert_eq!(dark, 2);
    assert!(!b.storm);
    assert_eq!(b.events.len(), 2);
    assert_eq!(b.events[0].link, "*");
    assert_eq!(b.events[0].note, "peers=3");
    assert!(b.events[0].kind.is_none());
}

#[test]
fn a_collapse_waits_for_links_that_are_down() {
    let mut b = Board::new(2, false);
    assert!(b.take_hard());
    let mut c = Collapse::new();
    let end = 3_600_000_000;
    assert_eq!(
        c.advance(&mut b, 3, 0, end, 0, 180, 900),
        CollapseAction::Sleep(180_000)
    );
    c.advance(&mut b, 3, 1_000, end, 0, 180, 900);
    assert!(b.storm);
    assert_eq!(c.stage, Stage::Quiesce(4_001_000));
    assert_eq!(
        c.advance(&mut b, 3, 2_000, end, 0, 180, 900),
        CollapseAction::Sleep(50)
    );
    assert_eq!(
        c.advance(&mut b, 3, 4_001_000, end, 0, 180, 900),
        CollapseAction::Darken(900)
    );
    assert_eq!(
        c.advance(&mut b, 3, 5_000_000, end, 0, 180, 900),
        CollapseAction::Lift
    );
    assert_eq!(
        c.advance(&mut b, 3, end - 20_000_000, end, 0, 180, 900),
        CollapseAction::Stop
    );
}

// ---------------------------------------------------------------------------
// The account of a case
// ---------------------------------------------------------------------------
#[test]
fn histogram_and_latencies_are_written_out() {
    let mut s = stats_of(&[5, 19, 20, 39, 40, 199, 200, 999, 1000, 2500]);
    s.timeouts = 3;
    assert_eq!(
        hist(&s),
        "<20=2 20-40=2 40-80=1 80-200=1 200-500=1 500-1000=1 1000-2000=1 ≥2000=1 timeout=3"
    );
    let t = stats_of(&[10, 20, 30]);
    assert_eq!(
        lat_line(&t),
        "n=3/3 ok=1.000 min=10.0 avg=20.0 p50=20.0 p90=30.0 p95=30.0 p99=30.0 max=30.0"
    );
    assert_eq!(
        lat_line(&WorkloadStats::new()),
        "n=0/0 ok=0.000 min=- avg=- p50=- p90=- p95=- p99=- max=-"
    );
}

#[test]
fn the_gap_is_read_from_the_notes() {
    let notes = vec![
        "x max_ok_gap_ms=9".to_string(),
        "max_ok_gap_ms=120".to_string(),
        "max_ok_gap_ms=7".to_string(),
    ];
    assert_eq!(r_gap_ms(&notes), 120);
    assert_eq!(r_gap_ms(&vec!["max_ok_gap_ms=+5".to_string()]), 5);
    assert_eq!(r_gap_ms(&vec!["max_ok_gap_ms=x".to_string()]), 0);
    assert_eq!(
        r_gap_ms(&vec!["max_ok_gap_ms=18446744073709551616".to_string()]),
        0
    );
    assert_eq!(r_gap_ms(&vec![]), 0);
}

#[test]
fn switches_show_what_moved() {
    let prev = no_counts();
    let mut now = no_counts();
    let paths = vec![
        PathBrief {
            name: "b#0".to_string(),
            rtt_us: 60_900,
            stable_rtt_us: 61_000,
            class_rtt_us: 62_000,
            alive: true,
        },
        PathBrief {
            name: "a#0".to_string(),
            rtt_us: 10_000,
            stable_rtt_us: 11_000,
            class_rtt_us: 12_000,
            alive: false,
        },
    ];
    assert!(switch_since(&prev, &now, &paths, 5).is_none());
    now.failbacks_upgrade = 4;
    assert!(switch_since(&prev, &now, &paths, 5).is_none());
    now.migrates = 2;
    let e = switch_since(&prev, &now, &paths, 5).unwrap();
    assert_eq!(
        (e.t_ms, e.migrates, e.failbacks_upgrade, e.alive),
        (5, 2, 4, 1)
    );
    assert_eq!(e.path_rtts, "a#0=10/11/12ms,b#0=60/61/62ms");
}

fn wan(name: &str, bytes: u64) -> LinkWan {
    LinkWan {
        name: name.to_string(),
        rtt_us: 12_000,
        jitter_us: 2_000,
        loss_ppm: 1000,
        drops: 1,
        retrans: 2,
        bytes_fwd: bytes,
        bytes_rev: 0,
        conns: 2,
    }
}

fn run_of(secs: u64) -> CaseRun {
    CaseRun {
        duration_us: secs * 1_000_000,
        n_ping: 3,
        harsh: false,
        bulk: Some((4, 0)),
        ping_fail: 0,
    }
}

fn full_board() -> Board {
    let mut b = Board::new(2, false);
    for k in Kind::all() {
        b.note_fault(
            "a",
            &Fault {
                kind: k,
                hold_ms: 200,
                change: change_of(k, 5),
            },
            17,
        );
    }
    b
}

#[test]
fn a_case_is_written_down() {
    let case = peer3_slow1();
    let b = full_board();
    let lines = build_report(
        &case,
        &run_of(61),
        &stats_of(&[10, 20]),
        &no_counts(),
        &b,
        &vec![SwitchEvent {
            t_ms: 9,
            migrates: 1,
            failbacks: 2,
            failbacks_upgrade: 3,
            failbacks_class_empty: 4,
            hol_rebalances: 5,
            path_down: 6,
            path_added: 7,
            alive: 8,
            path_rtts: "p".to_string(),
        }],
        &vec![wan("a", 10), wan("s", 20)],
        0,
    );
    assert_eq!(
        lines[0],
        "duration=1m1s case=peer3_slow1 harsh=false pings=3 bulk=ok=4 fail=0 ping_fail=0 \
         a[Peer]=12ms±2ms/0.1% s[Slow]=12ms±2ms/0.1%"
    );
    assert!(lines[1].starts_with("TOP n=2/2 "));
    assert!(lines[3].ends_with("max_ok_gap_ms=40"));
    assert_eq!(lines[5], "--- coverage kind×link ---");
    assert_eq!(lines[6], "  flash_disconnect   a=1 b=0 c=0 s=0 sum=1");
    assert_eq!(lines[16], "fault_events=10 switch_events=1");
    assert!(lines[18].starts_with("  min00 n=2/2"));
    assert_eq!(lines[19], "--- faults (t_ms link kind hold note) ---");
    assert_eq!(
        lines[20],
        "  t=     17 a    flash_disconnect   hold=200   rst_all"
    );
    assert_eq!(
        lines[31],
        "  t=      9 mig=+1 fb=+2 up=+3 empty=+4 hol=+5 down=+6 add=+7 alive=8 [p]"
    );
    assert_eq!(
        lines[33],
        "  a rtt=12ms jitter=2ms loss=0.001 wan_drops=1 retrans=2 bytes=10/0 conns=2"
    );
    assert_eq!(lines.len(), 35);
}

#[test]
fn a_good_case_passes_and_a_bad_one_says_why() {
    let case = peer3();
    let mut run = run_of(600);
    run.bulk = None;
    let good = conclude(
        &case,
        &run,
        stats_of(&[10, 20, 30]),
        no_counts(),
        &full_board(),
        &vec![],
        &vec![wan("a", 5)],
        Overlay::none(),
        0,
    );
    assert_eq!(good.name, "peer3_10m0s");
    assert!(good.pass());
    assert_eq!(good.failover_observed_ms, Some(0));
    assert!(good.notes.contains(&"failbacks_per_min=0.0".to_string()));

    // nothing took place
    let bare = conclude(
        &case,
        &run,
        stats_of(&[10, 20, 30]),
        no_counts(),
        &Board::new(2, false),
        &vec![],
        &vec![],
        Overlay::none(),
        0,
    );
    assert!(!bare.pass());
    assert!(bare.notes.iter().any(|n| n.starts_with("UNCOVERED kinds: flash_disconnect,offline")));
    assert!(bare.notes.contains(&"coverage incomplete".to_string()));

    // a short run is not held to it
    let mut short = run_of(479);
    short.bulk = None;
    let ok = conclude(
        &case,
        &short,
        stats_of(&[10, 20, 30]),
        no_counts(),
        &Board::new(2, false),
        &vec![],
        &vec![],
        Overlay::none(),
        0,
    );
    assert!(ok.pass());

    // slow median, chatter, a panicked task
    let mut snap = no_counts();
    snap.failbacks = 250;
    run.ping_fail = 1;
    let bad = conclude(
        &case,
        &run,
        stats_of(&[50, 51, 52]),
        snap,
        &full_board(),
        &vec![],
        &vec![],
        Overlay::none(),
        0,
    );
    assert!(!bad.pass());
    assert!(bad
        .notes
        .contains(&"p50=51000us left peer class (limit 40ms)".to_string()));
    assert!(bad.notes.contains(&"ping tasks panicked: 1".to_string()));
    assert!(bad
        .notes
        .contains(&"failback chatter 25.0/min (limit 25)".to_string()));
    assert_eq!(bad.sla.min_success, NEVER);
}

#[test]
fn bulk_must_mix_across_peers() {
    let case = peer3_slow1();
    let mut run = run_of(300);
    run.bulk = Some((3, 1));
    let mut s = stats_of(&[10, 20]);
    s.disconnect = true;
    let r = conclude(
        &case,
        &run,
        s,
        no_counts(),
        &full_board(),
        &vec![],
        &vec![wan("a", 95), wan("b", 5), wan("s", 900)],
        Overlay::none(),
        0,
    );
    assert!(r.notes.contains(&"peer_wan_10pct_names=1 total=100".to_string()));
    assert!(r
        .notes
        .contains(&"bulk did not mix across ≥2 peer names at 10% WAN bytes".to_string()));
    assert!(r.notes.contains(&"bulk stream died with business TCP".to_string()));
    let even = conclude(
        &case,
        &run_of(300),
        stats_of(&[10, 20]),
        no_counts(),
        &full_board(),
        &vec![],
        &vec![wan("a", 90), wan("b", 10)],
        Overlay::none(),
        0,
    );
    assert!(even.pass());
}

#[test]
fn broken_runs_are_reported() {
    let f = fail_report("peer3 (error)", "no path");
    assert_eq!(f.notes, vec!["no path".to_string()]);
    assert!(!f.pass());
    let e = error_report("conn_churn", "boom");
    assert_eq!(e.name, "conn_churn (error)");
    assert!(!e.pass());
}

// ---------------------------------------------------------------------------
// Reports
// ---------------------------------------------------------------------------
#[test]
fn a_report_passes_by_its_level() {
    let mut r = report_of(Scene::Baseline, stats_of(&[10; 20]));
    assert!(r.pass());
    r.stats.disconnect = true;
    assert!(!r.pass());
    r.stats.disconnect = false;
    r.sla = Sla::healthy(9);
    assert!(!r.pass());
    r.sla = Sla::failover(80, 100);
    r.failover_observed_ms = Some(101);
    assert!(!r.pass());
    r.failover_observed_ms = Some(100);
    assert!(r.pass());
    r.stats.samples.push(PingSample { at: 1, rtt: None });
    r.stats.samples.push(PingSample { at: 2, rtt: None });
    r.sla = Sla::healthy(80);
    assert!(!r.pass());
    r.sla.force_fail();
    assert!(!r.pass());
}

#[test]
fn numbers_are_rounded_to_the_nearest() {
    assert_eq!(fmt_ms_us(Some(12_349)), "12.3");
    assert_eq!(fmt_ms_us(Some(12_351)), "12.4");
    // a tie goes to the even digit
    assert_eq!(fmt_ms_us(Some(1_250)), "1.2");
    assert_eq!(fmt_ms_us(Some(1_750)), "1.8");
    // what looks like a tie lies on one side of it in binary
    assert_eq!(fmt_ms_us(Some(350)), "0.3");
    assert_eq!(fmt_ms_us(Some(12_350)), "12.3");
    assert_eq!(fmt_ms_us(Some(450)), "0.5");
    for us in (0..100_000u64).step_by(50) {
        assert_eq!(fmt_ms_us(Some(us)), format!("{:.1}", us as f64 / 1000.0));
    }
    assert_eq!(fmt_mean(Some((2_500, 2))), "1.2");
    assert_eq!(describe(Change::Loss(62_500)), "loss=0.062");
    assert_eq!(describe(Change::Loss(187_500)), "loss=0.188");
    assert_eq!(fmt_ms_us(None), "-");
    assert_eq!(fmt_mean(Some((25_000, 2))), "12.5");
    assert_eq!(fmt_mean(None), "-");
    assert_eq!(fmt_dur(61_000_000), "1m1s");
    assert_eq!(fmt_dur(59_999_999), "59s");
    assert_eq!(fmt_dur(999_999), "999ms");
}

#[test]
fn a_suite_is_printed() {
    let mut a = report_of(Scene::Baseline, stats_of(&[10, 20, 30]));
    a.notes.push("churn=4".to_string());
    a.notes.push("FAIL hidden while it passes".to_string());
    a.overlay = Overlay {
        stall_p99_ms: Some(7),
        failover_p99_ms: None,
        links: vec![LinkBrief {
            name: "a".to_string(),
            up: 2,
            degraded: 1,
            rtt_us: 10_400,
        }],
    };
    let mut b = report_of(Scene::Disconnect, WorkloadStats::new());
    b.notes.push("p50=1".to_string());
    b.notes.push("quiet".to_string());
    let all = vec![a, b];
    assert_eq!(count_failed(&all), 1);
    let lines = suite_lines(&all);
    assert_eq!(lines[0], "");
    assert_eq!(lines[1], "SCENARIO                     SLA   DETAIL");
    assert!(lines[2].starts_with("baseline_10ms                PASS  surv=true n=3/3 ok_rate=1.000 min=10.0"));
    assert!(lines[2].contains(" gap=-        to=0 err=0 "));
    assert_eq!(
        lines[3],
        "    note: overlay stall_p99=7ms failover_p99=-ms resets=0 closed=0 opened=0 held=0 live=0"
    );
    assert_eq!(
        lines[4],
        "    note: links=a:2/1 10ms mig spec=0 down=0 ens=0 blk=0 retransmit=0 hedge=0 probe_miss=0 unk_pick=0/0"
    );
    assert_eq!(lines[5], "    note: churn=4");
    assert!(lines[6].starts_with("disconnect_a                 FAIL "));
    assert_eq!(lines[9], "    note: p50=1");
    assert_eq!(lines[10], "");
    assert_eq!(
        lines[11],
        "SCENARIO                         n   ok%     min     avg     p50     p90     p99     max     gap"
    );
    assert_eq!(
        lines[12],
        "baseline_10ms                    3   100    10.0    20.0    20.0    30.0    30.0    30.0       -"
    );
    assert_eq!(lines[lines.len() - 1], "ran 2  pass 1  fail 1");
    assert!(all[0].kept().ends_with("note: churn=4\n    note: FAIL hidden while it passes\n"));
    assert!(all[0].kept().starts_with("churn=4\nFAIL hidden while it passes\nbaseline_10ms"));
}

#[test]
fn notes_are_shown_by_what_they_say() {
    assert!(shows_note("x churn=1", true));
    assert!(!shows_note("FAILBACK_INCOMPLETE", true));
    assert!(shows_note("FAILBACK_INCOMPLETE", false));
    assert!(shows_note("coverage incomplete", false));
    assert!(!shows_note("all well", false));
}

// ---------------------------------------------------------------------------
// Scenarios and their verdicts
// ---------------------------------------------------------------------------
#[test]
fn the_catalog_is_chosen_by_name_and_length() {
    let names: Vec<String> = catalog().iter().map(|s| s.name()).collect();
    assert_eq!(names.len(), 45);
    assert_eq!(names[0], "baseline_10ms");
    assert_eq!(names[3], "delay_150ms");
    assert_eq!(names[8], "loss_a_0p1pct");
    assert_eq!(names[10], "loss_a_3pct");
    assert_eq!(names[18], "blackhole_a_300s");
    assert_eq!(names[44], "same_class_mix_warm");
    assert_eq!(select(None, false).len(), 42);
    assert_eq!(select(None, true).len(), 45);
    assert_eq!(select(Some("blackhole_a_"), true).len(), 5);
    assert_eq!(select(Some("blackhole_a_"), false).len(), 2);
    assert_eq!(select(Some("nothing"), true).len(), 0);
    let life: Vec<String> = lifecycle().iter().map(|s| s.name()).collect();
    assert_eq!(life[1], "socks_short_churn");
    assert_eq!(life.len(), 5);
}

#[test]
fn scenes_know_their_level_and_their_bed() {
    assert_eq!(Scene::Delay(150).sla(), Sla::healthy(680));
    assert_eq!(Scene::Loss(1_000).sla(), Sla::healthy(200));
    assert_eq!(Scene::Loss(10_000).sla(), Sla::healthy(500));
    assert_eq!(Scene::SameClass.sla(), Sla::failover(80, 200));
    assert_eq!(Scene::BlackholeAll(5).sla().min_success, 800);
    assert!(!Scene::BlackholeAll(8).sla().must_survive);
    let jitter = Scene::Jitter.bed();
    assert_eq!(jitter.link_cfgs[0].cfg.jitter_us, 15_000);
    assert_eq!(jitter.link_cfgs[1].cfg.jitter_us, 0);
    assert_eq!(Scene::Loss(30_000).bed().link_cfgs[0].cfg.loss_ppm, 30_000);
    let fleet = Scene::Chaos.bed();
    let names: Vec<&str> = fleet.link_cfgs.iter().map(|l| l.name.as_str()).collect();
    assert_eq!(names, vec!["f1", "f2", "f3", "b1", "b2"]);
    assert_eq!(Scene::ConnChurn.bed().connections, 3);
    assert_eq!(Scene::ProdClose.bed().link_cfgs[2].name, "nsix");
}

#[test]
fn a_bed_takes_time_to_come_up() {
    let d = HarnessSpec::default();
    assert_eq!(d.link_cfgs.len(), 3);
    assert_eq!(d.expected_paths(), 6);
    assert_eq!(d.handshake_timeout_us(), 4_500_000);
    assert_eq!(d.ready_timeout_us(), 14_000_000);
    let near = Scene::Baseline.bed();
    assert_eq!(near.handshake_timeout_us(), 3_000_000);
    let none = HarnessSpec {
        link_cfgs: vec![],
        connections: 0,
        psk: String::new(),
    };
    assert_eq!(none.connections_per_link(), 1);
    assert_eq!(none.expected_paths(), 1);
    assert_eq!(none.ready_timeout_us(), 8_400_000);
    assert_eq!(default_jobs(None), 8);
    assert_eq!(default_jobs(Some(1)), 2);
    assert_eq!(default_jobs(Some(99)), 16);
    assert_eq!(choose_jobs(0, true, 16), 4);
    assert_eq!(choose_jobs(0, false, 16), 16);
    assert_eq!(choose_jobs(9, true, 16), 9);
    assert_eq!(mixed_duration_us(None), 900_000_000);
    assert_eq!(mixed_duration_us(Some(45)), 45_000_000);
}

#[test]
fn failbacks_must_complete() {
    let mut r = report_of(Scene::FailbackFast, stats_of(&[10; 10]));
    r.snap.failbacks = 3;
    judge_failback(&mut r, Away::Blackhole(9_000), 61_000, 12_000);
    assert_eq!(
        r.notes[0],
        "p50_warm=9000us p50_backup=61000us p50_after=12000us failbacks=3"
    );
    assert!(r.pass());
    judge_failback(&mut r, Away::Shift, 61_000, 35_001);
    assert_eq!(r.notes[1], "p50_shifted=61000us p50_after=35001us failbacks=3");
    assert_eq!(r.notes[2], "FAILBACK_INCOMPLETE: still on high-rtt path");
    assert!(!r.pass());
    let mut s = report_of(Scene::FailbackSpike, stats_of(&[10; 10]));
    judge_failback(&mut s, Away::Spike, 1, 35_000);
    assert_eq!(s.notes, vec!["p50_backup=1us p50_after=35000us failbacks=0"]);
    let mut o = report_of(Scene::Offline, stats_of(&[10; 10]));
    judge_offline(&mut o, 40_000);
    assert!(!o.pass());
}

#[test]
fn dark_links_are_survived_for_a_while() {
    let mut during = WorkloadStats::new();
    during.timeouts = 9;
    let mut r = report_of(Scene::BlackholeAll(5), stats_of(&[10; 10]));
    judge_all_dark(&mut r, 5, &during);
    assert_eq!(r.notes[0], "during_hole timeouts=9 survive=true");
    assert!(r.pass());
    during.disconnect = true;
    judge_all_dark(&mut r, 5, &during);
    assert!(!r.pass());
    let mut l = report_of(Scene::BlackholeAll(9), WorkloadStats::new());
    judge_all_dark(&mut l, 9, &during);
    assert_eq!(l.notes[0], "RST after all-down timeout is expected");
    assert!(l.pass());
}

#[test]
fn connection_notes_and_counts() {
    let mut r = report_of(Scene::ConnBlackhole, stats_of(&[10, 20, 30]));
    r.snap.migrates = 2;
    note_conn_hole(&mut r, 1);
    assert_eq!(r.notes[0], "p50=20000us migrates=2 drops=0 paths=1");
    note_conn_stall(&mut r, 3);
    assert_eq!(r.notes[1], "migrates=2 send_drops=0 alive=3");
    note_conn_churn(&mut r);
    assert_eq!(r.notes[2], "path_down=0 path_added=0 resets=0");
    note_slow_consumer(&mut r, 6);
    assert_eq!(r.notes[3], "resets=0 alive=6");
    let mut m = report_of(Scene::MultiConn, stats_of(&[10; 5]));
    judge_multi_conn(&mut m, 3, 3);
    assert!(m.pass());
    judge_multi_conn(&mut m, 2, 3);
    assert!(!m.pass());
    let mut i = report_of(Scene::IpLoss, stats_of(&[10; 5]));
    judge_ip_loss(&mut i, 0, 0);
    judge_ip_loss(&mut i, 4, 1);
    assert!(i.pass());
    judge_ip_loss(&mut i, 4, 0);
    assert!(!i.pass());
}

#[test]
fn first_bytes_are_judged() {
    assert_eq!(show_span(0), "0ns");
    assert_eq!(show_span(999), "999µs");
    assert_eq!(show_span(12_345), "12.345ms");
    assert_eq!(show_span(12_340), "12.34ms");
    assert_eq!(show_span(12_000), "12ms");
    assert_eq!(show_span(1_000_500), "1.0005s");
    let mut s = WorkloadStats::new();
    s.note_first_byte(5, Some(12_000), 2048);
    s.note_first_byte(6, None, 2048);
    assert_eq!((s.timeouts, s.bytes_ok, s.samples.len()), (1, 2048, 2));
    let mut r = report_of(Scene::ProdOneConn, stats_of(&[10; 5]));
    r.snap.data_hedge = 1;
    note_prod_like(&mut r, 12_345, 6);
    assert_eq!(r.notes[0], "baseline=12.345ms hedge=1 rtx=0 alive=6");
    r.snap.stream_resets_timeout = 2;
    judge_hygiene(&mut r);
    assert!(r.pass());
    r.snap.stream_resets_timeout = 3;
    judge_hygiene(&mut r);
    assert_eq!(r.notes[1], "hygiene all_down=0 timeout=3");
    assert!(!r.pass());
    let mut t = report_of(Scene::ProdTwoIsp, stats_of(&[10; 5]));
    judge_two_isp(&mut t);
    assert!(t.pass());
    t.snap.session_all_down_resets = 1;
    judge_two_isp(&mut t);
    assert!(!t.pass());
}

#[test]
fn closes_and_dark_paths_are_judged() {
    let ok = single_probe(4, Some(9_000));
    assert_eq!((ok.timeouts, ok.bytes_ok), (0, 1));
    let mut r = report_of(Scene::ProdClose, ok);
    let mut snap = no_counts();
    snap.stream_resets_timeout = 7;
    judge_close(&mut r, true, &snap, 7);
    assert_eq!(r.notes[0], "eof=true close_retry=0 timeout_delta=0 all_down=0");
    assert!(r.pass());
    judge_close(&mut r, true, &snap, 6);
    assert!(!r.pass());
    let lost = single_probe(4, None);
    assert_eq!((lost.timeouts, lost.bytes_ok), (1, 0));
    let mut a = report_of(Scene::ProdAllPath, single_probe(4, Some(1)));
    judge_all_path(&mut a, &no_counts(), true);
    assert!(a.pass());
    snap.session_all_down_resets = 1;
    judge_all_path(&mut a, &snap, false);
    assert_eq!(a.notes[1], "during_all_down=1 corr=0 recovered=false");
    assert!(!a.pass());
}

#[test]
fn streams_and_transfers_are_judged() {
    let mut m = report_of(Scene::ManyStreams, stats_of(&[10; 5]));
    judge_many_streams(&mut m, 0, 3);
    assert_eq!(m.notes[0], "join_fail=0 resets=0 paths=3");
    judge_many_streams(&mut m, 1, 3);
    assert!(!m.pass());
    let mut b = report_of(Scene::BulkPing, stats_of(&[10; 5]));
    judge_bulk(&mut b, true);
    assert!(b.pass());
    judge_bulk(&mut b, false);
    assert_eq!(b.notes[2], "bulk transfer corrupted or failed");
    assert!(!b.pass());
    let mut s = report_of(Scene::SpikeKeepsTcp, stats_of(&[10; 5]));
    let before = no_counts();
    let mut now = no_counts();
    judge_spike(&mut s, &before, &now, 40_999);
    assert_eq!(s.notes[0], "path_down 0→0 path_added 0→0 p50_after=40999us");
    assert!(s.pass());
    now.path_down = 1;
    judge_spike(&mut s, &before, &now, 41_000);
    assert_eq!(s.notes[2], "delay spike tore TCP (path_down/path_added grew)");
    assert_eq!(s.notes[3], "p50 after spike left 12ms class");
    assert!(!s.pass());
}

#[test]
fn stickies_must_mix() {
    assert_eq!(link_key("a#1"), "a");
    assert_eq!(link_key("x#y#2"), "x#y");
    assert_eq!(link_key("plain"), "plain");
    let load = |n: &str, s: u64| PathLoad {
        name: n.to_string(),
        sticky: s,
    };
    let mut r = report_of(Scene::SameClassMix, stats_of(&[10; 5]));
    judge_mix(
        &mut r,
        &vec![load("b#0", 1), load("a#1", 1), load("a#0", 1), load("c#0", 0)],
        0,
    );
    assert_eq!(r.notes[0], "sticky_by_link a=2 b=1");
    assert!(r.pass());
    judge_mix(&mut r, &vec![load("a#0", 3), load("b#0", 0)], 0);
    assert_eq!(r.notes[2], "stickies did not mix across named links");
    assert!(!r.pass());
    let mut d = report_of(Scene::SameClassMix, stats_of(&[10; 5]));
    judge_mix(&mut d, &vec![load("a#0", 1), load("b#0", 1)], 1);
    assert_eq!(d.notes[1], "unexpected path_down on quiet mix");
    assert!(!d.pass());
}

#[test]
fn short_streams_leave_no_trace() {
    let mut r = report_of(Scene::ShortChurn, stats_of(&[10; 5]));
    let mut after = no_counts();
    after.streams_held = 2;
    apply_table_invariants(&mut r, 64, &after, 8, 0, true);
    assert_eq!(
        r.notes,
        vec!["churn=64 io_fail=0 held=2 live=0 closed=0 opened=0 resets=0 mig_on_flap=8"]
    );
    assert!(r.pass());
    after.streams_held = 3;
    apply_table_invariants(&mut r, 64, &after, 9, 1, true);
    assert_eq!(
        r.notes[2],
        "stream table leak: held=3 live=0 after 64 short closes"
    );
    assert_eq!(r.notes[3], "migrate storm on closed streams: 9 (limit 8)");
    assert_eq!(r.notes[4], "short-stream io failures: 1");
    assert!(!r.pass());
    let mut q = report_of(Scene::AbortChurn, stats_of(&[10; 5]));
    apply_table_invariants(&mut q, 32, &no_counts(), 0, 5, false);
    assert!(q.pass());
}

// ---------------------------------------------------------------------------
// Workloads
// ---------------------------------------------------------------------------
#[test]
fn workloads_add_up() {
    let mut a = stats_of(&[10, 20]);
    let mut b = stats_of(&[30]);
    b.timeouts = 2;
    b.disconnect = true;
    merge_stats(&mut a, &b);
    assert_eq!(a.rtts_us(), vec![10_000, 20_000, 30_000]);
    assert_eq!((a.timeouts, a.disconnect), (2, true));
    assert_eq!(a.success_rate(), (3, 3));
    assert_eq!(a.mean_us(), Some((60_000, 3)));
    assert_eq!((a.min_us(), a.max_us()), (Some(10_000), Some(30_000)));
    assert_eq!(a.percentile_us(0), Some(10_000));
    assert_eq!(a.percentile_us(100), Some(30_000));
    assert_eq!(a.percentile_us(101), Some(30_000));
    assert_eq!(a.percentile_us(u64::MAX), Some(30_000));
    assert_eq!(WorkloadStats::new().percentile_us(50), None);
}

#[test]
fn gaps_and_windows() {
    let mut s = WorkloadStats::new();
    for (at, ok) in [(0u64, true), (40, true), (80, false), (500, true), (520, true)] {
        s.samples.push(PingSample {
            at,
            rtt: if ok { Some(1) } else { None },
        });
    }
    assert_eq!(s.max_ok_gap(), 460);
    assert_eq!(s.gap_around(100), 460);
    assert_eq!(s.gap_around(10), 40);
    assert_eq!(s.gap_around(9_000), 0);
    assert_eq!(s.resume_after(80), Some(420));
    assert_eq!(s.resume_after(521), None);
    let w = s.slice_from(40, 500);
    assert_eq!((w.samples.len(), w.timeouts), (2, 1));
}

#[test]
fn echoes_are_told_apart() {
    assert!(matches!(classify_echo(5, 5), Some(EchoRead::Match)));
    assert!(matches!(classify_echo(6, 5), Some(EchoRead::SkippedLate)));
    assert!(classify_echo(4, 5).is_none());
    let mut s = WorkloadStats::new();
    assert!(!s.note_ping(10, 30, EchoRead::Match));
    assert!(!s.note_ping(50, 90, EchoRead::Timeout));
    assert_eq!(s.samples[0].rtt, Some(20));
    assert_eq!((s.timeouts, s.samples.len()), (1, 2));
    let v = bulk_pattern(600);
    assert!(bulk_intact(&v));
    let mut w = v;
    w[300] ^= 1;
    assert!(!bulk_intact(&w));
}
