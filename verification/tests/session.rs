use nya_core::blocked::{BulkWait, Fate};
use nya_core::cfg::{default_config, SessionConfig};
use nya_core::dispatch::Handled;
use nya_core::failover::PathFailed;
use nya_core::frames::{Frame, ResetReason, Target};
use nya_core::hol::hol_place_bulk;
use nya_core::inbound::{store_ack, DataOutcome};
use nya_core::ledger::What;
use nya_core::opening::Ready;
use nya_core::outbound::{Gate, Pick};
use nya_core::path::{
    interactive_affinity, retry_after, write_deadline, Health, PathStat, PathState,
};
use nya_core::pool::xfer_inflight;
use nya_core::recv::StreamAck;
use nya_core::sched::{FailbackReason, FailbackTarget, PickPref, Scheduler};
use nya_core::sending::{SendAction, SendEvent, Sending, Stage};
use nya_core::session::{Session, SessionError};
use nya_core::snapshot::label_path;
use nya_core::stall::{StallChange, StallKind};
use nya_core::steer::AllDown;
use nya_core::stream::{LimiterWaits, StreamStats, Unacked};
use nya_core::table::SessionTable;
use nya_core::tried::{pick_retry_untried, push_tried};
use nya_core::wire::send_on_path;
use std::collections::BTreeMap;

const NOW: u64 = 100_000_000;
const MS: u64 = 1000;

/// Picks the fastest living path; among equals, the first.
struct Plain;

fn rank(p: &PathState) -> u64 {
    if p.stat.rtt_us == 0 {
        u64::MAX
    } else {
        p.stat.rtt_us
    }
}

impl Scheduler for Plain {
    fn pick_pref(&self, paths: &Vec<PathState>, _pref: PickPref) -> Option<u32> {
        paths
            .iter()
            .filter(|p| p.stat.is_alive() && p.stat.schedulable)
            .min_by_key(|p| rank(p))
            .map(|p| p.id)
    }

    fn pick_retry(&self, paths: &Vec<PathState>, tried: &Vec<u32>) -> Option<u32> {
        paths
            .iter()
            .filter(|p| p.stat.is_alive() && !tried.contains(&p.id))
            .min_by_key(|p| rank(p))
            .map(|p| p.id)
    }

    fn interactive_class(&self, paths: &Vec<PathState>) -> Vec<u32> {
        let best = paths.iter().map(rank).min().unwrap_or(0);
        paths
            .iter()
            .filter(|p| p.stat.is_alive() && rank(p) <= best + best / 2 + 8 * MS)
            .map(|p| p.id)
            .collect()
    }

    fn bulk_overflow(&self, paths: &Vec<PathState>, home: u32, _i: &Vec<u32>) -> Option<u32> {
        paths
            .iter()
            .find(|p| p.id != home && p.stat.is_alive() && p.stat.room > 0)
            .map(|p| p.id)
    }

    fn any_bulk_room(&self, paths: &Vec<PathState>) -> bool {
        paths.iter().any(|p| p.stat.is_alive() && p.stat.room > 0)
    }

    fn bulk_fallback(&self, _p: &Vec<PathState>, _cur: u32, _i: &Vec<u32>) -> Option<u32> {
        None
    }

    fn should_rebalance(&self, _cur: &PathState, _to: &PathState) -> bool {
        false
    }

    fn failback_target(&self, paths: &Vec<PathState>, cur: u32) -> Option<FailbackTarget> {
        let now = paths.iter().find(|p| p.id == cur)?;
        let best = paths
            .iter()
            .filter(|p| p.stat.is_alive())
            .min_by_key(|p| rank(p))?;
        if rank(best) * 2 < rank(now) {
            Some(FailbackTarget {
                to: best.id,
                why: FailbackReason::Upgrade,
            })
        } else {
            None
        }
    }

    fn fastest_class(&self, paths: &Vec<PathState>) -> Vec<u32> {
        self.interactive_class(paths)
    }

    fn is_backup(&self, rtt: u64, best: u64) -> bool {
        rtt >= best * 2 + 20 * MS
    }
}

fn cfg() -> SessionConfig {
    default_config(2_000 * MS, 16 * 1024, 8)
}

fn client() -> Session {
    Session::new(cfg(), true)
}

fn stat(rtt_ms: u64) -> PathStat {
    PathStat {
        state: Health::Up,
        rtt_us: rtt_ms * MS,
        stable_rtt_us: rtt_ms * MS,
        class_rtt_us: rtt_ms * MS,
        class_known: rtt_ms > 0,
        class_known_at: NOW,
        last_rx: NOW,
        up_since: NOW,
        assumed_rtt: if rtt_ms == 0 { 20 * MS } else { rtt_ms * MS },
        assumed_probe: 10 * MS,
        probe: 10 * MS,
        degrade_for: 50 * MS,
        schedulable: true,
        loss_fresh: true,
        bulk_dest_ok: true,
        congested: false,
        write_stalled: false,
        writer_open: true,
        send_drops: 0,
        inflight: 0,
        room: 1 << 20,
        sticky: 0,
        picks: 0,
        delivered: 0,
        delivered_at_us: 0,
        first_tx_us: 0,
        min_rtt_us: None,
        ack_rtt_us: None,
        outlier_since: None,
        failover_recorded: false,
        probe_miss: 0,
        pending_pings: 0,
        total_retrans: 0,
        bytes_retrans: 0,
    }
}

fn inject(s: &mut Session, id: u32, name: &str, rtt_ms: u64) {
    s.paths.push(PathState {
        id,
        name: name.to_string(),
        link: name.split('#').next().unwrap().to_string(),
        stat: stat(rtt_ms),
        pending_acks: BTreeMap::new(),
        urgent: vec![],
        writer: vec![],
    });
}

fn at(s: &mut Session, id: u32) -> &mut PathState {
    s.paths.iter_mut().find(|p| p.id == id).unwrap()
}

fn has(s: &Session, id: u32) -> bool {
    s.paths.iter().any(|p| p.id == id)
}

fn age_rx(s: &mut Session, id: u32, ms: u64) {
    at(s, id).stat.last_rx = NOW - ms * MS;
}

fn target() -> Target {
    Target {
        host: "t".to_string(),
        port: 1,
    }
}

fn open(s: &mut Session) -> u32 {
    s.open_stream(target(), &Plain, NOW).ok().unwrap().id
}

fn maintain(s: &mut Session, now: u64) {
    let mut episode = None;
    assert!(s.maintain(&mut episode, &Plain, now).is_some());
}

fn write(s: &mut Session, id: u32, bytes: &[u8], now: u64) {
    let mut left = bytes.to_vec();
    while !left.is_empty() {
        let n = match s.window_gate(id, left.len(), false, false, &Plain).0 {
            Ok(Gate::Open(n)) => n,
            _ => panic!("the window is closed"),
        };
        let (offset, piece) = s.cut_data(id, &left, 0, n).unwrap();
        let rest = left.split_off(n);
        assert_eq!(piece, left);
        let choice = match s.pick_send_path(id, false, 0, &Plain, now) {
            Ok(Pick::Path(c)) => c,
            _ => panic!("no path"),
        };
        let sent = s
            .send_piece(
                id,
                offset,
                &left,
                choice.picked.unwrap(),
                choice.overflow,
                &Plain,
                now,
            )
            .unwrap();
        assert!(matches!(sent.fate, Fate::Queued));
        left = rest;
    }
}

fn piece(s: &Session, id: u32) -> &Unacked {
    s.streams[&id].unacked.values().next().unwrap()
}

fn age_pieces(s: &mut Session, id: u32, ms: u64) {
    for u in s.streams.get_mut(&id).unwrap().unacked.values_mut() {
        u.last_sent = NOW - ms * MS;
    }
}

fn data(s: &mut Session, path: u32, id: u32, off: u64, len: usize, now: u64) -> Vec<Vec<u8>> {
    match s.on_data(path, id, off, vec![0xab; len], false, 64, &Plain, now) {
        DataOutcome::Taken { absorbed, .. } => absorbed.handed.map(|h| h.chunks).unwrap_or_default(),
        DataOutcome::Early => vec![],
    }
}

fn hedges(s: &Session) -> u64 {
    s.metrics.data_hedge + s.metrics.data_retransmit
}

/// Carry every frame and ACK that `from` queued over to `to`.
fn carry(from: &mut Session, to: &mut Session, now: u64) -> Vec<u8> {
    let mut got = vec![];
    for i in 0..from.paths.len() {
        let id = from.paths[i].id;
        let mut frames: Vec<Frame> = from.paths[i].urgent.drain(..).collect();
        frames.extend(from.paths[i].writer.drain(..));
        let acks = std::mem::take(&mut from.paths[i].pending_acks);
        frames.extend(acks.into_values().map(Frame::StreamAck));
        for f in frames {
            if let Handled::Data(DataOutcome::Taken { absorbed, .. }) =
                to.handle_frame(id, f, false, 64, &Plain, now)
            {
                if let Some(h) = absorbed.handed {
                    for c in h.chunks {
                        got.extend(c);
                    }
                }
            }
        }
    }
    got
}

// ---------------------------------------------------------------------------
// Servers
// ---------------------------------------------------------------------------
#[test]
fn create_sets_session_fp_and_recreate_replaces() {
    let mut id = [0u8; 16];
    id[0] = 0xde;
    id[1] = 0xad;
    id[2] = 0xbe;
    id[3] = 0xef;
    let mut t = SessionTable::new(cfg());
    assert!(t.create(id).is_some());
    assert_eq!(t.session_fps().0, vec!["deadbeef".to_string()]);
    t.remove(&id);
    let mut id2 = [0u8; 16];
    id2[0] = 0x4c;
    id2[1] = 0xcd;
    id2[2] = 0x39;
    id2[3] = 0x13;
    assert!(t.create(id2).is_some());
    assert_eq!(t.session_fps().0, vec!["4ccd3913".to_string()]);
    // the same id again replaces its session
    assert!(t.create(id2).is_some());
    assert_eq!(t.slots.len(), 1);
}

#[test]
fn table_get_drops_dead_session() {
    let mut t = SessionTable::new(cfg());
    let id = [7u8; 16];
    let i = t.create(id).unwrap();
    assert!(t.get(&id).is_some());
    t.slots[i].session.shutdown(&Plain, NOW);
    assert!(t.get(&id).is_none());
    assert!(t.get(&id).is_none());
}

#[test]
fn table_session_all_down_reaps() {
    let mut c = cfg();
    c.all_down_timeout = 0;
    let mut t = SessionTable::new(c);
    let id = [8u8; 16];
    let i = t.create(id).unwrap();
    maintain(&mut t.slots[i].session, NOW);
    assert!(t.slots[i].session.is_dead());
    assert_eq!(t.slots[i].session.metrics.session_all_down_resets, 1);
    assert!(t.get(&id).is_none());
}

#[test]
fn standalone_server_all_down_does_not_reap() {
    let mut c = cfg();
    c.all_down_timeout = 0;
    let mut server = Session::new(c, false);
    maintain(&mut server, NOW);
    assert!(!server.is_dead());
    assert_eq!(server.metrics.session_all_down_resets, 0);
}

#[test]
fn aggregate_snapshot_drops_dead_session() {
    let mut t = SessionTable::new(cfg());
    let mut live = [0u8; 16];
    live[0] = 0x34;
    live[1] = 0x94;
    t.create(live).unwrap();
    let d = t.create([9u8; 16]).unwrap();
    t.slots[d].session.shutdown(&Plain, NOW);
    let snap = t.aggregate_snapshot(4, &Plain);
    assert_eq!(snap.links.len(), 0);
    assert_eq!(snap.paths.len(), 0);
    assert_eq!((snap.held, snap.live, snap.streams.len()), (0, 0, 0));
    assert_eq!(snap.fps, vec!["34940000".to_string()]);
    assert!(t.get(&[9u8; 16]).is_none());
    assert!(t.get(&live).is_some());
}

#[test]
fn aggregate_snapshot_lists_live_session_fp() {
    let mut t = SessionTable::new(cfg());
    let mut live = [0u8; 16];
    live[0] = 0x34;
    live[1] = 0x94;
    live[2] = 0x57;
    live[3] = 0xb6;
    t.create(live).unwrap();
    let d = t.create([9u8; 16]).unwrap();
    t.slots[d].session.shutdown(&Plain, NOW);
    assert_eq!(t.session_fps().0, vec!["349457b6".to_string()]);
    let l = t.get(&live).unwrap();
    t.slots[l].session.shutdown(&Plain, NOW);
    assert!(
        t.session_fps().0.is_empty(),
        "dead live-id must not stay in sfp"
    );
    let snap = t.aggregate_snapshot(4, &Plain);
    assert!(snap.fps.is_empty());
    assert_eq!(label_path(&live, "a#0", true), "3494:a#0");
    assert_eq!(label_path(&live, "a#0", false), "a#0");
}

#[test]
fn aggregate_snapshot_labels_streams_by_session() {
    let mut t = SessionTable::new(cfg());
    for b in [0xab, 0xcd] {
        let i = t.create([b; 16]).unwrap();
        let s = &mut t.slots[i].session;
        inject(s, 1, "a#0", 7);
        assert!(s.accept_remote_stream(1, 3, &Plain, NOW).is_some());
    }
    let snap = t.aggregate_snapshot(8, &Plain);
    assert_eq!((snap.held, snap.live), (2, 2));
    assert_eq!(snap.fps, vec!["abababab", "cdcdcdcd"]);
    let paths: Vec<&str> = snap.streams.iter().map(|s| s.path.as_str()).collect();
    assert_eq!(paths, vec!["abab:a#0", "cdcd:a#0"]);
    assert_eq!(t.aggregate_snapshot(1, &Plain).streams.len(), 1);
    assert_eq!(t.slots[0].session.alive_path_names(), vec!["a#0"]);
}

#[test]
fn aggregate_snapshot_sums_the_live_sessions() {
    let mut t = SessionTable::new(cfg());
    for b in [0xab, 0xcd, 0xef] {
        let i = t.create([b; 16]).unwrap();
        let s = &mut t.slots[i].session;
        inject(s, 1, "a#0", 7);
        inject(s, 2, "a#1", 90);
        inject(s, 3, "b#0", 0);
        s.metrics.migrates = u64::from(b);
        s.metrics.bytes_data_rx = u64::MAX - 1;
        s.metrics.frame_send_drop = 1;
        at(s, 1).stat.send_drops = 4;
        at(s, 2).stat.state = Health::Degraded;
        at(s, 2).stat.sticky = 2;
        at(s, 3).stat.state = Health::Down;
    }
    let dead = t.get(&[0xef; 16]).unwrap();
    t.slots[dead].session.shutdown(&Plain, NOW);
    let snap = t.aggregate_snapshot(8, &Plain);
    assert_eq!(snap.counters.migrates, 0xab + 0xcd);
    assert_eq!(snap.counters.bytes_data_rx, u64::MAX, "held at the largest count");
    assert_eq!(snap.counters.frame_send_drop, 10, "gone paths and present ones");
    assert_eq!(snap.counters.streams_opened, 0);
    let names: Vec<&str> = snap.paths.iter().map(|p| p.name.as_str()).collect();
    let labelled = ["abab:a#0", "abab:a#1", "abab:b#0", "cdcd:a#0", "cdcd:a#1", "cdcd:b#0"];
    assert_eq!(names, labelled);
    let marks: Vec<Option<bool>> = snap.paths.iter().map(|p| p.backup).collect();
    assert_eq!(marks[..3], [Some(false), Some(true), None]);
    let links: Vec<&str> = snap.links.iter().map(|l| l.link.as_str()).collect();
    assert_eq!(links, ["abab:a", "abab:b", "cdcd:a", "cdcd:b"]);
    let a = &snap.links[0];
    assert_eq!((a.up, a.degraded, a.sticky, a.queued), (1, 1, 2, 0));
    assert_eq!((a.rtt_low_us, a.rtt_high_us), (Some(7 * MS), Some(90 * MS)));
    let b = &snap.links[1];
    assert_eq!((b.up, b.degraded, b.rtt_low_us, b.rtt_high_us), (0, 0, None, None));
}

#[test]
fn a_closed_table_takes_no_sessions() {
    let mut t = SessionTable::new(cfg());
    t.create([1u8; 16]).unwrap();
    let ended = t.shutdown_all(&Plain, NOW);
    assert_eq!(ended.len(), 1);
    assert!(ended[0].session.is_dead());
    assert_eq!(ended[0].id, [1u8; 16]);
    assert!(t.is_closed());
    assert!(t.create([2u8; 16]).is_none());
}

// ---------------------------------------------------------------------------
// Paths come and go
// ---------------------------------------------------------------------------
#[test]
fn short_lived_path_is_not_stable() {
    let mut c = client();
    inject(&mut c, 1, "nsix#1", 7);
    assert!(!c.memory.path_lived_stable("nsix#1", &c.cfg));
    c.path_failed(1, &Plain, NOW);
    assert!(
        !c.memory.path_lived_stable("nsix#1", &c.cfg),
        "handshake-ok then immediate down must keep reconnect backoff"
    );
}

#[test]
fn hold_aged_path_is_stable() {
    let mut c = client();
    inject(&mut c, 1, "nsix#1", 7);
    at(&mut c, 1).stat.up_since = NOW - c.cfg.tuning.stable_up_hold;
    c.path_failed(1, &Plain, NOW);
    assert!(
        c.memory.path_lived_stable("nsix#1", &c.cfg),
        "a dest that stayed up for a hold is a real recovery"
    );
    assert_eq!(c.memory.last_known_rtt("nsix#1"), Some(7 * MS));
}

#[test]
fn path_failed_does_not_tear_sisters() {
    let mut c = client();
    inject(&mut c, 1, "soy#0", 7);
    inject(&mut c, 2, "soy#1", 7);
    assert!(matches!(c.path_failed(1, &Plain, NOW), PathFailed::Down(_)));
    assert!(at(&mut c, 2).stat.is_alive());
    assert!(!has(&c, 1));
    assert_eq!(c.metrics.path_down, 1);
    assert!(matches!(c.path_failed(1, &Plain, NOW), PathFailed::Unknown));
    assert_eq!(c.metrics.path_down, 1);
}

#[test]
fn paths_are_numbered_and_capped() {
    let mut k = cfg();
    k.max_paths = 2;
    let mut c = Session::new(k, true);
    assert_eq!(c.start_path("a#0".into(), "a".into(), stat(0)), Some(1));
    assert_eq!(c.start_path("b#0".into(), "b".into(), stat(7)), Some(2));
    assert_eq!(c.start_path("c#0".into(), "c".into(), stat(7)), None);
    assert_eq!(c.metrics.path_added, 2);
    assert!(matches!(c.wait_alive(2, 0, 100), Ready::Yes));
    assert!(matches!(c.wait_paths(1, 0, 100), Ready::Yes));
    assert!(matches!(c.wait_paths(2, 0, 100), Ready::Wait));
    assert!(matches!(
        c.wait_paths(3, 100, 100),
        Ready::Failed(SessionError::NoPath)
    ));
    c.shutdown(&Plain, NOW);
    assert!(matches!(
        c.wait_paths(3, 0, 100),
        Ready::Failed(SessionError::Dead)
    ));
}

#[test]
fn write_deadline_unknown_dest_is_unknown_degrade_min() {
    let mut c = client();
    inject(&mut c, 1, "new", 0);
    inject(&mut c, 99, "live#0", 7);
    assert_eq!(
        write_deadline(&c.paths, 1, &c.cfg, NOW),
        c.cfg.tuning.unknown_degrade_min
    );
}

#[test]
fn write_deadline_known_fast_pool_is_floor() {
    let mut c = client();
    inject(&mut c, 1, "known", 7);
    at(&mut c, 1).stat.up_since = NOW - 1_000 * MS;
    assert_eq!(
        write_deadline(&c.paths, 1, &c.cfg, NOW),
        c.cfg.tuning.loss_timeout_floor
    );
}

#[test]
fn write_deadline_just_joined_known_rtt_is_unknown_degrade_min() {
    let mut c = client();
    inject(&mut c, 1, "new", 7);
    inject(&mut c, 99, "live#0", 7);
    assert_eq!(
        write_deadline(&c.paths, 1, &c.cfg, NOW),
        c.cfg.tuning.unknown_degrade_min
    );
}

// ---------------------------------------------------------------------------
// Bytes from end to end
// ---------------------------------------------------------------------------
#[test]
fn echo_single_path() {
    let mut c = client();
    let mut s = Session::new(cfg(), false);
    inject(&mut c, 1, "p1", 7);
    inject(&mut s, 1, "p1", 7);
    let id = open(&mut c);
    carry(&mut c, &mut s, NOW);
    assert!(s.streams.contains_key(&id), "the Open reached the server");
    write(&mut c, id, b"hello", NOW);
    let got = carry(&mut c, &mut s, NOW);
    assert_eq!(got, b"hello");
    write(&mut s, id, &got, NOW);
    assert_eq!(carry(&mut s, &mut c, NOW), b"hello");
    carry(&mut c, &mut s, NOW);
    assert!(c.streams[&id].unacked.is_empty(), "everything was acknowledged");
    assert!(s.streams[&id].unacked.is_empty());
}

#[test]
fn a_long_transfer_arrives_in_order() {
    let mut c = client();
    let mut s = Session::new(cfg(), false);
    for (i, n) in [(1, "a#0"), (2, "b#0")] {
        inject(&mut c, i, n, 7);
        inject(&mut s, i, n, 7);
    }
    let id = open(&mut c);
    carry(&mut c, &mut s, NOW);
    let bytes: Vec<u8> = (0..60_000u32).map(|i| (i % 251) as u8).collect();
    write(&mut c, id, &bytes[..30_000], NOW);
    // the home fails with everything on it; the other path takes over
    let home = c.streams[&id].life.sticky;
    c.path_failed(home, &Plain, NOW);
    let mut got = carry(&mut c, &mut s, NOW);
    carry(&mut s, &mut c, NOW);
    write(&mut c, id, &bytes[30_000..], NOW);
    got.extend(carry(&mut c, &mut s, NOW));
    assert_eq!(got, bytes);
}

#[test]
fn duplicate_open_dials_origin_once() {
    let mut s = Session::new(cfg(), false);
    assert!(s.accept_remote_stream(1, 7, &Plain, NOW).is_some());
    assert!(s.accept_remote_stream(2, 7, &Plain, NOW).is_none());
    assert_eq!(s.streams.len(), 1);
}

#[test]
fn early_data_delivered_after_open() {
    let mut s = Session::new_server(cfg());
    inject(&mut s, 1, "akcdn#0", 7);
    let f = Frame::StreamData {
        stream_id: 9,
        offset: 0,
        data: b"hi!".to_vec(),
    };
    assert!(matches!(feed(&mut s, 1, f, NOW), Handled::Data(DataOutcome::Early)));
    assert!(s.streams.is_empty());
    let early = match feed(&mut s, 1, opening(9), NOW) {
        Handled::Accepted { id: 9, early, .. } => early,
        _ => panic!("the stream is new"),
    };
    assert_eq!(early.len(), 1);
    match &early[0] {
        Some(DataOutcome::Taken { absorbed, .. }) => {
            assert_eq!(absorbed.handed.as_ref().unwrap().chunks, vec![b"hi!".to_vec()]);
        }
        _ => panic!("the stream is open"),
    }
    assert_eq!(s.streams[&9].counters.recv_next, 3);
    assert!(!s.early.entries.contains_key(&9), "nothing waits any more");
    // a second path that carries the same bytes finds a duplicate
    assert!(data(&mut s, 1, 9, 0, 3, NOW).is_empty());
    assert_eq!(s.streams[&9].counters.recv_next, 3);
}

#[test]
fn pieces_of_a_send_are_its_bytes() {
    let mut c = client();
    inject(&mut c, 1, "a#0", 7);
    let id = open(&mut c);
    let bytes: Vec<u8> = (0..40_000u32).map(|i| (i % 251) as u8).collect();
    let (mut from, mut together) = (0, vec![]);
    while from < bytes.len() {
        let n = match c.window_gate(id, bytes.len() - from, false, false, &Plain).0 {
            Ok(Gate::Open(n)) => n,
            _ => panic!("the window is open"),
        };
        assert!((1..=16 * 1024).contains(&n));
        let (offset, piece) = c.cut_data(id, &bytes, from, n).unwrap();
        assert_eq!((offset, piece.len()), (from as u64, n));
        c.send_piece(id, offset, &piece, 1, false, &Plain, NOW).unwrap();
        assert_eq!(c.streams[&id].unacked[&offset].data, piece);
        together.extend(piece);
        from += n;
    }
    assert_eq!(together, bytes);
    assert_eq!(c.streams[&id].counters.send_next, 40_000);
    assert!(c.streams[&id].send.bulk);
    let (offset, small) = c.cut_data(id, &bytes, 7, 5).unwrap();
    assert_eq!((offset, small.as_slice()), (40_000, &bytes[7..12]));
    c.send_piece(id, offset, &small, 1, false, &Plain, NOW).unwrap();
    assert!(c.streams[&id].send.bulk, "a small piece does not take it back");
    assert!(c.cut_data(99, &bytes, 0, 5).is_none());
}

/// Take steps until the send has to wait or is over.
fn steps(c: &mut Session, send: &mut Sending, bytes: &Vec<u8>, event: SendEvent, now: u64) -> SendAction {
    let mut event = event;
    loop {
        assert!(send.fits_in(c, bytes));
        match c.send_step(send, bytes, event, &Plain, now) {
            SendAction::Go => event = SendEvent::Go,
            act => return act,
        }
    }
}

#[test]
fn a_send_gives_every_byte_to_a_path() {
    let mut c = client();
    inject(&mut c, 1, "a#0", 7);
    let id = open(&mut c);
    let bytes: Vec<u8> = (0..40_000u32).map(|i| (i % 251) as u8).collect();
    let mut send = Sending::new(id);
    assert_eq!(c.send_step(&mut send, &bytes, SendEvent::Go, &Plain, NOW), SendAction::Go);
    assert_eq!(send.stage, Stage::Window { waited: false });
    assert_eq!(c.send_step(&mut send, &bytes, SendEvent::Go, &Plain, NOW), SendAction::Go);
    assert!(matches!(send.stage, Stage::Placing { offset: 0, len: 16_384, waited: false, .. }));
    assert!(c.streams[&id].unacked.is_empty(), "cut and not yet placed");
    assert_eq!(c.send_step(&mut send, &bytes, SendEvent::Go, &Plain, NOW), SendAction::Go);
    assert_eq!((send.from, send.stage), (16_384, Stage::Window { waited: false }));
    assert_eq!(steps(&mut c, &mut send, &bytes, SendEvent::Go, NOW), SendAction::End(Ok(())));
    assert_eq!(steps(&mut c, &mut send, &bytes, SendEvent::Woke, NOW), SendAction::End(Ok(())));
    let held: Vec<u8> = c.streams[&id].unacked.values().flat_map(|u| u.data.clone()).collect();
    assert_eq!(held, bytes);
    assert_eq!(c.streams[&id].counters.send_next, 40_000);
    let mut more = Sending::new(id);
    steps(&mut c, &mut more, &vec![7, 8], SendEvent::Go, NOW);
    assert_eq!(c.streams[&id].unacked[&40_000].data, vec![7, 8], "a second send goes on");
    let end = steps(&mut c, &mut Sending::new(99), &bytes, SendEvent::Go, NOW);
    assert_eq!(end, SendAction::End(Err(SessionError::UnknownStream)));
    c.streams.get_mut(&id).unwrap().life.reset = true;
    let end = steps(&mut c, &mut Sending::new(id), &bytes, SendEvent::Go, NOW);
    assert_eq!(end, SendAction::End(Err(SessionError::Reset)));
}

#[test]
fn a_send_waits_for_the_window() {
    let mut c = client();
    inject(&mut c, 1, "a#0", 7);
    let id = open(&mut c);
    c.streams.get_mut(&id).unwrap().counters.send_window = 3;
    let bytes = b"hello".to_vec();
    let mut send = Sending::new(id);
    assert_eq!(steps(&mut c, &mut send, &bytes, SendEvent::Go, NOW), SendAction::AwaitWindow);
    assert_eq!((send.from, send.stage), (3, Stage::Window { waited: true }));
    assert_eq!(c.streams[&id].unacked[&0].data, b"hel");
    for event in [SendEvent::Woke, SendEvent::TimedOut] {
        assert_eq!(steps(&mut c, &mut send, &bytes, event, NOW), SendAction::AwaitWindow);
    }
    assert_eq!(c.metrics.window_blocks, 1, "one wait is counted once");
    let mut lost = send;
    at(&mut c, 1).stat.state = Health::Down;
    assert_eq!(steps(&mut c, &mut lost, &bytes, SendEvent::Woke, NOW), SendAction::AwaitWindow);
    let end = steps(&mut c, &mut lost, &bytes, SendEvent::TimedOut, NOW);
    assert_eq!(end, SendAction::End(Err(SessionError::NoPath)));
    at(&mut c, 1).stat.state = Health::Up;
    c.streams.get_mut(&id).unwrap().counters.send_window = 9;
    assert_eq!(steps(&mut c, &mut send, &bytes, SendEvent::Woke, NOW), SendAction::End(Ok(())));
    assert_eq!(c.streams[&id].unacked[&3].data, b"lo");
}

#[test]
fn a_send_waits_for_a_path() {
    let mut c = client();
    inject(&mut c, 1, "a#0", 7);
    let id = open(&mut c);
    at(&mut c, 1).stat.state = Health::Down;
    let bytes = b"hello".to_vec();
    let mut send = Sending::new(id);
    assert_eq!(steps(&mut c, &mut send, &bytes, SendEvent::Go, NOW), SendAction::AwaitPath(None));
    assert!(matches!(send.stage, Stage::Placing { offset: 0, len: 5, since: NOW, waited: false }));
    let mut lost = send;
    let long = NOW + c.cfg.all_down_timeout;
    assert_eq!(steps(&mut c, &mut send, &bytes, SendEvent::Woke, long - 1), SendAction::AwaitPath(None));
    let end = steps(&mut c, &mut lost, &bytes, SendEvent::TimedOut, long);
    assert_eq!(end, SendAction::End(Err(SessionError::NoPath)));
    at(&mut c, 1).stat.state = Health::Up;
    assert_eq!(steps(&mut c, &mut send, &bytes, SendEvent::Woke, long), SendAction::End(Ok(())));
    assert_eq!(piece(&c, id).data, b"hello");

    // a bulk stream with a path alive and no room counts its wait, once
    c.streams.get_mut(&id).unwrap().send.bulk = true;
    at(&mut c, 1).stat.room = 0;
    let mut bulk = Sending::new(id);
    let first = steps(&mut c, &mut bulk, &bytes, SendEvent::Go, long);
    assert_eq!(first, SendAction::AwaitPath(Some(vec![1])));
    let again = steps(&mut c, &mut bulk, &bytes, SendEvent::TimedOut, long + 1);
    assert_eq!(again, SendAction::AwaitPath(None));
    assert_eq!(c.metrics.send_budget_blocks, 1);
    at(&mut c, 1).stat.room = 9;
    assert_eq!(steps(&mut c, &mut bulk, &bytes, SendEvent::Woke, long), SendAction::End(Ok(())));
}

#[test]
fn a_send_waits_for_the_bulk_queue() {
    let (mut c, id) = two_links();
    fill_bulk(&mut c, 1);
    c.streams.get_mut(&id).unwrap().life.sticky = 1;
    let bytes = vec![0x5au8; 2000];
    let mut send = Sending::new(id);
    let deadline = match steps(&mut c, &mut send, &bytes, SendEvent::Go, NOW) {
        SendAction::AwaitQueue { path: 1, deadline } => deadline,
        act => panic!("a live bulk path that is full makes the send wait: {act:?}"),
    };
    assert_eq!(send.from, 0);
    let again = SendAction::AwaitQueue { path: 1, deadline };
    for event in [SendEvent::Woke, SendEvent::QueueMoved, SendEvent::TimedOut] {
        assert_eq!(steps(&mut c, &mut send, &bytes, event, deadline - 1), again);
    }
    let mut late = send;
    at(&mut c, 1).writer.clear();
    assert_eq!(steps(&mut c, &mut send, &bytes, SendEvent::Woke, deadline - 1), again);
    let end = steps(&mut c, &mut send, &bytes, SendEvent::QueueMoved, deadline - 1);
    assert_eq!(end, SendAction::End(Ok(())));
    assert_eq!(at(&mut c, 1).writer.len(), 1);
    // past the deadline the piece is offered once more, or moves
    fill_bulk(&mut c, 1);
    let end = steps(&mut c, &mut late, &bytes, SendEvent::TimedOut, deadline);
    assert_eq!(end, SendAction::End(Ok(())));
    assert_eq!(piece(&c, id).path_id, 2);
}

#[test]
fn early_pieces_wait_for_each_other() {
    let mut s = Session::new(cfg(), false);
    inject(&mut s, 1, "akcdn#0", 7);
    for (offset, bytes) in [(2u64, b"yo"), (0, b"hi")] {
        let f = Frame::StreamData {
            stream_id: 7,
            offset,
            data: bytes.to_vec(),
        };
        assert!(matches!(feed(&mut s, 1, f, NOW), Handled::Data(DataOutcome::Early)));
    }
    let mut got = vec![];
    for out in s.accept_remote_stream(1, 7, &Plain, NOW).unwrap() {
        if let Some(DataOutcome::Taken { absorbed, .. }) = out {
            for c in absorbed.handed.map(|h| h.chunks).unwrap_or_default() {
                got.extend(c);
            }
        }
    }
    assert_eq!(got, b"hiyo");
}

#[test]
fn server_cannot_open_streams() {
    let mut s = Session::new(cfg(), false);
    inject(&mut s, 1, "a#0", 7);
    match s.open_stream(target(), &Plain, NOW) {
        Err(e) => assert_eq!(e.message(), "server cannot open streams"),
        Ok(_) => panic!("a server opened a stream"),
    }
}

#[test]
fn open_without_path_does_not_count_opened() {
    let mut c = client();
    assert!(matches!(
        c.open_stream(target(), &Plain, NOW),
        Err(SessionError::NoPath)
    ));
    assert_eq!(c.metrics.streams_opened, 0);
    assert!(c.streams.is_empty());
}

#[test]
fn open_then_interactive_data_share_path() {
    let mut c = client();
    for (i, n) in [(1, "a#0"), (2, "a#1"), (3, "b#0"), (4, "b#1")] {
        inject(&mut c, i, n, 7);
    }
    let id = open(&mut c);
    let home = c.streams[&id].life.sticky;
    assert_ne!(home, 0, "Open must set sticky");
    write(&mut c, id, &[0u8; 200], NOW);
    assert_eq!(c.streams[&id].life.sticky, home);
    assert_eq!(piece(&c, id).path_id, home);
}

// ---------------------------------------------------------------------------
// Late pieces
// ---------------------------------------------------------------------------
fn two_links() -> (Session, u32) {
    let mut c = client();
    inject(&mut c, 1, "akcdn#0", 7);
    inject(&mut c, 2, "soy#0", 7);
    let id = open(&mut c);
    (c, id)
}

#[test]
fn expired_unacked_retries_other_link() {
    let (mut c, id) = two_links();
    write(&mut c, id, b"hello", NOW);
    age_pieces(&mut c, id, 100);
    let from = piece(&c, id).path_id;
    let before = hedges(&c);
    maintain(&mut c, NOW);
    assert_ne!(piece(&c, id).path_id, from, "retry must leave the timed-out path");
    assert!(hedges(&c) > before);
}

#[test]
fn bulk_piece_on_fresh_path_is_not_hedged() {
    let (mut c, id) = two_links();
    write(&mut c, id, &[0x42; 4000], NOW);
    age_pieces(&mut c, id, 100);
    let h0 = hedges(&c);
    maintain(&mut c, NOW);
    assert_eq!(hedges(&c), h0, "fresh path: 100 ms old bulk must stay put");
    assert_eq!(c.streams[&id].unacked.len(), 1);
}

#[test]
fn bulk_piece_on_silent_path_is_hedged_with_backoff() {
    let (mut c, id) = two_links();
    write(&mut c, id, &[0x42; 4000], NOW);
    let from = piece(&c, id).path_id;
    age_rx(&mut c, from, 100);
    age_pieces(&mut c, id, 100);
    let h0 = hedges(&c);
    maintain(&mut c, NOW);
    assert_eq!(hedges(&c), h0 + 1, "silent path must hedge once");
    let u = piece(&c, id);
    assert_ne!(u.path_id, from);
    assert_eq!(u.tried.len(), 2);
    assert!(u.retry_not_before >= u.last_sent + 40 * MS);
}

#[test]
fn dropped_piece_is_resent_on_fresh_path() {
    let (mut c, id) = two_links();
    write(&mut c, id, &[0x42; 4000], NOW);
    let from = piece(&c, id).path_id;
    c.note_data_dropped(id, 0, NOW);
    let h0 = hedges(&c);
    let d0 = c.metrics.data_dropped_resend;
    maintain(&mut c, NOW);
    assert_eq!(hedges(&c), h0 + 1);
    assert_eq!(c.metrics.data_dropped_resend, d0 + 1);
    assert_ne!(piece(&c, id).path_id, from);
    assert!(!piece(&c, id).dropped, "successful enqueue clears the flag");
}

#[test]
fn belt_resends_very_old_piece_on_fresh_path() {
    let (mut c, id) = two_links();
    write(&mut c, id, &[0x42; 4000], NOW);
    age_pieces(&mut c, id, 6000);
    let h0 = hedges(&c);
    maintain(&mut c, NOW);
    assert_eq!(hedges(&c), h0 + 1, "belt must fire at 6 s");
}

#[test]
fn belt_waits_while_acks_progress() {
    let (mut c, id) = two_links();
    write(&mut c, id, &[0x42; 4000], NOW);
    age_pieces(&mut c, id, 6000);
    c.streams.get_mut(&id).unwrap().send.last_sack_ms = NOW / MS;
    let h0 = hedges(&c);
    maintain(&mut c, NOW);
    assert_eq!(hedges(&c), h0, "SACK progress a moment ago: no belt");
    let st = c.streams.get_mut(&id).unwrap();
    st.send.last_sack_ms = 0;
    st.send.last_ack_ms = NOW / MS;
    maintain(&mut c, NOW);
    assert_eq!(hedges(&c), h0, "cumulative progress a moment ago: no belt");
}

#[test]
fn retry_after_poisoned_path_with_live_fast_dest_is_floor() {
    let (mut c, id) = two_links();
    write(&mut c, id, b"hello", NOW);
    at(&mut c, 1).stat.rtt_us = 200 * MS;
    for u in c.streams.get_mut(&id).unwrap().unacked.values_mut() {
        u.last_sent = NOW - 25 * MS;
        u.path_id = 1;
        u.tried = vec![1];
    }
    assert_eq!(retry_after(&c.paths, 1, &c.cfg), 20 * MS);
    maintain(&mut c, NOW);
    assert_ne!(piece(&c, id).path_id, 1, "20 ms floor must rehome off the poisoned path");
}

#[test]
fn retry_after_only_dest_does_not_replace() {
    let mut c = client();
    inject(&mut c, 1, "only#0", 180);
    let id = open(&mut c);
    write(&mut c, id, b"hello", NOW);
    age_pieces(&mut c, id, 30);
    maintain(&mut c, NOW);
    assert_eq!(piece(&c, id).path_id, 1, "only dest must keep the in-flight copy");
    assert_eq!(c.metrics.data_hedge, 0);
}

#[test]
fn retry_after_two_slow_does_not_rotate_at_floor() {
    let mut c = client();
    inject(&mut c, 1, "a#0", 180);
    inject(&mut c, 2, "b#0", 180);
    let id = open(&mut c);
    write(&mut c, id, b"hello", NOW);
    age_pieces(&mut c, id, 30);
    let from = piece(&c, id).path_id;
    maintain(&mut c, NOW);
    assert_eq!(
        piece(&c, id).path_id,
        from,
        "two 180 ms dests must wait loss_timeout(180ms), not rotate at 20 ms"
    );
}

#[test]
fn retry_expired_unacked_skips_alive_write_stalled_from() {
    let (mut c, id) = two_links();
    write(&mut c, id, b"hello", NOW);
    age_pieces(&mut c, id, 100);
    for u in c.streams.get_mut(&id).unwrap().unacked.values_mut() {
        u.path_id = 1;
        u.tried = vec![1];
        u.retry_not_before = NOW - 100 * MS;
    }
    at(&mut c, 1).stat.write_stalled = true;
    let before = (c.metrics.data_hedge, c.metrics.data_retransmit);
    maintain(&mut c, NOW);
    assert_eq!((c.metrics.data_hedge, c.metrics.data_retransmit), before);
    assert_eq!(piece(&c, id).path_id, 1, "the copy stays on a stalled path that lives");
    assert_eq!(c.metrics.data_resend_skipped_write_stalled, 1);
}

#[test]
fn a_late_piece_is_never_sent_in_place() {
    let mut c = client();
    inject(&mut c, 1, "only#0", 7);
    let id = open(&mut c);
    write(&mut c, id, b"hello", NOW);
    age_pieces(&mut c, id, 200);
    let queued = (at(&mut c, 1).urgent.len(), at(&mut c, 1).writer.len());
    let out = c.retry_expired(id, &Plain, NOW);
    assert_eq!(out.len(), 1, "the piece is late");
    assert!(out[0].alt.is_none());
    assert_eq!((at(&mut c, 1).urgent.len(), at(&mut c, 1).writer.len()), queued);
    assert_eq!(piece(&c, id).path_id, 1);
    assert_eq!(hedges(&c), 0);
}

#[test]
fn path_down_rehomes_unacked_immediately() {
    let (mut c, id) = two_links();
    write(&mut c, id, b"hello", NOW);
    let from = piece(&c, id).path_id;
    c.path_failed(from, &Plain, NOW);
    assert_ne!(piece(&c, id).path_id, from);
    assert_eq!(piece(&c, id).data, b"hello");
    assert!(!has(&c, from));
}

#[test]
fn sack_releases_pieces_behind_hole() {
    let mut c = client();
    inject(&mut c, 1, "akcdn#0", 7);
    let id = open(&mut c);
    write(&mut c, id, &vec![0x42; 40_000], NOW);
    let pieces: Vec<(u64, u64)> = c.streams[&id]
        .unacked
        .iter()
        .map(|(o, u)| (*o, *o + u.data.len() as u64))
        .collect();
    assert!(pieces.len() >= 3);
    let inflight0 = at(&mut c, 1).stat.inflight;
    let (hole, second) = (pieces[0], pieces[1]);
    let out = c
        .on_ack(
            StreamAck {
                stream_id: id,
                acked_offset: 0,
                window: 1 << 20,
                sack: vec![second],
            },
            NOW,
        )
        .unwrap();
    assert!(out.gone.cum.is_empty());
    assert_eq!(out.gone.sacked.len(), 1);
    assert_eq!(out.samples.len(), 1);
    assert!(out.samples[0].is_some());
    let st = &c.streams[&id];
    assert!(st.unacked.contains_key(&hole.0), "hole stays");
    assert!(!st.unacked.contains_key(&second.0), "sacked piece released");
    assert_eq!(st.unacked.len(), pieces.len() - 1);
    assert_ne!(st.send.last_sack_ms, 0);
    assert_eq!(st.send.send_acked, 0, "cumulative untouched");
    assert_eq!(c.metrics.data_sacked, 1);
    assert_eq!(at(&mut c, 1).stat.inflight, inflight0 - (second.1 - second.0));
    assert_eq!(at(&mut c, 1).stat.delivered, second.1 - second.0);
    c.on_ack(
        StreamAck {
            stream_id: id,
            acked_offset: 0,
            window: 1 << 20,
            sack: vec![(hole.0 + 1, hole.1)],
        },
        NOW,
    );
    assert!(c.streams[&id].unacked.contains_key(&hole.0));
}

// ---------------------------------------------------------------------------
// Receiving
// ---------------------------------------------------------------------------
fn receiver() -> (Session, u32) {
    let mut c = client();
    inject(&mut c, 1, "a#0", 7);
    let id = open(&mut c);
    (c, id)
}

#[test]
fn receiver_acks_carry_sack_ranges() {
    let (mut c, id) = receiver();
    for off in [2000u64, 3000, 5000] {
        data(&mut c, 1, id, off, 1000, NOW);
    }
    assert_eq!(c.streams[&id].sack_ranges(8), vec![(5000, 6000), (2000, 4000)]);
    let ack = &at(&mut c, 1).pending_acks[&id];
    assert_eq!(ack.acked_offset, 0);
    assert_eq!(ack.sack, vec![(5000, 6000), (2000, 4000)]);
    data(&mut c, 1, id, 0, 2000, NOW);
    assert_eq!(c.streams[&id].counters.recv_next, 4000);
    assert_eq!(c.streams[&id].sack_ranges(8), vec![(5000, 6000)]);
}

#[test]
fn pieces_in_any_order_make_the_stream() {
    let (mut c, id) = receiver();
    let stream: Vec<u8> = (0..5000u32).map(|i| (i % 253) as u8).collect();
    let mut got: Vec<u8> = vec![];
    for at in [3usize, 0, 4, 0, 2, 3, 1, 4, 1] {
        let off = at * 1000;
        let piece = stream[off..off + 1000].to_vec();
        match c.on_data(1, id, off as u64, piece, false, 2, &Plain, NOW) {
            DataOutcome::Taken { absorbed, .. } => {
                for chunk in absorbed.handed.unwrap().chunks {
                    got.extend(chunk);
                }
            }
            DataOutcome::Early => panic!("the stream is open"),
        }
        assert_eq!(got[..], stream[..got.len()], "always a beginning of the stream");
    }
    while got.len() < stream.len() {
        let read = c.note_app_read(id, 1000, 1, &Plain, NOW).unwrap();
        for chunk in read.handed.chunks {
            got.extend(chunk);
        }
    }
    assert_eq!(got, stream);
    assert_eq!(c.streams[&id].counters.recv_next, 5000);
}

#[test]
fn hole_sample_open_close() {
    let (mut c, id) = receiver();
    data(&mut c, 1, id, 16 * 1024, 1000, NOW);
    assert!(c.streams[&id].recv.hole.is_some(), "missing head opens a hole");
    assert_eq!(c.streams[&id].counters.hole_us, 0);
    assert_eq!(c.streams[&id].counters.recv_hole_max, 1000);
    data(&mut c, 1, id, 16 * 1024, 1000, NOW + 60 * MS);
    assert!(c.streams[&id].recv.hole.is_some());
    assert_eq!(c.streams[&id].counters.hole_us, 0);
    assert_eq!(c.streams[&id].counters.dup_rx_bytes, 1000);
    data(&mut c, 1, id, 0, 16 * 1024, NOW + 150 * MS);
    assert!(c.streams[&id].recv.hole.is_none(), "head landed, hole closed");
    assert_eq!(c.streams[&id].counters.hole_us, 150 * MS);
    assert_eq!(c.streams[&id].counters.recv_next, 16 * 1024 + 1000);
    assert_eq!(c.stream_stats(id).unwrap().hole_us, 150 * MS);
}

#[test]
fn hole_sample_second_hole_reopens() {
    let (mut c, id) = receiver();
    data(&mut c, 1, id, 16_000, 16_000, NOW);
    data(&mut c, 1, id, 48_000, 16_000, NOW);
    assert_eq!(c.streams[&id].recv.hole.map(|h| h.off), Some(0));
    data(&mut c, 1, id, 0, 16_000, NOW + 30 * MS);
    assert_eq!(c.streams[&id].counters.hole_us, 30 * MS);
    assert_eq!(c.streams[&id].recv.hole.map(|h| h.off), Some(32_000));
    data(&mut c, 1, id, 32_000, 16_000, NOW + 70 * MS);
    assert!(c.streams[&id].recv.hole.is_none());
    assert_eq!(c.streams[&id].counters.hole_us, (30 * MS * 7 + 40 * MS) / 8);
    assert_eq!(c.streams[&id].counters.recv_next, 64_000);
}

#[test]
fn app_backlog_counts_in_order_run() {
    let (mut c, id) = receiver();
    for (off, free) in [(0u64, 1usize), (1000, 0), (2000, 0)] {
        c.on_data(1, id, off, vec![0xab; 1000], false, free, &Plain, NOW);
    }
    assert_eq!(c.streams[&id].counters.recv_next, 1000);
    assert_eq!(c.streams[&id].recv_evidence(), (0, 1000 + 2000));
    assert!(c.streams[&id].recv.hole.is_none(), "held head is not a hole");
    c.on_data(1, id, 5000, vec![0xab; 1000], false, 0, &Plain, NOW);
    assert_eq!(c.streams[&id].recv_evidence(), (1000, 3000));
    assert_eq!(c.streams[&id].counters.recv_hole_max, 1000);
    assert_eq!(c.streams[&id].counters.app_backlog_max, 3000);
    assert!(c.streams[&id].recv.hole.is_none(), "still not a hole");
    // the application reads, and what was held follows
    let read = c.note_app_read(id, 1000, 64, &Plain, NOW).unwrap();
    assert_eq!(read.handed.chunks.len(), 2);
    assert_eq!(c.streams[&id].counters.recv_next, 3000);
    data(&mut c, 1, id, 6000, 1000, NOW);
    assert_eq!(c.streams[&id].recv.hole.map(|h| h.off), Some(3000));
}

#[test]
fn zero_window_cause_split() {
    let mut k = cfg();
    k.tuning.chan = 1;
    k.tuning.initial_window = 4000;
    let mut c = Session::new(k, true);
    inject(&mut c, 1, "a#0", 7);
    let id = open(&mut c);
    assert_eq!(c.streams[&id].counters.recv_cap, 4000);
    for off in [1000u64, 2000, 3000] {
        data(&mut c, 1, id, off, 1000, NOW);
    }
    assert_eq!(at(&mut c, 1).pending_acks[&id].window, 1000);
    data(&mut c, 1, id, 4000, 1000, NOW);
    assert_eq!(at(&mut c, 1).pending_acks[&id].window, 0);
    assert_eq!(c.streams[&id].counters.zero_win_hole, 1);
    assert_eq!(c.streams[&id].counters.zero_win_app, 0);
    c.on_data(1, id, 0, vec![0xab; 1000], false, 1, &Plain, NOW);
    assert_eq!(at(&mut c, 1).pending_acks[&id].window, 0);
    assert_eq!(c.streams[&id].counters.zero_win_hole, 1);
    assert_eq!(c.streams[&id].counters.zero_win_app, 1);
    assert_eq!(
        (c.metrics.zero_window_hole, c.metrics.zero_window_app),
        (1, 1)
    );
}

#[test]
fn close_with_offset_delivers_data_that_arrives_after() {
    let mut s = Session::new_server(cfg());
    inject(&mut s, 1, "akcdn#0", 7);
    assert!(s.accept_remote_stream(1, 9, &Plain, NOW).is_some());
    match feed(&mut s, 1, closing(9, 4), NOW) {
        Handled::Closed(Some(c)) => assert!(!c.fin),
        _ => panic!("held until the offset"),
    }
    assert!(
        !s.streams[&9].recv.recv_fin,
        "Close must not end the stream while bytes are missing"
    );
    let late = Frame::StreamData {
        stream_id: 9,
        offset: 0,
        data: b"abcd".to_vec(),
    };
    match feed(&mut s, 1, late, NOW) {
        Handled::Data(DataOutcome::Taken { absorbed, .. }) => {
            let h = absorbed.handed.unwrap();
            assert_eq!(h.chunks, vec![b"abcd".to_vec()], "late data after Close");
            assert!(h.fin, "the end follows the last byte");
        }
        _ => panic!("the stream is open"),
    }
    assert!(s.streams[&9].recv.recv_fin);
}

#[test]
fn a_close_ahead_of_two_pieces_waits_for_both() {
    let (mut c, id) = receiver();
    assert!(!c.on_peer_close(id, Some(2000), NOW).unwrap().fin);
    assert_eq!(data(&mut c, 1, id, 0, 1000, NOW).len(), 1);
    assert!(!c.streams[&id].recv.recv_fin);
    match c.on_data(1, id, 1000, vec![1; 1000], false, 64, &Plain, NOW) {
        DataOutcome::Taken { absorbed, .. } => assert!(absorbed.handed.unwrap().fin),
        DataOutcome::Early => panic!("the stream is open"),
    }
    assert!(c.streams[&id].recv.recv_fin);
}

#[test]
fn dup_data_after_fin_is_acked() {
    let mut s = Session::new(cfg(), false);
    inject(&mut s, 1, "a#0", 7);
    let carrying = |offset: u64, len: usize| Frame::StreamData {
        stream_id: 1,
        offset,
        data: vec![7; len],
    };
    assert!(matches!(feed(&mut s, 1, opening(1), NOW), Handled::Accepted { id: 1, .. }));
    feed(&mut s, 1, carrying(0, 100), NOW);
    feed(&mut s, 1, closing(1, 100), NOW);
    maintain(&mut s, NOW);
    assert!(s.streams[&1].recv.recv_fin);
    at(&mut s, 1).pending_acks.clear();
    let dup0 = s.metrics.data_dup_rx_bytes;
    feed(&mut s, 1, carrying(60, 40), NOW);
    let acks = std::mem::take(&mut at(&mut s, 1).pending_acks);
    assert_eq!(acks[&1].acked_offset, 100, "the ACK carries the close offset");
    assert_eq!(s.metrics.data_dup_rx_bytes - dup0, 40);
    assert_eq!(s.metrics.ack_after_fin, 1);
    // past the close offset
    feed(&mut s, 1, carrying(100, 10), NOW);
    let acks = std::mem::take(&mut at(&mut s, 1).pending_acks);
    assert!(acks.contains_key(&1));
    assert_eq!(s.metrics.ack_after_fin, 2);
    assert_eq!(s.streams[&1].counters.recv_next, 100);
}

#[test]
fn ack_overwrite_does_not_use_urgent_chan() {
    let (mut c, id) = receiver();
    let chan = c.cfg.tuning.chan;
    let p = at(&mut c, 1);
    while p.urgent.len() < chan {
        p.urgent.push(Frame::Ping {
            seq: 1,
            sent_at_ms: 0,
        });
    }
    let drop0 = c.frame_send_drop();
    data(&mut c, 1, id, 0, 100, NOW);
    assert_eq!(at(&mut c, 1).urgent.len(), chan);
    assert_eq!(c.frame_send_drop(), drop0);
    assert!(!at(&mut c, 1).stat.congested);
    assert!(at(&mut c, 1).pending_acks.contains_key(&id));
    let k = c.cfg;
    let ping = Frame::Ping {
        seq: 1,
        sent_at_ms: 0,
    };
    assert!(!send_on_path(&mut c.paths, 1, ping, &k), "an ACK frees no slot");
}

#[test]
fn ack_coalesce_keeps_latest_offset() {
    let (mut c, id) = receiver();
    data(&mut c, 1, id, 0, 100, NOW);
    data(&mut c, 1, id, 100, 100, NOW);
    assert_eq!(at(&mut c, 1).pending_acks.len(), 1);
    assert_eq!(at(&mut c, 1).pending_acks[&id].acked_offset, 200);
}

fn ack(id: u32, acked_offset: u64) -> StreamAck {
    StreamAck {
        stream_id: id,
        acked_offset,
        window: 1,
        sack: vec![],
    }
}

#[test]
fn ack_moves_on_path_failed() {
    let (mut c, id) = two_links();
    at(&mut c, 2).pending_acks.insert(id, ack(id, 100));
    store_ack(&mut c.paths, id, ack(id, 200), 1, 0, &Plain);
    assert_eq!(at(&mut c, 1).pending_acks[&id].acked_offset, 200);
    c.path_failed(1, &Plain, NOW);
    assert_eq!(
        at(&mut c, 2).pending_acks[&id].acked_offset,
        200,
        "max offset must win"
    );
}

#[test]
fn ack_taken_batch_merges_on_path_failed() {
    let (mut c, id) = two_links();
    store_ack(&mut c.paths, id, ack(id, 200), 1, 0, &Plain);
    let batch = std::mem::take(&mut at(&mut c, 1).pending_acks);
    assert!(!batch.is_empty());
    c.path_failed(1, &Plain, NOW);
    assert!(at(&mut c, 2).pending_acks.is_empty());
    assert_eq!(c.merge_pending_acks(1, batch, &Plain), Some(2));
    assert_eq!(at(&mut c, 2).pending_acks[&id].acked_offset, 200);
    assert_eq!(c.merge_pending_acks(1, BTreeMap::new(), &Plain), None);
}

#[test]
fn ack_send_on_down_dest_stores_on_alt() {
    let (mut c, id) = two_links();
    at(&mut c, 1).stat.state = Health::Down;
    let r = store_ack(&mut c.paths, id, ack(id, 5), 1, 0, &Plain);
    assert_eq!(r.to, Some(2));
    assert!(at(&mut c, 1).pending_acks.is_empty());
    assert!(at(&mut c, 2).pending_acks.contains_key(&id));
    at(&mut c, 2).stat.state = Health::Down;
    assert_eq!(store_ack(&mut c.paths, id, ack(id, 5), 1, 0, &Plain).to, None);
}

// ---------------------------------------------------------------------------
// Closing and resetting
// ---------------------------------------------------------------------------
fn remember_close(c: &mut Session, id: u32, path: u32) {
    c.closes.remember(
        id,
        path,
        What::Close {
            second_closer: false,
            final_offset: None,
        },
        NOW,
    );
}

fn age_close_sent(c: &mut Session) {
    for p in c.closes.entries.values_mut() {
        p.sent_at = NOW - 400 * MS;
    }
}

#[test]
fn close_retry_rehomes_first_closer() {
    let (mut c, id) = two_links();
    let from = c.streams[&id].life.sticky;
    remember_close(&mut c, id, from);
    age_close_sent(&mut c);
    maintain(&mut c, NOW);
    assert!(c.metrics.close_retry > 0, "first closer must rehome Close");
}

#[test]
fn linger_without_stream_empties_closes() {
    let mut k = cfg();
    k.close_linger = 20 * MS;
    let mut c = Session::new(k, true);
    inject(&mut c, 1, "akcdn#0", 7);
    c.closes.remember(
        7,
        1,
        What::Close {
            second_closer: true,
            final_offset: None,
        },
        NOW - 50 * MS,
    );
    maintain(&mut c, NOW);
    assert!(c.closes.entries.is_empty());
}

#[test]
fn close_retry_stops_when_stream_gone() {
    let mut c = client();
    inject(&mut c, 1, "a#0", 7);
    remember_close(&mut c, 7, 1);
    age_close_sent(&mut c);
    maintain(&mut c, NOW);
    assert!(c.closes.entries.is_empty(), "a Close without a stream is forgotten");
    assert_eq!(c.metrics.close_retry, 0);
}

#[test]
fn close_retry_does_not_cycle_tried_paths() {
    let (mut c, id) = two_links();
    remember_close(&mut c, id, 1);
    age_close_sent(&mut c);
    maintain(&mut c, NOW);
    assert!(c.metrics.close_retry >= 1, "first timer rehome must count");
    age_close_sent(&mut c);
    maintain(&mut c, NOW);
    age_close_sent(&mut c);
    let r = c.metrics.close_retry;
    maintain(&mut c, NOW);
    assert_eq!(c.metrics.close_retry, r, "must not cycle tried live paths");
    assert!(c.closes.contains(id), "table stays until linger");
}

#[test]
fn close_retry_first_closer_six_path_capped() {
    let mut c = client();
    for i in 1..=6 {
        inject(&mut c, i, &format!("l{i}#0"), 7);
    }
    let id = open(&mut c);
    remember_close(&mut c, id, 1);
    for _ in 0..12 {
        age_close_sent(&mut c);
        maintain(&mut c, NOW);
    }
    assert!(c.metrics.close_retry <= 6);
    let r = c.metrics.close_retry;
    age_close_sent(&mut c);
    maintain(&mut c, NOW);
    assert_eq!(c.metrics.close_retry, r, "further maintains must not spray");
}

fn stuff_urgent(c: &mut Session, id: u32) {
    let chan = c.cfg.tuning.chan;
    let p = at(c, id);
    while p.urgent.len() < chan {
        p.urgent.push(Frame::Ping {
            seq: 1,
            sent_at_ms: 0,
        });
    }
}

#[test]
fn close_retry_enqueue_fail_does_not_burn_dest() {
    let (mut c, id) = two_links();
    remember_close(&mut c, id, 1);
    stuff_urgent(&mut c, 1);
    stuff_urgent(&mut c, 2);
    age_close_sent(&mut c);
    maintain(&mut c, NOW);
    assert_eq!(c.metrics.close_retry, 0, "full urgent must not count");
    assert_eq!(c.closes.entries[&id].tried, vec![1]);
    age_close_sent(&mut c);
    at(&mut c, 2).urgent.clear();
    maintain(&mut c, NOW);
    assert!(c.metrics.close_retry > 0, "drained dest must still be eligible");
}

#[test]
fn reset_retry_rehomes_when_enqueue_fails() {
    let (mut c, id) = two_links();
    let pref = Plain.pick_pref(&c.paths, PickPref::Any).unwrap();
    stuff_urgent(&mut c, pref);
    assert!(at(&mut c, pref).stat.schedulable);
    let before = c.metrics.reset_retry;
    c.finish_stream(id, Some(ResetReason::Timeout), true, &Plain, NOW);
    assert!(
        c.metrics.reset_retry > before,
        "a first Reset that was refused must rehome and count"
    );
}

#[test]
fn reset_retry_remembers_when_pick_pref_none() {
    let (mut c, id) = receiver();
    c.path_failed(1, &Plain, NOW);
    c.finish_stream(id, Some(ResetReason::Timeout), true, &Plain, NOW);
    assert!(c.resets.contains(id), "must remember Reset even with no dest");
    inject(&mut c, 2, "b#0", 7);
    maintain(&mut c, NOW + 25 * MS);
    assert!(at(&mut c, 2)
        .urgent
        .iter()
        .any(|f| matches!(f, Frame::StreamReset { .. })));
}

#[test]
fn reset_retry_stops_at_close_linger() {
    let mut k = cfg();
    k.close_linger = 30 * MS;
    let mut c = Session::new(k, true);
    c.resets.remember(9, 0, What::Reset(ResetReason::Timeout), NOW);
    maintain(&mut c, NOW + 50 * MS);
    assert!(c.resets.entries.is_empty());
}

#[test]
fn on_peer_reset_forgets_reset_table() {
    let (mut c, id) = receiver();
    c.resets.remember(id, 1, What::Reset(ResetReason::Timeout), NOW);
    c.on_peer_reset(id, ResetReason::PeerReset, &Plain, NOW);
    assert!(c.resets.entries.is_empty());
}

#[test]
fn reset_after_graceful_does_not_double_count() {
    let (mut c, id) = receiver();
    let sticky0 = at(&mut c, 1).stat.sticky;
    assert!(sticky0 > 0);
    c.close_send(id, &Plain, NOW);
    c.on_peer_close(id, Some(0), NOW);
    assert_eq!(c.metrics.streams_closed, 1);
    assert!(at(&mut c, 1).stat.sticky < sticky0, "a graceful close must unstick");
    let resets = c.metrics.stream_resets;
    c.reset_stream(id, ResetReason::PeerReset, &Plain, NOW);
    assert_eq!(
        c.metrics.stream_resets, resets,
        "already closed must not increment resets"
    );
}

#[test]
fn half_close_linger_reaps_stream_table() {
    let mut k = short_linger(80);
    k.tuning.loss_timeout_floor = 150 * MS;
    let (mut c, mut s) = ends(&["p1"], k);
    let id = open(&mut c);
    write(&mut c, id, b"hi", NOW);
    c.close_send(id, &Plain, NOW);
    carry(&mut c, &mut s, NOW);
    carry(&mut s, &mut c, NOW);
    assert!(c.streams.contains_key(&id) && s.streams.contains_key(&id));
    // the server's application holds its end; both sides sweep past the linger
    for ms in [125, 250] {
        let later = NOW + ms * MS;
        touch(&mut c, later);
        touch(&mut s, later);
        maintain(&mut c, later);
        carry(&mut c, &mut s, later);
        maintain(&mut s, later);
        carry(&mut s, &mut c, later);
    }
    assert_eq!(c.streams.len(), 0, "a half-closed client stream must linger-reap");
    assert_eq!(s.streams.len(), 0, "a half-closed server stream must linger-reap");
}

#[test]
fn in_flight_copy_not_reaped_before_fin() {
    let mut k = cfg();
    k.close_linger = 40 * MS;
    let (mut c, mut s) = ends(&["a"], k);
    let id = open(&mut c);
    carry(&mut c, &mut s, NOW);
    echo(&mut c, &mut s, id, b"ping");
    let later = NOW + 120 * MS;
    touch(&mut c, later);
    touch(&mut s, later);
    maintain(&mut c, later);
    maintain(&mut s, later);
    assert_eq!(c.streams.len(), 1, "in-flight must survive the linger");
    assert_eq!(s.streams.len(), 1);
    assert_eq!(c.metrics.stream_reaps_linger, 0);
}

#[test]
fn shutdown_session_close_ends_peer_without_all_down_wait() {
    let mut c = client();
    let mut s = Session::new(cfg(), false);
    inject(&mut c, 1, "a#0", 7);
    inject(&mut s, 1, "a#0", 7);
    let id = open(&mut c);
    carry(&mut c, &mut s, NOW);
    let death = c.shutdown(&Plain, NOW).unwrap();
    assert_eq!(death.told, Some(1));
    assert!(death.told_sent);
    assert_eq!(death.ids, vec![id]);
    assert!(c.shutdown(&Plain, NOW).is_none());
    carry(&mut c, &mut s, NOW);
    assert!(s.is_dead());
}

// ---------------------------------------------------------------------------
// Silence
// ---------------------------------------------------------------------------
#[test]
fn silence_without_ping_marks_degraded() {
    let mut c = client();
    inject(&mut c, 1, "t#1", 7);
    age_rx(&mut c, 1, 60);
    maintain(&mut c, NOW);
    assert_eq!(c.metrics.path_degraded, 1);
    assert_eq!(at(&mut c, 1).stat.state, Health::Degraded);
}

#[test]
fn young_inflight_ping_does_not_degrade() {
    let mut c = client();
    inject(&mut c, 1, "t#1", 7);
    at(&mut c, 1).stat.pending_pings = 1;
    age_rx(&mut c, 1, 60);
    maintain(&mut c, NOW);
    assert_eq!(c.metrics.path_degraded, 0);
    assert_eq!(at(&mut c, 1).stat.state, Health::Up);
}

#[test]
fn expired_ping_marks_degraded() {
    let mut c = client();
    inject(&mut c, 1, "t#1", 7);
    at(&mut c, 1).stat.probe_miss = 1;
    age_rx(&mut c, 1, 60);
    maintain(&mut c, NOW);
    assert_eq!(c.metrics.path_degraded, 1);
}

#[test]
fn stale_ping_degrades_even_if_young_ping_remains() {
    let mut c = client();
    inject(&mut c, 1, "t#1", 7);
    at(&mut c, 1).stat.probe_miss = 1;
    at(&mut c, 1).stat.pending_pings = 1;
    age_rx(&mut c, 1, 75);
    maintain(&mut c, NOW);
    assert_eq!(at(&mut c, 1).stat.state, Health::Degraded);
}

#[test]
fn single_path_silence_still_downs_without_degraded() {
    let mut c = client();
    inject(&mut c, 1, "t#1", 7);
    age_rx(&mut c, 1, 400);
    maintain(&mut c, NOW);
    assert_eq!(c.metrics.path_degraded, 0);
    assert_eq!(c.metrics.path_down, 1);
    assert!(!has(&c, 1));
}

fn pool(names: &[&str]) -> Session {
    let mut c = client();
    for (i, n) in names.iter().enumerate() {
        inject(&mut c, i as u32 + 1, n, 7);
    }
    c
}

#[test]
fn n2_both_silent_tears() {
    let mut c = pool(&["a#0", "b#0"]);
    age_rx(&mut c, 1, 400);
    age_rx(&mut c, 2, 400);
    maintain(&mut c, NOW);
    assert_eq!((c.metrics.path_degraded, c.metrics.path_down), (0, 2));
}

#[test]
fn n2_one_silent_downs() {
    let mut c = pool(&["a#0", "b#0"]);
    age_rx(&mut c, 1, 400);
    maintain(&mut c, NOW);
    assert_eq!((c.metrics.path_degraded, c.metrics.path_down), (0, 1));
}

#[test]
fn n4_three_silent_migrates_without_path_down() {
    let mut c = pool(&["a#0", "a#1", "b#0", "b#1"]);
    for i in [1, 3, 4] {
        age_rx(&mut c, i, 400);
    }
    maintain(&mut c, NOW);
    assert_eq!(c.metrics.path_down, 0);
    assert!(has(&c, 1), "silent path must be held while one peer is still up");
}

#[test]
fn n4_all_silent_tears() {
    let mut c = pool(&["p1", "p2", "p3", "p4"]);
    for i in 1..=4 {
        age_rx(&mut c, i, 400);
    }
    maintain(&mut c, NOW);
    assert_eq!((c.metrics.path_degraded, c.metrics.path_down), (0, 4));
}

#[test]
fn unknown_rtt_still_tears() {
    let mut c = client();
    inject(&mut c, 1, "a#0", 0);
    inject(&mut c, 2, "b#0", 7);
    age_rx(&mut c, 1, 600);
    maintain(&mut c, NOW);
    assert_eq!(c.metrics.path_down, 1);
}

#[test]
fn correlated_budget_tears_silent_keeps_up() {
    let mut k = cfg();
    k.all_down_timeout = 0;
    let mut c = Session::new(k, true);
    for (i, n) in ["a#0", "a#1", "b#0", "b#1"].iter().enumerate() {
        inject(&mut c, i as u32 + 1, n, 7);
    }
    for i in [1, 3, 4] {
        age_rx(&mut c, i, 400);
    }
    maintain(&mut c, NOW);
    assert_eq!(c.metrics.path_down, 3);
    assert!(has(&c, 2));
    assert_eq!(c.metrics.session_all_down_resets, 0);
}

#[test]
fn n4_three_quiet_sequential_holds_until_budget() {
    let mut c = pool(&["a#0", "a#1", "b#0", "b#1"]);
    age_rx(&mut c, 1, 400);
    age_rx(&mut c, 3, 80);
    age_rx(&mut c, 4, 80);
    maintain(&mut c, NOW);
    assert_eq!(c.metrics.path_down, 0, "past down_for must be held when the others are quiet");
    assert_eq!(c.metrics.correlated_silence, 1);
    assert!(has(&c, 1));
    age_rx(&mut c, 3, 400);
    age_rx(&mut c, 4, 400);
    maintain(&mut c, NOW);
    assert_eq!(c.metrics.path_down, 0);
    assert!(has(&c, 2));
}

#[test]
fn n4_three_quiet_no_down_for_does_not_hold() {
    let mut c = pool(&["a#0", "a#1", "b#0", "b#1"]);
    for i in [1, 3, 4] {
        age_rx(&mut c, i, 80);
    }
    maintain(&mut c, NOW);
    assert_eq!((c.metrics.path_down, c.metrics.correlated_silence), (0, 0));
}

#[test]
fn n4_quiet_recovers_before_down_for_tears() {
    let mut c = pool(&["a#0", "a#1", "b#0", "b#1"]);
    for i in [1, 3, 4] {
        age_rx(&mut c, i, 80);
    }
    maintain(&mut c, NOW);
    assert_eq!(c.metrics.correlated_silence, 0);
    age_rx(&mut c, 3, 0);
    age_rx(&mut c, 1, 400);
    maintain(&mut c, NOW);
    assert_eq!(c.metrics.path_down, 1);
    assert!(!has(&c, 1));
}

#[test]
fn n4_correlated_falling_edge_tears_silent() {
    let mut c = pool(&["a#0", "a#1", "b#0", "b#1"]);
    age_rx(&mut c, 1, 400);
    age_rx(&mut c, 3, 80);
    age_rx(&mut c, 4, 80);
    maintain(&mut c, NOW);
    assert_eq!(c.metrics.correlated_silence, 1);
    assert!(has(&c, 1));
    age_rx(&mut c, 4, 0);
    maintain(&mut c, NOW);
    assert_eq!(c.metrics.path_down, 1, "falling edge must tear what is past down_for");
    assert!(!has(&c, 1));
}

fn six() -> Session {
    pool(&["akcdn#0", "akcdn#1", "soy#0", "soy#1", "nsix#0", "nsix#1"])
}

#[test]
fn n6_four_cross_link_holds() {
    let mut c = six();
    for i in 1..=4 {
        age_rx(&mut c, i, 400);
    }
    maintain(&mut c, NOW);
    assert_eq!((c.metrics.path_down, c.metrics.correlated_silence), (0, 1));
    for i in 1..=6 {
        assert!(has(&c, i));
    }
}

#[test]
fn n6_three_cross_link_holds() {
    let mut c = six();
    for i in [1, 3, 5] {
        age_rx(&mut c, i, 400);
    }
    maintain(&mut c, NOW);
    assert_eq!((c.metrics.path_down, c.metrics.correlated_silence), (0, 1));
}

#[test]
fn n6_two_same_link_tears() {
    let mut c = six();
    age_rx(&mut c, 1, 400);
    age_rx(&mut c, 2, 400);
    maintain(&mut c, NOW);
    assert_eq!((c.metrics.path_down, c.metrics.correlated_silence), (2, 0));
}

#[test]
fn all_down_waits_for_its_timeout() {
    let mut c = client();
    inject(&mut c, 1, "a#0", 7);
    let id = open(&mut c);
    c.path_failed(1, &Plain, NOW);
    assert!(matches!(c.check_all_down(&Plain, NOW), AllDown::Waiting));
    assert!(c.streams.contains_key(&id));
    let later = NOW + c.cfg.all_down_timeout;
    assert!(!matches!(
        c.check_all_down(&Plain, later),
        AllDown::No | AllDown::Waiting
    ));
    assert_eq!(c.metrics.session_all_down_resets, 1);
}

// ---------------------------------------------------------------------------
// Outliers and backups
// ---------------------------------------------------------------------------
fn outlier(hold_ms: u64, is_client: bool) -> Session {
    let mut k = cfg();
    k.tuning.stable_up_hold = hold_ms * MS;
    let mut c = Session::new(k, is_client);
    inject(&mut c, 1, "soy#0", 7);
    at(&mut c, 1).stat.class_rtt_us = 227 * MS;
    at(&mut c, 1).stat.rtt_us = 227 * MS;
    inject(&mut c, 2, "soy#1", 7);
    c
}

#[test]
fn outlier_recycle_same_link_client() {
    let mut c = outlier(0, true);
    inject(&mut c, 3, "akcdn#0", 7);
    maintain(&mut c, NOW);
    assert_eq!(c.metrics.path_outlier_recycle, 1);
    assert!(!has(&c, 1));
}

#[test]
fn outlier_recycle_not_on_server() {
    let mut s = outlier(0, false);
    maintain(&mut s, NOW);
    assert_eq!(s.metrics.path_outlier_recycle, 0);
    assert!(has(&s, 1));
}

#[test]
fn outlier_recycle_ignores_other_link() {
    let mut k = cfg();
    k.tuning.stable_up_hold = 0;
    let mut c = Session::new(k, true);
    inject(&mut c, 1, "far#0", 227);
    inject(&mut c, 2, "near#0", 7);
    maintain(&mut c, NOW);
    assert_eq!(c.metrics.path_outlier_recycle, 0);
    assert!(has(&c, 1));
}

#[test]
fn outlier_recycle_young_class_waits_hold() {
    let mut c = outlier(50, true);
    maintain(&mut c, NOW);
    assert_eq!(c.metrics.path_outlier_recycle, 0);
    assert!(has(&c, 1));
    assert!(at(&mut c, 1).stat.outlier_since.is_none());
    at(&mut c, 1).stat.class_known_at = NOW - 50 * MS;
    maintain(&mut c, NOW);
    assert_eq!(c.metrics.path_outlier_recycle, 0, "the timer only starts now");
    assert!(has(&c, 1));
    at(&mut c, 1).stat.outlier_since = Some(NOW - 50 * MS);
    maintain(&mut c, NOW);
    assert_eq!(c.metrics.path_outlier_recycle, 1);
    assert!(!has(&c, 1));
}

#[test]
fn outlier_skips_recovered_fast() {
    let mut c = outlier(0, true);
    at(&mut c, 1).stat.rtt_us = 7 * MS;
    maintain(&mut c, NOW);
    assert_eq!(c.metrics.path_outlier_recycle, 0);
    assert!(has(&c, 1));
    assert!(at(&mut c, 1).stat.outlier_since.is_none());
}

#[test]
fn outlier_clears_when_fast_recovers_mid_hold() {
    let mut c = outlier(50, true);
    at(&mut c, 1).stat.class_known_at = NOW - 50 * MS;
    maintain(&mut c, NOW);
    assert_eq!(c.metrics.path_outlier_recycle, 0);
    assert!(has(&c, 1));
    assert!(at(&mut c, 1).stat.outlier_since.is_some());
    at(&mut c, 1).stat.rtt_us = 7 * MS;
    maintain(&mut c, NOW);
    assert_eq!(c.metrics.path_outlier_recycle, 0);
    assert!(has(&c, 1));
    assert!(at(&mut c, 1).stat.outlier_since.is_none());
}

#[test]
fn snapshot_marks_backup_flag() {
    let mut c = client();
    inject(&mut c, 1, "a#0", 7);
    inject(&mut c, 2, "b#0", 80);
    inject(&mut c, 3, "c#0", 0);
    assert_eq!(c.backup_marks(&Plain), vec![Some(false), Some(true), None]);
}

#[test]
fn streams_are_shown_by_their_home() {
    let (mut c, id) = two_links();
    let snap = c.stream_snaps(4);
    assert_eq!((snap.held, snap.live), (1, 1));
    assert_eq!(snap.sample[0].path, "akcdn#0");
    c.streams.get_mut(&id).unwrap().life.sticky = 9;
    assert_eq!(c.stream_snaps(4).sample[0].path, "id:9");
    assert_eq!(c.stream_snaps(0).sample.len(), 0);
}

// ---------------------------------------------------------------------------
// Loads, homes and queues
// ---------------------------------------------------------------------------
#[test]
fn refusals_outlive_their_path() {
    let (mut c, _) = two_links();
    let k = c.cfg;
    stuff_urgent(&mut c, 1);
    let ping = || Frame::Ping {
        seq: 1,
        sent_at_ms: 0,
    };
    assert!(!send_on_path(&mut c.paths, 1, ping(), &k));
    assert!(at(&mut c, 1).stat.congested);
    assert_eq!(c.frame_send_drop(), 1);
    c.path_failed(1, &Plain, NOW);
    assert_eq!(c.metrics.frame_send_drop, 1);
    assert_eq!(c.frame_send_drop(), 1);
}

#[test]
fn moved_bytes_are_neither_lost_nor_made() {
    let (mut c, _) = two_links();
    at(&mut c, 1).stat.inflight = 900;
    assert!(xfer_inflight(&mut c.paths, 1, 2, 300));
    assert_eq!(
        (at(&mut c, 1).stat.inflight, at(&mut c, 2).stat.inflight),
        (600, 300)
    );
    assert!(!xfer_inflight(&mut c.paths, 1, 1, 300));
}

#[test]
fn homes_are_counted_where_streams_live() {
    let (mut c, id) = two_links();
    assert_eq!(at(&mut c, 1).stat.sticky, 1);
    let mut st = c.streams.remove(&id).unwrap();
    st.set_sticky(&mut c.paths, 2, NOW);
    assert_eq!((at(&mut c, 1).stat.sticky, at(&mut c, 2).stat.sticky), (0, 1));
    st.unstick(&mut c.paths);
    assert_eq!(at(&mut c, 2).stat.sticky, 0);
    assert_eq!(st.life.sticky, 0);
}

#[test]
fn tried_paths_are_a_bounded_set() {
    let mut tried = vec![];
    for id in 1..=9 {
        push_tried(&mut tried, id);
    }
    assert_eq!(tried, vec![2, 3, 4, 5, 6, 7, 8, 9]);
    push_tried(&mut tried, 9);
    assert_eq!(tried.len(), 8);
    assert_eq!(pick_retry_untried(Some(1), &tried), Some(1));
    assert_eq!(pick_retry_untried(Some(2), &tried), None);
    let (mut c, id) = receiver();
    let st = c.streams.get_mut(&id).unwrap();
    for p in 1..=40 {
        st.note_path_used(p);
        st.note_path_used(p);
    }
    assert_eq!(st.paths_used.len(), 16);
}

#[test]
fn bulk_leaves_the_urgent_queue_alone() {
    let (mut c, id) = receiver();
    let k = c.cfg;
    let frame = |n: usize| Frame::StreamData {
        stream_id: id,
        offset: 0,
        data: vec![0; n],
    };
    let (u0, w0) = (at(&mut c, 1).urgent.len(), at(&mut c, 1).writer.len());
    assert!(send_on_path(&mut c.paths, 1, frame(1600), &k));
    assert_eq!(
        (at(&mut c, 1).urgent.len(), at(&mut c, 1).writer.len()),
        (u0, w0 + 1)
    );
    assert!(send_on_path(&mut c.paths, 1, frame(1500), &k));
    assert_eq!(at(&mut c, 1).urgent.len(), u0 + 1);
    // an unmeasured path keeps data off the urgent queue
    at(&mut c, 1).stat.rtt_us = 0;
    assert!(send_on_path(&mut c.paths, 1, frame(10), &k));
    assert_eq!(at(&mut c, 1).urgent.len(), u0 + 1);
    assert!(!send_on_path(&mut c.paths, 9, frame(10), &k));
    c.account_overlay_frame(&frame(10), 30, true);
    c.account_overlay_frame(&Frame::SessionClose, 5, false);
    assert_eq!((c.metrics.bytes_data_tx, c.metrics.bytes_ctrl_tx), (10, 20));
    assert_eq!((c.metrics.bytes_data_rx, c.metrics.bytes_ctrl_rx), (0, 5));
}

#[test]
fn send_on_path_data_enqueues_while_write_stalled() {
    let mut c = client();
    inject(&mut c, 1, "a#0", 7);
    let k = c.cfg;
    at(&mut c, 1).stat.write_stalled = true;
    let stalled = Frame::StreamData {
        stream_id: 1,
        offset: 0,
        data: vec![1; 64],
    };
    assert!(
        send_on_path(&mut c.paths, 1, stalled, &k),
        "known and stalled DATA must enqueue onto bulk"
    );
    let p = at(&mut c, 1);
    assert!(p.urgent.is_empty(), "stalled DATA must not occupy urgent");
    assert_eq!(p.writer.len(), 1);
    assert!(matches!(&p.writer[0], Frame::StreamData { stream_id: 1, .. }));
    assert!(p.stat.is_alive());
    assert_eq!(c.metrics.path_down, 0);
}

#[test]
fn bulk_and_hedged_pieces_sample_no_rtt() {
    let (mut c, id) = two_links();
    write(&mut c, id, &[1; 4000], NOW - 9 * MS);
    let u = piece(&c, id);
    let bulk = Unacked {
        data: u.data.clone(),
        tried: u.tried.clone(),
        ..*u
    };
    let s = c.release(&bulk, NOW).unwrap();
    assert!(s.rtt.is_none() && s.loop_rtt == Some(9 * MS) && s.ack_rtt == Some(9 * MS));
    let small = Unacked {
        data: vec![1; 10],
        tried: vec![1],
        ..bulk
    };
    at(&mut c, 1).stat.inflight = 0;
    assert_eq!(c.release(&small, NOW).unwrap().rtt, Some(9 * MS));
    let hedged = Unacked {
        data: vec![1; 10],
        tried: vec![1, 2],
        ..small
    };
    let s = c.release(&hedged, NOW).unwrap();
    assert!(s.bandwidth.is_none() && s.loop_rtt.is_none());
}

#[test]
fn clocks_follow_the_fastest_path() {
    let mut c = client();
    inject(&mut c, 1, "slow#0", 300);
    assert_eq!(retry_after(&c.paths, 1, &c.cfg), 600 * MS);
    inject(&mut c, 2, "fast#0", 7);
    assert_eq!(retry_after(&c.paths, 1, &c.cfg), 20 * MS);
    let p = at(&mut c, 1).stat;
    let k = c.cfg;
    assert!(p.hedge_belt(&k, 3) >= p.hedge_belt(&k, 1));
    assert!(p.hedge_belt(&k, 60) <= k.tuning.down_timeout_ceil);
}

#[test]
fn windows_never_promise_more_than_the_cap() {
    let (mut c, id) = receiver();
    let st = c.streams.get_mut(&id).unwrap();
    let cap = st.counters.recv_cap;
    assert_eq!(st.advertised_window(), cap);
    st.recv.buffered_in = 1000;
    assert_eq!(st.advertised_window(), cap - 1000);
    st.recv.buffered_in = u64::from(cap) + 5;
    assert_eq!(st.advertised_window(), 0);
    assert_eq!(st.window_extra(), 0);
    assert!(st.window_ok(u64::from(st.counters.send_window)));
    assert!(!st.window_ok(u64::from(st.counters.send_window) + 1));
}

#[test]
fn recv_cap_does_not_grow_from_back_to_back_data() {
    let (mut c, id) = receiver();
    let floor = c.streams[&id].initial_window;
    let ceil = floor * c.cfg.tuning.chan as u32;
    c.streams.get_mut(&id).unwrap().life.sticky = 1;
    data(&mut c, 1, id, 0, 16 * 1024, NOW);
    data(&mut c, 1, id, 16 * 1024, 16 * 1024, NOW + 30);
    let st = c.streams.get_mut(&id).unwrap();
    assert_eq!(st.recv.deliver_rate_ewma, 0, "a gap between callbacks is no rate");
    assert_eq!(st.counters.recv_cap, floor, "two frames in order must not reach the ceiling");
    assert_ne!(st.counters.recv_cap, ceil);

    let total = 350_000u64;
    let already = 32 * 1024u64;
    let later = NOW + 10 * MS;
    st.recv.last_deliver = Some(later - 7 * MS);
    data(&mut c, 1, id, already, (total - already) as usize, later);
    let st = &c.streams[&id];
    // 350000 bytes in a round trip of 7 ms are 50 MB/s; twice that product
    assert_eq!(st.recv.deliver_rate_ewma, 50_000_000);
    assert_eq!(st.counters.recv_cap, 700_000);
    assert!(floor < st.counters.recv_cap && st.counters.recv_cap < ceil);
}

#[test]
fn recv_cap_grows_with_bdp_and_not_below_floor() {
    let mut c = client();
    inject(&mut c, 1, "a#0", 7);
    inject(&mut c, 2, "b#0", 10);
    let id = open(&mut c);
    c.streams.get_mut(&id).unwrap().life.sticky = 1;
    let floor = c.streams[&id].initial_window;
    let ceil = floor * c.cfg.tuning.chan as u32;
    assert_eq!(c.streams[&id].counters.recv_cap, floor);
    assert_eq!(ceil, 8 * 1024 * 1024);
    let cap_at = |c: &mut Session, rate: u64| {
        c.streams.get_mut(&id).unwrap().recv.deliver_rate_ewma = rate;
        maintain(c, NOW);
        c.streams[&id].counters.recv_cap
    };

    // 50 MB/s x 7 ms x 2, above the floor of 128 KiB
    let cap = cap_at(&mut c, 50_000_000);
    assert!(floor < cap && cap <= ceil);
    assert_eq!(cap, 700_000);
    assert_eq!(c.recv_cap_extra(), u64::from(700_000 - floor));
    assert_eq!(cap_at(&mut c, 0), floor, "a zero rate must not grow");

    at(&mut c, 1).stat.rtt_us = 0;
    assert_eq!(
        cap_at(&mut c, 50_000_000),
        1_000_000,
        "an unknown home uses the fastest living path"
    );

    at(&mut c, 1).stat.state = Health::Down;
    c.paths.retain(|p| p.id != 2);
    assert_eq!(
        cap_at(&mut c, 50_000_000),
        floor,
        "no living path with a known RTT must not grow"
    );

    at(&mut c, 1).stat.state = Health::Up;
    at(&mut c, 1).stat.rtt_us = 7 * MS;
    assert_eq!(
        cap_at(&mut c, u64::MAX / 2),
        ceil,
        "a huge rate is held to the ceiling"
    );
}

#[test]
fn an_abandoned_session_ends_its_streams() {
    let (mut c, id) = receiver();
    let out = c.abandon(NOW + 5 * MS).unwrap();
    assert_eq!(out.len(), 1);
    assert!(out[0].id == id && out[0].counted);
    assert_eq!(c.metrics.stream_resets_session_dead, 1);
    assert!(c.abandon(NOW).is_none());
}

// ---------------------------------------------------------------------------
// Stalls and limits
// ---------------------------------------------------------------------------
#[test]
fn idle_then_first_send_does_not_stall() {
    let (mut c, id) = receiver();
    let late = NOW + 5_000 * MS;
    assert_eq!(c.scan_stall(id, late), StallChange::Same);
    write(&mut c, id, b"x", late);
    assert_eq!(c.scan_stall(id, late), StallChange::Same);
    assert!(!c.streams[&id].life.stalled);
}

#[test]
fn stall_observes_frozen_origin_not_zero_after_ack() {
    let (mut c, id) = receiver();
    write(&mut c, id, b"x", NOW);
    let later = NOW + 1_000 * MS;
    assert!(matches!(c.scan_stall(id, later), StallChange::Entered(_)));
    let from = c.streams[&id].life.stall_from_ms;
    c.scan_stall(id, later + 500 * MS);
    assert_eq!(c.streams[&id].life.stall_from_ms, from);
    c.on_ack(ack(id, 1), later + 600 * MS);
    match c.scan_stall(id, later + 600 * MS) {
        StallChange::Left(Some(ms)) => assert!(ms >= 1000, "stall of {ms} ms"),
        _ => panic!("the stall is over"),
    }
}

#[test]
fn limiters_name_the_side_that_waited() {
    let mut s: StreamStats = {
        let (c, id) = receiver();
        c.stream_stats(id).unwrap()
    };
    assert_eq!(s.limiter(), "none");
    s.window_blocks = 10;
    s.window_limited_with_room = 5;
    assert_eq!(s.limiter(), "window");
    s.window_limited_with_room = 4;
    assert_eq!(s.sender_limiter(), "path");
    s.budget_blocks = 10;
    assert_eq!(s.sender_limiter(), "budget");
    let mut w = LimiterWaits {
        far_us: 1,
        near_us: 2,
        copy_us: 100,
        overlay_sender: false,
        local: "origin",
    };
    assert_eq!(s.limiter_by_time(w), "none");
    w.near_us = 20;
    assert_eq!(s.limiter_by_time(w), "origin");
    w.far_us = 30;
    assert_eq!(s.limiter_by_time(w), "overlay");
    w.overlay_sender = true;
    assert_eq!(s.limiter_by_time(w), "origin");
    w.near_us = 40;
    assert_eq!(s.limiter_by_time(w), "budget");
}

#[test]
fn a_failback_goes_to_the_faster_path() {
    let mut c = client();
    inject(&mut c, 1, "slow#0", 60);
    let id = open(&mut c);
    inject(&mut c, 2, "fast#0", 7);
    let later = NOW + 10_000 * MS;
    for p in c.paths.iter_mut() {
        p.stat.last_rx = later;
    }
    let out = c.maybe_failback(id, &Plain, later);
    assert!(out.asked && out.moved);
    assert_eq!(c.streams[&id].life.sticky, 2);
    assert_eq!(c.metrics.failbacks, 1);
}

// ---------------------------------------------------------------------------
// Two ends
// ---------------------------------------------------------------------------
fn ends(names: &[&str], k: SessionConfig) -> (Session, Session) {
    let mut c = Session::new_client(k);
    let mut s = Session::new_server(k);
    for (i, n) in names.iter().enumerate() {
        inject(&mut c, i as u32 + 1, n, 7);
        inject(&mut s, i as u32 + 1, n, 7);
    }
    (c, s)
}

/// One round of `bytes` there and back.
fn echo(c: &mut Session, s: &mut Session, id: u32, bytes: &[u8]) {
    write(c, id, bytes, NOW);
    let got = carry(c, s, NOW);
    assert_eq!(got, bytes);
    write(s, id, &got, NOW);
    assert_eq!(carry(s, c, NOW), bytes);
    carry(c, s, NOW);
}

/// Both applications end their side.
fn hang_up(c: &mut Session, s: &mut Session, id: u32) {
    c.close_send(id, &Plain, NOW);
    carry(c, s, NOW);
    s.close_send(id, &Plain, NOW);
    carry(s, c, NOW);
    c.reap_stream(id, &Plain, NOW);
    s.reap_stream(id, &Plain, NOW);
    carry(c, s, NOW);
    carry(s, c, NOW);
}

fn sent_resets(s: &mut Session) -> usize {
    s.paths
        .iter()
        .flat_map(|p| p.urgent.iter().chain(p.writer.iter()))
        .filter(|f| matches!(f, Frame::StreamReset { .. }))
        .count()
}

fn touch(s: &mut Session, now: u64) {
    for p in s.paths.iter_mut() {
        p.stat.last_rx = now;
    }
}

fn feed(s: &mut Session, path: u32, f: Frame, now: u64) -> Handled {
    s.handle_frame(path, f, false, 64, &Plain, now)
}

fn opening(id: u32) -> Frame {
    Frame::StreamOpen {
        stream_id: id,
        target: target(),
    }
}

fn closing(id: u32, at: u64) -> Frame {
    Frame::StreamClose {
        stream_id: id,
        final_offset: Some(at),
    }
}

fn short_linger(ms: u64) -> SessionConfig {
    let mut k = cfg();
    k.close_linger = ms * MS;
    k
}

#[test]
fn failover_keeps_stream() {
    let (mut c, mut s) = ends(&["a", "b"], cfg());
    let id = open(&mut c);
    carry(&mut c, &mut s, NOW);
    echo(&mut c, &mut s, id, b"one");
    c.path_failed(1, &Plain, NOW);
    s.path_failed(1, &Plain, NOW);
    echo(&mut c, &mut s, id, b"two");
    assert_eq!(c.streams[&id].life.sticky, 2);
}

#[test]
fn dropping_one_conn_does_not_yank_other_streams() {
    let (mut c, mut s) = ends(&["a0", "a1", "b"], cfg());
    let id = open(&mut c);
    carry(&mut c, &mut s, NOW);
    echo(&mut c, &mut s, id, b"pin");
    let sticky = c.streams[&id].life.sticky;
    let other = c.paths.iter().find(|p| p.id != sticky).unwrap().id;
    c.path_failed(other, &Plain, NOW);
    assert_eq!(
        c.streams[&id].life.sticky, sticky,
        "unrelated conn death must not restick"
    );
    echo(&mut c, &mut s, id, b"ok!");
}

/// The home of a stream degrades and its writer backs up.
fn degraded_home(names: &[&str]) -> (Session, Session, u32, u32) {
    let (mut c, mut s) = ends(names, cfg());
    let id = open(&mut c);
    carry(&mut c, &mut s, NOW);
    echo(&mut c, &mut s, id, b"hi!");
    let sticky = c.streams[&id].life.sticky;
    c.mark_degraded(sticky);
    let p = at(&mut c, sticky);
    p.stat.congested = true;
    p.stat.schedulable = false;
    (c, s, id, sticky)
}

#[test]
fn degraded_migrates_to_sibling_without_path_down() {
    let (mut c, mut s, id, sticky) = degraded_home(&["a#0", "a#1"]);
    maintain(&mut c, NOW);
    assert_eq!(c.metrics.path_down, 0);
    echo(&mut c, &mut s, id, b"ok!");
    assert_ne!(
        c.streams[&id].life.sticky, sticky,
        "next send must leave the degraded path"
    );
}

#[test]
fn degraded_migrates_to_slower_backup_without_path_down() {
    let (mut c, mut s) = ends(&["a", "b"], cfg());
    at(&mut c, 1).stat.rtt_us = 12 * MS;
    at(&mut c, 2).stat.rtt_us = 60 * MS;
    let id = open(&mut c);
    carry(&mut c, &mut s, NOW);
    echo(&mut c, &mut s, id, b"hi!");
    let sticky = c.streams[&id].life.sticky;
    c.mark_degraded(sticky);
    maintain(&mut c, NOW);
    assert_eq!(c.streams[&id].life.sticky, sticky);
    assert_eq!(c.metrics.path_down, 0);
}

#[test]
fn degrade_migrate_increments_migrates_not_path_down() {
    let (mut c, mut s, id, _) = degraded_home(&["a#0", "a#1"]);
    let down0 = c.metrics.path_down;
    maintain(&mut c, NOW);
    echo(&mut c, &mut s, id, b"more");
    assert_eq!(c.metrics.path_down, down0);
}

#[test]
fn table_reaps_dead_session_without_get_or_snapshot() {
    let mut t = SessionTable::new(cfg());
    let i = t.create([0x11u8; 16]).unwrap();
    assert_eq!(t.slots.len(), 1);
    t.slots[i].session.shutdown(&Plain, NOW);
    t.drop_dead();
    assert_eq!(t.slots.len(), 0);
}

#[test]
fn graceful_close_reaps_stream_table() {
    let (mut c, mut s) = ends(&["a", "b"], cfg());
    for _ in 0..20 {
        let id = open(&mut c);
        carry(&mut c, &mut s, NOW);
        echo(&mut c, &mut s, id, b"ping");
        hang_up(&mut c, &mut s, id);
    }
    maintain(&mut c, NOW);
    maintain(&mut s, NOW);
    assert!(c.streams.is_empty(), "client must reap graceful closes");
    assert!(s.streams.is_empty(), "server must reap graceful closes");
    assert_eq!((c.metrics.streams_opened, c.metrics.streams_closed), (20, 20));
    let snap = c.stream_snaps(4);
    assert_eq!((snap.held, snap.live), (0, 0));
    let mig0 = c.metrics.migrates;
    c.path_failed(1, &Plain, NOW);
    assert_eq!(c.metrics.migrates, mig0, "closed streams must not migrate on path down");
}

#[test]
fn concurrent_open_close_reaps_stream_table() {
    let (mut c, mut s) = ends(&["a", "b"], cfg());
    let ids: Vec<u32> = (0..16).map(|_| open(&mut c)).collect();
    carry(&mut c, &mut s, NOW);
    for id in &ids {
        echo(&mut c, &mut s, *id, b"ping");
    }
    for id in &ids {
        hang_up(&mut c, &mut s, *id);
    }
    maintain(&mut c, NOW);
    maintain(&mut s, NOW);
    assert_eq!(c.streams.len(), 0, "client concurrent churn leak");
    assert_eq!(s.streams.len(), 0, "server concurrent churn leak");
}

#[test]
fn close_retry_continues_while_path_pongs() {
    let mut c = Session::new(short_linger(400), true);
    inject(&mut c, 1, "a#0", 7);
    inject(&mut c, 2, "b#0", 7);
    let id = open(&mut c);
    c.close_send(id, &Plain, NOW);
    let before = c.metrics.close_retry;
    for i in 1..=8 {
        let now = NOW + i * 25 * MS;
        at(&mut c, 1).stat.last_rx = now;
        maintain(&mut c, now);
    }
    assert!(
        c.metrics.close_retry > before,
        "a pong must not cancel the first closer's repeat"
    );
    assert!(c.closes.contains(id), "the Close is held until the peer ends or the linger");
}

#[test]
fn second_closer_does_not_retry_until_linger() {
    let (mut c, mut s) = ends(&["a", "b"], cfg());
    let id = open(&mut c);
    carry(&mut c, &mut s, NOW);
    echo(&mut c, &mut s, id, b"ping");
    hang_up(&mut c, &mut s, id);
    for i in 1..=8 {
        let now = NOW + i * 25 * MS;
        touch(&mut c, now);
        maintain(&mut c, now);
    }
    assert!(c.metrics.close_retry < 10, "second closer must not Close-storm");
    assert!(c.closes.entries.is_empty());
}

#[test]
fn close_retry_completed_short_stream_capped() {
    let (mut c, mut s) = ends(&["a", "b", "c", "d", "e", "f"], cfg());
    let id = open(&mut c);
    carry(&mut c, &mut s, NOW);
    echo(&mut c, &mut s, id, b"ping");
    hang_up(&mut c, &mut s, id);
    maintain(&mut c, NOW);
    assert!(c.metrics.close_retry <= 6);
}

#[test]
fn server_leftover_close_swallowed_reset_retried() {
    let (mut c, mut s) = ends(&["a#0", "b#0"], short_linger(80));
    let id = open(&mut c);
    carry(&mut c, &mut s, NOW);
    assert!(s.streams.contains_key(&id));
    write(&mut c, id, b"hi", NOW);
    c.close_send(id, &Plain, NOW);
    // everything queued so far is swallowed
    for p in c.paths.iter_mut() {
        p.urgent.clear();
        p.writer.clear();
    }
    stuff_urgent(&mut c, 1);
    for i in 1..=25 {
        let now = NOW + i * 10 * MS;
        touch(&mut c, now);
        touch(&mut s, now);
        maintain(&mut c, now);
        let p = at(&mut c, 2);
        let sent: Vec<Frame> = p.urgent.drain(..).collect();
        p.writer.clear();
        for f in sent {
            if matches!(f, Frame::StreamReset { .. }) {
                feed(&mut s, 2, f, now);
            }
        }
        maintain(&mut s, now);
    }
    assert_eq!(s.streams.len(), 0, "server leftover must reap after Reset rehome");
    assert!(c.metrics.reset_retry >= 1, "the Reset is what was rehomed");
}

#[test]
fn expire_recv_close_does_not_fin_holes() {
    let mut s = Session::new_server(cfg());
    inject(&mut s, 1, "a#0", 7);
    inject(&mut s, 2, "b#0", 7);
    assert!(matches!(feed(&mut s, 1, opening(1), NOW), Handled::Accepted { id: 1, .. }));
    data(&mut s, 2, 1, 100, 50, NOW);
    feed(&mut s, 2, closing(1, 200), NOW);
    let later = NOW + 30 * MS;
    touch(&mut s, later);
    maintain(&mut s, later);
    assert!(!s.streams[&1].recv.recv_fin, "holes must not FIN");
    assert_eq!(s.streams[&1].counters.recv_next, 0);
    data(&mut s, 1, 1, 0, 200, later);
    assert!(s.streams[&1].recv.recv_fin, "contiguous DATA must fill then FIN");
    assert_eq!(s.streams[&1].counters.recv_next, 200);
}

#[test]
fn expire_recv_close_fins_when_contiguous() {
    let mut s = Session::new_server(cfg());
    inject(&mut s, 1, "a#0", 7);
    feed(&mut s, 1, opening(1), NOW);
    feed(&mut s, 1, closing(1, 0), NOW);
    maintain(&mut s, NOW);
    assert!(s.streams[&1].recv.recv_fin);
}

fn full_ack(s: &mut Session, id: u32) {
    let acked_offset = s.streams[&id].counters.send_next;
    let f = Frame::StreamAck(StreamAck {
        stream_id: id,
        acked_offset,
        window: 128 * 1024,
        sack: vec![],
    });
    feed(s, 1, f, NOW);
}

#[test]
fn linger_progress_fine_without_recv_fin_sends_reset() {
    let mut c = Session::new(short_linger(80), true);
    inject(&mut c, 1, "a#0", 7);
    inject(&mut c, 2, "b#0", 7);
    let id = open(&mut c);
    write(&mut c, id, b"hi", NOW);
    full_ack(&mut c, id);
    c.close_send(id, &Plain, NOW);
    let later = NOW + 120 * MS;
    touch(&mut c, later);
    maintain(&mut c, later);
    assert!(sent_resets(&mut c) > 0, "a lingering client tells the peer");
    assert_eq!(c.streams.len(), 0);
    assert!(c.resets.contains(id), "the Reset stays remembered");
    assert!(c.metrics.stream_reaps_linger >= 1);
    assert_eq!(c.metrics.stream_resets_timeout, 0);
    assert_eq!(c.metrics.stream_resets, 0, "the stream itself is not reset");
}

#[test]
fn linger_silent_cas_loss_preserves_reset_table() {
    let (mut c, id) = receiver();
    c.streams.get_mut(&id).unwrap().send.send_fin_sent = true;
    full_ack(&mut c, id);
    c.resets.remember(id, 1, What::Reset(ResetReason::Timeout), NOW);
    c.streams.get_mut(&id).unwrap().life.counted_close = true;
    c.linger_reap_progress_fine(id, &Plain, NOW);
    assert!(c.resets.contains(id), "an end that was counted must not wipe the leftover Reset");
}

#[test]
fn leftover_drains_via_close_retry_when_progress_fine() {
    let (mut c, mut s) = ends(&["a#0", "b#0"], short_linger(80));
    let id = open(&mut c);
    carry(&mut c, &mut s, NOW);
    full_ack(&mut c, id);
    c.close_send(id, &Plain, NOW);
    for p in c.paths.iter_mut() {
        p.urgent.clear();
    }
    age_close_sent(&mut c);
    maintain(&mut c, NOW);
    assert_eq!(sent_resets(&mut c), 0, "no Reset while everything is fine");
    carry(&mut c, &mut s, NOW);
    assert!(s.streams[&id].recv.recv_fin, "the repeated Close landed");
    let later = NOW + 165 * MS;
    touch(&mut s, later);
    maintain(&mut s, later);
    assert_eq!(s.streams.len(), 0);
}

#[test]
fn server_origin_eof_linger_does_not_send_reset() {
    let mut s = Session::new_server(short_linger(80));
    inject(&mut s, 1, "a#0", 7);
    feed(&mut s, 1, opening(1), NOW);
    full_ack(&mut s, 1);
    s.close_send(1, &Plain, NOW);
    let later = NOW + 120 * MS;
    touch(&mut s, later);
    maintain(&mut s, later);
    assert_eq!(sent_resets(&mut s), 0, "server origin-EOF linger must stay silent");
    assert_eq!(s.streams.len(), 0);
    assert!(s.resets.entries.is_empty());
    assert_eq!(s.metrics.stream_resets_timeout, 0);
}

#[test]
fn linger_progress_fine_with_recv_fin_does_not_send_reset() {
    let mut c = Session::new(short_linger(80), true);
    inject(&mut c, 1, "a#0", 7);
    inject(&mut c, 2, "b#0", 7);
    let id = open(&mut c);
    full_ack(&mut c, id);
    feed(&mut c, 1, closing(id, 0), NOW);
    let later = NOW + 120 * MS;
    touch(&mut c, later);
    maintain(&mut c, later);
    assert_eq!(sent_resets(&mut c), 0);
    assert_eq!(c.streams.len(), 0);
    assert!(c.resets.entries.is_empty());
}

#[test]
fn peer_reset_after_recv_fin_is_eof_not_hop_rst() {
    let mut s = Session::new_server(cfg());
    inject(&mut s, 1, "a#0", 7);
    feed(&mut s, 1, opening(1), NOW);
    match feed(&mut s, 1, closing(1, 0), NOW) {
        Handled::Closed(Some(c)) => assert!(c.fin, "Close must end the application's side"),
        _ => panic!("the stream is open"),
    }
    let timeout0 = s.metrics.stream_resets_timeout;
    let out = s.on_peer_reset(1, ResetReason::Timeout, &Plain, NOW).unwrap();
    assert_eq!(s.metrics.stream_resets_timeout, timeout0);
    assert!(out.inbound.is_none(), "the application saw the end already");
}

// ---------------------------------------------------------------------------
// Receiving, reading, stalling
// ---------------------------------------------------------------------------
#[test]
fn in_order_parked_recv_is_not_stall() {
    let (mut c, id) = receiver();
    let st = c.streams.get_mut(&id).unwrap();
    st.recv_buf.insert(0, vec![1, 2, 3]);
    st.recv.recv_buffered = 3;
    st.recv.last_recv_ms = 1;
    maintain(&mut c, NOW);
    assert!(!c.streams[&id].life.stalled, "in-order parked is not a hole");
}

#[test]
fn stall_enter_kind_recorded() {
    let mut k = cfg();
    k.tuning.loss_timeout_floor = 40 * MS;
    let mut c = Session::new(k, true);
    inject(&mut c, 1, "a#0", 7);
    let id = open(&mut c);
    data(&mut c, 1, id, 5000, 1000, NOW);
    assert_eq!(c.scan_stall(id, NOW), StallChange::Same, "not yet past the clock");
    let t1 = NOW + 60 * MS;
    assert_eq!(c.scan_stall(id, t1), StallChange::Entered(StallKind::RecvHole));
    assert_eq!(
        (
            c.metrics.stall_enter_recv_hole,
            c.metrics.stall_enter_send,
            c.metrics.stall_enter_both
        ),
        (1, 0, 0)
    );
    data(&mut c, 1, id, 0, 5000, t1);
    assert!(matches!(c.scan_stall(id, t1), StallChange::Left(Some(_))));
    write(&mut c, id, &[1; 4000], t1);
    let t2 = t1 + 60 * MS;
    assert_eq!(c.scan_stall(id, t2), StallChange::Entered(StallKind::Send));
    assert_eq!(c.metrics.stall_enter_send, 1);
    c.streams.get_mut(&id).unwrap().unacked.clear();
    assert!(matches!(c.scan_stall(id, t2), StallChange::Left(_)));
    write(&mut c, id, &[2; 100], t2);
    c.streams.get_mut(&id).unwrap().counters.send_window = 0;
    let t3 = t2 + 60 * MS;
    assert_eq!(
        c.scan_stall(id, t3),
        StallChange::Entered(StallKind::SendZeroWindow)
    );
    assert_eq!(
        (c.metrics.stall_enter_send, c.metrics.stall_enter_send_zero_window),
        (1, 1)
    );
}

#[test]
fn resend_why_recorded() {
    let mut c = client();
    for w in ["silence", "belt", "down", "gone", "dropped", "age", "allquiet"] {
        c.metrics.note_resend_why(w);
    }
    c.metrics.note_resend_why("bogus");
    for r in [
        "no_fresh_alt",
        "allquiet_wait",
        "queue_full",
        "write_stalled",
        "all_tried",
        "no_alt",
    ] {
        c.metrics.note_resend_skipped(r);
    }
    let m = &c.metrics;
    assert_eq!(
        [
            m.data_resend_silence,
            m.data_resend_belt,
            m.data_resend_down,
            m.data_resend_gone,
            m.data_resend_dropped,
            m.data_resend_age,
            m.data_resend_allquiet,
        ],
        [1; 7]
    );
    assert_eq!(
        [
            m.data_resend_skipped_no_fresh_alt,
            m.data_resend_skipped_allquiet_wait,
            m.data_resend_skipped_queue_full,
            m.data_resend_skipped_write_stalled,
            m.data_resend_skipped_all_tried,
            m.data_resend_skipped_no_alt,
        ],
        [1; 6]
    );
}

#[test]
fn app_read_drains_leftover_in_order_data() {
    let (mut c, id) = receiver();
    let mut got: Vec<u8> = vec![];
    for (off, free) in [(0u64, 1usize), (1000, 0), (2000, 0)] {
        let bytes = vec![(off / 1000) as u8; 1000];
        match c.on_data(1, id, off, bytes, false, free, &Plain, NOW) {
            DataOutcome::Taken { absorbed, .. } => {
                got.extend(absorbed.handed.unwrap().chunks.concat());
            }
            DataOutcome::Early => panic!("the stream is open"),
        }
    }
    assert_eq!(c.streams[&id].counters.recv_next, 1000, "a channel of one took one");
    assert_eq!(c.streams[&id].recv.recv_buffered, 2000);
    while got.len() < 3000 {
        let read = c.note_app_read(id, 1000, 1, &Plain, NOW).unwrap();
        assert!(!read.handed.chunks.is_empty(), "the tail must drain without a new arrival");
        got.extend(read.handed.chunks.concat());
    }
    assert_eq!((got[0], got[1500], got[2999]), (0, 1, 2));
    assert_eq!(c.streams[&id].recv.recv_buffered, 0);
}

#[test]
fn recv_cap_max_observed_at_stream_end() {
    let (mut c, id) = receiver();
    let idle = open(&mut c);
    data(&mut c, 1, id, 0, 1000, NOW);
    c.streams.get_mut(&id).unwrap().counters.recv_cap_max = 3 << 20;
    let a = c.on_peer_reset(id, ResetReason::PeerReset, &Plain, NOW).unwrap();
    let b = c.on_peer_reset(idle, ResetReason::PeerReset, &Plain, NOW).unwrap();
    assert_eq!(a.record.unwrap().recv_cap_max, Some(3 << 20));
    assert_eq!(b.record.unwrap().recv_cap_max, None, "only the stream that received");
}

#[test]
fn advertised_window_counts_recv_buf() {
    let (mut c, id) = receiver();
    let floor = c.streams[&id].initial_window;
    assert_eq!(c.streams[&id].counters.recv_cap, floor);
    assert_eq!(c.streams[&id].advertised_window(), floor);
    data(&mut c, 1, id, 100, 50, NOW);
    let st = c.streams.get_mut(&id).unwrap();
    assert_eq!(st.recv_buf[&100].len(), 50, "hole must stay in recv_buf");
    assert_eq!((st.recv.recv_buffered, st.recv.buffered_in), (50, 0));
    assert_eq!(st.advertised_window(), floor - 50);
    st.recv.buffered_in = 10;
    assert_eq!(st.advertised_window(), floor - 60, "both are subtracted");
}

#[test]
fn ack_unblocks_window_when_urgent_full() {
    let (mut c, mut s) = ends(&["a#0"], cfg());
    let id = open(&mut c);
    carry(&mut c, &mut s, NOW);
    c.streams.get_mut(&id).unwrap().counters.send_window = 0;
    assert_eq!(c.window_gate(id, 1, false, false, &Plain).0, Ok(Gate::Closed));
    assert_eq!(c.metrics.window_blocks, 1);
    stuff_urgent(&mut s, 1);
    let drop0 = s.frame_send_drop();
    let window = s.streams[&id].advertised_window();
    let a = StreamAck {
        stream_id: id,
        acked_offset: 0,
        window,
        sack: vec![],
    };
    store_ack(&mut s.paths, id, a, 1, 0, &Plain);
    carry(&mut s, &mut c, NOW);
    assert_eq!(c.window_gate(id, 1, true, false, &Plain).0, Ok(Gate::Open(1)));
    assert_eq!(s.frame_send_drop(), drop0);
    assert!(!at(&mut s, 1).stat.congested);
}

#[test]
fn ack_dirty_survives_in_flight_overwrite() {
    let (mut c, id) = receiver();
    data(&mut c, 1, id, 0, 100, NOW);
    let first = at(&mut c, 1).pending_acks.remove(&id).unwrap();
    assert_eq!(first.acked_offset, 100);
    data(&mut c, 1, id, 100, 100, NOW + MS);
    assert!(c.streams[&id].recv.ack_dirty);
    assert_eq!(at(&mut c, 1).pending_acks[&id].acked_offset, 200);
    assert_eq!(c.note_ack_sent(1, id, NOW + 2 * MS), None);
    assert!(
        c.streams[&id].recv.ack_dirty,
        "the first ACK must not clear the mark while a newer one waits"
    );
    at(&mut c, 1).pending_acks.clear();
    assert_eq!(c.note_ack_sent(1, id, NOW + 5 * MS), Some(5 * MS));
    assert!(!c.streams[&id].recv.ack_dirty);
}

// ---------------------------------------------------------------------------
// Placing and re-sending
// ---------------------------------------------------------------------------
#[test]
fn stalled_leftover_retry_stops_after_all_dests_and_linger() {
    let mut c = Session::new(short_linger(40), true);
    inject(&mut c, 1, "a#0", 7);
    inject(&mut c, 2, "b#0", 7);
    let id = open(&mut c);
    write(&mut c, id, b"hello", NOW);
    age_pieces(&mut c, id, 100);
    let st = c.streams.get_mut(&id).unwrap();
    for u in st.unacked.values_mut() {
        u.tried = vec![1, 2];
        u.first_sent = NOW - 100 * MS;
        u.retry_not_before = NOW - 100 * MS;
    }
    st.life.stalled = true;
    st.life.stall_from_ms = NOW / MS - 80;
    let h0 = hedges(&c);
    maintain(&mut c, NOW);
    maintain(&mut c, NOW);
    assert_eq!(hedges(&c), h0);
    assert!(c.metrics.data_resend_skipped_all_tried > 0);
    assert!(c.streams.contains_key(&id), "the stream is kept");
}

#[test]
fn retry_does_not_pick_write_stalled_alt() {
    let (mut c, id) = two_links();
    write(&mut c, id, b"hello", NOW);
    age_pieces(&mut c, id, 100);
    at(&mut c, 2).stat.write_stalled = true;
    maintain(&mut c, NOW);
    assert_eq!(c.metrics.data_hedge, 0);
    assert_eq!(piece(&c, id).tried, vec![1], "must not spray onto a write-stalled alt");
}

#[test]
fn failed_retry_does_not_hedge_or_tear() {
    let (mut c, id) = two_links();
    write(&mut c, id, b"hello", NOW);
    stuff_urgent(&mut c, 1);
    stuff_urgent(&mut c, 2);
    age_pieces(&mut c, id, 100);
    let (aged, from) = (piece(&c, id).last_sent, piece(&c, id).path_id);
    maintain(&mut c, NOW);
    assert_eq!(piece(&c, id).last_sent, aged, "failed send must not bump last_sent");
    assert_eq!(piece(&c, id).path_id, from);
    assert_eq!((c.metrics.data_hedge, c.metrics.path_down), (0, 0));
    assert!(has(&c, 1) && has(&c, 2));
}

#[test]
fn urgent_full_on_one_leaves_five_up() {
    let mut c = pool(&["p1#0", "p2#0", "p3#0", "p4#0", "p5#0", "p6#0"]);
    let k = c.cfg;
    stuff_urgent(&mut c, 1);
    let ping = Frame::Ping {
        seq: 9,
        sent_at_ms: 0,
    };
    assert!(!send_on_path(&mut c.paths, 1, ping, &k));
    assert!(at(&mut c, 1).stat.congested);
    assert_eq!(c.metrics.path_down, 0);
    assert_eq!(c.alive_path_count(), 6);
    for i in 2..=6 {
        assert!(at(&mut c, i).stat.is_alive() && !at(&mut c, i).stat.congested);
    }
}

fn fill_bulk(c: &mut Session, id: u32) {
    let k = c.cfg;
    for _ in 0..=k.tuning.chan {
        let f = Frame::StreamData {
            stream_id: 0,
            offset: 0,
            data: vec![0; 1600],
        };
        if !send_on_path(&mut c.paths, id, f, &k) {
            at(c, id).stat.congested = false;
            return;
        }
    }
    panic!("bulk queue did not fill");
}

#[test]
fn stalled_urgent_bulk_full_does_not_drop_copy() {
    let (mut c, id) = receiver();
    let k = c.cfg;
    write(&mut c, id, b"hello", NOW);
    stuff_urgent(&mut c, 1);
    fill_bulk(&mut c, 1);
    at(&mut c, 1).stat.write_stalled = true;
    let last = piece(&c, id).last_sent;
    let extra = Frame::StreamData {
        stream_id: id,
        offset: 99_000,
        data: vec![1; 64],
    };
    assert!(!send_on_path(&mut c.paths, 1, extra, &k));
    assert_eq!(piece(&c, id).data, b"hello", "the copy stays");
    assert_eq!(piece(&c, id).last_sent, last);
}

/// A bulk piece on a path whose bulk queue is full.
fn parked_piece() -> (Session, u32, Vec<u8>, u64, u64) {
    let (mut c, id) = two_links();
    fill_bulk(&mut c, 1);
    let bytes = vec![0x5au8; 2000];
    let offset = c.cut_piece(id, 2000).unwrap();
    match c.send_piece(id, offset, &bytes, 1, false, &Plain, NOW).unwrap().fate {
        Fate::Parked { deadline } => (c, id, bytes, offset, deadline),
        _ => panic!("a live bulk path that is full makes the piece wait"),
    }
}

#[test]
fn bulk_send_blocked_waits_does_not_migrate() {
    let (mut c, id, bytes, offset, deadline) = parked_piece();
    let mig0 = c.metrics.migrates_send_blocked;
    let later = NOW + 80 * MS;
    assert!(later < deadline);
    for woke in [false, true] {
        let out = c.wait_bulk_send(id, 1, offset, &bytes, deadline, woke, &Plain, later);
        assert!(matches!(out, BulkWait::Wait));
    }
    assert_eq!(c.metrics.migrates_send_blocked, mig0, "must wait, not spray");
    assert_eq!(piece(&c, id).path_id, 1);
    at(&mut c, 1).writer.clear();
    let out = c.wait_bulk_send(id, 1, offset, &bytes, deadline, true, &Plain, later);
    assert!(matches!(out, BulkWait::Queued));
}

#[test]
fn c4_wait_pins_retry_not_before() {
    let (mut c, id, _, _, deadline) = parked_piece();
    let k = c.cfg;
    let wait = at(&mut c, 1).stat.stable_down_timeout(&k);
    assert!(wait > k.tuning.loss_timeout_floor);
    assert_eq!(deadline, NOW + wait);
    assert_eq!(piece(&c, id).retry_not_before, deadline);
    let later = NOW + k.tuning.loss_timeout_floor + 10 * MS;
    touch(&mut c, later);
    // the first tick repeats the Open, which counts as a hedge too
    maintain(&mut c, later);
    let h0 = hedges(&c);
    maintain(&mut c, later);
    assert_eq!(hedges(&c), h0);
    assert_eq!(piece(&c, id).tried, vec![1]);
    assert_eq!(piece(&c, id).retry_not_before, deadline, "the pin survives");
}

#[test]
fn hol_leftover_interactive_does_not_pin_after_linger_stall() {
    let mut c = Session::new(short_linger(40), true);
    inject(&mut c, 1, "a#0", 7);
    inject(&mut c, 2, "a#1", 7);
    let id = open(&mut c);
    write(&mut c, id, b"hi", NOW);
    let k = c.cfg;
    let place = |c: &Session| hol_place_bulk(&c.paths, 1, &c.streams, &k, &Plain, NOW / MS).dest;
    assert_eq!(c.streams[&id].life.sticky, 1);
    assert_eq!(place(&c), Some(2));
    let st = c.streams.get_mut(&id).unwrap();
    st.life.stalled = true;
    st.life.stall_from_ms = NOW / MS - 80;
    assert_eq!(place(&c), None, "linger-stalled leftover must not pin as interactive");
}

#[test]
fn hol_place_bulk_accepts_write_stalled_sibling() {
    let mut c = pool(&["a#0", "a#1"]);
    at(&mut c, 2).stat.write_stalled = true;
    at(&mut c, 2).stat.schedulable = false;
    let id = open(&mut c);
    write(&mut c, id, b"hi", NOW);
    assert_eq!(c.streams[&id].life.sticky, 1);
    assert!(!c.streams[&id].send.bulk);
    let place = hol_place_bulk(&c.paths, 1, &c.streams, &c.cfg, &Plain, NOW / MS);
    assert_eq!(place.dest, Some(2), "a write-stalled sibling is a bulk target");
}

#[test]
fn bulk_affinity_stays_on_write_stalled_sticky() {
    let (mut c, id) = two_links();
    write(&mut c, id, b"hi", NOW);
    c.streams.get_mut(&id).unwrap().send.bulk = true;
    let p = at(&mut c, 1);
    p.stat.write_stalled = true;
    p.stat.schedulable = false;
    write(&mut c, id, b"more-bulk", NOW + MS);
    let last = c.streams[&id].unacked.values().max_by_key(|u| u.last_sent).unwrap();
    assert_eq!(last.path_id, 1, "bulk affinity must stay on write-stalled sticky");
    assert_eq!(c.streams[&id].life.sticky, 1);
}

#[test]
fn interactive_affinity_still_skips_write_stalled() {
    let (mut c, _) = two_links();
    let both = vec![1, 2];
    assert_eq!(interactive_affinity(&c.paths, 1, &both), Some(1));
    let p = at(&mut c, 1);
    p.stat.write_stalled = true;
    p.stat.schedulable = false;
    assert_eq!(interactive_affinity(&c.paths, 1, &both), None);
    assert_eq!(interactive_affinity(&c.paths, 2, &vec![1]), None, "not of the class");
}

// ---------------------------------------------------------------------------
// Picks and samples
// ---------------------------------------------------------------------------
#[test]
fn note_pick_credits_alt_when_primary_enqueue_fails() {
    let mut c = client();
    inject(&mut c, 1, "a#0", 80);
    inject(&mut c, 2, "b#0", 7);
    stuff_urgent(&mut c, 1);
    open(&mut c);
    assert_eq!(c.metrics.pick_rtt_us, 7 * MS);
    assert_eq!((at(&mut c, 1).stat.picks, at(&mut c, 2).stat.picks), (0, 1));
    // the first choice is full: the other path gets the credit
    stuff_urgent(&mut c, 2);
    at(&mut c, 1).urgent.clear();
    open(&mut c);
    assert_eq!(c.metrics.pick_rtt_us, 80 * MS);
    assert_eq!((at(&mut c, 1).stat.picks, at(&mut c, 2).stat.picks), (1, 1));
}

#[test]
fn note_pick_unknown_stores_zero() {
    let mut c = client();
    inject(&mut c, 1, "a#0", 0);
    open(&mut c);
    assert_eq!(c.metrics.pick_rtt_us, 0);
    assert!(c.metrics.picks_unknown_rtt >= 1);
}

#[test]
fn open_stream_pick_rtt_prefers_fast_dest() {
    let mut c = client();
    inject(&mut c, 1, "soy#0", 80);
    inject(&mut c, 2, "akcdn#0", 7);
    open(&mut c);
    assert_eq!(c.metrics.pick_rtt_us, 7 * MS);
    assert_eq!((at(&mut c, 1).stat.picks, at(&mut c, 2).stat.picks), (0, 1));
}

#[test]
fn short_lived_unknown_not_pick_best_with_known_fresh_sister() {
    let mut c = client();
    inject(&mut c, 1, "akcdn#0", 7);
    inject(&mut c, 2, "soy#0", 7);
    c.path_failed(2, &Plain, NOW);
    inject(&mut c, 3, "soy#0", 0);
    open(&mut c);
    assert_eq!((at(&mut c, 1).stat.picks, at(&mut c, 3).stat.picks), (1, 0));
}

/// The RTT sample of a small piece that was acknowledged after `ms`.
fn ack_sample(ms: u64) -> Option<u64> {
    let (mut c, id) = receiver();
    write(&mut c, id, b"hello", NOW);
    age_pieces(&mut c, id, ms);
    let out = c.on_ack(ack(id, 5), NOW).unwrap();
    assert_eq!((out.gone.cum.len(), out.samples.len()), (1, 1));
    out.samples[0].as_ref().unwrap().rtt
}

#[test]
fn stream_ack_200ms_does_not_raise_ewma() {
    assert_eq!(ack_sample(200), None, "a 200 ms ACK is no sample of a 7 ms path");
}

#[test]
fn stream_ack_10ms_may_record() {
    assert_eq!(ack_sample(10), Some(10 * MS));
}

#[test]
fn backup_pong_records_even_when_pool_has_fast_peer() {
    let mut c = client();
    inject(&mut c, 1, "f#0", 7);
    inject(&mut c, 2, "b#0", 80);
    let k = c.cfg;
    assert_eq!(at(&mut c, 1).stat.rtt_sample_cap(&k), 20 * MS, "the loss floor");
    assert!(at(&mut c, 2).stat.rtt_sample_cap(&k) >= 100 * MS);
    let gate = c.on_pong(2).unwrap();
    assert!(gate.record && !gate.first);
    assert!(60 * MS <= gate.cap, "a 60 ms pong of the backup is recorded");
}
