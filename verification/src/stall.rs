//! Streams whose outstanding data made no progress.

use std::collections::BTreeMap;
use vstd::prelude::*;

use crate::cfg::SessionConfig;
use crate::maps::keys_of;
use crate::metrics::{plus, Counters};
use crate::num::{above, larger, max_u64, smaller};
use crate::path::{distinct_ids, get_path, stat_of, PathState};
use crate::session::Session;
use crate::stream::{Lifecycle, RecvState, StreamState, Unacked};

verus! {

broadcast use vstd::laws_cmp::group_laws_cmp;

// ---------------------------------------------------------------------------
// Clocks
// ---------------------------------------------------------------------------
/// The loss clock of the path that carries a piece, while it is in the pool.
pub open spec fn piece_clock(u: Unacked, ps: Seq<PathState>, cfg: SessionConfig) -> Option<int> {
    match stat_of(ps, u.path_id) {
        Some(p) => Some(cfg.tuning.loss_timeout_of(p.rtt_us as int)),
        None => None,
    }
}

/// `t` is the smallest loss clock of the pieces, the floor where no piece has
/// one.
pub open spec fn smallest_clock(
    m: Map<u64, Unacked>,
    ps: Seq<PathState>,
    cfg: SessionConfig,
    t: u64,
) -> bool {
    &&& forall|k: u64| #[trigger]
        m.contains_key(k) && piece_clock(m[k], ps, cfg) is Some ==> t <= piece_clock(
            m[k],
            ps,
            cfg,
        )->0
    &&& {
        ||| exists|k: u64| #[trigger]
            m.contains_key(k) && piece_clock(m[k], ps, cfg) == Some(t as int)
        ||| {
            &&& t == cfg.tuning.loss_timeout_floor
            &&& forall|k: u64| #[trigger]
                m.contains_key(k) ==> piece_clock(m[k], ps, cfg) is None
        }
    }
}

/// `t` is when the oldest outstanding piece first left; nothing without one.
pub open spec fn oldest_piece(m: Map<u64, Unacked>, t: Option<u64>) -> bool {
    match t {
        Some(at) => {
            &&& exists|k: u64| #[trigger] m.contains_key(k) && m[k].first_sent == at
            &&& forall|k: u64| #[trigger] m.contains_key(k) ==> at <= m[k].first_sent
        },
        None => forall|k: u64| !#[trigger] m.contains_key(k),
    }
}

/// When `at` was, on the millisecond clock; never 0.
pub open spec fn at_ms(at: u64, now: u64) -> int {
    larger(above(now as int / 1000, above(now as int, at as int) / 1000), 1)
}

fn at_ms_of(at: u64, now: u64) -> (r: u64)
    ensures
        r == at_ms(at, now),
{
    max_u64((now / 1000).saturating_sub(now.saturating_sub(at) / 1000), 1)
}

/// `origin`, once it is at least `thresh` ago.
pub open spec fn overdue(origin: int, thresh: u64, now: u64) -> Option<int> {
    if above(now as int / 1000, origin) >= thresh as int / 1000 {
        Some(origin)
    } else {
        None
    }
}

impl StreamState {
    /// Bytes wait behind a missing offset.
    pub open spec fn has_hole(self) -> bool {
        &&& exists|k: u64| #[trigger] self.recv_buf@.contains_key(k)
        &&& !self.recv_buf@.contains_key(self.counters.recv_next)
    }

    /// Since when the send side made no progress: the later of the last ACK
    /// and the first send of the oldest piece. Measuring from the last ACK
    /// alone would make every burst of a paced source a stall.
    pub open spec fn send_origin(self, oldest: Option<u64>, thresh: u64, now: u64) -> Option<int> {
        match oldest {
            Some(at) => overdue(
                larger(self.send.last_ack_ms as int, at_ms(at, now)),
                thresh,
                now,
            ),
            None => None,
        }
    }

    /// When the hole opened: as tracked on arrival, else the first scan that
    /// saw it.
    pub open spec fn hole_opened_ms(self, now: u64) -> int {
        match self.recv.hole {
            Some(h) => at_ms(h.since, now),
            None => if self.recv.recv_hole_since_ms == 0 {
                larger(now as int / 1000, 1)
            } else {
                self.recv.recv_hole_since_ms as int
            },
        }
    }

    /// Since when in-order delivery made no progress.
    pub open spec fn recv_origin(self, thresh: u64, now: u64) -> Option<int> {
        if self.has_hole() {
            overdue(
                larger(self.recv.last_recv_ms as int, self.hole_opened_ms(now)),
                thresh,
                now,
            )
        } else {
            None
        }
    }

    /// The scan's own hole clock afterwards.
    pub open spec fn hole_scanned(self, now: u64) -> RecvState {
        RecvState {
            recv_hole_since_ms: if !self.has_hole() {
                0
            } else if self.recv.hole is None && self.recv.recv_hole_since_ms == 0 {
                larger(now as int / 1000, 1) as u64
            } else {
                self.recv.recv_hole_since_ms
            },
            ..self.recv
        }
    }
}

/// The earlier of two origins.
pub open spec fn first_origin(a: Option<int>, b: Option<int>) -> Option<int> {
    match a {
        Some(x) => match b {
            Some(y) => Some(smaller(x, y)),
            None => a,
        },
        None => b,
    }
}

// ---------------------------------------------------------------------------
// One scan
// ---------------------------------------------------------------------------
/// What kind of stall was entered.
#[derive(Clone, Copy, Debug, PartialEq, Eq, Structural)]
pub enum StallKind {
    Both,
    Send,
    /// The peer's window is closed.
    SendZeroWindow,
    RecvHole,
}

#[derive(Clone, Copy, Debug, PartialEq, Eq, Structural)]
pub enum StallChange {
    Same,
    Entered(StallKind),
    /// Left; how long it stood, in ms, where that is known.
    Left(Option<u64>),
}

/// What a scan finds.
pub open spec fn stall_change(
    st: StreamState,
    send: Option<int>,
    recv: Option<int>,
    now: u64,
) -> StallChange {
    let stuck = send is Some || recv is Some;
    if stuck && !st.life.stalled {
        StallChange::Entered(
            if send is Some && recv is Some {
                StallKind::Both
            } else if send is Some {
                if st.counters.send_window == 0 || st.inflight() + 1 > st.counters.send_window {
                    StallKind::SendZeroWindow
                } else {
                    StallKind::Send
                }
            } else {
                StallKind::RecvHole
            },
        )
    } else if !stuck && st.life.stalled {
        StallChange::Left(
            if st.life.stall_from_ms != 0 {
                Some(above(now as int / 1000, st.life.stall_from_ms as int) as u64)
            } else {
                None
            },
        )
    } else {
        StallChange::Same
    }
}

/// The stream after a scan: the origin is frozen on entry and read on leave.
pub open spec fn stall_scanned(
    st: StreamState,
    send: Option<int>,
    recv: Option<int>,
    now: u64,
) -> StreamState {
    let change = stall_change(st, send, recv, now);
    StreamState {
        recv: st.hole_scanned(now),
        life: Lifecycle {
            stalled: match change {
                StallChange::Entered(_) => true,
                StallChange::Left(_) => false,
                StallChange::Same => st.life.stalled,
            },
            stall_from_ms: match change {
                StallChange::Entered(_) => first_origin(send, recv)->0 as u64,
                StallChange::Left(_) => 0,
                StallChange::Same => st.life.stall_from_ms,
            },
            ..st.life
        },
        ..st
    }
}

/// The counters after a scan.
pub open spec fn stall_counted(c: Counters, change: StallChange) -> Counters {
    match change {
        StallChange::Entered(StallKind::Both) => Counters {
            stall_enter_both: plus(c.stall_enter_both, 1),
            ..c
        },
        StallChange::Entered(StallKind::Send) => Counters {
            stall_enter_send: plus(c.stall_enter_send, 1),
            ..c
        },
        StallChange::Entered(StallKind::SendZeroWindow) => Counters {
            stall_enter_send_zero_window: plus(c.stall_enter_send_zero_window, 1),
            ..c
        },
        StallChange::Entered(StallKind::RecvHole) => Counters {
            stall_enter_recv_hole: plus(c.stall_enter_recv_hole, 1),
            ..c
        },
        _ => c,
    }
}

fn stall_clock(
    m: &BTreeMap<u64, Unacked>,
    paths: &Vec<PathState>,
    cfg: &SessionConfig,
) -> (r: (u64, Option<u64>))
    requires
        cfg.wf(),
        distinct_ids(paths@),
    ensures
        smallest_clock(m@, paths@, *cfg, r.0),
        oldest_piece(m@, r.1),
{
    let keys: Vec<u64> = keys_of(m);
    let mut t: Option<u64> = None;
    let mut oldest: Option<u64> = None;
    let mut i: usize = 0;
    proof {
        assert forall|j: int| 0 <= j < keys@.len() implies m@.contains_key(#[trigger] keys@[j]) by {
            assert(keys@.contains(keys@[j]));
        }
    }
    while i < keys.len()
        invariant
            i <= keys@.len(),
            cfg.wf(),
            distinct_ids(paths@),
            forall|j: int| 0 <= j < keys@.len() ==> m@.contains_key(#[trigger] keys@[j]),
            match t {
                Some(v) => {
                    &&& exists|k: u64| #[trigger]
                        m@.contains_key(k) && piece_clock(m@[k], paths@, *cfg) == Some(v as int)
                    &&& forall|j: int|
                        0 <= j < i && piece_clock(m@[#[trigger] keys@[j]], paths@, *cfg) is Some
                            ==> v <= piece_clock(m@[keys@[j]], paths@, *cfg)->0
                },
                None => forall|j: int|
                    0 <= j < i ==> piece_clock(m@[#[trigger] keys@[j]], paths@, *cfg) is None,
            },
            match oldest {
                Some(at) => {
                    &&& exists|k: u64| #[trigger] m@.contains_key(k) && m@[k].first_sent == at
                    &&& forall|j: int| 0 <= j < i ==> at <= m@[#[trigger] keys@[j]].first_sent
                },
                None => i == 0,
            },
        decreases keys.len() - i,
    {
        let key: u64 = keys[i];
        assert(m@.contains_key(keys@[i as int]));
        match m.get(&key) {
            Some(u) => {
                match get_path(paths, u.path_id) {
                    Some(p) => {
                        let c: u64 = cfg.tuning.loss_timeout(p.rtt_us);
                        assert(piece_clock(m@[key], paths@, *cfg) == Some(c as int));
                        t = match t {
                            Some(v) => if v <= c {
                                Some(v)
                            } else {
                                Some(c)
                            },
                            None => Some(c),
                        };
                    },
                    None => {},
                }
                let first: u64 = u.first_sent;
                assert(m@.contains_key(key) && m@[key].first_sent == first);
                oldest = match oldest {
                    Some(v) => if v <= first {
                        Some(v)
                    } else {
                        Some(first)
                    },
                    None => Some(first),
                };
            },
            None => {},
        }
        i += 1;
    }
    proof {
        assert forall|k: u64| #[trigger] m@.contains_key(k) implies exists|j: int|
            0 <= j < keys@.len() && #[trigger] keys@[j] == k by {
            assert(keys@.contains(k));
        }
    }
    let clock: u64 = match t {
        Some(v) => v,
        None => cfg.tuning.loss_timeout_floor,
    };
    proof {
        assert forall|k: u64| #[trigger]
            m@.contains_key(k) && piece_clock(m@[k], paths@, *cfg) is Some implies clock
            <= piece_clock(m@[k], paths@, *cfg)->0 by {
            let j = choose|j: int| 0 <= j < keys@.len() && #[trigger] keys@[j] == k;
            assert(piece_clock(m@[keys@[j]], paths@, *cfg) is Some);
        }
        assert forall|k: u64| t is None && #[trigger] m@.contains_key(k) implies piece_clock(
            m@[k],
            paths@,
            *cfg,
        ) is None by {
            let j = choose|j: int| 0 <= j < keys@.len() && #[trigger] keys@[j] == k;
            assert(piece_clock(m@[keys@[j]], paths@, *cfg) is None);
        }
        assert forall|k: u64| #[trigger] m@.contains_key(k) implies oldest is Some && oldest->0
            <= m@[k].first_sent by {
            let j = choose|j: int| 0 <= j < keys@.len() && #[trigger] keys@[j] == k;
            assert(m@[keys@[j]].first_sent == m@[k].first_sent);
        }
    }
    (clock, oldest)
}

fn overdue_of(origin: u64, thresh: u64, now: u64) -> (r: Option<u64>)
    ensures
        match r {
            Some(o) => overdue(origin as int, thresh, now) == Some(o as int),
            None => overdue(origin as int, thresh, now) is None,
        },
{
    if (now / 1000).saturating_sub(origin) >= thresh / 1000 {
        Some(origin)
    } else {
        None
    }
}

/// `r` as a mathematical option.
pub open spec fn opt_int(r: Option<u64>) -> Option<int> {
    match r {
        Some(v) => Some(v as int),
        None => None,
    }
}

impl StreamState {
    fn hole_here(&self) -> (r: bool)
        ensures
            r == self.has_hole(),
    {
        let keys: Vec<u64> = keys_of(&self.recv_buf);
        proof {
            if keys@.len() > 0 {
                assert(keys@.contains(keys@[0]));
                assert(self.recv_buf@.contains_key(keys@[0]));
            } else {
                assert forall|k: u64| !#[trigger] self.recv_buf@.contains_key(k) by {
                    assert(!keys@.contains(k));
                }
            }
        }
        keys.len() > 0 && !self.recv_buf.contains_key(&self.counters.recv_next)
    }

    /// Scan one stream with its loss clock and oldest piece.
    fn scan(&mut self, oldest: Option<u64>, thresh: u64, now: u64) -> (change: StallChange)
        ensures
            ({
                let send = old(self).send_origin(oldest, thresh, now);
                let recv = old(self).recv_origin(thresh, now);
                &&& change == stall_change(*old(self), send, recv, now)
                &&& *final(self) == stall_scanned(*old(self), send, recv, now)
            }),
    {
        let ghost st0 = *self;
        let now_ms: u64 = now / 1000;
        let send: Option<u64> = match oldest {
            Some(at) => overdue_of(
                max_u64(self.send.last_ack_ms, at_ms_of(at, now)),
                thresh,
                now,
            ),
            None => None,
        };
        assert(opt_int(send) == st0.send_origin(oldest, thresh, now));
        let recv: Option<u64> = if !self.hole_here() {
            self.recv.recv_hole_since_ms = 0;
            None
        } else {
            let opened: u64 = match self.recv.hole {
                Some(h) => at_ms_of(h.since, now),
                None => {
                    if self.recv.recv_hole_since_ms == 0 {
                        self.recv.recv_hole_since_ms = max_u64(now_ms, 1);
                    }
                    self.recv.recv_hole_since_ms
                },
            };
            overdue_of(max_u64(self.recv.last_recv_ms, opened), thresh, now)
        };
        assert(opt_int(recv) == st0.recv_origin(thresh, now));
        let stuck: bool = send.is_some() || recv.is_some();
        if stuck && !self.life.stalled {
            let origin: u64 = match (send, recv) {
                (Some(a), Some(b)) => if a <= b {
                    a
                } else {
                    b
                },
                (Some(a), None) => a,
                (None, Some(b)) => b,
                (None, None) => now_ms,
            };
            self.life.stall_from_ms = origin;
            self.life.stalled = true;
            let kind: StallKind = if send.is_some() && recv.is_some() {
                StallKind::Both
            } else if send.is_some() {
                if self.counters.send_window == 0 || !self.window_ok(1) {
                    StallKind::SendZeroWindow
                } else {
                    StallKind::Send
                }
            } else {
                StallKind::RecvHole
            };
            StallChange::Entered(kind)
        } else if !stuck && self.life.stalled {
            let from: u64 = self.life.stall_from_ms;
            self.life.stalled = false;
            self.life.stall_from_ms = 0;
            if from != 0 {
                StallChange::Left(Some(now_ms.saturating_sub(from)))
            } else {
                StallChange::Left(None)
            }
        } else {
            StallChange::Same
        }
    }
}

impl Session {
    /// What a scan of stream `id` does to this session.
    pub open spec fn scans(self, n: Self, id: u32, change: StallChange, now: u64) -> bool {
        let st = self.streams@[id];
        if !self.streams@.contains_key(id) || !st.steerable() {
            change is Same && n == self
        } else {
            exists|thresh: u64, oldest: Option<u64>|
                #![trigger smallest_clock(st.unacked@, self.paths@, self.cfg, thresh), oldest_piece(
                    st.unacked@,
                    oldest,
                )]
                {
                    let send = st.send_origin(oldest, thresh, now);
                    let recv = st.recv_origin(thresh, now);
                    &&& smallest_clock(st.unacked@, self.paths@, self.cfg, thresh)
                    &&& oldest_piece(st.unacked@, oldest)
                    &&& change == stall_change(st, send, recv, now)
                    &&& n == (Session { streams: n.streams, metrics: n.metrics, ..self })
                    &&& n.streams@ == self.streams@.insert(id, stall_scanned(st, send, recv, now))
                    &&& n.metrics == stall_counted(self.metrics, change)
                }
        }
    }

    /// Is something of the stream outstanding that made no progress for the
    /// loss clock?
    pub fn scan_stall(&mut self, id: u32, now: u64) -> (change: StallChange)
        requires
            old(self).wf(),
        ensures
            final(self).wf(),
            old(self).scans(*final(self), id, change, now),
    {
        let steerable: bool = match self.streams.get(&id) {
            Some(st) => st.is_steerable(),
            None => false,
        };
        if !steerable {
            return StallChange::Same;
        }
        let ghost o = *self;
        match self.streams.remove(&id) {
            Some(stream) => {
                let mut st: StreamState = stream;
                let ghost st0 = st;
                let (thresh, oldest) = stall_clock(&st.unacked, &self.paths, &self.cfg);
                let change: StallChange = st.scan(oldest, thresh, now);
                proof {
                    assert(smallest_clock(st0.unacked@, o.paths@, o.cfg, thresh));
                    assert(oldest_piece(st0.unacked@, oldest));
                    assert(st.recv_wf() && st.send_wf());
                }
                let _ = self.streams.insert(id, st);
                assert(self.streams@ =~= o.streams@.insert(id, st));
                self.count_stall(change);
                change
            },
            None => StallChange::Same,
        }
    }

    fn count_stall(&mut self, change: StallChange)
        ensures
            *final(self) == (Session {
                metrics: stall_counted(old(self).metrics, change),
                ..*old(self)
            }),
    {
        match change {
            StallChange::Entered(StallKind::Both) => {
                self.metrics.stall_enter_both = self.metrics.stall_enter_both.saturating_add(1);
            },
            StallChange::Entered(StallKind::Send) => {
                self.metrics.stall_enter_send = self.metrics.stall_enter_send.saturating_add(1);
            },
            StallChange::Entered(StallKind::SendZeroWindow) => {
                self.metrics.stall_enter_send_zero_window =
                self.metrics.stall_enter_send_zero_window.saturating_add(1);
            },
            StallChange::Entered(StallKind::RecvHole) => {
                self.metrics.stall_enter_recv_hole =
                self.metrics.stall_enter_recv_hole.saturating_add(1);
            },
            _ => {},
        }
    }
}

// ---------------------------------------------------------------------------
// Laws
// ---------------------------------------------------------------------------
/// A stream with nothing outstanding and no hole is never stalled after a
/// scan.
pub proof fn law_idle_is_no_stall(st: StreamState, thresh: u64, now: u64)
    requires
        !st.has_hole(),
    ensures
        !stall_scanned(
            st,
            st.send_origin(None, thresh, now),
            st.recv_origin(thresh, now),
            now,
        ).life.stalled,
{
}

/// A stall never starts before its cause: its origin is no earlier than the
/// last ACK and the first send of the oldest piece.
pub proof fn law_stall_starts_with_its_cause(st: StreamState, at: u64, thresh: u64, now: u64)
    requires
        st.send_origin(Some(at), thresh, now) is Some,
    ensures
        st.send_origin(Some(at), thresh, now)->0 >= st.send.last_ack_ms,
        st.send_origin(Some(at), thresh, now)->0 >= at_ms(at, now),
        above(now as int / 1000, st.send_origin(Some(at), thresh, now)->0) >= thresh as int / 1000,
{
}

/// While a stall stands its origin is frozen.
pub proof fn law_stall_origin_is_frozen(
    st: StreamState,
    send: Option<int>,
    recv: Option<int>,
    now: u64,
)
    requires
        st.life.stalled,
        send is Some || recv is Some,
    ensures
        stall_scanned(st, send, recv, now).life == st.life,
{
}

/// A stream stalls where its oldest unacknowledged piece is older than the loss
/// clock and no ACK came since, or where a hole stands open that long and
/// nothing arrived since; and it leaves the stall once neither holds.
pub proof fn law_what_a_stall_is(
    st: StreamState,
    oldest: Option<u64>,
    thresh: u64,
    now: u64,
)
    requires
        now >= 1_000_000,
        oldest is Some ==> 0 < oldest->0 <= now,
        st.send.last_ack_ms <= now / 1000,
        st.recv.last_recv_ms <= now / 1000,
        st.recv.hole is Some ==> st.recv.hole->0.since <= now,
        st.recv.recv_hole_since_ms <= now / 1000,
    ensures
        ({
            let ms = now as int / 1000;
            let limit = thresh as int / 1000;
            let send = st.send_origin(oldest, thresh, now);
            let recv = st.recv_origin(thresh, now);
            let gap = (exists|k: u64| #[trigger] st.recv_buf@.contains_key(k))
                && !st.recv_buf@.contains_key(st.counters.recv_next);
            let change = stall_change(st, send, recv, now);
            let n = stall_scanned(st, send, recv, now);
            &&& oldest is None ==> send is None
            &&& oldest is Some && (now - oldest->0) / 1000 >= limit && ms - st.send.last_ack_ms
                >= limit && (now - oldest->0) / 1000 < ms ==> send is Some
            &&& send is Some ==> ms - st.send.last_ack_ms >= limit
            &&& !gap ==> recv is None
            &&& recv is Some ==> gap && ms - st.recv.last_recv_ms >= limit
            &&& n.life.stalled <==> send is Some || recv is Some
            &&& change is Entered <==> n.life.stalled && !st.life.stalled
            &&& change is Left <==> !n.life.stalled && st.life.stalled
            &&& change == StallChange::Entered(StallKind::Both) ==> send is Some && recv is Some
            &&& change == StallChange::Entered(StallKind::RecvHole) ==> send is None
            &&& change == StallChange::Entered(StallKind::Send) ==> recv is None && st.inflight()
                < st.counters.send_window
            &&& change == StallChange::Entered(StallKind::SendZeroWindow) ==> recv is None
                && st.inflight() >= st.counters.send_window
            &&& change is Entered && send is Some ==> n.life.stall_from_ms <= send->0
            &&& change is Entered && recv is Some ==> n.life.stall_from_ms <= recv->0
        }),
{
}

/// The moment of a piece in milliseconds is that many milliseconds ago.
pub proof fn law_a_moment_in_ms_keeps_its_age(at: u64, now: u64)
    requires
        at <= now,
        now / 1000 > (now - at) / 1000,
    ensures
        now as int / 1000 - at_ms(at, now) == (now - at) / 1000,
{
}

/// Leaving a stall tells how long it lasted.
pub proof fn law_a_stall_is_timed(st: StreamState, now: u64)
    requires
        st.life.stalled,
        0 < st.life.stall_from_ms <= now / 1000,
    ensures
        stall_change(st, None, None, now) == StallChange::Left(
            Some((now as int / 1000 - st.life.stall_from_ms) as u64),
        ),
        stall_scanned(st, None, None, now).life.stall_from_ms == 0,
{
}

/// Each stall counts once, under its cause.
pub proof fn law_stalls_count_under_their_cause(c: Counters, k: StallKind)
    requires
        c.stall_enter_both < u64::MAX,
        c.stall_enter_send < u64::MAX,
        c.stall_enter_send_zero_window < u64::MAX,
        c.stall_enter_recv_hole < u64::MAX,
    ensures
        ({
            let n = stall_counted(c, StallChange::Entered(k));
            &&& n.stall_enter_both - c.stall_enter_both == if k is Both {
                1int
            } else {
                0
            }
            &&& n.stall_enter_send - c.stall_enter_send == if k is Send {
                1int
            } else {
                0
            }
            &&& n.stall_enter_send_zero_window - c.stall_enter_send_zero_window
                == if k is SendZeroWindow {
                1int
            } else {
                0
            }
            &&& n.stall_enter_recv_hole - c.stall_enter_recv_hole == if k is RecvHole {
                1int
            } else {
                0
            }
            &&& stall_counted(c, StallChange::Same) == c
        }),
{
}

} // verus!
