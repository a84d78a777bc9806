//! One multiplexed stream: its windows, its buffers, its counters.

use std::collections::BTreeMap;
use vstd::prelude::*;

use crate::num::{above, capped, larger, max_u64};
use crate::tried::contains_id;

verus! {

/// `recv_close_off` before the peer's Close.
pub const NO_CLOSE: u64 = u64::MAX;

/// How many distinct paths a stream remembers having used.
pub const PATHS_USED_MAX: usize = 16;

/// A piece sent and not yet acknowledged.
pub struct Unacked {
    pub data: Vec<u8>,
    pub path_id: u32,
    pub last_sent: u64,
    /// When this piece first left the stream (never moved by a re-send):
    /// the send-stall clock cannot start before this.
    pub first_sent: u64,
    pub tried: Vec<u32>,
    /// Rate-limit failed retry attempts without moving last_sent (ACK RTT).
    pub retry_not_before: u64,
    /// No frame for this piece reached a writer queue. Retry ignores path
    /// freshness for such pieces; cleared on any successful enqueue.
    pub dropped: bool,
    /// The path's delivered count and its clock, captured at (re)send.
    /// Bandwidth is sampled only from un-hedged pieces (`tried.len() == 1`).
    pub delivered_at_send: u64,
    pub delivered_time_at_send_us: u64,
    /// Time of this (re)send and of the path's first send since its
    /// last ACK; the send-side interval of the rate sample.
    pub sent_us: u64,
    pub first_tx_at_send_us: u64,
}

/// What a stream counts; readable after the stream is gone.
#[derive(Clone, Copy, Debug, PartialEq, Eq, Structural)]
pub struct StreamCounters {
    pub send_next: u64,
    pub send_window: u32,
    pub recv_next: u64,
    /// BDP advertise cap. Floor = `initial_window`; ceil = floor * chan.
    pub recv_cap: u32,
    /// Per-stream limiter evidence, read at stream end.
    pub window_blocks: u64,
    pub budget_blocks: u64,
    pub window_limited_with_room: u64,
    /// Max `recv_cap` ever advertised (receiver side).
    pub recv_cap_max: u32,
    /// Pieces re-sent on another path for this stream.
    pub hedges: u64,
    /// Duplicate payload bytes received on this stream.
    pub dup_rx_bytes: u64,
    /// Max out-of-order bytes held behind a hole, max in-order bytes the app
    /// had not taken, zero-window ACKs by cause, the hole EWMA, and
    /// sticky-full diverts.
    pub recv_hole_max: u64,
    pub app_backlog_max: u64,
    pub zero_win_hole: u64,
    pub zero_win_app: u64,
    pub hole_us: u64,
    pub budget_diverts: u64,
}

/// The cap of a stream that is being probed: what it was, the rate that went
/// with it, when the probe began and the offset it began at.
#[derive(Clone, Copy, Debug, PartialEq, Eq, Structural)]
pub struct Probe {
    pub cap0: u32,
    pub rate0: u64,
    pub since: u64,
    pub next0: u64,
}

/// The window probe controller.
#[derive(Clone, Copy, Debug, PartialEq, Eq, Structural)]
pub struct WinCtl {
    pub hold_cap: u32,
    pub hold_rate: u64,
    pub probing: Option<Probe>,
    pub last_probe_end: Option<u64>,
}

/// The missing offset in-order delivery waits for, and since when.
#[derive(Clone, Copy, Debug, PartialEq, Eq, Structural)]
pub struct Hole {
    pub off: u64,
    pub since: u64,
}

/// Receive side.
#[derive(Clone, Copy, Debug, PartialEq, Eq, Structural)]
pub struct RecvState {
    /// Bytes currently in `recv_buf`.
    pub recv_buffered: u64,
    /// Bytes handed to the application and not yet read by it.
    pub buffered_in: u64,
    /// Last STREAM_DATA arrival path. 0 = none.
    pub last_recv_path: u32,
    /// The peer has shown it holds this stream (first DATA from it).
    pub peer_seen: bool,
    /// Offset of the newest out-of-order piece buffered; its SACK range
    /// goes first.
    pub last_hole_arrival: u64,
    pub ack_dirty: bool,
    /// 0 = not waiting. Set when dirty goes 0 to 1; kept until that ACK is sent.
    pub ack_flush_from_us: u64,
    pub recv_fin: bool,
    /// [`NO_CLOSE`] = no peer Close yet. Else the sender's `send_next` at FIN.
    pub recv_close_off: u64,
    /// Delivered bytes/s EWMA. 0 until a sample spanning at least one RTT.
    pub deliver_rate_ewma: u64,
    pub hole: Option<Hole>,
    /// Time of the last hole sample. 0 = never.
    pub hole_sampled_at_us: u64,
    /// Bytes waiting behind a hole, EWMA.
    pub hole_bytes_ewma: u64,
    pub hole_bytes_at_us: u64,
    /// Bytes since the last rate sample.
    pub pending_deliver: u64,
    pub last_deliver: Option<u64>,
    /// 0 = never.
    pub last_recv_ms: u64,
    /// 0 = no hole. First-seen hole clock.
    pub recv_hole_since_ms: u64,
    /// Arrivals that ended on an edge we advertised, since the last sample.
    pub edge_hits: u64,
    pub win_ctl: WinCtl,
}

/// Send side.
#[derive(Clone, Copy, Debug, PartialEq, Eq, Structural)]
pub struct SendState {
    pub send_acked: u64,
    /// Pieces released by SACK.
    pub sacked: u64,
    /// 0 = never.
    pub last_sack_ms: u64,
    /// 0 = never. Written when `send_acked` advances.
    pub last_ack_ms: u64,
    pub send_fin_sent: bool,
    /// Set on first STREAM_DATA larger than `tuning.interactive_max`.
    pub bulk: bool,
}

/// Where the stream sits and how it ends.
#[derive(Clone, Copy, Debug, PartialEq, Eq, Structural)]
pub struct Lifecycle {
    /// Home path. 0 = none.
    pub sticky: u32,
    pub last_stick_change: u64,
    pub reset: bool,
    pub stalled: bool,
    /// 0 = not in stall. Frozen origin on enter; read on leave.
    pub stall_from_ms: u64,
    /// Lifetime only. Never used as a stall origin.
    pub opened_ms: u64,
    /// Whoever sets it owns closed-vs-reset accounting.
    pub counted_close: bool,
    /// 0 = not closing. First FIN (local or peer) stamps it.
    pub close_started_ms: u64,
}

pub struct StreamState {
    pub id: u32,
    pub initial_window: u32,
    pub counters: StreamCounters,
    pub recv: RecvState,
    pub send: SendState,
    pub life: Lifecycle,
    /// Distinct paths this stream sent DATA on (bounded set).
    pub paths_used: Vec<u32>,
    pub unacked: BTreeMap<u64, Unacked>,
    pub recv_buf: BTreeMap<u64, Vec<u8>>,
}

/// Per-stream limiter summary.
#[derive(Clone, Copy, Debug, PartialEq, Eq, Structural)]
pub struct StreamStats {
    /// Current receive cap we advertise from and the peer's last window.
    pub recv_cap: u32,
    pub send_window: u32,
    pub window_blocks: u64,
    pub budget_blocks: u64,
    pub window_limited_with_room: u64,
    pub recv_cap_max: u32,
    pub hedges: u64,
    pub dup_rx_bytes: u64,
    pub paths_used: u32,
    /// Bytes sent by this side (`send_next`).
    pub sent: u64,
    /// Bytes delivered in order to the application (`recv_next`).
    pub received: u64,
    pub recv_hole_max: u64,
    pub app_backlog_max: u64,
    pub zero_win_hole: u64,
    pub zero_win_app: u64,
    /// Receiver hole EWMA. 0 = no hole ever closed.
    pub hole_us: u64,
    /// Bulk pieces diverted or parked because the sticky lacked room.
    pub budget_diverts: u64,
}

/// Where the copy task waited, per transfer direction.
/// `far` = waited for the side that produces the bytes of the dominant
/// direction; `near` = waited for the side that consumes them.
#[derive(Clone, Copy, Debug, PartialEq, Eq)]
pub struct LimiterWaits {
    pub far_us: u64,
    pub near_us: u64,
    pub copy_us: u64,
    /// This side is the overlay *sender* for the dominant direction.
    pub overlay_sender: bool,
    /// Name of the local far/near side: `"origin"` on the server, `"app"`
    /// on the client.
    pub local: &'static str,
}

impl StreamStats {
    /// What held a sender up, by its counters alone.
    pub open spec fn sender_limiter_of(self) -> Seq<char> {
        if self.budget_blocks >= self.window_blocks {
            "budget"@
        } else if self.window_limited_with_room * 2 >= self.window_blocks {
            "window"@
        } else {
            "path"@
        }
    }

    /// What held a copy up, by where it waited.
    pub open spec fn limiter_by_time_of(self, w: LimiterWaits) -> Seq<char> {
        if capped(w.far_us + w.near_us) < w.copy_us as int / 10 {
            "none"@
        } else if w.overlay_sender {
            if w.far_us >= w.near_us {
                w.local@
            } else {
                self.sender_limiter_of()
            }
        } else if w.far_us >= w.near_us {
            "overlay"@
        } else {
            w.local@
        }
    }

    /// Which side of the loop waited most (counter-only form, kept for
    /// callers without wait times): `window` (peer's advertised window
    /// with path room available), `budget` (own path budget), `path`
    /// (window with no room anywhere), or `none`.
    pub fn limiter(&self) -> (r: &'static str)
        ensures
            r@ == if self.window_blocks == 0 && self.budget_blocks == 0 {
                "none"@
            } else {
                self.sender_limiter_of()
            },
    {
        if self.window_blocks == 0 && self.budget_blocks == 0 {
            return "none";
        }
        self.sender_limiter()
    }

    pub fn sender_limiter(&self) -> (r: &'static str)
        ensures
            r@ == self.sender_limiter_of(),
    {
        if self.budget_blocks >= self.window_blocks {
            return "budget";
        }
        let twice: u128 = self.window_limited_with_room as u128 * 2;
        if twice >= self.window_blocks as u128 {
            "window"
        } else {
            "path"
        }
    }

    /// Limiter by *time*. An overlay sender that waited for its
    /// local producer was paced by it (`origin` / `app`); one that waited
    /// for the tunnel is refined by the counters. An overlay receiver that
    /// waited for the tunnel says `overlay` (read the peer's span); one
    /// that waited for its local consumer names it. A hop that waited less
    /// than a tenth of its life anywhere is `none`.
    pub fn limiter_by_time(&self, w: LimiterWaits) -> (r: &'static str)
        ensures
            r@ == self.limiter_by_time_of(w),
    {
        if w.far_us.saturating_add(w.near_us) < w.copy_us / 10 {
            return "none";
        }
        if w.overlay_sender {
            if w.far_us >= w.near_us {
                w.local
            } else {
                self.sender_limiter()
            }
        } else if w.far_us >= w.near_us {
            "overlay"
        } else {
            w.local
        }
    }
}

impl StreamState {
    /// A stream as both ends open it.
    pub fn new(id: u32, initial_window: u32, now: u64) -> (st: Self)
        ensures
            st.id == id,
            st.initial_window == initial_window,
            st.counters == fresh_counters(initial_window),
            st.recv == fresh_recv(),
            st.send == fresh_send(),
            st.life == fresh_life(now),
            st.paths_used@.len() == 0,
            st.unacked@ == Map::<u64, Unacked>::empty(),
            st.recv_buf@ == Map::<u64, Vec<u8>>::empty(),
    {
        StreamState {
            id,
            initial_window,
            counters: StreamCounters {
                send_next: 0,
                send_window: initial_window,
                recv_next: 0,
                recv_cap: initial_window,
                window_blocks: 0,
                budget_blocks: 0,
                window_limited_with_room: 0,
                recv_cap_max: initial_window,
                hedges: 0,
                dup_rx_bytes: 0,
                recv_hole_max: 0,
                app_backlog_max: 0,
                zero_win_hole: 0,
                zero_win_app: 0,
                hole_us: 0,
                budget_diverts: 0,
            },
            recv: RecvState {
                recv_buffered: 0,
                buffered_in: 0,
                last_recv_path: 0,
                peer_seen: false,
                last_hole_arrival: 0,
                ack_dirty: false,
                ack_flush_from_us: 0,
                recv_fin: false,
                recv_close_off: NO_CLOSE,
                deliver_rate_ewma: 0,
                hole: None,
                hole_sampled_at_us: 0,
                hole_bytes_ewma: 0,
                hole_bytes_at_us: 0,
                pending_deliver: 0,
                last_deliver: None,
                last_recv_ms: 0,
                recv_hole_since_ms: 0,
                edge_hits: 0,
                win_ctl: WinCtl {
                    hold_cap: 0,
                    hold_rate: 0,
                    probing: None,
                    last_probe_end: None,
                },
            },
            send: SendState {
                send_acked: 0,
                sacked: 0,
                last_sack_ms: 0,
                last_ack_ms: 0,
                send_fin_sent: false,
                bulk: false,
            },
            life: Lifecycle {
                sticky: 0,
                last_stick_change: now,
                reset: false,
                stalled: false,
                stall_from_ms: 0,
                opened_ms: max_u64(now / 1000, 1),
                counted_close: false,
                close_started_ms: 0,
            },
            paths_used: Vec::new(),
            unacked: BTreeMap::new(),
            recv_buf: BTreeMap::new(),
        }
    }

    /// May still be moved between paths: neither reset, nor counted, nor
    /// closed in either direction.
    pub open spec fn steerable(self) -> bool {
        &&& !self.life.reset
        &&& !self.life.counted_close
        &&& !self.send.send_fin_sent
        &&& !self.recv.recv_fin
    }

    pub fn is_steerable(&self) -> (r: bool)
        ensures
            r == self.steerable(),
    {
        !self.life.reset && !self.life.counted_close && !self.send.send_fin_sent
            && !self.recv.recv_fin
    }

    /// Bytes sent and not cumulatively acknowledged.
    pub open spec fn inflight(self) -> int {
        above(self.counters.send_next as int, self.send.send_acked as int)
    }

    pub fn inflight_send(&self) -> (r: u64)
        ensures
            r == self.inflight(),
    {
        self.counters.send_next.saturating_sub(self.send.send_acked)
    }

    /// `extra` more bytes fit the peer's window.
    pub fn window_ok(&self, extra: u64) -> (r: bool)
        ensures
            r == (self.inflight() + extra <= self.counters.send_window),
    {
        self.inflight_send() as u128 + extra as u128 <= self.counters.send_window as u128
    }

    /// What is left of the cap once everything held for the application is
    /// taken off.
    pub open spec fn window_of(self) -> int {
        above(
            above(self.counters.recv_cap as int, self.recv.buffered_in as int),
            self.recv.recv_buffered as int,
        )
    }

    pub fn advertised_window(&self) -> (r: u32)
        ensures
            r == self.window_of(),
    {
        let cap: u64 = self.counters.recv_cap as u64;
        let left: u64 = cap.saturating_sub(self.recv.buffered_in).saturating_sub(
            self.recv.recv_buffered,
        );
        left as u32
    }

    /// This stream's share of the session's window memory above the floor.
    pub fn window_extra(&self) -> (r: u64)
        ensures
            r == above(self.counters.recv_cap as int, self.initial_window as int),
    {
        (self.counters.recv_cap as u64).saturating_sub(self.initial_window as u64)
    }

    /// First FIN of either side starts the linger clock.
    pub fn note_close_started(&mut self, now_ms: u64)
        ensures
            final(self).life == (Lifecycle {
                close_started_ms: close_stamp(old(self).life.close_started_ms, now_ms),
                ..old(self).life
            }),
            final(self).same_but_life(*old(self)),
    {
        if self.life.close_started_ms == 0 {
            self.life.close_started_ms = max_u64(now_ms, 1);
        }
    }

    pub fn note_stick_change(&mut self, now: u64)
        ensures
            final(self).life == (Lifecycle { last_stick_change: now, ..old(self).life }),
            final(self).same_but_life(*old(self)),
    {
        self.life.last_stick_change = now;
    }

    pub fn stick_changed_ago_ge(&self, d: u64, now: u64) -> (r: bool)
        ensures
            r == (above(now as int, self.life.last_stick_change as int) >= d),
    {
        now.saturating_sub(self.life.last_stick_change) >= d
    }

    /// Everything but the lifecycle is as in `o`.
    pub open spec fn same_but_life(self, o: Self) -> bool {
        &&& self.id == o.id
        &&& self.initial_window == o.initial_window
        &&& self.counters == o.counters
        &&& self.recv == o.recv
        &&& self.send == o.send
        &&& self.paths_used == o.paths_used
        &&& self.unacked == o.unacked
        &&& self.recv_buf == o.recv_buf
    }

    /// Everything but the receive side and the counters is as in `o`.
    pub open spec fn same_but_recv(self, o: Self) -> bool {
        &&& self.id == o.id
        &&& self.initial_window == o.initial_window
        &&& self.send == o.send
        &&& self.life == o.life
        &&& self.paths_used == o.paths_used
        &&& self.unacked == o.unacked
    }

    /// Remember a path this stream sent DATA on (first 16 distinct).
    pub fn note_path_used(&mut self, path_id: u32)
        ensures
            final(self).paths_used@ == used_after(old(self).paths_used@, path_id),
            final(self).id == old(self).id,
            final(self).initial_window == old(self).initial_window,
            final(self).counters == old(self).counters,
            final(self).recv == old(self).recv,
            final(self).send == old(self).send,
            final(self).life == old(self).life,
            final(self).unacked == old(self).unacked,
            final(self).recv_buf == old(self).recv_buf,
    {
        if !contains_id(&self.paths_used, path_id) && self.paths_used.len() < PATHS_USED_MAX {
            self.paths_used.push(path_id);
        }
    }

    pub open spec fn stats_of(self) -> StreamStats {
        StreamStats {
            recv_cap: self.counters.recv_cap,
            send_window: self.counters.send_window,
            window_blocks: self.counters.window_blocks,
            budget_blocks: self.counters.budget_blocks,
            window_limited_with_room: self.counters.window_limited_with_room,
            recv_cap_max: self.counters.recv_cap_max,
            hedges: self.counters.hedges,
            dup_rx_bytes: self.counters.dup_rx_bytes,
            paths_used: self.paths_used@.len() as u32,
            sent: self.counters.send_next,
            received: self.counters.recv_next,
            recv_hole_max: self.counters.recv_hole_max,
            app_backlog_max: self.counters.app_backlog_max,
            zero_win_hole: self.counters.zero_win_hole,
            zero_win_app: self.counters.zero_win_app,
            hole_us: self.counters.hole_us,
            budget_diverts: self.counters.budget_diverts,
        }
    }

    pub fn stats(&self) -> (s: StreamStats)
        ensures
            s == self.stats_of(),
    {
        StreamStats {
            recv_cap: self.counters.recv_cap,
            send_window: self.counters.send_window,
            window_blocks: self.counters.window_blocks,
            budget_blocks: self.counters.budget_blocks,
            window_limited_with_room: self.counters.window_limited_with_room,
            recv_cap_max: self.counters.recv_cap_max,
            hedges: self.counters.hedges,
            dup_rx_bytes: self.counters.dup_rx_bytes,
            paths_used: self.paths_used.len() as u32,
            sent: self.counters.send_next,
            received: self.counters.recv_next,
            recv_hole_max: self.counters.recv_hole_max,
            app_backlog_max: self.counters.app_backlog_max,
            zero_win_hole: self.counters.zero_win_hole,
            zero_win_app: self.counters.zero_win_app,
            hole_us: self.counters.hole_us,
            budget_diverts: self.counters.budget_diverts,
        }
    }
}

/// The stamp stays once it is set.
pub open spec fn close_stamp(started: u64, now_ms: u64) -> u64 {
    if started == 0 {
        larger(now_ms as int, 1) as u64
    } else {
        started
    }
}

/// The paths a stream remembers after a send on `id`.
pub open spec fn used_after(used: Seq<u32>, id: u32) -> Seq<u32> {
    if !used.contains(id) && used.len() < PATHS_USED_MAX {
        used.push(id)
    } else {
        used
    }
}

pub open spec fn fresh_counters(initial_window: u32) -> StreamCounters {
    StreamCounters {
        send_next: 0,
        send_window: initial_window,
        recv_next: 0,
        recv_cap: initial_window,
        window_blocks: 0,
        budget_blocks: 0,
        window_limited_with_room: 0,
        recv_cap_max: initial_window,
        hedges: 0,
        dup_rx_bytes: 0,
        recv_hole_max: 0,
        app_backlog_max: 0,
        zero_win_hole: 0,
        zero_win_app: 0,
        hole_us: 0,
        budget_diverts: 0,
    }
}

pub open spec fn fresh_recv() -> RecvState {
    RecvState {
        recv_buffered: 0,
        buffered_in: 0,
        last_recv_path: 0,
        peer_seen: false,
        last_hole_arrival: 0,
        ack_dirty: false,
        ack_flush_from_us: 0,
        recv_fin: false,
        recv_close_off: NO_CLOSE,
        deliver_rate_ewma: 0,
        hole: None,
        hole_sampled_at_us: 0,
        hole_bytes_ewma: 0,
        hole_bytes_at_us: 0,
        pending_deliver: 0,
        last_deliver: None,
        last_recv_ms: 0,
        recv_hole_since_ms: 0,
        edge_hits: 0,
        win_ctl: WinCtl { hold_cap: 0, hold_rate: 0, probing: None, last_probe_end: None },
    }
}

pub open spec fn fresh_send() -> SendState {
    SendState {
        send_acked: 0,
        sacked: 0,
        last_sack_ms: 0,
        last_ack_ms: 0,
        send_fin_sent: false,
        bulk: false,
    }
}

pub open spec fn fresh_life(now: u64) -> Lifecycle {
    Lifecycle {
        sticky: 0,
        last_stick_change: now,
        reset: false,
        stalled: false,
        stall_from_ms: 0,
        opened_ms: larger(now as int / 1000, 1) as u64,
        counted_close: false,
        close_started_ms: 0,
    }
}

/// The window offered never exceeds the cap, and the bytes held for the
/// application plus the window offered never exceed the cap unless the held
/// bytes alone already do.
pub proof fn law_window_fits_the_cap(st: StreamState)
    ensures
        0 <= st.window_of() <= st.counters.recv_cap,
        st.window_of() > 0 ==> st.window_of() + st.recv.buffered_in + st.recv.recv_buffered
            == st.counters.recv_cap,
        st.window_of() == 0 ==> st.recv.buffered_in + st.recv.recv_buffered
            >= st.counters.recv_cap,
{
}

/// The remembered paths stay distinct and at most sixteen.
pub proof fn law_paths_used_bounded(used: Seq<u32>, id: u32)
    requires
        used.no_duplicates(),
        used.len() <= PATHS_USED_MAX,
    ensures
        used_after(used, id).no_duplicates(),
        used_after(used, id).len() <= PATHS_USED_MAX,
{
}

/// What is advertised to the peer is the cap less what is held, and nothing
/// once that is used up; what is in flight is what was sent and not
/// acknowledged.
pub proof fn law_windows_are_what_is_left(st: StreamState)
    ensures
        st.window_of() == if st.recv.buffered_in + st.recv.recv_buffered <= st.counters.recv_cap {
            st.counters.recv_cap - st.recv.buffered_in - st.recv.recv_buffered
        } else {
            0
        },
        st.counters.send_next >= st.send.send_acked ==> st.inflight() + st.send.send_acked
            == st.counters.send_next,
{
}

/// A stream is steered until it is reset, counted as closed, or either side
/// has ended.
pub proof fn law_ended_streams_are_not_steered(st: StreamState)
    ensures
        st.steerable() <==> !(st.life.reset || st.life.counted_close || st.send.send_fin_sent
            || st.recv.recv_fin),
{
}

/// What held a sender up: its budget where that blocked it no less often than
/// the window; the window where paths had room in half of those waits; the
/// paths otherwise.
pub proof fn law_what_limits_a_sender(s: StreamStats)
    ensures
        s.budget_blocks >= s.window_blocks ==> s.sender_limiter_of() == "budget"@,
        s.budget_blocks < s.window_blocks && 2 * s.window_limited_with_room >= s.window_blocks
            ==> s.sender_limiter_of() == "window"@,
        s.budget_blocks < s.window_blocks && 2 * s.window_limited_with_room < s.window_blocks
            ==> s.sender_limiter_of() == "path"@,
{
}

/// What held a copy up by time: nothing where it waited less than a tenth of
/// it; else the side on which it waited longer, the far one at a tie.
pub proof fn law_what_limits_a_copy(s: StreamStats, w: LimiterWaits)
    requires
        w.far_us + w.near_us <= u64::MAX,
    ensures
        w.far_us + w.near_us < w.copy_us as int / 10 ==> s.limiter_by_time_of(w) == "none"@,
        w.far_us + w.near_us >= w.copy_us as int / 10 ==> ({
            let far = w.far_us >= w.near_us;
            &&& w.overlay_sender && far ==> s.limiter_by_time_of(w) == w.local@
            &&& w.overlay_sender && !far ==> s.limiter_by_time_of(w) == s.sender_limiter_of()
            &&& !w.overlay_sender && far ==> s.limiter_by_time_of(w) == "overlay"@
            &&& !w.overlay_sender && !far ==> s.limiter_by_time_of(w) == w.local@
        }),
{
}

/// A path that carried a stream is remembered, while there is room for it, and
/// none is forgotten.
pub proof fn law_used_paths_are_remembered(used: Seq<u32>, id: u32, other: u32)
    ensures
        used.len() < 16 ==> used_after(used, id).contains(id),
        used.contains(other) ==> used_after(used, id).contains(other),
        used_after(used, id).contains(other) ==> used.contains(other) || other == id,
        used_after(used, id).len() <= used.len() + 1,
{
    let n = used_after(used, id);
    if n.len() == used.len() + 1 {
        assert(n[used.len() as int] == id);
    }
    if used.contains(other) {
        let k = choose|k: int| 0 <= k < used.len() && used[k] == other;
        assert(n[k] == other);
    }
}

/// A new stream has sent and received nothing, and both windows are the
/// initial one.
pub proof fn law_a_new_stream_is_empty(window: u32, now: u64)
    ensures
        fresh_counters(window).send_next == 0,
        fresh_counters(window).recv_next == 0,
        fresh_counters(window).send_window == window,
        fresh_counters(window).recv_cap == window,
        fresh_recv().recv_buffered == 0 && fresh_recv().buffered_in == 0,
        !fresh_recv().recv_fin && fresh_recv().recv_close_off == u64::MAX,
        fresh_send().send_acked == 0 && !fresh_send().send_fin_sent && !fresh_send().bulk,
        !fresh_life(now).reset && !fresh_life(now).stalled && !fresh_life(now).counted_close,
        fresh_life(now).last_stick_change == now,
        now >= 1000 ==> fresh_life(now).opened_ms == now / 1000,
{
}

/// The statistics of a stream are its own counters.
pub proof fn law_statistics_are_the_counters(st: StreamState)
    ensures
        ({
            let s = st.stats_of();
            &&& s.sent == st.counters.send_next && s.received == st.counters.recv_next
            &&& s.hedges == st.counters.hedges && s.dup_rx_bytes == st.counters.dup_rx_bytes
            &&& s.window_blocks == st.counters.window_blocks && s.budget_blocks
                == st.counters.budget_blocks
            &&& s.window_limited_with_room == st.counters.window_limited_with_room
            &&& s.recv_cap == st.counters.recv_cap && s.recv_cap_max == st.counters.recv_cap_max
            &&& s.send_window == st.counters.send_window
            &&& s.zero_win_hole == st.counters.zero_win_hole && s.zero_win_app
                == st.counters.zero_win_app
            &&& s.recv_hole_max == st.counters.recv_hole_max && s.app_backlog_max
                == st.counters.app_backlog_max
            &&& s.hole_us == st.counters.hole_us && s.budget_diverts == st.counters.budget_diverts
            &&& st.paths_used@.len() <= 16 ==> s.paths_used == st.paths_used@.len()
        }),
{
}

/// The start of a close is stamped once.
pub proof fn law_a_close_is_stamped_once(started: u64, now_ms: u64)
    ensures
        started > 0 ==> close_stamp(started, now_ms) == started,
        started == 0 && now_ms > 0 ==> close_stamp(started, now_ms) == now_ms,
        close_stamp(started, now_ms) > 0,
{
}

} // verus!
