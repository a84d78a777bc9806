//! What a session counts.

use vstd::prelude::*;

use crate::frames::ResetReason;
use crate::num::capped;
use crate::text::str_eq;

verus! {

#[derive(Clone, Copy, Debug, PartialEq, Eq, Structural)]
pub struct Counters {
    pub streams_opened: u64,
    pub streams_closed: u64,
    pub stream_reaps_linger: u64,
    pub stream_resets: u64,
    pub stream_resets_dial_failed: u64,
    pub stream_resets_timeout: u64,
    pub stream_resets_peer: u64,
    pub stream_resets_session_dead: u64,
    pub stream_resets_protocol: u64,
    pub close_retry: u64,
    pub reset_retry: u64,
    pub data_retransmit: u64,
    pub data_hedge: u64,
    pub data_dropped_resend: u64,
    pub data_resend_silence: u64,
    pub data_resend_belt: u64,
    pub data_resend_down: u64,
    pub data_resend_gone: u64,
    pub data_resend_dropped: u64,
    pub data_resend_age: u64,
    pub data_resend_allquiet: u64,
    pub data_resend_skipped_no_fresh_alt: u64,
    pub data_resend_skipped_allquiet_wait: u64,
    pub data_resend_skipped_queue_full: u64,
    pub data_resend_skipped_write_stalled: u64,
    pub data_resend_skipped_all_tried: u64,
    pub data_resend_skipped_no_alt: u64,
    pub data_sacked: u64,
    pub data_dup_rx_bytes: u64,
    pub ack_after_fin: u64,
    pub zero_window_hole: u64,
    pub zero_window_app: u64,
    pub window_blocks: u64,
    pub send_window_limited_with_room: u64,
    pub send_budget_blocks: u64,
    pub frame_send_drop: u64,
    pub migrates: u64,
    pub migrates_speculative: u64,
    pub migrates_path_down: u64,
    pub migrates_ensure_sticky: u64,
    pub migrates_send_blocked: u64,
    pub migrates_loop_unfit: u64,
    pub picks_unknown_rtt: u64,
    pub picks_unknown_over_known: u64,
    pub pick_rtt_us: u64,
    pub path_added: u64,
    pub path_down: u64,
    pub path_degraded: u64,
    pub path_outlier_recycle: u64,
    pub probe_miss: u64,
    pub correlated_silence: u64,
    pub session_all_down_resets: u64,
    pub hol_rebalances: u64,
    pub failbacks: u64,
    pub failbacks_upgrade: u64,
    pub failbacks_class_empty: u64,
    pub failbacks_same_link: u64,
    pub stall_enter_both: u64,
    pub stall_enter_send: u64,
    pub stall_enter_send_zero_window: u64,
    pub stall_enter_recv_hole: u64,
    pub streams_stalled: u64,
    pub recv_cap_probes: u64,
    pub recv_cap_probe_kept: u64,
    pub recv_cap_probe_reverted: u64,
    pub bytes_data_tx: u64,
    pub bytes_data_rx: u64,
    pub bytes_ctrl_tx: u64,
    pub bytes_ctrl_rx: u64,
}

/// One more, held at the largest count.
pub open spec fn plus(c: u64, n: int) -> u64 {
    capped(c + n) as u64
}

pub open spec fn zero_counters() -> Counters {
    Counters {
        streams_opened: 0,
        streams_closed: 0,
        stream_reaps_linger: 0,
        stream_resets: 0,
        stream_resets_dial_failed: 0,
        stream_resets_timeout: 0,
        stream_resets_peer: 0,
        stream_resets_session_dead: 0,
        stream_resets_protocol: 0,
        close_retry: 0,
        reset_retry: 0,
        data_retransmit: 0,
        data_hedge: 0,
        data_dropped_resend: 0,
        data_resend_silence: 0,
        data_resend_belt: 0,
        data_resend_down: 0,
        data_resend_gone: 0,
        data_resend_dropped: 0,
        data_resend_age: 0,
        data_resend_allquiet: 0,
        data_resend_skipped_no_fresh_alt: 0,
        data_resend_skipped_allquiet_wait: 0,
        data_resend_skipped_queue_full: 0,
        data_resend_skipped_write_stalled: 0,
        data_resend_skipped_all_tried: 0,
        data_resend_skipped_no_alt: 0,
        data_sacked: 0,
        data_dup_rx_bytes: 0,
        ack_after_fin: 0,
        zero_window_hole: 0,
        zero_window_app: 0,
        window_blocks: 0,
        send_window_limited_with_room: 0,
        send_budget_blocks: 0,
        frame_send_drop: 0,
        migrates: 0,
        migrates_speculative: 0,
        migrates_path_down: 0,
        migrates_ensure_sticky: 0,
        migrates_send_blocked: 0,
        migrates_loop_unfit: 0,
        picks_unknown_rtt: 0,
        picks_unknown_over_known: 0,
        pick_rtt_us: 0,
        path_added: 0,
        path_down: 0,
        path_degraded: 0,
        path_outlier_recycle: 0,
        probe_miss: 0,
        correlated_silence: 0,
        session_all_down_resets: 0,
        hol_rebalances: 0,
        failbacks: 0,
        failbacks_upgrade: 0,
        failbacks_class_empty: 0,
        failbacks_same_link: 0,
        stall_enter_both: 0,
        stall_enter_send: 0,
        stall_enter_send_zero_window: 0,
        stall_enter_recv_hole: 0,
        streams_stalled: 0,
        recv_cap_probes: 0,
        recv_cap_probe_kept: 0,
        recv_cap_probe_reverted: 0,
        bytes_data_tx: 0,
        bytes_data_rx: 0,
        bytes_ctrl_tx: 0,
        bytes_ctrl_rx: 0,
    }
}

impl Counters {
    pub fn zero() -> (c: Self)
        ensures
            c == zero_counters(),
    {
        Counters {
            streams_opened: 0,
            streams_closed: 0,
            stream_reaps_linger: 0,
            stream_resets: 0,
            stream_resets_dial_failed: 0,
            stream_resets_timeout: 0,
            stream_resets_peer: 0,
            stream_resets_session_dead: 0,
            stream_resets_protocol: 0,
            close_retry: 0,
            reset_retry: 0,
            data_retransmit: 0,
            data_hedge: 0,
            data_dropped_resend: 0,
            data_resend_silence: 0,
            data_resend_belt: 0,
            data_resend_down: 0,
            data_resend_gone: 0,
            data_resend_dropped: 0,
            data_resend_age: 0,
            data_resend_allquiet: 0,
            data_resend_skipped_no_fresh_alt: 0,
            data_resend_skipped_allquiet_wait: 0,
            data_resend_skipped_queue_full: 0,
            data_resend_skipped_write_stalled: 0,
            data_resend_skipped_all_tried: 0,
            data_resend_skipped_no_alt: 0,
            data_sacked: 0,
            data_dup_rx_bytes: 0,
            ack_after_fin: 0,
            zero_window_hole: 0,
            zero_window_app: 0,
            window_blocks: 0,
            send_window_limited_with_room: 0,
            send_budget_blocks: 0,
            frame_send_drop: 0,
            migrates: 0,
            migrates_speculative: 0,
            migrates_path_down: 0,
            migrates_ensure_sticky: 0,
            migrates_send_blocked: 0,
            migrates_loop_unfit: 0,
            picks_unknown_rtt: 0,
            picks_unknown_over_known: 0,
            pick_rtt_us: 0,
            path_added: 0,
            path_down: 0,
            path_degraded: 0,
            path_outlier_recycle: 0,
            probe_miss: 0,
            correlated_silence: 0,
            session_all_down_resets: 0,
            hol_rebalances: 0,
            failbacks: 0,
            failbacks_upgrade: 0,
            failbacks_class_empty: 0,
            failbacks_same_link: 0,
            stall_enter_both: 0,
            stall_enter_send: 0,
            stall_enter_send_zero_window: 0,
            stall_enter_recv_hole: 0,
            streams_stalled: 0,
            recv_cap_probes: 0,
            recv_cap_probe_kept: 0,
            recv_cap_probe_reverted: 0,
            bytes_data_tx: 0,
            bytes_data_rx: 0,
            bytes_ctrl_tx: 0,
            bytes_ctrl_rx: 0,
        }
    }

    /// These counters and others, each held at the largest count.
    pub open spec fn joined(self, other: Self) -> Self {
        Counters {
            streams_opened: plus(self.streams_opened, other.streams_opened as int),
            streams_closed: plus(self.streams_closed, other.streams_closed as int),
            stream_reaps_linger: plus(self.stream_reaps_linger, other.stream_reaps_linger as int),
            stream_resets: plus(self.stream_resets, other.stream_resets as int),
            stream_resets_dial_failed: plus(self.stream_resets_dial_failed, other.stream_resets_dial_failed as int),
            stream_resets_timeout: plus(self.stream_resets_timeout, other.stream_resets_timeout as int),
            stream_resets_peer: plus(self.stream_resets_peer, other.stream_resets_peer as int),
            stream_resets_session_dead: plus(self.stream_resets_session_dead, other.stream_resets_session_dead as int),
            stream_resets_protocol: plus(self.stream_resets_protocol, other.stream_resets_protocol as int),
            close_retry: plus(self.close_retry, other.close_retry as int),
            reset_retry: plus(self.reset_retry, other.reset_retry as int),
            data_retransmit: plus(self.data_retransmit, other.data_retransmit as int),
            data_hedge: plus(self.data_hedge, other.data_hedge as int),
            data_dropped_resend: plus(self.data_dropped_resend, other.data_dropped_resend as int),
            data_resend_silence: plus(self.data_resend_silence, other.data_resend_silence as int),
            data_resend_belt: plus(self.data_resend_belt, other.data_resend_belt as int),
            data_resend_down: plus(self.data_resend_down, other.data_resend_down as int),
            data_resend_gone: plus(self.data_resend_gone, other.data_resend_gone as int),
            data_resend_dropped: plus(self.data_resend_dropped, other.data_resend_dropped as int),
            data_resend_age: plus(self.data_resend_age, other.data_resend_age as int),
            data_resend_allquiet: plus(self.data_resend_allquiet, other.data_resend_allquiet as int),
            data_resend_skipped_no_fresh_alt: plus(self.data_resend_skipped_no_fresh_alt, other.data_resend_skipped_no_fresh_alt as int),
            data_resend_skipped_allquiet_wait: plus(self.data_resend_skipped_allquiet_wait, other.data_resend_skipped_allquiet_wait as int),
            data_resend_skipped_queue_full: plus(self.data_resend_skipped_queue_full, other.data_resend_skipped_queue_full as int),
            data_resend_skipped_write_stalled: plus(self.data_resend_skipped_write_stalled, other.data_resend_skipped_write_stalled as int),
            data_resend_skipped_all_tried: plus(self.data_resend_skipped_all_tried, other.data_resend_skipped_all_tried as int),
            data_resend_skipped_no_alt: plus(self.data_resend_skipped_no_alt, other.data_resend_skipped_no_alt as int),
            data_sacked: plus(self.data_sacked, other.data_sacked as int),
            data_dup_rx_bytes: plus(self.data_dup_rx_bytes, other.data_dup_rx_bytes as int),
            ack_after_fin: plus(self.ack_after_fin, other.ack_after_fin as int),
            zero_window_hole: plus(self.zero_window_hole, other.zero_window_hole as int),
            zero_window_app: plus(self.zero_window_app, other.zero_window_app as int),
            window_blocks: plus(self.window_blocks, other.window_blocks as int),
            send_window_limited_with_room: plus(self.send_window_limited_with_room, other.send_window_limited_with_room as int),
            send_budget_blocks: plus(self.send_budget_blocks, other.send_budget_blocks as int),
            frame_send_drop: plus(self.frame_send_drop, other.frame_send_drop as int),
            migrates: plus(self.migrates, other.migrates as int),
            migrates_speculative: plus(self.migrates_speculative, other.migrates_speculative as int),
            migrates_path_down: plus(self.migrates_path_down, other.migrates_path_down as int),
            migrates_ensure_sticky: plus(self.migrates_ensure_sticky, other.migrates_ensure_sticky as int),
            migrates_send_blocked: plus(self.migrates_send_blocked, other.migrates_send_blocked as int),
            migrates_loop_unfit: plus(self.migrates_loop_unfit, other.migrates_loop_unfit as int),
            picks_unknown_rtt: plus(self.picks_unknown_rtt, other.picks_unknown_rtt as int),
            picks_unknown_over_known: plus(self.picks_unknown_over_known, other.picks_unknown_over_known as int),
            pick_rtt_us: plus(self.pick_rtt_us, other.pick_rtt_us as int),
            path_added: plus(self.path_added, other.path_added as int),
            path_down: plus(self.path_down, other.path_down as int),
            path_degraded: plus(self.path_degraded, other.path_degraded as int),
            path_outlier_recycle: plus(self.path_outlier_recycle, other.path_outlier_recycle as int),
            probe_miss: plus(self.probe_miss, other.probe_miss as int),
            correlated_silence: plus(self.correlated_silence, other.correlated_silence as int),
            session_all_down_resets: plus(self.session_all_down_resets, other.session_all_down_resets as int),
            hol_rebalances: plus(self.hol_rebalances, other.hol_rebalances as int),
            failbacks: plus(self.failbacks, other.failbacks as int),
            failbacks_upgrade: plus(self.failbacks_upgrade, other.failbacks_upgrade as int),
            failbacks_class_empty: plus(self.failbacks_class_empty, other.failbacks_class_empty as int),
            failbacks_same_link: plus(self.failbacks_same_link, other.failbacks_same_link as int),
            stall_enter_both: plus(self.stall_enter_both, other.stall_enter_both as int),
            stall_enter_send: plus(self.stall_enter_send, other.stall_enter_send as int),
            stall_enter_send_zero_window: plus(self.stall_enter_send_zero_window, other.stall_enter_send_zero_window as int),
            stall_enter_recv_hole: plus(self.stall_enter_recv_hole, other.stall_enter_recv_hole as int),
            streams_stalled: plus(self.streams_stalled, other.streams_stalled as int),
            recv_cap_probes: plus(self.recv_cap_probes, other.recv_cap_probes as int),
            recv_cap_probe_kept: plus(self.recv_cap_probe_kept, other.recv_cap_probe_kept as int),
            recv_cap_probe_reverted: plus(self.recv_cap_probe_reverted, other.recv_cap_probe_reverted as int),
            bytes_data_tx: plus(self.bytes_data_tx, other.bytes_data_tx as int),
            bytes_data_rx: plus(self.bytes_data_rx, other.bytes_data_rx as int),
            bytes_ctrl_tx: plus(self.bytes_ctrl_tx, other.bytes_ctrl_tx as int),
            bytes_ctrl_rx: plus(self.bytes_ctrl_rx, other.bytes_ctrl_rx as int),
        }
    }

    pub fn add_counters(&mut self, other: &Counters)
        ensures
            *final(self) == old(self).joined(*other),
    {
        self.streams_opened = self.streams_opened.saturating_add(other.streams_opened);
        self.streams_closed = self.streams_closed.saturating_add(other.streams_closed);
        self.stream_reaps_linger = self.stream_reaps_linger.saturating_add(other.stream_reaps_linger);
        self.stream_resets = self.stream_resets.saturating_add(other.stream_resets);
        self.stream_resets_dial_failed = self.stream_resets_dial_failed.saturating_add(other.stream_resets_dial_failed);
        self.stream_resets_timeout = self.stream_resets_timeout.saturating_add(other.stream_resets_timeout);
        self.stream_resets_peer = self.stream_resets_peer.saturating_add(other.stream_resets_peer);
        self.stream_resets_session_dead = self.stream_resets_session_dead.saturating_add(other.stream_resets_session_dead);
        self.stream_resets_protocol = self.stream_resets_protocol.saturating_add(other.stream_resets_protocol);
        self.close_retry = self.close_retry.saturating_add(other.close_retry);
        self.reset_retry = self.reset_retry.saturating_add(other.reset_retry);
        self.data_retransmit = self.data_retransmit.saturating_add(other.data_retransmit);
        self.data_hedge = self.data_hedge.saturating_add(other.data_hedge);
        self.data_dropped_resend = self.data_dropped_resend.saturating_add(other.data_dropped_resend);
        self.data_resend_silence = self.data_resend_silence.saturating_add(other.data_resend_silence);
        self.data_resend_belt = self.data_resend_belt.saturating_add(other.data_resend_belt);
        self.data_resend_down = self.data_resend_down.saturating_add(other.data_resend_down);
        self.data_resend_gone = self.data_resend_gone.saturating_add(other.data_resend_gone);
        self.data_resend_dropped = self.data_resend_dropped.saturating_add(other.data_resend_dropped);
        self.data_resend_age = self.data_resend_age.saturating_add(other.data_resend_age);
        self.data_resend_allquiet = self.data_resend_allquiet.saturating_add(other.data_resend_allquiet);
        self.data_resend_skipped_no_fresh_alt = self.data_resend_skipped_no_fresh_alt.saturating_add(other.data_resend_skipped_no_fresh_alt);
        self.data_resend_skipped_allquiet_wait = self.data_resend_skipped_allquiet_wait.saturating_add(other.data_resend_skipped_allquiet_wait);
        self.data_resend_skipped_queue_full = self.data_resend_skipped_queue_full.saturating_add(other.data_resend_skipped_queue_full);
        self.data_resend_skipped_write_stalled = self.data_resend_skipped_write_stalled.saturating_add(other.data_resend_skipped_write_stalled);
        self.data_resend_skipped_all_tried = self.data_resend_skipped_all_tried.saturating_add(other.data_resend_skipped_all_tried);
        self.data_resend_skipped_no_alt = self.data_resend_skipped_no_alt.saturating_add(other.data_resend_skipped_no_alt);
        self.data_sacked = self.data_sacked.saturating_add(other.data_sacked);
        self.data_dup_rx_bytes = self.data_dup_rx_bytes.saturating_add(other.data_dup_rx_bytes);
        self.ack_after_fin = self.ack_after_fin.saturating_add(other.ack_after_fin);
        self.zero_window_hole = self.zero_window_hole.saturating_add(other.zero_window_hole);
        self.zero_window_app = self.zero_window_app.saturating_add(other.zero_window_app);
        self.window_blocks = self.window_blocks.saturating_add(other.window_blocks);
        self.send_window_limited_with_room = self.send_window_limited_with_room.saturating_add(other.send_window_limited_with_room);
        self.send_budget_blocks = self.send_budget_blocks.saturating_add(other.send_budget_blocks);
        self.frame_send_drop = self.frame_send_drop.saturating_add(other.frame_send_drop);
        self.migrates = self.migrates.saturating_add(other.migrates);
        self.migrates_speculative = self.migrates_speculative.saturating_add(other.migrates_speculative);
        self.migrates_path_down = self.migrates_path_down.saturating_add(other.migrates_path_down);
        self.migrates_ensure_sticky = self.migrates_ensure_sticky.saturating_add(other.migrates_ensure_sticky);
        self.migrates_send_blocked = self.migrates_send_blocked.saturating_add(other.migrates_send_blocked);
        self.migrates_loop_unfit = self.migrates_loop_unfit.saturating_add(other.migrates_loop_unfit);
        self.picks_unknown_rtt = self.picks_unknown_rtt.saturating_add(other.picks_unknown_rtt);
        self.picks_unknown_over_known = self.picks_unknown_over_known.saturating_add(other.picks_unknown_over_known);
        self.pick_rtt_us = self.pick_rtt_us.saturating_add(other.pick_rtt_us);
        self.path_added = self.path_added.saturating_add(other.path_added);
        self.path_down = self.path_down.saturating_add(other.path_down);
        self.path_degraded = self.path_degraded.saturating_add(other.path_degraded);
        self.path_outlier_recycle = self.path_outlier_recycle.saturating_add(other.path_outlier_recycle);
        self.probe_miss = self.probe_miss.saturating_add(other.probe_miss);
        self.correlated_silence = self.correlated_silence.saturating_add(other.correlated_silence);
        self.session_all_down_resets = self.session_all_down_resets.saturating_add(other.session_all_down_resets);
        self.hol_rebalances = self.hol_rebalances.saturating_add(other.hol_rebalances);
        self.failbacks = self.failbacks.saturating_add(other.failbacks);
        self.failbacks_upgrade = self.failbacks_upgrade.saturating_add(other.failbacks_upgrade);
        self.failbacks_class_empty = self.failbacks_class_empty.saturating_add(other.failbacks_class_empty);
        self.failbacks_same_link = self.failbacks_same_link.saturating_add(other.failbacks_same_link);
        self.stall_enter_both = self.stall_enter_both.saturating_add(other.stall_enter_both);
        self.stall_enter_send = self.stall_enter_send.saturating_add(other.stall_enter_send);
        self.stall_enter_send_zero_window = self.stall_enter_send_zero_window.saturating_add(other.stall_enter_send_zero_window);
        self.stall_enter_recv_hole = self.stall_enter_recv_hole.saturating_add(other.stall_enter_recv_hole);
        self.streams_stalled = self.streams_stalled.saturating_add(other.streams_stalled);
        self.recv_cap_probes = self.recv_cap_probes.saturating_add(other.recv_cap_probes);
        self.recv_cap_probe_kept = self.recv_cap_probe_kept.saturating_add(other.recv_cap_probe_kept);
        self.recv_cap_probe_reverted = self.recv_cap_probe_reverted.saturating_add(other.recv_cap_probe_reverted);
        self.bytes_data_tx = self.bytes_data_tx.saturating_add(other.bytes_data_tx);
        self.bytes_data_rx = self.bytes_data_rx.saturating_add(other.bytes_data_rx);
        self.bytes_ctrl_tx = self.bytes_ctrl_tx.saturating_add(other.bytes_ctrl_tx);
        self.bytes_ctrl_rx = self.bytes_ctrl_rx.saturating_add(other.bytes_ctrl_rx);
    }

    /// One re-sent piece, by reason; an unknown reason counts nothing.
    pub open spec fn note_resend_why_counted(self, why: Seq<char>) -> Self {
        if why == "silence"@ {
            Counters { data_resend_silence: plus(self.data_resend_silence, 1), ..self }
        } else if why == "belt"@ {
            Counters { data_resend_belt: plus(self.data_resend_belt, 1), ..self }
        } else if why == "down"@ {
            Counters { data_resend_down: plus(self.data_resend_down, 1), ..self }
        } else if why == "gone"@ {
            Counters { data_resend_gone: plus(self.data_resend_gone, 1), ..self }
        } else if why == "dropped"@ {
            Counters { data_resend_dropped: plus(self.data_resend_dropped, 1), ..self }
        } else if why == "age"@ {
            Counters { data_resend_age: plus(self.data_resend_age, 1), ..self }
        } else if why == "allquiet"@ {
            Counters { data_resend_allquiet: plus(self.data_resend_allquiet, 1), ..self }
        } else {
            self
        }
    }

    pub fn note_resend_why(&mut self, why: &str)
        ensures
            *final(self) == old(self).note_resend_why_counted(why@),
    {
        if str_eq(why, "silence") {
            self.data_resend_silence = self.data_resend_silence.saturating_add(1);
        } else if str_eq(why, "belt") {
            self.data_resend_belt = self.data_resend_belt.saturating_add(1);
        } else if str_eq(why, "down") {
            self.data_resend_down = self.data_resend_down.saturating_add(1);
        } else if str_eq(why, "gone") {
            self.data_resend_gone = self.data_resend_gone.saturating_add(1);
        } else if str_eq(why, "dropped") {
            self.data_resend_dropped = self.data_resend_dropped.saturating_add(1);
        } else if str_eq(why, "age") {
            self.data_resend_age = self.data_resend_age.saturating_add(1);
        } else if str_eq(why, "allquiet") {
            self.data_resend_allquiet = self.data_resend_allquiet.saturating_add(1);
        }
    }

    /// One due piece left alone, by reason; an unknown reason counts nothing.
    pub open spec fn note_resend_skipped_counted(self, reason: Seq<char>) -> Self {
        if reason == "no_fresh_alt"@ {
            Counters { data_resend_skipped_no_fresh_alt: plus(self.data_resend_skipped_no_fresh_alt, 1), ..self }
        } else if reason == "allquiet_wait"@ {
            Counters { data_resend_skipped_allquiet_wait: plus(self.data_resend_skipped_allquiet_wait, 1), ..self }
        } else if reason == "queue_full"@ {
            Counters { data_resend_skipped_queue_full: plus(self.data_resend_skipped_queue_full, 1), ..self }
        } else if reason == "write_stalled"@ {
            Counters { data_resend_skipped_write_stalled: plus(self.data_resend_skipped_write_stalled, 1), ..self }
        } else if reason == "all_tried"@ {
            Counters { data_resend_skipped_all_tried: plus(self.data_resend_skipped_all_tried, 1), ..self }
        } else if reason == "no_alt"@ {
            Counters { data_resend_skipped_no_alt: plus(self.data_resend_skipped_no_alt, 1), ..self }
        } else {
            self
        }
    }

    pub fn note_resend_skipped(&mut self, reason: &str)
        ensures
            *final(self) == old(self).note_resend_skipped_counted(reason@),
    {
        if str_eq(reason, "no_fresh_alt") {
            self.data_resend_skipped_no_fresh_alt = self.data_resend_skipped_no_fresh_alt.saturating_add(1);
        } else if str_eq(reason, "allquiet_wait") {
            self.data_resend_skipped_allquiet_wait = self.data_resend_skipped_allquiet_wait.saturating_add(1);
        } else if str_eq(reason, "queue_full") {
            self.data_resend_skipped_queue_full = self.data_resend_skipped_queue_full.saturating_add(1);
        } else if str_eq(reason, "write_stalled") {
            self.data_resend_skipped_write_stalled = self.data_resend_skipped_write_stalled.saturating_add(1);
        } else if str_eq(reason, "all_tried") {
            self.data_resend_skipped_all_tried = self.data_resend_skipped_all_tried.saturating_add(1);
        } else if str_eq(reason, "no_alt") {
            self.data_resend_skipped_no_alt = self.data_resend_skipped_no_alt.saturating_add(1);
        }
    }

    /// The counters after a frame of `data` payload bytes and `ctrl` other
    /// bytes went out, or came in.
    pub open spec fn bytes_counted(self, data: int, ctrl: int, tx: bool) -> Self {
        if tx {
            Counters {
                bytes_data_tx: plus(self.bytes_data_tx, data),
                bytes_ctrl_tx: plus(self.bytes_ctrl_tx, ctrl),
                ..self
            }
        } else {
            Counters {
                bytes_data_rx: plus(self.bytes_data_rx, data),
                bytes_ctrl_rx: plus(self.bytes_ctrl_rx, ctrl),
                ..self
            }
        }
    }

    pub fn note_bytes(&mut self, data: u64, ctrl: u64, tx: bool)
        ensures
            *final(self) == old(self).bytes_counted(data as int, ctrl as int, tx),
    {
        if tx {
            self.bytes_data_tx = self.bytes_data_tx.saturating_add(data);
            self.bytes_ctrl_tx = self.bytes_ctrl_tx.saturating_add(ctrl);
        } else {
            self.bytes_data_rx = self.bytes_data_rx.saturating_add(data);
            self.bytes_ctrl_rx = self.bytes_ctrl_rx.saturating_add(ctrl);
        }
    }

    /// One move, and its reason where it is known.
    pub open spec fn note_migrate_counted(self, reason: Seq<char>) -> Self {
        let c = Counters { migrates: plus(self.migrates, 1), ..self };
        if reason == "speculative"@ {
            Counters { migrates_speculative: plus(c.migrates_speculative, 1), ..c }
        } else if reason == "path_down"@ {
            Counters { migrates_path_down: plus(c.migrates_path_down, 1), ..c }
        } else if reason == "ensure_sticky"@ {
            Counters { migrates_ensure_sticky: plus(c.migrates_ensure_sticky, 1), ..c }
        } else if reason == "send_blocked"@ {
            Counters { migrates_send_blocked: plus(c.migrates_send_blocked, 1), ..c }
        } else if reason == "loop_unfit"@ {
            Counters { migrates_loop_unfit: plus(c.migrates_loop_unfit, 1), ..c }
        } else {
            c
        }
    }

    pub fn note_migrate(&mut self, reason: &str)
        ensures
            *final(self) == old(self).note_migrate_counted(reason@),
    {
        self.migrates = self.migrates.saturating_add(1);
        if str_eq(reason, "speculative") {
            self.migrates_speculative = self.migrates_speculative.saturating_add(1);
        } else if str_eq(reason, "path_down") {
            self.migrates_path_down = self.migrates_path_down.saturating_add(1);
        } else if str_eq(reason, "ensure_sticky") {
            self.migrates_ensure_sticky = self.migrates_ensure_sticky.saturating_add(1);
        } else if str_eq(reason, "send_blocked") {
            self.migrates_send_blocked = self.migrates_send_blocked.saturating_add(1);
        } else if str_eq(reason, "loop_unfit") {
            self.migrates_loop_unfit = self.migrates_loop_unfit.saturating_add(1);
        }
    }

    /// One reset, and its reason; an unknown one counts as protocol.
    pub open spec fn reset_counted(self, reason: ResetReason) -> Self {
        let c = Counters { stream_resets: plus(self.stream_resets, 1), ..self };
        match reason {
            ResetReason::DialFailed => Counters {
                stream_resets_dial_failed: plus(c.stream_resets_dial_failed, 1),
                ..c
            },
            ResetReason::Timeout => Counters {
                stream_resets_timeout: plus(c.stream_resets_timeout, 1),
                ..c
            },
            ResetReason::PeerReset => Counters {
                stream_resets_peer: plus(c.stream_resets_peer, 1),
                ..c
            },
            ResetReason::SessionDead => Counters {
                stream_resets_session_dead: plus(c.stream_resets_session_dead, 1),
                ..c
            },
            ResetReason::Protocol | ResetReason::Unknown => Counters {
                stream_resets_protocol: plus(c.stream_resets_protocol, 1),
                ..c
            },
        }
    }

    pub fn note_reset(&mut self, reason: ResetReason)
        ensures
            *final(self) == old(self).reset_counted(reason),
    {
        self.stream_resets = self.stream_resets.saturating_add(1);
        match reason {
            ResetReason::DialFailed => {
                self.stream_resets_dial_failed = self.stream_resets_dial_failed.saturating_add(1);
            },
            ResetReason::Timeout => {
                self.stream_resets_timeout = self.stream_resets_timeout.saturating_add(1);
            },
            ResetReason::PeerReset => {
                self.stream_resets_peer = self.stream_resets_peer.saturating_add(1);
            },
            ResetReason::SessionDead => {
                self.stream_resets_session_dead = self.stream_resets_session_dead.saturating_add(1);
            },
            _ => {
                self.stream_resets_protocol = self.stream_resets_protocol.saturating_add(1);
            },
        }
    }
}

/// Each reset is counted once, and under its reason.
pub proof fn law_resets_count_under_their_reason(c: Counters, reason: ResetReason)
    requires
        c.stream_resets < u64::MAX,
        c.stream_resets_dial_failed < u64::MAX,
        c.stream_resets_timeout < u64::MAX,
        c.stream_resets_peer < u64::MAX,
        c.stream_resets_session_dead < u64::MAX,
        c.stream_resets_protocol < u64::MAX,
    ensures
        ({
            let n = c.reset_counted(reason);
            let dial = n.stream_resets_dial_failed - c.stream_resets_dial_failed;
            let time = n.stream_resets_timeout - c.stream_resets_timeout;
            let peer = n.stream_resets_peer - c.stream_resets_peer;
            let dead = n.stream_resets_session_dead - c.stream_resets_session_dead;
            let rest = n.stream_resets_protocol - c.stream_resets_protocol;
            &&& n.stream_resets == c.stream_resets + 1
            &&& dial + time + peer + dead + rest == 1
            &&& 0 <= dial && 0 <= time && 0 <= peer && 0 <= dead && 0 <= rest
            &&& reason is DialFailed <==> dial == 1
            &&& reason is Timeout <==> time == 1
            &&& reason is PeerReset <==> peer == 1
            &&& reason is SessionDead <==> dead == 1
        }),
{
}

/// Bytes are counted on their side, as data or as control.
pub proof fn law_bytes_are_data_or_control(c: Counters, data: int, ctrl: int)
    requires
        0 <= data,
        0 <= ctrl,
        c.bytes_data_tx + data <= u64::MAX,
        c.bytes_ctrl_tx + ctrl <= u64::MAX,
        c.bytes_data_rx + data <= u64::MAX,
        c.bytes_ctrl_rx + ctrl <= u64::MAX,
    ensures
        c.bytes_counted(data, ctrl, true) == (Counters {
            bytes_data_tx: (c.bytes_data_tx + data) as u64,
            bytes_ctrl_tx: (c.bytes_ctrl_tx + ctrl) as u64,
            ..c
        }),
        c.bytes_counted(data, ctrl, false) == (Counters {
            bytes_data_rx: (c.bytes_data_rx + data) as u64,
            bytes_ctrl_rx: (c.bytes_ctrl_rx + ctrl) as u64,
            ..c
        }),
{
}

/// Each migration is counted once, and under its reason.
pub proof fn law_migrations_count_under_their_reason(c: Counters)
    requires
        c.migrates < u64::MAX,
        c.migrates_speculative < u64::MAX,
        c.migrates_path_down < u64::MAX,
        c.migrates_ensure_sticky < u64::MAX,
        c.migrates_send_blocked < u64::MAX,
        c.migrates_loop_unfit < u64::MAX,
    ensures
        c.note_migrate_counted("speculative"@) == (Counters {
            migrates: (c.migrates + 1) as u64,
            migrates_speculative: (c.migrates_speculative + 1) as u64,
            ..c
        }),
        c.note_migrate_counted("path_down"@) == (Counters {
            migrates: (c.migrates + 1) as u64,
            migrates_path_down: (c.migrates_path_down + 1) as u64,
            ..c
        }),
        c.note_migrate_counted("ensure_sticky"@) == (Counters {
            migrates: (c.migrates + 1) as u64,
            migrates_ensure_sticky: (c.migrates_ensure_sticky + 1) as u64,
            ..c
        }),
        c.note_migrate_counted("send_blocked"@) == (Counters {
            migrates: (c.migrates + 1) as u64,
            migrates_send_blocked: (c.migrates_send_blocked + 1) as u64,
            ..c
        }),
        c.note_migrate_counted("loop_unfit"@) == (Counters {
            migrates: (c.migrates + 1) as u64,
            migrates_loop_unfit: (c.migrates_loop_unfit + 1) as u64,
            ..c
        }),
{
    reveal_strlit("speculative");
    reveal_strlit("path_down");
    reveal_strlit("ensure_sticky");
    reveal_strlit("send_blocked");
    reveal_strlit("loop_unfit");
    assert("speculative"@.len() == 11 && "path_down"@.len() == 9 && "ensure_sticky"@.len() == 13);
    assert("send_blocked"@.len() == 12 && "loop_unfit"@.len() == 10);
}

} // verus!
