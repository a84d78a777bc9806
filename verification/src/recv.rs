//! Receive reorder: buffering, in-order hand-over, holes, the ACK that
//! reports it, and the receive window.

use vstd::prelude::*;

use crate::cfg::SessionConfig;
use crate::maps::{keys_of, lemma_sum_insert, lemma_sum_split, lists_keys, sum_by};
use crate::double::{quotient, whole, whole_double};
use crate::num::{above, capped, larger, max_u64};
use crate::stream::{Hole, RecvState, StreamCounters, StreamState, NO_CLOSE};
use crate::window::{
    in_flight, loop_carries,
    closes_sample, delivered, tune, tuned_counters, tuned_recv, ProbeEvent,
};

verus! {

broadcast use vstd::laws_cmp::group_laws_cmp;

// ---------------------------------------------------------------------------
// The reorder buffer
// ---------------------------------------------------------------------------
/// The pieces of a reorder buffer as byte sequences.
pub open spec fn pieces(m: Map<u64, Vec<u8>>) -> Map<u64, Seq<u8>> {
    m.map_values(|v: Vec<u8>| v@)
}

/// Chunks as byte sequences.
pub open spec fn chunks(s: Seq<Vec<u8>>) -> Seq<Seq<u8>> {
    s.map_values(|v: Vec<u8>| v@)
}

/// The length of a piece.
pub open spec fn piece_len() -> spec_fn(Seq<u8>) -> nat {
    |s: Seq<u8>| s.len()
}

/// Every piece ends at an offset that can be counted.
pub open spec fn ends_fit(m: Map<u64, Seq<u8>>) -> bool {
    forall|k: u64| #[trigger] m.contains_key(k) ==> k + m[k].len() <= u64::MAX
}

/// The chunks that can be handed over from `next` on, at most `n` of them.
pub open spec fn run(m: Map<u64, Seq<u8>>, next: u64, n: nat) -> Seq<Seq<u8>>
    decreases n,
{
    if n > 0 && m.contains_key(next) {
        seq![m[next]] + run(m.remove(next), (next + m[next].len()) as u64, (n - 1) as nat)
    } else {
        seq![]
    }
}

/// Where that run ends.
pub open spec fn run_end(m: Map<u64, Seq<u8>>, next: u64, n: nat) -> u64
    decreases n,
{
    if n > 0 && m.contains_key(next) {
        run_end(m.remove(next), (next + m[next].len()) as u64, (n - 1) as nat)
    } else {
        next
    }
}

/// What is left once the run is handed over.
pub open spec fn run_rest(m: Map<u64, Seq<u8>>, next: u64, n: nat) -> Map<u64, Seq<u8>>
    decreases n,
{
    if n > 0 && m.contains_key(next) {
        run_rest(m.remove(next), (next + m[next].len()) as u64, (n - 1) as nat)
    } else {
        m
    }
}

/// Bytes of the contiguous run that starts at `next` and is still held. A
/// piece that begins inside the one before it ends the count.
pub open spec fn in_order(m: Map<u64, Seq<u8>>, next: u64) -> nat
    decreases m.dom().len(),
    when m.dom().finite()
{
    if m.contains_key(next) {
        let end = (next + m[next].len()) as u64;
        m[next].len() + (if exists|k: u64| #[trigger] m.contains_key(k) && next < k < end {
            0
        } else {
            in_order(m.remove(next), end)
        })
    } else {
        0
    }
}

proof fn lemma_in_order_held(m: Map<u64, Seq<u8>>, next: u64)
    requires
        m.dom().finite(),
    ensures
        in_order(m, next) <= sum_by(m, piece_len()),
    decreases m.dom().len(),
{
    if m.contains_key(next) {
        lemma_sum_split(m, piece_len(), next);
        let end = (next + m[next].len()) as u64;
        assert(m.remove(next).dom() =~= m.dom().remove(next));
        lemma_in_order_held(m.remove(next), end);
    }
}

proof fn lemma_piece_in_sum(m: Map<u64, Seq<u8>>, k: u64)
    requires
        m.dom().finite(),
        m.contains_key(k),
    ensures
        m[k].len() <= sum_by(m, piece_len()),
{
    lemma_sum_split(m, piece_len(), k);
}

impl StreamState {
    /// The reorder buffer.
    pub open spec fn held(self) -> Map<u64, Seq<u8>> {
        pieces(self.recv_buf@)
    }

    /// The buffer is counted right and everything held can be counted.
    pub open spec fn recv_wf(self) -> bool {
        &&& self.held().dom().finite()
        &&& ends_fit(self.held())
        &&& self.recv.recv_buffered == sum_by(self.held(), piece_len())
        &&& self.recv.buffered_in + self.recv.recv_buffered <= u64::MAX
    }

    /// Hand over in-order chunks while the application has a free slot.
    pub fn take_in_order(&mut self, free: usize, now_ms: u64) -> (out: Vec<Vec<u8>>)
        requires
            old(self).recv_wf(),
        ensures
            final(self).recv_wf(),
            chunks(out@) == run(old(self).held(), old(self).counters.recv_next, free as nat),
            final(self).held() == run_rest(
                old(self).held(),
                old(self).counters.recv_next,
                free as nat,
            ),
            final(self).counters == (StreamCounters {
                recv_next: run_end(old(self).held(), old(self).counters.recv_next, free as nat),
                ..old(self).counters
            }),
            final(self).counters.recv_next >= old(self).counters.recv_next,
            final(self).counters.recv_next - old(self).counters.recv_next
                <= old(self).recv.recv_buffered,
            final(self).recv == taken(
                old(self).recv,
                final(self).counters.recv_next - old(self).counters.recv_next,
                out@.len() > 0,
                now_ms,
            ),
            final(self).same_but_recv(*old(self)),
    {
        let mut out: Vec<Vec<u8>> = Vec::new();
        let ghost m0 = self.held();
        let ghost next0 = self.counters.recv_next;
        let ghost recv0 = self.recv;
        let mut left: usize = free;
        proof {
            assert(chunks(out@) + run(m0, next0, free as nat) =~= run(m0, next0, free as nat));
        }
        while left > 0
            invariant
                left <= free,
                out@.len() == free - left,
                self.recv_wf(),
                self.counters.recv_next >= next0,
                chunks(out@) + run(self.held(), self.counters.recv_next, left as nat) == run(
                    m0,
                    next0,
                    free as nat,
                ),
                run_rest(self.held(), self.counters.recv_next, left as nat) == run_rest(
                    m0,
                    next0,
                    free as nat,
                ),
                run_end(self.held(), self.counters.recv_next, left as nat) == run_end(
                    m0,
                    next0,
                    free as nat,
                ),
                self.counters == (StreamCounters {
                    recv_next: self.counters.recv_next,
                    ..old(self).counters
                }),
                self.recv == taken(
                    recv0,
                    self.counters.recv_next - next0,
                    out@.len() > 0,
                    now_ms,
                ),
                recv0 == old(self).recv,
                self.recv.recv_buffered + (self.counters.recv_next - next0) == recv0.recv_buffered,
                self.recv.buffered_in == recv0.buffered_in + (self.counters.recv_next - next0),
                self.same_but_recv(*old(self)),
            ensures
                left == 0 || !self.held().contains_key(self.counters.recv_next),
            decreases left,
        {
            let next: u64 = self.counters.recv_next;
            let ghost before = self.held();
            let ghost buf_before = self.recv_buf@;
            match self.recv_buf.remove(&next) {
                Some(chunk) => {
                    let len: u64 = chunk.len() as u64;
                    proof {
                        assert(before.contains_key(next) && before[next] == chunk@);
                        lemma_sum_split(before, piece_len(), next);
                        assert(self.held() =~= before.remove(next));
                        assert(before.remove(next).dom() =~= before.dom().remove(next));
                        assert(ends_fit(before.remove(next)));
                    }
                    self.recv.recv_buffered = self.recv.recv_buffered.saturating_sub(len);
                    self.counters.recv_next = next + len;
                    self.recv.buffered_in = self.recv.buffered_in + len;
                    self.recv.last_recv_ms = max_u64(now_ms, 1);
                    left -= 1;
                    let ghost out0 = out@;
                    out.push(chunk);
                    proof {
                        let tail = run(self.held(), self.counters.recv_next, left as nat);
                        assert(chunks(out@) =~= chunks(out0) + seq![before[next]]);
                        assert(chunks(out0) + (seq![before[next]] + tail) =~= chunks(out@) + tail);
                    }
                },
                None => {
                    proof {
                        assert(!before.contains_key(next));
                        assert(self.held() =~= before);
                    }
                    break;
                },
            }
        }
        proof {
            assert(run(self.held(), self.counters.recv_next, left as nat) =~= seq![]);
            assert(chunks(out@) + seq![] =~= chunks(out@));
        }
        out
    }
}

/// The receive side once `n` bytes were handed over.
pub open spec fn taken(r: RecvState, n: int, any: bool, now_ms: u64) -> RecvState {
    RecvState {
        recv_buffered: (r.recv_buffered - n) as u64,
        buffered_in: (r.buffered_in + n) as u64,
        last_recv_ms: if any {
            larger(now_ms as int, 1) as u64
        } else {
            r.last_recv_ms
        },
        ..r
    }
}

// ---------------------------------------------------------------------------
// Holes and receiver evidence
// ---------------------------------------------------------------------------
/// An average of weight 1/8; the first sample seeds it.
pub open spec fn ewma8(cur: int, s: int) -> int {
    if cur == 0 {
        s
    } else {
        (cur * 7 + s) / 8
    }
}

fn fold_ewma8(cur: u64, s: u64) -> (r: u64)
    ensures
        r == ewma8(cur as int, s as int),
{
    if cur == 0 {
        s
    } else {
        ((cur as u128 * 7 + s as u128) / 8) as u64
    }
}

/// The next byte is missing while later pieces wait. A head that is present
/// but undeliverable (`full`) is the application waiting, not the network.
pub open spec fn head_missing(m: Map<u64, Seq<u8>>, next: u64, full: bool) -> bool {
    !full && !m.dom().is_empty() && !m.contains_key(next)
}

/// The tracked hole is filled: drained past, or its piece is present.
pub open spec fn hole_closed(h: Option<Hole>, m: Map<u64, Seq<u8>>, next: u64) -> bool {
    match h {
        Some(x) => x.off < next || m.contains_key(x.off),
        None => false,
    }
}

/// A hole opens where the head is missing; one that is open stays until it
/// is filled.
pub open spec fn hole_after(
    h: Option<Hole>,
    m: Map<u64, Seq<u8>>,
    next: u64,
    full: bool,
    now: u64,
) -> Option<Hole> {
    if h is None || hole_closed(h, m, next) {
        if head_missing(m, next, full) {
            Some(Hole { off: next, since: now })
        } else {
            None
        }
    } else {
        h
    }
}

/// How long the hole that just closed had been open, at least 1.
pub open spec fn hole_wait(h: Option<Hole>, now: u64) -> int {
    match h {
        Some(x) => larger(above(now as int, x.since as int), 1),
        None => 0,
    }
}

impl StreamState {
    /// Out-of-order bytes held behind a hole.
    pub open spec fn hole_bytes(self) -> int {
        self.recv.recv_buffered - in_order(self.held(), self.counters.recv_next)
    }

    /// In-order bytes the application has not taken.
    pub open spec fn app_backlog(self) -> int {
        self.recv.buffered_in + in_order(self.held(), self.counters.recv_next)
    }

    /// Bytes of the contiguous run at `recv_next` still in the buffer.
    pub fn in_order_held(&self) -> (r: u64)
        requires
            self.recv_wf(),
        ensures
            r == in_order(self.held(), self.counters.recv_next),
            r <= self.recv.recv_buffered,
    {
        let keys: Vec<u64> = keys_of(&self.recv_buf);
        let ghost m = self.held();
        let start: u64 = self.counters.recv_next;
        let mut i: usize = 0;
        while i < keys.len() && keys[i] < start
            invariant
                i <= keys@.len(),
                lists_keys(keys@, self.recv_buf@),
                forall|j: int| 0 <= j < i ==> keys@[j] < start,
            decreases keys.len() - i,
        {
            i += 1;
        }
        let first: usize = i;
        let mut next: u64 = start;
        let mut held: u64 = 0;
        let ghost mut cur = m;
        proof {
            lemma_in_order_held(m, start);
            assert forall|j: int| 0 <= j < keys@.len() implies m.contains_key(#[trigger] keys@[j]) by {
                assert(keys@.contains(keys@[j]));
            }
            if m.contains_key(next) {
                assert(keys@.contains(next));
            }
        }
        while i < keys.len() && keys[i] == next
            invariant
                first <= i <= keys@.len(),
                start <= next,
                lists_keys(keys@, self.recv_buf@),
                m == self.held(),
                self.recv_wf(),
                forall|j: int| 0 <= j < first ==> keys@[j] < start,
                forall|j: int| first <= j < keys@.len() ==> keys@[j] >= start,
                cur.dom().finite(),
                forall|k: u64| #[trigger] cur.contains_key(k) ==> m.contains_key(k) && cur[k] == m[k],
                forall|j: int|
                    0 <= j < keys@.len() ==> (#[trigger] cur.contains_key(keys@[j]) <==> (j < first
                        || j >= i)),
                forall|j: int| i <= j < keys@.len() ==> next <= keys@[j],
                cur.contains_key(next) ==> i < keys@.len() && keys@[i as int] == next,
                held + sum_by(cur, piece_len()) == sum_by(m, piece_len()),
                in_order(m, start) == held + in_order(cur, next),
            ensures
                in_order(m, start) == held,
            decreases keys.len() - i,
        {
            let k: u64 = keys[i];
            let ghost before = cur;
            proof {
                assert(cur.contains_key(keys@[i as int]));
                assert(m.contains_key(k));
                lemma_sum_split(before, piece_len(), k);
                cur = before.remove(k);
                assert(cur.dom() =~= before.dom().remove(k));
            }
            match self.recv_buf.get(&k) {
                Some(chunk) => {
                    let len: u64 = chunk.len() as u64;
                    proof {
                        assert(m[k] == chunk@);
                        assert(before[k] == chunk@);
                    }
                    let end: u64 = k + len;
                    held = held + len;
                    i += 1;
                    if i < keys.len() && keys[i] < end {
                        proof {
                            let w = keys@[i as int];
                            assert(before.contains_key(w));
                            assert(k < w < end);
                        }
                        break;
                    }
                    proof {
                        assert forall|x: u64| #[trigger] before.contains_key(x) implies !(k < x
                            < end) by {
                            assert(m.contains_key(x));
                            assert(keys@.contains(x));
                            let j = choose|j: int| 0 <= j < keys@.len() && keys@[j] == x;
                            assert(before.contains_key(keys@[j]));
                            if j < first {
                                assert(x < start);
                            } else if j >= i {
                                assert(keys@[i as int] <= x);
                            }
                        }
                    }
                    next = end;
                    proof {
                        if cur.contains_key(next) {
                            assert(keys@.contains(next));
                            let j = choose|j: int| 0 <= j < keys@.len() && keys@[j] == next;
                            assert(cur.contains_key(keys@[j]));
                        }
                    }
                },
                None => {
                    assert(false);
                },
            }
        }
        held
    }

    /// `(hole_bytes, app_backlog)`: out-of-order bytes held behind a hole
    /// against in-order bytes the application has not taken.
    pub fn recv_evidence(&self) -> (r: (u64, u64))
        requires
            self.recv_wf(),
        ensures
            r.0 == self.hole_bytes(),
            r.1 == self.app_backlog(),
    {
        let held: u64 = self.in_order_held();
        (self.recv.recv_buffered - held, self.recv.buffered_in + held)
    }

    /// The hole state machine, derived from the buffer contents, and the
    /// receiver evidence that goes with it.
    pub fn track_hole(&mut self, full: bool, now: u64)
        requires
            old(self).recv_wf(),
        ensures
            final(self).recv_wf(),
            final(self).recv == hole_tracked(
                old(self).recv,
                old(self).held(),
                old(self).counters.recv_next,
                full,
                now,
            ),
            final(self).counters == evidence_noted(
                old(self).counters,
                old(self).recv,
                old(self).held(),
                old(self).hole_bytes(),
                old(self).app_backlog(),
                now,
            ),
            final(self).recv_buf == old(self).recv_buf,
            final(self).same_but_recv(*old(self)),
    {
        let recv_next: u64 = self.counters.recv_next;
        let head: bool = self.recv_buf.contains_key(&recv_next);
        let missing: bool = !full && !self.recv_buf.is_empty() && !head;
        proof {
            assert(self.held().dom() =~= self.recv_buf@.dom());
        }
        let opened: Option<Hole> = if missing {
            Some(Hole { off: recv_next, since: now })
        } else {
            None
        };
        match self.recv.hole {
            Some(h) => {
                if h.off < recv_next || self.recv_buf.contains_key(&h.off) {
                    let wait: u64 = max_u64(now.saturating_sub(h.since), 1);
                    self.counters.hole_us = fold_ewma8(self.counters.hole_us, wait);
                    self.recv.hole_sampled_at_us = max_u64(now, 1);
                    self.recv.hole = opened;
                }
            },
            None => {
                self.recv.hole = opened;
            },
        }
        let (hole_bytes, app_backlog) = self.recv_evidence();
        self.counters.recv_hole_max = max_u64(self.counters.recv_hole_max, hole_bytes);
        self.counters.app_backlog_max = max_u64(self.counters.app_backlog_max, app_backlog);
    }

    /// Fold one drain's out-of-order bytes into the occupancy average.
    pub fn sample_hole_bytes(&mut self, hole_bytes: u64, now: u64)
        ensures
            final(self).recv == (RecvState {
                hole_bytes_ewma: ewma8(
                    old(self).recv.hole_bytes_ewma as int,
                    hole_bytes as int,
                ) as u64,
                hole_bytes_at_us: larger(now as int, 1) as u64,
                ..old(self).recv
            }),
            final(self).counters == old(self).counters,
            final(self).recv_buf == old(self).recv_buf,
            final(self).same_but_recv(*old(self)),
    {
        self.recv.hole_bytes_ewma = fold_ewma8(self.recv.hole_bytes_ewma, hole_bytes);
        self.recv.hole_bytes_at_us = max_u64(now, 1);
    }
}

/// The receive side after a look at the buffer.
pub open spec fn hole_tracked(
    r: RecvState,
    m: Map<u64, Seq<u8>>,
    next: u64,
    full: bool,
    now: u64,
) -> RecvState {
    RecvState {
        hole: hole_after(r.hole, m, next, full, now),
        hole_sampled_at_us: if hole_closed(r.hole, m, next) {
            larger(now as int, 1) as u64
        } else {
            r.hole_sampled_at_us
        },
        ..r
    }
}

/// The counters after a look at the buffer.
pub open spec fn evidence_noted(
    c: StreamCounters,
    r: RecvState,
    m: Map<u64, Seq<u8>>,
    hole_bytes: int,
    app_backlog: int,
    now: u64,
) -> StreamCounters {
    StreamCounters {
        hole_us: if hole_closed(r.hole, m, c.recv_next) {
            ewma8(c.hole_us as int, hole_wait(r.hole, now)) as u64
        } else {
            c.hole_us
        },
        recv_hole_max: larger(c.recv_hole_max as int, hole_bytes) as u64,
        app_backlog_max: larger(c.app_backlog_max as int, app_backlog) as u64,
        ..c
    }
}

// ---------------------------------------------------------------------------
// ACKs
// ---------------------------------------------------------------------------
/// The buffered bytes as ranges, neighbours joined, in offset order.
pub open spec fn runs(keys: Seq<u64>, m: Map<u64, Seq<u8>>) -> Seq<(u64, u64)>
    decreases keys.len(),
{
    if keys.len() == 0 {
        seq![]
    } else {
        let r = runs(keys.drop_last(), m);
        let off = keys.last();
        let end = (off + m[off].len()) as u64;
        if r.len() > 0 && r.last().1 == off {
            r.update(r.len() - 1, (r.last().0, end))
        } else {
            r.push((off, end))
        }
    }
}

/// The index of the first range from `i` on that holds offset `x`.
pub open spec fn first_covering(rs: Seq<(u64, u64)>, x: u64, i: int) -> Option<int>
    decreases rs.len() - i,
{
    if i < 0 || i >= rs.len() {
        None
    } else if rs[i].0 <= x < rs[i].1 {
        Some(i)
    } else {
        first_covering(rs, x, i + 1)
    }
}

/// `out` filled up with the ranges below index `n`, highest first, none twice.
pub open spec fn highest_added(
    out: Seq<(u64, u64)>,
    rs: Seq<(u64, u64)>,
    n: int,
    max: nat,
) -> Seq<(u64, u64)>
    decreases n,
{
    if n <= 0 || out.len() >= max {
        out
    } else if out.contains(rs[n - 1]) {
        highest_added(out, rs, n - 1, max)
    } else {
        highest_added(out.push(rs[n - 1]), rs, n - 1, max)
    }
}

/// The ranges of one ACK: the one with the newest arrival first, then the
/// highest ones.
pub open spec fn sack_of(m: Map<u64, Seq<u8>>, keys: Seq<u64>, newest: u64, max: nat) -> Seq<
    (u64, u64),
> {
    let rs = runs(keys, m);
    let head = match first_covering(rs, newest, 0) {
        Some(i) => seq![rs[i]],
        None => seq![],
    };
    highest_added(head, rs, rs.len() as int, max)
}

/// An acknowledgement on the wire.
pub struct StreamAck {
    pub stream_id: u32,
    pub acked_offset: u64,
    pub window: u32,
    pub sack: Vec<(u64, u64)>,
}

fn contains_range(rs: &Vec<(u64, u64)>, r: (u64, u64)) -> (b: bool)
    ensures
        b == rs@.contains(r),
{
    let mut i: usize = 0;
    while i < rs.len()
        invariant
            i <= rs.len(),
            forall|k: int| 0 <= k < i ==> rs@[k] != r,
        decreases rs.len() - i,
    {
        if rs[i].0 == r.0 && rs[i].1 == r.1 {
            assert(rs@[i as int] == r);
            return true;
        }
        i += 1;
    }
    false
}

impl StreamState {
    /// The ranges this receiver would acknowledge selectively.
    pub open spec fn sack_spec(self, max: nat) -> Seq<(u64, u64)> {
        sack_of(
            self.held(),
            crate::maps::sorted_keys(self.recv_buf@),
            self.recv.last_hole_arrival,
            max,
        )
    }

    /// SACK ranges for the next ACK: coalesced runs of the buffer, the run
    /// holding the newest arrival first, then the highest runs. Bounded.
    pub fn sack_ranges(&self, max: usize) -> (out: Vec<(u64, u64)>)
        requires
            self.recv_wf(),
        ensures
            out@ == self.sack_spec(max as nat),
    {
        let keys: Vec<u64> = keys_of(&self.recv_buf);
        let ghost m = self.held();
        let mut rs: Vec<(u64, u64)> = Vec::new();
        let mut i: usize = 0;
        while i < keys.len()
            invariant
                i <= keys@.len(),
                lists_keys(keys@, self.recv_buf@),
                m == self.held(),
                self.recv_wf(),
                rs@ == runs(keys@.take(i as int), m),
            decreases keys.len() - i,
        {
            let off: u64 = keys[i];
            proof {
                assert(keys@.contains(off));
                assert(m.contains_key(off));
                assert(keys@.take(i + 1).drop_last() =~= keys@.take(i as int));
            }
            match self.recv_buf.get(&off) {
                Some(chunk) => {
                    assert(m[off] == chunk@);
                    let end: u64 = off + chunk.len() as u64;
                    let n: usize = rs.len();
                    if n > 0 && rs[n - 1].1 == off {
                        let from: u64 = rs[n - 1].0;
                        rs.set(n - 1, (from, end));
                    } else {
                        rs.push((off, end));
                    }
                },
                None => {
                    assert(false);
                },
            }
            i += 1;
        }
        assert(keys@.take(keys@.len() as int) =~= keys@);
        let newest: u64 = self.recv.last_hole_arrival;
        let mut out: Vec<(u64, u64)> = Vec::new();
        let mut j: usize = 0;
        while j < rs.len()
            invariant_except_break
                out@.len() == 0,
            invariant
                j <= rs@.len(),
                first_covering(rs@, newest, 0) == first_covering(rs@, newest, j as int),
            ensures
                out@ == (match first_covering(rs@, newest, 0) {
                    Some(i) => seq![rs@[i]],
                    None => seq![],
                }),
            decreases rs.len() - j,
        {
            if rs[j].0 <= newest && newest < rs[j].1 {
                out.push(rs[j]);
                break;
            }
            j += 1;
        }
        let mut n: usize = rs.len();
        let ghost head = out@;
        while n > 0 && out.len() < max
            invariant
                n <= rs@.len(),
                highest_added(head, rs@, rs@.len() as int, max as nat) == highest_added(
                    out@,
                    rs@,
                    n as int,
                    max as nat,
                ),
            decreases n,
        {
            if !contains_range(&out, rs[n - 1]) {
                out.push(rs[n - 1]);
            }
            n -= 1;
        }
        out
    }

    /// `ack` reports everything this side holds, and `n` is this stream with a
    /// closed window charged to who closed it.
    pub open spec fn acks_to(self, n: Self, ack: StreamAck, max_sack: nat) -> bool {
        &&& ack.stream_id == self.id
        &&& ack.acked_offset == self.counters.recv_next
        &&& ack.window == self.window_of()
        &&& ack.sack@ == self.sack_spec(max_sack)
        &&& n.counters == zero_window_noted(
            self.counters,
            self.window_of(),
            self.hole_bytes(),
            self.app_backlog(),
        )
        &&& n.recv == self.recv
        &&& n.recv_buf == self.recv_buf
        &&& n.same_but_recv(self)
    }

    /// The acknowledgement of everything this side holds, and which counter a
    /// closed window goes to: bytes stuck behind a hole, or in-order bytes
    /// the application has not read.
    pub fn make_ack(&mut self, max_sack: usize) -> (ack: StreamAck)
        requires
            old(self).recv_wf(),
        ensures
            old(self).acks_to(*final(self), ack, max_sack as nat),
    {
        let window: u32 = self.advertised_window();
        let sack: Vec<(u64, u64)> = self.sack_ranges(max_sack);
        if window == 0 {
            let (hole_bytes, app_backlog) = self.recv_evidence();
            if hole_bytes >= app_backlog {
                self.counters.zero_win_hole = self.counters.zero_win_hole.saturating_add(1);
            } else {
                self.counters.zero_win_app = self.counters.zero_win_app.saturating_add(1);
            }
        }
        StreamAck {
            stream_id: self.id,
            acked_offset: self.counters.recv_next,
            window,
            sack,
        }
    }

    /// An ACK is owed; the flush clock starts with the first one.
    pub fn mark_ack_dirty(&mut self, now: u64)
        ensures
            final(self).recv == dirty(old(self).recv, now),
            final(self).counters == old(self).counters,
            final(self).recv_buf == old(self).recv_buf,
            final(self).same_but_recv(*old(self)),
    {
        if !self.recv.ack_dirty {
            self.recv.ack_dirty = true;
            self.recv.ack_flush_from_us = max_u64(now, 1);
        }
    }

    /// An ACK left on a path. Clears the debt unless a newer one is `pending`
    /// there; the time the debt stood is handed back once.
    pub fn note_ack_sent(&mut self, pending: bool, now: u64) -> (waited: Option<u64>)
        ensures
            pending ==> waited is None && final(self).recv == old(self).recv,
            !pending ==> final(self).recv == (RecvState {
                ack_dirty: false,
                ack_flush_from_us: 0,
                ..old(self).recv
            }),
            !pending ==> waited == (if old(self).recv.ack_flush_from_us != 0 {
                Some(above(now as int, old(self).recv.ack_flush_from_us as int) as u64)
            } else {
                None
            }),
            final(self).counters == old(self).counters,
            final(self).recv_buf == old(self).recv_buf,
            final(self).same_but_recv(*old(self)),
    {
        if pending {
            return None;
        }
        let from: u64 = self.recv.ack_flush_from_us;
        self.recv.ack_dirty = false;
        self.recv.ack_flush_from_us = 0;
        if from != 0 {
            Some(now.saturating_sub(from))
        } else {
            None
        }
    }
}

/// The receive side once an ACK is owed.
pub open spec fn dirty(r: RecvState, now: u64) -> RecvState {
    if r.ack_dirty {
        r
    } else {
        RecvState { ack_dirty: true, ack_flush_from_us: larger(now as int, 1) as u64, ..r }
    }
}

/// A closed window is charged to the hole where more bytes wait behind it
/// than the application has left unread.
pub open spec fn zero_window_noted(
    c: StreamCounters,
    window: int,
    hole_bytes: int,
    app_backlog: int,
) -> StreamCounters {
    if window != 0 {
        c
    } else if hole_bytes >= app_backlog {
        StreamCounters { zero_win_hole: capped(c.zero_win_hole + 1) as u64, ..c }
    } else {
        StreamCounters { zero_win_app: capped(c.zero_win_app + 1) as u64, ..c }
    }
}

// ---------------------------------------------------------------------------
// Arrival
// ---------------------------------------------------------------------------
/// What one STREAM_DATA did to a stream.
#[derive(Clone, Copy, Debug, PartialEq, Eq, Structural)]
pub enum Arrival {
    /// The stream was reset.
    Ignored,
    /// The receive side is complete, or the piece lies past the sender's
    /// final offset: only the ACK is owed.
    AfterFin,
    /// Bytes the application already has.
    Duplicate,
    /// A re-sent piece on an offset already buffered.
    Replaced,
    /// A first arrival; the buffer is to be drained.
    Buffered,
}

impl StreamState {
    /// What a piece at `offset` is to this stream.
    pub open spec fn arrival(self, offset: u64) -> Arrival {
        if self.life.reset {
            Arrival::Ignored
        } else if self.recv.recv_fin || (self.recv.recv_close_off != NO_CLOSE && offset
            >= self.recv.recv_close_off) {
            Arrival::AfterFin
        } else if offset < self.counters.recv_next {
            Arrival::Duplicate
        } else if self.held().contains_key(offset) {
            Arrival::Replaced
        } else {
            Arrival::Buffered
        }
    }

    /// The receive side after a piece of `len` bytes at `offset`.
    pub open spec fn arrived(self, path_id: u32, offset: u64, len: nat) -> RecvState {
        match self.arrival(offset) {
            Arrival::Ignored | Arrival::AfterFin => self.recv,
            Arrival::Duplicate => RecvState {
                last_recv_path: path_id,
                peer_seen: true,
                ..self.recv
            },
            Arrival::Replaced => RecvState {
                last_recv_path: path_id,
                peer_seen: true,
                recv_buffered: (self.recv.recv_buffered - self.held()[offset].len() + len) as u64,
                ..self.recv
            },
            Arrival::Buffered => RecvState {
                last_recv_path: path_id,
                peer_seen: true,
                recv_buffered: (self.recv.recv_buffered + len) as u64,
                last_hole_arrival: if offset > self.counters.recv_next {
                    offset
                } else {
                    self.recv.last_hole_arrival
                },
                ..self.recv
            },
        }
    }

    /// Duplicate bytes a piece of `len` bytes at `offset` brings.
    pub open spec fn duplicate_bytes(self, offset: u64, len: nat) -> nat {
        match self.arrival(offset) {
            Arrival::Ignored | Arrival::Buffered => 0,
            Arrival::AfterFin | Arrival::Duplicate => len,
            Arrival::Replaced => self.held()[offset].len(),
        }
    }

    /// `n` is this stream once a piece arrived; `r` says what it was, and
    /// whether it is the first DATA of the peer.
    pub open spec fn delivers_to(
        self,
        n: Self,
        path_id: u32,
        offset: u64,
        data: Seq<u8>,
        r: (Arrival, bool),
    ) -> bool {
        &&& r.0 == self.arrival(offset)
        &&& r.1 == (!self.recv.peer_seen && !(r.0 is Ignored) && !(r.0 is AfterFin))
        &&& n.recv == self.arrived(path_id, offset, data.len())
        &&& n.held() == if r.0 is Replaced || r.0 is Buffered {
            self.held().insert(offset, data)
        } else {
            self.held()
        }
        &&& n.counters == (StreamCounters {
            dup_rx_bytes: capped(
                self.counters.dup_rx_bytes + self.duplicate_bytes(offset, data.len()),
            ) as u64,
            ..self.counters
        })
        &&& n.same_but_recv(self)
    }

    /// Take one STREAM_DATA into the reorder buffer. The second result says
    /// that this is the first DATA of the peer: it proves the peer holds the
    /// stream, so the StreamOpen retry can stop.
    pub fn deliver_data(&mut self, path_id: u32, offset: u64, data: Vec<u8>) -> (r: (Arrival, bool))
        requires
            old(self).recv_wf(),
            offset + data@.len() <= u64::MAX,
            old(self).recv.buffered_in + old(self).recv.recv_buffered + data@.len() <= u64::MAX,
        ensures
            final(self).recv_wf(),
            old(self).delivers_to(*final(self), path_id, offset, data@, r),
    {
        if self.life.reset {
            return (Arrival::Ignored, false);
        }
        let len: u64 = data.len() as u64;
        let close_off: u64 = self.recv.recv_close_off;
        if self.recv.recv_fin || (close_off != NO_CLOSE && offset >= close_off) {
            self.counters.dup_rx_bytes = self.counters.dup_rx_bytes.saturating_add(len);
            return (Arrival::AfterFin, false);
        }
        self.recv.last_recv_path = path_id;
        let first: bool = !self.recv.peer_seen;
        self.recv.peer_seen = true;
        if offset < self.counters.recv_next {
            self.counters.dup_rx_bytes = self.counters.dup_rx_bytes.saturating_add(len);
            return (Arrival::Duplicate, first);
        }
        let ghost before = self.held();
        let ghost bytes = data@;
        let replaced: Option<Vec<u8>> = self.recv_buf.insert(offset, data);
        proof {
            lemma_sum_insert(before, piece_len(), offset, bytes);
            assert(self.held() =~= before.insert(offset, bytes));
            assert(before.insert(offset, bytes).dom() =~= before.dom().insert(offset));
        }
        match replaced {
            Some(prev) => {
                let old_len: u64 = prev.len() as u64;
                proof {
                    assert(before[offset] == prev@);
                    lemma_piece_in_sum(before, offset);
                }
                self.counters.dup_rx_bytes = self.counters.dup_rx_bytes.saturating_add(old_len);
                self.recv.recv_buffered = self.recv.recv_buffered.saturating_sub(old_len) + len;
                (Arrival::Replaced, first)
            },
            None => {
                self.recv.recv_buffered = self.recv.recv_buffered + len;
                if offset > self.counters.recv_next {
                    self.recv.last_hole_arrival = offset;
                }
                (Arrival::Buffered, first)
            },
        }
    }

    /// The application read `n` bytes.
    pub fn note_app_read(&mut self, n: u64)
        requires
            old(self).recv_wf(),
        ensures
            final(self).recv_wf(),
            *final(self) == old(self).after_read(n),
    {
        self.recv.buffered_in = self.recv.buffered_in.saturating_sub(n);
    }

    pub open spec fn after_read(self, n: u64) -> Self {
        StreamState {
            recv: RecvState {
                buffered_in: above(self.recv.buffered_in as int, n as int) as u64,
                ..self.recv
            },
            ..self
        }
    }

    /// The sender's final offset, once; a Close without one ends the stream
    /// where it stands.
    pub fn on_peer_close(&mut self, final_offset: Option<u64>, now_ms: u64)
        ensures
            final(self).recv == (RecvState {
                recv_close_off: close_off_after(
                    old(self).recv.recv_close_off,
                    final_offset,
                    old(self).counters.recv_next,
                ),
                ..old(self).recv
            }),
            final(self).life == (crate::stream::Lifecycle {
                close_started_ms: crate::stream::close_stamp(
                    old(self).life.close_started_ms,
                    now_ms,
                ),
                ..old(self).life
            }),
            final(self).id == old(self).id,
            final(self).initial_window == old(self).initial_window,
            final(self).counters == old(self).counters,
            final(self).send == old(self).send,
            final(self).paths_used == old(self).paths_used,
            final(self).unacked == old(self).unacked,
            final(self).recv_buf == old(self).recv_buf,
    {
        self.note_close_started(now_ms);
        let off: u64 = match final_offset {
            Some(o) => o,
            None => self.counters.recv_next,
        };
        if self.recv.recv_close_off == NO_CLOSE {
            self.recv.recv_close_off = off;
        }
    }

    /// Everything up to the sender's final offset was handed over, and the
    /// end was not yet announced.
    pub open spec fn fin_due(self) -> bool {
        &&& self.recv.recv_close_off != NO_CLOSE
        &&& !self.recv.recv_fin
        &&& self.counters.recv_next >= self.recv.recv_close_off
    }

    /// Announce the end of the receive side where it is due.
    pub fn try_finish_recv_close(&mut self) -> (finished: bool)
        ensures
            finished == old(self).fin_due(),
            final(self).recv == (RecvState {
                recv_fin: old(self).recv.recv_fin || finished,
                ..old(self).recv
            }),
            final(self).counters == old(self).counters,
            final(self).recv_buf == old(self).recv_buf,
            final(self).same_but_recv(*old(self)),
    {
        let off: u64 = self.recv.recv_close_off;
        if off == NO_CLOSE || self.recv.recv_fin {
            return false;
        }
        if self.counters.recv_next < off {
            return false;
        }
        self.recv.recv_fin = true;
        true
    }
}

/// The first Close that names an offset fixes it.
pub open spec fn close_off_after(cur: u64, final_offset: Option<u64>, recv_next: u64) -> u64 {
    if cur != NO_CLOSE {
        cur
    } else {
        match final_offset {
            Some(o) => o,
            None => recv_next,
        }
    }
}

// ---------------------------------------------------------------------------
// Hand-over
// ---------------------------------------------------------------------------
/// What a drain handed over and what the window controller did.
pub struct Drained {
    pub chunks: Vec<Vec<u8>>,
    pub event: ProbeEvent,
}

impl StreamState {
    /// Offset reached once `free` slots were filled.
    pub open spec fn next_after(self, free: nat) -> u64 {
        run_end(self.held(), self.counters.recv_next, free)
    }

    /// Bytes handed over into `free` slots.
    pub open spec fn drain_bytes(self, free: nat) -> int {
        self.next_after(free) - self.counters.recv_next
    }

    /// The receive side with the in-order run handed over and the hole
    /// looked at again.
    pub open spec fn handed_recv(self, free: nat, now: u64) -> RecvState {
        let m = run_rest(self.held(), self.counters.recv_next, free);
        let n = run(self.held(), self.counters.recv_next, free).len();
        hole_tracked(
            taken(self.recv, self.drain_bytes(free), n > 0, now / 1000),
            m,
            self.next_after(free),
            n == free && m.contains_key(self.next_after(free)),
            now,
        )
    }

    /// The counters with the in-order run handed over and the hole looked at
    /// again.
    pub open spec fn handed_counters(self, free: nat, now: u64) -> StreamCounters {
        let m = run_rest(self.held(), self.counters.recv_next, free);
        let r = taken(
            self.recv,
            self.drain_bytes(free),
            run(self.held(), self.counters.recv_next, free).len() > 0,
            now / 1000,
        );
        let next = self.next_after(free);
        evidence_noted(
            StreamCounters { recv_next: next, ..self.counters },
            r,
            m,
            r.recv_buffered - in_order(m, next),
            (r.buffered_in + in_order(m, next)) as int,
            now,
        )
    }

    /// `n` is what this stream becomes, and `out` what comes out, when it is
    /// drained into `free` slots.
    pub open spec fn drains_to(
        self,
        n: Self,
        out: Drained,
        free: nat,
        rtt: Option<u64>,
        cfg: SessionConfig,
        now: u64,
    ) -> bool {
        let bytes = self.drain_bytes(free) as u64;
        let min_dt = match rtt {
            Some(d) => d,
            None => cfg.tuning.maintain_interval,
        };
        let r = self.handed_recv(free, now);
        let c = self.handed_counters(free, now);
        let sampled = closes_sample(r, bytes, min_dt, now);
        let r2 = delivered(r, bytes, min_dt, now);
        &&& n.same_but_recv(self)
        &&& chunks(out.chunks@) == run(self.held(), self.counters.recv_next, free)
        &&& n.held() == run_rest(self.held(), self.counters.recv_next, free)
        &&& if bytes == 0 {
            &&& n.recv == r
            &&& n.counters == c
            &&& out.event is Quiet
        } else {
            &&& n.recv == tuned_recv(self.initial_window, c, r2, sampled, rtt, cfg, now)
            &&& n.counters == tuned_counters(self.initial_window, c, r2, sampled, rtt, cfg, now)
            &&& out.event == tune(
                self.initial_window,
                c,
                r2,
                sampled,
                rtt,
                cfg.tuning.chan,
                cfg.tuning.unknown_rtt_us,
                now,
            ).event
        }
    }

    /// Hand in-order chunks to the application, which has `free` slots; then
    /// look at the hole, the delivery rate and the window. `rtt` is the loop
    /// this stream's DATA rides, where one is known.
    pub fn drain_recv(
        &mut self,
        free: usize,
        rtt: Option<u64>,
        cfg: &SessionConfig,
        now: u64,
    ) -> (out: Drained)
        requires
            old(self).recv_wf(),
            cfg.wf(),
        ensures
            final(self).recv_wf(),
            old(self).drains_to(*final(self), out, free as nat, rtt, *cfg, now),
    {
        let before: u64 = self.counters.recv_next;
        let taken_chunks: Vec<Vec<u8>> = self.take_in_order(free, now / 1000);
        let reached: u64 = self.counters.recv_next;
        let full: bool = taken_chunks.len() == free && self.recv_buf.contains_key(&reached);
        proof {
            assert(chunks(taken_chunks@).len() == taken_chunks@.len());
        }
        self.track_hole(full, now);
        let bytes: u64 = reached - before;
        let mut event: ProbeEvent = ProbeEvent::Quiet;
        if bytes > 0 {
            let min_dt: u64 = match rtt {
                Some(d) => d,
                None => cfg.tuning.maintain_interval,
            };
            let sampled: bool = self.note_deliver(bytes, min_dt, now);
            event = self.tune_recv_cap_sampled(sampled, rtt, cfg, now);
        }
        Drained { chunks: taken_chunks, event }
    }
}

// ---------------------------------------------------------------------------
// One arrival from end to end
// ---------------------------------------------------------------------------
/// In-order chunks for the application, and what is owed with them.
pub struct Handed {
    pub chunks: Vec<Vec<u8>>,
    pub event: ProbeEvent,
    pub ack: StreamAck,
    /// The receive side ended here.
    pub fin: bool,
}

/// What one STREAM_DATA brought about.
pub struct Absorbed {
    pub arrival: Arrival,
    /// First DATA of the peer: the StreamOpen needs no repeat.
    pub forget_open: bool,
    /// Nothing for a reset stream.
    pub handed: Option<Handed>,
}

impl Absorbed {
    /// The receive side ended with this piece.
    pub open spec fn fin(self) -> bool {
        match self.handed {
            Some(h) => h.fin,
            None => false,
        }
    }

    /// What the window controller did.
    pub open spec fn event(self) -> ProbeEvent {
        match self.handed {
            Some(h) => h.event,
            None => ProbeEvent::Quiet,
        }
    }

    /// Chunks for the application.
    pub open spec fn bytes(self) -> Seq<Seq<u8>> {
        match self.handed {
            Some(h) => chunks(h.chunks@),
            None => seq![],
        }
    }
}

/// How far from an advertised edge an arrival still counts as on it: one
/// payload, or an eighth of what the loop carries.
pub open spec fn edge_tolerance_of(max_payload: nat, rate: u64, rtt: Option<u64>) -> int {
    match rtt {
        Some(d) => larger(
            max_payload as int,
            capped(quotient(in_flight(rate as int, d as int), whole(8)).floor()),
        ),
        None => max_payload as int,
    }
}

impl StreamState {
    pub fn edge_tolerance(&self, rtt: Option<u64>, cfg: &SessionConfig) -> (r: u64)
        ensures
            r == edge_tolerance_of(
                cfg.max_stream_payload as nat,
                self.recv.deliver_rate_ewma,
                rtt,
            ),
    {
        let base: u64 = cfg.max_stream_payload as u64;
        let rate: u64 = self.recv.deliver_rate_ewma;
        match rtt {
            Some(d) => {
                let share: u64 = loop_carries(rate, d).over(whole_double(8)).floor_capped();
                max_u64(base, share)
            },
            None => base,
        }
    }

    /// This stream with one more arrival on an advertised edge.
    pub open spec fn edge_noted(self, n: Self, hit: bool) -> bool {
        &&& n.recv == (RecvState {
            edge_hits: if hit {
                capped(self.recv.edge_hits + 1) as u64
            } else {
                self.recv.edge_hits
            },
            ..self.recv
        })
        &&& n.counters == self.counters
        &&& n.recv_buf == self.recv_buf
        &&& n.same_but_recv(self)
    }

    /// `n` is this stream once it was drained: hit noted, chunks handed over,
    /// the rest acknowledged, the end announced where it is due.
    pub open spec fn drains_and_acks(
        self,
        n: Self,
        out: Handed,
        hit: bool,
        free: nat,
        rtt: Option<u64>,
        cfg: SessionConfig,
        now: u64,
    ) -> bool {
        exists|a: Self, b: Self, c: Self|
            #![trigger self.edge_noted(a, hit), b.acks_to(c, out.ack, cfg.max_sack_ranges as nat)]
            {
                &&& self.edge_noted(a, hit)
                &&& a.drains_to(
                    b,
                    (Drained { chunks: out.chunks, event: out.event }),
                    free,
                    rtt,
                    cfg,
                    now,
                )
                &&& b.acks_to(c, out.ack, cfg.max_sack_ranges as nat)
                &&& out.fin == c.fin_due()
                &&& n.recv == (RecvState {
                    recv_fin: c.recv.recv_fin || out.fin,
                    ..dirty(c.recv, now)
                })
                &&& n.counters == c.counters
                &&& n.recv_buf == c.recv_buf
                &&& n.same_but_recv(c)
            }
    }

    /// `n` is this stream once a duplicate was acknowledged.
    pub open spec fn only_acks(self, n: Self, out: Handed, cfg: SessionConfig, now: u64) -> bool {
        &&& out.chunks@.len() == 0
        &&& out.event is Quiet
        &&& !out.fin
        &&& exists|c: Self| #[trigger]
            self.acks_to(c, out.ack, cfg.max_sack_ranges as nat) && n.recv == dirty(c.recv, now)
                && n.counters == c.counters && n.recv_buf == c.recv_buf && n.same_but_recv(c)
    }

    /// `n` is this stream, and `out` what comes of it, once a piece of the
    /// peer's stream arrived on `path_id`.
    pub open spec fn absorbs(
        self,
        n: Self,
        out: Absorbed,
        path_id: u32,
        offset: u64,
        data: Seq<u8>,
        hit: bool,
        free: nat,
        rtt: Option<u64>,
        cfg: SessionConfig,
        now: u64,
    ) -> bool {
        exists|s1: Self| #[trigger]
            self.delivers_to(s1, path_id, offset, data, (out.arrival, out.forget_open))
                && s1.follows_up(n, out, hit, free, rtt, cfg, now)
    }

    /// What follows the arrival: nothing on a reset stream, a drain after a
    /// first arrival, an ACK after a duplicate.
    pub open spec fn follows_up(
        self,
        n: Self,
        out: Absorbed,
        hit: bool,
        free: nat,
        rtt: Option<u64>,
        cfg: SessionConfig,
        now: u64,
    ) -> bool {
        match out.handed {
            None => out.arrival is Ignored && n == self,
            Some(h) => {
                &&& !(out.arrival is Ignored)
                &&& if out.arrival is Buffered {
                    self.drains_and_acks(n, h, hit, free, rtt, cfg, now)
                } else {
                    self.only_acks(n, h, cfg, now)
                }
            },
        }
    }

    /// Hand over what is in order, acknowledge the rest, and announce the end
    /// where it is due.
    pub fn drain_and_ack(
        &mut self,
        hit: bool,
        free: usize,
        rtt: Option<u64>,
        cfg: &SessionConfig,
        now: u64,
    ) -> (out: Handed)
        requires
            old(self).recv_wf(),
            cfg.wf(),
        ensures
            final(self).recv_wf(),
            old(self).drains_and_acks(*final(self), out, hit, free as nat, rtt, *cfg, now),
    {
        let ghost s1 = *self;
        if hit {
            self.recv.edge_hits = self.recv.edge_hits.saturating_add(1);
        }
        let ghost a = *self;
        assert(s1.edge_noted(a, hit));
        let drained: Drained = self.drain_recv(free, rtt, cfg, now);
        let ghost b = *self;
        let ack: StreamAck = self.make_ack(cfg.max_sack_ranges);
        let ghost c = *self;
        self.mark_ack_dirty(now);
        let fin: bool = self.try_finish_recv_close();
        let out: Handed = Handed { chunks: drained.chunks, event: drained.event, ack, fin };
        assert(b.acks_to(c, out.ack, cfg.max_sack_ranges as nat));
        out
    }

    /// Take one STREAM_DATA: buffer it, hand over what is in order, and make
    /// the acknowledgement. `hit` says that the piece ended on an edge this
    /// side advertised; `rtt` is the loop the stream rides once the piece's
    /// path counts as its last arrival.
    pub fn absorb_data(
        &mut self,
        path_id: u32,
        offset: u64,
        data: Vec<u8>,
        hit: bool,
        free: usize,
        rtt: Option<u64>,
        cfg: &SessionConfig,
        now: u64,
    ) -> (out: Absorbed)
        requires
            old(self).recv_wf(),
            cfg.wf(),
            offset + data@.len() <= u64::MAX,
            old(self).recv.buffered_in + old(self).recv.recv_buffered + data@.len() <= u64::MAX,
        ensures
            final(self).recv_wf(),
            old(self).absorbs(
                *final(self),
                out,
                path_id,
                offset,
                data@,
                hit,
                free as nat,
                rtt,
                *cfg,
                now,
            ),
    {
        let ghost s0 = *self;
        let ghost bytes = data@;
        let (arrival, forget_open) = self.deliver_data(path_id, offset, data);
        let ghost s1 = *self;
        assert(s0.delivers_to(s1, path_id, offset, bytes, (arrival, forget_open)));
        match arrival {
            Arrival::Ignored => Absorbed { arrival, forget_open, handed: None },
            Arrival::Buffered => {
                let h: Handed = self.drain_and_ack(hit, free, rtt, cfg, now);
                let out: Absorbed = Absorbed { arrival, forget_open, handed: Some(h) };
                assert(s1.follows_up(*self, out, hit, free as nat, rtt, *cfg, now));
                out
            },
            _ => {
                let ack: StreamAck = self.make_ack(cfg.max_sack_ranges);
                let ghost c = *self;
                self.mark_ack_dirty(now);
                let h: Handed = Handed {
                    chunks: Vec::new(),
                    event: ProbeEvent::Quiet,
                    ack,
                    fin: false,
                };
                assert(s1.acks_to(c, h.ack, cfg.max_sack_ranges as nat));
                let out: Absorbed = Absorbed { arrival, forget_open, handed: Some(h) };
                assert(s1.follows_up(*self, out, hit, free as nat, rtt, *cfg, now));
                out
            },
        }
    }
}

// ---------------------------------------------------------------------------
// Laws
// ---------------------------------------------------------------------------
/// Every piece held is the part of the stream `s` that its offset names.
pub open spec fn faithful(m: Map<u64, Seq<u8>>, s: Seq<u8>) -> bool {
    forall|k: u64| #[trigger]
        m.contains_key(k) ==> k + m[k].len() <= s.len() && m[k] == s.subrange(
            k as int,
            k + m[k].len(),
        )
}

/// What the application is handed is the sender's stream: where every held
/// piece belongs to the stream `s`, the chunks of a drain, joined, are exactly
/// the bytes of `s` between the old and the new offset, and what stays
/// buffered still belongs to `s`.
pub proof fn law_delivery_is_the_stream(m: Map<u64, Seq<u8>>, s: Seq<u8>, next: u64, n: nat)
    requires
        faithful(m, s),
        next <= s.len() <= u64::MAX,
    ensures
        next <= run_end(m, next, n) <= s.len(),
        run(m, next, n).flatten() == s.subrange(next as int, run_end(m, next, n) as int),
        faithful(run_rest(m, next, n), s),
    decreases n,
{
    if n > 0 && m.contains_key(next) {
        let end = (next + m[next].len()) as u64;
        let tail = run(m.remove(next), end, (n - 1) as nat);
        assert(faithful(m.remove(next), s));
        law_delivery_is_the_stream(m.remove(next), s, end, (n - 1) as nat);
        let all = run(m, next, n);
        assert(all.drop_first() =~= tail);
        assert(all.first() == m[next]);
        assert(all.flatten() == m[next] + tail.flatten());
        assert(s.subrange(next as int, run_end(m, next, n) as int) =~= m[next] + tail.flatten());
    } else {
        assert(run(m, next, n) =~= seq![]);
        assert(s.subrange(next as int, next as int) =~= seq![]);
    }
}

/// A piece of the stream, however it arrives, leaves the buffer a part of the
/// stream.
pub proof fn law_arrival_keeps_the_stream(
    m: Map<u64, Seq<u8>>,
    s: Seq<u8>,
    offset: u64,
    data: Seq<u8>,
)
    requires
        faithful(m, s),
        offset + data.len() <= s.len(),
        data == s.subrange(offset as int, offset + data.len()),
    ensures
        faithful(m.insert(offset, data), s),
{
}

/// Every byte that a SACK range names is held, and an ACK names at most
/// `max` ranges (one where `max` is zero).
pub proof fn law_sack_is_held(
    m: Map<u64, Seq<u8>>,
    keys: Seq<u64>,
    newest: u64,
    max: nat,
    i: int,
    x: u64,
)
    requires
        ends_fit(m),
        lists_keys(keys, m),
        0 <= i < sack_of(m, keys, newest, max).len(),
        sack_of(m, keys, newest, max)[i].0 <= x < sack_of(m, keys, newest, max)[i].1,
    ensures
        exists|k: u64| #[trigger] m.contains_key(k) && k <= x < k + m[k].len(),
        sack_of(m, keys, newest, max).len() <= larger(max as int, 1),
{
    let rs = runs(keys, m);
    let head = match first_covering(rs, newest, 0) {
        Some(i) => seq![rs[i]],
        None => seq![],
    };
    lemma_first_covering(rs, newest, 0);
    lemma_highest_added(head, rs, rs.len() as int, max);
    let r = sack_of(m, keys, newest, max)[i];
    assert(head.contains(r) || rs.contains(r));
    if head.contains(r) {
        assert(rs.contains(r)) by {
            let j = first_covering(rs, newest, 0)->0;
            assert(head[0] == rs[j]);
            assert(r == head[0]);
        }
    }
    let j = choose|j: int| 0 <= j < rs.len() && rs[j] == r;
    assert forall|q: int| 0 <= q < keys.len() implies m.contains_key(#[trigger] keys[q]) by {
        assert(keys.contains(keys[q]));
    }
    lemma_runs_held(keys, m, j, x);
}

proof fn lemma_first_covering(rs: Seq<(u64, u64)>, x: u64, i: int)
    requires
        0 <= i,
    ensures
        match first_covering(rs, x, i) {
            Some(j) => i <= j < rs.len() && rs[j].0 <= x < rs[j].1,
            None => true,
        },
    decreases rs.len() - i,
{
    if i < rs.len() && !(rs[i].0 <= x < rs[i].1) {
        lemma_first_covering(rs, x, i + 1);
    }
}

proof fn lemma_highest_added(out: Seq<(u64, u64)>, rs: Seq<(u64, u64)>, n: int, max: nat)
    requires
        n <= rs.len(),
    ensures
        forall|r: (u64, u64)| #[trigger]
            highest_added(out, rs, n, max).contains(r) ==> out.contains(r) || rs.contains(r),
        highest_added(out, rs, n, max).len() <= larger(max as int, out.len() as int),
        forall|i: int|
            0 <= i < highest_added(out, rs, n, max).len() ==> out.contains(
                #[trigger] highest_added(out, rs, n, max)[i],
            ) || rs.contains(highest_added(out, rs, n, max)[i]),
    decreases n,
{
    let all = highest_added(out, rs, n, max);
    if !(n <= 0 || out.len() >= max) {
        if out.contains(rs[n - 1]) {
            lemma_highest_added(out, rs, n - 1, max);
        } else {
            let more = out.push(rs[n - 1]);
            lemma_highest_added(more, rs, n - 1, max);
            assert forall|r: (u64, u64)| #[trigger] all.contains(r) implies out.contains(r)
                || rs.contains(r) by {
                if more.contains(r) {
                    let j = choose|j: int| 0 <= j < more.len() && more[j] == r;
                    if j < out.len() {
                        assert(out[j] == r);
                    } else {
                        assert(rs[n - 1] == r);
                    }
                }
            }
        }
    }
    assert forall|i: int| 0 <= i < all.len() implies out.contains(#[trigger] all[i])
        || rs.contains(all[i]) by {
        assert(all.contains(all[i]));
    }
}

proof fn lemma_runs_held(keys: Seq<u64>, m: Map<u64, Seq<u8>>, j: int, x: u64)
    requires
        ends_fit(m),
        forall|i: int| 0 <= i < keys.len() ==> m.contains_key(#[trigger] keys[i]),
        0 <= j < runs(keys, m).len(),
        runs(keys, m)[j].0 <= x < runs(keys, m)[j].1,
    ensures
        exists|k: u64| #[trigger] m.contains_key(k) && k <= x < k + m[k].len(),
    decreases keys.len(),
{
    let front = keys.drop_last();
    let r = runs(front, m);
    let off = keys.last();
    assert(m.contains_key(keys[keys.len() - 1]));
    let end = (off + m[off].len()) as u64;
    if r.len() > 0 && r.last().1 == off {
        if j < r.len() - 1 {
            lemma_runs_held(front, m, j, x);
        } else if x < off {
            lemma_runs_held(front, m, j, x);
        } else {
            assert(m.contains_key(off));
        }
    } else if j < r.len() {
        lemma_runs_held(front, m, j, x);
    } else {
        assert(m.contains_key(off));
    }
}

/// The end is announced only once every byte before the sender's final
/// offset was handed over, and never twice.
pub proof fn law_fin_waits_for_every_byte(st: StreamState)
    requires
        st.fin_due(),
    ensures
        st.counters.recv_next >= st.recv.recv_close_off,
        !st.recv.recv_fin,
{
}

/// A piece at or past a known final offset, and any piece after the end was
/// announced, changes nothing but the duplicate count.
pub proof fn law_after_fin_only_acks(st: StreamState, path_id: u32, offset: u64, len: nat)
    requires
        !st.life.reset,
        st.recv.recv_fin || (st.recv.recv_close_off != NO_CLOSE && offset
            >= st.recv.recv_close_off),
    ensures
        st.arrival(offset) is AfterFin,
        st.arrived(path_id, offset, len) == st.recv,
        st.duplicate_bytes(offset, len) == len,
{
}

/// A drain hands over exactly the bytes of the stream that come next.
pub proof fn law_drained_bytes_are_the_stream(
    st: StreamState,
    n: StreamState,
    out: Handed,
    s: Seq<u8>,
    hit: bool,
    free: nat,
    rtt: Option<u64>,
    cfg: SessionConfig,
    now: u64,
)
    requires
        st.drains_and_acks(n, out, hit, free, rtt, cfg, now),
        faithful(st.held(), s),
        st.counters.recv_next <= s.len() <= u64::MAX,
    ensures
        st.counters.recv_next <= n.counters.recv_next <= s.len(),
        chunks(out.chunks@).flatten() == s.subrange(
            st.counters.recv_next as int,
            n.counters.recv_next as int,
        ),
        faithful(n.held(), s),
{
    let (a, b, c) = choose|a: StreamState, b: StreamState, c: StreamState|
        #![trigger st.edge_noted(a, hit), b.acks_to(c, out.ack, cfg.max_sack_ranges as nat)]
        {
            &&& st.edge_noted(a, hit)
            &&& a.drains_to(
                b,
                (Drained { chunks: out.chunks, event: out.event }),
                free,
                rtt,
                cfg,
                now,
            )
            &&& b.acks_to(c, out.ack, cfg.max_sack_ranges as nat)
            &&& out.fin == c.fin_due()
            &&& n.recv == (RecvState {
                recv_fin: c.recv.recv_fin || out.fin,
                ..dirty(c.recv, now)
            })
            &&& n.counters == c.counters
            &&& n.recv_buf == c.recv_buf
            &&& n.same_but_recv(c)
        };
    law_delivery_is_the_stream(a.held(), s, a.counters.recv_next, free);
}

/// From end to end: a receiver that holds only bytes of the stream `s`, given
/// a piece of `s`, hands the application exactly the bytes of `s` between its
/// old and its new offset, and still holds only bytes of `s`.
pub proof fn law_absorbed_bytes_are_the_stream(
    st: StreamState,
    n: StreamState,
    out: Absorbed,
    s: Seq<u8>,
    path_id: u32,
    offset: u64,
    data: Seq<u8>,
    hit: bool,
    free: nat,
    rtt: Option<u64>,
    cfg: SessionConfig,
    now: u64,
)
    requires
        st.absorbs(n, out, path_id, offset, data, hit, free, rtt, cfg, now),
        faithful(st.held(), s),
        st.counters.recv_next <= s.len() <= u64::MAX,
        offset + data.len() <= s.len(),
        data == s.subrange(offset as int, offset + data.len()),
    ensures
        st.counters.recv_next <= n.counters.recv_next <= s.len(),
        out.bytes().flatten() == s.subrange(
            st.counters.recv_next as int,
            n.counters.recv_next as int,
        ),
        faithful(n.held(), s),
{
    let s1 = choose|s1: StreamState| #[trigger]
        st.delivers_to(s1, path_id, offset, data, (out.arrival, out.forget_open))
            && s1.follows_up(n, out, hit, free, rtt, cfg, now);
    law_arrival_keeps_the_stream(st.held(), s, offset, data);
    assert(faithful(s1.held(), s));
    if out.handed is Some && out.arrival is Buffered {
        law_drained_bytes_are_the_stream(s1, n, out.handed->0, s, hit, free, rtt, cfg, now);
    } else {
        assert(out.bytes() =~= seq![]);
        assert(s.subrange(st.counters.recv_next as int, st.counters.recv_next as int) =~= seq![]);
    }
}

/// A stream that received nothing is well-formed.
pub proof fn lemma_fresh_recv_wf(st: StreamState)
    requires
        st.recv == crate::stream::fresh_recv(),
        st.recv_buf@ == Map::<u64, Vec<u8>>::empty(),
    ensures
        st.recv_wf(),
{
    assert(st.held() =~= Map::<u64, Seq<u8>>::empty());
    assert(st.held().dom() =~= Set::<u64>::empty());
}

// ---------------------------------------------------------------------------
// A whole transfer
// ---------------------------------------------------------------------------
/// Something that happens to a receiving stream.
pub enum RecvEvent {
    /// A piece arrived.
    Piece {
        path_id: u32,
        offset: u64,
        data: Seq<u8>,
        hit: bool,
        free: nat,
        rtt: Option<u64>,
        now: u64,
        out: Absorbed,
    },
    /// The application read some bytes.
    Read { len: u64, hit: bool, free: nat, rtt: Option<u64>, now: u64, out: Handed },
}

/// What happened, and the stream afterwards.
pub struct Moment {
    pub event: RecvEvent,
    pub after: StreamState,
}

/// What an event hands to the application.
pub open spec fn event_bytes(e: RecvEvent) -> Seq<u8> {
    match e {
        RecvEvent::Piece { out, .. } => out.bytes().flatten(),
        RecvEvent::Read { out, .. } => chunks(out.chunks@).flatten(),
    }
}

/// `e` turns `st` into `n`; a piece that arrives is a piece of `s`.
pub open spec fn happens(
    st: StreamState,
    e: RecvEvent,
    n: StreamState,
    s: Seq<u8>,
    cfg: SessionConfig,
) -> bool {
    match e {
        RecvEvent::Piece { path_id, offset, data, hit, free, rtt, now, out } => {
            &&& offset + data.len() <= s.len()
            &&& data == s.subrange(offset as int, offset + data.len())
            &&& st.absorbs(n, out, path_id, offset, data, hit, free, rtt, cfg, now)
        },
        RecvEvent::Read { len, hit, free, rtt, now, out } => st.after_read(len).drains_and_acks(
            n,
            out,
            hit,
            free,
            rtt,
            cfg,
            now,
        ),
    }
}

/// The stream after these moments.
pub open spec fn state_after(st: StreamState, h: Seq<Moment>) -> StreamState {
    if h.len() == 0 {
        st
    } else {
        h.last().after
    }
}

/// `h` is a history of `st` on which only pieces of `s` arrive: in any order,
/// on any path, as often as they like.
pub open spec fn history(st: StreamState, h: Seq<Moment>, s: Seq<u8>, cfg: SessionConfig) -> bool
    decreases h.len(),
{
    h.len() == 0 || {
        &&& history(st, h.drop_last(), s, cfg)
        &&& happens(state_after(st, h.drop_last()), h.last().event, h.last().after, s, cfg)
    }
}

/// Everything that was handed to the application, in order.
pub open spec fn handed_bytes(h: Seq<Moment>) -> Seq<u8>
    decreases h.len(),
{
    if h.len() == 0 {
        seq![]
    } else {
        handed_bytes(h.drop_last()) + event_bytes(h.last().event)
    }
}

/// Whatever becomes of the pieces of a stream on their way, the application
/// is handed a beginning of it: every byte once, in order, none made up. What
/// it has is what the stream counts as received.
pub proof fn law_the_application_gets_the_stream(
    st: StreamState,
    h: Seq<Moment>,
    s: Seq<u8>,
    cfg: SessionConfig,
)
    requires
        st.counters.recv_next == 0,
        st.recv_buf@ == Map::<u64, Vec<u8>>::empty(),
        s.len() <= u64::MAX,
        history(st, h, s, cfg),
    ensures
        state_after(st, h).counters.recv_next <= s.len(),
        handed_bytes(h) == s.take(state_after(st, h).counters.recv_next as int),
        faithful(state_after(st, h).held(), s),
    decreases h.len(),
{
    if h.len() == 0 {
        assert(st.held() =~= Map::<u64, Seq<u8>>::empty());
        assert(s.take(0) =~= seq![]);
    } else {
        let before = h.drop_last();
        law_the_application_gets_the_stream(st, before, s, cfg);
        let a = state_after(st, before);
        let n = h.last().after;
        match h.last().event {
            RecvEvent::Piece { path_id, offset, data, hit, free, rtt, now, out } => {
                law_absorbed_bytes_are_the_stream(
                    a,
                    n,
                    out,
                    s,
                    path_id,
                    offset,
                    data,
                    hit,
                    free,
                    rtt,
                    cfg,
                    now,
                );
            },
            RecvEvent::Read { len, hit, free, rtt, now, out } => {
                let r = a.after_read(len);
                assert(r.held() == a.held());
                law_drained_bytes_are_the_stream(r, n, out, s, hit, free, rtt, cfg, now);
            },
        }
        assert(s.take(a.counters.recv_next as int) + s.subrange(
            a.counters.recv_next as int,
            n.counters.recv_next as int,
        ) =~= s.take(n.counters.recv_next as int));
    }
}

/// What is in order is handed out as far as there are slots: either every slot
/// is used, or the next piece is not there. As many bytes leave the buffer as
/// the stream advances, and the rest stays.
pub proof fn law_what_is_in_order_is_handed_out(m: Map<u64, Seq<u8>>, next: u64, n: nat)
    requires
        ends_fit(m),
    ensures
        run(m, next, n).len() <= n,
        run(m, next, n).len() < n ==> !run_rest(m, next, n).contains_key(run_end(m, next, n)),
        n > 0 && m.contains_key(next) ==> run(m, next, n).len() > 0 && run(m, next, n)[0] == m[next],
        run(m, next, n).flatten().len() == run_end(m, next, n) - next,
        forall|k: u64| #[trigger]
            run_rest(m, next, n).contains_key(k) ==> m.contains_key(k) && run_rest(m, next, n)[k]
                == m[k],
        run(m, next, n).len() == 0 ==> run_rest(m, next, n) == m && run_end(m, next, n) == next,
    decreases n,
{
    if n > 0 && m.contains_key(next) {
        let end = (next + m[next].len()) as u64;
        law_what_is_in_order_is_handed_out(m.remove(next), end, (n - 1) as nat);
        let rest = run(m.remove(next), end, (n - 1) as nat);
        let all = seq![m[next]] + rest;
        assert(all.first() == m[next]);
        assert(all.drop_first() =~= rest);
        assert(all.flatten() == m[next] + rest.flatten());
        assert forall|k: u64| #[trigger] run_rest(m, next, n).contains_key(k) implies m.contains_key(
            k,
        ) && run_rest(m, next, n)[k] == m[k] by {
            assert(run_rest(m.remove(next), end, (n - 1) as nat).contains_key(k));
            assert(m.remove(next).contains_key(k));
        }
    } else {
        assert(run(m, next, n) =~= seq![]);
        assert(Seq::<Seq<u8>>::empty().flatten().len() == 0);
    }
}

/// What an arriving piece is: ignored after a reset, answered after the end,
/// a duplicate below what was handed out, a replacement where one is held at
/// its offset, and new otherwise. Its bytes are accounted for accordingly.
pub proof fn law_what_an_arrival_is(
    o: StreamState,
    n: StreamState,
    path_id: u32,
    offset: u64,
    data: Seq<u8>,
    r: (Arrival, bool),
)
    requires
        o.recv_wf(),
        o.delivers_to(n, path_id, offset, data, r),
        o.counters.dup_rx_bytes + data.len() <= u64::MAX,
        o.recv.recv_buffered + data.len() <= u64::MAX,
    ensures
        ({
            let over = o.recv.recv_fin || o.recv.recv_close_off != u64::MAX && offset
                >= o.recv.recv_close_off;
            let here = o.held().contains_key(offset);
            let live = !o.life.reset && !over;
            &&& r.0 is Ignored <==> o.life.reset
            &&& r.0 is AfterFin <==> !o.life.reset && over
            &&& r.0 is Duplicate <==> live && offset < o.counters.recv_next
            &&& r.0 is Replaced <==> live && offset >= o.counters.recv_next && here
            &&& r.0 is Buffered <==> live && offset >= o.counters.recv_next && !here
            &&& r.0 is Buffered ==> n.recv.recv_buffered == o.recv.recv_buffered + data.len()
                && n.held() == o.held().insert(offset, data) && n.counters.dup_rx_bytes
                == o.counters.dup_rx_bytes
            &&& r.0 is Duplicate || r.0 is AfterFin ==> n.counters.dup_rx_bytes
                == o.counters.dup_rx_bytes + data.len() && n.held() == o.held()
                && n.recv.recv_buffered == o.recv.recv_buffered
            &&& r.0 is Duplicate || r.0 is Replaced || r.0 is Buffered ==> n.recv.last_recv_path
                == path_id && n.recv.peer_seen
            &&& r.0 is Buffered && offset > o.counters.recv_next ==> n.recv.last_hole_arrival
                == offset
            &&& r.0 is Ignored ==> n.recv == o.recv && n.held() == o.held()
            &&& r.1 <==> !o.recv.peer_seen && live
            &&& n.counters.recv_next == o.counters.recv_next
        }),
{
}

/// An ACK names what was handed out and what is left of the window; a window
/// that is shut is laid to the bytes behind a hole where these are no fewer
/// than those the application has not read, else to the application.
pub proof fn law_what_an_ack_says(o: StreamState, n: StreamState, ack: StreamAck, max: nat)
    requires
        o.acks_to(n, ack, max),
        o.counters.zero_win_hole < u64::MAX,
        o.counters.zero_win_app < u64::MAX,
    ensures
        ({
            let held = o.recv.buffered_in + o.recv.recv_buffered;
            let open = held < o.counters.recv_cap;
            let hole = o.hole_bytes() >= o.app_backlog();
            &&& ack.stream_id == o.id
            &&& ack.acked_offset == o.counters.recv_next
            &&& open ==> ack.window + held == o.counters.recv_cap && n.counters == o.counters
            &&& !open ==> ack.window == 0
            &&& !open && hole ==> n.counters.zero_win_hole == o.counters.zero_win_hole + 1
                && n.counters.zero_win_app == o.counters.zero_win_app
            &&& !open && !hole ==> n.counters.zero_win_app == o.counters.zero_win_app + 1
                && n.counters.zero_win_hole == o.counters.zero_win_hole
        }),
{
}

/// The bytes behind a hole and those the application has not read are all that
/// is held.
pub proof fn law_evidence_is_all_that_is_held(st: StreamState)
    ensures
        st.hole_bytes() + st.app_backlog() == st.recv.recv_buffered + st.recv.buffered_in,
        st.app_backlog() >= st.recv.buffered_in,
{
}

/// A hole opens where the next piece is missing while later ones are held, and
/// is the same hole until its offset is filled or passed.
pub proof fn law_a_hole_is_timed_from_its_start(
    h: Option<Hole>,
    m: Map<u64, Seq<u8>>,
    next: u64,
    full: bool,
    now: u64,
)
    ensures
        ({
            let n = hole_after(h, m, next, full, now);
            let missing = !full && !m.contains_key(next) && exists|k: u64| #[trigger]
                m.contains_key(k);
            let stands = h is Some && h->0.off >= next && !m.contains_key(h->0.off);
            &&& stands ==> n == h
            &&& !stands && missing ==> n is Some && n->0.off == next && n->0.since == now
            &&& !stands && !missing ==> n is None
            &&& h is Some && h->0.since < now ==> hole_wait(h, now) == now - h->0.since
        }),
{
    if !m.dom().is_empty() {
        let k = m.dom().choose();
        assert(m.dom().contains(k));
        assert(m.contains_key(k));
    }
    if exists|k: u64| #[trigger] m.contains_key(k) {
        let k = choose|k: u64| #[trigger] m.contains_key(k);
        assert(m.dom().contains(k));
    }
}

/// Averages move an eighth of the way; the first sample is taken as it is.
pub proof fn law_averages_move_by_an_eighth(cur: u64, s: u64)
    ensures
        cur == 0 ==> ewma8(cur as int, s as int) == s,
        cur > 0 ==> 8 * ewma8(cur as int, s as int) <= 7 * cur + s < 8 * (ewma8(
            cur as int,
            s as int,
        ) + 1),
{
}

/// Reading frees as many bytes as were read.
pub proof fn law_reading_frees_what_was_read(st: StreamState, n: u64)
    ensures
        n <= st.recv.buffered_in ==> st.after_read(n).recv.buffered_in + n == st.recv.buffered_in,
        n > st.recv.buffered_in ==> st.after_read(n).recv.buffered_in == 0,
        st.after_read(n).recv.recv_buffered == st.recv.recv_buffered,
        st.after_read(n).counters == st.counters,
{
}

/// The end is known from the first frame that tells it, and due once every
/// byte before it was handed out.
pub proof fn law_the_end_is_told_once(st: StreamState, cur: u64, off: Option<u64>, next: u64)
    ensures
        cur != u64::MAX ==> close_off_after(cur, off, next) == cur,
        cur == u64::MAX && off is Some ==> close_off_after(cur, off, next) == off->0,
        cur == u64::MAX && off is None ==> close_off_after(cur, off, next) == next,
        st.fin_due() <==> !st.recv.recv_fin && st.recv.recv_close_off != u64::MAX
            && st.recv.recv_close_off <= st.counters.recv_next,
{
}

/// An ACK that is owed is owed from when it first was.
pub proof fn law_an_owed_ack_keeps_its_time(r: RecvState, now: u64)
    requires
        now > 0,
    ensures
        dirty(r, now).ack_dirty,
        r.ack_dirty ==> dirty(r, now) == r,
        !r.ack_dirty ==> dirty(r, now).ack_flush_from_us == now,
{
}

/// An arrival is on an edge within one payload of it, or within an eighth of
/// what the loop carries where that is more.
pub proof fn law_edges_reach_an_eighth_of_the_loop(payload: nat, rate: u64, rtt: u64)
    requires
        rate > 0,
        rtt > 0,
        payload <= u64::MAX,
    ensures
        ({
            let t = edge_tolerance_of(payload, rate, Some(rtt));
            &&& t >= payload
            &&& t > payload ==> 0x2_0000_0000_0000 * (t * 8_000_000) <= 0x2_0000_0000_0001 * (rate
                * rtt)
            &&& t < u64::MAX ==> 0x2_0000_0000_0000 * ((t + 1) * 8_000_000) >= 0x1_ffff_ffff_ffff * (
            rate * rtt)
            &&& edge_tolerance_of(payload, rate, None) == payload
        }),
{
    crate::accuracy::lemma_eighth_carried_is_near(rate as int, rtt as int);
}

} // verus!
