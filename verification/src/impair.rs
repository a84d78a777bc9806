//! An impaired link: delay, jitter, loss, blackholes and a bottleneck.
//!
//! Times on the bottleneck are whole nanoseconds.

use vstd::prelude::*;

use crate::chance::draw;
use crate::num::{capped, larger};

verus! {

pub const MILLION: u64 = 1_000_000;

/// How a link starts out. Loss is in parts per million.
#[derive(Clone, Copy, Debug, PartialEq, Eq, Structural)]
pub struct ImpairConfig {
    /// Target round trip; each direction takes half of it.
    pub rtt_us: u64,
    pub jitter_us: u64,
    pub loss_ppm: u64,
    pub blackhole: bool,
}

impl Default for ImpairConfig {
    fn default() -> (c: Self)
        ensures
            c == (ImpairConfig {
                rtt_us: 10_000,
                jitter_us: 0,
                loss_ppm: 0,
                blackhole: false,
            }),
    {
        ImpairConfig { rtt_us: 10_000, jitter_us: 0, loss_ppm: 0, blackhole: false }
    }
}

/// The knobs of one connection; a link can host several.
#[derive(Clone, Copy, Debug, PartialEq, Eq, Structural)]
pub struct ConnCtrl {
    pub blackhole: bool,
    /// Reads from the near side pause, so that its send buffer fills.
    pub stall: bool,
    pub alive: bool,
}

/// What a link counts.
#[derive(Clone, Copy, Debug, PartialEq, Eq, Structural)]
pub struct LinkCounts {
    pub bytes_fwd: u64,
    pub bytes_rev: u64,
    pub conns: u64,
    pub drops: u64,
    pub queue_drops: u64,
}

/// The counts once `n` more bytes came through.
pub open spec fn with_bytes(c: LinkCounts, n: int, fwd: bool) -> LinkCounts {
    if fwd {
        LinkCounts { bytes_fwd: capped(c.bytes_fwd + n) as u64, ..c }
    } else {
        LinkCounts { bytes_rev: capped(c.bytes_rev + n) as u64, ..c }
    }
}

pub struct LinkState {
    pub rtt_us: u64,
    pub jitter_us: u64,
    pub extra_us: u64,
    pub loss_ppm: u64,
    pub blackhole: bool,
    /// The link is being shut down.
    pub drop_all: bool,
    /// Bottleneck rate and queue, per direction. 0 = no limit.
    pub rate_bps: u64,
    pub queue_bytes: u64,
    /// When the bottleneck is free again.
    pub free_fwd_ns: Option<u64>,
    pub free_rev_ns: Option<u64>,
    pub counts: LinkCounts,
    pub conns: Vec<ConnCtrl>,
    /// Connections that were never disconnected as a group.
    pub kills: u64,
}

/// Loss held at certainty.
pub open spec fn ppm_of(p: u64) -> u64 {
    if p > MILLION {
        MILLION
    } else {
        p
    }
}

/// Places of the live connections, in order.
pub open spec fn live_of(conns: Seq<ConnCtrl>) -> Seq<int>
    decreases conns.len(),
{
    if conns.len() == 0 {
        seq![]
    } else {
        let before = live_of(conns.drop_last());
        if conns.last().alive {
            before.push(conns.len() - 1)
        } else {
            before
        }
    }
}

/// The connections with the one at place `idx` among the live ones replaced;
/// unchanged where there is none.
pub open spec fn with_live(conns: Seq<ConnCtrl>, idx: int, f: spec_fn(ConnCtrl) -> ConnCtrl) -> Seq<
    ConnCtrl,
> {
    let live = live_of(conns);
    if 0 <= idx < live.len() {
        conns.update(live[idx], f(conns[live[idx]]))
    } else {
        conns
    }
}

pub(crate) proof fn lemma_live_of(conns: Seq<ConnCtrl>)
    ensures
        live_of(conns).len() <= conns.len(),
        forall|k: int|
            0 <= k < live_of(conns).len() ==> 0 <= #[trigger] live_of(conns)[k] < conns.len(),
    decreases conns.len(),
{
    if conns.len() > 0 {
        lemma_live_of(conns.drop_last());
        let before = live_of(conns.drop_last());
        assert forall|k: int| 0 <= k < live_of(conns).len() implies 0 <= #[trigger] live_of(
            conns,
        )[k] < conns.len() by {
            if k < before.len() {
                assert(live_of(conns)[k] == before[k]);
            }
        }
    }
}

/// The place of live connection `idx`.
fn find_live(conns: &Vec<ConnCtrl>, idx: usize) -> (r: Option<usize>)
    ensures
        match r {
            Some(i) => idx < live_of(conns@).len() && live_of(conns@)[idx as int] == i && i
                < conns@.len(),
            None => idx >= live_of(conns@).len(),
        },
{
    let mut seen: usize = 0;
    let mut i: usize = 0;
    let mut found: Option<usize> = None;
    assert(conns@.take(0) =~= seq![]);
    while i < conns.len()
        invariant
            i <= conns@.len(),
            seen == live_of(conns@.take(i as int)).len(),
            seen <= i,
            match found {
                Some(f) => idx < seen && live_of(conns@.take(i as int))[idx as int] == f && f < i,
                None => idx >= seen,
            },
        decreases conns.len() - i,
    {
        assert(conns@.take(i as int + 1).drop_last() =~= conns@.take(i as int));
        if conns[i].alive {
            if seen == idx {
                found = Some(i);
            }
            seen += 1;
        }
        i += 1;
    }
    assert(conns@.take(conns@.len() as int) =~= conns@);
    found
}

/// Delay of one packet: half the round trip, half the extra delay, and what
/// jitter adds.
pub open spec fn one_way_of(rtt: u64, extra: u64, jitter: u64) -> int {
    capped(capped(rtt as int / 2 + extra as int / 2) + jitter)
}

/// What becomes of a packet that is put on the wire.
#[derive(Clone, Copy, Debug, PartialEq, Eq, Structural)]
pub enum Sent {
    /// A blackhole holds it.
    Held,
    Lost,
    /// The bottleneck queue is full.
    QueueFull,
    /// It arrives then.
    Arrives(u64),
}

/// When the bottleneck gets to a packet.
pub open spec fn start_of(free: Option<u64>, now_ns: u64) -> int {
    match free {
        Some(t) => larger(t as int, now_ns as int),
        None => now_ns as int,
    }
}

/// Bytes still to be serialised before it.
pub open spec fn backlog_of(free: Option<u64>, rate: u64, now_ns: u64) -> int {
    capped((start_of(free, now_ns) - now_ns) * rate) / 8 / 1_000_000_000
}

/// How long `n` bytes take at `rate` bits per second.
pub open spec fn serialise_of(n: u64, rate: u64) -> int {
    capped(capped(n * 8) * 1_000_000_000) / (rate as int)
}

/// When a packet leaves the bottleneck: nothing without a limit, an error
/// where the queue is full.
pub open spec fn depart_of(
    rate: u64,
    queue: u64,
    free: Option<u64>,
    n: u64,
    now_ns: u64,
) -> Result<Option<u64>, ()> {
    if rate == 0 {
        Ok(None)
    } else if queue != 0 && backlog_of(free, rate, now_ns) + n > queue {
        Err(())
    } else {
        Ok(Some(capped(start_of(free, now_ns) + serialise_of(n, rate)) as u64))
    }
}

fn mul_held(a: u64, b: u64) -> (r: u64)
    ensures
        r == capped(a * b),
{
    crate::num::mul_capped(a, b)
}

/// Put a packet through a bottleneck that is free at `free`.
pub fn bottleneck_depart(
    rate: u64,
    queue: u64,
    free: Option<u64>,
    n: u64,
    now_ns: u64,
) -> (r: Result<Option<u64>, ()>)
    ensures
        r == depart_of(rate, queue, free, n, now_ns),
{
    if rate == 0 {
        return Ok(None);
    }
    let start: u64 = match free {
        Some(t) => if t > now_ns {
            t
        } else {
            now_ns
        },
        None => now_ns,
    };
    let backlog: u64 = mul_held(start - now_ns, rate) / 8 / 1_000_000_000;
    if queue != 0 && backlog as u128 + n as u128 > queue as u128 {
        return Err(());
    }
    let ser: u64 = mul_held(mul_held(n, 8), 1_000_000_000) / rate;
    Ok(Some(start.saturating_add(ser)))
}

impl LinkState {
    pub fn new(cfg: &ImpairConfig) -> (l: Self)
        ensures
            l.rtt_us == cfg.rtt_us,
            l.jitter_us == cfg.jitter_us,
            l.extra_us == 0,
            l.loss_ppm == ppm_of(cfg.loss_ppm),
            l.blackhole == cfg.blackhole,
            !l.drop_all,
            l.rate_bps == 0,
            l.queue_bytes == 0,
            l.free_fwd_ns is None,
            l.free_rev_ns is None,
            l.counts == (LinkCounts {
                bytes_fwd: 0,
                bytes_rev: 0,
                conns: 0,
                drops: 0,
                queue_drops: 0,
            }),
            l.conns@.len() == 0,
            l.kills == 0,
    {
        LinkState {
            rtt_us: cfg.rtt_us,
            jitter_us: cfg.jitter_us,
            extra_us: 0,
            loss_ppm: if cfg.loss_ppm > MILLION {
                MILLION
            } else {
                cfg.loss_ppm
            },
            blackhole: cfg.blackhole,
            drop_all: false,
            rate_bps: 0,
            queue_bytes: 0,
            free_fwd_ns: None,
            free_rev_ns: None,
            counts: LinkCounts { bytes_fwd: 0, bytes_rev: 0, conns: 0, drops: 0, queue_drops: 0 },
            conns: Vec::new(),
            kills: 0,
        }
    }

    pub fn set_rtt(&mut self, us: u64)
        ensures
            *final(self) == (LinkState { rtt_us: us, ..*old(self) }),
    {
        self.rtt_us = us;
    }

    pub fn set_jitter(&mut self, us: u64)
        ensures
            *final(self) == (LinkState { jitter_us: us, ..*old(self) }),
    {
        self.jitter_us = us;
    }

    pub fn set_loss(&mut self, ppm: u64)
        ensures
            *final(self) == (LinkState { loss_ppm: ppm_of(ppm), ..*old(self) }),
    {
        self.loss_ppm = if ppm > MILLION {
            MILLION
        } else {
            ppm
        };
    }

    pub fn set_blackhole(&mut self, on: bool)
        ensures
            *final(self) == (LinkState { blackhole: on, ..*old(self) }),
    {
        self.blackhole = on;
    }

    pub fn set_extra(&mut self, us: u64)
        ensures
            *final(self) == (LinkState { extra_us: us, ..*old(self) }),
    {
        self.extra_us = us;
    }

    /// A connection joined; its place is the result.
    pub fn add_conn(&mut self) -> (i: usize)
        ensures
            i == old(self).conns@.len(),
            final(self).conns@ == old(self).conns@.push(
                ConnCtrl { blackhole: false, stall: false, alive: true },
            ),
            *final(self) == (LinkState {
                conns: final(self).conns,
                kills: capped(old(self).kills + 1) as u64,
                counts: LinkCounts {
                    conns: capped(old(self).counts.conns + 1) as u64,
                    ..old(self).counts
                },
                ..*old(self)
            }),
    {
        let i: usize = self.conns.len();
        self.counts.conns = self.counts.conns.saturating_add(1);
        self.kills = self.kills.saturating_add(1);
        self.conns.push(ConnCtrl { blackhole: false, stall: false, alive: true });
        i
    }

    /// A connection is over.
    pub fn end_conn(&mut self, i: usize)
        requires
            i < old(self).conns@.len(),
        ensures
            final(self).conns@ == old(self).conns@.update(
                i as int,
                ConnCtrl { alive: false, ..old(self).conns@[i as int] },
            ),
            *final(self) == (LinkState { conns: final(self).conns, ..*old(self) }),
    {
        let c: &mut ConnCtrl = &mut self.conns[i];
        c.alive = false;
    }

    /// Close every connection; how many were told so, since the last time.
    pub fn disconnect_all(&mut self) -> (n: u64)
        ensures
            n == old(self).kills,
            *final(self) == (LinkState {
                kills: 0,
                counts: LinkCounts {
                    drops: capped(old(self).counts.drops + n) as u64,
                    ..old(self).counts
                },
                ..*old(self)
            }),
    {
        let n: u64 = self.kills;
        self.kills = 0;
        self.counts.drops = self.counts.drops.saturating_add(n);
        n
    }

    pub fn live_conn_count(&self) -> (n: usize)
        ensures
            n == live_of(self.conns@).len(),
    {
        let mut n: usize = 0;
        let mut i: usize = 0;
        assert(self.conns@.take(0) =~= seq![]);
        while i < self.conns.len()
            invariant
                i <= self.conns@.len(),
                n == live_of(self.conns@.take(i as int)).len(),
                n <= i,
            decreases self.conns.len() - i,
        {
            assert(self.conns@.take(i as int + 1).drop_last() =~= self.conns@.take(i as int));
            if self.conns[i].alive {
                n += 1;
            }
            i += 1;
        }
        assert(self.conns@.take(self.conns@.len() as int) =~= self.conns@);
        n
    }

    /// Blackhole one live connection, counted from 0.
    pub fn set_conn_blackhole(&mut self, idx: usize, on: bool)
        ensures
            final(self).conns@ == with_live(
                old(self).conns@,
                idx as int,
                |c: ConnCtrl| ConnCtrl { blackhole: on, ..c },
            ),
            *final(self) == (LinkState { conns: final(self).conns, ..*old(self) }),
    {
        match find_live(&self.conns, idx) {
            Some(i) => {
                let c: &mut ConnCtrl = &mut self.conns[i];
                c.blackhole = on;
            },
            None => {},
        }
    }

    /// Stall the reads of one live connection.
    pub fn set_conn_stall(&mut self, idx: usize, on: bool)
        ensures
            final(self).conns@ == with_live(
                old(self).conns@,
                idx as int,
                |c: ConnCtrl| ConnCtrl { stall: on, ..c },
            ),
            *final(self) == (LinkState { conns: final(self).conns, ..*old(self) }),
    {
        match find_live(&self.conns, idx) {
            Some(i) => {
                let c: &mut ConnCtrl = &mut self.conns[i];
                c.stall = on;
            },
            None => {},
        }
    }

    /// Lift the faults of every connection.
    pub fn clear_conn_faults(&mut self)
        ensures
            final(self).conns@.len() == old(self).conns@.len(),
            forall|i: int|
                0 <= i < old(self).conns@.len() ==> #[trigger] final(self).conns@[i] == (ConnCtrl {
                    blackhole: false,
                    stall: false,
                    ..old(self).conns@[i]
                }),
            *final(self) == (LinkState { conns: final(self).conns, ..*old(self) }),
    {
        let ghost o = *self;
        let mut i: usize = 0;
        while i < self.conns.len()
            invariant
                i <= self.conns@.len(),
                self.conns@.len() == o.conns@.len(),
                forall|k: int|
                    0 <= k < i ==> #[trigger] self.conns@[k] == (ConnCtrl {
                        blackhole: false,
                        stall: false,
                        ..o.conns@[k]
                    }),
                forall|k: int| i <= k < o.conns@.len() ==> #[trigger] self.conns@[k] == o.conns@[k],
                *self == (LinkState { conns: self.conns, ..o }),
            decreases self.conns.len() - i,
        {
            let c: &mut ConnCtrl = &mut self.conns[i];
            c.blackhole = false;
            c.stall = false;
            i += 1;
        }
    }

    /// Close one live connection; its place, where there is one.
    pub fn disconnect_conn(&mut self, idx: usize) -> (r: Option<usize>)
        ensures
            r is Some <==> idx < live_of(old(self).conns@).len(),
            r is Some ==> r->0 == live_of(old(self).conns@)[idx as int],
            final(self).conns@ == with_live(
                old(self).conns@,
                idx as int,
                |c: ConnCtrl| ConnCtrl { alive: false, ..c },
            ),
            *final(self) == (LinkState {
                conns: final(self).conns,
                counts: LinkCounts {
                    drops: if r is Some {
                        capped(old(self).counts.drops + 1) as u64
                    } else {
                        old(self).counts.drops
                    },
                    ..old(self).counts
                },
                ..*old(self)
            }),
    {
        let at: Option<usize> = find_live(&self.conns, idx);
        match at {
            Some(i) => {
                let c: &mut ConnCtrl = &mut self.conns[i];
                c.alive = false;
                self.counts.drops = self.counts.drops.saturating_add(1);
            },
            None => {},
        }
        at
    }

    /// Nothing is read for a connection: a blackhole, or a stalled near side.
    pub open spec fn blocks(self, conn: ConnCtrl, fwd: bool) -> bool {
        self.blackhole || conn.blackhole || (fwd && conn.stall)
    }

    pub fn blocked(&self, conn: &ConnCtrl, fwd: bool) -> (r: bool)
        ensures
            r == self.blocks(*conn, fwd),
    {
        self.blackhole || conn.blackhole || (fwd && conn.stall)
    }

    /// When the bottleneck of a direction is free.
    pub open spec fn free_ns(self, fwd: bool) -> Option<u64> {
        if fwd {
            self.free_fwd_ns
        } else {
            self.free_rev_ns
        }
    }

    /// What becomes of a packet of `n` bytes, with a draw below a million that
    /// decides on loss, and what jitter adds.
    pub open spec fn fate(
        self,
        conn: ConnCtrl,
        n: u64,
        fwd: bool,
        chance: u64,
        jitter: u64,
        now_ns: u64,
    ) -> Sent {
        if self.blackhole || conn.blackhole {
            Sent::Held
        } else if chance < self.loss_ppm {
            Sent::Lost
        } else {
            match depart_of(self.rate_bps, self.queue_bytes, self.free_ns(fwd), n, now_ns) {
                Err(_) => Sent::QueueFull,
                Ok(d) => Sent::Arrives(
                    capped(
                        match d {
                            Some(t) => t,
                            None => now_ns,
                        } + capped(one_way_of(self.rtt_us, self.extra_us, jitter) * 1000),
                    ) as u64,
                ),
            }
        }
    }

    /// This link once a packet met that fate.
    pub open spec fn after_fate(self, n: u64, fwd: bool, s: Sent, now_ns: u64) -> Self {
        match s {
            Sent::Held => self,
            Sent::Lost => LinkState {
                counts: LinkCounts { drops: capped(self.counts.drops + 1) as u64, ..self.counts },
                ..self
            },
            Sent::QueueFull => LinkState {
                counts: LinkCounts {
                    drops: capped(self.counts.drops + 1) as u64,
                    queue_drops: capped(self.counts.queue_drops + 1) as u64,
                    ..self.counts
                },
                ..self
            },
            Sent::Arrives(_) => {
                let free = match depart_of(
                    self.rate_bps,
                    self.queue_bytes,
                    self.free_ns(fwd),
                    n,
                    now_ns,
                ) {
                    Ok(Some(t)) => Some(t),
                    _ => self.free_ns(fwd),
                };
                if fwd {
                    LinkState { free_fwd_ns: free, ..self }
                } else {
                    LinkState { free_rev_ns: free, ..self }
                }
            },
        }
    }

    /// Put a packet on the wire, given the draws.
    pub fn transmit(
        &mut self,
        conn: &ConnCtrl,
        n: u64,
        fwd: bool,
        chance: u64,
        jitter: u64,
        now_ns: u64,
    ) -> (s: Sent)
        ensures
            s == old(self).fate(*conn, n, fwd, chance, jitter, now_ns),
            *final(self) == old(self).after_fate(n, fwd, s, now_ns),
    {
        if self.blackhole || conn.blackhole {
            return Sent::Held;
        }
        if chance < self.loss_ppm {
            self.counts.drops = self.counts.drops.saturating_add(1);
            return Sent::Lost;
        }
        let free: Option<u64> = if fwd {
            self.free_fwd_ns
        } else {
            self.free_rev_ns
        };
        match bottleneck_depart(self.rate_bps, self.queue_bytes, free, n, now_ns) {
            Err(_) => {
                self.counts.queue_drops = self.counts.queue_drops.saturating_add(1);
                self.counts.drops = self.counts.drops.saturating_add(1);
                Sent::QueueFull
            },
            Ok(d) => {
                let from: u64 = match d {
                    Some(t) => {
                        if fwd {
                            self.free_fwd_ns = Some(t);
                        } else {
                            self.free_rev_ns = Some(t);
                        }
                        t
                    },
                    None => now_ns,
                };
                let delay: u64 = self.one_way(jitter);
                Sent::Arrives(from.saturating_add(mul_held(delay, 1000)))
            },
        }
    }

    pub fn one_way(&self, jitter: u64) -> (us: u64)
        ensures
            us == one_way_of(self.rtt_us, self.extra_us, jitter),
    {
        (self.rtt_us / 2).saturating_add(self.extra_us / 2).saturating_add(jitter)
    }

    /// What jitter adds to one packet: up to the link's bound.
    pub fn draw_jitter(&self, rng: &mut rand::rngs::StdRng) -> (us: u64)
        ensures
            us <= self.jitter_us,
    {
        if self.jitter_us == 0 {
            0
        } else {
            draw(rng, 0, self.jitter_us)
        }
    }

    /// Put a packet on the wire; chance decides on loss and jitter.
    pub fn transmit_random(
        &mut self,
        conn: &ConnCtrl,
        n: u64,
        fwd: bool,
        rng: &mut rand::rngs::StdRng,
        now_ns: u64,
    ) -> (s: Sent)
        ensures
            exists|chance: u64, jitter: u64|
                chance < MILLION && jitter <= old(self).jitter_us && s == #[trigger] old(self).fate(
                    *conn,
                    n,
                    fwd,
                    chance,
                    jitter,
                    now_ns,
                ),
            *final(self) == old(self).after_fate(n, fwd, s, now_ns),
    {
        let chance: u64 = draw(rng, 0, MILLION - 1);
        let jitter: u64 = self.draw_jitter(rng);
        let ghost o = *self;
        let s: Sent = self.transmit(conn, n, fwd, chance, jitter, now_ns);
        assert(s == o.fate(*conn, n, fwd, chance, jitter, now_ns));
        s
    }

    /// Bytes came through.
    pub fn note_bytes(&mut self, n: u64, fwd: bool)
        ensures
            *final(self) == (LinkState {
                counts: with_bytes(old(self).counts, n as int, fwd),
                ..*old(self)
            }),
    {
        if fwd {
            self.counts.bytes_fwd = self.counts.bytes_fwd.saturating_add(n);
        } else {
            self.counts.bytes_rev = self.counts.bytes_rev.saturating_add(n);
        }
    }
}

// ---------------------------------------------------------------------------
// The wire
// ---------------------------------------------------------------------------
/// A packet on the wire.
pub struct Scheduled {
    pub at: u64,
    pub seq: u64,
    pub buf: Vec<u8>,
}

/// Packets on the wire in the order in which they arrive; packets that arrive
/// together keep the order in which they left.
pub struct Wire {
    pub queue: Vec<Scheduled>,
}

/// Arrival times never go back.
pub open spec fn in_order(q: Seq<Scheduled>) -> bool {
    forall|i: int, j: int| 0 <= i < j < q.len() ==> q[i].at <= q[j].at
}

/// Where a packet goes: behind every packet that arrives no later.
pub open spec fn slot_for(q: Seq<Scheduled>, at: u64, i: int) -> bool {
    &&& 0 <= i <= q.len()
    &&& forall|k: int| 0 <= k < i ==> (#[trigger] q[k]).at <= at
    &&& i < q.len() ==> q[i].at > at
}

impl Wire {
    pub fn new() -> (w: Self)
        ensures
            w.queue@.len() == 0,
            in_order(w.queue@),
    {
        Wire { queue: Vec::new() }
    }

    pub fn push(&mut self, p: Scheduled)
        requires
            in_order(old(self).queue@),
        ensures
            in_order(final(self).queue@),
            exists|i: int| #[trigger]
                slot_for(old(self).queue@, p.at, i) && final(self).queue@ == old(
                    self,
                ).queue@.insert(i, p),
    {
        let ghost q = self.queue@;
        let ghost p0 = p;
        let mut i: usize = 0;
        while i < self.queue.len() && self.queue[i].at <= p.at
            invariant
                i <= self.queue@.len(),
                self.queue@ == q,
                forall|k: int| 0 <= k < i ==> (#[trigger] q[k]).at <= p.at,
            decreases self.queue.len() - i,
        {
            i += 1;
        }
        assert(slot_for(q, p0.at, i as int));
        self.queue.insert(i, p);
        proof {
            let n = self.queue@;
            assert forall|a: int, b: int| 0 <= a < b < n.len() implies n[a].at <= n[b].at by {
                let x = if a < i {
                    a
                } else {
                    a - 1
                };
                let y = if b < i {
                    b
                } else {
                    b - 1
                };
                if a != i && b != i {
                    assert(n[a] == q[x] && n[b] == q[y]);
                } else if a == i {
                    assert(n[b] == q[y]);
                    assert(q[i as int].at <= q[y].at);
                } else {
                    assert(n[a] == q[x]);
                }
            }
        }
    }

    /// When the next packet arrives.
    pub fn next_at(&self) -> (t: Option<u64>)
        ensures
            t == if self.queue@.len() > 0 {
                Some(self.queue@[0].at)
            } else {
                None
            },
    {
        if self.queue.len() > 0 {
            Some(self.queue[0].at)
        } else {
            None
        }
    }

    /// The next packet, once it has arrived.
    pub fn pop_due(&mut self, now: u64) -> (p: Option<Scheduled>)
        requires
            in_order(old(self).queue@),
        ensures
            in_order(final(self).queue@),
            p is Some <==> old(self).queue@.len() > 0 && old(self).queue@[0].at <= now,
            match p {
                Some(s) => s == old(self).queue@[0] && final(self).queue@ == old(
                    self,
                ).queue@.skip(1),
                None => final(self).queue@ == old(self).queue@,
            },
    {
        if self.queue.len() > 0 && self.queue[0].at <= now {
            let ghost q = self.queue@;
            let s: Scheduled = self.queue.remove(0);
            assert(self.queue@ =~= q.skip(1));
            Some(s)
        } else {
            None
        }
    }
}

// ---------------------------------------------------------------------------
// Laws
// ---------------------------------------------------------------------------
/// A bottleneck never reorders: of two packets of one direction, the one that
/// came first departs no later, and its departure is not in the past.
pub proof fn law_bottleneck_is_fifo(
    rate: u64,
    queue: u64,
    free: Option<u64>,
    n: u64,
    m: u64,
    now_ns: u64,
    later_ns: u64,
)
    requires
        now_ns <= later_ns,
        depart_of(rate, queue, free, n, now_ns) is Ok,
        depart_of(rate, queue, free, n, now_ns)->Ok_0 is Some,
        depart_of(
            rate,
            queue,
            depart_of(rate, queue, free, n, now_ns)->Ok_0,
            m,
            later_ns,
        ) is Ok,
    ensures
        ({
            let first = depart_of(rate, queue, free, n, now_ns)->Ok_0;
            let second = depart_of(rate, queue, first, m, later_ns)->Ok_0;
            &&& first->0 >= now_ns
            &&& second is Some
            &&& second->0 >= first->0
        }),
{
    assert(serialise_of(n, rate) >= 0) by (nonlinear_arith)
        requires
            rate > 0,
            serialise_of(n, rate) == capped(capped(n * 8) * 1_000_000_000) / (rate as int),
            capped(capped(n * 8) * 1_000_000_000) >= 0,
    ;
    assert(serialise_of(m, rate) >= 0) by (nonlinear_arith)
        requires
            rate > 0,
            serialise_of(m, rate) == capped(capped(m * 8) * 1_000_000_000) / (rate as int),
            capped(capped(m * 8) * 1_000_000_000) >= 0,
    ;
}

/// A blackholed link or connection lets nothing through; a link without loss
/// and without a limit lets everything through.
pub proof fn law_faults_decide(
    l: LinkState,
    conn: ConnCtrl,
    n: u64,
    fwd: bool,
    chance: u64,
    jitter: u64,
    now_ns: u64,
)
    ensures
        l.blackhole || conn.blackhole ==> l.fate(conn, n, fwd, chance, jitter, now_ns) is Held,
        !l.blackhole && !conn.blackhole && l.loss_ppm == 0 && l.rate_bps == 0 ==> l.fate(
            conn,
            n,
            fwd,
            chance,
            jitter,
            now_ns,
        ) is Arrives,
{
}

/// One way takes half of the round trip and half of the extra delay, and the
/// jitter on top.
pub proof fn law_one_way_is_half_the_loop(rtt: u64, extra: u64, jitter: u64)
    requires
        rtt + extra + jitter <= u64::MAX,
    ensures
        rtt + extra + 2 * jitter - 2 <= 2 * one_way_of(rtt, extra, jitter) <= rtt + extra + 2
            * jitter,
{
}

/// A frame takes the wire for its bits over the rate, after all that is before
/// it.
pub proof fn law_a_frame_takes_its_bits_over_the_rate(
    rate: u64,
    free: Option<u64>,
    n: u64,
    now_ns: u64,
)
    requires
        rate > 0,
        n * 8_000_000_000 <= u64::MAX,
        start_of(free, now_ns) + serialise_of(n, rate) <= u64::MAX,
    ensures
        ({
            let d = depart_of(rate, 0, free, n, now_ns);
            let start = if free is Some && free->0 > now_ns {
                free->0
            } else {
                now_ns
            };
            &&& d is Ok && d->Ok_0 is Some
            &&& d->Ok_0->0 >= start
            &&& (d->Ok_0->0 - start) * rate <= n * 8_000_000_000 < (d->Ok_0->0 - start + 1) * rate
        }),
{
    let bits = n as int * 8_000_000_000;
    let r = rate as int;
    assert(serialise_of(n, rate) == bits / r);
    let q = bits / r;
    assert(0 <= q && q * r <= bits < (q + 1) * r) by (nonlinear_arith)
        requires
            r > 0,
            bits >= 0,
            q == bits / r,
    ;
}

/// A queue refuses a frame where the bytes that wait before it leave no place
/// for it, and a link without a rate or without a bound on its queue refuses
/// none.
pub proof fn law_when_a_queue_is_full(
    rate: u64,
    queue: u64,
    free: Option<u64>,
    n: u64,
    now_ns: u64,
)
    ensures
        rate == 0 ==> depart_of(rate, queue, free, n, now_ns) == Ok::<Option<u64>, ()>(None),
        rate > 0 && queue == 0 ==> depart_of(rate, queue, free, n, now_ns) is Ok,
        rate > 0 && queue > 0 && (free is None || free->0 <= now_ns) ==> (depart_of(
            rate,
            queue,
            free,
            n,
            now_ns,
        ) is Err <==> n > queue),
        rate > 0 && queue > 0 && free is Some && free->0 > now_ns && (free->0 - now_ns) * rate
            <= u64::MAX ==> (depart_of(rate, queue, free, n, now_ns) is Err <==> (free->0 - now_ns)
            * rate / 8_000_000_000 + n > queue),
{
    if free is Some && free->0 > now_ns && (free->0 - now_ns) * rate <= u64::MAX {
        let w = (free->0 - now_ns) * rate;
        assert(w >= 0) by (nonlinear_arith)
            requires
                w == (free->0 - now_ns) * rate,
                free->0 > now_ns,
        ;
        assert(w / 8 / 1_000_000_000 == w / 8_000_000_000);
    }
    if free is None || free->0 <= now_ns {
        assert((start_of(free, now_ns) - now_ns) * rate == 0) by (nonlinear_arith)
            requires
                start_of(free, now_ns) == now_ns,
        ;
    }
}

/// What becomes of a frame: a dark link holds it, a draw under the loss rate
/// loses it, and else it comes one way after it left.
pub proof fn law_what_becomes_of_a_frame(
    l: LinkState,
    conn: ConnCtrl,
    n: u64,
    fwd: bool,
    chance: u64,
    jitter: u64,
    now_ns: u64,
)
    requires
        now_ns + one_way_of(l.rtt_us, l.extra_us, jitter) * 1000 <= u64::MAX,
    ensures
        ({
            let s = l.fate(conn, n, fwd, chance, jitter, now_ns);
            let dark = l.blackhole || conn.blackhole;
            &&& s is Held <==> dark
            &&& s is Lost <==> !dark && chance < l.loss_ppm
            &&& !dark && chance >= l.loss_ppm && l.rate_bps == 0 ==> s == Sent::Arrives(
                (now_ns + one_way_of(l.rtt_us, l.extra_us, jitter) * 1000) as u64,
            )
            &&& s is QueueFull ==> l.rate_bps > 0 && l.queue_bytes > 0
            &&& s is Arrives ==> s->Arrives_0 >= now_ns
        }),
{
}

/// A lost frame is counted as dropped, one that found no place also as refused
/// by the queue, and a held or delivered one as neither.
pub proof fn law_drops_are_counted(l: LinkState, n: u64, fwd: bool, s: Sent, now_ns: u64)
    requires
        l.counts.drops < u64::MAX,
        l.counts.queue_drops < u64::MAX,
    ensures
        ({
            let m = l.after_fate(n, fwd, s, now_ns);
            &&& m.counts.drops - l.counts.drops == if s is Lost || s is QueueFull {
                1int
            } else {
                0
            }
            &&& m.counts.queue_drops - l.counts.queue_drops == if s is QueueFull {
                1int
            } else {
                0
            }
            &&& !(s is Arrives) ==> m.free_fwd_ns == l.free_fwd_ns && m.free_rev_ns
                == l.free_rev_ns
            &&& fwd ==> m.free_rev_ns == l.free_rev_ns
            &&& !fwd ==> m.free_fwd_ns == l.free_fwd_ns
        }),
{
}

/// Bytes are counted on the side they went.
pub proof fn law_bytes_count_on_their_side(c: LinkCounts, n: int)
    requires
        0 <= n,
        c.bytes_fwd + n <= u64::MAX,
        c.bytes_rev + n <= u64::MAX,
    ensures
        with_bytes(c, n, true).bytes_fwd == c.bytes_fwd + n,
        with_bytes(c, n, true).bytes_rev == c.bytes_rev,
        with_bytes(c, n, false).bytes_rev == c.bytes_rev + n,
        with_bytes(c, n, false).bytes_fwd == c.bytes_fwd,
{
}

} // verus!
