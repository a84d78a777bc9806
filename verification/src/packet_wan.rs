//! A packet WAN between two byte streams.
//!
//! Bytes are sliced into packets that are delayed and dropped independently.
//! Recovery has the shape of Linux TCP: the receiver acknowledges every packet
//! it gets, a packet sent a reordering window before an acknowledged one is
//! sent again at once, a tail loss is probed at twice the smoothed RTT, and
//! the retransmission timeout is the backstop. The congestion window is
//! Reno's: slow start, then one packet per round trip; each loss episode
//! halves it once.

use std::collections::BTreeMap;
use vstd::prelude::*;

use crate::frames::copy_bytes;
use crate::maps::{keys_of, lists_keys};
use crate::num::{above, capped, larger, max_u64, smaller, within};

verus! {

broadcast use vstd::laws_cmp::group_laws_cmp;

pub const MSS: usize = 1200;

pub const INIT_CWND: u32 = 16;

pub const MIN_CWND: u32 = 2;

/// Most sends of one packet before the pipe gives up.
pub const MAX_TRIES: u32 = 12;

// ---------------------------------------------------------------------------
// Clocks
// ---------------------------------------------------------------------------
/// The retransmission timeout: smoothed RTT plus four deviations, with the
/// kernel's floor of 200 ms and a ceiling of 1 s.
pub open spec fn rto_spec(srtt: int, rttvar: int) -> int {
    within(srtt + 4 * rttvar, 200_000, 1_000_000)
}

pub fn rto_of(srtt_us: u64, rttvar_us: u64) -> (r: u64)
    ensures
        r == rto_spec(srtt_us as int, rttvar_us as int),
{
    let us: u128 = srtt_us as u128 + 4 * rttvar_us as u128;
    if us < 200_000 {
        200_000
    } else if us > 1_000_000 {
        1_000_000
    } else {
        us as u64
    }
}

/// The tail-loss probe: twice the smoothed RTT, at least 10 ms.
pub open spec fn tlp_spec(srtt: int) -> int {
    within(srtt * 2, 10_000, 1_000_000)
}

pub fn tlp_of(srtt_us: u64) -> (r: u64)
    ensures
        r == tlp_spec(srtt_us as int),
{
    let us: u128 = srtt_us as u128 * 2;
    if us < 10_000 {
        10_000
    } else if us > 1_000_000 {
        1_000_000
    } else {
        us as u64
    }
}

/// The timeout stays within its bounds, grows with the RTT and its deviation,
/// and never fires before the probe of a path up to 100 ms.
pub proof fn law_timeouts_are_bounded(srtt: int, rttvar: int, more: int)
    requires
        srtt >= 0,
        rttvar >= 0,
        more >= 0,
    ensures
        200_000 <= rto_spec(srtt, rttvar) <= 1_000_000,
        10_000 <= tlp_spec(srtt) <= 1_000_000,
        rto_spec(srtt, rttvar) <= rto_spec(srtt + more, rttvar),
        rto_spec(srtt, rttvar) <= rto_spec(srtt, rttvar + more),
        tlp_spec(srtt) <= tlp_spec(srtt + more),
        srtt <= 100_000 ==> tlp_spec(srtt) <= rto_spec(srtt, rttvar),
{
}

// ---------------------------------------------------------------------------
// The receiving end
// ---------------------------------------------------------------------------
/// The far end: the next packet in order, and those that came before it.
pub struct WanReceiver {
    pub expected: u64,
    pub reorder: BTreeMap<u64, Vec<u8>>,
}

/// What one packet sets free.
pub struct Delivered {
    /// Bytes for the far socket, packet by packet.
    pub writes: Vec<Vec<u8>>,
    /// Packets to acknowledge.
    pub acks: Vec<u64>,
}

/// These bytes waited as packet `k`.
pub open spec fn waited_at(m: Map<u64, Vec<u8>>, k: int, buf: Vec<u8>) -> bool {
    m.contains_key(k as u64) && m[k as u64]@ == buf@
}

impl WanReceiver {
    pub fn new() -> (r: Self)
        ensures
            r.expected == 0,
            r.reorder@ == Map::<u64, Vec<u8>>::empty(),
    {
        WanReceiver { expected: 0, reorder: BTreeMap::new() }
    }

    /// `n` is this end, and `out` what is set free, once packet `seq` with
    /// `buf` arrived.
    pub open spec fn takes(self, n: Self, seq: u64, buf: Seq<u8>, out: Delivered) -> bool {
        if seq == self.expected {
            &&& out.writes@.len() >= 1
            &&& out.acks@.len() == out.writes@.len()
            &&& n.expected == seq + out.writes@.len()
            // The packet itself, then the run that waited behind it.
            &&& out.writes@[0]@ == buf
            &&& forall|i: int|
                0 <= i < out.acks@.len() ==> #[trigger] out.acks@[i] == seq + i
            &&& forall|i: int|
                1 <= i < out.writes@.len() ==> waited_at(
                    self.reorder@,
                    seq + i,
                    #[trigger] out.writes@[i],
                )
            &&& !n.reorder@.contains_key(n.expected)
            &&& forall|k: u64| #[trigger]
                n.reorder@.contains_key(k) <==> self.reorder@.contains_key(k) && !(seq < k
                    < n.expected)
            &&& forall|k: u64| #[trigger]
                n.reorder@.contains_key(k) ==> n.reorder@[k] == self.reorder@[k]
        } else if seq > self.expected {
            &&& out.writes@.len() == 0
            &&& out.acks@ == seq![seq]
            &&& n.expected == self.expected
            &&& n.reorder@.contains_key(seq)
            &&& n.reorder@[seq]@ == buf
            &&& n.reorder@ == self.reorder@.insert(seq, n.reorder@[seq])
        } else {
            // A duplicate.
            &&& out.writes@.len() == 0
            &&& out.acks@ == seq![seq]
            &&& n == self
        }
    }

    /// A packet came off the wire.
    pub fn on_packet(&mut self, seq: u64, buf: Vec<u8>) -> (out: Delivered)
        requires
            old(self).expected < u64::MAX,
            !old(self).reorder@.contains_key(u64::MAX),
        ensures
            old(self).takes(*final(self), seq, buf@, out),
    {
        let ghost o = *self;
        let mut writes: Vec<Vec<u8>> = Vec::new();
        let mut acks: Vec<u64> = Vec::new();
        if seq > self.expected {
            let _ = self.reorder.insert(seq, buf);
            acks.push(seq);
            assert(acks@ =~= seq![seq]);
            return Delivered { writes, acks };
        }
        if seq < self.expected {
            acks.push(seq);
            assert(acks@ =~= seq![seq]);
            return Delivered { writes, acks };
        }
        let ghost bytes = buf@;
        writes.push(buf);
        acks.push(seq);
        self.expected = self.expected + 1;
        while self.reorder.contains_key(&self.expected)
            invariant
                o.expected == seq,
                !o.reorder@.contains_key(u64::MAX),
                writes@.len() >= 1,
                acks@.len() == writes@.len(),
                self.expected == seq + writes@.len(),
                writes@[0]@ == bytes,
                forall|i: int| 0 <= i < acks@.len() ==> #[trigger] acks@[i] == seq + i,
                forall|i: int|
                    1 <= i < writes@.len() ==> waited_at(
                        o.reorder@,
                        seq + i,
                        #[trigger] writes@[i],
                    ),
                forall|k: u64| #[trigger]
                    self.reorder@.contains_key(k) <==> o.reorder@.contains_key(k) && !(seq < k
                        < self.expected),
                forall|k: u64| #[trigger]
                    self.reorder@.contains_key(k) ==> self.reorder@[k] == o.reorder@[k],
            decreases u64::MAX - self.expected,
        {
            let at: u64 = self.expected;
            assert(o.reorder@.contains_key(at));
            assert(at < u64::MAX);
            let ghost writes0 = writes@;
            match self.reorder.remove(&at) {
                Some(b) => {
                    let ghost b0 = b;
                    writes.push(b);
                    acks.push(at);
                    proof {
                        assert(writes@[0] == writes0[0]);
                        assert(b0 == o.reorder@[at]);
                        assert forall|i: int| 1 <= i < writes@.len() implies waited_at(
                            o.reorder@,
                            seq + i,
                            #[trigger] writes@[i],
                        ) by {
                            if i < writes0.len() {
                                assert(writes@[i] == writes0[i]);
                            } else {
                                assert((seq + i) as u64 == at);
                            }
                        }
                    }
                },
                None => {
                    assert(false);
                },
            }
            self.expected = at + 1;
        }
        Delivered { writes, acks }
    }
}

// ---------------------------------------------------------------------------
// The sending end
// ---------------------------------------------------------------------------
/// A packet that is not acknowledged yet.
pub struct Flight {
    pub buf: Vec<u8>,
    pub sent: u64,
    pub tries: u32,
}

/// A packet to put on the wire.
pub struct Outgoing {
    pub seq: u64,
    pub buf: Vec<u8>,
}

/// Round trips as the sender sees them.
#[derive(Clone, Copy, Debug, PartialEq, Eq, Structural)]
pub struct RttEst {
    pub srtt: u64,
    pub rttvar: u64,
    pub have_sample: bool,
}

/// How much may be in flight.
#[derive(Clone, Copy, Debug, PartialEq, Eq, Structural)]
pub struct Cong {
    pub cwnd: u32,
    pub ssthresh: u32,
    pub ca_acc: u32,
    /// The current loss episode ends with this packet.
    pub recovery_end: Option<u64>,
}

pub struct WanSender {
    pub inflight: BTreeMap<u64, Flight>,
    pub next_seq: u64,
    pub rtt: RttEst,
    pub cong: Cong,
    /// The newest packet a tail-loss probe was sent for.
    pub tlp_done: Option<u64>,
    /// Bytes not yet cut into packets.
    pub leftover: Vec<u8>,
    pub retrans: u64,
}

/// The estimate after one sample: the first sets it, later ones move it by an
/// eighth and a quarter.
pub open spec fn sampled(e: RttEst, sample: int) -> RttEst {
    if !e.have_sample {
        RttEst { srtt: sample as u64, rttvar: (sample / 2) as u64, have_sample: true }
    } else {
        RttEst {
            srtt: ((e.srtt * 7 + sample) / 8) as u64,
            rttvar: ((e.rttvar * 3 + apart(e.srtt as int, sample)) / 4) as u64,
            have_sample: true,
        }
    }
}

pub open spec fn apart(a: int, b: int) -> int {
    if a >= b {
        a - b
    } else {
        b - a
    }
}

fn take_sample(e: &RttEst, sample: u64) -> (r: RttEst)
    ensures
        r == sampled(*e, sample as int),
{
    if !e.have_sample {
        RttEst { srtt: sample, rttvar: sample / 2, have_sample: true }
    } else {
        let diff: u64 = if e.srtt >= sample {
            e.srtt - sample
        } else {
            sample - e.srtt
        };
        let rttvar: u128 = (e.rttvar as u128 * 3 + diff as u128) / 4;
        let srtt: u128 = (e.srtt as u128 * 7 + sample as u128) / 8;
        RttEst { srtt: srtt as u64, rttvar: rttvar as u64, have_sample: true }
    }
}

/// The window after one acknowledged packet: one more in slow start, else one
/// more per window, never above the link's limit.
pub open spec fn grown(c: Cong, max_cwnd: u32) -> Cong {
    let step = if c.cwnd < c.ssthresh {
        Cong { cwnd: (c.cwnd + 1) as u32, ..c }
    } else if c.ca_acc + 1 >= c.cwnd {
        Cong { cwnd: smaller(c.cwnd + 1, u32::MAX as int) as u32, ca_acc: 0, ..c }
    } else {
        Cong { ca_acc: (c.ca_acc + 1) as u32, ..c }
    };
    Cong { cwnd: smaller(step.cwnd as int, max_cwnd as int) as u32, ..step }
}

fn grow(c: &Cong, max_cwnd: u32) -> (r: Cong)
    ensures
        r == grown(*c, max_cwnd),
{
    let mut n: Cong = *c;
    if n.cwnd < n.ssthresh {
        n.cwnd = n.cwnd + 1;
    } else if n.ca_acc as u64 + 1 >= n.cwnd as u64 {
        n.ca_acc = 0;
        n.cwnd = n.cwnd.saturating_add(1);
    } else {
        n.ca_acc = n.ca_acc + 1;
    }
    if n.cwnd > max_cwnd {
        n.cwnd = max_cwnd;
    }
    n
}

/// The window at the start of a loss episode: halved, at least two packets.
pub open spec fn halved(c: Cong, next_seq: u64) -> Cong {
    let half = larger(MIN_CWND as int, c.cwnd as int / 2) as u32;
    Cong { cwnd: half, ssthresh: half, recovery_end: Some(next_seq), ..c }
}

fn halve(c: &Cong, next_seq: u64) -> (r: Cong)
    ensures
        r == halved(*c, next_seq),
{
    let half: u32 = if c.cwnd / 2 > MIN_CWND {
        c.cwnd / 2
    } else {
        MIN_CWND
    };
    Cong { cwnd: half, ssthresh: half, recovery_end: Some(next_seq), ca_acc: c.ca_acc }
}

/// A packet that is sent again now.
pub open spec fn resent(f: Flight, now: u64) -> Flight {
    Flight { sent: now, tries: smaller(f.tries + 1, u32::MAX as int) as u32, ..f }
}

/// `out` are copies, in order, of exactly the packets of `m` that `again`
/// holds for.
pub open spec fn sends_again(
    m: Map<u64, Flight>,
    out: Seq<Outgoing>,
    again: spec_fn(u64, Flight) -> bool,
) -> bool {
    &&& forall|i: int, j: int| 0 <= i < j < out.len() ==> out[i].seq < out[j].seq
    &&& forall|i: int|
        0 <= i < out.len() ==> m.contains_key((#[trigger] out[i]).seq) && again(
            out[i].seq,
            m[out[i].seq],
        ) && out[i].buf@ == m[out[i].seq].buf@
    &&& forall|k: u64| #[trigger]
        m.contains_key(k) && again(k, m[k]) ==> exists|i: int|
            0 <= i < out.len() && (#[trigger] out[i]).seq == k
}

/// `n` is `m` with the packets that `again` holds for sent now.
pub open spec fn after_again(
    m: Map<u64, Flight>,
    n: Map<u64, Flight>,
    again: spec_fn(u64, Flight) -> bool,
    now: u64,
) -> bool {
    &&& n.dom() == m.dom()
    &&& forall|k: u64| #[trigger]
        m.contains_key(k) ==> n[k] == if again(k, m[k]) {
            resent(m[k], now)
        } else {
            m[k]
        }
}

/// A packet is lost: it was sent a reordering window before `acked`, and not
/// within the last probe time.
pub open spec fn lost_before(acked: u64, srtt: u64, now: u64) -> spec_fn(u64, Flight) -> bool {
    |k: u64, f: Flight|
        f.sent + larger(srtt as int / 4, 1000) < acked && above(now as int, f.sent as int)
            >= tlp_spec(srtt as int)
}

/// Some packet was sent a reordering window before `acked`.
pub open spec fn any_lost(m: Map<u64, Flight>, acked: u64, srtt: u64) -> bool {
    exists|k: u64| #[trigger]
        m.contains_key(k) && m[k].sent + larger(srtt as int / 4, 1000) < acked
}

/// A packet whose timeout ran out.
pub open spec fn timed_out(rto: int, now: u64) -> spec_fn(u64, Flight) -> bool {
    |k: u64, f: Flight| now >= f.sent + rto
}

/// What to look for in the packets in flight.
pub enum Due {
    /// Lost behind an acknowledged packet.
    Lost { acked: u64, srtt: u64 },
    /// Timed out.
    Rto { rto: u64 },
}

impl Due {
    pub open spec fn again(self, now: u64) -> spec_fn(u64, Flight) -> bool {
        match self {
            Due::Lost { acked, srtt } => lost_before(acked, srtt, now),
            Due::Rto { rto } => timed_out(rto as int, now),
        }
    }

    fn test(&self, f: &Flight, now: u64) -> (r: bool)
        ensures
            forall|k: u64| r == #[trigger] self.again(now)(k, *f),
    {
        match self {
            Due::Lost { acked, srtt } => {
                let reo: u64 = max_u64(*srtt / 4, 1000);
                let late: bool = (f.sent as u128 + reo as u128) < *acked as u128;
                late && now.saturating_sub(f.sent) >= tlp_of(*srtt)
            },
            Due::Rto { rto } => now as u128 >= f.sent as u128 + *rto as u128,
        }
    }
}

impl WanSender {
    pub fn new(rtt_us: u64) -> (s: Self)
        ensures
            s.inflight@ == Map::<u64, Flight>::empty(),
            s.next_seq == 0,
            s.rtt == (RttEst {
                srtt: larger(rtt_us as int, 1) as u64,
                rttvar: (larger(rtt_us as int, 1) / 2) as u64,
                have_sample: false,
            }),
            s.cong == (Cong {
                cwnd: INIT_CWND,
                ssthresh: u32::MAX,
                ca_acc: 0,
                recovery_end: None,
            }),
            s.tlp_done is None,
            s.leftover@.len() == 0,
            s.retrans == 0,
    {
        let srtt: u64 = max_u64(rtt_us, 1);
        WanSender {
            inflight: BTreeMap::new(),
            next_seq: 0,
            rtt: RttEst { srtt, rttvar: srtt / 2, have_sample: false },
            cong: Cong { cwnd: INIT_CWND, ssthresh: u32::MAX, ca_acc: 0, recovery_end: None },
            tlp_done: None,
            leftover: Vec::new(),
            retrans: 0,
        }
    }

    /// Send the packets that are due again.
    fn send_due(&mut self, due: &Due, now: u64) -> (out: Vec<Outgoing>)
        ensures
            sends_again(old(self).inflight@, out@, due.again(now)),
            after_again(old(self).inflight@, final(self).inflight@, due.again(now), now),
            final(self).retrans == capped(old(self).retrans + out@.len()),
            *final(self) == (WanSender {
                inflight: final(self).inflight,
                retrans: final(self).retrans,
                ..*old(self)
            }),
    {
        let ghost o = *self;
        let ghost m = self.inflight@;
        let ghost again = due.again(now);
        let keys: Vec<u64> = keys_of(&self.inflight);
        let mut out: Vec<Outgoing> = Vec::new();
        let mut i: usize = 0;
        proof {
            assert forall|j: int| 0 <= j < keys@.len() implies m.contains_key(#[trigger] keys@[j]) by {
                assert(keys@.contains(keys@[j]));
            }
        }
        while i < keys.len()
            invariant
                i <= keys@.len(),
                lists_keys(keys@, m),
                m == o.inflight@,
                again == due.again(now),
                forall|j: int| 0 <= j < keys@.len() ==> m.contains_key(#[trigger] keys@[j]),
                self.inflight@.dom() == m.dom(),
                forall|j: int|
                    0 <= j < i ==> self.inflight@[#[trigger] keys@[j]] == if again(
                        keys@[j],
                        m[keys@[j]],
                    ) {
                        resent(m[keys@[j]], now)
                    } else {
                        m[keys@[j]]
                    },
                forall|j: int|
                    i <= j < keys@.len() ==> self.inflight@[#[trigger] keys@[j]] == m[keys@[j]],
                forall|a: int, b: int| 0 <= a < b < out@.len() ==> out@[a].seq < out@[b].seq,
                forall|a: int|
                    0 <= a < out@.len() ==> m.contains_key((#[trigger] out@[a]).seq) && again(
                        out@[a].seq,
                        m[out@[a].seq],
                    ) && out@[a].buf@ == m[out@[a].seq].buf@ && (i < keys@.len() ==> out@[a].seq
                        < keys@[i as int]),
                forall|j: int|
                    0 <= j < i && again(#[trigger] keys@[j], m[keys@[j]]) ==> exists|a: int|
                        0 <= a < out@.len() && (#[trigger] out@[a]).seq == keys@[j],
                self.retrans == capped(o.retrans + out@.len()),
                out@.len() <= i,
                *self == (WanSender {
                    inflight: self.inflight,
                    retrans: self.retrans,
                    ..o
                }),
            decreases keys.len() - i,
        {
            let seq: u64 = keys[i];
            let ghost before = self.inflight@;
            let ghost out0 = out@;
            assert(m.contains_key(keys@[i as int]));
            assert(self.inflight@.dom().contains(seq));
            match self.inflight.remove(&seq) {
                Some(flight) => {
                    let mut f: Flight = flight;
                    let ghost f0 = f;
                    if due.test(&f, now) {
                        f.sent = now;
                        f.tries = f.tries.saturating_add(1);
                        self.retrans = self.retrans.saturating_add(1);
                        out.push(Outgoing { seq, buf: copy_bytes(&f.buf) });
                        assert(again(seq, f0));
                        assert(out@[out0.len() as int].seq == seq);
                    } else {
                        assert(!again(seq, f0));
                    }
                    let _ = self.inflight.insert(seq, f);
                    assert(self.inflight@ =~= before.insert(seq, f));
                    assert(self.inflight@.dom() =~= m.dom());
                },
                None => {
                    assert(false);
                },
            }
            proof {
                assert forall|j: int| 0 <= j < i implies keys@[j] != seq by {
                    assert(keys@[j] < keys@[i as int]);
                }
                assert forall|j: int| i < j < keys@.len() implies keys@[j] != seq by {
                    assert(keys@[i as int] < keys@[j]);
                }
                assert forall|j: int|
                    0 <= j < i + 1 && again(#[trigger] keys@[j], m[keys@[j]]) implies exists|a: int|
                    0 <= a < out@.len() && (#[trigger] out@[a]).seq == keys@[j] by {
                    if j < i {
                        let a = choose|a: int|
                            0 <= a < out0.len() && (#[trigger] out0[a]).seq == keys@[j];
                        assert(out@[a].seq == keys@[j]);
                    }
                }
            }
            i += 1;
        }
        proof {
            assert forall|k: u64| #[trigger] m.contains_key(k) implies exists|j: int|
                0 <= j < keys@.len() && #[trigger] keys@[j] == k by {
                assert(keys@.contains(k));
            }
            assert forall|k: u64| #[trigger] m.contains_key(k) implies self.inflight@[k] == if again(
                k,
                m[k],
            ) {
                resent(m[k], now)
            } else {
                m[k]
            } by {
                let j = choose|j: int| 0 <= j < keys@.len() && #[trigger] keys@[j] == k;
            }
            assert forall|k: u64| #[trigger] m.contains_key(k) && again(k, m[k]) implies exists|
                a: int,
            |
                0 <= a < out@.len() && (#[trigger] out@[a]).seq == k by {
                let j = choose|j: int| 0 <= j < keys@.len() && #[trigger] keys@[j] == k;
                assert(again(keys@[j], m[keys@[j]]));
            }
        }
        out
    }
}

// ---------------------------------------------------------------------------
// Acknowledgements
// ---------------------------------------------------------------------------
fn find_lost(m: &BTreeMap<u64, Flight>, acked: u64, srtt: u64) -> (r: bool)
    ensures
        r == any_lost(m@, acked, srtt),
{
    let keys: Vec<u64> = keys_of(m);
    let reo: u64 = max_u64(srtt / 4, 1000);
    let mut i: usize = 0;
    while i < keys.len()
        invariant
            i <= keys@.len(),
            lists_keys(keys@, m@),
            reo == larger(srtt as int / 4, 1000),
            forall|j: int| 0 <= j < i ==> m@[#[trigger] keys@[j]].sent + reo >= acked,
        decreases keys.len() - i,
    {
        assert(keys@.contains(keys@[i as int]));
        match m.get(&keys[i]) {
            Some(f) => {
                if (f.sent as u128 + reo as u128) < acked as u128 {
                    let ghost k = keys@[i as int];
                    assert(m@.contains_key(k) && m@[k].sent + larger(srtt as int / 4, 1000)
                        < acked);
                    return true;
                }
            },
            None => {},
        }
        i += 1;
    }
    proof {
        if any_lost(m@, acked, srtt) {
            let k = choose|k: u64| #[trigger]
                m@.contains_key(k) && m@[k].sent + larger(srtt as int / 4, 1000) < acked;
            assert(keys@.contains(k));
            let j = choose|j: int| 0 <= j < keys@.len() && keys@[j] == k;
            assert(m@[keys@[j]].sent + reo >= acked);
        }
    }
    false
}

/// An episode that ends with `ack` is over.
pub open spec fn recovered(c: Cong, ack: u64) -> Cong {
    if c.recovery_end is Some && ack >= c.recovery_end->0 {
        Cong { recovery_end: None, ..c }
    } else {
        c
    }
}

impl WanSender {
    /// Every packet in flight has been numbered.
    pub open spec fn wf(self) -> bool {
        forall|k: u64| #[trigger] self.inflight@.contains_key(k) ==> k < self.next_seq
    }

    /// The estimate after `ack`: only a packet that was sent once is a sample.
    pub open spec fn rtt_after(self, ack: u64, now: u64) -> RttEst {
        let f = self.inflight@[ack];
        if self.inflight@.contains_key(ack) && f.tries == 1 {
            sampled(self.rtt, larger(above(now as int, f.sent as int), 1))
        } else {
            self.rtt
        }
    }

    /// The window after `ack`, before losses.
    pub open spec fn cong_after(self, ack: u64, max_cwnd: u32) -> Cong {
        recovered(
            if self.inflight@.contains_key(ack) {
                grown(self.cong, max_cwnd)
            } else {
                self.cong
            },
            ack,
        )
    }

    /// `n` is this end, and `out` what it sends again, once `ack` arrived.
    pub open spec fn acked(
        self,
        n: Self,
        ack: u64,
        max_cwnd: u32,
        out: Seq<Outgoing>,
        now: u64,
    ) -> bool {
        let hit = self.inflight@.contains_key(ack);
        let sent = self.inflight@[ack].sent;
        let rest = self.inflight@.remove(ack);
        let rtt = self.rtt_after(ack, now);
        let cong = self.cong_after(ack, max_cwnd);
        let lost = hit && any_lost(rest, sent, rtt.srtt);
        &&& n.rtt == rtt
        &&& n.cong == if lost && cong.recovery_end is None {
            halved(cong, self.next_seq)
        } else {
            cong
        }
        &&& n.next_seq == self.next_seq
        &&& n.tlp_done == self.tlp_done
        &&& n.leftover == self.leftover
        &&& if lost {
            &&& sends_again(rest, out, lost_before(sent, rtt.srtt, now))
            &&& after_again(rest, n.inflight@, lost_before(sent, rtt.srtt, now), now)
            &&& n.retrans == capped(self.retrans + out.len())
        } else {
            &&& out.len() == 0
            &&& n.inflight@ == rest
            &&& n.retrans == self.retrans
        }
    }

    /// The far end acknowledged a packet.
    pub fn on_ack(&mut self, ack: u64, max_cwnd: u32, now: u64) -> (out: Vec<Outgoing>)
        requires
            old(self).wf(),
        ensures
            final(self).wf(),
            old(self).acked(*final(self), ack, max_cwnd, out@, now),
    {
        let ghost o = *self;
        let hit: Option<Flight> = self.inflight.remove(&ack);
        assert(self.inflight@ =~= o.inflight@.remove(ack));
        let acked_sent: Option<u64> = match &hit {
            Some(f) => {
                if f.tries == 1 {
                    let sample: u64 = max_u64(now.saturating_sub(f.sent), 1);
                    self.rtt = take_sample(&self.rtt, sample);
                }
                self.cong = grow(&self.cong, max_cwnd);
                Some(f.sent)
            },
            None => None,
        };
        match self.cong.recovery_end {
            Some(e) => if ack >= e {
                self.cong.recovery_end = None;
            },
            None => {},
        }
        assert(self.rtt == o.rtt_after(ack, now));
        assert(self.cong == o.cong_after(ack, max_cwnd));
        let sent: u64 = match acked_sent {
            Some(t) => t,
            None => {
                return Vec::new();
            },
        };
        if !find_lost(&self.inflight, sent, self.rtt.srtt) {
            return Vec::new();
        }
        if self.cong.recovery_end.is_none() {
            self.cong = halve(&self.cong, self.next_seq);
        }
        let due: Due = Due::Lost { acked: sent, srtt: self.rtt.srtt };
        let out: Vec<Outgoing> = self.send_due(&due, now);
        proof {
            assert forall|k: u64| #[trigger] self.inflight@.contains_key(k) implies k
                < self.next_seq by {
                assert(self.inflight@.dom().contains(k));
                assert(o.inflight@.remove(ack).dom().contains(k));
                assert(o.inflight@.contains_key(k));
            }
        }
        out
    }
}

// ---------------------------------------------------------------------------
// Timers
// ---------------------------------------------------------------------------
/// The pipe gave a packet up.
#[derive(Clone, Copy, Debug, PartialEq, Eq, Structural)]
pub struct GaveUp;

/// `k` is the newest packet in flight.
pub open spec fn newest(m: Map<u64, Flight>, k: u64) -> bool {
    m.contains_key(k) && forall|j: u64| #[trigger] m.contains_key(j) ==> j <= k
}

/// Some packet timed out.
pub open spec fn any_due(m: Map<u64, Flight>, rto: int, now: u64) -> bool {
    exists|k: u64| #[trigger] m.contains_key(k) && now >= m[k].sent + rto
}

/// Some packet that timed out was sent too often.
pub open spec fn any_spent(m: Map<u64, Flight>, rto: int, now: u64) -> bool {
    exists|k: u64| #[trigger]
        m.contains_key(k) && now >= m[k].sent + rto && m[k].tries >= MAX_TRIES
}

impl WanSender {
    pub open spec fn rto(self) -> int {
        rto_spec(self.rtt.srtt as int, self.rtt.rttvar as int)
    }

    pub open spec fn tlp(self) -> int {
        tlp_spec(self.rtt.srtt as int)
    }

    /// The newest packet waits for its probe.
    pub open spec fn probes(self, k: u64) -> bool {
        newest(self.inflight@, k) && self.tlp_done != Some(k)
    }

    /// When the next timer fires: the earliest timeout, or the probe of the
    /// newest packet where that was not sent yet.
    pub open spec fn fires_at(self, t: Option<u64>) -> bool {
        match t {
            None => forall|k: u64| !#[trigger] self.inflight@.contains_key(k),
            Some(at) => {
                &&& forall|k: u64| #[trigger]
                    self.inflight@.contains_key(k) ==> at <= self.inflight@[k].sent + self.rto()
                &&& forall|k: u64| #[trigger]
                    self.probes(k) ==> at <= self.inflight@[k].sent + self.tlp()
                &&& {
                    ||| exists|k: u64| #[trigger]
                        self.inflight@.contains_key(k) && at == capped(
                            self.inflight@[k].sent + self.rto(),
                        )
                    ||| exists|k: u64| #[trigger]
                        self.probes(k) && at == capped(self.inflight@[k].sent + self.tlp())
                }
            },
        }
    }

    fn newest_seq(&self) -> (r: Option<u64>)
        ensures
            match r {
                Some(k) => newest(self.inflight@, k),
                None => forall|k: u64| !#[trigger] self.inflight@.contains_key(k),
            },
    {
        let keys: Vec<u64> = keys_of(&self.inflight);
        if keys.len() == 0 {
            proof {
                assert forall|k: u64| !#[trigger] self.inflight@.contains_key(k) by {
                    assert(!keys@.contains(k));
                }
            }
            return None;
        }
        let k: u64 = keys[keys.len() - 1];
        proof {
            assert(keys@.contains(k));
            assert forall|j: u64| #[trigger] self.inflight@.contains_key(j) implies j <= k by {
                assert(keys@.contains(j));
                let a = choose|a: int| 0 <= a < keys@.len() && keys@[a] == j;
                if a < keys@.len() - 1 {
                    assert(keys@[a] < keys@[keys@.len() - 1]);
                }
            }
        }
        Some(k)
    }

    pub fn next_deadline(&self) -> (t: Option<u64>)
        ensures
            self.fires_at(t),
    {
        let keys: Vec<u64> = keys_of(&self.inflight);
        let rto: u64 = rto_of(self.rtt.srtt, self.rtt.rttvar);
        let mut best: Option<u64> = None;
        let mut i: usize = 0;
        proof {
            assert forall|j: int| 0 <= j < keys@.len() implies self.inflight@.contains_key(
                #[trigger] keys@[j],
            ) by {
                assert(keys@.contains(keys@[j]));
            }
        }
        while i < keys.len()
            invariant
                i <= keys@.len(),
                rto == self.rto(),
                forall|j: int|
                    0 <= j < keys@.len() ==> self.inflight@.contains_key(#[trigger] keys@[j]),
                match best {
                    Some(at) => {
                        &&& exists|k: u64| #[trigger]
                            self.inflight@.contains_key(k) && at == capped(
                                self.inflight@[k].sent + self.rto(),
                            )
                        &&& forall|j: int|
                            0 <= j < i ==> at <= self.inflight@[#[trigger] keys@[j]].sent
                                + self.rto()
                    },
                    None => i == 0,
                },
            decreases keys.len() - i,
        {
            let key: u64 = keys[i];
            assert(self.inflight@.contains_key(keys@[i as int]));
            match self.inflight.get(&key) {
                Some(f) => {
                    let at: u64 = f.sent.saturating_add(rto);
                    assert(self.inflight@.contains_key(key) && at == capped(
                        self.inflight@[key].sent + self.rto(),
                    ));
                    best = match best {
                        Some(b) => if b <= at {
                            Some(b)
                        } else {
                            Some(at)
                        },
                        None => Some(at),
                    };
                },
                None => {
                    assert(false);
                },
            }
            i += 1;
        }
        let earliest: u64 = match best {
            Some(b) => b,
            None => {
                proof {
                    assert forall|k: u64| !#[trigger] self.inflight@.contains_key(k) by {
                        assert(!keys@.contains(k));
                    }
                }
                return None;
            },
        };
        proof {
            assert forall|k: u64| #[trigger] self.inflight@.contains_key(k) implies earliest
                <= self.inflight@[k].sent + self.rto() by {
                assert(keys@.contains(k));
                let j = choose|j: int| 0 <= j < keys@.len() && keys@[j] == k;
                assert(earliest <= self.inflight@[keys@[j]].sent + self.rto());
            }
        }
        match self.newest_seq() {
            Some(k) => {
                let done: bool = match self.tlp_done {
                    Some(d) => d == k,
                    None => false,
                };
                proof {
                    assert forall|j: u64| #[trigger] self.probes(j) implies j == k by {
                        assert(self.inflight@.contains_key(j) && self.inflight@.contains_key(k));
                    }
                }
                if done {
                    assert(!self.probes(k));
                    return Some(earliest);
                }
                assert(self.probes(k));
                match self.inflight.get(&k) {
                    Some(f) => {
                        let at: u64 = f.sent.saturating_add(tlp_of(self.rtt.srtt));
                        if at < earliest {
                            Some(at)
                        } else {
                            Some(earliest)
                        }
                    },
                    None => Some(earliest),
                }
            },
            None => Some(earliest),
        }
    }

    /// Whether a packet timed out, and whether one of those was sent too
    /// often.
    fn look_due(&self, rto: u64, now: u64) -> (r: (bool, bool))
        ensures
            r.0 == any_due(self.inflight@, rto as int, now),
            r.1 == any_spent(self.inflight@, rto as int, now),
    {
        let keys: Vec<u64> = keys_of(&self.inflight);
        let mut due: bool = false;
        let mut spent: bool = false;
        let mut i: usize = 0;
        while i < keys.len()
            invariant
                i <= keys@.len(),
                lists_keys(keys@, self.inflight@),
                due ==> any_due(self.inflight@, rto as int, now),
                spent ==> any_spent(self.inflight@, rto as int, now),
                forall|j: int|
                    0 <= j < i && now >= self.inflight@[#[trigger] keys@[j]].sent + rto ==> due && (
                    self.inflight@[keys@[j]].tries >= MAX_TRIES ==> spent),
            decreases keys.len() - i,
        {
            let ghost k = keys@[i as int];
            assert(keys@.contains(k));
            match self.inflight.get(&keys[i]) {
                Some(f) => {
                    if now as u128 >= f.sent as u128 + rto as u128 {
                        due = true;
                        assert(self.inflight@.contains_key(k) && now >= self.inflight@[k].sent
                            + rto);
                        if f.tries >= MAX_TRIES {
                            spent = true;
                        }
                    }
                },
                None => {},
            }
            i += 1;
        }
        proof {
            if any_due(self.inflight@, rto as int, now) {
                let k = choose|k: u64| #[trigger]
                    self.inflight@.contains_key(k) && now >= self.inflight@[k].sent + rto;
                assert(keys@.contains(k));
                let j = choose|j: int| 0 <= j < keys@.len() && keys@[j] == k;
                assert(now >= self.inflight@[keys@[j]].sent + rto);
            }
            if any_spent(self.inflight@, rto as int, now) {
                let k = choose|k: u64| #[trigger]
                    self.inflight@.contains_key(k) && now >= self.inflight@[k].sent + rto
                        && self.inflight@[k].tries >= MAX_TRIES;
                assert(keys@.contains(k));
                let j = choose|j: int| 0 <= j < keys@.len() && keys@[j] == k;
                assert(now >= self.inflight@[keys@[j]].sent + rto);
            }
        }
        (due, spent)
    }

    /// `n` is this end once its newest packet `k` was probed: its clock stays,
    /// so that the timeout still counts from the first send.
    pub open spec fn probed(self, n: Self, k: u64, out: Seq<Outgoing>) -> bool {
        let f = self.inflight@[k];
        &&& n == (WanSender {
            inflight: n.inflight,
            tlp_done: Some(k),
            retrans: capped(self.retrans + 1) as u64,
            ..self
        })
        &&& n.inflight@ == self.inflight@.insert(
            k,
            Flight { tries: smaller(f.tries + 1, u32::MAX as int) as u32, ..f },
        )
        &&& out.len() == 1
        &&& out[0].seq == k
        &&& out[0].buf@ == f.buf@
    }

    /// What a timer does. A timeout halves the window and sends every packet
    /// that timed out again; without one, the newest packet is probed where
    /// that is due. A packet that was sent too often ends the pipe.
    pub open spec fn timed(self, n: Self, r: Result<Vec<Outgoing>, GaveUp>, now: u64) -> bool {
        match r {
            Err(_) => any_spent(self.inflight@, self.rto(), now) && n == self,
            Ok(out) => {
                &&& !any_spent(self.inflight@, self.rto(), now)
                &&& if any_due(self.inflight@, self.rto(), now) {
                    &&& sends_again(self.inflight@, out@, timed_out(self.rto(), now))
                    &&& after_again(
                        self.inflight@,
                        n.inflight@,
                        timed_out(self.rto(), now),
                        now,
                    )
                    &&& n == (WanSender {
                        inflight: n.inflight,
                        retrans: capped(self.retrans + out@.len()) as u64,
                        cong: halved(self.cong, self.next_seq),
                        ..self
                    })
                } else {
                    ||| {
                        &&& exists|k: u64| #[trigger]
                            self.probes(k) && now >= self.inflight@[k].sent + self.tlp()
                                && self.probed(n, k, out@)
                    }
                    ||| {
                        &&& forall|k: u64| #[trigger]
                            self.probes(k) ==> now < self.inflight@[k].sent + self.tlp()
                        &&& n == self
                        &&& out@.len() == 0
                    }
                }
            },
        }
    }

    pub fn on_timer(&mut self, now: u64) -> (r: Result<Vec<Outgoing>, GaveUp>)
        requires
            old(self).wf(),
        ensures
            final(self).wf(),
            old(self).timed(*final(self), r, now),
    {
        let ghost o = *self;
        let rto: u64 = rto_of(self.rtt.srtt, self.rtt.rttvar);
        let (due, spent) = self.look_due(rto, now);
        if spent {
            return Err(GaveUp);
        }
        if due {
            self.cong = halve(&self.cong, self.next_seq);
            let what: Due = Due::Rto { rto };
            let out: Vec<Outgoing> = self.send_due(&what, now);
            proof {
                assert forall|k: u64| #[trigger] self.inflight@.contains_key(k) implies k
                    < self.next_seq by {
                    assert(self.inflight@.dom().contains(k));
                    assert(o.inflight@.dom().contains(k));
                    assert(o.inflight@.contains_key(k));
                }
            }
            return Ok(out);
        }
        let mut out: Vec<Outgoing> = Vec::new();
        match self.newest_seq() {
            Some(k) => {
                proof {
                    assert forall|j: u64| #[trigger] o.probes(j) implies j == k by {
                        assert(o.inflight@.contains_key(j) && o.inflight@.contains_key(k));
                    }
                }
                let done: bool = match self.tlp_done {
                    Some(d) => d == k,
                    None => false,
                };
                let ripe: bool = match self.inflight.get(&k) {
                    Some(f) => now as u128 >= f.sent as u128 + tlp_of(self.rtt.srtt) as u128,
                    None => false,
                };
                if !done && ripe {
                    assert(o.probes(k));
                    match self.inflight.remove(&k) {
                        Some(flight) => {
                            let mut f: Flight = flight;
                            f.tries = f.tries.saturating_add(1);
                            self.tlp_done = Some(k);
                            self.retrans = self.retrans.saturating_add(1);
                            out.push(Outgoing { seq: k, buf: copy_bytes(&f.buf) });
                            let _ = self.inflight.insert(k, f);
                            assert(self.inflight@ =~= o.inflight@.insert(k, f));
                            assert(o.probed(*self, k, out@));
                        },
                        None => {},
                    }
                }
            },
            None => {},
        }
        Ok(out)
    }
}

// ---------------------------------------------------------------------------
// Reading
// ---------------------------------------------------------------------------
/// What reading from the near socket brings about.
pub struct ReadStep {
    pub out: Vec<Outgoing>,
    /// The near socket ended; the pipe does.
    pub done: bool,
}

/// How many packets `len` bytes make.
pub open spec fn packets_of(len: int) -> int {
    (len + MSS - 1) / MSS as int
}

/// Packet `i` of `total`.
pub open spec fn packet(total: Seq<u8>, i: int) -> Seq<u8> {
    total.subrange(i * MSS, smaller((i + 1) * MSS, total.len() as int))
}

impl WanSender {
    /// `n` is this end, and `out` what it sends, once `k` packets were cut off
    /// `total`.
    pub open spec fn cuts(self, n: Self, total: Seq<u8>, out: Seq<Outgoing>, now: u64) -> bool {
        let k = out.len() as int;
        &&& n == (WanSender {
            inflight: n.inflight,
            next_seq: n.next_seq,
            leftover: n.leftover,
            ..self
        })
        &&& n.next_seq == self.next_seq + k
        &&& n.leftover@ == total.skip(smaller(k * MSS, total.len() as int))
        &&& forall|i: int|
            0 <= i < k ==> (#[trigger] out[i]).seq == self.next_seq + i && out[i].buf@ == packet(
                total,
                i,
            )
        &&& forall|s: u64| #[trigger]
            n.inflight@.contains_key(s) <==> self.inflight@.contains_key(s) || self.next_seq <= s
                < n.next_seq
        &&& forall|s: u64| #[trigger]
            n.inflight@.contains_key(s) ==> if s < self.next_seq {
                n.inflight@[s] == self.inflight@[s]
            } else {
                &&& n.inflight@[s].buf@ == packet(total, s - self.next_seq)
                &&& n.inflight@[s].sent == now
                &&& n.inflight@[s].tries == 1
            }
    }

    /// What a read does: nothing at the end with nothing left over; else as
    /// many packets as the window takes.
    pub open spec fn reads(self, n: Self, data: Seq<u8>, r: ReadStep, now: u64) -> bool {
        let total = self.leftover@ + data;
        let room = above(self.cong.cwnd as int, self.inflight@.len() as int);
        &&& r.done == (data.len() == 0)
        &&& r.out@.len() == smaller(packets_of(total.len() as int), room)
        &&& self.cuts(n, total, r.out@, now)
    }

    /// More may be read: the window is not full.
    pub fn has_room(&self) -> (r: bool)
        ensures
            r == (self.inflight@.len() < self.cong.cwnd),
    {
        self.inflight.len() < self.cong.cwnd as usize
    }
}

proof fn lemma_packet_step(total: Seq<u8>, k: int)
    requires
        0 <= k,
        k * MSS < total.len(),
    ensures
        total.skip(k * MSS).take(
            smaller((total.len() - k * MSS) as int, MSS as int),
        ) == packet(total, k),
        total.skip(k * MSS).skip(smaller((total.len() - k * MSS) as int, MSS as int)) == total.skip(
            smaller((k + 1) * MSS, total.len() as int),
        ),
        k < packets_of(total.len() as int),
{
    let left = total.skip(k * MSS);
    let take = smaller((total.len() - k * MSS) as int, MSS as int);
    assert(left.take(take) =~= packet(total, k));
    assert(left.skip(take) =~= total.skip(smaller((k + 1) * MSS, total.len() as int)));
}

impl WanSender {
    /// Cut the first packet off what is left over and put it in flight.
    fn cut_one(&mut self, now: u64) -> (p: Outgoing)
        requires
            old(self).leftover@.len() > 0,
            old(self).next_seq < u64::MAX,
        ensures
            ({
                let take = smaller(old(self).leftover@.len() as int, MSS as int);
                &&& p.seq == old(self).next_seq
                &&& p.buf@ == old(self).leftover@.take(take)
                &&& final(self).leftover@ == old(self).leftover@.skip(take)
                &&& final(self).inflight@.contains_key(p.seq)
                &&& final(self).inflight@ == old(self).inflight@.insert(
                    p.seq,
                    final(self).inflight@[p.seq],
                )
                &&& final(self).inflight@[p.seq].buf@ == p.buf@
                &&& final(self).inflight@[p.seq].sent == now
                &&& final(self).inflight@[p.seq].tries == 1
                &&& *final(self) == (WanSender {
                    inflight: final(self).inflight,
                    next_seq: (old(self).next_seq + 1) as u64,
                    leftover: final(self).leftover,
                    ..*old(self)
                })
            }),
    {
        let ghost o = *self;
        let take: usize = if self.leftover.len() < MSS {
            self.leftover.len()
        } else {
            MSS
        };
        let mut pkt: Vec<u8> = self.leftover.split_off(take);
        std::mem::swap(&mut self.leftover, &mut pkt);
        assert(pkt@ =~= o.leftover@.take(take as int));
        assert(self.leftover@ =~= o.leftover@.skip(take as int));
        let seq: u64 = self.next_seq;
        self.next_seq = seq + 1;
        let buf: Vec<u8> = copy_bytes(&pkt);
        let _ = self.inflight.insert(seq, Flight { buf: pkt, sent: now, tries: 1 });
        assert(self.inflight@ =~= o.inflight@.insert(seq, self.inflight@[seq]));
        Outgoing { seq, buf }
    }

    /// Bytes were read from the near socket; none means that it ended.
    pub fn on_read(&mut self, data: Vec<u8>, now: u64) -> (r: ReadStep)
        requires
            old(self).wf(),
            old(self).next_seq <= u64::MAX - u32::MAX,
        ensures
            final(self).wf(),
            old(self).reads(*final(self), data@, r, now),
    {
        let ghost o = *self;
        let ghost total = self.leftover@ + data@;
        let done: bool = data.len() == 0;
        let mut more: Vec<u8> = data;
        self.leftover.append(&mut more);
        assert(self.leftover@ =~= total);
        let mut out: Vec<Outgoing> = Vec::new();
        assert(total.skip(0) =~= total);
        while self.leftover.len() > 0 && self.inflight.len() < self.cong.cwnd as usize
            invariant
                o.wf(),
                o.next_seq <= u64::MAX - u32::MAX,
                self.cong == o.cong,
                self.inflight@.dom().finite(),
                self.inflight@.len() == o.inflight@.len() + out@.len(),
                out@.len() <= packets_of(total.len() as int),
                out@.len() > 0 ==> o.inflight@.len() + out@.len() <= o.cong.cwnd,
                o.cuts(*self, total, out@, now),
                self.leftover@.len() > 0 ==> out@.len() * MSS < total.len(),
                self.leftover@.len() == 0 ==> out@.len() == packets_of(total.len() as int),
            decreases self.leftover.len(),
        {
            let ghost k = out@.len() as int;
            let ghost before = *self;
            let ghost out0 = out@;
            proof {
                assert(self.leftover@ == total.skip(k * MSS));
                lemma_packet_step(total, k);
                assert(!self.inflight@.contains_key(self.next_seq));
                assert(k < o.cong.cwnd);
            }
            let p: Outgoing = self.cut_one(now);
            let ghost p0 = p;
            out.push(p);
            proof {
                assert(p0.buf@ == packet(total, k));
                assert(out@[k] == p0);
                assert forall|i: int| 0 <= i < k + 1 implies (#[trigger] out@[i]).seq == o.next_seq
                    + i && out@[i].buf@ == packet(total, i) by {
                    if i < k {
                        assert(out@[i] == out0[i]);
                    }
                }
                assert forall|s: u64| #[trigger] self.inflight@.contains_key(s) <==> o.inflight@.contains_key(
                    s,
                ) || o.next_seq <= s < self.next_seq by {
                    assert(before.inflight@.contains_key(s) <==> o.inflight@.contains_key(s)
                        || o.next_seq <= s < before.next_seq);
                }
                assert forall|s: u64| #[trigger] self.inflight@.contains_key(s) implies if s
                    < o.next_seq {
                    self.inflight@[s] == o.inflight@[s]
                } else {
                    &&& self.inflight@[s].buf@ == packet(total, s - o.next_seq)
                    &&& self.inflight@[s].sent == now
                    &&& self.inflight@[s].tries == 1
                } by {
                    if s != p0.seq {
                        assert(before.inflight@.contains_key(s));
                        assert(self.inflight@[s] == before.inflight@[s]);
                    }
                }
                assert(o.cuts(*self, total, out@, now));
            }
        }
        proof {
            assert forall|k: u64| #[trigger] self.inflight@.contains_key(k) implies k
                < self.next_seq by {
                if o.inflight@.contains_key(k) {
                    assert(k < o.next_seq);
                }
            }
        }
        ReadStep { out, done }
    }
}

// ---------------------------------------------------------------------------
// Laws
// ---------------------------------------------------------------------------
/// Every packet that waits is the packet of its number.
pub open spec fn waits_true(m: Map<u64, Vec<u8>>, sent: Seq<Seq<u8>>) -> bool {
    forall|k: u64| #[trigger] m.contains_key(k) ==> k < sent.len() && m[k]@ == sent[k as int]
}

/// The far socket gets the packets in order, each once: from what was next to
/// what is next, whatever the wire did to their order.
pub proof fn law_wan_delivers_in_order(
    r: WanReceiver,
    n: WanReceiver,
    sent: Seq<Seq<u8>>,
    seq: u64,
    buf: Seq<u8>,
    out: Delivered,
)
    requires
        r.takes(n, seq, buf, out),
        waits_true(r.reorder@, sent),
        seq < sent.len(),
        buf == sent[seq as int],
        r.expected <= sent.len() <= u64::MAX,
    ensures
        waits_true(n.reorder@, sent),
        r.expected <= n.expected <= sent.len(),
        out.writes@.len() == n.expected - r.expected,
        forall|i: int|
            0 <= i < out.writes@.len() ==> (#[trigger] out.writes@[i])@ == sent[r.expected + i],
        out.acks@.contains(seq),
{
    if seq == r.expected {
        assert forall|i: int| 0 <= i < out.writes@.len() implies (#[trigger] out.writes@[i])@
            == sent[r.expected + i] && r.expected + i < sent.len() by {
            if i > 0 {
                assert(waited_at(r.reorder@, seq + i, out.writes@[i]));
            }
        }
        let last = out.writes@.len() - 1;
        assert(out.writes@[last]@ == sent[r.expected + last]);
        assert(r.expected + last < sent.len());
        assert(out.acks@[0] == seq);
        assert forall|k: u64| #[trigger] n.reorder@.contains_key(k) implies k < sent.len()
            && n.reorder@[k]@ == sent[k as int] by {
            assert(r.reorder@.contains_key(k));
        }
    } else {
        assert(out.acks@[0] == seq);
        assert forall|k: u64| #[trigger] n.reorder@.contains_key(k) implies k < sent.len()
            && n.reorder@[k]@ == sent[k as int] by {
            if k != seq || seq < r.expected {
                assert(r.reorder@.contains_key(k));
            }
        }
    }
}

/// A packet that came off the wire, and the far end afterwards.
pub struct WanArrival {
    pub seq: u64,
    pub out: Delivered,
    pub after: WanReceiver,
}

/// The far end after these arrivals.
pub open spec fn far_after(r: WanReceiver, h: Seq<WanArrival>) -> WanReceiver {
    if h.len() == 0 {
        r
    } else {
        h.last().after
    }
}

/// Only packets of `sent` come off the wire: in any order, as often as they
/// like.
pub open spec fn wan_history(r: WanReceiver, h: Seq<WanArrival>, sent: Seq<Seq<u8>>) -> bool
    decreases h.len(),
{
    h.len() == 0 || {
        &&& wan_history(r, h.drop_last(), sent)
        &&& h.last().seq < sent.len()
        &&& far_after(r, h.drop_last()).takes(
            h.last().after,
            h.last().seq,
            sent[h.last().seq as int],
            h.last().out,
        )
    }
}

/// Everything that was written to the far socket, packet by packet.
pub open spec fn written(h: Seq<WanArrival>) -> Seq<Seq<u8>>
    decreases h.len(),
{
    if h.len() == 0 {
        seq![]
    } else {
        written(h.drop_last()) + h.last().out.writes@.map_values(|b: Vec<u8>| b@)
    }
}

/// Whatever the wire does, the far socket gets a beginning of what was sent:
/// every packet once, in order.
pub proof fn law_the_far_socket_gets_the_stream(
    r: WanReceiver,
    h: Seq<WanArrival>,
    sent: Seq<Seq<u8>>,
)
    requires
        r.expected == 0,
        r.reorder@ == Map::<u64, Vec<u8>>::empty(),
        sent.len() <= u64::MAX,
        wan_history(r, h, sent),
    ensures
        far_after(r, h).expected <= sent.len(),
        written(h) == sent.take(far_after(r, h).expected as int),
        waits_true(far_after(r, h).reorder@, sent),
    decreases h.len(),
{
    if h.len() == 0 {
        assert(sent.take(0) =~= seq![]);
    } else {
        let before = h.drop_last();
        law_the_far_socket_gets_the_stream(r, before, sent);
        let a = far_after(r, before);
        let last = h.last();
        law_wan_delivers_in_order(a, last.after, sent, last.seq, sent[last.seq as int], last.out);
        assert(written(h) =~= sent.take(last.after.expected as int));
    }
}

/// No byte is lost or made in cutting: the packets and what is left over are
/// the bytes read, in order.
pub proof fn law_packets_are_the_bytes(
    s: WanSender,
    n: WanSender,
    total: Seq<u8>,
    out: Seq<Outgoing>,
    now: u64,
    b: int,
)
    requires
        s.cuts(n, total, out, now),
        0 <= b < total.len(),
    ensures
        b < out.len() * MSS ==> {
            let i = b / MSS as int;
            0 <= i < out.len() && b - i * MSS < out[i].buf@.len() && out[i].buf@[b - i * MSS]
                == total[b]
        },
        b >= out.len() * MSS ==> n.leftover@[b - out.len() * MSS] == total[b],
{
    if b < out.len() * MSS {
        let i = b / MSS as int;
        assert(0 <= i < out.len());
        assert(out[i].buf@ == packet(total, i));
    }
}

/// A loss episode halves the window once: while it lasts, further losses leave
/// the window as it grew.
pub proof fn law_one_halving_per_episode(
    s: WanSender,
    n: WanSender,
    ack: u64,
    max_cwnd: u32,
    out: Seq<Outgoing>,
    now: u64,
)
    requires
        s.acked(n, ack, max_cwnd, out, now),
        s.cong.recovery_end is Some,
        ack < s.cong.recovery_end->0,
    ensures
        n.cong.recovery_end == s.cong.recovery_end,
        n.cong.ssthresh == s.cong.ssthresh,
        n.cong.cwnd == s.cong_after(ack, max_cwnd).cwnd,
{
}

/// The window is never halved below two packets.
pub proof fn law_window_stays_open(c: Cong, next_seq: u64)
    ensures
        halved(c, next_seq).cwnd >= MIN_CWND,
        halved(c, next_seq).cwnd <= larger(c.cwnd as int, MIN_CWND as int),
{
}

/// A packet that was sent again is no RTT sample.
pub proof fn law_only_first_sends_sample(s: WanSender, ack: u64, now: u64)
    requires
        s.inflight@.contains_key(ack),
        s.inflight@[ack].tries != 1,
    ensures
        s.rtt_after(ack, now) == s.rtt,
{
}

/// The retransmission timeout is the smoothed RTT and four deviations, between
/// a fifth of a second and a second; a tail probe waits two smoothed RTTs,
/// between ten milliseconds and a second.
pub proof fn law_timeouts_follow_the_rtt(srtt: int, rttvar: int)
    requires
        srtt >= 0,
        rttvar >= 0,
    ensures
        200_000 <= rto_spec(srtt, rttvar) <= 1_000_000,
        200_000 <= srtt + 4 * rttvar <= 1_000_000 ==> rto_spec(srtt, rttvar) == srtt + 4 * rttvar,
        srtt + 4 * rttvar < 200_000 ==> rto_spec(srtt, rttvar) == 200_000,
        srtt + 4 * rttvar > 1_000_000 ==> rto_spec(srtt, rttvar) == 1_000_000,
        10_000 <= tlp_spec(srtt) <= 1_000_000,
        10_000 <= 2 * srtt <= 1_000_000 ==> tlp_spec(srtt) == 2 * srtt,
{
}

/// The smoothed RTT moves by an eighth towards a sample and never past it; the
/// first sample is taken whole, with half of it as the deviation.
pub proof fn law_the_rtt_moves_towards_a_sample(e: RttEst, sample: u64)
    ensures
        ({
            let n = sampled(e, sample as int);
            let gap = if e.srtt >= sample {
                e.srtt - sample
            } else {
                sample - e.srtt
            };
            &&& n.have_sample
            &&& !e.have_sample ==> n.srtt == sample && n.rttvar == sample / 2
            &&& e.have_sample ==> 8 * n.srtt <= 7 * e.srtt + sample < 8 * n.srtt + 8
            &&& e.have_sample ==> 4 * n.rttvar <= 3 * e.rttvar + gap < 4 * n.rttvar + 4
        }),
{
}

/// The window grows by one for each acknowledgement below the threshold, by one
/// a window above it, and never past its bound; a loss halves it.
pub proof fn law_the_window_grows_and_halves(c: Cong, max_cwnd: u32, next_seq: u64)
    requires
        c.cwnd < u32::MAX,
        c.ca_acc < u32::MAX,
        c.cwnd < max_cwnd,
    ensures
        c.cwnd < c.ssthresh ==> grown(c, max_cwnd).cwnd == c.cwnd + 1 && grown(
            c,
            max_cwnd,
        ).ca_acc == c.ca_acc,
        c.cwnd >= c.ssthresh && c.ca_acc + 1 < c.cwnd ==> grown(c, max_cwnd).cwnd == c.cwnd
            && grown(c, max_cwnd).ca_acc == c.ca_acc + 1,
        c.cwnd >= c.ssthresh && c.ca_acc + 1 >= c.cwnd ==> grown(c, max_cwnd).cwnd == c.cwnd + 1
            && grown(c, max_cwnd).ca_acc == 0,
        halved(c, next_seq).cwnd >= MIN_CWND,
        c.cwnd >= 2 * MIN_CWND ==> 2 * halved(c, next_seq).cwnd <= c.cwnd <= 2 * halved(
            c,
            next_seq,
        ).cwnd + 1,
        halved(c, next_seq).ssthresh == halved(c, next_seq).cwnd,
        halved(c, next_seq).recovery_end == Some(next_seq),
{
}

/// Recovery ends with the packet that was next when it began.
pub proof fn law_when_recovery_ends(c: Cong, end: u64, ack: u64)
    requires
        c.recovery_end == Some(end),
    ensures
        recovered(c, ack).recovery_end is None <==> ack >= end,
        recovered(c, ack).cwnd == c.cwnd,
{
}

/// A packet that was sent once is timed from its sending to its
/// acknowledgement; one that was sent again is not.
pub proof fn law_a_packet_is_timed_from_its_sending(s: WanSender, ack: u64, now: u64)
    requires
        s.inflight@.contains_key(ack),
        s.inflight@[ack].sent < now,
    ensures
        s.inflight@[ack].tries != 1 ==> s.rtt_after(ack, now) == s.rtt,
        s.inflight@[ack].tries == 1 && !s.rtt.have_sample ==> s.rtt_after(ack, now).srtt == now
            - s.inflight@[ack].sent,
{
}

/// A read is cut into packets of one size but for the last, and as many go out
/// as the window has place for.
pub proof fn law_a_read_fills_packets(len: int)
    requires
        len >= 0,
    ensures
        packets_of(len) * MSS >= len,
        len > 0 ==> (packets_of(len) - 1) * MSS < len,
        len == 0 ==> packets_of(len) == 0,
{
}

} // verus!
