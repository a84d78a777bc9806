//! The two ends of the packet WAN together: what a whole run of a pipe keeps.

use vstd::prelude::*;

use crate::impair::{with_bytes, LinkCounts};
use crate::num::smaller;
use crate::packet_wan::{
    law_wan_delivers_in_order, packet, packets_of, waits_true, Delivered, GaveUp, Outgoing,
    ReadStep, WanReceiver, WanSender, MSS,
};

verus! {

// ---------------------------------------------------------------------------
// Bytes
// ---------------------------------------------------------------------------
/// These chunks one after the other.
pub open spec fn bytes_in(chunks: Seq<Seq<u8>>) -> Seq<u8>
    decreases chunks.len(),
{
    if chunks.len() == 0 {
        seq![]
    } else {
        bytes_in(chunks.drop_last()) + chunks.last()
    }
}

/// What the packets hold.
pub open spec fn buffers(out: Seq<Outgoing>) -> Seq<Seq<u8>> {
    Seq::new(out.len(), |i: int| out[i].buf@)
}

/// What the writes hold.
pub open spec fn chunks_of(writes: Seq<Vec<u8>>) -> Seq<Seq<u8>> {
    Seq::new(writes.len(), |i: int| writes[i]@)
}

proof fn lemma_bytes_add(a: Seq<Seq<u8>>, b: Seq<Seq<u8>>)
    ensures
        bytes_in(a + b) == bytes_in(a) + bytes_in(b),
    decreases b.len(),
{
    if b.len() == 0 {
        assert(a + b =~= a);
        assert(bytes_in(a + b) =~= bytes_in(a) + bytes_in(b));
    } else {
        lemma_bytes_add(a, b.drop_last());
        assert((a + b).drop_last() =~= a + b.drop_last());
        assert(bytes_in(a + b) =~= bytes_in(a) + bytes_in(b));
    }
}

proof fn lemma_bytes_cut(total: Seq<u8>, k: nat)
    requires
        k <= packets_of(total.len() as int),
    ensures
        bytes_in(Seq::new(k, |i: int| packet(total, i))) == total.take(
            smaller(k * MSS, total.len() as int),
        ),
    decreases k,
{
    let cut = Seq::new(k, |i: int| packet(total, i));
    if k == 0 {
        assert(bytes_in(cut) =~= total.take(0));
    } else {
        lemma_bytes_cut(total, (k - 1) as nat);
        assert(cut.drop_last() =~= Seq::new((k - 1) as nat, |i: int| packet(total, i)));
        assert((k - 1) * MSS < total.len());
        assert(bytes_in(cut) =~= total.take(smaller(k * MSS, total.len() as int)));
    }
}

// ---------------------------------------------------------------------------
// A run
// ---------------------------------------------------------------------------
/// A pipe at one moment: both ends, every packet that was ever put on the
/// wire, and what went in and out.
pub struct Pipe {
    pub near: WanSender,
    pub far: WanReceiver,
    pub fwd: bool,
    /// What the link counts.
    pub counts: LinkCounts,
    /// The packets by number.
    pub numbered: Seq<Seq<u8>>,
    /// Every send of a packet, the repeats too.
    pub wire: Seq<Outgoing>,
    /// All bytes read from the near socket.
    pub read: Seq<u8>,
    /// What was set free for the far socket and is not written yet.
    pub pending: Seq<Seq<u8>>,
    /// All bytes written to the far socket.
    pub written: Seq<u8>,
}

/// Something that happens to a pipe.
pub enum PipeEvent {
    /// Bytes were read from the near socket.
    Read { data: Seq<u8>, step: ReadStep, now: u64 },
    /// An acknowledgement came back.
    Ack { ack: u64, max_cwnd: u32, out: Seq<Outgoing>, now: u64 },
    /// A timer fired.
    Timer { r: Result<Vec<Outgoing>, GaveUp>, now: u64 },
    /// The packet of send `at` came off the wire. One that never does was
    /// dropped; one that does twice was sent twice by the wire.
    Arrive { at: int, out: Delivered },
    /// The first chunk that is not written yet was written and counted.
    Write,
}

impl Pipe {
    /// A pipe that nothing happened to.
    pub open spec fn is_new(self) -> bool {
        &&& self.near.next_seq == 0
        &&& forall|k: u64| !#[trigger] self.near.inflight@.contains_key(k)
        &&& self.near.leftover@.len() == 0
        &&& self.far.expected == 0
        &&& forall|k: u64| !#[trigger] self.far.reorder@.contains_key(k)
        &&& self.numbered.len() == 0
        &&& self.wire.len() == 0
        &&& self.read.len() == 0
        &&& self.pending.len() == 0
        &&& self.written.len() == 0
    }

    /// `n` is this pipe after `e`.
    pub open spec fn steps(self, e: PipeEvent, n: Self) -> bool {
        match e {
            PipeEvent::Read { data, step, now } => {
                &&& self.near.reads(n.near, data, step, now)
                &&& n == (Pipe {
                    near: n.near,
                    numbered: self.numbered + buffers(step.out@),
                    wire: self.wire + step.out@,
                    read: self.read + data,
                    ..self
                })
            },
            PipeEvent::Ack { ack, max_cwnd, out, now } => {
                &&& self.near.acked(n.near, ack, max_cwnd, out, now)
                &&& n == (Pipe { near: n.near, wire: self.wire + out, ..self })
            },
            PipeEvent::Timer { r, now } => {
                &&& self.near.timed(n.near, r, now)
                &&& match r {
                    Ok(out) => n == (Pipe { near: n.near, wire: self.wire + out@, ..self }),
                    Err(_) => n == (Pipe { near: n.near, ..self }),
                }
            },
            PipeEvent::Arrive { at, out } => {
                &&& 0 <= at < self.wire.len()
                &&& self.far.takes(n.far, self.wire[at].seq, self.wire[at].buf@, out)
                &&& n == (Pipe {
                    far: n.far,
                    pending: self.pending + chunks_of(out.writes@),
                    ..self
                })
            },
            PipeEvent::Write => {
                &&& self.pending.len() > 0
                &&& n == (Pipe {
                    counts: with_bytes(self.counts, self.pending[0].len() as int, self.fwd),
                    pending: self.pending.drop_first(),
                    written: self.written + self.pending[0],
                    ..self
                })
            },
        }
    }

    /// What every run keeps: the packets and what is left over are the bytes
    /// read, in order; what is in flight and on the wire are packets; what was
    /// set free are the first of them.
    pub open spec fn keeps(self) -> bool {
        &&& self.numbered.len() == self.near.next_seq
        &&& bytes_in(self.numbered) + self.near.leftover@ == self.read
        &&& forall|k: u64| #[trigger]
            self.near.inflight@.contains_key(k) ==> k < self.near.next_seq
                && self.near.inflight@[k].buf@ == self.numbered[k as int]
        &&& forall|i: int|
            0 <= i < self.wire.len() ==> (#[trigger] self.wire[i]).seq < self.numbered.len()
                && self.wire[i].buf@ == self.numbered[self.wire[i].seq as int]
        &&& self.far.expected <= self.numbered.len()
        &&& waits_true(self.far.reorder@, self.numbered)
        &&& self.written + bytes_in(self.pending) == bytes_in(
            self.numbered.take(self.far.expected as int),
        )
    }
}

/// What happened, and the pipe afterwards.
pub struct PipeStep {
    pub what: PipeEvent,
    pub after: Pipe,
}

/// The pipe after these steps.
pub open spec fn pipe_after(p: Pipe, h: Seq<PipeStep>) -> Pipe {
    if h.len() == 0 {
        p
    } else {
        h.last().after
    }
}

/// A run of a pipe.
pub open spec fn pipe_run(p: Pipe, h: Seq<PipeStep>) -> bool
    decreases h.len(),
{
    h.len() == 0 || {
        &&& pipe_run(p, h.drop_last())
        &&& pipe_after(p, h.drop_last()).steps(h.last().what, h.last().after)
    }
}

// ---------------------------------------------------------------------------
// Laws
// ---------------------------------------------------------------------------
proof fn lemma_read_keeps(p: Pipe, n: Pipe, data: Seq<u8>, step: ReadStep, now: u64)
    requires
        p.keeps(),
        p.steps((PipeEvent::Read { data, step, now }), n),
    ensures
        n.keeps(),
{
    let total = p.near.leftover@ + data;
    let out = step.out@;
    let k = out.len();
    lemma_bytes_cut(total, k);
    assert(buffers(out) =~= Seq::new(k, |i: int| packet(total, i)));
    lemma_bytes_add(p.numbered, buffers(out));
    assert(bytes_in(n.numbered) + n.near.leftover@ =~= n.read);
    assert forall|s: u64| #[trigger] n.near.inflight@.contains_key(s) implies s < n.near.next_seq
        && n.near.inflight@[s].buf@ == n.numbered[s as int] by {
        if p.near.inflight@.contains_key(s) {
            assert(n.near.inflight@[s] == p.near.inflight@[s]);
        } else {
            assert(n.numbered[s as int] == buffers(out)[s - p.near.next_seq]);
        }
    }
    assert forall|i: int| 0 <= i < n.wire.len() implies (#[trigger] n.wire[i]).seq
        < n.numbered.len() && n.wire[i].buf@ == n.numbered[n.wire[i].seq as int] by {
        if i < p.wire.len() {
            assert(n.wire[i] == p.wire[i]);
        } else {
            let j = i - p.wire.len();
            assert(n.wire[i] == out[j]);
            assert(n.numbered[p.near.next_seq + j] == buffers(out)[j]);
        }
    }
    assert(n.numbered.take(n.far.expected as int) =~= p.numbered.take(p.far.expected as int));
    assert forall|s: u64| #[trigger] n.far.reorder@.contains_key(s) implies s < n.numbered.len()
        && n.far.reorder@[s]@ == n.numbered[s as int] by {
        assert(p.far.reorder@.contains_key(s));
    }
}

proof fn lemma_ack_keeps(
    p: Pipe,
    n: Pipe,
    ack: u64,
    max_cwnd: u32,
    out: Seq<Outgoing>,
    now: u64,
)
    requires
        p.keeps(),
        p.steps((PipeEvent::Ack { ack, max_cwnd, out, now }), n),
    ensures
        n.keeps(),
{
    assert forall|s: u64| #[trigger] n.near.inflight@.contains_key(s) implies s < n.near.next_seq
        && n.near.inflight@[s].buf@ == n.numbered[s as int] by {
        assert(n.near.inflight@.dom().contains(s));
        assert(p.near.inflight@.remove(ack).dom().contains(s));
        assert(p.near.inflight@.remove(ack).contains_key(s));
        assert(p.near.inflight@.contains_key(s));
    }
    assert forall|i: int| 0 <= i < n.wire.len() implies (#[trigger] n.wire[i]).seq
        < n.numbered.len() && n.wire[i].buf@ == n.numbered[n.wire[i].seq as int] by {
        if i < p.wire.len() {
            assert(n.wire[i] == p.wire[i]);
        } else {
            let j = i - p.wire.len();
            assert(n.wire[i] == out[j]);
            assert(p.near.inflight@.remove(ack).contains_key(out[j].seq));
            assert(p.near.inflight@.contains_key(out[j].seq));
        }
    }
}

proof fn lemma_timer_keeps(p: Pipe, n: Pipe, r: Result<Vec<Outgoing>, GaveUp>, now: u64)
    requires
        p.keeps(),
        p.steps((PipeEvent::Timer { r, now }), n),
    ensures
        n.keeps(),
{
    match r {
        Err(_) => {},
        Ok(v) => {
            let out = v@;
            assert forall|s: u64| #[trigger] n.near.inflight@.contains_key(s) implies s
                < n.near.next_seq && n.near.inflight@[s].buf@ == n.numbered[s as int] by {
                assert(n.near.inflight@.dom().contains(s));
                assert(p.near.inflight@.contains_key(s));
            }
            assert forall|i: int| 0 <= i < n.wire.len() implies (#[trigger] n.wire[i]).seq
                < n.numbered.len() && n.wire[i].buf@ == n.numbered[n.wire[i].seq as int] by {
                if i < p.wire.len() {
                    assert(n.wire[i] == p.wire[i]);
                } else {
                    let j = i - p.wire.len();
                    assert(n.wire[i] == out[j]);
                    assert(p.near.inflight@.contains_key(out[j].seq));
                }
            }
        },
    }
}

proof fn lemma_arrival_keeps(p: Pipe, n: Pipe, at: int, out: Delivered)
    requires
        p.keeps(),
        p.steps((PipeEvent::Arrive { at, out }), n),
    ensures
        n.keeps(),
{
    law_wan_delivers_in_order(
        p.far,
        n.far,
        p.numbered,
        p.wire[at].seq,
        p.wire[at].buf@,
        out,
    );
    let done = p.numbered.take(p.far.expected as int);
    let more = chunks_of(out.writes@);
    assert(n.numbered.take(n.far.expected as int) =~= done + more) by {
        assert forall|i: int| 0 <= i < more.len() implies #[trigger] more[i] == p.numbered[p.far.expected
            + i] by {
            assert(more[i] == out.writes@[i]@);
        }
    }
    lemma_bytes_add(done, more);
    lemma_bytes_add(p.pending, more);
    assert(n.written + bytes_in(n.pending) =~= bytes_in(
        n.numbered.take(n.far.expected as int),
    ));
}

proof fn lemma_write_keeps(p: Pipe, n: Pipe)
    requires
        p.keeps(),
        p.steps(PipeEvent::Write, n),
    ensures
        n.keeps(),
{
    let first = seq![p.pending[0]];
    assert(p.pending =~= first + n.pending);
    lemma_bytes_add(first, n.pending);
    assert(first.drop_last() =~= Seq::<Seq<u8>>::empty());
    assert(bytes_in(first) =~= p.pending[0]) by {
        assert(bytes_in(first.drop_last()) =~= Seq::<u8>::empty());
    }
    assert(n.written + bytes_in(n.pending) =~= p.written + bytes_in(p.pending));
}

/// One step keeps what every run keeps.
pub proof fn law_a_step_keeps_the_stream(p: Pipe, e: PipeEvent, n: Pipe)
    requires
        p.keeps(),
        p.steps(e, n),
    ensures
        n.keeps(),
{
    match e {
        PipeEvent::Read { data, step, now } => lemma_read_keeps(p, n, data, step, now),
        PipeEvent::Ack { ack, max_cwnd, out, now } => lemma_ack_keeps(
            p,
            n,
            ack,
            max_cwnd,
            out,
            now,
        ),
        PipeEvent::Timer { r, now } => lemma_timer_keeps(p, n, r, now),
        PipeEvent::Arrive { at, out } => lemma_arrival_keeps(p, n, at, out),
        PipeEvent::Write => lemma_write_keeps(p, n),
    }
}

proof fn lemma_run_keeps(p: Pipe, h: Seq<PipeStep>)
    requires
        p.is_new(),
        pipe_run(p, h),
    ensures
        pipe_after(p, h).keeps(),
        pipe_after(p, h).fwd == p.fwd,
        pipe_after(p, h).counts == with_bytes(
            p.counts,
            pipe_after(p, h).written.len() as int,
            p.fwd,
        ),
    decreases h.len(),
{
    if h.len() == 0 {
        assert(p.numbered.take(0) =~= Seq::<Seq<u8>>::empty());
        assert(p.pending =~= Seq::<Seq<u8>>::empty());
        assert(bytes_in(p.numbered) + p.near.leftover@ =~= p.read);
        assert(p.written + bytes_in(p.pending) =~= bytes_in(
            p.numbered.take(p.far.expected as int),
        ));
    } else {
        lemma_run_keeps(p, h.drop_last());
        law_a_step_keeps_the_stream(
            pipe_after(p, h.drop_last()),
            h.last().what,
            h.last().after,
        );
    }
}

proof fn lemma_first_chunks(chunks: Seq<Seq<u8>>, k: int)
    requires
        0 <= k <= chunks.len(),
    ensures
        bytes_in(chunks) == bytes_in(chunks.take(k)) + bytes_in(chunks.skip(k)),
{
    assert(chunks =~= chunks.take(k) + chunks.skip(k));
    lemma_bytes_add(chunks.take(k), chunks.skip(k));
}

/// Whatever the wire drops, delays, repeats or reorders, at every moment of a
/// run the bytes written to the far socket are the first of the bytes read
/// from the near one: none is lost, doubled or out of place. The link counted
/// exactly as many in the pipe's direction, and none in the other. Once every
/// packet has arrived and every chunk is written, they are all of them.
pub proof fn law_the_far_socket_gets_the_bytes_read(p: Pipe, h: Seq<PipeStep>)
    requires
        p.is_new(),
        pipe_run(p, h),
    ensures
        ({
            let n = pipe_after(p, h);
            &&& n.written.len() <= n.read.len()
            &&& n.written == n.read.take(n.written.len() as int)
            &&& n.counts == with_bytes(p.counts, n.written.len() as int, p.fwd)
            &&& n.far.expected == n.near.next_seq && n.pending.len() == 0
                && n.near.leftover@.len() == 0 ==> n.written == n.read
        }),
{
    lemma_run_keeps(p, h);
    let n = pipe_after(p, h);
    lemma_first_chunks(n.numbered, n.far.expected as int);
    assert(n.read == (n.written + bytes_in(n.pending)) + bytes_in(
        n.numbered.skip(n.far.expected as int),
    ) + n.near.leftover@);
    assert(n.written =~= n.read.take(n.written.len() as int));
    if n.far.expected == n.near.next_seq && n.pending.len() == 0 && n.near.leftover@.len() == 0 {
        assert(n.pending =~= Seq::<Seq<u8>>::empty());
        assert(n.numbered.skip(n.far.expected as int) =~= Seq::<Seq<u8>>::empty());
        assert(n.written =~= n.read);
    }
}

} // verus!
