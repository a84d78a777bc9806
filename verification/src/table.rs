//! The sessions of a server, by session id.

use vstd::prelude::*;

use crate::cfg::SessionConfig;
use crate::closing::Death;
use crate::metrics::plus;
use crate::num::above;
use crate::sched::Scheduler;
use crate::session::{fresh_session, Marks, Session};

verus! {

// ---------------------------------------------------------------------------
// Fingerprints
// ---------------------------------------------------------------------------
/// A hex digit, lower case.
pub open spec fn hex_digit(d: int) -> char {
    if d < 10 {
        crate::text::digit(d)
    } else if d == 10 {
        'a'
    } else if d == 11 {
        'b'
    } else if d == 12 {
        'c'
    } else if d == 13 {
        'd'
    } else if d == 14 {
        'e'
    } else {
        'f'
    }
}

/// Two hex digits of a byte.
pub open spec fn hex_byte(b: u8) -> Seq<char> {
    seq![hex_digit(b as int / 16), hex_digit(b as int % 16)]
}

/// Bytes in hex, without separators.
pub open spec fn hex_text(bytes: Seq<u8>) -> Seq<char>
    decreases bytes.len(),
{
    if bytes.len() == 0 {
        seq![]
    } else {
        hex_text(bytes.drop_last()) + hex_byte(bytes.last())
    }
}

fn hex_char(d: u8) -> (c: char)
    requires
        d < 16,
    ensures
        c == hex_digit(d as int),
{
    if d == 0 {
        '0'
    } else if d == 1 {
        '1'
    } else if d == 2 {
        '2'
    } else if d == 3 {
        '3'
    } else if d == 4 {
        '4'
    } else if d == 5 {
        '5'
    } else if d == 6 {
        '6'
    } else if d == 7 {
        '7'
    } else if d == 8 {
        '8'
    } else if d == 9 {
        '9'
    } else if d == 10 {
        'a'
    } else if d == 11 {
        'b'
    } else if d == 12 {
        'c'
    } else if d == 13 {
        'd'
    } else if d == 14 {
        'e'
    } else {
        'f'
    }
}

/// The first `n` bytes in hex.
pub fn hex_prefix(bytes: &[u8; 16], n: usize) -> (s: String)
    requires
        n <= 16,
    ensures
        s@ == hex_text(bytes@.take(n as int)),
{
    let mut s: String = String::new();
    let mut i: usize = 0;
    assert(bytes@.take(0) =~= seq![]);
    assert(s@ =~= hex_text(bytes@.take(0)));
    while i < n
        invariant
            i <= n <= 16,
            s@ == hex_text(bytes@.take(i as int)),
        decreases n - i,
    {
        let b: u8 = bytes[i];
        let ghost s0 = s@;
        s.push(hex_char(b / 16));
        s.push(hex_char(b % 16));
        proof {
            assert(bytes@.take(i as int + 1).drop_last() =~= bytes@.take(i as int));
            assert(s@ =~= s0 + hex_byte(b));
        }
        i += 1;
    }
    s
}

/// How a session is told apart in logs: its first four bytes.
pub fn session_fp_hex(id: &[u8; 16]) -> (s: String)
    ensures
        s@ == hex_text(id@.take(4)),
{
    hex_prefix(id, 4)
}

// ---------------------------------------------------------------------------
// The process
// ---------------------------------------------------------------------------
#[derive(Clone, Copy, Debug, PartialEq, Eq, Structural)]
pub struct ProcessCounters {
    pub sessions_created: u64,
    pub sessions_live: u64,
    pub sessions_dead: u64,
}

impl ProcessCounters {
    pub open spec fn created(self) -> Self {
        ProcessCounters {
            sessions_created: plus(self.sessions_created, 1),
            sessions_live: plus(self.sessions_live, 1),
            ..self
        }
    }

    pub open spec fn died(self) -> Self {
        ProcessCounters {
            sessions_live: above(self.sessions_live as int, 1) as u64,
            sessions_dead: plus(self.sessions_dead, 1),
            ..self
        }
    }

    pub fn note_created(&mut self)
        ensures
            *final(self) == old(self).created(),
    {
        self.sessions_created = self.sessions_created.saturating_add(1);
        self.sessions_live = self.sessions_live.saturating_add(1);
    }

    pub fn note_dead(&mut self)
        ensures
            *final(self) == old(self).died(),
    {
        self.sessions_dead = self.sessions_dead.saturating_add(1);
        self.sessions_live = self.sessions_live.saturating_sub(1);
    }
}

// ---------------------------------------------------------------------------
// The table
// ---------------------------------------------------------------------------
pub struct Slot {
    pub id: [u8; 16],
    pub session: Session,
}

pub struct SessionTable {
    pub cfg: SessionConfig,
    pub slots: Vec<Slot>,
    pub closed: bool,
    pub process: ProcessCounters,
}

fn same_id(a: &[u8; 16], b: &[u8; 16]) -> (r: bool)
    ensures
        r == (a@ == b@),
{
    let mut i: usize = 0;
    while i < 16
        invariant
            i <= 16,
            forall|k: int| 0 <= k < i ==> a@[k] == b@[k],
        decreases 16 - i,
    {
        if a[i] != b[i] {
            assert(a@[i as int] != b@[i as int]);
            return false;
        }
        i += 1;
    }
    assert(a@ =~= b@);
    true
}

/// Where the slot of a session id is.
pub open spec fn slot_at(slots: Seq<Slot>, id: Seq<u8>, r: Option<int>) -> bool {
    match r {
        Some(i) => 0 <= i < slots.len() && slots[i].id@ == id,
        None => forall|i: int| 0 <= i < slots.len() ==> (#[trigger] slots[i]).id@ != id,
    }
}

/// The slots without the one at this place.
pub open spec fn without_slot(slots: Seq<Slot>, r: Option<int>) -> Seq<Slot> {
    match r {
        Some(i) => slots.remove(i),
        None => slots,
    }
}

/// The place as an executable one.
pub open spec fn place(r: Option<usize>) -> Option<int> {
    match r {
        Some(i) => Some(i as int),
        None => None,
    }
}

impl SessionTable {
    /// Sessions are well-formed and have ids of their own.
    pub open spec fn wf(self) -> bool {
        &&& self.cfg.wf()
        &&& forall|i: int| 0 <= i < self.slots@.len() ==> (#[trigger] self.slots@[i]).session.wf()
        &&& forall|i: int, j: int|
            0 <= i < j < self.slots@.len() ==> self.slots@[i].id@ != self.slots@[j].id@
    }

    pub fn new(cfg: SessionConfig) -> (t: Self)
        requires
            cfg.wf(),
        ensures
            t.wf(),
            t.cfg == cfg,
            t.slots@.len() == 0,
            !t.closed,
            t.process == (ProcessCounters {
                sessions_created: 0,
                sessions_live: 0,
                sessions_dead: 0,
            }),
    {
        SessionTable {
            cfg,
            slots: Vec::new(),
            closed: false,
            process: ProcessCounters { sessions_created: 0, sessions_live: 0, sessions_dead: 0 },
        }
    }

    pub fn is_closed(&self) -> (r: bool)
        ensures
            r == self.closed,
    {
        self.closed
    }

    fn find(&self, id: &[u8; 16]) -> (r: Option<usize>)
        ensures
            slot_at(self.slots@, id@, place(r)),
    {
        let mut i: usize = 0;
        while i < self.slots.len()
            invariant
                i <= self.slots@.len(),
                forall|k: int| 0 <= k < i ==> (#[trigger] self.slots@[k]).id@ != id@,
            decreases self.slots.len() - i,
        {
            if same_id(&self.slots[i].id, id) {
                return Some(i);
            }
            i += 1;
        }
        None
    }

    /// Forget a session id.
    pub fn remove(&mut self, id: &[u8; 16])
        requires
            old(self).wf(),
        ensures
            final(self).wf(),
            *final(self) == (SessionTable { slots: final(self).slots, ..*old(self) }),
            exists|r: Option<int>| #[trigger]
                slot_at(old(self).slots@, id@, r) && final(self).slots@ == without_slot(
                    old(self).slots@,
                    r,
                ),
            slot_at(final(self).slots@, id@, None),
    {
        let ghost ss = self.slots@;
        let at: Option<usize> = self.find(id);
        assert(slot_at(ss, id@, place(at)));
        match at {
            Some(i) => {
                let _ = self.slots.remove(i);
                proof {
                    assert(self.slots@ =~= ss.remove(i as int));
                    assert forall|k: int| 0 <= k < self.slots@.len() implies (
                    #[trigger] self.slots@[k]).id@ != id@ && self.slots@[k].session.wf() by {
                        if k < i {
                            assert(self.slots@[k] == ss[k]);
                        } else {
                            assert(self.slots@[k] == ss[k + 1]);
                        }
                    }
                    assert forall|a: int, b: int| 0 <= a < b < self.slots@.len() implies self.slots@[a].id@
                        != self.slots@[b].id@ by {
                        let x = if a < i {
                            a
                        } else {
                            a + 1
                        };
                        let y = if b < i {
                            b
                        } else {
                            b + 1
                        };
                        assert(ss[x].id@ != ss[y].id@);
                    }
                }
            },
            None => {},
        }
    }

    /// A new session under this id, in place of an older one; none once the
    /// table is shut down. It ends with its last path: nobody else can
    /// rejoin it.
    pub fn create(&mut self, id: [u8; 16]) -> (r: Option<usize>)
        requires
            old(self).wf(),
        ensures
            final(self).wf(),
            r is Some <==> !old(self).closed,
            match r {
                Some(i) => {
                    &&& i + 1 == final(self).slots@.len()
                    &&& final(self).slots@[i as int].id@ == id@
                    &&& fresh_server(final(self).slots@[i as int].session, old(self).cfg)
                    &&& exists|at: Option<int>| #[trigger]
                        slot_at(old(self).slots@, id@, at) && final(self).slots@.drop_last()
                            == without_slot(old(self).slots@, at)
                    &&& *final(self) == (SessionTable {
                        slots: final(self).slots,
                        process: old(self).process.created(),
                        ..*old(self)
                    })
                },
                None => *final(self) == *old(self),
            },
    {
        if self.closed {
            return None;
        }
        let ghost o = *self;
        self.remove(&id);
        let ghost mid = self.slots@;
        self.process.note_created();
        let mut session: Session = Session::new(self.cfg, false);
        session.marks.reap_on_all_down = true;
        self.slots.push(Slot { id, session });
        proof {
            assert(self.slots@.drop_last() =~= mid);
            assert forall|a: int, b: int| 0 <= a < b < self.slots@.len() implies self.slots@[a].id@
                != self.slots@[b].id@ by {
                if b == mid.len() {
                    assert(mid[a].id@ != id@);
                }
            }
        }
        Some(self.slots.len() - 1)
    }

    /// The slot of a live session. A dead one leaves the table here; a table
    /// that is shut down has none.
    pub fn get(&mut self, id: &[u8; 16]) -> (r: Option<usize>)
        requires
            old(self).wf(),
        ensures
            final(self).wf(),
            *final(self) == (SessionTable { slots: final(self).slots, ..*old(self) }),
            match r {
                Some(i) => {
                    &&& !old(self).closed
                    &&& final(self).slots@ == old(self).slots@
                    &&& slot_at(old(self).slots@, id@, Some(i as int))
                    &&& !old(self).slots@[i as int].session.marks.dead
                },
                None => {
                    ||| old(self).closed && final(self).slots@ == old(self).slots@
                    ||| !old(self).closed && exists|at: Option<int>| #[trigger]
                        slot_at(old(self).slots@, id@, at) && final(self).slots@ == without_slot(
                            old(self).slots@,
                            at,
                        ) && (at is Some ==> old(self).slots@[at->0].session.marks.dead)
                },
            },
    {
        if self.closed {
            return None;
        }
        let ghost o = *self;
        let at: Option<usize> = self.find(id);
        assert(slot_at(o.slots@, id@, place(at)));
        match at {
            Some(i) => {
                if self.slots[i].session.is_dead() {
                    self.remove(id);
                    proof {
                        let r = choose|r: Option<int>| #[trigger]
                            slot_at(o.slots@, id@, r) && self.slots@ == without_slot(o.slots@, r);
                        assert(slot_at(o.slots@, id@, place(at)));
                        if r is None {
                            assert(o.slots@[i as int].id@ != id@);
                        } else if r->0 != i as int {
                            assert(o.slots@[r->0].id@ == o.slots@[i as int].id@);
                        }
                    }
                    None
                } else {
                    Some(i)
                }
            },
            None => None,
        }
    }

    /// Forget every dead session.
    pub fn drop_dead(&mut self)
        requires
            old(self).wf(),
        ensures
            final(self).wf(),
            *final(self) == (SessionTable { slots: final(self).slots, ..*old(self) }),
            final(self).slots@ == live_slots(old(self).slots@),
    {
        let ghost o = *self;
        let mut rest: Vec<Slot> = Vec::new();
        std::mem::swap(&mut self.slots, &mut rest);
        let ghost all = rest@;
        let mut kept: Vec<Slot> = Vec::new();
        let ghost mut n: int = all.len() as int;
        assert(all.skip(n) =~= seq![]);
        while rest.len() > 0
            invariant
                n == rest@.len(),
                n <= all.len(),
                rest@ == all.take(n),
                kept@.reverse() == live_slots(all.skip(n)),
            decreases rest.len(),
        {
            let ghost k0 = kept@;
            match rest.pop() {
                Some(slot) => {
                    let ghost s0 = slot;
                    proof {
                        assert(s0 == all[n - 1]);
                        lemma_live_front(all.skip(n - 1));
                        assert(all.skip(n - 1).skip(1) =~= all.skip(n));
                    }
                    if !slot.session.is_dead() {
                        kept.push(slot);
                        assert(kept@.reverse() =~= seq![s0] + k0.reverse());
                    }
                    proof {
                        n = n - 1;
                        assert(rest@ =~= all.take(n));
                    }
                },
                None => {},
            }
        }
        assert(all.skip(0) =~= all);
        let ghost rev = kept@;
        let mut out: Vec<Slot> = Vec::new();
        while kept.len() > 0
            invariant
                kept@.len() + out@.len() == rev.len(),
                out@ == rev.skip(kept@.len() as int).reverse(),
                kept@ == rev.take(kept@.len() as int),
            decreases kept.len(),
        {
            let ghost o0 = out@;
            let ghost kl = kept@.len() as int;
            match kept.pop() {
                Some(slot) => {
                    let ghost s0 = slot;
                    out.push(slot);
                    proof {
                        assert(s0 == rev[kl - 1]);
                        assert(out@ =~= rev.skip(kl - 1).reverse());
                        assert(kept@ =~= rev.take(kl - 1));
                    }
                },
                None => {},
            }
        }
        assert(rev.skip(0) =~= rev);
        assert(out@ == live_slots(all));
        self.slots = out;
        proof {
            lemma_live_slots(all);
        }
    }

    /// End every session and take no more. The ended sessions come back, the
    /// last one first: what they still have to send is in their queues.
    pub fn shutdown_all<S: Scheduler>(&mut self, sched: &S, now: u64) -> (ended: Vec<EndedSlot>)
        requires
            old(self).wf(),
        ensures
            final(self).wf(),
            final(self).closed,
            final(self).slots@.len() == 0,
            final(self).cfg == old(self).cfg,
            final(self).process == died_times(old(self).process, ended@.len()),
            all_ended(sched, live_slots(old(self).slots@), ended@, now),
    {
        self.closed = true;
        let ghost o = *self;
        let mut rest: Vec<Slot> = Vec::new();
        std::mem::swap(&mut self.slots, &mut rest);
        let ghost all = rest@;
        let mut ended: Vec<EndedSlot> = Vec::new();
        let ghost mut n: int = all.len() as int;
        assert(all.skip(n) =~= seq![]);
        while rest.len() > 0
            invariant
                n == rest@.len(),
                n <= all.len(),
                rest@ == all.take(n),
                forall|i: int| 0 <= i < all.len() ==> (#[trigger] all[i]).session.wf(),
                all_ended(sched, live_slots(all.skip(n)), ended@, now),
                self.closed,
                self.slots@.len() == 0,
                self.cfg == o.cfg,
                self.process == died_times(o.process, ended@.len()),
            decreases rest.len(),
        {
            let ghost live = live_slots(all.skip(n));
            let ghost e0 = ended@;
            match rest.pop() {
                Some(slot) => {
                    let ghost s0 = slot;
                    proof {
                        assert(slot == all[n - 1]);
                        lemma_live_front(all.skip(n - 1));
                        assert(all.skip(n - 1).skip(1) =~= all.skip(n));
                        n = n - 1;
                        assert(rest@ =~= all.take(n));
                    }
                    let mut session: Session = slot.session;
                    match session.shutdown(sched, now) {
                        Some(death) => {
                            let e: EndedSlot = EndedSlot { id: slot.id, session, death };
                            let ghost eg = e;
                            ended.push(e);
                            self.process.note_dead();
                            proof {
                                let more = seq![s0] + live;
                                assert forall|k: int| 0 <= k < ended@.len() implies ended_as(
                                    sched,
                                    more[more.len() - 1 - k],
                                    #[trigger] ended@[k],
                                    now,
                                ) by {
                                    if k < e0.len() {
                                        assert(ended@[k] == e0[k]);
                                        assert(more[more.len() - 1 - k] == live[live.len() - 1 - k]);
                                    } else {
                                        assert(more[0] == s0);
                                        assert(ended@[k] == eg);
                                    }
                                }
                            }
                        },
                        None => {},
                    }
                },
                None => {},
            }
        }
        assert(all.skip(0) =~= all);
        ended
    }
}

/// A session that ended with its table.
pub struct EndedSlot {
    pub id: [u8; 16],
    pub session: Session,
    pub death: Death,
}

/// `e` is what became of the session in `slot`.
pub open spec fn ended_as<S: Scheduler>(sched: &S, slot: Slot, e: EndedSlot, now: u64) -> bool {
    e.id == slot.id && slot.session.dies(sched, e.session, true, e.death, now)
}

/// `ended` is what became of these slots, the last one first.
pub open spec fn all_ended<S: Scheduler>(
    sched: &S,
    live: Seq<Slot>,
    ended: Seq<EndedSlot>,
    now: u64,
) -> bool {
    &&& ended.len() == live.len()
    &&& forall|k: int|
        0 <= k < ended.len() ==> ended_as(sched, live[live.len() - 1 - k], #[trigger] ended[k], now)
}

/// The slots of sessions that are not dead, in order.
pub open spec fn live_slots(slots: Seq<Slot>) -> Seq<Slot>
    decreases slots.len(),
{
    if slots.len() == 0 {
        seq![]
    } else if slots[0].session.marks.dead {
        live_slots(slots.skip(1))
    } else {
        seq![slots[0]] + live_slots(slots.skip(1))
    }
}

/// The process after this many deaths.
pub open spec fn died_times(p: ProcessCounters, n: nat) -> ProcessCounters
    decreases n,
{
    if n == 0 {
        p
    } else {
        died_times(p, (n - 1) as nat).died()
    }
}

proof fn lemma_live_front(slots: Seq<Slot>)
    requires
        slots.len() > 0,
    ensures
        live_slots(slots) == if slots[0].session.marks.dead {
            live_slots(slots.skip(1))
        } else {
            seq![slots[0]] + live_slots(slots.skip(1))
        },
{
}

/// Live slots are slots, in order and without repeats.
proof fn lemma_live_slots(slots: Seq<Slot>)
    requires
        forall|i: int| 0 <= i < slots.len() ==> (#[trigger] slots[i]).session.wf(),
        forall|i: int, j: int| 0 <= i < j < slots.len() ==> slots[i].id@ != slots[j].id@,
    ensures
        ({
            let live = live_slots(slots);
            &&& forall|i: int| 0 <= i < live.len() ==> slots.contains(#[trigger] live[i])
            &&& forall|i: int| 0 <= i < live.len() ==> (#[trigger] live[i]).session.wf()
            &&& forall|i: int, j: int| 0 <= i < j < live.len() ==> live[i].id@ != live[j].id@
        }),
    decreases slots.len(),
{
    if slots.len() > 0 {
        let tail = slots.skip(1);
        assert forall|i: int| 0 <= i < tail.len() implies (#[trigger] tail[i]).session.wf() by {
            assert(tail[i] == slots[i + 1]);
        }
        assert forall|i: int, j: int| 0 <= i < j < tail.len() implies tail[i].id@ != tail[j].id@ by {
            assert(slots[i + 1].id@ != slots[j + 1].id@);
        }
        lemma_live_slots(tail);
        let live = live_slots(slots);
        let sub = live_slots(tail);
        assert forall|i: int| 0 <= i < sub.len() implies slots.contains(#[trigger] sub[i])
            && sub[i].id@ != slots[0].id@ by {
            assert(tail.contains(sub[i]));
            let j = choose|j: int| 0 <= j < tail.len() && tail[j] == sub[i];
            assert(slots[j + 1] == sub[i]);
            assert(slots[0].id@ != slots[j + 1].id@);
        }
        if !slots[0].session.marks.dead {
            assert(live[0] == slots[0]);
            assert forall|i: int| 0 <= i < live.len() implies slots.contains(#[trigger] live[i])
                && live[i].session.wf() by {
                if i > 0 {
                    assert(live[i] == sub[i - 1]);
                }
            }
            assert forall|i: int, j: int| 0 <= i < j < live.len() implies live[i].id@
                != live[j].id@ by {
                assert(live[j] == sub[j - 1]);
                if i > 0 {
                    assert(live[i] == sub[i - 1]);
                }
            }
        }
    }
}

/// A server session as the table makes it: it ends with its last path.
pub open spec fn fresh_server(s: Session, cfg: SessionConfig) -> bool {
    &&& s.marks.reap_on_all_down
    &&& fresh_session(
        (Session { marks: Marks { reap_on_all_down: false, ..s.marks }, ..s }),
        cfg,
        false,
    )
}

// ---------------------------------------------------------------------------
// Laws
// ---------------------------------------------------------------------------
/// Created sessions are live or dead: as long as nothing saturates, each
/// creation and each death moves exactly one session.
pub proof fn law_sessions_are_live_or_dead(p: ProcessCounters)
    requires
        p.sessions_created == p.sessions_live + p.sessions_dead,
        p.sessions_created < u64::MAX,
    ensures
        p.created().sessions_created == p.created().sessions_live + p.created().sessions_dead,
        p.sessions_live > 0 ==> p.died().sessions_created == p.died().sessions_live
            + p.died().sessions_dead,
{
}

/// Text in base sixteen tells the bytes apart: two bytes with one text are the
/// same, and each takes two characters.
pub proof fn law_hex_tells_bytes_apart(a: u8, b: u8)
    ensures
        hex_byte(a) == hex_byte(b) ==> a == b,
        hex_byte(a).len() == 2,
        ({
            let c = hex_byte(a)[0] as int;
            let v = if c >= 'a' as int {
                c - 'a' as int + 10
            } else {
                c - '0' as int
            };
            let d = hex_byte(a)[1] as int;
            let w = if d >= 'a' as int {
                d - 'a' as int + 10
            } else {
                d - '0' as int
            };
            a == v * 16 + w && 0 <= v < 16 && 0 <= w < 16
        }),
{
    if hex_byte(a) == hex_byte(b) {
        assert(hex_byte(a)[0] == hex_byte(b)[0]);
        assert(hex_byte(a)[1] == hex_byte(b)[1]);
    }
}

/// A session that is made is live; one that dies is dead and no longer live.
pub proof fn law_a_session_lives_then_dies(p: ProcessCounters)
    requires
        p.sessions_live < u64::MAX,
        p.sessions_created < u64::MAX,
        p.sessions_dead < u64::MAX,
    ensures
        p.created().sessions_live == p.sessions_live + 1,
        p.created().sessions_created == p.sessions_created + 1,
        p.created().sessions_dead == p.sessions_dead,
        p.created().died().sessions_live == p.sessions_live,
        p.created().died().sessions_dead == p.sessions_dead + 1,
        p.sessions_live == 0 ==> p.died().sessions_live == 0,
{
}

/// The live slots are the slots whose session is not dead.
pub proof fn law_live_slots_are_not_dead(slots: Seq<Slot>, s: Slot)
    ensures
        live_slots(slots).contains(s) <==> slots.contains(s) && !s.session.marks.dead,
        live_slots(slots).len() <= slots.len(),
    decreases slots.len(),
{
    if slots.len() > 0 {
        law_live_slots_are_not_dead(slots.skip(1), s);
        let rest = live_slots(slots.skip(1));
        assert(slots =~= seq![slots[0]] + slots.skip(1));
        if slots.skip(1).contains(s) {
            let i = choose|i: int| 0 <= i < slots.skip(1).len() && slots.skip(1)[i] == s;
            assert(slots[i + 1] == s);
        }
        if slots.contains(s) && s != slots[0] {
            let i = choose|i: int| 0 <= i < slots.len() && slots[i] == s;
            assert(slots.skip(1)[i - 1] == s);
        }
        if !slots[0].session.marks.dead {
            let all = seq![slots[0]] + rest;
            assert(all[0] == slots[0]);
            if rest.contains(s) {
                let i = choose|i: int| 0 <= i < rest.len() && rest[i] == s;
                assert(all[i + 1] == s);
            }
            if all.contains(s) && s != slots[0] {
                let i = choose|i: int| 0 <= i < all.len() && all[i] == s;
                assert(rest[i - 1] == s);
            }
        } else if slots.contains(s) && s == slots[0] {
            if rest.contains(s) {
            }
        }
    }
}

} // verus!
