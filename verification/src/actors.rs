//! Who throws faults, and when.
//!
//! Each link has an actor that first walks a list of kinds and then picks at
//! random; where there are slow links, one more takes all peers down at once.
//! They share a board that limits how many links are down at a time. The host
//! sleeps and touches the links; every call here takes the time and says what
//! to do next.

use vstd::prelude::*;
use vstd::string::*;

use crate::chance::draw;
use crate::faults::{
    all_kinds, change_text, describe, law_all_kinds_are_listed, law_mild_is_never_hard, mild_kinds,
    Fault, Kind,
};
use crate::mixed::Role;
use crate::text::{decimal, push_decimal, str_eq, text};

verus! {

/// A second, in microseconds.
pub const SECOND: u64 = 1_000_000;

/// Wait before another try for a place among the links that are down.
pub const HARD_RETRY_MS: u64 = 400;

/// Wait before another look at the links that are down.
pub const STORM_POLL_MS: u64 = 50;

/// Most peer collapses of a run.
pub const MAX_COLLAPSES: u32 = 2;

// ---------------------------------------------------------------------------
// The board
// ---------------------------------------------------------------------------
/// A fault that took place.
pub struct FaultEvent {
    pub t_ms: u64,
    pub link: String,
    /// Nothing for a collapse of all peers.
    pub kind: Option<Kind>,
    pub hold_ms: u64,
    pub note: String,
}

/// A fault that took place, over its texts.
pub struct EventView {
    pub t_ms: u64,
    pub link: Seq<char>,
    pub kind: Option<Kind>,
    pub hold_ms: u64,
    pub note: Seq<char>,
}

impl FaultEvent {
    pub open spec fn view(self) -> EventView {
        EventView {
            t_ms: self.t_ms,
            link: self.link@,
            kind: self.kind,
            hold_ms: self.hold_ms,
            note: self.note@,
        }
    }
}

pub open spec fn event_views(v: Seq<FaultEvent>) -> Seq<EventView> {
    v.map_values(|e: FaultEvent| e@)
}

/// How often a link took a kind.
pub open spec fn times(events: Seq<EventView>, link: Seq<char>, kind: Kind) -> nat
    decreases events.len(),
{
    if events.len() == 0 {
        0
    } else {
        times(events.drop_last(), link, kind) + if events.last().link == link
            && events.last().kind == Some(kind) {
            1nat
        } else {
            0nat
        }
    }
}

/// Some link took a kind.
pub open spec fn took_place(events: Seq<EventView>, kind: Kind) -> bool {
    exists|i: int| 0 <= i < events.len() && (#[trigger] events[i]).kind == Some(kind)
}

/// What the actors of a run share.
pub struct Board {
    pub harsh: bool,
    /// Links that are down now, and how many may be.
    pub hard: u32,
    pub max_hard: u32,
    /// All peers are about to go down, or are down.
    pub storm: bool,
    pub events: Vec<FaultEvent>,
}

impl Board {
    /// No more links are down than may be.
    pub open spec fn wf(self) -> bool {
        self.hard <= self.max_hard && self.max_hard >= 1
    }

    pub fn new(max_hard: u32, harsh: bool) -> (b: Self)
        ensures
            b.wf(),
            b.harsh == harsh,
            b.hard == 0,
            b.max_hard == if max_hard == 0 {
                1
            } else {
                max_hard
            },
            !b.storm,
            event_views(b.events@) == Seq::<EventView>::empty(),
    {
        let b: Board = Board {
            harsh,
            hard: 0,
            max_hard: if max_hard == 0 {
                1
            } else {
                max_hard
            },
            storm: false,
            events: Vec::new(),
        };
        assert(event_views(b.events@) =~= Seq::<EventView>::empty());
        b
    }

    /// Another link may go down.
    pub open spec fn has_place(self) -> bool {
        !self.storm && self.hard < self.max_hard
    }

    /// Take a place among the links that are down.
    pub fn take_hard(&mut self) -> (got: bool)
        requires
            old(self).wf(),
        ensures
            got == old(self).has_place(),
            *final(self) == if got {
                Board { hard: (old(self).hard + 1) as u32, ..*old(self) }
            } else {
                *old(self)
            },
            final(self).wf(),
    {
        if !self.storm && self.hard < self.max_hard {
            self.hard = self.hard + 1;
            true
        } else {
            false
        }
    }

    /// Give a place back.
    pub fn give_hard(&mut self)
        requires
            old(self).wf(),
            old(self).hard > 0,
        ensures
            *final(self) == (Board { hard: (old(self).hard - 1) as u32, ..*old(self) }),
            final(self).wf(),
    {
        self.hard = self.hard - 1;
    }

    /// The same board but for its events.
    pub open spec fn same_state(self, b: Board) -> bool {
        b == (Board { events: b.events, ..self })
    }

    /// Write a fault down as it starts.
    pub fn note_fault(&mut self, link: &str, f: &Fault, t_ms: u64)
        ensures
            old(self).same_state(*final(self)),
            event_views(final(self).events@) == event_views(old(self).events@).push(
                EventView {
                    t_ms,
                    link: link@,
                    kind: Some(f.kind),
                    hold_ms: f.hold_ms,
                    note: change_text(f.change),
                },
            ),
    {
        let e: FaultEvent = FaultEvent {
            t_ms,
            link: text(link),
            kind: Some(f.kind),
            hold_ms: f.hold_ms,
            note: describe(f.change),
        };
        let ghost ev = e@;
        self.events.push(e);
        assert(event_views(self.events@) =~= event_views(old(self).events@).push(ev));
    }

    /// How often a link took a kind.
    pub fn count(&self, link: &str, kind: Kind) -> (n: u64)
        ensures
            n == times(event_views(self.events@), link@, kind),
    {
        let ghost ev = event_views(self.events@);
        let mut n: u64 = 0;
        let mut i: usize = 0;
        assert(ev.take(0) =~= seq![]);
        while i < self.events.len()
            invariant
                i <= self.events@.len(),
                ev == event_views(self.events@),
                n == times(ev.take(i as int), link@, kind),
                n <= i,
            decreases self.events.len() - i,
        {
            assert(ev.take(i as int + 1).drop_last() =~= ev.take(i as int));
            let hit: bool = match self.events[i].kind {
                Some(k) => k == kind && str_eq(self.events[i].link.as_str(), link),
                None => false,
            };
            if hit {
                n += 1;
            }
            i += 1;
        }
        assert(ev.take(ev.len() as int) =~= ev);
        n
    }

    /// Kinds that no link took, in order.
    pub fn missing(&self) -> (v: Vec<Kind>)
        ensures
            v@ == missing_of(all_kinds(), event_views(self.events@)),
    {
        let ghost ev = event_views(self.events@);
        let all: Vec<Kind> = Kind::all();
        let mut v: Vec<Kind> = Vec::new();
        let mut i: usize = 0;
        assert(all@.take(0) =~= seq![]);
        while i < all.len()
            invariant
                i <= all@.len(),
                ev == event_views(self.events@),
                v@ == missing_of(all@.take(i as int), ev),
            decreases all.len() - i,
        {
            assert(all@.take(i as int + 1).drop_last() =~= all@.take(i as int));
            if !self.seen(all[i]) {
                v.push(all[i]);
            }
            i += 1;
        }
        assert(all@.take(all@.len() as int) =~= all@);
        v
    }

    fn seen(&self, kind: Kind) -> (r: bool)
        ensures
            r == took_place(event_views(self.events@), kind),
    {
        let ghost ev = event_views(self.events@);
        let mut i: usize = 0;
        while i < self.events.len()
            invariant
                i <= self.events@.len(),
                ev == event_views(self.events@),
                forall|k: int| 0 <= k < i ==> (#[trigger] ev[k]).kind != Some(kind),
            decreases self.events.len() - i,
        {
            assert(ev[i as int].kind == self.events@[i as int].kind);
            match self.events[i].kind {
                Some(k) => {
                    if k == kind {
                        return true;
                    }
                },
                None => {},
            }
            i += 1;
        }
        false
    }
}

/// The kinds among these that did not take place, in order.
pub open spec fn missing_of(kinds: Seq<Kind>, events: Seq<EventView>) -> Seq<Kind>
    decreases kinds.len(),
{
    if kinds.len() == 0 {
        seq![]
    } else if took_place(events, kinds.last()) {
        missing_of(kinds.drop_last(), events)
    } else {
        missing_of(kinds.drop_last(), events).push(kinds.last())
    }
}

// ---------------------------------------------------------------------------
// Draws
// ---------------------------------------------------------------------------
/// `rand`'s `SliceRandom::choose`: any of the kinds, which one is left to
/// chance. The list must not be empty.
#[verifier::external_body]
pub(crate) fn choose_kind(pool: &Vec<Kind>, rng: &mut rand::rngs::StdRng) -> (k: Kind)
    requires
        pool@.len() > 0,
    ensures
        pool@.contains(k),
{
    *rand::seq::SliceRandom::choose(pool.as_slice(), rng).unwrap()
}

/// `rand`'s `SliceRandom::shuffle`: the same kinds, each as often, in an order
/// left to chance.
#[verifier::external_body]
pub(crate) fn shuffle(kinds: &mut Vec<Kind>, rng: &mut rand::rngs::StdRng)
    ensures
        final(kinds)@.to_multiset() == old(kinds)@.to_multiset(),
{
    rand::seq::SliceRandom::shuffle(kinds.as_mut_slice(), rng)
}

/// All kinds, in an order left to chance.
pub fn shuffled_kinds(rng: &mut rand::rngs::StdRng) -> (v: Vec<Kind>)
    ensures
        v@.to_multiset() == all_kinds().to_multiset(),
        v@.len() == all_kinds().len(),
{
    let mut v: Vec<Kind> = Kind::all();
    shuffle(&mut v, rng);
    proof {
        v@.to_multiset_ensures();
        all_kinds().to_multiset_ensures();
        assert(v@.len() == v@.to_multiset().len());
    }
    v
}

/// The kinds that a link walks through: a slow link the mild ones, a peer all
/// of them, each peer starting three further on.
pub open spec fn coverage_of(kinds: Seq<Kind>, i: int, role: Role) -> Seq<Kind> {
    if role is Slow {
        mild_kinds()
    } else {
        let by = i * 3 % (kinds.len() as int);
        kinds.skip(by) + kinds.take(by)
    }
}

pub fn coverage_for(kinds: &Vec<Kind>, i: usize, role: Role) -> (v: Vec<Kind>)
    requires
        kinds@.len() > 0,
        i <= usize::MAX / 3,
    ensures
        v@ == coverage_of(kinds@, i as int, role),
{
    match role {
        Role::Slow => Kind::mild(),
        Role::Peer => {
            let n: usize = kinds.len();
            let by: usize = i * 3 % n;
            let mut v: Vec<Kind> = Vec::new();
            let mut k: usize = by;
            while k < n
                invariant
                    by <= k <= n,
                    n == kinds@.len(),
                    v@ == kinds@.subrange(by as int, k as int),
                decreases n - k,
            {
                v.push(kinds[k]);
                assert(v@ =~= kinds@.subrange(by as int, k as int + 1));
                k += 1;
            }
            assert(v@ =~= kinds@.skip(by as int));
            k = 0;
            assert(v@ =~= kinds@.skip(by as int) + kinds@.take(0));
            while k < by
                invariant
                    k <= by < n,
                    n == kinds@.len(),
                    v@ == kinds@.skip(by as int) + kinds@.take(k as int),
                decreases by - k,
            {
                v.push(kinds[k]);
                assert(v@ =~= kinds@.skip(by as int) + kinds@.take(k as int + 1));
                k += 1;
            }
            v
        },
    }
}

// ---------------------------------------------------------------------------
// Pauses
// ---------------------------------------------------------------------------
/// The pauses of an actor.
#[derive(Clone, Copy, Debug, PartialEq, Eq, Structural)]
pub enum Pause {
    /// Before a fault of the list.
    Idle,
    /// After one.
    Gap,
    /// Before a random fault.
    Loop,
}

/// Bounds of a pause, in milliseconds.
pub open spec fn pause_span(p: Pause, harsh: bool, slow: bool) -> (u64, u64) {
    match p {
        Pause::Idle => if slow {
            (5000, 15000)
        } else if harsh {
            (400, 2000)
        } else {
            (800, 3500)
        },
        Pause::Gap => if slow {
            (4000, 12000)
        } else if harsh {
            (800, 2500)
        } else {
            (1500, 4000)
        },
        Pause::Loop => if slow {
            (8000, 20000)
        } else if harsh {
            (800, 4000)
        } else {
            (2000, 8000)
        },
    }
}

pub fn pause_range(p: Pause, harsh: bool, slow: bool) -> (r: (u64, u64))
    ensures
        r == pause_span(p, harsh, slow),
        r.0 <= r.1,
{
    match p {
        Pause::Idle => if slow {
            (5000, 15000)
        } else if harsh {
            (400, 2000)
        } else {
            (800, 3500)
        },
        Pause::Gap => if slow {
            (4000, 12000)
        } else if harsh {
            (800, 2500)
        } else {
            (1500, 4000)
        },
        Pause::Loop => if slow {
            (8000, 20000)
        } else if harsh {
            (800, 4000)
        } else {
            (2000, 8000)
        },
    }
}

// ---------------------------------------------------------------------------
// The actor of a link
// ---------------------------------------------------------------------------
/// Where an actor stands.
#[derive(Clone, Copy, Debug, PartialEq, Eq, Structural)]
pub enum Phase {
    /// About to pause before a fault of the list.
    Next,
    /// About to throw a fault of the list.
    Throw,
    /// The fault of the list is over, or was given up.
    After,
    /// About to pause before a random fault.
    Round,
    /// About to throw a random fault.
    Random,
    /// A random fault is over.
    AfterRandom,
    Done,
}

/// What the host does for an actor before it asks again.
#[derive(Clone, Copy, Debug, PartialEq, Eq, Structural)]
pub enum Action {
    /// Wait for this many milliseconds.
    Sleep(u64),
    /// Throw a fault of this kind, wait until it is over, and lift it.
    Fire(Kind),
    /// Lift whatever is left.
    Stop,
}

pub struct Actor {
    pub list: Vec<Kind>,
    /// Place in the list.
    pub at: usize,
    pub phase: Phase,
    pub slow: bool,
    /// The fault it throws holds a place among the links that are down.
    pub holds: bool,
}

/// An actor, over its list.
pub struct ActorView {
    pub list: Seq<Kind>,
    pub at: int,
    pub phase: Phase,
    pub slow: bool,
    pub holds: bool,
}

/// An actor, the board and what the host is to do.
pub struct Turn {
    pub actor: ActorView,
    pub hard: int,
    pub action: Action,
}

/// Less than `secs` seconds are left.
pub open spec fn late(now: u64, deadline: u64, secs: int) -> bool {
    now + secs * SECOND >= deadline
}

fn is_late(now: u64, deadline: u64, secs: u64) -> (r: bool)
    requires
        secs <= 3600,
    ensures
        r == late(now, deadline, secs as int),
{
    let margin: u64 = secs * SECOND;
    now as u128 + margin as u128 >= deadline as u128
}

impl ActorView {
    /// An actor that has not thrown anything holds nothing.
    pub open spec fn wf(self) -> bool {
        &&& 0 <= self.at <= self.list.len()
        &&& self.holds ==> self.phase is After || self.phase is AfterRandom
        &&& self.phase is Throw ==> self.at < self.list.len()
        &&& self.slow ==> forall|i: int|
            0 <= i < self.list.len() ==> mild_kinds().contains(#[trigger] self.list[i])
    }

    /// The actor after it gave back what it held.
    pub open spec fn freed(self) -> ActorView {
        ActorView { holds: false, ..self }
    }

    /// Next turn at the top of the list.
    pub open spec fn turn_next(self, hard: int, late4: bool, late6: bool, pause: u64) -> Turn {
        if self.at >= self.list.len() || late4 {
            self.turn_round(hard, late6, pause)
        } else {
            Turn {
                actor: ActorView { phase: Phase::Throw, ..self },
                hard,
                action: Action::Sleep(pause),
            }
        }
    }

    /// Next turn at the top of the random faults.
    pub open spec fn turn_round(self, hard: int, late6: bool, pause: u64) -> Turn {
        if late6 {
            Turn { actor: ActorView { phase: Phase::Done, ..self }, hard, action: Action::Stop }
        } else {
            Turn {
                actor: ActorView { phase: Phase::Random, ..self },
                hard,
                action: Action::Sleep(pause),
            }
        }
    }

    /// The turn that follows: `room` where another link may go down, `pause`
    /// and `kind` drawn for it, and whether less than four and six seconds are
    /// left.
    pub open spec fn turn(
        self,
        hard: int,
        room: bool,
        late4: bool,
        late6: bool,
        pause: u64,
        kind: Kind,
    ) -> Turn {
        match self.phase {
            Phase::Next => self.turn_next(hard, late4, late6, pause),
            Phase::Throw => {
                let k = self.list[self.at];
                if !k.is_hard() {
                    Turn {
                        actor: ActorView { phase: Phase::After, ..self },
                        hard,
                        action: Action::Fire(k),
                    }
                } else if late4 {
                    Turn {
                        actor: ActorView { phase: Phase::Next, at: self.at + 1, ..self },
                        hard,
                        action: Action::Sleep(pause),
                    }
                } else if room {
                    Turn {
                        actor: ActorView { phase: Phase::After, holds: true, ..self },
                        hard: hard + 1,
                        action: Action::Fire(k),
                    }
                } else {
                    Turn { actor: self, hard, action: Action::Sleep(HARD_RETRY_MS) }
                }
            },
            Phase::After => Turn {
                actor: ActorView {
                    phase: Phase::Next,
                    at: if self.at < self.list.len() {
                        self.at + 1
                    } else {
                        self.at
                    },
                    holds: false,
                    ..self
                },
                hard: if self.holds {
                    hard - 1
                } else {
                    hard
                },
                action: Action::Sleep(pause),
            },
            Phase::Round => self.turn_round(hard, late6, pause),
            Phase::Random => {
                if late6 {
                    Turn {
                        actor: ActorView { phase: Phase::Done, ..self },
                        hard,
                        action: Action::Stop,
                    }
                } else if kind.is_hard() && room {
                    Turn {
                        actor: ActorView { phase: Phase::AfterRandom, holds: true, ..self },
                        hard: hard + 1,
                        action: Action::Fire(kind),
                    }
                } else {
                    Turn {
                        actor: ActorView { phase: Phase::AfterRandom, ..self },
                        hard,
                        action: Action::Fire(
                            if kind.is_hard() {
                                Kind::DelaySpike
                            } else {
                                kind
                            },
                        ),
                    }
                }
            },
            Phase::AfterRandom => self.freed().turn_round(
                if self.holds {
                    hard - 1
                } else {
                    hard
                },
                late6,
                pause,
            ),
            Phase::Done => Turn { actor: self, hard, action: Action::Stop },
        }
    }
}

impl Actor {
    pub open spec fn view(self) -> ActorView {
        ActorView {
            list: self.list@,
            at: self.at as int,
            phase: self.phase,
            slow: self.slow,
            holds: self.holds,
        }
    }

    pub open spec fn wf(self) -> bool {
        self@.wf()
    }

    pub fn new(list: Vec<Kind>, role: Role) -> (a: Self)
        requires
            role is Slow ==> forall|i: int|
                0 <= i < list@.len() ==> mild_kinds().contains(#[trigger] list@[i]),
        ensures
            a@ == (ActorView {
                list: list@,
                at: 0,
                phase: Phase::Next,
                slow: role is Slow,
                holds: false,
            }),
            a.wf(),
    {
        let slow: bool = match role {
            Role::Slow => true,
            Role::Peer => false,
        };
        Actor { list, at: 0, phase: Phase::Next, slow, holds: false }
    }

    /// The pause that the next turn may take.
    pub open spec fn pause_due(self) -> Pause {
        match self.phase {
            Phase::Next => if self.at < self.list@.len() {
                Pause::Idle
            } else {
                Pause::Loop
            },
            Phase::Throw => Pause::Gap,
            Phase::After => Pause::Gap,
            _ => Pause::Loop,
        }
    }

    /// The list has no fault left that there is time for.
    pub fn pass_list(&mut self, now: u64, deadline: u64)
        requires
            old(self).wf(),
        ensures
            final(self)@ == (ActorView {
                phase: if old(self).phase is Next && (old(self).at >= old(self).list@.len() || late(
                    now,
                    deadline,
                    4,
                )) {
                    Phase::Round
                } else {
                    old(self).phase
                },
                ..old(self)@
            }),
            final(self).wf(),
    {
        match self.phase {
            Phase::Next => {
                if self.at >= self.list.len() || is_late(now, deadline, 4) {
                    self.phase = Phase::Round;
                }
            },
            _ => {},
        }
    }

    fn round(&mut self, now: u64, deadline: u64, pause: u64) -> (r: Action)
        requires
            old(self).wf(),
            !old(self).holds,
        ensures
            ({
                let t = old(self)@.turn_round(0, late(now, deadline, 6), pause);
                final(self)@ == t.actor && r == t.action
            }),
    {
        if is_late(now, deadline, 6) {
            self.phase = Phase::Done;
            Action::Stop
        } else {
            self.phase = Phase::Random;
            Action::Sleep(pause)
        }
    }

    /// The turn that follows from what was drawn.
    pub fn advance(
        &mut self,
        board: &mut Board,
        now: u64,
        deadline: u64,
        pause: u64,
        kind: Kind,
    ) -> (r: Action)
        requires
            old(self).wf(),
            old(board).wf(),
            old(self).holds ==> old(board).hard > 0,
            old(self).slow ==> mild_kinds().contains(kind),
        ensures
            ({
                let t = old(self)@.turn(
                    old(board).hard as int,
                    old(board).has_place(),
                    late(now, deadline, 4),
                    late(now, deadline, 6),
                    pause,
                    kind,
                );
                &&& final(self)@ == t.actor
                &&& r == t.action
                &&& *final(board) == (Board { hard: t.hard as u32, ..*old(board) })
            }),
            final(self).wf(),
            final(board).wf(),
    {
        match self.phase {
            Phase::Next => {
                if self.at >= self.list.len() || is_late(now, deadline, 4) {
                    self.round(now, deadline, pause)
                } else {
                    self.phase = Phase::Throw;
                    Action::Sleep(pause)
                }
            },
            Phase::Throw => {
                let n: usize = self.list.len();
                assert(self.at < n);
                let k: Kind = self.list[self.at];
                if !k.hard_down() {
                    self.phase = Phase::After;
                    Action::Fire(k)
                } else if is_late(now, deadline, 4) {
                    self.phase = Phase::Next;
                    self.at += 1;
                    Action::Sleep(pause)
                } else if board.take_hard() {
                    self.phase = Phase::After;
                    self.holds = true;
                    Action::Fire(k)
                } else {
                    Action::Sleep(HARD_RETRY_MS)
                }
            },
            Phase::After => {
                if self.holds {
                    board.give_hard();
                    self.holds = false;
                }
                self.phase = Phase::Next;
                if self.at < self.list.len() {
                    self.at += 1;
                }
                Action::Sleep(pause)
            },
            Phase::Round => self.round(now, deadline, pause),
            Phase::Random => {
                if is_late(now, deadline, 6) {
                    self.phase = Phase::Done;
                    return Action::Stop;
                }
                self.phase = Phase::AfterRandom;
                if kind.hard_down() {
                    if board.take_hard() {
                        self.holds = true;
                        Action::Fire(kind)
                    } else {
                        Action::Fire(Kind::DelaySpike)
                    }
                } else {
                    Action::Fire(kind)
                }
            },
            Phase::AfterRandom => {
                if self.holds {
                    board.give_hard();
                    self.holds = false;
                }
                self.round(now, deadline, pause)
            },
            Phase::Done => Action::Stop,
        }
    }

    /// The next turn, with its pause and its kind drawn.
    pub fn step(
        &mut self,
        board: &mut Board,
        now: u64,
        deadline: u64,
        rng: &mut rand::rngs::StdRng,
    ) -> (r: Action)
        requires
            old(self).wf(),
            old(board).wf(),
            old(self).holds ==> old(board).hard > 0,
        ensures
            stepped(*old(self), *old(board), now, deadline, *final(self), *final(board), r),
            final(self).wf(),
            final(board).wf(),
    {
        self.pass_list(now, deadline);
        let p: Pause = match self.phase {
            Phase::Next => Pause::Idle,
            Phase::Throw => Pause::Gap,
            Phase::After => Pause::Gap,
            _ => Pause::Loop,
        };
        let (lo, hi): (u64, u64) = pause_range(p, board.harsh, self.slow);
        let pause: u64 = draw(rng, lo, hi);
        let pool: Vec<Kind> = if self.slow {
            Kind::mild()
        } else {
            Kind::all()
        };
        let kind: Kind = choose_kind(&pool, rng);
        let ghost mid = *self;
        let ghost b0 = *board;
        assert(p == mid.pause_due());
        assert(drawn(mid, b0.harsh, pause, kind));
        let r: Action = self.advance(board, now, deadline, pause, kind);
        r
    }
}

/// A pause and a kind that may be drawn for an actor's next turn.
pub open spec fn drawn(a: Actor, harsh: bool, pause: u64, kind: Kind) -> bool {
    let (lo, hi) = pause_span(a.pause_due(), harsh, a.slow);
    &&& lo <= pause <= hi
    &&& if a.slow {
        mild_kinds().contains(kind)
    } else {
        all_kinds().contains(kind)
    }
}

/// An actor took a turn with a pause and a kind that may be drawn for it.
pub open spec fn stepped(
    a: Actor,
    b: Board,
    now: u64,
    deadline: u64,
    a1: Actor,
    b1: Board,
    r: Action,
) -> bool {
    let from = ActorView {
        phase: if a.phase is Next && (a.at >= a.list@.len() || late(now, deadline, 4)) {
            Phase::Round
        } else {
            a.phase
        },
        ..a@
    };
    exists|m: Actor, pause: u64, kind: Kind|
        #![trigger drawn(m, b.harsh, pause, kind)]
        m@ == from && drawn(m, b.harsh, pause, kind) && {
            let t = from.turn(
                b.hard as int,
                b.has_place(),
                late(now, deadline, 4),
                late(now, deadline, 6),
                pause,
                kind,
            );
            &&& a1@ == t.actor
            &&& r == t.action
            &&& b1 == (Board { hard: t.hard as u32, ..b })
        }
}

// ---------------------------------------------------------------------------
// All peers at once
// ---------------------------------------------------------------------------
/// Where the collapse stands.
#[derive(Clone, Copy, Debug, PartialEq, Eq, Structural)]
pub enum Stage {
    Top,
    Woke,
    /// Waits for the links that are down, until then.
    Quiesce(u64),
    Dark,
    Over,
}

/// What the host does for the collapse before it asks again.
#[derive(Clone, Copy, Debug, PartialEq, Eq, Structural)]
pub enum CollapseAction {
    Sleep(u64),
    /// Blackhole every peer for this many milliseconds.
    Darken(u64),
    /// Bring every peer back.
    Lift,
    Stop,
}

#[derive(Clone, Copy, Debug, PartialEq, Eq, Structural)]
pub struct Collapse {
    pub stage: Stage,
    /// Collapses so far.
    pub n: u32,
}

/// The collapse, the flag on the board, and what the host is to do.
pub struct CollapseTurn {
    pub to: Collapse,
    pub storm: bool,
    pub action: CollapseAction,
}

impl Collapse {
    pub open spec fn wf(self) -> bool {
        &&& self.n <= MAX_COLLAPSES
        &&& self.stage is Quiesce ==> self.n < MAX_COLLAPSES
    }

    /// Peers are down, or about to be.
    pub open spec fn storming(self) -> bool {
        self.stage is Quiesce || self.stage is Dark
    }

    /// The turn that follows: `rest` before the next collapse, in seconds,
    /// and `dark`, in milliseconds, are drawn for it.
    pub open spec fn turn(
        self,
        hard: u32,
        storm: bool,
        now: u64,
        deadline: u64,
        rest: u64,
        dark: u64,
    ) -> CollapseTurn {
        match self.stage {
            Stage::Top => if late(now, deadline, 20) {
                CollapseTurn {
                    to: Collapse { stage: Stage::Over, ..self },
                    storm: false,
                    action: CollapseAction::Stop,
                }
            } else {
                CollapseTurn {
                    to: Collapse { stage: Stage::Woke, ..self },
                    storm,
                    action: CollapseAction::Sleep((rest * 1000) as u64),
                }
            },
            Stage::Woke => if late(now, deadline, 8) || self.n >= MAX_COLLAPSES {
                CollapseTurn {
                    to: Collapse { stage: Stage::Over, ..self },
                    storm: false,
                    action: CollapseAction::Stop,
                }
            } else {
                CollapseTurn {
                    to: Collapse {
                        stage: Stage::Quiesce(crate::num::capped(now + 4 * SECOND) as u64),
                        ..self
                    },
                    storm: true,
                    action: CollapseAction::Sleep(0),
                }
            },
            Stage::Quiesce(until) => if hard > 0 && now < until {
                CollapseTurn { to: self, storm, action: CollapseAction::Sleep(STORM_POLL_MS) }
            } else {
                CollapseTurn {
                    to: Collapse { stage: Stage::Dark, n: (self.n + 1) as u32 },
                    storm,
                    action: CollapseAction::Darken(dark),
                }
            },
            Stage::Dark => CollapseTurn {
                to: Collapse { stage: Stage::Top, ..self },
                storm: false,
                action: CollapseAction::Lift,
            },
            Stage::Over => CollapseTurn { to: self, storm: false, action: CollapseAction::Stop },
        }
    }

    pub fn new() -> (c: Self)
        ensures
            c == (Collapse { stage: Stage::Top, n: 0 }),
            c.wf(),
    {
        Collapse { stage: Stage::Top, n: 0 }
    }

    /// The turn that follows from what was drawn; a collapse is written down
    /// as it starts.
    pub fn advance(
        &mut self,
        board: &mut Board,
        peers: u64,
        now: u64,
        deadline: u64,
        t_ms: u64,
        rest: u64,
        dark: u64,
    ) -> (r: CollapseAction)
        requires
            old(self).wf(),
            rest <= 280,
        ensures
            ({
                let t = old(self).turn(
                    old(board).hard,
                    old(board).storm,
                    now,
                    deadline,
                    rest,
                    dark,
                );
                &&& *final(self) == t.to
                &&& r == t.action
                &&& *final(board) == (Board {
                    storm: t.storm,
                    events: final(board).events,
                    ..*old(board)
                })
                &&& event_views(final(board).events@) == if r is Darken {
                    event_views(old(board).events@).push(collapse_event(t_ms, peers))
                } else {
                    event_views(old(board).events@)
                }
            }),
            final(self).wf(),
    {
        match self.stage {
            Stage::Top => {
                if is_late(now, deadline, 20) {
                    self.stage = Stage::Over;
                    board.storm = false;
                    CollapseAction::Stop
                } else {
                    self.stage = Stage::Woke;
                    CollapseAction::Sleep(rest * 1000)
                }
            },
            Stage::Woke => {
                if is_late(now, deadline, 8) || self.n >= MAX_COLLAPSES {
                    self.stage = Stage::Over;
                    board.storm = false;
                    CollapseAction::Stop
                } else {
                    board.storm = true;
                    self.stage = Stage::Quiesce(now.saturating_add(4 * SECOND));
                    CollapseAction::Sleep(0)
                }
            },
            Stage::Quiesce(until) => {
                if board.hard > 0 && now < until {
                    CollapseAction::Sleep(STORM_POLL_MS)
                } else {
                    self.n = self.n + 1;
                    self.stage = Stage::Dark;
                    let mut note: String = text("peers=");
                    push_decimal(&mut note, peers);
                    let e: FaultEvent = FaultEvent {
                        t_ms,
                        link: text("*"),
                        kind: None,
                        hold_ms: 0,
                        note,
                    };
                    let ghost ev = e@;
                    board.events.push(e);
                    proof {
                        assert(ev == collapse_event(t_ms, peers));
                        assert(event_views(board.events@) =~= event_views(old(board).events@).push(
                            ev,
                        ));
                    }
                    CollapseAction::Darken(dark)
                }
            },
            Stage::Dark => {
                self.stage = Stage::Top;
                board.storm = false;
                CollapseAction::Lift
            },
            Stage::Over => {
                board.storm = false;
                CollapseAction::Stop
            },
        }
    }

    /// The next turn, with its rest and its darkness drawn.
    pub fn step(
        &mut self,
        board: &mut Board,
        peers: u64,
        now: u64,
        deadline: u64,
        t_ms: u64,
        rng: &mut rand::rngs::StdRng,
    ) -> (r: CollapseAction)
        requires
            old(self).wf(),
        ensures
            exists|rest: u64, dark: u64|
                #![trigger
                    old(self).turn(old(board).hard, old(board).storm, now, deadline, rest, dark)]
                180 <= rest <= 280 && 800 <= dark <= 1500 && {
                    let t = old(self).turn(
                        old(board).hard,
                        old(board).storm,
                        now,
                        deadline,
                        rest,
                        dark,
                    );
                    &&& *final(self) == t.to
                    &&& r == t.action
                    &&& *final(board) == (Board {
                        storm: t.storm,
                        events: final(board).events,
                        ..*old(board)
                    })
                    &&& event_views(final(board).events@) == if r is Darken {
                        event_views(old(board).events@).push(collapse_event(t_ms, peers))
                    } else {
                        event_views(old(board).events@)
                    }
                },
            final(self).wf(),
    {
        let rest: u64 = draw(rng, 180, 280);
        let dark: u64 = draw(rng, 800, 1500);
        self.advance(board, peers, now, deadline, t_ms, rest, dark)
    }
}

/// A collapse as it is written down.
pub open spec fn collapse_event(t_ms: u64, peers: u64) -> EventView {
    EventView {
        t_ms,
        link: "*"@,
        kind: None,
        hold_ms: 0,
        note: "peers="@ + decimal(peers as int),
    }
}

// ---------------------------------------------------------------------------
// Laws
// ---------------------------------------------------------------------------
/// No turn brings more links down than may be, none goes down in a storm, and
/// an actor gives back exactly what it took.
pub proof fn law_hard_places_are_kept(
    a: ActorView,
    b: Board,
    late4: bool,
    late6: bool,
    pause: u64,
    kind: Kind,
)
    requires
        a.wf(),
        b.wf(),
        a.holds ==> b.hard > 0,
    ensures
        ({
            let t = a.turn(b.hard as int, b.has_place(), late4, late6, pause, kind);
            &&& 0 <= t.hard <= b.max_hard
            &&& b.storm ==> t.hard <= b.hard
            &&& t.hard - b.hard == (if t.actor.holds {
                1int
            } else {
                0
            }) - (if a.holds {
                1int
            } else {
                0
            })
            &&& t.action is Fire ==> (t.action->Fire_0.is_hard() <==> t.actor.holds)
            &&& t.action is Stop ==> !t.actor.holds
        }),
{
}

/// The actor of a slow link never brings it down.
pub proof fn law_slow_links_stay_up(
    a: ActorView,
    b: Board,
    late4: bool,
    late6: bool,
    pause: u64,
    kind: Kind,
)
    requires
        a.wf(),
        a.slow,
        mild_kinds().contains(kind),
    ensures
        ({
            let t = a.turn(b.hard as int, b.has_place(), late4, late6, pause, kind);
            t.action is Fire ==> !t.action->Fire_0.is_hard()
        }),
{
    law_mild_is_never_hard(kind);
    if a.phase is Throw {
        law_mild_is_never_hard(a.list[a.at]);
    }
}

/// The list of a peer holds every kind.
pub proof fn law_peers_cover_every_kind(kinds: Seq<Kind>, i: int, kind: Kind)
    requires
        0 <= i,
        kinds.to_multiset() == all_kinds().to_multiset(),
    ensures
        coverage_of(kinds, i, Role::Peer).contains(kind),
        coverage_of(kinds, i, Role::Peer).len() == all_kinds().len(),
{
    law_all_kinds_are_listed(kind);
    kinds.to_multiset_ensures();
    all_kinds().to_multiset_ensures();
    assert(kinds.len() == all_kinds().len());
    assert(kinds.to_multiset().contains(kind)) by {
        assert(all_kinds().to_multiset().contains(kind));
    }
    assert(kinds.contains(kind));
    let at = choose|k: int| 0 <= k < kinds.len() && kinds[k] == kind;
    let by = i * 3 % (kinds.len() as int);
    let c = coverage_of(kinds, i, Role::Peer);
    if at >= by {
        assert(c[at - by] == kind);
    } else {
        assert(c[kinds.len() - by + at] == kind);
    }
}

/// Peers collapse at most twice, and a collapse that is over leaves no storm
/// behind.
pub proof fn law_storms_end(
    c: Collapse,
    hard: u32,
    storm: bool,
    now: u64,
    deadline: u64,
    rest: u64,
    dark: u64,
)
    requires
        c.wf(),
        storm == c.storming(),
    ensures
        ({
            let t = c.turn(hard, storm, now, deadline, rest, dark);
            &&& t.to.wf()
            &&& t.storm == t.to.storming()
            &&& t.action is Darken <==> t.to.n == c.n + 1
            &&& t.action is Stop ==> !t.storm
        }),
{
}

} // verus!
