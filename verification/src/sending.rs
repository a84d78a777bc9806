//! Cutting what an application sends into pieces, and what becomes of them.

use vstd::prelude::*;

use crate::blocked::{bulk_slot, path_alive, BulkWait, Fate, Moved, SentPiece};
use crate::num::above;
use crate::outbound::{Choice, Gate, Pick, Prepared};
use crate::sched::Scheduler;
use crate::session::{Session, SessionError};
use crate::stream::{StreamCounters, StreamState};

verus! {

// ---------------------------------------------------------------------------
// One piece
// ---------------------------------------------------------------------------
impl Session {
    /// `n` is this session once `len` bytes of `data`, from `from` on, were cut
    /// off as a piece of stream `id`: they get the stream's next offset.
    pub open spec fn cuts_off(
        self,
        n: Self,
        id: u32,
        data: Seq<u8>,
        from: nat,
        len: nat,
        offset: u64,
        piece: Seq<u8>,
    ) -> bool {
        let st = self.streams@[id];
        &&& self.streams@.contains_key(id)
        &&& from + len <= data.len()
        &&& st.counters.send_next + len <= u64::MAX
        &&& offset == st.counters.send_next
        &&& piece == data.subrange(from as int, (from + len) as int)
        &&& n == (Session { streams: n.streams, ..self })
        &&& n.streams@ == self.streams@.insert(
            id,
            StreamState {
                counters: StreamCounters {
                    send_next: (st.counters.send_next + len) as u64,
                    ..st.counters
                },
                ..st
            },
        )
    }

    /// Cut the `len` bytes of `data` from `from` on as the next piece of stream
    /// `id`: the offset they get, and a copy of them.
    pub fn cut_data(&mut self, id: u32, data: &Vec<u8>, from: usize, len: usize) -> (out: Option<
        (u64, Vec<u8>),
    >)
        requires
            old(self).wf(),
            from + len <= data@.len(),
            old(self).streams@.contains_key(id) ==> old(self).streams@[id].counters.send_next + len
                <= u64::MAX,
        ensures
            final(self).wf(),
            match out {
                Some(cut) => old(self).cuts_off(
                    *final(self),
                    id,
                    data@,
                    from as nat,
                    len as nat,
                    cut.0,
                    cut.1@,
                ),
                None => !old(self).streams@.contains_key(id) && *final(self) == *old(self),
            },
    {
        match self.cut_piece(id, len as u64) {
            Some(offset) => Some((offset, bytes_of(data, from, len))),
            None => None,
        }
    }
}

fn bytes_of(data: &Vec<u8>, from: usize, len: usize) -> (out: Vec<u8>)
    requires
        from + len <= data@.len(),
    ensures
        out@ == data@.subrange(from as int, from + len),
{
    let mut out: Vec<u8> = Vec::new();
    let mut i: usize = 0;
    while i < len
        invariant
            i <= len,
            from + len <= data.len(),
            out@ == data@.subrange(from as int, from + i),
        decreases len - i,
    {
        out.push(data[from + i]);
        i += 1;
        assert(out@ =~= data@.subrange(from as int, from + i));
    }
    assert(out@ =~= data@.subrange(from as int, from + len));
    out
}

// ---------------------------------------------------------------------------
// One send, step by step
// ---------------------------------------------------------------------------
/// Where a send stands.
#[derive(Clone, Copy, Debug, PartialEq, Eq)]
pub enum Stage {
    Start,
    /// The next piece waits for the peer's window; `waited` says that this wait
    /// was counted.
    Window { waited: bool },
    /// A piece of `len` bytes was cut at `offset` and looks for a path since
    /// `since`; `waited` says that this wait was counted.
    Placing { offset: u64, len: usize, since: u64, waited: bool },
    /// The piece waits for the bulk queue of `path`.
    Parked { offset: u64, len: usize, path: u32, deadline: u64 },
    Over(Result<(), SessionError>),
}

/// The send of some bytes on a stream. The first `from` bytes are behind it:
/// the piece in hand, where there is one, begins there.
#[derive(Clone, Copy, Debug, PartialEq, Eq)]
pub struct Sending {
    pub id: u32,
    pub from: usize,
    pub stage: Stage,
}

/// What ended a wait.
#[derive(Clone, Copy, Debug, PartialEq, Eq, Structural)]
pub enum SendEvent {
    /// No wait went before.
    Go,
    /// The stream, the budget or the paths moved.
    Woke,
    /// The bulk queue of the piece's path moved.
    QueueMoved,
    /// The time of the wait ran out.
    TimedOut,
}

/// A wait was on, and its time ran out.
pub open spec fn ran_out(waited: bool, event: SendEvent) -> bool {
    waited && event is TimedOut
}

/// What the sender does next.
#[derive(Debug, PartialEq, Eq)]
pub enum SendAction {
    /// Take the next step at once.
    Go,
    /// Wait for the stream, at most for the all-down timeout.
    AwaitWindow,
    /// Wait for a path, the budget or the stream, at most for the all-down
    /// timeout. Where the wait was counted here, these paths had no room.
    AwaitPath(Option<Vec<u32>>),
    /// Wait for the path's bulk queue or the stream, until the deadline.
    AwaitQueue { path: u32, deadline: u64 },
    End(Result<(), SessionError>),
}

impl Sending {
    /// The bytes of the piece in hand.
    pub open spec fn in_hand(self) -> nat {
        match self.stage {
            Stage::Placing { len, .. } => len as nat,
            Stage::Parked { len, .. } => len as nat,
            _ => 0,
        }
    }

    pub open spec fn offset(self) -> u64 {
        match self.stage {
            Stage::Placing { offset, .. } => offset,
            Stage::Parked { offset, .. } => offset,
            _ => 0,
        }
    }

    /// The bytes that were cut.
    pub open spec fn cut(self) -> nat {
        self.from as nat + self.in_hand()
    }

    /// The bytes that were given to a path.
    pub open spec fn placed(self) -> nat {
        match self.stage {
            Stage::Parked { len, .. } => self.from as nat + len as nat,
            _ => self.from as nat,
        }
    }

    /// The piece in hand.
    pub open spec fn piece(self, data: Seq<u8>) -> Seq<u8> {
        data.subrange(self.from as int, self.cut() as int)
    }

    pub open spec fn at(self, stage: Stage) -> Self {
        Sending { stage, ..self }
    }

    /// The piece in hand is off; the next one is due.
    pub open spec fn onward(self) -> Self {
        Sending {
            id: self.id,
            from: self.cut() as usize,
            stage: Stage::Window { waited: false },
        }
    }

    /// The send goes with this session: the offset of its piece was given out,
    /// and those of the bytes that are left can be.
    pub open spec fn fits(self, s: Session, data: Seq<u8>) -> bool {
        &&& self.cut() <= data.len() <= usize::MAX
        &&& s.streams@.contains_key(self.id) && !(self.stage is Over) ==> {
            let next = s.streams@[self.id].counters.send_next;
            &&& next + (data.len() - self.cut()) <= u64::MAX
            &&& self.stage is Placing || self.stage is Parked ==> self.offset() + self.in_hand()
                <= next
        }
    }

    pub fn new(id: u32) -> (s: Self)
        ensures
            s == (Sending { id, from: 0, stage: Stage::Start }),
    {
        Sending { id, from: 0, stage: Stage::Start }
    }

    fn set(&self, stage: Stage) -> (s: Self)
        ensures
            s == self.at(stage),
    {
        Sending { id: self.id, from: self.from, stage }
    }

    fn step_on(&self, len: usize) -> (s: Self)
        requires
            len == self.in_hand(),
            self.cut() <= usize::MAX,
        ensures
            s == self.onward(),
    {
        Sending { id: self.id, from: self.from + len, stage: Stage::Window { waited: false } }
    }

    pub fn fits_in(&self, s: &Session, data: &Vec<u8>) -> (r: bool)
        ensures
            r == self.fits(*s, data@),
    {
        let (cut, offset, len): (bool, u64, usize) = match self.stage {
            Stage::Placing { offset, len, .. } => (true, offset, len),
            Stage::Parked { offset, len, .. } => (true, offset, len),
            _ => (false, 0, 0),
        };
        if self.from > data.len() || len > data.len() - self.from {
            return false;
        }
        if let Stage::Over(_) = self.stage {
            return true;
        }
        let left: usize = data.len() - self.from - len;
        match s.streams.get(&self.id) {
            Some(st) => {
                let next: u64 = st.counters.send_next;
                next as u128 + left as u128 <= u64::MAX as u128 && (!cut || offset as u128
                    + len as u128 <= next as u128)
            },
            None => true,
        }
    }
}

/// The stream's next offset is what it was.
pub open spec fn same_next(o: Session, n: Session, id: u32) -> bool {
    &&& n.streams@.contains_key(id) == o.streams@.contains_key(id)
    &&& o.streams@.contains_key(id) ==> n.streams@[id].counters.send_next
        == o.streams@[id].counters.send_next
}

impl Session {
    /// A step that asks the window: it lets a piece through, which is cut, or
    /// keeps the send waiting, or ends it.
    pub open spec fn steps_at_window<S: Scheduler>(
        self,
        sched: &S,
        n: Self,
        a: Sending,
        b: Sending,
        waited: bool,
        data: Seq<u8>,
        event: SendEvent,
        act: SendAction,
        now: u64,
    ) -> bool {
        let left = (data.len() - a.from) as nat;
        let expired = ran_out(waited, event);
        if left == 0 {
            &&& n == self
            &&& b == a.at(Stage::Over(Ok(())))
            &&& act == SendAction::End(Ok(()))
        } else {
            match act {
                SendAction::Go => {
                    &&& b.stage matches Stage::Placing { offset, len, since, waited: counted }
                    &&& b == a.at(Stage::Placing { offset, len, since: now, waited: false })
                    &&& self.gates(
                        sched,
                        self,
                        a.id,
                        left,
                        waited,
                        expired,
                        Ok::<Gate, SessionError>(Gate::Open(len)),
                        None,
                    )
                    &&& self.cuts_off(
                        n,
                        a.id,
                        data,
                        a.from as nat,
                        len as nat,
                        offset,
                        b.piece(data),
                    )
                },
                SendAction::AwaitWindow => {
                    &&& b == a.at(Stage::Window { waited: true })
                    &&& exists|room: Option<bool>| #[trigger]
                        self.gates(
                            sched,
                            n,
                            a.id,
                            left,
                            waited,
                            expired,
                            Ok::<Gate, SessionError>(Gate::Closed),
                            room,
                        )
                },
                SendAction::End(Err(e)) => {
                    &&& b == a.at(Stage::Over(Err(e)))
                    &&& exists|room: Option<bool>| #[trigger]
                        self.gates(
                            sched,
                            n,
                            a.id,
                            left,
                            waited,
                            expired,
                            Err::<Gate, SessionError>(e),
                            room,
                        )
                },
                _ => false,
            }
        }
    }

    /// A step that looks for a path: the piece is sent on the one that is
    /// picked, or the send waits, or it ends.
    pub open spec fn steps_at_path<S: Scheduler>(
        self,
        sched: &S,
        n: Self,
        a: Sending,
        b: Sending,
        since: u64,
        waited: bool,
        data: Seq<u8>,
        act: SendAction,
        now: u64,
    ) -> bool {
        let parked = above(now as int, since as int) as u64;
        let piece = a.piece(data);
        match act {
            SendAction::AwaitPath(limited) => {
                &&& b == a.at(
                    Stage::Placing {
                        offset: a.offset(),
                        len: a.in_hand() as usize,
                        since,
                        waited: waited || limited is Some,
                    },
                )
                &&& exists|choice: Choice| #[trigger]
                    self.picks(
                        sched,
                        n,
                        a.id,
                        waited,
                        parked,
                        Ok::<Pick, SessionError>(Pick::Wait { choice, limited }),
                        now,
                    )
            },
            SendAction::End(Err(e)) => {
                &&& b == a.at(Stage::Over(Err(e)))
                &&& self.picks(sched, n, a.id, waited, parked, Err::<Pick, SessionError>(e), now)
            },
            SendAction::End(Ok(())) => false,
            SendAction::AwaitWindow => false,
            _ => exists|c: Choice, out: SentPiece|
                #![trigger self.picks(
                    sched,
                    self,
                    a.id,
                    waited,
                    parked,
                    Ok::<Pick, SessionError>(Pick::Path(c)),
                    now,
                ), self.sends_piece(
                    sched,
                    n,
                    a.id,
                    a.offset(),
                    piece,
                    c.picked->0,
                    c.overflow,
                    out,
                    now,
                )]
                {
                    &&& self.streams@.contains_key(a.id)
                    &&& self.picks(
                        sched,
                        self,
                        a.id,
                        waited,
                        parked,
                        Ok::<Pick, SessionError>(Pick::Path(c)),
                        now,
                    )
                    &&& self.sends_piece(
                        sched,
                        n,
                        a.id,
                        a.offset(),
                        piece,
                        c.picked->0,
                        c.overflow,
                        out,
                        now,
                    )
                    &&& match out.fate {
                        Fate::Parked { deadline } => {
                            let path = out.prepared.path_id;
                            &&& act == (SendAction::AwaitQueue { path, deadline })
                            &&& b == a.at(
                                Stage::Parked {
                                    offset: a.offset(),
                                    len: a.in_hand() as usize,
                                    path,
                                    deadline,
                                },
                            )
                        },
                        _ => act is Go && b == a.onward(),
                    }
                },
        }
    }

    /// A step of a piece that waits for the bulk queue.
    pub open spec fn steps_at_queue<S: Scheduler>(
        self,
        sched: &S,
        n: Self,
        a: Sending,
        b: Sending,
        path: u32,
        deadline: u64,
        data: Seq<u8>,
        event: SendEvent,
        act: SendAction,
        now: u64,
    ) -> bool {
        exists|out: BulkWait| #[trigger]
            self.wakes(
                sched,
                n,
                a.id,
                path,
                a.offset(),
                a.piece(data),
                deadline,
                event is QueueMoved,
                out,
                now,
            ) && if out is Wait {
                act == (SendAction::AwaitQueue { path, deadline }) && b == a
            } else {
                act is Go && b == a.onward()
            }
    }

    /// One step of a send: from `a` to `b`, and from this session to `n`.
    pub open spec fn steps<S: Scheduler>(
        self,
        sched: &S,
        n: Self,
        a: Sending,
        b: Sending,
        data: Seq<u8>,
        event: SendEvent,
        act: SendAction,
        now: u64,
    ) -> bool {
        match a.stage {
            Stage::Start => {
                &&& n == self
                &&& match self.begin_answer(a.id) {
                    Ok(()) => act is Go && b == a.at(Stage::Window { waited: false }),
                    Err(e) => act == SendAction::End(Err(e)) && b == a.at(Stage::Over(Err(e))),
                }
            },
            Stage::Window { waited } => self.steps_at_window(
                sched,
                n,
                a,
                b,
                waited,
                data,
                event,
                act,
                now,
            ),
            Stage::Placing { since, waited, .. } => self.steps_at_path(
                sched,
                n,
                a,
                b,
                since,
                waited,
                data,
                act,
                now,
            ),
            Stage::Parked { path, deadline, .. } => self.steps_at_queue(
                sched,
                n,
                a,
                b,
                path,
                deadline,
                data,
                event,
                act,
                now,
            ),
            Stage::Over(r) => n == self && b == a && act == SendAction::End(r),
        }
    }

    /// Take one step of a send, after what `event` says ended the wait.
    pub fn send_step<S: Scheduler>(
        &mut self,
        send: &mut Sending,
        data: &Vec<u8>,
        event: SendEvent,
        sched: &S,
        now: u64,
    ) -> (act: SendAction)
        requires
            old(self).wf(),
            old(send).fits(*old(self), data@),
        ensures
            final(self).wf(),
            final(send).fits(*final(self), data@),
            old(self).steps(
                sched,
                *final(self),
                *old(send),
                *final(send),
                data@,
                event,
                act,
                now,
            ),
    {
        let (act, next): (SendAction, Sending) = match send.stage {
            Stage::Start => match self.begin_send(send.id) {
                Ok(_) => (SendAction::Go, send.set(Stage::Window { waited: false })),
                Err(e) => (SendAction::End(Err(e)), send.set(Stage::Over(Err(e)))),
            },
            Stage::Window { waited } => self.ask_window(*send, waited, data, event, sched, now),
            Stage::Placing { offset, len, since, waited } => self.place_piece(
                *send,
                offset,
                len,
                since,
                waited,
                data,
                sched,
                now,
            ),
            Stage::Parked { offset, len, path, deadline } => self.wake_parked(
                *send,
                offset,
                len,
                path,
                deadline,
                data,
                event,
                sched,
                now,
            ),
            Stage::Over(r) => (SendAction::End(r), *send),
        };
        *send = next;
        act
    }

    fn ask_window<S: Scheduler>(
        &mut self,
        send: Sending,
        waited: bool,
        data: &Vec<u8>,
        event: SendEvent,
        sched: &S,
        now: u64,
    ) -> (r: (SendAction, Sending))
        requires
            old(self).wf(),
            send.fits(*old(self), data@),
            send.stage == (Stage::Window { waited }),
        ensures
            final(self).wf(),
            r.1.fits(*final(self), data@),
            old(self).steps_at_window(
                sched,
                *final(self),
                send,
                r.1,
                waited,
                data@,
                event,
                r.0,
                now,
            ),
    {
        let ghost o = *self;
        let left: usize = data.len() - send.from;
        if left == 0 {
            return (SendAction::End(Ok(())), send.set(Stage::Over(Ok(()))));
        }
        let expired: bool = waited && event == SendEvent::TimedOut;
        let (gate, room): (Result<Gate, SessionError>, Option<bool>) = self.window_gate(
            send.id,
            left,
            waited,
            expired,
            sched,
        );
        assert(expired == ran_out(waited, event));
        assert(o.gates(sched, *self, send.id, left as nat, waited, expired, gate, room));
        match gate {
            Ok(Gate::Open(len)) => {
                assert(*self == o);
                match self.cut_data(send.id, data, send.from, len) {
                    Some((offset, _)) => {
                        let next: Sending = send.set(
                            Stage::Placing { offset, len, since: now, waited: false },
                        );
                        (SendAction::Go, next)
                    },
                    None => (SendAction::Go, send),
                }
            },
            Ok(Gate::Closed) => (
                SendAction::AwaitWindow,
                send.set(Stage::Window { waited: true }),
            ),
            Err(e) => (SendAction::End(Err(e)), send.set(Stage::Over(Err(e)))),
        }
    }

    fn place_piece<S: Scheduler>(
        &mut self,
        send: Sending,
        offset: u64,
        len: usize,
        since: u64,
        waited: bool,
        data: &Vec<u8>,
        sched: &S,
        now: u64,
    ) -> (r: (SendAction, Sending))
        requires
            old(self).wf(),
            send.fits(*old(self), data@),
            send.stage == (Stage::Placing { offset, len, since, waited }),
        ensures
            final(self).wf(),
            r.1.fits(*final(self), data@),
            old(self).steps_at_path(
                sched,
                *final(self),
                send,
                r.1,
                since,
                waited,
                data@,
                r.0,
                now,
            ),
    {
        let ghost o = *self;
        let id: u32 = send.id;
        let parked: u64 = now.saturating_sub(since);
        assert(parked == above(now as int, since as int) as u64);
        let pick: Result<Pick, SessionError> = self.pick_send_path(id, waited, parked, sched, now);
        assert(o.picks(sched, *self, id, waited, parked, pick, now));
        match pick {
            Ok(Pick::Path(c)) => {
                assert(*self == o);
                self.send_picked(send, offset, len, since, waited, c, data, sched, now)
            },
            Ok(Pick::Wait { choice, limited }) => {
                let counted: bool = waited || limited.is_some();
                assert(counted == (waited || limited is Some));
                assert(same_next(o, *self, id)) by {
                    match limited {
                        Some(_) => {
                            assert(o.budget_blocked(*self, id));
                        },
                        None => {},
                    }
                }
                assert(o.picks(
                    sched,
                    *self,
                    id,
                    waited,
                    parked,
                    Ok::<Pick, SessionError>(Pick::Wait { choice, limited }),
                    now,
                ));
                (
                    SendAction::AwaitPath(limited),
                    send.set(Stage::Placing { offset, len, since, waited: counted }),
                )
            },
            Err(e) => {
                (SendAction::End(Err(e)), send.set(Stage::Over(Err(e))))
            },
        }
    }

    /// Send the piece in hand on the path that was picked for it.
    fn send_picked<S: Scheduler>(
        &mut self,
        send: Sending,
        offset: u64,
        len: usize,
        since: u64,
        waited: bool,
        c: Choice,
        data: &Vec<u8>,
        sched: &S,
        now: u64,
    ) -> (r: (SendAction, Sending))
        requires
            old(self).wf(),
            send.fits(*old(self), data@),
            send.stage == (Stage::Placing { offset, len, since, waited }),
            old(self).picks(
                sched,
                *old(self),
                send.id,
                waited,
                above(now as int, since as int) as u64,
                Ok::<Pick, SessionError>(Pick::Path(c)),
                now,
            ),
        ensures
            final(self).wf(),
            r.1.fits(*final(self), data@),
            old(self).steps_at_path(
                sched,
                *final(self),
                send,
                r.1,
                since,
                waited,
                data@,
                r.0,
                now,
            ),
    {
        let ghost o = *self;
        let id: u32 = send.id;
        let path: u32 = match c.picked {
            Some(p) => p,
            None => 0,
        };
        let piece: Vec<u8> = bytes_of(data, send.from, len);
        assert(piece@ == send.piece(data@));
        let sent: SentPiece = match self.send_piece(id, offset, &piece, path, c.overflow, sched, now) {
            Some(s) => s,
            None => {
                return (SendAction::Go, send);
            },
        };
        proof {
            law_a_sent_piece_is_held(
                sched,
                o,
                *self,
                id,
                offset,
                piece@,
                path,
                c.overflow,
                sent,
                now,
            );
            assert(same_next(o, *self, id));
            assert(o.sends_piece(
                sched,
                *self,
                send.id,
                send.offset(),
                send.piece(data@),
                c.picked->0,
                c.overflow,
                sent,
                now,
            ));
        }
        match sent.fate {
            Fate::Parked { deadline } => {
                let home: u32 = sent.prepared.path_id;
                let next: Sending = send.set(
                    Stage::Parked { offset, len, path: home, deadline },
                );
                assert(next.cut() == send.cut());
                (SendAction::AwaitQueue { path: home, deadline }, next)
            },
            _ => {
                let next: Sending = send.step_on(len);
                assert(next.cut() == send.cut());
                (SendAction::Go, next)
            },
        }
    }

    fn wake_parked<S: Scheduler>(
        &mut self,
        send: Sending,
        offset: u64,
        len: usize,
        path: u32,
        deadline: u64,
        data: &Vec<u8>,
        event: SendEvent,
        sched: &S,
        now: u64,
    ) -> (r: (SendAction, Sending))
        requires
            old(self).wf(),
            send.fits(*old(self), data@),
            send.stage == (Stage::Parked { offset, len, path, deadline }),
        ensures
            final(self).wf(),
            r.1.fits(*final(self), data@),
            old(self).steps_at_queue(
                sched,
                *final(self),
                send,
                r.1,
                path,
                deadline,
                data@,
                event,
                r.0,
                now,
            ),
    {
        let ghost o = *self;
        let piece: Vec<u8> = bytes_of(data, send.from, len);
        let moved: bool = event == SendEvent::QueueMoved;
        let out: BulkWait = self.wait_bulk_send(
            send.id,
            path,
            offset,
            &piece,
            deadline,
            moved,
            sched,
            now,
        );
        proof {
            assert(piece@ == send.piece(data@));
            assert(o.wakes(
                sched,
                *self,
                send.id,
                path,
                send.offset(),
                send.piece(data@),
                deadline,
                event is QueueMoved,
                out,
                now,
            ));
            lemma_waking_keeps_next(
                sched,
                o,
                *self,
                send.id,
                path,
                offset,
                piece@,
                deadline,
                moved,
                out,
                now,
            );
        }
        match out {
            BulkWait::Wait => (SendAction::AwaitQueue { path, deadline }, send),
            _ => (SendAction::Go, send.step_on(len)),
        }
    }
}

proof fn lemma_migrating_keeps_next<S: Scheduler>(
    sched: &S,
    o: Session,
    n: Session,
    id: u32,
    path_id: u32,
    offset: u64,
    data: Seq<u8>,
    out: Moved,
    now: u64,
)
    requires
        o.migrates(sched, n, id, path_id, offset, data, out, now),
        o.streams@.contains_key(id),
    ensures
        same_next(o, n, id),
{
    match out.alt {
        None => {},
        Some(alt) => {
            let mid = choose|mid: Session| #[trigger]
                o.offers(mid, id, offset, data, alt, out.sent) && if out.sent {
                    mid.moves(n, id, offset, data.len() as u64, path_id, alt, now)
                } else {
                    mid.drops(n, id, offset, now)
                };
            assert(same_next(o, mid, id));
        },
    }
}

proof fn lemma_waiting_keeps_next<S: Scheduler>(
    sched: &S,
    o: Session,
    n: Session,
    id: u32,
    path_id: u32,
    offset: u64,
    data: Seq<u8>,
    deadline: u64,
    out: BulkWait,
    now: u64,
)
    requires
        o.waits(sched, n, id, path_id, offset, data, deadline, out, now),
    ensures
        same_next(o, n, id),
{
    match out {
        BulkWait::Moved(m) => {
            if path_alive(o.paths@, path_id) {
                let mid = choose|mid: Session| #[trigger]
                    o.requeues(mid, id, path_id, offset, data, false, now) && mid.migrates(
                        sched,
                        n,
                        id,
                        path_id,
                        offset,
                        data,
                        m,
                        now,
                    );
                lemma_migrating_keeps_next(sched, mid, n, id, path_id, offset, data, m, now);
            } else {
                lemma_migrating_keeps_next(sched, o, n, id, path_id, offset, data, m, now);
            }
        },
        _ => {},
    }
}

/// Nothing that a waiting piece does touches the stream's next offset.
proof fn lemma_waking_keeps_next<S: Scheduler>(
    sched: &S,
    o: Session,
    n: Session,
    id: u32,
    path_id: u32,
    offset: u64,
    data: Seq<u8>,
    deadline: u64,
    queue_woke: bool,
    out: BulkWait,
    now: u64,
)
    requires
        o.wakes(sched, n, id, path_id, offset, data, deadline, queue_woke, out, now),
    ensures
        same_next(o, n, id),
{
    if queue_woke && bulk_slot(o.paths@, path_id, o.cfg.tuning.chan as nat) {
        if !(out is Queued && o.requeues(n, id, path_id, offset, data, true, now)) {
            let mid = choose|mid: Session| #[trigger]
                o.requeues(mid, id, path_id, offset, data, false, now) && mid.waits(
                    sched,
                    n,
                    id,
                    path_id,
                    offset,
                    data,
                    deadline,
                    out,
                    now,
                );
            lemma_waiting_keeps_next(
                sched,
                mid,
                n,
                id,
                path_id,
                offset,
                data,
                deadline,
                out,
                now,
            );
        }
    } else {
        lemma_waiting_keeps_next(sched, o, n, id, path_id, offset, data, deadline, out, now);
    }
}

// ---------------------------------------------------------------------------
// A whole send
// ---------------------------------------------------------------------------
/// One step of a send: the session and the send before it and after it.
pub struct Turn {
    pub before: Session,
    pub after: Session,
    pub a: Sending,
    pub b: Sending,
    pub event: SendEvent,
    pub act: SendAction,
    pub now: u64,
}

impl Turn {
    #[verifier::opaque]
    pub open spec fn of<S: Scheduler>(self, sched: &S, data: Seq<u8>) -> bool {
        &&& self.before.wf()
        &&& self.a.fits(self.before, data)
        &&& self.before.steps(
            sched,
            self.after,
            self.a,
            self.b,
            data,
            self.event,
            self.act,
            self.now,
        )
    }

    /// The step cut a piece: the one in hand after it.
    pub open spec fn cuts(self) -> bool {
        self.a.stage is Window && self.act is Go
    }

    /// The step gave the piece in hand to the path that was picked.
    pub open spec fn places(self) -> bool {
        self.a.stage is Placing && (self.act is Go || self.act is AwaitQueue)
    }
}

/// `u` goes on where `t` stopped. Whatever else happened in between, the stream
/// was not cut, and not opened anew.
pub open spec fn follows(t: Turn, u: Turn, id: u32) -> bool {
    &&& u.a == t.b
    &&& u.before.streams@.contains_key(id) ==> same_next(t.after, u.before, id)
}

/// The steps of one send of `data` on stream `id`, in order.
pub open spec fn one_send<S: Scheduler>(sched: &S, h: Seq<Turn>, id: u32, data: Seq<u8>) -> bool {
    &&& forall|i: int| 0 <= i < h.len() ==> (#[trigger] h[i]).of(sched, data)
    &&& h.len() > 0 ==> h[0].a == (Sending { id, from: 0, stage: Stage::Start })
    &&& forall|i: int, j: int|
        0 <= i && j == i + 1 && j < h.len() ==> #[trigger] follows(h[i], h[j], id)
}

/// The pieces that were cut, one after the other.
pub open spec fn cut_bytes(h: Seq<Turn>, data: Seq<u8>) -> Seq<u8>
    decreases h.len(),
{
    if h.len() == 0 {
        seq![]
    } else if h.last().cuts() {
        cut_bytes(h.drop_last(), data) + h.last().b.piece(data)
    } else {
        cut_bytes(h.drop_last(), data)
    }
}

/// The pieces that were given to a path, one after the other.
pub open spec fn placed_bytes(h: Seq<Turn>, data: Seq<u8>) -> Seq<u8>
    decreases h.len(),
{
    if h.len() == 0 {
        seq![]
    } else if h.last().places() {
        placed_bytes(h.drop_last(), data) + h.last().a.piece(data)
    } else {
        placed_bytes(h.drop_last(), data)
    }
}

/// The offset of the first piece, once one was cut.
pub open spec fn first_offset(h: Seq<Turn>, data: Seq<u8>) -> int
    decreases h.len(),
{
    if h.len() == 0 {
        0
    } else if cut_bytes(h.drop_last(), data).len() > 0 {
        first_offset(h.drop_last(), data)
    } else {
        h.last().b.offset() as int
    }
}

/// What a single cut gives: at least one byte and at most a payload's worth,
/// under the stream's next offset.
pub open spec fn well_cut(t: Turn, id: u32) -> bool {
    let next = t.before.streams@[id].counters.send_next;
    &&& 1 <= t.b.in_hand() <= t.before.cfg.max_stream_payload
    &&& t.b.from == t.a.from
    &&& t.b.offset() == next
    &&& t.after.streams@.contains_key(id)
    &&& t.after.streams@[id].counters.send_next == next + t.b.in_hand()
}

/// What a step does to the send itself.
spec fn stepped(t: Turn, data: Seq<u8>) -> bool {
    let (a, b) = (t.a, t.b);
    &&& b.id == a.id
    &&& match a.stage {
        Stage::Start => {
            ||| t.act is Go && b == a.at(Stage::Window { waited: false })
            ||| b.stage matches Stage::Over(r) && r is Err && t.act is End
        },
        Stage::Window { .. } => {
            ||| t.cuts() && b.stage is Placing && b.cut() <= data.len() && well_cut(t, a.id)
                && t.before.streams@.contains_key(a.id)
            ||| t.act is AwaitWindow && b == a.at(Stage::Window { waited: true })
            ||| a.from == data.len() && b == a.at(Stage::Over(Ok(()))) && t.act is End
            ||| b.stage matches Stage::Over(r) && r is Err && t.act is End
        },
        Stage::Placing { .. } => {
            ||| t.act is AwaitPath && b.stage is Placing && b.from == a.from && b.offset()
                == a.offset() && b.in_hand() == a.in_hand()
            ||| t.act is AwaitQueue && b.stage is Parked && b.from == a.from && b.offset()
                == a.offset() && b.in_hand() == a.in_hand()
            ||| t.act is Go && b == a.onward()
            ||| b.stage matches Stage::Over(r) && r is Err && t.act is End
        },
        Stage::Parked { .. } => {
            ||| t.act is AwaitQueue && b == a
            ||| t.act is Go && b == a.onward()
        },
        Stage::Over(_) => b == a && t.act is End,
    }
    &&& t.act == SendAction::End(Ok(())) ==> b.stage == Stage::Over(Ok(()))
    &&& a.cut() <= data.len() <= usize::MAX
}

proof fn lemma_stepped<S: Scheduler>(sched: &S, t: Turn, data: Seq<u8>)
    requires
        t.of(sched, data),
    ensures
        stepped(t, data),
{
    reveal(Turn::of);
}

/// Only a cut moves the stream's next offset.
proof fn lemma_step_keeps_next<S: Scheduler>(sched: &S, t: Turn, data: Seq<u8>)
    requires
        t.of(sched, data),
        !t.cuts(),
    ensures
        same_next(t.before, t.after, t.a.id),
{
    reveal(Turn::of);
    let id = t.a.id;
    match t.a.stage {
        Stage::Window { .. } => {},
        Stage::Placing { since, waited, .. } => {
            let parked = above(t.now as int, since as int) as u64;
            if t.act is Go || t.act is AwaitQueue {
                let (c, out) = choose|c: Choice, out: SentPiece|
                    #![trigger t.before.picks(
                        sched,
                        t.before,
                        id,
                        waited,
                        parked,
                        Ok::<Pick, SessionError>(Pick::Path(c)),
                        t.now,
                    ), t.before.sends_piece(
                        sched,
                        t.after,
                        id,
                        t.a.offset(),
                        t.a.piece(data),
                        c.picked->0,
                        c.overflow,
                        out,
                        t.now,
                    )]
                    {
                        &&& t.before.picks(
                            sched,
                            t.before,
                            id,
                            waited,
                            parked,
                            Ok::<Pick, SessionError>(Pick::Path(c)),
                            t.now,
                        )
                        &&& t.before.sends_piece(
                            sched,
                            t.after,
                            id,
                            t.a.offset(),
                            t.a.piece(data),
                            c.picked->0,
                            c.overflow,
                            out,
                            t.now,
                        )
                    };
                law_a_sent_piece_is_held(
                    sched,
                    t.before,
                    t.after,
                    id,
                    t.a.offset(),
                    t.a.piece(data),
                    c.picked->0,
                    c.overflow,
                    out,
                    t.now,
                );
            }
        },
        Stage::Parked { path, deadline, .. } => {
            let out = choose|out: BulkWait| #[trigger]
                t.before.wakes(
                    sched,
                    t.after,
                    id,
                    path,
                    t.a.offset(),
                    t.a.piece(data),
                    deadline,
                    t.event is QueueMoved,
                    out,
                    t.now,
                );
            lemma_waking_keeps_next(
                sched,
                t.before,
                t.after,
                id,
                path,
                t.a.offset(),
                t.a.piece(data),
                deadline,
                t.event is QueueMoved,
                out,
                t.now,
            );
        },
        _ => {},
    }
}

/// What holds after each step of a send.
spec fn on_course(h: Seq<Turn>, id: u32, data: Seq<u8>) -> bool {
    let z = h[h.len() - 1];
    let c = cut_bytes(h, data);
    let p = placed_bytes(h, data);
    let base = first_offset(h, data);
    &&& z.b.id == id
    &&& c.len() <= data.len()
    &&& c == data.take(c.len() as int)
    &&& p.len() <= c.len()
    &&& p == data.take(p.len() as int)
    &&& match z.b.stage {
        Stage::Start => false,
        Stage::Over(r) => r is Ok ==> p.len() == data.len(),
        _ => c.len() == z.b.cut() && p.len() == z.b.placed(),
    }
    &&& z.b.stage is Placing || z.b.stage is Parked ==> z.b.in_hand() >= 1 && z.b.offset() == base
        + z.b.from
    &&& c.len() > 0 && !(z.b.stage is Over) && z.after.streams@.contains_key(id)
        ==> z.after.streams@[id].counters.send_next == base + c.len()
    &&& forall|i: int|
        0 <= i < h.len() && (#[trigger] h[i]).cuts() ==> well_cut(h[i], id) && h[i].b.offset()
            == base + h[i].a.from
    &&& forall|i: int|
        0 <= i < h.len() && (#[trigger] h[i]).places() ==> h[i].a.offset() == base + h[i].a.from
    &&& c.len() == 0 ==> forall|i: int|
        0 <= i < h.len() ==> !(#[trigger] h[i]).cuts() && !h[i].places()
}

proof fn lemma_on_course<S: Scheduler>(sched: &S, h: Seq<Turn>, id: u32, data: Seq<u8>)
    requires
        one_send(sched, h, id, data),
        h.len() > 0,
    ensures
        on_course(h, id, data),
    decreases h.len(),
{
    let before = h.drop_last();
    let z = h[h.len() - 1];
    let c0 = cut_bytes(before, data);
    let p0 = placed_bytes(before, data);
    assert(z.of(sched, data));
    lemma_stepped(sched, z, data);
    if !z.cuts() {
        lemma_step_keeps_next(sched, z, data);
    }
    if before.len() == 0 {
        assert(c0 =~= seq![] && p0 =~= seq![]);
        assert(z == h[0]);
        assert(seq![] =~= data.take(0));
        assert(cut_bytes(h, data) =~= seq![]);
        assert(placed_bytes(h, data) =~= seq![]);
    } else {
        assert forall|i: int| 0 <= i < before.len() implies (#[trigger] before[i]).of(
            sched,
            data,
        ) by {
            assert(before[i] == h[i]);
        }
        assert forall|i: int, j: int| 0 <= i && j == i + 1 && j < before.len() implies #[trigger] follows(
            before[i],
            before[j],
            id,
        ) by {
            assert(follows(h[i], h[j], id));
        }
        assert(before[0] == h[0]);
        lemma_on_course(sched, before, id, data);
        let y = before[before.len() - 1];
        assert(follows(h[h.len() - 2], h[h.len() - 1], id));
        assert(z.a == y.b);
        let c = cut_bytes(h, data);
        let p = placed_bytes(h, data);
        let base = first_offset(h, data);
        assert(c0.len() > 0 ==> base == first_offset(before, data));
        if z.cuts() {
            assert(z.b.piece(data).len() == z.b.in_hand());
            assert(c =~= data.take(z.b.cut() as int));
            assert(p == p0);
        } else {
            assert(c == c0);
        }
        if z.places() {
            assert(z.a.piece(data).len() == z.a.in_hand());
            assert(p =~= data.take(z.a.cut() as int));
        }
        assert forall|i: int| 0 <= i < h.len() && (#[trigger] h[i]).cuts() implies well_cut(
            h[i],
            id,
        ) && h[i].b.offset() == base + h[i].a.from by {
            if i < before.len() {
                assert(before[i] == h[i]);
                assert(before[i].cuts());
            }
        }
        assert forall|i: int| 0 <= i < h.len() && (#[trigger] h[i]).places() implies h[i].a.offset()
            == base + h[i].a.from by {
            if i < before.len() {
                assert(before[i] == h[i]);
                assert(before[i].places());
            }
        }
        if c.len() == 0 {
            assert forall|i: int| 0 <= i < h.len() implies !(#[trigger] h[i]).cuts()
                && !h[i].places() by {
                if i < before.len() {
                    assert(before[i] == h[i]);
                }
            }
        }
    }
}

/// The pieces of a send are its data, cut in order: put together they are the
/// first bytes of it. Those that were given to a path are too, and no byte is
/// given to one before it was cut. A send that ends well has given every byte to
/// a path, once. Each piece has at least one byte and at most a payload's
/// worth, and is cut and placed under the place of its bytes, counted from
/// where the send began.
pub proof fn law_pieces_are_the_data<S: Scheduler>(
    sched: &S,
    h: Seq<Turn>,
    id: u32,
    data: Seq<u8>,
)
    requires
        one_send(sched, h, id, data),
    ensures
        cut_bytes(h, data).len() <= data.len(),
        cut_bytes(h, data) == data.take(cut_bytes(h, data).len() as int),
        placed_bytes(h, data).len() <= cut_bytes(h, data).len(),
        placed_bytes(h, data) == data.take(placed_bytes(h, data).len() as int),
        h.len() > 0 && h.last().act == SendAction::End(Ok(())) ==> cut_bytes(h, data) == data
            && placed_bytes(h, data) == data,
        forall|i: int|
            0 <= i < h.len() && (#[trigger] h[i]).cuts() ==> well_cut(h[i], id)
                && h[i].b.offset() == first_offset(h, data) + h[i].a.from,
        forall|i: int|
            0 <= i < h.len() && (#[trigger] h[i]).places() ==> h[i].a.offset() == first_offset(
                h,
                data,
            ) + h[i].a.from,
{
    if h.len() == 0 {
        assert(cut_bytes(h, data) =~= data.take(0));
        assert(placed_bytes(h, data) =~= data.take(0));
    } else {
        lemma_on_course(sched, h, id, data);
        lemma_stepped(sched, h[h.len() - 1], data);
        assert(data.take(data.len() as int) =~= data);
    }
}

// ---------------------------------------------------------------------------
// A piece that was sent
// ---------------------------------------------------------------------------
/// The piece at `offset` is held with these bytes, and the stream is bulk
/// where `bulk` says so.
pub open spec fn keeps(s: Session, id: u32, offset: u64, data: Seq<u8>, bulk: bool) -> bool {
    &&& s.piece(id, offset) matches Some(u) && u.data@ == data
    &&& s.streams@[id].send.bulk == bulk
}

proof fn lemma_migrating_keeps<S: Scheduler>(
    sched: &S,
    o: Session,
    n: Session,
    id: u32,
    path_id: u32,
    offset: u64,
    data: Seq<u8>,
    bulk: bool,
    out: Moved,
    now: u64,
)
    requires
        o.migrates(sched, n, id, path_id, offset, data, out, now),
        keeps(o, id, offset, data, bulk),
    ensures
        keeps(n, id, offset, data, bulk),
        n.streams@[id].counters == o.streams@[id].counters,
{
    match out.alt {
        None => {},
        Some(alt) => {
            let mid = choose|mid: Session| #[trigger]
                o.offers(mid, id, offset, data, alt, out.sent) && if out.sent {
                    mid.moves(n, id, offset, data.len() as u64, path_id, alt, now)
                } else {
                    mid.drops(n, id, offset, now)
                };
            assert(keeps(mid, id, offset, data, bulk));
        },
    }
}

/// A piece that was sent is held until it is acknowledged: it stands under its
/// offset with its bytes, whatever path took it and whether or not one did. A
/// piece over the interactive bound makes its stream bulk, and no piece makes
/// it interactive again.
pub proof fn law_a_sent_piece_is_held<S: Scheduler>(
    sched: &S,
    o: Session,
    n: Session,
    id: u32,
    offset: u64,
    data: Seq<u8>,
    path_id: u32,
    overflow: bool,
    out: SentPiece,
    now: u64,
)
    requires
        o.streams@.contains_key(id),
        o.sends_piece(sched, n, id, offset, data, path_id, overflow, out, now),
    ensures
        keeps(
            n,
            id,
            offset,
            data,
            o.streams@[id].send.bulk || data.len() > o.cfg.tuning.interactive_max,
        ),
        n.streams@[id].counters == o.streams@[id].counters,
{
    let p: Prepared = out.prepared;
    let bulk = o.streams@[id].send.bulk || data.len() > o.cfg.tuning.interactive_max;
    let (a, b) = choose|a: Session, b: Session|
        #![trigger o.prepares(sched, a, id, data.len(), path_id, overflow, p, now), a.loads(
            b,
            id,
            offset,
            data,
            p.path_id,
            p.stick,
            now,
        )]
        {
            &&& o.prepares(sched, a, id, data.len(), path_id, overflow, p, now)
            &&& a.loads(b, id, offset, data, p.path_id, p.stick, now)
            &&& b.comes_to(sched, n, id, p.path_id, offset, data, out.fate, now)
        };
    assert(keeps(b, id, offset, data, bulk));
    assert(b.streams@[id].counters == o.streams@[id].counters);
    let (mid, ok) = choose|mid: Session, ok: bool| #[trigger]
        b.offers(mid, id, offset, data, p.path_id, ok) && mid.ends_as(
            sched,
            n,
            id,
            p.path_id,
            offset,
            data,
            ok,
            out.fate,
            now,
        );
    assert(keeps(mid, id, offset, data, bulk));
    match out.fate {
        Fate::Moved(m) => {
            if !ok {
                lemma_migrating_keeps(
                    sched,
                    mid,
                    n,
                    id,
                    p.path_id,
                    offset,
                    data,
                    bulk,
                    m,
                    now,
                );
            }
        },
        _ => {},
    }
}

} // verus!
