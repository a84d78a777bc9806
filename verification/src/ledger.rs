//! Control frames that wait for an answer: StreamOpen, StreamClose and
//! StreamReset are repeated on other paths until the peer is known to have
//! them or their time is over.

use std::collections::BTreeMap;
use vstd::prelude::*;

use crate::cfg::SessionConfig;
use crate::frames::{copy_target, same_target, Frame, ResetReason, Target};
use crate::maps::{ids_of, lists_ids};
use crate::metrics::Counters;
use crate::num::above;
use crate::path::{distinct_ids, index_of, late_after, retry_after, stat_of, PathState};
use crate::pool::{
    clocks, lemma_queues_grow_trans, lemma_steady, lemma_steady_refl, lemma_steady_trans,
    note_retry, queues_grow, retry_counted, steady,
};
use crate::opening::ctl_offered;
use crate::sched::{picked_again, Scheduler};
use crate::stream::StreamState;
use crate::tried::{after_try, contains_id, push_tried};
use crate::wire::{lemma_offer_steady, pool_offered, send_on_path};

verus! {

broadcast use vstd::laws_cmp::group_laws_cmp;

/// What is being announced.
pub enum What {
    Open(Target),
    Close { second_closer: bool, final_offset: Option<u64> },
    Reset(ResetReason),
}

/// A frame that may have to be repeated.
pub struct Pending {
    /// Path of the last send. 0 = never sent.
    pub path_id: u32,
    pub sent_at: u64,
    pub started_at: u64,
    pub tried: Vec<u32>,
    pub what: What,
}

/// The same announcement.
pub open spec fn same_what(a: What, b: What) -> bool {
    match a {
        What::Open(t) => match b {
            What::Open(s) => same_target(t, s),
            _ => false,
        },
        What::Close { second_closer, final_offset } => b == (What::Close {
            second_closer,
            final_offset,
        }),
        What::Reset(r) => b == What::Reset(r),
    }
}

/// `f` announces `what` for stream `id`.
pub open spec fn announces(f: Frame, id: u32, what: What) -> bool {
    match what {
        What::Open(t) => match f {
            Frame::StreamOpen { stream_id, target } => stream_id == id && same_target(target, t),
            _ => false,
        },
        What::Close { final_offset, .. } => f == (Frame::StreamClose {
            stream_id: id,
            final_offset,
        }),
        What::Reset(reason) => f == (Frame::StreamReset { stream_id: id, reason }),
    }
}

pub fn frame_of(id: u32, what: &What) -> (f: Frame)
    ensures
        announces(f, id, *what),
        !f.is_data(),
{
    match what {
        What::Open(t) => Frame::StreamOpen { stream_id: id, target: copy_target(t) },
        What::Close { final_offset, .. } => Frame::StreamClose {
            stream_id: id,
            final_offset: *final_offset,
        },
        What::Reset(reason) => Frame::StreamReset { stream_id: id, reason: *reason },
    }
}

/// What a refused repeat changes.
#[derive(Clone, Copy, Debug, PartialEq, Eq, Structural)]
pub enum Refused {
    Keep,
    /// The clock starts anew.
    Stamp,
    /// The clock starts anew and the path counts as tried.
    StampAndTry,
}

/// Which entries are repeated and where they may go.
#[derive(Clone, Copy, Debug, PartialEq, Eq, Structural)]
pub struct Rule {
    /// `Some` = entries last sent on this path; `None` = entries whose answer
    /// is late.
    pub dead: Option<u32>,
    /// With `dead`: entries never sent, too.
    pub unsent_too: bool,
    /// A path already tried is refused.
    pub untried_only: bool,
    pub refused: Refused,
}

/// One repeat.
#[derive(Clone, Copy, Debug, PartialEq, Eq, Structural)]
pub struct Retry {
    pub id: u32,
    pub from: u32,
    /// The path the repeat went to, or was offered to.
    pub alt: Option<u32>,
    pub sent: bool,
}

impl Pending {
    /// The rule picks this entry.
    pub open spec fn picked(
        self,
        rule: Rule,
        ps: Seq<PathState>,
        cfg: SessionConfig,
        now: u64,
    ) -> bool {
        match rule.dead {
            Some(dead) => self.path_id == dead || (rule.unsent_too && self.path_id == 0),
            None => above(now as int, self.sent_at as int) >= late_after(ps, self.path_id, cfg),
        }
    }

    fn is_picked(
        &self,
        rule: Rule,
        paths: &Vec<PathState>,
        cfg: &SessionConfig,
        now: u64,
    ) -> (r: bool)
        requires
            cfg.wf(),
            distinct_ids(paths@),
        ensures
            r == self.picked(rule, paths@, *cfg, now),
    {
        match rule.dead {
            Some(dead) => self.path_id == dead || (rule.unsent_too && self.path_id == 0),
            None => now.saturating_sub(self.sent_at) >= retry_after(paths, self.path_id, cfg),
        }
    }

    /// `n` is this entry after the repeat `r`.
    pub open spec fn repeated(self, n: Self, r: Retry, rule: Rule, now: u64) -> bool {
        &&& n.started_at == self.started_at
        &&& n.what == self.what
        &&& match r.alt {
            None => {
                &&& !r.sent
                &&& n == self
            },
            Some(alt) => if r.sent {
                &&& n.path_id == alt
                &&& n.sent_at == now
                &&& n.tried@ == after_try(self.tried@, alt)
            } else {
                match rule.refused {
                    Refused::Keep => n == self,
                    Refused::Stamp => n == (Pending { sent_at: now, ..self }),
                    Refused::StampAndTry => {
                        &&& n.path_id == self.path_id
                        &&& n.sent_at == now
                        &&& n.tried@ == after_try(self.tried@, alt)
                    },
                }
            },
        }
    }
}

/// A control frame has a slot on this path.
pub open spec fn ctl_slot(p: PathState, cfg: SessionConfig) -> bool {
    &&& p.stat.alive()
    &&& p.stat.writer_open
    &&& p.urgent@.len() < cfg.tuning.chan
}

pub open spec fn pool_ctl_slot(ps: Seq<PathState>, id: u32, cfg: SessionConfig) -> bool {
    match index_of(ps, id) {
        Some(i) => ctl_slot(ps[i], cfg),
        None => false,
    }
}

/// Some urgent frame of the path announces `what`.
pub open spec fn announced_on(p: PathState, id: u32, what: What) -> bool {
    exists|j: int| 0 <= j < p.urgent@.len() && announces(#[trigger] p.urgent@[j], id, what)
}

/// The repeat `r` of entry `p` is a true account: it went to a path the rule
/// allows, and it was sent exactly where there was a slot; the frame is then
/// queued there.
pub open spec fn retry_accounts(
    p: Pending,
    r: Retry,
    rule: Rule,
    ps: Seq<PathState>,
    qs: Seq<PathState>,
    cfg: SessionConfig,
) -> bool {
    &&& r.from == p.path_id
    &&& match r.alt {
        None => !r.sent,
        Some(alt) => {
            &&& rule.untried_only ==> !p.tried@.contains(alt)
            &&& r.sent ==> pool_ctl_slot(ps, alt, cfg) && index_of(qs, alt) is Some && announced_on(
                qs[index_of(qs, alt)->0],
                r.id,
                p.what,
            )
            &&& !r.sent ==> !pool_ctl_slot(qs, alt, cfg)
        },
    }
}

/// The pool once the entry `p` was repeated: the path that the scheduler names
/// is offered the frame, unless the rule refuses that path.
pub open spec fn repeat_step<S: Scheduler>(
    sched: &S,
    ps: Seq<PathState>,
    qs: Seq<PathState>,
    p: Pending,
    r: Retry,
    rule: Rule,
    cfg: SessionConfig,
) -> bool {
    &&& exists|named: Option<u32>| #[trigger]
        picked_again(sched, ps, p.tried@, named) && r.alt == if rule.untried_only && named is Some
            && p.tried@.contains(named->0) {
            None
        } else {
            named
        }
    &&& match r.alt {
        None => qs == ps,
        Some(alt) => ctl_offered(ps, qs, alt, r.id, p.what, cfg, r.sent),
    }
}

/// The pool once the entries of `m` were repeated in order.
#[verifier::opaque]
pub open spec fn repeat_pool<S: Scheduler>(
    sched: &S,
    ps: Seq<PathState>,
    qs: Seq<PathState>,
    m: Map<u32, Pending>,
    out: Seq<Retry>,
    rule: Rule,
    cfg: SessionConfig,
) -> bool
    decreases out.len(),
{
    if out.len() == 0 {
        qs == ps
    } else {
        exists|mid: Seq<PathState>|
            repeat_pool(sched, ps, mid, m, out.drop_last(), rule, cfg) && #[trigger] repeat_step(
                sched,
                mid,
                qs,
                m[out.last().id],
                out.last(),
                rule,
                cfg,
            )
    }
}

fn repeat_one<S: Scheduler>(
    id: u32,
    p: &mut Pending,
    rule: Rule,
    paths: &mut Vec<PathState>,
    cfg: &SessionConfig,
    sched: &S,
    now: u64,
) -> (r: Retry)
    requires
        distinct_ids(old(paths)@),
    ensures
        r.id == id,
        old(p).repeated(*final(p), r, rule, now),
        retry_accounts(*old(p), r, rule, old(paths)@, final(paths)@, *cfg),
        repeat_step(sched, old(paths)@, final(paths)@, *old(p), r, rule, *cfg),
        distinct_ids(final(paths)@),
        steady(old(paths)@, final(paths)@),
        queues_grow(old(paths)@, final(paths)@),
{
    let from: u32 = p.path_id;
    let ghost ps = paths@;
    proof {
        lemma_steady_refl(ps);
    }
    let named: Option<u32> = sched.pick_retry(paths, &p.tried);
    assert(picked_again(sched, ps, p.tried@, named));
    let alt: u32 = match named {
        Some(a) => {
            if rule.untried_only && contains_id(&p.tried, a) {
                return Retry { id, from, alt: None, sent: false };
            }
            a
        },
        None => {
            return Retry { id, from, alt: None, sent: false };
        },
    };
    let frame: Frame = frame_of(id, &p.what);
    let ghost f = frame;
    let sent: bool = send_on_path(paths, alt, frame, cfg);
    proof {
        lemma_offer_steady(ps, paths@, alt, f, *cfg);
        lemma_steady(ps, paths@, alt);
        assert(announces(f, id, p.what) && pool_offered(ps, paths@, alt, f, *cfg));
        assert(ctl_offered(ps, paths@, alt, id, p.what, *cfg, sent));
        assert(sent == pool_ctl_slot(ps, alt, *cfg));
        match index_of(ps, alt) {
            Some(i) => {
                assert(0 <= i < ps.len() && ps[i].id == alt);
                if sent {
                    assert(paths@[i].urgent@[ps[i].urgent@.len() as int] == f);
                } else {
                    let a = clocks(ps[i].stat);
                    let b = clocks(paths@[i].stat);
                    assert(a == b);
                    assert(a.state == b.state && a.writer_open == b.writer_open);
                    assert(paths@[i].urgent@ == ps[i].urgent@);
                }
            },
            None => {},
        }
    }
    if sent {
        p.path_id = alt;
        p.sent_at = now;
        push_tried(&mut p.tried, alt);
    } else {
        match rule.refused {
            Refused::Keep => {},
            Refused::Stamp => {
                p.sent_at = now;
            },
            Refused::StampAndTry => {
                p.sent_at = now;
                push_tried(&mut p.tried, alt);
            },
        }
    }
    Retry { id, from, alt: Some(alt), sent }
}

// ---------------------------------------------------------------------------
// The table
// ---------------------------------------------------------------------------
pub struct Ledger {
    pub entries: BTreeMap<u32, Pending>,
}

/// What an entry says once it is announced again: the newest target or
/// reason; the first final offset, and who closed first.
pub open spec fn merged(old_what: What, new_what: What) -> What {
    match old_what {
        What::Close { second_closer, final_offset } => match new_what {
            What::Close { final_offset: f, .. } => What::Close {
                second_closer,
                final_offset: if final_offset is None {
                    f
                } else {
                    final_offset
                },
            },
            _ => new_what,
        },
        _ => new_what,
    }
}

/// A Reset may be remembered before it found a path.
pub open spec fn counts_as_try(path_id: u32, what: What) -> bool {
    path_id != 0 || !(what is Reset)
}

impl Ledger {
    pub open spec fn view(self) -> Map<u32, Pending> {
        self.entries@
    }

    pub fn new() -> (l: Self)
        ensures
            l@ == Map::<u32, Pending>::empty(),
    {
        Ledger { entries: BTreeMap::new() }
    }

    pub fn contains(&self, id: u32) -> (r: bool)
        ensures
            r == self@.contains_key(id),
    {
        self.entries.contains_key(&id)
    }

    pub fn forget(&mut self, id: u32)
        ensures
            final(self)@ == old(self)@.remove(id),
    {
        let _ = self.entries.remove(&id);
        assert(self@ =~= old(self)@.remove(id));
    }

    pub fn clear(&mut self)
        ensures
            final(self)@ == Map::<u32, Pending>::empty(),
    {
        self.entries.clear();
    }

    /// `n` is the entry of an announcement sent on `path_id`.
    pub open spec fn remembered(
        before: Option<Pending>,
        n: Pending,
        path_id: u32,
        what: What,
        now: u64,
    ) -> bool {
        &&& n.path_id == path_id
        &&& n.sent_at == now
        &&& match before {
            Some(p) => {
                &&& n.started_at == p.started_at
                &&& n.what == merged(p.what, what)
                &&& n.tried@ == if counts_as_try(path_id, what) {
                    after_try(p.tried@, path_id)
                } else {
                    p.tried@
                }
            },
            None => {
                &&& n.started_at == now
                &&& n.what == what
                &&& n.tried@ == if counts_as_try(path_id, what) {
                    seq![path_id]
                } else {
                    seq![]
                }
            },
        }
    }

    /// Remember an announcement sent on `path_id`.
    pub fn remember(&mut self, id: u32, path_id: u32, what: What, now: u64)
        ensures
            final(self)@.contains_key(id),
            final(self)@ == old(self)@.insert(id, final(self)@[id]),
            Ledger::remembered(
                if old(self)@.contains_key(id) {
                    Some(old(self)@[id])
                } else {
                    None
                },
                final(self)@[id],
                path_id,
                what,
                now,
            ),
    {
        let ghost m = self@;
        let is_reset: bool = match &what {
            What::Reset(_) => true,
            _ => false,
        };
        let counts: bool = path_id != 0 || !is_reset;
        match self.entries.remove(&id) {
            Some(before) => {
                let mut tried: Vec<u32> = before.tried;
                if counts {
                    push_tried(&mut tried, path_id);
                }
                let next: What = merge(before.what, what);
                let _ = self.entries.insert(
                    id,
                    Pending {
                        path_id,
                        sent_at: now,
                        started_at: before.started_at,
                        tried,
                        what: next,
                    },
                );
            },
            None => {
                let mut tried: Vec<u32> = Vec::new();
                if counts {
                    tried.push(path_id);
                    assert(tried@ =~= seq![path_id]);
                }
                let _ = self.entries.insert(
                    id,
                    Pending { path_id, sent_at: now, started_at: now, tried, what },
                );
            },
        }
        assert(self@ =~= m.insert(id, self@[id]));
    }

    /// Drop the entries that began at least `linger` ago.
    pub fn reap(&mut self, linger: u64, now: u64)
        ensures
            forall|id: u32| #[trigger]
                final(self)@.contains_key(id) <==> old(self)@.contains_key(id) && above(
                    now as int,
                    old(self)@[id].started_at as int,
                ) < linger,
            forall|id: u32| #[trigger]
                final(self)@.contains_key(id) ==> final(self)@[id] == old(self)@[id],
    {
        let ids: Vec<u32> = ids_of(&self.entries);
        let ghost m = self@;
        proof {
            assert forall|j: int| 0 <= j < ids@.len() implies m.contains_key(#[trigger] ids@[j]) by {
                assert(ids@.contains(ids@[j]));
            }
        }
        let mut i: usize = 0;
        while i < ids.len()
            invariant
                i <= ids@.len(),
                lists_ids(ids@, m),
                forall|id: u32| #[trigger]
                    self@.contains_key(id) ==> m.contains_key(id) && self@[id] == m[id],
                forall|j: int| i <= j < ids@.len() ==> self@.contains_key(#[trigger] ids@[j]),
                forall|j: int|
                    0 <= j < i ==> (self@.contains_key(#[trigger] ids@[j]) <==> above(
                        now as int,
                        m[ids@[j]].started_at as int,
                    ) < linger),
            decreases ids.len() - i,
        {
            let id: u32 = ids[i];
            proof {
                assert(self@.contains_key(ids@[i as int]));
            }
            let over: bool = match self.entries.get(&id) {
                Some(p) => now.saturating_sub(p.started_at) >= linger,
                None => false,
            };
            if over {
                let _ = self.entries.remove(&id);
            }
            i += 1;
        }
        proof {
            assert forall|id: u32| #[trigger] self@.contains_key(id) <==> m.contains_key(id) && above(
                now as int,
                m[id].started_at as int,
            ) < linger by {
                if m.contains_key(id) {
                    assert(ids@.contains(id));
                    let j = choose|j: int| 0 <= j < ids@.len() && ids@[j] == id;
                    assert(self@.contains_key(ids@[j]) <==> above(
                        now as int,
                        m[ids@[j]].started_at as int,
                    ) < linger);
                }
            }
        }
    }

    /// Repeat every entry the rule picks. The result accounts for each of
    /// them, in id order; no other entry changes.
    pub fn repeat<S: Scheduler>(
        &mut self,
        rule: Rule,
        paths: &mut Vec<PathState>,
        cfg: &SessionConfig,
        sched: &S,
        now: u64,
    ) -> (out: Vec<Retry>)
        requires
            cfg.wf(),
            distinct_ids(old(paths)@),
        ensures
            repeats(
                sched,
                old(self)@,
                final(self)@,
                rule,
                old(paths)@,
                final(paths)@,
                *cfg,
                now,
                out@,
            ),
            distinct_ids(final(paths)@),
            steady(old(paths)@, final(paths)@),
            queues_grow(old(paths)@, final(paths)@),
    {
        let ids: Vec<u32> = ids_of(&self.entries);
        let mut out: Vec<Retry> = Vec::new();
        let ghost m = self@;
        let ghost ps0 = paths@;
        proof {
            lemma_steady_refl(ps0);
            reveal_with_fuel(repeat_pool, 2);
        }
        let mut i: usize = 0;
        while i < ids.len()
            invariant
                i <= ids@.len(),
                cfg.wf(),
                lists_ids(ids@, m),
                distinct_ids(ps0),
                distinct_ids(paths@),
                steady(ps0, paths@),
                queues_grow(ps0, paths@),
                repeat_pool(sched, ps0, paths@, m, out@, rule, *cfg),
                self@.dom() == m.dom(),
                forall|j: int| i <= j < ids@.len() ==> self@[#[trigger] ids@[j]] == m[ids@[j]],
                forall|j: int|
                    0 <= j < i && !m[#[trigger] ids@[j]].picked(rule, ps0, *cfg, now)
                        ==> self@[ids@[j]] == m[ids@[j]],
                forall|j: int|
                    0 <= j < i && m[#[trigger] ids@[j]].picked(rule, ps0, *cfg, now)
                        ==> exists|a: int| 0 <= a < out@.len() && (#[trigger] out@[a]).id == ids@[j],
                forall|a: int, b: int| 0 <= a < b < out@.len() ==> out@[a].id < out@[b].id,
                forall|a: int|
                    0 <= a < out@.len() ==> {
                        let r = #[trigger] out@[a];
                        &&& m.contains_key(r.id)
                        &&& m[r.id].picked(rule, ps0, *cfg, now)
                        &&& m[r.id].repeated(self@[r.id], r, rule, now)
                        &&& retry_accounts(m[r.id], r, rule, ps0, paths@, *cfg)
                        &&& i < ids@.len() ==> r.id < ids@[i as int]
                    },
            decreases ids.len() - i,
        {
            let id: u32 = ids[i];
            let ghost n1 = self@;
            let ghost ps1 = paths@;
            let ghost out1 = out@;
            proof {
                assert(ids@.contains(id));
                assert(m.contains_key(id));
                assert(self@.dom().contains(id));
                assert(self@[ids@[i as int]] == m[ids@[i as int]]);
                lemma_steady_picks(ps0, ps1, m[id], rule, *cfg, now);
            }
            let due: bool = match self.entries.get(&id) {
                Some(p) => p.is_picked(rule, paths, cfg, now),
                None => false,
            };
            if due {
                match self.entries.remove(&id) {
                    Some(entry) => {
                        let mut p: Pending = entry;
                        let r: Retry = repeat_one(id, &mut p, rule, paths, cfg, sched, now);
                        let _ = self.entries.insert(id, p);
                        proof {
                            assert(self@ =~= n1.insert(id, p));
                            lemma_steady_trans(ps0, ps1, paths@);
                            lemma_queues_grow_trans(ps0, ps1, paths@);
                            lemma_slot_back(ps0, ps1, m[id], r, rule, paths@, *cfg);
                        }
                        out.push(r);
                        proof {
                            assert(out@[out1.len() as int].id == id);
                            reveal_with_fuel(repeat_pool, 2);
                            assert(out@.drop_last() =~= out1);
                            assert(repeat_step(
                                sched,
                                ps1,
                                paths@,
                                m[out@.last().id],
                                out@.last(),
                                rule,
                                *cfg,
                            ));
                            assert forall|a: int| 0 <= a < out@.len() implies {
                                let r = #[trigger] out@[a];
                                &&& m.contains_key(r.id)
                                &&& m[r.id].picked(rule, ps0, *cfg, now)
                                &&& m[r.id].repeated(self@[r.id], r, rule, now)
                                &&& retry_accounts(m[r.id], r, rule, ps0, paths@, *cfg)
                                &&& i + 1 < ids@.len() ==> r.id < ids@[i + 1]
                            } by {
                                if a < out1.len() {
                                    assert(out@[a] == out1[a]);
                                    assert(out1[a].id < ids@[i as int]);
                                    lemma_retry_persists(
                                        m[out1[a].id],
                                        out1[a],
                                        rule,
                                        ps0,
                                        ps1,
                                        paths@,
                                        *cfg,
                                    );
                                }
                            }
                            assert forall|j: int|
                                0 <= j < i + 1 && m[#[trigger] ids@[j]].picked(rule, ps0, *cfg, now) implies exists|a: int|
                                0 <= a < out@.len() && (#[trigger] out@[a]).id == ids@[j] by {
                                if j < i {
                                    let a = choose|a: int|
                                        0 <= a < out1.len() && (#[trigger] out1[a]).id == ids@[j];
                                    assert(out@[a].id == ids@[j]);
                                }
                            }
                        }
                    },
                    None => {
                        assert(false);
                    },
                }
            }
            proof {
                assert(self@.dom() =~= m.dom());
            }
            i += 1;
        }
        proof {
            assert forall|id: u32| #[trigger]
                m.contains_key(id) && !m[id].picked(rule, ps0, *cfg, now) implies self@[id] == m[id] by {
                assert(ids@.contains(id));
                let j = choose|j: int| 0 <= j < ids@.len() && ids@[j] == id;
                assert(self@[ids@[j]] == m[ids@[j]]);
            }
            assert forall|id: u32| #[trigger]
                m.contains_key(id) && m[id].picked(rule, ps0, *cfg, now) implies exists|a: int|
                0 <= a < out@.len() && (#[trigger] out@[a]).id == id by {
                assert(ids@.contains(id));
                let j = choose|j: int| 0 <= j < ids@.len() && ids@[j] == id;
                assert(m[ids@[j]].picked(rule, ps0, *cfg, now));
            }
        }
        out
    }
}

/// `n` is the table `m` once every entry the rule picks was repeated; `out`
/// accounts for each of them, in id order, and no other entry changes. `qs` is
/// the pool after that.
pub open spec fn repeats<S: Scheduler>(
    sched: &S,
    m: Map<u32, Pending>,
    n: Map<u32, Pending>,
    rule: Rule,
    ps: Seq<PathState>,
    qs: Seq<PathState>,
    cfg: SessionConfig,
    now: u64,
    out: Seq<Retry>,
) -> bool {
    &&& n.dom() == m.dom()
    &&& forall|id: u32| #[trigger]
        m.contains_key(id) && !m[id].picked(rule, ps, cfg, now) ==> n[id] == m[id]
    &&& forall|id: u32| #[trigger]
        m.contains_key(id) && m[id].picked(rule, ps, cfg, now) ==> exists|i: int|
            0 <= i < out.len() && (#[trigger] out[i]).id == id
    &&& forall|i: int, j: int| 0 <= i < j < out.len() ==> out[i].id < out[j].id
    &&& forall|i: int|
        0 <= i < out.len() ==> {
            let r = #[trigger] out[i];
            &&& m.contains_key(r.id)
            &&& m[r.id].picked(rule, ps, cfg, now)
            &&& m[r.id].repeated(n[r.id], r, rule, now)
            &&& retry_accounts(m[r.id], r, rule, ps, qs, cfg)
        }
    &&& repeat_pool(sched, ps, qs, m, out, rule, cfg)
}

/// How many of the repeats were sent.
pub open spec fn sent_retries(out: Seq<Retry>) -> nat
    decreases out.len(),
{
    if out.len() == 0 {
        0
    } else {
        sent_retries(out.drop_last()) + (if out.last().sent {
            1nat
        } else {
            0nat
        })
    }
}

pub fn count_sent(out: &Vec<Retry>) -> (n: u64)
    ensures
        n == sent_retries(out@),
{
    let mut n: u64 = 0;
    let mut i: usize = 0;
    while i < out.len()
        invariant
            i <= out@.len(),
            n == sent_retries(out@.take(i as int)),
            n <= i,
        decreases out.len() - i,
    {
        proof {
            assert(out@.take(i + 1).drop_last() =~= out@.take(i as int));
        }
        if out[i].sent {
            n += 1;
        }
        i += 1;
    }
    assert(out@.take(out@.len() as int) =~= out@);
    n
}

/// The counters after these repeats, each by the links it went between.
pub open spec fn retries_counted(c: Counters, ps: Seq<PathState>, out: Seq<Retry>) -> Counters
    decreases out.len(),
{
    if out.len() == 0 {
        c
    } else {
        let before = retries_counted(c, ps, out.drop_last());
        let r = out.last();
        if r.sent && r.alt is Some {
            retry_counted(before, ps, r.from, r.alt->0)
        } else {
            before
        }
    }
}

pub fn note_retries(metrics: &mut Counters, paths: &Vec<PathState>, out: &Vec<Retry>)
    requires
        distinct_ids(paths@),
    ensures
        *final(metrics) == retries_counted(*old(metrics), paths@, out@),
{
    let ghost c = *metrics;
    let mut i: usize = 0;
    while i < out.len()
        invariant
            i <= out@.len(),
            distinct_ids(paths@),
            *metrics == retries_counted(c, paths@, out@.take(i as int)),
        decreases out.len() - i,
    {
        proof {
            assert(out@.take(i + 1).drop_last() =~= out@.take(i as int));
        }
        let r: Retry = out[i];
        if r.sent {
            match r.alt {
                Some(alt) => {
                    note_retry(metrics, paths, r.from, alt);
                },
                None => {},
            }
        }
        i += 1;
    }
    assert(out@.take(out@.len() as int) =~= out@);
}

/// The Close of stream `id` is moot: the stream is gone, or its peer has
/// ended and we closed first.
pub open spec fn close_settled(streams: Map<u32, StreamState>, id: u32, p: Pending) -> bool {
    ||| !streams.contains_key(id)
    ||| (p.what matches What::Close { second_closer, .. } && !second_closer
        && streams[id].recv.recv_fin)
}

impl Ledger {
    /// Drop the Closes that are moot; with `only`, those last sent on that
    /// path.
    pub fn forget_settled(&mut self, streams: &BTreeMap<u32, StreamState>, only: Option<u32>)
        ensures
            forall|id: u32| #[trigger]
                final(self)@.contains_key(id) <==> old(self)@.contains_key(id) && !(
                (only is None || old(self)@[id].path_id == only->0) && close_settled(
                    streams@,
                    id,
                    old(self)@[id],
                )),
            forall|id: u32| #[trigger]
                final(self)@.contains_key(id) ==> final(self)@[id] == old(self)@[id],
    {
        let ids: Vec<u32> = ids_of(&self.entries);
        let ghost m = self@;
        proof {
            assert forall|j: int| 0 <= j < ids@.len() implies m.contains_key(#[trigger] ids@[j]) by {
                assert(ids@.contains(ids@[j]));
            }
        }
        let mut i: usize = 0;
        while i < ids.len()
            invariant
                i <= ids@.len(),
                lists_ids(ids@, m),
                forall|id: u32| #[trigger]
                    self@.contains_key(id) ==> m.contains_key(id) && self@[id] == m[id],
                forall|j: int| i <= j < ids@.len() ==> self@.contains_key(#[trigger] ids@[j]),
                forall|j: int|
                    0 <= j < i ==> (self@.contains_key(#[trigger] ids@[j]) <==> !((only is None
                        || m[ids@[j]].path_id == only->0) && close_settled(
                        streams@,
                        ids@[j],
                        m[ids@[j]],
                    ))),
            decreases ids.len() - i,
        {
            let id: u32 = ids[i];
            proof {
                assert(self@.contains_key(ids@[i as int]));
            }
            let moot: bool = match self.entries.get(&id) {
                Some(p) => {
                    let mine: bool = match only {
                        None => true,
                        Some(dead) => p.path_id == dead,
                    };
                    let first_closer: bool = match &p.what {
                        What::Close { second_closer, .. } => !*second_closer,
                        _ => false,
                    };
                    let settled: bool = match streams.get(&id) {
                        None => true,
                        Some(st) => first_closer && st.recv.recv_fin,
                    };
                    mine && settled
                },
                None => false,
            };
            if moot {
                let _ = self.entries.remove(&id);
            }
            i += 1;
        }
        proof {
            assert forall|id: u32| #[trigger] self@.contains_key(id) <==> m.contains_key(id) && !((
            only is None || m[id].path_id == only->0) && close_settled(streams@, id, m[id])) by {
                if m.contains_key(id) {
                    assert(ids@.contains(id));
                    let j = choose|j: int| 0 <= j < ids@.len() && ids@[j] == id;
                    assert(self@.contains_key(ids@[j]) <==> !((only is None || m[ids@[j]].path_id
                        == only->0) && close_settled(streams@, ids@[j], m[ids@[j]])));
                }
            }
        }
    }
}

// ---------------------------------------------------------------------------
// The six rules
// ---------------------------------------------------------------------------
/// Opens whose answer is late may go round the pool again.
pub open spec fn late_opens() -> Rule {
    Rule { dead: None, unsent_too: false, untried_only: false, refused: Refused::StampAndTry }
}

/// Opens last sent on a path that went down.
pub open spec fn opens_from(dead: u32) -> Rule {
    Rule { dead: Some(dead), unsent_too: false, untried_only: false, refused: Refused::Keep }
}

/// Closes and Resets whose answer is late go to each path once.
pub open spec fn late_ends() -> Rule {
    Rule { dead: None, unsent_too: false, untried_only: true, refused: Refused::Stamp }
}

/// Closes last sent on a path that went down.
pub open spec fn closes_from(dead: u32) -> Rule {
    Rule { dead: Some(dead), unsent_too: false, untried_only: true, refused: Refused::Keep }
}

/// Resets last sent on a path that went down, or never sent.
pub open spec fn resets_from(dead: u32) -> Rule {
    Rule { dead: Some(dead), unsent_too: true, untried_only: true, refused: Refused::Keep }
}

impl Ledger {
    pub fn retry_opens<S: Scheduler>(
        &mut self,
        paths: &mut Vec<PathState>,
        cfg: &SessionConfig,
        sched: &S,
        now: u64,
    ) -> (out: Vec<Retry>)
        requires
            cfg.wf(),
            distinct_ids(old(paths)@),
        ensures
            repeats(
                sched,
                old(self)@,
                final(self)@,
                late_opens(),
                old(paths)@,
                final(paths)@,
                *cfg,
                now,
                out@,
            ),
            distinct_ids(final(paths)@),
            steady(old(paths)@, final(paths)@),
            queues_grow(old(paths)@, final(paths)@),
    {
        let rule: Rule = Rule {
            dead: None,
            unsent_too: false,
            untried_only: false,
            refused: Refused::StampAndTry,
        };
        self.repeat(rule, paths, cfg, sched, now)
    }

    pub fn retry_open_from<S: Scheduler>(
        &mut self,
        dead: u32,
        paths: &mut Vec<PathState>,
        cfg: &SessionConfig,
        sched: &S,
        now: u64,
    ) -> (out: Vec<Retry>)
        requires
            cfg.wf(),
            distinct_ids(old(paths)@),
        ensures
            repeats(
                sched,
                old(self)@,
                final(self)@,
                opens_from(dead),
                old(paths)@,
                final(paths)@,
                *cfg,
                now,
                out@,
            ),
            distinct_ids(final(paths)@),
            steady(old(paths)@, final(paths)@),
            queues_grow(old(paths)@, final(paths)@),
    {
        let rule: Rule = Rule {
            dead: Some(dead),
            unsent_too: false,
            untried_only: false,
            refused: Refused::Keep,
        };
        self.repeat(rule, paths, cfg, sched, now)
    }

    /// The table once Closes past the linger and moot Closes are gone.
    pub open spec fn live_closes(
        m: Map<u32, Pending>,
        n: Map<u32, Pending>,
        streams: Map<u32, StreamState>,
        linger: u64,
        now: u64,
    ) -> bool {
        &&& forall|id: u32| #[trigger]
            n.contains_key(id) <==> m.contains_key(id) && above(
                now as int,
                m[id].started_at as int,
            ) < linger && !close_settled(streams, id, m[id])
        &&& forall|id: u32| #[trigger] n.contains_key(id) ==> n[id] == m[id]
    }

    /// Repeat late Closes, once per path, until the linger is over or the
    /// Close is moot.
    pub fn retry_closes<S: Scheduler>(
        &mut self,
        streams: &BTreeMap<u32, StreamState>,
        paths: &mut Vec<PathState>,
        cfg: &SessionConfig,
        sched: &S,
        now: u64,
    ) -> (out: Vec<Retry>)
        requires
            cfg.wf(),
            distinct_ids(old(paths)@),
        ensures
            exists|mid: Map<u32, Pending>| #[trigger]
                Ledger::live_closes(old(self)@, mid, streams@, cfg.close_linger, now) && repeats(
                    sched,
                    mid,
                    final(self)@,
                    late_ends(),
                    old(paths)@,
                    final(paths)@,
                    *cfg,
                    now,
                    out@,
                ),
            distinct_ids(final(paths)@),
            steady(old(paths)@, final(paths)@),
            queues_grow(old(paths)@, final(paths)@),
    {
        let ghost m = self@;
        self.reap(cfg.close_linger, now);
        self.forget_settled(streams, None);
        let ghost mid = self@;
        assert(Ledger::live_closes(m, mid, streams@, cfg.close_linger, now));
        let rule: Rule = Rule {
            dead: None,
            unsent_too: false,
            untried_only: true,
            refused: Refused::Stamp,
        };
        self.repeat(rule, paths, cfg, sched, now)
    }

    /// The table once moot Closes of one path are gone.
    pub open spec fn closes_on(
        m: Map<u32, Pending>,
        n: Map<u32, Pending>,
        streams: Map<u32, StreamState>,
        dead: u32,
    ) -> bool {
        &&& forall|id: u32| #[trigger]
            n.contains_key(id) <==> m.contains_key(id) && !(m[id].path_id == dead && close_settled(
                streams,
                id,
                m[id],
            ))
        &&& forall|id: u32| #[trigger] n.contains_key(id) ==> n[id] == m[id]
    }

    pub fn retry_close_from<S: Scheduler>(
        &mut self,
        dead: u32,
        streams: &BTreeMap<u32, StreamState>,
        paths: &mut Vec<PathState>,
        cfg: &SessionConfig,
        sched: &S,
        now: u64,
    ) -> (out: Vec<Retry>)
        requires
            cfg.wf(),
            distinct_ids(old(paths)@),
        ensures
            exists|mid: Map<u32, Pending>| #[trigger]
                Ledger::closes_on(old(self)@, mid, streams@, dead) && repeats(
                    sched,
                    mid,
                    final(self)@,
                    closes_from(dead),
                    old(paths)@,
                    final(paths)@,
                    *cfg,
                    now,
                    out@,
                ),
            distinct_ids(final(paths)@),
            steady(old(paths)@, final(paths)@),
            queues_grow(old(paths)@, final(paths)@),
    {
        let ghost m = self@;
        self.forget_settled(streams, Some(dead));
        let ghost mid = self@;
        assert(Ledger::closes_on(m, mid, streams@, dead));
        let rule: Rule = Rule {
            dead: Some(dead),
            unsent_too: false,
            untried_only: true,
            refused: Refused::Keep,
        };
        self.repeat(rule, paths, cfg, sched, now)
    }

    /// The table once Resets past the linger are gone.
    pub open spec fn live_resets(
        m: Map<u32, Pending>,
        n: Map<u32, Pending>,
        linger: u64,
        now: u64,
    ) -> bool {
        &&& forall|id: u32| #[trigger]
            n.contains_key(id) <==> m.contains_key(id) && above(
                now as int,
                m[id].started_at as int,
            ) < linger
        &&& forall|id: u32| #[trigger] n.contains_key(id) ==> n[id] == m[id]
    }

    /// Repeat late Resets, once per path, until the linger is over.
    pub fn retry_resets<S: Scheduler>(
        &mut self,
        paths: &mut Vec<PathState>,
        cfg: &SessionConfig,
        sched: &S,
        now: u64,
    ) -> (out: Vec<Retry>)
        requires
            cfg.wf(),
            distinct_ids(old(paths)@),
        ensures
            exists|mid: Map<u32, Pending>| #[trigger]
                Ledger::live_resets(old(self)@, mid, cfg.close_linger, now) && repeats(
                    sched,
                    mid,
                    final(self)@,
                    late_ends(),
                    old(paths)@,
                    final(paths)@,
                    *cfg,
                    now,
                    out@,
                ),
            distinct_ids(final(paths)@),
            steady(old(paths)@, final(paths)@),
            queues_grow(old(paths)@, final(paths)@),
    {
        let ghost m = self@;
        self.reap(cfg.close_linger, now);
        let ghost mid = self@;
        assert(Ledger::live_resets(m, mid, cfg.close_linger, now));
        let rule: Rule = Rule {
            dead: None,
            unsent_too: false,
            untried_only: true,
            refused: Refused::Stamp,
        };
        self.repeat(rule, paths, cfg, sched, now)
    }

    pub fn retry_reset_from<S: Scheduler>(
        &mut self,
        dead: u32,
        paths: &mut Vec<PathState>,
        cfg: &SessionConfig,
        sched: &S,
        now: u64,
    ) -> (out: Vec<Retry>)
        requires
            cfg.wf(),
            distinct_ids(old(paths)@),
        ensures
            repeats(
                sched,
                old(self)@,
                final(self)@,
                resets_from(dead),
                old(paths)@,
                final(paths)@,
                *cfg,
                now,
                out@,
            ),
            distinct_ids(final(paths)@),
            steady(old(paths)@, final(paths)@),
            queues_grow(old(paths)@, final(paths)@),
    {
        let rule: Rule = Rule {
            dead: Some(dead),
            unsent_too: true,
            untried_only: true,
            refused: Refused::Keep,
        };
        self.repeat(rule, paths, cfg, sched, now)
    }
}

/// A Close or Reset is never repeated on a path it was already sent on.
pub proof fn law_ends_never_cycle<S: Scheduler>(
    sched: &S,
    m: Map<u32, Pending>,
    n: Map<u32, Pending>,
    rule: Rule,
    ps: Seq<PathState>,
    qs: Seq<PathState>,
    cfg: SessionConfig,
    now: u64,
    out: Seq<Retry>,
    i: int,
)
    requires
        repeats(sched, m, n, rule, ps, qs, cfg, now, out),
        rule.untried_only,
        0 <= i < out.len(),
        out[i].alt is Some,
    ensures
        !m[out[i].id].tried@.contains(out[i].alt->0),
{
    assert(retry_accounts(m[out[i].id], out[i], rule, ps, qs, cfg));
}

/// Every repeat that is sent adds its path to the memory, so an entry with
/// fewer than eight paths behind it is repeated at most once per path.
pub proof fn law_each_send_is_remembered(p: Pending, n: Pending, r: Retry, rule: Rule, now: u64)
    requires
        p.repeated(n, r, rule, now),
        r.sent,
        r.alt is Some,
        !p.tried@.contains(r.alt->0),
        p.tried@.len() < crate::tried::TRIED_MAX,
    ensures
        n.tried@ == p.tried@.push(r.alt->0),
{
    crate::tried::lemma_without(p.tried@, r.alt->0);
}

/// A refused repeat of a Close or Reset does not use up the path.
pub proof fn law_refusal_keeps_the_path(p: Pending, n: Pending, r: Retry, rule: Rule, now: u64)
    requires
        p.repeated(n, r, rule, now),
        rule.untried_only,
        !(rule.refused is StampAndTry),
        !r.sent,
    ensures
        n.tried == p.tried,
        n.path_id == p.path_id,
{
}

fn merge(before: What, next: What) -> (r: What)
    ensures
        r == merged(before, next),
{
    match before {
        What::Close { second_closer, final_offset } => match next {
            What::Close { second_closer: _, final_offset: f } => What::Close {
                second_closer,
                final_offset: if final_offset.is_none() {
                    f
                } else {
                    final_offset
                },
            },
            other => other,
        },
        _ => next,
    }
}

proof fn lemma_steady_picks(
    a: Seq<PathState>,
    b: Seq<PathState>,
    p: Pending,
    rule: Rule,
    cfg: SessionConfig,
    now: u64,
)
    requires
        steady(a, b),
        distinct_ids(a),
    ensures
        p.picked(rule, a, cfg, now) == p.picked(rule, b, cfg, now),
{
    lemma_steady(a, b, p.path_id);
    if stat_of(a, p.path_id) is Some {
        let x = clocks(stat_of(a, p.path_id)->0);
        let y = clocks(stat_of(b, p.path_id)->0);
        assert(x.rtt_us == y.rtt_us);
    }
}

proof fn lemma_ctl_slot_shrinks(a: Seq<PathState>, b: Seq<PathState>, id: u32, cfg: SessionConfig)
    requires
        steady(a, b),
        queues_grow(a, b),
        distinct_ids(a),
        pool_ctl_slot(b, id, cfg),
    ensures
        pool_ctl_slot(a, id, cfg),
{
    lemma_steady(a, b, id);
    let i = index_of(a, id)->0;
    assert(0 <= i < a.len() && a[i].id == id);
    assert(a[i].urgent@.is_prefix_of(b[i].urgent@));
    let p = clocks(a[i].stat);
    let q = clocks(b[i].stat);
    assert(p.state == q.state && p.writer_open == q.writer_open);
}

proof fn lemma_slot_back(
    ps0: Seq<PathState>,
    ps1: Seq<PathState>,
    p: Pending,
    r: Retry,
    rule: Rule,
    qs: Seq<PathState>,
    cfg: SessionConfig,
)
    requires
        steady(ps0, ps1),
        queues_grow(ps0, ps1),
        distinct_ids(ps0),
        retry_accounts(p, r, rule, ps1, qs, cfg),
    ensures
        retry_accounts(p, r, rule, ps0, qs, cfg),
{
    if r.alt is Some && r.sent {
        lemma_ctl_slot_shrinks(ps0, ps1, r.alt->0, cfg);
    }
}

proof fn lemma_retry_persists(
    p: Pending,
    r: Retry,
    rule: Rule,
    ps: Seq<PathState>,
    qs: Seq<PathState>,
    qs2: Seq<PathState>,
    cfg: SessionConfig,
)
    requires
        retry_accounts(p, r, rule, ps, qs, cfg),
        distinct_ids(qs),
        steady(qs, qs2),
        queues_grow(qs, qs2),
    ensures
        retry_accounts(p, r, rule, ps, qs2, cfg),
{
    if r.alt is Some {
        let alt = r.alt->0;
        lemma_steady(qs, qs2, alt);
        if r.sent {
            let i = index_of(qs, alt)->0;
            assert(0 <= i < qs.len() && qs[i].id == alt);
            assert(qs[i].urgent@.is_prefix_of(qs2[i].urgent@));
            let j = choose|j: int|
                0 <= j < qs[i].urgent@.len() && announces(#[trigger] qs[i].urgent@[j], r.id, p.what);
            assert(qs2[i].urgent@[j] == qs[i].urgent@[j]);
        } else if pool_ctl_slot(qs2, alt, cfg) {
            lemma_ctl_slot_shrinks(qs, qs2, alt, cfg);
        }
    }
}

/// What is repeated: an announcement that has waited for the loss clock of the
/// pool; and when a path dies, what was last sent on it, and resets that no path
/// ever took.
pub proof fn law_what_is_repeated(
    p: Pending,
    ps: Seq<PathState>,
    dead: u32,
    cfg: SessionConfig,
    now: u64,
)
    requires
        now >= p.sent_at,
    ensures
        p.picked(late_opens(), ps, cfg, now) <==> now - p.sent_at >= late_after(ps, p.path_id, cfg),
        p.picked(late_ends(), ps, cfg, now) <==> now - p.sent_at >= late_after(ps, p.path_id, cfg),
        p.picked(opens_from(dead), ps, cfg, now) <==> p.path_id == dead,
        p.picked(closes_from(dead), ps, cfg, now) <==> p.path_id == dead,
        p.picked(resets_from(dead), ps, cfg, now) <==> p.path_id == dead || p.path_id == 0,
{
}

/// What a repeat leaves behind: where it was sent, its new path and time;
/// where nothing was named, what was there. A refusal is stamped, so that the
/// next try waits, except while a dead path is handed over.
pub proof fn law_what_a_repeat_leaves(p: Pending, n: Pending, r: Retry, dead: u32, now: u64)
    ensures
        p.repeated(n, r, late_opens(), now) || p.repeated(n, r, late_ends(), now) || p.repeated(
            n,
            r,
            closes_from(dead),
            now,
        ) ==> {
            &&& n.started_at == p.started_at
            &&& n.what == p.what
            &&& r.sent ==> r.alt is Some && n.path_id == r.alt->0 && n.sent_at == now
            &&& !r.sent ==> n.path_id == p.path_id
            &&& r.alt is None ==> n == p
        },
        p.repeated(n, r, late_ends(), now) && r.alt is Some && !r.sent ==> n.sent_at == now
            && n.tried == p.tried,
        p.repeated(n, r, late_opens(), now) && r.alt is Some && !r.sent ==> n.sent_at == now
            && n.tried@ == after_try(p.tried@, r.alt->0),
        p.repeated(n, r, closes_from(dead), now) && !r.sent ==> n == p,
        p.repeated(n, r, opens_from(dead), now) && !r.sent ==> n == p,
        p.repeated(n, r, resets_from(dead), now) && !r.sent ==> n == p,
{
}

/// A close is repeated for the linger, while its stream is there, and by the
/// side that closed first only until the peer's end came.
pub proof fn law_how_long_a_close_is_repeated(
    m: Map<u32, Pending>,
    n: Map<u32, Pending>,
    streams: Map<u32, StreamState>,
    linger: u64,
    now: u64,
    id: u32,
)
    requires
        Ledger::live_closes(m, n, streams, linger, now),
        m.contains_key(id),
        m[id].started_at <= now,
        m[id].what is Close,
    ensures
        n.contains_key(id) <==> now - m[id].started_at < linger && streams.contains_key(id) && !(
        !m[id].what->second_closer && streams[id].recv.recv_fin),
        n.contains_key(id) ==> n[id] == m[id],
{
}

/// A reset is repeated for the linger.
pub proof fn law_how_long_a_reset_is_repeated(
    m: Map<u32, Pending>,
    n: Map<u32, Pending>,
    linger: u64,
    now: u64,
    id: u32,
)
    requires
        Ledger::live_resets(m, n, linger, now),
        m.contains_key(id),
        m[id].started_at <= now,
    ensures
        n.contains_key(id) <==> now - m[id].started_at < linger,
        n.contains_key(id) ==> n[id] == m[id],
{
}

/// A close that is told again keeps the final offset and the part it was first
/// told with.
pub proof fn law_a_close_keeps_its_offset(first: bool, off: u64, second: bool, late: Option<u64>)
    ensures
        merged(
            What::Close { second_closer: first, final_offset: Some(off) },
            What::Close { second_closer: second, final_offset: late },
        ) == (What::Close { second_closer: first, final_offset: Some(off) }),
        merged(
            What::Close { second_closer: first, final_offset: None },
            What::Close { second_closer: second, final_offset: late },
        ) == (What::Close { second_closer: first, final_offset: late }),
{
}

/// The frame of an announcement says what was announced of the stream.
pub proof fn law_a_frame_says_what_is_announced(f: Frame, id: u32, what: What)
    requires
        announces(f, id, what),
    ensures
        what matches What::Close { final_offset: o, .. } ==> f is StreamClose && f->StreamClose_stream_id
            == id && f->final_offset == o,
        what matches What::Reset(r) ==> f is StreamReset && f->StreamReset_stream_id == id
            && f->reason == r,
        what is Open ==> f is StreamOpen && f->StreamOpen_stream_id == id,
{
}

/// As many repeats are counted as were sent.
pub proof fn law_sent_repeats_are_counted(out: Seq<Retry>, r: Retry)
    ensures
        sent_retries(out.push(r)) == sent_retries(out) + if r.sent {
            1nat
        } else {
            0
        },
        sent_retries(seq![]) == 0,
{
    assert(out.push(r).drop_last() =~= out);
}

} // verus!
