//! What a session and a server show of themselves.

use vstd::prelude::*;

use crate::frames::ResetReason;
use crate::maps::{ids_of, lists_ids};
use crate::metrics::{zero_counters, Counters};
use crate::num::{above, capped};
use crate::path::{distinct_ids, find_path, index_of, PathState};
use crate::rollup::{
    lemma_more_paths, lists_paths, rolls_up, rollup_links, LinkSnap, PathSnap,
};
use crate::sched::{backup_said, Scheduler};
use crate::session::{Marks, Session};
use crate::stream::StreamState;
use crate::table::{hex_prefix, hex_text, SessionTable, Slot};
use crate::text::{decimal, push_decimal, push_text, text};

verus! {

broadcast use vstd::laws_cmp::group_laws_cmp;

// ---------------------------------------------------------------------------
// Streams
// ---------------------------------------------------------------------------
/// One stream as it is shown.
pub struct StreamSnap {
    pub id: u32,
    /// The name of its home, or its number where the path is gone.
    pub path: String,
    pub bulk: bool,
    pub stalled: bool,
    pub unacked: usize,
}

/// How a stream's home is shown.
pub open spec fn home_label(ps: Seq<PathState>, home: u32) -> Seq<char> {
    match index_of(ps, home) {
        Some(i) => ps[i].name@,
        None => "id:"@ + decimal(home as int),
    }
}

/// `s` shows `st`.
pub open spec fn shows(s: StreamSnap, st: StreamState, ps: Seq<PathState>) -> bool {
    &&& s.id == st.id
    &&& s.path@ == home_label(ps, st.life.sticky)
    &&& s.bulk == st.send.bulk
    &&& s.stalled == st.life.stalled
    &&& s.unacked == st.unacked@.len()
}

/// The streams of a session: how many are held, how many may still be moved,
/// and the first of those, by id.
pub struct StreamsSnap {
    pub held: usize,
    pub live: usize,
    pub sample: Vec<StreamSnap>,
}

/// The steerable ones of these streams, in order.
pub open spec fn steerable_of(ids: Seq<u32>, m: Map<u32, StreamState>) -> Seq<u32>
    decreases ids.len(),
{
    if ids.len() == 0 {
        seq![]
    } else {
        let before = steerable_of(ids.drop_last(), m);
        if m[ids.last()].steerable() {
            before.push(ids.last())
        } else {
            before
        }
    }
}

fn show_home(paths: &Vec<PathState>, home: u32) -> (s: String)
    requires
        distinct_ids(paths@),
    ensures
        s@ == home_label(paths@, home),
{
    match find_path(paths, home) {
        Some(i) => paths[i].name.clone(),
        None => {
            let mut s: String = text("id:");
            push_decimal(&mut s, home as u64);
            s
        },
    }
}

impl Session {
    /// What the streams of this session look like.
    pub open spec fn shows_streams(self, r: StreamsSnap, cap: nat) -> bool {
        exists|ids: Seq<u32>| #[trigger]
            lists_ids(ids, self.streams@) && r.held == ids.len() && r.live == steerable_of(
                ids,
                self.streams@,
            ).len() && r.sample@.len() == (if r.live <= cap {
                r.live as nat
            } else {
                cap
            }) && forall|k: int|
                0 <= k < r.sample@.len() ==> shows(
                    #[trigger] r.sample@[k],
                    self.streams@[steerable_of(ids, self.streams@)[k]],
                    self.paths@,
                )
    }

    /// Show at most `cap` streams.
    pub fn stream_snaps(&self, cap: usize) -> (r: StreamsSnap)
        requires
            self.wf(),
        ensures
            self.shows_streams(r, cap as nat),
    {
        let ids: Vec<u32> = ids_of(&self.streams);
        let mut live: usize = 0;
        let mut sample: Vec<StreamSnap> = Vec::new();
        let mut i: usize = 0;
        assert(ids@.take(0) =~= seq![]);
        while i < ids.len()
            invariant
                i <= ids@.len(),
                self.wf(),
                lists_ids(ids@, self.streams@),
                live == steerable_of(ids@.take(i as int), self.streams@).len(),
                live <= i,
                sample@.len() == (if live <= cap {
                    live
                } else {
                    cap
                }),
                forall|k: int|
                    0 <= k < sample@.len() ==> shows(
                        #[trigger] sample@[k],
                        self.streams@[steerable_of(ids@.take(i as int), self.streams@)[k]],
                        self.paths@,
                    ),
            decreases ids.len() - i,
        {
            let id: u32 = ids[i];
            let ghost before = steerable_of(ids@.take(i as int), self.streams@);
            let ghost sample0 = sample@;
            proof {
                assert(ids@.contains(id));
                assert(ids@.take(i as int + 1).drop_last() =~= ids@.take(i as int));
            }
            match self.streams.get(&id) {
                Some(st) => {
                    if st.is_steerable() {
                        if live < cap {
                            sample.push(
                                StreamSnap {
                                    id: st.id,
                                    path: show_home(&self.paths, st.life.sticky),
                                    bulk: st.send.bulk,
                                    stalled: st.life.stalled,
                                    unacked: st.unacked.len(),
                                },
                            );
                        }
                        live += 1;
                    }
                },
                None => {},
            }
            proof {
                let after = steerable_of(ids@.take(i as int + 1), self.streams@);
                assert forall|k: int| 0 <= k < sample@.len() implies shows(
                    #[trigger] sample@[k],
                    self.streams@[after[k]],
                    self.paths@,
                ) by {
                    if k < sample0.len() {
                        assert(sample@[k] == sample0[k]);
                        assert(after[k] == before[k]);
                    }
                }
            }
            i += 1;
        }
        assert(ids@.take(ids@.len() as int) =~= ids@);
        StreamsSnap { held: ids.len(), live, sample }
    }
}

// ---------------------------------------------------------------------------
// Memory
// ---------------------------------------------------------------------------
/// What these streams may buffer beyond their initial windows.
pub open spec fn extra_of(ids: Seq<u32>, m: Map<u32, StreamState>) -> int
    decreases ids.len(),
{
    if ids.len() == 0 {
        0
    } else {
        extra_of(ids.drop_last(), m) + above(
            m[ids.last()].counters.recv_cap as int,
            m[ids.last()].initial_window as int,
        )
    }
}

impl Session {
    /// What the streams of this session may buffer beyond their initial
    /// windows, together.
    pub fn recv_cap_extra(&self) -> (bytes: u64)
        ensures
            exists|ids: Seq<u32>| #[trigger]
                lists_ids(ids, self.streams@) && bytes == capped(extra_of(ids, self.streams@)),
    {
        let ids: Vec<u32> = ids_of(&self.streams);
        let mut bytes: u64 = 0;
        let mut i: usize = 0;
        assert(ids@.take(0) =~= seq![]);
        while i < ids.len()
            invariant
                i <= ids@.len(),
                lists_ids(ids@, self.streams@),
                extra_of(ids@.take(i as int), self.streams@) >= 0,
                bytes == capped(extra_of(ids@.take(i as int), self.streams@)),
            decreases ids.len() - i,
        {
            let id: u32 = ids[i];
            proof {
                assert(ids@.contains(id));
                assert(ids@.take(i as int + 1).drop_last() =~= ids@.take(i as int));
            }
            match self.streams.get(&id) {
                Some(st) => {
                    bytes = bytes.saturating_add(st.window_extra());
                },
                None => {},
            }
            i += 1;
        }
        assert(ids@.take(ids@.len() as int) =~= ids@);
        bytes
    }
}

/// Frames that these paths refused.
pub open spec fn refused_by(ps: Seq<PathState>) -> int
    decreases ps.len(),
{
    if ps.len() == 0 {
        0
    } else {
        refused_by(ps.drop_last()) + ps.last().stat.send_drops
    }
}

impl Session {
    /// What this session counted, the frames that its present paths refused
    /// among it.
    pub open spec fn shown_counters(self) -> Counters {
        Counters {
            frame_send_drop: capped(self.metrics.frame_send_drop + refused_by(self.paths@)) as u64,
            ..self.metrics
        }
    }

    pub fn counters(&self) -> (c: Counters)
        ensures
            c == self.shown_counters(),
    {
        let mut c: Counters = self.metrics;
        c.frame_send_drop = self.frame_send_drop();
        c
    }

    /// Frames that a full queue refused, on the paths that are here and on
    /// those that left.
    pub fn frame_send_drop(&self) -> (n: u64)
        ensures
            n == capped(self.metrics.frame_send_drop + refused_by(self.paths@)),
    {
        let mut n: u64 = self.metrics.frame_send_drop;
        let mut i: usize = 0;
        assert(self.paths@.take(0) =~= seq![]);
        while i < self.paths.len()
            invariant
                i <= self.paths@.len(),
                refused_by(self.paths@.take(i as int)) >= 0,
                n == capped(
                    self.metrics.frame_send_drop + refused_by(self.paths@.take(i as int)),
                ),
            decreases self.paths.len() - i,
        {
            assert(self.paths@.take(i as int + 1).drop_last() =~= self.paths@.take(i as int));
            n = n.saturating_add(self.paths[i].stat.send_drops);
            i += 1;
        }
        assert(self.paths@.take(self.paths@.len() as int) =~= self.paths@);
        n
    }
}

// ---------------------------------------------------------------------------
// Backups
// ---------------------------------------------------------------------------
/// The smallest class RTT among measured paths.
pub open spec fn min_class(ps: Seq<PathState>) -> Option<u64>
    decreases ps.len(),
{
    if ps.len() == 0 {
        None
    } else if ps.last().stat.rtt_known() {
        crate::path::min_opt(min_class(ps.drop_last()), ps.last().stat.class_rtt_us)
    } else {
        min_class(ps.drop_last())
    }
}

fn min_class_rtt(paths: &Vec<PathState>) -> (r: Option<u64>)
    ensures
        r == min_class(paths@),
{
    let mut best: Option<u64> = None;
    let mut i: usize = 0;
    assert(paths@.take(0) =~= seq![]);
    while i < paths.len()
        invariant
            i <= paths@.len(),
            best == min_class(paths@.take(i as int)),
        decreases paths.len() - i,
    {
        assert(paths@.take(i as int + 1).drop_last() =~= paths@.take(i as int));
        if paths[i].stat.is_rtt_known() {
            let c: u64 = paths[i].stat.class_rtt_us;
            best = match best {
                Some(b) => if b <= c {
                    Some(b)
                } else {
                    Some(c)
                },
                None => Some(c),
            };
        }
        i += 1;
    }
    assert(paths@.take(paths@.len() as int) =~= paths@);
    best
}

/// The mark of path `i`: what the scheduler says of its class beside the
/// fastest one, nothing while it is not measured.
pub open spec fn backup_marked<S: Scheduler>(
    sched: &S,
    ps: Seq<PathState>,
    i: int,
    mark: Option<bool>,
) -> bool {
    if ps[i].stat.rtt_known() {
        &&& mark is Some
        &&& min_class(ps) is Some
        &&& backup_said(sched, ps[i].stat.class_rtt_us, min_class(ps)->0, mark->0)
    } else {
        mark is None
    }
}

impl Session {
    /// Which paths are a mere backup beside the fastest class: what the
    /// scheduler says of each measured path, nothing of the others.
    pub fn backup_marks<S: Scheduler>(&self, sched: &S) -> (out: Vec<Option<bool>>)
        ensures
            out@.len() == self.paths@.len(),
            forall|i: int|
                0 <= i < out@.len() ==> backup_marked(sched, self.paths@, i, #[trigger] out@[i]),
    {
        let best: Option<u64> = min_class_rtt(&self.paths);
        let mut out: Vec<Option<bool>> = Vec::new();
        let mut i: usize = 0;
        proof {
            lemma_min_class(self.paths@);
        }
        while i < self.paths.len()
            invariant
                i <= self.paths@.len(),
                out@.len() == i,
                best == min_class(self.paths@),
                forall|k: int|
                    0 <= k < self.paths@.len() && (#[trigger] self.paths@[k]).stat.rtt_known()
                        ==> best is Some,
                forall|k: int|
                    0 <= k < i ==> backup_marked(sched, self.paths@, k, #[trigger] out@[k]),
            decreases self.paths.len() - i,
        {
            let mark: Option<bool> = match best {
                Some(b) => if self.paths[i].stat.is_rtt_known() {
                    Some(sched.is_backup(self.paths[i].stat.class_rtt_us, b))
                } else {
                    None
                },
                None => None,
            };
            assert(self.paths@[i as int].stat.rtt_known() ==> best is Some);
            out.push(mark);
            i += 1;
        }
        out
    }
}

proof fn lemma_min_class(ps: Seq<PathState>)
    ensures
        forall|k: int|
            0 <= k < ps.len() && (#[trigger] ps[k]).stat.rtt_known() ==> min_class(ps) is Some,
    decreases ps.len(),
{
    if ps.len() > 0 {
        lemma_min_class(ps.drop_last());
        assert forall|k: int| 0 <= k < ps.len() && (#[trigger] ps[k]).stat.rtt_known() implies min_class(
            ps,
        ) is Some by {
            if k < ps.len() - 1 {
                assert(ps.drop_last()[k] == ps[k]);
            }
        }
    }
}

// ---------------------------------------------------------------------------
// A session nobody holds any more
// ---------------------------------------------------------------------------
/// One stream of an abandoned session: what its end is counted with, where
/// nobody counted it before.
#[derive(Clone, Copy, Debug, PartialEq, Eq, Structural)]
pub struct Abandoned {
    pub id: u32,
    pub counted: bool,
    pub lifetime_ms: Option<u64>,
    pub stall_ms: Option<u64>,
}

/// The account of one stream.
pub open spec fn abandoned_of(st: StreamState, now_ms: int) -> Abandoned {
    let counts = !st.life.counted_close;
    Abandoned {
        id: st.id,
        counted: counts,
        lifetime_ms: if counts && st.life.opened_ms != 0 {
            Some(above(now_ms, st.life.opened_ms as int) as u64)
        } else {
            None
        },
        stall_ms: if counts && st.life.stalled && st.life.stall_from_ms != 0 {
            Some(above(now_ms, st.life.stall_from_ms as int) as u64)
        } else {
            None
        },
    }
}

/// The counters after these streams.
pub open spec fn abandon_counted(c: Counters, outs: Seq<Abandoned>) -> Counters
    decreases outs.len(),
{
    if outs.len() == 0 {
        c
    } else {
        let before = abandon_counted(c, outs.drop_last());
        if outs.last().counted {
            before.reset_counted(ResetReason::SessionDead)
        } else {
            before
        }
    }
}

impl Session {
    /// The last holder of a session let go of it: it is dead, and every
    /// stream that nobody counted is a reset. Nothing for a session that died
    /// before.
    pub fn abandon(&mut self, now: u64) -> (r: Option<Vec<Abandoned>>)
        requires
            old(self).wf(),
        ensures
            final(self).wf(),
            r is Some <==> !old(self).marks.dead,
            match r {
                Some(outs) => {
                    &&& exists|ids: Seq<u32>| #[trigger]
                        lists_ids(ids, old(self).streams@) && outs@.len() == ids.len() && forall|
                            k: int,
                        |
                            0 <= k < ids.len() ==> #[trigger] outs@[k] == abandoned_of(
                                old(self).streams@[ids[k]],
                                now as int / 1000,
                            )
                    &&& *final(self) == (Session {
                        marks: Marks { dead: true, ..old(self).marks },
                        metrics: abandon_counted(old(self).metrics, outs@),
                        ..*old(self)
                    })
                },
                None => *final(self) == *old(self),
            },
    {
        if self.marks.dead {
            return None;
        }
        let ghost o = *self;
        self.marks.dead = true;
        let now_ms: u64 = now / 1000;
        let ids: Vec<u32> = ids_of(&self.streams);
        let mut outs: Vec<Abandoned> = Vec::new();
        let mut i: usize = 0;
        while i < ids.len()
            invariant
                i <= ids@.len(),
                lists_ids(ids@, o.streams@),
                o.wf(),
                outs@.len() == i,
                now_ms == now / 1000,
                *self == (Session {
                    marks: Marks { dead: true, ..o.marks },
                    metrics: abandon_counted(o.metrics, outs@),
                    ..o
                }),
                forall|k: int|
                    0 <= k < i ==> #[trigger] outs@[k] == abandoned_of(
                        o.streams@[ids@[k]],
                        now as int / 1000,
                    ),
            decreases ids.len() - i,
        {
            let ghost outs0 = outs@;
            assert(ids@.contains(ids@[i as int]));
            match self.streams.get(&ids[i]) {
                Some(st) => {
                    let counts: bool = !st.life.counted_close;
                    let lifetime_ms: Option<u64> = if counts && st.life.opened_ms != 0 {
                        Some(now_ms.saturating_sub(st.life.opened_ms))
                    } else {
                        None
                    };
                    let stall_ms: Option<u64> = if counts && st.life.stalled
                        && st.life.stall_from_ms != 0 {
                        Some(now_ms.saturating_sub(st.life.stall_from_ms))
                    } else {
                        None
                    };
                    outs.push(Abandoned { id: st.id, counted: counts, lifetime_ms, stall_ms });
                    if counts {
                        self.metrics.note_reset(ResetReason::SessionDead);
                    }
                    assert(outs@.drop_last() =~= outs0);
                },
                None => {
                    assert(false);
                },
            }
            i += 1;
        }
        Some(outs)
    }
}

// ---------------------------------------------------------------------------
// A server
// ---------------------------------------------------------------------------
/// How a path of one of several sessions is shown.
pub open spec fn session_label(id: Seq<u8>, path: Seq<char>, many: bool) -> Seq<char> {
    if many {
        hex_text(id.take(2)) + ":"@ + path
    } else {
        path
    }
}

/// Show a path; with many sessions, behind the first two bytes of its
/// session.
pub fn label_path(id: &[u8; 16], path: &str, many: bool) -> (s: String)
    ensures
        s@ == session_label(id@, path@, many),
{
    if many {
        let mut s: String = hex_prefix(id, 2);
        push_text(&mut s, ":");
        push_text(&mut s, path);
        s
    } else {
        text(path)
    }
}

/// A fingerprint as a number: the first four bytes, the first one leading.
pub open spec fn fp_number(id: Seq<u8>) -> int {
    ((id[0] as int * 256 + id[1] as int) * 256 + id[2] as int) * 256 + id[3] as int
}

/// `fps` are the fingerprints of these slots in increasing order; the
/// sequence of ids `order` shows which is which.
pub open spec fn lists_fps(fps: Seq<String>, order: Seq<[u8; 16]>, slots: Seq<Slot>) -> bool {
    &&& fps.len() == order.len()
    &&& order.to_multiset() == slots.map_values(|s: Slot| s.id).to_multiset()
    &&& forall|i: int, j: int|
        0 <= i < j < order.len() ==> fp_number(#[trigger] order[i]@) <= fp_number(
            #[trigger] order[j]@,
        )
    &&& forall|i: int|
        0 <= i < fps.len() ==> (#[trigger] fps[i])@ == hex_text(order[i]@.take(4))
}

fn fp_of(id: &[u8; 16]) -> (n: u32)
    ensures
        n == fp_number(id@),
{
    ((id[0] as u32 * 256 + id[1] as u32) * 256 + id[2] as u32) * 256 + id[3] as u32
}

fn sorted_ids(slots: &Vec<Slot>) -> (order: Vec<[u8; 16]>)
    ensures
        order@.to_multiset() == slots@.map_values(|s: Slot| s.id).to_multiset(),
        forall|i: int, j: int|
            0 <= i < j < order@.len() ==> fp_number(#[trigger] order@[i]@) <= fp_number(
                #[trigger] order@[j]@,
            ),
{
    broadcast use vstd::seq_lib::group_to_multiset_ensures;

    let mut order: Vec<[u8; 16]> = Vec::new();
    let ghost all = slots@.map_values(|s: Slot| s.id);
    let mut i: usize = 0;
    assert(all.take(0) =~= seq![]);
    while i < slots.len()
        invariant
            i <= slots@.len(),
            all == slots@.map_values(|s: Slot| s.id),
            order@.len() == i,
            order@.to_multiset() == all.take(i as int).to_multiset(),
            forall|a: int, b: int|
                0 <= a < b < order@.len() ==> fp_number(#[trigger] order@[a]@) <= fp_number(
                    #[trigger] order@[b]@,
                ),
        decreases slots.len() - i,
    {
        let id: [u8; 16] = slots[i].id;
        let n: u32 = fp_of(&id);
        let mut at: usize = 0;
        while at < order.len() && fp_of(&order[at]) <= n
            invariant
                at <= order@.len(),
                n == fp_number(id@),
                forall|a: int| 0 <= a < at ==> fp_number(#[trigger] order@[a]@) <= n,
            decreases order.len() - at,
        {
            at += 1;
        }
        let ghost before = order@;
        assert(at < before.len() ==> fp_number(before[at as int]@) > n);
        order.insert(at, id);
        proof {
            assert(all.take(i as int + 1) =~= all.take(i as int).push(id));
            before.insert_ensures(at as int, id);
            vstd::seq_lib::to_multiset_insert(before, at as int, id);
            vstd::seq_lib::to_multiset_build(all.take(i as int), id);
            assert(order@ =~= before.insert(at as int, id));
            assert forall|a: int, b: int| 0 <= a < b < order@.len() implies fp_number(
                #[trigger] order@[a]@,
            ) <= fp_number(#[trigger] order@[b]@) by {
                let x = if a < at {
                    a
                } else {
                    a - 1
                };
                let y = if b < at {
                    b
                } else {
                    b - 1
                };
                if a != at && b != at {
                    assert(order@[a] == before[x] && order@[b] == before[y]);
                    assert(fp_number(before[x]@) <= fp_number(before[y]@));
                } else if a == at {
                    assert(order@[b] == before[y]);
                    if y > at {
                        assert(fp_number(before[at as int]@) <= fp_number(before[y]@));
                    }
                } else {
                    assert(order@[a] == before[x]);
                }
            }
        }
        i += 1;
    }
    assert(all.take(slots@.len() as int) =~= all);
    order
}

impl SessionTable {
    /// Fingerprints of the live sessions, in increasing order. Dead sessions
    /// leave the table.
    pub fn session_fps(&mut self) -> (r: (Vec<String>, Vec<[u8; 16]>))
        requires
            old(self).wf(),
        ensures
            final(self).wf(),
            *final(self) == (SessionTable { slots: final(self).slots, ..*old(self) }),
            final(self).slots@ == crate::table::live_slots(old(self).slots@),
            lists_fps(r.0@, r.1@, final(self).slots@),
    {
        self.drop_dead();
        let order: Vec<[u8; 16]> = sorted_ids(&self.slots);
        let mut fps: Vec<String> = Vec::new();
        let mut i: usize = 0;
        while i < order.len()
            invariant
                i <= order@.len(),
                fps@.len() == i,
                forall|k: int|
                    0 <= k < i ==> (#[trigger] fps@[k])@ == hex_text(order@[k]@.take(4)),
            decreases order.len() - i,
        {
            fps.push(crate::table::session_fp_hex(&order[i]));
            i += 1;
        }
        (fps, order)
    }
}

// ---------------------------------------------------------------------------
// All sessions
// ---------------------------------------------------------------------------
/// The sessions of a server at a glance.
pub struct TableSnap {
    /// Fingerprints of the sessions, in increasing order.
    pub fps: Vec<String>,
    /// What the sessions counted, all together.
    pub counters: Counters,
    /// Paths, session by session, each behind its session where there are
    /// several, and the links they belong to.
    pub paths: Vec<PathSnap>,
    pub links: Vec<LinkSnap>,
    pub held: u64,
    pub live: u64,
    /// Streams, session by session, each path behind its session where there
    /// are several.
    pub streams: Vec<StreamSnap>,
}

/// What these sessions counted, field by field, each sum held at the largest
/// count.
pub open spec fn counted_by(slots: Seq<Slot>) -> Counters
    decreases slots.len(),
{
    if slots.len() == 0 {
        zero_counters()
    } else {
        counted_by(slots.drop_last()).joined(slots.last().session.shown_counters())
    }
}

/// There is more than one session.
pub open spec fn several(slots: Seq<Slot>) -> bool {
    slots.len() > 1
}

/// `out` shows the streams of `from` under their session.
pub open spec fn relabelled(
    out: Seq<StreamSnap>,
    from: Seq<StreamSnap>,
    id: Seq<u8>,
    many: bool,
) -> bool {
    &&& out.len() == from.len()
    &&& forall|k: int|
        0 <= k < out.len() ==> {
            &&& (#[trigger] out[k]).path@ == session_label(id, from[k].path@, many)
            &&& out[k].id == from[k].id
            &&& out[k].bulk == from[k].bulk
            &&& out[k].stalled == from[k].stalled
            &&& out[k].unacked == from[k].unacked
        }
}

/// `out` are the streams of these slots, session by session, at most `cap`;
/// `held` and `live` count all of them.
pub open spec fn lists_streams(
    slots: Seq<Slot>,
    out: Seq<StreamSnap>,
    held: int,
    live: int,
    cap: nat,
    many: bool,
) -> bool
    decreases slots.len(),
{
    if slots.len() == 0 {
        out.len() == 0 && held == 0 && live == 0
    } else {
        let s = slots.last();
        exists|before: Seq<StreamSnap>, snap: StreamsSnap, part: Seq<StreamSnap>|
            #![trigger
                s.session.shows_streams(snap, cap),
                relabelled(part, snap.sample@, s.id@, many),
                before.len()]
            {
                &&& s.session.shows_streams(snap, cap)
                &&& relabelled(part, snap.sample@, s.id@, many)
                &&& lists_streams(
                    slots.drop_last(),
                    before,
                    held - snap.held,
                    live - snap.live,
                    cap,
                    many,
                )
                &&& out == if before.len() + part.len() <= cap {
                    before + part
                } else {
                    (before + part).take(cap as int)
                }
            }
    }
}

fn relabel(from: &Vec<StreamSnap>, id: &[u8; 16], many: bool) -> (out: Vec<StreamSnap>)
    ensures
        relabelled(out@, from@, id@, many),
{
    let mut out: Vec<StreamSnap> = Vec::new();
    let mut i: usize = 0;
    while i < from.len()
        invariant
            i <= from@.len(),
            relabelled(out@, from@.take(i as int), id@, many),
        decreases from.len() - i,
    {
        let s: StreamSnap = StreamSnap {
            id: from[i].id,
            path: label_path(id, from[i].path.as_str(), many),
            bulk: from[i].bulk,
            stalled: from[i].stalled,
            unacked: from[i].unacked,
        };
        let ghost o0 = out@;
        out.push(s);
        proof {
            assert forall|k: int| 0 <= k < out@.len() implies {
                &&& (#[trigger] out@[k]).path@ == session_label(
                    id@,
                    from@.take(i as int + 1)[k].path@,
                    many,
                )
                &&& out@[k].id == from@.take(i as int + 1)[k].id
                &&& out@[k].bulk == from@.take(i as int + 1)[k].bulk
                &&& out@[k].stalled == from@.take(i as int + 1)[k].stalled
                &&& out@[k].unacked == from@.take(i as int + 1)[k].unacked
            } by {
                if k < o0.len() {
                    assert(out@[k] == o0[k]);
                    assert(from@.take(i as int + 1)[k] == from@.take(i as int)[k]);
                }
            }
        }
        i += 1;
    }
    assert(from@.take(from@.len() as int) =~= from@);
    out
}

/// Add streams until `cap` is reached.
fn add_streams(out: &mut Vec<StreamSnap>, more: Vec<StreamSnap>, cap: usize)
    requires
        old(out)@.len() <= cap,
    ensures
        final(out)@ == if old(out)@.len() + more@.len() <= cap {
            old(out)@ + more@
        } else {
            (old(out)@ + more@).take(cap as int)
        },
{
    let ghost o = out@;
    let ghost all = o + more@;
    let mut more: Vec<StreamSnap> = more;
    let room: usize = cap - out.len();
    if more.len() > room {
        more.truncate(room);
    }
    out.append(&mut more);
    assert(out@ =~= if all.len() <= cap {
        all
    } else {
        all.take(cap as int)
    });
}

impl SessionTable {
    /// What the sessions of this table look like, at most `cap` streams.
    /// Dead sessions leave the table.
    pub fn aggregate_snapshot<S: Scheduler>(&mut self, cap: usize, sched: &S) -> (r: TableSnap)
        requires
            old(self).wf(),
        ensures
            final(self).wf(),
            *final(self) == (SessionTable { slots: final(self).slots, ..*old(self) }),
            final(self).slots@ == crate::table::live_slots(old(self).slots@),
            exists|order: Seq<[u8; 16]>| #[trigger] lists_fps(r.fps@, order, final(self).slots@),
            r.counters == counted_by(final(self).slots@),
            lists_paths(sched, final(self).slots@, r.paths@, several(final(self).slots@)),
            rolls_up(r.links@, r.paths@),
            exists|held: int, live: int|
                #![trigger
                    lists_streams(final(self).slots@, r.streams@, held, live, cap as nat, several(final(self).slots@))]
                lists_streams(
                    final(self).slots@,
                    r.streams@,
                    held,
                    live,
                    cap as nat,
                    several(final(self).slots@),
                ) && r.held == capped(held) && r.live == capped(live),
    {
        let (fps, order) = self.session_fps();
        let many: bool = self.slots.len() > 1;
        let mut streams: Vec<StreamSnap> = Vec::new();
        let mut counters: Counters = Counters::zero();
        let mut paths: Vec<PathSnap> = Vec::new();
        let mut held: u64 = 0;
        let mut live: u64 = 0;
        let ghost mut h: int = 0;
        let ghost mut l: int = 0;
        let mut i: usize = 0;
        assert(self.slots@.take(0) =~= seq![]);
        while i < self.slots.len()
            invariant
                i <= self.slots@.len(),
                self.wf(),
                many == (self.slots@.len() > 1),
                counters == counted_by(self.slots@.take(i as int)),
                lists_paths(sched, self.slots@.take(i as int), paths@, many),
                streams@.len() <= cap,
                h >= 0,
                l >= 0,
                held == capped(h),
                live == capped(l),
                lists_streams(self.slots@.take(i as int), streams@, h, l, cap as nat, many),
            decreases self.slots.len() - i,
        {
            let ghost before = streams@;
            let ghost s = self.slots@[i as int];
            assert(s.session.wf());
            let snap: StreamsSnap = self.slots[i].session.stream_snaps(cap);
            let part: Vec<StreamSnap> = relabel(&snap.sample, &self.slots[i].id, many);
            let ghost pv = part@;
            counters.add_counters(&self.slots[i].session.counters());
            let mut shown: Vec<PathSnap> = self.slots[i].session.path_snaps(
                &self.slots[i].id,
                many,
                sched,
            );
            let ghost had = paths@;
            let ghost more = shown@;
            paths.append(&mut shown);
            add_streams(&mut streams, part, cap);
            held = held.saturating_add(snap.held as u64);
            live = live.saturating_add(snap.live as u64);
            proof {
                let t = self.slots@.take(i as int + 1);
                assert(t.drop_last() =~= self.slots@.take(i as int));
                assert(t.last() == s);
                lemma_more_paths(sched, t, had, more, many);
                assert(s.session.shows_streams(snap, cap as nat));
                assert(relabelled(pv, snap.sample@, s.id@, many));
                assert(before.len() <= cap);
                h = h + snap.held;
                l = l + snap.live;
                assert(lists_streams(
                    t.drop_last(),
                    before,
                    h - snap.held,
                    l - snap.live,
                    cap as nat,
                    many,
                ));
                assert(lists_streams(t, streams@, h, l, cap as nat, many));
            }
            i += 1;
        }
        assert(self.slots@.take(self.slots@.len() as int) =~= self.slots@);
        let links: Vec<LinkSnap> = rollup_links(&paths);
        let r: TableSnap = TableSnap { fps, counters, paths, links, held, live, streams };
        proof {
            assert(lists_fps(r.fps@, order@, self.slots@));
            assert(lists_streams(
                self.slots@,
                r.streams@,
                h,
                l,
                cap as nat,
                several(self.slots@),
            ));
        }
        r
    }
}

/// The frames that were refused are those of the paths that left and of each
/// path that is there.
pub proof fn law_refusals_are_summed(ps: Seq<PathState>, p: PathState)
    ensures
        refused_by(ps.push(p)) == refused_by(ps) + p.stat.send_drops,
        refused_by(seq![]) == 0,
{
    assert(ps.push(p).drop_last() =~= ps);
}

/// The memory above the first windows is what each stream's window grew by.
pub proof fn law_extra_windows_are_summed(
    ids: Seq<u32>,
    id: u32,
    m: Map<u32, StreamState>,
)
    requires
        m[id].counters.recv_cap >= m[id].initial_window,
    ensures
        extra_of(ids.push(id), m) == extra_of(ids, m) + m[id].counters.recv_cap
            - m[id].initial_window,
        extra_of(seq![], m) == 0,
{
    assert(ids.push(id).drop_last() =~= ids);
}

/// A stream left over at the end is counted unless it was before, and is timed
/// from its opening.
pub proof fn law_what_is_told_of_an_abandoned_stream(st: StreamState, now_ms: u64)
    requires
        0 < st.life.opened_ms <= now_ms,
        st.life.stall_from_ms <= now_ms,
    ensures
        ({
            let a = abandoned_of(st, now_ms as int);
            &&& a.id == st.id
            &&& a.counted <==> !st.life.counted_close
            &&& a.counted ==> a.lifetime_ms == Some((now_ms - st.life.opened_ms) as u64)
            &&& a.counted && st.life.stalled && st.life.stall_from_ms > 0 ==> a.stall_ms == Some(
                (now_ms - st.life.stall_from_ms) as u64,
            )
            &&& !a.counted ==> a.lifetime_ms is None && a.stall_ms is None
            &&& !st.life.stalled ==> a.stall_ms is None
        }),
{
}

/// The first four bytes of an id, the first one weighing most.
pub proof fn law_the_number_of_an_id(a: Seq<u8>, b: Seq<u8>)
    ensures
        fp_number(a) == fp_number(b) <==> a[0] == b[0] && a[1] == b[1] && a[2] == b[2] && a[3]
            == b[3],
        0 <= fp_number(a) <= u32::MAX,
        a[0] > b[0] ==> fp_number(a) > fp_number(b),
{
}

} // verus!
