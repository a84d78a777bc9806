//! Load and home counts across the paths of a session.

use vstd::prelude::*;

use crate::metrics::{plus, Counters};
use crate::num::{above, capped};
use crate::path::{distinct_ids, find_path, index_of, min_fast, stat_of, PathStat, PathState};
use crate::stream::{Lifecycle, StreamState};
use crate::text::str_eq;

verus! {

/// The pool with the numbers of path `id` replaced; unchanged where no path
/// has that id.
pub open spec fn with_stat(ps: Seq<PathState>, id: u32, s: PathStat) -> Seq<PathState> {
    match index_of(ps, id) {
        Some(i) => ps.update(i, PathState { stat: s, ..ps[i] }),
        None => ps,
    }
}

/// Ids, names and links stay in place.
pub open spec fn same_paths(a: Seq<PathState>, b: Seq<PathState>) -> bool {
    &&& a.len() == b.len()
    &&& forall|i: int|
        0 <= i < a.len() ==> (#[trigger] a[i]).id == b[i].id && a[i].name == b[i].name && a[i].link
            == b[i].link
}

/// Where the ids stay in place, a path is found where it was.
pub proof fn lemma_same_index(a: Seq<PathState>, b: Seq<PathState>, id: u32)
    requires
        same_paths(a, b),
        distinct_ids(a),
    ensures
        index_of(a, id) == index_of(b, id),
        distinct_ids(b),
{
    assert forall|i: int, j: int| 0 <= i < j < b.len() implies b[i].id != b[j].id by {
        assert(a[i].id == b[i].id && a[j].id == b[j].id);
    }
    if exists|i: int| 0 <= i < a.len() && #[trigger] a[i].id == id {
        let i = choose|i: int| 0 <= i < a.len() && #[trigger] a[i].id == id;
        assert(b[i].id == id);
        let j = choose|j: int| 0 <= j < b.len() && #[trigger] b[j].id == id;
        assert(a[j].id == id);
    } else if exists|i: int| 0 <= i < b.len() && #[trigger] b[i].id == id {
        let j = choose|j: int| 0 <= j < b.len() && #[trigger] b[j].id == id;
        assert(a[j].id == id);
    }
}

pub proof fn lemma_with_stat(ps: Seq<PathState>, id: u32, s: PathStat)
    requires
        distinct_ids(ps),
    ensures
        same_paths(ps, with_stat(ps, id, s)),
        distinct_ids(with_stat(ps, id, s)),
        index_of(ps, id) is Some ==> stat_of(with_stat(ps, id, s), id) == Some(s),
        forall|other: u32|
            other != id ==> #[trigger] stat_of(with_stat(ps, id, s), other) == stat_of(ps, other),
{
    let n = with_stat(ps, id, s);
    match index_of(ps, id) {
        Some(i) => {
            assert(0 <= i < ps.len() && ps[i].id == id);
        },
        None => {},
    }
    assert(same_paths(ps, n));
    lemma_same_index(ps, n, id);
    assert forall|other: u32| other != id implies #[trigger] stat_of(n, other) == stat_of(ps, other) by {
        lemma_same_index(ps, n, other);
        match index_of(ps, other) {
            Some(j) => {
                assert(0 <= j < ps.len() && ps[j].id == other);
            },
            None => {},
        }
    }
}

/// Replace the numbers of one path.
pub fn put_stat(paths: &mut Vec<PathState>, id: u32, s: PathStat)
    requires
        distinct_ids(old(paths)@),
    ensures
        final(paths)@ == with_stat(old(paths)@, id, s),
        distinct_ids(final(paths)@),
        same_paths(old(paths)@, final(paths)@),
{
    proof {
        lemma_with_stat(paths@, id, s);
    }
    match find_path(paths, id) {
        Some(i) => {
            let p: &mut PathState = &mut paths[i];
            p.stat = s;
        },
        None => {},
    }
}

/// `n` bytes more in flight on a path.
pub open spec fn loaded(s: PathStat, n: int) -> PathStat {
    PathStat { inflight: capped(s.inflight + n) as u64, ..s }
}

/// `n` bytes less in flight on a path.
pub open spec fn unloaded(s: PathStat, n: int) -> PathStat {
    PathStat { inflight: above(s.inflight as int, n) as u64, ..s }
}

/// The pool after `n` bytes moved from one path to another.
pub open spec fn transferred(ps: Seq<PathState>, from: u32, to: u32, n: u64) -> Seq<PathState> {
    if from == to || n == 0 {
        ps
    } else {
        burdened(lightened(ps, from, n), to, n)
    }
}

/// The pool with `n` bytes less in flight on a path.
pub open spec fn lightened(ps: Seq<PathState>, id: u32, n: u64) -> Seq<PathState> {
    match stat_of(ps, id) {
        Some(s) => with_stat(ps, id, unloaded(s, n as int)),
        None => ps,
    }
}

/// The pool with `n` bytes more in flight on a path.
pub open spec fn burdened(ps: Seq<PathState>, id: u32, n: u64) -> Seq<PathState> {
    match stat_of(ps, id) {
        Some(s) => with_stat(ps, id, loaded(s, n as int)),
        None => ps,
    }
}

/// Move `n` bytes in flight from one path to another; `true` where the first
/// path got room back.
pub fn xfer_inflight(paths: &mut Vec<PathState>, from: u32, to: u32, n: u64) -> (freed: bool)
    requires
        distinct_ids(old(paths)@),
    ensures
        final(paths)@ == transferred(old(paths)@, from, to, n),
        distinct_ids(final(paths)@),
        same_paths(old(paths)@, final(paths)@),
        freed == (from != to && n != 0 && stat_of(old(paths)@, from) is Some),
{
    if from == to || n == 0 {
        return false;
    }
    let mut freed: bool = false;
    match crate::path::get_path(paths, from) {
        Some(p) => {
            let mut s: PathStat = p;
            s.sub_inflight(n);
            put_stat(paths, from, s);
            freed = true;
        },
        None => {},
    }
    match crate::path::get_path(paths, to) {
        Some(p) => {
            let mut s: PathStat = p;
            s.add_inflight(n);
            put_stat(paths, to, s);
        },
        None => {},
    }
    freed
}

/// Bytes moved between two paths of the pool are neither lost nor made: what
/// the one gives up the other takes, as long as the first carried them and
/// the second can count them; no third path is touched.
pub proof fn law_transfer_conserves_load(
    ps: Seq<PathState>,
    from: u32,
    to: u32,
    n: u64,
    other: u32,
)
    requires
        distinct_ids(ps),
        from != to,
        stat_of(ps, from) is Some,
        stat_of(ps, to) is Some,
        stat_of(ps, from)->0.inflight >= n,
        stat_of(ps, to)->0.inflight + n <= u64::MAX,
    ensures
        ({
            let q = transferred(ps, from, to, n);
            &&& stat_of(q, from) is Some
            &&& stat_of(q, to) is Some
            &&& stat_of(q, from)->0.inflight + stat_of(q, to)->0.inflight == stat_of(
                ps,
                from,
            )->0.inflight + stat_of(ps, to)->0.inflight
            &&& stat_of(q, to)->0.inflight == stat_of(ps, to)->0.inflight + n
            &&& other != from && other != to ==> stat_of(q, other) == stat_of(ps, other)
        }),
{
    if n != 0 {
        let s = unloaded(stat_of(ps, from)->0, n as int);
        let a = with_stat(ps, from, s);
        lemma_with_stat(ps, from, s);
        let t = loaded(stat_of(a, to)->0, n as int);
        lemma_with_stat(a, to, t);
        assert(stat_of(a, to) == stat_of(ps, to));
        assert(index_of(a, to) is Some);
        assert(stat_of(with_stat(a, to, t), from) == stat_of(a, from));
    }
}

// ---------------------------------------------------------------------------
// Steady pools
// ---------------------------------------------------------------------------
/// The numbers of a path without its load, its congestion mark, its refusals
/// and its home count.
pub open spec fn clocks(s: PathStat) -> PathStat {
    PathStat { inflight: 0, congested: false, send_drops: 0, sticky: 0, ..s }
}

/// `b` is `a` but for load, congestion marks, refusals, home counts and
/// queued frames.
pub open spec fn steady(a: Seq<PathState>, b: Seq<PathState>) -> bool {
    &&& same_paths(a, b)
    &&& forall|i: int|
        0 <= i < a.len() ==> clocks((#[trigger] b[i]).stat) == clocks(a[i].stat)
}

pub proof fn lemma_steady_refl(a: Seq<PathState>)
    ensures
        steady(a, a),
{
}

pub proof fn lemma_steady_trans(a: Seq<PathState>, b: Seq<PathState>, c: Seq<PathState>)
    requires
        steady(a, b),
        steady(b, c),
    ensures
        steady(a, c),
{
    assert forall|i: int| 0 <= i < a.len() implies (#[trigger] a[i]).id == c[i].id && a[i].name
        == c[i].name && a[i].link == c[i].link by {
        assert(b[i].id == c[i].id);
    }
    assert forall|i: int| 0 <= i < a.len() implies clocks((#[trigger] c[i]).stat) == clocks(
        a[i].stat,
    ) by {
        assert(clocks(b[i].stat) == clocks(a[i].stat));
    }
}

/// In a steady pool every path is found where it was, with its clocks, and
/// the fastest path is as fast as before.
pub proof fn lemma_steady(a: Seq<PathState>, b: Seq<PathState>, id: u32)
    requires
        steady(a, b),
        distinct_ids(a),
    ensures
        distinct_ids(b),
        index_of(a, id) == index_of(b, id),
        stat_of(a, id) is Some <==> stat_of(b, id) is Some,
        stat_of(a, id) is Some ==> clocks(stat_of(b, id)->0) == clocks(stat_of(a, id)->0),
        min_fast(a) == min_fast(b),
{
    lemma_same_index(a, b, id);
    match index_of(a, id) {
        Some(i) => {
            assert(0 <= i < a.len() && a[i].id == id);
            assert(clocks(b[i].stat) == clocks(a[i].stat));
        },
        None => {},
    }
    lemma_steady_min(a, b);
}

proof fn lemma_steady_min(a: Seq<PathState>, b: Seq<PathState>)
    requires
        steady(a, b),
    ensures
        min_fast(a) == min_fast(b),
    decreases a.len(),
{
    if a.len() > 0 {
        let n = a.len() - 1;
        let a1 = a.drop_last();
        let b1 = b.drop_last();
        assert(clocks(b[n].stat) == clocks(a[n].stat));
        assert(steady(a1, b1)) by {
            assert forall|i: int| 0 <= i < a1.len() implies (#[trigger] a1[i]).id == b1[i].id
                && a1[i].name == b1[i].name && a1[i].link == b1[i].link by {
                assert(a[i].id == b[i].id);
            }
            assert forall|i: int| 0 <= i < a1.len() implies clocks((#[trigger] b1[i]).stat)
                == clocks(a1[i].stat) by {
                assert(clocks(b[i].stat) == clocks(a[i].stat));
            }
        }
        lemma_steady_min(a1, b1);
    }
}

/// Queued frames stay queued and in place.
pub open spec fn queues_grow(a: Seq<PathState>, b: Seq<PathState>) -> bool {
    &&& a.len() == b.len()
    &&& forall|i: int|
        0 <= i < a.len() ==> a[i].urgent@.is_prefix_of((#[trigger] b[i]).urgent@)
            && a[i].writer@.is_prefix_of(b[i].writer@)
}

pub proof fn lemma_queues_grow_trans(a: Seq<PathState>, b: Seq<PathState>, c: Seq<PathState>)
    requires
        queues_grow(a, b),
        queues_grow(b, c),
    ensures
        queues_grow(a, c),
{
    assert forall|i: int| 0 <= i < a.len() implies a[i].urgent@.is_prefix_of(
        (#[trigger] c[i]).urgent@,
    ) && a[i].writer@.is_prefix_of(c[i].writer@) by {
        assert(a[i].urgent@.is_prefix_of(b[i].urgent@));
        assert(b[i].urgent@.is_prefix_of(c[i].urgent@));
        assert(a[i].writer@.is_prefix_of(b[i].writer@));
        assert(b[i].writer@.is_prefix_of(c[i].writer@));
    }
}

proof fn lemma_with_stat_steady(ps: Seq<PathState>, id: u32, s: PathStat)
    requires
        distinct_ids(ps),
        stat_of(ps, id) is Some,
        clocks(s) == clocks(stat_of(ps, id)->0),
    ensures
        steady(ps, with_stat(ps, id, s)),
        queues_grow(ps, with_stat(ps, id, s)),
        distinct_ids(with_stat(ps, id, s)),
{
    lemma_with_stat(ps, id, s);
}

proof fn lemma_lighten_steady(ps: Seq<PathState>, id: u32, n: u64)
    requires
        distinct_ids(ps),
    ensures
        steady(ps, lightened(ps, id, n)),
        queues_grow(ps, lightened(ps, id, n)),
        distinct_ids(lightened(ps, id, n)),
{
    if stat_of(ps, id) is Some {
        lemma_with_stat_steady(ps, id, unloaded(stat_of(ps, id)->0, n as int));
    }
}

proof fn lemma_burden_steady(ps: Seq<PathState>, id: u32, n: u64)
    requires
        distinct_ids(ps),
    ensures
        steady(ps, burdened(ps, id, n)),
        queues_grow(ps, burdened(ps, id, n)),
        distinct_ids(burdened(ps, id, n)),
{
    if stat_of(ps, id) is Some {
        lemma_with_stat_steady(ps, id, loaded(stat_of(ps, id)->0, n as int));
    }
}

/// Moving load keeps a pool steady and its queues as they are.
pub proof fn lemma_transfer_steady(ps: Seq<PathState>, from: u32, to: u32, n: u64)
    requires
        distinct_ids(ps),
    ensures
        steady(ps, transferred(ps, from, to, n)),
        queues_grow(ps, transferred(ps, from, to, n)),
        distinct_ids(transferred(ps, from, to, n)),
{
    if from != to && n != 0 {
        let a = lightened(ps, from, n);
        let b = burdened(a, to, n);
        lemma_lighten_steady(ps, from, n);
        lemma_burden_steady(a, to, n);
        lemma_steady_trans(ps, a, b);
        lemma_queues_grow_trans(ps, a, b);
    }
}

// ---------------------------------------------------------------------------
// Homes
// ---------------------------------------------------------------------------
/// One home less on a path.
pub open spec fn left_home(ps: Seq<PathState>, id: u32) -> Seq<PathState> {
    match stat_of(ps, id) {
        Some(s) => with_stat(
            ps,
            id,
            PathStat { sticky: above(s.sticky as int, 1) as u64, ..s },
        ),
        None => ps,
    }
}

/// One home more on a path.
pub open spec fn made_home(ps: Seq<PathState>, id: u32) -> Seq<PathState> {
    match stat_of(ps, id) {
        Some(s) => with_stat(ps, id, PathStat { sticky: capped(s.sticky + 1) as u64, ..s }),
        None => ps,
    }
}

/// The pool once a stream moved home from `from` (0 = it had none) to `to`.
pub open spec fn moved_home(ps: Seq<PathState>, from: u32, to: u32) -> Seq<PathState> {
    if from == to {
        ps
    } else {
        made_home(
            if from != 0 {
                left_home(ps, from)
            } else {
                ps
            },
            to,
        )
    }
}

fn drop_sticky(paths: &mut Vec<PathState>, id: u32)
    requires
        distinct_ids(old(paths)@),
    ensures
        final(paths)@ == left_home(old(paths)@, id),
        distinct_ids(final(paths)@),
        steady(old(paths)@, final(paths)@),
        queues_grow(old(paths)@, final(paths)@),
{
    match crate::path::get_path(paths, id) {
        Some(p) => {
            let mut s: PathStat = p;
            s.sticky = s.sticky.saturating_sub(1);
            put_stat(paths, id, s);
        },
        None => {},
    }
}

fn add_sticky(paths: &mut Vec<PathState>, id: u32)
    requires
        distinct_ids(old(paths)@),
    ensures
        final(paths)@ == made_home(old(paths)@, id),
        distinct_ids(final(paths)@),
        steady(old(paths)@, final(paths)@),
        queues_grow(old(paths)@, final(paths)@),
{
    match crate::path::get_path(paths, id) {
        Some(p) => {
            let mut s: PathStat = p;
            s.sticky = s.sticky.saturating_add(1);
            put_stat(paths, id, s);
        },
        None => {},
    }
}

impl StreamState {
    /// The lifecycle once home moved to `path_id`; only a move away from a
    /// home starts the cooldown clock.
    pub open spec fn rehomed_life(self, path_id: u32, now: u64) -> Lifecycle {
        if !self.steerable() || self.life.sticky == path_id {
            self.life
        } else {
            Lifecycle {
                sticky: path_id,
                last_stick_change: if self.life.sticky != 0 {
                    now
                } else {
                    self.life.last_stick_change
                },
                ..self.life
            }
        }
    }

    /// Make `path_id` the home of a stream that may still be steered.
    pub fn set_sticky(&mut self, paths: &mut Vec<PathState>, path_id: u32, now: u64)
        requires
            distinct_ids(old(paths)@),
        ensures
            final(self).life == old(self).rehomed_life(path_id, now),
            final(self).same_but_life(*old(self)),
            final(paths)@ == (if old(self).steerable() {
                moved_home(old(paths)@, old(self).life.sticky, path_id)
            } else {
                old(paths)@
            }),
            distinct_ids(final(paths)@),
            steady(old(paths)@, final(paths)@),
            queues_grow(old(paths)@, final(paths)@),
    {
        if !self.is_steerable() {
            return;
        }
        let before: u32 = self.life.sticky;
        if before == path_id {
            return;
        }
        self.life.sticky = path_id;
        let ghost p0 = paths@;
        if before != 0 {
            drop_sticky(paths, before);
            self.note_stick_change(now);
        }
        let ghost p1 = paths@;
        add_sticky(paths, path_id);
        proof {
            lemma_steady_trans(p0, p1, paths@);
            lemma_queues_grow_trans(p0, p1, paths@);
        }
    }

    /// Give the home up.
    pub fn unstick(&mut self, paths: &mut Vec<PathState>)
        requires
            distinct_ids(old(paths)@),
        ensures
            final(self).life == (Lifecycle { sticky: 0, ..old(self).life }),
            final(self).same_but_life(*old(self)),
            final(paths)@ == (if old(self).life.sticky != 0 {
                left_home(old(paths)@, old(self).life.sticky)
            } else {
                old(paths)@
            }),
            distinct_ids(final(paths)@),
            steady(old(paths)@, final(paths)@),
            queues_grow(old(paths)@, final(paths)@),
    {
        let before: u32 = self.life.sticky;
        self.life.sticky = 0;
        if before != 0 {
            drop_sticky(paths, before);
        }
    }
}

/// A move counts one home less where the stream was and one more where it
/// went; every other path keeps its count.
pub proof fn law_home_counts_move(ps: Seq<PathState>, from: u32, to: u32, other: u32)
    requires
        distinct_ids(ps),
        from != to,
        from != 0,
        stat_of(ps, from) is Some,
        stat_of(ps, to) is Some,
        stat_of(ps, from)->0.sticky >= 1,
        stat_of(ps, to)->0.sticky < u64::MAX,
        other != from,
        other != to,
    ensures
        stat_of(moved_home(ps, from, to), from) is Some,
        stat_of(moved_home(ps, from, to), from)->0.sticky == stat_of(ps, from)->0.sticky - 1,
        stat_of(moved_home(ps, from, to), to) is Some,
        stat_of(moved_home(ps, from, to), to)->0.sticky == stat_of(ps, to)->0.sticky + 1,
        stat_of(moved_home(ps, from, to), other) == stat_of(ps, other),
{
    let s = stat_of(ps, from)->0;
    let s1 = PathStat { sticky: above(s.sticky as int, 1) as u64, ..s };
    lemma_with_stat(ps, from, s1);
    let a = left_home(ps, from);
    let t = stat_of(a, to)->0;
    lemma_with_stat(a, to, PathStat { sticky: capped(t.sticky + 1) as u64, ..t });
    assert(stat_of(moved_home(ps, from, to), from) == stat_of(a, from));
    assert(stat_of(moved_home(ps, from, to), other) == stat_of(a, other));
}

// ---------------------------------------------------------------------------
// Links
// ---------------------------------------------------------------------------
/// Both paths are in the pool and belong to one named link.
pub open spec fn same_link(ps: Seq<PathState>, a: u32, b: u32) -> bool {
    &&& index_of(ps, a) is Some
    &&& index_of(ps, b) is Some
    &&& ps[index_of(ps, a)->0].link@ == ps[index_of(ps, b)->0].link@
}

pub fn on_same_link(paths: &Vec<PathState>, a: u32, b: u32) -> (r: bool)
    requires
        distinct_ids(paths@),
    ensures
        r == same_link(paths@, a, b),
{
    match find_path(paths, a) {
        Some(i) => match find_path(paths, b) {
            Some(j) => str_eq(paths[i].link.as_str(), paths[j].link.as_str()),
            None => false,
        },
        None => false,
    }
}

/// The counters after a repeat from one path on another: a retransmit on the
/// same link, a hedge across links.
pub open spec fn retry_counted(c: Counters, ps: Seq<PathState>, from: u32, to: u32) -> Counters {
    if same_link(ps, from, to) {
        Counters { data_retransmit: plus(c.data_retransmit, 1), ..c }
    } else {
        Counters { data_hedge: plus(c.data_hedge, 1), ..c }
    }
}

pub fn note_retry(metrics: &mut Counters, paths: &Vec<PathState>, from: u32, to: u32)
    requires
        distinct_ids(paths@),
    ensures
        *final(metrics) == retry_counted(*old(metrics), paths@, from, to),
{
    if on_same_link(paths, from, to) {
        metrics.data_retransmit = metrics.data_retransmit.saturating_add(1);
    } else {
        metrics.data_hedge = metrics.data_hedge.saturating_add(1);
    }
}

/// Moving a load of `n` bytes takes it off one path and puts it on the other;
/// every other path, and everything else of these two, stays.
pub proof fn law_a_load_moves_whole(ps: Seq<PathState>, i: int, j: int, k: int, n: u64)
    requires
        distinct_ids(ps),
        0 <= i < ps.len(),
        0 <= j < ps.len(),
        0 <= k < ps.len(),
        i != j,
        k != i,
        k != j,
        n <= ps[i].stat.inflight,
        ps[j].stat.inflight + n <= u64::MAX,
    ensures
        ({
            let qs = transferred(ps, ps[i].id, ps[j].id, n);
            &&& qs.len() == ps.len()
            &&& qs[i].stat.inflight + n == ps[i].stat.inflight
            &&& qs[j].stat.inflight == ps[j].stat.inflight + n
            &&& qs[k] == ps[k]
            &&& qs[i].stat == (PathStat { inflight: qs[i].stat.inflight, ..ps[i].stat })
            &&& qs[j].stat == (PathStat { inflight: qs[j].stat.inflight, ..ps[j].stat })
        }),
{
    assert(index_of(ps, ps[i].id) == Some(i));
    let mid = lightened(ps, ps[i].id, n);
    assert(mid.len() == ps.len());
    assert forall|a: int, b: int| 0 <= a < b < mid.len() implies mid[a].id != mid[b].id by {
        assert(mid[a].id == ps[a].id && mid[b].id == ps[b].id);
    }
    assert(mid[j] == ps[j]);
    assert(index_of(mid, ps[j].id) == Some(j));
}

/// Loading a path with bytes and taking them off again leaves it as it was.
pub proof fn law_unloading_undoes_loading(s: PathStat, n: u64)
    requires
        s.inflight + n <= u64::MAX,
    ensures
        loaded(s, n as int).inflight == s.inflight + n,
        unloaded(loaded(s, n as int), n as int) == s,
        unloaded(s, s.inflight as int).inflight == 0,
{
}

/// A stream that can be steered takes the path it is given as its home, and
/// remembers when it changed; a first home is no change.
pub proof fn law_a_home_is_the_path_given(st: StreamState, id: u32, now: u64)
    ensures
        st.steerable() ==> st.rehomed_life(id, now).sticky == id,
        !st.steerable() ==> st.rehomed_life(id, now) == st.life,
        st.steerable() && st.life.sticky != id && st.life.sticky != 0 ==> st.rehomed_life(
            id,
            now,
        ).last_stick_change == now,
        st.life.sticky == id || st.life.sticky == 0 ==> st.rehomed_life(id, now).last_stick_change
            == st.life.last_stick_change,
{
}

/// Two paths of the pool share a link exactly where their links are named
/// alike.
pub proof fn law_links_are_their_names(ps: Seq<PathState>, i: int, j: int)
    requires
        distinct_ids(ps),
        0 <= i < ps.len(),
        0 <= j < ps.len(),
    ensures
        same_link(ps, ps[i].id, ps[j].id) <==> ps[i].link@ == ps[j].link@,
{
    assert(index_of(ps, ps[i].id) == Some(i));
    assert(index_of(ps, ps[j].id) == Some(j));
}

/// A second copy within a link is a re-send, one on another link a hedge.
pub proof fn law_a_copy_is_resend_or_hedge(c: Counters, ps: Seq<PathState>, from: u32, to: u32)
    requires
        c.data_retransmit < u64::MAX,
        c.data_hedge < u64::MAX,
    ensures
        ({
            let n = retry_counted(c, ps, from, to);
            &&& n.data_retransmit + n.data_hedge == c.data_retransmit + c.data_hedge + 1
            &&& n.data_retransmit == c.data_retransmit + 1 <==> same_link(ps, from, to)
        }),
{
}

} // verus!
