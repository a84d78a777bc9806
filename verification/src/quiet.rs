//! Which paths are silent, and what silence of many at once means.

use vstd::prelude::*;

use crate::cfg::SessionConfig;
use crate::num::above;
use crate::path::{PathStat, PathState};
use crate::text::{decimal, push_decimal, push_text, str_eq};

verus! {

// ---------------------------------------------------------------------------
// Shapes of silence
// ---------------------------------------------------------------------------
/// Hold silent connections instead of tearing them down while a survivor
/// exists.
///
/// - All but one quiet (a peer that stalls).
/// - Or a cluster of at least 3 quiet.
///
/// Either spans at least 2 links: one link alone never holds. All quiet never
/// holds.
pub open spec fn holds_correlated(
    alive: int,
    quiet: int,
    silent: int,
    known_quiet: int,
    quiet_links: int,
) -> bool {
    &&& alive >= 3
    &&& known_quiet >= 1
    &&& silent > 0
    &&& quiet < alive
    &&& quiet_links >= 2
    &&& quiet + 1 == alive || quiet >= 3
}

pub fn correlated_hold(
    alive: usize,
    quiet: usize,
    silent: usize,
    known_quiet: usize,
    quiet_links: usize,
) -> (r: bool)
    ensures
        r == holds_correlated(
            alive as int,
            quiet as int,
            silent as int,
            known_quiet as int,
            quiet_links as int,
        ),
{
    if alive < 3 || known_quiet < 1 || silent == 0 || quiet >= alive {
        return false;
    }
    quiet_links >= 2 && (quiet + 1 == alive || quiet >= 3)
}

/// All, or all but one, of at least two paths are quiet.
pub open spec fn holds_quiet_set(alive: int, quiet: int) -> bool {
    alive >= 2 && quiet >= 1 && quiet + 1 >= alive
}

pub fn quiet_set_holds(alive: usize, quiet: usize) -> (r: bool)
    ensures
        r == holds_quiet_set(alive as int, quiet as int),
{
    alive >= 2 && quiet >= 1 && quiet >= alive - 1
}

/// Silence of every path is a quiet set, and is never held.
pub proof fn law_all_quiet_is_never_held(
    alive: int,
    silent: int,
    known_quiet: int,
    quiet_links: int,
)
    requires
        alive >= 2,
    ensures
        holds_quiet_set(alive, alive),
        !holds_correlated(alive, alive, silent, known_quiet, quiet_links),
{
}

/// All but one quiet is held from three paths on where the quiet ones span two
/// links, and is a quiet set.
pub proof fn law_one_survivor_is_held(
    alive: int,
    silent: int,
    known_quiet: int,
    quiet_links: int,
)
    requires
        alive >= 3,
        silent > 0,
        known_quiet >= 1,
        quiet_links >= 2,
    ensures
        holds_quiet_set(alive, alive - 1),
        holds_correlated(alive, alive - 1, silent, known_quiet, quiet_links),
{
}

/// A hold always leaves a survivor, and one link alone is never held.
pub proof fn law_hold_leaves_a_survivor(
    alive: int,
    quiet: int,
    silent: int,
    known_quiet: int,
    quiet_links: int,
)
    requires
        holds_correlated(alive, quiet, silent, known_quiet, quiet_links),
    ensures
        quiet < alive,
        quiet_links >= 2,
{
}

// ---------------------------------------------------------------------------
// Members
// ---------------------------------------------------------------------------
#[derive(Clone, Copy, Debug, PartialEq, Eq, Structural)]
pub enum Silence {
    /// Every alive path.
    Alive,
    /// Nothing heard for the degrade timeout.
    Quiet,
    /// Quiet, with a measured RTT.
    KnownQuiet,
    /// Nothing heard for the down timeout.
    Silent,
}

impl Silence {
    pub open spec fn holds(self, s: PathStat, cfg: SessionConfig, now: u64) -> bool {
        &&& s.alive()
        &&& match self {
            Silence::Alive => true,
            Silence::Quiet => s.quiet_for(now) >= s.degrade_for,
            Silence::KnownQuiet => s.quiet_for(now) >= s.degrade_for && s.rtt_known(),
            Silence::Silent => s.quiet_for(now) >= s.down_after(cfg),
        }
    }

    pub fn test(&self, s: &PathStat, cfg: &SessionConfig, now: u64) -> (r: bool)
        requires
            cfg.wf(),
        ensures
            r == self.holds(*s, *cfg, now),
    {
        if !s.is_alive() {
            return false;
        }
        match self {
            Silence::Alive => true,
            Silence::Quiet => s.last_rx_ago(now) >= s.degrade_for,
            Silence::KnownQuiet => s.last_rx_ago(now) >= s.degrade_for && s.is_rtt_known(),
            Silence::Silent => s.last_rx_ago(now) >= s.down_for(cfg),
        }
    }
}

/// Places in the pool of the paths that belong, in order.
pub open spec fn members(
    ps: Seq<PathState>,
    kind: Silence,
    cfg: SessionConfig,
    now: u64,
) -> Seq<int>
    decreases ps.len(),
{
    if ps.len() == 0 {
        seq![]
    } else {
        let before = members(ps.drop_last(), kind, cfg, now);
        if kind.holds(ps.last().stat, cfg, now) {
            before.push(ps.len() - 1)
        } else {
            before
        }
    }
}

/// The same places.
pub open spec fn places(v: Seq<usize>) -> Seq<int> {
    v.map_values(|i: usize| i as int)
}

pub proof fn lemma_members(ps: Seq<PathState>, kind: Silence, cfg: SessionConfig, now: u64)
    ensures
        members(ps, kind, cfg, now).len() <= ps.len(),
        forall|k: int|
            0 <= k < members(ps, kind, cfg, now).len() ==> 0 <= #[trigger] members(
                ps,
                kind,
                cfg,
                now,
            )[k] < ps.len() && kind.holds(ps[members(ps, kind, cfg, now)[k]].stat, cfg, now),
    decreases ps.len(),
{
    if ps.len() > 0 {
        lemma_members(ps.drop_last(), kind, cfg, now);
        assert forall|k: int| 0 <= k < members(ps, kind, cfg, now).len() implies 0
            <= #[trigger] members(ps, kind, cfg, now)[k] < ps.len() && kind.holds(
            ps[members(ps, kind, cfg, now)[k]].stat,
            cfg,
            now,
        ) by {
            let before = members(ps.drop_last(), kind, cfg, now);
            if k < before.len() {
                assert(members(ps, kind, cfg, now)[k] == before[k]);
                assert(ps.drop_last()[before[k]] == ps[before[k]]);
            }
        }
    }
}

pub fn list_members(paths: &Vec<PathState>, kind: Silence, cfg: &SessionConfig, now: u64) -> (out:
    Vec<usize>)
    requires
        cfg.wf(),
    ensures
        places(out@) == members(paths@, kind, *cfg, now),
        forall|k: int| 0 <= k < out@.len() ==> (#[trigger] out@[k]) < paths@.len(),
{
    let mut out: Vec<usize> = Vec::new();
    let mut i: usize = 0;
    assert(paths@.take(0) =~= seq![]);
    assert(places(out@) =~= seq![]);
    while i < paths.len()
        invariant
            i <= paths@.len(),
            cfg.wf(),
            places(out@) == members(paths@.take(i as int), kind, *cfg, now),
            forall|k: int| 0 <= k < out@.len() ==> (#[trigger] out@[k]) < paths@.len(),
        decreases paths.len() - i,
    {
        assert(paths@.take(i as int + 1).drop_last() =~= paths@.take(i as int));
        let ghost out0 = out@;
        if kind.test(&paths[i].stat, cfg, now) {
            out.push(i);
            assert(places(out@) =~= places(out0).push(i as int));
        }
        i += 1;
    }
    assert(paths@.take(paths@.len() as int) =~= paths@);
    out
}

/// The links of the paths at these places.
pub open spec fn links_at(ps: Seq<PathState>, at: Seq<int>) -> Set<Seq<char>> {
    at.map_values(|i: int| ps[i].link@).to_set()
}

/// How many named links the paths at these places belong to.
pub fn unique_link_count(paths: &Vec<PathState>, at: &Vec<usize>) -> (r: usize)
    requires
        forall|k: int| 0 <= k < at@.len() ==> (#[trigger] at@[k]) < paths@.len(),
    ensures
        r == links_at(paths@, places(at@)).len(),
{
    let mut firsts: Vec<usize> = Vec::new();
    let mut i: usize = 0;
    let ghost mut seen: Set<Seq<char>> = Set::empty();
    proof {
        assert(links_at(paths@, places(at@.take(0))) =~= Set::<Seq<char>>::empty());
    }
    while i < at.len()
        invariant
            i <= at@.len(),
            forall|k: int| 0 <= k < at@.len() ==> (#[trigger] at@[k]) < paths@.len(),
            forall|k: int| 0 <= k < firsts@.len() ==> (#[trigger] firsts@[k]) < paths@.len(),
            seen == links_at(paths@, places(at@.take(i as int))),
            seen.finite(),
            firsts@.len() == seen.len(),
            firsts@.len() <= i,
            forall|k: int|
                0 <= k < firsts@.len() ==> seen.contains(
                    (paths@[(#[trigger] firsts@[k]) as int]).link@,
                ),
            forall|l: Seq<char>| #[trigger]
                seen.contains(l) ==> exists|k: int|
                    0 <= k < firsts@.len() && (paths@[(#[trigger] firsts@[k]) as int]).link@ == l,
        decreases at.len() - i,
    {
        let p: usize = at[i];
        assert(at@[i as int] < paths@.len());
        let mut known: bool = false;
        let mut k: usize = 0;
        while k < firsts.len()
            invariant
                k <= firsts@.len(),
                p < paths@.len(),
                forall|j: int| 0 <= j < firsts@.len() ==> (#[trigger] firsts@[j]) < paths@.len(),
                known == exists|j: int|
                    0 <= j < k && (paths@[(#[trigger] firsts@[j]) as int]).link@
                        == paths@[p as int].link@,
            decreases firsts.len() - k,
        {
            assert(firsts@[k as int] < paths@.len());
            if str_eq(paths[firsts[k]].link.as_str(), paths[p].link.as_str()) {
                known = true;
                assert(paths@[firsts@[k as int] as int].link@ == paths@[p as int].link@);
            }
            k += 1;
        }
        let ghost link = paths@[p as int].link@;
        let ghost firsts0 = firsts@;
        let ghost seen0 = seen;
        if !known {
            firsts.push(p);
        }
        proof {
            let a = places(at@.take(i as int));
            let b = places(at@.take(i as int + 1));
            assert(b =~= a.push(p as int));
            let fa = a.map_values(|i: int| paths@[i].link@);
            let fb = b.map_values(|i: int| paths@[i].link@);
            assert(fb =~= fa.push(link));
            seen = links_at(paths@, b);
            assert(seen =~= seen0.insert(link)) by {
                assert forall|l: Seq<char>| seen.contains(l) <==> seen0.insert(link).contains(l) by {
                    if seen.contains(l) {
                        let j = choose|j: int| 0 <= j < fb.len() && fb[j] == l;
                        if j < fa.len() {
                            assert(fa[j] == l);
                        }
                    }
                    if seen0.contains(l) {
                        let j = choose|j: int| 0 <= j < fa.len() && fa[j] == l;
                        assert(fb[j] == l);
                    }
                    if l == link {
                        assert(fb[fa.len() as int] == l);
                    }
                }
            }
            if known {
                let j = choose|j: int|
                    0 <= j < firsts0.len() && (paths@[(#[trigger] firsts0[j]) as int]).link@
                        == link;
                assert(seen0.contains(link));
                assert(seen =~= seen0);
            } else {
                assert(!seen0.contains(link)) by {
                    if seen0.contains(link) {
                        let j = choose|j: int|
                            0 <= j < firsts0.len() && (paths@[(#[trigger] firsts0[j]) as int]).link@
                                == link;
                    }
                }
                assert forall|l: Seq<char>| #[trigger] seen.contains(l) implies exists|k: int|
                    0 <= k < firsts@.len() && (paths@[(#[trigger] firsts@[k]) as int]).link@ == l by {
                    if l == link {
                        assert(firsts@[firsts0.len() as int] == p);
                    } else {
                        assert(seen0.contains(l));
                        let j = choose|j: int|
                            0 <= j < firsts0.len() && (paths@[(#[trigger] firsts0[j]) as int]).link@
                                == l;
                        assert(firsts@[j] == firsts0[j]);
                    }
                }
            }
        }
        i += 1;
    }
    assert(at@.take(at@.len() as int) =~= at@);
    firsts.len()
}

// ---------------------------------------------------------------------------
// Episodes
// ---------------------------------------------------------------------------
/// What the kernel sent again on one connection.
pub struct Retrans {
    pub name: String,
    pub segments: u32,
    pub bytes: u64,
}

/// `r` are the numbers of path `p`.
pub open spec fn retrans_is(r: Retrans, p: PathState) -> bool {
    &&& r.name@ == p.name@
    &&& r.segments == p.stat.total_retrans
    &&& r.bytes == p.stat.bytes_retrans
}

/// `out` are the numbers of the paths at these places, in order.
pub open spec fn lists_retrans(out: Seq<Retrans>, ps: Seq<PathState>, at: Seq<usize>) -> bool {
    &&& out.len() == at.len()
    &&& forall|k: int| 0 <= k < at.len() ==> retrans_is(#[trigger] out[k], ps[at[k] as int])
}

pub fn retrans_of(paths: &Vec<PathState>, at: &Vec<usize>) -> (out: Vec<Retrans>)
    requires
        forall|k: int| 0 <= k < at@.len() ==> (#[trigger] at@[k]) < paths@.len(),
    ensures
        lists_retrans(out@, paths@, at@),
{
    let mut out: Vec<Retrans> = Vec::new();
    let mut i: usize = 0;
    while i < at.len()
        invariant
            i <= at@.len(),
            out@.len() == i,
            forall|k: int| 0 <= k < at@.len() ==> (#[trigger] at@[k]) < paths@.len(),
            forall|k: int| 0 <= k < i ==> retrans_is(#[trigger] out@[k], paths@[at@[k] as int]),
        decreases at.len() - i,
    {
        assert(at@[i as int] < paths@.len());
        let p: usize = at[i];
        out.push(
            Retrans {
                name: paths[p].name.clone(),
                segments: paths[p].stat.total_retrans,
                bytes: paths[p].stat.bytes_retrans,
            },
        );
        i += 1;
    }
    out
}

/// `out` are the names of the paths at these places, in order.
pub open spec fn lists_names(out: Seq<String>, ps: Seq<PathState>, at: Seq<int>) -> bool {
    &&& out.len() == at.len()
    &&& forall|k: int| 0 <= k < at.len() ==> (#[trigger] out[k])@ == ps[at[k]].name@
}

fn names_at(paths: &Vec<PathState>, at: &Vec<usize>) -> (out: Vec<String>)
    requires
        forall|k: int| 0 <= k < at@.len() ==> (#[trigger] at@[k]) < paths@.len(),
    ensures
        lists_names(out@, paths@, places(at@)),
{
    let mut out: Vec<String> = Vec::new();
    let mut i: usize = 0;
    while i < at.len()
        invariant
            i <= at@.len(),
            out@.len() == i,
            forall|k: int| 0 <= k < at@.len() ==> (#[trigger] at@[k]) < paths@.len(),
            forall|k: int| 0 <= k < i ==> (#[trigger] out@[k])@ == paths@[at@[k] as int].name@,
        decreases at.len() - i,
    {
        assert(at@[i as int] < paths@.len());
        out.push(paths[at[i]].name.clone());
        i += 1;
    }
    out
}

/// The places of `all` that are not in `some`, in order.
pub open spec fn others(all: Seq<int>, some: Seq<int>) -> Seq<int>
    decreases all.len(),
{
    if all.len() == 0 {
        seq![]
    } else {
        let before = others(all.drop_last(), some);
        if some.contains(all.last()) {
            before
        } else {
            before.push(all.last())
        }
    }
}

fn others_of(all: &Vec<usize>, some: &Vec<usize>, n: usize) -> (out: Vec<usize>)
    requires
        forall|k: int| 0 <= k < all@.len() ==> (#[trigger] all@[k]) < n,
    ensures
        places(out@) == others(places(all@), places(some@)),
        forall|k: int| 0 <= k < out@.len() ==> (#[trigger] out@[k]) < n,
{
    let mut out: Vec<usize> = Vec::new();
    let mut i: usize = 0;
    assert(places(all@.take(0)) =~= seq![]);
    assert(places(out@) =~= seq![]);
    while i < all.len()
        invariant
            i <= all@.len(),
            forall|k: int| 0 <= k < all@.len() ==> (#[trigger] all@[k]) < n,
            forall|k: int| 0 <= k < out@.len() ==> (#[trigger] out@[k]) < n,
            places(out@) == others(places(all@.take(i as int)), places(some@)),
        decreases all.len() - i,
    {
        let p: usize = all[i];
        assert(all@[i as int] < n);
        let mut hit: bool = false;
        let mut k: usize = 0;
        while k < some.len()
            invariant
                k <= some@.len(),
                hit == exists|j: int| 0 <= j < k && #[trigger] some@[j] == p,
            decreases some.len() - k,
        {
            if some[k] == p {
                hit = true;
                assert(some@[k as int] == p);
            }
            k += 1;
        }
        let ghost out0 = out@;
        if !hit {
            out.push(p);
        }
        proof {
            let a = places(all@.take(i as int));
            let b = places(all@.take(i as int + 1));
            let s = places(some@);
            assert(b.drop_last() =~= a);
            assert(b.last() == p as int);
            if hit {
                let j = choose|j: int| 0 <= j < some@.len() && #[trigger] some@[j] == p;
                assert(s[j] == p as int);
                assert(s.contains(p as int));
            } else {
                assert(!s.contains(p as int)) by {
                    if s.contains(p as int) {
                        let j = choose|j: int| 0 <= j < s.len() && s[j] == p as int;
                        assert(some@[j] == p);
                    }
                }
                assert(places(out@) =~= places(out0).push(p as int));
            }
        }
        i += 1;
    }
    assert(all@.take(all@.len() as int) =~= all@);
    out
}

/// One open episode of a quiet set: who was quiet at entry, who was not, and
/// what the kernel had sent again by then. An episode of the network shows
/// re-sends on the quiet paths at its end; a stalled peer shows none.
pub struct QuietEpisode {
    pub since: u64,
    pub quiet: Vec<String>,
    pub survivor: Vec<String>,
    pub all_n: bool,
    pub retrans_at_entry: Vec<Retrans>,
}

/// The first entry of this name among the first `n`.
pub open spec fn first_named(list: Seq<Retrans>, name: Seq<char>, n: nat) -> Option<Retrans>
    decreases n,
{
    if n == 0 {
        None
    } else {
        match first_named(list, name, (n - 1) as nat) {
            Some(r) => Some(r),
            None => if list[n - 1].name@ == name {
                Some(list[n - 1])
            } else {
                None
            },
        }
    }
}

/// How a path's re-sends grew over an episode; a path that left is gone.
pub open spec fn delta_text(e: Retrans, list: Seq<Retrans>) -> Seq<char> {
    match first_named(list, e.name@, list.len()) {
        Some(r) => e.name@ + ":+"@ + decimal(above(r.segments as int, e.segments as int))
            + "seg/+"@ + decimal(above(r.bytes as int, e.bytes as int)) + "B"@,
        None => e.name@ + ":gone"@,
    }
}

fn delta_of(e: &Retrans, list: &Vec<Retrans>) -> (s: String)
    ensures
        s@ == delta_text(*e, list@),
{
    let mut found: Option<usize> = None;
    let mut i: usize = 0;
    while i < list.len()
        invariant
            i <= list@.len(),
            match found {
                Some(k) => k < i && first_named(list@, e.name@, i as nat) == Some(list@[k as int]),
                None => first_named(list@, e.name@, i as nat) is None,
            },
        decreases list.len() - i,
    {
        if found.is_none() && str_eq(list[i].name.as_str(), e.name.as_str()) {
            found = Some(i);
        }
        i += 1;
    }
    let mut s: String = e.name.clone();
    match found {
        Some(k) => {
            push_text(&mut s, ":+");
            push_decimal(&mut s, list[k].segments.saturating_sub(e.segments) as u64);
            push_text(&mut s, "seg/+");
            push_decimal(&mut s, list[k].bytes.saturating_sub(e.bytes));
            push_text(&mut s, "B");
        },
        None => {
            push_text(&mut s, ":gone");
        },
    }
    s
}

/// What a tick did to the episode.
pub enum QuietChange {
    Nothing,
    /// It began; how long each quiet path has been quiet, in ms.
    Began { quiet_ago_ms: Vec<u64> },
    /// It ended.
    Ended { episode: QuietEpisode, dur_ms: u64, deltas: Vec<String> },
}

/// An episode as it begins.
pub open spec fn begins(
    e: QuietEpisode,
    ps: Seq<PathState>,
    alive: Seq<usize>,
    quiet: Seq<usize>,
    now: u64,
) -> bool {
    &&& e.since == now
    &&& lists_names(e.quiet@, ps, places(quiet))
    &&& lists_names(e.survivor@, ps, others(places(alive), places(quiet)))
    &&& e.all_n == (quiet.len() == alive.len())
    &&& lists_retrans(e.retrans_at_entry@, ps, alive)
}

/// `out` are the quiet times of these paths, in ms.
pub open spec fn lists_ago(out: Seq<u64>, ps: Seq<PathState>, at: Seq<usize>, now: u64) -> bool {
    &&& out.len() == at.len()
    &&& forall|k: int|
        0 <= k < at.len() ==> #[trigger] out[k] == ps[at[k] as int].stat.quiet_for(now) / 1000
}

/// `out` are the growths of these entries against the numbers of the paths at
/// `alive`.
pub open spec fn lists_deltas(
    out: Seq<String>,
    entry: Seq<Retrans>,
    ps: Seq<PathState>,
    alive: Seq<usize>,
) -> bool {
    &&& out.len() == entry.len()
    &&& exists|list: Seq<Retrans>| #[trigger]
        lists_retrans(list, ps, alive) && forall|k: int|
            0 <= k < entry.len() ==> (#[trigger] out[k])@ == delta_text(entry[k], list)
}

/// What a tick with these alive and quiet paths does to an episode: it begins
/// with the shape, ends with it, and is left alone otherwise.
pub open spec fn tracks(
    before: Option<QuietEpisode>,
    after: Option<QuietEpisode>,
    change: QuietChange,
    ps: Seq<PathState>,
    alive: Seq<usize>,
    quiet: Seq<usize>,
    now: u64,
) -> bool {
    let holds = holds_quiet_set(alive.len() as int, quiet.len() as int);
    match before {
        None => if holds {
            &&& after is Some
            &&& begins(after->0, ps, alive, quiet, now)
            &&& change matches QuietChange::Began { quiet_ago_ms }
            &&& lists_ago(quiet_ago_ms@, ps, quiet, now)
        } else {
            after is None && change is Nothing
        },
        Some(ep) => if holds {
            after == before && change is Nothing
        } else {
            &&& after is None
            &&& change matches QuietChange::Ended { episode, dur_ms, deltas }
            &&& episode == ep
            &&& dur_ms == above(now as int, ep.since as int) / 1000
            &&& lists_deltas(deltas@, ep.retrans_at_entry@, ps, alive)
        },
    }
}

fn ago_ms(paths: &Vec<PathState>, at: &Vec<usize>, now: u64) -> (out: Vec<u64>)
    requires
        forall|k: int| 0 <= k < at@.len() ==> (#[trigger] at@[k]) < paths@.len(),
    ensures
        lists_ago(out@, paths@, at@, now),
{
    let mut out: Vec<u64> = Vec::new();
    let mut i: usize = 0;
    while i < at.len()
        invariant
            i <= at@.len(),
            out@.len() == i,
            forall|k: int| 0 <= k < at@.len() ==> (#[trigger] at@[k]) < paths@.len(),
            forall|k: int|
                0 <= k < i ==> #[trigger] out@[k] == paths@[at@[k] as int].stat.quiet_for(now)
                    / 1000,
        decreases at.len() - i,
    {
        assert(at@[i as int] < paths@.len());
        out.push(paths[at[i]].stat.last_rx_ago(now) / 1000);
        i += 1;
    }
    out
}

fn deltas_of(entry: &Vec<Retrans>, list: &Vec<Retrans>) -> (out: Vec<String>)
    ensures
        out@.len() == entry@.len(),
        forall|k: int|
            0 <= k < entry@.len() ==> (#[trigger] out@[k])@ == delta_text(entry@[k], list@),
{
    let mut out: Vec<String> = Vec::new();
    let mut i: usize = 0;
    while i < entry.len()
        invariant
            i <= entry@.len(),
            out@.len() == i,
            forall|k: int| 0 <= k < i ==> (#[trigger] out@[k])@ == delta_text(entry@[k], list@),
        decreases entry.len() - i,
    {
        out.push(delta_of(&entry[i], list));
        i += 1;
    }
    out
}

/// Open or close the episode of a quiet set.
pub fn track_quiet_set(
    open: &mut Option<QuietEpisode>,
    paths: &Vec<PathState>,
    alive: &Vec<usize>,
    quiet: &Vec<usize>,
    now: u64,
) -> (change: QuietChange)
    requires
        forall|k: int| 0 <= k < alive@.len() ==> (#[trigger] alive@[k]) < paths@.len(),
        forall|k: int| 0 <= k < quiet@.len() ==> (#[trigger] quiet@[k]) < paths@.len(),
    ensures
        tracks(*old(open), *final(open), change, paths@, alive@, quiet@, now),
{
    let holds: bool = quiet_set_holds(alive.len(), quiet.len());
    let ghost before = *open;
    if open.is_none() {
        if !holds {
            return QuietChange::Nothing;
        }
        let survivors: Vec<usize> = others_of(alive, quiet, paths.len());
        *open = Some(
            QuietEpisode {
                since: now,
                quiet: names_at(paths, quiet),
                survivor: names_at(paths, &survivors),
                all_n: quiet.len() == alive.len(),
                retrans_at_entry: retrans_of(paths, alive),
            },
        );
        return QuietChange::Began { quiet_ago_ms: ago_ms(paths, quiet, now) };
    }
    if holds {
        return QuietChange::Nothing;
    }
    let mut taken: Option<QuietEpisode> = None;
    std::mem::swap(open, &mut taken);
    match taken {
        Some(episode) => {
            let list: Vec<Retrans> = retrans_of(paths, alive);
            let deltas: Vec<String> = deltas_of(&episode.retrans_at_entry, &list);
            assert(lists_retrans(list@, paths@, alive@));
            let dur_ms: u64 = now.saturating_sub(episode.since) / 1000;
            QuietChange::Ended { episode, dur_ms, deltas }
        },
        None => QuietChange::Nothing,
    }
}

/// The list of a kind holds every path of the kind, and only these.
pub proof fn lemma_members_are_all(
    ps: Seq<PathState>,
    kind: Silence,
    cfg: SessionConfig,
    now: u64,
    i: int,
)
    requires
        0 <= i < ps.len(),
    ensures
        members(ps, kind, cfg, now).contains(i) <==> kind.holds(ps[i].stat, cfg, now),
    decreases ps.len(),
{
    let before = members(ps.drop_last(), kind, cfg, now);
    let all = members(ps, kind, cfg, now);
    lemma_members(ps.drop_last(), kind, cfg, now);
    if i < ps.len() - 1 {
        lemma_members_are_all(ps.drop_last(), kind, cfg, now, i);
        assert(ps.drop_last()[i] == ps[i]);
        if before.contains(i) {
            let k = choose|k: int| 0 <= k < before.len() && before[k] == i;
            assert(all[k] == i);
        }
        if all.contains(i) {
            let k = choose|k: int| 0 <= k < all.len() && all[k] == i;
            assert(before[k] == i);
        }
    } else if kind.holds(ps[i].stat, cfg, now) {
        assert(all[before.len() as int] == i);
    } else if all.contains(i) {
        let k = choose|k: int| 0 <= k < all.len() && all[k] == i;
        assert(before[k] == i);
    }
}

/// A path is quiet from its degrade timeout on, silent from its down timeout
/// on, and known to be quiet where it is measured.
pub proof fn law_what_quiet_is(s: PathStat, cfg: SessionConfig, now: u64)
    requires
        now >= s.last_rx,
        s.state != crate::path::Health::Down,
    ensures
        Silence::Alive.holds(s, cfg, now),
        Silence::Quiet.holds(s, cfg, now) <==> now - s.last_rx >= s.degrade_for,
        Silence::KnownQuiet.holds(s, cfg, now) <==> now - s.last_rx >= s.degrade_for && s.rtt_us > 0,
        Silence::Silent.holds(s, cfg, now) <==> now - s.last_rx >= cfg.tuning.down_timeout_of(
            s.assumed_rtt as int,
            s.assumed_probe as int,
        ),
{
}

/// Several paths of several links that fall quiet together are held, not torn:
/// all but one of them, or three and more. A pool of two is too small to tell.
pub proof fn law_when_a_silence_is_correlated(
    alive: int,
    quiet: int,
    silent: int,
    known_quiet: int,
    quiet_links: int,
)
    requires
        0 <= silent <= quiet <= alive,
        0 <= known_quiet <= quiet,
        0 <= quiet_links <= quiet,
    ensures
        ({
            let held = holds_correlated(alive, quiet, silent, known_quiet, quiet_links);
            &&& quiet >= 3 && quiet < alive && silent >= 1 && known_quiet >= 1 && quiet_links >= 2
                ==> held
            &&& quiet == 2 && alive == 3 && silent >= 1 && known_quiet >= 1 && quiet_links == 2
                ==> held
            &&& held ==> quiet >= 2 && quiet < alive && silent >= 1 && known_quiet >= 1
                && quiet_links >= 2
            &&& held && quiet == 2 ==> alive == 3
        }),
{
}

/// A quiet set is all paths, or all but one, of a pool of at least two.
pub proof fn law_a_quiet_set_is_all_but_one(alive: int, quiet: int)
    requires
        0 <= quiet <= alive,
    ensures
        holds_quiet_set(alive, quiet) <==> alive >= 2 && quiet > 0 && alive - quiet <= 1,
{
}

/// A quiet episode lasts from the first tick on which the set holds to the
/// first on which it does not, and is reported with that duration.
pub proof fn law_an_episode_lasts_while_the_set_holds(
    before: Option<QuietEpisode>,
    after: Option<QuietEpisode>,
    change: QuietChange,
    ps: Seq<PathState>,
    alive: Seq<usize>,
    quiet: Seq<usize>,
    now: u64,
)
    requires
        tracks(before, after, change, ps, alive, quiet, now),
        quiet.len() <= alive.len(),
    ensures
        ({
            let holds = alive.len() >= 2 && quiet.len() > 0 && quiet.len() + 1 >= alive.len();
            &&& after is Some <==> holds
            &&& change is Began <==> holds && before is None
            &&& change is Ended <==> !holds && before is Some
            &&& change is Began ==> after->0.since == now && (after->0.all_n <==> quiet.len()
                == alive.len())
            &&& holds && before is Some ==> after == before
            &&& change is Ended && before->0.since <= now ==> change->dur_ms == (now
                - before->0.since) / 1000
        }),
{
}

} // verus!
