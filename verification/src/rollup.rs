//! The paths of all sessions as a server shows them, and the links they belong
//! to.

use vstd::prelude::*;

use crate::num::{capped, larger, max_u64, min_u64, smaller};
use crate::path::{Health, PathState};
use crate::sched::Scheduler;
use crate::session::Session;
use crate::snapshot::{backup_marked, label_path, session_label};
use crate::table::Slot;
use crate::text::{str_eq, text};

verus! {

broadcast use vstd::laws_cmp::group_laws_cmp;

// ---------------------------------------------------------------------------
// Paths
// ---------------------------------------------------------------------------
/// A path at a glance.
pub struct PathSnap {
    /// Its name and its link, each behind the session where there are several.
    pub name: String,
    pub link: String,
    pub state: Health,
    /// Zero while it is not measured.
    pub rtt_us: u64,
    pub class_rtt_us: u64,
    /// A mere backup beside the session's fastest class; nothing while it is
    /// not measured.
    pub backup: Option<bool>,
    /// Streams that call it home.
    pub sticky: u64,
    /// Frames that wait for its writer.
    pub queued: u64,
    pub send_drops: u64,
}

/// The frames that wait for a path's writer.
pub open spec fn queued_on(p: PathState) -> int {
    p.urgent@.len() as int + p.writer@.len()
}

/// `out` shows path `k` of these under the session.
pub open spec fn shows_path<S: Scheduler>(
    sched: &S,
    out: PathSnap,
    ps: Seq<PathState>,
    k: int,
    id: Seq<u8>,
    many: bool,
) -> bool {
    &&& out.name@ == session_label(id, ps[k].name@, many)
    &&& out.link@ == session_label(id, ps[k].link@, many)
    &&& out.state == ps[k].stat.state
    &&& out.rtt_us == ps[k].stat.rtt_us
    &&& out.class_rtt_us == ps[k].stat.class_rtt_us
    &&& backup_marked(sched, ps, k, out.backup)
    &&& out.sticky == ps[k].stat.sticky
    &&& out.queued == capped(queued_on(ps[k]))
    &&& out.send_drops == ps[k].stat.send_drops
}

/// `out` are the paths of a session, in pool order.
pub open spec fn shows_paths<S: Scheduler>(
    sched: &S,
    out: Seq<PathSnap>,
    ps: Seq<PathState>,
    id: Seq<u8>,
    many: bool,
) -> bool {
    &&& out.len() == ps.len()
    &&& forall|k: int|
        0 <= k < out.len() ==> shows_path(sched, #[trigger] out[k], ps, k, id, many)
}

/// `out` are the paths of these slots, session by session.
pub open spec fn lists_paths<S: Scheduler>(
    sched: &S,
    slots: Seq<Slot>,
    out: Seq<PathSnap>,
    many: bool,
) -> bool
    decreases slots.len(),
{
    if slots.len() == 0 {
        out.len() == 0
    } else {
        let s = slots.last();
        let cut = out.len() - s.session.paths@.len();
        &&& cut >= 0
        &&& lists_paths(sched, slots.drop_last(), out.take(cut), many)
        &&& shows_paths(sched, out.skip(cut), s.session.paths@, s.id@, many)
    }
}

impl Session {
    /// This session's paths, shown under `id` where there are many sessions.
    pub fn path_snaps<S: Scheduler>(&self, id: &[u8; 16], many: bool, sched: &S) -> (out: Vec<
        PathSnap,
    >)
        ensures
            shows_paths(sched, out@, self.paths@, id@, many),
    {
        let marks: Vec<Option<bool>> = self.backup_marks(sched);
        let mut out: Vec<PathSnap> = Vec::new();
        let mut i: usize = 0;
        while i < self.paths.len()
            invariant
                i <= self.paths@.len(),
                out@.len() == i,
                marks@.len() == self.paths@.len(),
                forall|k: int|
                    0 <= k < marks@.len() ==> backup_marked(
                        sched,
                        self.paths@,
                        k,
                        #[trigger] marks@[k],
                    ),
                forall|k: int|
                    0 <= k < i ==> shows_path(
                        sched,
                        #[trigger] out@[k],
                        self.paths@,
                        k,
                        id@,
                        many,
                    ),
            decreases self.paths.len() - i,
        {
            let p: &PathState = &self.paths[i];
            let queued: u64 = (p.urgent.len() as u64).saturating_add(p.writer.len() as u64);
            assert(backup_marked(sched, self.paths@, i as int, marks@[i as int]));
            out.push(
                PathSnap {
                    name: label_path(id, p.name.as_str(), many),
                    link: label_path(id, p.link.as_str(), many),
                    state: p.stat.state,
                    rtt_us: p.stat.rtt_us,
                    class_rtt_us: p.stat.class_rtt_us,
                    backup: marks[i],
                    sticky: p.stat.sticky,
                    queued,
                    send_drops: p.stat.send_drops,
                },
            );
            i += 1;
        }
        out
    }
}

/// Add the paths of one more slot.
pub proof fn lemma_more_paths<S: Scheduler>(
    sched: &S,
    slots: Seq<Slot>,
    before: Seq<PathSnap>,
    part: Seq<PathSnap>,
    many: bool,
)
    requires
        slots.len() > 0,
        lists_paths(sched, slots.drop_last(), before, many),
        shows_paths(sched, part, slots.last().session.paths@, slots.last().id@, many),
    ensures
        lists_paths(sched, slots, before + part, many),
{
    let out = before + part;
    assert(out.take(before.len() as int) =~= before);
    assert(out.skip(before.len() as int) =~= part);
}

// ---------------------------------------------------------------------------
// Links
// ---------------------------------------------------------------------------
/// A named link at a glance: what its paths come to.
pub struct LinkSnap {
    pub link: String,
    pub up: u64,
    pub degraded: u64,
    /// The range of the measured RTTs.
    pub rtt_low_us: Option<u64>,
    pub rtt_high_us: Option<u64>,
    pub sticky: u64,
    pub queued: u64,
}

/// What the paths of one link come to.
pub struct Tally {
    pub up: int,
    pub degraded: int,
    pub low: Option<u64>,
    pub high: Option<u64>,
    pub sticky: int,
    pub queued: int,
}

pub open spec fn one_if(b: bool) -> int {
    if b {
        1
    } else {
        0
    }
}

pub open spec fn lower(best: Option<u64>, rtt: u64) -> Option<u64> {
    match best {
        Some(b) => Some(smaller(b as int, rtt as int) as u64),
        None => Some(rtt),
    }
}

pub open spec fn higher(worst: Option<u64>, rtt: u64) -> Option<u64> {
    match worst {
        Some(w) => Some(larger(w as int, rtt as int) as u64),
        None => Some(rtt),
    }
}

pub open spec fn tally(ps: Seq<PathSnap>, link: Seq<char>) -> Tally
    decreases ps.len(),
{
    if ps.len() == 0 {
        Tally { up: 0, degraded: 0, low: None, high: None, sticky: 0, queued: 0 }
    } else {
        let t = tally(ps.drop_last(), link);
        let p = ps.last();
        if p.link@ != link {
            t
        } else {
            Tally {
                up: t.up + one_if(p.state is Up),
                degraded: t.degraded + one_if(p.state is Degraded),
                low: if p.rtt_us == 0 {
                    t.low
                } else {
                    lower(t.low, p.rtt_us)
                },
                high: if p.rtt_us == 0 {
                    t.high
                } else {
                    higher(t.high, p.rtt_us)
                },
                sticky: t.sticky + p.sticky,
                queued: t.queued + p.queued,
            }
        }
    }
}

pub open spec fn tallied(l: LinkSnap, t: Tally) -> bool {
    &&& l.up == capped(t.up)
    &&& l.degraded == capped(t.degraded)
    &&& l.rtt_low_us == t.low
    &&& l.rtt_high_us == t.high
    &&& l.sticky == capped(t.sticky)
    &&& l.queued == capped(t.queued)
}

/// The links of these paths, in the order in which they first occur.
pub open spec fn link_names(ps: Seq<PathSnap>) -> Seq<Seq<char>>
    decreases ps.len(),
{
    if ps.len() == 0 {
        seq![]
    } else {
        let before = link_names(ps.drop_last());
        if before.contains(ps.last().link@) {
            before
        } else {
            before.push(ps.last().link@)
        }
    }
}

/// `links` are these paths, rolled up by link.
pub open spec fn rolls_up(links: Seq<LinkSnap>, ps: Seq<PathSnap>) -> bool {
    &&& links.len() == link_names(ps).len()
    &&& forall|i: int|
        0 <= i < links.len() ==> (#[trigger] links[i]).link@ == link_names(ps)[i] && tallied(
            links[i],
            tally(ps, links[i].link@),
        )
}

fn names_link(links: &Vec<LinkSnap>, link: &str) -> (r: bool)
    ensures
        r == exists|i: int| 0 <= i < links@.len() && (#[trigger] links@[i]).link@ == link@,
{
    let mut i: usize = 0;
    while i < links.len()
        invariant
            i <= links@.len(),
            forall|k: int| 0 <= k < i ==> (#[trigger] links@[k]).link@ != link@,
        decreases links.len() - i,
    {
        if str_eq(links[i].link.as_str(), link) {
            return true;
        }
        i += 1;
    }
    false
}

fn tally_link(ps: &Vec<PathSnap>, link: &str) -> (l: LinkSnap)
    ensures
        l.link@ == link@,
        tallied(l, tally(ps@, link@)),
{
    let mut l: LinkSnap = LinkSnap {
        link: text(link),
        up: 0,
        degraded: 0,
        rtt_low_us: None,
        rtt_high_us: None,
        sticky: 0,
        queued: 0,
    };
    let mut i: usize = 0;
    assert(ps@.take(0) =~= seq![]);
    while i < ps.len()
        invariant
            i <= ps@.len(),
            l.link@ == link@,
            tallied(l, tally(ps@.take(i as int), link@)),
            tally(ps@.take(i as int), link@).up >= 0,
            tally(ps@.take(i as int), link@).degraded >= 0,
            tally(ps@.take(i as int), link@).sticky >= 0,
            tally(ps@.take(i as int), link@).queued >= 0,
        decreases ps.len() - i,
    {
        let p: &PathSnap = &ps[i];
        assert(ps@.take(i as int + 1).drop_last() =~= ps@.take(i as int));
        if str_eq(p.link.as_str(), link) {
            match p.state {
                Health::Up => {
                    l.up = l.up.saturating_add(1);
                },
                Health::Degraded => {
                    l.degraded = l.degraded.saturating_add(1);
                },
                Health::Down => {},
            }
            if p.rtt_us != 0 {
                l.rtt_low_us = match l.rtt_low_us {
                    Some(b) => Some(min_u64(b, p.rtt_us)),
                    None => Some(p.rtt_us),
                };
                l.rtt_high_us = match l.rtt_high_us {
                    Some(w) => Some(max_u64(w, p.rtt_us)),
                    None => Some(p.rtt_us),
                };
            }
            l.sticky = l.sticky.saturating_add(p.sticky);
            l.queued = l.queued.saturating_add(p.queued);
        }
        i += 1;
    }
    assert(ps@.take(ps@.len() as int) =~= ps@);
    l
}

/// Roll paths up by link, in the order in which the links first occur.
pub fn rollup_links(ps: &Vec<PathSnap>) -> (links: Vec<LinkSnap>)
    ensures
        rolls_up(links@, ps@),
{
    let mut links: Vec<LinkSnap> = Vec::new();
    let mut i: usize = 0;
    assert(ps@.take(0) =~= seq![]);
    while i < ps.len()
        invariant
            i <= ps@.len(),
            links@.len() == link_names(ps@.take(i as int)).len(),
            forall|k: int|
                0 <= k < links@.len() ==> (#[trigger] links@[k]).link@ == link_names(
                    ps@.take(i as int),
                )[k] && tallied(links@[k], tally(ps@, links@[k].link@)),
        decreases ps.len() - i,
    {
        let ghost names = link_names(ps@.take(i as int));
        let ghost before = links@;
        assert(ps@.take(i as int + 1).drop_last() =~= ps@.take(i as int));
        let known: bool = names_link(&links, ps[i].link.as_str());
        proof {
            let name = ps@[i as int].link@;
            if known {
                let k = choose|k: int| 0 <= k < before.len() && (#[trigger] before[k]).link@ == name;
                assert(names[k] == name);
            } else if names.contains(name) {
                let k = choose|k: int| 0 <= k < names.len() && names[k] == name;
                assert(before[k].link@ == name);
            }
        }
        if !known {
            links.push(tally_link(ps, ps[i].link.as_str()));
            assert forall|k: int| 0 <= k < links@.len() implies (#[trigger] links@[k]).link@
                == names.push(ps@[i as int].link@)[k] && tallied(
                links@[k],
                tally(ps@, links@[k].link@),
            ) by {
                if k < before.len() {
                    assert(links@[k] == before[k]);
                }
            }
        }
        i += 1;
    }
    assert(ps@.take(ps@.len() as int) =~= ps@);
    links
}

/// Every path is rolled up: its link is listed, and each link once.
pub proof fn law_every_path_has_its_link(links: Seq<LinkSnap>, ps: Seq<PathSnap>)
    requires
        rolls_up(links, ps),
    ensures
        forall|k: int|
            #![trigger ps[k]]
            0 <= k < ps.len() ==> exists|i: int|
                0 <= i < links.len() && (#[trigger] links[i]).link@ == ps[k].link@,
        forall|i: int, j: int|
            0 <= i < j < links.len() ==> (#[trigger] links[i]).link@ != (#[trigger] links[j]).link@,
        links.len() == 0 <==> ps.len() == 0,
{
    lemma_link_names(ps);
    assert forall|k: int|
        #![trigger ps[k]]
        0 <= k < ps.len() implies exists|i: int|
        0 <= i < links.len() && (#[trigger] links[i]).link@ == ps[k].link@ by {
        let names = link_names(ps);
        assert(names.contains(ps[k].link@));
        let i = choose|i: int| 0 <= i < names.len() && names[i] == ps[k].link@;
        assert(links[i].link@ == ps[k].link@);
    }
}

proof fn lemma_link_names(ps: Seq<PathSnap>)
    ensures
        forall|k: int|
            0 <= k < ps.len() ==> link_names(ps).contains((#[trigger] ps[k]).link@),
        link_names(ps).no_duplicates(),
        link_names(ps).len() == 0 <==> ps.len() == 0,
    decreases ps.len(),
{
    if ps.len() > 0 {
        let before = ps.drop_last();
        lemma_link_names(before);
        let names = link_names(before);
        let last = ps.last().link@;
        if !names.contains(last) {
            let more = names.push(last);
            assert(more[names.len() as int] == last);
            assert forall|x: Seq<char>| names.contains(x) implies more.contains(x) by {
                let i = choose|i: int| 0 <= i < names.len() && names[i] == x;
                assert(more[i] == x);
            }
        }
        assert forall|k: int| 0 <= k < ps.len() implies link_names(ps).contains(
            (#[trigger] ps[k]).link@,
        ) by {
            if k < before.len() {
                assert(before[k] == ps[k]);
            }
        }
        assert(link_names(ps).contains(last));
    }
}

} // verus!
