//! Mixed-fault suites for typical mixes of links.
//!
//! Three or five peer links of one class, optionally with one or two slightly
//! slower but mostly stable links; as many ping streams as peers, and one bulk
//! stream per slow link. Loss is in parts per million, success in thousandths.

use vstd::prelude::*;
use vstd::string::*;

use crate::num::{larger, max_u64};
use crate::text::{lower_text, lowered, split_at_commas, split_commas, str_eq, views};
use crate::tls::{trim_white, trimmed, white_fn};

verus! {

/// Shortest wait for a ping's answer.
pub const PING_TO_FLOOR_MS: u64 = 1500;

// ---------------------------------------------------------------------------
// Links
// ---------------------------------------------------------------------------
#[derive(Clone, Copy, Debug, PartialEq, Eq, Structural)]
pub enum Role {
    /// Peers of one class; they take the full mix of faults.
    Peer,
    /// Slightly slower, mostly stable; mild noise only.
    Slow,
}

#[derive(Clone, Copy, Debug)]
pub struct LinkSpec {
    pub name: &'static str,
    pub rtt_ms: u64,
    pub jitter_ms: u64,
    pub loss_ppm: u64,
    pub role: Role,
}

/// A link, over its name.
pub struct LinkView {
    pub name: Seq<char>,
    pub rtt_ms: u64,
    pub jitter_ms: u64,
    pub loss_ppm: u64,
    pub role: Role,
}

impl LinkSpec {
    pub open spec fn view(self) -> LinkView {
        LinkView {
            name: self.name@,
            rtt_ms: self.rtt_ms,
            jitter_ms: self.jitter_ms,
            loss_ppm: self.loss_ppm,
            role: self.role,
        }
    }
}

pub open spec fn link_views(v: Seq<LinkSpec>) -> Seq<LinkView> {
    v.map_values(|l: LinkSpec| l@)
}

pub open spec fn peer_view(
    name: Seq<char>,
    rtt_ms: u64,
    jitter_ms: u64,
    loss_ppm: u64,
) -> LinkView {
    LinkView { name, rtt_ms, jitter_ms, loss_ppm, role: Role::Peer }
}

pub open spec fn slow_view(
    name: Seq<char>,
    rtt_ms: u64,
    jitter_ms: u64,
    loss_ppm: u64,
) -> LinkView {
    LinkView { name, rtt_ms, jitter_ms, loss_ppm, role: Role::Slow }
}

fn peer(name: &'static str, rtt_ms: u64, jitter_ms: u64, loss_ppm: u64) -> (l: LinkSpec)
    ensures
        l@ == peer_view(name@, rtt_ms, jitter_ms, loss_ppm),
{
    LinkSpec { name, rtt_ms, jitter_ms, loss_ppm, role: Role::Peer }
}

fn slow(name: &'static str, rtt_ms: u64, jitter_ms: u64, loss_ppm: u64) -> (l: LinkSpec)
    ensures
        l@ == slow_view(name@, rtt_ms, jitter_ms, loss_ppm),
{
    LinkSpec { name, rtt_ms, jitter_ms, loss_ppm, role: Role::Slow }
}

// ---------------------------------------------------------------------------
// Cases
// ---------------------------------------------------------------------------
#[derive(Debug)]
pub struct MixCase {
    pub name: &'static str,
    pub links: Vec<LinkSpec>,
    pub ping_streams: usize,
    pub bulk_streams: usize,
    /// Connections per link.
    pub connections: u32,
    pub p99_ms: u64,
    pub p50_ms: u64,
    pub min_success: u64,
    /// Most links that may be hard down at once.
    pub max_hard: u32,
}

/// A case, over its names.
pub struct CaseView {
    pub name: Seq<char>,
    pub links: Seq<LinkView>,
    pub ping_streams: usize,
    pub bulk_streams: usize,
    pub connections: u32,
    pub p99_ms: u64,
    pub p50_ms: u64,
    pub min_success: u64,
    pub max_hard: u32,
}

pub open spec fn case_view(
    name: Seq<char>,
    links: Seq<LinkView>,
    ping_streams: usize,
    bulk_streams: usize,
    max_hard: u32,
    p50_ms: u64,
    p99_ms: u64,
    min_success: u64,
) -> CaseView {
    CaseView {
        name,
        links,
        ping_streams,
        bulk_streams,
        connections: 2,
        p99_ms,
        p50_ms,
        min_success,
        max_hard,
    }
}

fn case(
    name: &'static str,
    links: Vec<LinkSpec>,
    ping_streams: usize,
    bulk_streams: usize,
    max_hard: u32,
    p50_ms: u64,
    p99_ms: u64,
    min_success: u64,
) -> (c: MixCase)
    ensures
        c@ == case_view(
            name@,
            link_views(links@),
            ping_streams,
            bulk_streams,
            max_hard,
            p50_ms,
            p99_ms,
            min_success,
        ),
{
    MixCase {
        name,
        links,
        ping_streams,
        bulk_streams,
        connections: 2,
        p99_ms,
        p50_ms,
        min_success,
        max_hard,
    }
}

/// The slowest of these links.
pub open spec fn max_rtt(links: Seq<LinkView>) -> int
    decreases links.len(),
{
    if links.len() == 0 {
        0
    } else {
        larger(max_rtt(links.drop_last()), links.last().rtt_ms as int)
    }
}

impl MixCase {
    pub open spec fn view(self) -> CaseView {
        CaseView {
            name: self.name@,
            links: link_views(self.links@),
            ping_streams: self.ping_streams,
            bulk_streams: self.bulk_streams,
            connections: self.connections,
            p99_ms: self.p99_ms,
            p50_ms: self.p50_ms,
            min_success: self.min_success,
            max_hard: self.max_hard,
        }
    }

    /// Some link is slow.
    pub fn has_slow(&self) -> (r: bool)
        ensures
            r == exists|i: int| 0 <= i < self.links@.len() && (#[trigger] self.links@[i]).role is Slow,
    {
        let mut i: usize = 0;
        while i < self.links.len()
            invariant
                i <= self.links@.len(),
                forall|k: int| 0 <= k < i ==> !((#[trigger] self.links@[k]).role is Slow),
            decreases self.links.len() - i,
        {
            match self.links[i].role {
                Role::Slow => {
                    assert(self.links@[i as int].role is Slow);
                    return true;
                },
                Role::Peer => {},
            }
            i += 1;
        }
        false
    }

    /// Names of the peers, in order.
    pub fn peers(&self) -> (v: Vec<&'static str>)
        ensures
            v@.map_values(|n: &'static str| n@) == peer_names(link_views(self.links@)),
    {
        let mut v: Vec<&'static str> = Vec::new();
        let mut i: usize = 0;
        let ghost lv = link_views(self.links@);
        assert(lv.take(0) =~= seq![]);
        assert(v@.map_values(|n: &'static str| n@) =~= seq![]);
        while i < self.links.len()
            invariant
                i <= self.links@.len(),
                lv == link_views(self.links@),
                v@.map_values(|n: &'static str| n@) == peer_names(lv.take(i as int)),
            decreases self.links.len() - i,
        {
            assert(lv.take(i as int + 1).drop_last() =~= lv.take(i as int));
            let ghost before = v@.map_values(|n: &'static str| n@);
            match self.links[i].role {
                Role::Peer => {
                    let name: &'static str = self.links[i].name;
                    v.push(name);
                    assert(v@.map_values(|n: &'static str| n@) =~= before.push(name@));
                },
                Role::Slow => {},
            }
            i += 1;
        }
        assert(lv.take(lv.len() as int) =~= lv);
        v
    }

    /// How long a ping may take: twelve times the slowest round trip, at
    /// least the floor. A case without links counts as one of 20 ms.
    pub fn ping_timeout(&self) -> (ms: u64)
        requires
            forall|i: int| 0 <= i < self.links@.len() ==> (#[trigger] self.links@[i]).rtt_ms
                <= u64::MAX / 12,
        ensures
            ms == larger(
                12 * if self.links@.len() == 0 {
                    20
                } else {
                    max_rtt(link_views(self.links@))
                },
                PING_TO_FLOOR_MS as int,
            ),
    {
        let ghost lv = link_views(self.links@);
        if self.links.len() == 0 {
            return PING_TO_FLOOR_MS;
        }
        let mut best: u64 = 0;
        let mut i: usize = 0;
        assert(lv.take(0) =~= seq![]);
        while i < self.links.len()
            invariant
                i <= self.links@.len(),
                lv == link_views(self.links@),
                best == max_rtt(lv.take(i as int)),
                best <= u64::MAX / 12,
                forall|i: int|
                    0 <= i < self.links@.len() ==> (#[trigger] self.links@[i]).rtt_ms <= u64::MAX
                        / 12,
            decreases self.links.len() - i,
        {
            assert(lv.take(i as int + 1).drop_last() =~= lv.take(i as int));
            assert(self.links@[i as int].rtt_ms <= u64::MAX / 12);
            best = max_u64(best, self.links[i].rtt_ms);
            i += 1;
        }
        assert(lv.take(lv.len() as int) =~= lv);
        max_u64(best * 12, PING_TO_FLOOR_MS)
    }
}

/// Names of the peers among these links, in order.
pub open spec fn peer_names(links: Seq<LinkView>) -> Seq<Seq<char>>
    decreases links.len(),
{
    if links.len() == 0 {
        seq![]
    } else if links.last().role is Peer {
        peer_names(links.drop_last()).push(links.last().name)
    } else {
        peer_names(links.drop_last())
    }
}

// ---------------------------------------------------------------------------
// The cases of each band
// ---------------------------------------------------------------------------
/// The three peers of the near band.
pub open spec fn near_peer3_links() -> Seq<LinkView> {
    seq![
        peer_view("a"@, 12, 2, 1000),
        peer_view("b"@, 14, 3, 2000),
        peer_view("c"@, 16, 2, 1000),
    ]
}

fn make_near_peer3_links() -> (v: Vec<LinkSpec>)
    ensures
        link_views(v@) == near_peer3_links(),
{
    let v: Vec<LinkSpec> = vec![
        peer("a", 12, 2, 1000),
        peer("b", 14, 3, 2000),
        peer("c", 16, 2, 1000),
    ];
    assert(link_views(v@) =~= near_peer3_links());
    v
}

/// The five peers of the near band.
pub open spec fn near_peer5_links() -> Seq<LinkView> {
    seq![
        peer_view("a"@, 11, 2, 1000),
        peer_view("b"@, 12, 2, 2000),
        peer_view("c"@, 13, 3, 1000),
        peer_view("d"@, 15, 2, 2000),
        peer_view("e"@, 16, 3, 1000),
    ]
}

fn make_near_peer5_links() -> (v: Vec<LinkSpec>)
    ensures
        link_views(v@) == near_peer5_links(),
{
    let v: Vec<LinkSpec> = vec![
        peer("a", 11, 2, 1000),
        peer("b", 12, 2, 2000),
        peer("c", 13, 3, 1000),
        peer("d", 15, 2, 2000),
        peer("e", 16, 3, 1000),
    ];
    assert(link_views(v@) =~= near_peer5_links());
    v
}

/// Three peers of one class, three ping streams.
pub open spec fn peer3_view() -> CaseView {
    case_view("peer3"@, near_peer3_links(), 3, 0, 2, 40, 500, 930)
}

/// Three peers of one class, three ping streams.
pub fn peer3() -> (c: MixCase)
    ensures
        c@ == peer3_view(),
{
    let links: Vec<LinkSpec> = make_near_peer3_links();
    case("peer3", links, 3, 0, 2, 40, 500, 930)
}

/// Five peers of one class, five ping streams.
pub open spec fn peer5_view() -> CaseView {
    case_view("peer5"@, near_peer5_links(), 5, 0, 3, 40, 500, 930)
}

/// Five peers of one class, five ping streams.
pub fn peer5() -> (c: MixCase)
    ensures
        c@ == peer5_view(),
{
    let links: Vec<LinkSpec> = make_near_peer5_links();
    case("peer5", links, 5, 0, 3, 40, 500, 930)
}

/// The links of `peer3_slow1`.
pub open spec fn peer3_slow1_links() -> Seq<LinkView> {
    near_peer3_links() + seq![
        slow_view("s"@, 30, 2, 500),
    ]
}

/// Three peers and one slower, mostly stable link; three pings and one bulk.
pub open spec fn peer3_slow1_view() -> CaseView {
    case_view("peer3_slow1"@, peer3_slow1_links(), 3, 1, 2, 40, 500, 930)
}

/// Three peers and one slower, mostly stable link; three pings and one bulk.
pub fn peer3_slow1() -> (c: MixCase)
    ensures
        c@ == peer3_slow1_view(),
{
    let mut links: Vec<LinkSpec> = make_near_peer3_links();
    links.push(slow("s", 30, 2, 500));
    assert(link_views(links@) =~= peer3_slow1_links());
    case("peer3_slow1", links, 3, 1, 2, 40, 500, 930)
}

/// The links of `peer5_slow2`.
pub open spec fn peer5_slow2_links() -> Seq<LinkView> {
    near_peer5_links() + seq![
        slow_view("s1"@, 28, 2, 500),
        slow_view("s2"@, 35, 3, 500),
    ]
}

/// Five peers and two slower, mostly stable links; five pings and two bulk.
pub open spec fn peer5_slow2_view() -> CaseView {
    case_view("peer5_slow2"@, peer5_slow2_links(), 5, 2, 4, 40, 500, 930)
}

/// Five peers and two slower, mostly stable links; five pings and two bulk.
pub fn peer5_slow2() -> (c: MixCase)
    ensures
        c@ == peer5_slow2_view(),
{
    let mut links: Vec<LinkSpec> = make_near_peer5_links();
    links.push(slow("s1", 28, 2, 500));
    links.push(slow("s2", 35, 3, 500));
    assert(link_views(links@) =~= peer5_slow2_links());
    case("peer5_slow2", links, 5, 2, 4, 40, 500, 930)
}

/// The three peers of the mid band.
pub open spec fn mid_peer3_links() -> Seq<LinkView> {
    seq![
        peer_view("a"@, 68, 10, 5000),
        peer_view("b"@, 82, 12, 8000),
        peer_view("c"@, 96, 14, 6000),
    ]
}

fn make_mid_peer3_links() -> (v: Vec<LinkSpec>)
    ensures
        link_views(v@) == mid_peer3_links(),
{
    let v: Vec<LinkSpec> = vec![
        peer("a", 68, 10, 5000),
        peer("b", 82, 12, 8000),
        peer("c", 96, 14, 6000),
    ];
    assert(link_views(v@) =~= mid_peer3_links());
    v
}

/// The five peers of the mid band.
pub open spec fn mid_peer5_links() -> Seq<LinkView> {
    seq![
        peer_view("a"@, 62, 10, 5000),
        peer_view("b"@, 70, 12, 8000),
        peer_view("c"@, 78, 12, 6000),
        peer_view("d"@, 86, 14, 9000),
        peer_view("e"@, 96, 16, 7000),
    ]
}

fn make_mid_peer5_links() -> (v: Vec<LinkSpec>)
    ensures
        link_views(v@) == mid_peer5_links(),
{
    let v: Vec<LinkSpec> = vec![
        peer("a", 62, 10, 5000),
        peer("b", 70, 12, 8000),
        peer("c", 78, 12, 6000),
        peer("d", 86, 14, 9000),
        peer("e", 96, 16, 7000),
    ];
    assert(link_views(v@) =~= mid_peer5_links());
    v
}

/// Three peers of one class, three ping streams.
pub open spec fn mid_peer3_view() -> CaseView {
    case_view("mid_peer3"@, mid_peer3_links(), 3, 0, 2, 125, 1200, 920)
}

/// Three peers of one class, three ping streams.
pub fn mid_peer3() -> (c: MixCase)
    ensures
        c@ == mid_peer3_view(),
{
    let links: Vec<LinkSpec> = make_mid_peer3_links();
    case("mid_peer3", links, 3, 0, 2, 125, 1200, 920)
}

/// Five peers of one class, five ping streams.
pub open spec fn mid_peer5_view() -> CaseView {
    case_view("mid_peer5"@, mid_peer5_links(), 5, 0, 3, 125, 1200, 920)
}

/// Five peers of one class, five ping streams.
pub fn mid_peer5() -> (c: MixCase)
    ensures
        c@ == mid_peer5_view(),
{
    let links: Vec<LinkSpec> = make_mid_peer5_links();
    case("mid_peer5", links, 5, 0, 3, 125, 1200, 920)
}

/// The links of `mid_peer3_slow1`.
pub open spec fn mid_peer3_slow1_links() -> Seq<LinkView> {
    mid_peer3_links() + seq![
        slow_view("s"@, 128, 8, 2000),
    ]
}

/// Three peers and one slower, mostly stable link; three pings and one bulk.
pub open spec fn mid_peer3_slow1_view() -> CaseView {
    case_view("mid_peer3_slow1"@, mid_peer3_slow1_links(), 3, 1, 2, 125, 1200, 920)
}

/// Three peers and one slower, mostly stable link; three pings and one bulk.
pub fn mid_peer3_slow1() -> (c: MixCase)
    ensures
        c@ == mid_peer3_slow1_view(),
{
    let mut links: Vec<LinkSpec> = make_mid_peer3_links();
    links.push(slow("s", 128, 8, 2000));
    assert(link_views(links@) =~= mid_peer3_slow1_links());
    case("mid_peer3_slow1", links, 3, 1, 2, 125, 1200, 920)
}

/// The links of `mid_peer5_slow2`.
pub open spec fn mid_peer5_slow2_links() -> Seq<LinkView> {
    mid_peer5_links() + seq![
        slow_view("s1"@, 125, 8, 2000),
        slow_view("s2"@, 138, 10, 2000),
    ]
}

/// Five peers and two slower, mostly stable links; five pings and two bulk.
pub open spec fn mid_peer5_slow2_view() -> CaseView {
    case_view("mid_peer5_slow2"@, mid_peer5_slow2_links(), 5, 2, 4, 125, 1200, 920)
}

/// Five peers and two slower, mostly stable links; five pings and two bulk.
pub fn mid_peer5_slow2() -> (c: MixCase)
    ensures
        c@ == mid_peer5_slow2_view(),
{
    let mut links: Vec<LinkSpec> = make_mid_peer5_links();
    links.push(slow("s1", 125, 8, 2000));
    links.push(slow("s2", 138, 10, 2000));
    assert(link_views(links@) =~= mid_peer5_slow2_links());
    case("mid_peer5_slow2", links, 5, 2, 4, 125, 1200, 920)
}

/// The three peers of the high band.
pub open spec fn high_peer3_links() -> Seq<LinkView> {
    seq![
        peer_view("a"@, 124, 18, 10000),
        peer_view("b"@, 136, 22, 12000),
        peer_view("c"@, 148, 24, 10000),
    ]
}

fn make_high_peer3_links() -> (v: Vec<LinkSpec>)
    ensures
        link_views(v@) == high_peer3_links(),
{
    let v: Vec<LinkSpec> = vec![
        peer("a", 124, 18, 10000),
        peer("b", 136, 22, 12000),
        peer("c", 148, 24, 10000),
    ];
    assert(link_views(v@) =~= high_peer3_links());
    v
}

/// The five peers of the high band.
pub open spec fn high_peer5_links() -> Seq<LinkView> {
    seq![
        peer_view("a"@, 122, 18, 10000),
        peer_view("b"@, 128, 20, 12000),
        peer_view("c"@, 134, 22, 11000),
        peer_view("d"@, 142, 24, 14000),
        peer_view("e"@, 148, 28, 12000),
    ]
}

fn make_high_peer5_links() -> (v: Vec<LinkSpec>)
    ensures
        link_views(v@) == high_peer5_links(),
{
    let v: Vec<LinkSpec> = vec![
        peer("a", 122, 18, 10000),
        peer("b", 128, 20, 12000),
        peer("c", 134, 22, 11000),
        peer("d", 142, 24, 14000),
        peer("e", 148, 28, 12000),
    ];
    assert(link_views(v@) =~= high_peer5_links());
    v
}

/// Three peers of one class, three ping streams.
pub open spec fn high_peer3_view() -> CaseView {
    case_view("high_peer3"@, high_peer3_links(), 3, 0, 2, 190, 1800, 900)
}

/// Three peers of one class, three ping streams.
pub fn high_peer3() -> (c: MixCase)
    ensures
        c@ == high_peer3_view(),
{
    let links: Vec<LinkSpec> = make_high_peer3_links();
    case("high_peer3", links, 3, 0, 2, 190, 1800, 900)
}

/// Five peers of one class, five ping streams.
pub open spec fn high_peer5_view() -> CaseView {
    case_view("high_peer5"@, high_peer5_links(), 5, 0, 3, 190, 1800, 900)
}

/// Five peers of one class, five ping streams.
pub fn high_peer5() -> (c: MixCase)
    ensures
        c@ == high_peer5_view(),
{
    let links: Vec<LinkSpec> = make_high_peer5_links();
    case("high_peer5", links, 5, 0, 3, 190, 1800, 900)
}

/// The links of `high_peer3_slow1`.
pub open spec fn high_peer3_slow1_links() -> Seq<LinkView> {
    high_peer3_links() + seq![
        slow_view("s"@, 198, 16, 4000),
    ]
}

/// Three peers and one slower, mostly stable link; three pings and one bulk.
pub open spec fn high_peer3_slow1_view() -> CaseView {
    case_view("high_peer3_slow1"@, high_peer3_slow1_links(), 3, 1, 2, 190, 1800, 900)
}

/// Three peers and one slower, mostly stable link; three pings and one bulk.
pub fn high_peer3_slow1() -> (c: MixCase)
    ensures
        c@ == high_peer3_slow1_view(),
{
    let mut links: Vec<LinkSpec> = make_high_peer3_links();
    links.push(slow("s", 198, 16, 4000));
    assert(link_views(links@) =~= high_peer3_slow1_links());
    case("high_peer3_slow1", links, 3, 1, 2, 190, 1800, 900)
}

/// The links of `high_peer5_slow2`.
pub open spec fn high_peer5_slow2_links() -> Seq<LinkView> {
    high_peer5_links() + seq![
        slow_view("s1"@, 195, 16, 4000),
        slow_view("s2"@, 215, 18, 4000),
    ]
}

/// Five peers and two slower, mostly stable links; five pings and two bulk.
pub open spec fn high_peer5_slow2_view() -> CaseView {
    case_view("high_peer5_slow2"@, high_peer5_slow2_links(), 5, 2, 4, 190, 1800, 900)
}

/// Five peers and two slower, mostly stable links; five pings and two bulk.
pub fn high_peer5_slow2() -> (c: MixCase)
    ensures
        c@ == high_peer5_slow2_view(),
{
    let mut links: Vec<LinkSpec> = make_high_peer5_links();
    links.push(slow("s1", 195, 16, 4000));
    links.push(slow("s2", 215, 18, 4000));
    assert(link_views(links@) =~= high_peer5_slow2_links());
    case("high_peer5_slow2", links, 5, 2, 4, 190, 1800, 900)
}

/// The three peers of the far band.
pub open spec fn far_peer3_links() -> Seq<LinkView> {
    seq![
        peer_view("a"@, 168, 28, 15000),
        peer_view("b"@, 182, 32, 18000),
        peer_view("c"@, 196, 36, 16000),
    ]
}

fn make_far_peer3_links() -> (v: Vec<LinkSpec>)
    ensures
        link_views(v@) == far_peer3_links(),
{
    let v: Vec<LinkSpec> = vec![
        peer("a", 168, 28, 15000),
        peer("b", 182, 32, 18000),
        peer("c", 196, 36, 16000),
    ];
    assert(link_views(v@) =~= far_peer3_links());
    v
}

/// The five peers of the far band.
pub open spec fn far_peer5_links() -> Seq<LinkView> {
    seq![
        peer_view("a"@, 162, 26, 14000),
        peer_view("b"@, 172, 30, 16000),
        peer_view("c"@, 182, 32, 15000),
        peer_view("d"@, 190, 36, 18000),
        peer_view("e"@, 198, 40, 17000),
    ]
}

fn make_far_peer5_links() -> (v: Vec<LinkSpec>)
    ensures
        link_views(v@) == far_peer5_links(),
{
    let v: Vec<LinkSpec> = vec![
        peer("a", 162, 26, 14000),
        peer("b", 172, 30, 16000),
        peer("c", 182, 32, 15000),
        peer("d", 190, 36, 18000),
        peer("e", 198, 40, 17000),
    ];
    assert(link_views(v@) =~= far_peer5_links());
    v
}

/// Three peers of one class, three ping streams.
pub open spec fn far_peer3_view() -> CaseView {
    case_view("far_peer3"@, far_peer3_links(), 3, 0, 2, 250, 2500, 880)
}

/// Three peers of one class, three ping streams.
pub fn far_peer3() -> (c: MixCase)
    ensures
        c@ == far_peer3_view(),
{
    let links: Vec<LinkSpec> = make_far_peer3_links();
    case("far_peer3", links, 3, 0, 2, 250, 2500, 880)
}

/// Five peers of one class, five ping streams.
pub open spec fn far_peer5_view() -> CaseView {
    case_view("far_peer5"@, far_peer5_links(), 5, 0, 3, 250, 2500, 880)
}

/// Five peers of one class, five ping streams.
pub fn far_peer5() -> (c: MixCase)
    ensures
        c@ == far_peer5_view(),
{
    let links: Vec<LinkSpec> = make_far_peer5_links();
    case("far_peer5", links, 5, 0, 3, 250, 2500, 880)
}

/// The links of `far_peer3_slow1`.
pub open spec fn far_peer3_slow1_links() -> Seq<LinkView> {
    far_peer3_links() + seq![
        slow_view("s"@, 258, 20, 5000),
    ]
}

/// Three peers and one slower, mostly stable link; three pings and one bulk.
pub open spec fn far_peer3_slow1_view() -> CaseView {
    case_view("far_peer3_slow1"@, far_peer3_slow1_links(), 3, 1, 2, 250, 2500, 880)
}

/// Three peers and one slower, mostly stable link; three pings and one bulk.
pub fn far_peer3_slow1() -> (c: MixCase)
    ensures
        c@ == far_peer3_slow1_view(),
{
    let mut links: Vec<LinkSpec> = make_far_peer3_links();
    links.push(slow("s", 258, 20, 5000));
    assert(link_views(links@) =~= far_peer3_slow1_links());
    case("far_peer3_slow1", links, 3, 1, 2, 250, 2500, 880)
}

/// The links of `far_peer5_slow2`.
pub open spec fn far_peer5_slow2_links() -> Seq<LinkView> {
    far_peer5_links() + seq![
        slow_view("s1"@, 255, 20, 5000),
        slow_view("s2"@, 280, 24, 5000),
    ]
}

/// Five peers and two slower, mostly stable links; five pings and two bulk.
pub open spec fn far_peer5_slow2_view() -> CaseView {
    case_view("far_peer5_slow2"@, far_peer5_slow2_links(), 5, 2, 4, 250, 2500, 880)
}

/// Five peers and two slower, mostly stable links; five pings and two bulk.
pub fn far_peer5_slow2() -> (c: MixCase)
    ensures
        c@ == far_peer5_slow2_view(),
{
    let mut links: Vec<LinkSpec> = make_far_peer5_links();
    links.push(slow("s1", 255, 20, 5000));
    links.push(slow("s2", 280, 24, 5000));
    assert(link_views(links@) =~= far_peer5_slow2_links());
    case("far_peer5_slow2", links, 5, 2, 4, 250, 2500, 880)
}
// ---------------------------------------------------------------------------
// Bands
// ---------------------------------------------------------------------------
/// Round-trip windows of the peers.
#[derive(Clone, Copy, Debug, PartialEq, Eq, Structural)]
pub enum MixBand {
    /// 11 to 16 ms.
    Near,
    /// 60 to 100 ms.
    Mid,
    /// 120 to 150 ms.
    High,
    /// 160 to 200 ms.
    Far,
}

pub open spec fn all_bands() -> Seq<MixBand> {
    seq![MixBand::Near, MixBand::Mid, MixBand::High, MixBand::Far]
}

/// The cases of a band.
pub open spec fn band_cases(b: MixBand) -> Seq<CaseView> {
    match b {
        MixBand::Near => seq![
            peer3_view(),
            peer5_view(),
            peer3_slow1_view(),
            peer5_slow2_view(),
        ],
        MixBand::Mid => seq![
            mid_peer3_view(),
            mid_peer5_view(),
            mid_peer3_slow1_view(),
            mid_peer5_slow2_view(),
        ],
        MixBand::High => seq![
            high_peer3_view(),
            high_peer5_view(),
            high_peer3_slow1_view(),
            high_peer5_slow2_view(),
        ],
        MixBand::Far => seq![
            far_peer3_view(),
            far_peer5_view(),
            far_peer3_slow1_view(),
            far_peer5_slow2_view(),
        ],
    }
}

pub open spec fn case_views(v: Seq<MixCase>) -> Seq<CaseView> {
    v.map_values(|c: MixCase| c@)
}

/// The band a word names.
pub open spec fn band_of(s: Seq<char>) -> Option<MixBand> {
    let w = lowered(trimmed(s, white_fn()));
    if w == "near"@ || w == "lab"@ {
        Some(MixBand::Near)
    } else if w == "mid"@ || w == "60"@ || w == "60-100"@ {
        Some(MixBand::Mid)
    } else if w == "high"@ || w == "120"@ || w == "120-150"@ {
        Some(MixBand::High)
    } else if w == "far"@ || w == "160"@ || w == "160-200"@ {
        Some(MixBand::Far)
    } else {
        None
    }
}

impl MixBand {
    pub fn all() -> (v: Vec<MixBand>)
        ensures
            v@ == all_bands(),
    {
        let v: Vec<MixBand> = vec![MixBand::Near, MixBand::Mid, MixBand::High, MixBand::Far];
        assert(v@ =~= all_bands());
        v
    }

    pub fn parse(s: &str) -> (r: Option<MixBand>)
        ensures
            r == band_of(s@),
    {
        let word: String = lower_text(trim_white(s));
        let w: &str = word.as_str();
        if str_eq(w, "near") || str_eq(w, "lab") {
            Some(MixBand::Near)
        } else if str_eq(w, "mid") || str_eq(w, "60") || str_eq(w, "60-100") {
            Some(MixBand::Mid)
        } else if str_eq(w, "high") || str_eq(w, "120") || str_eq(w, "120-150") {
            Some(MixBand::High)
        } else if str_eq(w, "far") || str_eq(w, "160") || str_eq(w, "160-200") {
            Some(MixBand::Far)
        } else {
            None
        }
    }

    pub open spec fn tag_text(self) -> Seq<char> {
        match self {
            MixBand::Near => "near"@,
            MixBand::Mid => "mid"@,
            MixBand::High => "high"@,
            MixBand::Far => "far"@,
        }
    }

    pub fn tag(self) -> (s: &'static str)
        ensures
            s@ == self.tag_text(),
    {
        match self {
            MixBand::Near => "near",
            MixBand::Mid => "mid",
            MixBand::High => "high",
            MixBand::Far => "far",
        }
    }

    pub fn suite(self) -> (v: Vec<MixCase>)
        ensures
            case_views(v@) == band_cases(self),
    {
        let v: Vec<MixCase> = match self {
            MixBand::Near => vec![peer3(), peer5(), peer3_slow1(), peer5_slow2()],
            MixBand::Mid => vec![
                mid_peer3(),
                mid_peer5(),
                mid_peer3_slow1(),
                mid_peer5_slow2(),
            ],
            MixBand::High => vec![
                high_peer3(),
                high_peer5(),
                high_peer3_slow1(),
                high_peer5_slow2(),
            ],
            MixBand::Far => vec![
                far_peer3(),
                far_peer5(),
                far_peer3_slow1(),
                far_peer5_slow2(),
            ],
        };
        assert(case_views(v@) =~= band_cases(self));
        v
    }
}

/// The cases of the band that suites default to.
pub fn suite() -> (v: Vec<MixCase>)
    ensures
        case_views(v@) == band_cases(MixBand::Near),
{
    MixBand::Near.suite()
}

/// The cases of these bands, in order.
pub open spec fn cases_of(bands: Seq<MixBand>) -> Seq<CaseView>
    decreases bands.len(),
{
    if bands.len() == 0 {
        seq![]
    } else {
        cases_of(bands.drop_last()) + band_cases(bands.last())
    }
}

pub fn suite_for(bands: &Vec<MixBand>) -> (v: Vec<MixCase>)
    ensures
        case_views(v@) == cases_of(bands@),
{
    let mut v: Vec<MixCase> = Vec::new();
    let mut i: usize = 0;
    assert(bands@.take(0) =~= seq![]);
    assert(case_views(v@) =~= seq![]);
    while i < bands.len()
        invariant
            i <= bands@.len(),
            case_views(v@) == cases_of(bands@.take(i as int)),
        decreases bands.len() - i,
    {
        let mut more: Vec<MixCase> = bands[i].suite();
        let ghost v0 = v@;
        let ghost m0 = more@;
        v.append(&mut more);
        proof {
            assert(bands@.take(i as int + 1).drop_last() =~= bands@.take(i as int));
            assert(case_views(v@) =~= case_views(v0) + case_views(m0));
        }
        i += 1;
    }
    assert(bands@.take(bands@.len() as int) =~= bands@);
    v
}

/// The bands these words name, each once, in order of their first mention;
/// nothing where a word names none.
pub open spec fn bands_of(parts: Seq<Seq<char>>) -> Option<Seq<MixBand>>
    decreases parts.len(),
{
    if parts.len() == 0 {
        Some(seq![])
    } else {
        match bands_of(parts.drop_last()) {
            Some(v) => match band_of(parts.last()) {
                Some(b) => if v.contains(b) {
                    Some(v)
                } else {
                    Some(v.push(b))
                },
                None => None,
            },
            None => None,
        }
    }
}

/// What a list of bands stands for: `all`, or words between commas.
pub open spec fn bands_in(s: Seq<char>) -> Option<Seq<MixBand>> {
    let w = lowered(trimmed(s, white_fn()));
    if w.len() == 0 {
        None
    } else if w == "all"@ {
        Some(all_bands())
    } else {
        bands_of(split_commas(w))
    }
}

fn has_band(v: &Vec<MixBand>, b: MixBand) -> (r: bool)
    ensures
        r == v@.contains(b),
{
    let mut i: usize = 0;
    while i < v.len()
        invariant
            i <= v@.len(),
            forall|k: int| 0 <= k < i ==> v@[k] != b,
        decreases v.len() - i,
    {
        if v[i] == b {
            return true;
        }
        i += 1;
    }
    false
}

/// `near`, `mid`, `high`, `far`, lists of them, or `all`.
pub fn parse_bands(s: &str) -> (r: Option<Vec<MixBand>>)
    ensures
        match r {
            Some(v) => bands_in(s@) == Some(v@),
            None => bands_in(s@) is None,
        },
{
    let word: String = lower_text(trim_white(s));
    let w: &str = word.as_str();
    if w.unicode_len() == 0 {
        return None;
    }
    if str_eq(w, "all") {
        return Some(MixBand::all());
    }
    let parts: Vec<String> = split_at_commas(w);
    let ghost pv = views(parts@);
    let mut out: Vec<MixBand> = Vec::new();
    let mut i: usize = 0;
    assert(pv.take(0) =~= seq![]);
    while i < parts.len()
        invariant
            i <= parts@.len(),
            pv == views(parts@),
            bands_in(s@) == bands_of(pv),
            bands_of(pv.take(i as int)) == Some(out@),
        decreases parts.len() - i,
    {
        assert(pv.take(i as int + 1).drop_last() =~= pv.take(i as int));
        match MixBand::parse(parts[i].as_str()) {
            Some(b) => {
                if !has_band(&out, b) {
                    out.push(b);
                }
            },
            None => {
                proof {
                    lemma_bad_part(pv, i as int);
                }
                return None;
            },
        }
        i += 1;
    }
    proof {
        assert(pv.take(pv.len() as int) =~= pv);
    }
    Some(out)
}

/// One word that names no band spoils the list.
proof fn lemma_bad_part(parts: Seq<Seq<char>>, i: int)
    requires
        0 <= i < parts.len(),
        band_of(parts[i]) is None,
    ensures
        bands_of(parts) is None,
    decreases parts.len(),
{
    if i < parts.len() - 1 {
        assert(parts.drop_last()[i] == parts[i]);
        lemma_bad_part(parts.drop_last(), i);
    }
}

// ---------------------------------------------------------------------------
// Options
// ---------------------------------------------------------------------------
pub struct MixedOpts {
    pub duration_us: u64,
    pub harsh: bool,
    pub jobs: usize,
    pub filter: Option<String>,
    /// Empty means near.
    pub bands: Vec<MixBand>,
}

impl MixedOpts {
    /// A suite of this length on the near band, with the given parallelism.
    pub fn suite(duration_us: u64, jobs: usize) -> (o: Self)
        ensures
            o.duration_us == duration_us,
            !o.harsh,
            o.jobs == jobs,
            o.filter is None,
            o.bands@ == seq![MixBand::Near],
    {
        let bands: Vec<MixBand> = vec![MixBand::Near];
        assert(bands@ =~= seq![MixBand::Near]);
        MixedOpts { duration_us, harsh: false, jobs, filter: None, bands }
    }

    /// The bands in force.
    pub open spec fn bands_used(self) -> Seq<MixBand> {
        if self.bands@.len() == 0 {
            seq![MixBand::Near]
        } else {
            self.bands@
        }
    }

    /// What a case's name must hold, where a filter is set.
    pub open spec fn pattern(self) -> Option<Seq<char>> {
        match self.filter {
            Some(f) => Some(f@),
            None => None,
        }
    }

    /// The cases that run: those of the bands, by name where a filter is set.
    pub fn select(&self) -> (v: Vec<MixCase>)
        ensures
            case_views(v@) == filtered(cases_of(self.bands_used()), self.pattern()),
    {
        let mut bands: Vec<MixBand> = Vec::new();
        if self.bands.len() == 0 {
            bands.push(MixBand::Near);
        } else {
            let mut i: usize = 0;
            while i < self.bands.len()
                invariant
                    i <= self.bands@.len(),
                    bands@ == self.bands@.take(i as int),
                decreases self.bands.len() - i,
            {
                bands.push(self.bands[i]);
                i += 1;
            }
            assert(self.bands@.take(self.bands@.len() as int) =~= self.bands@);
        }
        assert(bands@ =~= self.bands_used());
        let mut all: Vec<MixCase> = suite_for(&bands);
        let ghost av = case_views(all@);
        let ghost pat = self.pattern();
        // from the back, so that the kept cases end up in order
        let mut kept: Vec<MixCase> = Vec::new();
        let ghost mut n: int = all@.len() as int;
        assert(av.skip(n) =~= seq![]);
        assert(case_views(kept@).reverse() =~= seq![]);
        while all.len() > 0
            invariant
                n == all@.len(),
                n <= av.len(),
                case_views(all@) == av.take(n),
                pat == self.pattern(),
                case_views(kept@).reverse() == filtered(av.skip(n), pat),
            decreases all.len(),
        {
            let ghost before = all@;
            let ghost k0 = case_views(kept@);
            match all.pop() {
                Some(c) => {
                    let ghost cv = c@;
                    proof {
                        assert(cv == case_views(before)[n - 1]);
                        assert(av.take(n)[n - 1] == av[n - 1]);
                        lemma_filter_front(av.skip(n - 1), pat);
                        assert(av.skip(n - 1).skip(1) =~= av.skip(n));
                        assert(av.skip(n - 1)[0] == cv);
                    }
                    let hit: bool = match &self.filter {
                        Some(f) => crate::text::contains_text(c.name, f.as_str()),
                        None => true,
                    };
                    if hit {
                        kept.push(c);
                        assert(case_views(kept@) =~= k0.push(cv));
                        assert(case_views(kept@).reverse() =~= seq![cv] + k0.reverse());
                    }
                    proof {
                        n = n - 1;
                        assert(case_views(all@) =~= av.take(n));
                    }
                },
                None => {},
            }
        }
        assert(av.skip(0) =~= av);
        let ghost rev = kept@;
        let mut out: Vec<MixCase> = Vec::new();
        while kept.len() > 0
            invariant
                kept@.len() + out@.len() == rev.len(),
                out@ == rev.skip(kept@.len() as int).reverse(),
                kept@ == rev.take(kept@.len() as int),
            decreases kept.len(),
        {
            let ghost kl = kept@.len() as int;
            match kept.pop() {
                Some(c) => {
                    out.push(c);
                    proof {
                        assert(out@ =~= rev.skip(kl - 1).reverse());
                        assert(kept@ =~= rev.take(kl - 1));
                    }
                },
                None => {},
            }
        }
        proof {
            assert(rev.skip(0) =~= rev);
            assert(case_views(out@) =~= case_views(rev).reverse());
        }
        out
    }

    /// How many cases run at once: what was asked for, at least one, at most
    /// as many as there are.
    pub fn jobs_for(&self, selected: usize) -> (n: usize)
        ensures
            n == crate::num::smaller(
                larger(self.jobs as int, 1),
                larger(selected as int, 1),
            ),
    {
        let asked: usize = if self.jobs > 1 {
            self.jobs
        } else {
            1
        };
        let most: usize = if selected > 1 {
            selected
        } else {
            1
        };
        if asked <= most {
            asked
        } else {
            most
        }
    }
}

/// The cases whose name holds the pattern, in order.
pub open spec fn filtered(cases: Seq<CaseView>, pat: Option<Seq<char>>) -> Seq<CaseView>
    decreases cases.len(),
{
    if cases.len() == 0 {
        seq![]
    } else if pat is None || crate::text::occurs(cases[0].name, pat->0) {
        seq![cases[0]] + filtered(cases.skip(1), pat)
    } else {
        filtered(cases.skip(1), pat)
    }
}

proof fn lemma_filter_front(cases: Seq<CaseView>, pat: Option<Seq<char>>)
    requires
        cases.len() > 0,
    ensures
        filtered(cases, pat) == if pat is None || crate::text::occurs(cases[0].name, pat->0) {
            seq![cases[0]] + filtered(cases.skip(1), pat)
        } else {
            filtered(cases.skip(1), pat)
        },
{
}

// ---------------------------------------------------------------------------
// Laws
// ---------------------------------------------------------------------------
/// The window of a band's peers.
pub open spec fn window_of(b: MixBand) -> (u64, u64) {
    match b {
        MixBand::Near => (11, 16),
        MixBand::Mid => (60, 100),
        MixBand::High => (120, 150),
        MixBand::Far => (160, 200),
    }
}

/// A link keeps to its band: a peer within the window, a slow link above it.
pub open spec fn in_window(l: LinkView, b: MixBand) -> bool {
    let (lo, hi) = window_of(b);
    if l.role is Peer {
        lo <= l.rtt_ms <= hi
    } else {
        l.rtt_ms > hi
    }
}

/// Every band has four cases, and every link of every case keeps to its band.
pub proof fn law_bands_keep_their_windows(b: MixBand, i: int, j: int)
    requires
        0 <= i < band_cases(b).len(),
        0 <= j < band_cases(b)[i].links.len(),
    ensures
        band_cases(b).len() == 4,
        in_window(band_cases(b)[i].links[j], b),
{
}

/// A case has as many ping streams as peers, and a bulk stream per slow link.
pub proof fn law_streams_match_links(b: MixBand, i: int)
    requires
        0 <= i < band_cases(b).len(),
    ensures
        peer_names(band_cases(b)[i].links).len() == band_cases(b)[i].ping_streams,
        band_cases(b)[i].links.len() == band_cases(b)[i].ping_streams
            + band_cases(b)[i].bulk_streams,
{
    reveal_with_fuel(peer_names, 8);
}

proof fn lemma_plain_word(w: Seq<char>)
    requires
        w.len() > 0,
        forall|i: int|
            0 <= i < w.len() ==> !crate::tls::is_white(#[trigger] w[i]) && crate::text::lower(w[i])
                == w[i],
    ensures
        lowered(trimmed(w, white_fn())) == w,
{
    assert(trimmed(w, white_fn()) == w);
    assert(lowered(w) =~= w);
}

/// The tag of a band names that band.
pub proof fn law_tags_are_read_back(b: MixBand)
    ensures
        band_of(b.tag_text()) == Some(b),
{
    reveal_strlit("near");
    reveal_strlit("lab");
    reveal_strlit("mid");
    reveal_strlit("60");
    reveal_strlit("60-100");
    reveal_strlit("high");
    reveal_strlit("120");
    reveal_strlit("120-150");
    reveal_strlit("far");
    lemma_plain_word(b.tag_text());
    assert("near"@[0] == 'n' && "mid"@[0] == 'm' && "high"@[0] == 'h' && "far"@[0] == 'f');
    assert("lab"@[0] == 'l');
    assert("60"@[0] == '6' && "60-100"@[0] == '6' && "120"@[0] == '1' && "120-150"@[0] == '1');
}

/// A list of bands never names one twice.
pub proof fn law_bands_are_listed_once(parts: Seq<Seq<char>>)
    requires
        bands_of(parts) is Some,
    ensures
        bands_of(parts)->0.no_duplicates(),
    decreases parts.len(),
{
    if parts.len() > 0 {
        law_bands_are_listed_once(parts.drop_last());
    }
}

} // verus!
