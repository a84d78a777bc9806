//! What a test bed is made of: its links, its connections and how long it may
//! take to come up.

use vstd::prelude::*;
use vstd::string::*;

use crate::impair::ImpairConfig;
use crate::mixed::{link_views, LinkSpec, LinkView, MixCase};
use crate::num::{capped, larger, max_u64, mul_capped, smaller};
use crate::text::text;

verus! {

/// Shortest time that a handshake may take, in microseconds.
pub const HANDSHAKE_FLOOR_US: u64 = 3_000_000;

/// Time that a test bed may take to come up on links without delay.
pub const READY_US: u64 = 8_000_000;

pub struct LinkCfg {
    pub name: String,
    pub cfg: ImpairConfig,
}

pub struct HarnessSpec {
    pub link_cfgs: Vec<LinkCfg>,
    /// Connections opened per link.
    pub connections: u32,
    pub psk: String,
}

/// A link, over its name.
pub struct CfgView {
    pub name: Seq<char>,
    pub cfg: ImpairConfig,
}

/// A test bed, over its names.
pub struct SpecView {
    pub links: Seq<CfgView>,
    pub connections: u32,
    pub psk: Seq<char>,
}

impl LinkCfg {
    pub open spec fn view(self) -> CfgView {
        CfgView { name: self.name@, cfg: self.cfg }
    }
}

pub open spec fn cfg_views(v: Seq<LinkCfg>) -> Seq<CfgView> {
    v.map_values(|l: LinkCfg| l@)
}

/// A link with nothing but a delay.
pub open spec fn plain_cfg(rtt_us: u64) -> ImpairConfig {
    ImpairConfig { rtt_us, jitter_us: 0, loss_ppm: 0, blackhole: false }
}

pub open spec fn plain_view(name: Seq<char>, ms: u64) -> CfgView {
    CfgView { name, cfg: plain_cfg(capped(ms * 1000) as u64) }
}

pub fn plain_link(name: &str, ms: u64) -> (l: LinkCfg)
    ensures
        l@ == plain_view(name@, ms),
{
    LinkCfg {
        name: text(name),
        cfg: ImpairConfig {
            rtt_us: mul_capped(ms, 1000),
            jitter_us: 0,
            loss_ppm: 0,
            blackhole: false,
        },
    }
}

/// The largest delay among these links.
pub open spec fn max_cfg_rtt(links: Seq<CfgView>) -> int
    decreases links.len(),
{
    if links.len() == 0 {
        0
    } else {
        larger(max_cfg_rtt(links.drop_last()), links.last().cfg.rtt_us as int)
    }
}

/// The delay that waits go by: 10 ms where there are no links.
pub open spec fn slowest_of(links: Seq<CfgView>) -> int {
    if links.len() == 0 {
        10_000
    } else {
        max_cfg_rtt(links)
    }
}

impl HarnessSpec {
    pub open spec fn view(self) -> SpecView {
        SpecView {
            links: cfg_views(self.link_cfgs@),
            connections: self.connections,
            psk: self.psk@,
        }
    }

    fn slowest(&self) -> (us: u64)
        ensures
            us == slowest_of(cfg_views(self.link_cfgs@)),
    {
        if self.link_cfgs.len() == 0 {
            return 10_000;
        }
        let ghost lv = cfg_views(self.link_cfgs@);
        let mut best: u64 = 0;
        let mut i: usize = 0;
        assert(lv.take(0) =~= seq![]);
        while i < self.link_cfgs.len()
            invariant
                i <= self.link_cfgs@.len(),
                lv == cfg_views(self.link_cfgs@),
                best == max_cfg_rtt(lv.take(i as int)),
            decreases self.link_cfgs.len() - i,
        {
            assert(lv.take(i as int + 1).drop_last() =~= lv.take(i as int));
            best = max_u64(best, self.link_cfgs[i].cfg.rtt_us);
            i += 1;
        }
        assert(lv.take(lv.len() as int) =~= lv);
        best
    }

    /// Time that a handshake may take: thirty round trips of the slowest
    /// link, at least the floor.
    pub fn handshake_timeout_us(&self) -> (us: u64)
        ensures
            us == larger(
                capped(slowest_of(self@.links) * 30),
                HANDSHAKE_FLOOR_US as int,
            ),
    {
        max_u64(mul_capped(self.slowest(), 30), HANDSHAKE_FLOOR_US)
    }

    /// Time until every path must be up.
    pub fn ready_timeout_us(&self) -> (us: u64)
        ensures
            us == capped(READY_US + slowest_of(self@.links) * 40),
    {
        let wait: u64 = mul_capped(self.slowest(), 40);
        wait.saturating_add(READY_US)
    }

    /// Connections per link; at least one.
    pub open spec fn conns(self) -> int {
        larger(self.connections as int, 1)
    }

    pub fn connections_per_link(&self) -> (n: u32)
        ensures
            n == self.conns(),
    {
        if self.connections == 0 {
            1
        } else {
            self.connections
        }
    }

    /// Paths that must be up before the test bed is ready.
    pub fn expected_paths(&self) -> (n: u64)
        ensures
            n == larger(capped(self.conns() * self.link_cfgs@.len()), 1),
    {
        let c: u32 = self.connections_per_link();
        max_u64(mul_capped(c as u64, self.link_cfgs.len() as u64), 1)
    }
}

/// The test bed that is meant where none is given.
pub open spec fn default_view() -> SpecView {
    SpecView {
        links: seq![plain_view("a"@, 10), plain_view("b"@, 60), plain_view("c"@, 150)],
        connections: 2,
        psk: "e2e-psk"@,
    }
}

impl Default for HarnessSpec {
    fn default() -> (s: Self)
        ensures
            s@ == default_view(),
    {
        let link_cfgs: Vec<LinkCfg> = vec![
            plain_link("a", 10),
            plain_link("b", 60),
            plain_link("c", 150),
        ];
        assert(cfg_views(link_cfgs@) =~= default_view().links);
        HarnessSpec { link_cfgs, connections: 2, psk: text("e2e-psk") }
    }
}

/// A link of a mixed case.
pub open spec fn case_link(l: LinkView) -> CfgView {
    CfgView {
        name: l.name,
        cfg: ImpairConfig {
            rtt_us: capped(l.rtt_ms * 1000) as u64,
            jitter_us: capped(l.jitter_ms * 1000) as u64,
            loss_ppm: l.loss_ppm,
            blackhole: false,
        },
    }
}

impl MixCase {
    /// The test bed of this case.
    pub fn spec(&self) -> (s: HarnessSpec)
        ensures
            s@ == (SpecView {
                links: self@.links.map_values(|l: LinkView| case_link(l)),
                connections: self.connections,
                psk: "e2e-psk"@,
            }),
    {
        let ghost want = self@.links.map_values(|l: LinkView| case_link(l));
        let mut link_cfgs: Vec<LinkCfg> = Vec::new();
        let mut i: usize = 0;
        assert(cfg_views(link_cfgs@) =~= want.take(0));
        while i < self.links.len()
            invariant
                i <= self.links@.len(),
                want == self@.links.map_values(|l: LinkView| case_link(l)),
                cfg_views(link_cfgs@) == want.take(i as int),
            decreases self.links.len() - i,
        {
            let l: LinkSpec = self.links[i];
            let ghost before = cfg_views(link_cfgs@);
            let c: LinkCfg = LinkCfg {
                name: text(l.name),
                cfg: ImpairConfig {
                    rtt_us: mul_capped(l.rtt_ms, 1000),
                    jitter_us: mul_capped(l.jitter_ms, 1000),
                    loss_ppm: l.loss_ppm,
                    blackhole: false,
                },
            };
            let ghost cv = c@;
            link_cfgs.push(c);
            assert(cfg_views(link_cfgs@) =~= before.push(cv));
            assert(cv == case_link(link_views(self.links@)[i as int]));
            assert(cfg_views(link_cfgs@) =~= want.take(i as int + 1));
            i += 1;
        }
        assert(want.take(want.len() as int) =~= want);
        HarnessSpec { link_cfgs, connections: self.connections, psk: text("e2e-psk") }
    }
}

// ---------------------------------------------------------------------------
// Parallelism
// ---------------------------------------------------------------------------
/// How many isolated test beds run at once on a machine with this much
/// parallelism; eight is taken where it is not known.
pub fn default_jobs(parallelism: Option<usize>) -> (n: usize)
    ensures
        n == crate::num::within(
            match parallelism {
                Some(p) => p as int,
                None => 8,
            },
            2,
            16,
        ),
{
    let p: usize = match parallelism {
        Some(p) => p,
        None => 8,
    };
    if p < 2 {
        2
    } else if p > 16 {
        16
    } else {
        p
    }
}

/// What was asked for; where nothing was, the default, and at most four of
/// the mixed suite, whose links are heavy on timers.
pub fn choose_jobs(asked: usize, mixed: bool, default: usize) -> (n: usize)
    ensures
        n == if asked != 0 {
            asked as int
        } else if mixed {
            smaller(default as int, 4)
        } else {
            default as int
        },
{
    if asked != 0 {
        asked
    } else if mixed && default > 4 {
        4
    } else {
        default
    }
}

/// Length of the mixed suite: what was asked for, or a quarter of an hour.
pub fn mixed_duration_us(secs: Option<u64>) -> (us: u64)
    ensures
        us == capped(
            1_000_000 * match secs {
                Some(s) => s as int,
                None => 900,
            },
        ),
{
    mul_capped(
        match secs {
            Some(s) => s,
            None => 900,
        },
        1_000_000,
    )
}

} // verus!
