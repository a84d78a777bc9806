//! What an operator sets, and the wire limits a session runs under.

use vstd::prelude::*;

use crate::tuning::{standard_table, Tuning};

verus! {

#[derive(Clone, Copy, Debug, PartialEq, Eq, Structural)]
pub struct SessionConfig {
    /// Bounds of the probe interval.
    pub ping_interval_min: u64,
    pub ping_interval_max: u64,
    /// How long a session outlives its last path.
    pub all_down_timeout: u64,
    pub max_paths: usize,
    /// How long a half-closed stream is kept.
    pub close_linger: u64,
    /// Longest STREAM_DATA payload.
    pub max_stream_payload: usize,
    /// Most SACK ranges in one STREAM_ACK.
    pub max_sack_ranges: usize,
    pub tuning: Tuning,
}

impl SessionConfig {
    /// Multipliers have denominators, queues have a slot, frames carry a byte.
    pub open spec fn wf(self) -> bool {
        &&& self.tuning.wf()
        &&& 1 <= self.tuning.chan <= u32::MAX
        &&& self.max_stream_payload >= 1
    }

    pub open spec fn linger_ms(self) -> int {
        self.close_linger as int / 1000
    }
}

/// The operator defaults: 10 and 50 ms probes, 8 s all-down budget, 32 paths.
/// The linger and the wire limits come from the caller.
pub fn default_config(
    close_linger: u64,
    max_stream_payload: usize,
    max_sack_ranges: usize,
) -> (cfg: SessionConfig)
    ensures
        cfg == (SessionConfig {
            ping_interval_min: 10_000,
            ping_interval_max: 50_000,
            all_down_timeout: 8_000_000,
            max_paths: 32,
            close_linger,
            max_stream_payload,
            max_sack_ranges,
            tuning: standard_table(),
        }),
        max_stream_payload >= 1 ==> cfg.wf(),
{
    SessionConfig {
        ping_interval_min: 10_000,
        ping_interval_max: 50_000,
        all_down_timeout: 8_000_000,
        max_paths: 32,
        close_linger,
        max_stream_payload,
        max_sack_ranges,
        tuning: Tuning::standard(),
    }
}

} // verus!
