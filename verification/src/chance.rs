//! Random draws.

use vstd::prelude::*;

verus! {

/// The seeded generator that draws come from.
#[verifier::external_type_specification]
#[verifier::external_body]
pub struct ExStdRng(rand::rngs::StdRng);

/// `rand`'s `Rng::gen_range` over `lo ..= hi`: any number of the range, which
/// one is left to chance.
#[verifier::external_body]
pub(crate) fn draw(rng: &mut rand::rngs::StdRng, lo: u64, hi: u64) -> (r: u64)
    requires
        lo <= hi,
    ensures
        lo <= r <= hi,
{
    rand::Rng::gen_range(rng, lo..=hi)
}

/// A number of `lo ..= hi`; `lo` where the range is empty or a single number.
pub fn pick_ms(rng: &mut rand::rngs::StdRng, lo: u64, hi: u64) -> (r: u64)
    ensures
        lo <= r,
        r <= hi || r == lo,
{
    if hi <= lo {
        lo
    } else {
        draw(rng, lo, hi)
    }
}

} // verus!
