use vstd::prelude::*;
use rand::rngs::StdRng;
use rand::Rng;

verus! {

/// The seedable generator of the `rand` crate. The library never looks
/// inside it: it only hands it to `random_between`.
#[verifier::external_type_specification]
#[verifier::external_body]
pub struct ExStdRng(StdRng);

/// Calls `rand::Rng::gen_range` with the inclusive range `low..=high`.
/// Trusted, not proved: the number drawn lies in that range. `gen_range`
/// panics on an empty range, so `low <= high` is required. Nothing is
/// claimed about which number of the range comes back.
#[verifier::external_body]
fn random_between(rng: &mut StdRng, low: u64, high: u64) -> (drawn: u64)
    requires
        low <= high,
    ensures
        low <= drawn <= high,
{
    rng.gen_range(low..=high)
}

/// Draws a position below `bound`.
pub fn random_below(rng: &mut StdRng, bound: usize) -> (drawn: usize)
    requires
        bound > 0,
    ensures
        drawn < bound,
{
    let top: u64 = (bound - 1) as u64;
    random_between(rng, 0, top) as usize
}

/// Draws a threshold that separates `low` from `high`: a value `low` lies
/// strictly below it, a value `high` does not. Between two neighbouring
/// integers the only such threshold is `high` itself, so `high` is among
/// the thresholds that can be drawn.
pub fn random_split(rng: &mut StdRng, low: i64, high: i64) -> (split: i64)
    requires
        low < high,
    ensures
        low < split <= high,
{
    let span: u64 = (high as i128 - low as i128) as u64;
    let offset: u64 = random_between(rng, 0, span - 1);
    (low as i128 + 1 + offset as i128) as i64
}

} // verus!
