//! The randomness source: a seeded generator from the rand crate.
//!
//! The generator type is opaque to the verifier; the two calls the renderer
//! makes are trusted declarations whose contracts state only what holds of
//! every outcome.

use vstd::prelude::*;

verus! {

/// The rand crate's standard seedable generator, declared opaque.
#[verifier::external_type_specification]
#[verifier::external_body]
pub struct ExStdRng(rand::rngs::StdRng);

/// Relies on rand's `Rng::gen_range` over `lo..hi`: returns a uniform sample
/// of the half-open range. The range membership is all any proof here uses.
/// An empty range would make the call panic, so it is excluded.
#[verifier::external_body]
pub fn sample_range(rng: &mut rand::rngs::StdRng, lo: i64, hi: i64) -> (r: i64)
    requires
        lo < hi,
    ensures
        lo <= r < hi,
{
    rand::Rng::gen_range(rng, lo..hi)
}

} // verus!
