//! The library's only window onto the rand crate: an opaque generator type
//! and one bounded draw. Randomized centroid initialization threads a
//! caller-supplied generator through the clustering entry point, so a run
//! is reproducible from a caller-chosen seed.

use vstd::prelude::*;

verus! {

/// Declares rand's standard generator `rand::rngs::StdRng` to the verifier.
/// Values of it are opaque; callers construct one with rand's
/// `SeedableRng` methods.
#[verifier::external_type_specification]
#[verifier::external_body]
pub struct ExStdRng(rand::rngs::StdRng);

/// Relies on rand's `Rng::gen_range` over the inclusive range `lo..=hi`: it
/// panics on an empty range (ruled out here) and otherwise returns a value
/// within the range. Nothing more is assumed of the draw — two calls with
/// equal arguments may differ — so callers state only what holds of every
/// outcome.
#[verifier::external_body]
pub(crate) fn gen_range_inclusive(rng: &mut rand::rngs::StdRng, lo: i64, hi: i64) -> (r: i64)
    requires
        lo <= hi,
    ensures
        lo <= r <= hi,
{
    rand::Rng::gen_range(rng, lo..=hi)
}

} // verus!
