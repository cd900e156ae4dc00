//! The solver's randomness, an explicitly owned generator: rand's `StdRng`,
//! seedable for reproducible runs, passed by exclusive reference into the
//! construction and search phases.

use vstd::prelude::*;

verus! {

/// Declares rand's `StdRng` so that it can stand in signatures; its values
/// are opaque to the verifier.
#[verifier::external_type_specification]
#[verifier::external_body]
pub struct ExStdRng(rand::rngs::StdRng);

/// Relies on rand's `RngExt::random_range` over `0..bound`: it panics only on
/// an empty range, and returns a value of the range.  Nothing more is claimed:
/// two calls on equal arguments may differ.
#[verifier::external_body]
pub(crate) fn rand_below(rng: &mut rand::rngs::StdRng, bound: usize) -> (r: usize)
    requires
        bound >= 1,
    ensures
        r < bound,
{
    rand::RngExt::random_range(rng, 0..bound)
}

} // verus!
