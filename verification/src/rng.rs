//! The engine's only source of randomness, used by the `Random` branching
//! strategy.

use vstd::prelude::*;

verus! {

/// Relies on rand's `thread_rng` and `Rng::gen_range` over `0..n`: the
/// drawn value lies in the (nonempty) range. Nothing more is assumed of a
/// random draw.
#[verifier::external_body]
pub(crate) fn random_below(n: usize) -> (r: usize)
    requires
        n > 0,
    ensures
        r < n,
{
    rand::Rng::gen_range(&mut rand::thread_rng(), 0..n)
}

} // verus!
