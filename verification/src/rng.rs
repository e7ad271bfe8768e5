//! The crate's one source of randomness, behind a thin trusted seam.

use vstd::prelude::*;

verus! {

#[verifier::external_type_specification]
#[verifier::external_body]
pub struct ExRng(fastrand::Rng);

/// Relies on `fastrand::Rng::usize` with the range `..n`: the result is a
/// value below `n`.  An empty range makes that call panic, which `n > 0`
/// excludes; nothing is promised about which value comes back.
#[verifier::external_body]
pub(crate) fn rng_below(rng: &mut fastrand::Rng, n: usize) -> (r: usize)
    requires
        n > 0,
    ensures
        r < n,
{
    rng.usize(..n)
}

} // verus!
