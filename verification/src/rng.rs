//! The randomness source used when a polynomial is generated.

use rand::Rng;
use vstd::prelude::*;

verus! {

/// Draws one value uniformly from `[lo, hi)`.
///
/// Relies on `rand::Rng::gen_range` on the thread-local generator: for a
/// non-empty half-open range it returns a value inside that range (and
/// panics on an empty one, which the precondition rules out).  Nothing
/// more can be said of a random draw, so callers state only the range.
#[verifier::external_body]
pub(crate) fn rand_range(lo: u64, hi: u64) -> (r: u64)
    requires
        lo < hi,
    ensures
        lo <= r < hi,
{
    rand::thread_rng().gen_range(lo..hi)
}

} // verus!
