//! The single entry point to the process-wide random number generator.

use vstd::prelude::*;
use rand::Rng;

verus! {

/// Relies on `rand::Rng::gen_range` over a half-open `i64` range: the sample
/// lies in `[lo, hi)`, and the call panics only on an empty range, which the
/// precondition rules out. Nothing more is assumed of the outcome.
#[verifier::external_body]
pub(crate) fn rand_range(lo: i64, hi: i64) -> (r: i64)
    requires
        lo < hi,
    ensures
        lo <= r < hi,
{
    rand::thread_rng().gen_range(lo..hi)
}

} // verus!
