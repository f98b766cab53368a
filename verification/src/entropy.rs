//! The boundary to the `rand` crate: the uniform integer sampling that the
//! random shape constructors use.

use rand::Rng;
use vstd::prelude::*;

verus! {

/// Relies on `rand::thread_rng` and `rand::Rng::gen_range`: the call returns
/// a uniform sample in `[lo, hi)`; it panics only on an empty range, which
/// the precondition excludes.
#[verifier::external_body]
pub fn random_in_range(lo: i32, hi: i32) -> (r: i32)
    requires
        lo < hi,
    ensures
        lo <= r < hi,
{
    rand::thread_rng().gen_range(lo..hi)
}

} // verus!
