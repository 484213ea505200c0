//! The crate's one source of randomness, kept behind a single trusted
//! wrapper so that everything built on it is verified for every value the
//! generator can produce.

use vstd::prelude::*;

verus! {

/// Relies on `rand::thread_rng` and `rand::Rng::gen_range`: a uniformly
/// random integer drawn from `lo..=hi`. Which value comes back depends on
/// the generator's state, so nothing beyond the range is promised; a
/// non-empty range keeps `gen_range` from panicking.
#[verifier::external_body]
pub(crate) fn rand_in_range(lo: usize, hi: usize) -> (r: usize)
    requires
        lo <= hi,
    ensures
        lo <= r <= hi,
{
    rand::Rng::gen_range(&mut rand::thread_rng(), lo..=hi)
}

} // verus!
