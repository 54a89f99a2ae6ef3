//! Random numbers from `rand`'s thread-local generator. Nothing is promised
//! of a drawn word beyond its type and, for a range, its bounds.
use vstd::prelude::*;
use rand::Rng;
use rand::rngs::ThreadRng;

verus! {

#[verifier::external_type_specification]
#[verifier::external_body]
pub struct ExThreadRng(ThreadRng);

/// `rand::thread_rng`: a handle on the thread's generator. (It panics only if
/// the operating system gives no seed, which no argument can rule out.)
#[verifier::external_body]
pub(crate) fn thread_rng() -> ThreadRng {
    rand::thread_rng()
}

/// `Rng::gen::<u64>`: a uniformly drawn word; any value can come back.
#[verifier::external_body]
pub(crate) fn gen_u64(rng: &mut ThreadRng) -> u64 {
    rng.gen::<u64>()
}

/// `Rng::gen_range(lo..hi)` on `u64`: a value in `lo..hi`. The range must
/// not be empty, else the call panics.
#[verifier::external_body]
pub(crate) fn gen_range_u64(rng: &mut ThreadRng, lo: u64, hi: u64) -> (r: u64)
    requires
        lo < hi,
    ensures
        lo <= r < hi,
{
    rng.gen_range(lo..hi)
}

} // verus!
