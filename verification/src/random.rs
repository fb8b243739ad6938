use rand::Rng;
use vstd::prelude::*;

verus! {

/// `rand::random::<usize>()`: a random `usize` from the thread's generator;
/// nothing is claimed of its value.
#[verifier::external_body]
pub(crate) fn random_usize() -> usize {
    rand::random::<usize>()
}

/// `Rng::gen_range` over `low..=high` on the thread's generator; the contract
/// claims only that the result lies in the range, which rand's source
/// guarantees. `gen_range` panics on an empty range, so `low <= high` is
/// required.
#[verifier::external_body]
pub(crate) fn gen_range_inclusive(low: u8, high: u8) -> (r: u8)
    requires
        low <= high,
    ensures
        low <= r <= high,
{
    rand::thread_rng().gen_range(low..=high)
}

/// `Rng::gen_range` over `0..n` on the thread's generator; the contract claims
/// only that the result is below `n`. `gen_range` panics on an empty range, so
/// `n > 0` is required.
#[verifier::external_body]
pub(crate) fn gen_range_below(n: usize) -> (r: usize)
    requires
        n > 0,
    ensures
        r < n,
{
    rand::thread_rng().gen_range(0..n)
}

} // verus!
