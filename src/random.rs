use vstd::prelude::*;
use rand::Rng;
use rand_distr::Distribution;

verus! {

/// Relies on rand's `Rng::gen_range` over `thread_rng`: for a half-open
/// integer range `lo..hi` with `lo < hi` it returns a value inside it (it
/// panics on an empty range, which `requires` leaves out).
#[verifier::external_body]
pub(crate) fn random_index(n: usize) -> (r: usize)
    requires
        n > 0,
    ensures
        r < n,
{
    rand::thread_rng().gen_range(0..n)
}

/// Relies on rand's `Rng::gen_range` over `thread_rng` for `i64`: a value in
/// the half-open range `lo..hi`.
#[verifier::external_body]
pub(crate) fn random_between(lo: i64, hi: i64) -> (r: i64)
    requires
        lo < hi,
    ensures
        lo <= r < hi,
{
    rand::thread_rng().gen_range(lo..hi)
}

/// Relies on `rand::distributions::Uniform::new(0, n)` sampled through
/// `rand_distr::Distribution::sample_iter`: `k` draws, each in `0..n`, with
/// replacement (`Uniform::new` panics when `n` is zero).
#[verifier::external_body]
pub(crate) fn random_indices(n: usize, k: usize) -> (r: Vec<usize>)
    requires
        n > 0,
    ensures
        r@.len() == k,
        forall|i: int| 0 <= i < k ==> #[trigger] r@[i] < n,
{
    rand::distributions::Uniform::new(0, n).sample_iter(rand::thread_rng()).take(k).collect()
}

} // verus!
