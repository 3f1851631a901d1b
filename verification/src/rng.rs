use vstd::prelude::*;

verus! {

/// Declares rand's standard generator so that verified code can hold one
/// and thread it through every randomized operation; Verus treats a value
/// of it as opaque.
#[verifier::external_type_specification]
#[verifier::external_body]
pub struct ExStdRng(rand::rngs::StdRng);

/// Relies on rand's SeedableRng::seed_from_u64: builds a deterministic
/// generator from the given seed, for reproducible runs and tests.
#[verifier::external_body]
pub fn rng_from_seed(seed: u64) -> rand::rngs::StdRng {
    <rand::rngs::StdRng as rand::SeedableRng>::seed_from_u64(seed)
}

/// Relies on rand's Rng::gen_range: a uniformly random index strictly
/// below `n`. It panics only on an empty range, which the precondition
/// excludes; nothing more can be promised of a random draw.
#[verifier::external_body]
pub fn rand_below(rng: &mut rand::rngs::StdRng, n: usize) -> (r: usize)
    requires
        n >= 1,
    ensures
        r < n,
{
    rand::Rng::gen_range(rng, 0..n)
}

/// Relies on rand's Rng::gen_ratio: true with probability 1 in `k`. It
/// panics only when the denominator is zero, which the precondition
/// excludes; nothing can be promised of the outcome itself.
#[verifier::external_body]
pub fn rand_one_in(rng: &mut rand::rngs::StdRng, k: u32) -> bool
    requires
        k >= 1,
{
    rand::Rng::gen_ratio(rng, 1, k)
}

} // verus!
