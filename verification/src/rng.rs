//! Trusted boundary to the `rand` crate: the model's only source of
//! randomness. Nothing is assumed of the values drawn beyond their range.

use vstd::prelude::*;
use rand::Rng;
use rand::SeedableRng;

verus! {

#[verifier::external_type_specification]
#[verifier::external_body]
pub struct ExStdRng(rand::rngs::StdRng);

/// Relies on `rand::SeedableRng::seed_from_u64`: builds a generator whose
/// draws are determined by the seed.
#[verifier::external_body]
pub(crate) fn seeded_rng(seed: u64) -> rand::rngs::StdRng {
    rand::rngs::StdRng::seed_from_u64(seed)
}

/// Relies on `rand::SeedableRng::from_entropy`: builds a generator from
/// operating-system entropy. The call panics if the operating system's
/// entropy source fails; seeded construction avoids that path.
#[verifier::external_body]
pub(crate) fn entropy_rng() -> rand::rngs::StdRng {
    rand::rngs::StdRng::from_entropy()
}

/// Relies on `rand::Rng::gen_range`: returns a value drawn from `[0, n)`;
/// it panics only on an empty range, which the precondition rules out.
#[verifier::external_body]
pub(crate) fn rand_index(rng: &mut rand::rngs::StdRng, n: usize) -> (r: usize)
    requires
        n >= 1,
    ensures
        r < n,
{
    rng.gen_range(0..n)
}

} // verus!
