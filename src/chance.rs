//! The random source: every stochastic decision draws from a seeded `StdRng`.
use rand::Rng;
use rand::SeedableRng;
use vstd::prelude::*;

verus! {

/// rand's `StdRng`, carried through the universe as an opaque value.
#[verifier::external_type_specification]
#[verifier::external_body]
pub struct ExStdRng(rand::rngs::StdRng);

/// Relies on rand's `SeedableRng::seed_from_u64`: a generator determined by `seed`.
#[verifier::external_body]
pub(crate) fn seeded_rng(seed: u64) -> (r: rand::rngs::StdRng) {
    rand::rngs::StdRng::seed_from_u64(seed)
}

/// Relies on rand's `Rng::gen_range(low, high)` on `u64` (`UniformInt::sample_single`):
/// a value in `[low, high)`; it panics only when `low >= high`, which `requires` leaves out.
#[verifier::external_body]
pub(crate) fn draw_below(rng: &mut rand::rngs::StdRng, n: u64) -> (r: u64)
    requires
        n > 0,
    ensures
        r < n,
{
    rng.gen_range(0, n)
}

} // verus!
