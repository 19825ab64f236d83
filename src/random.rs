//! The random source of one growth run.
use vstd::prelude::*;
use rand::rngs::SmallRng;
use rand::Rng;
use rand::RngCore;
use rand::SeedableRng;

verus! {

#[verifier::external_type_specification]
#[verifier::external_body]
pub struct ExSmallRng(SmallRng);

/// Relies on `SeedableRng::seed_from_u64` for `SmallRng`: a generator whose
/// stream is fixed by the seed.
#[verifier::external_body]
pub(crate) fn seeded_rng(seed: u64) -> SmallRng {
    SmallRng::seed_from_u64(seed)
}

/// Relies on `SmallRng::from_rng` over `OsRng`: a generator seeded from the
/// operating system, or nothing where the system has no entropy to give.
#[verifier::external_body]
pub(crate) fn entropy_rng() -> Option<SmallRng> {
    SmallRng::from_rng(rand::rngs::OsRng).ok()
}

/// Relies on `Rng::gen_range` over `lo..=hi`: a value of that range (it
/// panics on an empty one, which `requires` leaves out).
#[verifier::external_body]
pub(crate) fn draw_in(rng: &mut SmallRng, lo: usize, hi: usize) -> (r: usize)
    requires
        lo <= hi,
    ensures
        lo <= r <= hi,
{
    rng.gen_range(lo..=hi)
}

/// Relies on `RngCore::next_u32`: any 32-bit word.
#[verifier::external_body]
pub(crate) fn draw_word(rng: &mut SmallRng) -> u32 {
    rng.next_u32()
}

} // verus!
