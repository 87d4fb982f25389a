use crate::position::Direction;
use rand::rngs::SmallRng;
use rand::seq::SliceRandom;
use rand::SeedableRng;
use vstd::prelude::*;

verus! {

/// An order of the four directions.
pub type DirOrder = [Direction; 4];

#[verifier::external_type_specification]
#[verifier::external_body]
pub struct ExSmallRng(rand::rngs::SmallRng);

/// Relies on `SeedableRng::seed_from_u64` for `SmallRng`: a generator whose
/// state is fixed by the seed.
#[verifier::external_body]
pub(crate) fn rng_from_seed(seed: u64) -> SmallRng {
    SmallRng::seed_from_u64(seed)
}

/// Relies on `SeedableRng::from_rng` for `SmallRng` with `OsRng`: a generator
/// seeded from the operating system's entropy source, or `None` where that
/// source reports an error.
#[verifier::external_body]
pub(crate) fn rng_from_entropy() -> Option<SmallRng> {
    SmallRng::from_rng(rand::rngs::OsRng).ok()
}

/// Relies on `SliceRandom::shuffle`: a Fisher-Yates pass of swaps, so the
/// array afterwards holds a permutation of what it held before.
#[verifier::external_body]
pub(crate) fn shuffle_directions(dirs: [Direction; 4], rng: &mut SmallRng) -> (r: DirOrder)
    ensures
        r@.to_multiset() == dirs@.to_multiset(),
{
    let mut r = dirs;
    r.shuffle(rng);
    r
}

} // verus!
