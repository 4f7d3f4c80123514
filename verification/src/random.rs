//! The random sources, from `rand`.
//!
//! A generator is carried through as an opaque value. Of a generator made
//! from a seed it is said which seed made it; nothing is promised of a draw
//! but what holds of every outcome.

use rand::{Isaac64Rng, Rng, SeedableRng, StdRng};
use vstd::prelude::*;

verus! {

/// `rand::StdRng`, carried as an opaque value.
#[verifier::external_type_specification]
#[verifier::external_body]
pub struct ExStdRng(StdRng);

/// `rand::Isaac64Rng`, carried as an opaque value.
#[verifier::external_type_specification]
#[verifier::external_body]
pub struct ExIsaac64Rng(Isaac64Rng);

/// `StdRng::from_seed`, on a seed of one word.
#[verifier::external_body]
pub(crate) fn std_rng_from_seed(seed: usize) -> StdRng {
    let words: &[usize] = &[seed];
    StdRng::from_seed(words)
}

/// The generator that `Isaac64Rng::from_seed` makes of a seed of one word.
/// It reads the seed and nothing else, so one seed gives one generator.
pub uninterp spec fn isaac_seeded(seed: u64) -> Isaac64Rng;

/// `Isaac64Rng::from_seed`, on a seed of one word: the generator of that
/// seed.
#[verifier::external_body]
pub(crate) fn isaac_from_seed(seed: u64) -> (rng: Isaac64Rng)
    ensures
        rng == isaac_seeded(seed),
{
    let words: &[u64] = &[seed];
    Isaac64Rng::from_seed(words)
}

/// `Rng::choose` on a `StdRng`: one of the values, or `None` when there are
/// none.
#[verifier::external_body]
pub(crate) fn std_rng_choose<'a, T>(rng: &mut StdRng, values: &'a Vec<T>) -> (picked: Option<&'a T>)
    ensures
        picked is None <==> values@.len() == 0,
        picked matches Some(value) ==> values@.contains(*value),
{
    rng.choose(values)
}

/// `Rng::choose` on an `Isaac64Rng`: one of the values, or `None` when there
/// are none.
#[verifier::external_body]
pub(crate) fn isaac_choose<'a, T>(rng: &mut Isaac64Rng, values: &'a Vec<T>) -> (picked: Option<
    &'a T,
>)
    ensures
        picked is None <==> values@.len() == 0,
        picked matches Some(value) ==> values@.contains(*value),
{
    rng.choose(values)
}

} // verus!
