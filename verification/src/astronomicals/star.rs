//! Stars.

use vstd::prelude::*;

verus! {

/// A star. Each attribute is held by its binary64 encoding.
#[derive(Clone, Copy, Debug, PartialEq, Eq, Structural)]
pub struct Star {
    pub mass: u64,
    pub luminosity: u64,
    pub metalicity: u64,
}

impl Star {
    /// A star with the given attributes.
    pub fn new(mass: u64, luminosity: u64, metalicity: u64) -> (star: Star)
        ensures
            star == (Star { mass, luminosity, metalicity }),
    {
        Star { mass, luminosity, metalicity }
    }
}

} // verus!
