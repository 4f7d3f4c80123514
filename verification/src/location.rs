//! Points in space, held by the encodings of their coordinates.

use vstd::prelude::*;

verus! {

/// A point in three-dimensional space.
///
/// Each field is the IEEE-754 binary64 encoding of one coordinate. Two
/// locations are equal exactly when their encodings are equal, so equality is
/// total and a location can key a map or seed a generator.
#[derive(Clone, Copy, Debug, PartialEq, Eq, Structural, Hash)]
pub struct Location {
    pub x: u64,
    pub y: u64,
    pub z: u64,
}

impl Location {
    /// The location with the given encodings of its coordinates.
    pub open spec fn from_encodings(bits: (u64, u64, u64)) -> Location {
        Location { x: bits.0, y: bits.1, z: bits.2 }
    }

    /// The encodings of the coordinates, in axis order.
    pub open spec fn encodings(self) -> (u64, u64, u64) {
        (self.x, self.y, self.z)
    }

    /// Taking a location apart and putting it together again gives the
    /// location back, and the other way round: a location and the encodings
    /// of its coordinates stand for each other.
    pub proof fn lemma_round_trip(location: Location, bits: (u64, u64, u64))
        ensures
            Location::from_encodings(location.encodings()) == location,
            Location::from_encodings(bits).encodings() == bits,
            Location::from_encodings(bits) == location <==> bits == location.encodings(),
    {
    }

    /// A location from the encodings of its coordinates.
    pub fn new(x: u64, y: u64, z: u64) -> (location: Location)
        ensures
            location == Location::from_encodings((x, y, z)),
    {
        Location { x, y, z }
    }

    /// The encodings of the coordinates, in axis order.
    pub fn coordinates(&self) -> (bits: (u64, u64, u64))
        ensures
            bits == self.encodings(),
    {
        (self.x, self.y, self.z)
    }
}

} // verus!
