//! Planets.

use vstd::prelude::*;

verus! {

/// The kinds of planet.
#[derive(Clone, Copy, Debug, PartialEq, Eq, Structural)]
pub enum PlanetType {
    MetalRich,
    Icy,
    Rocky,
    GasGiant,
    EarthLike,
    Water,
    WaterGiant,
}

/// A planet. Each real-valued attribute is held by its binary64 encoding.
///
/// A planet is made without a name and with a surface temperature of nought;
/// both are set once the star it circles is known.
#[derive(Debug)]
pub struct Planet {
    pub name: String,
    pub mass: u64,
    pub gravity: u64,
    pub orbit_distance: u64,
    pub surface_temperature: u64,
    pub planet_type: PlanetType,
}

impl Planet {
    /// A rocky planet of the given mass and distance from its star, whose
    /// gravity is its mass.
    pub fn new(mass: u64, orbit_distance: u64) -> (planet: Planet)
        ensures
            planet.name@ == Seq::<char>::empty(),
            planet.mass == mass,
            planet.gravity == mass,
            planet.orbit_distance == orbit_distance,
            planet.surface_temperature == 0,
            planet.planet_type == PlanetType::Rocky,
    {
        Planet {
            name: String::new(),
            mass,
            gravity: mass,
            orbit_distance,
            surface_temperature: 0,
            planet_type: PlanetType::Rocky,
        }
    }

    /// Whether `other` is this planet under another name.
    pub open spec fn same_body(&self, other: &Planet) -> bool {
        &&& self.mass == other.mass
        &&& self.gravity == other.gravity
        &&& self.orbit_distance == other.orbit_distance
        &&& self.surface_temperature == other.surface_temperature
        &&& self.planet_type == other.planet_type
    }

    /// Gives the planet its name.
    pub fn set_name(&mut self, name: String)
        ensures
            final(self).name == name,
            final(self).same_body(old(self)),
    {
        self.name = name;
    }

    /// Records the surface temperature, as computed from the luminosity of
    /// the star and the distance of the orbit.
    pub fn set_surface_temperature(&mut self, temperature: u64)
        ensures
            final(self).surface_temperature == temperature,
            final(self).name == old(self).name,
            final(self).mass == old(self).mass,
            final(self).gravity == old(self).gravity,
            final(self).orbit_distance == old(self).orbit_distance,
            final(self).planet_type == old(self).planet_type,
    {
        self.surface_temperature = temperature;
    }
}

} // verus!
