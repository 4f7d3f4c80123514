//! Stars, planets, the systems they form, and the galaxy that indexes them.

use crate::astronomicals::system::System;
use crate::binary64::{truncate_product, truncated_product};
use crate::location::Location;
use crate::location_map::{pairing, LocationMap};
use crate::order::{is_ranking, rank, ranking_of, reversed};
use crate::random::{isaac_from_seed, isaac_seeded};
use rand::Isaac64Rng;
use vstd::prelude::*;

pub mod planet;
pub mod star;
pub mod system;

verus! {

/// The factor by which the spatial hash scales each axis.
pub const HASH_FACTORS: (u64, u64, u64) = (73856093, 19349663, 83492791);

/// The spatial hash of a location: each coordinate times the factor of its
/// axis, cut down to its whole part, and the three combined by exclusive or.
pub open spec fn spatial_hash(location: Location) -> u64 {
    truncated_product(location.x, HASH_FACTORS.0) ^ truncated_product(location.y, HASH_FACTORS.1)
        ^ truncated_product(location.z, HASH_FACTORS.2)
}

/// Computes the spatial hash, which seeds the generation of the system at
/// `location`.
pub fn hash(location: &Location) -> (h: u64)
    ensures
        h == spatial_hash(*location),
{
    let x = truncate_product(location.x, HASH_FACTORS.0);
    let y = truncate_product(location.y, HASH_FACTORS.1);
    let z = truncate_product(location.z, HASH_FACTORS.2);
    x ^ y ^ z
}

/// The random source of a location, seeded by the spatial hash of the
/// location and by nothing else: whatever was generated before, the draws for
/// a location begin from the same generator.
pub fn seed(location: &Location) -> (rng: Isaac64Rng)
    ensures
        rng == isaac_seeded(spatial_hash(*location)),
{
    isaac_from_seed(hash(location))
}

/// The encoding of positive infinity. The encodings of the values that are
/// not negative lie at or below it, in the order of the values.
pub const INFINITY: u64 = 0x7FF0_0000_0000_0000;

/// The bound that a search strictly below it must take to find everything at
/// or below `bound`: the encoding of the least value above the one that
/// `bound` encodes. A distance is reachable when it is at most the range, and
/// a spatial index that looks strictly inside a circle finds the reachable
/// when its circle is drawn through this bound.
///
/// Nothing lies above infinity, which is its own bound, as is what encodes no
/// number.
pub fn outer_bound(bound: u64) -> (outer: u64)
    ensures
        bound < INFINITY ==> outer == bound + 1,
        bound >= INFINITY ==> outer == bound,
{
    if bound < INFINITY {
        bound + 1
    } else {
        bound
    }
}

/// The index of a list of systems: each location bound to the last system
/// listed at it.
pub open spec fn indexed(systems: Seq<System>) -> Map<Location, System>
    decreases systems.len(),
{
    if systems.len() == 0 {
        Map::empty()
    } else {
        indexed(systems.drop_last()).insert(systems.last().location, systems.last())
    }
}

/// The locations of a list of systems, each once, in the order in which they
/// are first met.
pub open spec fn first_seen(systems: Seq<System>) -> Seq<Location>
    decreases systems.len(),
{
    if systems.len() == 0 {
        Seq::empty()
    } else if first_seen(systems.drop_last()).contains(systems.last().location) {
        first_seen(systems.drop_last())
    } else {
        first_seen(systems.drop_last()).push(systems.last().location)
    }
}

/// Of systems at pairwise different locations, the index finds each at its
/// location and finds nothing anywhere else.
pub proof fn lemma_index_consistent(systems: Seq<System>)
    requires
        forall|i: int, j: int|
            0 <= i < j < systems.len() ==> (#[trigger] systems[i]).location != (
            #[trigger] systems[j]).location,
    ensures
        forall|i: int|
            0 <= i < systems.len() ==> indexed(systems).contains_key((#[trigger] systems[i]).location)
                && indexed(systems)[systems[i].location] == systems[i],
        forall|location: Location| #[trigger]
            indexed(systems).contains_key(location) ==> exists|i: int|
                0 <= i < systems.len() && (#[trigger] systems[i]).location == location,
    decreases systems.len(),
{
    if systems.len() > 0 {
        let rest = systems.drop_last();
        let last = systems.last();
        assert forall|i: int, j: int| 0 <= i < j < rest.len() implies (#[trigger] rest[i]).location != (
        #[trigger] rest[j]).location by {
            assert(rest[i] == systems[i] && rest[j] == systems[j]);
        }
        lemma_index_consistent(rest);
        assert forall|i: int| 0 <= i < systems.len() implies indexed(systems).contains_key(
            (#[trigger] systems[i]).location,
        ) && indexed(systems)[systems[i].location] == systems[i] by {
            if i < rest.len() {
                assert(rest[i] == systems[i]);
                assert(systems[i].location != systems[systems.len() - 1].location);
            }
        }
        assert forall|location: Location| #[trigger]
            indexed(systems).contains_key(location) implies exists|i: int|
            0 <= i < systems.len() && (#[trigger] systems[i]).location == location by {
            if location == last.location {
                assert(systems[systems.len() - 1].location == location);
            } else {
                assert(indexed(rest).contains_key(location));
                let i = choose|i: int| 0 <= i < rest.len() && (#[trigger] rest[i]).location == location;
                assert(systems[i].location == location);
            }
        }
    }
}

/// The galaxy: every system, found by its location.
pub struct Galaxy {
    systems: LocationMap<System>,
}

impl View for Galaxy {
    type V = Map<Location, System>;

    /// The system at each location that has one.
    closed spec fn view(&self) -> Map<Location, System> {
        self.systems@
    }
}

impl Galaxy {
    /// The locations that have a system, in the order in which they were
    /// first indexed.
    pub closed spec fn order(&self) -> Seq<Location> {
        self.systems.keys()
    }

    /// The systems, each at the position of its location in `order`.
    pub closed spec fn listed(&self) -> Seq<System> {
        self.systems.values()
    }

    /// No location is indexed twice, and each has its system.
    pub closed spec fn wf(&self) -> bool {
        self.systems.wf()
    }

    /// How `order` and `listed` make up the index.
    pub proof fn lemma_listing(&self)
        requires
            self.wf(),
        ensures
            self.order().no_duplicates(),
            self.order().len() == self.listed().len(),
            self@ == pairing(self.order(), self.listed()),
            forall|i: int|
                0 <= i < self.order().len() ==> self@.contains_key(#[trigger] self.order()[i])
                    && self@[self.order()[i]] == self.listed()[i],
            forall|location: Location| #[trigger]
                self@.contains_key(location) ==> self.order().contains(location),
    {
        assert forall|i: int| 0 <= i < self.order().len() implies self@.contains_key(
            #[trigger] self.order()[i],
        ) && self@[self.order()[i]] == self.listed()[i] by {
            crate::location_map::lemma_position_unique(self.order(), i);
        }
    }

    /// The galaxy of the given systems. Of two systems at one location the
    /// later one is kept, at the place of the earlier.
    pub fn new(systems: Vec<System>) -> (galaxy: Galaxy)
        ensures
            galaxy.wf(),
            galaxy@ == indexed(systems@),
            galaxy.order() == first_seen(systems@),
    {
        let ghost all = systems@;
        let mut rest = reversed(systems);
        let mut index: LocationMap<System> = LocationMap::new();
        let ghost mut done: int = 0;
        assert(all.take(0) =~= Seq::<System>::empty());
        while rest.len() > 0
            invariant
                index.wf(),
                0 <= done <= all.len(),
                rest@.len() + done == all.len(),
                rest@ == all.reverse().take(rest@.len() as int),
                index@ == indexed(all.take(done)),
                index.keys() == first_seen(all.take(done)),
            decreases rest@.len(),
        {
            proof {
                assert(rest@[rest@.len() - 1] == all[done]);
                assert(all.take(done + 1).drop_last() =~= all.take(done));
                assert(all.take(done + 1).last() == all[done]);
            }
            match rest.pop() {
                Some(system) => {
                    index.insert(system.location, system);
                },
                None => {},
            }
            proof {
                done = done + 1;
            }
        }
        assert(all.take(all.len() as int) =~= all);
        Galaxy { systems: index }
    }

    /// The number of systems.
    pub fn len(&self) -> (n: usize)
        requires
            self.wf(),
        ensures
            n == self.order().len(),
    {
        self.systems.len()
    }

    /// The system at `location`, if there is one.
    pub fn system(&self, location: &Location) -> (found: Option<&System>)
        requires
            self.wf(),
        ensures
            found is Some <==> self@.contains_key(*location),
            found matches Some(system) ==> *system == self@[*location],
    {
        self.systems.get(location)
    }

    /// The system at `location`, to be changed in place, if there is one.
    /// What is written through the reference is the system at that location
    /// afterwards; no other system changes.
    pub fn system_mut(&mut self, location: &Location) -> (found: Option<&mut System>)
        requires
            old(self).wf(),
        ensures
            final(self).wf(),
            final(self).order() == old(self).order(),
            found is Some <==> old(self)@.contains_key(*location),
            match found {
                Some(system) => *system == old(self)@[*location] && final(self)@ == old(self)@.insert(
                    *location,
                    *final(system),
                ),
                None => final(self)@ == old(self)@,
            },
    {
        self.systems.get_mut(location)
    }

    /// The locations that have a system, in the order of the index.
    pub fn locations(&self) -> (all: Vec<Location>)
        requires
            self.wf(),
        ensures
            all@ == self.order(),
    {
        self.systems.locations()
    }

    /// All systems, in the order of the index.
    pub fn systems(&self) -> (all: Vec<&System>)
        requires
            self.wf(),
        ensures
            all@.len() == self.listed().len(),
            forall|i: int| 0 <= i < all@.len() ==> *(#[trigger] all@[i]) == self.listed()[i],
    {
        self.systems.entries()
    }

    /// All systems in ascending order of distance, where `distances` holds
    /// for each system, in the order of the index, the encoding of its
    /// distance from the point of view. Systems equally far away keep the
    /// order of the index.
    pub fn systems_ordered(&self, distances: &Vec<u64>) -> (ordered: Vec<&System>)
        requires
            self.wf(),
            distances@.len() == self.order().len(),
        ensures
            ordered@.len() == self.listed().len(),
            is_ranking(distances@, ranking_of(distances@)),
            forall|i: int|
                0 <= i < ordered@.len() ==> *(#[trigger] ordered@[i]) == self.listed()[ranking_of(
                    distances@,
                )[i] as int],
    {
        let ranking = rank(distances);
        let mut ordered: Vec<&System> = Vec::new();
        let mut i: usize = 0;
        while i < ranking.len()
            invariant
                self.wf(),
                0 <= i <= ranking@.len(),
                ranking@.len() == self.listed().len(),
                ranking@ == ranking_of(distances@),
                forall|j: int| 0 <= j < ranking@.len() ==> (#[trigger] ranking@[j]) < self.listed().len(),
                ordered@.len() == i,
                forall|j: int|
                    0 <= j < i ==> *(#[trigger] ordered@[j]) == self.listed()[ranking@[j] as int],
            decreases ranking@.len() - i,
        {
            ordered.push(self.systems.value_at(ranking[i]));
            i += 1;
        }
        ordered
    }
}

} // verus!
