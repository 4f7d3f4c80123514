use gemini::astronomicals::{hash, HASH_FACTORS};
use gemini::location::Location;
use rand::{Isaac64Rng, SeedableRng};
use statrs::distribution::{Distribution, Uniform};
use std::collections::HashMap;

fn wrap(x: f64, y: f64, z: f64) -> Location {
    Location::new(x.to_bits(), y.to_bits(), z.to_bits())
}

/// The hash as floating-point arithmetic computes it.
fn hash_in_floats(x: f64, y: f64, z: f64) -> u64 {
    ((x * 73856093f64) as u64) ^ ((y * 19349663f64) as u64) ^ ((z * 83492791f64) as u64)
}

#[test]
fn test_hash_uniqueness() {
    let new_seed: &[_] = &[42 as u64];
    let mut rng: Isaac64Rng = SeedableRng::from_seed(new_seed);
    let n = Uniform::new(0., 100000.).unwrap();

    let mut hashes = HashMap::new();
    let tries = 10000;
    for _ in 0..tries {
        let loc = wrap(
            n.sample::<Isaac64Rng>(&mut rng),
            n.sample::<Isaac64Rng>(&mut rng),
            n.sample::<Isaac64Rng>(&mut rng),
        );
        hashes.insert(hash(&loc), loc);
    }
    assert_eq!(hashes.len(), tries);
}

#[test]
fn hash_agrees_with_floating_point_on_random_locations() {
    let new_seed: &[_] = &[7 as u64];
    let mut rng: Isaac64Rng = SeedableRng::from_seed(new_seed);
    let n = Uniform::new(-100000., 100000.).unwrap();
    for _ in 0..10000 {
        let (x, y, z) = (
            n.sample::<Isaac64Rng>(&mut rng),
            n.sample::<Isaac64Rng>(&mut rng),
            n.sample::<Isaac64Rng>(&mut rng),
        );
        assert_eq!(hash(&wrap(x, y, z)), hash_in_floats(x, y, z));
    }
}

#[test]
fn hash_has_the_values_of_the_formula() {
    assert_eq!(hash(&wrap(0.0, 0.0, 0.0)), 0);
    assert_eq!(hash(&wrap(1.0, 0.0, 0.0)), 73856093);
    assert_eq!(hash(&wrap(0.0, 1.0, 0.0)), 19349663);
    assert_eq!(hash(&wrap(0.0, 0.0, 1.0)), 83492791);
    assert_eq!(hash(&wrap(1.0, 1.0, 1.0)), 73856093 ^ 19349663 ^ 83492791);
    assert_eq!(hash(&wrap(2.0, 3.0, 0.5)), 147712186 ^ 58048989 ^ 41746395);
    // A negative coordinate contributes nothing.
    assert_eq!(hash(&wrap(-4.0, 1.0, 0.0)), 19349663);
    assert_eq!(HASH_FACTORS, (73856093, 19349663, 83492791));
}

#[test]
fn hash_is_the_same_each_time() {
    let location = wrap(12.5, 99.75, 3.0e4);
    let first = hash(&location);
    for _ in 0..10 {
        assert_eq!(hash(&location), first);
        assert_eq!(hash(&wrap(12.5, 99.75, 3.0e4)), first);
    }
}
