use gemini::location::Location;
use gemini::location_map::LocationMap;

fn wrap(x: f64, y: f64, z: f64) -> Location {
    Location::new(x.to_bits(), y.to_bits(), z.to_bits())
}

fn unwrap(location: &Location) -> (f64, f64, f64) {
    let (x, y, z) = location.coordinates();
    (f64::from_bits(x), f64::from_bits(y), f64::from_bits(z))
}

#[test]
fn wrapping_and_unwrapping_gives_the_coordinates_back() {
    let samples = [
        (0.0, 0.0, 0.0),
        (1.5, -2.25, 1.0e300),
        (-0.0, 5.0e-324, f64::MAX),
        (f64::MIN, f64::MIN_POSITIVE, 123_456.789),
        (0.1, 0.2, 0.3),
    ];
    for &(x, y, z) in samples.iter() {
        let location = wrap(x, y, z);
        let (a, b, c) = unwrap(&location);
        assert_eq!(a.to_bits(), x.to_bits());
        assert_eq!(b.to_bits(), y.to_bits());
        assert_eq!(c.to_bits(), z.to_bits());
        assert_eq!(a, x);
        assert_eq!(b, y);
        assert_eq!(c, z);
        assert_eq!(wrap(a, b, c), location);
    }
}

#[test]
fn locations_are_equal_exactly_when_their_coordinates_are() {
    assert_eq!(wrap(1.0, 2.0, 3.0), wrap(1.0, 2.0, 3.0));
    assert_ne!(wrap(1.0, 2.0, 3.0), wrap(1.0, 2.0, 3.000_000_000_000_000_4));
    assert_ne!(wrap(1.0, 2.0, 3.0), wrap(3.0, 2.0, 1.0));
}

#[test]
fn coordinates_come_back_in_axis_order() {
    let location = Location::new(1, 2, 3);
    assert_eq!(location.coordinates(), (1, 2, 3));
    assert_eq!(location.x, 1);
    assert_eq!(location.y, 2);
    assert_eq!(location.z, 3);
}

#[test]
fn map_finds_what_was_inserted_and_nothing_else() {
    let mut map: LocationMap<u32> = LocationMap::new();
    assert_eq!(map.len(), 0);
    assert_eq!(map.get(&wrap(1.0, 1.0, 1.0)), None);
    map.insert(wrap(1.0, 1.0, 1.0), 10);
    map.insert(wrap(2.0, 2.0, 2.0), 20);
    assert_eq!(map.len(), 2);
    assert_eq!(map.get(&wrap(1.0, 1.0, 1.0)), Some(&10));
    assert_eq!(map.get(&wrap(2.0, 2.0, 2.0)), Some(&20));
    assert_eq!(map.get(&wrap(3.0, 3.0, 3.0)), None);
    assert!(map.contains_key(&wrap(2.0, 2.0, 2.0)));
    assert!(!map.contains_key(&wrap(2.0, 2.0, 2.5)));
    assert_eq!(map.position(&wrap(2.0, 2.0, 2.0)), Some(1));
    assert_eq!(map.position(&wrap(9.0, 9.0, 9.0)), None);
}

#[test]
fn map_insert_replaces_in_place() {
    let mut map: LocationMap<u32> = LocationMap::new();
    map.insert(wrap(1.0, 0.0, 0.0), 1);
    map.insert(wrap(2.0, 0.0, 0.0), 2);
    map.insert(wrap(1.0, 0.0, 0.0), 3);
    assert_eq!(map.len(), 2);
    assert_eq!(map.get(&wrap(1.0, 0.0, 0.0)), Some(&3));
    assert_eq!(map.locations(), vec![wrap(1.0, 0.0, 0.0), wrap(2.0, 0.0, 0.0)]);
    assert_eq!(map.entries(), vec![&3, &2]);
    assert_eq!(*map.value_at(0), 3);
}

#[test]
fn map_get_mut_changes_one_binding() {
    let mut map: LocationMap<u32> = LocationMap::new();
    map.insert(wrap(1.0, 0.0, 0.0), 1);
    map.insert(wrap(2.0, 0.0, 0.0), 2);
    match map.get_mut(&wrap(2.0, 0.0, 0.0)) {
        Some(value) => *value = 7,
        None => panic!("the key is bound"),
    }
    assert!(map.get_mut(&wrap(5.0, 0.0, 0.0)).is_none());
    assert_eq!(map.get(&wrap(1.0, 0.0, 0.0)), Some(&1));
    assert_eq!(map.get(&wrap(2.0, 0.0, 0.0)), Some(&7));
}

#[test]
fn map_tells_keys_of_one_bucket_apart() {
    // The three keys fall into the same bucket of the hashed index.
    let a = Location::new(1, 0, 0);
    let b = Location::new(0, 0x8000_0000_0000_0000, 0);
    let c = Location::new(0, 0, 0x4000_0000_0000_0000);
    let d = Location::new(3, 0x8000_0000_0000_0000, 0x8000_0000_0000_0000);
    let mut map: LocationMap<&str> = LocationMap::new();
    map.insert(a, "a");
    map.insert(b, "b");
    assert_eq!(map.get(&c), None);
    map.insert(c, "c");
    assert_eq!(map.get(&a), Some(&"a"));
    assert_eq!(map.get(&b), Some(&"b"));
    assert_eq!(map.get(&c), Some(&"c"));
    assert_eq!(map.get(&d), None);
    map.insert(b, "again");
    assert_eq!(map.len(), 3);
    assert_eq!(map.get(&b), Some(&"again"));
    assert_eq!(map.position(&a), Some(0));
    assert_eq!(map.position(&b), Some(1));
    assert_eq!(map.position(&c), Some(2));
}

#[test]
fn map_holds_many_keys() {
    let mut map: LocationMap<u64> = LocationMap::new();
    for i in 0..2000u64 {
        map.insert(wrap(i as f64, (i % 7) as f64, (i / 3) as f64), i);
    }
    assert_eq!(map.len(), 2000);
    for i in 0..2000u64 {
        assert_eq!(map.get(&wrap(i as f64, (i % 7) as f64, (i / 3) as f64)), Some(&i));
        assert_eq!(map.position(&wrap(i as f64, (i % 7) as f64, (i / 3) as f64)), Some(i as usize));
    }
    assert_eq!(map.get(&wrap(2000., 0., 0.)), None);
    assert_eq!(map.get(&wrap(0.5, 0., 0.)), None);
}
