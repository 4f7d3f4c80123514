use gemini::astronomicals::planet::Planet;
use gemini::astronomicals::star::Star;
use gemini::astronomicals::system::System;
use gemini::astronomicals::{outer_bound, Galaxy, INFINITY};
use gemini::location::Location;

fn wrap(x: f64, y: f64, z: f64) -> Location {
    Location::new(x.to_bits(), y.to_bits(), z.to_bits())
}

fn distance(a: &Location, b: &Location) -> f64 {
    let dx = f64::from_bits(a.x) - f64::from_bits(b.x);
    let dy = f64::from_bits(a.y) - f64::from_bits(b.y);
    let dz = f64::from_bits(a.z) - f64::from_bits(b.z);
    (dx * dx + dy * dy + dz * dz).sqrt()
}

fn system_at(x: f64, y: f64, z: f64, name: &str) -> System {
    System::assemble(
        wrap(x, y, z),
        name.to_string(),
        Star::new(1.0f64.to_bits(), 1.0f64.to_bits(), 0.02f64.to_bits()),
        vec![Planet::new(1.0f64.to_bits(), 1.0f64.to_bits())],
    )
}

fn distances_from(galaxy: &Galaxy, from: &Location) -> Vec<u64> {
    galaxy.locations().iter().map(|l| distance(from, l).to_bits()).collect()
}

#[test]
fn every_inserted_location_is_found_and_no_other() {
    let mut systems = Vec::new();
    for i in 0..50 {
        systems.push(system_at(i as f64, (i * i) as f64, -(i as f64), &format!("S{}", i)));
    }
    let galaxy = Galaxy::new(systems);
    assert_eq!(galaxy.len(), 50);
    for i in 0..50 {
        let found = galaxy.system(&wrap(i as f64, (i * i) as f64, -(i as f64)));
        assert_eq!(found.unwrap().name, format!("S{} System", i));
        assert_eq!(found.unwrap().location, wrap(i as f64, (i * i) as f64, -(i as f64)));
    }
    assert!(galaxy.system(&wrap(0.5, 0.0, 0.0)).is_none());
    assert!(galaxy.system(&wrap(50.0, 2500.0, -50.0)).is_none());
    assert!(galaxy.system(&wrap(1.0, 1.0, 1.0)).is_none());
}

#[test]
fn an_empty_galaxy_finds_nothing() {
    let galaxy = Galaxy::new(Vec::new());
    assert_eq!(galaxy.len(), 0);
    assert!(galaxy.system(&wrap(0.0, 0.0, 0.0)).is_none());
    assert!(galaxy.systems().is_empty());
    assert!(galaxy.systems_ordered(&Vec::new()).is_empty());
    assert!(galaxy.locations().is_empty());
}

#[test]
fn of_two_systems_at_one_location_the_later_is_kept() {
    let galaxy = Galaxy::new(vec![
        system_at(1.0, 0.0, 0.0, "First"),
        system_at(2.0, 0.0, 0.0, "Second"),
        system_at(1.0, 0.0, 0.0, "Third"),
    ]);
    assert_eq!(galaxy.len(), 2);
    assert_eq!(galaxy.system(&wrap(1.0, 0.0, 0.0)).unwrap().name, "Third System");
    assert_eq!(galaxy.locations(), vec![wrap(1.0, 0.0, 0.0), wrap(2.0, 0.0, 0.0)]);
    let names: Vec<&str> = galaxy.systems().iter().map(|s| s.name.as_str()).collect();
    assert_eq!(names, vec!["Third System", "Second System"]);
}

#[test]
fn systems_come_ordered_by_distance() {
    let galaxy = Galaxy::new(vec![
        system_at(10.0, 0.0, 0.0, "Far"),
        system_at(1.0, 0.0, 0.0, "Near"),
        system_at(0.0, 5.0, 0.0, "Middle"),
        system_at(0.0, 0.0, 0.0, "Here"),
        system_at(0.0, 0.0, -5.0, "Also Middle"),
    ]);
    let from = wrap(0.0, 0.0, 0.0);
    let ordered = galaxy.systems_ordered(&distances_from(&galaxy, &from));
    let names: Vec<&str> = ordered.iter().map(|s| s.name.as_str()).collect();
    assert_eq!(
        names,
        vec!["Here System", "Near System", "Middle System", "Also Middle System", "Far System"]
    );
    for pair in ordered.windows(2) {
        assert!(distance(&from, &pair[0].location) <= distance(&from, &pair[1].location));
    }
    assert_eq!(ordered.len(), galaxy.len());

    let from = wrap(9.0, 0.0, 0.0);
    let ordered = galaxy.systems_ordered(&distances_from(&galaxy, &from));
    let names: Vec<&str> = ordered.iter().map(|s| s.name.as_str()).collect();
    assert_eq!(
        names,
        vec!["Far System", "Near System", "Here System", "Middle System", "Also Middle System"]
    );
}

#[test]
fn a_system_can_be_changed_in_place() {
    let mut galaxy = Galaxy::new(vec![system_at(1.0, 0.0, 0.0, "Old"), system_at(2.0, 0.0, 0.0, "Other")]);
    match galaxy.system_mut(&wrap(1.0, 0.0, 0.0)) {
        Some(system) => system.name = "New System".to_string(),
        None => panic!("the system is there"),
    }
    assert!(galaxy.system_mut(&wrap(3.0, 0.0, 0.0)).is_none());
    assert_eq!(galaxy.system(&wrap(1.0, 0.0, 0.0)).unwrap().name, "New System");
    assert_eq!(galaxy.system(&wrap(2.0, 0.0, 0.0)).unwrap().name, "Other System");
    assert_eq!(galaxy.len(), 2);
}

#[test]
fn bodies_are_made_as_described() {
    let star = Star::new(1, 2, 3);
    assert_eq!(star.mass, 1);
    assert_eq!(star.luminosity, 2);
    assert_eq!(star.metalicity, 3);
    let mut planet = Planet::new(5.5f64.to_bits(), 2.0f64.to_bits());
    assert_eq!(planet.name, "");
    assert_eq!(f64::from_bits(planet.mass), 5.5);
    assert_eq!(f64::from_bits(planet.gravity), 5.5);
    assert_eq!(f64::from_bits(planet.orbit_distance), 2.0);
    assert_eq!(f64::from_bits(planet.surface_temperature), 0.0);
    assert_eq!(planet.planet_type, gemini::astronomicals::planet::PlanetType::Rocky);
    planet.set_name("Tellus".to_string());
    planet.set_surface_temperature(288.0f64.to_bits());
    assert_eq!(planet.name, "Tellus");
    assert_eq!(f64::from_bits(planet.surface_temperature), 288.0);
    assert_eq!(f64::from_bits(planet.mass), 5.5);
}

#[test]
fn the_outer_bound_lies_just_above() {
    assert_eq!(f64::from_bits(outer_bound(0.0f64.to_bits())), 5.0e-324);
    let outer = f64::from_bits(outer_bound(25.0f64.to_bits()));
    assert!(outer > 25.);
    assert_eq!(outer, 25.000_000_000_000_004);
    assert!(24.999_999_999_999_996 < outer);
    assert_eq!(f64::from_bits(outer_bound(f64::MAX.to_bits())), f64::INFINITY);
    assert_eq!(f64::from_bits(outer_bound(f64::INFINITY.to_bits())), f64::INFINITY);
    assert!(f64::from_bits(outer_bound(f64::NAN.to_bits())).is_nan());
    assert_eq!(INFINITY, f64::INFINITY.to_bits());
}
