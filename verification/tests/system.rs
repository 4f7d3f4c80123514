use gemini::astronomicals::{hash, seed};
use gemini::astronomicals::planet::Planet;
use gemini::astronomicals::star::Star;
use gemini::astronomicals::system::{drawn, name_or_unnamed, name_planets, GenerationError, System};
use gemini::generators::names::NameGen;
use gemini::location::Location;
use rand::{Isaac64Rng, Rng, SeedableRng};
use statrs::distribution::{Distribution, Gamma};
use std::f64::consts::PI;

fn wrap(x: f64, y: f64, z: f64) -> Location {
    Location::new(x.to_bits(), y.to_bits(), z.to_bits())
}

fn surface_temperature(luminosity: f64, orbit_distance: f64) -> f64 {
    (luminosity * 3.846 * 10f64.powi(26) * (1. - 0.29)
        / (16. * PI * (299792458. * orbit_distance).powi(2) * 5.670373 * 10f64.powi(-8)))
    .powf(0.25)
}

/// Draws a star and planets as generators would, and assembles the system.
fn generate(location: Location, name_gen: &mut NameGen) -> System {
    let mut rng = seed(&location);
    let luminosity = 0.5 + rng.next_f64();
    let star = Star::new((0.5 + rng.next_f64()).to_bits(), luminosity.to_bits(), rng.next_f64().to_bits());
    let count = Gamma::new(1., 0.5).unwrap().sample::<Isaac64Rng>(&mut rng).round() as u32;
    let mut planets = Vec::new();
    for _ in 0..count {
        let orbit = 0.1 + 10. * rng.next_f64();
        let mut planet = Planet::new((10. * rng.next_f64()).to_bits(), orbit.to_bits());
        planet.set_surface_temperature(surface_temperature(luminosity, orbit).to_bits());
        planets.push(Ok(planet));
    }
    System::new(location, Ok(star), planets, &mut rng, name_gen).unwrap()
}

fn trained() -> NameGen {
    let mut name_gen = NameGen::new(0);
    name_gen.train(&vec!["Sol".to_string(), "Alpha Centauri".to_string(), "Proxima".to_string()]);
    name_gen
}

#[test]
fn a_system_is_generated_at_the_origin() {
    let mut name_gen = trained();
    let system = generate(wrap(0., 0., 0.), &mut name_gen);
    assert_eq!(system.location, wrap(0., 0., 0.));
    assert!(f64::from_bits(system.star.mass) > 0.);
    assert!(f64::from_bits(system.star.luminosity) > 0.);
    for planet in &system.satelites {
        assert!(f64::from_bits(planet.surface_temperature) >= 0.);
        assert!(!planet.name.is_empty());
    }
    assert!(system.name.ends_with(" System"));
    if !system.satelites.is_empty() {
        assert!(system.satelites.iter().any(|p| system.name == format!("{} System", p.name)));
    }
}

#[test]
fn the_same_location_gives_the_same_system() {
    for i in 0..40 {
        let location = wrap(i as f64 * 1.5, 100. - i as f64, 0.25 * i as f64);
        let first = generate(location, &mut trained());
        let second = generate(location, &mut trained());
        assert_eq!(first.location, second.location);
        assert_eq!(first.name, second.name);
        assert_eq!(first.star, second.star);
        assert_eq!(first.satelites.len(), second.satelites.len());
        for (a, b) in first.satelites.iter().zip(second.satelites.iter()) {
            assert_eq!(a.name, b.name);
            assert_eq!(a.mass, b.mass);
            assert_eq!(a.gravity, b.gravity);
            assert_eq!(a.orbit_distance, b.orbit_distance);
            assert_eq!(a.surface_temperature, b.surface_temperature);
            assert_eq!(a.planet_type, b.planet_type);
        }
    }
}

#[test]
fn many_systems_share_no_planet_name_but_the_fallback() {
    let mut name_gen = NameGen::new(0);
    name_gen.train(&vec![
        "Sol".to_string(),
        "Alpha Centauri".to_string(),
        "Proxima".to_string(),
        "Vega".to_string(),
        "Deneb".to_string(),
        "Altair".to_string(),
    ]);
    let mut names = Vec::new();
    for i in 0..30 {
        let system = generate(wrap(i as f64, 2. * i as f64, 3. * i as f64), &mut name_gen);
        for planet in &system.satelites {
            if planet.name != "Unnamed" {
                assert!(!names.contains(&planet.name));
                names.push(planet.name.clone());
            }
        }
        if system.satelites.is_empty() && system.name != "Unnamed System" {
            let base = system.name.trim_end_matches(" System").to_string();
            assert!(!names.contains(&base));
            names.push(base);
        }
    }
}

#[test]
fn a_system_without_planets_is_named_by_the_model() {
    let mut name_gen = NameGen::new(2);
    name_gen.train(&vec!["Sol".to_string()]);
    let mut rng = seed(&wrap(1., 2., 3.));
    let star = Star::new(1, 2, 3);
    let system = System::new(wrap(1., 2., 3.), Ok(star), Vec::new(), &mut rng, &mut name_gen).unwrap();
    assert_eq!(system.name, "Sol System");
    assert!(system.satelites.is_empty());
    assert_eq!(system.star, star);
    // The model has nothing more to give.
    let system = System::new(wrap(1., 2., 3.), Ok(star), Vec::new(), &mut rng, &mut name_gen).unwrap();
    assert_eq!(system.name, "Unnamed System");
}

#[test]
fn planets_are_named_in_turn_and_the_system_after_one_of_them() {
    let mut name_gen = NameGen::new(4);
    name_gen.train(&vec!["Sol".to_string()]);
    let mut rng = seed(&wrap(4., 4., 4.));
    let planets = vec![Ok(Planet::new(1, 10)), Ok(Planet::new(2, 20)), Ok(Planet::new(3, 30))];
    let system = System::new(wrap(4., 4., 4.), Ok(Star::new(7, 8, 9)), planets, &mut rng, &mut name_gen).unwrap();
    let names: Vec<&str> = system.satelites.iter().map(|p| p.name.as_str()).collect();
    assert_eq!(names, vec!["Sol", "Unnamed", "Unnamed"]);
    let masses: Vec<u64> = system.satelites.iter().map(|p| p.mass).collect();
    assert_eq!(masses, vec![1, 2, 3]);
    let orbits: Vec<u64> = system.satelites.iter().map(|p| p.orbit_distance).collect();
    assert_eq!(orbits, vec![10, 20, 30]);
    assert!(system.name == "Sol System" || system.name == "Unnamed System");
}

#[test]
fn a_failed_star_is_fatal() {
    let mut name_gen = trained();
    let mut rng = seed(&wrap(0., 0., 0.));
    let made = System::new(
        wrap(0., 0., 0.),
        Err(GenerationError::Star),
        vec![Ok(Planet::new(1, 1))],
        &mut rng,
        &mut name_gen,
    );
    assert_eq!(made.err(), Some(GenerationError::Star));
    // No name was used up.
    let mut untouched = trained();
    for _ in 0..3 {
        assert_eq!(name_gen.generate(), untouched.generate());
    }
}

#[test]
fn a_failed_planet_is_fatal() {
    let mut name_gen = trained();
    let mut rng = seed(&wrap(0., 0., 0.));
    let made = System::new(
        wrap(0., 0., 0.),
        Ok(Star::new(1, 1, 1)),
        vec![Ok(Planet::new(1, 1)), Err(GenerationError::Planet), Ok(Planet::new(2, 2))],
        &mut rng,
        &mut name_gen,
    );
    assert_eq!(made.err(), Some(GenerationError::Planet));
    let mut untouched = trained();
    for _ in 0..3 {
        assert_eq!(name_gen.generate(), untouched.generate());
    }
}

#[test]
fn the_first_failure_is_the_one_reported() {
    let star = Star::new(1, 1, 1);
    assert_eq!(
        drawn(Err(GenerationError::Star), vec![Err(GenerationError::Planet)]).err(),
        Some(GenerationError::Star)
    );
    assert_eq!(
        drawn(Ok(star), vec![Ok(Planet::new(1, 1)), Err(GenerationError::Star), Err(GenerationError::Planet)])
            .err(),
        Some(GenerationError::Star)
    );
    let (sun, planets) = drawn(Ok(star), vec![Ok(Planet::new(1, 5)), Ok(Planet::new(2, 6))]).unwrap();
    assert_eq!(sun, star);
    assert_eq!(planets.iter().map(|p| p.mass).collect::<Vec<u64>>(), vec![1, 2]);
    let (_, planets) = drawn(Ok(star), Vec::new()).unwrap();
    assert!(planets.is_empty());
}

#[test]
fn the_fallback_name_is_unnamed() {
    assert_eq!(name_or_unnamed(None), "Unnamed");
    assert_eq!(name_or_unnamed(Some("Vega".to_string())), "Vega");
    assert_eq!(name_or_unnamed(Some(String::new())), "");
}

#[test]
fn planets_get_names_until_the_model_runs_dry() {
    let mut name_gen = NameGen::new(8);
    name_gen.train(&vec!["ab".to_string(), "cd".to_string()]);
    let named = name_planets(vec![Planet::new(1, 1), Planet::new(2, 2), Planet::new(3, 3)], &mut name_gen);
    let names: Vec<&str> = named.iter().map(|p| p.name.as_str()).collect();
    assert!(names == vec!["ab", "cd", "Unnamed"] || names == vec!["cd", "ab", "Unnamed"]);
    assert_eq!(named.iter().map(|p| p.mass).collect::<Vec<u64>>(), vec![1, 2, 3]);
}

#[test]
fn a_system_is_assembled_from_its_parts() {
    let system = System::assemble(wrap(1., 1., 1.), "Tellus".to_string(), Star::new(1, 2, 3), Vec::new());
    assert_eq!(system.name, "Tellus System");
    assert_eq!(system.location, wrap(1., 1., 1.));
    assert_eq!(system.star, Star::new(1, 2, 3));
    assert!(system.satelites.is_empty());
}

#[test]
fn the_seed_of_a_location_is_its_hash() {
    for i in 0..20 {
        let location = wrap(i as f64 * 3.25, 7. - i as f64, 1.0e3 * i as f64);
        let words: &[u64] = &[hash(&location)];
        let mut expected: Isaac64Rng = SeedableRng::from_seed(words);
        let mut first = seed(&location);
        let mut second = seed(&location);
        for _ in 0..50 {
            let draw = expected.next_u64();
            assert_eq!(first.next_u64(), draw);
            assert_eq!(second.next_u64(), draw);
        }
    }
    let mut here = seed(&wrap(1., 2., 3.));
    let mut there = seed(&wrap(3., 2., 1.));
    assert_ne!(here.next_u64(), there.next_u64());
}

#[test]
fn a_model_that_owes_names_gives_one_to_every_planet() {
    // Three names, all valid and unused: the first planets get them in the
    // order in which the model hands them out, whatever is drawn.
    for seed_of_names in 0..40 {
        let mut name_gen = NameGen::new(seed_of_names);
        name_gen.train(&vec!["ab".to_string(), "cd".to_string(), "ef".to_string()]);
        let mut twin = NameGen::new(seed_of_names);
        twin.train(&vec!["ab".to_string(), "cd".to_string(), "ef".to_string()]);
        let named = name_planets(vec![Planet::new(1, 1)], &mut name_gen);
        assert_eq!(Some(named[0].name.clone()), twin.generate());
        assert_ne!(named[0].name, "Unnamed");
        // The name is handed out: the model does not take it again.
        assert!(!name_gen.accept_name(&named[0].name));
    }
}

#[test]
fn names_from_the_model_differ_within_a_system() {
    let mut name_gen = NameGen::new(6);
    name_gen.train(&vec![
        "Sol".to_string(),
        "Vega".to_string(),
        "Deneb".to_string(),
        "Altair".to_string(),
        "Rigel".to_string(),
    ]);
    let mut rng = seed(&wrap(9., 9., 9.));
    let planets = (0..12).map(|i| Ok(Planet::new(i, i))).collect();
    let system = System::new(wrap(9., 9., 9.), Ok(Star::new(1, 1, 1)), planets, &mut rng, &mut name_gen).unwrap();
    assert_eq!(system.satelites.len(), 12);
    for (i, a) in system.satelites.iter().enumerate() {
        for b in system.satelites.iter().skip(i + 1) {
            assert!(a.name != b.name || a.name == "Unnamed");
        }
        if a.name != "Unnamed" {
            assert!(!name_gen.accept_name(&a.name));
        }
    }
    assert_ne!(system.satelites[0].name, "Unnamed");
}

#[test]
fn one_name_is_asked_for_each_planet_and_none_for_the_system() {
    // The model can spell two names. Two planets use them up; the system is
    // named after a planet and asks for nothing.
    let mut name_gen = NameGen::new(10);
    name_gen.train(&vec!["ab".to_string(), "cd".to_string()]);
    let mut rng = seed(&wrap(2., 2., 2.));
    let planets = vec![Ok(Planet::new(1, 1)), Ok(Planet::new(2, 2))];
    let system = System::new(wrap(2., 2., 2.), Ok(Star::new(1, 1, 1)), planets, &mut rng, &mut name_gen).unwrap();
    let mut names: Vec<&str> = system.satelites.iter().map(|p| p.name.as_str()).collect();
    names.sort();
    assert_eq!(names, vec!["ab", "cd"]);
    assert!(system.name == "ab System" || system.name == "cd System");
    assert_eq!(name_gen.generate(), None);

    // One planet takes one name and leaves the other.
    let mut name_gen = NameGen::new(10);
    name_gen.train(&vec!["ab".to_string(), "cd".to_string()]);
    let planets = vec![Ok(Planet::new(1, 1))];
    let system = System::new(wrap(2., 2., 2.), Ok(Star::new(1, 1, 1)), planets, &mut rng, &mut name_gen).unwrap();
    let left = name_gen.generate().unwrap();
    assert_ne!(left, system.satelites[0].name);
    assert_eq!(name_gen.generate(), None);

    // Without planets the system takes one.
    let mut name_gen = NameGen::new(10);
    name_gen.train(&vec!["ab".to_string(), "cd".to_string()]);
    let system = System::new(wrap(2., 2., 2.), Ok(Star::new(1, 1, 1)), Vec::new(), &mut rng, &mut name_gen).unwrap();
    let left = name_gen.generate().unwrap();
    assert_eq!(format!("{} System", if left == "ab" { "cd" } else { "ab" }), system.name);
    assert_eq!(name_gen.generate(), None);
}
