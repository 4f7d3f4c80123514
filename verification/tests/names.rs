use gemini::generators::names::{is_valid_name, NameGen, ATTEMPTS};
use std::collections::HashSet;

fn corpus(names: &[&str]) -> Vec<String> {
    names.iter().map(|name| name.to_string()).collect()
}

/// Names of stars, each short or with a space in it.
fn star_names() -> Vec<String> {
    corpus(&[
        "Sol", "Sirius", "Canopus", "Arcturus", "Vega", "Capella", "Rigel", "Procyon", "Achernar",
        "Hadar", "Altair", "Acrux", "Spica", "Antares", "Pollux", "Deneb", "Mimosa", "Regulus",
        "Adhara", "Castor", "Gacrux", "Shaula", "Alnilam", "Alnair", "Alioth", "Mirfak", "Dubhe",
        "Wezen", "Alkaid", "Sargas", "Avior", "Atria", "Alhena", "Peacock", "Polaris", "Mirzam",
        "Alphard", "Hamal", "Diphda", "Nunki", "Mizar", "Saiph", "Kochab", "Izar", "Enif", "Ankaa",
        "Alpha Centauri", "Beta Hydri", "Tau Ceti", "Gamma Leporis", "Delta Pavonis",
    ])
}

#[test]
// All generated names must be unique
fn test_generate_unique() {
    let mut gen = NameGen::new(0);
    gen.train(&star_names());

    let mut names = HashSet::<String>::new();
    for _ in 0..30 {
        names.insert(gen.generate().unwrap());
    }

    assert_eq!(names.len(), 30);
}

#[test]
fn a_single_name_is_all_its_model_can_say() {
    let mut gen = NameGen::new(1);
    gen.train(&corpus(&["Sol"]));
    assert_eq!(gen.generate(), Some("Sol".to_string()));
    assert_eq!(gen.generate(), None);
    assert_eq!(gen.generate(), None);
}

#[test]
fn an_untrained_model_has_no_name_to_give() {
    let mut gen = NameGen::new(3);
    assert_eq!(gen.generate(), None);
}

#[test]
fn names_without_common_letters_are_not_mixed() {
    let mut gen = NameGen::new(5);
    gen.train(&corpus(&["ab", "cd"]));
    let mut seen = HashSet::new();
    while let Some(name) = gen.generate() {
        assert!(seen.insert(name));
    }
    let expected: HashSet<String> = corpus(&["ab", "cd"]).into_iter().collect();
    assert_eq!(seen, expected);
}

#[test]
fn a_letter_shared_at_one_position_joins_names() {
    let mut gen = NameGen::new(11);
    gen.train(&corpus(&["abc", "dbe"]));
    let mut seen = HashSet::new();
    for _ in 0..40 {
        if let Some(name) = gen.generate() {
            assert!(seen.insert(name));
        }
    }
    let expected: HashSet<String> = corpus(&["abc", "abe", "dbc", "dbe"]).into_iter().collect();
    assert_eq!(seen, expected);
    assert_eq!(gen.generate(), None);
}

#[test]
fn a_letter_at_different_positions_joins_nothing() {
    let mut gen = NameGen::new(13);
    gen.train(&corpus(&["ab", "ba"]));
    let mut seen = HashSet::new();
    for _ in 0..40 {
        if let Some(name) = gen.generate() {
            seen.insert(name);
        }
    }
    let expected: HashSet<String> = corpus(&["ab", "ba"]).into_iter().collect();
    assert_eq!(seen, expected);
}

#[test]
fn names_of_different_lengths_end_where_they_end() {
    let mut gen = NameGen::new(17);
    gen.train(&corpus(&["a", "ab", "abc"]));
    let mut seen = HashSet::new();
    for _ in 0..40 {
        if let Some(name) = gen.generate() {
            seen.insert(name);
        }
    }
    let expected: HashSet<String> = corpus(&["a", "ab", "abc"]).into_iter().collect();
    assert_eq!(seen, expected);
}

#[test]
fn each_training_has_layers_of_its_own() {
    // Learnt together, the two names share the node of "b"; learnt one after
    // the other they share none, and nothing new can be spelled.
    let mut gen = NameGen::new(19);
    gen.train(&corpus(&["abc"]));
    gen.train(&corpus(&["dbe"]));
    let mut seen = HashSet::new();
    for _ in 0..40 {
        if let Some(name) = gen.generate() {
            seen.insert(name);
        }
    }
    let expected: HashSet<String> = corpus(&["abc", "dbe"]).into_iter().collect();
    assert_eq!(seen, expected);
}

#[test]
fn more_names_than_the_corpus_supports_end_in_failure() {
    let mut gen = NameGen::new(23);
    gen.train(&corpus(&["Vega", "Hadar", "Deneb"]));
    let mut names = Vec::new();
    let mut failed = false;
    for _ in 0..200 {
        match gen.generate() {
            Some(name) => {
                assert!(!failed || !names.contains(&name));
                assert!(!names.contains(&name));
                names.push(name);
            }
            None => failed = true,
        }
    }
    assert!(failed);
    assert!(names.len() >= 3);
}

#[test]
fn long_names_need_a_space() {
    assert!(is_valid_name(&"".to_string()));
    assert!(is_valid_name(&"Sol".to_string()));
    assert!(is_valid_name(&"Achernar".to_string()));
    assert!(!is_valid_name(&"Betelgeus".to_string()));
    assert!(!is_valid_name(&"Betelgeuse".to_string()));
    assert!(is_valid_name(&"Tau Ceti2".to_string()));
    assert!(is_valid_name(&"Alpha Centauri".to_string()));
    // Length is counted in characters.
    assert!(is_valid_name(&"éééééééé".to_string()));
    assert!(!is_valid_name(&"ééééééééé".to_string()));
}

#[test]
fn long_names_without_a_space_are_never_handed_out() {
    let mut gen = NameGen::new(29);
    gen.train(&corpus(&["Betelgeuse", "Fomalhautt"]));
    for _ in 0..5 {
        assert_eq!(gen.generate(), None);
    }
}

#[test]
fn a_name_is_accepted_once() {
    let mut gen = NameGen::new(31);
    assert!(gen.accept_name(&"Vega".to_string()));
    assert!(!gen.accept_name(&"Vega".to_string()));
    assert!(!gen.accept_name(&"Aldebaran".to_string()));
    assert!(gen.accept_name(&"Tau Ceti".to_string()));
    assert!(!gen.accept_name(&"Tau Ceti".to_string()));
}

#[test]
fn accepted_names_are_not_generated_again() {
    let mut gen = NameGen::new(37);
    gen.train(&corpus(&["Sol"]));
    assert!(gen.accept_name(&"Sol".to_string()));
    assert_eq!(gen.generate(), None);
}

#[test]
fn the_same_seed_gives_the_same_names() {
    let mut first = NameGen::new(99);
    let mut second = NameGen::new(99);
    first.train(&star_names());
    second.train(&star_names());
    for _ in 0..20 {
        assert_eq!(first.generate(), second.generate());
    }
}

#[test]
fn attempts_are_twenty_seven() {
    assert_eq!(ATTEMPTS, 27);
}

#[test]
fn a_model_of_valid_unused_names_gives_one_whatever_is_drawn() {
    for seed in 0..200 {
        let mut gen = NameGen::new(seed);
        gen.train(&corpus(&["Sol", "Vega", "Tau Ceti"]));
        let name = gen.generate().unwrap();
        assert!(is_valid_name(&name));
    }
}

#[test]
fn an_untrained_model_fails_whatever_is_drawn() {
    for seed in 0..50 {
        let mut gen = NameGen::new(seed);
        assert_eq!(gen.generate(), None);
        gen.train(&Vec::new());
        assert_eq!(gen.generate(), None);
    }
}

#[test]
fn the_empty_name_can_be_learnt() {
    let mut gen = NameGen::new(41);
    gen.train(&corpus(&[""]));
    assert_eq!(gen.generate(), Some(String::new()));
    assert_eq!(gen.generate(), None);
}
