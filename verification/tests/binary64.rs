use gemini::binary64::truncate_product;

/// A small deterministic generator for test inputs.
fn next(state: &mut u64) -> u64 {
    *state ^= *state << 13;
    *state ^= *state >> 7;
    *state ^= *state << 17;
    *state
}

const FACTORS: [u64; 3] = [73856093, 19349663, 83492791];

#[test]
fn product_matches_hardware_on_chosen_values() {
    let values = [
        0.0f64,
        -0.0,
        1.0,
        -1.0,
        0.5,
        0.999_999_999_999_999_9,
        1.000_000_000_000_000_2,
        3.141_592_653_589_793,
        1.0e-9,
        1.0e-320,
        5.0e-324,
        f64::MIN_POSITIVE,
        123_456.789,
        99_999.999_999,
        2.5e11,
        1.0e12,
        2.497_641_748_868_055_4e11,
        1.0e19,
        1.7e308,
        f64::MAX,
        f64::INFINITY,
        f64::NEG_INFINITY,
        f64::NAN,
        -12.75,
    ];
    for &value in values.iter() {
        for &factor in FACTORS.iter() {
            assert_eq!(
                truncate_product(value.to_bits(), factor),
                (value * factor as f64) as u64,
                "value {:e} factor {}",
                value,
                factor
            );
        }
    }
}

#[test]
fn product_matches_hardware_on_every_kind_of_encoding() {
    let mut state: u64 = 0x9E37_79B9_7F4A_7C15;
    for _ in 0..200_000 {
        let bits = next(&mut state);
        let value = f64::from_bits(bits);
        for &factor in FACTORS.iter() {
            assert_eq!(truncate_product(bits, factor), (value * factor as f64) as u64);
        }
    }
}

#[test]
fn product_matches_hardware_in_the_range_of_whole_results() {
    let mut state: u64 = 42;
    for _ in 0..200_000 {
        let fraction = next(&mut state) >> 12;
        let exponent = 1023 - 30 + next(&mut state) % 70;
        let bits = (exponent << 52) | fraction;
        let value = f64::from_bits(bits);
        for &factor in FACTORS.iter() {
            assert_eq!(truncate_product(bits, factor), (value * factor as f64) as u64);
        }
    }
}

#[test]
fn product_rounds_ties_to_even() {
    // 2^53 + 1 times one is exact; the factor three makes a product of 55 bits.
    let factor = 3;
    for low in 0..64u64 {
        let bits = (1023u64 << 52) | low;
        let value = f64::from_bits(bits);
        assert_eq!(truncate_product(bits, factor), (value * 3.0) as u64);
        let bits = ((1023u64 + 52) << 52) | low;
        let value = f64::from_bits(bits);
        assert_eq!(truncate_product(bits, factor), (value * 3.0) as u64);
        let bits = ((1023u64 + 60) << 52) | low;
        let value = f64::from_bits(bits);
        assert_eq!(truncate_product(bits, factor), (value * 3.0) as u64);
    }
}

#[test]
fn nought_times_anything_is_nought_or_no_number() {
    let values = [0.0f64, -0.0, 1.5, -3.0, 1.0e300, f64::MAX, f64::INFINITY, f64::NEG_INFINITY, f64::NAN];
    for &value in values.iter() {
        assert_eq!(truncate_product(value.to_bits(), 0), (value * 0.0) as u64, "{:e}", value);
        assert_eq!(truncate_product(value.to_bits(), 0), 0);
    }
    assert_eq!(truncate_product(f64::INFINITY.to_bits(), 1), u64::MAX);
    assert_eq!(truncate_product(f64::INFINITY.to_bits(), 1), (f64::INFINITY * 1.0) as u64);
}
