//! Arithmetic on IEEE-754 binary64 encodings, in integers.
//!
//! An encoding that is neither infinite nor a NaN stands for
//! `significand * 2^scale`, negated if the sign bit is set. The one operation
//! here is the product of such a value with a whole factor, rounded to
//! nearest with ties to even as the format prescribes, and then cut down to
//! its whole part within the range of `u64`.

use vstd::arithmetic::div_mod::lemma_div_denominator;
use vstd::prelude::*;

verus! {

/// The sign bit of an encoding.
pub const SIGN_BIT: u64 = 0x8000_0000_0000_0000;

/// The bit above the fraction: two to the 52nd.
pub const HIDDEN_BIT: u64 = 0x0010_0000_0000_0000;

/// The first number with more bits than a significand holds: two to the 53rd.
pub const SIGNIFICAND_END: u64 = 0x0020_0000_0000_0000;

/// The exponent field of infinities and NaNs.
pub const EXPONENT_ONES: u64 = 0x7FF;

/// The exponent bias, with the 52 fraction bits counted in.
pub const SCALE_BIAS: u64 = 1075;

/// Two to the power `n`.
pub open spec fn two_to(n: nat) -> nat
    decreases n,
{
    if n == 0 {
        1
    } else {
        2 * two_to((n - 1) as nat)
    }
}

/// Whether the sign bit is set.
pub open spec fn is_negative(bits: u64) -> bool {
    bits >= SIGN_BIT
}

/// The exponent field.
pub open spec fn exponent_field(bits: u64) -> nat {
    ((bits / HIDDEN_BIT) % 2048) as nat
}

/// The fraction field.
pub open spec fn fraction_field(bits: u64) -> nat {
    (bits % HIDDEN_BIT) as nat
}

/// The whole number `m` of `m * 2^scale`: the fraction, with the hidden bit
/// unless the encoding is subnormal.
pub open spec fn significand(bits: u64) -> nat {
    if exponent_field(bits) == 0 {
        fraction_field(bits)
    } else {
        fraction_field(bits) + HIDDEN_BIT as nat
    }
}

/// The exponent field as the scale counts it: a subnormal encoding scales as
/// the smallest normal one. The scale is this less `SCALE_BIAS`.
pub open spec fn biased_scale(bits: u64) -> nat {
    if exponent_field(bits) == 0 {
        1
    } else {
        exponent_field(bits)
    }
}

/// The number of bits by which `p` is too long for a significand.
pub open spec fn excess_bits(p: nat) -> nat
    decreases p,
{
    if p < SIGNIFICAND_END {
        0
    } else {
        1 + excess_bits(p / 2)
    }
}

/// `p / 2^k` rounded to the nearest whole number, to the even one of two that
/// are equally near.
pub open spec fn round_half_even(p: nat, k: nat) -> nat {
    let quotient = p / two_to(k);
    let rest = p % two_to(k);
    if 2 * rest > two_to(k) || (2 * rest == two_to(k) && quotient % 2 == 1) {
        quotient + 1
    } else {
        quotient
    }
}

/// The whole part of `r * 2^(biased - SCALE_BIAS)`.
pub open spec fn whole_part(r: nat, biased: nat) -> nat {
    if biased >= SCALE_BIAS {
        r * two_to((biased - SCALE_BIAS) as nat)
    } else {
        r / two_to((SCALE_BIAS - biased) as nat)
    }
}

/// The value encoded by `bits` times `factor`, rounded as a binary64 product
/// is, then converted to `u64` as a cast does: towards zero, with what lies
/// below the range (every negative value) at 0, what lies above it (positive
/// infinity too) at `u64::MAX`, and a NaN at 0. Infinity times nought is a
/// NaN.
pub open spec fn truncated_product(bits: u64, factor: u64) -> u64 {
    if is_negative(bits) {
        0
    } else if exponent_field(bits) == EXPONENT_ONES {
        if fraction_field(bits) == 0 && factor > 0 {
            u64::MAX
        } else {
            0
        }
    } else {
        let product = significand(bits) * factor as nat;
        let k = excess_bits(product);
        let whole = whole_part(round_half_even(product, k), biased_scale(bits) + k);
        if whole > u64::MAX {
            u64::MAX
        } else {
            whole as u64
        }
    }
}

/// Halving a quotient is dividing by twice the divisor.
proof fn lemma_halve(x: nat, d: nat)
    requires
        d > 0,
    ensures
        (x / d) / 2 == x / (2 * d),
{
    lemma_div_denominator(x as int, d as int, 2);
    assert(d * 2 == 2 * d);
}

/// Computes `truncated_product` for a factor that a significand can hold.
pub fn truncate_product(bits: u64, factor: u64) -> (whole: u64)
    requires
        factor <= SIGNIFICAND_END,
    ensures
        whole == truncated_product(bits, factor),
{
    if bits >= SIGN_BIT {
        return 0;
    }
    let exponent: u64 = (bits / HIDDEN_BIT) % 2048;
    let fraction: u64 = bits % HIDDEN_BIT;
    if exponent == EXPONENT_ONES {
        if fraction == 0 && factor > 0 {
            return u64::MAX;
        } else {
            return 0;
        }
    }
    let mantissa: u64 = if exponent == 0 {
        fraction
    } else {
        fraction + HIDDEN_BIT
    };
    assert(mantissa as u128 * factor as u128 <= 0x0020_0000_0000_0000 * 0x0020_0000_0000_0000)
        by (nonlinear_arith)
        requires
            mantissa < 0x0020_0000_0000_0000,
            factor <= 0x0020_0000_0000_0000,
    ;
    let product: u128 = mantissa as u128 * factor as u128;
    // Cut the product down to the length of a significand.
    let mut quotient: u128 = product;
    let mut divisor: u128 = 1;
    let mut k: u64 = 0;
    proof {
        lemma_two_to_values();
    }
    while quotient >= SIGNIFICAND_END as u128
        invariant
            divisor == two_to(k as nat),
            divisor > 0,
            quotient == product / divisor,
            excess_bits(product as nat) == k + excess_bits(quotient as nat),
            product <= 0x0020_0000_0000_0000 * 0x0020_0000_0000_0000,
            k <= 54,
            divisor <= 0x0040_0000_0000_0000,
            two_to(54) == 0x0040_0000_0000_0000,
        decreases quotient,
    {
        proof {
            lemma_halve(product as nat, divisor as nat);
            assert(divisor * 0x0020_0000_0000_0000 <= product) by (nonlinear_arith)
                requires
                    product / divisor >= 0x0020_0000_0000_0000,
                    divisor > 0,
            ;
            assert(divisor <= 0x0020_0000_0000_0000) by (nonlinear_arith)
                requires
                    divisor * 0x0020_0000_0000_0000 <= product,
                    product <= 0x0020_0000_0000_0000 * 0x0020_0000_0000_0000,
            ;
            if k >= 54 {
                lemma_two_to_grows((k + 1) as nat, 54);
            }
        }
        quotient = quotient / 2;
        divisor = divisor * 2;
        k = k + 1;
    }
    let rest: u128 = product % divisor;
    let rounded: u128 = if 2 * rest > divisor || (2 * rest == divisor && quotient % 2 == 1) {
        quotient + 1
    } else {
        quotient
    };
    assert(rounded == round_half_even(product as nat, k as nat));
    let biased: u64 = (if exponent == 0 {
        1
    } else {
        exponent
    }) + k;
    assert(exponent as nat == exponent_field(bits));
    assert(fraction as nat == fraction_field(bits));
    assert(product as nat == significand(bits) * factor as nat) by (nonlinear_arith)
        requires
            product == mantissa as u128 * factor as u128,
            mantissa as nat == significand(bits),
            mantissa as u128 * factor as u128 <= 0x0020_0000_0000_0000 * 0x0020_0000_0000_0000,
    ;
    assert(k as nat == excess_bits(product as nat));
    assert(biased as nat == biased_scale(bits) + k);
    let ghost target = whole_part(rounded as nat, biased as nat);
    if biased >= SCALE_BIAS {
        let up: u64 = biased - SCALE_BIAS;
        let mut left: u64 = up;
        let mut whole: u128 = rounded;
        while left > 0 && whole <= u64::MAX as u128
            invariant
                left <= up,
                whole * two_to(left as nat) == rounded * two_to(up as nat),
                whole <= 2 * u64::MAX,
            decreases left,
        {
            proof {
                assert((whole * 2) * two_to((left - 1) as nat) == whole * two_to(left as nat))
                    by (nonlinear_arith)
                    requires
                        two_to(left as nat) == 2 * two_to((left - 1) as nat),
                ;
            }
            whole = whole * 2;
            left = left - 1;
        }
        assert(target == rounded * two_to(up as nat));
        if whole > u64::MAX as u128 {
            proof {
                lemma_two_to_positive(left as nat);
                assert(whole * two_to(left as nat) >= whole) by (nonlinear_arith)
                    requires
                        two_to(left as nat) >= 1,
                ;
                assert(target > u64::MAX);
            }
            u64::MAX
        } else {
            assert(whole * two_to(0) == whole) by (nonlinear_arith)
                requires
                    two_to(0) == 1,
            ;
            assert(target == whole);
            whole as u64
        }
    } else {
        let down: u64 = SCALE_BIAS - biased;
        let mut left: u64 = down;
        let mut whole: u128 = rounded;
        proof {
            lemma_two_to_positive(down as nat);
        }
        while left > 0 && whole > 0
            invariant
                left <= down,
                two_to(left as nat) > 0,
                whole as nat / two_to(left as nat) == rounded as nat / two_to(down as nat),
                whole <= SIGNIFICAND_END,
            decreases left,
        {
            proof {
                lemma_two_to_positive((left - 1) as nat);
                lemma_halve(whole as nat, two_to((left - 1) as nat));
                lemma_div_denominator(whole as int, 2, two_to((left - 1) as nat) as int);
            }
            whole = whole / 2;
            left = left - 1;
        }
        proof {
            let d = two_to(left as nat);
            if whole == 0 {
                assert(whole as nat / d == 0) by (nonlinear_arith)
                    requires
                        whole == 0,
                        d > 0,
                ;
            } else {
                assert(d == 1);
                assert(whole as nat / d == whole) by (nonlinear_arith)
                    requires
                        d == 1,
                ;
            }
            assert(target == rounded as nat / two_to(down as nat));
            assert(target == whole);
        }
        whole as u64
    }
}

/// The powers of two that bound a significand and its factor.
pub proof fn lemma_two_to_values()
    ensures
        two_to(53) == 0x0020_0000_0000_0000,
        two_to(54) == 0x0040_0000_0000_0000,
{
    reveal_with_fuel(two_to, 10);
    assert(two_to(9) == 512);
    assert(two_to(18) == 512 * 512);
    assert(two_to(27) == 512 * 512 * 512);
    assert(two_to(36) == 512 * 512 * 512 * 512);
    assert(two_to(45) == 512 * 512 * 512 * 512 * 512);
    assert(two_to(54) == 512 * 512 * 512 * 512 * 512 * 512);
}

/// Every power of two is positive.
pub proof fn lemma_two_to_positive(n: nat)
    ensures
        two_to(n) >= 1,
    decreases n,
{
    if n > 0 {
        lemma_two_to_positive((n - 1) as nat);
    }
}

/// A larger exponent gives a larger power of two.
pub proof fn lemma_two_to_grows(a: nat, b: nat)
    requires
        a > b,
    ensures
        two_to(a) >= 2 * two_to(b),
    decreases a,
{
    if a > b + 1 {
        lemma_two_to_grows((a - 1) as nat, b);
    }
}

} // verus!
