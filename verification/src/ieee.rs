//! Binary floating-point numbers held as their bits.
//!
//! Settings that the library only compares are kept as the bit patterns of
//! the IEEE 754 single and double formats. A magnitude is a whole number of
//! the smallest positive value of its format.
use vstd::arithmetic::power2::pow2;
use vstd::prelude::*;

verus! {

/// The exponent field of a single.
pub open spec fn single_exponent(bits: u32) -> nat {
    (bits as nat / 0x80_0000) % 0x100
}

/// The fraction field of a single.
pub open spec fn single_fraction(bits: u32) -> nat {
    bits as nat % 0x80_0000
}

/// The single is neither an infinity nor a NaN.
pub open spec fn single_is_finite(bits: u32) -> bool {
    single_exponent(bits) != 0xff
}

/// The single is a NaN.
pub open spec fn single_is_nan(bits: u32) -> bool {
    single_exponent(bits) == 0xff && single_fraction(bits) != 0
}

/// The sign bit of the single is set.
pub open spec fn single_is_negative(bits: u32) -> bool {
    bits >= 0x8000_0000
}

/// The absolute value of a finite single in units of `2^-149`.
pub open spec fn single_magnitude(bits: u32) -> nat {
    let exponent = single_exponent(bits);
    if exponent == 0 {
        single_fraction(bits)
    } else {
        (0x80_0000 + single_fraction(bits)) * pow2((exponent - 1) as nat)
    }
}

/// The single is finite, at least zero and at most one.
pub open spec fn single_in_unit_interval(bits: u32) -> bool {
    &&& single_is_finite(bits)
    &&& !single_is_negative(bits) || single_magnitude(bits) == 0
    &&& single_magnitude(bits) <= pow2(149)
}

/// The single is zero or below, an infinity among them.
pub open spec fn single_at_most_zero(bits: u32) -> bool {
    &&& !single_is_nan(bits)
    &&& single_is_negative(bits) || (single_is_finite(bits) && single_magnitude(bits) == 0)
}

/// The single is greater than one, an infinity among them.
pub open spec fn single_above_one(bits: u32) -> bool {
    &&& !single_is_nan(bits)
    &&& !single_is_negative(bits)
    &&& !single_is_finite(bits) || single_magnitude(bits) > pow2(149)
}

/// The single is less than zero, an infinity among them.
pub open spec fn single_below_zero(bits: u32) -> bool {
    &&& !single_is_nan(bits)
    &&& single_is_negative(bits)
    &&& !single_is_finite(bits) || single_magnitude(bits) > 0
}

/// The single limited to the numbers from zero to one. A NaN stays what it is.
pub open spec fn single_limited_to_unit(bits: u32) -> u32 {
    if single_below_zero(bits) {
        0
    } else if single_above_one(bits) {
        0x3f80_0000
    } else {
        bits
    }
}

/// Limits a single to the numbers from zero to one. A NaN stays what it is.
pub fn limit_to_unit(bits: u32) -> (limited: u32)
    ensures
        limited == single_limited_to_unit(bits),
{
    proof {
        lemma_single_fields(bits);
        lemma_single_one(bits);
    }
    if bits > 0x8000_0000 && bits <= 0xff80_0000 {
        0
    } else if bits > 0x3f80_0000 && bits <= 0x7f80_0000 {
        0x3f80_0000
    } else {
        bits
    }
}

/// Limiting leaves a number from zero to one, keeps one that already is, and makes zero
/// exactly of what is zero or below.
pub proof fn law_limited_numbers_are_in_the_unit_interval(bits: u32)
    ensures
        !single_is_nan(bits) ==> single_in_unit_interval(single_limited_to_unit(bits)),
        single_in_unit_interval(bits) ==> single_limited_to_unit(bits) == bits,
        single_at_most_zero(single_limited_to_unit(bits)) == single_at_most_zero(bits),
{
    lemma_single_fields(bits);
    lemma_single_one(bits);
    lemma_single_zero(bits);
    lemma_single_one(0);
    lemma_single_zero(0);
    lemma_single_one(0x3f80_0000);
    lemma_single_zero(0x3f80_0000);
}

/// Tests whether a single is finite, at least zero and at most one.
pub fn is_in_unit_interval(bits: u32) -> (inside: bool)
    ensures
        inside == single_in_unit_interval(bits),
{
    proof {
        lemma_single_fields(bits);
        lemma_single_one(bits);
    }
    bits <= 0x3f80_0000 || bits == 0x8000_0000
}

/// Tests whether a single is zero or below.
pub fn is_at_most_zero(bits: u32) -> (low: bool)
    ensures
        low == single_at_most_zero(bits),
{
    proof {
        lemma_single_fields(bits);
        lemma_single_zero(bits);
    }
    bits == 0 || (bits >= 0x8000_0000 && bits <= 0xff80_0000)
}

proof fn lemma_single_fields(bits: u32)
    ensures
        bits as nat == (if single_is_negative(bits) {
            0x8000_0000nat
        } else {
            0
        }) + single_exponent(bits) * 0x80_0000 + single_fraction(bits),
        single_exponent(bits) < 0x100,
        single_fraction(bits) < 0x80_0000,
{
}

proof fn lemma_single_zero(bits: u32)
    ensures
        single_magnitude(bits) == 0 <==> bits == 0 || bits == 0x8000_0000,
{
    lemma_single_fields(bits);
    let exponent = single_exponent(bits);
    if exponent > 0 {
        vstd::arithmetic::power2::lemma_pow2_pos((exponent - 1) as nat);
        let significand = 0x80_0000 + single_fraction(bits);
        assert(significand * pow2((exponent - 1) as nat) > 0) by (nonlinear_arith)
            requires
                significand > 0,
                pow2((exponent - 1) as nat) > 0,
        ;
    }
}

proof fn lemma_single_one(bits: u32)
    ensures
        single_is_finite(bits) && single_magnitude(bits) <= pow2(149) <==> single_exponent(bits)
            < 127 || (single_exponent(bits) == 127 && single_fraction(bits) == 0),
        single_magnitude(bits) == 0 <==> bits == 0 || bits == 0x8000_0000,
{
    lemma_single_zero(bits);
    lemma_single_fields(bits);
    let exponent = single_exponent(bits);
    let fraction = single_fraction(bits);
    vstd::arithmetic::power2::lemma2_to64();
    vstd::arithmetic::power2::lemma_pow2_adds(23, 126);
    vstd::arithmetic::power2::lemma_pow2_adds(24, 125);
    vstd::arithmetic::power2::lemma_pow2_pos(126);
    let unit = pow2(126);
    if exponent == 0 {
        vstd::arithmetic::power2::lemma_pow2_strictly_increases(23, 149);
    } else if exponent < 127 {
        let scale = pow2((exponent - 1) as nat);
        if exponent < 126 {
            vstd::arithmetic::power2::lemma_pow2_strictly_increases((exponent - 1) as nat, 125);
        }
        let low = pow2(125);
        assert((0x80_0000 + fraction) * scale <= 0x100_0000 * low) by (nonlinear_arith)
            requires
                fraction < 0x80_0000,
                scale <= low,
        ;
    } else if exponent == 127 {
        assert((0x80_0000 + fraction) * unit <= 0x80_0000 * unit <==> fraction == 0)
            by (nonlinear_arith)
            requires
                unit > 0,
        ;
    } else {
        let scale = pow2((exponent - 1) as nat);
        vstd::arithmetic::power2::lemma_pow2_strictly_increases(126, (exponent - 1) as nat);
        assert((0x80_0000 + fraction) * scale > 0x80_0000 * unit) by (nonlinear_arith)
            requires
                scale > unit,
        ;
    }
}

/// The exponent field of a double.
pub open spec fn double_exponent(bits: u64) -> nat {
    (bits as nat / 0x10_0000_0000_0000) % 0x800
}

/// The fraction field of a double.
pub open spec fn double_fraction(bits: u64) -> nat {
    bits as nat % 0x10_0000_0000_0000
}

/// The double is neither an infinity nor a NaN.
pub open spec fn double_is_finite(bits: u64) -> bool {
    double_exponent(bits) != 0x7ff
}

/// The sign bit of the double is set.
pub open spec fn double_is_negative(bits: u64) -> bool {
    bits >= 0x8000_0000_0000_0000
}

/// The absolute value of a finite double in units of `2^-1074`.
pub open spec fn double_magnitude(bits: u64) -> nat {
    let exponent = double_exponent(bits);
    if exponent == 0 {
        double_fraction(bits)
    } else {
        (0x10_0000_0000_0000 + double_fraction(bits)) * pow2((exponent - 1) as nat)
    }
}

/// The double is a zero of either sign.
pub open spec fn double_is_zero(bits: u64) -> bool {
    double_is_finite(bits) && double_magnitude(bits) == 0
}

/// The double is finite and not below zero.
pub open spec fn double_is_finite_and_non_negative(bits: u64) -> bool {
    &&& double_is_finite(bits)
    &&& !double_is_negative(bits) || double_magnitude(bits) == 0
}

/// Tests whether a double is a zero of either sign.
pub fn is_zero(bits: u64) -> (zero: bool)
    ensures
        zero == double_is_zero(bits),
{
    proof {
        lemma_double_zero(bits);
    }
    bits == 0 || bits == 0x8000_0000_0000_0000
}

/// Tests whether a double is finite and not below zero.
pub fn is_finite_and_non_negative(bits: u64) -> (fits: bool)
    ensures
        fits == double_is_finite_and_non_negative(bits),
{
    proof {
        lemma_double_zero(bits);
        lemma_double_fields(bits);
    }
    bits < 0x7ff0_0000_0000_0000 || bits == 0x8000_0000_0000_0000
}

proof fn lemma_double_fields(bits: u64)
    ensures
        bits as nat == (if double_is_negative(bits) {
            0x8000_0000_0000_0000nat
        } else {
            0
        }) + double_exponent(bits) * 0x10_0000_0000_0000 + double_fraction(bits),
        double_exponent(bits) < 0x800,
        double_fraction(bits) < 0x10_0000_0000_0000,
{
}

proof fn lemma_double_zero(bits: u64)
    ensures
        double_magnitude(bits) == 0 <==> bits == 0 || bits == 0x8000_0000_0000_0000,
{
    lemma_double_fields(bits);
    let exponent = double_exponent(bits);
    if exponent > 0 {
        vstd::arithmetic::power2::lemma_pow2_pos((exponent - 1) as nat);
        let significand = 0x10_0000_0000_0000 + double_fraction(bits);
        assert(significand * pow2((exponent - 1) as nat) > 0) by (nonlinear_arith)
            requires
                significand > 0,
                pow2((exponent - 1) as nat) > 0,
        ;
    }
}

/// Singles by their bits: from zero to one are those up to the bits of one, and the
/// negative zero; zero or below are zero and all with a sign up to the negative infinity.
pub proof fn law_singles_by_their_bits(bits: u32)
    ensures
        single_in_unit_interval(bits) <==> bits <= 0x3f80_0000 || bits == 0x8000_0000,
        single_at_most_zero(bits) <==> bits == 0 || 0x8000_0000 <= bits <= 0xff80_0000,
{
    lemma_single_one(bits);
    lemma_single_zero(bits);
    lemma_single_fields(bits);
}

/// Limiting by bits: what is above the bits of one becomes one, what has a sign becomes
/// zero, and the rest stays, a negative zero and all that is no number among it.
pub proof fn law_limiting_by_bits(bits: u32)
    ensures
        bits <= 0x3f80_0000 ==> single_limited_to_unit(bits) == bits,
        0x3f80_0000 < bits <= 0x7f80_0000 ==> single_limited_to_unit(bits) == 0x3f80_0000,
        0x8000_0000 < bits <= 0xff80_0000 ==> single_limited_to_unit(bits) == 0,
        bits == 0x8000_0000 ==> single_limited_to_unit(bits) == bits,
        0x7f80_0000 < bits < 0x8000_0000 || bits > 0xff80_0000 ==> single_limited_to_unit(bits)
            == bits,
{
    lemma_single_one(bits);
    lemma_single_zero(bits);
    lemma_single_fields(bits);
}

/// Doubles by their bits: zeros are those without any bit but the sign, and finite and not
/// negative are those below the bits of infinity, and the negative zero.
pub proof fn law_doubles_by_their_bits(bits: u64)
    ensures
        double_is_zero(bits) <==> bits == 0 || bits == 0x8000_0000_0000_0000,
        double_is_finite_and_non_negative(bits) <==> bits < 0x7ff0_0000_0000_0000 || bits
            == 0x8000_0000_0000_0000,
{
    lemma_double_zero(bits);
    lemma_double_fields(bits);
}

} // verus!
