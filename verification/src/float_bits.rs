//! Single-precision numbers by their IEEE 754 bit patterns: which are numbers,
//! and how they compare. Arithmetic on them is not done here.

use vstd::arithmetic::power2::{lemma_pow2_pos, lemma_pow2_strictly_increases, lemma_pow2_unfold, pow2};
use vstd::prelude::*;

verus! {

/// The bit pattern of negative infinity.
pub const NEG_INFINITY_BITS: u32 = 0xff80_0000;

/// The bit pattern with all exponent bits set and no fraction: infinity.
pub const INFINITY_BITS: u32 = 0x7f80_0000;

/// The bit of the sign.
pub const SIGN_BIT: u32 = 0x8000_0000;

/// The exponent and the fraction of `bits`, as one number.
pub open spec fn magnitude(bits: u32) -> int {
    if bits >= SIGN_BIT {
        bits - SIGN_BIT
    } else {
        bits as int
    }
}

/// `bits` is the pattern of no number.
pub open spec fn is_nan(bits: u32) -> bool {
    magnitude(bits) > INFINITY_BITS
}

/// A number that orders the patterns of numbers as the numbers themselves are
/// ordered. The two zeros have the same rank.
pub open spec fn rank(bits: u32) -> int {
    if bits >= SIGN_BIT {
        -magnitude(bits)
    } else {
        magnitude(bits)
    }
}

/// `a < b` as numbers; false where one of them is no number.
pub open spec fn float_lt(a: u32, b: u32) -> bool {
    !is_nan(a) && !is_nan(b) && rank(a) < rank(b)
}

/// `a >= b` as numbers; false where one of them is no number.
pub open spec fn float_ge(a: u32, b: u32) -> bool {
    !is_nan(a) && !is_nan(b) && rank(a) >= rank(b)
}

/// The pattern of the absolute value.
pub open spec fn float_abs(bits: u32) -> u32 {
    magnitude(bits) as u32
}

/// Whether `bits` is the pattern of no number.
pub fn check_nan(bits: u32) -> (b: bool)
    ensures
        b == is_nan(bits),
{
    if bits >= SIGN_BIT {
        bits - SIGN_BIT > INFINITY_BITS
    } else {
        bits > INFINITY_BITS
    }
}

/// The rank of `bits`.
pub fn rank_of(bits: u32) -> (r: i64)
    ensures
        r == rank(bits),
        -0x8000_0000 <= r <= 0x8000_0000,
{
    if bits >= SIGN_BIT {
        -((bits - SIGN_BIT) as i64)
    } else {
        bits as i64
    }
}

/// Whether `a < b` as numbers.
pub fn check_lt(a: u32, b: u32) -> (r: bool)
    ensures
        r == float_lt(a, b),
{
    !check_nan(a) && !check_nan(b) && rank_of(a) < rank_of(b)
}

/// Whether `a >= b` as numbers.
pub fn check_ge(a: u32, b: u32) -> (r: bool)
    ensures
        r == float_ge(a, b),
{
    !check_nan(a) && !check_nan(b) && rank_of(a) >= rank_of(b)
}

/// The pattern of the absolute value.
pub fn abs_of(bits: u32) -> (r: u32)
    ensures
        r == float_abs(bits),
{
    if bits >= SIGN_BIT {
        bits - SIGN_BIT
    } else {
        bits
    }
}

/// Every number but negative infinity exceeds negative infinity.
pub proof fn above_negative_infinity(bits: u32)
    ensures
        float_lt(NEG_INFINITY_BITS, bits) == (!is_nan(bits) && bits != NEG_INFINITY_BITS),
{
}

/// The order is transitive and irreflexive.
pub proof fn float_lt_is_an_order(a: u32, b: u32, c: u32)
    ensures
        !float_lt(a, a),
        float_lt(a, b) && float_lt(b, c) ==> float_lt(a, c),
        float_lt(a, b) ==> !float_lt(b, a),
{
}

// ─── Values ──────────────────────────────────────────────────────────────────

/// The eight bits of the exponent.
pub open spec fn exponent_bits(bits: u32) -> int {
    bits as int / 0x80_0000 % 256
}

/// The twenty-three bits of the fraction.
pub open spec fn fraction_bits(bits: u32) -> int {
    bits as int % 0x80_0000
}

/// The absolute value of the number with these exponent and fraction bits, times two to
/// the power 149: with exponent bits `e > 0` the number is one and the fraction, times
/// two to the power `e - 127`; with none it is the fraction alone, times two to the power
/// -126. Infinity counts as the number that would come next.
pub open spec fn scaled_size(e: int, f: int) -> int {
    if e == 0 {
        f
    } else {
        (0x80_0000 + f) * pow2((e - 1) as nat)
    }
}

/// The number that a pattern stands for, times two to the power 149.
pub open spec fn single_value(bits: u32) -> int {
    let size = scaled_size(exponent_bits(bits), fraction_bits(bits));
    if bits as int / 0x8000_0000 == 1 {
        -size
    } else {
        size
    }
}

proof fn sizes_ascend(e: int, f: int, x: int, g: int)
    requires
        0 <= e <= 255,
        0 <= x <= 255,
        0 <= f < 0x80_0000,
        0 <= g < 0x80_0000,
        e * 0x80_0000 + f < x * 0x80_0000 + g,
    ensures
        scaled_size(e, f) < scaled_size(x, g),
        scaled_size(e, f) >= 0,
{
    if e > 0 {
        lemma_pow2_pos((e - 1) as nat);
        assert((0x80_0000 + f) * pow2((e - 1) as nat) >= 0) by (nonlinear_arith)
            requires
                f >= 0,
                pow2((e - 1) as nat) > 0,
        ;
    }
    if e == x {
        if e > 0 {
            assert((0x80_0000 + f) * pow2((e - 1) as nat) < (0x80_0000 + g) * pow2(
                (e - 1) as nat,
            )) by (nonlinear_arith)
                requires
                    f < g,
                    pow2((e - 1) as nat) > 0,
            ;
        }
    } else {
        assert(e < x);
        lemma_pow2_pos((x - 1) as nat);
        assert((0x80_0000 + g) * pow2((x - 1) as nat) >= 0x80_0000 * pow2((x - 1) as nat))
            by (nonlinear_arith)
            requires
                g >= 0,
                pow2((x - 1) as nat) > 0,
        ;
        if e == 0 {
            assert(0x80_0000 * pow2((x - 1) as nat) >= 0x80_0000) by (nonlinear_arith)
                requires
                    pow2((x - 1) as nat) > 0,
            ;
        } else {
            lemma_pow2_unfold(e as nat);
            assert((0x80_0000 + f) * pow2((e - 1) as nat) < 0x80_0000 * (2 * pow2(
                (e - 1) as nat,
            ))) by (nonlinear_arith)
                requires
                    f < 0x80_0000,
                    pow2((e - 1) as nat) > 0,
            ;
            if e < x - 1 {
                lemma_pow2_strictly_increases(e as nat, (x - 1) as nat);
            }
            assert(0x80_0000 * pow2(e as nat) <= 0x80_0000 * pow2((x - 1) as nat))
                by (nonlinear_arith)
                requires
                    pow2(e as nat) <= pow2((x - 1) as nat),
            ;
        }
    }
}

proof fn size_grows_with_magnitude(a: u32, b: u32)
    ensures
        magnitude(a) == exponent_bits(a) * 0x80_0000 + fraction_bits(a),
        magnitude(b) == exponent_bits(b) * 0x80_0000 + fraction_bits(b),
        magnitude(a) < magnitude(b) <==> scaled_size(exponent_bits(a), fraction_bits(a))
            < scaled_size(exponent_bits(b), fraction_bits(b)),
        magnitude(a) == 0 <==> scaled_size(exponent_bits(a), fraction_bits(a)) == 0,
        magnitude(b) == 0 <==> scaled_size(exponent_bits(b), fraction_bits(b)) == 0,
        scaled_size(exponent_bits(a), fraction_bits(a)) >= 0,
        scaled_size(exponent_bits(b), fraction_bits(b)) >= 0,
{
    let (e, f) = (exponent_bits(a), fraction_bits(a));
    let (x, g) = (exponent_bits(b), fraction_bits(b));
    if magnitude(a) < magnitude(b) {
        sizes_ascend(e, f, x, g);
    } else if magnitude(b) < magnitude(a) {
        sizes_ascend(x, g, e, f);
    }
    if magnitude(a) > 0 {
        sizes_ascend(0, 0, e, f);
    }
    if magnitude(b) > 0 {
        sizes_ascend(0, 0, x, g);
    }
}

/// Patterns compare as the numbers that they stand for. A pattern stands for no number
/// where its exponent bits are all set and its fraction bits are not all clear.
pub proof fn patterns_compare_by_value(a: u32, b: u32)
    ensures
        is_nan(a) <==> exponent_bits(a) == 255 && fraction_bits(a) != 0,
        float_lt(a, b) <==> !is_nan(a) && !is_nan(b) && single_value(a) < single_value(b),
        float_ge(a, b) <==> !is_nan(a) && !is_nan(b) && single_value(a) >= single_value(b),
        rank(a) < rank(b) <==> single_value(a) < single_value(b),
        rank(a) == rank(b) <==> single_value(a) == single_value(b),
{
    size_grows_with_magnitude(a, b);
    size_grows_with_magnitude(b, a);
}

/// The absolute value of a number has its size and no sign.
pub proof fn absolute_value_has_no_sign(a: u32)
    ensures
        single_value(float_abs(a)) == if single_value(a) < 0 {
            -single_value(a)
        } else {
            single_value(a)
        },
        is_nan(float_abs(a)) == is_nan(a),
{
    let b = float_abs(a);
    size_grows_with_magnitude(a, b);
}

} // verus!
