//! Multiplication of binary32 numbers on their bit patterns: the exact
//! product, rounded to the nearest number, ties to the even significand.

use vstd::prelude::*;
use crate::binary32::{is_infinite, is_nan, is_negative, nan, scale, significand, INFINITY, QUIET_NAN, SIGN};
use crate::rounding::{
    decode,
    lemma_nearest_zero,
    lemma_two_to,
    round_fraction,
    round_scaled,
    rounded,
    rounded_fraction,
    two_to,
};

verus! {

/// The sign bit of a product: set if exactly one factor is negative.
pub open spec fn product_sign(a: u32, b: u32) -> u32 {
    if is_negative(a) != is_negative(b) {
        SIGN
    } else {
        0
    }
}

/// Pattern of the product of two numbers.
///
/// A NaN factor, and an infinity times zero, give the quiet NaN. An
/// infinity times anything else gives an infinity. Two finite numbers
/// give their exact product, rounded. The sign is that of the factors
/// multiplied, for a product of zero as well.
///
/// With the significands `m` and the scales `e` of the factors, the
/// product is `m_a * m_b * 2^(e_a + e_b - 300)`, which is
/// `m_a * m_b * 2^(e_a + e_b - 151)` units of `2^-149`.
pub open spec fn product_of(a: u32, b: u32) -> u32 {
    if is_nan(a) || is_nan(b) {
        QUIET_NAN
    } else if is_infinite(a) || is_infinite(b) {
        if (!is_infinite(a) && significand(a) == 0) || (!is_infinite(b) && significand(b) == 0) {
            QUIET_NAN
        } else {
            (product_sign(a, b) + INFINITY) as u32
        }
    } else {
        let m = significand(a) * significand(b);
        let e = scale(a) + scale(b) - 151;
        (product_sign(a, b) + (if e >= 0 {
            rounded(m * two_to(e))
        } else {
            rounded_fraction(m, -e)
        })) as u32
    }
}

/// Product of two binary32 numbers.
///
/// Two finite numbers give their exact product, rounded to the nearest
/// number, a tie to the even significand, and infinity where the product
/// lies beyond the largest finite number. Every product that is no
/// number is the quiet NaN.
pub fn product(a: u32, b: u32) -> (result: u32)
    ensures
        result == product_of(a, b),
{
    if nan(a) || nan(b) {
        return QUIET_NAN;
    }
    let (a_negative, a_m, a_e) = decode(a);
    let (b_negative, b_m, b_e) = decode(b);
    let sign: u32 = if a_negative != b_negative {
        SIGN
    } else {
        0
    };
    if a_e == 255 || b_e == 255 {
        return if (a_e != 255 && a_m == 0) || (b_e != 255 && b_m == 0) {
            QUIET_NAN
        } else {
            sign + INFINITY
        };
    }
    assert(a_m * b_m < 0x1_0000_0000_0000) by (nonlinear_arith)
        requires
            0 <= a_m < 0x100_0000,
            0 <= b_m < 0x100_0000,
    ;
    let m: u64 = a_m * b_m;
    let e: u32 = a_e + b_e;
    if m == 0 {
        proof {
            if e >= 151 {
                lemma_two_to(e - 151);
                assert(0 * two_to(e - 151) == 0) by (nonlinear_arith);
                lemma_nearest_zero(1);
            } else {
                lemma_two_to(151 - e);
                lemma_nearest_zero(two_to(151 - e));
            }
        }
        return sign;
    }
    let magnitude: u32 = if e >= 151 {
        round_scaled(m, e - 151)
    } else {
        round_fraction(m, 151 - e)
    };
    sign + magnitude
}

} // verus!
