//! IEEE 754 binary32 numbers, carried as their bit patterns.
//!
//! A binary32 number has a sign bit, eight bits of biased exponent and
//! twenty-three bits of fraction. With `e` the exponent field (counted as
//! 1 where it is 0) and `m` the significand, a finite number is
//! `m * 2^(e - 150)`, negated if the sign bit is set.

use vstd::prelude::*;

verus! {

/// The pattern that stands for a sum that is no number.
pub const QUIET_NAN: u32 = 0x7fc0_0000;

/// The pattern of positive infinity.
pub const INFINITY: u32 = 0x7f80_0000;

/// The sign bit.
pub const SIGN: u32 = 0x8000_0000;

/// The pattern of the number one.
pub const ONE: u32 = 0x3f80_0000;

/// The sign bit is set.
pub open spec fn is_negative(bits: u32) -> bool {
    bits >= 0x8000_0000
}

/// The biased exponent field.
pub open spec fn exponent_field(bits: u32) -> int {
    (bits as int / 0x80_0000) % 0x100
}

/// The fraction field.
pub open spec fn fraction_field(bits: u32) -> int {
    bits as int % 0x80_0000
}

/// The pattern is a NaN.
pub open spec fn is_nan(bits: u32) -> bool {
    exponent_field(bits) == 0xff && fraction_field(bits) != 0
}

/// The pattern is an infinity.
pub open spec fn is_infinite(bits: u32) -> bool {
    exponent_field(bits) == 0xff && fraction_field(bits) == 0
}

/// The significand of a finite number: the fraction, with the implicit
/// leading bit unless the number is subnormal.
pub open spec fn significand(bits: u32) -> int {
    if exponent_field(bits) == 0 {
        fraction_field(bits)
    } else {
        0x80_0000 + fraction_field(bits)
    }
}

/// The exponent of a finite number, biased by 150 against its significand.
pub open spec fn scale(bits: u32) -> int {
    if exponent_field(bits) == 0 {
        1
    } else {
        exponent_field(bits)
    }
}

/// The place of a number that is no NaN in the order of the numbers: the
/// bits below the sign, negated if the sign is set. The two zeros share
/// the place 0.
pub open spec fn order_key(bits: u32) -> int {
    if is_negative(bits) {
        0x8000_0000 - bits as int
    } else {
        bits as int
    }
}

/// `a > b` as numbers: false whenever one of them is a NaN.
pub open spec fn is_greater(a: u32, b: u32) -> bool {
    !is_nan(a) && !is_nan(b) && order_key(a) > order_key(b)
}

/// The number lies between minus one and one.
pub open spec fn is_unit(bits: u32) -> bool {
    !is_nan(bits) && -order_key(ONE) <= order_key(bits) <= order_key(ONE)
}

/// Whether the pattern is a NaN.
pub fn nan(bits: u32) -> (b: bool)
    ensures
        b == is_nan(bits),
{
    (bits / 0x80_0000) % 0x100 == 0xff && bits % 0x80_0000 != 0
}

/// Whether `a > b` as numbers.
pub fn greater(a: u32, b: u32) -> (g: bool)
    ensures
        g == is_greater(a, b),
{
    if nan(a) || nan(b) {
        return false;
    }
    let a_negative: bool = a >= 0x8000_0000;
    let b_negative: bool = b >= 0x8000_0000;
    if a_negative {
        b_negative && a < b
    } else if b_negative {
        a > 0 || b > 0x8000_0000
    } else {
        a > b
    }
}

} // verus!
