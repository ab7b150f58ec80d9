//! Between whole numbers and binary32 numbers, and the difference of two
//! binary32 numbers.

use vstd::prelude::*;
use vstd::arithmetic::div_mod::lemma_div_multiples_vanish_quotient;
use vstd::arithmetic::power2::{lemma2_to64, lemma_pow2_strictly_increases};
use vstd::bits::lemma_u64_shr_is_div;
use crate::addition::{sum, sum_of};
use crate::binary32::{is_infinite, is_nan, is_negative, nan, SIGN};
use crate::rounding::{
    decode,
    lemma_nearest_zero,
    lemma_two_to_adds,
    magnitude,
    round_scaled,
    rounded,
    two_to,
};

verus! {

/// Pattern of the whole number `v >= 0`: one is `2^149` units.
pub open spec fn number_of(v: int) -> u32 {
    rounded(v * two_to(149))
}

/// The pattern with the sign turned over.
pub open spec fn negated(bits: u32) -> u32 {
    if bits >= SIGN {
        (bits - SIGN) as u32
    } else {
        (bits + SIGN) as u32
    }
}

/// Pattern of `a - b`: the sum of `a` and the negated `b`.
pub open spec fn difference_of(a: u32, b: u32) -> u32 {
    sum_of(a, negated(b))
}

/// Whole part of the magnitude of a finite number.
pub open spec fn whole_part(bits: u32) -> int {
    magnitude(bits) / two_to(149)
}

/// The number as a byte: the fraction is dropped, what lies below 0
/// becomes 0 and what lies above 255 becomes 255. A NaN becomes 0.
pub open spec fn byte_of(bits: u32) -> u8 {
    if is_nan(bits) || is_negative(bits) {
        0
    } else if is_infinite(bits) || whole_part(bits) > 255 {
        255
    } else {
        whole_part(bits) as u8
    }
}

/// The byte `v` as a binary32 number.
pub fn from_byte(v: u8) -> (bits: u32)
    ensures
        bits == number_of(v as int),
{
    if v == 0 {
        proof {
            assert(0 * two_to(149) == 0) by (nonlinear_arith);
            lemma_nearest_zero(1);
        }
        0
    } else {
        round_scaled(v as u64, 149)
    }
}

/// `a - b`.
pub fn difference(a: u32, b: u32) -> (result: u32)
    ensures
        result == difference_of(a, b),
{
    let turned: u32 = if b >= SIGN {
        b - SIGN
    } else {
        b + SIGN
    };
    sum(a, turned)
}

/// The number as a byte.
pub fn to_byte(bits: u32) -> (byte: u8)
    ensures
        byte == byte_of(bits),
{
    if nan(bits) || bits >= SIGN {
        return 0;
    }
    let (_negative, m, e) = decode(bits);
    if e == 255 {
        return 255;
    }
    proof {
        lemma2_to64();
        lemma_two_to_adds(e - 1, 0);
    }
    if e >= 150 {
        proof {
            lemma_two_to_adds(149, e - 150);
            let p = two_to(e - 150);
            let k = magnitude(bits);
            assert(k == (m * p) * two_to(149)) by (nonlinear_arith)
                requires
                    k == m * two_to(e - 1),
                    two_to(e - 1) == two_to(149) * p,
            ;
            vstd::arithmetic::div_mod::lemma_div_by_multiple(m * p, two_to(149));
            assert(m * p >= 0x80_0000) by (nonlinear_arith)
                requires
                    m >= 0x80_0000,
                    p >= 1,
            ;
        }
        return 255;
    }
    let shift: u32 = 150 - e;
    proof {
        lemma_two_to_adds(e - 1, shift as int);
        lemma_div_multiples_vanish_quotient(two_to(e - 1), m as int, two_to(shift as int));
        assert(two_to(e - 1) * m == m * two_to(e - 1)) by (nonlinear_arith);
        assert(whole_part(bits) == m as int / two_to(shift as int));
    }
    if shift >= 24 {
        proof {
            if shift > 24 {
                lemma_pow2_strictly_increases(24, shift as nat);
            }
            let p = two_to(shift as int);
            assert(m as int / p == 0) by (nonlinear_arith)
                requires
                    0 <= m < p,
            ;
        }
        return 0;
    }
    proof {
        lemma_u64_shr_is_div(m, shift as u64);
    }
    let whole: u64 = m >> (shift as u64);
    if whole > 255 {
        255
    } else {
        whole as u8
    }
}

} // verus!
