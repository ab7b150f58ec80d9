//! From the radius of a blur to the number of samples of its kernel.

use vstd::prelude::*;
use vstd::arithmetic::div_mod::{lemma_div_by_multiple, lemma_div_multiples_vanish_quotient};
use vstd::arithmetic::power2::{
    lemma2_to64,
    lemma2_to64_rest,
    lemma_pow2_pos,
    lemma_pow2_strictly_increases,
    pow2,
};
use vstd::bits::{lemma_u64_shl_is_mul, lemma_u64_shr_is_div};
use crate::binary32::{is_infinite, is_nan, is_negative, scale, significand};
use crate::rounding::{lemma_pattern_of_parts, lemma_two_to, lemma_two_to_adds, magnitude, two_to};

verus! {

/// `floor(2 * |r|)` for the finite number `r` with the pattern `bits`.
pub open spec fn doubled_floor(bits: u32) -> int {
    (2 * magnitude(bits)) / two_to(149)
}

/// `2 * r` converted to an unsigned integer of the machine's word size:
/// the fractional part is dropped, NaN and negative numbers give 0, and
/// what is too large, infinity included, gives the largest integer.
pub open spec fn doubled_floor_saturating(bits: u32) -> int {
    if is_nan(bits) || is_negative(bits) {
        0
    } else if is_infinite(bits) || doubled_floor(bits) > usize::MAX {
        usize::MAX as int
    } else {
        doubled_floor(bits)
    }
}

/// Number of samples in the kernel of a blur of radius `r`:
/// `floor(2 * r) + 1`.
pub open spec fn kernel_size_of(radius_bits: u32) -> int {
    doubled_floor_saturating(radius_bits) + 1
}

/// `floor(2 * |r|)` is the significand, shifted by the scale: to the left
/// from the scale 149 on, to the right below it.
pub proof fn lemma_doubled_floor(bits: u32)
    ensures
        0 <= doubled_floor(bits),
        scale(bits) >= 149 ==> doubled_floor(bits) == significand(bits) * pow2(
            (scale(bits) - 149) as nat,
        ),
        scale(bits) < 149 ==> doubled_floor(bits) == significand(bits) / (pow2(
            (149 - scale(bits)) as nat,
        ) as int),
{
    let m = significand(bits);
    let e = scale(bits);
    lemma_pattern_of_parts(bits);
    lemma_two_to(e - 1);
    let doubled = 2 * magnitude(bits);
    assert(doubled == m * two_to(e)) by (nonlinear_arith)
        requires
            doubled == 2 * (m * two_to(e - 1)),
            two_to(e) == 2 * two_to(e - 1),
    ;
    if e >= 149 {
        lemma_two_to_adds(149, e - 149);
        let p = two_to(e - 149);
        assert(doubled == (m * p) * two_to(149)) by (nonlinear_arith)
            requires
                doubled == m * two_to(e),
                two_to(e) == two_to(149) * p,
        ;
        lemma_div_by_multiple(m * p, two_to(149));
        assert(0 <= m * p) by (nonlinear_arith)
            requires
                0 <= m,
                0 < p,
        ;
    } else {
        lemma_two_to_adds(e, 149 - e);
        let p = two_to(149 - e);
        lemma_div_multiples_vanish_quotient(two_to(e), m, p);
        assert(two_to(e) * m == m * two_to(e)) by (nonlinear_arith);
        assert(0 <= m / p) by (nonlinear_arith)
            requires
                0 <= m,
                0 < p,
        ;
    }
}

/// A kernel has at least one sample.
pub proof fn lemma_kernel_size_positive(radius_bits: u32)
    ensures
        kernel_size_of(radius_bits) >= 1,
{
    lemma_doubled_floor(radius_bits);
}

/// The kernel of a radius below `2^30`, of a negative radius and of a
/// NaN can be counted on every machine.
pub proof fn lemma_kernel_size_fits(radius_bits: u32)
    requires
        radius_bits < 0x4e80_0000 || is_negative(radius_bits) || is_nan(radius_bits),
    ensures
        1 <= kernel_size_of(radius_bits) <= 0x8000_0000,
        kernel_size_of(radius_bits) <= usize::MAX,
{
    lemma_kernel_size_positive(radius_bits);
    lemma_doubled_floor(radius_bits);
    if !is_negative(radius_bits) && !is_nan(radius_bits) {
        let s = significand(radius_bits);
        let e = scale(radius_bits);
        assert(e <= 156);
        lemma2_to64();
        if e >= 149 {
            let p = pow2((e - 149) as nat);
            if e < 156 {
                lemma_pow2_strictly_increases((e - 149) as nat, 7);
            }
            assert(s * p < 0x8000_0000) by (nonlinear_arith)
                requires
                    0 <= s < 0x100_0000,
                    0 <= p <= 0x80,
            ;
        } else {
            let p = pow2((149 - e) as nat) as int;
            lemma_pow2_pos((149 - e) as nat);
            assert(s / p <= s) by (nonlinear_arith)
                requires
                    0 <= s,
                    0 < p,
            ;
        }
    }
}

/// The kernel size for a blur radius, unless it exceeds `usize`.
pub fn checked_kernel_size(radius_bits: u32) -> (kernel: Option<usize>)
    ensures
        match kernel {
            Some(k) => k == kernel_size_of(radius_bits),
            None => kernel_size_of(radius_bits) > usize::MAX,
        },
{
    if radius_bits >= 0x8000_0000 {
        return Some(1);
    }
    let field: u32 = (radius_bits / 0x80_0000) % 0x100;
    let fraction: u32 = radius_bits % 0x80_0000;
    if field == 0xff {
        return if fraction != 0 {
            Some(1)
        } else {
            None
        };
    }
    let m: u64 = if field == 0 {
        fraction as u64
    } else {
        0x80_0000 + fraction as u64
    };
    let e: u32 = if field == 0 {
        1
    } else {
        field
    };
    proof {
        lemma2_to64();
        lemma2_to64_rest();
        lemma_doubled_floor(radius_bits);
    }
    if e < 149 {
        let shift: u32 = 149 - e;
        if shift >= 24 {
            proof {
                if shift > 24 {
                    lemma_pow2_strictly_increases(24, shift as nat);
                }
                let p = pow2(shift as nat) as int;
                assert(m as int / p == 0) by (nonlinear_arith)
                    requires
                        0 <= m < p,
                ;
            }
            Some(1)
        } else {
            proof {
                lemma_u64_shr_is_div(m, shift as u64);
            }
            let reach: u64 = m >> (shift as u64);
            Some(reach as usize + 1)
        }
    } else {
        let shift: u32 = e - 149;
        if shift >= 41 {
            proof {
                if shift > 41 {
                    lemma_pow2_strictly_increases(41, shift as nat);
                }
                let p = pow2(shift as nat) as int;
                assert(m * p >= 0x1_0000_0000_0000_0000) by (nonlinear_arith)
                    requires
                        m >= 0x80_0000,
                        p >= 0x200_0000_0000,
                ;
            }
            None
        } else {
            proof {
                if shift < 40 {
                    lemma_pow2_strictly_increases(shift as nat, 40);
                }
                let p = pow2(shift as nat) as int;
                assert(m * p <= 0xffff_ffff_ffff_ffff) by (nonlinear_arith)
                    requires
                        0 <= m < 0x100_0000,
                        0 <= p <= 0x100_0000_0000,
                ;
                lemma_u64_shl_is_mul(m, shift as u64);
            }
            let reach: u64 = m << (shift as u64);
            if reach >= usize::MAX as u64 {
                None
            } else {
                Some(reach as usize + 1)
            }
        }
    }
}

/// The kernel size for a blur radius.
pub fn kernel_size(radius_bits: u32) -> (kernel: usize)
    requires
        kernel_size_of(radius_bits) <= usize::MAX,
    ensures
        kernel == kernel_size_of(radius_bits),
        kernel > 0,
{
    proof {
        lemma_kernel_size_positive(radius_bits);
    }
    checked_kernel_size(radius_bits).unwrap()
}

} // verus!
