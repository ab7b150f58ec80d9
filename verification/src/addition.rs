//! Addition of binary32 numbers on their bit patterns: the exact sum,
//! rounded to the nearest number, ties to the even significand.

use vstd::prelude::*;
use vstd::arithmetic::div_mod::lemma_fundamental_div_mod_converse;
use vstd::arithmetic::power2::{lemma2_to64, lemma_pow2_strictly_increases, pow2};
use vstd::bits::lemma_u64_shl_is_mul;
use crate::binary32::{
    exponent_field,
    is_infinite,
    is_nan,
    is_negative,
    nan,
    scale,
    QUIET_NAN,
    SIGN,
};
use crate::rounding::{
    decode,
    lemma_excess_bits,
    lemma_pattern_of_parts,
    lemma_two_to,
    lemma_two_to_adds,
    magnitude,
    round_scaled,
    rounded,
    rounded_unbounded,
    signed_magnitude,
    two_to,
};

verus! {

/// Pattern of the sum of two numbers.
///
/// A NaN operand, and the sum of two infinities of opposite sign, give
/// the quiet NaN. An infinity and anything else give that infinity. Two
/// finite numbers give their exact sum, rounded; a sum of zero is
/// positive, unless both operands are negative.
pub open spec fn sum_of(a: u32, b: u32) -> u32 {
    if is_nan(a) || is_nan(b) {
        QUIET_NAN
    } else if is_infinite(a) {
        if is_infinite(b) && is_negative(a) != is_negative(b) {
            QUIET_NAN
        } else {
            a
        }
    } else if is_infinite(b) {
        b
    } else {
        let k = signed_magnitude(a) + signed_magnitude(b);
        if k == 0 {
            if is_negative(a) && is_negative(b) {
                SIGN
            } else {
                0
            }
        } else if k > 0 {
            rounded(k)
        } else {
            (SIGN + rounded(-k)) as u32
        }
    }
}

/// A normal number absorbs what is less than a quarter of the weight of
/// its last bit: added or subtracted, it leaves the number as it was.
pub proof fn lemma_absorbs(m: int, e: int, small: int)
    requires
        0x80_0000 <= m < 0x100_0000,
        1 <= e,
        0 <= small,
        4 * small < two_to(e),
    ensures
        rounded_unbounded(m * two_to(e) + small) == e * 0x80_0000 + m,
        rounded_unbounded(m * two_to(e) - small) == e * 0x80_0000 + m,
{
    lemma_two_to(e);
    lemma_two_to(e - 1);
    let u = two_to(e);
    let up = m * u + small;
    assert(0x80_0000 * u <= up < 0x100_0000 * u && up == u * m + small) by (nonlinear_arith)
        requires
            up == m * u + small,
            0x80_0000 <= m < 0x100_0000,
            0 <= small,
            4 * small < u,
    ;
    lemma_excess_bits(up, e);
    lemma_fundamental_div_mod_converse(up, u, m, small);
    let down = m * u - small;
    if small == 0 {
        assert(down == up);
    } else if m > 0x80_0000 {
        assert(0x80_0000 * u <= down < 0x100_0000 * u && down == u * (m - 1) + (u - small))
            by (nonlinear_arith)
            requires
                down == m * u - small,
                0x80_0000 < m < 0x100_0000,
                0 < small,
                4 * small < u,
        ;
        lemma_excess_bits(down, e);
        lemma_fundamental_div_mod_converse(down, u, m - 1, u - small);
    } else {
        let h = two_to(e - 1);
        assert(u == 2 * h);
        assert(e - 1 > 0) by {
            if e - 1 == 0 {
                assert(h == 1);
            }
        }
        assert(0x80_0000 * h <= down < 0x100_0000 * h && down == h * 0xff_ffff + (h - small))
            by (nonlinear_arith)
            requires
                down == m * u - small,
                m == 0x80_0000,
                u == 2 * h,
                0 < small,
                4 * small < u,
        ;
        lemma_excess_bits(down, e - 1);
        lemma_fundamental_div_mod_converse(down, h, 0xff_ffff, h - small);
    }
}

/// Addition does not depend on the order of its operands.
pub proof fn lemma_sum_commutes(a: u32, b: u32)
    ensures
        sum_of(a, b) == sum_of(b, a),
{
    lemma_pattern_of_parts(a);
    lemma_pattern_of_parts(b);
}

/// Sum of two finite numbers, the first of which has the scale that is
/// not the smaller one.
fn sum_ordered(x: u32, y: u32) -> (total: u32)
    requires
        exponent_field(x) != 255,
        exponent_field(y) != 255,
        scale(x) >= scale(y),
    ensures
        total == sum_of(x, y),
{
    let (x_negative, x_m, x_e) = decode(x);
    let (y_negative, y_m, y_e) = decode(y);
    let d: u32 = x_e - y_e;
    let ghost p = two_to(y_e - 1);
    let ghost kx = magnitude(x);
    let ghost ky = magnitude(y);
    proof {
        lemma_two_to_adds(d as int, y_e - 1);
        lemma2_to64();
        assert(ky == y_m * p);
        assert(kx == x_m * (two_to(d as int) * p));
    }
    if d > 32 {
        proof {
            lemma_pow2_strictly_increases(32, d as nat);
            let u = two_to(x_e - 1);
            assert(4 * ky < u) by (nonlinear_arith)
                requires
                    ky == y_m * p,
                    0 <= y_m < 0x100_0000,
                    u == two_to(d as int) * p,
                    two_to(d as int) > 0x1_0000_0000,
                    0 < p,
            ;
            assert(0 <= ky) by (nonlinear_arith)
                requires
                    ky == y_m * p,
                    0 <= y_m,
                    0 < p,
            ;
            assert(kx > ky) by (nonlinear_arith)
                requires
                    kx == x_m * u,
                    x_m >= 0x80_0000,
                    4 * ky < u,
                    0 < u,
            ;
            lemma_absorbs(x_m as int, x_e - 1, ky);
        }
        return x;
    }
    proof {
        if d < 32 {
            lemma_pow2_strictly_increases(d as nat, 32);
        }
        assert(x_m * pow2(d as nat) <= 0xffff_ffff_ffff_ffff) by (nonlinear_arith)
            requires
                0 <= x_m < 0x100_0000,
                0 < pow2(d as nat) <= 0x1_0000_0000,
        ;
        lemma_u64_shl_is_mul(x_m, d as u64);
    }
    let t: u64 = x_m << (d as u64);
    proof {
        assert(kx == t * p) by (nonlinear_arith)
            requires
                kx == x_m * (two_to(d as int) * p),
                t == x_m * two_to(d as int),
        ;
        assert(t < 0x100_0000_0000_0000) by (nonlinear_arith)
            requires
                t == x_m * two_to(d as int),
                0 <= x_m < 0x100_0000,
                0 < two_to(d as int) <= 0x1_0000_0000,
        ;
    }
    let negative: bool;
    let v: u64;
    if x_negative == y_negative {
        negative = x_negative;
        v = t + y_m;
    } else if t >= y_m {
        negative = x_negative;
        v = t - y_m;
    } else {
        negative = y_negative;
        v = y_m - t;
    }
    proof {
        let k = signed_magnitude(x) + signed_magnitude(y);
        let w: int = if negative {
            -(v as int)
        } else {
            v as int
        };
        assert(k == w * p) by (nonlinear_arith)
            requires
                kx == t * p,
                ky == y_m * p,
                k == (if x_negative {
                    -kx
                } else {
                    kx
                }) + (if y_negative {
                    -ky
                } else {
                    ky
                }),
                w == (if x_negative {
                    -(t as int)
                } else {
                    t as int
                }) + (if y_negative {
                    -(y_m as int)
                } else {
                    y_m as int
                }),
        ;
        assert(v == 0 ==> k == 0) by (nonlinear_arith)
            requires
                k == w * p,
                v == 0 ==> w == 0,
        ;
        assert(v > 0 ==> (if negative {
            -k
        } else {
            k
        }) == v * p && v * p > 0) by (nonlinear_arith)
            requires
                k == w * p,
                w == (if negative {
                    -(v as int)
                } else {
                    v as int
                }),
                0 < p,
        ;
    }
    if v == 0 {
        return if x_negative && y_negative {
            SIGN
        } else {
            0
        };
    }
    let pattern: u32 = round_scaled(v, y_e - 1);
    if negative {
        SIGN + pattern
    } else {
        pattern
    }
}

/// Sum of two binary32 numbers.
///
/// Two finite numbers give their exact sum, rounded to the nearest
/// number, a tie to the even significand, and infinity where the sum lies
/// beyond the largest finite number. Every sum that is no number is the
/// quiet NaN.
pub fn sum(a: u32, b: u32) -> (total: u32)
    ensures
        total == sum_of(a, b),
{
    if nan(a) || nan(b) {
        return QUIET_NAN;
    }
    let (a_negative, _a_m, a_e) = decode(a);
    let (b_negative, _b_m, b_e) = decode(b);
    if a_e == 255 {
        return if b_e == 255 && a_negative != b_negative {
            QUIET_NAN
        } else {
            a
        };
    }
    if b_e == 255 {
        return b;
    }
    if a_e >= b_e {
        sum_ordered(a, b)
    } else {
        proof {
            lemma_sum_commutes(a, b);
        }
        sum_ordered(b, a)
    }
}

} // verus!
