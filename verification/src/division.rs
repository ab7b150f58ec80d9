//! The binary32 number nearest to a ratio of two whole numbers.

use vstd::prelude::*;
use vstd::arithmetic::div_mod::{
    lemma_div_denominator,
    lemma_fundamental_div_mod,
    lemma_fundamental_div_mod_converse,
};
use vstd::arithmetic::power2::{lemma2_to64, lemma2_to64_rest, lemma_pow2_strictly_increases};
use crate::rounding::{
    drop_low_bits,
    excess_bits,
    lemma_excess_bits,
    lemma_excess_bits_bounds,
    lemma_nearest_zero,
    lemma_one_more_bit,
    lemma_two_to,
    lemma_two_to_adds,
    nearest,
    nearest_quotient,
    two_to,
};

verus! {

/// Pattern of the number nearest to `p / q`, for whole numbers `p >= 0`
/// and `q > 0`: one is `2^149` units.
pub open spec fn ratio_of(p: int, q: int) -> u32 {
    nearest(p * two_to(149), q)
}

/// The quotient of a number between two multiples of the divisor.
proof fn lemma_quotient_between(p: int, d: int, low: int, high: int)
    requires
        0 < d,
        d * low <= p < d * high,
    ensures
        low <= p / d < high,
{
    lemma_fundamental_div_mod(p, d);
    let k = p / d;
    assert(low <= k < high) by (nonlinear_arith)
        requires
            p == d * k + p % d,
            0 <= p % d < d,
            d * low <= p < d * high,
            0 < d,
    ;
}

/// Rounding the ratio `((v * q + rem) * 2^e) / q`, where `rem < q` and
/// `v` has `n >= 1` bits in excess: the quotient is `v / 2^n`, bit
/// `n - 1` of `v` says whether the remainder reaches one half, and the
/// bits below it, together with `rem`, whether it goes beyond.
pub proof fn lemma_rounded_ratio(p: int, q: int, v: int, rem: int, n: int, e: int)
    requires
        0 < q,
        0 <= rem < q,
        0 <= v,
        1 <= n,
        0 <= e,
        p == (v * q + rem) * two_to(e),
        0x80_0000 <= v / two_to(n) < 0x100_0000,
    ensures
        excess_bits(p / q) == n + e,
        nearest_quotient(p, q * two_to(n + e)) == v / two_to(n) + (if (v / two_to(n - 1)) % 2 == 1
            && (v % two_to(n - 1) != 0 || rem != 0 || (v / two_to(n)) % 2 == 1) {
            1int
        } else {
            0int
        }),
{
    let pe = two_to(e);
    let pn = two_to(n);
    let half = two_to(n - 1);
    lemma_two_to(e);
    lemma_two_to(n);
    lemma_two_to(n - 1);
    lemma_two_to_adds(n, e);
    lemma_fundamental_div_mod(v, pn);
    lemma_one_more_bit(v, n - 1);
    let t = v / pn;
    let low_n = v % pn;
    let bit = (v / half) % 2;
    let low = v % half;
    assert(pn == 2 * half);
    assert(low_n == bit * half + low);
    assert(bit == 0 || bit == 1);
    // The whole quotient lies between `v * 2^e` and `(v + 1) * 2^e`.
    assert(q * (v * pe) <= p < q * ((v + 1) * pe)) by (nonlinear_arith)
        requires
            p == (v * q + rem) * pe,
            0 <= rem < q,
            0 < pe,
    ;
    lemma_quotient_between(p, q, v * pe, (v + 1) * pe);
    let k = p / q;
    assert(0x80_0000 * (pn * pe) <= v * pe && (v + 1) * pe <= 0x100_0000 * (pn * pe))
        by (nonlinear_arith)
        requires
            v == pn * t + low_n,
            0 <= low_n < pn,
            0x80_0000 <= t < 0x100_0000,
            0 < pe,
    ;
    lemma_excess_bits(k, n + e);
    // The quotient by `q * 2^(n + e)` is `t`, with the remainder
    // `(low_n * q + rem) * 2^e`.
    let d = q * (pn * pe);
    let r = (low_n * q + rem) * pe;
    assert(p == d * t + r && 0 <= r < d) by (nonlinear_arith)
        requires
            p == (v * q + rem) * pe,
            v == pn * t + low_n,
            0 <= low_n < pn,
            0 <= rem < q,
            0 < pe,
            d == q * (pn * pe),
            r == (low_n * q + rem) * pe,
    ;
    lemma_fundamental_div_mod_converse(p, d, t, r);
    // Twice the remainder against the divisor.
    if bit == 0 {
        assert(low_n == low) by (nonlinear_arith)
            requires
                low_n == bit * half + low,
                bit == 0,
        ;
        assert(2 * r < d) by (nonlinear_arith)
            requires
                r == (low_n * q + rem) * pe,
                d == q * (pn * pe),
                pn == 2 * half,
                0 <= low_n < half,
                0 <= rem < q,
                0 < pe,
        ;
    } else {
        assert(low_n == half + low) by (nonlinear_arith)
            requires
                low_n == bit * half + low,
                bit == 1,
        ;
        assert(2 * r - d == 2 * ((low * q + rem) * pe)) by (nonlinear_arith)
            requires
                r == (low_n * q + rem) * pe,
                d == q * (pn * pe),
                pn == 2 * half,
                low_n == half + low,
        ;
        assert(((low * q + rem) * pe > 0) == (low != 0 || rem != 0) && (low * q + rem) * pe >= 0)
            by (nonlinear_arith)
            requires
                0 <= low,
                0 <= rem,
                0 < q,
                0 < pe,
        ;
    }
}

/// A ratio of at most one rounds to at most one.
pub proof fn lemma_ratio_at_most_one(p: int, q: int)
    requires
        0 <= p <= q,
        0 < q,
    ensures
        ratio_of(p, q) <= 0x3f80_0000,
{
    let unit = two_to(149);
    let whole = p * unit;
    lemma_two_to(149);
    lemma_two_to_adds(23, 126);
    lemma2_to64();
    if p == q {
        let d = q * two_to(126);
        assert(whole == q * unit + 0);
        lemma_fundamental_div_mod_converse(whole, q, unit, 0);
        lemma_excess_bits(unit, 126);
        assert(whole == d * 0x80_0000 + 0 && 0 < d) by (nonlinear_arith)
            requires
                whole == q * unit,
                unit == 0x80_0000 * two_to(126),
                d == q * two_to(126),
                0 < q,
                0 < two_to(126),
        ;
        lemma_fundamental_div_mod_converse(whole, d, 0x80_0000, 0);
    } else {
        assert(q * 0 <= whole < q * unit) by (nonlinear_arith)
            requires
                whole == p * unit,
                0 <= p < q,
                0 < unit,
        ;
        lemma_quotient_between(whole, q, 0, unit);
        let k = whole / q;
        lemma_excess_bits_bounds(k);
        let s = excess_bits(k);
        lemma_two_to(s);
        if s >= 126 {
            if s > 126 {
                lemma_pow2_strictly_increases(126, s as nat);
            }
            assert(false) by (nonlinear_arith)
                requires
                    0x80_0000 * two_to(s) <= k,
                    k < unit,
                    unit == 0x80_0000 * two_to(126),
                    two_to(s) >= two_to(126),
            ;
        }
        lemma_div_denominator(whole, q, two_to(s));
        lemma_quotient_between(k, two_to(s), 0, 0x100_0000);
    }
}

/// The binary32 number nearest to `p / q`.
pub fn ratio(p: u16, q: u16) -> (bits: u32)
    requires
        0 < q,
    ensures
        bits == ratio_of(p as int, q as int),
{
    proof {
        lemma2_to64();
        lemma2_to64_rest();
        lemma_two_to_adds(42, 107);
        lemma_two_to(0);
    }
    if p == 0 {
        proof {
            assert(0 * two_to(149) == 0) by (nonlinear_arith);
            lemma_nearest_zero(q as int);
        }
        return 0;
    }
    let scaled: u64 = p as u64 * 0x400_0000_0000;
    let v: u64 = scaled / q as u64;
    let rem: u64 = scaled % q as u64;
    proof {
        lemma_fundamental_div_mod(scaled as int, q as int);
        assert(v >= 0x100_0000) by (nonlinear_arith)
            requires
                scaled == q * v + rem,
                rem < q,
                scaled >= 0x400_0000_0000,
                0 < q <= 0xffff,
                0 <= v,
        ;
    }
    let (t, n, round, sticky) = drop_low_bits(v, 0);
    proof {
        if n == 0 {
            assert(v as int / 1 == v);
        }
        let whole = p as int * two_to(149);
        assert(whole == (v * q + rem) * two_to(107)) by (nonlinear_arith)
            requires
                whole == p * two_to(149),
                two_to(149) == 0x400_0000_0000 * two_to(107),
                p * 0x400_0000_0000 == q * v + rem,
        ;
        lemma_rounded_ratio(whole, q as int, v as int, rem as int, n as int, 107);
    }
    let up: u64 = if round && (sticky || rem != 0 || t % 2 == 1) {
        1
    } else {
        0
    };
    let pattern: u64 = (107 + n) as u64 * 0x80_0000 + t + up;
    pattern as u32
}

} // verus!
