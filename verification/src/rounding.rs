//! Rounding to binary32: from an exact magnitude to the pattern of the
//! nearest number, ties to the even significand.
//!
//! A finite binary32 number is a whole multiple of `2^-149`. Magnitudes
//! are counted in that unit, so the arithmetic on them is arithmetic on
//! integers, and rounding is the only step that loses anything.

use vstd::prelude::*;
use vstd::arithmetic::div_mod::{
    lemma_breakdown,
    lemma_div_denominator,
    lemma_div_multiples_vanish_quotient,
    lemma_fundamental_div_mod,
    lemma_fundamental_div_mod_converse,
    lemma_truncate_middle,
};
use vstd::arithmetic::power2::{
    lemma2_to64,
    lemma_pow2_adds,
    lemma_pow2_pos,
    lemma_pow2_strictly_increases,
    lemma_pow2_unfold,
    pow2,
};
use crate::binary32::{exponent_field, is_negative, scale, significand, INFINITY};

verus! {

/// `2^n`.
pub open spec fn two_to(n: int) -> int {
    pow2(n as nat) as int
}

/// Magnitude of a finite number, in units of `2^-149`.
pub open spec fn magnitude(bits: u32) -> int {
    significand(bits) * two_to(scale(bits) - 1)
}

/// A finite number, in units of `2^-149`.
pub open spec fn signed_magnitude(bits: u32) -> int {
    if is_negative(bits) {
        -magnitude(bits)
    } else {
        magnitude(bits)
    }
}

/// Number of low bits that `k` has beyond twenty-four.
pub open spec fn excess_bits(k: int) -> int
    decreases k,
{
    if k < 0x100_0000 {
        0
    } else {
        1 + excess_bits(k / 2)
    }
}

/// `p / d`, rounded to the nearest integer, a tie to the even one, for
/// `p >= 0` and `d > 0`.
pub open spec fn nearest_quotient(p: int, d: int) -> int {
    let q = p / d;
    let r = p % d;
    if 2 * r > d || (2 * r == d && q % 2 == 1) {
        q + 1
    } else {
        q
    }
}

/// `k / 2^s`, rounded to the nearest integer, a tie to the even one.
pub open spec fn round_half_even(k: int, s: int) -> int {
    nearest_quotient(k, two_to(s))
}

/// The pattern of `rounded(k)` before infinity is put in the place of
/// what lies beyond the largest finite number.
pub open spec fn rounded_unbounded(k: int) -> int {
    excess_bits(k) * 0x80_0000 + round_half_even(k, excess_bits(k))
}

/// Pattern of the number nearest to `(p / q) * 2^-149`, for `p >= 0` and
/// `q > 0`: the ratio is rounded to twenty-four bits, a tie to the even
/// significand, and what lies beyond the largest finite number becomes
/// infinity.
///
/// With `s` the number of bits that the whole part of the ratio has in
/// excess, the significand is `p / (q * 2^s)`, rounded, and the pattern
/// holds `s` in front of it. A significand that rounding carried to
/// `2^24` counts one up in the exponent, as it should.
pub open spec fn nearest(p: int, q: int) -> u32 {
    let s = excess_bits(p / q);
    let pattern = s * 0x80_0000 + nearest_quotient(p, q * two_to(s));
    if pattern >= 0x7f80_0000 {
        0x7f80_0000u32
    } else {
        pattern as u32
    }
}

/// Pattern of the number nearest to `k * 2^-149`, for `k >= 0`.
pub open spec fn rounded(k: int) -> u32 {
    nearest(k, 1)
}

/// Pattern of the number nearest to `(v / 2^j) * 2^-149`, for `v >= 0`.
pub open spec fn rounded_fraction(v: int, j: int) -> u32 {
    nearest(v, two_to(j))
}

/// Powers of two are positive, and each is twice the one before.
pub proof fn lemma_two_to(n: int)
    requires
        0 <= n,
    ensures
        0 < two_to(n),
        two_to(n + 1) == 2 * two_to(n),
        n == 0 ==> two_to(n) == 1,
{
    lemma_pow2_pos(n as nat);
    lemma_pow2_unfold((n + 1) as nat);
    lemma2_to64();
}

/// `2^(m + n) == 2^m * 2^n`.
pub proof fn lemma_two_to_adds(m: int, n: int)
    requires
        0 <= m,
        0 <= n,
    ensures
        two_to(m + n) == two_to(m) * two_to(n),
        0 < two_to(m),
        0 < two_to(n),
{
    lemma_pow2_adds(m as nat, n as nat);
    lemma_pow2_pos(m as nat);
    lemma_pow2_pos(n as nat);
}

/// Nothing rounds to zero.
pub proof fn lemma_nearest_zero(q: int)
    requires
        0 < q,
    ensures
        nearest(0, q) == 0,
{
    lemma_two_to(0);
    assert(0int / q == 0 && 0int % q == 0) by (nonlinear_arith)
        requires
            0 < q,
    ;
    assert(excess_bits(0) == 0);
    assert(q * two_to(0) == q) by (nonlinear_arith)
        requires
            two_to(0) == 1,
    ;
}

/// A number with exactly `24 + s` bits has `s` bits in excess.
pub proof fn lemma_excess_bits(k: int, s: int)
    requires
        0 <= s,
        0 <= k < 0x100_0000 * two_to(s),
        s > 0 ==> 0x80_0000 * two_to(s) <= k,
    ensures
        excess_bits(k) == s,
    decreases s,
{
    lemma_two_to(s);
    if s > 0 {
        lemma_two_to(s - 1);
        let p = two_to(s - 1);
        assert(k >= 0x100_0000) by (nonlinear_arith)
            requires
                k >= 0x80_0000 * (2 * p),
                p >= 1,
        ;
        assert(0 <= k / 2 < 0x100_0000 * p && (s - 1 > 0 ==> 0x80_0000 * p <= k / 2));
        if s - 1 > 0 {
            lemma_two_to(s - 2);
        }
        lemma_excess_bits(k / 2, s - 1);
    }
}

/// A number has fewer than `24 + excess_bits` bits, and no fewer than
/// that less one if any are in excess.
pub proof fn lemma_excess_bits_bounds(k: int)
    requires
        0 <= k,
    ensures
        0 <= excess_bits(k),
        k < 0x100_0000 * two_to(excess_bits(k)),
        excess_bits(k) > 0 ==> 0x80_0000 * two_to(excess_bits(k)) <= k,
    decreases k,
{
    if k < 0x100_0000 {
        lemma_two_to(0);
    } else {
        lemma_excess_bits_bounds(k / 2);
        let s = excess_bits(k / 2);
        lemma_two_to(s);
        if s == 0 {
            lemma_two_to(0);
        }
    }
}

/// Dividing a scaled number by a scaled power of two: the scale cancels
/// in the quotient and stays in the remainder.
pub proof fn lemma_scaled_division(v: int, n: int, e: int)
    requires
        0 <= v,
        0 <= n,
        0 <= e,
    ensures
        (v * two_to(e)) / two_to(n + e) == v / two_to(n),
        (v * two_to(e)) % two_to(n + e) == (v % two_to(n)) * two_to(e),
{
    lemma_two_to_adds(n, e);
    let pe = two_to(e);
    let pn = two_to(n);
    lemma_div_multiples_vanish_quotient(pe, v, pn);
    lemma_truncate_middle(v, pe, pn);
    assert(pe * v == v * pe && pe * pn == pn * pe && pe * (v % pn) == (v % pn) * pe)
        by (nonlinear_arith);
}

/// The lowest `n + 1` bits of a number are its bit `n` and its lowest
/// `n` bits.
pub proof fn lemma_one_more_bit(v: int, n: int)
    requires
        0 <= v,
        0 <= n,
    ensures
        v / two_to(n + 1) == (v / two_to(n)) / 2,
        v % two_to(n + 1) == ((v / two_to(n)) % 2) * two_to(n) + v % two_to(n),
        0 <= v % two_to(n) < two_to(n),
{
    lemma_two_to(n);
    let p = two_to(n);
    lemma_div_denominator(v, p, 2);
    lemma_breakdown(v, p, 2);
    assert(p * 2 == 2 * p && p * ((v / p) % 2) == ((v / p) % 2) * p) by (nonlinear_arith);
    lemma_fundamental_div_mod(v, p);
}

/// A magnitude that fits into twenty-four bits once it is scaled down by
/// `2^s`, exactly, rounds to itself.
pub proof fn lemma_rounded_exact(t: int, s: int)
    requires
        0 <= s,
        0 <= t < 0x100_0000,
        s > 0 ==> 0x80_0000 <= t,
    ensures
        excess_bits(t * two_to(s)) == s,
        round_half_even(t * two_to(s), s) == t,
{
    lemma_two_to(s);
    let p = two_to(s);
    let k = t * p;
    assert(0 <= k < 0x100_0000 * p && (s > 0 ==> 0x80_0000 * p <= k)) by (nonlinear_arith)
        requires
            k == t * p,
            0 <= t < 0x100_0000,
            s > 0 ==> 0x80_0000 <= t,
            0 < p,
    ;
    lemma_excess_bits(k, s);
    assert(k == p * t + 0) by (nonlinear_arith)
        requires
            k == t * p,
    ;
    lemma_fundamental_div_mod_converse(k, p, t, 0);
}

/// Rounding `v * 2^e`, where `v` has `n >= 1` bits in excess: the
/// quotient is `v / 2^n`, bit `n - 1` of `v` says whether the remainder
/// reaches one half, and the bits below it whether it goes beyond.
pub proof fn lemma_rounded_inexact(v: int, n: int, e: int)
    requires
        1 <= n,
        0 <= e,
        0 <= v,
        0x80_0000 <= v / two_to(n) < 0x100_0000,
    ensures
        excess_bits(v * two_to(e)) == n + e,
        round_half_even(v * two_to(e), n + e) == v / two_to(n) + (if (v / two_to(n - 1)) % 2 == 1
            && (v % two_to(n - 1) != 0 || (v / two_to(n)) % 2 == 1) {
            1int
        } else {
            0int
        }),
{
    let pe = two_to(e);
    let pn = two_to(n);
    let k = v * pe;
    lemma_two_to_adds(n, e);
    lemma_two_to(n);
    lemma_two_to(e);
    lemma_fundamental_div_mod(v, pn);
    let t = v / pn;
    assert(0x80_0000 * pn <= v < 0x100_0000 * pn) by (nonlinear_arith)
        requires
            v == pn * t + v % pn,
            0 <= v % pn < pn,
            0x80_0000 <= t < 0x100_0000,
    ;
    assert(0x80_0000 * (pn * pe) <= k < 0x100_0000 * (pn * pe)) by (nonlinear_arith)
        requires
            k == v * pe,
            0x80_0000 * pn <= v < 0x100_0000 * pn,
            0 < pe,
    ;
    lemma_excess_bits(k, n + e);
    lemma_scaled_division(v, n, e);
    lemma_one_more_bit(v, n - 1);
    lemma_two_to(n - 1);
    let half = two_to(n - 1);
    let bit = (v / half) % 2;
    let low = v % half;
    let r = v % pn;
    assert(r == bit * half + low);
    assert(pn == 2 * half);
    assert(bit == 0 || bit == 1);
    assert(bit * half == if bit == 1 {
        half
    } else {
        0
    }) by (nonlinear_arith)
        requires
            bit == 0 || bit == 1,
    ;
    let rk = k % two_to(n + e);
    assert(rk == r * pe);
    assert((2 * rk > pn * pe) == (2 * r > pn) && (2 * rk == pn * pe) == (2 * r == pn))
        by (nonlinear_arith)
        requires
            rk == r * pe,
            0 < pe,
    ;
}

/// Rounding away the lowest `n >= 1` bits of a number: the highest of
/// them says whether they reach one half, the others whether they go
/// beyond it, and a tie goes to the even quotient.
pub proof fn lemma_round_half_even(v: int, n: int)
    requires
        0 <= v,
        1 <= n,
    ensures
        round_half_even(v, n) == v / two_to(n) + (if (v / two_to(n - 1)) % 2 == 1 && (v % two_to(
            n - 1,
        ) != 0 || (v / two_to(n)) % 2 == 1) {
            1int
        } else {
            0int
        }),
{
    lemma_one_more_bit(v, n - 1);
    lemma_two_to(n - 1);
    let half = two_to(n - 1);
    let bit = (v / half) % 2;
    assert(two_to(n) == 2 * half);
    assert(bit * half == if bit == 1 {
        half
    } else {
        0
    }) by (nonlinear_arith)
        requires
            bit == 0 || bit == 1,
    ;
}

/// A number whose quotient by `2^s` has exactly twenty-four bits has `s`
/// bits in excess.
pub proof fn lemma_excess_of_quotient(k: int, s: int)
    requires
        0 <= k,
        0 <= s,
        s == 0 ==> k < 0x100_0000,
        s > 0 ==> 0x80_0000 <= k / two_to(s) < 0x100_0000,
    ensures
        excess_bits(k) == s,
{
    lemma_two_to(s);
    let p = two_to(s);
    if s > 0 {
        lemma_fundamental_div_mod(k, p);
        let t = k / p;
        assert(0x80_0000 * p <= k < 0x100_0000 * p) by (nonlinear_arith)
            requires
                k == p * t + k % p,
                0 <= k % p < p,
                0x80_0000 <= t < 0x100_0000,
        ;
    }
    lemma_excess_bits(k, s);
}

/// The rounded quotient, times the divisor, lies within half the divisor
/// of the dividend.
pub proof fn lemma_nearest_quotient_is_near(p: int, d: int)
    requires
        0 <= p,
        0 < d,
    ensures
        2 * (nearest_quotient(p, d) * d - p) <= d,
        2 * (p - nearest_quotient(p, d) * d) <= d,
{
    lemma_fundamental_div_mod(p, d);
    let q = p / d;
    let r = p % d;
    assert((q + 1) * d == d * q + d && q * d == d * q) by (nonlinear_arith);
}

/// The pattern that `rounded` gives, where it is finite, is that of the
/// number whose magnitude is `k` rounded to twenty-four bits: it lies
/// within half of the weight of its last bit of `k`.
pub proof fn lemma_rounded_is_near(k: int)
    requires
        0 <= k,
        rounded_unbounded(k) < 0x7f80_0000,
    ensures
        !is_negative(rounded(k)),
        exponent_field(rounded(k)) != 255,
        magnitude(rounded(k)) == round_half_even(k, excess_bits(k)) * two_to(excess_bits(k)),
        2 * (magnitude(rounded(k)) - k) <= two_to(excess_bits(k)),
        2 * (k - magnitude(rounded(k))) <= two_to(excess_bits(k)),
{
    let s = excess_bits(k);
    lemma_excess_bits_bounds(k);
    lemma_two_to(s);
    lemma_two_to(0);
    let unit = two_to(s);
    lemma_fundamental_div_mod(k, unit);
    let q = k / unit;
    assert(0 <= q < 0x100_0000 && (s > 0 ==> 0x80_0000 <= q)) by (nonlinear_arith)
        requires
            k == unit * q + k % unit,
            0 <= k % unit < unit,
            0 <= k < 0x100_0000 * unit,
            s > 0 ==> 0x80_0000 * unit <= k,
    ;
    let m = round_half_even(k, s);
    assert(m == q || m == q + 1);
    assert(unit * 1 == unit && 1 * unit == unit) by (nonlinear_arith);
    let pattern = rounded(k);
    assert(pattern == s * 0x80_0000 + m);
    if m == 0x100_0000 {
        assert(pattern == (s + 2) * 0x80_0000);
        assert(exponent_field(pattern) == s + 2);
        assert(significand(pattern) == 0x80_0000);
        assert(0x80_0000 * two_to(s + 1) == 0x100_0000 * unit) by (nonlinear_arith)
            requires
                two_to(s + 1) == 2 * unit,
        ;
    } else if m >= 0x80_0000 {
        assert(pattern == (s + 1) * 0x80_0000 + (m - 0x80_0000));
        assert(exponent_field(pattern) == s + 1);
        assert(significand(pattern) == m);
    } else {
        assert(s == 0);
        assert(exponent_field(pattern) == 0);
        assert(significand(pattern) == m);
    }
    lemma_nearest_quotient_is_near(k, unit);
}

/// The pattern of a finite number: its low thirty-one bits hold the scale
/// less one, then the significand.
pub proof fn lemma_pattern_of_parts(bits: u32)
    ensures
        bits as int % 0x8000_0000 == (scale(bits) - 1) * 0x80_0000 + significand(bits),
        bits as int == (if is_negative(bits) {
            0x8000_0000int
        } else {
            0int
        }) + bits as int % 0x8000_0000,
        0 <= significand(bits) < 0x100_0000,
        1 <= scale(bits) <= 255,
        scale(bits) > 1 ==> significand(bits) >= 0x80_0000,
        scale(bits) == 255 <==> exponent_field(bits) == 255,
{
}

/// Rounding the magnitude of a finite number gives the number back,
/// without its sign.
pub proof fn lemma_rounded_of_magnitude(bits: u32)
    requires
        exponent_field(bits) != 255,
    ensures
        rounded(magnitude(bits)) == bits as int % 0x8000_0000,
{
    lemma_pattern_of_parts(bits);
    lemma_rounded_exact(significand(bits), scale(bits) - 1);
}

/// The parts of a pattern: whether the sign is set, the significand and
/// the scale.
pub fn decode(bits: u32) -> (parts: (bool, u64, u32))
    ensures
        parts.0 == is_negative(bits),
        parts.1 == significand(bits),
        parts.2 == scale(bits),
        parts.1 < 0x100_0000,
        1 <= parts.2 <= 255,
        parts.2 > 1 ==> parts.1 >= 0x80_0000,
        bits as int % 0x8000_0000 == (parts.2 - 1) * 0x80_0000 + parts.1,
        parts.2 == 255 <==> exponent_field(bits) == 255,
{
    let field: u32 = (bits / 0x80_0000) % 0x100;
    let fraction: u32 = bits % 0x80_0000;
    if field == 0 {
        (bits >= 0x8000_0000, fraction as u64, 1)
    } else {
        (bits >= 0x8000_0000, 0x80_0000 + fraction as u64, field)
    }
}

/// Drops the low bits of `v`: `least` of them, and as many more as it
/// takes to leave no more than twenty-four. Gives what is left, the
/// number of bits dropped, whether the highest of them was set, and
/// whether any of the others was.
pub fn drop_low_bits(v: u64, least: u32) -> (kept: (u64, u32, bool, bool))
    requires
        least <= 1000,
    ensures
        least <= kept.1 <= least + 64,
        kept.0 == v as int / two_to(kept.1 as int),
        kept.0 < 0x100_0000,
        kept.1 > least ==> 0x80_0000 <= kept.0,
        kept.1 == 0 ==> !kept.2 && !kept.3,
        kept.1 > 0 ==> kept.2 == ((v as int / two_to(kept.1 - 1)) % 2 == 1),
        kept.1 > 0 ==> kept.3 == (v as int % two_to(kept.1 - 1) != 0),
{
    let mut t: u64 = v;
    let mut n: u32 = 0;
    let mut round: bool = false;
    let mut sticky: bool = false;
    let ghost w: int = v as int;
    proof {
        lemma_two_to(0);
    }
    while n < least || t >= 0x100_0000
        invariant
            n <= least + 64,
            least <= 1000,
            w == v,
            t == w / two_to(n as int),
            n > least ==> 0x80_0000 <= t,
            n == 0 ==> !round && !sticky,
            n > 0 ==> round == ((w / two_to(n - 1)) % 2 == 1),
            n > 0 ==> sticky == (w % two_to(n - 1) != 0),
            t * two_to(n as int) <= v,
        decreases
                (if n < least {
                    least - n
                } else {
                    0
                }) + t,
    {
        proof {
            lemma_one_more_bit(w, n as int);
            lemma_two_to(n as int);
            if n > 0 {
                lemma_one_more_bit(w, n - 1);
                let half = two_to(n - 1);
                let bit = (w / half) % 2;
                assert(bit * half == if bit == 1 {
                    half
                } else {
                    0
                }) by (nonlinear_arith)
                    requires
                        bit == 0 || bit == 1,
                ;
            }
            assert((t / 2) * two_to(n + 1) <= v) by (nonlinear_arith)
                requires
                    t * two_to(n as int) <= v,
                    two_to(n + 1) == 2 * two_to(n as int),
                    0 <= t,
                    0 < two_to(n as int),
                    (t / 2) * 2 <= t,
            ;
            if n >= least && n >= 64 {
                lemma2_to64();
                if n > 64 {
                    lemma_pow2_strictly_increases(64, n as nat);
                }
                assert(false) by (nonlinear_arith)
                    requires
                        t * two_to(n as int) <= v,
                        t >= 0x100_0000,
                        two_to(n as int) >= 0x1_0000_0000_0000_0000,
                        v < 0x1_0000_0000_0000_0000,
                ;
            }
        }
        sticky = sticky || round;
        round = t % 2 == 1;
        t = t / 2;
        n = n + 1;
    }
    (t, n, round, sticky)
}

/// Pattern of the number nearest to `v * 2^e * 2^-149`.
pub fn round_scaled(v: u64, e: u32) -> (pattern: u32)
    requires
        0 < v,
        e <= 1000,
    ensures
        pattern == rounded(v * two_to(e as int)),
        pattern <= INFINITY,
        0 < v * two_to(e as int),
{
    let mut t: u64 = v;
    let mut s: u32 = e;
    let mut up: u64 = 0;
    proof {
        lemma_two_to(e as int);
        assert(0 < v * two_to(e as int)) by (nonlinear_arith)
            requires
                0 < v,
                0 < two_to(e as int),
        ;
    }
    if t < 0x100_0000 {
        while t < 0x80_0000 && s > 0
            invariant
                0 < t < 0x100_0000,
                s <= e,
                t * two_to(s as int) == v * two_to(e as int),
            decreases s,
        {
            proof {
                lemma_two_to(s - 1);
                assert((t * 2) * two_to(s - 1) == t * (2 * two_to(s - 1))) by (nonlinear_arith);
            }
            t = t * 2;
            s = s - 1;
        }
        proof {
            lemma_rounded_exact(t as int, s as int);
        }
    } else {
        let (kept, dropped, round, sticky) = drop_low_bits(v, 0);
        proof {
            if dropped == 0 {
                lemma_two_to(0);
                assert(v as int / 1 == v);
            }
            lemma_rounded_inexact(v as int, dropped as int, e as int);
        }
        t = kept;
        s = e + dropped;
        if round && (sticky || kept % 2 == 1) {
            up = 1;
        }
    }
    let pattern: u64 = s as u64 * 0x80_0000 + t + up;
    if pattern >= 0x7f80_0000 {
        INFINITY
    } else {
        pattern as u32
    }
}

/// Pattern of the number nearest to `(v / 2^j) * 2^-149`.
pub fn round_fraction(v: u64, j: u32) -> (pattern: u32)
    requires
        j <= 1000,
    ensures
        pattern == rounded_fraction(v as int, j as int),
        pattern <= INFINITY,
{
    let (t, n, round, sticky) = drop_low_bits(v, j);
    let s: u32 = n - j;
    let mut up: u64 = 0;
    if round && (sticky || t % 2 == 1) {
        up = 1;
    }
    proof {
        let w = v as int;
        lemma_two_to(0);
        lemma_two_to_adds(j as int, s as int);
        lemma_div_denominator(w, two_to(j as int), two_to(s as int));
        lemma_excess_of_quotient(w / two_to(j as int), s as int);
        if n > 0 {
            lemma_round_half_even(w, n as int);
        }
    }
    let pattern: u64 = s as u64 * 0x80_0000 + t + up;
    if pattern >= 0x7f80_0000 {
        INFINITY
    } else {
        pattern as u32
    }
}

} // verus!
