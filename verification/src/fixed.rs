//! Fixed-point arithmetic: the number model for the whole pipeline.
//!
//! A real quantity `v` is represented by the `i64` value `v * FX_ONE`,
//! i.e. with 16 fractional bits. Multiplication and division truncate
//! toward zero; rounding is half-away-from-zero.

use vstd::prelude::*;
use vstd::math::abs;

verus! {

/// The fixed-point unit: representations carry 16 fractional bits.
pub const FX_ONE: i64 = 65536;

/// Half of a fixed-point unit, used for rounding to the nearest integer.
pub const FX_HALF: i64 = 32768;

/// Magnitude bound on the operands of `fx_mul` and `fx_div` (2^39).
/// Keeps every intermediate product inside 78 bits.
pub const FX_LIM: i64 = 0x80_0000_0000;

/// Quotient of `a` by `b` truncated toward zero (the rounding mode of
/// machine division), defined for `b != 0`.
pub open spec fn div_trunc(a: int, b: int) -> int {
    if (a >= 0) == (b >= 0) {
        (abs(a) / abs(b)) as int
    } else {
        -((abs(a) / abs(b)) as int)
    }
}

/// The fixed-point product: `a * b` rescaled by one unit, truncated toward zero.
pub open spec fn fx_mul_spec(a: int, b: int) -> int {
    div_trunc(a * b, FX_ONE as int)
}

/// The fixed-point quotient: `a / b` rescaled by one unit, truncated toward zero.
pub open spec fn fx_div_spec(a: int, b: int) -> int {
    div_trunc(a * (FX_ONE as int), b)
}

/// The integer nearest to the fixed-point value `a`, halves away from zero.
pub open spec fn fx_round_spec(a: int) -> int {
    if a >= 0 {
        (a + FX_HALF) / (FX_ONE as int)
    } else {
        -((-a + FX_HALF) / (FX_ONE as int))
    }
}

/// Fixed-point multiplication.
pub fn fx_mul(a: i64, b: i64) -> (r: i64)
    requires
        -FX_LIM <= a <= FX_LIM,
        -FX_LIM <= b <= FX_LIM,
    ensures
        r == fx_mul_spec(a as int, b as int),
        -0x4000_0000_0000_0000 <= r <= 0x4000_0000_0000_0000,
{
    proof {
        assert(-(FX_LIM as int) * (FX_LIM as int) <= a * b <= (FX_LIM as int) * (FX_LIM as int))
            by (nonlinear_arith)
            requires -FX_LIM <= a <= FX_LIM, -FX_LIM <= b <= FX_LIM;
    }
    let p: i128 = (a as i128) * (b as i128);
    let neg: bool = p < 0;
    let m: u128 = if neg { (-p) as u128 } else { p as u128 };
    let q: u128 = m / 65536u128;
    proof {
        vstd::arithmetic::div_mod::lemma_div_is_ordered(
            m as int, (FX_LIM as int) * (FX_LIM as int), FX_ONE as int);
        assert((0x80_0000_0000int * 0x80_0000_0000int) / 65536int
            == 0x4000_0000_0000_0000int) by (nonlinear_arith);
    }
    let qi: i64 = q as i64;
    if neg { -qi } else { qi }
}

/// Fixed-point division, truncated toward zero.
pub fn fx_div(a: i64, b: i64) -> (r: i64)
    requires
        b != 0,
        -FX_LIM <= a <= FX_LIM,
    ensures
        r == fx_div_spec(a as int, b as int),
        -0x80_0000_0000_0000 <= r <= 0x80_0000_0000_0000,
{
    let num: i128 = (a as i128) * 65536;
    let den: i128 = b as i128;
    let neg: bool = (num < 0) != (den < 0);
    let mn: u128 = if num < 0 { (-num) as u128 } else { num as u128 };
    let md: u128 = if den < 0 { (-den) as u128 } else { den as u128 };
    let q: u128 = mn / md;
    proof {
        assert(md >= 1);
        vstd::arithmetic::div_mod::lemma_div_is_ordered_by_denominator(mn as int, 1, md as int);
        vstd::arithmetic::div_mod::lemma_div_basics(mn as int);
        assert(q <= mn);
    }
    let qi: i64 = q as i64;
    if neg { -qi } else { qi }
}

/// Rounds a fixed-point value to the nearest integer, halves away from zero.
pub fn fx_round(a: i64) -> (r: i64)
    requires
        -0x4000_0000_0000_0000 <= a <= 0x4000_0000_0000_0000,
    ensures
        r == fx_round_spec(a as int),
{
    if a >= 0 {
        let s: u64 = (a + FX_HALF) as u64;
        (s / 65536u64) as i64
    } else {
        let s: u64 = (-a + FX_HALF) as u64;
        let q: i64 = (s / 65536u64) as i64;
        -q
    }
}

/// The integer square root: the greatest `r` with `r * r <= n`.
pub fn isqrt(n: u128) -> (r: u64)
    ensures
        (r as int) * (r as int) <= n,
        ((r as int) + 1) * ((r as int) + 1) > n,
{
    let mut lo: u128 = 0;
    let mut hi: u128 = 0x1_0000_0000_0000_0000;
    proof {
        assert((0x1_0000_0000_0000_0000int) * (0x1_0000_0000_0000_0000int) > u128::MAX)
            by (nonlinear_arith);
    }
    while lo + 1 < hi
        invariant
            lo < hi,
            hi <= 0x1_0000_0000_0000_0000,
            (lo as int) * (lo as int) <= n,
            (hi as int) * (hi as int) > n,
        decreases hi - lo,
    {
        let mid: u128 = lo + (hi - lo) / 2;
        proof {
            vstd::arithmetic::div_mod::lemma_div_is_strictly_smaller((hi - lo) as int, 2);
            vstd::arithmetic::div_mod::lemma_div_is_ordered(2, (hi - lo) as int, 2);
            assert(lo < mid < hi);
            assert((mid as int) * (mid as int) < 0x1_0000_0000_0000_0000 * 0x1_0000_0000_0000_0000)
                by (nonlinear_arith)
                requires 0 < mid < 0x1_0000_0000_0000_0000u128;
        }
        let sq: u128 = mid * mid;
        if sq <= n {
            lo = mid;
        } else {
            hi = mid;
        }
    }
    lo as u64
}

/// Quotient truncated toward zero, on machine integers.
pub fn div_trunc_i64(a: i64, b: i64) -> (r: i64)
    requires
        b > 0,
    ensures
        r == div_trunc(a as int, b as int),
        -(abs(a as int) as int) <= r <= abs(a as int),
{
    proof {
        vstd::arithmetic::div_mod::lemma_div_is_ordered_by_denominator(abs(a as int) as int, 1, b as int);
        vstd::arithmetic::div_mod::lemma_div_basics(abs(a as int) as int);
    }
    if a >= 0 {
        let q: u64 = (a as u64) / (b as u64);
        q as i64
    } else {
        let m: u64 = if a == i64::MIN { 0x8000_0000_0000_0000u64 } else { (-a) as u64 };
        let q: u64 = m / (b as u64);
        if q == 0x8000_0000_0000_0000u64 {
            i64::MIN
        } else {
            -(q as i64)
        }
    }
}

/// The magnitude of a truncated quotient is at most the quotient of the
/// magnitude bound by the (positive) divisor.
pub proof fn lemma_div_trunc_bound(a: int, b: int, m: int)
    requires
        b > 0,
        -m <= a <= m,
    ensures
        -(m / b) <= div_trunc(a, b) <= m / b,
{
    vstd::arithmetic::div_mod::lemma_div_is_ordered(abs(a) as int, m, b);
    vstd::arithmetic::div_mod::lemma_div_pos_is_pos(abs(a) as int, b);
}

/// Bounds a fixed-point product from bounds on its operands.
pub proof fn lemma_fx_mul_bound(a: int, b: int, la: int, lb: int)
    requires
        la >= 0,
        lb >= 0,
        -la <= a <= la,
        -lb <= b <= lb,
    ensures
        -((la * lb) / (FX_ONE as int)) <= fx_mul_spec(a, b) <= (la * lb) / (FX_ONE as int),
{
    assert(-(la * lb) <= a * b <= la * lb) by (nonlinear_arith)
        requires la >= 0, lb >= 0, -la <= a <= la, -lb <= b <= lb;
    lemma_div_trunc_bound(a * b, FX_ONE as int, la * lb);
}

/// Scaling by a fixed-point factor in the unit interval keeps the result
/// between zero and the operand.
pub proof fn lemma_fx_scale_between(t: int, d: int)
    requires
        0 <= t <= FX_ONE,
    ensures
        d >= 0 ==> 0 <= fx_mul_spec(t, d) <= d,
        d < 0 ==> d <= fx_mul_spec(t, d) <= 0,
{
    let s = FX_ONE as int;
    if d >= 0 {
        assert(0 <= t * d <= s * d) by (nonlinear_arith)
            requires 0 <= t <= s, d >= 0;
        assert((t * d) / s <= (s * d) / s) by {
            vstd::arithmetic::div_mod::lemma_div_is_ordered(t * d, s * d, s);
        }
        assert((s * d) / s == d) by {
            vstd::arithmetic::div_mod::lemma_div_multiples_vanish(d, s);
        }
        vstd::arithmetic::div_mod::lemma_div_pos_is_pos(t * d, s);
    } else {
        assert(0 <= t * (-d) <= s * (-d)) by (nonlinear_arith)
            requires 0 <= t <= s, d < 0;
        assert(t * (-d) == -(t * d)) by {
            vstd::arithmetic::mul::lemma_mul_unary_negation(t, d);
        }
        assert((-(t * d)) / s <= (s * (-d)) / s) by {
            vstd::arithmetic::div_mod::lemma_div_is_ordered(-(t * d), s * (-d), s);
        }
        assert((s * (-d)) / s == -d) by {
            vstd::arithmetic::div_mod::lemma_div_multiples_vanish(-d, s);
        }
        vstd::arithmetic::div_mod::lemma_div_pos_is_pos(-(t * d), s);
    }
}


/// Multiplying by a zero factor gives the zero fixed-point value.
pub proof fn lemma_fx_mul_zero(x: int)
    ensures
        fx_mul_spec(x, 0) == 0,
{
    vstd::arithmetic::mul::lemma_mul_basics(x);
}

/// Multiplying by the fixed-point unit leaves the value unchanged.
pub proof fn lemma_fx_mul_unit(x: int)
    ensures
        fx_mul_spec(x, FX_ONE as int) == x,
{
    let s = FX_ONE as int;
    if x >= 0 {
        assert(x * s >= 0) by (nonlinear_arith) requires x >= 0, s == 65536;
        assert((x * s) / s == x) by {
            vstd::arithmetic::div_mod::lemma_div_by_multiple(x, s);
        }
    } else {
        assert(x * s < 0) by (nonlinear_arith) requires x < 0, s == 65536;
        assert(-(x * s) == (-x) * s) by {
            vstd::arithmetic::mul::lemma_mul_unary_negation(x, s);
        }
        assert(((-x) * s) / s == -x) by {
            vstd::arithmetic::div_mod::lemma_div_by_multiple(-x, s);
        }
    }
}

/// Rounding respects the order of fixed-point values.
pub proof fn lemma_round_monotone(a: int, b: int)
    requires
        a <= b,
    ensures
        fx_round_spec(a) <= fx_round_spec(b),
{
    let s = FX_ONE as int;
    if a >= 0 {
        vstd::arithmetic::div_mod::lemma_div_is_ordered(a + FX_HALF, b + FX_HALF, s);
    } else if b < 0 {
        vstd::arithmetic::div_mod::lemma_div_is_ordered(-b + FX_HALF, -a + FX_HALF, s);
    } else {
        vstd::arithmetic::div_mod::lemma_div_pos_is_pos(-a + FX_HALF, s);
        vstd::arithmetic::div_mod::lemma_div_pos_is_pos(b + FX_HALF, s);
    }
}

/// Rounding an integer multiple of the unit, nudged by less than half a
/// unit in either direction, recovers that integer.
pub proof fn lemma_round_near_multiple(m: int, e: int)
    requires
        0 <= e < FX_HALF,
    ensures
        fx_round_spec(m * FX_ONE + e) == m,
        fx_round_spec(m * FX_ONE - e) == m,
{
    let s = FX_ONE as int;
    if m >= 0 {
        assert(m * s >= 0) by {
            vstd::arithmetic::mul::lemma_mul_nonnegative(m, s);
        }
        assert(m * s == s * m) by {
            vstd::arithmetic::mul::lemma_mul_is_commutative(m, s);
        }
        assert((s * m + (e + FX_HALF)) / s == m) by {
            vstd::arithmetic::div_mod::lemma_div_multiples_vanish_fancy(m, e + FX_HALF, s);
        }
        if m == 0 {
            if e > 0 {
                assert(fx_round_spec(m * s - e) == -((e + FX_HALF) / s));
            }
        } else {
            assert(m * s - e >= 0) by (nonlinear_arith)
                requires m >= 1, s == 65536, 0 <= e < 32768;
            assert((s * m + (FX_HALF - e)) / s == m) by {
                vstd::arithmetic::div_mod::lemma_div_multiples_vanish_fancy(m, FX_HALF - e, s);
            }
        }
    } else {
        let k = -m;
        assert(k * s == -(m * s)) by {
            vstd::arithmetic::mul::lemma_mul_unary_negation(m, s);
        }
        assert(k * s == s * k) by {
            vstd::arithmetic::mul::lemma_mul_is_commutative(k, s);
        }
        assert(k * s >= s) by (nonlinear_arith)
            requires k >= 1, s == 65536;
        assert((s * k + (FX_HALF - e)) / s == k) by {
            vstd::arithmetic::div_mod::lemma_div_multiples_vanish_fancy(k, FX_HALF - e, s);
        }
        assert((s * k + (e + FX_HALF)) / s == k) by {
            vstd::arithmetic::div_mod::lemma_div_multiples_vanish_fancy(k, e + FX_HALF, s);
        }
        assert(m * s + e < 0);
        assert(-(m * s + e) + FX_HALF == s * k + (FX_HALF - e));
        assert(-(m * s - e) + FX_HALF == s * k + (e + FX_HALF));
    }
}

} // verus!
