//! Fixed-point numbers with six decimal places, held in integers.

use vstd::arithmetic::div_mod::{lemma_fundamental_div_mod, lemma_fundamental_div_mod_converse};
use vstd::prelude::*;

verus! {

/// The fixed-point representation of one: a value `v` stands for `v / UNIT`.
pub const UNIT: i64 = 1_000_000;

/// The floor of the rational `a / b`, for any non-zero `b`.
pub open spec fn floor_div(a: int, b: int) -> int {
    if b > 0 {
        a / b
    } else {
        (-a) / (-b)
    }
}

/// The fixed-point product of `a` and `b`, rounded down.
pub open spec fn fixed_mul(a: int, b: int) -> int {
    (a * b) / (UNIT as int)
}

/// The fixed-point quotient of `a` by `b`, rounded down.
pub open spec fn fixed_div(a: int, b: int) -> int {
    floor_div(a * UNIT, b)
}

/// `r` is the integer square root of `v`, rounded down.
pub open spec fn is_floor_sqrt(v: int, r: int) -> bool {
    0 <= r && r * r <= v && v < (r + 1) * (r + 1)
}

/// The integer square root of a non-negative `v`, rounded down.
pub open spec fn floor_sqrt(v: int) -> int {
    choose|r: int| is_floor_sqrt(v, r)
}

/// The fixed-point square root of a non-negative `a`, rounded down.
pub open spec fn fixed_sqrt(a: int) -> int {
    floor_sqrt(a * UNIT)
}

/// Squaring is strictly monotone on the non-negative integers.
pub(crate) proof fn lemma_square_monotone(a: int, b: int)
    by (nonlinear_arith)
    requires
        0 <= a,
        a < b,
    ensures
        a * a < b * b,
{
}

/// Two integer square roots of one number are equal.
pub proof fn lemma_floor_sqrt_unique(v: int, r: int, s: int)
    requires
        is_floor_sqrt(v, r),
        is_floor_sqrt(v, s),
    ensures
        r == s,
{
    if r < s {
        lemma_square_monotone(r + 1, s + 1);
        if r + 1 < s {
            lemma_square_monotone(r + 1, s);
        }
    } else if s < r {
        lemma_square_monotone(s + 1, r + 1);
        if s + 1 < r {
            lemma_square_monotone(s + 1, r);
        }
    }
}

/// Every non-negative integer has an integer square root, and `floor_sqrt` is it.
pub proof fn lemma_floor_sqrt_exists(v: int)
    requires
        0 <= v,
    ensures
        is_floor_sqrt(v, floor_sqrt(v)),
    decreases v,
{
    if v == 0 {
        assert(is_floor_sqrt(0, 0));
    } else {
        lemma_floor_sqrt_exists(v - 1);
        let r = floor_sqrt(v - 1);
        if (r + 1) * (r + 1) <= v {
            assert((r + 2) * (r + 2) == (r + 1) * (r + 1) + 2 * r + 3) by (nonlinear_arith);
            assert(is_floor_sqrt(v, r + 1));
        } else {
            assert(is_floor_sqrt(v, r));
        }
    }
}

/// What `floor_sqrt` is, given any root that fits.
pub proof fn lemma_floor_sqrt_is(v: int, r: int)
    requires
        is_floor_sqrt(v, r),
    ensures
        floor_sqrt(v) == r,
{
    lemma_floor_sqrt_unique(v, r, floor_sqrt(v));
}

/// The integer square root of `v`, rounded down.
pub fn isqrt(v: u128) -> (r: u128)
    ensures
        is_floor_sqrt(v as int, r as int),
        r == floor_sqrt(v as int),
{
    let mut lo: u128 = 0;
    let mut hi: u128 = 0x1_0000_0000_0000_0000;
    while hi - lo > 1
        invariant
            lo < hi <= 0x1_0000_0000_0000_0000,
            lo * lo <= v,
            v < hi * hi,
        decreases hi - lo,
    {
        let mid: u128 = lo + (hi - lo) / 2;
        assert(mid * mid <= 0xffff_ffff_ffff_ffff * 0xffff_ffff_ffff_ffff) by (nonlinear_arith)
            requires
                0 <= mid <= 0xffff_ffff_ffff_ffff,
        ;
        if mid * mid <= v {
            lo = mid;
        } else {
            hi = mid;
        }
    }
    proof {
        lemma_floor_sqrt_is(v as int, lo as int);
    }
    lo
}

/// A quotient by a positive divisor lies between any two integers whose
/// multiples of the divisor enclose the dividend.
pub(crate) proof fn lemma_div_between(a: int, d: int, lo: int, hi: int)
    requires
        d > 0,
        lo * d <= a,
        a <= hi * d,
    ensures
        lo <= a / d <= hi,
{
    let q = a / d;
    let r = a % d;
    lemma_fundamental_div_mod(a, d);
    assert(lo <= q && q <= hi) by (nonlinear_arith)
        requires
            d > 0,
            lo * d <= a,
            a <= hi * d,
            a == d * q + r,
            0 <= r < d,
    ;
}

/// A quotient by a positive divisor lies below any integer whose multiple of
/// the divisor lies above the dividend.
pub(crate) proof fn lemma_div_below(a: int, d: int, hi: int)
    requires
        d > 0,
        a < hi * d,
    ensures
        a / d < hi,
{
    let q = a / d;
    let r = a % d;
    lemma_fundamental_div_mod(a, d);
    assert(q < hi) by (nonlinear_arith)
        requires
            d > 0,
            a < hi * d,
            a == d * q + r,
            0 <= r < d,
    ;
}

/// Floor division of a negative number, through one of a non-negative number.
pub(crate) proof fn lemma_floor_div_negative(a: int, b: int)
    requires
        a < 0,
        b > 0,
    ensures
        a / b == -((-(a + 1)) / b) - 1,
{
    let n = -(a + 1);
    let q = n / b;
    let r = n % b;
    lemma_fundamental_div_mod(n, b);
    assert(a == (-q - 1) * b + (b - r - 1)) by (nonlinear_arith)
        requires
            n == b * q + r,
            n == -(a + 1),
    ;
    lemma_fundamental_div_mod_converse(a, b, -q - 1, b - r - 1);
}

/// The floor of `a / b` for a positive `b`.
pub fn div_floor(a: i128, b: i128) -> (q: i128)
    requires
        b > 0,
    ensures
        q == a / b,
{
    if a >= 0 {
        a / b
    } else {
        let n: i128 = -(a + 1);
        let t: i128 = n / b;
        proof {
            lemma_floor_div_negative(a as int, b as int);
        }
        -t - 1
    }
}

/// A product of two bounded non-negative factors is bounded by the product of the bounds.
pub(crate) proof fn lemma_product_bound(a: int, a_max: int, b: int, b_max: int)
    by (nonlinear_arith)
    requires
        0 <= a <= a_max,
        0 <= b <= b_max,
    ensures
        0 <= a * b <= a_max * b_max,
{
}

/// A product of a bounded non-negative factor and a factor of bounded magnitude
/// has a magnitude bounded by the product of the bounds.
pub(crate) proof fn lemma_signed_product_bound(a: int, a_max: int, b: int, b_max: int)
    by (nonlinear_arith)
    requires
        0 <= a <= a_max,
        -b_max <= b <= b_max,
    ensures
        -(a_max * b_max) <= a * b <= a_max * b_max,
{
}

/// The fixed-point product of `a` and `b`, rounded down.
pub fn mul_fixed(a: i128, b: i128) -> (r: i128)
    requires
        i128::MIN <= a * b <= i128::MAX,
    ensures
        r == fixed_mul(a as int, b as int),
{
    div_floor(a * b, UNIT as i128)
}

/// The fixed-point square root of a non-negative `a`, rounded down.
pub fn sqrt_fixed(a: i64) -> (r: i64)
    requires
        0 <= a,
    ensures
        r == fixed_sqrt(a as int),
        is_floor_sqrt(a * UNIT, r as int),
{
    let root: u128 = isqrt(a as u128 * 1_000_000);
    assert(root <= 0x7fff_ffff_ffff_ffff) by (nonlinear_arith)
        requires
            root * root <= a * 1_000_000,
            a <= 0x7fff_ffff_ffff_ffff,
    ;
    root as i64
}

/// The fixed-point square root of a fortune within the limits is at most a
/// thousand units.
pub(crate) proof fn lemma_fixed_sqrt_bound(a: int)
    requires
        0 <= a <= 1_000_000_000_000,
    ensures
        0 <= fixed_sqrt(a) <= 1_000_000_000,
{
    lemma_floor_sqrt_exists(a * UNIT);
    let r = fixed_sqrt(a);
    assert(r <= 1_000_000_000) by (nonlinear_arith)
        requires
            0 <= r,
            r * r <= a * UNIT,
            a * UNIT <= 1_000_000_000_000_000_000,
    ;
}

} // verus!
