//! Exact quotients of wide integers, rounded to a fixed-point number.

use vstd::prelude::*;
use crate::geometry::Fixed;

verus! {

/// The absolute value of `v`.
pub open spec fn magnitude(v: int) -> int {
    if v < 0 {
        -v
    } else {
        v
    }
}

/// The quotient `n / d` rounded toward zero, for a positive `d`.
pub open spec fn quot_toward_zero(n: int, d: int) -> int {
    if n >= 0 {
        n / d
    } else {
        -((-n) / d)
    }
}

/// The quotient `n / d` rounded to the nearest integer, halves away from
/// zero, for a `d` other than zero.
pub open spec fn quot_nearest(n: int, d: int) -> int {
    let q = (2 * magnitude(n) + magnitude(d)) / (2 * magnitude(d));
    if (n >= 0) == (d > 0) {
        q
    } else {
        -q
    }
}

/// `v` where it is a fixed-point number, else the nearest one.
pub open spec fn clamp_fixed(v: int) -> Fixed {
    if v < i32::MIN {
        i32::MIN
    } else if v > i32::MAX {
        i32::MAX
    } else {
        v as i32
    }
}

/// The bound on the wide integers that the quotients below take.
pub open spec fn wide_limit() -> int {
    0x0100_0000_0000_0000_0000_0000_0000_0000
}

/// A product is no larger than the product of the bounds of its factors.
pub proof fn lemma_product_bound(a: int, b: int, la: int, lb: int)
    requires
        -la <= a <= la,
        -lb <= b <= lb,
    ensures
        -(la * lb) <= a * b <= la * lb,
{
    assert(-(la * lb) <= a * b <= la * lb) by (nonlinear_arith)
        requires
            -la <= a <= la,
            -lb <= b <= lb,
    ;
}

/// Rounds a wide integer to the nearest fixed-point number.
pub fn saturate(v: i128) -> (r: Fixed)
    ensures
        r == clamp_fixed(v as int),
{
    if v < -0x8000_0000 {
        i32::MIN
    } else if v > 0x7fff_ffff {
        i32::MAX
    } else {
        v as i32
    }
}

/// Divides, rounding toward zero.
pub fn divide_toward_zero(n: i128, d: i128) -> (q: i128)
    requires
        d > 0,
        -wide_limit() <= n <= wide_limit(),
    ensures
        q == quot_toward_zero(n as int, d as int),
        magnitude(q as int) <= magnitude(n as int),
{
    if n >= 0 {
        let q: i128 = n / d;
        proof {
            lemma_quotient_bound(n as int, d as int);
        }
        q
    } else {
        let m: i128 = -n;
        let q: i128 = m / d;
        proof {
            lemma_quotient_bound(m as int, d as int);
        }
        -q
    }
}

/// Divides, rounding to the nearest integer and halves away from zero.
pub fn divide_nearest(n: i128, d: i128) -> (q: i128)
    requires
        d != 0,
        -wide_limit() <= n <= wide_limit(),
        -wide_limit() <= d <= wide_limit(),
    ensures
        q == quot_nearest(n as int, d as int),
{
    let num: i128 = if n < 0 { -n } else { n };
    let den: i128 = if d < 0 { -d } else { d };
    let q: i128 = (2 * num + den) / (2 * den);
    proof {
        lemma_quotient_bound(2 * num + den, 2 * den);
    }
    if (n >= 0) == (d > 0) {
        q
    } else {
        -q
    }
}

/// A quotient of a number that is not negative by a positive one lies
/// between zero and the number.
pub proof fn lemma_quotient_bound(n: int, d: int)
    requires
        n >= 0,
        d > 0,
    ensures
        0 <= n / d <= n,
{
    assert(0 <= n / d <= n) by (nonlinear_arith)
        requires
            n >= 0,
            d > 0,
    ;
}

/// What an exact quotient of non-negative numbers is: the largest multiple of
/// `d` that does not exceed `n`.
pub proof fn lemma_floor_quotient(n: int, d: int)
    requires
        n >= 0,
        d > 0,
    ensures
        (n / d) * d <= n < (n / d) * d + d,
        0 <= n / d,
{
    vstd::arithmetic::div_mod::lemma_fundamental_div_mod(n, d);
    vstd::arithmetic::div_mod::lemma_mod_bound(n, d);
    lemma_quotient_bound(n, d);
    assert((n / d) * d == d * (n / d)) by (nonlinear_arith);
}

/// The quotient rounded toward zero misses `n / d` by less than one, and
/// never lies beyond it.
pub proof fn lemma_quot_toward_zero(n: int, d: int)
    requires
        d > 0,
    ensures
        magnitude(n - quot_toward_zero(n, d) * d) < d,
        n >= 0 ==> 0 <= quot_toward_zero(n, d) * d <= n,
        n <= 0 ==> n <= quot_toward_zero(n, d) * d <= 0,
{
    if n >= 0 {
        lemma_floor_quotient(n, d);
        assert(0 <= (n / d) * d) by (nonlinear_arith)
            requires
                0 <= n / d,
                d > 0,
        ;
    } else {
        lemma_floor_quotient(-n, d);
        let q = (-n) / d;
        assert((-q) * d == -(q * d)) by (nonlinear_arith);
        assert(0 <= q * d) by (nonlinear_arith)
            requires
                0 <= q,
                d > 0,
        ;
    }
}

/// The quotient rounded to the nearest misses `n / d` by a half at most, and
/// where it misses by just a half it lies beyond `n / d`.
pub proof fn lemma_quot_nearest(n: int, d: int)
    requires
        d != 0,
    ensures
        2 * magnitude(n - quot_nearest(n, d) * d) <= magnitude(d),
        2 * magnitude(n - quot_nearest(n, d) * d) == magnitude(d) ==> magnitude(
            quot_nearest(n, d) * d,
        ) > magnitude(n),
{
    let a = magnitude(n);
    let b = magnitude(d);
    let q = (2 * a + b) / (2 * b);
    lemma_floor_quotient(2 * a + b, 2 * b);
    assert(q * (2 * b) == 2 * (q * b)) by (nonlinear_arith);
    assert(2 * magnitude(a - q * b) <= b);
    assert(2 * magnitude(a - q * b) == b ==> q * b > a);
    let r = quot_nearest(n, d);
    assert(magnitude(r * d) == q * b && magnitude(n - r * d) == magnitude(a - q * b))
        by (nonlinear_arith)
        requires
            a == magnitude(n),
            b == magnitude(d),
            d != 0,
            q >= 0,
            r == if (n >= 0) == (d > 0) {
                q
            } else {
                -q
            },
    ;
}

} // verus!
