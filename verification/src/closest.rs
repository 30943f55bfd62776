//! Each operation of the arithmetic gives the closest number there is.

use vstd::prelude::*;

use crate::bounds::{lemma_mul_value, lemma_one_units, one_units, size};
use crate::convert::{byte_of, clamp_of, decimal, max_of, min_of};
use crate::division::sqrt_of;
use crate::nearness::lemma_root_defined;
use crate::number::{
    add_of, div_of, le_of, lemma_units_order, mul_of, neg_of, rounded, sub_of, Real,
};
use crate::order::{lemma_rounded, lemma_signed};
use crate::rounding::{
    infinity_key, lemma_magnitude_increases, lemma_nearest_exact, lemma_nearest_exists, magnitude,
    midpoint2, nearest, nearest_root,
};

verus! {

/// No other magnitude is closer to the ratio than the nearest one, and of two
/// that are as close it is the one with the even key.
proof fn lemma_closest_magnitude(n: int, d: int, l: int)
    requires
        n >= 0,
        d > 0,
        0 <= l <= infinity_key(),
    ensures
        0 <= nearest(n, d) <= infinity_key(),
        size(magnitude(nearest(n, d)) * d - n) <= size(magnitude(l) * d - n),
        size(magnitude(nearest(n, d)) * d - n) == size(magnitude(l) * d - n) && l != nearest(n, d)
            ==> nearest(n, d) % 2 == 0,
        0 <= magnitude(nearest(n, d)),
{
    lemma_nearest_exists(n, d);
    let k = nearest(n, d);
    let a = magnitude(k);
    let b = magnitude(l);
    assert(magnitude(0) == 0);
    if k > 0 {
        lemma_magnitude_increases(0, k);
    }
    if l < k {
        lemma_magnitude_increases(l, k);
        if l < k - 1 {
            lemma_magnitude_increases(l, k - 1);
        }
        let m = magnitude(k - 1);
        assert(b * d <= m * d && m * d + a * d <= 2 * n && (l < k - 1 ==> b * d < m * d) && b * d
            < a * d) by (nonlinear_arith)
            requires
                b <= m,
                l < k - 1 ==> b < m,
                b < a,
                (m + a) * d <= 2 * n,
                d > 0,
        ;
        assert((m + a) * d == m * d + a * d) by (nonlinear_arith);
    } else if l > k {
        lemma_magnitude_increases(k, l);
        if l > k + 1 {
            lemma_magnitude_increases(k + 1, l);
        }
        let m = magnitude(k + 1);
        assert(b * d >= m * d && m * d + a * d >= 2 * n && (l > k + 1 ==> b * d > m * d) && b * d
            > a * d) by (nonlinear_arith)
            requires
                b >= m,
                l > k + 1 ==> b > m,
                b > a,
                (m + a) * d >= 2 * n,
                d > 0,
        ;
        assert((m + a) * d == m * d + a * d) by (nonlinear_arith);
        assert((a + m) * d == m * d + a * d) by (nonlinear_arith);
    }
}

/// No other number is closer to a ratio of integers than the rounded one; of
/// two that are as close, it is the one with the even encoding.
pub proof fn law_rounding_gives_the_closest(n: int, d: int, z: bool, c: Real)
    requires
        d > 0,
        !c.is_nan(),
    ensures
        ({
            let r = rounded(n, d, z);
            &&& !r.is_nan()
            &&& size(r.units() * d - n) <= size(c.units() * d - n)
            &&& size(r.units() * d - n) == size(c.units() * d - n) && c.units() != r.units()
                ==> r.key() % 2 == 0
        }),
{
    let r = rounded(n, d, z);
    let x = size(n);
    let k = nearest(x, d);
    lemma_rounded(n, d, z);
    lemma_units_order(c, c);
    lemma_closest_magnitude(x, d, c.key());
    lemma_closest_magnitude(x, d, 0);
    lemma_signed(n < 0, k);
    lemma_signed(z, 0);
    assert(magnitude(0) == 0);
    assert(0 * d == 0);
    if n == 0 {
        lemma_nearest_exact(0, 0, d);
    }
    let a = magnitude(k);
    let b = magnitude(c.key());
    assert((-a) * d == -(a * d)) by (nonlinear_arith);
    assert((-b) * d == -(b * d)) by (nonlinear_arith);
    assert(b * d >= 0 && (b > 0 ==> b * d > 0)) by (nonlinear_arith)
        requires
            b >= 0,
            d > 0,
    ;
    assert(a != b ==> a * d != b * d) by (nonlinear_arith)
        requires
            d > 0,
    ;
}

/// No number is closer to the exact sum than the computed one.
pub proof fn law_sums_are_closest(a: Real, b: Real, c: Real)
    requires
        a.is_finite(),
        b.is_finite(),
        !c.is_nan(),
    ensures
        ({
            let r = add_of(a, b);
            let exact = a.units() + b.units();
            &&& !r.is_nan()
            &&& size(r.units() - exact) <= size(c.units() - exact)
            &&& size(r.units() - exact) == size(c.units() - exact) && c.units() != r.units()
                ==> r.key() % 2 == 0
        }),
{
    law_rounding_gives_the_closest(a.units() + b.units(), 1, a.negative() && b.negative(), c);
}

/// No number is closer to the exact difference than the computed one.
pub proof fn law_differences_are_closest(a: Real, b: Real, c: Real)
    requires
        a.is_finite(),
        b.is_finite(),
        !c.is_nan(),
    ensures
        ({
            let r = sub_of(a, b);
            let exact = a.units() - b.units();
            &&& !r.is_nan()
            &&& size(r.units() - exact) <= size(c.units() - exact)
        }),
{
    assert(neg_of(b).units() == -b.units());
    law_sums_are_closest(a, neg_of(b), c);
}

/// No number is closer to the exact product than the computed one.
pub proof fn law_products_are_closest(a: Real, b: Real, c: Real)
    requires
        a.is_finite(),
        b.is_finite(),
        !c.is_nan(),
    ensures
        ({
            let r = mul_of(a, b);
            let exact = a.units() * b.units();
            &&& !r.is_nan()
            &&& size(r.units() * one_units() - exact) <= size(c.units() * one_units() - exact)
        }),
{
    lemma_one_units();
    lemma_mul_value(a, b);
    law_rounding_gives_the_closest(a.units() * b.units(), one_units(), false, c);
}

/// No number is closer to the exact quotient than the computed one.
pub proof fn law_quotients_are_closest(a: Real, b: Real, c: Real)
    requires
        a.is_finite(),
        b.is_finite(),
        b.units() > 0,
        !c.is_nan(),
    ensures
        ({
            let r = div_of(a, b);
            let exact = a.units() * one_units();
            &&& !r.is_nan()
            &&& size(r.units() * b.units() - exact) <= size(c.units() * b.units() - exact)
        }),
{
    let p = one_units();
    let x = magnitude(a.key());
    let d = magnitude(b.key());
    lemma_one_units();
    lemma_units_order(a, b);
    assert(magnitude(0) == 0);
    assert(x * p >= 0 && (x > 0 ==> x * p > 0)) by (nonlinear_arith)
        requires
            x >= 0,
            p > 0,
    ;
    assert((-x) * p == -(x * p)) by (nonlinear_arith);
    lemma_nearest_exists(x * p, d);
    lemma_signed(a.negative(), nearest(x * p, d));
    if x == 0 {
        assert(0 * p == 0);
        assert(0 * d == 0);
        lemma_nearest_exact(0, 0, d);
        lemma_signed(false, 0);
    }
    law_rounding_gives_the_closest(a.units() * p, d, false, c);
    lemma_rounded(a.units() * p, d, false);
    assert(div_of(a, b).units() == rounded(a.units() * p, d, false).units());
}

/// No number is closer to a decimal fraction than the one that it denotes.
pub proof fn law_decimals_are_closest(n: int, d: int, c: Real)
    requires
        d > 0,
        !c.is_nan(),
    ensures
        !decimal(n, d).is_nan(),
        size(decimal(n, d).units() * d - n * one_units()) <= size(
            c.units() * d - n * one_units(),
        ),
{
    law_rounding_gives_the_closest(n * one_units(), d, false, c);
}

/// No number is closer to the exact root than the computed one: the exact root
/// lies on the computed one's side of the middle between the two.
pub proof fn law_roots_are_closest(a: Real, c: Real)
    requires
        a.is_finite(),
        a.units() > 0,
        c.is_finite(),
        !c.negative(),
    ensures
        ({
            let r = sqrt_of(a);
            let sum = r.units() + c.units();
            &&& !r.is_nan() && !r.negative()
            &&& c.units() < r.units() ==> sum * sum <= 4 * (a.units() * one_units())
            &&& c.units() > r.units() ==> sum * sum >= 4 * (a.units() * one_units())
        }),
{
    let n = a.units() * one_units();
    let k = nearest_root(n);
    let l = c.key();
    assert(magnitude(0) == 0);
    lemma_root_defined(a);
    lemma_signed(false, k);
    lemma_units_order(a, c);
    let r = magnitude(k);
    let b = magnitude(l);
    let sum = r + b;
    if k > 0 {
        lemma_magnitude_increases(0, k);
    }
    if l < k {
        lemma_magnitude_increases(l, k);
        if l < k - 1 {
            lemma_magnitude_increases(l, k - 1);
        }
        let m = midpoint2(k - 1);
        assert(sum * sum <= m * m) by (nonlinear_arith)
            requires
                0 <= sum <= m,
        ;
    } else if l > k {
        lemma_magnitude_increases(k, l);
        if l > k + 1 {
            lemma_magnitude_increases(k + 1, l);
        }
        lemma_magnitude_increases(0, k + 1);
        let m = midpoint2(k);
        assert(sum * sum >= m * m) by (nonlinear_arith)
            requires
                0 <= m <= sum,
        ;
    }
}

/// A byte is the whole part of a number, held to the range from 0 to 255.
pub proof fn law_bytes_are_whole_parts(a: Real)
    requires
        !a.is_nan(),
    ensures
        0 <= byte_of(a) <= 255,
        byte_of(a) > 0 ==> byte_of(a) * one_units() <= a.units(),
        byte_of(a) < 255 ==> a.units() < (byte_of(a) + 1) * one_units(),
{
    let p = one_units();
    let x = a.units();
    let w = x / p;
    lemma_one_units();
    assert(w * p <= x < (w + 1) * p) by (nonlinear_arith)
        requires
            w == x / p,
            p > 0,
    ;
    if x > 0 {
        assert(w >= 0) by (nonlinear_arith)
            requires
                x < (w + 1) * p,
                x > 0,
                p > 0,
        ;
        if w > 255 {
            assert(255 * p <= w * p) by (nonlinear_arith)
                requires
                    w > 255,
                    p > 0,
            ;
        }
    }
}

/// The smaller and the larger of two numbers are the two of them, in order; a
/// number held to a range is within it, and itself where it was.
pub proof fn law_smaller_larger_and_held(a: Real, b: Real, low: Real, high: Real)
    requires
        !a.is_nan(),
        !b.is_nan(),
        le_of(low, high),
    ensures
        le_of(min_of(a, b), a) && le_of(min_of(a, b), b),
        min_of(a, b) == a || min_of(a, b) == b,
        le_of(a, max_of(a, b)) && le_of(b, max_of(a, b)),
        max_of(a, b) == a || max_of(a, b) == b,
        le_of(low, clamp_of(a, low, high)) && le_of(clamp_of(a, low, high), high),
        le_of(low, a) && le_of(a, high) ==> clamp_of(a, low, high) == a,
        clamp_of(a, low, high) == a || clamp_of(a, low, high) == low || clamp_of(a, low, high)
            == high,
{
}

} // verus!
