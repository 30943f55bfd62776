//! Results held against exact ones: how near a computed number is to a ratio
//! of integers.

use vstd::arithmetic::power2::{
    lemma2_to64, lemma2_to64_rest, lemma_pow2_adds, lemma_pow2_pos, pow2,
};
use vstd::prelude::*;

use crate::bounds::{
    bounded, lemma_add_error, lemma_bounded_finite, lemma_gap, lemma_mul_error, lemma_one_units,
    lemma_power_key, lemma_rounding_error, one_units, size,
};
use crate::convert::decimal;
use crate::division::sqrt_of;
use crate::number::{add_of, div_of, lemma_units_order, mul_of, neg_of, sub_of, Real};
use crate::order::{lemma_rounded, lemma_signed};
use crate::rounding::{
    binade, infinity_key, is_nearest_root, lemma_magnitude_increases, lemma_nearest_exact,
    lemma_nearest_exists, lemma_nearest_root_exists, magnitude, midpoint2, nearest, nearest_root,
};

verus! {

/// `v` is the ratio `n / d`, in units, to nine decimal places.
pub open spec fn about(v: Real, n: int, d: int) -> bool {
    v.is_finite() && 1_000_000_000 * size(v.units() * d - n) <= d * one_units()
}

/// The smallest error that is accounted for: 2^-74, in units.
pub open spec fn mote() -> int {
    pow2(1000) as int
}

pub proof fn lemma_mote()
    ensures
        mote() > 0,
        one_units() == 0x400_0000_0000_0000_0000 * mote(),
{
    lemma_pow2_pos(1000);
    lemma2_to64();
    lemma2_to64_rest();
    lemma_pow2_adds(37, 37);
    lemma_pow2_adds(74, 1000);
}

/// The sum of two numbers of at most 16384 in all.
pub proof fn lemma_sum_off(a: Real, b: Real, m: int, n: int)
    requires
        bounded(a, m),
        bounded(b, n),
        0 <= m,
        0 <= n,
        m + n <= 16384,
    ensures
        add_of(a, b).is_finite(),
        size(add_of(a, b).units() - (a.units() + b.units())) <= 0x4_0000_0000 * mote(),
{
    let p = one_units();
    let u = mote();
    lemma_one_units();
    lemma_mote();
    lemma2_to64();
    lemma2_to64_rest();
    lemma_pow2_adds(14, 1074);
    lemma_pow2_adds(35, 1000);
    lemma_bounded_finite(a, m);
    lemma_bounded_finite(b, n);
    assert(m * p + n * p <= 16384 * p) by (nonlinear_arith)
        requires
            m + n <= 16384,
            p > 0,
    ;
    lemma_add_error(a, b, 1088);
}

/// The difference of two numbers of at most 16384 in all.
pub proof fn lemma_difference_off(a: Real, b: Real, m: int, n: int)
    requires
        bounded(a, m),
        bounded(b, n),
        0 <= m,
        0 <= n,
        m + n <= 16384,
    ensures
        sub_of(a, b).is_finite(),
        size(sub_of(a, b).units() - (a.units() - b.units())) <= 0x4_0000_0000 * mote(),
{
    assert(neg_of(b).units() == -b.units());
    lemma_sum_off(a, neg_of(b), m, n);
}

/// A short decimal of at most one.
pub proof fn lemma_decimal_off(n: int, d: int)
    requires
        d > 0,
        -d <= n <= d,
    ensures
        decimal(n, d).is_finite(),
        size(decimal(n, d).units()) <= one_units(),
        size(decimal(n, d).units() * d - n * one_units()) <= 0x10_0000 * (mote() * d),
{
    let p = one_units();
    let u = mote();
    lemma_one_units();
    lemma_mote();
    lemma2_to64();
    lemma_pow2_adds(21, 1000);
    assert(size(n * p) <= p * d) by (nonlinear_arith)
        requires
            -d <= n <= d,
            p > 0,
    ;
    lemma_rounding_error(n * p, d, false, 1074);
    assert((0x20_0000 * u) * d == 0x20_0000 * (u * d)) by (nonlinear_arith);
}

/// A product of at most 16384.
pub proof fn lemma_product_off(a: Real, b: Real, m: int, n: int)
    requires
        bounded(a, m),
        bounded(b, n),
        0 <= m <= 16384,
        0 <= n <= 16384,
        m * n <= 16384,
    ensures
        !mul_of(a, b).is_nan(),
        size(mul_of(a, b).units() * one_units() - a.units() * b.units()) <= 0x4_0000_0000 * (mote()
            * one_units()),
{
    let p = one_units();
    let u = mote();
    lemma_one_units();
    lemma_mote();
    lemma2_to64();
    lemma2_to64_rest();
    lemma_pow2_adds(14, 1074);
    lemma_pow2_adds(35, 1000);
    lemma_bounded_finite(a, m);
    lemma_bounded_finite(b, n);
    let x = size(a.units());
    let y = size(b.units());
    assert(size(a.units() * b.units()) == x * y) by (nonlinear_arith)
        requires
            x == size(a.units()),
            y == size(b.units()),
    ;
    assert(x * y <= (m * p) * (n * p)) by (nonlinear_arith)
        requires
            0 <= x <= m * p,
            0 <= y <= n * p,
    ;
    assert((m * p) * (n * p) <= (16384 * p) * p) by (nonlinear_arith)
        requires
            m * n <= 16384,
            p > 0,
    ;
    lemma_mul_error(a, b, 1088);
    assert((0x8_0000_0000 * u) * p == 0x8_0000_0000 * (u * p)) by (nonlinear_arith);
}

/// A number of at most 16384 times a short decimal of at most one.
pub proof fn lemma_scaled_off(a: Real, n: int, d: int)
    requires
        bounded(a, 16384),
        d > 0,
        0 <= n <= d,
    ensures
        !mul_of(a, decimal(n, d)).is_nan(),
        size(mul_of(a, decimal(n, d)).units() * d - a.units() * n) <= 0x8_0000_0000 * (mote() * d),
{
    let p = one_units();
    let u = mote();
    let c = decimal(n, d);
    let m = mul_of(a, c).units();
    let x = a.units();
    lemma_one_units();
    lemma_mote();
    lemma_decimal_off(n, d);
    lemma_product_off(a, c, 16384, 1);
    let e = m * p - x * c.units();
    let r = c.units() * d - n * p;
    assert((m * d - x * n) * p == e * d + x * r) by (nonlinear_arith)
        requires
            e == m * p - x * c.units(),
            r == c.units() * d - n * p,
    ;
    assert(size(e * d) <= 0x4_0000_0000 * ((u * d) * p)) by (nonlinear_arith)
        requires
            size(e) <= 0x4_0000_0000 * (u * p),
            d > 0,
    ;
    assert(size(x * r) <= 0x4_0000_0000 * ((u * d) * p)) by (nonlinear_arith)
        requires
            size(x) <= 16384 * p,
            size(r) <= 0x10_0000 * (u * d),
            p > 0,
            u > 0,
            d > 0,
    ;
    let w = u * d;
    assert(size(m * d - x * n) <= 0x8_0000_0000 * w) by (nonlinear_arith)
        requires
            size((m * d - x * n) * p) <= 0x8_0000_0000 * (w * p),
            p > 0,
    ;
}

/// A quotient of at most `2^j` units is off by no more than half of
/// `2^(j - 53)` units.
pub proof fn lemma_quotient_off(a: Real, c: Real, j: nat)
    requires
        a.is_finite(),
        c.is_finite(),
        c.units() > 0,
        53 <= j <= 2097,
        size(a.units()) * one_units() <= pow2(j) * c.units(),
    ensures
        div_of(a, c).is_finite(),
        size(div_of(a, c).units()) <= pow2(j),
        2 * size(div_of(a, c).units() * c.units() - a.units() * one_units()) <= pow2(
            (j - 53) as nat,
        ) * c.units(),
{
    let p = one_units();
    let x = magnitude(a.key());
    let d = magnitude(c.key());
    lemma_one_units();
    lemma_units_order(a, c);
    assert(magnitude(0) == 0);
    assert(x * p >= 0) by (nonlinear_arith)
        requires
            x >= 0,
            p >= 0,
    ;
    lemma_rounding_error(x * p, d, false, j);
    lemma_rounded(x * p, d, false);
    lemma_nearest_exists(x * p, d);
    let k = nearest(x * p, d);
    lemma_signed(a.negative(), k);
    lemma_signed(false, k);
    if x * p == 0 {
        assert(0 * d == 0);
        lemma_nearest_exact(0, 0, d);
    }
    let q = magnitude(k);
    assert((-q) * d == -(q * d)) by (nonlinear_arith);
    assert((-x) * p == -(x * p)) by (nonlinear_arith);
}

// ---- Roots ----

/// A magnitude of at most `2^j` has a key of at most its own.
proof fn lemma_below_power(k: int, j: nat)
    requires
        0 <= k,
        53 <= j <= 2097,
        magnitude(k) <= pow2(j),
    ensures
        k <= (j - 51) * binade(),
{
    let top = lemma_power_key(j);
    if k > top {
        lemma_magnitude_increases(top, k);
    }
}

/// What a root is taken of has a root among the finite numbers.
pub(crate) proof fn lemma_root_defined(s: Real)
    requires
        s.is_finite(),
        s.units() > 0,
    ensures
        0 < s.units() * one_units(),
        is_nearest_root(
            nearest_root(s.units() * one_units()),
            s.units() * one_units(),
        ),
{
    let p = one_units();
    let top = magnitude(infinity_key());
    let one = lemma_power_key(1074);
    lemma_one_units();
    lemma_units_order(s, s);
    lemma_magnitude_increases(s.key(), infinity_key());
    lemma_magnitude_increases(one, infinity_key());
    assert(0 < s.units() * p && s.units() * p < top * top) by (nonlinear_arith)
        requires
            0 < s.units() < top,
            0 < p < top,
    ;
    lemma_nearest_root_exists(s.units() * p);
}

/// A root is below a number where the square of that number, less a little, is
/// above what the root is taken of.
pub proof fn lemma_root_below(s: Real, c: Real, j: nat)
    requires
        s.is_finite(),
        s.units() >= 0,
        c.is_finite(),
        53 <= j <= 2097,
        0 < c.units() <= pow2(j),
        c.units() >= pow2((j - 53) as nat),
        4 * (s.units() * one_units()) < (2 * c.units() - pow2((j - 53) as nat)) * (2 * c.units()
            - pow2((j - 53) as nat)),
    ensures
        !sqrt_of(s).is_nan(),
        0 <= sqrt_of(s).units() < c.units(),
{
    let p = one_units();
    let g = pow2((j - 53) as nat) as int;
    lemma_one_units();
    assert(magnitude(0) == 0);
    lemma_units_order(s, c);
    if s.key() > 0 {
        lemma_magnitude_increases(0, s.key());
        let n = s.units() * p;
        lemma_root_defined(s);
        let k = nearest_root(n);
        lemma_signed(false, k);
        if k > 0 {
            lemma_magnitude_increases(0, k);
        }
        if k >= c.key() {
            lemma_below_power(c.key(), j);
            lemma_gap(c.key() - 1, j);
            if k > c.key() {
                lemma_magnitude_increases(c.key(), k);
                lemma_magnitude_increases(c.key() - 1, k - 1);
            }
            let m = midpoint2(k - 1);
            let w = 2 * c.units() - g;
            assert(m >= w);
            assert(w * w <= m * m) by (nonlinear_arith)
                requires
                    0 <= w <= m,
            ;
        } else {
            lemma_magnitude_increases(k, c.key());
        }
    }
}

/// A root is at least a number whose square is below what it is taken of.
pub proof fn lemma_root_above(s: Real, c: Real)
    requires
        s.is_finite(),
        s.units() >= 0,
        c.is_finite(),
        c.units() > 0,
        s.units() * one_units() > c.units() * c.units(),
    ensures
        !sqrt_of(s).is_nan(),
        sqrt_of(s).units() >= c.units(),
{
    let p = one_units();
    let n = s.units() * p;
    lemma_one_units();
    assert(magnitude(0) == 0);
    lemma_units_order(s, c);
    assert(c.units() * c.units() > 0) by (nonlinear_arith)
        requires
            c.units() > 0,
    ;
    assert(s.units() != 0) by {
        if s.units() == 0 {
            assert(0 * p == 0);
        }
    }
    lemma_root_defined(s);
    let k = nearest_root(n);
    lemma_signed(false, k);
    if k < c.key() {
        lemma_magnitude_increases(k, c.key());
        if k + 1 < c.key() {
            lemma_magnitude_increases(k + 1, c.key());
        }
        if k > 0 {
            lemma_magnitude_increases(0, k);
        }
        lemma_magnitude_increases(0, k + 1);
        let m = midpoint2(k);
        let w = c.units();
        assert(m * m <= 4 * (w * w)) by (nonlinear_arith)
            requires
                0 <= m <= 2 * w,
        ;
    } else if k > c.key() {
        lemma_magnitude_increases(c.key(), k);
    }
}

} // verus!
