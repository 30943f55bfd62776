//! How large results can be, and how far they can be from the exact ones.

use vstd::arithmetic::power2::{
    lemma2_to64, lemma2_to64_rest, lemma_pow2_adds, lemma_pow2_pos, lemma_pow2_strictly_increases,
    pow2,
};
use vstd::prelude::*;

use crate::convert::decimal;
use crate::number::{
    add_of, div_of, lemma_units_order, lt_of, mul_of, neg_of, rounded, sub_of, Real,
};
use crate::order::{
    lemma_decimal_integer, lemma_decimal_order, lemma_dyadic, lemma_rounded, lemma_rounded_monotone,
    lemma_signed,
};
use crate::rounding::{
    binade, infinity_key, lemma_key_split, lemma_magnitude_increases, lemma_magnitude_scaled,
    lemma_nearest_exact, lemma_nearest_exists, lemma_nearest_monotone, magnitude, midpoint2,
    nearest,
};

verus! {

/// The size of an integer.
pub open spec fn size(n: int) -> int {
    if n < 0 {
        -n
    } else {
        n
    }
}

/// One, in units of 2^-1074.
pub open spec fn one_units() -> int {
    pow2(1074) as int
}

/// The number lies between `-m` and `m`.
pub open spec fn bounded(a: Real, m: int) -> bool {
    !a.is_nan() && size(a.units()) <= m * one_units()
}

/// The two are numbers, and equal as such: zeros may differ in sign.
pub open spec fn same_value(a: Real, b: Real) -> bool {
    !a.is_nan() && !b.is_nan() && a.units() == b.units()
}

pub proof fn lemma_one_units()
    ensures
        one_units() > 0,
{
    lemma_pow2_pos(1074);
}

/// A decimal with the other sign is the number with the other sign.
pub proof fn lemma_decimal_negated(n: int, d: int)
    requires
        d > 0,
    ensures
        decimal(-n, d).units() == -decimal(n, d).units(),
        !decimal(n, d).is_nan(),
{
    let p = one_units();
    lemma_one_units();
    assert((-n) * p == -(n * p)) by (nonlinear_arith);
    lemma_rounded(n * p, d, false);
    lemma_rounded((-n) * p, d, false);
}

/// Fractions over a power of two are numbers, whatever their sign.
pub proof fn lemma_dyadic_value(n: int, j: nat)
    requires
        -0x8000_0000 <= n <= 0x8000_0000,
        j <= 1000,
    ensures
        decimal(n, pow2(j) as int).units() == n * pow2((1074 - j) as nat),
        !decimal(n, pow2(j) as int).is_nan(),
{
    lemma_pow2_pos(j);
    if n >= 0 {
        lemma_dyadic(n, j);
    } else {
        lemma_dyadic(-n, j);
        lemma_decimal_negated(n, pow2(j) as int);
        let u = pow2((1074 - j) as nat) as int;
        assert((-n) * u == -(n * u)) by (nonlinear_arith);
    }
}

/// A number within 32-bit bounds is finite.
pub proof fn lemma_bounded_finite(a: Real, m: int)
    requires
        bounded(a, m),
        0 <= m <= 0x8000_0000,
    ensures
        a.is_finite(),
{
    let p = one_units();
    lemma_one_units();
    lemma_decimal_integer(0x8000_0000);
    let top = decimal(0x8000_0000, 1);
    assert(m * p <= 0x8000_0000 * p) by (nonlinear_arith)
        requires
            m <= 0x8000_0000,
            p > 0,
    ;
    lemma_units_order(a, top);
    if a.key() >= infinity_key() {
        lemma_magnitude_increases(top.key(), a.key());
    }
}

/// A larger bound holds too.
pub proof fn lemma_bounded_weaken(a: Real, m: int, n: int)
    requires
        bounded(a, m),
        m <= n,
    ensures
        bounded(a, n),
{
    let p = one_units();
    lemma_one_units();
    assert(m * p <= n * p) by (nonlinear_arith)
        requires
            m <= n,
            p > 0,
    ;
}

/// Rounding does not lead out of integer bounds.
pub proof fn lemma_rounded_bounded(n: int, d: int, z: bool, m: int)
    requires
        d > 0,
        0 <= m <= 0x8000_0000,
        size(n) <= (m * one_units()) * d,
    ensures
        bounded(rounded(n, d, z), m),
{
    let p = one_units();
    let top = m * p;
    lemma_one_units();
    lemma2_to64();
    lemma_decimal_integer(m);
    lemma_decimal_negated(m, 1);
    assert((-m) * p == -top) by (nonlinear_arith)
        requires
            top == m * p,
    ;
    assert((-top) * d == -(top * d)) by (nonlinear_arith);
    lemma_rounded_monotone(n, d, z, top, 1, false);
    lemma_rounded_monotone(-top, 1, false, n, d, z);
}

/// Integers are within their own bounds.
pub proof fn lemma_decimal_bounded(n: int, d: int, m: int)
    requires
        d > 0,
        0 <= m <= 0x8000_0000,
        size(n) <= m * d,
    ensures
        bounded(decimal(n, d), m),
{
    let p = one_units();
    lemma_one_units();
    assert(size(n * p) <= (m * p) * d) by (nonlinear_arith)
        requires
            size(n) <= m * d,
            p > 0,
    ;
    lemma_rounded_bounded(n * p, d, false, m);
}

pub proof fn lemma_neg_bounded(a: Real, m: int)
    requires
        bounded(a, m),
    ensures
        bounded(neg_of(a), m),
        neg_of(a).units() == -a.units(),
        neg_of(a).key() == a.key(),
{
}

pub proof fn lemma_add_bounded(a: Real, b: Real, m: int, n: int)
    requires
        bounded(a, m),
        bounded(b, n),
        0 <= m,
        0 <= n,
        m + n <= 0x8000_0000,
    ensures
        bounded(add_of(a, b), m + n),
{
    let p = one_units();
    lemma_bounded_finite(a, m);
    lemma_bounded_finite(b, n);
    assert((m + n) * p == m * p + n * p) by (nonlinear_arith);
    lemma_rounded_bounded(a.units() + b.units(), 1, a.negative() && b.negative(), m + n);
}

pub proof fn lemma_sub_bounded(a: Real, b: Real, m: int, n: int)
    requires
        bounded(a, m),
        bounded(b, n),
        0 <= m,
        0 <= n,
        m + n <= 0x8000_0000,
    ensures
        bounded(sub_of(a, b), m + n),
{
    lemma_neg_bounded(b, n);
    lemma_add_bounded(a, neg_of(b), m, n);
}

/// A finite product is the exact one, rounded.
pub proof fn lemma_mul_value(a: Real, b: Real)
    requires
        a.is_finite(),
        b.is_finite(),
    ensures
        !mul_of(a, b).is_nan(),
        mul_of(a, b).units() == rounded(a.units() * b.units(), one_units(), false).units(),
{
    let x = magnitude(a.key());
    let y = magnitude(b.key());
    let d = one_units();
    lemma_one_units();
    lemma_units_order(a, b);
    assert(x * y >= 0) by (nonlinear_arith)
        requires
            x >= 0,
            y >= 0,
    ;
    lemma_nearest_exists(x * y, d);
    lemma_signed(a.negative() != b.negative(), nearest(x * y, d));
    lemma_rounded(a.units() * b.units(), d, false);
    assert((-x) * y == -(x * y)) by (nonlinear_arith);
    assert(x * (-y) == -(x * y)) by (nonlinear_arith);
    assert((-x) * (-y) == x * y) by (nonlinear_arith);
}

/// The product of a number within `m` and one within `p / q` is within `r`,
/// where `r` is at least `m * p / q`.
pub proof fn lemma_mul_bounded(a: Real, b: Real, m: int, p: int, q: int, r: int)
    requires
        bounded(a, m),
        b.is_finite(),
        size(b.units()) * q <= p * one_units(),
        0 <= m <= 0x8000_0000,
        0 <= p,
        0 < q,
        0 <= r <= 0x8000_0000,
        m * p <= r * q,
    ensures
        bounded(mul_of(a, b), r),
{
    let u = one_units();
    let x = size(a.units());
    let y = size(b.units());
    lemma_one_units();
    lemma_bounded_finite(a, m);
    lemma_mul_value(a, b);
    assert(size(a.units() * b.units()) == x * y) by (nonlinear_arith)
        requires
            x == size(a.units()),
            y == size(b.units()),
    ;
    assert((x * y) * q <= (m * u) * (p * u)) by (nonlinear_arith)
        requires
            0 <= x <= m * u,
            0 <= y * q <= p * u,
            y >= 0,
            q > 0,
    ;
    assert((m * u) * (p * u) <= ((r * u) * u) * q) by (nonlinear_arith)
        requires
            m * p <= r * q,
            u > 0,
    ;
    assert(x * y <= (r * u) * u) by (nonlinear_arith)
        requires
            (x * y) * q <= ((r * u) * u) * q,
            q > 0,
    ;
    lemma_rounded_bounded(a.units() * b.units(), u, false, r);
}

/// The quotient of a number within `m` and one of at least `1 / n` is within
/// `m * n`.
pub proof fn lemma_div_bounded(a: Real, c: Real, m: int, n: int)
    requires
        bounded(a, m),
        c.is_finite(),
        0 <= m,
        0 < n,
        m * n <= 0x8000_0000,
        m <= 0x8000_0000,
        c.units() * n >= one_units(),
    ensures
        bounded(div_of(a, c), m * n),
{
    let u = one_units();
    let x = magnitude(a.key());
    let d = magnitude(c.key());
    lemma_one_units();
    lemma_bounded_finite(a, m);
    lemma_units_order(a, c);
    assert(c.units() > 0) by (nonlinear_arith)
        requires
            c.units() * n >= u,
            u > 0,
            n > 0,
    ;
    assert(!c.negative() && !c.is_zero());
    assert(x * u <= ((m * n) * u) * d) by (nonlinear_arith)
        requires
            0 <= x <= m * u,
            d * n >= u,
            u > 0,
            m >= 0,
            n > 0,
    ;
    assert(0 <= x * u) by (nonlinear_arith)
        requires
            0 <= x,
            u > 0,
    ;
    assert(0 <= m * n) by (nonlinear_arith)
        requires
            0 <= m,
            0 < n,
    ;
    lemma_rounded_bounded(x * u, d, false, m * n);
    lemma_rounded(x * u, d, false);
    lemma_nearest_exists(x * u, d);
    lemma_signed(a.negative(), nearest(x * u, d));
}

// ---- Errors ----

/// The key of `2^j` units.
pub(crate) proof fn lemma_power_key(j: nat) -> (k: int)
    requires
        53 <= j <= 2097,
    ensures
        k == (j - 51) * binade(),
        0 < k < infinity_key(),
        magnitude(k) == pow2(j),
{
    lemma2_to64();
    lemma2_to64_rest();
    lemma_magnitude_scaled((j - 52) as nat, binade());
    lemma_pow2_adds(52, (j - 52) as nat);
    (j - 51) * binade()
}

/// Below `2^j`, neighbours lie no more than `2^(j - 53)` apart.
pub(crate) proof fn lemma_gap(k: int, j: nat)
    requires
        53 <= j <= 2097,
        0 <= k < (j - 51) * binade(),
    ensures
        magnitude(k + 1) - magnitude(k) <= pow2((j - 53) as nat),
{
    let (t, q) = lemma_key_split(k);
    let u = pow2(t) as int;
    assert((q + 1) * u - q * u == u) by (nonlinear_arith);
    assert(t <= j - 53) by {
        if t > 0 && t > j - 53 {
            assert(t * binade() >= (j - 52) * binade());
        }
    }
    if t < j - 53 {
        lemma_pow2_strictly_increases(t, (j - 53) as nat);
    }
}

/// Rounding a ratio of at most `2^j` is off by no more than half of
/// `2^(j - 53)`.
pub proof fn lemma_rounding_error(n: int, d: int, z: bool, j: nat)
    requires
        d > 0,
        53 <= j <= 2097,
        size(n) <= pow2(j) * d,
    ensures
        2 * size(rounded(n, d, z).units() * d - n) <= pow2((j - 53) as nat) * d,
        size(rounded(n, d, z).units()) <= pow2(j),
        rounded(n, d, z).is_finite(),
{
    let x = size(n);
    let k = nearest(x, d);
    let top = lemma_power_key(j);
    let g = pow2((j - 53) as nat) as int;
    lemma_pow2_pos((j - 53) as nat);
    lemma_nearest_exists(x, d);
    let bound = pow2(j) * d;
    lemma_nearest_exact(top, bound, d);
    assert(x * d <= bound * d) by (nonlinear_arith)
        requires
            x <= bound,
            d > 0,
    ;
    lemma_nearest_monotone(x, d, bound, d);
    lemma_rounded(n, d, z);
    lemma_signed(n < 0, k);
    lemma_signed(z, 0);
    assert(magnitude(0) == 0);
    if k < top {
        lemma_magnitude_increases(k, top);
    }
    let m = magnitude(k);
    if k > 0 {
        lemma_gap(k - 1, j);
        assert(2 * (m * d - x) <= g * d) by (nonlinear_arith)
            requires
                midpoint2(k - 1) * d <= 2 * x,
                2 * m - midpoint2(k - 1) <= g,
                d > 0,
        ;
    } else {
        assert(0 * d == 0);
        assert(g * d >= 0) by (nonlinear_arith)
            requires
                g > 0,
                d > 0,
        ;
    }
    if k < top {
        lemma_gap(k, j);
        assert(2 * (x - m * d) <= g * d) by (nonlinear_arith)
            requires
                2 * x <= midpoint2(k) * d,
                midpoint2(k) - 2 * m <= g,
                d > 0,
        ;
    } else {
        assert(g * d >= 0) by (nonlinear_arith)
            requires
                g > 0,
                d > 0,
        ;
    }
    assert((-m) * d == -(m * d)) by (nonlinear_arith);
}

/// A sum of at most `2^j` is off by no more than half of `2^(j - 53)`.
pub proof fn lemma_add_error(a: Real, b: Real, j: nat)
    requires
        a.is_finite(),
        b.is_finite(),
        53 <= j <= 2097,
        size(a.units() + b.units()) <= pow2(j),
    ensures
        2 * size(add_of(a, b).units() - (a.units() + b.units())) <= pow2((j - 53) as nat),
        size(add_of(a, b).units()) <= pow2(j),
        add_of(a, b).is_finite(),
{
    lemma_rounding_error(a.units() + b.units(), 1, a.negative() && b.negative(), j);
}

/// A product of at most `2^j` is off by no more than half of `2^(j - 53)`.
pub proof fn lemma_mul_error(a: Real, b: Real, j: nat)
    requires
        a.is_finite(),
        b.is_finite(),
        53 <= j <= 2097,
        size(a.units() * b.units()) <= pow2(j) * one_units(),
    ensures
        2 * size(mul_of(a, b).units() * one_units() - a.units() * b.units()) <= pow2(
            (j - 53) as nat,
        ) * one_units(),
        !mul_of(a, b).is_nan(),
{
    lemma_one_units();
    lemma_mul_value(a, b);
    lemma_rounding_error(a.units() * b.units(), one_units(), false, j);
}

/// A number times one is that number.
pub proof fn lemma_times_one(a: Real)
    requires
        a.is_finite(),
    ensures
        mul_of(a, decimal(1, 1)) == a,
{
    let p = one_units();
    let x = magnitude(a.key());
    lemma_one_units();
    lemma_decimal_integer(1);
    assert(x * (1 * p) == x * p) by (nonlinear_arith);
    lemma_units_order(a, a);
    lemma_nearest_exact(a.key(), x * p, p);
}

/// Short decimals a hundredth apart are apart as numbers.
pub proof fn lemma_hundredths_strict(m: int, n: int)
    requires
        -100_000 <= m < n <= 100_000,
    ensures
        lt_of(decimal(m, 100), decimal(n, 100)),
{
    let u = pow2(1064) as int;
    lemma2_to64();
    lemma_pow2_pos(1064);
    // A multiple of 1/1024 at or above m/100, and the next one at or below n/100.
    let k = (m * 1024 + 99) / 100;
    lemma_dyadic_value(k, 10);
    lemma_dyadic_value(k + 1, 10);
    lemma_decimal_order(m, 100, k, 1024);
    lemma_decimal_order(k + 1, 1024, n, 100);
    assert(k * u < (k + 1) * u) by (nonlinear_arith)
        requires
            u > 0,
    ;
}

} // verus!
