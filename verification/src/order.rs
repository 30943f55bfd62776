//! How the arithmetic respects the order of numbers.

use vstd::arithmetic::power2::{
    lemma2_to64, lemma2_to64_rest, lemma_pow2_adds, lemma_pow2_pos, lemma_pow2_unfold, pow2,
};
use vstd::prelude::*;

use crate::bounds::lemma_mul_value;
use crate::convert::{byte_of, decimal};
use crate::number::{add_of, div_of, le_of, lemma_units_order, mul_of, rounded, signed, Real};
use crate::rounding::{
    binade, infinity_key, lemma_magnitude_increases, lemma_magnitude_scaled, lemma_nearest_exact,
    lemma_nearest_exists, lemma_nearest_monotone, magnitude, nearest,
};

verus! {

proof fn lemma_magnitude_ordered(i: int, j: int)
    requires
        0 <= i <= j,
    ensures
        0 <= magnitude(i) <= magnitude(j),
{
    assert(magnitude(0) == 0);
    if 0 < i {
        lemma_magnitude_increases(0, i);
    }
    if i < j {
        lemma_magnitude_increases(i, j);
    }
}

/// What a sign and a key give is not a NaN, and has that magnitude.
pub proof fn lemma_signed(negative: bool, k: int)
    requires
        0 <= k <= infinity_key(),
    ensures
        signed(negative, k).negative() == negative,
        signed(negative, k).key() == k,
        !signed(negative, k).is_nan(),
        signed(negative, k).units() == if negative {
            -magnitude(k)
        } else {
            magnitude(k)
        },
{
}

/// Every number but a NaN lies between the infinities.
pub proof fn lemma_within_infinity(a: Real)
    requires
        !a.is_nan(),
    ensures
        -magnitude(infinity_key()) <= a.units() <= magnitude(infinity_key()),
{
    lemma_magnitude_ordered(a.key(), infinity_key());
}

/// A rounded ratio has the sign of the ratio and the nearest magnitude.
pub proof fn lemma_rounded(n: int, d: int, z: bool)
    requires
        d > 0,
    ensures
        !rounded(n, d, z).is_nan(),
        n >= 0 ==> rounded(n, d, z).units() == magnitude(nearest(n, d)) && 0 <= nearest(n, d)
            <= infinity_key(),
        n <= 0 ==> rounded(n, d, z).units() == -magnitude(nearest(-n, d)) && 0 <= nearest(-n, d)
            <= infinity_key(),
        n >= 0 ==> rounded(n, d, z).units() >= 0,
        n <= 0 ==> rounded(n, d, z).units() <= 0,
{
    let size = if n < 0 {
        -n
    } else {
        n
    };
    lemma_nearest_exists(size, d);
    lemma_magnitude_ordered(0, nearest(size, d));
    lemma_signed(n < 0, nearest(size, d));
    if n == 0 {
        assert(magnitude(0) == 0);
        assert(0 * d == 0);
        lemma_nearest_exact(0, 0, d);
        lemma_signed(z, 0);
    }
}

/// Rounding preserves order.
pub proof fn lemma_rounded_monotone(n1: int, d1: int, z1: bool, n2: int, d2: int, z2: bool)
    requires
        d1 > 0,
        d2 > 0,
        n1 * d2 <= n2 * d1,
    ensures
        le_of(rounded(n1, d1, z1), rounded(n2, d2, z2)),
{
    lemma_rounded(n1, d1, z1);
    lemma_rounded(n2, d2, z2);
    if n1 > 0 && n2 < 0 {
        assert(n1 * d2 > n2 * d1) by (nonlinear_arith)
            requires
                n1 > 0,
                n2 < 0,
                d1 > 0,
                d2 > 0,
        ;
    }
    if n1 >= 0 && n2 >= 0 {
        lemma_nearest_monotone(n1, d1, n2, d2);
        lemma_magnitude_ordered(nearest(n1, d1), nearest(n2, d2));
    } else if n1 <= 0 && n2 <= 0 {
        assert((-n2) * d1 == -(n2 * d1)) by (nonlinear_arith);
        assert((-n1) * d2 == -(n1 * d2)) by (nonlinear_arith);
        lemma_nearest_monotone(-n2, d2, -n1, d1);
        lemma_magnitude_ordered(nearest(-n2, d2), nearest(-n1, d1));
    } else if n1 > 0 {
        // n2 < 0, ruled out above
    } else {
        // n1 < 0 < n2
    }
}

/// A number that is representable rounds to itself.
pub proof fn lemma_rounded_exact(a: Real, z: bool)
    requires
        !a.is_nan(),
    ensures
        rounded(a.units(), 1, z).units() == a.units(),
        a.units() != 0 ==> rounded(a.units(), 1, z) == a,
{
    let k = a.key();
    lemma_units_order(a, a);
    lemma_nearest_exact(k, magnitude(k), 1);
    lemma_signed(a.negative(), k);
    if k == 0 {
        lemma_signed(z, 0);
    }
}

/// Adding the same number to two others keeps their order, where neither sum
/// is undefined.
pub proof fn law_add_keeps_order(a: Real, b: Real, c: Real)
    requires
        le_of(a, b),
        !add_of(a, c).is_nan(),
        !add_of(b, c).is_nan(),
    ensures
        le_of(add_of(a, c), add_of(b, c)),
{
    lemma_within_infinity(add_of(a, c));
    lemma_within_infinity(add_of(b, c));
    if a.is_finite() && b.is_finite() && c.is_finite() {
        lemma_rounded_monotone(
            a.units() + c.units(),
            1,
            a.negative() && c.negative(),
            b.units() + c.units(),
            1,
            b.negative() && c.negative(),
        );
    } else {
        lemma_units_order(a, b);
        lemma_magnitude_increases(0, infinity_key());
    }
}

/// The order in which two numbers are added does not matter.
pub proof fn law_add_commutes(a: Real, b: Real)
    ensures
        add_of(a, b) == add_of(b, a),
{
}

/// The order in which two numbers are multiplied does not matter.
pub proof fn law_mul_commutes(a: Real, b: Real)
    ensures
        mul_of(a, b) == mul_of(b, a),
{
    assert(magnitude(a.key()) * magnitude(b.key()) == magnitude(b.key()) * magnitude(a.key()))
        by (nonlinear_arith);
}

/// Multiplying two numbers by the same positive one keeps their order.
pub proof fn law_mul_keeps_order(a: Real, b: Real, c: Real)
    requires
        le_of(a, b),
        c.is_finite(),
        !c.negative(),
        !c.is_zero(),
    ensures
        le_of(mul_of(a, c), mul_of(b, c)),
{
    let d = pow2(1074) as int;
    lemma_pow2_pos(1074);
    lemma_units_order(a, b);
    lemma_magnitude_increases(0, infinity_key());
    lemma_magnitude_increases(0, c.key());
    lemma_signed(a.negative(), infinity_key());
    lemma_signed(b.negative(), infinity_key());
    if a.is_finite() {
        lemma_mul_value(a, c);
        lemma_within_infinity(mul_of(a, c));
    }
    if b.is_finite() {
        lemma_mul_value(b, c);
        lemma_within_infinity(mul_of(b, c));
    }
    if a.is_finite() && b.is_finite() {
        let x = a.units() * c.units();
        let y = b.units() * c.units();
        assert(x <= y) by (nonlinear_arith)
            requires
                x == a.units() * c.units(),
                y == b.units() * c.units(),
                a.units() <= b.units(),
                c.units() > 0,
        ;
        assert(x * d <= y * d) by (nonlinear_arith)
            requires
                x <= y,
                d > 0,
        ;
        lemma_rounded_monotone(x, d, false, y, d, false);
    }
}

/// The number that a short decimal denotes is finite and has its sign.
pub proof fn lemma_decimal(n: int, d: int)
    requires
        -0x8000_0000 <= n <= 0x8000_0000,
        d > 0,
    ensures
        decimal(n, d).is_finite(),
        n > 0 ==> !decimal(n, d).negative(),
        n >= 0 ==> decimal(n, d).units() >= 0,
        n <= 0 ==> decimal(n, d).units() <= 0,
{
    let p = pow2(1074) as int;
    let size = if n < 0 {
        -n
    } else {
        n
    };
    let top = 1053 * binade() + binade();
    lemma2_to64();
    lemma2_to64_rest();
    lemma_pow2_pos(1074);
    lemma_magnitude_scaled(1053, binade());
    lemma_pow2_adds(21, 1053);
    assert(magnitude(top) == 0x8000_0000 * p);
    assert((size * p) * 1 <= (0x8000_0000 * p) * d) by (nonlinear_arith)
        requires
            0 <= size <= 0x8000_0000,
            p > 0,
            d >= 1,
    ;
    assert(0 <= size * p) by (nonlinear_arith)
        requires
            0 <= size,
            p > 0,
    ;
    lemma_nearest_exact(top, 0x8000_0000 * p, 1);
    lemma_nearest_monotone(size * p, d, 0x8000_0000 * p, 1);
    assert(n < 0 ==> n * p == -(size * p)) by (nonlinear_arith)
        requires
            n < 0 ==> size == -n,
    ;
    assert(n > 0 ==> n * p > 0) by (nonlinear_arith)
        requires
            p > 0,
    ;
    assert(n < 0 ==> n * p < 0) by (nonlinear_arith)
        requires
            p > 0,
    ;
    assert(n == 0 ==> n * p == 0) by (nonlinear_arith);
    lemma_signed(n < 0, nearest(size * p, d));
    lemma_rounded(n * p, d, false);
    lemma_signed(false, 0);
}

/// Decimals are ordered as the fractions that they denote.
pub proof fn lemma_decimal_order(n1: int, d1: int, n2: int, d2: int)
    requires
        d1 > 0,
        d2 > 0,
        n1 * d2 <= n2 * d1,
    ensures
        le_of(decimal(n1, d1), decimal(n2, d2)),
{
    let p = pow2(1074) as int;
    lemma_pow2_pos(1074);
    assert((n1 * p) * d2 <= (n2 * p) * d1) by (nonlinear_arith)
        requires
            n1 * d2 <= n2 * d1,
            p > 0,
    ;
    lemma_rounded_monotone(n1 * p, d1, false, n2 * p, d2, false);
}

/// A positive integer can be shifted up to 53 bits.
proof fn lemma_normalized(n: int) -> (s: nat)
    requires
        0 < n < 2 * binade(),
    ensures
        s <= 52,
        binade() <= n * pow2(s) < 2 * binade(),
    decreases 2 * binade() - n,
{
    lemma2_to64();
    lemma2_to64_rest();
    if n >= binade() {
        0
    } else {
        let s = lemma_normalized(2 * n);
        lemma_pow2_unfold(s + 1);
        lemma_pow2_pos(s);
        assert(n * (2 * pow2(s)) == (2 * n) * pow2(s)) by (nonlinear_arith);
        if s == 52 {
            assert((2 * n) * pow2(52) >= 2 * binade()) by (nonlinear_arith)
                requires
                    n >= 1,
                    pow2(52) == binade(),
            ;
        }
        s + 1
    }
}

/// A significand of up to 53 bits over a power of two has a key.
pub proof fn lemma_representable(m: int, t: nat) -> (k: int)
    requires
        0 < m < 2 * binade(),
        52 <= t <= 2000,
    ensures
        0 < k < infinity_key(),
        magnitude(k) == m * pow2(t),
{
    let s = lemma_normalized(m);
    let q = m * pow2(s);
    let u = (t - s) as nat;
    lemma_magnitude_scaled(u, q);
    lemma_pow2_adds(s, u);
    assert(q * pow2(u) == m * pow2(t)) by (nonlinear_arith)
        requires
            q == m * pow2(s),
            pow2(t) == pow2(s) * pow2(u),
    ;
    u * binade() + q
}

/// What is at least a representable magnitude rounds to at least that.
pub proof fn lemma_rounded_at_least(x: int, k: int)
    requires
        0 <= k <= infinity_key(),
        magnitude(k) <= x,
    ensures
        rounded(x, 1, false).units() >= magnitude(k),
{
    lemma_magnitude_ordered(0, k);
    lemma_nearest_exact(k, magnitude(k), 1);
    lemma_nearest_monotone(magnitude(k), 1, x, 1);
    lemma_magnitude_ordered(k, nearest(x, 1));
    lemma_rounded(x, 1, false);
}

/// Fractions of up to 32 bits over a power of two are numbers.
pub proof fn lemma_dyadic(n: int, j: nat)
    requires
        0 <= n <= 0x8000_0000,
        j <= 1000,
    ensures
        decimal(n, pow2(j) as int).units() == n * pow2((1074 - j) as nat),
        decimal(n, pow2(j) as int).is_finite(),
        !decimal(n, pow2(j) as int).negative(),
{
    let p = pow2(1074) as int;
    let d = pow2(j) as int;
    let u = pow2((1074 - j) as nat) as int;
    lemma_pow2_pos(1074);
    lemma_pow2_pos(j);
    lemma_pow2_adds((1074 - j) as nat, j);
    if n == 0 {
        assert(0 * p == 0);
        assert(0 * u == 0);
        lemma_signed(false, 0);
    } else {
        let k = lemma_representable(n, (1074 - j) as nat);
        assert((n * u) * d == n * p) by (nonlinear_arith)
            requires
                p == u * d,
        ;
        assert(n * p > 0) by (nonlinear_arith)
            requires
                n > 0,
                p > 0,
        ;
        lemma_nearest_exact(k, n * p, d);
        lemma_signed(false, k);
    }
}

/// Integers of up to 32 bits are numbers.
pub proof fn lemma_decimal_integer(n: int)
    requires
        0 <= n <= 0x8000_0000,
    ensures
        decimal(n, 1).units() == n * pow2(1074),
        decimal(n, 1).is_finite(),
        !decimal(n, 1).negative(),
{
    lemma2_to64();
    lemma_dyadic(n, 0);
}

/// Dividing two numbers by the same positive one keeps their order.
pub proof fn law_div_keeps_order(a: Real, b: Real, c: Real)
    requires
        a.is_finite(),
        b.is_finite(),
        !a.negative(),
        !b.negative(),
        le_of(a, b),
        c.is_finite(),
        !c.negative(),
        !c.is_zero(),
    ensures
        le_of(div_of(a, c), div_of(b, c)),
        !div_of(a, c).negative(),
{
    let p = pow2(1074) as int;
    let x = magnitude(a.key());
    let y = magnitude(b.key());
    let d = magnitude(c.key());
    lemma_pow2_pos(1074);
    lemma_units_order(a, b);
    lemma_magnitude_increases(0, c.key());
    assert(0 <= x * p) by (nonlinear_arith)
        requires
            0 <= x,
            p > 0,
    ;
    assert(0 <= y * p) by (nonlinear_arith)
        requires
            0 <= y,
            p > 0,
    ;
    assert((x * p) * d <= (y * p) * d) by (nonlinear_arith)
        requires
            x <= y,
            p > 0,
            d > 0,
    ;
    lemma_nearest_monotone(x * p, d, y * p, d);
    lemma_magnitude_ordered(nearest(x * p, d), nearest(y * p, d));
    lemma_signed(false, nearest(x * p, d));
    lemma_signed(false, nearest(y * p, d));
}

/// A number divided by itself is one.
pub proof fn lemma_div_self(c: Real)
    requires
        c.is_finite(),
        !c.is_zero(),
    ensures
        div_of(c, c) == decimal(1, 1),
{
    let p = pow2(1074) as int;
    let d = magnitude(c.key());
    lemma_pow2_pos(1074);
    lemma_magnitude_increases(0, c.key());
    assert((p * d) * 1 == (1 * p) * d) by (nonlinear_arith);
    assert(0 <= p * d) by (nonlinear_arith)
        requires
            p > 0,
            d > 0,
    ;
    assert(d * p == p * d) by (nonlinear_arith);
    lemma_nearest_monotone(p * d, d, 1 * p, 1);
    lemma_nearest_monotone(1 * p, 1, p * d, d);
}

/// One times a number is that number.
pub proof fn lemma_mul_one(b: Real)
    requires
        b.is_finite(),
        !b.negative(),
    ensures
        mul_of(decimal(1, 1), b) == b,
{
    let p = pow2(1074) as int;
    let y = magnitude(b.key());
    lemma_pow2_pos(1074);
    lemma_decimal_integer(1);
    assert((1 * p) * y == y * p) by (nonlinear_arith);
    lemma_nearest_exact(b.key(), y * p, p);
}

/// The whole part as a byte respects order.
pub proof fn lemma_byte_order(a: Real, b: Real)
    requires
        le_of(a, b),
    ensures
        0 <= byte_of(a) <= byte_of(b) <= 255,
{
    let p = pow2(1074) as int;
    lemma_pow2_pos(1074);
    let x = a.units();
    let y = b.units();
    if x > 0 {
        assert(0 <= x / p <= y / p) by (nonlinear_arith)
            requires
                0 < x <= y,
                p > 0,
        ;
    } else if y > 0 {
        assert(0 <= y / p) by (nonlinear_arith)
            requires
                0 < y,
                p > 0,
        ;
    }
}

/// The byte of a small integer is that integer.
pub proof fn lemma_byte_integer(n: int)
    requires
        0 <= n <= 255,
    ensures
        byte_of(decimal(n, 1)) == n,
{
    let p = pow2(1074) as int;
    lemma_pow2_pos(1074);
    lemma_decimal_integer(n);
    assert((n * p) / p == n) by (nonlinear_arith)
        requires
            p > 0,
    ;
    assert(n > 0 ==> n * p > 0) by (nonlinear_arith)
        requires
            p > 0,
    ;
}

} // verus!
