//! What holds of hills, of the surface that they add up to, and of how it is
//! projected.

use vstd::arithmetic::power2::{
    lemma2_to64, lemma2_to64_rest, lemma_pow2_adds, lemma_pow2_pos, lemma_pow2_unfold, pow2,
};
use vstd::prelude::*;
use vstd::seq_lib::{commutative_foldr, group_to_multiset_ensures, lemma_fold_right_permutation};

use crate::bounds::{
    bounded, lemma_add_bounded, lemma_add_error, lemma_bounded_finite, lemma_decimal_bounded,
    lemma_hundredths_strict, lemma_mul_bounded, lemma_mul_error, lemma_mul_value, lemma_neg_bounded,
    lemma_one_units, lemma_sub_bounded, lemma_times_one, one_units, same_value, size,
};
use crate::constants::Z_SCALE_TENTHS;
use crate::convert::decimal;
use crate::landscape::{after_table, before_table, bump_of, shaped_from};
use crate::laws::{lemma_add_raises, lemma_zero};
use crate::number::{
    add_of, div_of, le_of, lemma_units_order, lt_of, mul_of, nan, neg_of, rounded, sub_of, Real,
};
use crate::order::{
    law_add_commutes, law_add_keeps_order, law_mul_keeps_order, lemma_decimal,
    lemma_decimal_integer, lemma_decimal_order, lemma_dyadic, lemma_rounded, lemma_rounded_exact,
    lemma_signed, lemma_within_infinity,
};
use crate::rounding::{
    infinity_key, lemma_magnitude_increases, lemma_nearest_exact, lemma_nearest_exists,
    lemma_nearest_monotone, magnitude, nearest,
};
use crate::surface::{
    distance2_of, eval_of, exponent_of, lerp_of, mix_of, project_of, surface_of, Gaussian,
};

verus! {

// ---- On the way from one landscape to another ----

/// `r` is `a`, but for the sign of a zero: where `a` is -0, `r` may be +0.
pub open spec fn kept(r: Real, a: Real) -> bool {
    same_value(r, a) && (r == a || a.is_zero() && a.negative())
}

/// The number is at most `2^j` units.
pub open spec fn fits(a: Real, j: nat) -> bool {
    a.is_finite() && size(a.units()) <= pow2(j)
}

/// The two differ by no more than a rounding of numbers of `2^j` units.
pub open spec fn close(a: Real, b: Real, j: nat) -> bool {
    a.is_finite() && size(a.units() - b.units()) <= pow2((j - 52) as nat)
}

/// Adding a zero to a number keeps it.
proof fn lemma_add_zero(a: Real, z: Real)
    requires
        a.is_finite(),
        z.is_zero(),
    ensures
        kept(add_of(a, z), a),
{
    let s = a.negative() && z.negative();
    assert(magnitude(0) == 0);
    lemma_rounded_exact(a, s);
    lemma_rounded(a.units() + z.units(), 1, s);
    lemma_signed(s, 0);
    lemma_units_order(a, z);
}

/// A finite number times zero is zero.
pub(crate) proof fn lemma_mul_zero(a: Real, z: Real)
    requires
        a.is_finite(),
        z.is_finite(),
        a.is_zero() || z.is_zero(),
    ensures
        mul_of(a, z).is_zero(),
{
    let p = one_units();
    let x = magnitude(a.key());
    let y = magnitude(z.key());
    lemma_one_units();
    assert(magnitude(0) == 0);
    assert(x * y == 0) by (nonlinear_arith)
        requires
            x == 0 || y == 0,
    ;
    assert(0 * p == 0);
    lemma_nearest_exact(0, 0, p);
    lemma_signed(a.negative() != z.negative(), 0);
}

/// A gaussian that has not begun to change is the one before the change.
pub proof fn law_lerp_starts_where_it_is(a: Gaussian, b: Gaussian)
    requires
        a.cx.is_finite() && sub_of(b.cx, a.cx).is_finite(),
        a.cy.is_finite() && sub_of(b.cy, a.cy).is_finite(),
        a.amplitude.is_finite() && sub_of(b.amplitude, a.amplitude).is_finite(),
        a.sigma.is_finite() && sub_of(b.sigma, a.sigma).is_finite(),
    ensures
        ({
            let r = lerp_of(a, b, decimal(0, 1));
            &&& kept(r.cx, a.cx)
            &&& kept(r.cy, a.cy)
            &&& kept(r.amplitude, a.amplitude)
            &&& kept(r.sigma, a.sigma)
        }),
{
    lemma_mix_at_start(a.cx, b.cx);
    lemma_mix_at_start(a.cy, b.cy);
    lemma_mix_at_start(a.amplitude, b.amplitude);
    lemma_mix_at_start(a.sigma, b.sigma);
}

proof fn lemma_mix_at_start(a: Real, b: Real)
    requires
        a.is_finite(),
        sub_of(b, a).is_finite(),
    ensures
        kept(mix_of(a, b, decimal(0, 1)), a),
{
    lemma_zero();
    lemma_mul_zero(sub_of(b, a), decimal(0, 1));
    lemma_add_zero(a, mul_of(sub_of(b, a), decimal(0, 1)));
}

/// At the end of the change a gaussian is the one after it, but for rounding:
/// a field of at most `2^j` units before and after is off by `2^(j - 52)` units
/// at most.
pub proof fn law_lerp_ends_at_the_other(a: Gaussian, b: Gaussian, j: nat)
    requires
        53 <= j <= 2096,
    ensures
        ({
            let r = lerp_of(a, b, decimal(1, 1));
            &&& fits(a.cx, j) && fits(b.cx, j) ==> close(r.cx, b.cx, j)
            &&& fits(a.cy, j) && fits(b.cy, j) ==> close(r.cy, b.cy, j)
            &&& fits(a.amplitude, j) && fits(b.amplitude, j) ==> close(r.amplitude, b.amplitude, j)
            &&& fits(a.sigma, j) && fits(b.sigma, j) ==> close(r.sigma, b.sigma, j)
        }),
{
    lemma_mix_at_end(a.cx, b.cx, j);
    lemma_mix_at_end(a.cy, b.cy, j);
    lemma_mix_at_end(a.amplitude, b.amplitude, j);
    lemma_mix_at_end(a.sigma, b.sigma, j);
}

proof fn lemma_mix_at_end(a: Real, b: Real, j: nat)
    requires
        53 <= j <= 2096,
    ensures
        fits(a, j) && fits(b, j) ==> close(mix_of(a, b, decimal(1, 1)), b, j),
{
    if fits(a, j) && fits(b, j) {
        let d = sub_of(b, a);
        let k = neg_of(a);
        assert(k.is_finite() && k.units() == -a.units());
        lemma_pow2_unfold(j + 1);
        lemma_pow2_unfold((j - 52) as nat);
        lemma_pow2_pos((j - 53) as nat);
        lemma_add_error(b, k, j + 1);
        lemma_times_one(d);
        if 52 < j {
            lemma_pow2_adds(53, (j - 53) as nat);
            lemma2_to64_rest();
        }
        assert(pow2((j - 53) as nat) <= pow2(j));
        lemma_add_error(a, d, j + 1);
    }
}

/// What is the same before and after a change stays so on the way, however far
/// it has come.
pub proof fn law_lerp_keeps_what_is_shared(a: Gaussian, b: Gaussian, t: Real)
    requires
        t.is_finite(),
    ensures
        ({
            let r = lerp_of(a, b, t);
            &&& a.cx.is_finite() && b.cx == a.cx ==> kept(r.cx, a.cx)
            &&& a.cy.is_finite() && b.cy == a.cy ==> kept(r.cy, a.cy)
            &&& a.amplitude.is_finite() && b.amplitude == a.amplitude ==> kept(
                r.amplitude,
                a.amplitude,
            )
            &&& a.sigma.is_finite() && b.sigma == a.sigma ==> kept(r.sigma, a.sigma)
        }),
{
    lemma_mix_shared(a.cx, t);
    lemma_mix_shared(a.cy, t);
    lemma_mix_shared(a.amplitude, t);
    lemma_mix_shared(a.sigma, t);
}

pub(crate) proof fn lemma_mix_shared(a: Real, t: Real)
    requires
        t.is_finite(),
    ensures
        a.is_finite() ==> kept(mix_of(a, a, t), a),
{
    if a.is_finite() {
        let d = sub_of(a, a);
        assert(neg_of(a).units() == -a.units());
        assert(d.is_zero());
        lemma_mul_zero(d, t);
        lemma_add_zero(a, mul_of(d, t));
    }
}

// ---- On the canvas ----

/// A higher point never appears lower on the canvas, and appears neither more
/// to the left nor more to the right.
pub proof fn law_hills_point_up(x: Real, y: Real, low: Real, high: Real)
    requires
        le_of(low, high),
        !project_of(x, y, low).1.is_nan(),
        !project_of(x, y, high).1.is_nan(),
    ensures
        le_of(project_of(x, y, low).1, project_of(x, y, high).1),
        project_of(x, y, low).0 == project_of(x, y, high).0,
{
    let scale = decimal(Z_SCALE_TENTHS as int, 10);
    let ground = mul_of(add_of(x, y), decimal(45, 100));
    lemma_scale();
    law_mul_keeps_order(low, high, scale);
    law_add_commutes(ground, mul_of(low, scale));
    law_add_commutes(ground, mul_of(high, scale));
    law_add_keeps_order(mul_of(low, scale), mul_of(high, scale), ground);
}

/// The scale of heights lies between a half and one.
proof fn lemma_scale()
    ensures
        ({
            let scale = decimal(Z_SCALE_TENTHS as int, 10);
            &&& scale.is_finite() && !scale.negative() && !scale.is_zero()
            &&& one_units() <= 2 * scale.units() <= 2 * one_units()
        }),
{
    let scale = decimal(Z_SCALE_TENTHS as int, 10);
    lemma_decimal(Z_SCALE_TENTHS as int, 10);
    lemma_decimal_order(1, 2, Z_SCALE_TENTHS as int, 10);
    lemma_decimal_order(Z_SCALE_TENTHS as int, 10, 1, 1);
    lemma2_to64();
    lemma_dyadic(1, 1);
    lemma_decimal_integer(1);
    lemma_pow2_pos(1073);
    lemma_pow2_unfold(1074);
    assert(magnitude(0) == 0);
}

/// Near the course, a point that is higher by a thousandth appears higher on
/// the canvas.
pub proof fn law_higher_hills_point_higher(x: Real, y: Real, low: Real, high: Real)
    requires
        bounded(x, 100),
        bounded(y, 100),
        bounded(low, 100),
        bounded(high, 100),
        1000 * (high.units() - low.units()) >= one_units(),
    ensures
        lt_of(project_of(x, y, low).1, project_of(x, y, high).1),
{
    let p = one_units();
    let scale = decimal(Z_SCALE_TENTHS as int, 10);
    let ground = mul_of(add_of(x, y), decimal(45, 100));
    let u = pow2(1028) as int;
    lemma_one_units();
    lemma_pow2_pos(1028);
    lemma_pow2_adds(46, 1028);
    lemma_pow2_adds(2, 1028);
    lemma_pow2_adds(53, 1028);
    lemma_pow2_adds(55, 1028);
    lemma2_to64();
    lemma2_to64_rest();
    lemma_scale();
    lemma_bounded_finite(low, 100);
    lemma_bounded_finite(high, 100);
    lemma_decimal_bounded(45, 100, 1);
    lemma_bounded_finite(decimal(45, 100), 1);
    lemma_add_bounded(x, y, 100, 100);
    lemma_mul_bounded(add_of(x, y), decimal(45, 100), 200, 1, 1, 200);
    lemma_bounded_finite(ground, 200);
    let a = mul_of(low, scale);
    let b = mul_of(high, scale);
    lemma_mul_bounded(low, scale, 100, 1, 1, 100);
    lemma_mul_bounded(high, scale, 100, 1, 1, 100);
    lemma_bounded_finite(a, 100);
    lemma_bounded_finite(b, 100);
    lemma_scaled_error(low, scale, u);
    lemma_scaled_error(high, scale, u);
    assert(b.units() * p - a.units() * p >= (high.units() - low.units()) * scale.units() - u * p)
        by (nonlinear_arith)
        requires
            2 * size(a.units() * p - low.units() * scale.units()) <= u * p,
            2 * size(b.units() * p - high.units() * scale.units()) <= u * p,
    ;
    assert(2000 * (b.units() - a.units()) >= p - 2000 * u) by (nonlinear_arith)
        requires
            b.units() * p - a.units() * p >= (high.units() - low.units()) * scale.units() - u * p,
            1000 * (high.units() - low.units()) >= p,
            2 * scale.units() >= p,
            p > 0,
            u > 0,
    ;
    lemma_add_error(ground, a, 1083);
    lemma_add_error(ground, b, 1083);
}

/// A height of at most 128 is scaled with an error of at most half of `2^-46`.
proof fn lemma_scaled_error(h: Real, scale: Real, u: int)
    requires
        h.is_finite(),
        scale.is_finite(),
        bounded(h, 100),
        0 <= scale.units() <= one_units(),
        u == pow2(1028),
    ensures
        2 * size(mul_of(h, scale).units() * one_units() - h.units() * scale.units()) <= u
            * one_units(),
{
    let p = one_units();
    lemma_one_units();
    lemma_pow2_adds(7, 1074);
    lemma2_to64();
    assert(size(h.units() * scale.units()) <= (128 * p) * p) by (nonlinear_arith)
        requires
            size(h.units()) <= 100 * p,
            0 <= scale.units() <= p,
            p > 0,
    ;
    lemma_mul_error(h, scale, 1081);
}

/// A point mirrored in the diagonal of the course appears at the same height
/// and as far on the other side.
pub proof fn law_the_diagonal_is_a_mirror(x: Real, y: Real, z: Real)
    ensures
        project_of(y, x, z).1 == project_of(x, y, z).1,
        project_of(x, y, z).0.is_nan() ==> project_of(y, x, z).0.is_nan(),
        !project_of(x, y, z).0.is_nan() ==> {
            let here = project_of(x, y, z).0;
            let there = project_of(y, x, z).0;
            !there.is_nan() && there.units() == -here.units()
        },
{
    let k = decimal(866, 1000);
    let p = one_units();
    law_add_commutes(x, y);
    lemma_one_units();
    lemma_decimal(866, 1000);
    lemma_decimal_order(1, 2, 866, 1000);
    lemma2_to64();
    lemma_dyadic(1, 1);
    lemma_pow2_pos(1073);
    assert(magnitude(0) == 0);
    let a = sub_of(x, y);
    let b = sub_of(y, x);
    if !x.is_nan() && !y.is_nan() {
        assert(neg_of(x).units() == -x.units() && neg_of(y).units() == -y.units());
        if x.is_finite() && y.is_finite() {
            lemma_opposite(x.units() - y.units(), x.negative() && !y.negative(), y.negative()
                && !x.negative());
        }
        if !a.is_nan() {
            lemma_mirrored(a, b, k);
        }
    }
}

/// Opposite ratios round to opposite numbers.
proof fn lemma_opposite(n: int, z1: bool, z2: bool)
    ensures
        rounded(n, 1, z1).key() == rounded(-n, 1, z2).key(),
        !rounded(n, 1, z1).is_nan(),
        n != 0 ==> rounded(n, 1, z1).negative() != rounded(-n, 1, z2).negative(),
        n == 0 ==> rounded(n, 1, z1).is_zero(),
{
    lemma_nearest_exists(size(n), 1);
    lemma_signed(n < 0, nearest(size(n), 1));
    lemma_signed(n > 0, nearest(size(n), 1));
    lemma_signed(z1, 0);
    lemma_signed(z2, 0);
}

/// Opposite numbers have opposite products.
proof fn lemma_mirrored(a: Real, b: Real, k: Real)
    requires
        !a.is_nan(),
        a.key() == b.key(),
        a.negative() != b.negative() || a.is_zero(),
        k.is_finite(),
        !k.is_zero(),
    ensures
        !mul_of(a, k).is_nan(),
        !mul_of(b, k).is_nan(),
        mul_of(a, k).units() == -mul_of(b, k).units(),
{
    let p = one_units();
    let x = magnitude(a.key());
    let y = magnitude(k.key());
    lemma_one_units();
    lemma_units_order(a, k);
    assert(magnitude(0) == 0);
    lemma_signed(a.negative() != k.negative(), infinity_key());
    lemma_signed(b.negative() != k.negative(), infinity_key());
    if a.is_finite() {
        assert(x * y >= 0) by (nonlinear_arith)
            requires
                x >= 0,
                y >= 0,
        ;
        lemma_nearest_exists(x * y, p);
        lemma_signed(a.negative() != k.negative(), nearest(x * y, p));
        lemma_signed(b.negative() != k.negative(), nearest(x * y, p));
        if a.is_zero() {
            assert(0 * y == 0);
            lemma_mul_zero(a, k);
            lemma_mul_zero(b, k);
        }
    }
}

// ---- The two landscapes ----

/// A row of the two landscapes, in hundredths.
pub(crate) struct Row {
    pub cx: int,
    pub cy: int,
    pub amplitude: (int, int),
    pub sigma: (int, int),
}

/// The two landscapes as one table.
pub(crate) proof fn lemma_row(i: int) -> (r: Row)
    requires
        0 <= i < 11,
    ensures
        before_table()[i] == bump_of(r.cx, r.cy, r.amplitude.0, r.sigma.0),
        after_table()[i] == bump_of(r.cx, r.cy, r.amplitude.1, r.sigma.1),
        before_table().len() == 11,
        after_table().len() == 11,
        0 < r.cx <= 1000 && 0 < r.cy <= 1000,
        50 <= r.sigma.0 <= r.sigma.1 <= 140,
        i < 7 ==> 0 < r.amplitude.1 < r.amplitude.0 <= 320,
        7 <= i < 10 ==> -180 <= r.amplitude.0 < r.amplitude.1 < 0,
        i < 10 ==> r.sigma.0 == r.sigma.1,
        i == 10 ==> r == (Row { cx: 800, cy: 750, amplitude: (-500, -600), sigma: (55, 120) }),
{
    if i == 0 {
        Row { cx: 400, cy: 500, amplitude: (320, 50), sigma: (140, 140) }
    } else if i == 1 {
        Row { cx: 650, cy: 300, amplitude: (250, 40), sigma: (100, 100) }
    } else if i == 2 {
        Row { cx: 250, cy: 750, amplitude: (280, 50), sigma: (110, 110) }
    } else if i == 3 {
        Row { cx: 500, cy: 800, amplitude: (180, 30), sigma: (90, 90) }
    } else if i == 4 {
        Row { cx: 750, cy: 650, amplitude: (150, 30), sigma: (80, 80) }
    } else if i == 5 {
        Row { cx: 300, cy: 150, amplitude: (160, 30), sigma: (70, 70) }
    } else if i == 6 {
        Row { cx: 850, cy: 200, amplitude: (140, 30), sigma: (80, 80) }
    } else if i == 7 {
        Row { cx: 300, cy: 350, amplitude: (-180, -20), sigma: (70, 70) }
    } else if i == 8 {
        Row { cx: 600, cy: 650, amplitude: (-140, -20), sigma: (60, 60) }
    } else if i == 9 {
        Row { cx: 750, cy: 450, amplitude: (-120, -10), sigma: (50, 50) }
    } else {
        Row { cx: 800, cy: 750, amplitude: (-500, -600), sigma: (55, 120) }
    }
}

/// A landscape that has not been reshaped.
pub(crate) proof fn lemma_unshaped(i: int)
    requires
        0 <= i < 11,
    ensures
        shaped_from(before_table()[i], before_table()[i]),
{
    let r = lemma_row(i);
    lemma_zero_hundredths();
    lemma_hundredths_strict(0, r.sigma.0);
    lemma_decimal_bounded(r.sigma.0, 100, 8);
    lemma_decimal_bounded(r.amplitude.0, 100, 32);
}

/// A landscape that is being reshaped.
pub(crate) proof fn lemma_reshaped(i: int, t: Real)
    requires
        0 <= i < 11,
        t.is_finite(),
        0 <= t.units() <= one_units(),
    ensures
        shaped_from(lerp_of(before_table()[i], after_table()[i], t), before_table()[i]),
{
    let r = lemma_row(i);
    let b = before_table()[i];
    let a = after_table()[i];
    lemma_unshaped(i);
    lemma_decimal(r.cx, 100);
    lemma_decimal(r.cy, 100);
    lemma_mix_shared(b.cx, t);
    lemma_mix_shared(b.cy, t);
    lemma_decimal_bounded(r.sigma.0, 100, 2);
    lemma_decimal_bounded(r.sigma.1, 100, 2);
    lemma_decimal_bounded(r.amplitude.0, 100, 6);
    lemma_decimal_bounded(r.amplitude.1, 100, 6);
    lemma_mix_bounded(b.amplitude, a.amplitude, t, 6);
    lemma_mix_bounded(b.sigma, a.sigma, t, 2);
    lemma_decimal_order(r.sigma.0, 100, r.sigma.1, 100);
    lemma_mix_raises(b.sigma, a.sigma, t);
}

/// A number on the way to another is not far from either.
proof fn lemma_mix_bounded(a: Real, b: Real, t: Real, m: int)
    requires
        bounded(a, m),
        bounded(b, m),
        t.is_finite(),
        0 <= t.units() <= one_units(),
        0 <= m <= 100,
    ensures
        bounded(mix_of(a, b, t), 3 * m),
{
    lemma_sub_bounded(b, a, m, m);
    lemma_mul_bounded(sub_of(b, a), t, 2 * m, 1, 1, 2 * m);
    lemma_add_bounded(a, mul_of(sub_of(b, a), t), m, 2 * m);
}

/// A number on the way to a larger one never falls below where it began.
proof fn lemma_mix_raises(a: Real, b: Real, t: Real)
    requires
        bounded(a, 100),
        bounded(b, 100),
        le_of(a, b),
        t.is_finite(),
        0 <= t.units() <= one_units(),
    ensures
        le_of(a, mix_of(a, b, t)),
{
    let d = sub_of(b, a);
    lemma_one_units();
    lemma_neg_bounded(a, 100);
    lemma_bounded_finite(a, 100);
    lemma_bounded_finite(b, 100);
    lemma_rounded(b.units() - a.units(), 1, b.negative() && !a.negative());
    lemma_sub_bounded(b, a, 100, 100);
    lemma_bounded_finite(d, 200);
    assert(d.units() >= 0);
    lemma_mul_value(d, t);
    assert(d.units() * t.units() >= 0) by (nonlinear_arith)
        requires
            d.units() >= 0,
            t.units() >= 0,
    ;
    lemma_rounded(d.units() * t.units(), one_units(), false);
    lemma_mul_bounded(d, t, 200, 1, 1, 200);
    lemma_bounded_finite(mul_of(d, t), 200);
    lemma_add_raises(a, mul_of(d, t));
}

proof fn lemma_zero_hundredths()
    ensures
        decimal(0, 100) == decimal(0, 1),
{
    lemma_zero();
    assert(0 * pow2(1074) == 0);
}

/// The change moves no hill, no trap and not the hole, and narrows none of
/// them.
pub proof fn law_the_change_moves_nothing()
    ensures
        before_table().len() == 11,
        after_table().len() == 11,
        forall|i: int|
            0 <= i < 11 ==> {
                let a = #[trigger] before_table()[i];
                let b = after_table()[i];
                a.cx == b.cx && a.cy == b.cy && le_of(a.sigma, b.sigma)
            },
{
    assert forall|i: int| 0 <= i < 11 implies {
        let a = #[trigger] before_table()[i];
        let b = after_table()[i];
        a.cx == b.cx && a.cy == b.cy && le_of(a.sigma, b.sigma)
    } by {
        let r = lemma_row(i);
        lemma_decimal_order(r.sigma.0, 100, r.sigma.1, 100);
    }
}

/// The first seven stand out of the ground, and the change flattens them.
pub proof fn law_the_change_flattens_the_hills(i: int)
    requires
        0 <= i < 7,
    ensures
        lt_of(decimal(0, 1), after_table()[i].amplitude),
        lt_of(after_table()[i].amplitude, before_table()[i].amplitude),
        before_table()[i].sigma == after_table()[i].sigma,
{
    let r = lemma_row(i);
    lemma_zero_hundredths();
    lemma_hundredths_strict(0, r.amplitude.1);
    lemma_hundredths_strict(r.amplitude.1, r.amplitude.0);
}

/// The next three lie below the ground, and the change all but fills them.
pub proof fn law_the_change_fills_the_traps(i: int)
    requires
        7 <= i < 10,
    ensures
        lt_of(before_table()[i].amplitude, after_table()[i].amplitude),
        lt_of(after_table()[i].amplitude, decimal(0, 1)),
        before_table()[i].sigma == after_table()[i].sigma,
{
    let r = lemma_row(i);
    lemma_zero_hundredths();
    lemma_hundredths_strict(r.amplitude.0, r.amplitude.1);
    lemma_hundredths_strict(r.amplitude.1, 0);
}

/// The last is the hole: it is the deepest of all, before and after, and the
/// change makes it both deeper and wider.
pub proof fn law_the_change_opens_the_hole()
    ensures
        lt_of(after_table()[10].amplitude, before_table()[10].amplitude),
        lt_of(before_table()[10].sigma, after_table()[10].sigma),
        forall|i: int|
            0 <= i < 10 ==> lt_of(
                before_table()[10].amplitude,
                (#[trigger] before_table()[i]).amplitude,
            ) && lt_of(after_table()[10].amplitude, after_table()[i].amplitude),
        same_value(before_table()[10].cx, decimal(80, 10)),
        same_value(before_table()[10].cy, decimal(75, 10)),
{
    let h = lemma_row(10);
    lemma_hundredths_strict(h.amplitude.1, h.amplitude.0);
    lemma_hundredths_strict(h.sigma.0, h.sigma.1);
    assert forall|i: int| 0 <= i < 10 implies lt_of(
        before_table()[10].amplitude,
        (#[trigger] before_table()[i]).amplitude,
    ) && lt_of(after_table()[10].amplitude, after_table()[i].amplitude) by {
        let r = lemma_row(i);
        lemma_hundredths_strict(h.amplitude.0, r.amplitude.0);
        lemma_hundredths_strict(h.amplitude.1, r.amplitude.1);
    }
    lemma_decimal_order(800, 100, 80, 10);
    lemma_decimal_order(80, 10, 800, 100);
    lemma_decimal_order(750, 100, 75, 10);
    lemma_decimal_order(75, 10, 750, 100);
}

// ---- One hill ----

/// `f` behaves as the exponential does up to zero: it lies between 0 and 1.
pub open spec fn damps(f: spec_fn(Real) -> Real) -> bool {
    forall|v: Real|
        !v.is_nan() && v.units() <= 0 ==> !(#[trigger] f(v)).is_nan() && 0 <= f(v).units()
            <= one_units()
}

/// `f` never falls.
pub open spec fn never_falls(f: spec_fn(Real) -> Real) -> bool {
    forall|u: Real, v: Real| le_of(u, v) ==> #[trigger] le_of(f(u), f(v))
}

/// The exponent is never positive.
proof fn lemma_exponent_sign(g: Gaussian, x: Real, y: Real)
    requires
        !exponent_of(g, x, y).is_nan(),
    ensures
        exponent_of(g, x, y).units() <= 0,
        !distance2_of(g, x, y).is_nan(),
        !distance2_of(g, x, y).negative(),
        ({
            let c = mul_of(mul_of(decimal(2, 1), g.sigma), g.sigma);
            !c.is_nan() && !c.negative()
        }),
{
    let dx = sub_of(x, g.cx);
    let dy = sub_of(y, g.cy);
    lemma_decimal(2, 1);
    lemma_product_sign(dx, dx);
    lemma_product_sign(dy, dy);
    lemma_product_sign(decimal(2, 1), g.sigma);
    lemma_product_sign(mul_of(decimal(2, 1), g.sigma), g.sigma);
    let a = mul_of(dx, dx);
    let b = mul_of(dy, dy);
    if !a.is_nan() && !b.is_nan() {
        lemma_units_order(a, b);
        if a.is_finite() && b.is_finite() {
            lemma_nearest_exists(a.units() + b.units(), 1);
            lemma_signed(false, nearest(a.units() + b.units(), 1));
            lemma_signed(false, 0);
        }
    }
    let n = neg_of(distance2_of(g, x, y));
    let c = mul_of(mul_of(decimal(2, 1), g.sigma), g.sigma);
    lemma_units_order(exponent_of(g, x, y), n);
    lemma_quotient_sign(n, c);
}

/// A finite hill that has a width has an exponent at every finite point.
pub proof fn law_exponents_are_defined(g: Gaussian, x: Real, y: Real)
    requires
        g.cx.is_finite(),
        g.cy.is_finite(),
        x.is_finite(),
        y.is_finite(),
        ({
            let c = mul_of(mul_of(decimal(2, 1), g.sigma), g.sigma);
            c.is_finite() && !c.is_zero()
        }),
    ensures
        !exponent_of(g, x, y).is_nan(),
{
    let dx = sub_of(x, g.cx);
    let dy = sub_of(y, g.cy);
    let c = mul_of(mul_of(decimal(2, 1), g.sigma), g.sigma);
    let p = one_units();
    lemma_one_units();
    lemma_rounded(x.units() + neg_of(g.cx).units(), 1, x.negative() && !g.cx.negative());
    lemma_rounded(y.units() + neg_of(g.cy).units(), 1, y.negative() && !g.cy.negative());
    lemma_square(dx);
    lemma_square(dy);
    let a = mul_of(dx, dx);
    let b = mul_of(dy, dy);
    if a.is_finite() && b.is_finite() {
        lemma_rounded(a.units() + b.units(), 1, a.negative() && b.negative());
    }
    let n = neg_of(distance2_of(g, x, y));
    assert(!n.is_nan());
    lemma_signed(n.negative() != c.negative(), infinity_key());
    if n.is_finite() {
        let d = magnitude(n.key());
        lemma_units_order(n, c);
        lemma_magnitude_increases(0, c.key());
        assert(d * p >= 0) by (nonlinear_arith)
            requires
                d >= 0,
                p >= 0,
        ;
        lemma_nearest_exists(d * p, magnitude(c.key()));
        lemma_signed(n.negative() != c.negative(), nearest(d * p, magnitude(c.key())));
    }
}

/// A square is a number, and not negative.
proof fn lemma_square(a: Real)
    requires
        !a.is_nan(),
    ensures
        !mul_of(a, a).is_nan(),
        !mul_of(a, a).negative(),
{
    lemma_product_sign(a, a);
    lemma_signed(false, infinity_key());
    if a.is_finite() {
        lemma_mul_value(a, a);
    }
}

/// The sign of a product is told by the signs of its factors.
proof fn lemma_product_sign(a: Real, b: Real)
    ensures
        !mul_of(a, b).is_nan() ==> mul_of(a, b).negative() == (a.negative() != b.negative()),
        a.is_nan() || b.is_nan() ==> mul_of(a, b).is_nan(),
{
    let p = one_units();
    lemma_one_units();
    lemma_signed(a.negative() != b.negative(), infinity_key());
    if a.is_finite() && b.is_finite() {
        let x = magnitude(a.key());
        let y = magnitude(b.key());
        lemma_units_order(a, b);
        assert(x * y >= 0) by (nonlinear_arith)
            requires
                x >= 0,
                y >= 0,
        ;
        lemma_nearest_exists(x * y, p);
        lemma_signed(a.negative() != b.negative(), nearest(x * y, p));
    }
}

/// The sign of a quotient is told by the signs of its terms.
proof fn lemma_quotient_sign(a: Real, b: Real)
    ensures
        !div_of(a, b).is_nan() ==> div_of(a, b).negative() == (a.negative() != b.negative()),
        a.is_nan() || b.is_nan() ==> div_of(a, b).is_nan(),
{
    let p = one_units();
    lemma_one_units();
    lemma_signed(a.negative() != b.negative(), infinity_key());
    lemma_signed(a.negative() != b.negative(), 0);
    if a.is_finite() && b.is_finite() && !b.is_zero() {
        let x = magnitude(a.key());
        lemma_units_order(a, b);
        lemma_magnitude_increases(0, b.key());
        assert(x * p >= 0) by (nonlinear_arith)
            requires
                x >= 0,
                p >= 0,
        ;
        lemma_nearest_exists(x * p, magnitude(b.key()));
        lemma_signed(a.negative() != b.negative(), nearest(x * p, magnitude(b.key())));
    }
}

/// Of two factors between 0 and 1, the larger gives the larger product, and
/// neither product exceeds the other factor.
proof fn lemma_damped(a: Real, e: Real, h: Real)
    requires
        a.is_finite(),
        !e.is_nan(),
        !h.is_nan(),
        0 <= e.units() <= h.units() <= one_units(),
    ensures
        e.is_finite(),
        h.is_finite(),
        !mul_of(a, e).is_nan(),
        !mul_of(a, h).is_nan(),
        size(mul_of(a, e).units()) <= size(mul_of(a, h).units()) <= size(a.units()),
        a.units() >= 0 ==> mul_of(a, e).units() >= 0,
        a.units() <= 0 ==> mul_of(a, e).units() <= 0,
{
    let p = one_units();
    let x = size(a.units());
    let y = e.units();
    let z = h.units();
    lemma_one_units();
    lemma_decimal_integer(1);
    lemma_units_order(a, a);
    assert(bounded(e, 1) && bounded(h, 1));
    lemma_bounded_finite(e, 1);
    lemma_bounded_finite(h, 1);
    lemma_mul_value(a, e);
    lemma_mul_value(a, h);
    assert(a.units() * y == if a.units() < 0 {
        -(x * y)
    } else {
        x * y
    }) by (nonlinear_arith)
        requires
            x == size(a.units()),
    ;
    assert(a.units() * z == if a.units() < 0 {
        -(x * z)
    } else {
        x * z
    }) by (nonlinear_arith)
        requires
            x == size(a.units()),
    ;
    assert(0 <= x * y <= x * z <= x * p) by (nonlinear_arith)
        requires
            x >= 0,
            0 <= y <= z <= p,
    ;
    assert((x * y) * p <= (x * z) * p) by (nonlinear_arith)
        requires
            x * y <= x * z,
            p > 0,
    ;
    assert((x * z) * p <= (x * p) * p) by (nonlinear_arith)
        requires
            x * z <= x * p,
            p > 0,
    ;
    assert(x == magnitude(a.key()));
    lemma_nearest_exact(a.key(), x * p, p);
    lemma_nearest_monotone(x * y, p, x * z, p);
    lemma_nearest_monotone(x * z, p, x * p, p);
    lemma_rounded(a.units() * y, p, false);
    lemma_rounded(a.units() * z, p, false);
    let k = nearest(x * y, p);
    let l = nearest(x * z, p);
    if k < l {
        lemma_magnitude_increases(k, l);
    }
    if l < a.key() {
        lemma_magnitude_increases(l, a.key());
    }
    assert(magnitude(0) == 0);
    if 0 < k {
        lemma_magnitude_increases(0, k);
    }
}

/// A hill adds no more than its amplitude anywhere, and a hollow takes away no
/// more.
pub proof fn law_eval_stays_within_the_amplitude(
    g: Gaussian,
    x: Real,
    y: Real,
    f: spec_fn(Real) -> Real,
)
    requires
        damps(f),
        g.amplitude.is_finite(),
        !exponent_of(g, x, y).is_nan(),
    ensures
        !eval_of(g, x, y, f).is_nan(),
        size(eval_of(g, x, y, f).units()) <= size(g.amplitude.units()),
        g.amplitude.units() >= 0 ==> eval_of(g, x, y, f).units() >= 0,
        g.amplitude.units() <= 0 ==> eval_of(g, x, y, f).units() <= 0,
{
    lemma_exponent_sign(g, x, y);
    let e = f(exponent_of(g, x, y));
    lemma_damped(g.amplitude, e, e);
}

/// At its centre a hill adds exactly its amplitude.
pub proof fn law_eval_at_the_centre_is_the_amplitude(g: Gaussian, f: spec_fn(Real) -> Real)
    requires
        forall|v: Real| v.is_zero() ==> #[trigger] f(v) == decimal(1, 1),
        g.amplitude.is_finite(),
        g.cx.is_finite(),
        g.cy.is_finite(),
        !exponent_of(g, g.cx, g.cy).is_nan(),
    ensures
        eval_of(g, g.cx, g.cy, f) == g.amplitude,
{
    let dx = sub_of(g.cx, g.cx);
    let dy = sub_of(g.cy, g.cy);
    let c = mul_of(mul_of(decimal(2, 1), g.sigma), g.sigma);
    let p = one_units();
    lemma_one_units();
    assert(neg_of(g.cx).units() == -g.cx.units());
    assert(neg_of(g.cy).units() == -g.cy.units());
    assert(dx.is_zero() && dy.is_zero());
    lemma_mul_zero(dx, dx);
    lemma_mul_zero(dy, dy);
    lemma_add_zero(mul_of(dx, dx), mul_of(dy, dy));
    let d = distance2_of(g, g.cx, g.cy);
    lemma_signed(false, 0);
    lemma_signed(true, 0);
    assert(magnitude(0) == 0);
    if d.key() > 0 {
        lemma_magnitude_increases(0, d.key());
    }
    assert(d.is_zero());
    lemma_exponent_sign(g, g.cx, g.cy);
    if c.is_finite() {
        lemma_magnitude_increases(0, c.key());
        assert(0 * p == 0);
        assert(0 * magnitude(c.key()) == 0);
        lemma_nearest_exact(0, 0, magnitude(c.key()));
    }
    assert(exponent_of(g, g.cx, g.cy).is_zero());
    lemma_times_one(g.amplitude);
}

/// Of two points, a hill adds, and a hollow takes away, no more at the one
/// that is farther from the centre.
pub proof fn law_eval_fades_with_distance(
    g: Gaussian,
    near: (Real, Real),
    far: (Real, Real),
    f: spec_fn(Real) -> Real,
)
    requires
        damps(f),
        never_falls(f),
        g.amplitude.is_finite(),
        !exponent_of(g, near.0, near.1).is_nan(),
        !exponent_of(g, far.0, far.1).is_nan(),
        le_of(distance2_of(g, near.0, near.1), distance2_of(g, far.0, far.1)),
    ensures
        size(eval_of(g, far.0, far.1, f).units()) <= size(eval_of(g, near.0, near.1, f).units()),
{
    let u = exponent_of(g, far.0, far.1);
    let v = exponent_of(g, near.0, near.1);
    let c = mul_of(mul_of(decimal(2, 1), g.sigma), g.sigma);
    lemma_exponent_sign(g, near.0, near.1);
    lemma_exponent_sign(g, far.0, far.1);
    lemma_farther_is_lower(
        distance2_of(g, near.0, near.1),
        distance2_of(g, far.0, far.1),
        c,
    );
    assert(le_of(f(u), f(v)));
    lemma_damped(g.amplitude, f(u), f(v));
}

/// The larger of two numbers gives the lower one when negated and divided.
proof fn lemma_farther_is_lower(a: Real, b: Real, c: Real)
    requires
        le_of(a, b),
        !a.negative(),
        !b.negative(),
        !c.negative(),
        !div_of(neg_of(a), c).is_nan(),
        !div_of(neg_of(b), c).is_nan(),
        !c.is_nan(),
    ensures
        le_of(div_of(neg_of(b), c), div_of(neg_of(a), c)),
{
    let p = one_units();
    let m = neg_of(a);
    let n = neg_of(b);
    lemma_one_units();
    lemma_units_order(a, b);
    lemma_signed(true, infinity_key());
    lemma_signed(true, 0);
    lemma_within_infinity(div_of(m, c));
    assert(magnitude(0) == 0);
    lemma_magnitude_increases(0, infinity_key());
    if b.is_infinite() || c.is_infinite() {
    } else {
        if a.key() >= infinity_key() {
            lemma_magnitude_increases(b.key(), a.key());
        }
        if c.is_zero() {
        } else {
            let x = magnitude(a.key());
            let y = magnitude(b.key());
            let d = magnitude(c.key());
            lemma_magnitude_increases(0, c.key());
            assert(0 <= x * p && 0 <= y * p && (x * p) * d <= (y * p) * d) by (nonlinear_arith)
                requires
                    0 <= x <= y,
                    p > 0,
                    d > 0,
            ;
            lemma_nearest_monotone(x * p, d, y * p, d);
            let k = nearest(x * p, d);
            let l = nearest(y * p, d);
            lemma_signed(true, k);
            lemma_signed(true, l);
            if k < l {
                lemma_magnitude_increases(k, l);
            }
        }
    }
}

// ---- All hills ----

/// Where there are no hills the ground lies at zero.
pub proof fn law_no_hills_are_flat(x: Real, y: Real, f: spec_fn(Real) -> Real)
    ensures
        same_value(surface_of(x, y, Seq::empty(), f), decimal(0, 1)),
{
    lemma_zero();
    assert(magnitude(0) == 0);
}

/// Where there is one hill the ground lies exactly where it does.
pub proof fn law_one_hill_is_the_surface(
    g: Gaussian,
    x: Real,
    y: Real,
    f: spec_fn(Real) -> Real,
)
    ensures
        surface_of(x, y, seq![g], f) == eval_of(g, x, y, f),
{
    let s = seq![g];
    let e = eval_of(g, x, y, f);
    let zero = neg_of(decimal(0, 1));
    lemma_zero();
    assert(magnitude(0) == 0);
    assert(s.drop_last() =~= Seq::empty());
    assert(surface_of(x, y, s.drop_last(), f) == zero);
    lemma_product_sign(g.amplitude, f(exponent_of(g, x, y)));
    if !e.is_nan() {
        lemma_rounded_exact(e, e.negative());
        if e.units() == 0 {
            if e.key() > 0 {
                lemma_magnitude_increases(0, e.key());
            }
        }
    } else {
        lemma_undefined_product(g.amplitude, f(exponent_of(g, x, y)));
    }
}

/// There is one undefined product.
proof fn lemma_undefined_product(a: Real, b: Real)
    requires
        mul_of(a, b).is_nan(),
    ensures
        mul_of(a, b) == nan(),
{
    let p = one_units();
    lemma_one_units();
    lemma_signed(a.negative() != b.negative(), infinity_key());
    if a.is_finite() && b.is_finite() {
        lemma_mul_value(a, b);
    }
}

/// Every hill of the list adds at most `m` at the point.
pub open spec fn tame(
    x: Real,
    y: Real,
    gaussians: Seq<Gaussian>,
    f: spec_fn(Real) -> Real,
    m: int,
) -> bool {
    forall|i: int|
        0 <= i < gaussians.len() ==> bounded(eval_of(#[trigger] gaussians[i], x, y, f), m)
}

/// The sum of what `w` gives for each element.
pub open spec fn sum_of(gaussians: Seq<Gaussian>, w: spec_fn(Gaussian) -> int) -> int
    decreases gaussians.len(),
{
    if gaussians.len() == 0 {
        0
    } else {
        sum_of(gaussians.drop_last(), w) + w(gaussians.last())
    }
}

/// What a hill adds at the point, in units.
pub open spec fn value_at(x: Real, y: Real, f: spec_fn(Real) -> Real) -> spec_fn(Gaussian) -> int {
    |g: Gaussian| eval_of(g, x, y, f).units()
}

/// How much a hill changes the height at the point, in units.
pub open spec fn size_at(x: Real, y: Real, f: spec_fn(Real) -> Real) -> spec_fn(Gaussian) -> int {
    |g: Gaussian| size(eval_of(g, x, y, f).units())
}

/// The sum of what the hills add, without any rounding, in units.
pub open spec fn exact_of(
    x: Real,
    y: Real,
    gaussians: Seq<Gaussian>,
    f: spec_fn(Real) -> Real,
) -> int {
    sum_of(gaussians, value_at(x, y, f))
}

/// The sum of how much the hills change the height, in units.
pub open spec fn reach_of(
    x: Real,
    y: Real,
    gaussians: Seq<Gaussian>,
    f: spec_fn(Real) -> Real,
) -> int {
    sum_of(gaussians, size_at(x, y, f))
}

/// Every hill of the list adds something finite at the point.
pub open spec fn finite_at(
    x: Real,
    y: Real,
    gaussians: Seq<Gaussian>,
    f: spec_fn(Real) -> Real,
) -> bool {
    forall|i: int|
        0 <= i < gaussians.len() ==> eval_of(#[trigger] gaussians[i], x, y, f).is_finite()
}

/// No sum of the heights, with its rounding, leaves the `2^j` units.
pub open spec fn sums_within(reach: int, n: int, j: nat) -> bool {
    53 <= j <= 2097 && reach + n * pow2((j - 53) as nat) <= pow2(j)
}

/// The surface lies no higher, and no lower, than all hills together allow.
pub(crate) proof fn lemma_surface_bounded(
    x: Real,
    y: Real,
    gaussians: Seq<Gaussian>,
    f: spec_fn(Real) -> Real,
    m: int,
)
    requires
        tame(x, y, gaussians, f, m),
        0 <= m,
        gaussians.len() * m <= 0x8000_0000,
    ensures
        bounded(surface_of(x, y, gaussians, f), gaussians.len() * m),
    decreases gaussians.len(),
{
    lemma_one_units();
    if gaussians.len() == 0 {
        law_no_hills_are_flat(x, y, f);
        assert(gaussians =~= Seq::empty());
        lemma_zero();
        assert(magnitude(0) == 0);
        assert(0 * m == 0);
        assert(0 * one_units() == 0);
    } else {
        let n = gaussians.len() as int;
        let front = gaussians.drop_last();
        assert(n * m == (n - 1) * m + m) by (nonlinear_arith);
        assert(0 <= (n - 1) * m) by (nonlinear_arith)
            requires
                n >= 1,
                m >= 0,
        ;
        assert forall|i: int| 0 <= i < front.len() implies bounded(
            eval_of(#[trigger] front[i], x, y, f),
            m,
        ) by {
            assert(front[i] == gaussians[i]);
        }
        lemma_surface_bounded(x, y, front, f, m);
        assert(gaussians.last() == gaussians[n - 1]);
        lemma_add_bounded(
            surface_of(x, y, front, f),
            eval_of(gaussians.last(), x, y, f),
            (n - 1) * m,
            m,
        );
    }
}

/// The surface is the sum of what the hills add, but for rounding: where no
/// sum leaves the `2^j` units, each addition is off by at most half of
/// `2^(j - 53)` units. With `j` at its largest, the heights may add up to nearly
/// 2^1023.
pub proof fn law_the_surface_is_the_sum(
    x: Real,
    y: Real,
    gaussians: Seq<Gaussian>,
    f: spec_fn(Real) -> Real,
    j: nat,
)
    requires
        finite_at(x, y, gaussians, f),
        sums_within(reach_of(x, y, gaussians, f), gaussians.len() as int, j),
    ensures
        surface_of(x, y, gaussians, f).is_finite(),
        2 * size(surface_of(x, y, gaussians, f).units() - exact_of(x, y, gaussians, f))
            <= gaussians.len() * pow2((j - 53) as nat),
        size(exact_of(x, y, gaussians, f)) <= reach_of(x, y, gaussians, f),
    decreases gaussians.len(),
{
    let n = gaussians.len() as int;
    let u = pow2((j - 53) as nat) as int;
    lemma_pow2_pos((j - 53) as nat);
    if n == 0 {
        lemma_zero();
        assert(magnitude(0) == 0);
        assert(0 * u == 0);
    } else {
        let front = gaussians.drop_last();
        let s = surface_of(x, y, front, f);
        let e = eval_of(gaussians.last(), x, y, f);
        assert(n * u == (n - 1) * u + u) by (nonlinear_arith);
        assert(gaussians.last() == gaussians[n - 1]);
        assert forall|i: int| 0 <= i < front.len() implies eval_of(
            #[trigger] front[i],
            x,
            y,
            f,
        ).is_finite() by {
            assert(front[i] == gaussians[i]);
        }
        assert(exact_of(x, y, gaussians, f) == exact_of(x, y, front, f) + e.units());
        assert(reach_of(x, y, gaussians, f) == reach_of(x, y, front, f) + size(e.units()));
        law_the_surface_is_the_sum(x, y, front, f, j);
        lemma_add_error(s, e, j);
    }
}

/// Two landscapes laid over each other add up, but for rounding.
pub proof fn law_joined_landscapes_add_up(
    x: Real,
    y: Real,
    one: Seq<Gaussian>,
    other: Seq<Gaussian>,
    f: spec_fn(Real) -> Real,
    j: nat,
)
    requires
        finite_at(x, y, one, f),
        finite_at(x, y, other, f),
        sums_within(
            reach_of(x, y, one, f) + reach_of(x, y, other, f),
            (one.len() + other.len()) as int,
            j,
        ),
    ensures
        surface_of(x, y, one, f).is_finite(),
        surface_of(x, y, other, f).is_finite(),
        surface_of(x, y, one + other, f).is_finite(),
        size(
            surface_of(x, y, one + other, f).units() - surface_of(x, y, one, f).units()
                - surface_of(x, y, other, f).units(),
        ) <= (one.len() + other.len()) * pow2((j - 53) as nat),
{
    let a = one.len() as int;
    let b = other.len() as int;
    let both = one + other;
    let u = pow2((j - 53) as nat) as int;
    lemma_pow2_pos((j - 53) as nat);
    assert((a + b) * u == a * u + b * u && 0 <= a * u && 0 <= b * u) by (nonlinear_arith)
        requires
            a >= 0,
            b >= 0,
            u > 0,
    ;
    assert forall|i: int| 0 <= i < both.len() implies eval_of(
        #[trigger] both[i],
        x,
        y,
        f,
    ).is_finite() by {
        if i < a {
            assert(both[i] == one[i]);
        } else {
            assert(both[i] == other[i - a]);
        }
    }
    lemma_reach_positive(x, y, one, f);
    lemma_reach_positive(x, y, other, f);
    lemma_sum_joined(one, other, value_at(x, y, f));
    lemma_sum_joined(one, other, size_at(x, y, f));
    law_the_surface_is_the_sum(x, y, one, f, j);
    law_the_surface_is_the_sum(x, y, other, f, j);
    law_the_surface_is_the_sum(x, y, both, f, j);
}

proof fn lemma_reach_positive(
    x: Real,
    y: Real,
    gaussians: Seq<Gaussian>,
    f: spec_fn(Real) -> Real,
)
    ensures
        reach_of(x, y, gaussians, f) >= 0,
    decreases gaussians.len(),
{
    if gaussians.len() > 0 {
        lemma_reach_positive(x, y, gaussians.drop_last(), f);
    }
}

proof fn lemma_sum_joined(
    one: Seq<Gaussian>,
    other: Seq<Gaussian>,
    w: spec_fn(Gaussian) -> int,
)
    ensures
        sum_of(one + other, w) == sum_of(one, w) + sum_of(other, w),
    decreases other.len(),
{
    if other.len() == 0 {
        assert(one + other =~= one);
    } else {
        lemma_sum_joined(one, other.drop_last(), w);
        assert((one + other).drop_last() =~= one + other.drop_last());
        assert((one + other).last() == other.last());
    }
}

/// The order in which the hills are listed does not matter, but for rounding.
pub proof fn law_the_order_of_hills_hardly_matters(
    x: Real,
    y: Real,
    one: Seq<Gaussian>,
    other: Seq<Gaussian>,
    f: spec_fn(Real) -> Real,
    j: nat,
)
    requires
        one.to_multiset() == other.to_multiset(),
        finite_at(x, y, one, f),
        sums_within(reach_of(x, y, one, f), one.len() as int, j),
    ensures
        surface_of(x, y, one, f).is_finite(),
        surface_of(x, y, other, f).is_finite(),
        size(surface_of(x, y, one, f).units() - surface_of(x, y, other, f).units()) <= one.len()
            * pow2((j - 53) as nat),
{
    broadcast use group_to_multiset_ensures;

    assert(one.len() == one.to_multiset().len() && other.len() == other.to_multiset().len());
    assert forall|i: int| 0 <= i < other.len() implies eval_of(
        #[trigger] other[i],
        x,
        y,
        f,
    ).is_finite() by {
        assert(other.contains(other[i]));
        assert(other.to_multiset().count(other[i]) > 0);
        assert(one.contains(other[i]));
        let k = choose|k: int| 0 <= k < one.len() && one[k] == other[i];
        assert(eval_of(one[k], x, y, f).is_finite());
    }
    lemma_sum_permuted(one, other, value_at(x, y, f));
    lemma_sum_permuted(one, other, size_at(x, y, f));
    law_the_surface_is_the_sum(x, y, one, f, j);
    law_the_surface_is_the_sum(x, y, other, f, j);
}

proof fn lemma_sum_permuted(
    one: Seq<Gaussian>,
    other: Seq<Gaussian>,
    w: spec_fn(Gaussian) -> int,
)
    requires
        one.to_multiset() == other.to_multiset(),
    ensures
        sum_of(one, w) == sum_of(other, w),
{
    let step = |g: Gaussian, n: int| w(g) + n;
    assert(commutative_foldr(step));
    lemma_fold_right_permutation(one, other, step, 0);
    lemma_sum_folded(one, w, 0);
    lemma_sum_folded(other, w, 0);
}

proof fn lemma_sum_folded(gaussians: Seq<Gaussian>, w: spec_fn(Gaussian) -> int, n: int)
    ensures
        gaussians.fold_right(|g: Gaussian, n: int| w(g) + n, n) == sum_of(gaussians, w) + n,
    decreases gaussians.len(),
{
    reveal_with_fuel(Seq::fold_right, 2);
    if gaussians.len() > 0 {
        lemma_sum_folded(gaussians.drop_last(), w, w(gaussians.last()) + n);
    }
}

} // verus!
