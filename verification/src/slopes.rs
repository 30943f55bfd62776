//! How high a hill is at a point, and what the slopes of the landscape do.

use vstd::arithmetic::power2::{lemma2_to64, lemma2_to64_rest, lemma_pow2_adds, pow2};
use vstd::prelude::*;

use crate::bounds::{
    bounded, lemma_add_bounded, lemma_add_error, lemma_bounded_finite, lemma_bounded_weaken,
    lemma_decimal_bounded, lemma_mul_bounded, lemma_mul_error, lemma_mul_value, lemma_one_units,
    lemma_rounding_error, lemma_sub_bounded, one_units, size,
};
use crate::convert::decimal;
use crate::game::{slope_under_ball, update_of, Game, GameState};
use crate::keys::lemma_halves;
use crate::motion::{
    lemma_height_bounded, lemma_mul_at_least, lemma_on_course_bounded, lemma_slope_under_ball,
    sound,
};
use crate::nearness::{
    about, lemma_difference_off, lemma_mote, lemma_product_off, lemma_quotient_off, mote,
};
use crate::number::{add_of, div_of, mul_of, neg_of, sub_of, Real};
use crate::order::{lemma_decimal, lemma_decimal_integer, lemma_rounded};
use crate::rolling::{lemma_same_square, lemma_velocity_near};
use crate::shapes::damps;
use crate::surface::{distance2_of, eval_of, exponent_of, slope_of, surface_of, Gaussian};

verus! {

// ---- One hill ----

/// A square that is computed of a difference of at most 21.
proof fn lemma_near_square(a: Real, x: int)
    requires
        bounded(a, 21),
        size(a.units() - x) <= 0x200_0000 * mote(),
    ensures
        mul_of(a, a).is_finite(),
        0 <= mul_of(a, a).units() <= 441 * one_units(),
        size(mul_of(a, a).units() * one_units() - x * x) <= 0xa000_0000 * (mote() * one_units()),
{
    let p = one_units();
    let u = mote();
    let y = a.units();
    let q = mul_of(a, a).units() * p;
    let up = u * p;
    lemma_one_units();
    lemma_mote();
    lemma2_to64();
    lemma2_to64_rest();
    lemma_pow2_adds(9, 1074);
    lemma_pow2_adds(30, 1000);
    lemma_bounded_finite(a, 21);
    lemma_mul_bounded(a, a, 21, 21, 1, 441);
    lemma_bounded_finite(mul_of(a, a), 441);
    lemma_mul_value(a, a);
    let yy = y * y;
    let xx = x * x;
    assert(0 <= yy && yy <= (512 * p) * p) by (nonlinear_arith)
        requires
            yy == y * y,
            size(y) <= 21 * p,
            p > 0,
    ;
    lemma_rounded(yy, p, false);
    lemma_mul_error(a, a, 1083);
    assert((0x4000_0000 * u) * p == 0x4000_0000 * up) by (nonlinear_arith)
        requires
            up == u * p,
    ;
    assert(up > 0) by (nonlinear_arith)
        requires
            up == u * p,
            u > 0,
            p > 0,
    ;
    let e = y - x;
    let w = y + x;
    let ew = e * w;
    assert(yy - xx == ew) by (nonlinear_arith)
        requires
            yy == y * y,
            xx == x * x,
            e == y - x,
            w == y + x,
            ew == e * w,
    ;
    assert(size(ew) <= (0x200_0000 * 43) * up) by (nonlinear_arith)
        requires
            ew == e * w,
            size(e) <= 0x200_0000 * u,
            size(w) <= 43 * p,
            up == u * p,
            u > 0,
            p > 0,
    ;
    assert(2 * size(q - yy) <= 0x4000_0000 * up);
    assert(size(ew) <= 0x5600_0000 * up);
    assert(q - xx == (q - yy) + ew);
}

/// The difference of a coordinate and that of a centre.
proof fn lemma_near_difference(x: Real, c: Real)
    requires
        bounded(x, 11),
        bounded(c, 10),
    ensures
        bounded(sub_of(x, c), 21),
        size(sub_of(x, c).units() - (x.units() - c.units())) <= 0x200_0000 * mote(),
{
    let p = one_units();
    lemma_one_units();
    lemma2_to64();
    lemma2_to64_rest();
    lemma_pow2_adds(5, 1074);
    lemma_pow2_adds(26, 1000);
    lemma_bounded_finite(x, 11);
    lemma_bounded_finite(c, 10);
    assert(neg_of(c).is_finite() && neg_of(c).units() == -c.units());
    lemma_sub_bounded(x, c, 11, 10);
    lemma_add_error(x, neg_of(c), 1079);
}

/// Twice the square of a width.
proof fn lemma_near_width(s: Real)
    requires
        bounded(s, 8),
        2 * s.units() >= one_units(),
    ensures
        ({
            let c = mul_of(mul_of(decimal(2, 1), s), s);
            &&& c.is_finite()
            &&& one_units() <= 2 * c.units()
            &&& c.units() <= 128 * one_units()
            &&& size(c.units() * one_units() - 2 * (s.units() * s.units())) <= 0x1000_0000 * (mote()
                * one_units())
        }),
{
    let p = one_units();
    let u = mote();
    let two = decimal(2, 1);
    let half = decimal(1, 2);
    let w = mul_of(two, s);
    let c = mul_of(w, s);
    let x = s.units();
    let up = u * p;
    lemma_one_units();
    lemma_mote();
    lemma2_to64();
    lemma2_to64_rest();
    lemma_decimal_integer(2);
    lemma_decimal_integer(1);
    lemma_halves(1, 2, 1);
    lemma_bounded_finite(s, 8);
    lemma_mul_bounded(two, s, 2, 8, 1, 16);
    lemma_bounded_finite(w, 16);
    lemma_mul_bounded(w, s, 16, 8, 1, 128);
    lemma_bounded_finite(c, 128);
    lemma_pow2_adds(4, 1074);
    lemma_pow2_adds(7, 1074);
    lemma_pow2_adds(25, 1000);
    lemma_pow2_adds(28, 1000);
    assert(size((2 * p) * x) <= (16 * p) * p) by (nonlinear_arith)
        requires
            size(x) <= 8 * p,
            p > 0,
    ;
    lemma_mul_error(two, s, 1078);
    let wu = w.units();
    assert(2 * size(wu - 2 * x) <= 0x200_0000 * u) by (nonlinear_arith)
        requires
            2 * size(wu * p - (2 * p) * x) <= (0x200_0000 * u) * p,
            p > 0,
    ;
    assert(size(wu * x) <= (128 * p) * p) by (nonlinear_arith)
        requires
            size(wu) <= 16 * p,
            size(x) <= 8 * p,
            p > 0,
    ;
    lemma_mul_error(w, s, 1081);
    let cp = c.units() * p;
    let wx = wu * x;
    let xx = x * x;
    assert((0x1000_0000 * u) * p == 0x1000_0000 * up) by (nonlinear_arith)
        requires
            up == u * p,
    ;
    assert(up > 0) by (nonlinear_arith)
        requires
            up == u * p,
            u > 0,
            p > 0,
    ;
    assert(size(wx - 2 * xx) <= 0x800_0000 * up) by (nonlinear_arith)
        requires
            wx == wu * x,
            xx == x * x,
            2 * size(wu - 2 * x) <= 0x200_0000 * u,
            size(x) <= 8 * p,
            up == u * p,
            u > 0,
            p > 0,
    ;
    assert((1 * p) * p <= (2 * p) * x) by (nonlinear_arith)
        requires
            2 * x >= p,
            p > 0,
    ;
    lemma_mul_at_least(two, s, decimal(1, 1));
    assert(half.units() * p <= wu * x) by (nonlinear_arith)
        requires
            2 * half.units() == p,
            wu >= p,
            2 * x >= p,
            p > 0,
    ;
    lemma_mul_at_least(w, s, half);
}

/// The exponent of a hill is minus the exact squared distance from its centre,
/// over twice the exact square of its width.
pub proof fn law_exponents_are_the_distance_over_the_width(g: Gaussian, x: Real, y: Real)
    requires
        bounded(x, 11),
        bounded(y, 11),
        bounded(g.cx, 10),
        bounded(g.cy, 10),
        bounded(g.sigma, 8),
        2 * g.sigma.units() >= one_units(),
    ensures
        ({
            let dx = x.units() - g.cx.units();
            let dy = y.units() - g.cy.units();
            let s = g.sigma.units();
            about(exponent_of(g, x, y), -((dx * dx + dy * dy) * one_units()), 2 * (s * s))
        }),
{
    let p = one_units();
    let u = mote();
    let a = sub_of(x, g.cx);
    let b = sub_of(y, g.cy);
    let ex = x.units() - g.cx.units();
    let ey = y.units() - g.cy.units();
    let d = distance2_of(g, x, y);
    let n = neg_of(d);
    let c = mul_of(mul_of(decimal(2, 1), g.sigma), g.sigma);
    let s = g.sigma.units();
    let up = u * p;
    lemma_one_units();
    lemma_mote();
    lemma2_to64();
    lemma2_to64_rest();
    lemma_near_difference(x, g.cx);
    lemma_near_difference(y, g.cy);
    lemma_near_square(a, ex);
    lemma_near_square(b, ey);
    lemma_near_width(g.sigma);
    let m1 = mul_of(a, a);
    let m2 = mul_of(b, b);
    lemma_pow2_adds(10, 1074);
    lemma_pow2_adds(31, 1000);
    lemma_add_error(m1, m2, 1084);
    lemma_rounded(m1.units() + m2.units(), 1, m1.negative() && m2.negative());
    let dp = d.units() * p;
    let exact = ex * ex + ey * ey;
    assert(up > 0) by (nonlinear_arith)
        requires
            up == u * p,
            u > 0,
            p > 0,
    ;
    assert(2 * size(dp - (m1.units() * p + m2.units() * p)) <= 0x8000_0000 * up)
        by (nonlinear_arith)
        requires
            dp == d.units() * p,
            up == u * p,
            2 * size(d.units() - (m1.units() + m2.units())) <= 0x8000_0000 * u,
            p > 0,
    ;
    // The numerator, in squared units.
    assert(size(dp - exact) <= 0x2_0000_0000 * up);
    assert(n.is_finite() && n.units() == -d.units());
    lemma_pow2_adds(11, 1074);
    lemma_pow2_adds(32, 1000);
    let cu = c.units();
    assert(d.units() <= 883 * p);
    assert(size(n.units()) * p <= (2048 * p) * cu) by (nonlinear_arith)
        requires
            size(n.units()) <= 883 * p,
            2 * cu >= p,
            p > 0,
    ;
    lemma_quotient_off(n, c, 1085);
    let e = exponent_of(g, x, y);
    let q = e.units();
    let t = 2 * (s * s);
    let r1 = q * cu + dp;
    let r2 = t - cu * p;
    let r3 = dp - exact;
    assert(n.units() * p == -dp) by (nonlinear_arith)
        requires
            n.units() == -d.units(),
            dp == d.units() * p,
    ;
    assert(q * t + exact * p == p * r1 + q * r2 - p * r3) by (nonlinear_arith)
        requires
            r1 == q * cu + dp,
            r2 == t - cu * p,
            r3 == dp - exact,
    ;
    let upp = up * p;
    assert(2 * size(r1) <= (0x1_0000_0000 * u) * cu);
    assert(size(p * r1) <= 0x40_0000_0000 * upp) by (nonlinear_arith)
        requires
            2 * size(r1) <= (0x1_0000_0000 * u) * cu,
            cu <= 128 * p,
            up == u * p,
            upp == up * p,
            u > 0,
            p > 0,
    ;
    assert(size(q * r2) <= 0x80_0000_0000 * upp) by (nonlinear_arith)
        requires
            size(q) <= 2048 * p,
            size(r2) <= 0x1000_0000 * up,
            upp == up * p,
            up > 0,
            p > 0,
    ;
    assert(size(p * r3) <= 0x2_0000_0000 * upp) by (nonlinear_arith)
        requires
            size(r3) <= 0x2_0000_0000 * up,
            upp == up * p,
            p > 0,
    ;
    assert(size(q * t + exact * p) <= 0x100_0000_0000 * upp) by (nonlinear_arith)
        requires
            q * t + exact * p == p * r1 + q * r2 - p * r3,
            size(p * r1) <= 0x40_0000_0000 * upp,
            size(q * r2) <= 0x80_0000_0000 * upp,
            size(p * r3) <= 0x2_0000_0000 * upp,
            upp >= 0,
    ;
    let ss = s * s;
    let ppp = (p * p) * p;
    assert(4 * ss >= p * p) by (nonlinear_arith)
        requires
            ss == s * s,
            2 * s >= p,
            p > 0,
    ;
    assert(4 * (ss * p) >= ppp) by (nonlinear_arith)
        requires
            4 * ss >= p * p,
            ppp == (p * p) * p,
            p > 0,
    ;
    assert(ppp == 0x400_0000_0000_0000_0000 * upp) by (nonlinear_arith)
        requires
            ppp == (p * p) * p,
            upp == up * p,
            up == u * p,
            p == 0x400_0000_0000_0000_0000 * u,
    ;
    assert(t * p == 2 * (ss * p)) by (nonlinear_arith)
        requires
            t == 2 * ss,
    ;
    assert(upp > 0) by (nonlinear_arith)
        requires
            upp == up * p,
            up > 0,
            p > 0,
    ;
}

/// The height of a hill at a point is the exact product of its amplitude and
/// the exponential of its exponent there.
pub proof fn law_heights_are_the_amplitude_times_the_exponential(
    g: Gaussian,
    x: Real,
    y: Real,
    f: spec_fn(Real) -> Real,
)
    requires
        bounded(g.amplitude, 16384),
        bounded(f(exponent_of(g, x, y)), 1),
    ensures
        about(
            eval_of(g, x, y, f),
            g.amplitude.units() * f(exponent_of(g, x, y)).units(),
            one_units(),
        ),
{
    let p = one_units();
    let u = mote();
    let e = f(exponent_of(g, x, y));
    let m = mul_of(g.amplitude, e);
    lemma_one_units();
    lemma_mote();
    lemma_product_off(g.amplitude, e, 16384, 1);
    lemma_bounded_finite(e, 1);
    lemma_mul_bounded(g.amplitude, e, 16384, 1, 1, 16384);
    lemma_bounded_finite(m, 16384);
    let k = size(m.units() * p - g.amplitude.units() * e.units());
    assert(1_000_000_000 * k <= p * p) by (nonlinear_arith)
        requires
            k <= 0x4_0000_0000 * (u * p),
            p == 0x400_0000_0000_0000_0000 * u,
            u > 0,
    ;
}

/// A hill is as high at two points that lie as far from its centre in each
/// direction, on whatever sides.
pub proof fn law_hills_have_no_sides(
    g: Gaussian,
    a: (Real, Real),
    b: (Real, Real),
    f: spec_fn(Real) -> Real,
)
    requires
        g.cx.is_finite() && g.cy.is_finite(),
        a.0.is_finite() && a.1.is_finite(),
        b.0.is_finite() && b.1.is_finite(),
        a.0.units() - g.cx.units() == b.0.units() - g.cx.units() || a.0.units() - g.cx.units()
            == -(b.0.units() - g.cx.units()),
        a.1.units() - g.cy.units() == b.1.units() - g.cy.units() || a.1.units() - g.cy.units()
            == -(b.1.units() - g.cy.units()),
    ensures
        eval_of(g, a.0, a.1, f) == eval_of(g, b.0, b.1, f),
{
    lemma_same_square(a.0, b.0, g.cx);
    lemma_same_square(a.1, b.1, g.cy);
}

// ---- Slopes ----

/// A slope is ten times the difference of the two heights, which are taken a
/// tenth apart.
proof fn lemma_slope_off(ahead: Real, behind: Real)
    requires
        bounded(ahead, 352),
        bounded(behind, 352),
    ensures
        slope_of(ahead, behind).is_finite(),
        size(slope_of(ahead, behind).units() - 10 * (ahead.units() - behind.units()))
            <= 0x100_0000_0000 * mote(),
{
    let p = one_units();
    let u = mote();
    let two = decimal(2, 1);
    let eps = decimal(5, 100);
    let w = mul_of(two, eps);
    let d = sub_of(ahead, behind);
    let q = div_of(d, w);
    lemma_one_units();
    lemma_mote();
    lemma2_to64();
    lemma2_to64_rest();
    lemma_difference_off(ahead, behind, 352, 352);
    lemma_sub_bounded(ahead, behind, 352, 352);
    lemma_decimal_integer(2);
    // The sampling distance and its double.
    lemma_pow2_adds(4, 1070);
    lemma_pow2_adds(17, 1000);
    lemma_rounding_error(5 * p, 100, false, 1070);
    lemma_decimal(5, 100);
    let e = eps.units();
    assert(2 * size(100 * e - 5 * p) <= 0x2_0000 * u * 100);
    lemma_pow2_adds(3, 1071);
    lemma_pow2_adds(18, 1000);
    assert(size((2 * p) * e) <= pow2(1071) * p) by (nonlinear_arith)
        requires
            16 * e <= p,
            e >= 0,
            8 * pow2(1071) == p,
            p > 0,
    ;
    lemma_mul_error(two, eps, 1071);
    let wu = w.units();
    assert(2 * size(wu - 2 * e) <= 0x4_0000 * u) by (nonlinear_arith)
        requires
            2 * size(wu * p - (2 * p) * e) <= (0x4_0000 * u) * p,
            p > 0,
    ;
    assert(size(10 * wu - p) <= 0x40_0000 * u);
    lemma_decimal_bounded(5, 100, 1);
    lemma_mul_bounded(two, eps, 2, 1, 1, 2);
    lemma_bounded_finite(w, 2);
    lemma_pow2_adds(13, 1074);
    lemma_pow2_adds(34, 1000);
    let du = d.units();
    assert(size(du) * p <= (8192 * p) * wu) by (nonlinear_arith)
        requires
            size(du) <= 704 * p,
            11 * wu >= p,
            p > 0,
    ;
    lemma_quotient_off(d, w, 1087);
    let qu = q.units();
    let r = qu * wu - du * p;
    let k = 10 * wu - p;
    assert((qu - 10 * du) * p == 10 * r - qu * k) by (nonlinear_arith)
        requires
            r == qu * wu - du * p,
            k == 10 * wu - p,
    ;
    let up = u * p;
    assert(size(r) <= 0x2_0000_0000 * up) by (nonlinear_arith)
        requires
            2 * size(r) <= (0x4_0000_0000 * u) * wu,
            wu <= p,
            up == u * p,
            u > 0,
            wu > 0,
    ;
    assert(size(qu * k) <= 0x8_0000_0000 * up) by (nonlinear_arith)
        requires
            size(qu) <= 8192 * p,
            size(k) <= 0x40_0000 * u,
            up == u * p,
            u > 0,
            p > 0,
    ;
    assert(size(qu - 10 * du) <= 0x20_0000_0000 * u) by (nonlinear_arith)
        requires
            (qu - 10 * du) * p == 10 * r - qu * k,
            size(r) <= 0x2_0000_0000 * up,
            size(qu * k) <= 0x8_0000_0000 * up,
            up == u * p,
            u > 0,
            p > 0,
    ;
}

/// A tick pulls the ball downhill: from nine tenths of the velocity it takes
/// 0.24 of the difference between the heights 0.05 ahead of the ball and 0.05
/// behind it, in each direction.
pub proof fn law_the_ball_is_pulled_downhill(g: Game, f: spec_fn(Real) -> Real)
    requires
        sound(g),
        g.state == GameState::Rolling,
        damps(f),
    ensures
        ({
            let h = update_of(g, f);
            let eps = decimal(5, 100);
            let east = surface_of(add_of(g.ball_x, eps), g.ball_y, g.current, f);
            let west = surface_of(sub_of(g.ball_x, eps), g.ball_y, g.current, f);
            let north = surface_of(g.ball_x, add_of(g.ball_y, eps), g.current, f);
            let south = surface_of(g.ball_x, sub_of(g.ball_y, eps), g.current, f);
            &&& about(
                h.vel_x,
                900 * g.vel_x.units() - 240 * (east.units() - west.units()),
                1000,
            )
            &&& about(
                h.vel_y,
                900 * g.vel_y.units() - 240 * (north.units() - south.units()),
                1000,
            )
        }),
{
    let x = g.ball_x;
    let y = g.ball_y;
    let eps = decimal(5, 100);
    let slope = slope_under_ball(g, f);
    lemma_one_units();
    lemma_mote();
    lemma_on_course_bounded(x);
    lemma_on_course_bounded(y);
    lemma_decimal_bounded(5, 100, 1);
    lemma_add_bounded(x, eps, 10, 1);
    lemma_sub_bounded(x, eps, 10, 1);
    lemma_add_bounded(y, eps, 10, 1);
    lemma_sub_bounded(y, eps, 10, 1);
    lemma_bounded_weaken(x, 10, 11);
    lemma_bounded_weaken(y, 10, 11);
    lemma_height_bounded(g, add_of(x, eps), y, f);
    lemma_height_bounded(g, sub_of(x, eps), y, f);
    lemma_height_bounded(g, x, add_of(y, eps), f);
    lemma_height_bounded(g, x, sub_of(y, eps), f);
    lemma_slope_off(
        surface_of(add_of(x, eps), y, g.current, f),
        surface_of(sub_of(x, eps), y, g.current, f),
    );
    lemma_slope_off(
        surface_of(x, add_of(y, eps), g.current, f),
        surface_of(x, sub_of(y, eps), g.current, f),
    );
    lemma_slope_under_ball(g, f);
    lemma_velocity_near(g.vel_x, slope.0);
    lemma_velocity_near(g.vel_y, slope.1);
}

} // verus!
