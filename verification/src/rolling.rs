//! What a tick of the rolling ball does.

use vstd::arithmetic::power2::{
    lemma2_to64, lemma2_to64_rest, lemma_pow2_adds, lemma_pow2_unfold, pow2,
};
use vstd::prelude::*;

use crate::bounds::{
    bounded, lemma_add_error, lemma_bounded_finite, lemma_bounded_weaken, lemma_mul_bounded,
    lemma_mul_error, lemma_mul_value, lemma_one_units, lemma_rounding_error, one_units, size,
};
use crate::convert::decimal;
use crate::division::sqrt_of;
use crate::game::{on_course, position_after, rolled, velocity_after, Game, GameState};
use crate::keys::{least_of, lemma_halves, most_of};
use crate::laws::lemma_position_on_course;
use crate::motion::{lemma_on_course_bounded, lemma_velocity_bounded};
use crate::nearness::{
    about, lemma_decimal_off, lemma_difference_off, lemma_mote, lemma_product_off, lemma_root_above,
    lemma_root_below, lemma_scaled_off, lemma_sum_off, mote,
};
use crate::number::{add_of, lt_of, mul_of, neg_of, sub_of, Real};
use crate::order::{lemma_decimal, lemma_rounded, lemma_signed};
use crate::rounding::{lemma_nearest_exists, nearest};

verus! {

// ---- Velocity and position ----

/// A tick leaves nine tenths of the velocity, less what gravity, 0.4, does on
/// the slope in a tick of 0.06.
pub proof fn law_slopes_change_the_velocity(g: Game, gx: Real, gy: Real)
    requires
        bounded(g.vel_x, 8192),
        bounded(g.vel_y, 8192),
        bounded(gx, 11264),
        bounded(gy, 11264),
    ensures
        ({
            let r = rolled(g, gx, gy);
            &&& about(r.vel_x, 900 * g.vel_x.units() - 24 * gx.units(), 1000)
            &&& about(r.vel_y, 900 * g.vel_y.units() - 24 * gy.units(), 1000)
        }),
{
    lemma_velocity_about(g.vel_x, gx);
    lemma_velocity_about(g.vel_y, gy);
}

proof fn lemma_velocity_about(v: Real, slope: Real)
    requires
        bounded(v, 8192),
        bounded(slope, 11264),
    ensures
        about(velocity_after(v, slope), 900 * v.units() - 24 * slope.units(), 1000),
{
    lemma_mote();
    lemma_velocity_near(v, slope);
}

/// The velocity after a tick, against the exact one.
pub(crate) proof fn lemma_velocity_near(v: Real, slope: Real)
    requires
        bounded(v, 8192),
        bounded(slope, 11264),
    ensures
        velocity_after(v, slope).is_finite(),
        size(
            1000 * velocity_after(v, slope).units() - (900 * v.units() - 24
                * slope.units()),
        ) <= 1000 * (0x20_0000_0000 * mote()),
{
    let damping = decimal(90, 100);
    let gravity = decimal(4, 10);
    let dt = decimal(6, 100);
    let a = mul_of(v, damping);
    let b = mul_of(slope, gravity);
    let c = mul_of(b, dt);
    lemma_one_units();
    lemma_mote();
    lemma_bounded_weaken(v, 8192, 16384);
    lemma_bounded_weaken(slope, 11264, 16384);
    lemma_decimal_off(90, 100);
    lemma_decimal_off(4, 10);
    lemma_decimal_off(6, 100);
    lemma_mul_bounded(v, damping, 8192, 1, 1, 8192);
    lemma_scaled_off(v, 90, 100);
    lemma_mul_bounded(slope, gravity, 11264, 1, 1, 11264);
    lemma_scaled_off(slope, 4, 10);
    lemma_bounded_weaken(b, 11264, 16384);
    lemma_scaled_off(b, 6, 100);
    lemma_velocity_bounded(v, slope);
    assert(velocity_after(v, slope) == sub_of(a, c));
    lemma_small_share(b);
    lemma_difference_off(a, c, 8192, 8192);
}

/// Six hundredths of a number are at most half of it.
proof fn lemma_small_share(b: Real)
    requires
        bounded(b, 11264),
    ensures
        bounded(mul_of(b, decimal(6, 100)), 8192),
{
    let dt = decimal(6, 100);
    lemma2_to64();
    lemma_one_units();
    lemma_mote();
    lemma_decimal_off(6, 100);
    lemma_decimal(6, 100);
    lemma_mul_bounded(b, dt, 11264, 1, 2, 8192);
}

/// A tick moves the ball by the new velocity for 0.06, and keeps it between
/// 0.1 and 9.9.
pub proof fn law_the_ball_follows_its_velocity(g: Game, gx: Real, gy: Real)
    requires
        on_course(g.ball_x) && !g.ball_x.is_nan(),
        on_course(g.ball_y) && !g.ball_y.is_nan(),
        bounded(g.vel_x, 8192),
        bounded(g.vel_y, 8192),
        bounded(gx, 11264),
        bounded(gy, 11264),
    ensures
        ({
            let r = rolled(g, gx, gy);
            let low = 10 * one_units();
            let high = 990 * one_units();
            let x = 100 * g.ball_x.units() + 6 * r.vel_x.units();
            let y = 100 * g.ball_y.units() + 6 * r.vel_y.units();
            &&& about(r.ball_x, most_of(low, least_of(x, high)), 100)
            &&& about(r.ball_y, most_of(low, least_of(y, high)), 100)
        }),
{
    lemma_velocity_bounded(g.vel_x, gx);
    lemma_velocity_bounded(g.vel_y, gy);
    lemma_position_about(g.ball_x, rolled(g, gx, gy).vel_x);
    lemma_position_about(g.ball_y, rolled(g, gx, gy).vel_y);
}

proof fn lemma_position_about(x: Real, v: Real)
    requires
        on_course(x) && !x.is_nan(),
        bounded(v, 8192),
    ensures
        about(
            position_after(x, v),
            most_of(
                10 * one_units(),
                least_of(100 * x.units() + 6 * v.units(), 990 * one_units()),
            ),
            100,
        ),
{
    let dt = decimal(6, 100);
    let m = mul_of(v, dt);
    let y = add_of(x, m);
    lemma_one_units();
    lemma_mote();
    lemma_on_course_bounded(x);
    lemma_bounded_weaken(v, 8192, 16384);
    lemma_decimal_off(6, 100);
    lemma_mul_bounded(v, dt, 8192, 1, 1, 8192);
    lemma_scaled_off(v, 6, 100);
    lemma_sum_off(x, m, 10, 8192);
    lemma_decimal_off(1, 10);
    lemma_nine_tenths();
}

/// The upper end of the course.
proof fn lemma_nine_tenths()
    ensures
        decimal(99, 10).is_finite(),
        size(decimal(99, 10).units() * 10 - 99 * one_units()) <= 0x1000_0000 * mote(),
{
    let p = one_units();
    lemma_one_units();
    lemma_mote();
    lemma2_to64();
    lemma_pow2_adds(4, 1074);
    lemma_pow2_adds(25, 1000);
    lemma_rounding_error(99 * p, 10, false, 1078);
}

/// Each direction is on its own: what becomes of one coordinate and its
/// velocity is told by these and the slope in that direction alone.
pub proof fn law_the_axes_are_independent(g: Game, h: Game, gx: Real, gy: Real, hx: Real, hy: Real)
    ensures
        g.vel_x == h.vel_x && gx == hx ==> rolled(g, gx, gy).vel_x == rolled(h, hx, hy).vel_x,
        g.vel_y == h.vel_y && gy == hy ==> rolled(g, gx, gy).vel_y == rolled(h, hx, hy).vel_y,
        g.vel_x == h.vel_x && gx == hx && g.ball_x == h.ball_x ==> rolled(g, gx, gy).ball_x
            == rolled(h, hx, hy).ball_x,
        g.vel_y == h.vel_y && gy == hy && g.ball_y == h.ball_y ==> rolled(g, gx, gy).ball_y
            == rolled(h, hx, hy).ball_y,
        // The two axes obey one rule.
        g.vel_x == h.vel_y && gx == hy ==> rolled(g, gx, gy).vel_x == rolled(h, hx, hy).vel_y,
        g.vel_x == h.vel_y && gx == hy && g.ball_x == h.ball_y ==> rolled(g, gx, gy).ball_x
            == rolled(h, hx, hy).ball_y,
{
}

// ---- The hole ----

/// A tick ends in the hole if and only if the ball has come within 0.45 of
/// (8, 7.5), the distance being the rounded root of the sum of the squared
/// differences.
pub proof fn law_the_hole_takes_what_comes_near(g: Game, gx: Real, gy: Real)
    requires
        g.state == GameState::Rolling,
        g.hole_x == decimal(80, 10),
        g.hole_y == decimal(75, 10),
        g.hole_radius == decimal(45, 100),
    ensures
        ({
            let r = rolled(g, gx, gy);
            let dx = sub_of(r.ball_x, decimal(80, 10));
            let dy = sub_of(r.ball_y, decimal(75, 10));
            r.state == GameState::InHole <==> lt_of(
                sqrt_of(add_of(mul_of(dx, dx), mul_of(dy, dy))),
                decimal(45, 100),
            )
        }),
{
}

/// Four times the exact squared distance from (8, 7.5), in squared units.
pub open spec fn four_squares(x: Real, y: Real) -> int {
    let a = 2 * x.units() - 16 * one_units();
    let b = 2 * y.units() - 15 * one_units();
    a * a + b * b
}

/// Every ball that is exactly within 0.44 of the hole at the end of a tick is
/// in it, and none that is exactly beyond 0.46 is, on whatever side it lies.
pub proof fn law_the_hole_is_round(g: Game, gx: Real, gy: Real)
    requires
        g.state == GameState::Rolling,
        g.hole_x == decimal(80, 10),
        g.hole_y == decimal(75, 10),
        g.hole_radius == decimal(45, 100),
        !rolled(g, gx, gy).ball_x.is_nan(),
        !rolled(g, gx, gy).ball_y.is_nan(),
    ensures
        ({
            let r = rolled(g, gx, gy);
            let d = 10000 * four_squares(r.ball_x, r.ball_y);
            &&& d < 7744 * (one_units() * one_units()) ==> r.state == GameState::InHole
            &&& d > 8464 * (one_units() * one_units()) ==> r.state != GameState::InHole
        }),
{
    let r = rolled(g, gx, gy);
    lemma_position_on_course(g.ball_x, r.vel_x);
    lemma_position_on_course(g.ball_y, r.vel_y);
    lemma_on_course_bounded(r.ball_x);
    lemma_on_course_bounded(r.ball_y);
    lemma_distance(r.ball_x, r.ball_y);
}

/// The square of a difference that is computed, against the exact one.
proof fn lemma_square_off(a: Real, x: int)
    requires
        bounded(a, 20),
        size(a.units() - x) <= 0x4_0000_0000 * mote(),
    ensures
        !mul_of(a, a).is_nan(),
        bounded(mul_of(a, a), 400),
        mul_of(a, a).units() >= 0,
        size(mul_of(a, a).units() * one_units() - x * x) <= 0x100_0000_0000 * (mote()
            * one_units()),
{
    let p = one_units();
    let u = mote();
    let y = a.units();
    lemma_one_units();
    lemma_mote();
    lemma_bounded_finite(a, 20);
    lemma_product_off(a, a, 20, 20);
    lemma_mul_bounded(a, a, 20, 20, 1, 400);
    lemma_mul_value(a, a);
    assert(y * y >= 0) by (nonlinear_arith);
    lemma_rounded(y * y, p, false);
    let e = y - x;
    let w = y + x;
    assert(y * y - x * x == e * w) by (nonlinear_arith)
        requires
            e == y - x,
            w == y + x,
    ;
    assert(size(w) <= 41 * p);
    assert(size(e * w) <= (0x4_0000_0000 * u) * (41 * p)) by (nonlinear_arith)
        requires
            size(e) <= 0x4_0000_0000 * u,
            size(w) <= 41 * p,
    ;
    assert((0x4_0000_0000 * u) * (41 * p) == (0x4_0000_0000 * 41) * (u * p)) by (nonlinear_arith);
    let up = u * p;
    assert(up > 0) by (nonlinear_arith)
        requires
            up == u * p,
            u > 0,
            p > 0,
    ;
    let q = mul_of(a, a).units() * p;
    let xx = x * x;
    let yy = y * y;
    let ew = e * w;
    assert(size(q - yy) <= 0x4_0000_0000 * up);
    assert(size(ew) <= 0xa4_0000_0000 * up);
    assert(q - xx == (q - yy) + ew);
}

/// The computed distance from the hole, against the exact one.
proof fn lemma_distance(x: Real, y: Real)
    requires
        bounded(x, 10),
        bounded(y, 10),
    ensures
        ({
            let dx = sub_of(x, decimal(80, 10));
            let dy = sub_of(y, decimal(75, 10));
            let dist = sqrt_of(add_of(mul_of(dx, dx), mul_of(dy, dy)));
            let d = 10000 * four_squares(x, y);
            &&& d < 7744 * (one_units() * one_units()) ==> lt_of(dist, decimal(45, 100))
            &&& d > 8464 * (one_units() * one_units()) ==> !lt_of(dist, decimal(45, 100))
        }),
{
    let p = one_units();
    let u = mote();
    let hx = decimal(80, 10);
    let hy = decimal(75, 10);
    let dx = sub_of(x, hx);
    let dy = sub_of(y, hy);
    let a = mul_of(dx, dx);
    let b = mul_of(dy, dy);
    let s = add_of(a, b);
    let c = decimal(45, 100);
    lemma_one_units();
    lemma_mote();
    lemma_halves(80, 10, 16);
    lemma_halves(75, 10, 15);
    lemma_difference_off(x, hx, 10, 8);
    lemma_difference_off(y, hy, 10, 8);
    let ex = x.units() - hx.units();
    let ey = y.units() - hy.units();
    lemma_square_off(dx, ex);
    lemma_square_off(dy, ey);
    lemma_sum_off(a, b, 400, 400);
    lemma_rounded(a.units() + b.units(), 1, a.negative() && b.negative());
    lemma_bounded_finite(a, 400);
    lemma_bounded_finite(b, 400);
    let up = u * p;
    let pp = p * p;
    let sp = s.units() * p;
    assert(pp == 0x400_0000_0000_0000_0000 * up) by (nonlinear_arith)
        requires
            pp == p * p,
            up == u * p,
            p == 0x400_0000_0000_0000_0000 * u,
    ;
    assert(size(sp - (a.units() * p + b.units() * p)) <= 0x4_0000_0000 * up) by (nonlinear_arith)
        requires
            sp == s.units() * p,
            up == u * p,
            size(s.units() - (a.units() + b.units())) <= 0x4_0000_0000 * u,
            p > 0,
    ;
    let exact = ex * ex + ey * ey;
    assert(4 * exact == four_squares(x, y)) by (nonlinear_arith)
        requires
            exact == ex * ex + ey * ey,
            ex == x.units() - hx.units(),
            ey == y.units() - hy.units(),
            2 * hx.units() == 16 * p,
            2 * hy.units() == 15 * p,
            p == one_units(),
    ;
    assert(size(sp - exact) <= 0x400_0000_0000 * up);
    assert(up > 0) by (nonlinear_arith)
        requires
            up == u * p,
            u > 0,
            p > 0,
    ;
    lemma_decimal_off(45, 100);
    lemma2_to64();
    lemma_pow2_adds(20, 1000);
    lemma_pow2_unfold(1074);
    let gap = pow2(1020) as int;
    let w = 2 * c.units() - gap;
    assert(w * 10000 >= 8999 * p);
    assert((w * 10000) * (w * 10000) >= (8999 * p) * (8999 * p)) by (nonlinear_arith)
        requires
            w * 10000 >= 8999 * p,
            p > 0,
    ;
    assert(100_000_000 * (w * w) >= 80982001 * pp) by (nonlinear_arith)
        requires
            (w * 10000) * (w * 10000) >= (8999 * p) * (8999 * p),
            pp == p * p,
    ;
    let cc = c.units() * c.units();
    assert(c.units() * 10000 <= 4501 * p);
    assert(100_000_000 * cc <= 20259001 * pp) by (nonlinear_arith)
        requires
            cc == c.units() * c.units(),
            0 <= c.units() * 10000 <= 4501 * p,
            pp == p * p,
    ;
    if 10000 * four_squares(x, y) < 7744 * pp {
        assert(4 * sp < w * w);
        lemma_root_below(s, c, 1073);
    }
    if 10000 * four_squares(x, y) > 8464 * pp {
        assert(sp > cc);
        lemma_root_above(s, c);
    }
}

/// Two balls that lie as far from the hole's centre in x and as far in y, on
/// whatever sides, fare alike: both are in the hole or neither is.
pub proof fn law_the_hole_has_no_sides(g: Game, h: Game, gx: Real, gy: Real, hx: Real, hy: Real)
    requires
        g.state == GameState::Rolling,
        h.state == GameState::Rolling,
        g.hole_x == h.hole_x && g.hole_y == h.hole_y && g.hole_radius == h.hole_radius,
        g.hole_x.is_finite() && g.hole_y.is_finite(),
        ({
            let r = rolled(g, gx, gy);
            let s = rolled(h, hx, hy);
            let a = r.ball_x.units() - g.hole_x.units();
            let b = s.ball_x.units() - g.hole_x.units();
            let c = r.ball_y.units() - g.hole_y.units();
            let d = s.ball_y.units() - g.hole_y.units();
            &&& r.ball_x.is_finite() && r.ball_y.is_finite()
            &&& s.ball_x.is_finite() && s.ball_y.is_finite()
            &&& (a == b || a == -b)
            &&& (c == d || c == -d)
        }),
    ensures
        rolled(g, gx, gy).state == GameState::InHole <==> rolled(h, hx, hy).state
            == GameState::InHole,
{
    let r = rolled(g, gx, gy);
    let s = rolled(h, hx, hy);
    lemma_same_square(r.ball_x, s.ball_x, g.hole_x);
    lemma_same_square(r.ball_y, s.ball_y, g.hole_y);
}

pub(crate) proof fn lemma_same_square(a: Real, b: Real, c: Real)
    requires
        a.is_finite(),
        b.is_finite(),
        c.is_finite(),
        a.units() - c.units() == b.units() - c.units() || a.units() - c.units() == -(b.units()
            - c.units()),
    ensures
        mul_of(sub_of(a, c), sub_of(a, c)) == mul_of(sub_of(b, c), sub_of(b, c)),
{
    let n = a.units() - c.units();
    let m = b.units() - c.units();
    let k = neg_of(c);
    assert(k.units() == -c.units());
    lemma_nearest_exists(size(n), 1);
    lemma_signed(n < 0, nearest(size(n), 1));
    lemma_signed(m < 0, nearest(size(n), 1));
    lemma_signed(a.negative() && k.negative(), 0);
    lemma_signed(b.negative() && k.negative(), 0);
    assert(sub_of(a, c).key() == sub_of(b, c).key());
}

// ---- Slow ticks ----

/// A ball that is not in the hole counts its slow ticks: those with a speed
/// below 0.012, the speed being the rounded root of the sum of the squared
/// velocities. With the twentieth it is stuck; a faster tick starts the count
/// anew. In the hole the count stays.
pub proof fn law_slow_ticks_are_counted(g: Game, gx: Real, gy: Real)
    requires
        g.state == GameState::Rolling,
        g.stuck_counter < u32::MAX,
    ensures
        ({
            let r = rolled(g, gx, gy);
            let slow = lt_of(
                sqrt_of(add_of(mul_of(r.vel_x, r.vel_x), mul_of(r.vel_y, r.vel_y))),
                decimal(12, 1000),
            );
            &&& r.state == GameState::InHole ==> r.stuck_counter == g.stuck_counter
            &&& r.state != GameState::InHole && slow ==> r.stuck_counter == g.stuck_counter + 1
            &&& r.state != GameState::InHole && !slow ==> r.stuck_counter == 0
            &&& r.state == GameState::Stuck ==> slow && r.stuck_counter >= 20
            &&& r.state == GameState::Rolling ==> !slow || r.stuck_counter < 20
            &&& r.state == GameState::Stuck || r.state == GameState::Rolling || r.state
                == GameState::InHole
        }),
{
}

/// Outside the hole, every tick that is exactly slower than 0.0119 is counted,
/// and every one that is exactly faster than 0.0121 starts the count anew, in
/// whatever direction the ball goes.
pub proof fn law_slow_has_no_direction(g: Game, gx: Real, gy: Real)
    requires
        g.state == GameState::Rolling,
        g.stuck_counter < u32::MAX,
        rolled(g, gx, gy).state != GameState::InHole,
        bounded(rolled(g, gx, gy).vel_x, 8192),
        bounded(rolled(g, gx, gy).vel_y, 8192),
    ensures
        ({
            let r = rolled(g, gx, gy);
            let vx = r.vel_x.units();
            let vy = r.vel_y.units();
            let v = 100_000_000 * (vx * vx + vy * vy);
            &&& v < 14161 * (one_units() * one_units()) ==> r.stuck_counter == g.stuck_counter
                + 1 && (r.state == GameState::Stuck <==> g.stuck_counter >= 19)
            &&& v > 14641 * (one_units() * one_units()) ==> r.stuck_counter == 0 && r.state
                == GameState::Rolling
        }),
{
    let r = rolled(g, gx, gy);
    lemma_speed(r.vel_x, r.vel_y);
}

proof fn lemma_wide_square(a: Real)
    requires
        bounded(a, 8192),
    ensures
        mul_of(a, a).is_finite(),
        0 <= mul_of(a, a).units() <= 0x400_0000 * one_units(),
        size(mul_of(a, a).units() * one_units() - a.units() * a.units()) <= 0x4000_0000_0000 * (
        mote() * one_units()),
{
    let p = one_units();
    let u = mote();
    let x = a.units();
    lemma_one_units();
    lemma_mote();
    lemma2_to64();
    lemma2_to64_rest();
    lemma_pow2_adds(26, 1074);
    lemma_pow2_adds(47, 1000);
    lemma_bounded_finite(a, 8192);
    assert(0 <= x * x && x * x <= (0x400_0000 * p) * p) by (nonlinear_arith)
        requires
            size(x) <= 8192 * p,
            p > 0,
    ;
    lemma_mul_error(a, a, 1100);
    lemma_mul_value(a, a);
    lemma_rounded(x * x, p, false);
    lemma_mul_bounded(a, a, 8192, 8192, 1, 0x400_0000);
    lemma_bounded_finite(mul_of(a, a), 0x400_0000);
    assert((0x8000_0000_0000 * u) * p == 0x8000_0000_0000 * (u * p)) by (nonlinear_arith);
}

/// The computed speed, against the exact one.
proof fn lemma_speed(x: Real, y: Real)
    requires
        bounded(x, 8192),
        bounded(y, 8192),
    ensures
        ({
            let speed = sqrt_of(add_of(mul_of(x, x), mul_of(y, y)));
            let v = 100_000_000 * (x.units() * x.units() + y.units() * y.units());
            &&& v < 14161 * (one_units() * one_units()) ==> lt_of(speed, decimal(12, 1000))
            &&& v > 14641 * (one_units() * one_units()) ==> !lt_of(speed, decimal(12, 1000))
        }),
{
    let p = one_units();
    let u = mote();
    let a = mul_of(x, x);
    let b = mul_of(y, y);
    let s = add_of(a, b);
    let c = decimal(12, 1000);
    lemma_one_units();
    lemma_mote();
    lemma2_to64();
    lemma2_to64_rest();
    lemma_wide_square(x);
    lemma_wide_square(y);
    lemma_pow2_adds(27, 1074);
    lemma_pow2_adds(48, 1000);
    lemma_add_error(a, b, 1101);
    lemma_rounded(a.units() + b.units(), 1, a.negative() && b.negative());
    let up = u * p;
    let pp = p * p;
    let sp = s.units() * p;
    assert(pp == 0x400_0000_0000_0000_0000 * up) by (nonlinear_arith)
        requires
            pp == p * p,
            up == u * p,
            p == 0x400_0000_0000_0000_0000 * u,
    ;
    assert(size(sp - (a.units() * p + b.units() * p)) <= 0x8000_0000_0000 * up)
        by (nonlinear_arith)
        requires
            sp == s.units() * p,
            up == u * p,
            size(s.units() - (a.units() + b.units())) <= 0x8000_0000_0000 * u,
            p > 0,
    ;
    let exact = x.units() * x.units() + y.units() * y.units();
    assert(size(sp - exact) <= 0x1_0000_0000_0000 * up);
    assert(up > 0) by (nonlinear_arith)
        requires
            up == u * p,
            u > 0,
            p > 0,
    ;
    lemma_decimal_off(12, 1000);
    lemma_pow2_adds(6, 1068);
    lemma_pow2_adds(15, 1000);
    let gap = pow2(1015) as int;
    let w = 2 * c.units() - gap;
    assert(w * 10000 >= 239 * p);
    assert(100_000_000 * (w * w) >= 57121 * pp) by (nonlinear_arith)
        requires
            w * 10000 >= 239 * p,
            p > 0,
            pp == p * p,
    ;
    let cc = c.units() * c.units();
    assert(c.units() * 100000 <= 1201 * p);
    assert(10_000_000_000 * cc <= 1442401 * pp) by (nonlinear_arith)
        requires
            cc == c.units() * c.units(),
            0 <= c.units() * 100000 <= 1201 * p,
            pp == p * p,
    ;
    if 100_000_000 * exact < 14161 * pp {
        assert(4 * sp < w * w);
        lemma_root_below(s, c, 1068);
    }
    if 100_000_000 * exact > 14641 * pp {
        assert(sp > cc);
        lemma_root_above(s, c);
    }
}

// ---- The trail and the rest ----

/// A tick adds the new position at the end of the trail, and drops the oldest
/// one where there would be more than sixty.
pub proof fn law_the_trail_is_sixty_long(g: Game, gx: Real, gy: Real)
    requires
        g.trail.len() <= 60,
    ensures
        ({
            let r = rolled(g, gx, gy);
            let n = g.trail.len() as int;
            &&& r.trail.len() == if n < 60 {
                n + 1
            } else {
                60
            }
            &&& r.trail.last() == (r.ball_x, r.ball_y)
            &&& n < 60 ==> forall|i: int| 0 <= i < n ==> #[trigger] r.trail[i] == g.trail[i]
            &&& n == 60 ==> forall|i: int| 0 <= i < 59 ==> #[trigger] r.trail[i] == g.trail[i + 1]
        }),
{
}

/// What a tick of the rolling ball does not touch.
pub proof fn law_rolling_touches_only_the_ball(g: Game, gx: Real, gy: Real)
    ensures
        ({
            let r = rolled(g, gx, gy);
            &&& r.prev_state == g.prev_state && r.morph_t == g.morph_t && r.reshaped == g.reshaped
            &&& r.before == g.before && r.after == g.after && r.current == g.current
            &&& r.aim_angle == g.aim_angle && r.putt_power == g.putt_power
            &&& r.hole_x == g.hole_x && r.hole_y == g.hole_y && r.hole_radius == g.hole_radius
            &&& r.putt_count == g.putt_count && r.should_quit == g.should_quit
        }),
{
}

} // verus!
