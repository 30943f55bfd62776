//! What holds of the ball on its way, for exponentials, cosines and sines that
//! keep to their ranges.

use vstd::arithmetic::power2::{
    lemma2_to64, lemma_pow2_adds, lemma_pow2_pos, lemma_pow2_strictly_increases, lemma_pow2_unfold,
    pow2,
};
use vstd::prelude::*;

use crate::bounds::{
    bounded, lemma_add_bounded, lemma_add_error, lemma_bounded_finite, lemma_bounded_weaken,
    lemma_decimal_bounded, lemma_div_bounded, lemma_dyadic_value, lemma_mul_bounded,
    lemma_mul_value, lemma_neg_bounded, lemma_one_units, lemma_sub_bounded, one_units, size,
};
use crate::constants::{
    AIM_STEP_HUNDREDTHS, DAMPING_HUNDREDTHS, DT_HUNDREDTHS, EPS_HUNDREDTHS, GRAVITY_TENTHS,
};
use crate::convert::decimal;
use crate::game::{
    direction_of, event_handled, key_handled, moved, on_course, position_after, pressed, rolled,
    slope_under_ball, start, stepped, update_of, velocity_after, within, Event, Game, GameState,
    KeyCode,
};
use crate::landscape::{before_table, shaped_from};
use crate::laws::{law_keys_keep_well_formed, law_start_is_well_formed, law_ticks_keep_well_formed};
use crate::number::{add_of, lemma_units_order, mul_of, neg_of, sub_of, Real};
use crate::order::{
    lemma_decimal, lemma_decimal_integer, lemma_decimal_order, lemma_rounded_exact,
    lemma_rounded_monotone, lemma_signed,
};
use crate::rounding::{
    binade, infinity_key, lemma_magnitude_increases, lemma_magnitude_scaled, lemma_nearest_exists,
    magnitude, nearest,
};
use crate::shapes::{
    damps, law_eval_stays_within_the_amplitude, law_exponents_are_defined, lemma_row,
    lemma_surface_bounded,
};
use crate::surface::{eps, eval_of, exponent_of, slope_of, surface_of, Gaussian};

verus! {

/// `f` behaves as the cosine and the sine do: it lies between -1 and 1.
pub open spec fn swings(f: spec_fn(Real) -> Real) -> bool {
    forall|v: Real| v.is_finite() ==> bounded(#[trigger] f(v), 1)
}

/// The game is well formed, and all that moves is a number: the ball lies on
/// the course, its velocity is bounded, and the aim is finite.
pub open spec fn sound(g: Game) -> bool {
    &&& g.wf()
    &&& !g.ball_x.is_nan() && !g.ball_y.is_nan()
    &&& bounded(g.vel_x, 8192) && bounded(g.vel_y, 8192)
    &&& g.aim_angle.is_finite()
    &&& forall|i: int|
        0 <= i < g.trail.len() ==> !(#[trigger] g.trail[i]).0.is_nan() && !g.trail[i].1.is_nan()
}

/// A decimal of at most `m / 2^j`.
proof fn lemma_fraction(n: int, d: int, m: int, j: nat)
    requires
        0 <= n <= 0x8000_0000,
        0 <= m <= 0x8000_0000,
        d > 0,
        j <= 1000,
        n * pow2(j) <= m * d,
    ensures
        decimal(n, d).is_finite(),
        0 <= decimal(n, d).units(),
        size(decimal(n, d).units()) * pow2(j) <= m * one_units(),
{
    let u = pow2((1074 - j) as nat) as int;
    let v = decimal(n, d).units();
    lemma_pow2_pos(j);
    lemma_decimal(n, d);
    lemma_decimal_order(n, d, m, pow2(j) as int);
    lemma_dyadic_value(m, j);
    lemma_pow2_adds((1074 - j) as nat, j);
    assert(v * pow2(j) <= m * one_units()) by (nonlinear_arith)
        requires
            v <= m * u,
            one_units() == u * pow2(j),
            pow2(j) > 0,
    ;
}

/// A product is at least any number that the exact product is at least.
pub(crate) proof fn lemma_mul_at_least(a: Real, b: Real, c: Real)
    requires
        a.is_finite(),
        b.is_finite(),
        !c.is_nan(),
        c.units() * one_units() <= a.units() * b.units(),
    ensures
        c.units() <= mul_of(a, b).units(),
{
    lemma_one_units();
    lemma_mul_value(a, b);
    lemma_rounded_exact(c, false);
    lemma_rounded_monotone(c.units(), 1, false, a.units() * b.units(), one_units(), false);
}

/// Near the course, the exponent of every hill is defined.
proof fn lemma_exponent_defined(i: int, c: Gaussian, x: Real, y: Real)
    requires
        0 <= i < before_table().len(),
        shaped_from(c, before_table()[i]),
        bounded(x, 11),
        bounded(y, 11),
    ensures
        !exponent_of(c, x, y).is_nan(),
{
    let p = one_units();
    let two = decimal(2, 1);
    let half = decimal(1, 2);
    let r = lemma_row(i);
    lemma_one_units();
    lemma2_to64();
    lemma_pow2_unfold(1074);
    lemma_decimal_bounded(r.cx, 100, 10);
    lemma_decimal_bounded(r.cy, 100, 10);
    lemma_bounded_finite(c.cx, 10);
    lemma_bounded_finite(c.cy, 10);
    lemma_bounded_finite(x, 11);
    lemma_bounded_finite(y, 11);
    // Twice the width is at least one, and times the width at least a half.
    lemma_decimal_order(1, 2, r.sigma.0, 100);
    lemma_dyadic_value(1, 1);
    lemma_decimal_integer(2);
    lemma_decimal_integer(1);
    lemma_bounded_finite(c.sigma, 8);
    let s = c.sigma.units();
    assert((1 * p) * p <= (2 * p) * s) by (nonlinear_arith)
        requires
            2 * s >= p,
            p > 0,
    ;
    lemma_mul_at_least(two, c.sigma, decimal(1, 1));
    let w = mul_of(two, c.sigma);
    lemma_decimal_bounded(2, 1, 2);
    lemma_mul_bounded(two, c.sigma, 2, 8, 1, 16);
    lemma_bounded_finite(w, 16);
    assert(half.units() * p <= w.units() * s) by (nonlinear_arith)
        requires
            2 * half.units() == p,
            w.units() >= p,
            2 * s >= p,
            p > 0,
    ;
    lemma_mul_at_least(w, c.sigma, half);
    let v = mul_of(w, c.sigma);
    lemma_mul_bounded(w, c.sigma, 16, 8, 1, 128);
    lemma_bounded_finite(v, 128);
    assert(magnitude(0) == 0);
    law_exponents_are_defined(c, x, y);
}

/// Near the course, the surface lies within bounds.
pub(crate) proof fn lemma_height_bounded(g: Game, x: Real, y: Real, f: spec_fn(Real) -> Real)
    requires
        g.wf(),
        damps(f),
        bounded(x, 11),
        bounded(y, 11),
    ensures
        bounded(surface_of(x, y, g.current, f), 352),
{
    assert(before_table().len() == 11);
    assert forall|i: int| 0 <= i < g.current.len() implies bounded(
        eval_of(#[trigger] g.current[i], x, y, f),
        32,
    ) by {
        let c = g.current[i];
        lemma_exponent_defined(i, c, x, y);
        lemma_bounded_finite(c.amplitude, 32);
        law_eval_stays_within_the_amplitude(c, x, y, f);
    }
    lemma_surface_bounded(x, y, g.current, f, 32);
}

/// Two heights within bounds give a slope within bounds.
proof fn lemma_slope_bounded(ahead: Real, behind: Real)
    requires
        bounded(ahead, 352),
        bounded(behind, 352),
    ensures
        bounded(slope_of(ahead, behind), 11264),
{
    let p = one_units();
    let two = decimal(2, 1);
    let w = mul_of(two, eps());
    let c = decimal(1, 16);
    lemma_one_units();
    lemma2_to64();
    lemma_sub_bounded(ahead, behind, 352, 352);
    lemma_decimal_integer(2);
    lemma_decimal(EPS_HUNDREDTHS as int, 100);
    lemma_decimal_order(1, 32, EPS_HUNDREDTHS as int, 100);
    lemma_dyadic_value(1, 5);
    lemma_dyadic_value(1, 4);
    lemma_pow2_adds(5, 1069);
    lemma_pow2_adds(4, 1070);
    let e = eps().units();
    assert(c.units() * p <= (2 * p) * e) by (nonlinear_arith)
        requires
            16 * c.units() == p,
            32 * e >= p,
            p > 0,
    ;
    lemma_mul_at_least(two, eps(), c);
    lemma_decimal_bounded(2, 1, 2);
    lemma_decimal_bounded(EPS_HUNDREDTHS as int, 100, 1);
    lemma_mul_bounded(two, eps(), 2, 1, 1, 2);
    lemma_bounded_finite(w, 2);
    lemma_div_bounded(sub_of(ahead, behind), w, 704, 16);
}

/// A coordinate on the course.
pub(crate) proof fn lemma_on_course_bounded(v: Real)
    requires
        on_course(v),
        !v.is_nan(),
    ensures
        bounded(v, 10),
{
    lemma_decimal(1, 10);
    lemma_decimal_order(99, 10, 10, 1);
    lemma_decimal_integer(10);
}

/// A tick leaves a velocity within bounds.
pub(crate) proof fn lemma_velocity_bounded(v: Real, slope: Real)
    requires
        bounded(v, 8192),
        bounded(slope, 11264),
    ensures
        bounded(velocity_after(v, slope), 8192),
{
    let damping = decimal(DAMPING_HUNDREDTHS as int, 100);
    let gravity = decimal(GRAVITY_TENTHS as int, 10);
    let dt = decimal(DT_HUNDREDTHS as int, 100);
    lemma2_to64();
    lemma_fraction(DAMPING_HUNDREDTHS as int, 100, 15, 4);
    lemma_fraction(GRAVITY_TENTHS as int, 10, 1, 1);
    lemma_fraction(DT_HUNDREDTHS as int, 100, 1, 4);
    lemma_mul_bounded(v, damping, 8192, 15, 16, 7680);
    lemma_mul_bounded(slope, gravity, 11264, 1, 2, 5632);
    lemma_mul_bounded(mul_of(slope, gravity), dt, 5632, 1, 16, 352);
    lemma_sub_bounded(mul_of(v, damping), mul_of(mul_of(slope, gravity), dt), 7680, 352);
    lemma_bounded_weaken(velocity_after(v, slope), 8032, 8192);
}

/// A tick leaves a coordinate a number.
proof fn lemma_position_defined(p: Real, v: Real)
    requires
        on_course(p),
        !p.is_nan(),
        bounded(v, 8192),
    ensures
        !position_after(p, v).is_nan(),
{
    let dt = decimal(DT_HUNDREDTHS as int, 100);
    lemma2_to64();
    lemma_fraction(DT_HUNDREDTHS as int, 100, 1, 4);
    lemma_mul_bounded(v, dt, 8192, 1, 16, 512);
    lemma_on_course_bounded(p);
    lemma_add_bounded(p, mul_of(v, dt), 10, 512);
    lemma_decimal_order(1, 10, 99, 10);
}

/// The slope under a ball on the course is a number.
pub(crate) proof fn lemma_slope_under_ball(g: Game, f: spec_fn(Real) -> Real)
    requires
        sound(g),
        damps(f),
    ensures
        bounded(slope_under_ball(g, f).0, 11264),
        bounded(slope_under_ball(g, f).1, 11264),
{
    let x = g.ball_x;
    let y = g.ball_y;
    lemma_on_course_bounded(x);
    lemma_on_course_bounded(y);
    lemma_decimal_bounded(EPS_HUNDREDTHS as int, 100, 1);
    lemma_add_bounded(x, eps(), 10, 1);
    lemma_sub_bounded(x, eps(), 10, 1);
    lemma_add_bounded(y, eps(), 10, 1);
    lemma_sub_bounded(y, eps(), 10, 1);
    lemma_bounded_weaken(x, 10, 11);
    lemma_bounded_weaken(y, 10, 11);
    lemma_height_bounded(g, add_of(x, eps()), y, f);
    lemma_height_bounded(g, sub_of(x, eps()), y, f);
    lemma_height_bounded(g, x, add_of(y, eps()), f);
    lemma_height_bounded(g, x, sub_of(y, eps()), f);
    lemma_slope_bounded(
        surface_of(add_of(x, eps()), y, g.current, f),
        surface_of(sub_of(x, eps()), y, g.current, f),
    );
    lemma_slope_bounded(
        surface_of(x, add_of(y, eps()), g.current, f),
        surface_of(x, sub_of(y, eps()), g.current, f),
    );
}

/// A small change of a finite number leaves it finite.
proof fn lemma_nudged(a: Real, b: Real)
    requires
        a.is_finite(),
        bounded(b, 1),
    ensures
        add_of(a, b).is_finite(),
{
    let p = one_units();
    let n = a.units() + b.units();
    let k = nearest(size(n), 1);
    let top = infinity_key();
    let u = pow2(2045) as int;
    lemma_one_units();
    lemma_bounded_finite(b, 1);
    lemma_pow2_strictly_increases(1075, 2045);
    lemma_pow2_unfold(1075);
    lemma_magnitude_scaled(2045, 2 * binade() - 1);
    lemma_magnitude_scaled(2045, 2 * binade());
    assert(magnitude(top) - magnitude(top - 1) == u) by (nonlinear_arith)
        requires
            magnitude(top) == (2 * binade()) * u,
            magnitude(top - 1) == (2 * binade() - 1) * u,
    ;
    if a.key() < top - 1 {
        lemma_magnitude_increases(a.key(), top - 1);
    }
    lemma_units_order(a, b);
    lemma_nearest_exists(size(n), 1);
    assert(k < top);
    lemma_signed(n < 0, k);
    lemma_signed(a.negative() && b.negative(), 0);
}

/// A game starts with all that moves a number.
pub proof fn law_start_is_sound()
    ensures
        sound(start()),
{
    law_start_is_well_formed();
    lemma_decimal_bounded(0, 1, 8192);
    lemma_decimal(15, 10);
}

/// Keys leave all that moves a number, where the aim is given by numbers
/// between -1 and 1.
pub proof fn law_keys_keep_sound(g: Game, code: KeyCode, direction: (Real, Real))
    requires
        sound(g),
        bounded(direction.0, 1),
        bounded(direction.1, 1),
    ensures
        sound(key_handled(g, code, direction)),
{
    let turn = decimal(AIM_STEP_HUNDREDTHS as int, 100);
    law_keys_keep_well_formed(g, code, direction);
    lemma_decimal_bounded(0, 1, 8192);
    lemma_decimal(15, 10);
    lemma_decimal_bounded(AIM_STEP_HUNDREDTHS as int, 100, 1);
    lemma_neg_bounded(turn, 1);
    lemma_nudged(g.aim_angle, turn);
    lemma_nudged(g.aim_angle, neg_of(turn));
    lemma_decimal(5, 10);
    lemma_decimal_order(60, 10, 6, 1);
    lemma_decimal_integer(6);
    lemma_decimal_order(5, 10, 60, 10);
    assert(bounded(g.putt_power, 6));
    lemma_bounded_finite(g.putt_power, 6);
    lemma_mul_bounded(direction.0, g.putt_power, 1, 6, 1, 6);
    lemma_mul_bounded(direction.1, g.putt_power, 1, 6, 1, 6);
    lemma_bounded_weaken(mul_of(direction.0, g.putt_power), 6, 8192);
    lemma_bounded_weaken(mul_of(direction.1, g.putt_power), 6, 8192);
}

/// Ticks leave all that moves a number, where the exponential keeps to its
/// range: the ball never gets lost.
pub proof fn law_ticks_keep_sound(g: Game, f: spec_fn(Real) -> Real)
    requires
        sound(g),
        damps(f),
    ensures
        sound(update_of(g, f)),
{
    let slope = slope_under_ball(g, f);
    law_ticks_keep_well_formed(g, slope.0, slope.1);
    if g.state == GameState::Rolling {
        let m = moved(g, slope.0, slope.1);
        let r = rolled(g, slope.0, slope.1);
        lemma_slope_under_ball(g, f);
        lemma_velocity_bounded(g.vel_x, slope.0);
        lemma_velocity_bounded(g.vel_y, slope.1);
        lemma_position_defined(g.ball_x, m.vel_x);
        lemma_position_defined(g.ball_y, m.vel_y);
        assert forall|i: int| 0 <= i < r.trail.len() implies !(#[trigger] r.trail[i]).0.is_nan()
            && !r.trail[i].1.is_nan() by {
            let longer = g.trail.push((m.ball_x, m.ball_y));
            let j = i + longer.len() - r.trail.len();
            assert(r.trail[i] == longer[j]);
            if j < g.trail.len() {
                assert(longer[j] == g.trail[j]);
            }
        }
    }
}

/// A round leaves all that moves a number.
pub proof fn law_rounds_keep_sound(
    g: Game,
    event: Option<Event>,
    c: spec_fn(Real) -> Real,
    s: spec_fn(Real) -> Real,
    f: spec_fn(Real) -> Real,
)
    requires
        sound(g),
        swings(c),
        swings(s),
        damps(f),
    ensures
        sound(stepped(g, event, c, s, f)),
{
    let d = direction_of(g, c, s);
    assert(bounded(c(g.aim_angle), 1) && bounded(s(g.aim_angle), 1));
    if let Some(code) = pressed(event) {
        law_keys_keep_sound(g, code, d);
    }
    law_ticks_keep_sound(event_handled(g, event, d), f);
}

/// What may happen next in a game.
pub enum Move {
    Key(KeyCode),
    Tick,
}

/// The game after a move, where `c`, `s` and `f` are the cosine, the sine and
/// the exponential.
pub open spec fn advanced(
    g: Game,
    next: Move,
    c: spec_fn(Real) -> Real,
    s: spec_fn(Real) -> Real,
    f: spec_fn(Real) -> Real,
) -> Game {
    match next {
        Move::Key(code) => key_handled(g, code, direction_of(g, c, s)),
        Move::Tick => update_of(g, f),
    }
}

/// The game after all moves given, in order.
pub open spec fn played(
    g: Game,
    moves: Seq<Move>,
    c: spec_fn(Real) -> Real,
    s: spec_fn(Real) -> Real,
    f: spec_fn(Real) -> Real,
) -> Game
    decreases moves.len(),
{
    if moves.len() == 0 {
        g
    } else {
        advanced(played(g, moves.drop_last(), c, s, f), moves.last(), c, s, f)
    }
}

/// However a game is played, the ball stays on the course, its velocity stays
/// a number, and the game stays well formed.
pub proof fn law_every_game_stays_sound(
    moves: Seq<Move>,
    c: spec_fn(Real) -> Real,
    s: spec_fn(Real) -> Real,
    f: spec_fn(Real) -> Real,
)
    requires
        swings(c),
        swings(s),
        damps(f),
    ensures
        sound(played(start(), moves, c, s, f)),
        ({
            let g = played(start(), moves, c, s, f);
            &&& within(g.ball_x, decimal(1, 10), decimal(99, 10))
            &&& within(g.ball_y, decimal(1, 10), decimal(99, 10))
        }),
    decreases moves.len(),
{
    if moves.len() == 0 {
        law_start_is_sound();
    } else {
        let g = played(start(), moves.drop_last(), c, s, f);
        law_every_game_stays_sound(moves.drop_last(), c, s, f);
        match moves.last() {
            Move::Key(code) => {
                assert(bounded(c(g.aim_angle), 1) && bounded(s(g.aim_angle), 1));
                law_keys_keep_sound(g, code, direction_of(g, c, s));
            },
            Move::Tick => {
                law_ticks_keep_sound(g, f);
            },
        }
    }
}

/// However a game is played, and whatever the cosine, the sine and the
/// exponential give, it stays well formed.
pub proof fn law_every_game_stays_well_formed(
    moves: Seq<Move>,
    c: spec_fn(Real) -> Real,
    s: spec_fn(Real) -> Real,
    f: spec_fn(Real) -> Real,
)
    ensures
        played(start(), moves, c, s, f).wf(),
    decreases moves.len(),
{
    if moves.len() == 0 {
        law_start_is_well_formed();
    } else {
        let g = played(start(), moves.drop_last(), c, s, f);
        law_every_game_stays_well_formed(moves.drop_last(), c, s, f);
        match moves.last() {
            Move::Key(code) => {
                law_keys_keep_well_formed(g, code, direction_of(g, c, s));
            },
            Move::Tick => {
                let slope = slope_under_ball(g, f);
                law_ticks_keep_well_formed(g, slope.0, slope.1);
            },
        }
    }
}

/// A turn one way and back restores the aim, but for rounding: an angle that
/// stays within `2^j` units is off by at most `2^(j - 52)` units, and nothing
/// else has changed.
pub proof fn law_turning_back_restores_the_aim(g: Game, direction: (Real, Real), j: nat)
    requires
        g.state == GameState::Aiming,
        g.aim_angle.is_finite(),
        53 <= j <= 2096,
        size(g.aim_angle.units()) + decimal(AIM_STEP_HUNDREDTHS as int, 100).units() <= pow2(j),
    ensures
        ({
            let left = key_handled(g, KeyCode::Left, direction);
            let right = key_handled(g, KeyCode::Right, direction);
            let back = key_handled(left, KeyCode::Right, direction);
            let forth = key_handled(right, KeyCode::Left, direction);
            &&& back == (Game { aim_angle: back.aim_angle, ..g })
            &&& forth == (Game { aim_angle: forth.aim_angle, ..g })
            &&& size(back.aim_angle.units() - g.aim_angle.units()) <= pow2((j - 52) as nat)
            &&& size(forth.aim_angle.units() - g.aim_angle.units()) <= pow2((j - 52) as nat)
        }),
{
    let turn = decimal(AIM_STEP_HUNDREDTHS as int, 100);
    lemma_decimal(AIM_STEP_HUNDREDTHS as int, 100);
    assert(neg_of(turn).is_finite() && neg_of(turn).units() == -turn.units());
    lemma_there_and_back(g.aim_angle, turn, neg_of(turn), j);
    lemma_there_and_back(g.aim_angle, neg_of(turn), turn, j);
}

/// Adding a number and then its opposite.
proof fn lemma_there_and_back(a: Real, b: Real, c: Real, j: nat)
    requires
        a.is_finite(),
        b.is_finite(),
        c.is_finite(),
        c.units() == -b.units(),
        53 <= j <= 2096,
        size(a.units()) + size(b.units()) <= pow2(j),
    ensures
        size(add_of(add_of(a, b), c).units() - a.units()) <= pow2((j - 52) as nat),
{
    lemma_pow2_unfold(j + 1);
    lemma_pow2_unfold((j - 52) as nat);
    lemma_add_error(a, b, j);
    lemma_add_error(add_of(a, b), c, j + 1);
}

} // verus!
