//! What each key does.

use vstd::arithmetic::power2::{lemma2_to64, lemma_pow2_unfold, pow2};
use vstd::prelude::*;

use crate::bounds::{
    bounded, lemma_bounded_finite, lemma_decimal_bounded, lemma_mul_bounded, lemma_one_units,
    lemma_times_one, one_units, size,
};
use crate::convert::decimal;
use crate::game::{
    counts, direction_of, event_handled, has_room_of, key_handled, may_lie_under_ball, may_step_to,
    may_update_to, points_along, rolled, start, stepped, update_of, Event, Game, GameState, KeyCode,
    KeyEventKind,
};
use crate::landscape::after_table;
use crate::laws::{
    agree, law_keys_keep_well_formed, law_reshaping_takes_sixty_ticks, lemma_zero, ticked,
};
use crate::nearness::{
    about, lemma_decimal_off, lemma_difference_off, lemma_mote, lemma_product_off, lemma_sum_off,
    mote,
};
use crate::number::{le_of, lemma_units_order, lt_of, mul_of, Real};
use crate::order::{law_mul_commutes, law_mul_keeps_order, lemma_decimal_order, lemma_dyadic};
use crate::rounding::magnitude;
use crate::shapes::lemma_mul_zero;
use crate::surface::{computes, law_a_function_gives_one_slope};

verus! {

/// `v` is the number `n / d`.
pub open spec fn is_exactly(v: Real, n: int, d: int) -> bool {
    v.is_finite() && v.units() * d == n * one_units()
}

/// The smaller of two integers.
pub open spec fn least_of(a: int, b: int) -> int {
    if a <= b {
        a
    } else {
        b
    }
}

/// The larger of two integers.
pub open spec fn most_of(a: int, b: int) -> int {
    if a >= b {
        a
    } else {
        b
    }
}

// ---- Reshaping ----

/// `r`, in either case, begins to reshape the landscape, whether the ball
/// waits for a putt, rolls or is stuck: the change stands at its beginning, and
/// nothing but the change is touched.
pub proof fn law_r_begins_the_change(g: Game, c: char, direction: (Real, Real))
    requires
        c == 'r' || c == 'R',
        g.state == GameState::Stuck || g.state == GameState::Aiming || g.state
            == GameState::Rolling,
    ensures
        ({
            let h = key_handled(g, KeyCode::Char(c), direction);
            &&& h.state == GameState::Reshaping
            &&& h.prev_state == g.state
            &&& is_exactly(h.morph_t, 0, 1) && !h.morph_t.negative()
            &&& h.reshaped
            &&& h.before == g.before && h.after == g.after && h.current == g.current
            &&& h.ball_x == g.ball_x && h.ball_y == g.ball_y
            &&& h.vel_x == g.vel_x && h.vel_y == g.vel_y
            &&& h.stuck_counter == g.stuck_counter && h.trail == g.trail
            &&& h.aim_angle == g.aim_angle && h.putt_power == g.putt_power
            &&& h.hole_x == g.hole_x && h.hole_y == g.hole_y && h.hole_radius == g.hole_radius
            &&& h.putt_count == g.putt_count && h.should_quit == g.should_quit
        }),
{
    lemma_zero();
    assert(magnitude(0) == 0);
}

/// After `r` and sixty ticks or more, the landscape is the one after the
/// change, to twelve decimal places, and the game is back to aiming, wherever
/// it stood before.
pub proof fn law_r_leads_to_the_other_landscape(
    g: Game,
    c: char,
    direction: (Real, Real),
    slopes: Seq<(Real, Real)>,
)
    requires
        g.wf(),
        c == 'r' || c == 'R',
        g.state == GameState::Stuck || g.state == GameState::Aiming || g.state
            == GameState::Rolling,
        slopes.len() >= 60,
    ensures
        ({
            let h = ticked(key_handled(g, KeyCode::Char(c), direction), slopes);
            &&& h.state == GameState::Aiming
            &&& h.reshaped
            &&& h.current.len() == 11
            &&& forall|i: int|
                0 <= i < 11 ==> {
                    let a = after_table()[i];
                    &&& (#[trigger] h.current[i]).cx == a.cx && h.current[i].cy == a.cy
                    &&& agree(h.current[i].amplitude, a.amplitude)
                    &&& agree(h.current[i].sigma, a.sigma)
                }
        }),
{
    let k = key_handled(g, KeyCode::Char(c), direction);
    law_r_begins_the_change(g, c, direction);
    law_keys_keep_well_formed(g, KeyCode::Char(c), direction);
    lemma_zero();
    law_reshaping_takes_sixty_ticks(k, slopes);
    lemma_ticks_keep_the_record(k, slopes);
}

proof fn lemma_ticks_keep_the_record(g: Game, slopes: Seq<(Real, Real)>)
    ensures
        ticked(g, slopes).reshaped == g.reshaped,
    decreases slopes.len(),
{
    if slopes.len() > 0 {
        lemma_ticks_keep_the_record(g, slopes.drop_last());
    }
}

// ---- The reset ----

/// Enter puts a ball that is stuck, or in the hole, back on the tee at
/// (1.5, 1.5): it lies still, its trail and its count of slow ticks are gone,
/// and the next putt can be aimed. Nothing else is touched.
pub proof fn law_enter_puts_the_ball_back(g: Game, direction: (Real, Real))
    requires
        g.state == GameState::Stuck || g.state == GameState::InHole,
    ensures
        ({
            let h = key_handled(g, KeyCode::Enter, direction);
            &&& h.state == GameState::Aiming
            &&& is_exactly(h.ball_x, 3, 2) && is_exactly(h.ball_y, 3, 2)
            &&& is_exactly(h.vel_x, 0, 1) && is_exactly(h.vel_y, 0, 1)
            &&& h.stuck_counter == 0
            &&& h.trail.len() == 0
            &&& h.prev_state == g.prev_state && h.morph_t == g.morph_t && h.reshaped == g.reshaped
            &&& h.before == g.before && h.after == g.after && h.current == g.current
            &&& h.aim_angle == g.aim_angle && h.putt_power == g.putt_power
            &&& h.hole_x == g.hole_x && h.hole_y == g.hole_y && h.hole_radius == g.hole_radius
            &&& h.putt_count == g.putt_count && h.should_quit == g.should_quit
        }),
{
    lemma_zero();
    assert(magnitude(0) == 0);
    lemma_tee();
}

/// The tee is at one and a half, exactly.
pub(crate) proof fn lemma_tee()
    ensures
        is_exactly(decimal(15, 10), 3, 2),
{
    let p = one_units();
    lemma_halves(15, 10, 3);
}

/// A decimal that is a multiple of a half is that multiple.
pub(crate) proof fn lemma_halves(n: int, d: int, h: int)
    requires
        0 <= h <= 0x8000,
        d > 0,
        2 * n == h * d,
    ensures
        is_exactly(decimal(n, d), h, 2),
        decimal(n, d).units() * 2 == h * one_units(),
{
    lemma2_to64();
    lemma_pow2_unfold(1074);
    lemma_decimal_order(n, d, h, 2);
    lemma_decimal_order(h, 2, n, d);
    lemma_dyadic(h, 1);
    let u = pow2(1073) as int;
    assert((h * u) * 2 == h * (2 * u)) by (nonlinear_arith);
    assert(n <= 0x8000 * d && n >= 0) by (nonlinear_arith)
        requires
            2 * n == h * d,
            0 <= h <= 0x8000,
            d > 0,
    ;
    lemma_decimal_bounded(n, d, 0x8000);
    lemma_bounded_finite(decimal(n, d), 0x8000);
}

// ---- The putt ----

/// Space sends off a ball that waits: each component of its velocity is the
/// exact product of that of the direction and the power, but for rounding. The
/// putt is counted, the old trail is gone, and nothing else is touched.
pub proof fn law_space_putts_with_the_power(g: Game, direction: (Real, Real))
    requires
        g.state == GameState::Aiming,
        g.putt_count < u32::MAX,
        bounded(direction.0, 1),
        bounded(direction.1, 1),
        bounded(g.putt_power, 16384),
    ensures
        ({
            let h = key_handled(g, KeyCode::Char(' '), direction);
            let p = g.putt_power.units();
            &&& about(h.vel_x, direction.0.units() * p, one_units())
            &&& about(h.vel_y, direction.1.units() * p, one_units())
        }),
{
    lemma_about_product(direction.0, g.putt_power);
    lemma_about_product(direction.1, g.putt_power);
}

/// What a putt touches, whatever the direction and the power.
pub proof fn law_space_putts(g: Game, direction: (Real, Real))
    requires
        g.state == GameState::Aiming,
        g.putt_count < u32::MAX,
    ensures
        ({
            let h = key_handled(g, KeyCode::Char(' '), direction);
            &&& h.state == GameState::Rolling
            &&& h.putt_count == g.putt_count + 1
            &&& h.trail.len() == 0
            &&& h.ball_x == g.ball_x && h.ball_y == g.ball_y
            &&& h.stuck_counter == g.stuck_counter
            &&& h.prev_state == g.prev_state && h.morph_t == g.morph_t && h.reshaped == g.reshaped
            &&& h.before == g.before && h.after == g.after && h.current == g.current
            &&& h.aim_angle == g.aim_angle && h.putt_power == g.putt_power
            &&& h.hole_x == g.hole_x && h.hole_y == g.hole_y && h.hole_radius == g.hole_radius
            &&& h.should_quit == g.should_quit
        }),
{
}

proof fn lemma_about_product(a: Real, b: Real)
    requires
        bounded(a, 1),
        bounded(b, 16384),
    ensures
        about(mul_of(a, b), a.units() * b.units(), one_units()),
{
    let p = one_units();
    let u = mote();
    lemma_one_units();
    lemma_mote();
    lemma_product_off(a, b, 1, 16384);
    lemma_bounded_finite(b, 16384);
    assert(1 * (16384 * p) == 16384 * p);
    lemma_mul_bounded(a, b, 1, 16384, 1, 16384);
    lemma_bounded_finite(mul_of(a, b), 16384);
    let x = size(mul_of(a, b).units() * p - a.units() * b.units());
    assert(1_000_000_000 * x <= p * p) by (nonlinear_arith)
        requires
            x <= 0x4_0000_0000 * (u * p),
            p == 0x400_0000_0000_0000_0000 * u,
            u > 0,
    ;
}

/// A putt along the x-axis goes off exactly as fast as the power says, so that
/// no two powers give the same putt; and likewise along the y-axis.
pub proof fn law_the_power_is_the_speed(g: Game, direction: (Real, Real))
    requires
        g.state == GameState::Aiming,
        g.putt_power.is_finite(),
    ensures
        ({
            let h = key_handled(g, KeyCode::Char(' '), direction);
            &&& direction.0 == decimal(1, 1) ==> h.vel_x == g.putt_power
            &&& direction.1 == decimal(1, 1) ==> h.vel_y == g.putt_power
            &&& direction.0.is_zero() ==> h.vel_x.is_zero()
            &&& direction.1.is_zero() ==> h.vel_y.is_zero()
        }),
{
    lemma_times_one(g.putt_power);
    law_mul_commutes(decimal(1, 1), g.putt_power);
    if direction.0.is_zero() {
        lemma_mul_zero(direction.0, g.putt_power);
    }
    if direction.1.is_zero() {
        lemma_mul_zero(direction.1, g.putt_power);
    }
}

/// Of two putts in the same direction, the one with more power is nowhere
/// slower.
pub proof fn law_more_power_is_faster(g: Game, h: Game, direction: (Real, Real))
    requires
        g.state == GameState::Aiming,
        h.state == GameState::Aiming,
        le_of(g.putt_power, h.putt_power),
        direction.0.is_finite() && !direction.0.negative() && !direction.0.is_zero(),
    ensures
        le_of(
            key_handled(g, KeyCode::Char(' '), direction).vel_x,
            key_handled(h, KeyCode::Char(' '), direction).vel_x,
        ),
{
    law_mul_keeps_order(g.putt_power, h.putt_power, direction.0);
    law_mul_commutes(g.putt_power, direction.0);
    law_mul_commutes(h.putt_power, direction.0);
}

// ---- The other keys ----

/// `s`, in either case, stops a rolling ball where it is.
pub proof fn law_s_stops_the_ball(g: Game, c: char, direction: (Real, Real))
    requires
        c == 's' || c == 'S',
        g.state == GameState::Rolling,
    ensures
        ({
            let h = key_handled(g, KeyCode::Char(c), direction);
            &&& h.state == GameState::Aiming
            &&& is_exactly(h.vel_x, 0, 1) && is_exactly(h.vel_y, 0, 1)
            &&& h.ball_x == g.ball_x && h.ball_y == g.ball_y
            &&& h.stuck_counter == g.stuck_counter && h.trail == g.trail
            &&& h.prev_state == g.prev_state && h.morph_t == g.morph_t && h.reshaped == g.reshaped
            &&& h.before == g.before && h.after == g.after && h.current == g.current
            &&& h.aim_angle == g.aim_angle && h.putt_power == g.putt_power
            &&& h.hole_x == g.hole_x && h.hole_y == g.hole_y && h.hole_radius == g.hole_radius
            &&& h.putt_count == g.putt_count && h.should_quit == g.should_quit
        }),
{
    lemma_zero();
    assert(magnitude(0) == 0);
}

/// `h` is `g` but for the aim.
pub open spec fn same_but_aim(g: Game, h: Game) -> bool {
    &&& h.state == g.state && h.prev_state == g.prev_state
    &&& h.before == g.before && h.after == g.after && h.current == g.current
    &&& h.morph_t == g.morph_t && h.reshaped == g.reshaped
    &&& h.ball_x == g.ball_x && h.ball_y == g.ball_y
    &&& h.vel_x == g.vel_x && h.vel_y == g.vel_y
    &&& h.stuck_counter == g.stuck_counter && h.trail == g.trail
    &&& h.hole_x == g.hole_x && h.hole_y == g.hole_y && h.hole_radius == g.hole_radius
    &&& h.putt_count == g.putt_count && h.should_quit == g.should_quit
}

/// The left arrow turns the aim by 0.08 one way, the right arrow by as much
/// the other way, and neither touches anything else.
pub proof fn law_arrows_turn_the_aim(g: Game, direction: (Real, Real))
    requires
        g.state == GameState::Aiming,
        bounded(g.aim_angle, 16000),
    ensures
        ({
            let left = key_handled(g, KeyCode::Left, direction);
            let right = key_handled(g, KeyCode::Right, direction);
            let a = g.aim_angle.units();
            &&& about(left.aim_angle, 100 * a - 8 * one_units(), 100)
            &&& about(right.aim_angle, 100 * a + 8 * one_units(), 100)
            &&& lt_of(left.aim_angle, g.aim_angle)
            &&& lt_of(g.aim_angle, right.aim_angle)
        }),
{
    let turn = decimal(8, 100);
    lemma_one_units();
    lemma_mote();
    lemma_decimal_off(8, 100);
    lemma_decimal_bounded(8, 100, 1);
    lemma_sum_off(g.aim_angle, turn, 16000, 1);
    lemma_difference_off(g.aim_angle, turn, 16000, 1);
}

/// The arrows to the sides touch nothing but the angle, and those up and down
/// nothing but the power.
pub proof fn law_arrows_only_aim(g: Game, direction: (Real, Real))
    requires
        g.state == GameState::Aiming,
    ensures
        ({
            let left = key_handled(g, KeyCode::Left, direction);
            let right = key_handled(g, KeyCode::Right, direction);
            let up = key_handled(g, KeyCode::Up, direction);
            let down = key_handled(g, KeyCode::Down, direction);
            &&& same_but_aim(g, left) && left.putt_power == g.putt_power
            &&& same_but_aim(g, right) && right.putt_power == g.putt_power
            &&& same_but_aim(g, up) && up.aim_angle == g.aim_angle
            &&& same_but_aim(g, down) && down.aim_angle == g.aim_angle
        }),
{
}

/// The up arrow adds 0.3 to the power, up to 6; the down arrow takes 0.3 from
/// it, down to 0.5.
pub proof fn law_arrows_set_the_power(g: Game, direction: (Real, Real))
    requires
        g.state == GameState::Aiming,
        bounded(g.putt_power, 16000),
    ensures
        ({
            let up = key_handled(g, KeyCode::Up, direction);
            let down = key_handled(g, KeyCode::Down, direction);
            let p = g.putt_power.units();
            &&& about(up.putt_power, least_of(10 * p + 3 * one_units(), 60 * one_units()), 10)
            &&& about(down.putt_power, most_of(10 * p - 3 * one_units(), 5 * one_units()), 10)
        }),
{
    let push = decimal(3, 10);
    lemma_one_units();
    lemma_mote();
    lemma_decimal_off(3, 10);
    lemma_decimal_bounded(3, 10, 1);
    lemma_halves(5, 10, 1);
    lemma_halves(60, 10, 12);
    lemma_sum_off(g.putt_power, push, 16000, 1);
    lemma_difference_off(g.putt_power, push, 16000, 1);
    lemma_units_order(g.putt_power, push);
}

/// `q`, in either case and in every state, ends the game and does nothing else.
pub proof fn law_q_only_quits(g: Game, c: char, direction: (Real, Real))
    requires
        c == 'q' || c == 'Q',
    ensures
        ({
            let h = key_handled(g, KeyCode::Char(c), direction);
            &&& h.should_quit
            &&& h.state == g.state && h.prev_state == g.prev_state
            &&& h.before == g.before && h.after == g.after && h.current == g.current
            &&& h.morph_t == g.morph_t && h.reshaped == g.reshaped
            &&& h.ball_x == g.ball_x && h.ball_y == g.ball_y
            &&& h.vel_x == g.vel_x && h.vel_y == g.vel_y
            &&& h.stuck_counter == g.stuck_counter && h.trail == g.trail
            &&& h.aim_angle == g.aim_angle && h.putt_power == g.putt_power
            &&& h.hole_x == g.hole_x && h.hole_y == g.hole_y && h.hole_radius == g.hole_radius
            &&& h.putt_count == g.putt_count
        }),
{
}

// ---- Events and rounds ----

/// A press is taken in as its key; a repeat, a release, any other event, and
/// silence are not taken in at all.
pub proof fn law_presses_are_keys(g: Game, code: KeyCode, direction: (Real, Real))
    ensures
        event_handled(g, Some(Event::Key(code, KeyEventKind::Press)), direction) == key_handled(
            g,
            code,
            direction,
        ),
        event_handled(g, Some(Event::Key(code, KeyEventKind::Repeat)), direction) == g,
        event_handled(g, Some(Event::Key(code, KeyEventKind::Release)), direction) == g,
        event_handled(g, Some(Event::Other), direction) == g,
        event_handled(g, None, direction) == g,
{
}

/// A round takes in the key first, along the cosine and the sine of the aim
/// angle, and then ticks.
pub proof fn law_a_round_is_a_key_and_then_a_tick(
    g: Game,
    code: KeyCode,
    c: spec_fn(Real) -> Real,
    s: spec_fn(Real) -> Real,
    f: spec_fn(Real) -> Real,
)
    ensures
        stepped(g, Some(Event::Key(code, KeyEventKind::Press)), c, s, f) == update_of(
            key_handled(g, code, (c(g.aim_angle), s(g.aim_angle))),
            f,
        ),
        stepped(g, Some(Event::Key(code, KeyEventKind::Repeat)), c, s, f) == update_of(g, f),
        stepped(g, Some(Event::Key(code, KeyEventKind::Release)), c, s, f) == update_of(g, f),
        stepped(g, Some(Event::Other), c, s, f) == update_of(g, f),
        stepped(g, None, c, s, f) == update_of(g, f),
{
}

/// The aim is the cosine first, and then the sine, of the angle.
pub proof fn law_the_aim_is_the_cosine_and_the_sine<
    C: Fn(Real) -> Real,
    S: Fn(Real) -> Real,
>(
    cos: C,
    sin: S,
    c: spec_fn(Real) -> Real,
    s: spec_fn(Real) -> Real,
    g: Game,
    d: (Real, Real),
)
    requires
        computes(cos, c),
        computes(sin, s),
        points_along(cos, sin, g.aim_angle, d),
    ensures
        d.0 == c(g.aim_angle) && d.1 == s(g.aim_angle),
        direction_of(g, c, s) == d,
{
}

/// An exponential that is a function gives one tick.
pub proof fn law_a_function_gives_one_tick<E: Fn(Real) -> Real>(
    exp: E,
    f: spec_fn(Real) -> Real,
    g: Game,
    h: Game,
)
    requires
        computes(exp, f),
        may_update_to(exp, g, h),
    ensures
        h == update_of(g, f),
{
    if g.state == GameState::Rolling {
        let slope = choose|slope: (Real, Real)| #[trigger]
            may_lie_under_ball(exp, g, slope) && h == rolled(g, slope.0, slope.1);
        law_a_function_gives_one_slope(exp, f, g.ball_x, g.ball_y, g.current, slope);
    }
}

/// A cosine, a sine and an exponential that are functions give one round.
pub proof fn law_functions_give_one_round<
    C: Fn(Real) -> Real,
    S: Fn(Real) -> Real,
    E: Fn(Real) -> Real,
>(
    cos: C,
    sin: S,
    exp: E,
    c: spec_fn(Real) -> Real,
    s: spec_fn(Real) -> Real,
    f: spec_fn(Real) -> Real,
    g: Game,
    event: Option<Event>,
    h: Game,
)
    requires
        computes(cos, c),
        computes(sin, s),
        computes(exp, f),
        may_step_to(cos, sin, exp, g, event, h),
    ensures
        h == stepped(g, event, c, s, f),
{
    let d = choose|d: (Real, Real)| #[trigger]
        points_along(cos, sin, g.aim_angle, d) && may_update_to(
            exp,
            event_handled(g, event, d),
            h,
        );
    law_the_aim_is_the_cosine_and_the_sine(cos, sin, c, s, g, d);
    law_a_function_gives_one_tick(exp, f, event_handled(g, event, d), h);
}

/// A round has no room only where a full counter would have to count: that of
/// the putts where the round would putt, or that of the slow ticks where the
/// ball would roll. Where it has room, no count is lost.
pub proof fn law_only_full_counters_have_no_room(
    g: Game,
    event: Option<Event>,
    c: spec_fn(Real) -> Real,
    s: spec_fn(Real) -> Real,
    f: spec_fn(Real) -> Real,
)
    ensures
        ({
            let space = event == Some(Event::Key(KeyCode::Char(' '), KeyEventKind::Press));
            let putt = space && g.state == GameState::Aiming;
            let k = event_handled(g, event, direction_of(g, c, s));
            &&& has_room_of(g, event) <==> (putt ==> g.putt_count < u32::MAX) && (k.state
                == GameState::Rolling ==> g.stuck_counter < u32::MAX)
            &&& has_room_of(g, event) ==> stepped(g, event, c, s, f).putt_count == g.putt_count
                + if putt {
                1int
            } else {
                0int
            }
        }),
{
}

/// A tick has room for its count unless the counter is full, and the ball slow
/// and outside the hole.
pub proof fn law_only_a_full_counter_cannot_count(g: Game, slope: (Real, Real))
    requires
        g.state == GameState::Rolling,
    ensures
        g.stuck_counter < u32::MAX ==> counts(g, slope),
        counts(g, slope) ==> {
            let n = rolled(g, slope.0, slope.1).stuck_counter;
            n == 0 || n == g.stuck_counter || n == g.stuck_counter + 1
        },
        g.stuck_counter == u32::MAX && !counts(g, slope) ==> rolled(g, slope.0, slope.1).state
            != GameState::InHole,
{
}

// ---- The start ----

/// A game starts with the ball at rest on the tee at (1.5, 1.5), a power of
/// 2.5, and the hole at (8, 7.5); nothing has been putted or changed.
pub proof fn law_a_game_starts_on_the_tee()
    ensures
        ({
            let g = start();
            &&& g.state == GameState::Aiming && g.prev_state == GameState::Aiming
            &&& is_exactly(g.ball_x, 3, 2) && is_exactly(g.ball_y, 3, 2)
            &&& is_exactly(g.vel_x, 0, 1) && is_exactly(g.vel_y, 0, 1)
            &&& is_exactly(g.putt_power, 5, 2)
            &&& is_exactly(g.hole_x, 16, 2) && is_exactly(g.hole_y, 15, 2)
            &&& about(g.hole_radius, 45 * one_units(), 100)
            &&& is_exactly(g.morph_t, 0, 1)
            &&& g.stuck_counter == 0 && g.putt_count == 0 && g.trail.len() == 0
            &&& !g.reshaped && !g.should_quit
            &&& g.current == g.before
        }),
{
    lemma_zero();
    lemma_mote();
    assert(magnitude(0) == 0);
    lemma_tee();
    lemma_halves(25, 10, 5);
    lemma_halves(80, 10, 16);
    lemma_halves(75, 10, 15);
    lemma_decimal_off(45, 100);
}

} // verus!
