//! What holds of the game as a whole.

use vstd::arithmetic::power2::{
    lemma2_to64, lemma2_to64_rest, lemma_pow2_adds, lemma_pow2_pos, pow2,
};
use vstd::prelude::*;

use crate::bounds::{lemma_bounded_finite, lemma_decimal_bounded, lemma_one_units, one_units, size};
use crate::canvas::labels_printable;
use crate::constants::{MORPH_TICKS, PUTT_POWER_STEP_TENTHS, STUCK_TICKS, TRAIL_LEN};
use crate::convert::decimal;
use crate::fixed::printable;
use crate::game::{
    ball_reset, event_handled, holed, key_handled, morphed, moved, on_course, position_after,
    pressed, putts, rolled, slow, start, updated, Event, Game, GameState, KeyCode,
};
use crate::landscape::{after_table, before_table, blend_of, shaped_from};
use crate::number::{
    add_of, le_of, lemma_units_order, mul_of, neg_of, rounded, signed, sub_of, Real,
};
use crate::order::{
    law_mul_keeps_order, lemma_decimal, lemma_decimal_integer, lemma_decimal_order, lemma_dyadic,
    lemma_mul_one, lemma_representable, lemma_rounded, lemma_rounded_at_least, lemma_rounded_exact,
    lemma_rounded_monotone, lemma_signed,
};
use crate::rounding::{
    binade, infinity_key, lemma_magnitude_increases, lemma_magnitude_scaled, lemma_nearest_exists,
    lemma_nearest_is, magnitude, midpoint2, nearest,
};
use crate::shapes::{law_lerp_ends_at_the_other, lemma_reshaped, lemma_row, lemma_unshaped};

verus! {

/// What is not negative and lies below a finite number is finite.
pub(crate) proof fn lemma_bounded_is_finite(v: Real, high: Real)
    requires
        le_of(v, high),
        high.is_finite(),
        v.units() >= 0,
    ensures
        v.is_finite(),
{
    lemma_units_order(v, high);
    if v.key() >= infinity_key() {
        if high.key() < v.key() {
            lemma_magnitude_increases(high.key(), v.key());
        }
    }
}

/// Adding something positive to a finite number does not lower it.
pub(crate) proof fn lemma_add_raises(a: Real, b: Real)
    requires
        a.is_finite(),
        b.is_finite(),
        b.units() >= 0,
    ensures
        le_of(a, add_of(a, b)),
{
    let z = a.negative() && b.negative();
    lemma_rounded_exact(a, z);
    lemma_rounded_monotone(a.units(), 1, z, a.units() + b.units(), 1, z);
}

/// Taking something positive from a finite number does not raise it.
proof fn lemma_sub_lowers(a: Real, b: Real)
    requires
        a.is_finite(),
        b.is_finite(),
        b.units() >= 0,
    ensures
        le_of(sub_of(a, b), a),
{
    let c = neg_of(b);
    let z = a.negative() && c.negative();
    assert(c.is_finite() && c.units() == -b.units());
    lemma_rounded_exact(a, z);
    lemma_rounded_monotone(a.units() + c.units(), 1, z, a.units(), 1, z);
}

/// A game starts well.
pub proof fn law_start_is_well_formed()
    ensures
        start().wf(),
{
    lemma_decimal_order(5, 10, 25, 10);
    lemma_decimal_order(25, 10, 60, 10);
    lemma_decimal_order(0, 1, 1, 1);
    lemma_decimal_order(0, 1, 0, 1);
    lemma_decimal_order(1, 10, 15, 10);
    lemma_decimal_order(15, 10, 99, 10);
    lemma_zero();
    assert forall|i: int| 0 <= i < before_table().len() implies shaped_from(
        #[trigger] before_table()[i],
        before_table()[i],
    ) by {
        lemma_unshaped(i);
    }
}

/// Zero is the encoding of all zeros.
pub(crate) proof fn lemma_zero()
    ensures
        decimal(0, 1) == (Real { bits: 0 }),
        !decimal(0, 1).negative(),
{
    assert(0 * pow2(1074) == 0);
}

/// Whatever key is pressed, the game stays well formed: above all, the power
/// stays between 0.5 and 6.
pub proof fn law_keys_keep_well_formed(g: Game, code: KeyCode, direction: (Real, Real))
    requires
        g.wf(),
    ensures
        key_handled(g, code, direction).wf(),
{
    let low = decimal(5, 10);
    let high = decimal(60, 10);
    let push = decimal(PUTT_POWER_STEP_TENTHS as int, 10);
    let p = g.putt_power;
    lemma_decimal_order(5, 10, 60, 10);
    lemma_decimal(5, 10);
    lemma_decimal(60, 10);
    lemma_decimal(PUTT_POWER_STEP_TENTHS as int, 10);
    lemma_bounded_is_finite(p, high);
    lemma_add_raises(p, push);
    lemma_sub_lowers(p, push);
    lemma_decimal_order(0, 1, 1, 1);
    lemma_decimal_order(0, 1, 0, 1);
    lemma_zero();
    lemma_decimal_order(1, 10, 15, 10);
    lemma_decimal_order(15, 10, 99, 10);
}

/// A reset keeps the game well formed.
pub proof fn law_reset_keeps_well_formed(g: Game)
    requires
        g.wf(),
    ensures
        ball_reset(g).wf(),
{
    lemma_decimal_order(1, 10, 15, 10);
    lemma_decimal_order(15, 10, 99, 10);
}

/// A coordinate is on the course after every tick.
pub(crate) proof fn lemma_position_on_course(p: Real, v: Real)
    ensures
        on_course(position_after(p, v)),
{
    lemma_decimal_order(1, 10, 99, 10);
}

/// Whatever the slope, a tick of the ball keeps the game well formed: above
/// all, the ball and its trail stay on the course, the trail stays short, and
/// a ball that comes to rest in the hole is within it.
pub proof fn law_rolling_keeps_well_formed(g: Game, gx: Real, gy: Real)
    requires
        g.wf(),
        g.state != GameState::InHole,
    ensures
        rolled(g, gx, gy).wf(),
{
    let m = moved(g, gx, gy);
    lemma_position_on_course(g.ball_x, m.vel_x);
    lemma_position_on_course(g.ball_y, m.vel_y);
    assert forall|i: int| 0 <= i < m.trail.len() implies on_course((#[trigger] m.trail[i]).0)
        && on_course(m.trail[i].1) by {
        let longer = g.trail.push((m.ball_x, m.ball_y));
        let j = if longer.len() > TRAIL_LEN {
            i + 1
        } else {
            i
        };
        assert(m.trail[i] == longer[j]);
        if j < g.trail.len() {
            assert(longer[j] == g.trail[j]);
        }
    }
    assert(m.wf());
}

/// A tick of the changing landscape keeps the game well formed: above all, the
/// change never goes beyond its end, no hill moves, and none narrows.
pub proof fn law_morphing_keeps_well_formed(g: Game)
    requires
        g.wf(),
        g.state == GameState::Reshaping,
    ensures
        morphed(g).wf(),
{
    let t = g.morph_t;
    let c = decimal(1, MORPH_TICKS as int);
    let one = decimal(1, 1);
    lemma_decimal(1, 1);
    lemma_decimal_order(0, 1, 1, 1);
    lemma_zero();
    lemma_units_order(t, c);
    lemma_bounded_is_finite(t, one);
    lemma_step();
    lemma_add_raises(t, c);
    lemma_rounded(t.units() + c.units(), 1, false);
    lemma_signed(false, nearest(t.units() + c.units(), 1));
    assert(!add_of(t, c).negative());
    assert(before_table().len() == after_table().len());
    let m = morphed(g);
    lemma_decimal_integer(1);
    lemma_units_order(m.morph_t, one);
    lemma_bounded_is_finite(m.morph_t, one);
    assert forall|i: int| 0 <= i < before_table().len() implies shaped_from(
        #[trigger] m.current[i],
        before_table()[i],
    ) by {
        lemma_reshaped(i, m.morph_t);
    }
}

/// Every tick keeps the game well formed.
pub proof fn law_ticks_keep_well_formed(g: Game, gx: Real, gy: Real)
    requires
        g.wf(),
    ensures
        updated(g, gx, gy).wf(),
{
    if g.state == GameState::Rolling {
        law_rolling_keeps_well_formed(g, gx, gy);
    }
    if g.state == GameState::Reshaping {
        law_morphing_keeps_well_formed(g);
    }
}

/// The step of a change, a sixtieth, in units of 2^-58.
spec fn step_size() -> int {
    4803839602528529
}

/// The step is the significand above, exactly.
proof fn lemma_step()
    ensures
        decimal(1, MORPH_TICKS as int).is_finite(),
        !decimal(1, MORPH_TICKS as int).negative(),
        decimal(1, MORPH_TICKS as int).units() == step_size() * pow2(1016),
        decimal(1, 1).units() == 0x400_0000_0000_0000 * pow2(1016),
        pow2(1016) > 0,
{
    let p = pow2(1074) as int;
    let u = pow2(1016) as int;
    let q = step_size();
    let k = 1016 * binade() + q;
    lemma2_to64();
    lemma2_to64_rest();
    lemma_pow2_pos(1016);
    lemma_pow2_adds(58, 1016);
    lemma_magnitude_scaled(1016, q - 1);
    lemma_magnitude_scaled(1016, q);
    lemma_magnitude_scaled(1016, q + 1);
    assert(midpoint2(k - 1) == (2 * q - 1) * u) by (nonlinear_arith)
        requires
            midpoint2(k - 1) == (q - 1) * u + q * u,
    ;
    assert(midpoint2(k) == (2 * q + 1) * u) by (nonlinear_arith)
        requires
            midpoint2(k) == q * u + (q + 1) * u,
    ;
    assert(midpoint2(k - 1) * 60 < 2 * p < midpoint2(k) * 60) by (nonlinear_arith)
        requires
            midpoint2(k - 1) == (2 * q - 1) * u,
            midpoint2(k) == (2 * q + 1) * u,
            p == 0x400_0000_0000_0000 * u,
            q == 4803839602528529,
            u > 0,
    ;
    lemma_nearest_is(k, p, MORPH_TICKS as int);
    lemma_signed(false, k);
    assert(1 * p == p);
    lemma_decimal_integer(1);
}

/// The game after a tick for each slope given.
pub open spec fn ticked(g: Game, slopes: Seq<(Real, Real)>) -> Game
    decreases slopes.len(),
{
    if slopes.len() == 0 {
        g
    } else {
        updated(ticked(g, slopes.drop_last()), slopes.last().0, slopes.last().1)
    }
}

/// How far a change has come at least after `n` ticks, in units of 2^-58: up
/// to one half, each step may lose a unit to rounding; beyond, where only
/// multiples of 32 units are representable, each step gains fifteen.
spec fn least(n: int) -> int {
    if n <= 30 {
        n * (step_size() - 1)
    } else {
        31 * (step_size() - 1) - 16 + (n - 31) * (step_size() + 15)
    }
}

/// How far a change has come at most after `n` ticks, in units of 2^-58.
spec fn most(n: int) -> int {
    n * 0x11_2000_0000_0000
}

/// One step up from the least.
proof fn lemma_least_step(t: int, n: int)
    requires
        0 <= n <= 58,
        t >= least(n) * pow2(1016),
    ensures
        rounded(t + step_size() * pow2(1016), 1, false).units() >= least(n + 1) * pow2(1016),
{
    let u = pow2(1016) as int;
    let c = step_size();
    let x = t + c * u;
    lemma2_to64();
    lemma_pow2_pos(1016);
    assert(x >= (least(n) + c) * u) by (nonlinear_arith)
        requires
            x == t + c * u,
            t >= least(n) * u,
    ;
    if n <= 29 {
        let m = (n + 1) * 300239975158033;
        let k = lemma_representable(m, 1020);
        lemma_pow2_adds(4, 1016);
        assert(m * (16 * u) == (16 * m) * u) by (nonlinear_arith);
        assert(least(n + 1) == 16 * m);
        assert((16 * m) * u <= (least(n) + c) * u) by (nonlinear_arith)
            requires
                16 * m <= least(n) + c,
                u > 0,
        ;
        lemma_rounded_at_least(x, k);
    } else if n == 30 {
        let m = 4653719614949511;
        let k = lemma_representable(m, 1021);
        lemma_pow2_adds(5, 1016);
        assert(m * (32 * u) == (32 * m) * u) by (nonlinear_arith);
        assert(least(31) == 32 * m);
        assert((32 * m) * u <= (least(30) + c) * u) by (nonlinear_arith)
            requires
                32 * m <= least(30) + c,
                u > 0,
        ;
        lemma_rounded_at_least(x, k);
    } else {
        // The exact sum lies 17 units above a multiple of 32, and rounds up.
        let q = 4653719614949511 + (n - 30) * 150119987579017;
        let k = 1021 * binade() + q;
        let y = (least(n) + c) * u;
        assert(least(n + 1) == 32 * q);
        assert(least(n) + c == 32 * (q - 1) + 17);
        lemma_pow2_adds(5, 1016);
        lemma_magnitude_scaled(1021, q - 1);
        lemma_magnitude_scaled(1021, q);
        lemma_magnitude_scaled(1021, q + 1);
        assert(midpoint2(k - 1) == (2 * q - 1) * (32 * u)) by (nonlinear_arith)
            requires
                midpoint2(k - 1) == (q - 1) * (32 * u) + q * (32 * u),
        ;
        assert(midpoint2(k) == (2 * q + 1) * (32 * u)) by (nonlinear_arith)
            requires
                midpoint2(k) == q * (32 * u) + (q + 1) * (32 * u),
        ;
        assert(midpoint2(k - 1) < 2 * y < midpoint2(k)) by (nonlinear_arith)
            requires
                midpoint2(k - 1) == (2 * q - 1) * (32 * u),
                midpoint2(k) == (2 * q + 1) * (32 * u),
                y == (32 * (q - 1) + 17) * u,
                u > 0,
        ;
        assert(y > 0) by (nonlinear_arith)
            requires
                y == (32 * (q - 1) + 17) * u,
                q > 1,
                u > 0,
        ;
        lemma_nearest_is(k, y, 1);
        lemma_rounded(y, 1, false);
        lemma_rounded_monotone(y, 1, false, x, 1, false);
        assert(q * (32 * u) == (32 * q) * u) by (nonlinear_arith);
    }
}

/// One step up from the most.
proof fn lemma_most_step(t: int, n: int)
    requires
        0 <= n <= 58,
        0 <= t <= most(n) * pow2(1016),
    ensures
        rounded(t + step_size() * pow2(1016), 1, false).units() <= most(n + 1) * pow2(1016),
{
    let u = pow2(1016) as int;
    let m = (n + 1) * 274;
    lemma2_to64();
    lemma2_to64_rest();
    lemma_pow2_pos(1016);
    lemma_pow2_adds(44, 1016);
    let k = lemma_representable(m, 1060);
    assert(m * (0x1000_0000_0000 * u) == most(n + 1) * u) by (nonlinear_arith)
        requires
            most(n + 1) == m * 0x1000_0000_0000,
    ;
    assert(t + step_size() * u <= most(n + 1) * u) by (nonlinear_arith)
        requires
            t <= most(n) * u,
            most(n) + step_size() <= most(n + 1),
            u > 0,
    ;
    lemma_signed(false, k);
    let top = signed(false, k);
    lemma_rounded_exact(top, false);
    lemma_rounded_monotone(t + step_size() * u, 1, false, top.units(), 1, false);
}

/// How far a change has come after each tick.
proof fn lemma_change_after(g: Game, slopes: Seq<(Real, Real)>)
    requires
        g.wf(),
        g.state == GameState::Reshaping,
        g.morph_t == decimal(0, 1),
        slopes.len() <= 60,
    ensures
        ticked(g, slopes).wf(),
        slopes.len() <= 59 ==> {
            let h = ticked(g, slopes);
            &&& h.state == GameState::Reshaping
            &&& least(slopes.len() as int) * pow2(1016) <= h.morph_t.units()
            &&& h.morph_t.units() <= most(slopes.len() as int) * pow2(1016)
        },
        slopes.len() == 60 ==> {
            let h = ticked(g, slopes);
            &&& h.state == GameState::Aiming
            &&& h.morph_t == decimal(1, 1)
            &&& h.current == blend_of(h.before, h.after, h.morph_t)
        },
    decreases slopes.len(),
{
    let n = slopes.len() as int;
    let one = decimal(1, 1);
    let c = decimal(1, MORPH_TICKS as int);
    let u = pow2(1016) as int;
    lemma_step();
    lemma_zero();
    assert(magnitude(0) == 0);
    if n == 0 {
        assert(0 * u == 0);
    } else {
        let h = ticked(g, slopes.drop_last());
        let t = h.morph_t;
        lemma_change_after(g, slopes.drop_last());
        law_ticks_keep_well_formed(h, slopes.last().0, slopes.last().1);
        lemma_decimal_integer(1);
        lemma_units_order(t, one);
        lemma_bounded_is_finite(t, one);
        let sum = t.units() + c.units();
        let r = rounded(sum, 1, false);
        assert(add_of(t, c) == r);
        lemma_rounded(sum, 1, false);
        lemma_units_order(r, one);
        if n <= 59 {
            lemma_least_step(t.units(), n - 1);
            lemma_most_step(t.units(), n - 1);
            assert(most(n) * u < 0x400_0000_0000_0000 * u) by (nonlinear_arith)
                requires
                    most(n) < 0x400_0000_0000_0000,
                    u > 0,
            ;
        } else {
            assert(sum >= one.units()) by (nonlinear_arith)
                requires
                    sum == t.units() + step_size() * u,
                    t.units() >= least(59) * u,
                    one.units() == 0x400_0000_0000_0000 * u,
                    least(59) + step_size() >= 0x400_0000_0000_0000,
                    u > 0,
            ;
            lemma_rounded_at_least(sum, one.key());
        }
    }
}

/// A change lasts for sixty ticks, and ends at one.
pub(crate) proof fn lemma_change_lasts(g: Game, slopes: Seq<(Real, Real)>)
    requires
        g.wf(),
        g.state == GameState::Reshaping,
        g.morph_t == decimal(0, 1),
        slopes.len() <= 60,
    ensures
        ticked(g, slopes).wf(),
        slopes.len() <= 59 ==> ticked(g, slopes).state == GameState::Reshaping,
        slopes.len() == 60 ==> ticked(g, slopes).morph_t == decimal(1, 1),
{
    lemma_change_after(g, slopes);
}

/// The two agree to twelve decimal places.
pub open spec fn agree(a: Real, b: Real) -> bool {
    a.is_finite() && 1_000_000_000_000 * size(a.units() - b.units()) <= one_units()
}

/// A change of the landscape takes 60 ticks: no fewer, and no more. Then the
/// landscape is the one after the change, to twelve decimal places, and the
/// game is back to aiming.
pub proof fn law_reshaping_takes_sixty_ticks(g: Game, slopes: Seq<(Real, Real)>)
    requires
        g.wf(),
        g.state == GameState::Reshaping,
        g.morph_t == decimal(0, 1),
    ensures
        slopes.len() < MORPH_TICKS ==> ticked(g, slopes).state == GameState::Reshaping,
        slopes.len() >= MORPH_TICKS ==> {
            let h = ticked(g, slopes);
            &&& h.state == GameState::Aiming
            &&& h.morph_t == decimal(1, 1)
            &&& h.current == blend_of(before_table(), after_table(), decimal(1, 1))
            &&& forall|i: int|
                0 <= i < after_table().len() ==> {
                    let c = #[trigger] h.current[i];
                    let a = after_table()[i];
                    &&& c.cx == a.cx && c.cy == a.cy
                    &&& agree(c.amplitude, a.amplitude)
                    &&& agree(c.sigma, a.sigma)
                }
        },
    decreases slopes.len(),
{
    if slopes.len() <= 60 {
        lemma_change_after(g, slopes);
        assert forall|i: int|
            slopes.len() == 60 && 0 <= i < after_table().len() implies {
            let c = #[trigger] ticked(g, slopes).current[i];
            let a = after_table()[i];
            &&& c.cx == a.cx && c.cy == a.cy
            &&& agree(c.amplitude, a.amplitude)
            &&& agree(c.sigma, a.sigma)
        } by {
            lemma_change_ends(i);
        }
    } else {
        law_reshaping_takes_sixty_ticks(g, slopes.drop_last());
    }
}

/// At the end of the change each hill is the one after it.
proof fn lemma_change_ends(i: int)
    requires
        0 <= i < after_table().len(),
    ensures
        ({
            let c = blend_of(before_table(), after_table(), decimal(1, 1))[i];
            let a = after_table()[i];
            &&& c.cx == a.cx && c.cy == a.cy
            &&& agree(c.amplitude, a.amplitude)
            &&& agree(c.sigma, a.sigma)
        }),
{
    let b = before_table()[i];
    let a = after_table()[i];
    let r = lemma_row(i);
    lemma_decimal_integer(1);
    lemma2_to64();
    lemma2_to64_rest();
    lemma_one_units();
    lemma_pow2_adds(4, 1074);
    lemma_pow2_adds(48, 1026);
    lemma_decimal_bounded(r.amplitude.0, 100, 6);
    lemma_decimal_bounded(r.amplitude.1, 100, 6);
    lemma_decimal_bounded(r.sigma.0, 100, 2);
    lemma_decimal_bounded(r.sigma.1, 100, 2);
    lemma_bounded_finite(a.amplitude, 6);
    lemma_bounded_finite(b.amplitude, 6);
    lemma_bounded_finite(a.sigma, 2);
    lemma_bounded_finite(b.sigma, 2);
    lemma_reshaped(i, decimal(1, 1));
    law_lerp_ends_at_the_other(b, a, 1078);
}

// ---- Keys ----

/// Only `q` ends the game, and nothing takes that back.
pub proof fn law_only_q_quits(g: Game, code: KeyCode, direction: (Real, Real), gx: Real, gy: Real)
    ensures
        key_handled(g, code, direction).should_quit == (g.should_quit || code == KeyCode::Char('q')
            || code == KeyCode::Char('Q')),
        updated(g, gx, gy).should_quit == g.should_quit,
{
}

/// The letters work in either case.
pub proof fn law_letters_ignore_case(g: Game, direction: (Real, Real))
    ensures
        key_handled(g, KeyCode::Char('q'), direction) == key_handled(
            g,
            KeyCode::Char('Q'),
            direction,
        ),
        key_handled(g, KeyCode::Char('s'), direction) == key_handled(
            g,
            KeyCode::Char('S'),
            direction,
        ),
        key_handled(g, KeyCode::Char('r'), direction) == key_handled(
            g,
            KeyCode::Char('R'),
            direction,
        ),
{
}

/// The keys to which the game listens in each state.
pub open spec fn listens(state: GameState, code: KeyCode) -> bool {
    let quit = code == KeyCode::Char('q') || code == KeyCode::Char('Q');
    let stop = code == KeyCode::Char('s') || code == KeyCode::Char('S');
    let reshape = code == KeyCode::Char('r') || code == KeyCode::Char('R');
    match state {
        GameState::Aiming => quit || reshape || code == KeyCode::Char(' ') || code == KeyCode::Left
            || code == KeyCode::Right || code == KeyCode::Up || code == KeyCode::Down,
        GameState::Rolling => quit || reshape || stop,
        GameState::Stuck => quit || reshape || code == KeyCode::Enter,
        GameState::Reshaping => quit,
        GameState::InHole => quit || code == KeyCode::Enter,
    }
}

/// A key to which the game does not listen changes nothing.
pub proof fn law_other_keys_do_nothing(g: Game, code: KeyCode, direction: (Real, Real))
    requires
        !listens(g.state, code),
    ensures
        key_handled(g, code, direction) == g,
{
}

/// Nothing but the press of a key is taken in.
pub proof fn law_only_presses_count(g: Game, event: Option<Event>, direction: (Real, Real))
    requires
        pressed(event) is None,
    ensures
        event_handled(g, event, direction) == g,
{
}

/// Putts are counted, one by one, and nothing else is.
pub proof fn law_putts_are_counted(
    g: Game,
    code: KeyCode,
    direction: (Real, Real),
    gx: Real,
    gy: Real,
)
    requires
        putts(g, code) ==> g.putt_count < u32::MAX,
    ensures
        key_handled(g, code, direction).putt_count == g.putt_count + if putts(g, code) {
            1int
        } else {
            0int
        },
        updated(g, gx, gy).putt_count == g.putt_count,
{
}

/// The ball starts to roll only by a putt, and only from aiming.
pub proof fn law_only_a_putt_rolls(
    g: Game,
    code: KeyCode,
    direction: (Real, Real),
    gx: Real,
    gy: Real,
)
    requires
        g.state != GameState::Rolling,
    ensures
        key_handled(g, code, direction).state == GameState::Rolling <==> putts(g, code),
        updated(g, gx, gy).state != GameState::Rolling,
{
}

/// To start reshaping the landscape is put on record, and stays there.
pub proof fn law_reshaping_is_recorded(
    g: Game,
    code: KeyCode,
    direction: (Real, Real),
    gx: Real,
    gy: Real,
)
    ensures
        g.reshaped ==> key_handled(g, code, direction).reshaped,
        g.state != GameState::Reshaping && key_handled(g, code, direction).state
            == GameState::Reshaping ==> key_handled(g, code, direction).reshaped,
        updated(g, gx, gy).reshaped == g.reshaped,
{
}

/// A reset brings back the ball of a new game and leaves the landscape, the
/// aim, the power and the count; a second one adds nothing.
pub proof fn law_reset_restores_the_tee(g: Game)
    ensures
        ({
            let r = ball_reset(g);
            let s = start();
            &&& r.state == s.state && r.stuck_counter == s.stuck_counter
            &&& r.ball_x == s.ball_x && r.ball_y == s.ball_y
            &&& r.vel_x == s.vel_x && r.vel_y == s.vel_y
            &&& r.trail == s.trail
            &&& r.current == g.current && r.morph_t == g.morph_t && r.reshaped == g.reshaped
            &&& r.aim_angle == g.aim_angle && r.putt_power == g.putt_power
            &&& r.putt_count == g.putt_count && r.should_quit == g.should_quit
            &&& ball_reset(r) == r
        }),
{
}

// ---- Ticks ----

/// Nothing moves while the game waits for a key.
pub proof fn law_waiting_is_still(g: Game, gx: Real, gy: Real)
    requires
        g.state == GameState::Aiming || g.state == GameState::Stuck || g.state
            == GameState::InHole,
    ensures
        updated(g, gx, gy) == g,
{
}

/// What a tick does is told by the state: the ball rolls on, or into the hole,
/// or gets stuck; or the landscape changes until the change is over; or nothing
/// happens.
pub proof fn law_ticks_go_by_the_state(g: Game, gx: Real, gy: Real)
    ensures
        g.state == GameState::Rolling ==> updated(g, gx, gy) == rolled(g, gx, gy),
        g.state == GameState::Rolling ==> {
            let s = updated(g, gx, gy).state;
            s == GameState::Rolling || s == GameState::InHole || s == GameState::Stuck
        },
        g.state == GameState::Reshaping ==> updated(g, gx, gy) == morphed(g),
        g.state == GameState::Reshaping ==> {
            let s = updated(g, gx, gy).state;
            s == GameState::Reshaping || s == GameState::Aiming
        },
        g.state != GameState::Rolling && g.state != GameState::Reshaping ==> updated(g, gx, gy)
            == g,
{
}

/// A rolling ball leaves the landscape, the aim and the power alone.
pub proof fn law_rolling_leaves_the_landscape(g: Game, gx: Real, gy: Real)
    ensures
        ({
            let r = rolled(g, gx, gy);
            &&& r.before == g.before && r.after == g.after && r.current == g.current
            &&& r.morph_t == g.morph_t && r.reshaped == g.reshaped
            &&& r.aim_angle == g.aim_angle && r.putt_power == g.putt_power
            &&& r.hole_x == g.hole_x && r.hole_y == g.hole_y && r.hole_radius == g.hole_radius
        }),
{
}

/// A changing landscape leaves the ball alone.
pub proof fn law_morphing_leaves_the_ball(g: Game)
    ensures
        ({
            let m = morphed(g);
            &&& m.ball_x == g.ball_x && m.ball_y == g.ball_y
            &&& m.vel_x == g.vel_x && m.vel_y == g.vel_y
            &&& m.trail == g.trail && m.stuck_counter == g.stuck_counter
            &&& m.aim_angle == g.aim_angle && m.putt_power == g.putt_power
        }),
{
}

/// How a tick of the rolling ball ends: in the hole if the ball has come
/// within it, whether it is slow or not; else stuck, if enough ticks have been
/// slow; else it rolls on.
pub proof fn law_the_hole_comes_first(g: Game, gx: Real, gy: Real)
    requires
        g.state == GameState::Rolling,
        g.stuck_counter < u32::MAX,
    ensures
        ({
            let m = moved(g, gx, gy);
            let r = rolled(g, gx, gy);
            &&& r.state == GameState::InHole <==> holed(m)
            &&& r.state == GameState::Stuck <==> !holed(m) && slow(m) && g.stuck_counter + 1
                >= STUCK_TICKS
            &&& r.state == GameState::InHole || r.state == GameState::Stuck || r.state
                == GameState::Rolling
        }),
{
}

/// The game after the ball has rolled for a tick on each slope given.
pub open spec fn rolled_along(g: Game, slopes: Seq<(Real, Real)>) -> Game
    decreases slopes.len(),
{
    if slopes.len() == 0 {
        g
    } else {
        rolled(rolled_along(g, slopes.drop_last()), slopes.last().0, slopes.last().1)
    }
}

/// The positions to which the ball comes, in order.
pub open spec fn path(g: Game, slopes: Seq<(Real, Real)>) -> Seq<(Real, Real)>
    decreases slopes.len(),
{
    if slopes.len() == 0 {
        Seq::empty()
    } else {
        let r = rolled_along(g, slopes);
        path(g, slopes.drop_last()).push((r.ball_x, r.ball_y))
    }
}

/// The last `n` elements, or all if there are fewer.
pub open spec fn newest(s: Seq<(Real, Real)>, n: int) -> Seq<(Real, Real)> {
    if s.len() > n {
        s.subrange(s.len() - n, s.len() as int)
    } else {
        s
    }
}

/// The trail holds the newest positions of the ball, the oldest first.
pub proof fn law_trail_keeps_the_newest(g: Game, slopes: Seq<(Real, Real)>)
    requires
        g.trail.len() <= TRAIL_LEN,
    ensures
        rolled_along(g, slopes).trail == newest(g.trail + path(g, slopes), TRAIL_LEN as int),
    decreases slopes.len(),
{
    if slopes.len() == 0 {
        assert(g.trail + path(g, slopes) =~= g.trail);
    } else {
        let h = rolled_along(g, slopes.drop_last());
        law_trail_keeps_the_newest(g, slopes.drop_last());
        let r = rolled_along(g, slopes);
        let all = g.trail + path(g, slopes.drop_last());
        assert(g.trail + path(g, slopes) =~= all.push((r.ball_x, r.ball_y)));
        assert(r.trail =~= newest(all.push((r.ball_x, r.ball_y)), TRAIL_LEN as int));
    }
}

/// A tick of the rolling ball leaves its position at the end of the trail.
pub proof fn law_the_trail_ends_at_the_ball(g: Game, gx: Real, gy: Real)
    ensures
        ({
            let r = rolled(g, gx, gy);
            &&& r.trail.len() > 0 && r.trail.last() == (r.ball_x, r.ball_y)
            &&& g.trail.len() <= TRAIL_LEN ==> r.trail.len() <= TRAIL_LEN
            &&& g.trail.len() < TRAIL_LEN ==> r.trail.drop_last() == g.trail
            &&& g.trail.len() == TRAIL_LEN ==> r.trail.drop_last() == g.trail.drop_first()
        }),
{
    let r = rolled(g, gx, gy);
    if g.trail.len() < TRAIL_LEN {
        assert(r.trail.drop_last() =~= g.trail);
    }
    if g.trail.len() == TRAIL_LEN {
        assert(r.trail.drop_last() =~= g.trail.drop_first());
    }
}

/// From a fresh count, fewer than 20 ticks never leave the ball stuck.
pub proof fn law_stuck_takes_time(g: Game, slopes: Seq<(Real, Real)>)
    requires
        g.state != GameState::Stuck,
        g.stuck_counter == 0,
        slopes.len() < STUCK_TICKS,
    ensures
        rolled_along(g, slopes).state != GameState::Stuck,
        rolled_along(g, slopes).stuck_counter <= slopes.len(),
    decreases slopes.len(),
{
    if slopes.len() > 0 {
        law_stuck_takes_time(g, slopes.drop_last());
    }
}

/// Twenty slow ticks in a row outside the hole leave the ball stuck.
pub proof fn law_slow_ticks_stick(g: Game, slopes: Seq<(Real, Real)>)
    requires
        g.stuck_counter + slopes.len() <= u32::MAX,
        forall|n: int|
            0 <= n < slopes.len() ==> {
                let m = moved(
                    rolled_along(g, slopes.take(n)),
                    (#[trigger] slopes[n]).0,
                    slopes[n].1,
                );
                slow(m) && !holed(m)
            },
    ensures
        rolled_along(g, slopes).stuck_counter == g.stuck_counter + slopes.len(),
        slopes.len() >= STUCK_TICKS ==> rolled_along(g, slopes).state == GameState::Stuck,
    decreases slopes.len(),
{
    if slopes.len() > 0 {
        let last = slopes.len() - 1;
        let front = slopes.drop_last();
        assert(front =~= slopes.take(last));
        assert forall|n: int| 0 <= n < front.len() implies {
            let m = moved(rolled_along(g, front.take(n)), (#[trigger] front[n]).0, front[n].1);
            slow(m) && !holed(m)
        } by {
            assert(front.take(n) =~= slopes.take(n));
            assert(front[n] == slopes[n]);
        }
        law_slow_ticks_stick(g, front);
        assert(slopes[last] == slopes.last());
    }
}

// ---- Pictures ----

/// A well-formed game can be shown: what it shows as text can be written out.
pub proof fn law_well_formed_games_can_be_shown(g: Game)
    requires
        g.wf(),
    ensures
        printable(g.putt_power),
        labels_printable(g),
        g.trail.len() <= TRAIL_LEN,
{
    lemma_percentage_printable(g);
}

/// The power and the percentage of a well-formed game can be written out.
pub(crate) proof fn lemma_percentage_printable(g: Game)
    requires
        g.wf(),
    ensures
        printable(g.putt_power),
        printable(mul_of(g.morph_t, decimal(100, 1))),
{
    let p = pow2(1074) as int;
    let one = decimal(1, 1);
    let hundred = decimal(100, 1);
    lemma_pow2_pos(1074);
    lemma_decimal(5, 10);
    lemma_decimal_order(1, 2, 5, 10);
    lemma2_to64();
    lemma_dyadic(1, 1);
    lemma_pow2_pos(1073);
    lemma_decimal_order(60, 10, 6, 1);
    lemma_decimal_integer(6);
    lemma_decimal_integer(1);
    lemma_decimal_integer(100);
    assert(6 * p <= 0x10_0000 * p && 100 * p <= 0x10_0000 * p && 100 * p > 0)
        by (nonlinear_arith)
        requires
            p > 0,
    ;
    assert(magnitude(0) == 0);
    lemma_units_order(g.putt_power, g.putt_power);
    lemma_units_order(g.morph_t, g.morph_t);
    law_mul_keeps_order(g.morph_t, one, hundred);
    lemma_mul_one(hundred);
    lemma_bounded_is_finite(g.morph_t, one);
    let product = magnitude(g.morph_t.key()) * magnitude(hundred.key());
    assert(product >= 0) by (nonlinear_arith)
        requires
            product == magnitude(g.morph_t.key()) * magnitude(hundred.key()),
            magnitude(g.morph_t.key()) >= 0,
            magnitude(hundred.key()) >= 0,
    ;
    lemma_nearest_exists(product, p);
    lemma_signed(false, nearest(product, p));
}

} // verus!
