//! The game: its state, and what keys and ticks do to it.

use std::collections::VecDeque;

use vstd::prelude::*;

use crate::constants::{
    AIM_STEP_HUNDREDTHS, DAMPING_HUNDREDTHS, DT_HUNDREDTHS, GRAVITY_TENTHS, MORPH_TICKS,
    PUTT_POWER_STEP_TENTHS, STUCK_TICKS, TRAIL_LEN,
};
use crate::convert::{clamp_of, decimal, max_of, min_of};
use crate::division::sqrt_of;
use crate::landscape::{
    after_table, before_table, blend, blend_of, gaussians_after, gaussians_before,
    shaped_from,
};
use crate::laws::{
    law_keys_keep_well_formed, law_morphing_keeps_well_formed, law_reset_keeps_well_formed,
    law_rolling_keeps_well_formed, law_start_is_well_formed,
};
use crate::number::{add_of, le_of, lt_of, mul_of, sub_of, Real};
use crate::order::lemma_decimal_order;
use crate::surface::{computes, grad_of, may_be_slope, surface_grad, total, Gaussian};

verus! {

/// A quarter of pi.
pub const QUARTER_PI_BITS: u64 = 0x3fe9_21fb_5444_2d18;

#[derive(Clone, Copy, PartialEq, Eq, Structural, Debug)]
pub enum GameState {
    Aiming,
    Rolling,
    Stuck,
    Reshaping,
    InHole,
}

/// The keys that the game tells apart.
#[derive(Clone, Copy, PartialEq, Eq, Structural, Debug)]
pub enum KeyCode {
    Char(char),
    Left,
    Right,
    Up,
    Down,
    Enter,
    Other,
}

#[derive(Clone, Copy, PartialEq, Eq, Structural, Debug)]
pub enum KeyEventKind {
    Press,
    Repeat,
    Release,
}

/// What a terminal reports.
#[derive(Clone, Copy, PartialEq, Eq, Structural, Debug)]
pub enum Event {
    Key(KeyCode, KeyEventKind),
    Other,
}

/// The whole state of a game.
#[derive(Debug)]
pub struct App {
    pub state: GameState,
    pub prev_state: GameState,
    pub gaussians_before: Vec<Gaussian>,
    pub gaussians_after: Vec<Gaussian>,
    pub gaussians_current: Vec<Gaussian>,
    pub morph_t: Real,
    pub ball_x: Real,
    pub ball_y: Real,
    pub vel_x: Real,
    pub vel_y: Real,
    pub stuck_counter: u32,
    pub aim_angle: Real,
    pub putt_power: Real,
    pub hole_x: Real,
    pub hole_y: Real,
    pub hole_radius: Real,
    pub trail: VecDeque<(Real, Real)>,
    pub putt_count: u32,
    pub reshaped: bool,
    pub should_quit: bool,
}

/// The state of a game as a mathematical value.
#[verifier::ext_equal]
pub struct Game {
    pub state: GameState,
    pub prev_state: GameState,
    pub before: Seq<Gaussian>,
    pub after: Seq<Gaussian>,
    pub current: Seq<Gaussian>,
    pub morph_t: Real,
    pub ball_x: Real,
    pub ball_y: Real,
    pub vel_x: Real,
    pub vel_y: Real,
    pub stuck_counter: u32,
    pub aim_angle: Real,
    pub putt_power: Real,
    pub hole_x: Real,
    pub hole_y: Real,
    pub hole_radius: Real,
    pub trail: Seq<(Real, Real)>,
    pub putt_count: u32,
    pub reshaped: bool,
    pub should_quit: bool,
}

impl View for App {
    type V = Game;

    open spec fn view(&self) -> Game {
        Game {
            state: self.state,
            prev_state: self.prev_state,
            before: self.gaussians_before@,
            after: self.gaussians_after@,
            current: self.gaussians_current@,
            morph_t: self.morph_t,
            ball_x: self.ball_x,
            ball_y: self.ball_y,
            vel_x: self.vel_x,
            vel_y: self.vel_y,
            stuck_counter: self.stuck_counter,
            aim_angle: self.aim_angle,
            putt_power: self.putt_power,
            hole_x: self.hole_x,
            hole_y: self.hole_y,
            hole_radius: self.hole_radius,
            trail: self.trail@,
            putt_count: self.putt_count,
            reshaped: self.reshaped,
            should_quit: self.should_quit,
        }
    }
}

/// The start of a game: the ball at rest at the tee, aimed along the diagonal.
pub open spec fn start() -> Game {
    Game {
        state: GameState::Aiming,
        prev_state: GameState::Aiming,
        before: before_table(),
        after: after_table(),
        current: before_table(),
        morph_t: decimal(0, 1),
        ball_x: tee(),
        ball_y: tee(),
        vel_x: decimal(0, 1),
        vel_y: decimal(0, 1),
        stuck_counter: 0,
        aim_angle: Real { bits: QUARTER_PI_BITS },
        putt_power: decimal(25, 10),
        hole_x: decimal(80, 10),
        hole_y: decimal(75, 10),
        hole_radius: decimal(45, 100),
        trail: Seq::empty(),
        putt_count: 0,
        reshaped: false,
        should_quit: false,
    }
}

/// `v` lies in the range from `low` to `high`.
pub open spec fn within(v: Real, low: Real, high: Real) -> bool {
    le_of(low, v) && le_of(v, high)
}

/// A coordinate is on the course, or is not a number at all.
pub open spec fn on_course(v: Real) -> bool {
    v.is_nan() || within(v, decimal(1, 10), decimal(99, 10))
}

impl Game {
    /// What holds at every moment of a game.
    pub open spec fn wf(self) -> bool {
        &&& self.before == before_table()
        &&& self.after == after_table()
        &&& self.current.len() == before_table().len()
        &&& forall|i: int|
            0 <= i < before_table().len() ==> shaped_from(
                #[trigger] self.current[i],
                before_table()[i],
            )
        &&& !self.reshaped ==> self.current == before_table()
        &&& within(self.putt_power, decimal(5, 10), decimal(60, 10))
        &&& within(self.morph_t, decimal(0, 1), decimal(1, 1)) && !self.morph_t.negative()
        &&& on_course(self.ball_x) && on_course(self.ball_y)
        &&& self.trail.len() <= TRAIL_LEN
        &&& forall|i: int|
            0 <= i < self.trail.len() ==> on_course((#[trigger] self.trail[i]).0) && on_course(
                self.trail[i].1,
            )
        &&& self.hole_x == decimal(80, 10)
        &&& self.hole_y == decimal(75, 10)
        &&& self.hole_radius == decimal(45, 100)
        &&& self.state == GameState::Reshaping ==> self.reshaped
        &&& self.state == GameState::InHole ==> holed(self)
        &&& self.prev_state != GameState::Reshaping && self.prev_state != GameState::InHole
    }
}

/// Both coordinates of the tee.
pub open spec fn tee() -> Real {
    decimal(15, 10)
}

// ---- Keys ----

pub open spec fn turned(g: Game, aim_angle: Real) -> Game {
    if g.state == GameState::Aiming {
        Game { aim_angle, ..g }
    } else {
        g
    }
}

pub open spec fn charged(g: Game, putt_power: Real) -> Game {
    if g.state == GameState::Aiming {
        Game { putt_power, ..g }
    } else {
        g
    }
}

/// A putt sends the ball off along the aim with the chosen power.
pub open spec fn putted(g: Game, direction: (Real, Real)) -> Game {
    if g.state == GameState::Aiming {
        Game {
            vel_x: mul_of(direction.0, g.putt_power),
            vel_y: mul_of(direction.1, g.putt_power),
            trail: Seq::empty(),
            putt_count: (g.putt_count + 1) as u32,
            state: GameState::Rolling,
            ..g
        }
    } else {
        g
    }
}

pub open spec fn stopped(g: Game) -> Game {
    if g.state == GameState::Rolling {
        Game {
            vel_x: decimal(0, 1),
            vel_y: decimal(0, 1),
            state: GameState::Aiming,
            ..g
        }
    } else {
        g
    }
}

pub open spec fn reshape_started(g: Game) -> Game {
    if g.state == GameState::Stuck || g.state == GameState::Aiming || g.state
        == GameState::Rolling {
        Game {
            prev_state: g.state,
            state: GameState::Reshaping,
            morph_t: decimal(0, 1),
            reshaped: true,
            ..g
        }
    } else {
        g
    }
}

/// The ball back at the tee, at rest.
pub open spec fn ball_reset(g: Game) -> Game {
    Game {
        ball_x: tee(),
        ball_y: tee(),
        vel_x: decimal(0, 1),
        vel_y: decimal(0, 1),
        stuck_counter: 0,
        trail: Seq::empty(),
        state: GameState::Aiming,
        ..g
    }
}

/// What a key does. `direction` is the cosine and the sine of the aim angle.
pub open spec fn key_handled(g: Game, code: KeyCode, direction: (Real, Real)) -> Game {
    let turn = decimal(AIM_STEP_HUNDREDTHS as int, 100);
    let push = decimal(PUTT_POWER_STEP_TENTHS as int, 10);
    match code {
        KeyCode::Char(c) => if c == 'q' || c == 'Q' {
            Game { should_quit: true, ..g }
        } else if c == ' ' {
            putted(g, direction)
        } else if c == 's' || c == 'S' {
            stopped(g)
        } else if c == 'r' || c == 'R' {
            reshape_started(g)
        } else {
            g
        },
        KeyCode::Left => turned(g, sub_of(g.aim_angle, turn)),
        KeyCode::Right => turned(g, add_of(g.aim_angle, turn)),
        KeyCode::Up => charged(g, min_of(add_of(g.putt_power, push), decimal(60, 10))),
        KeyCode::Down => charged(g, max_of(sub_of(g.putt_power, push), decimal(5, 10))),
        KeyCode::Enter => if g.state == GameState::Stuck || g.state == GameState::InHole {
            ball_reset(g)
        } else {
            g
        },
        KeyCode::Other => g,
    }
}

/// The key makes a putt.
pub open spec fn putts(g: Game, code: KeyCode) -> bool {
    code == KeyCode::Char(' ') && g.state == GameState::Aiming
}

// ---- Ticks ----

/// A velocity after a tick on the given slope.
pub open spec fn velocity_after(v: Real, slope: Real) -> Real {
    sub_of(
        mul_of(v, decimal(DAMPING_HUNDREDTHS as int, 100)),
        mul_of(
            mul_of(slope, decimal(GRAVITY_TENTHS as int, 10)),
            decimal(DT_HUNDREDTHS as int, 100),
        ),
    )
}

/// A coordinate after a tick at the given velocity, kept on the course.
pub open spec fn position_after(p: Real, v: Real) -> Real {
    clamp_of(
        add_of(p, mul_of(v, decimal(DT_HUNDREDTHS as int, 100))),
        decimal(1, 10),
        decimal(99, 10),
    )
}

/// The length of a vector.
pub open spec fn length_of(x: Real, y: Real) -> Real {
    sqrt_of(add_of(mul_of(x, x), mul_of(y, y)))
}

/// The trail with a position added, and the oldest one dropped if it is full.
pub open spec fn extended(trail: Seq<(Real, Real)>, p: (Real, Real)) -> Seq<(Real, Real)> {
    let longer = trail.push(p);
    if longer.len() > TRAIL_LEN {
        longer.subrange(1, longer.len() as int)
    } else {
        longer
    }
}

/// The ball after a tick on the slope (`gx`, `gy`), before anything is decided.
pub open spec fn moved(g: Game, gx: Real, gy: Real) -> Game {
    let vel_x = velocity_after(g.vel_x, gx);
    let vel_y = velocity_after(g.vel_y, gy);
    let ball_x = position_after(g.ball_x, vel_x);
    let ball_y = position_after(g.ball_y, vel_y);
    Game { vel_x, vel_y, ball_x, ball_y, trail: extended(g.trail, (ball_x, ball_y)), ..g }
}

/// The ball is within the hole.
pub open spec fn holed(g: Game) -> bool {
    lt_of(length_of(sub_of(g.ball_x, g.hole_x), sub_of(g.ball_y, g.hole_y)), g.hole_radius)
}

/// The ball hardly moves.
pub open spec fn slow(g: Game) -> bool {
    lt_of(length_of(g.vel_x, g.vel_y), decimal(12, 1000))
}

/// What is decided once the ball has moved: the hole first, then the count of
/// slow ticks.
pub open spec fn settled(g: Game) -> Game {
    if holed(g) {
        Game { state: GameState::InHole, ..g }
    } else if slow(g) {
        let stuck_counter = (g.stuck_counter + 1) as u32;
        Game {
            stuck_counter,
            state: if stuck_counter >= STUCK_TICKS {
                GameState::Stuck
            } else {
                g.state
            },
            ..g
        }
    } else {
        Game { stuck_counter: 0, ..g }
    }
}

/// A tick of the rolling ball on the slope (`gx`, `gy`).
pub open spec fn rolled(g: Game, gx: Real, gy: Real) -> Game {
    settled(moved(g, gx, gy))
}

/// A tick of the changing landscape.
pub open spec fn morphed(g: Game) -> Game {
    let t = min_of(add_of(g.morph_t, decimal(1, MORPH_TICKS as int)), decimal(1, 1));
    Game {
        morph_t: t,
        current: blend_of(g.before, g.after, t),
        state: if le_of(decimal(1, 1), t) {
            GameState::Aiming
        } else {
            g.state
        },
        ..g
    }
}

/// A tick, where the slope under the ball is (`gx`, `gy`).
pub open spec fn updated(g: Game, gx: Real, gy: Real) -> Game {
    match g.state {
        GameState::Rolling => rolled(g, gx, gy),
        GameState::Reshaping => morphed(g),
        _ => g,
    }
}

/// The slope under the ball, where `f` is the exponential.
pub open spec fn slope_under_ball(g: Game, f: spec_fn(Real) -> Real) -> (Real, Real) {
    grad_of(g.ball_x, g.ball_y, g.current, f)
}

/// A tick, where `f` is the exponential.
pub open spec fn update_of(g: Game, f: spec_fn(Real) -> Real) -> Game {
    let slope = slope_under_ball(g, f);
    updated(g, slope.0, slope.1)
}

/// The key that an event presses, if it does: releases and repeats do not count.
pub open spec fn pressed(event: Option<Event>) -> Option<KeyCode> {
    match event {
        Some(Event::Key(code, KeyEventKind::Press)) => Some(code),
        _ => None,
    }
}

/// The state once the event of a round has been taken in.
pub open spec fn event_handled(g: Game, event: Option<Event>, direction: (Real, Real)) -> Game {
    match pressed(event) {
        Some(code) => key_handled(g, code, direction),
        None => g,
    }
}

/// `d` is what the two returned for the angle.
pub open spec fn points_along<C: Fn(Real) -> Real, S: Fn(Real) -> Real>(
    cos: C,
    sin: S,
    angle: Real,
    d: (Real, Real),
) -> bool {
    call_ensures(cos, (angle,), d.0) && call_ensures(sin, (angle,), d.1)
}

/// Where the ball is aimed, where `c` is the cosine and `s` the sine.
pub open spec fn direction_of(
    g: Game,
    c: spec_fn(Real) -> Real,
    s: spec_fn(Real) -> Real,
) -> (Real, Real) {
    (c(g.aim_angle), s(g.aim_angle))
}

/// A round, where `c`, `s` and `f` are the cosine, the sine and the
/// exponential.
pub open spec fn stepped(
    g: Game,
    event: Option<Event>,
    c: spec_fn(Real) -> Real,
    s: spec_fn(Real) -> Real,
    f: spec_fn(Real) -> Real,
) -> Game {
    update_of(event_handled(g, event, direction_of(g, c, s)), f)
}

/// The ball rolls once the event has been taken in.
pub open spec fn rolls_next(g: Game, event: Option<Event>) -> bool {
    match pressed(event) {
        Some(KeyCode::Char(c)) => if g.state == GameState::Rolling {
            c != 's' && c != 'S' && c != 'r' && c != 'R'
        } else {
            putts(g, KeyCode::Char(c))
        },
        _ => g.state == GameState::Rolling,
    }
}

/// The counters have room for what a round may add to them.
pub open spec fn has_room_of(g: Game, event: Option<Event>) -> bool {
    &&& pressed(event) matches Some(code) ==> (putts(g, code) ==> g.putt_count < u32::MAX)
    &&& rolls_next(g, event) ==> g.stuck_counter < u32::MAX
}

/// The count of slow ticks has room for a tick on the slope.
pub open spec fn counts(g: Game, slope: (Real, Real)) -> bool {
    let m = moved(g, slope.0, slope.1);
    g.stuck_counter == u32::MAX ==> holed(m) || !slow(m)
}

/// `slope` is what the exponential may give under the ball.
pub open spec fn may_lie_under_ball<E: Fn(Real) -> Real>(
    exp: E,
    g: Game,
    slope: (Real, Real),
) -> bool {
    may_be_slope(exp, g.ball_x, g.ball_y, g.current, slope)
}

/// The count of slow ticks has room for a tick on every slope that the
/// exponential may give.
pub open spec fn counts_with<E: Fn(Real) -> Real>(g: Game, exp: E) -> bool {
    g.stuck_counter < u32::MAX || forall|slope: (Real, Real)| #[trigger]
        may_lie_under_ball(exp, g, slope) ==> counts(g, slope)
}

/// `h` is what a tick of the rolling ball may make of `g`, whatever the
/// exponential returns from call to call.
pub open spec fn may_roll_to<E: Fn(Real) -> Real>(exp: E, g: Game, h: Game) -> bool {
    exists|slope: (Real, Real)| #[trigger]
        may_lie_under_ball(exp, g, slope) && h == rolled(g, slope.0, slope.1)
}

/// `h` is what a tick may make of `g`, whatever the exponential returns from
/// call to call.
pub open spec fn may_update_to<E: Fn(Real) -> Real>(exp: E, g: Game, h: Game) -> bool {
    match g.state {
        GameState::Rolling => may_roll_to(exp, g, h),
        GameState::Reshaping => h == morphed(g),
        _ => h == g,
    }
}

/// `h` is what a round may make of `g`, whatever the cosine, the sine and the
/// exponential return from call to call.
pub open spec fn may_step_to<
    C: Fn(Real) -> Real,
    S: Fn(Real) -> Real,
    E: Fn(Real) -> Real,
>(cos: C, sin: S, exp: E, g: Game, event: Option<Event>, h: Game) -> bool {
    exists|d: (Real, Real)| #[trigger]
        points_along(cos, sin, g.aim_angle, d) && may_update_to(
            exp,
            event_handled(g, event, d),
            h,
        )
}

impl App {
    pub fn new() -> (app: App)
        ensures
            app@ == start(),
            app@.wf(),
    {
        proof {
            law_start_is_well_formed();
        }
        App {
            state: GameState::Aiming,
            prev_state: GameState::Aiming,
            gaussians_before: gaussians_before(),
            gaussians_after: gaussians_after(),
            gaussians_current: gaussians_before(),
            morph_t: Real::decimal(0, 1),
            ball_x: Real::decimal(15, 10),
            ball_y: Real::decimal(15, 10),
            vel_x: Real::decimal(0, 1),
            vel_y: Real::decimal(0, 1),
            stuck_counter: 0,
            aim_angle: Real { bits: QUARTER_PI_BITS },
            putt_power: Real::decimal(25, 10),
            hole_x: Real::decimal(80, 10),
            hole_y: Real::decimal(75, 10),
            hole_radius: Real::decimal(45, 100),
            trail: VecDeque::new(),
            putt_count: 0,
            reshaped: false,
            should_quit: false,
        }
    }

    /// The landscape as it stands.
    pub fn current_gaussians(&self) -> (v: &Vec<Gaussian>)
        ensures
            v@ == self@.current,
    {
        &self.gaussians_current
    }

    /// Where the ball is aimed: the cosine and the sine of the aim angle.
    pub fn direction<C: Fn(Real) -> Real, S: Fn(Real) -> Real>(&self, cos: &C, sin: &S) -> (d: (
        Real,
        Real,
    ))
        requires
            total(*cos),
            total(*sin),
        ensures
            points_along(*cos, *sin, self.aim_angle, d),
            forall|c: spec_fn(Real) -> Real, s: spec_fn(Real) -> Real|
                #![trigger computes(*cos, c), computes(*sin, s)]
                computes(*cos, c) && computes(*sin, s) ==> d == direction_of(self@, c, s),
    {
        (cos(self.aim_angle), sin(self.aim_angle))
    }

    /// Takes in a key.
    pub fn handle_key<C: Fn(Real) -> Real, S: Fn(Real) -> Real>(
        &mut self,
        code: KeyCode,
        cos: &C,
        sin: &S,
    )
        requires
            total(*cos),
            total(*sin),
            putts(old(self)@, code) ==> old(self).putt_count < u32::MAX,
        ensures
            old(self)@.wf() ==> final(self)@.wf(),
            exists|d: (Real, Real)| #[trigger]
                points_along(*cos, *sin, old(self).aim_angle, d) && final(self)@ == key_handled(
                    old(self)@,
                    code,
                    d,
                ),
            forall|c: spec_fn(Real) -> Real, s: spec_fn(Real) -> Real|
                #![trigger computes(*cos, c), computes(*sin, s)]
                computes(*cos, c) && computes(*sin, s) ==> final(self)@ == key_handled(
                    old(self)@,
                    code,
                    direction_of(old(self)@, c, s),
                ),
    {
        let direction: (Real, Real) = self.direction(cos, sin);
        self.press(code, direction);
    }

    /// Takes in a key, where `direction` is the cosine and the sine of the aim
    /// angle.
    pub fn press(&mut self, code: KeyCode, direction: (Real, Real))
        requires
            putts(old(self)@, code) ==> old(self).putt_count < u32::MAX,
        ensures
            final(self)@ == key_handled(old(self)@, code, direction),
            old(self)@.wf() ==> final(self)@.wf(),
    {
        proof {
            if self@.wf() {
                law_keys_keep_well_formed(self@, code, direction);
            }
        }
        match code {
            KeyCode::Char(c) => {
                if c == 'q' || c == 'Q' {
                    self.should_quit = true;
                } else if c == ' ' {
                    if self.state == GameState::Aiming {
                        self.vel_x = direction.0.mul(self.putt_power);
                        self.vel_y = direction.1.mul(self.putt_power);
                        self.trail.clear();
                        self.putt_count = self.putt_count + 1;
                        self.state = GameState::Rolling;
                    }
                } else if c == 's' || c == 'S' {
                    if self.state == GameState::Rolling {
                        self.vel_x = Real::decimal(0, 1);
                        self.vel_y = Real::decimal(0, 1);
                        self.state = GameState::Aiming;
                    }
                } else if c == 'r' || c == 'R' {
                    if self.state == GameState::Stuck || self.state == GameState::Aiming
                        || self.state == GameState::Rolling {
                        self.prev_state = self.state;
                        self.state = GameState::Reshaping;
                        self.morph_t = Real::decimal(0, 1);
                        self.reshaped = true;
                    }
                }
            },
            KeyCode::Left => {
                if self.state == GameState::Aiming {
                    self.aim_angle = self.aim_angle.sub(Real::decimal(AIM_STEP_HUNDREDTHS, 100));
                }
            },
            KeyCode::Right => {
                if self.state == GameState::Aiming {
                    self.aim_angle = self.aim_angle.add(Real::decimal(AIM_STEP_HUNDREDTHS, 100));
                }
            },
            KeyCode::Up => {
                if self.state == GameState::Aiming {
                    self.putt_power = self.putt_power.add(
                        Real::decimal(PUTT_POWER_STEP_TENTHS, 10),
                    ).min(Real::decimal(60, 10));
                }
            },
            KeyCode::Down => {
                if self.state == GameState::Aiming {
                    self.putt_power = self.putt_power.sub(
                        Real::decimal(PUTT_POWER_STEP_TENTHS, 10),
                    ).max(Real::decimal(5, 10));
                }
            },
            KeyCode::Enter => {
                if self.state == GameState::Stuck || self.state == GameState::InHole {
                    self.reset_ball();
                }
            },
            KeyCode::Other => {},
        }
    }

    /// Puts the ball back on the tee.
    pub fn reset_ball(&mut self)
        ensures
            final(self)@ == ball_reset(old(self)@),
            old(self)@.wf() ==> final(self)@.wf(),
    {
        proof {
            if self@.wf() {
                law_reset_keeps_well_formed(self@);
            }
        }
        self.ball_x = Real::decimal(15, 10);
        self.ball_y = Real::decimal(15, 10);
        self.vel_x = Real::decimal(0, 1);
        self.vel_y = Real::decimal(0, 1);
        self.stuck_counter = 0;
        self.trail.clear();
        self.state = GameState::Aiming;
    }

    /// A tick of the rolling ball, where the slope under it is (`gx`, `gy`).
    pub fn roll(&mut self, gx: Real, gy: Real)
        requires
            counts(old(self)@, (gx, gy)),
        ensures
            final(self)@ == rolled(old(self)@, gx, gy),
            old(self)@.wf() && old(self).state != GameState::InHole ==> final(self)@.wf(),
    {
        proof {
            if self@.wf() && self.state != GameState::InHole {
                law_rolling_keeps_well_formed(self@, gx, gy);
            }
        }
        let damping: Real = Real::decimal(DAMPING_HUNDREDTHS, 100);
        let gravity: Real = Real::decimal(GRAVITY_TENTHS, 10);
        let dt: Real = Real::decimal(DT_HUNDREDTHS, 100);
        let low: Real = Real::decimal(1, 10);
        let high: Real = Real::decimal(99, 10);
        self.vel_x = self.vel_x.mul(damping).sub(gx.mul(gravity).mul(dt));
        self.vel_y = self.vel_y.mul(damping).sub(gy.mul(gravity).mul(dt));
        proof {
            lemma_decimal_order(1, 10, 99, 10);
        }
        self.ball_x = self.ball_x.add(self.vel_x.mul(dt)).clamp(low, high);
        self.ball_y = self.ball_y.add(self.vel_y.mul(dt)).clamp(low, high);
        self.trail.push_back((self.ball_x, self.ball_y));
        if self.trail.len() > TRAIL_LEN {
            self.trail.pop_front();
        }
        proof {
            assert(self@ == moved(old(self)@, gx, gy));
        }
        let speed: Real = length(self.vel_x, self.vel_y);
        let dx: Real = self.ball_x.sub(self.hole_x);
        let dy: Real = self.ball_y.sub(self.hole_y);
        let dist: Real = length(dx, dy);
        if dist.lt(self.hole_radius) {
            self.state = GameState::InHole;
            return;
        }
        if speed.lt(Real::decimal(12, 1000)) {
            self.stuck_counter = self.stuck_counter + 1;
            if self.stuck_counter >= STUCK_TICKS {
                self.state = GameState::Stuck;
            }
        } else {
            self.stuck_counter = 0;
        }
    }

    /// A tick of the rolling ball on the landscape as it stands.
    pub fn update_physics<E: Fn(Real) -> Real>(&mut self, exp: &E)
        requires
            total(*exp),
            counts_with(old(self)@, *exp),
        ensures
            old(self)@.wf() && old(self).state != GameState::InHole ==> final(self)@.wf(),
            may_roll_to(*exp, old(self)@, final(self)@),
            forall|f: spec_fn(Real) -> Real| #[trigger]
                computes(*exp, f) ==> {
                    let slope = slope_under_ball(old(self)@, f);
                    final(self)@ == rolled(old(self)@, slope.0, slope.1)
                },
    {
        let (gx, gy) = surface_grad(self.ball_x, self.ball_y, self.current_gaussians(), exp);
        proof {
            assert(may_lie_under_ball(*exp, self@, (gx, gy)));
        }
        self.roll(gx, gy);
    }

    /// A tick of the changing landscape.
    pub fn update_morph(&mut self)
        ensures
            final(self)@ == morphed(old(self)@),
            old(self)@.wf() && old(self).state == GameState::Reshaping ==> final(self)@.wf(),
    {
        proof {
            if self@.wf() && self.state == GameState::Reshaping {
                law_morphing_keeps_well_formed(self@);
            }
        }
        let one: Real = Real::decimal(1, 1);
        self.morph_t = self.morph_t.add(Real::decimal(1, MORPH_TICKS)).min(one);
        self.gaussians_current = blend(
            &self.gaussians_before,
            &self.gaussians_after,
            self.morph_t,
        );
        if one.le(self.morph_t) {
            self.state = GameState::Aiming;
        }
    }

    /// A tick: the ball rolls, or the landscape changes, or nothing moves.
    pub fn update<E: Fn(Real) -> Real>(&mut self, exp: &E)
        requires
            total(*exp),
            old(self).state == GameState::Rolling ==> counts_with(old(self)@, *exp),
        ensures
            old(self)@.wf() ==> final(self)@.wf(),
            may_update_to(*exp, old(self)@, final(self)@),
            forall|f: spec_fn(Real) -> Real| #[trigger]
                computes(*exp, f) ==> final(self)@ == update_of(old(self)@, f),
    {
        match self.state {
            GameState::Rolling => self.update_physics(exp),
            GameState::Reshaping => self.update_morph(),
            _ => {},
        }
    }

    /// Takes in what the terminal reported, if it did.
    pub fn handle_event<C: Fn(Real) -> Real, S: Fn(Real) -> Real>(
        &mut self,
        event: Option<Event>,
        cos: &C,
        sin: &S,
    )
        requires
            total(*cos),
            total(*sin),
            pressed(event) matches Some(code) ==> (putts(old(self)@, code) ==> old(
                self,
            ).putt_count < u32::MAX),
        ensures
            old(self)@.wf() ==> final(self)@.wf(),
            exists|d: (Real, Real)| #[trigger]
                points_along(*cos, *sin, old(self).aim_angle, d) && final(self)@ == event_handled(
                    old(self)@,
                    event,
                    d,
                ),
            forall|c: spec_fn(Real) -> Real, s: spec_fn(Real) -> Real|
                #![trigger computes(*cos, c), computes(*sin, s)]
                computes(*cos, c) && computes(*sin, s) ==> final(self)@ == event_handled(
                    old(self)@,
                    event,
                    direction_of(old(self)@, c, s),
                ),
    {
        let direction: (Real, Real) = self.direction(cos, sin);
        self.take_in(event, direction);
    }

    fn take_in(&mut self, event: Option<Event>, direction: (Real, Real))
        requires
            pressed(event) matches Some(code) ==> (putts(old(self)@, code) ==> old(
                self,
            ).putt_count < u32::MAX),
        ensures
            final(self)@ == event_handled(old(self)@, event, direction),
            old(self)@.wf() ==> final(self)@.wf(),
    {
        if let Some(Event::Key(code, kind)) = event {
            match kind {
                KeyEventKind::Press => self.press(code, direction),
                KeyEventKind::Repeat => {},
                KeyEventKind::Release => {},
            }
        }
    }

    /// Whether the counters have room for what a round may add to them.
    pub fn has_room(&self, event: Option<Event>) -> (r: bool)
        ensures
            r == has_room_of(self@, event),
    {
        let mut rolls: bool = self.state == GameState::Rolling;
        if let Some(Event::Key(KeyCode::Char(c), KeyEventKind::Press)) = event {
            if c == ' ' && self.state == GameState::Aiming {
                if self.putt_count == u32::MAX {
                    return false;
                }
                rolls = true;
            } else if c == 's' || c == 'S' || c == 'r' || c == 'R' {
                rolls = false;
            }
        }
        !rolls || self.stuck_counter < u32::MAX
    }

    /// One round of the game: takes in what the terminal reported, if it did,
    /// then ticks. Returns whether the game is over.
    pub fn step<C: Fn(Real) -> Real, S: Fn(Real) -> Real, E: Fn(Real) -> Real>(
        &mut self,
        event: Option<Event>,
        cos: &C,
        sin: &S,
        exp: &E,
    ) -> (over: bool)
        requires
            total(*cos),
            total(*sin),
            total(*exp),
            has_room_of(old(self)@, event),
        ensures
            over == final(self)@.should_quit,
            old(self)@.wf() ==> final(self)@.wf(),
            may_step_to(*cos, *sin, *exp, old(self)@, event, final(self)@),
            forall|
                c: spec_fn(Real) -> Real,
                s: spec_fn(Real) -> Real,
                f: spec_fn(Real) -> Real,
            |
                #![trigger computes(*cos, c), computes(*sin, s), computes(*exp, f)]
                computes(*cos, c) && computes(*sin, s) && computes(*exp, f) ==> final(self)@
                    == stepped(old(self)@, event, c, s, f),
    {
        let direction: (Real, Real) = self.direction(cos, sin);
        proof {
            lemma_rolls_next(self@, event, direction);
        }
        self.take_in(event, direction);
        self.update(exp);
        self.should_quit
    }
}

/// Whether the ball rolls after an event does not depend on where it is aimed.
proof fn lemma_rolls_next(g: Game, event: Option<Event>, direction: (Real, Real))
    ensures
        event_handled(g, event, direction).state == GameState::Rolling <==> rolls_next(g, event),
        rolls_next(g, event) ==> event_handled(g, event, direction).stuck_counter
            == g.stuck_counter,
{
}

fn length(x: Real, y: Real) -> (r: Real)
    ensures
        r == length_of(x, y),
{
    x.mul(x).add(y.mul(y)).sqrt()
}

} // verus!
