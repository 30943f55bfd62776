//! The game held against the same rules in machine arithmetic, tick by tick.

use agent_golf::game::{App, Event, GameState, KeyCode, KeyEventKind};
use agent_golf::landscape::{gaussians_after, gaussians_before};
use agent_golf::number::Real;

fn number(v: f64) -> Real {
    Real { bits: v.to_bits() }
}

fn float(r: Real) -> f64 {
    f64::from_bits(r.bits)
}

fn exp(r: Real) -> Real {
    number(float(r).exp())
}

fn cos(r: Real) -> Real {
    number(float(r).cos())
}

fn sin(r: Real) -> Real {
    number(float(r).sin())
}

fn press(app: &mut App, code: KeyCode) {
    app.handle_key(code, &cos, &sin);
}

fn step(app: &mut App, code: Option<KeyCode>) -> bool {
    app.step(code.map(|c| Event::Key(c, KeyEventKind::Press)), &cos, &sin, &exp)
}

/// The same rules on machine numbers.
#[derive(Clone, Copy)]
struct Hill {
    cx: f64,
    cy: f64,
    amplitude: f64,
    sigma: f64,
}

struct Model {
    state: GameState,
    before: Vec<Hill>,
    after: Vec<Hill>,
    current: Vec<Hill>,
    morph_t: f64,
    x: f64,
    y: f64,
    vx: f64,
    vy: f64,
    stuck: u32,
    angle: f64,
    power: f64,
    trail: Vec<(f64, f64)>,
    putts: u32,
}

fn hills(table: Vec<agent_golf::surface::Gaussian>) -> Vec<Hill> {
    table
        .iter()
        .map(|g| Hill {
            cx: float(g.cx),
            cy: float(g.cy),
            amplitude: float(g.amplitude),
            sigma: float(g.sigma),
        })
        .collect()
}

impl Model {
    fn new() -> Model {
        Model {
            state: GameState::Aiming,
            before: hills(gaussians_before()),
            after: hills(gaussians_after()),
            current: hills(gaussians_before()),
            morph_t: 0.0,
            x: 1.5,
            y: 1.5,
            vx: 0.0,
            vy: 0.0,
            stuck: 0,
            angle: std::f64::consts::FRAC_PI_4,
            power: 2.5,
            trail: Vec::new(),
            putts: 0,
        }
    }

    fn height(&self, x: f64, y: f64) -> f64 {
        self.current
            .iter()
            .map(|g| {
                let dx = x - g.cx;
                let dy = y - g.cy;
                g.amplitude * (-(dx * dx + dy * dy) / (2.0 * g.sigma * g.sigma)).exp()
            })
            .sum()
    }

    fn key(&mut self, code: KeyCode) {
        match (code, self.state) {
            (KeyCode::Left, GameState::Aiming) => self.angle -= 0.08,
            (KeyCode::Right, GameState::Aiming) => self.angle += 0.08,
            (KeyCode::Up, GameState::Aiming) => self.power = (self.power + 0.3).min(6.0),
            (KeyCode::Down, GameState::Aiming) => self.power = (self.power - 0.3).max(0.5),
            (KeyCode::Char(' '), GameState::Aiming) => {
                self.vx = self.angle.cos() * self.power;
                self.vy = self.angle.sin() * self.power;
                self.trail.clear();
                self.putts += 1;
                self.state = GameState::Rolling;
            }
            (KeyCode::Char('s'), GameState::Rolling) => {
                self.vx = 0.0;
                self.vy = 0.0;
                self.state = GameState::Aiming;
            }
            (
                KeyCode::Char('r'),
                GameState::Aiming | GameState::Rolling | GameState::Stuck,
            ) => {
                self.state = GameState::Reshaping;
                self.morph_t = 0.0;
            }
            (KeyCode::Enter, GameState::Stuck | GameState::InHole) => {
                self.x = 1.5;
                self.y = 1.5;
                self.vx = 0.0;
                self.vy = 0.0;
                self.stuck = 0;
                self.trail.clear();
                self.state = GameState::Aiming;
            }
            _ => {}
        }
    }

    fn tick(&mut self) {
        match self.state {
            GameState::Rolling => {
                let eps = 0.05;
                let (x, y) = (self.x, self.y);
                let gx = (self.height(x + eps, y) - self.height(x - eps, y)) / (2.0 * eps);
                let gy = (self.height(x, y + eps) - self.height(x, y - eps)) / (2.0 * eps);
                self.vx = self.vx * 0.90 - gx * 0.4 * 0.06;
                self.vy = self.vy * 0.90 - gy * 0.4 * 0.06;
                self.x = (self.x + self.vx * 0.06).clamp(0.1, 9.9);
                self.y = (self.y + self.vy * 0.06).clamp(0.1, 9.9);
                self.trail.push((self.x, self.y));
                if self.trail.len() > 60 {
                    self.trail.remove(0);
                }
                let speed = (self.vx * self.vx + self.vy * self.vy).sqrt();
                let dx = self.x - 8.0;
                let dy = self.y - 7.5;
                if (dx * dx + dy * dy).sqrt() < 0.45 {
                    self.state = GameState::InHole;
                } else if speed < 0.012 {
                    self.stuck += 1;
                    if self.stuck >= 20 {
                        self.state = GameState::Stuck;
                    }
                } else {
                    self.stuck = 0;
                }
            }
            GameState::Reshaping => {
                self.morph_t = (self.morph_t + 1.0 / 60.0).min(1.0);
                let t = self.morph_t;
                let mix = |a: f64, b: f64| a + (b - a) * t;
                self.current = self
                    .before
                    .iter()
                    .zip(self.after.iter())
                    .map(|(b, a)| Hill {
                        cx: mix(b.cx, a.cx),
                        cy: mix(b.cy, a.cy),
                        amplitude: mix(b.amplitude, a.amplitude),
                        sigma: mix(b.sigma, a.sigma),
                    })
                    .collect();
                if self.morph_t >= 1.0 {
                    self.state = GameState::Aiming;
                }
            }
            _ => {}
        }
    }
}

fn assert_same(app: &App, model: &Model, when: usize) {
    assert_eq!(app.state, model.state, "state at {}", when);
    assert_eq!(app.morph_t.bits, model.morph_t.to_bits(), "change at {}", when);
    assert_eq!(app.ball_x.bits, model.x.to_bits(), "x at {}", when);
    assert_eq!(app.ball_y.bits, model.y.to_bits(), "y at {}", when);
    assert_eq!(app.vel_x.bits, model.vx.to_bits(), "x velocity at {}", when);
    assert_eq!(app.vel_y.bits, model.vy.to_bits(), "y velocity at {}", when);
    assert_eq!(app.stuck_counter, model.stuck, "count of slow ticks at {}", when);
    assert_eq!(app.aim_angle.bits, model.angle.to_bits(), "angle at {}", when);
    assert_eq!(app.putt_power.bits, model.power.to_bits(), "power at {}", when);
    assert_eq!(app.putt_count, model.putts, "putts at {}", when);
    let trail: Vec<(f64, f64)> = app.trail.iter().map(|p| (float(p.0), float(p.1))).collect();
    assert_eq!(trail, model.trail, "trail at {}", when);
    for (g, h) in app.gaussians_current.iter().zip(model.current.iter()) {
        assert_eq!(g.amplitude.bits, h.amplitude.to_bits(), "landscape at {}", when);
        assert_eq!(g.sigma.bits, h.sigma.to_bits(), "landscape at {}", when);
    }
}

fn play(keys: &[(usize, KeyCode)], ticks: usize) -> (App, Vec<GameState>) {
    let mut app = App::new();
    let mut model = Model::new();
    let mut states = Vec::new();
    for n in 0..ticks {
        let key = keys.iter().find(|k| k.0 == n).map(|k| k.1);
        if let Some(code) = key {
            model.key(code);
        }
        model.tick();
        step(&mut app, key);
        assert_same(&app, &model, n);
        if states.last() != Some(&app.state) {
            states.push(app.state);
        }
    }
    (app, states)
}

#[test]
fn a_putt_on_the_hard_landscape_gets_stuck() {
    let (app, states) = play(&[(0, KeyCode::Char(' '))], 600);
    assert_eq!(states, vec![GameState::Rolling, GameState::Stuck]);
    assert_eq!(app.trail.len(), 60);
    assert_eq!(app.stuck_counter, 20);
}

#[test]
fn a_game_with_many_keys_agrees_with_the_machine() {
    let keys = [
        (1, KeyCode::Left),
        (2, KeyCode::Left),
        (3, KeyCode::Right),
        (4, KeyCode::Up),
        (5, KeyCode::Up),
        (6, KeyCode::Down),
        (7, KeyCode::Char(' ')),
        (8, KeyCode::Up),
        (9, KeyCode::Enter),
        (30, KeyCode::Char('s')),
        (31, KeyCode::Right),
        (32, KeyCode::Char(' ')),
        (60, KeyCode::Char('r')),
        (61, KeyCode::Char(' ')),
        (130, KeyCode::Up),
        (131, KeyCode::Char(' ')),
        (500, KeyCode::Enter),
        (501, KeyCode::Char(' ')),
    ];
    let (app, states) = play(&keys, 700);
    assert!(states.contains(&GameState::Rolling));
    assert!(states.contains(&GameState::Reshaping));
    assert!(app.reshaped);
}

#[test]
fn a_ball_near_the_hole_falls_in_and_resets() {
    let mut app = App::new();
    app.ball_x = number(7.2);
    app.ball_y = number(7.5);
    app.aim_angle = number(0.0);
    assert!(!step(&mut app, Some(KeyCode::Char(' '))));
    let mut ticks = 0;
    while app.state == GameState::Rolling && ticks < 200 {
        step(&mut app, None);
        ticks += 1;
    }
    assert_eq!(app.state, GameState::InHole);
    let kept = (app.putt_count, app.aim_angle, app.putt_power);
    // Nothing but Enter and q is heard in the hole.
    for code in [KeyCode::Char(' '), KeyCode::Char('r'), KeyCode::Char('s'), KeyCode::Left] {
        step(&mut app, Some(code));
        assert_eq!(app.state, GameState::InHole);
    }
    step(&mut app, Some(KeyCode::Enter));
    assert_eq!(app.state, GameState::Aiming);
    assert_eq!((float(app.ball_x), float(app.ball_y)), (1.5, 1.5));
    assert_eq!((float(app.vel_x), float(app.vel_y)), (0.0, 0.0));
    assert_eq!(app.stuck_counter, 0);
    assert!(app.trail.is_empty());
    assert_eq!((app.putt_count, app.aim_angle, app.putt_power), kept);
}

#[test]
fn the_hole_comes_before_the_count_of_slow_ticks() {
    let mut app = App::new();
    app.state = GameState::Rolling;
    app.ball_x = number(8.0);
    app.ball_y = number(7.5);
    app.stuck_counter = 19;
    app.roll(number(0.0), number(0.0));
    assert_eq!(app.state, GameState::InHole);
    assert_eq!(app.stuck_counter, 19);
}

#[test]
fn the_twentieth_slow_tick_sticks() {
    let mut app = App::new();
    app.state = GameState::Rolling;
    for n in 1..20 {
        app.roll(number(0.0), number(0.0));
        assert_eq!(app.state, GameState::Rolling);
        assert_eq!(app.stuck_counter, n);
    }
    app.roll(number(0.0), number(0.0));
    assert_eq!(app.state, GameState::Stuck);
    assert_eq!(app.stuck_counter, 20);
}

#[test]
fn a_fast_tick_starts_the_count_anew() {
    let mut app = App::new();
    app.state = GameState::Rolling;
    app.stuck_counter = 19;
    app.vel_x = number(1.0);
    app.roll(number(0.0), number(0.0));
    assert_eq!(app.stuck_counter, 0);
    assert_eq!(app.state, GameState::Rolling);
    // A full count may go on as long as the ball is fast.
    app.stuck_counter = u32::MAX;
    app.roll(number(0.0), number(0.0));
    assert_eq!(app.stuck_counter, 0);
}

#[test]
fn the_ball_stays_on_the_course() {
    let mut app = App::new();
    app.state = GameState::Rolling;
    app.vel_x = number(1e9);
    app.vel_y = number(-1e9);
    app.roll(number(0.0), number(0.0));
    assert_eq!((float(app.ball_x), float(app.ball_y)), (9.9, 0.1));
}

#[test]
fn a_slope_that_is_no_number_leaves_the_ball_rolling() {
    let mut app = App::new();
    app.state = GameState::Rolling;
    app.roll(number(f64::NAN), number(0.0));
    assert!(float(app.ball_x).is_nan());
    assert_eq!(app.state, GameState::Rolling);
    assert_eq!(app.stuck_counter, 0);
}

#[test]
fn the_trail_keeps_the_newest_positions() {
    let mut app = App::new();
    app.state = GameState::Rolling;
    let mut path = Vec::new();
    for n in 0..75 {
        app.roll(number(-1.0), number(0.5 * (n % 3) as f64));
        path.push((app.ball_x, app.ball_y));
        let from = path.len().saturating_sub(60);
        let trail: Vec<(Real, Real)> = app.trail.iter().copied().collect();
        assert_eq!(trail, path[from..].to_vec());
    }
}

#[test]
fn the_power_stays_between_its_bounds() {
    let mut app = App::new();
    let mut want = 2.5f64;
    for _ in 0..30 {
        press(&mut app, KeyCode::Up);
        want = (want + 0.3).min(6.0);
        assert_eq!(app.putt_power.bits, want.to_bits());
    }
    assert_eq!(float(app.putt_power), 6.0);
    for _ in 0..40 {
        press(&mut app, KeyCode::Down);
        want = (want - 0.3).max(0.5);
        assert_eq!(app.putt_power.bits, want.to_bits());
    }
    assert_eq!(float(app.putt_power), 0.5);
}

#[test]
fn a_reshape_takes_sixty_ticks() {
    let mut app = App::new();
    press(&mut app, KeyCode::Char('R'));
    assert_eq!(app.state, GameState::Reshaping);
    assert_eq!(app.prev_state, GameState::Aiming);
    assert!(app.reshaped);
    let mut ticks = 0;
    while app.state == GameState::Reshaping {
        app.update(&exp);
        ticks += 1;
    }
    assert_eq!(ticks, 60);
    assert_eq!(app.state, GameState::Aiming);
    assert_eq!(float(app.morph_t), 1.0);
    let one = number(1.0);
    let want = agent_golf::landscape::blend(&gaussians_before(), &gaussians_after(), one);
    assert_eq!(app.current_gaussians(), &want);
}

#[test]
fn keys_are_heard_only_in_their_states() {
    let codes = [
        KeyCode::Char(' '),
        KeyCode::Char('s'),
        KeyCode::Char('r'),
        KeyCode::Char('x'),
        KeyCode::Left,
        KeyCode::Right,
        KeyCode::Up,
        KeyCode::Down,
        KeyCode::Enter,
        KeyCode::Other,
    ];
    // For each state, the keys that change something.
    let heard: [(GameState, [bool; 10]); 5] = [
        (
            GameState::Aiming,
            [true, false, true, false, true, true, true, true, false, false],
        ),
        (
            GameState::Rolling,
            [false, true, true, false, false, false, false, false, false, false],
        ),
        (
            GameState::Stuck,
            [false, false, true, false, false, false, false, false, true, false],
        ),
        (
            GameState::Reshaping,
            [false, false, false, false, false, false, false, false, false, false],
        ),
        (
            GameState::InHole,
            [false, false, false, false, false, false, false, false, true, false],
        ),
    ];
    for (state, changes) in heard {
        for n in 0..10 {
            let mut app = App::new();
            app.state = state;
            press(&mut app, codes[n]);
            let changed = app.state != state
                || app.aim_angle != App::new().aim_angle
                || app.putt_power != App::new().putt_power;
            assert_eq!(changed, changes[n], "{:?} while {:?}", codes[n], state);
            assert!(!app.should_quit);
        }
    }
}

#[test]
fn only_q_ends_the_game() {
    for c in ['q', 'Q'] {
        for state in [GameState::Aiming, GameState::Rolling, GameState::Reshaping] {
            let mut app = App::new();
            app.state = state;
            assert!(step(&mut app, Some(KeyCode::Char(c))));
            assert!(step(&mut app, None));
        }
    }
}

#[test]
fn only_presses_count() {
    for kind in [KeyEventKind::Repeat, KeyEventKind::Release] {
        let mut app = App::new();
        assert!(!app.step(Some(Event::Key(KeyCode::Char('q'), kind)), &cos, &sin, &exp));
        app.handle_event(Some(Event::Key(KeyCode::Char(' '), kind)), &cos, &sin);
        assert_eq!(app.state, GameState::Aiming);
        assert_eq!(app.putt_count, 0);
    }
    let mut app = App::new();
    app.handle_event(Some(Event::Other), &cos, &sin);
    app.handle_event(None, &cos, &sin);
    assert_eq!(app.state, GameState::Aiming);
}

#[test]
fn waiting_is_still() {
    for state in [GameState::Aiming, GameState::Stuck, GameState::InHole] {
        let mut app = App::new();
        app.state = state;
        app.vel_x = number(3.0);
        app.update(&exp);
        assert_eq!(float(app.ball_x), 1.5);
        assert_eq!(float(app.vel_x), 3.0);
        assert!(app.trail.is_empty());
        assert_eq!(app.state, state);
    }
}

#[test]
fn a_new_game_aims_along_the_diagonal() {
    let app = App::new();
    assert_eq!(app.aim_angle.bits, std::f64::consts::FRAC_PI_4.to_bits());
    assert_eq!(float(app.putt_power), 2.5);
    assert_eq!((float(app.hole_x), float(app.hole_y)), (8.0, 7.5));
    assert_eq!(float(app.hole_radius), 0.45);
    assert_eq!(app.gaussians_current, gaussians_before());
    assert_eq!(app.putt_count, 0);
    assert!(!app.reshaped);
    assert!(!app.should_quit);
}

#[test]
fn counters_at_their_end_have_no_room() {
    let space = Some(Event::Key(KeyCode::Char(' '), KeyEventKind::Press));
    let stop = Some(Event::Key(KeyCode::Char('S'), KeyEventKind::Press));
    let mut app = App::new();
    assert!(app.has_room(space));
    app.putt_count = u32::MAX;
    assert!(!app.has_room(space));
    assert!(app.has_room(None));
    app.putt_count = 0;
    app.stuck_counter = u32::MAX;
    assert!(!app.has_room(space));
    assert!(app.has_room(None));
    app.state = GameState::Rolling;
    assert!(!app.has_room(None));
    assert!(!app.has_room(space));
    assert!(app.has_room(stop));
}

#[test]
fn letters_work_in_either_case() {
    for (a, b) in [('s', 'S'), ('r', 'R'), ('q', 'Q')] {
        let mut one = App::new();
        let mut other = App::new();
        one.state = GameState::Rolling;
        other.state = GameState::Rolling;
        press(&mut one, KeyCode::Char(a));
        press(&mut other, KeyCode::Char(b));
        assert_eq!(one.state, other.state);
        assert_eq!(one.should_quit, other.should_quit);
        assert_eq!(one.reshaped, other.reshaped);
        assert_eq!(one.prev_state, other.prev_state);
    }
}

#[test]
fn a_stop_keeps_the_ball_in_place() {
    let mut app = App::new();
    press(&mut app, KeyCode::Char(' '));
    for _ in 0..10 {
        app.update(&exp);
    }
    let place = (app.ball_x, app.ball_y);
    press(&mut app, KeyCode::Char('s'));
    assert_eq!(app.state, GameState::Aiming);
    assert_eq!((app.ball_x, app.ball_y), place);
    assert_eq!((float(app.vel_x), float(app.vel_y)), (0.0, 0.0));
    assert_eq!(app.trail.len(), 10);
    assert_eq!(app.putt_count, 1);
}

#[test]
fn rolling_and_reshaping_leave_each_other_alone() {
    let mut app = App::new();
    press(&mut app, KeyCode::Char(' '));
    app.update(&exp);
    assert_eq!(app.gaussians_current, gaussians_before());
    let ball = (app.ball_x, app.ball_y, app.vel_x, app.vel_y);
    press(&mut app, KeyCode::Char('r'));
    assert_eq!(app.prev_state, GameState::Rolling);
    app.update_morph();
    assert_eq!((app.ball_x, app.ball_y, app.vel_x, app.vel_y), ball);
    assert_eq!(app.trail.len(), 1);
    assert_ne!(app.gaussians_current, gaussians_before());
}

#[test]
fn a_putt_follows_the_aim() {
    for angle in [0.0f64, 0.7, 2.5, -1.9, 40.0] {
        let mut app = App::new();
        app.aim_angle = number(angle);
        let (c, s) = app.direction(&cos, &sin);
        assert_eq!((c.bits, s.bits), (angle.cos().to_bits(), angle.sin().to_bits()));
        press(&mut app, KeyCode::Char(' '));
        assert_eq!(app.vel_x.bits, (angle.cos() * 2.5).to_bits());
        assert_eq!(app.vel_y.bits, (angle.sin() * 2.5).to_bits());
        let mut other = App::new();
        other.aim_angle = number(angle);
        other.press(KeyCode::Char(' '), (c, s));
        assert_eq!((other.vel_x, other.vel_y), (app.vel_x, app.vel_y));
    }
}

#[test]
fn turning_back_restores_the_aim() {
    for (there, back) in [(KeyCode::Left, KeyCode::Right), (KeyCode::Right, KeyCode::Left)] {
        for angle in [0.0f64, 0.01, 0.785, -3.0, 100.0] {
            let mut app = App::new();
            app.aim_angle = number(angle);
            press(&mut app, there);
            assert_ne!(app.aim_angle, number(angle));
            press(&mut app, back);
            assert!((float(app.aim_angle) - angle).abs() <= (angle.abs() + 0.08) * 4.5e-16);
        }
    }
}

#[test]
fn a_reshape_ends_at_the_other_landscape() {
    let mut app = App::new();
    press(&mut app, KeyCode::Char('r'));
    for _ in 0..60 {
        app.update(&exp);
    }
    let before = gaussians_before();
    let after = gaussians_after();
    assert_eq!(app.current_gaussians().len(), 11);
    for (i, g) in app.current_gaussians().iter().enumerate() {
        assert_eq!((g.cx, g.cy), (before[i].cx, before[i].cy));
        assert!((float(g.amplitude) - float(after[i].amplitude)).abs() < 1e-12);
        assert!((float(g.sigma) - float(after[i].sigma)).abs() < 1e-12);
    }
}

#[test]
fn hills_keep_their_places_while_they_change() {
    let before = gaussians_before();
    let mut app = App::new();
    press(&mut app, KeyCode::Char('r'));
    while app.state == GameState::Reshaping {
        app.update(&exp);
        for (g, b) in app.current_gaussians().iter().zip(before.iter()) {
            assert_eq!((g.cx, g.cy), (b.cx, b.cy));
            assert!(float(g.sigma) >= float(b.sigma));
        }
    }
}

#[test]
fn the_ball_never_gets_lost() {
    let mut app = App::new();
    let codes = [
        KeyCode::Char(' '),
        KeyCode::Up,
        KeyCode::Left,
        KeyCode::Char('r'),
        KeyCode::Enter,
        KeyCode::Char('s'),
        KeyCode::Right,
    ];
    for n in 0..900usize {
        let key = if n % 7 == 0 { Some(codes[(n / 7 * 5) % 7]) } else { None };
        step(&mut app, key);
        for v in [app.ball_x, app.ball_y] {
            assert!(0.1 <= float(v) && float(v) <= 9.9);
        }
        for v in [app.vel_x, app.vel_y] {
            assert!(float(v).abs() <= 8192.0);
        }
        if app.state == GameState::InHole {
            let dx = float(app.ball_x) - 8.0;
            let dy = float(app.ball_y) - 7.5;
            assert!((dx * dx + dy * dy).sqrt() < 0.45);
        }
    }
}

#[test]
fn a_tick_leaves_the_ball_at_the_end_of_the_trail() {
    let mut app = App::new();
    press(&mut app, KeyCode::Char(' '));
    for n in 0..70usize {
        let old: Vec<(Real, Real)> = app.trail.iter().copied().collect();
        app.update_physics(&exp);
        let new: Vec<(Real, Real)> = app.trail.iter().copied().collect();
        assert_eq!(new.last(), Some(&(app.ball_x, app.ball_y)));
        assert_eq!(new.len(), (n + 1).min(60));
        let from = if old.len() == 60 { 1 } else { 0 };
        assert_eq!(new[..new.len() - 1], old[from..]);
    }
}

#[test]
fn a_full_count_may_tick_while_the_ball_is_fast() {
    let mut app = App::new();
    app.state = GameState::Rolling;
    app.stuck_counter = u32::MAX;
    app.vel_x = number(2.0);
    app.update_physics(&exp);
    assert_eq!(app.stuck_counter, 0);
    app.stuck_counter = u32::MAX;
    app.update(&exp);
    assert_eq!(app.stuck_counter, 0);
    assert_eq!(app.state, GameState::Rolling);
}

#[test]
fn ticks_go_by_the_state() {
    let mut rolling = App::new();
    let mut other = App::new();
    press(&mut rolling, KeyCode::Char(' '));
    press(&mut other, KeyCode::Char(' '));
    rolling.update(&exp);
    other.update_physics(&exp);
    assert_eq!((rolling.ball_x, rolling.ball_y), (other.ball_x, other.ball_y));
    assert_eq!(rolling.state, other.state);
    press(&mut rolling, KeyCode::Char('r'));
    press(&mut other, KeyCode::Char('r'));
    rolling.update(&exp);
    other.update_morph();
    assert_eq!(rolling.morph_t, other.morph_t);
    assert_eq!(rolling.current_gaussians(), other.current_gaussians());
    assert_eq!(rolling.state, GameState::Reshaping);
}

#[test]
fn a_tick_takes_the_exponential_as_it_comes() {
    let table = gaussians_before();
    let calls = std::cell::Cell::new(0u32);
    let unsteady = |r: Real| {
        calls.set(calls.get() + 1);
        number(float(r).exp() + calls.get() as f64 / 4096.0)
    };
    let mut app = App::new();
    let mut other = App::new();
    press(&mut app, KeyCode::Char(' '));
    press(&mut other, KeyCode::Char(' '));
    app.update(&unsteady);
    calls.set(0);
    let (gx, gy) =
        agent_golf::surface::surface_grad(other.ball_x, other.ball_y, &table, &unsteady);
    other.roll(gx, gy);
    assert_eq!((app.ball_x, app.ball_y), (other.ball_x, other.ball_y));
    assert_eq!((app.vel_x, app.vel_y), (other.vel_x, other.vel_y));
    assert_eq!(app.state, other.state);
    // The tick of a waiting game asks for nothing.
    calls.set(0);
    App::new().update(&unsteady);
    assert_eq!(calls.get(), 0);
}
