//! What stands on the screen: texts, rows, and the picture.

use agent_golf::canvas::{brightness, x_bounds, y_bounds, Heights, Shape};
use agent_golf::fixed::{one_decimal, whole};
use agent_golf::game::{App, GameState, KeyCode};
use agent_golf::number::Real;
use agent_golf::screen::Area;
use agent_golf::surface::{height_to_color, project, surface, Color};
use agent_golf::text::digits;

fn number(v: f64) -> Real {
    Real { bits: v.to_bits() }
}

fn float(r: Real) -> f64 {
    f64::from_bits(r.bits)
}

fn exp(r: Real) -> Real {
    number(float(r).exp())
}

fn cos(r: Real) -> Real {
    number(float(r).cos())
}

fn sin(r: Real) -> Real {
    number(float(r).sin())
}

fn direction(app: &App) -> (Real, Real) {
    app.direction(&cos, &sin)
}

#[test]
fn integers_are_written_in_decimal() {
    for n in [0, 1, 9, 10, 42, 100, 999, 1000, 123456789, u32::MAX] {
        assert_eq!(digits(n), format!("{}", n));
    }
}

#[test]
fn decimals_are_written_as_the_standard_formats_them() {
    let mut v = 0.0f64;
    while v < 110.0 {
        assert_eq!(one_decimal(number(v)), format!("{:.1}", v));
        assert_eq!(whole(number(v)), format!("{:.0}", v));
        v += 0.0371;
    }
    for v in [0.0f64, 0.25, 0.75, 0.5, 1.5, 2.5, 3.5, 0.35, 99.95, 1e-300, 1048576.0, 0.05] {
        assert_eq!(one_decimal(number(v)), format!("{:.1}", v));
        assert_eq!(whole(number(v)), format!("{:.0}", v));
    }
}

#[test]
fn greys_agree_with_the_machine() {
    for len in 1..=60u32 {
        for age in 0..len {
            let want = (age as f64 / len as f64 * 200.0) as u8 + 55;
            assert_eq!(brightness(age, len), want);
        }
    }
}

#[test]
fn newer_positions_are_brighter() {
    assert_eq!(brightness(0, 60), 55);
    assert_eq!(brightness(59, 60), 251);
    for len in 1..=60 {
        assert_eq!(brightness(0, len), 55);
        assert!(brightness(len - 1, len) <= 251);
    }
    for age in 1..60 {
        assert!(brightness(age - 1, 60) <= brightness(age, 60));
    }
}

#[test]
fn the_title_tells_the_state() {
    let mut app = App::new();
    let want = [
        (GameState::Aiming, " E(x) = Σ aᵢ·exp(−‖x−cᵢ‖²/2σᵢ²)   |   Agent Golf", Color::Cyan),
        (GameState::Rolling, " E(x) = Σ aᵢ·exp(−‖x−cᵢ‖²/2σᵢ²)   |   Agent Golf", Color::Cyan),
        (GameState::Stuck, " E(x) = Σ aᵢ·exp(−‖x−cᵢ‖²/2σᵢ²)   |   Agent Golf", Color::Cyan),
        (GameState::Reshaping, " P(X|C) → P(X|C')  [Context Change]", Color::Yellow),
        (GameState::InHole, " ⛳ Global Minimum Reached — Valid Code Found!", Color::Green),
    ];
    for (state, text, color) in want {
        app.state = state;
        assert_eq!(app.title(), text);
        assert_eq!(app.title_color(), color);
    }
}

#[test]
fn the_footer_tells_the_keys() {
    let mut app = App::new();
    assert_eq!(
        app.controls(),
        "  ←/→ Aim  ↑/↓ Power: 2.5  [Space] Putt  [r] Reshape  [q] Quit  |  Aim and putt"
    );
    app.putt_count = 12;
    let want = [
        (GameState::Rolling, "Sampling inference in progress..."),
        (GameState::Stuck, "Stuck in local minimum — add context with [r] to reshape"),
        (GameState::Reshaping, "Reshaping energy landscape..."),
        (GameState::InHole, "Global minimum found! Press [Enter] to reset"),
    ];
    for (state, message) in want {
        app.state = state;
        assert_eq!(
            app.controls(),
            format!(
                "  [s] Stop  [r] Reshape  [Enter] Reset  [q] Quit  |  Putt #12 | {}",
                message
            )
        );
    }
}

#[test]
fn the_screen_is_split_into_three_rows() {
    let app = App::new();
    for height in [4, 5, 24, 50, 1000] {
        let area = Area { x: 3, y: 2, width: 80, height };
        let screen = app.render(area);
        assert_eq!(screen.title_area, Area { x: 3, y: 2, width: 80, height: 1 });
        assert_eq!(screen.canvas_area, Area { x: 3, y: 3, width: 80, height: height - 4 });
        assert_eq!(screen.footer_area, Area { x: 3, y: height - 1, width: 80, height: 3 });
        assert_eq!(screen.title, app.title());
        assert_eq!(screen.title_color, Color::Cyan);
        assert_eq!(screen.footer, app.controls());
        assert_eq!(screen.footer_color, Color::DarkGray);
    }
    // The largest area that ends within the terminal's coordinates.
    let screen = app.render(Area { x: 0, y: 100, width: 1, height: 65435 });
    assert_eq!(screen.footer_area, Area { x: 0, y: 65532, width: 1, height: 3 });
    assert_eq!(screen.canvas_area.height, 65431);
}

#[test]
fn a_small_screen_keeps_its_width_and_its_rows() {
    for height in [0, 1, 2, 3] {
        let screen = App::new().render(Area { x: 7, y: 5, width: 9, height });
        for area in [screen.title_area, screen.canvas_area, screen.footer_area] {
            assert_eq!((area.x, area.width), (7, 9));
            assert!(5 <= area.y && area.y + area.height <= 5 + height);
        }
    }
}

#[test]
fn the_labels_of_a_game_halfway_through_a_change() {
    let app = App {
        state: GameState::Reshaping,
        morph_t: number(0.5),
        putt_count: 7,
        ..App::new()
    };
    let shapes = app.render_canvas(&cos, &sin, &exp);
    let texts: Vec<(f64, f64, &str)> = shapes
        .iter()
        .filter_map(|s| match s {
            Shape::Text(x, y, t) => Some((float(*x), float(*y), t.as_str())),
            _ => None,
        })
        .collect();
    assert_eq!(texts.len(), 4);
    assert_eq!(texts[0].2, "Desired Artifacts");
    assert_eq!(texts[1].2, "⬤ LLM Output");
    assert_eq!(texts[2], (-7.0, 10.5, "Reshaping: 50%"));
    assert_eq!(texts[3], (-8.5, 11.2, "Putt #7"));
    // The wireframe alone is made of lines: there is no aim line.
    assert_eq!(lines(&shapes), 924);
}

#[test]
fn a_game_of_any_power_can_be_shown_while_the_ball_rolls() {
    let app = App { state: GameState::Rolling, putt_power: number(-1.0), ..App::new() };
    assert!(app.controls().starts_with("  [s] Stop"));
    assert_eq!(app.render(Area { x: 0, y: 0, width: 8, height: 8 }).footer, app.controls());
}

fn flat(app: &App) -> Heights {
    Heights {
        grid: vec![number(0.0); 484],
        ball: number(0.0),
        aim: number(0.0),
        hole: number(0.0),
        trail: vec![number(0.0); app.trail.len()],
    }
}

fn lines(shapes: &[Shape]) -> usize {
    shapes.iter().filter(|s| matches!(s, Shape::Line(..))).count()
}

#[test]
fn the_picture_while_aiming() {
    let app = App::new();
    let shapes = app.draw(&flat(&app), direction(&app));
    // Two families of 22 lines with 21 edges each, and the aim line.
    assert_eq!(lines(&shapes), 2 * 22 * 21 + 1);
    let texts: Vec<&str> = shapes
        .iter()
        .filter_map(|s| match s {
            Shape::Text(_, _, t) => Some(t.as_str()),
            _ => None,
        })
        .collect();
    assert_eq!(texts, vec!["Desired Artifacts", "⬤ LLM Output", "Putt #0"]);
    let layers = shapes.iter().filter(|s| matches!(s, Shape::Layer)).count();
    assert_eq!(layers, 3);
    let circles = shapes.iter().filter(|s| matches!(s, Shape::Circle(..))).count();
    assert_eq!(circles, 2);
}

#[test]
fn the_picture_while_reshaping() {
    let mut app = App::new();
    app.handle_key(KeyCode::Char('r'), &cos, &sin);
    for _ in 0..20 {
        app.update(&exp);
    }
    let shapes = app.render_canvas(&cos, &sin, &exp);
    assert_eq!(lines(&shapes), 2 * 22 * 21);
    let n = shapes.len();
    match &shapes[n - 2] {
        Shape::Text(x, y, t) => {
            assert_eq!((float(*x), float(*y)), (-7.0, 10.5));
            assert_eq!(t, &format!("Reshaping: {:.0}%", float(app.morph_t) * 100.0));
            assert_eq!(t, "Reshaping: 33%");
        }
        _ => panic!("a label"),
    }
    match &shapes[n - 1] {
        Shape::Text(x, y, t) => {
            assert_eq!((float(*x), float(*y)), (-8.5, 11.2));
            assert_eq!(t, "Putt #0");
        }
        _ => panic!("a label"),
    }
}

#[test]
fn the_wireframe_comes_from_back_to_front() {
    let app = App::new();
    let table = app.current_gaussians();
    let shapes = app.render_canvas(&cos, &sin, &exp);
    let mut n = 0;
    for sum in (0..43usize).rev() {
        for i in 0..22usize {
            if sum < i || sum - i >= 22 {
                continue;
            }
            let j = sum - i;
            let at = |i: usize, j: usize| {
                let x = i as f64 * 10.0 / 21.0;
                let y = j as f64 * 10.0 / 21.0;
                let z = surface(number(x), number(y), table, &exp);
                (project(number(x), number(y), z), height_to_color(z))
            };
            let ((sx, sy), color) = at(i, j);
            for (k, l) in [(i + 1, j), (i, j + 1)] {
                if k < 22 && l < 22 {
                    let ((nx, ny), _) = at(k, l);
                    match &shapes[n] {
                        Shape::Line(x1, y1, x2, y2, c) => {
                            assert_eq!((*x1, *y1, *x2, *y2, *c), (sx, sy, nx, ny, color));
                        }
                        _ => panic!("an edge"),
                    }
                    n += 1;
                }
            }
        }
    }
    assert_eq!(n, 924);
    assert!(matches!(shapes[n], Shape::Layer));
}

#[test]
fn the_trail_and_the_ball_stand_where_they_should() {
    let mut app = App::new();
    app.handle_key(KeyCode::Char(' '), &cos, &sin);
    for _ in 0..5 {
        app.update(&exp);
    }
    let table = app.current_gaussians();
    let shapes = app.render_canvas(&cos, &sin, &exp);
    // The wireframe, then a layer, the hole, its label and another layer.
    let first = 924 + 4;
    for n in 0..5 {
        let (x, y) = app.trail[n];
        let p = project(x, y, surface(x, y, table, &exp));
        let grey = (n as f64 / 5.0 * 200.0) as u8 + 55;
        match &shapes[first + n] {
            Shape::Circle(cx, cy, r, c) => {
                assert_eq!((*cx, *cy), p);
                assert_eq!(float(*r), 0.07);
                assert_eq!(*c, Color::Rgb(grey, grey, grey));
            }
            _ => panic!("a trail position"),
        }
    }
    let ball = project(
        app.ball_x,
        app.ball_y,
        surface(app.ball_x, app.ball_y, table, &exp),
    );
    assert!(matches!(shapes[first + 5], Shape::Layer));
    match &shapes[first + 6] {
        Shape::Circle(x, y, r, c) => {
            assert_eq!((*x, *y), ball);
            assert_eq!(float(*r), 0.22);
            assert_eq!(*c, Color::White);
        }
        _ => panic!("the ball"),
    }
    match &shapes[first + 7] {
        Shape::Text(x, y, t) => {
            assert_eq!(float(*x), float(ball.0) + 0.3);
            assert_eq!(float(*y), float(ball.1) + 0.2);
            assert_eq!(t, "⬤ LLM Output");
        }
        _ => panic!("the label of the ball"),
    }
}

#[test]
fn the_aim_line_reaches_with_the_power() {
    let app = App::new();
    let d = direction(&app);
    let shapes = app.draw(&flat(&app), d);
    let reach = 2.5 * 0.4;
    let angle = float(app.aim_angle);
    let ax = 1.5 + angle.cos() * reach;
    let ay = 1.5 + angle.sin() * reach;
    let want = project(number(ax), number(ay), number(0.0));
    let line = shapes
        .iter()
        .rev()
        .find(|s| matches!(s, Shape::Line(..)))
        .unwrap();
    match line {
        Shape::Line(_, _, x, y, c) => {
            assert_eq!((*x, *y), want);
            assert_eq!(*c, Color::Yellow);
        }
        _ => unreachable!(),
    }
}

#[test]
fn the_ball_in_the_hole_is_green() {
    let mut app = App::new();
    app.state = GameState::InHole;
    let shapes = app.draw(&flat(&app), direction(&app));
    let green = shapes
        .iter()
        .any(|s| matches!(s, Shape::Circle(_, _, _, Color::Rgb(80, 255, 80))));
    assert!(green);
}

#[test]
fn the_bounds_of_the_canvas() {
    let (x, y) = (x_bounds(), y_bounds());
    assert_eq!((float(x.0), float(x.1)), (-9.5, 9.5));
    assert_eq!((float(y.0), float(y.1)), (-5.0, 14.0));
}

#[test]
fn a_picture_takes_the_exponential_as_it_comes() {
    let calls = std::cell::Cell::new(0u32);
    let unsteady = |_: Real| {
        calls.set(calls.get() + 1);
        number(calls.get() as f64 / 65536.0)
    };
    let mut app = App::new();
    app.handle_key(KeyCode::Char(' '), &cos, &sin);
    app.update(&exp);
    let d = direction(&app);
    let h = app.measure(d, &unsteady);
    // Eleven hills at each grid point, the trail, the ball, the aim end and the
    // hole.
    assert_eq!(calls.get(), 11 * (484 + 1 + 3));
    calls.set(0);
    let table = app.current_gaussians();
    for n in 0..484 {
        assert_eq!(h.grid[n], surface(number(0.0), number(0.0), table, &unsteady));
    }
    assert_eq!(h.trail[0], surface(number(0.0), number(0.0), table, &unsteady));
    assert_eq!(h.ball, surface(number(0.0), number(0.0), table, &unsteady));
    assert_eq!(h.aim, surface(number(0.0), number(0.0), table, &unsteady));
    assert_eq!(h.hole, surface(number(0.0), number(0.0), table, &unsteady));
    assert_ne!(h.hole, h.ball);
}
