//! The landscape held against the same formulas in machine arithmetic.

use agent_golf::landscape::{blend, gaussians_after, gaussians_before};
use agent_golf::number::Real;
use agent_golf::surface::{height_to_color, project, surface, surface_grad, Color, Gaussian};

fn number(v: f64) -> Real {
    Real { bits: v.to_bits() }
}

fn float(r: Real) -> f64 {
    f64::from_bits(r.bits)
}

fn exp(r: Real) -> Real {
    number(float(r).exp())
}

fn params(g: &Gaussian) -> (f64, f64, f64, f64) {
    (float(g.cx), float(g.cy), float(g.amplitude), float(g.sigma))
}

fn height(x: f64, y: f64, table: &[(f64, f64, f64, f64)]) -> f64 {
    table
        .iter()
        .map(|&(cx, cy, amplitude, sigma)| {
            let dx = x - cx;
            let dy = y - cy;
            amplitude * (-(dx * dx + dy * dy) / (2.0 * sigma * sigma)).exp()
        })
        .sum()
}

const BEFORE: [(f64, f64, f64, f64); 11] = [
    (4.0, 5.0, 3.2, 1.4),
    (6.5, 3.0, 2.5, 1.0),
    (2.5, 7.5, 2.8, 1.1),
    (5.0, 8.0, 1.8, 0.9),
    (7.5, 6.5, 1.5, 0.8),
    (3.0, 1.5, 1.6, 0.7),
    (8.5, 2.0, 1.4, 0.8),
    (3.0, 3.5, -1.8, 0.7),
    (6.0, 6.5, -1.4, 0.6),
    (7.5, 4.5, -1.2, 0.5),
    (8.0, 7.5, -5.0, 0.55),
];

const AFTER: [(f64, f64, f64, f64); 11] = [
    (4.0, 5.0, 0.5, 1.4),
    (6.5, 3.0, 0.4, 1.0),
    (2.5, 7.5, 0.5, 1.1),
    (5.0, 8.0, 0.3, 0.9),
    (7.5, 6.5, 0.3, 0.8),
    (3.0, 1.5, 0.3, 0.7),
    (8.5, 2.0, 0.3, 0.8),
    (3.0, 3.5, -0.2, 0.7),
    (6.0, 6.5, -0.2, 0.6),
    (7.5, 4.5, -0.1, 0.5),
    (8.0, 7.5, -6.0, 1.2),
];

#[test]
fn tables_hold_the_decimals() {
    let before: Vec<(f64, f64, f64, f64)> = gaussians_before().iter().map(params).collect();
    let after: Vec<(f64, f64, f64, f64)> = gaussians_after().iter().map(params).collect();
    assert_eq!(before, BEFORE.to_vec());
    assert_eq!(after, AFTER.to_vec());
}

#[test]
fn heights_and_slopes_agree_with_the_machine() {
    let table = gaussians_before();
    for i in 0..12 {
        for j in 0..12 {
            let x = i as f64 * 0.93 - 0.3;
            let y = j as f64 * 0.89 + 0.01;
            let h = surface(number(x), number(y), &table, &exp);
            assert_eq!(h.bits, height(x, y, &BEFORE).to_bits());
            let (gx, gy) = surface_grad(number(x), number(y), &table, &exp);
            let eps = 0.05;
            let wx = (height(x + eps, y, &BEFORE) - height(x - eps, y, &BEFORE)) / (2.0 * eps);
            let wy = (height(x, y + eps, &BEFORE) - height(x, y - eps, &BEFORE)) / (2.0 * eps);
            assert_eq!(gx.bits, wx.to_bits());
            assert_eq!(gy.bits, wy.to_bits());
        }
    }
}

#[test]
fn an_exponential_that_is_handed_in_is_used() {
    // With one for the exponential, the height is the sum of the amplitudes.
    let table = gaussians_before();
    let h = surface(number(1.0), number(2.0), &table, &|_: Real| number(1.0));
    let sum: f64 = BEFORE.iter().map(|g| g.2).sum();
    assert_eq!(h.bits, sum.to_bits());
}

#[test]
fn the_empty_landscape_is_flat() {
    let none: Vec<Gaussian> = Vec::new();
    assert_eq!(float(surface(number(3.0), number(4.0), &none, &exp)), 0.0);
}

#[test]
fn a_hollow_lies_at_its_centre() {
    let g = Gaussian {
        cx: number(8.0),
        cy: number(7.5),
        amplitude: number(-5.0),
        sigma: number(0.55),
    };
    assert_eq!(float(g.eval(number(8.0), number(7.5), &exp)), -5.0);
    assert_eq!(float(g.exponent(number(8.0), number(7.5))), 0.0);
    assert_eq!(
        g.exponent(number(9.0), number(7.5)).bits,
        (-1.0f64 / (2.0 * 0.55 * 0.55)).to_bits()
    );
}

#[test]
fn a_blend_starts_at_one_landscape() {
    let before = gaussians_before();
    let after = gaussians_after();
    assert_eq!(blend(&before, &after, number(0.0)), before);
    let half = blend(&before, &after, number(0.5));
    for i in 0..11 {
        let (a, b) = (BEFORE[i].2, AFTER[i].2);
        assert_eq!(half[i].amplitude.bits, (a + (b - a) * 0.5).to_bits());
        assert_eq!(half[i], before[i].lerp(&after[i], number(0.5)));
    }
    let short = vec![after[0]];
    assert_eq!(blend(&before, &short, number(0.25)).len(), 1);
}

#[test]
fn projection_agrees_with_the_machine() {
    for (x, y, z) in [(1.5, 1.5, 0.0), (0.1, 9.9, -5.0), (8.0, 7.5, 3.25), (10.0, 0.0, 1e300)] {
        let (cx, cy) = project(number(x), number(y), number(z));
        let z_scale = 0.7;
        assert_eq!(cx.bits, ((x - y) * 0.866f64).to_bits());
        assert_eq!(cy.bits, ((x + y) * 0.45f64 + z * z_scale).to_bits());
    }
}

#[test]
fn hills_appear_above_hollows() {
    let low = project(number(3.0), number(4.0), number(-1.0));
    let high = project(number(3.0), number(4.0), number(1.0));
    assert!(float(low.1) < float(high.1));
    assert_eq!(low.0, high.0);
}

#[test]
fn heights_are_coloured_in_bands() {
    let cases: [(f64, Color); 15] = [
        (-9.0, Color::Rgb(255, 50, 255)),
        (-3.5000000000000004, Color::Rgb(255, 50, 255)),
        (-3.5, Color::Rgb(180, 50, 220)),
        (-2.0, Color::Rgb(50, 80, 220)),
        (-0.8, Color::Rgb(30, 180, 180)),
        (0.0, Color::Rgb(30, 180, 180)),
        (0.19999999999999998, Color::Rgb(30, 180, 180)),
        (0.2, Color::Rgb(50, 200, 80)),
        (1.2, Color::Rgb(220, 200, 50)),
        (2.1999999999999997, Color::Rgb(220, 200, 50)),
        (2.2, Color::Rgb(220, 80, 50)),
        (f64::INFINITY, Color::Rgb(220, 80, 50)),
        (f64::NEG_INFINITY, Color::Rgb(255, 50, 255)),
        (f64::NAN, Color::Rgb(220, 80, 50)),
        (-0.0, Color::Rgb(30, 180, 180)),
    ];
    for (h, color) in cases {
        assert_eq!(height_to_color(number(h)), color, "at {}", h);
    }
}

fn hill(cx: f64, cy: f64, amplitude: f64, sigma: f64) -> Gaussian {
    Gaussian {
        cx: number(cx),
        cy: number(cy),
        amplitude: number(amplitude),
        sigma: number(sigma),
    }
}

#[test]
fn a_hill_stays_within_its_amplitude_and_fades() {
    for amplitude in [3.2f64, -5.0] {
        let g = hill(4.0, 5.0, amplitude, 1.4);
        assert_eq!(float(g.eval(number(4.0), number(5.0), &exp)), amplitude);
        let mut last = amplitude.abs();
        for n in 1..60 {
            let v = float(g.eval(number(4.0 + 0.1 * n as f64), number(5.0), &exp));
            assert!(v.abs() <= last);
            assert!(v * amplitude >= 0.0);
            last = v.abs();
        }
    }
}

#[test]
fn a_hill_without_width_has_no_exponent_at_its_centre() {
    let g = hill(4.0, 5.0, 1.0, 0.0);
    assert!(float(g.exponent(number(4.0), number(5.0))).is_nan());
    assert_eq!(float(g.exponent(number(4.5), number(5.0))), f64::NEG_INFINITY);
    let wide = hill(4.0, 5.0, 1.0, 1e-10);
    assert!(!float(wide.exponent(number(1e300), number(5.0))).is_nan());
}

#[test]
fn one_hill_is_the_surface() {
    for g in gaussians_before() {
        let one = vec![g];
        let (x, y) = (number(3.3), number(6.1));
        assert_eq!(surface(x, y, &one, &exp), g.eval(x, y, &exp));
    }
}

#[test]
fn landscapes_add_up_in_any_order() {
    let one = gaussians_before();
    let other = gaussians_after();
    let mut both = one.clone();
    both.extend(other.iter().copied());
    let mut turned = both.clone();
    turned.reverse();
    for n in 0..20 {
        let (x, y) = (number(0.5 * n as f64), number(9.7 - 0.4 * n as f64));
        let sum = float(surface(x, y, &both, &exp));
        let parts = float(surface(x, y, &one, &exp)) + float(surface(x, y, &other, &exp));
        assert!((sum - parts).abs() < 1e-12);
        assert!((sum - float(surface(x, y, &turned, &exp))).abs() < 1e-12);
    }
}

#[test]
fn a_blend_ends_at_the_other_landscape() {
    let before = gaussians_before();
    let after = gaussians_after();
    for (b, a) in before.iter().zip(after.iter()) {
        let end = b.lerp(a, number(1.0));
        assert!((float(end.amplitude) - float(a.amplitude)).abs() < 1e-14);
        assert!((float(end.sigma) - float(a.sigma)).abs() < 1e-14);
        for t in [0.0, 0.1, 0.7, 1.0, 25.0, -3.0] {
            let r = b.lerp(a, number(t));
            assert_eq!((r.cx, r.cy), (b.cx, b.cy));
        }
    }
    // A zero keeps its value, though not always its sign.
    let zero = hill(-0.0, 0.0, 1.0, 1.0);
    let moved = zero.lerp(&hill(2.0, 0.0, 1.0, 1.0), number(0.0));
    assert_eq!(float(moved.cx), 0.0);
    assert_eq!(moved.cx.bits, 0);
    assert_eq!(zero.lerp(&zero, number(0.5)).cy.bits, 0);
}

#[test]
fn the_change_flattens_fills_and_opens() {
    let before = gaussians_before();
    let after = gaussians_after();
    for i in 0..11 {
        let (b, a) = (float(before[i].amplitude), float(after[i].amplitude));
        assert_eq!((before[i].cx, before[i].cy), (after[i].cx, after[i].cy));
        if i < 7 {
            assert!(0.0 < a && a < b);
        } else if i < 10 {
            assert!(b < a && a < 0.0);
        } else {
            assert!(a < b && float(before[i].sigma) < float(after[i].sigma));
        }
        if i < 10 {
            assert_eq!(before[i].sigma, after[i].sigma);
            assert!(b > float(before[10].amplitude) && a > float(after[10].amplitude));
        }
    }
}

#[test]
fn the_projection_is_strict_and_mirrored() {
    for (x, y, z) in [(100.0, -100.0, 99.0), (1.5, 8.25, -3.0), (4.0, 4.0, 0.0)] {
        let here = project(number(x), number(y), number(z));
        let above = project(number(x), number(y), number(z + 0.0011));
        assert!(float(here.1) < float(above.1));
        let there = project(number(y), number(x), number(z));
        assert_eq!(there.1, here.1);
        assert_eq!(float(there.0), -float(here.0));
    }
    let nowhere = project(number(f64::INFINITY), number(f64::INFINITY), number(0.0));
    assert!(float(nowhere.0).is_nan());
}

#[test]
fn an_exponential_may_differ_from_call_to_call() {
    let table = gaussians_before();
    let calls = std::cell::Cell::new(0u32);
    let unsteady = |_: Real| {
        calls.set(calls.get() + 1);
        number(calls.get() as f64 / 64.0)
    };
    // Each hill takes the next value, in order.
    let h = surface(number(1.0), number(2.0), &table, &unsteady);
    let sum = |first: u32| -> f64 {
        BEFORE.iter().enumerate().map(|(i, g)| g.2 * ((first as usize + i) as f64 / 64.0)).sum()
    };
    assert_eq!(calls.get(), 11);
    assert_eq!(h.bits, sum(1).to_bits());
    // East, west, north and south, in order.
    calls.set(0);
    let (gx, gy) = surface_grad(number(1.0), number(2.0), &table, &unsteady);
    let width: f64 = 2.0 * 0.05;
    assert_eq!(calls.get(), 44);
    assert_eq!(gx.bits, ((sum(1) - sum(12)) / width).to_bits());
    assert_eq!(gy.bits, ((sum(23) - sum(34)) / width).to_bits());
}

#[test]
fn huge_landscapes_add_up_too() {
    let one = vec![hill(0.0, 0.0, 1e307, 1.0), hill(0.0, 0.0, -3e306, 1.0)];
    let other = vec![hill(0.0, 0.0, 2.5e307, 1.0)];
    let mut both = one.clone();
    both.extend(other.iter().copied());
    let (x, y) = (number(0.0), number(0.0));
    let sum = float(surface(x, y, &both, &exp));
    let parts = float(surface(x, y, &one, &exp)) + float(surface(x, y, &other, &exp));
    assert!(sum.is_finite());
    assert!((sum - parts).abs() <= 1e293);
    both.reverse();
    assert!((sum - float(surface(x, y, &both, &exp))).abs() <= 1e293);
}
