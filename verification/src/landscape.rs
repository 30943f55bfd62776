//! The two landscapes of the course, and the way from one to the other.

use vstd::prelude::*;

use crate::bounds::bounded;
use crate::convert::decimal;
use crate::number::{le_of, lt_of, Real};
use crate::surface::{lerp_of, Gaussian};

verus! {

/// A Gaussian given in hundredths.
pub open spec fn bump_of(cx: int, cy: int, amplitude: int, sigma: int) -> Gaussian {
    Gaussian {
        cx: decimal(cx, 100),
        cy: decimal(cy, 100),
        amplitude: decimal(amplitude, 100),
        sigma: decimal(sigma, 100),
    }
}

fn bump(cx: i32, cy: i32, amplitude: i32, sigma: i32) -> (g: Gaussian)
    ensures
        g == bump_of(cx as int, cy as int, amplitude as int, sigma as int),
{
    Gaussian {
        cx: Real::decimal(cx, 100),
        cy: Real::decimal(cy, 100),
        amplitude: Real::decimal(amplitude, 100),
        sigma: Real::decimal(sigma, 100),
    }
}

/// The landscape before the context changes: hills in the way, traps beside
/// it, and a narrow hole.
pub open spec fn before_table() -> Seq<Gaussian> {
    seq![
        bump_of(400, 500, 320, 140),
        bump_of(650, 300, 250, 100),
        bump_of(250, 750, 280, 110),
        bump_of(500, 800, 180, 90),
        bump_of(750, 650, 150, 80),
        bump_of(300, 150, 160, 70),
        bump_of(850, 200, 140, 80),
        bump_of(300, 350, -180, 70),
        bump_of(600, 650, -140, 60),
        bump_of(750, 450, -120, 50),
        bump_of(800, 750, -500, 55),
    ]
}

/// The landscape after the change: hills and traps nearly gone, and a wide,
/// deep basin round the hole.
pub open spec fn after_table() -> Seq<Gaussian> {
    seq![
        bump_of(400, 500, 50, 140),
        bump_of(650, 300, 40, 100),
        bump_of(250, 750, 50, 110),
        bump_of(500, 800, 30, 90),
        bump_of(750, 650, 30, 80),
        bump_of(300, 150, 30, 70),
        bump_of(850, 200, 30, 80),
        bump_of(300, 350, -20, 70),
        bump_of(600, 650, -20, 60),
        bump_of(750, 450, -10, 50),
        bump_of(800, 750, -600, 120),
    ]
}

pub fn gaussians_before() -> (v: Vec<Gaussian>)
    ensures
        v@ == before_table(),
{
    vec![
        // Large hills blocking the path
        bump(400, 500, 320, 140),
        bump(650, 300, 250, 100),
        bump(250, 750, 280, 110),
        // Medium bumps / ridges
        bump(500, 800, 180, 90),
        bump(750, 650, 150, 80),
        bump(300, 150, 160, 70),
        bump(850, 200, 140, 80),
        // Local minimum traps
        bump(300, 350, -180, 70),
        bump(600, 650, -140, 60),
        bump(750, 450, -120, 50),
        // The hole - narrow, hard to reach
        bump(800, 750, -500, 55),
    ]
}

pub fn gaussians_after() -> (v: Vec<Gaussian>)
    ensures
        v@ == after_table(),
{
    vec![
        // Hills flattened
        bump(400, 500, 50, 140),
        bump(650, 300, 40, 100),
        bump(250, 750, 50, 110),
        bump(500, 800, 30, 90),
        bump(750, 650, 30, 80),
        bump(300, 150, 30, 70),
        bump(850, 200, 30, 80),
        // Traps mostly filled
        bump(300, 350, -20, 70),
        bump(600, 650, -20, 60),
        bump(750, 450, -10, 50),
        // Hole widens and deepens - clear basin of attraction
        bump(800, 750, -600, 120),
    ]
}

/// `c` is a Gaussian that reshaping may have made of `b`: it has the same
/// centre, has a width and is no narrower, and is neither very wide nor very high or deep.
pub open spec fn shaped_from(c: Gaussian, b: Gaussian) -> bool {
    &&& c.cx == b.cx && c.cy == b.cy
    &&& lt_of(decimal(0, 1), c.sigma)
    &&& le_of(b.sigma, c.sigma) && bounded(c.sigma, 8)
    &&& bounded(c.amplitude, 32)
}

/// Each Gaussian of one landscape moved towards its partner in the other, as
/// far as both have one.
pub open spec fn blend_of(before: Seq<Gaussian>, after: Seq<Gaussian>, t: Real) -> Seq<Gaussian> {
    Seq::new(
        if before.len() <= after.len() {
            before.len()
        } else {
            after.len()
        },
        |i: int| lerp_of(before[i], after[i], t),
    )
}

pub fn blend(before: &Vec<Gaussian>, after: &Vec<Gaussian>, t: Real) -> (v: Vec<Gaussian>)
    ensures
        v@ == blend_of(before@, after@, t),
{
    let mut v: Vec<Gaussian> = Vec::new();
    let mut i: usize = 0;
    while i < before.len() && i < after.len()
        invariant
            i <= before.len(),
            i <= after.len(),
            v@.len() == i,
            forall|j: int| 0 <= j < i ==> v@[j] == lerp_of(before@[j], after@[j], t),
        decreases before.len() - i,
    {
        v.push(before[i].lerp(&after[i], t));
        i = i + 1;
    }
    v
}

} // verus!
