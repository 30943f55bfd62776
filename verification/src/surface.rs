//! The energy landscape: a sum of Gaussian hills and hollows.

use vstd::prelude::*;

use crate::constants::{EPS_HUNDREDTHS, Z_SCALE_TENTHS};
use crate::convert::decimal;
use crate::number::{add_of, div_of, lt_of, mul_of, neg_of, sub_of, Real};

verus! {

/// `g` computes the function `f`: whatever it returns is what `f` gives.
pub open spec fn computes<G: Fn(Real) -> Real>(g: G, f: spec_fn(Real) -> Real) -> bool {
    forall|v: Real, r: Real| #[trigger] call_ensures(g, (v,), r) ==> r == f(v)
}

/// `g` can be called on every number.
pub open spec fn total<G: Fn(Real) -> Real>(g: G) -> bool {
    forall|v: Real| #[trigger] call_requires(g, (v,))
}

/// One hill, or, with a negative amplitude, one hollow.
#[derive(Clone, Copy, PartialEq, Eq, Structural, Debug)]
pub struct Gaussian {
    pub cx: Real,
    pub cy: Real,
    pub amplitude: Real,
    pub sigma: Real,
}

/// The squared distance of a point from the centre.
pub open spec fn distance2_of(g: Gaussian, x: Real, y: Real) -> Real {
    let dx = sub_of(x, g.cx);
    let dy = sub_of(y, g.cy);
    add_of(mul_of(dx, dx), mul_of(dy, dy))
}

/// Minus the squared distance from the centre, over twice sigma squared.
pub open spec fn exponent_of(g: Gaussian, x: Real, y: Real) -> Real {
    div_of(
        neg_of(distance2_of(g, x, y)),
        mul_of(mul_of(decimal(2, 1), g.sigma), g.sigma),
    )
}

/// The amplitude times the exponential `f` of the exponent.
pub open spec fn eval_of(g: Gaussian, x: Real, y: Real, f: spec_fn(Real) -> Real) -> Real {
    mul_of(g.amplitude, f(exponent_of(g, x, y)))
}

/// `a` moved towards `b` by the fraction `t` of the way.
pub open spec fn mix_of(a: Real, b: Real, t: Real) -> Real {
    add_of(a, mul_of(sub_of(b, a), t))
}

pub open spec fn lerp_of(a: Gaussian, b: Gaussian, t: Real) -> Gaussian {
    Gaussian {
        cx: mix_of(a.cx, b.cx, t),
        cy: mix_of(a.cy, b.cy, t),
        amplitude: mix_of(a.amplitude, b.amplitude, t),
        sigma: mix_of(a.sigma, b.sigma, t),
    }
}

/// The height at a point: the values of all Gaussians, added in order to -0,
/// which leaves every number as it is.
pub open spec fn surface_of(
    x: Real,
    y: Real,
    gaussians: Seq<Gaussian>,
    f: spec_fn(Real) -> Real,
) -> Real
    decreases gaussians.len(),
{
    if gaussians.len() == 0 {
        neg_of(decimal(0, 1))
    } else {
        add_of(
            surface_of(x, y, gaussians.drop_last(), f),
            eval_of(gaussians.last(), x, y, f),
        )
    }
}

/// `es` holds what `g` returned for the exponent of each Gaussian.
pub open spec fn returned<G: Fn(Real) -> Real>(
    g: G,
    x: Real,
    y: Real,
    gaussians: Seq<Gaussian>,
    es: Seq<Real>,
) -> bool {
    &&& es.len() == gaussians.len()
    &&& forall|i: int|
        0 <= i < es.len() ==> call_ensures(
            g,
            (exponent_of(gaussians[i], x, y),),
            #[trigger] es[i],
        )
}

/// The height for the given exponentials, one for each Gaussian.
pub open spec fn height_of(gaussians: Seq<Gaussian>, es: Seq<Real>) -> Real
    decreases gaussians.len(),
{
    if gaussians.len() == 0 {
        neg_of(decimal(0, 1))
    } else {
        add_of(
            height_of(gaussians.drop_last(), es.drop_last()),
            mul_of(gaussians.last().amplitude, es.last()),
        )
    }
}

/// `h` is a height that `g` may give at a point.
pub open spec fn may_be_height<G: Fn(Real) -> Real>(
    g: G,
    x: Real,
    y: Real,
    gaussians: Seq<Gaussian>,
    h: Real,
) -> bool {
    exists|es: Seq<Real>| #[trigger]
        returned(g, x, y, gaussians, es) && h == height_of(gaussians, es)
}

/// The distance at which slopes are sampled.
pub open spec fn eps() -> Real {
    decimal(EPS_HUNDREDTHS as int, 100)
}

/// The difference of two heights over twice the sampling distance.
pub open spec fn slope_of(ahead: Real, behind: Real) -> Real {
    div_of(sub_of(ahead, behind), mul_of(decimal(2, 1), eps()))
}

/// `slope` is a gradient that `g` may give at a point: the differences of
/// heights that it may give on either side.
pub open spec fn may_be_slope<G: Fn(Real) -> Real>(
    g: G,
    x: Real,
    y: Real,
    gaussians: Seq<Gaussian>,
    slope: (Real, Real),
) -> bool {
    exists|east: Real, west: Real, north: Real, south: Real|
        #![trigger slope_of(east, west), slope_of(north, south)]
        {
            &&& may_be_height(g, add_of(x, eps()), y, gaussians, east)
            &&& may_be_height(g, sub_of(x, eps()), y, gaussians, west)
            &&& may_be_height(g, x, add_of(y, eps()), gaussians, north)
            &&& may_be_height(g, x, sub_of(y, eps()), gaussians, south)
            &&& slope == (slope_of(east, west), slope_of(north, south))
        }
}

/// The gradient by central differences.
pub open spec fn grad_of(
    x: Real,
    y: Real,
    gaussians: Seq<Gaussian>,
    f: spec_fn(Real) -> Real,
) -> (Real, Real) {
    (
        slope_of(
            surface_of(add_of(x, eps()), y, gaussians, f),
            surface_of(sub_of(x, eps()), y, gaussians, f),
        ),
        slope_of(
            surface_of(x, add_of(y, eps()), gaussians, f),
            surface_of(x, sub_of(y, eps()), gaussians, f),
        ),
    )
}

impl Gaussian {
    /// What the exponential is taken of at a point.
    pub fn exponent(&self, x: Real, y: Real) -> (r: Real)
        ensures
            r == exponent_of(*self, x, y),
    {
        let dx: Real = x.sub(self.cx);
        let dy: Real = y.sub(self.cy);
        let two: Real = Real::decimal(2, 1);
        dx.mul(dx).add(dy.mul(dy)).neg().div(two.mul(self.sigma).mul(self.sigma))
    }

    /// The height that this Gaussian adds at a point.
    pub fn eval<E: Fn(Real) -> Real>(&self, x: Real, y: Real, exp: &E) -> (r: Real)
        requires
            total(*exp),
        ensures
            exists|e: Real| #[trigger]
                call_ensures(*exp, (exponent_of(*self, x, y),), e) && r == mul_of(
                    self.amplitude,
                    e,
                ),
            forall|f: spec_fn(Real) -> Real| #[trigger]
                computes(*exp, f) ==> r == eval_of(*self, x, y, f),
    {
        let e: Real = exp(self.exponent(x, y));
        self.amplitude.mul(e)
    }

    /// This Gaussian moved towards another, parameter by parameter.
    pub fn lerp(&self, other: &Gaussian, t: Real) -> (r: Gaussian)
        ensures
            r == lerp_of(*self, *other, t),
    {
        Gaussian {
            cx: mix(self.cx, other.cx, t),
            cy: mix(self.cy, other.cy, t),
            amplitude: mix(self.amplitude, other.amplitude, t),
            sigma: mix(self.sigma, other.sigma, t),
        }
    }
}

fn mix(a: Real, b: Real, t: Real) -> (r: Real)
    ensures
        r == mix_of(a, b, t),
{
    a.add(b.sub(a).mul(t))
}

/// The height of the landscape at a point.
pub fn surface<E: Fn(Real) -> Real>(
    x: Real,
    y: Real,
    gaussians: &Vec<Gaussian>,
    exp: &E,
) -> (h: Real)
    requires
        total(*exp),
    ensures
        may_be_height(*exp, x, y, gaussians@, h),
        forall|f: spec_fn(Real) -> Real| #[trigger]
            computes(*exp, f) ==> h == surface_of(x, y, gaussians@, f),
{
    let mut h: Real = Real::decimal(0, 1).neg();
    let mut i: usize = 0;
    let ghost mut es: Seq<Real> = Seq::empty();
    while i < gaussians.len()
        invariant
            total(*exp),
            i <= gaussians.len(),
            returned(*exp, x, y, gaussians@.take(i as int), es),
            h == height_of(gaussians@.take(i as int), es),
            forall|f: spec_fn(Real) -> Real| #[trigger]
                computes(*exp, f) ==> h == surface_of(x, y, gaussians@.take(i as int), f),
        decreases gaussians.len() - i,
    {
        let value: Real = gaussians[i].eval(x, y, exp);
        h = h.add(value);
        proof {
            let g = gaussians@[i as int];
            let next = gaussians@.take(i + 1);
            let e = choose|e: Real| #[trigger]
                call_ensures(*exp, (exponent_of(g, x, y),), e) && value == mul_of(g.amplitude, e);
            assert(next.drop_last() =~= gaussians@.take(i as int));
            assert(next.last() == g);
            assert(es.push(e).drop_last() =~= es);
            es = es.push(e);
        }
        i = i + 1;
    }
    proof {
        assert(gaussians@.take(i as int) =~= gaussians@);
    }
    h
}

/// An exponential that is a function gives one height at a point.
pub proof fn law_a_function_gives_one_height<G: Fn(Real) -> Real>(
    g: G,
    f: spec_fn(Real) -> Real,
    x: Real,
    y: Real,
    gaussians: Seq<Gaussian>,
    h: Real,
)
    requires
        computes(g, f),
        may_be_height(g, x, y, gaussians, h),
    ensures
        h == surface_of(x, y, gaussians, f),
{
    let es = choose|es: Seq<Real>| #[trigger]
        returned(g, x, y, gaussians, es) && h == height_of(gaussians, es);
    lemma_height_computed(g, f, x, y, gaussians, es);
}

proof fn lemma_height_computed<G: Fn(Real) -> Real>(
    g: G,
    f: spec_fn(Real) -> Real,
    x: Real,
    y: Real,
    gaussians: Seq<Gaussian>,
    es: Seq<Real>,
)
    requires
        computes(g, f),
        returned(g, x, y, gaussians, es),
    ensures
        height_of(gaussians, es) == surface_of(x, y, gaussians, f),
    decreases gaussians.len(),
{
    if gaussians.len() > 0 {
        let front = gaussians.drop_last();
        let firsts = es.drop_last();
        assert forall|i: int| 0 <= i < firsts.len() implies call_ensures(
            g,
            (exponent_of(front[i], x, y),),
            #[trigger] firsts[i],
        ) by {
            assert(firsts[i] == es[i]);
            assert(front[i] == gaussians[i]);
        }
        lemma_height_computed(g, f, x, y, front, firsts);
        assert(es[es.len() - 1] == es.last());
    }
}

/// An exponential that is a function gives one gradient at a point.
pub proof fn law_a_function_gives_one_slope<G: Fn(Real) -> Real>(
    g: G,
    f: spec_fn(Real) -> Real,
    x: Real,
    y: Real,
    gaussians: Seq<Gaussian>,
    slope: (Real, Real),
)
    requires
        computes(g, f),
        may_be_slope(g, x, y, gaussians, slope),
    ensures
        slope == grad_of(x, y, gaussians, f),
{
    let (east, west, north, south): (Real, Real, Real, Real) = choose|
        east: Real,
        west: Real,
        north: Real,
        south: Real,
    |
        #![trigger slope_of(east, west), slope_of(north, south)]
        {
            &&& may_be_height(g, add_of(x, eps()), y, gaussians, east)
            &&& may_be_height(g, sub_of(x, eps()), y, gaussians, west)
            &&& may_be_height(g, x, add_of(y, eps()), gaussians, north)
            &&& may_be_height(g, x, sub_of(y, eps()), gaussians, south)
            &&& slope == (slope_of(east, west), slope_of(north, south))
        };
    law_a_function_gives_one_height(g, f, add_of(x, eps()), y, gaussians, east);
    law_a_function_gives_one_height(g, f, sub_of(x, eps()), y, gaussians, west);
    law_a_function_gives_one_height(g, f, x, add_of(y, eps()), gaussians, north);
    law_a_function_gives_one_height(g, f, x, sub_of(y, eps()), gaussians, south);
}

fn slope(ahead: Real, behind: Real) -> (r: Real)
    ensures
        r == slope_of(ahead, behind),
{
    let eps: Real = Real::decimal(EPS_HUNDREDTHS, 100);
    ahead.sub(behind).div(Real::decimal(2, 1).mul(eps))
}

/// The gradient of the landscape at a point.
pub fn surface_grad<E: Fn(Real) -> Real>(
    x: Real,
    y: Real,
    gaussians: &Vec<Gaussian>,
    exp: &E,
) -> (g: (Real, Real))
    requires
        total(*exp),
    ensures
        may_be_slope(*exp, x, y, gaussians@, g),
        forall|f: spec_fn(Real) -> Real| #[trigger]
            computes(*exp, f) ==> g == grad_of(x, y, gaussians@, f),
{
    let eps: Real = Real::decimal(EPS_HUNDREDTHS, 100);
    let east: Real = surface(x.add(eps), y, gaussians, exp);
    let west: Real = surface(x.sub(eps), y, gaussians, exp);
    let north: Real = surface(x, y.add(eps), gaussians, exp);
    let south: Real = surface(x, y.sub(eps), gaussians, exp);
    (slope(east, west), slope(north, south))
}

/// The isometric projection of a point of space onto the canvas, whose y-axis
/// points up.
pub open spec fn project_of(x: Real, y: Real, z: Real) -> (Real, Real) {
    (
        mul_of(sub_of(x, y), decimal(866, 1000)),
        add_of(
            mul_of(add_of(x, y), decimal(45, 100)),
            mul_of(z, decimal(Z_SCALE_TENTHS as int, 10)),
        ),
    )
}

pub fn project(x: Real, y: Real, z: Real) -> (r: (Real, Real))
    ensures
        r == project_of(x, y, z),
{
    let cx: Real = x.sub(y).mul(Real::decimal(866, 1000));
    let cy: Real = x.add(y).mul(Real::decimal(45, 100)).add(
        z.mul(Real::decimal(Z_SCALE_TENTHS, 10)),
    );
    (cx, cy)
}

/// The colours that the game draws with.
#[derive(Clone, Copy, PartialEq, Eq, Structural, Debug)]
pub enum Color {
    Rgb(u8, u8, u8),
    Yellow,
    Green,
    Cyan,
    White,
    DarkGray,
}

/// The colour bands, from the deepest hollow to the highest peak.
pub open spec fn color_of(h: Real) -> Color {
    if lt_of(h, decimal(-35, 10)) {
        Color::Rgb(255, 50, 255)
    } else if lt_of(h, decimal(-20, 10)) {
        Color::Rgb(180, 50, 220)
    } else if lt_of(h, decimal(-8, 10)) {
        Color::Rgb(50, 80, 220)
    } else if lt_of(h, decimal(2, 10)) {
        Color::Rgb(30, 180, 180)
    } else if lt_of(h, decimal(12, 10)) {
        Color::Rgb(50, 200, 80)
    } else if lt_of(h, decimal(22, 10)) {
        Color::Rgb(220, 200, 50)
    } else {
        Color::Rgb(220, 80, 50)
    }
}

/// The colour of the wireframe at a height.
pub fn height_to_color(h: Real) -> (c: Color)
    ensures
        c == color_of(h),
{
    if h.lt(Real::decimal(-35, 10)) {
        Color::Rgb(255, 50, 255)
    } else if h.lt(Real::decimal(-20, 10)) {
        Color::Rgb(180, 50, 220)
    } else if h.lt(Real::decimal(-8, 10)) {
        Color::Rgb(50, 80, 220)
    } else if h.lt(Real::decimal(2, 10)) {
        Color::Rgb(30, 180, 180)
    } else if h.lt(Real::decimal(12, 10)) {
        Color::Rgb(50, 200, 80)
    } else if h.lt(Real::decimal(22, 10)) {
        Color::Rgb(220, 200, 50)
    } else {
        Color::Rgb(220, 80, 50)
    }
}

} // verus!
