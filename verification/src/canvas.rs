//! What is drawn on the canvas, in the order in which it is drawn.

use vstd::arithmetic::power2::{lemma2_to64, lemma_pow2_adds, lemma_pow2_pos, pow2};
use vstd::prelude::*;

use crate::bounds::lemma_mul_value;
use crate::constants::{DOMAIN, GRID, TRAIL_LEN};
use crate::convert::{byte_of, clamp_of, decimal};
use crate::fixed::{printable, whole, whole_text};
use crate::game::{direction_of, points_along, App, Game, GameState};
use crate::number::{add_of, div_of, mul_of, signed, Real};
use crate::order::{
    law_div_keeps_order, law_mul_keeps_order, lemma_byte_integer, lemma_byte_order,
    lemma_decimal_integer, lemma_decimal_order, lemma_div_self, lemma_dyadic, lemma_mul_one,
    lemma_rounded_exact, lemma_rounded_monotone, lemma_signed,
};
use crate::rounding::{
    lemma_magnitude_increases, lemma_nearest_exact, lemma_nearest_monotone, magnitude, nearest,
};
use crate::surface::{
    color_of, computes, height_to_color, may_be_height, project, project_of, surface, surface_of,
    total, Color, Gaussian,
};
use crate::text::{digits, digits_of, joined};

verus! {

/// Something to draw.
#[derive(Debug)]
pub enum Shape {
    Line(Real, Real, Real, Real, Color),
    Circle(Real, Real, Real, Color),
    Text(Real, Real, String),
    /// What follows covers what came before.
    Layer,
}

/// A shape as a mathematical value.
pub enum Mark {
    Line(Real, Real, Real, Real, Color),
    Circle(Real, Real, Real, Color),
    Text(Real, Real, Seq<char>),
    Layer,
}

impl View for Shape {
    type V = Mark;

    open spec fn view(&self) -> Mark {
        match self {
            Shape::Line(x1, y1, x2, y2, c) => Mark::Line(*x1, *y1, *x2, *y2, *c),
            Shape::Circle(x, y, r, c) => Mark::Circle(*x, *y, *r, *c),
            Shape::Text(x, y, s) => Mark::Text(*x, *y, s@),
            Shape::Layer => Mark::Layer,
        }
    }
}

pub open spec fn marks(shapes: Seq<Shape>) -> Seq<Mark> {
    Seq::new(shapes.len(), |i: int| shapes[i]@)
}

proof fn lemma_marks_push(shapes: Seq<Shape>, s: Shape)
    ensures
        marks(shapes.push(s)) == marks(shapes).push(s@),
{
    assert(marks(shapes.push(s)) =~= marks(shapes).push(s@));
}

// ---- The wireframe ----

/// The cells of one diagonal, those with the given sum of indices, by the
/// first index, up to `upto`.
pub open spec fn diagonal(sum: int, upto: int) -> Seq<(int, int)>
    decreases upto,
{
    if upto <= 0 {
        Seq::empty()
    } else {
        let i = upto - 1;
        let rest = diagonal(sum, i);
        if 0 <= sum - i < GRID {
            rest.push((i, sum - i))
        } else {
            rest
        }
    }
}

/// The diagonals from the farthest one down to the one with the given sum.
pub open spec fn diagonals_down_to(sum: int) -> Seq<(int, int)>
    decreases 2 * GRID - 1 - sum,
{
    if sum >= 2 * GRID - 1 {
        Seq::empty()
    } else {
        diagonals_down_to(sum + 1) + diagonal(sum, GRID as int)
    }
}

/// The order in which the cells are drawn.
pub open spec fn draw_order() -> Seq<(int, int)> {
    diagonals_down_to(0)
}

/// The coordinate of a grid line.
pub open spec fn grid_coordinate(i: int) -> Real {
    div_of(mul_of(decimal(i, 1), decimal(DOMAIN as int, 1)), decimal(GRID - 1, 1))
}

/// Where the cell at (`i`, `j`) appears on the canvas at the given heights.
pub open spec fn grid_point(heights: Seq<Real>, i: int, j: int) -> (Real, Real) {
    project_of(grid_coordinate(i), grid_coordinate(j), heights[i * GRID + j])
}

pub open spec fn edge(heights: Seq<Real>, i: int, j: int, k: int, l: int) -> Mark {
    let a = grid_point(heights, i, j);
    let b = grid_point(heights, k, l);
    Mark::Line(a.0, a.1, b.0, b.1, color_of(heights[i * GRID + j]))
}

/// The edges from a cell to the next one in each direction, in the colour of
/// its height.
pub open spec fn cell_edges(heights: Seq<Real>, i: int, j: int) -> Seq<Mark> {
    let first = if i + 1 < GRID {
        seq![edge(heights, i, j, i + 1, j)]
    } else {
        Seq::empty()
    };
    if j + 1 < GRID {
        first.push(edge(heights, i, j, i, j + 1))
    } else {
        first
    }
}

pub open spec fn edges_along(heights: Seq<Real>, cells: Seq<(int, int)>) -> Seq<Mark>
    decreases cells.len(),
{
    if cells.len() == 0 {
        Seq::empty()
    } else {
        edges_along(heights, cells.drop_last()) + cell_edges(
            heights,
            cells.last().0,
            cells.last().1,
        )
    }
}

// ---- Heights ----

/// The heights that a picture needs.
#[derive(Debug)]
pub struct Heights {
    /// At the grid points, row by row.
    pub grid: Vec<Real>,
    pub ball: Real,
    pub aim: Real,
    pub hole: Real,
    /// At the positions of the trail.
    pub trail: Vec<Real>,
}

/// The heights as mathematical values.
#[verifier::ext_equal]
pub struct HeightMap {
    pub grid: Seq<Real>,
    pub ball: Real,
    pub aim: Real,
    pub hole: Real,
    pub trail: Seq<Real>,
}

impl View for Heights {
    type V = HeightMap;

    open spec fn view(&self) -> HeightMap {
        HeightMap {
            grid: self.grid@,
            ball: self.ball,
            aim: self.aim,
            hole: self.hole,
            trail: self.trail@,
        }
    }
}

/// The end of the aim line: from the ball along the aim, in proportion to the
/// power.
pub open spec fn aim_end(g: Game, direction: (Real, Real)) -> (Real, Real) {
    let reach = mul_of(g.putt_power, decimal(4, 10));
    (
        add_of(g.ball_x, mul_of(direction.0, reach)),
        add_of(g.ball_y, mul_of(direction.1, reach)),
    )
}

/// A coordinate kept on the course.
pub open spec fn kept_on_course(v: Real) -> Real {
    clamp_of(v, decimal(1, 10), decimal(99, 10))
}

/// The heights of a game, where `f` is the exponential.
pub open spec fn heights_of(
    g: Game,
    direction: (Real, Real),
    f: spec_fn(Real) -> Real,
) -> HeightMap {
    let end = aim_end(g, direction);
    HeightMap {
        grid: Seq::new(
            (GRID * GRID) as nat,
            |n: int|
                surface_of(
                    grid_coordinate(n / (GRID as int)),
                    grid_coordinate(n % (GRID as int)),
                    g.current,
                    f,
                ),
        ),
        ball: surface_of(g.ball_x, g.ball_y, g.current, f),
        aim: surface_of(kept_on_course(end.0), kept_on_course(end.1), g.current, f),
        hole: surface_of(g.hole_x, g.hole_y, g.current, f),
        trail: Seq::new(
            g.trail.len(),
            |n: int| surface_of(g.trail[n].0, g.trail[n].1, g.current, f),
        ),
    }
}

// ---- The picture ----

/// The grey of the position that has been on a trail of `len` since `age`.
pub open spec fn brightness_of(age: int, len: int) -> int {
    byte_of(mul_of(div_of(decimal(age, 1), decimal(len, 1)), decimal(200, 1))) + 55
}

pub open spec fn trail_mark(g: Game, h: HeightMap, n: int) -> Mark {
    let p = project_of(g.trail[n].0, g.trail[n].1, h.trail[n]);
    let grey = brightness_of(n, g.trail.len() as int) as u8;
    Mark::Circle(p.0, p.1, decimal(7, 100), Color::Rgb(grey, grey, grey))
}

pub open spec fn hole_marks(g: Game, h: HeightMap) -> Seq<Mark> {
    let p = project_of(g.hole_x, g.hole_y, h.hole);
    seq![
        Mark::Layer,
        Mark::Circle(p.0, p.1, decimal(35, 100), Color::Rgb(255, 80, 255)),
        Mark::Text(
            add_of(p.0, decimal(4, 10)),
            add_of(p.1, decimal(3, 10)),
            "Desired Artifacts"@,
        ),
        Mark::Layer,
    ]
}

pub open spec fn trail_marks(g: Game, h: HeightMap) -> Seq<Mark> {
    Seq::new(g.trail.len(), |n: int| trail_mark(g, h, n))
}

pub open spec fn ball_marks(g: Game, h: HeightMap) -> Seq<Mark> {
    let p = project_of(g.ball_x, g.ball_y, h.ball);
    let color = if g.state == GameState::InHole {
        Color::Rgb(80, 255, 80)
    } else {
        Color::White
    };
    seq![
        Mark::Layer,
        Mark::Circle(p.0, p.1, decimal(22, 100), color),
        Mark::Text(
            add_of(p.0, decimal(3, 10)),
            add_of(p.1, decimal(2, 10)),
            "⬤ LLM Output"@,
        ),
    ]
}

/// While aiming, the aim line from the ball.
pub open spec fn aim_marks(g: Game, h: HeightMap, direction: (Real, Real)) -> Seq<Mark> {
    if g.state == GameState::Aiming {
        let end = aim_end(g, direction);
        let a = project_of(g.ball_x, g.ball_y, h.ball);
        let b = project_of(end.0, end.1, h.aim);
        seq![Mark::Line(a.0, a.1, b.0, b.1, Color::Yellow)]
    } else {
        Seq::empty()
    }
}

/// What the labels show can be written out.
pub open spec fn labels_printable(g: Game) -> bool {
    g.state == GameState::Reshaping ==> printable(mul_of(g.morph_t, decimal(100, 1)))
}

/// While the landscape changes, how far it has come, in percent.
pub open spec fn reshape_marks(g: Game) -> Seq<Mark> {
    if g.state == GameState::Reshaping {
        seq![
            Mark::Text(
                decimal(-70, 10),
                decimal(105, 10),
                "Reshaping: "@ + whole_text(mul_of(g.morph_t, decimal(100, 1))) + "%"@,
            ),
        ]
    } else {
        Seq::empty()
    }
}

pub open spec fn count_marks(g: Game) -> Seq<Mark> {
    seq![
        Mark::Text(
            decimal(-85, 10),
            decimal(112, 10),
            "Putt #"@ + digits_of(g.putt_count as nat),
        ),
    ]
}

/// The whole picture: the wireframe from back to front, the hole, the trail,
/// and, on top, the ball and the labels.
pub open spec fn picture_of(
    g: Game,
    h: HeightMap,
    direction: (Real, Real),
) -> Seq<Mark> {
    edges_along(h.grid, draw_order()) + hole_marks(g, h) + trail_marks(g, h) + ball_marks(g, h)
        + aim_marks(g, h, direction) + reshape_marks(g) + count_marks(g)
}

/// `h` holds heights that the exponential may give, whatever it returns from
/// call to call: at the grid points, at the ball, at the end of the aim line,
/// at the hole and at each position of the trail.
pub open spec fn may_be_heights<E: Fn(Real) -> Real>(
    exp: E,
    g: Game,
    direction: (Real, Real),
    h: HeightMap,
) -> bool {
    let end = aim_end(g, direction);
    &&& h.grid.len() == GRID * GRID
    &&& h.trail.len() == g.trail.len()
    &&& forall|n: int|
        0 <= n < h.grid.len() ==> may_be_grid_height(exp, g, n, #[trigger] h.grid[n])
    &&& may_be_height(exp, g.ball_x, g.ball_y, g.current, h.ball)
    &&& may_be_height(exp, kept_on_course(end.0), kept_on_course(end.1), g.current, h.aim)
    &&& may_be_height(exp, g.hole_x, g.hole_y, g.current, h.hole)
    &&& forall|n: int|
        0 <= n < h.trail.len() ==> may_be_height(
            exp,
            g.trail[n].0,
            g.trail[n].1,
            g.current,
            #[trigger] h.trail[n],
        )
}

/// `h` is a height that the exponential may give at the grid point number `n`.
pub open spec fn may_be_grid_height<E: Fn(Real) -> Real>(
    exp: E,
    g: Game,
    n: int,
    h: Real,
) -> bool {
    may_be_height(
        exp,
        grid_coordinate(n / (GRID as int)),
        grid_coordinate(n % (GRID as int)),
        g.current,
        h,
    )
}

fn grid_line(i: u32) -> (r: Real)
    ensures
        r == grid_coordinate(i as int),
{
    Real::from_u32(i).mul(Real::decimal(DOMAIN, 1)).div(Real::from_u32(GRID - 1))
}

impl App {
    fn aim_point(&self, direction: (Real, Real)) -> (p: (Real, Real))
        ensures
            p == aim_end(self@, direction),
    {
        let reach: Real = self.putt_power.mul(Real::decimal(4, 10));
        (
            self.ball_x.add(direction.0.mul(reach)),
            self.ball_y.add(direction.1.mul(reach)),
        )
    }

    /// Measures the heights that a picture needs. `direction` is the cosine
    /// and the sine of the aim angle.
    pub fn measure<E: Fn(Real) -> Real>(&self, direction: (Real, Real), exp: &E) -> (h: Heights)
        requires
            total(*exp),
        ensures
            may_be_heights(*exp, self@, direction, h@),
            forall|f: spec_fn(Real) -> Real| #[trigger]
                computes(*exp, f) ==> h@ == heights_of(self@, direction, f),
    {
        let gaussians: &Vec<Gaussian> = self.current_gaussians();
        let mut grid: Vec<Real> = Vec::new();
        let mut i: u32 = 0;
        while i < GRID
            invariant
                total(*exp),
                i <= GRID,
                grid@.len() == i * GRID,
                gaussians@ == self@.current,
                forall|n: int|
                    0 <= n < grid@.len() ==> may_be_grid_height(
                        *exp,
                        self@,
                        n,
                        #[trigger] grid@[n],
                    ),
                forall|f: spec_fn(Real) -> Real, n: int| #[trigger]
                    computes(*exp, f) && 0 <= n < grid@.len() ==> #[trigger] grid@[n]
                        == heights_of(self@, direction, f).grid[n],
            decreases GRID - i,
        {
            let x: Real = grid_line(i);
            let mut j: u32 = 0;
            while j < GRID
                invariant
                    total(*exp),
                    i < GRID,
                    j <= GRID,
                    grid@.len() == i * GRID + j,
                    gaussians@ == self@.current,
                    x == grid_coordinate(i as int),
                    forall|n: int|
                        0 <= n < grid@.len() ==> may_be_grid_height(
                        *exp,
                        self@,
                        n,
                        #[trigger] grid@[n],
                    ),
                    forall|f: spec_fn(Real) -> Real, n: int| #[trigger]
                        computes(*exp, f) && 0 <= n < grid@.len() ==> #[trigger] grid@[n]
                            == heights_of(self@, direction, f).grid[n],
                decreases GRID - j,
            {
                let y: Real = grid_line(j);
                proof {
                    let n = i * GRID + j;
                    assert(n / (GRID as int) == i && n % (GRID as int) == j);
                }
                grid.push(surface(x, y, gaussians, exp));
                j = j + 1;
            }
            i = i + 1;
        }
        let mut trail: Vec<Real> = Vec::new();
        let mut k: usize = 0;
        while k < self.trail.len()
            invariant
                total(*exp),
                k <= self.trail.len(),
                trail@.len() == k,
                gaussians@ == self@.current,
                forall|n: int|
                    0 <= n < trail@.len() ==> may_be_height(
                        *exp,
                        self@.trail[n].0,
                        self@.trail[n].1,
                        self@.current,
                        #[trigger] trail@[n],
                    ),
                forall|f: spec_fn(Real) -> Real, n: int| #[trigger]
                    computes(*exp, f) && 0 <= n < trail@.len() ==> #[trigger] trail@[n]
                        == heights_of(self@, direction, f).trail[n],
            decreases self.trail.len() - k,
        {
            let p: (Real, Real) = self.trail[k];
            trail.push(surface(p.0, p.1, gaussians, exp));
            k = k + 1;
        }
        let end: (Real, Real) = self.aim_point(direction);
        let low: Real = Real::decimal(1, 10);
        let high: Real = Real::decimal(99, 10);
        proof {
            lemma_decimal_order(1, 10, 99, 10);
        }
        let h: Heights = Heights {
            grid,
            ball: surface(self.ball_x, self.ball_y, gaussians, exp),
            aim: surface(end.0.clamp(low, high), end.1.clamp(low, high), gaussians, exp),
            hole: surface(self.hole_x, self.hole_y, gaussians, exp),
            trail,
        };
        proof {
            assert forall|f: spec_fn(Real) -> Real| #[trigger] computes(*exp, f) implies h@
                == heights_of(self@, direction, f) by {
                let want = heights_of(self@, direction, f);
                assert(h@.grid =~= want.grid);
                assert(h@.trail =~= want.trail);
            }
        }
        h
    }
}

/// The grey of a trail position stays within a byte, and a newer position is
/// never darker than an older one. The oldest is exactly 55, and no position of
/// a trail that the game keeps is brighter than 251.
pub proof fn law_trail_fades(older: int, newer: int, len: int)
    requires
        0 <= older <= newer <= len,
        0 < len <= 0x8000_0000,
    ensures
        55 <= brightness_of(older, len) <= brightness_of(newer, len) <= 255,
        brightness_of(0, len) == 55,
        newer < len <= TRAIL_LEN ==> brightness_of(newer, len) <= 251,
{
    let a = decimal(older, 1);
    let b = decimal(newer, 1);
    let c = decimal(len, 1);
    let full = decimal(200, 1);
    lemma_decimal_integer(older);
    lemma_decimal_integer(newer);
    lemma_decimal_integer(len);
    lemma_decimal_integer(200);
    lemma_decimal_order(older, 1, newer, 1);
    lemma_decimal_order(newer, 1, len, 1);
    lemma_decimal_nonzero(len);
    lemma_decimal_nonzero(200);
    law_div_keeps_order(a, b, c);
    law_div_keeps_order(b, c, c);
    lemma_div_self(c);
    law_mul_keeps_order(div_of(a, c), div_of(b, c), full);
    law_mul_keeps_order(div_of(b, c), decimal(1, 1), full);
    lemma_mul_one(full);
    lemma_byte_order(mul_of(div_of(a, c), full), mul_of(div_of(b, c), full));
    lemma_byte_order(mul_of(div_of(b, c), full), full);
    lemma_byte_integer(200);
    lemma_oldest_grey(len);
    if newer < len <= TRAIL_LEN {
        lemma_newest_grey(newer, len);
    }
}

/// The oldest position is drawn in the darkest grey.
proof fn lemma_oldest_grey(len: int)
    requires
        0 < len <= 0x8000_0000,
    ensures
        brightness_of(0, len) == 55,
{
    let p = pow2(1074) as int;
    let c = decimal(len, 1);
    lemma_pow2_pos(1074);
    lemma_decimal_integer(0);
    lemma_decimal_integer(len);
    lemma_decimal_integer(200);
    lemma_decimal_nonzero(len);
    lemma_magnitude_increases(0, c.key());
    assert(magnitude(0) == 0);
    assert(0 * p == 0);
    assert(decimal(0, 1) == signed(false, 0));
    assert(0 * magnitude(c.key()) == 0);
    lemma_nearest_exact(0, 0, magnitude(c.key()));
    assert(div_of(decimal(0, 1), c) == signed(false, 0));
    assert(0 * magnitude(decimal(200, 1).key()) == 0);
    lemma_nearest_exact(0, 0, p);
    assert(mul_of(signed(false, 0), decimal(200, 1)) == signed(false, 0));
}

/// A position of a trail that the game keeps is at most 59 sixtieths of the
/// way.
proof fn lemma_newest_grey(age: int, len: int)
    requires
        0 <= age < len <= TRAIL_LEN,
    ensures
        brightness_of(age, len) <= 251,
{
    let p = pow2(1074) as int;
    let u = pow2(1064) as int;
    let a = decimal(age, 1);
    let c = decimal(len, 1);
    let full = decimal(200, 1);
    let share = decimal(1007, 1024);
    let grey = decimal(201400, 1024);
    let d = div_of(a, c);
    lemma2_to64();
    lemma_pow2_pos(1074);
    lemma_pow2_pos(1064);
    lemma_pow2_adds(10, 1064);
    lemma_dyadic(1007, 10);
    lemma_dyadic(201400, 10);
    lemma_decimal_integer(age);
    lemma_decimal_integer(len);
    lemma_decimal_integer(200);
    lemma_decimal_nonzero(len);
    assert(((age * p) * p) * 1024 <= (1007 * p) * (len * p)) by (nonlinear_arith)
        requires
            0 <= age < len <= 60,
            p > 0,
    ;
    assert(0 <= (age * p) * p && 0 < len * p && 0 <= 1007 * p) by (nonlinear_arith)
        requires
            0 <= age < len,
            p > 0,
    ;
    lemma_nearest_monotone((age * p) * p, len * p, 1007 * p, 1024);
    let k = nearest((age * p) * p, len * p);
    let l = nearest(1007 * p, 1024);
    lemma_signed(false, k);
    lemma_signed(false, l);
    assert(d == signed(false, k));
    assert(share == signed(false, l));
    if k < l {
        lemma_magnitude_increases(k, l);
    }
    if k > 0 {
        lemma_magnitude_increases(0, k);
    }
    assert(magnitude(0) == 0);
    assert(0 <= d.units() <= 1007 * u);
    lemma_mul_value(d, full);
    lemma_rounded_exact(grey, false);
    assert((d.units() * (200 * p)) * 1 <= (201400 * u) * p) by (nonlinear_arith)
        requires
            0 <= d.units() <= 1007 * u,
            p > 0,
    ;
    lemma_rounded_monotone(d.units() * full.units(), p, false, grey.units(), 1, false);
    lemma_byte_order(mul_of(d, full), grey);
    assert((201400 * u) / p == 196) by (nonlinear_arith)
        requires
            p == 1024 * u,
            u > 0,
    ;
}

proof fn lemma_decimal_nonzero(n: int)
    requires
        0 < n <= 0x8000_0000,
    ensures
        !decimal(n, 1).is_zero(),
{
    let p = pow2(1074) as int;
    lemma_pow2_pos(1074);
    lemma_decimal_integer(n);
    assert(n * p > 0) by (nonlinear_arith)
        requires
            n > 0,
            p > 0,
    ;
    assert(magnitude(0) == 0);
}

/// The grey of the position at index `age` of a trail of length `len`.
pub fn brightness(age: u32, len: u32) -> (b: u8)
    requires
        age < len <= 0x8000_0000,
    ensures
        b == brightness_of(age as int, len as int),
{
    proof {
        law_trail_fades(age as int, age as int, len as int);
    }
    Real::from_u32(age).div(Real::from_u32(len)).mul(Real::decimal(200, 1)).to_byte() + 55
}

impl Heights {
    fn at(&self, i: u32, j: u32) -> (r: Real)
        requires
            self@.grid.len() == GRID * GRID,
            i < GRID,
            j < GRID,
        ensures
            r == self@.grid[i * GRID + j],
    {
        self.grid[(i * GRID + j) as usize]
    }

    fn point(&self, i: u32, j: u32) -> (p: (Real, Real))
        requires
            self@.grid.len() == GRID * GRID,
            i < GRID,
            j < GRID,
        ensures
            p == grid_point(self@.grid, i as int, j as int),
    {
        project(grid_line(i), grid_line(j), self.at(i, j))
    }

    /// Draws the edges from one cell.
    fn draw_cell(&self, i: u32, j: u32, out: &mut Vec<Shape>)
        requires
            self@.grid.len() == GRID * GRID,
            i < GRID,
            j < GRID,
        ensures
            marks(final(out)@) == marks(old(out)@) + cell_edges(self@.grid, i as int, j as int),
    {
        let (sx, sy) = self.point(i, j);
        let color: Color = height_to_color(self.at(i, j));
        let ghost before = marks(out@);
        if i + 1 < GRID {
            let (nx, ny) = self.point(i + 1, j);
            let line: Shape = Shape::Line(sx, sy, nx, ny, color);
            proof {
                lemma_marks_push(out@, line);
            }
            out.push(line);
        }
        if j + 1 < GRID {
            let (nx, ny) = self.point(i, j + 1);
            let line: Shape = Shape::Line(sx, sy, nx, ny, color);
            proof {
                lemma_marks_push(out@, line);
            }
            out.push(line);
        }
        proof {
            assert(marks(out@) =~= before + cell_edges(self@.grid, i as int, j as int));
        }
    }

    /// Draws the wireframe from back to front.
    fn draw_wireframe(&self, out: &mut Vec<Shape>)
        requires
            self@.grid.len() == GRID * GRID,
        ensures
            marks(final(out)@) == marks(old(out)@) + edges_along(self@.grid, draw_order()),
    {
        let ghost before = marks(out@);
        let mut above: u32 = 2 * GRID - 1;
        proof {
            assert(marks(out@) =~= before + edges_along(self@.grid, Seq::empty()));
        }
        while above > 0
            invariant
                self@.grid.len() == GRID * GRID,
                above <= 2 * GRID - 1,
                marks(out@) == before + edges_along(self@.grid, diagonals_down_to(above as int)),
            decreases above,
        {
            let sum: u32 = above - 1;
            let ghost farther = diagonals_down_to(above as int);
            let mut i: u32 = 0;
            proof {
                assert(farther + diagonal(sum as int, 0) =~= farther);
            }
            while i < GRID
                invariant
                    self@.grid.len() == GRID * GRID,
                    i <= GRID,
                    sum < 2 * GRID - 1,
                    marks(out@) == before + edges_along(
                        self@.grid,
                        farther + diagonal(sum as int, i as int),
                    ),
                decreases GRID - i,
            {
                let ghost cells = farther + diagonal(sum as int, i as int);
                let ghost next = farther + diagonal(sum as int, i + 1);
                if sum >= i && sum - i < GRID {
                    let j: u32 = sum - i;
                    self.draw_cell(i, j, out);
                    proof {
                        assert(next =~= cells.push((i as int, j as int)));
                        assert(next.drop_last() =~= cells);
                        assert(marks(out@) =~= before + edges_along(self@.grid, next));
                    }
                } else {
                    proof {
                        assert(next =~= cells);
                    }
                }
                i = i + 1;
            }
            above = sum;
        }
    }
}

fn label(x: Real, y: Real, text: String) -> (s: Shape)
    ensures
        s@ == Mark::Text(x, y, text@),
{
    Shape::Text(x, y, text)
}

fn put(out: &mut Vec<Shape>, s: Shape)
    ensures
        marks(final(out)@) == marks(old(out)@).push(s@),
{
    proof {
        lemma_marks_push(out@, s);
    }
    out.push(s);
}

impl App {
    fn draw_hole(&self, h: &Heights, out: &mut Vec<Shape>)
        ensures
            marks(final(out)@) == marks(old(out)@) + hole_marks(self@, h@),
    {
        let (x, y) = project(self.hole_x, self.hole_y, h.hole);
        let ghost before = marks(out@);
        put(out, Shape::Layer);
        put(out, Shape::Circle(x, y, Real::decimal(35, 100), Color::Rgb(255, 80, 255)));
        put(
            out,
            label(
                x.add(Real::decimal(4, 10)),
                y.add(Real::decimal(3, 10)),
                String::from_str("Desired Artifacts"),
            ),
        );
        put(out, Shape::Layer);
        proof {
            assert(marks(out@) =~= before + hole_marks(self@, h@));
        }
    }

    fn draw_trail(&self, h: &Heights, out: &mut Vec<Shape>)
        requires
            self@.trail.len() <= TRAIL_LEN,
            h@.trail.len() == self@.trail.len(),
        ensures
            marks(final(out)@) == marks(old(out)@) + trail_marks(self@, h@),
    {
        let ghost before = marks(out@);
        let len: usize = self.trail.len();
        let mut n: usize = 0;
        proof {
            assert(marks(out@) =~= before + trail_marks(self@, h@).take(0));
        }
        while n < len
            invariant
                len == self@.trail.len(),
                len <= TRAIL_LEN,
                n <= len,
                h@.trail.len() == len,
                marks(out@) == before + trail_marks(self@, h@).take(n as int),
            decreases len - n,
        {
            let p: (Real, Real) = self.trail[n];
            let (x, y) = project(p.0, p.1, h.trail[n]);
            let grey: u8 = brightness(n as u32, len as u32);
            put(out, Shape::Circle(x, y, Real::decimal(7, 100), Color::Rgb(grey, grey, grey)));
            proof {
                assert(marks(out@) =~= before + trail_marks(self@, h@).take(n + 1));
            }
            n = n + 1;
        }
        proof {
            assert(trail_marks(self@, h@).take(len as int) =~= trail_marks(self@, h@));
        }
    }

    fn draw_ball(&self, h: &Heights, direction: (Real, Real), out: &mut Vec<Shape>)
        ensures
            marks(final(out)@) == marks(old(out)@) + ball_marks(self@, h@) + aim_marks(
                self@,
                h@,
                direction,
            ),
    {
        let (x, y) = project(self.ball_x, self.ball_y, h.ball);
        let color: Color = if self.state == GameState::InHole {
            Color::Rgb(80, 255, 80)
        } else {
            Color::White
        };
        let ghost before = marks(out@);
        put(out, Shape::Layer);
        put(out, Shape::Circle(x, y, Real::decimal(22, 100), color));
        put(
            out,
            label(
                x.add(Real::decimal(3, 10)),
                y.add(Real::decimal(2, 10)),
                String::from_str("⬤ LLM Output"),
            ),
        );
        proof {
            assert(marks(out@) =~= before + ball_marks(self@, h@));
        }
        if self.state == GameState::Aiming {
            let end: (Real, Real) = self.aim_point(direction);
            let (ex, ey) = project(end.0, end.1, h.aim);
            put(out, Shape::Line(x, y, ex, ey, Color::Yellow));
        }
        proof {
            assert(marks(out@) =~= before + ball_marks(self@, h@) + aim_marks(
                self@,
                h@,
                direction,
            ));
        }
    }

    fn draw_labels(&self, out: &mut Vec<Shape>)
        requires
            labels_printable(self@),
        ensures
            marks(final(out)@) == marks(old(out)@) + reshape_marks(self@) + count_marks(
                self@,
            ),
    {
        let ghost before = marks(out@);
        if self.state == GameState::Reshaping {
            let percent: String = whole(self.morph_t.mul(Real::decimal(100, 1)));
            let text: String = joined("Reshaping: ", percent.as_str(), "%", "");
            proof {
                reveal_strlit("");
                assert(text@ =~= "Reshaping: "@ + percent@ + "%"@);
            }
            put(out, label(Real::decimal(-70, 10), Real::decimal(105, 10), text));
        }
        let count: String = digits(self.putt_count);
        let text: String = joined("Putt #", count.as_str(), "", "");
        proof {
            reveal_strlit("");
            assert(text@ =~= "Putt #"@ + count@);
        }
        put(out, label(Real::decimal(-85, 10), Real::decimal(112, 10), text));
        proof {
            assert(marks(out@) =~= before + reshape_marks(self@) + count_marks(self@));
        }
    }

    /// Draws the picture at the given heights. `direction` is the cosine and
    /// the sine of the aim angle.
    pub fn draw(&self, h: &Heights, direction: (Real, Real)) -> (out: Vec<Shape>)
        requires
            labels_printable(self@),
            self@.trail.len() <= TRAIL_LEN,
            h@.grid.len() == GRID * GRID,
            h@.trail.len() == self@.trail.len(),
        ensures
            marks(out@) == picture_of(self@, h@, direction),
    {
        let mut out: Vec<Shape> = Vec::new();
        proof {
            assert(marks(out@) =~= Seq::<Mark>::empty());
        }
        h.draw_wireframe(&mut out);
        self.draw_hole(h, &mut out);
        self.draw_trail(h, &mut out);
        self.draw_ball(h, direction, &mut out);
        self.draw_labels(&mut out);
        proof {
            assert(marks(out@) =~= picture_of(self@, h@, direction));
        }
        out
    }

    /// Measures the heights and draws the picture.
    pub fn render_canvas<C: Fn(Real) -> Real, S: Fn(Real) -> Real, E: Fn(Real) -> Real>(
        &self,
        cos: &C,
        sin: &S,
        exp: &E,
    ) -> (out: Vec<Shape>)
        requires
            labels_printable(self@),
            self@.trail.len() <= TRAIL_LEN,
            total(*cos),
            total(*sin),
            total(*exp),
        ensures
            exists|d: (Real, Real), h: HeightMap|
                #![trigger picture_of(self@, h, d)]
                points_along(*cos, *sin, self.aim_angle, d) && may_be_heights(*exp, self@, d, h)
                    && marks(out@) == picture_of(self@, h, d),
            forall|
                c: spec_fn(Real) -> Real,
                s: spec_fn(Real) -> Real,
                f: spec_fn(Real) -> Real,
            |
                #![trigger computes(*cos, c), computes(*sin, s), computes(*exp, f)]
                computes(*cos, c) && computes(*sin, s) && computes(*exp, f) ==> {
                    let d = direction_of(self@, c, s);
                    marks(out@) == picture_of(self@, heights_of(self@, d, f), d)
                },
    {
        let direction: (Real, Real) = self.direction(cos, sin);
        let h: Heights = self.measure(direction, exp);
        self.draw(&h, direction)
    }
}

/// The part of the canvas plane that is shown, from left to right.
pub fn x_bounds() -> (r: (Real, Real))
    ensures
        r == (decimal(-95, 10), decimal(95, 10)),
{
    (Real::decimal(-95, 10), Real::decimal(95, 10))
}

/// The part of the canvas plane that is shown, from bottom to top.
pub fn y_bounds() -> (r: (Real, Real))
    ensures
        r == (decimal(-50, 10), decimal(140, 10)),
{
    (Real::decimal(-50, 10), Real::decimal(140, 10))
}

// ---- The order of drawing ----

/// `a` is drawn before `b`: it lies farther back, or to the side on the same
/// diagonal.
pub open spec fn drawn_before(a: (int, int), b: (int, int)) -> bool {
    a.0 + a.1 > b.0 + b.1 || (a.0 + a.1 == b.0 + b.1 && a.0 < b.0)
}

proof fn lemma_diagonal(sum: int, upto: int)
    ensures
        forall|k: int|
            0 <= k < diagonal(sum, upto).len() ==> {
                let c = #[trigger] diagonal(sum, upto)[k];
                0 <= c.0 < upto && 0 <= c.1 < GRID && c.0 + c.1 == sum
            },
        forall|k: int, l: int|
            0 <= k < l < diagonal(sum, upto).len() ==> (#[trigger] diagonal(sum, upto)[k]).0 < (
            #[trigger] diagonal(sum, upto)[l]).0,
        forall|c: (int, int)|
            0 <= c.0 < upto && 0 <= c.1 < GRID && c.0 + c.1 == sum
                ==> #[trigger] diagonal(sum, upto).contains(c),
    decreases upto,
{
    if upto > 0 {
        let i = upto - 1;
        lemma_diagonal(sum, i);
        let rest = diagonal(sum, i);
        let all = diagonal(sum, upto);
        assert forall|c: (int, int)|
            0 <= c.0 < upto && 0 <= c.1 < GRID && c.0 + c.1
                == sum implies #[trigger] all.contains(c) by {
            if c.0 < i {
                assert(rest.contains(c));
                let k = rest.index_of(c);
                assert(all[k] == c);
            } else {
                assert(all[rest.len() as int] == c);
            }
        }
    }
}

proof fn lemma_diagonals(sum: int)
    requires
        0 <= sum,
    ensures
        forall|k: int|
            0 <= k < diagonals_down_to(sum).len() ==> {
                let c = #[trigger] diagonals_down_to(sum)[k];
                0 <= c.0 < GRID && 0 <= c.1 < GRID && c.0 + c.1 >= sum
            },
        forall|k: int, l: int|
            0 <= k < l < diagonals_down_to(sum).len() ==> drawn_before(
                #[trigger] diagonals_down_to(sum)[k],
                #[trigger] diagonals_down_to(sum)[l],
            ),
        forall|c: (int, int)|
            0 <= c.0 < GRID && 0 <= c.1 < GRID && c.0 + c.1 >= sum
                ==> #[trigger] diagonals_down_to(sum).contains(c),
    decreases 2 * GRID - 1 - sum,
{
    if sum < 2 * GRID - 1 {
        lemma_diagonals(sum + 1);
        lemma_diagonal(sum, GRID as int);
        let far = diagonals_down_to(sum + 1);
        let near = diagonal(sum, GRID as int);
        let all = diagonals_down_to(sum);
        assert(all == far + near);
        assert forall|c: (int, int)|
            0 <= c.0 < GRID && 0 <= c.1 < GRID && c.0 + c.1 >= sum implies #[trigger] all.contains(
            c,
        ) by {
            if c.0 + c.1 > sum {
                assert(far.contains(c));
                let k = far.index_of(c);
                assert(all[k] == c);
            } else {
                assert(near.contains(c));
                let k = near.index_of(c);
                assert(all[far.len() + k] == c);
            }
        }
    }
}

/// The wireframe is drawn from back to front, and each of its cells once.
pub proof fn law_wireframe_is_drawn_back_to_front()
    ensures
        forall|k: int, l: int|
            0 <= k < l < draw_order().len() ==> drawn_before(
                #[trigger] draw_order()[k],
                #[trigger] draw_order()[l],
            ),
        forall|c: (int, int)| #[trigger]
            draw_order().contains(c) <==> 0 <= c.0 < GRID && 0 <= c.1 < GRID,
        draw_order().no_duplicates(),
{
    lemma_diagonals(0);
    assert forall|c: (int, int)| #[trigger] draw_order().contains(c) implies 0 <= c.0 < GRID && 0
        <= c.1 < GRID by {
        let k = draw_order().index_of(c);
        assert(draw_order()[k] == c);
    }
    assert forall|k: int, l: int|
        0 <= k < draw_order().len() && 0 <= l < draw_order().len() && k
            != l implies draw_order()[k] != draw_order()[l] by {
        if k < l {
            assert(drawn_before(draw_order()[k], draw_order()[l]));
        } else {
            assert(drawn_before(draw_order()[l], draw_order()[k]));
        }
    }
}

} // verus!
