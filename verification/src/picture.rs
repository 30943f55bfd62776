//! What the picture shows, and where.

use vstd::arithmetic::power2::{lemma2_to64, lemma2_to64_rest, lemma_pow2_adds};
use vstd::prelude::*;

use crate::bounds::{
    bounded, lemma_add_bounded, lemma_bounded_finite, lemma_bounded_weaken, lemma_decimal_bounded,
    lemma_mul_bounded, lemma_one_units, lemma_sub_bounded, one_units, size,
};
use crate::canvas::{
    aim_end, aim_marks, ball_marks, brightness_of, cell_edges, count_marks, diagonal,
    diagonals_down_to, draw_order, edge, edges_along, grid_coordinate, heights_of, hole_marks,
    kept_on_course, law_wireframe_is_drawn_back_to_front, may_be_heights, picture_of, reshape_marks,
    trail_mark, trail_marks, HeightMap, Mark,
};
use crate::convert::{clamp_of, decimal};
use crate::fixed::whole_text;
use crate::game::{Game, GameState};
use crate::motion::{lemma_height_bounded, lemma_on_course_bounded, sound};
use crate::nearness::{
    about, lemma_decimal_off, lemma_difference_off, lemma_mote, lemma_product_off,
    lemma_quotient_off, lemma_scaled_off, lemma_sum_off, mote,
};
use crate::number::{add_of, div_of, mul_of, sub_of, Real};
use crate::order::{lemma_decimal, lemma_decimal_integer, lemma_decimal_order};
use crate::shapes::damps;
use crate::surface::{
    color_of, computes, law_a_function_gives_one_height, project_of, surface_of, Color,
};
use crate::text::digits_of;

verus! {

// ---- The projection ----

/// The point of the canvas at which the point (`x`, `y`, `z`) of space stands:
/// 0.866 of `x - y` to the right, and 0.45 of `x + y` and 0.7 of `z` up.
pub open spec fn stands_at(p: (Real, Real), x: Real, y: Real, z: Real) -> bool {
    &&& about(p.0, 866 * (x.units() - y.units()), 1000)
    &&& about(p.1, 450 * (x.units() + y.units()) + 700 * z.units(), 1000)
}

/// Points of space are projected to where they stand.
#[verifier::spinoff_prover]
pub proof fn law_the_projection_is_isometric(x: Real, y: Real, z: Real)
    requires
        bounded(x, 1000),
        bounded(y, 1000),
        bounded(z, 1000),
    ensures
        stands_at(project_of(x, y, z), x, y, z),
{
    let across = sub_of(x, y);
    let along = add_of(x, y);
    let a = mul_of(along, decimal(45, 100));
    let b = mul_of(z, decimal(7, 10));
    let c = mul_of(across, decimal(866, 1000));
    lemma_one_units();
    lemma_mote();
    lemma_difference_off(x, y, 1000, 1000);
    lemma_sum_off(x, y, 1000, 1000);
    lemma_sub_bounded(x, y, 1000, 1000);
    lemma_add_bounded(x, y, 1000, 1000);
    lemma_decimal_off(866, 1000);
    lemma_decimal_off(45, 100);
    lemma_decimal_off(7, 10);
    lemma_mul_bounded(along, decimal(45, 100), 2000, 1, 1, 2000);
    lemma_mul_bounded(z, decimal(7, 10), 1000, 1, 1, 1000);
    lemma_mul_bounded(across, decimal(866, 1000), 2000, 1, 1, 2000);
    lemma_bounded_weaken(across, 2000, 16384);
    lemma_bounded_weaken(along, 2000, 16384);
    lemma_bounded_weaken(z, 1000, 16384);
    lemma_scaled_off(across, 866, 1000);
    lemma_scaled_off(along, 45, 100);
    lemma_scaled_off(z, 7, 10);
    lemma_bounded_finite(c, 2000);
    lemma_sum_off(a, b, 2000, 1000);
}

// ---- The parts of the picture ----

/// The heights are those of a game, and none is beyond 1000.
pub open spec fn fit(g: Game, h: HeightMap) -> bool {
    &&& h.grid.len() == 484
    &&& h.trail.len() == g.trail.len()
    &&& bounded(h.ball, 1000) && bounded(h.aim, 1000) && bounded(h.hole, 1000)
    &&& forall|n: int| 0 <= n < h.grid.len() ==> bounded(#[trigger] h.grid[n], 1000)
    &&& forall|n: int| 0 <= n < h.trail.len() ==> bounded(#[trigger] h.trail[n], 1000)
}

/// The mark is a circle with the given radius and colour round the point at
/// which a point of space stands.
pub open spec fn circle_round(
    m: Mark,
    x: Real,
    y: Real,
    z: Real,
    radius: Real,
    color: Color,
) -> bool {
    m matches Mark::Circle(cx, cy, r, c) && r == radius && c == color && stands_at(
        (cx, cy),
        x,
        y,
        z,
    )
}

/// The mark is a text that begins right and above of a circle, by so many
/// tenths each.
pub open spec fn label_beside(m: Mark, circle: Mark, right: int, up: int, text: Seq<char>) -> bool {
    m matches Mark::Text(x, y, s) && s == text && (circle matches Mark::Circle(cx, cy, r, c)
        && about(x, 10 * cx.units() + right * one_units(), 10) && about(
        y,
        10 * cy.units() + up * one_units(),
        10,
    ))
}

/// How many marks the wireframe has.
pub open spec fn wires() -> int {
    924
}

proof fn lemma_label(v: Real, n: int)
    requires
        bounded(v, 2000),
        0 <= n <= 10,
    ensures
        about(add_of(v, decimal(n, 10)), 10 * v.units() + n * one_units(), 10),
{
    lemma_one_units();
    lemma_mote();
    lemma_decimal_off(n, 10);
    lemma_decimal_bounded(n, 10, 1);
    lemma_sum_off(v, decimal(n, 10), 2000, 1);
}

/// A point of the canvas at which something near the course stands is not far.
proof fn lemma_canvas_bounded(x: Real, y: Real, z: Real)
    requires
        bounded(x, 100),
        bounded(y, 100),
        bounded(z, 1000),
    ensures
        bounded(project_of(x, y, z).0, 2000),
        bounded(project_of(x, y, z).1, 2000),
{
    lemma_decimal_off(866, 1000);
    lemma_decimal_off(45, 100);
    lemma_decimal_off(7, 10);
    lemma_one_units();
    lemma_sub_bounded(x, y, 100, 100);
    lemma_add_bounded(x, y, 100, 100);
    lemma_mul_bounded(sub_of(x, y), decimal(866, 1000), 200, 1, 1, 200);
    lemma_mul_bounded(add_of(x, y), decimal(45, 100), 200, 1, 1, 200);
    lemma_mul_bounded(z, decimal(7, 10), 1000, 1, 1, 1000);
    lemma_add_bounded(
        mul_of(add_of(x, y), decimal(45, 100)),
        mul_of(z, decimal(7, 10)),
        200,
        1000,
    );
    lemma_bounded_weaken(project_of(x, y, z).0, 200, 2000);
    lemma_bounded_weaken(project_of(x, y, z).1, 1200, 2000);
}

/// Right after the wireframe stands the hole: a circle of radius 0.35 at
/// (8, 7.5) on the ground, with its label, between two layers. It stands there
/// whatever the ball does.
#[verifier::spinoff_prover]
pub proof fn law_the_hole_is_drawn_where_it_is(g: Game, h: HeightMap, direction: (Real, Real))
    requires
        g.hole_x == decimal(80, 10),
        g.hole_y == decimal(75, 10),
        fit(g, h),
    ensures
        ({
            let p = picture_of(g, h, direction);
            let w = wires();
            &&& p.len() > w + 4
            &&& p[w] == Mark::Layer
            &&& circle_round(
                p[w + 1],
                decimal(80, 10),
                decimal(75, 10),
                h.hole,
                decimal(35, 100),
                Color::Rgb(255, 80, 255),
            )
            &&& label_beside(p[w + 2], p[w + 1], 4, 3, "Desired Artifacts"@)
            &&& p[w + 3] == Mark::Layer
        }),
{
    let q = project_of(g.hole_x, g.hole_y, h.hole);
    lemma_wireframe_length(h);
    lemma_decimal_bounded(80, 10, 8);
    lemma_decimal_bounded(75, 10, 8);
    lemma_bounded_weaken(g.hole_x, 8, 100);
    lemma_bounded_weaken(g.hole_y, 8, 100);
    lemma_bounded_weaken(g.hole_x, 8, 1000);
    lemma_bounded_weaken(g.hole_y, 8, 1000);
    law_the_projection_is_isometric(g.hole_x, g.hole_y, h.hole);
    lemma_canvas_bounded(g.hole_x, g.hole_y, h.hole);
    lemma_label(q.0, 4);
    lemma_label(q.1, 3);
    lemma_parts(g, h, direction);
}

/// Two games on the same landscape show the hole at the same place, wherever
/// their balls are and wherever they aim.
#[verifier::spinoff_prover]
pub proof fn law_the_hole_stays_where_it_is(
    g: Game,
    k: Game,
    d: (Real, Real),
    e: (Real, Real),
    f: spec_fn(Real) -> Real,
)
    requires
        g.hole_x == k.hole_x && g.hole_y == k.hole_y,
        g.current == k.current,
    ensures
        ({
            let p = picture_of(g, heights_of(g, d, f), d);
            let q = picture_of(k, heights_of(k, e, f), e);
            let w = wires();
            p[w] == q[w] && p[w + 1] == q[w + 1] && p[w + 2] == q[w + 2] && p[w + 3] == q[w + 3]
        }),
{
    let a = heights_of(g, d, f);
    let b = heights_of(k, e, f);
    lemma_hole_part(g, a, d);
    lemma_hole_part(k, b, e);
    assert(a.hole == b.hole);
    assert(hole_marks(g, a) == hole_marks(k, b));
}

proof fn lemma_hole_part(g: Game, h: HeightMap, direction: (Real, Real))
    ensures
        ({
            let p = picture_of(g, h, direction);
            let w = wires();
            &&& p[w] == hole_marks(g, h)[0] && p[w + 1] == hole_marks(g, h)[1]
            &&& p[w + 2] == hole_marks(g, h)[2] && p[w + 3] == hole_marks(g, h)[3]
        }),
{
    lemma_wireframe_length(h);
    lemma_parts(g, h, direction);
}

/// The trail follows the hole, one circle of radius 0.07 for each position,
/// the oldest first, each at its place on the ground and in its grey.
#[verifier::spinoff_prover]
pub proof fn law_the_trail_is_drawn_where_it_went(
    g: Game,
    h: HeightMap,
    direction: (Real, Real),
    n: int,
)
    requires
        fit(g, h),
        0 <= n < g.trail.len(),
        g.trail.len() <= 60,
        bounded(g.trail[n].0, 100),
        bounded(g.trail[n].1, 100),
    ensures
        ({
            let m = picture_of(g, h, direction)[wires() + 4 + n];
            let grey = brightness_of(n, g.trail.len() as int) as u8;
            circle_round(
                m,
                g.trail[n].0,
                g.trail[n].1,
                h.trail[n],
                decimal(7, 100),
                Color::Rgb(grey, grey, grey),
            )
        }),
{
    let m = picture_of(g, h, direction)[wires() + 4 + n];
    assert(m == trail_mark(g, h, n)) by {
        lemma_wireframe_length(h);
        lemma_parts(g, h, direction);
        assert(trail_marks(g, h)[n] == trail_mark(g, h, n));
    }
    lemma_bounded_weaken(g.trail[n].0, 100, 1000);
    lemma_bounded_weaken(g.trail[n].1, 100, 1000);
    law_the_projection_is_isometric(g.trail[n].0, g.trail[n].1, h.trail[n]);
}

/// The ball stands on top: a circle of radius 0.22 at its place on the ground,
/// green in the hole and white elsewhere, with its label.
#[verifier::spinoff_prover]
pub proof fn law_the_ball_is_drawn_where_it_is(g: Game, h: HeightMap, direction: (Real, Real))
    requires
        fit(g, h),
        bounded(g.ball_x, 100),
        bounded(g.ball_y, 100),
    ensures
        ({
            let p = picture_of(g, h, direction);
            let w = wires() + 4 + g.trail.len();
            let color = if g.state == GameState::InHole {
                Color::Rgb(80, 255, 80)
            } else {
                Color::White
            };
            &&& p[w] == Mark::Layer
            &&& circle_round(p[w + 1], g.ball_x, g.ball_y, h.ball, decimal(22, 100), color)
            &&& label_beside(p[w + 2], p[w + 1], 3, 2, "⬤ LLM Output"@)
        }),
{
    let q = project_of(g.ball_x, g.ball_y, h.ball);
    lemma_wireframe_length(h);
    lemma_parts(g, h, direction);
    lemma_bounded_weaken(g.ball_x, 100, 1000);
    lemma_bounded_weaken(g.ball_y, 100, 1000);
    law_the_projection_is_isometric(g.ball_x, g.ball_y, h.ball);
    lemma_canvas_bounded(g.ball_x, g.ball_y, h.ball);
    lemma_label(q.0, 3);
    lemma_label(q.1, 2);
}

/// Where the aim ends: 0.4 of the power away from the ball, along the aim.
pub open spec fn aims_at(e: (Real, Real), g: Game, direction: (Real, Real)) -> bool {
    let p = one_units();
    let power = g.putt_power.units();
    &&& about(e.0, 10 * (g.ball_x.units() * p) + 4 * (direction.0.units() * power), 10 * p)
    &&& about(e.1, 10 * (g.ball_y.units() * p) + 4 * (direction.1.units() * power), 10 * p)
}

/// While aiming, and only while aiming, a yellow line runs from the ball to
/// where the aim ends, on the ground at the one end and at the height measured
/// there at the other.
#[verifier::spinoff_prover]
pub proof fn law_the_aim_line_follows_the_aim(g: Game, h: HeightMap, direction: (Real, Real))
    requires
        fit(g, h),
        bounded(g.ball_x, 100),
        bounded(g.ball_y, 100),
        bounded(direction.0, 1),
        bounded(direction.1, 1),
        bounded(g.putt_power, 100),
    ensures
        ({
            let p = picture_of(g, h, direction);
            let w = wires() + 7 + g.trail.len();
            &&& g.state == GameState::Aiming ==> (p[w] matches Mark::Line(x1, y1, x2, y2, c)
                && c == Color::Yellow && stands_at((x1, y1), g.ball_x, g.ball_y, h.ball)
                && exists|e: (Real, Real)| #[trigger]
                aims_at(e, g, direction) && stands_at((x2, y2), e.0, e.1, h.aim))
            &&& g.state != GameState::Aiming ==> forall|n: int|
                wires() <= n < p.len() ==> !((#[trigger] p[n]) is Line)
        }),
{
    let e = aim_end(g, direction);
    lemma_wireframe_length(h);
    lemma_parts(g, h, direction);
    lemma_bounded_weaken(g.ball_x, 100, 1000);
    lemma_bounded_weaken(g.ball_y, 100, 1000);
    law_the_projection_is_isometric(g.ball_x, g.ball_y, h.ball);
    lemma_aim(g.ball_x, direction.0, g.putt_power);
    lemma_aim(g.ball_y, direction.1, g.putt_power);
    law_the_projection_is_isometric(e.0, e.1, h.aim);
    assert(aims_at(e, g, direction));
}

proof fn lemma_aim(x: Real, d: Real, power: Real)
    requires
        bounded(x, 100),
        bounded(d, 1),
        bounded(power, 100),
    ensures
        ({
            let e = add_of(x, mul_of(d, mul_of(power, decimal(4, 10))));
            &&& about(
                e,
                10 * (x.units() * one_units()) + 4 * (d.units() * power.units()),
                10 * one_units(),
            )
            &&& bounded(e, 1000)
        }),
{
    let p = one_units();
    let u = mote();
    let r = mul_of(power, decimal(4, 10));
    let m = mul_of(d, r);
    let e = add_of(x, m);
    lemma_one_units();
    lemma_mote();
    lemma_decimal_off(4, 10);
    lemma_bounded_weaken(power, 100, 16384);
    lemma_scaled_off(power, 4, 10);
    lemma_mul_bounded(power, decimal(4, 10), 100, 1, 1, 100);
    lemma_bounded_finite(r, 100);
    lemma_product_off(d, r, 1, 100);
    lemma_mul_bounded(d, r, 1, 100, 1, 100);
    lemma_sum_off(x, m, 100, 100);
    lemma_add_bounded(x, m, 100, 100);
    lemma_bounded_weaken(e, 200, 1000);
    let up = u * p;
    let ep = e.units() * p;
    let xp = x.units() * p;
    let mp = m.units() * p;
    let dr = d.units() * r.units();
    let dq = d.units() * power.units();
    assert(size(ep - (xp + mp)) <= 0x4_0000_0000 * up) by (nonlinear_arith)
        requires
            ep == e.units() * p,
            xp == x.units() * p,
            mp == m.units() * p,
            up == u * p,
            size(e.units() - (x.units() + m.units())) <= 0x4_0000_0000 * u,
            p > 0,
    ;
    assert(size(10 * dr - 4 * dq) <= 0x50_0000_0000 * up) by (nonlinear_arith)
        requires
            dr == d.units() * r.units(),
            dq == d.units() * power.units(),
            up == u * p,
            size(r.units() * 10 - power.units() * 4) <= 0x50_0000_0000 * u,
            size(d.units()) <= p,
            u > 0,
    ;
    assert(p * p == 0x400_0000_0000_0000_0000 * up) by (nonlinear_arith)
        requires
            p == 0x400_0000_0000_0000_0000 * u,
            up == u * p,
    ;
    assert(up > 0) by (nonlinear_arith)
        requires
            up == u * p,
            u > 0,
            p > 0,
    ;
    assert(size(10 * ep - (10 * xp + 4 * dq)) <= 0x100_0000_0000 * up);
    assert(e.units() * (10 * p) == 10 * ep) by (nonlinear_arith)
        requires
            ep == e.units() * p,
    ;
    assert((10 * p) * p == 10 * (p * p)) by (nonlinear_arith);
}

/// The count of putts closes the picture, at (-8.5, 11.2); while the landscape
/// changes, how far it has come stands before it, at (-7, 10.5).
#[verifier::spinoff_prover]
pub proof fn law_the_labels_close_the_picture(g: Game, h: HeightMap, direction: (Real, Real))
    requires
        fit(g, h),
    ensures
        ({
            let p = picture_of(g, h, direction);
            let l = p.len();
            &&& l == wires() + 8 + g.trail.len() + if g.state == GameState::Aiming || g.state
                == GameState::Reshaping {
                1int
            } else {
                0int
            }
            &&& p[l - 1] == Mark::Text(
                decimal(-85, 10),
                decimal(112, 10),
                "Putt #"@ + digits_of(g.putt_count as nat),
            )
            &&& g.state == GameState::Reshaping ==> p[l - 2] == Mark::Text(
                decimal(-70, 10),
                decimal(105, 10),
                "Reshaping: "@ + whole_text(mul_of(g.morph_t, decimal(100, 1))) + "%"@,
            )
            &&& forall|n: int|
                0 <= n < wires() ==> (#[trigger] p[n]) is Line
        }),
{
    lemma_wireframe_length(h);
    lemma_parts(g, h, direction);
}

/// The picture, part by part.
proof fn lemma_parts(g: Game, h: HeightMap, direction: (Real, Real))
    requires
        edges_along(h.grid, draw_order()).len() == wires(),
    ensures
        ({
            let p = picture_of(g, h, direction);
            let w = wires();
            let t = g.trail.len() as int;
            let aim = aim_marks(g, h, direction).len() as int;
            let change = reshape_marks(g).len() as int;
            &&& p.len() == w + 8 + t + aim + change
            &&& forall|n: int|
                0 <= n < w ==> #[trigger] p[n] == edges_along(h.grid, draw_order())[n]
            &&& p[w] == hole_marks(g, h)[0] && p[w + 1] == hole_marks(g, h)[1]
            &&& p[w + 2] == hole_marks(g, h)[2] && p[w + 3] == hole_marks(g, h)[3]
            &&& forall|n: int| 0 <= n < t ==> #[trigger] trail_marks(g, h)[n] == p[w + 4 + n]
            &&& forall|n: int| w + 4 <= n < w + 4 + t ==> (#[trigger] p[n]) is Circle
            &&& p[w + 4 + t] == ball_marks(g, h)[0] && p[w + 5 + t] == ball_marks(g, h)[1]
            &&& p[w + 6 + t] == ball_marks(g, h)[2]
            &&& aim == 1 ==> p[w + 7 + t] == aim_marks(g, h, direction)[0]
            &&& change == 1 ==> p[w + 7 + t + aim] == reshape_marks(g)[0]
            &&& p[w + 7 + t + aim + change] == count_marks(g)[0]
        }),
{
    let p = picture_of(g, h, direction);
    let a = edges_along(h.grid, draw_order());
    let b = hole_marks(g, h);
    let c = trail_marks(g, h);
    let d = ball_marks(g, h);
    let e = aim_marks(g, h, direction);
    let f = reshape_marks(g);
    let k = count_marks(g);
    assert(p =~= a + (b + (c + (d + (e + (f + k))))));
    let w = wires();
    assert forall|n: int| 0 <= n < g.trail.len() implies #[trigger] trail_marks(g, h)[n] == p[w + 4
        + n] by {
        assert(p[w + 4 + n] == c[n]);
    }
    assert forall|n: int|
        w + 4 <= n < w + 4 + g.trail.len() implies (#[trigger] p[n]) is Circle by {
        assert(p[n] == c[n - w - 4]);
    }
}

// ---- The wireframe ----

/// How many edges the cells of one diagonal have, up to `upto`.
spec fn diagonal_edges(sum: int, upto: int) -> int {
    let first = if sum <= 21 {
        0
    } else {
        sum - 21
    };
    let last = if upto - 1 < sum {
        upto - 1
    } else {
        sum
    };
    let cells = if last >= first {
        last - first + 1
    } else {
        0
    };
    2 * cells - (if sum >= 21 && upto == 22 {
        1int
    } else {
        0int
    }) - (if sum >= 21 && sum - 21 < upto {
        1int
    } else {
        0int
    })
}

proof fn lemma_edges_joined(heights: Seq<Real>, a: Seq<(int, int)>, b: Seq<(int, int)>)
    ensures
        edges_along(heights, a + b) == edges_along(heights, a) + edges_along(heights, b),
    decreases b.len(),
{
    if b.len() == 0 {
        assert(a + b =~= a);
        assert(edges_along(heights, a) + edges_along(heights, b) =~= edges_along(heights, a));
    } else {
        let c = b.drop_last();
        lemma_edges_joined(heights, a, c);
        assert((a + b).drop_last() =~= a + c);
        assert((a + b).last() == b.last());
        assert(edges_along(heights, a + b) =~= edges_along(heights, a) + edges_along(heights, b));
    }
}

proof fn lemma_diagonal_length(heights: Seq<Real>, sum: int, upto: int)
    requires
        0 <= sum <= 42,
        0 <= upto <= 22,
    ensures
        edges_along(heights, diagonal(sum, upto)).len() == diagonal_edges(sum, upto),
    decreases upto,
{
    if upto > 0 {
        let i = upto - 1;
        lemma_diagonal_length(heights, sum, i);
        let all = diagonal(sum, upto);
        if 0 <= sum - i < 22 {
            assert(all.drop_last() =~= diagonal(sum, i));
            assert(all.last() == (i, sum - i));
            assert(cell_edges(heights, i, sum - i).len() == (if i < 21 {
                1int
            } else {
                0int
            }) + (if sum - i < 21 {
                1int
            } else {
                0int
            }));
        }
    }
}

/// How many edges the diagonals from the farthest one down have.
spec fn edges_down_to(sum: int) -> int {
    if sum >= 21 {
        (42 - sum) * (43 - sum)
    } else {
        924 - sum * (sum + 1)
    }
}

proof fn lemma_diagonals_length(heights: Seq<Real>, sum: int)
    requires
        0 <= sum <= 43,
    ensures
        edges_along(heights, diagonals_down_to(sum)).len() == edges_down_to(sum),
    decreases 43 - sum,
{
    if sum < 43 {
        lemma_diagonals_length(heights, sum + 1);
        lemma_diagonal_length(heights, sum, 22);
        lemma_edges_joined(heights, diagonals_down_to(sum + 1), diagonal(sum, 22));
        if sum >= 21 {
            assert((42 - sum) * (43 - sum) == (42 - (sum + 1)) * (43 - (sum + 1)) + 2 * (42 - sum))
                by (nonlinear_arith);
        } else {
            assert((sum + 1) * (sum + 2) == sum * (sum + 1) + 2 * (sum + 1)) by (nonlinear_arith);
            if sum == 20 {
                assert(20int * 21 == 420);
                assert((42 - 21) * (43 - 21) == 462int);
            }
        }
    }
}

/// The wireframe has 924 edges.
pub(crate) proof fn lemma_wireframe_length(h: HeightMap)
    ensures
        edges_along(h.grid, draw_order()).len() == wires(),
        forall|n: int|
            0 <= n < wires() ==> (#[trigger] edges_along(h.grid, draw_order())[n]) is Line,
{
    lemma_diagonals_length(h.grid, 0);
    lemma_edges_are_lines(h.grid, draw_order());
}

proof fn lemma_edges_are_lines(heights: Seq<Real>, cells: Seq<(int, int)>)
    ensures
        forall|n: int|
            0 <= n < edges_along(heights, cells).len() ==> (#[trigger] edges_along(
                heights,
                cells,
            )[n]) is Line,
    decreases cells.len(),
{
    if cells.len() > 0 {
        lemma_edges_are_lines(heights, cells.drop_last());
    }
}

/// The lines of the grid are evenly spaced from 0 to 10.
pub proof fn law_grid_lines_are_even(i: int)
    requires
        0 <= i < 22,
    ensures
        about(grid_coordinate(i), 10 * (i * one_units()), 21),
        bounded(grid_coordinate(i), 11),
{
    let p = one_units();
    let u = mote();
    let a = decimal(i, 1);
    let b = decimal(10, 1);
    let c = decimal(21, 1);
    let m = mul_of(a, b);
    let q = div_of(m, c);
    lemma_one_units();
    lemma_mote();
    lemma2_to64();
    lemma2_to64_rest();
    lemma_decimal_integer(i);
    lemma_decimal_integer(10);
    lemma_decimal_integer(21);
    assert(0 <= i * p && i * p <= 22 * p) by (nonlinear_arith)
        requires
            0 <= i < 22,
            p > 0,
    ;
    lemma_mul_bounded(a, b, 22, 10, 1, 220);
    lemma_bounded_finite(m, 220);
    lemma_product_off(a, b, 22, 10);
    lemma_pow2_adds(4, 1074);
    lemma_pow2_adds(25, 1000);
    let mu = m.units();
    // The product is ten times the index, but for rounding.
    assert(size(mu - 10 * (i * p)) <= 0x4_0000_0000 * u) by (nonlinear_arith)
        requires
            size(mu * p - (i * p) * (10 * p)) <= 0x4_0000_0000 * (u * p),
            p > 0,
    ;
    assert(size(mu) * p <= (16 * p) * (21 * p)) by (nonlinear_arith)
        requires
            size(mu) <= 220 * p,
            p > 0,
    ;
    lemma_quotient_off(m, c, 1078);
    let qu = q.units();
    assert(2 * size(21 * qu - mu) <= (0x200_0000 * u) * 21) by (nonlinear_arith)
        requires
            2 * size(qu * (21 * p) - mu * p) <= (0x200_0000 * u) * (21 * p),
            p > 0,
    ;
}

// ---- Which wires are drawn ----

/// A wire runs from the cell (`i`, `j`) to the next one: in the first
/// direction where the last component is 0, in the second where it is 1.
pub open spec fn is_wire(w: (int, int, int)) -> bool {
    &&& 0 <= w.0 < 22 && 0 <= w.1 < 22
    &&& (w.2 == 0 && w.0 < 21 || w.2 == 1 && w.1 < 21)
}

/// All wires, each once, those farther back first.
pub open spec fn back_to_front(order: Seq<(int, int, int)>) -> bool {
    &&& order.len() == 924
    &&& order.no_duplicates()
    &&& forall|w: (int, int, int)| #[trigger] order.contains(w) <==> is_wire(w)
    &&& forall|k: int, l: int|
        0 <= k < l < order.len() ==> (#[trigger] order[k]).0 + order[k].1 >= (
        #[trigger] order[l]).0 + order[l].1
}

/// The mark is the wire, on the ground at both ends and in the colour of the
/// height where it begins.
pub open spec fn draws_wire(m: Mark, h: HeightMap, w: (int, int, int)) -> bool {
    let i = if w.2 == 0 {
        w.0 + 1
    } else {
        w.0
    };
    let j = if w.2 == 0 {
        w.1
    } else {
        w.1 + 1
    };
    let here = h.grid[22 * w.0 + w.1];
    let there = h.grid[22 * i + j];
    m matches Mark::Line(x1, y1, x2, y2, c) && c == color_of(here) && stands_at(
        (x1, y1),
        grid_coordinate(w.0),
        grid_coordinate(w.1),
        here,
    ) && stands_at((x2, y2), grid_coordinate(i), grid_coordinate(j), there)
}

/// The wires of a cell, in order.
spec fn wires_of(i: int, j: int) -> Seq<(int, int, int)> {
    let first = if i + 1 < 22 {
        seq![(i, j, 0int)]
    } else {
        Seq::empty()
    };
    if j + 1 < 22 {
        first.push((i, j, 1int))
    } else {
        first
    }
}

spec fn wires_along(cells: Seq<(int, int)>) -> Seq<(int, int, int)>
    decreases cells.len(),
{
    if cells.len() == 0 {
        Seq::empty()
    } else {
        wires_along(cells.drop_last()) + wires_of(cells.last().0, cells.last().1)
    }
}

/// The edge that a wire is drawn as.
spec fn edge_for(heights: Seq<Real>, w: (int, int, int)) -> Mark {
    if w.2 == 0 {
        edge(heights, w.0, w.1, w.0 + 1, w.1)
    } else {
        edge(heights, w.0, w.1, w.0, w.1 + 1)
    }
}

proof fn lemma_wires_are_edges(heights: Seq<Real>, cells: Seq<(int, int)>)
    ensures
        edges_along(heights, cells).len() == wires_along(cells).len(),
        forall|k: int|
            0 <= k < wires_along(cells).len() ==> #[trigger] edges_along(heights, cells)[k]
                == edge_for(heights, wires_along(cells)[k]),
    decreases cells.len(),
{
    if cells.len() > 0 {
        let front = cells.drop_last();
        let c = cells.last();
        lemma_wires_are_edges(heights, front);
        let n = wires_along(front).len() as int;
        assert(cell_edges(heights, c.0, c.1).len() == wires_of(c.0, c.1).len());
        assert forall|k: int| 0 <= k < wires_along(cells).len() implies #[trigger] edges_along(
            heights,
            cells,
        )[k] == edge_for(heights, wires_along(cells)[k]) by {
            if k < n {
                assert(edges_along(heights, cells)[k] == edges_along(heights, front)[k]);
                assert(wires_along(cells)[k] == wires_along(front)[k]);
            } else {
                assert(edges_along(heights, cells)[k] == cell_edges(heights, c.0, c.1)[k - n]);
                assert(wires_along(cells)[k] == wires_of(c.0, c.1)[k - n]);
            }
        }
    }
}

/// The wires of cells that are listed once each, those farther back first.
proof fn lemma_wires_in_order(cells: Seq<(int, int)>)
    requires
        cells.no_duplicates(),
        forall|k: int|
            0 <= k < cells.len() ==> 0 <= (#[trigger] cells[k]).0 < 22 && 0 <= cells[k].1 < 22,
        forall|k: int, l: int|
            0 <= k < l < cells.len() ==> (#[trigger] cells[k]).0 + cells[k].1 >= (
            #[trigger] cells[l]).0 + cells[l].1,
    ensures
        wires_along(cells).no_duplicates(),
        forall|w: (int, int, int)| #[trigger]
            wires_along(cells).contains(w) <==> is_wire(w) && cells.contains((w.0, w.1)),
        forall|k: int, l: int|
            0 <= k < l < wires_along(cells).len() ==> (#[trigger] wires_along(cells)[k]).0
                + wires_along(cells)[k].1 >= (#[trigger] wires_along(cells)[l]).0 + wires_along(
                cells,
            )[l].1,
    decreases cells.len(),
{
    let all = wires_along(cells);
    if cells.len() > 0 {
        let front = cells.drop_last();
        let c = cells.last();
        let old = wires_along(front);
        let new = wires_of(c.0, c.1);
        assert forall|k: int| 0 <= k < front.len() implies 0 <= (#[trigger] front[k]).0 < 22 && 0
            <= front[k].1 < 22 by {
            assert(front[k] == cells[k]);
        }
        assert forall|k: int, l: int| 0 <= k < l < front.len() implies (#[trigger] front[k]).0
            + front[k].1 >= (#[trigger] front[l]).0 + front[l].1 by {
            assert(front[k] == cells[k] && front[l] == cells[l]);
        }
        lemma_wires_in_order(front);
        assert(c == cells[cells.len() - 1]);
        assert(!front.contains(c)) by {
            if front.contains(c) {
                let k = front.index_of(c);
                assert(cells[k] == cells[cells.len() - 1]);
            }
        }
        assert(all =~= old + new);
        assert forall|w: (int, int, int)| #[trigger] all.contains(w) <==> is_wire(w)
            && cells.contains((w.0, w.1)) by {
            if all.contains(w) {
                let k = all.index_of(w);
                if k < old.len() {
                    assert(old[k] == w);
                    assert(old.contains(w));
                    let m = front.index_of((w.0, w.1));
                    assert(cells[m] == (w.0, w.1));
                } else {
                    assert(new[k - old.len()] == w);
                    assert(cells[cells.len() - 1] == (w.0, w.1));
                }
            }
            if is_wire(w) && cells.contains((w.0, w.1)) {
                let m = cells.index_of((w.0, w.1));
                if m < front.len() {
                    assert(front[m] == (w.0, w.1));
                    assert(old.contains(w));
                    let k = old.index_of(w);
                    assert(all[k] == w);
                } else {
                    assert(c == (w.0, w.1));
                    let k = if w.2 == 0 {
                        0
                    } else {
                        new.len() - 1
                    };
                    assert(new[k] == w);
                    assert(all[old.len() + k] == w);
                }
            }
        }
        assert forall|k: int, l: int| 0 <= k < l < all.len() implies all[k] != all[l] && (
        #[trigger] all[k]).0 + all[k].1 >= (#[trigger] all[l]).0 + all[l].1 by {
            if k < old.len() {
                assert(old[k] == all[k]);
                assert(old.contains(old[k]));
                let a = front.index_of((old[k].0, old[k].1));
                assert(cells[a] == (old[k].0, old[k].1));
                if l < old.len() {
                    assert(old[l] == all[l]);
                } else {
                    assert(new[l - old.len()] == all[l]);
                    assert(all[l].0 == c.0 && all[l].1 == c.1);
                    assert(front[a] != c);
                }
            } else {
                assert(new[k - old.len()] == all[k]);
                assert(new[l - old.len()] == all[l]);
            }
        }
    }
}

/// The picture begins with the wireframe: every wire of the grid, each once,
/// those farther back first.
#[verifier::spinoff_prover]
pub proof fn law_the_wireframe_shows_the_ground(g: Game, h: HeightMap, direction: (Real, Real))
    requires
        fit(g, h),
    ensures
        exists|order: Seq<(int, int, int)>| #[trigger]
            back_to_front(order) && forall|k: int|
                0 <= k < 924 ==> draws_wire(
                    #[trigger] picture_of(g, h, direction)[k],
                    h,
                    order[k],
                ),
{
    let cells = draw_order();
    let order = wires_along(cells);
    let p = picture_of(g, h, direction);
    law_wireframe_is_drawn_back_to_front();
    assert forall|k: int| 0 <= k < cells.len() implies 0 <= (#[trigger] cells[k]).0 < 22 && 0
        <= cells[k].1 < 22 by {
        assert(cells.contains(cells[k]));
    }
    lemma_wires_in_order(cells);
    lemma_wires_are_edges(h.grid, cells);
    lemma_wireframe_length(h);
    assert(back_to_front(order)) by {
        assert forall|w: (int, int, int)| #[trigger] order.contains(w) <==> is_wire(w) by {
            if is_wire(w) {
                assert(cells.contains((w.0, w.1)));
            }
        }
    }
    assert forall|k: int| 0 <= k < 924 implies draws_wire(#[trigger] p[k], h, order[k]) by {
        let w = order[k];
        assert(order.contains(w));
        assert(p[k] == edge_for(h.grid, w)) by {
            lemma_wireframe_part(g, h, direction, k);
        }
        lemma_edge_stands(h, w);
    }
}

proof fn lemma_wireframe_part(g: Game, h: HeightMap, direction: (Real, Real), k: int)
    requires
        0 <= k < 924,
    ensures
        picture_of(g, h, direction)[k] == edges_along(h.grid, draw_order())[k],
{
    lemma_wireframe_length(h);
    lemma_parts(g, h, direction);
}

proof fn lemma_edge_stands(h: HeightMap, w: (int, int, int))
    requires
        is_wire(w),
        h.grid.len() == 484,
        forall|n: int| 0 <= n < h.grid.len() ==> bounded(#[trigger] h.grid[n], 1000),
    ensures
        draws_wire(edge_for(h.grid, w), h, w),
{
    let i = if w.2 == 0 {
        w.0 + 1
    } else {
        w.0
    };
    let j = if w.2 == 0 {
        w.1
    } else {
        w.1 + 1
    };
    law_grid_lines_are_even(w.0);
    law_grid_lines_are_even(w.1);
    law_grid_lines_are_even(i);
    law_grid_lines_are_even(j);
    lemma_bounded_weaken(grid_coordinate(w.0), 11, 1000);
    lemma_bounded_weaken(grid_coordinate(w.1), 11, 1000);
    lemma_bounded_weaken(grid_coordinate(i), 11, 1000);
    lemma_bounded_weaken(grid_coordinate(j), 11, 1000);
    law_the_projection_is_isometric(
        grid_coordinate(w.0),
        grid_coordinate(w.1),
        h.grid[22 * w.0 + w.1],
    );
    law_the_projection_is_isometric(grid_coordinate(i), grid_coordinate(j), h.grid[22 * i + j]);
}

// ---- Where the heights are measured ----

/// The heights of a picture are those of the landscape at the points shown:
/// at (8, 7.5), at the ball, at each position of the trail, at each point of
/// the grid, and where the aim ends, or at the edge of the course where that
/// lies beyond.
pub proof fn law_heights_are_measured_at_what_is_shown(
    g: Game,
    direction: (Real, Real),
    f: spec_fn(Real) -> Real,
)
    requires
        g.hole_x == decimal(80, 10),
        g.hole_y == decimal(75, 10),
        bounded(g.ball_x, 100),
        bounded(g.ball_y, 100),
        bounded(direction.0, 1),
        bounded(direction.1, 1),
        bounded(g.putt_power, 100),
    ensures
        ({
            let h = heights_of(g, direction, f);
            let low = decimal(1, 10);
            let high = decimal(99, 10);
            &&& h.hole == surface_of(decimal(80, 10), decimal(75, 10), g.current, f)
            &&& h.ball == surface_of(g.ball_x, g.ball_y, g.current, f)
            &&& h.trail.len() == g.trail.len()
            &&& forall|n: int|
                0 <= n < g.trail.len() ==> #[trigger] h.trail[n] == surface_of(
                    g.trail[n].0,
                    g.trail[n].1,
                    g.current,
                    f,
                )
            &&& h.grid.len() == 484
            &&& forall|i: int, j: int|
                #![trigger grid_coordinate(i), grid_coordinate(j)]
                0 <= i < 22 && 0 <= j < 22 ==> h.grid[22 * i + j] == surface_of(
                    grid_coordinate(i),
                    grid_coordinate(j),
                    g.current,
                    f,
                )
            &&& exists|e: (Real, Real)| #[trigger]
                aims_at(e, g, direction) && h.aim == surface_of(
                    clamp_of(e.0, low, high),
                    clamp_of(e.1, low, high),
                    g.current,
                    f,
                )
        }),
{
    let h = heights_of(g, direction, f);
    let e = aim_end(g, direction);
    lemma_aim(g.ball_x, direction.0, g.putt_power);
    lemma_aim(g.ball_y, direction.1, g.putt_power);
    assert(aims_at(e, g, direction));
    assert forall|i: int, j: int|
        #![trigger grid_coordinate(i), grid_coordinate(j)]
        0 <= i < 22 && 0 <= j < 22 implies h.grid[22 * i + j] == surface_of(
        grid_coordinate(i),
        grid_coordinate(j),
        g.current,
        f,
    ) by {
        let n = 22 * i + j;
        assert(n / 22 == i && n % 22 == j);
    }
}

/// An exponential that is a function gives one set of heights.
pub proof fn law_a_function_gives_one_picture<E: Fn(Real) -> Real>(
    exp: E,
    f: spec_fn(Real) -> Real,
    g: Game,
    direction: (Real, Real),
    h: HeightMap,
)
    requires
        computes(exp, f),
        may_be_heights(exp, g, direction, h),
    ensures
        h == heights_of(g, direction, f),
{
    let want = heights_of(g, direction, f);
    let end = aim_end(g, direction);
    law_a_function_gives_one_height(exp, f, g.ball_x, g.ball_y, g.current, h.ball);
    law_a_function_gives_one_height(exp, f, g.hole_x, g.hole_y, g.current, h.hole);
    law_a_function_gives_one_height(
        exp,
        f,
        kept_on_course(end.0),
        kept_on_course(end.1),
        g.current,
        h.aim,
    );
    assert forall|n: int| 0 <= n < h.grid.len() implies #[trigger] h.grid[n] == want.grid[n] by {
        law_a_function_gives_one_height(
            exp,
            f,
            grid_coordinate(n / 22),
            grid_coordinate(n % 22),
            g.current,
            h.grid[n],
        );
    }
    assert forall|n: int| 0 <= n < h.trail.len() implies #[trigger] h.trail[n] == want.trail[n] by {
        law_a_function_gives_one_height(
            exp,
            f,
            g.trail[n].0,
            g.trail[n].1,
            g.current,
            h.trail[n],
        );
    }
    assert(h.grid =~= want.grid);
    assert(h.trail =~= want.trail);
}

/// In every sound game the heights fit, so that what is said of pictures holds
/// of its picture.
pub proof fn law_sound_games_have_fit_heights(
    g: Game,
    direction: (Real, Real),
    f: spec_fn(Real) -> Real,
)
    requires
        sound(g),
        damps(f),
        bounded(direction.0, 1),
        bounded(direction.1, 1),
    ensures
        fit(g, heights_of(g, direction, f)),
        bounded(g.ball_x, 100) && bounded(g.ball_y, 100) && bounded(g.putt_power, 100),
        forall|n: int|
            0 <= n < g.trail.len() ==> bounded((#[trigger] g.trail[n]).0, 100) && bounded(
                g.trail[n].1,
                100,
            ),
{
    let h = heights_of(g, direction, f);
    let e = aim_end(g, direction);
    lemma_one_units();
    lemma_on_course_bounded(g.ball_x);
    lemma_on_course_bounded(g.ball_y);
    lemma_bounded_weaken(g.ball_x, 10, 11);
    lemma_bounded_weaken(g.ball_y, 10, 11);
    lemma_bounded_weaken(g.ball_x, 10, 100);
    lemma_bounded_weaken(g.ball_y, 10, 100);
    lemma_decimal(5, 10);
    lemma_decimal_order(60, 10, 6, 1);
    lemma_decimal_integer(6);
    assert(bounded(g.putt_power, 6));
    lemma_bounded_weaken(g.putt_power, 6, 100);
    lemma_aim(g.ball_x, direction.0, g.putt_power);
    lemma_aim(g.ball_y, direction.1, g.putt_power);
    lemma_decimal_order(1, 10, 99, 10);
    lemma_on_course_bounded(kept_on_course(e.0));
    lemma_on_course_bounded(kept_on_course(e.1));
    lemma_bounded_weaken(kept_on_course(e.0), 10, 11);
    lemma_bounded_weaken(kept_on_course(e.1), 10, 11);
    lemma_decimal_bounded(80, 10, 11);
    lemma_decimal_bounded(75, 10, 11);
    lemma_height_bounded(g, g.ball_x, g.ball_y, f);
    lemma_height_bounded(g, g.hole_x, g.hole_y, f);
    lemma_height_bounded(g, kept_on_course(e.0), kept_on_course(e.1), f);
    lemma_bounded_weaken(h.ball, 352, 1000);
    lemma_bounded_weaken(h.hole, 352, 1000);
    lemma_bounded_weaken(h.aim, 352, 1000);
    assert forall|n: int| 0 <= n < h.grid.len() implies bounded(#[trigger] h.grid[n], 1000) by {
        law_grid_lines_are_even(n / 22);
        law_grid_lines_are_even(n % 22);
        lemma_height_bounded(g, grid_coordinate(n / 22), grid_coordinate(n % 22), f);
        lemma_bounded_weaken(h.grid[n], 352, 1000);
    }
    assert forall|n: int| 0 <= n < g.trail.len() implies bounded((#[trigger] g.trail[n]).0, 100)
        && bounded(g.trail[n].1, 100) && bounded(h.trail[n], 1000) by {
        let t = g.trail[n];
        lemma_on_course_bounded(t.0);
        lemma_on_course_bounded(t.1);
        lemma_bounded_weaken(t.0, 10, 11);
        lemma_bounded_weaken(t.1, 10, 11);
        lemma_bounded_weaken(t.0, 10, 100);
        lemma_bounded_weaken(t.1, 10, 100);
        lemma_height_bounded(g, t.0, t.1, f);
        lemma_bounded_weaken(h.trail[n], 352, 1000);
    }
}

} // verus!
