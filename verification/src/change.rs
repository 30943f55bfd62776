//! How the landscape changes, tick by tick.

use vstd::arithmetic::power2::{lemma2_to64, lemma_pow2_adds, lemma_pow2_unfold};
use vstd::prelude::*;

use crate::bounds::{
    bounded, lemma_add_error, lemma_bounded_finite, lemma_decimal_bounded, lemma_mul_bounded,
    lemma_one_units, lemma_sub_bounded, one_units, size,
};
use crate::convert::decimal;
use crate::game::{morphed, Game, GameState};
use crate::keys::least_of;
use crate::landscape::{after_table, before_table, blend_of};
use crate::laws::{
    law_morphing_keeps_well_formed, lemma_bounded_is_finite, lemma_change_lasts, lemma_zero, ticked,
};
use crate::nearness::{
    about, lemma_decimal_off, lemma_difference_off, lemma_mote, lemma_product_off, lemma_sum_off,
    mote,
};
use crate::number::{add_of, lemma_units_order, mul_of, sub_of, Real};
use crate::order::lemma_decimal_integer;
use crate::rounding::magnitude;
use crate::shapes::lemma_row;
use crate::surface::{lerp_of, mix_of, Gaussian};

verus! {

/// A number on the way from one to another, against the exact place `n / d` of
/// the way.
proof fn lemma_mix_off(a: Real, b: Real, t: Real, n: int, d: int)
    requires
        bounded(a, 6),
        bounded(b, 6),
        bounded(t, 1),
        0 <= n <= d,
        0 < d,
        size(d * t.units() - n * one_units()) <= 0x4_0000_0000 * (mote() * d),
    ensures
        about(mix_of(a, b, t), d * a.units() + n * (b.units() - a.units()), d),
{
    let p = one_units();
    let u = mote();
    let v = sub_of(b, a);
    let m = mul_of(v, t);
    let r = mix_of(a, b, t);
    lemma_one_units();
    lemma_mote();
    lemma_difference_off(b, a, 6, 6);
    lemma_sub_bounded(b, a, 6, 6);
    lemma_bounded_finite(t, 1);
    lemma_product_off(v, t, 12, 1);
    lemma_mul_bounded(v, t, 12, 1, 1, 12);
    lemma_sum_off(a, m, 6, 12);
    let x = b.units() - a.units();
    let vu = v.units();
    let mu = m.units();
    let tu = t.units();
    let w = u * d;
    let e = mu * p - vu * tu;
    let f = d * tu - n * p;
    assert((d * mu - n * vu) * p == d * e + vu * f) by (nonlinear_arith)
        requires
            e == mu * p - vu * tu,
            f == d * tu - n * p,
    ;
    assert(size(d * e) <= 0x4_0000_0000 * (w * p)) by (nonlinear_arith)
        requires
            size(e) <= 0x4_0000_0000 * (u * p),
            w == u * d,
            d > 0,
    ;
    assert(w > 0) by (nonlinear_arith)
        requires
            w == u * d,
            u > 0,
            d > 0,
    ;
    assert(size(vu * f) <= 0x30_0000_0000 * (w * p)) by (nonlinear_arith)
        requires
            size(vu) <= 12 * p,
            size(f) <= 0x4_0000_0000 * w,
            p > 0,
            w > 0,
    ;
    assert(size(d * mu - n * vu) <= 0x34_0000_0000 * w) by (nonlinear_arith)
        requires
            size((d * mu - n * vu) * p) <= 0x34_0000_0000 * (w * p),
            p > 0,
    ;
    assert(size(n * vu - n * x) <= 0x4_0000_0000 * w) by (nonlinear_arith)
        requires
            size(vu - x) <= 0x4_0000_0000 * u,
            0 <= n <= d,
            w == u * d,
            u > 0,
    ;
    let ru = r.units();
    let au = a.units();
    assert(size(d * ru - (d * au + d * mu)) <= 0x4_0000_0000 * w) by (nonlinear_arith)
        requires
            size(ru - (au + mu)) <= 0x4_0000_0000 * u,
            d > 0,
            w == u * d,
    ;
    assert(ru * d == d * ru) by (nonlinear_arith);
    assert(d * p == 0x400_0000_0000_0000_0000 * w) by (nonlinear_arith)
        requires
            p == 0x400_0000_0000_0000_0000 * u,
            w == u * d,
    ;
}

/// Each tick of a change brings it a sixtieth further, up to its end, and
/// every hill is where the straight way from before to after leads at that
/// share: its height and its width alike, while its centre stays.
pub proof fn law_each_tick_goes_a_sixtieth(g: Game, i: int)
    requires
        g.wf(),
        g.state == GameState::Reshaping,
        0 <= i < 11,
    ensures
        ({
            let h = morphed(g);
            let b = before_table()[i];
            let a = after_table()[i];
            let c = h.current[i];
            let t = h.morph_t.units();
            let p = one_units();
            &&& about(h.morph_t, least_of(60 * g.morph_t.units() + p, 60 * p), 60)
            &&& h.current.len() == 11
            &&& c.cx == b.cx && c.cy == b.cy
            &&& about(
                c.amplitude,
                p * b.amplitude.units() + t * (a.amplitude.units() - b.amplitude.units()),
                p,
            )
            &&& about(c.sigma, p * b.sigma.units() + t * (a.sigma.units() - b.sigma.units()), p)
        }),
{
    let h = morphed(g);
    let t = h.morph_t;
    let one = decimal(1, 1);
    let p = one_units();
    lemma_one_units();
    lemma_mote();
    lemma_decimal_integer(1);
    lemma_zero();
    assert(magnitude(0) == 0);
    lemma_units_order(g.morph_t, one);
    lemma_bounded_is_finite(g.morph_t, one);
    lemma_decimal_off(1, 60);
    lemma_decimal_bounded(1, 60, 1);
    lemma_sum_off(g.morph_t, decimal(1, 60), 1, 1);
    law_morphing_keeps_well_formed(g);
    lemma_units_order(t, one);
    assert(bounded(t, 1));
    let r = lemma_row(i);
    lemma_decimal_bounded(r.amplitude.0, 100, 6);
    lemma_decimal_bounded(r.amplitude.1, 100, 6);
    lemma_decimal_bounded(r.sigma.0, 100, 6);
    lemma_decimal_bounded(r.sigma.1, 100, 6);
    assert(p * t.units() - t.units() * p == 0) by (nonlinear_arith);
    assert(mote() * p > 0) by (nonlinear_arith)
        requires
            mote() > 0,
            p > 0,
    ;
    lemma_mix_off(
        before_table()[i].amplitude,
        after_table()[i].amplitude,
        t,
        t.units(),
        p,
    );
    lemma_mix_off(before_table()[i].sigma, after_table()[i].sigma, t, t.units(), p);
}

/// A blend takes two lists pair by pair, as far as both go.
pub proof fn law_blends_go_pair_by_pair(b: Seq<Gaussian>, a: Seq<Gaussian>, t: Real)
    ensures
        blend_of(b, a, t).len() == least_of(b.len() as int, a.len() as int),
        forall|i: int|
            0 <= i < b.len() && i < a.len() ==> #[trigger] blend_of(b, a, t)[i] == lerp_of(
                b[i],
                a[i],
                t,
            ),
{
}

/// What a tick of the change leaves alone, and how it ends.
pub proof fn law_changing_touches_only_the_landscape(g: Game)
    ensures
        ({
            let h = morphed(g);
            &&& h.before == g.before && h.after == g.after
            &&& h.prev_state == g.prev_state && h.reshaped == g.reshaped
            &&& h.ball_x == g.ball_x && h.ball_y == g.ball_y
            &&& h.vel_x == g.vel_x && h.vel_y == g.vel_y
            &&& h.stuck_counter == g.stuck_counter && h.trail == g.trail
            &&& h.aim_angle == g.aim_angle && h.putt_power == g.putt_power
            &&& h.hole_x == g.hole_x && h.hole_y == g.hole_y && h.hole_radius == g.hole_radius
            &&& h.putt_count == g.putt_count && h.should_quit == g.should_quit
            &&& g.state == GameState::Reshaping && !h.morph_t.is_nan() ==> (h.state
                == GameState::Aiming <==> h.morph_t.units() >= one_units())
            &&& h.state == GameState::Aiming || h.state == g.state
        }),
{
    lemma_decimal_integer(1);
}

/// How far the change has come after so many ticks.
proof fn lemma_share_after(g: Game, slopes: Seq<(Real, Real)>)
    requires
        g.wf(),
        g.state == GameState::Reshaping,
        g.morph_t == decimal(0, 1),
        slopes.len() <= 60,
    ensures
        ({
            let t = ticked(g, slopes).morph_t;
            let n = slopes.len() as int;
            &&& bounded(t, 1)
            &&& size(60 * t.units() - n * one_units()) <= n * (0x1000_0000 * mote())
        }),
    decreases slopes.len(),
{
    let n = slopes.len() as int;
    let p = one_units();
    let u = mote();
    let one = decimal(1, 1);
    let h = ticked(g, slopes);
    lemma_one_units();
    lemma_mote();
    lemma_decimal_integer(1);
    lemma_zero();
    assert(magnitude(0) == 0);
    lemma_change_lasts(g, slopes);
    lemma_units_order(h.morph_t, one);
    if n == 0 {
        assert(0 * p == 0);
        assert(0 * (0x1000_0000 * u) == 0);
    } else {
        let k = ticked(g, slopes.drop_last());
        let c = decimal(1, 60);
        let s = add_of(k.morph_t, c);
        lemma_share_after(g, slopes.drop_last());
        lemma_change_lasts(g, slopes.drop_last());
        lemma_units_order(k.morph_t, one);
        lemma_bounded_finite(k.morph_t, 1);
        lemma_decimal_off(1, 60);
        lemma2_to64();
        lemma_pow2_unfold(1075);
        lemma_pow2_adds(22, 1000);
        lemma_add_error(k.morph_t, c, 1075);
        assert(n * p == (n - 1) * p + p) by (nonlinear_arith);
        assert(n * (0x1000_0000 * u) == (n - 1) * (0x1000_0000 * u) + 0x1000_0000 * u)
            by (nonlinear_arith);
        assert(60 * p == 60 * p);
        if n == 60 {
            assert(h.morph_t == one);
            assert(60 * (0x1000_0000 * u) >= 0);
        } else {
            assert(h.morph_t == s);
        }
    }
}

/// A change is even: after so many ticks of the sixty, every hill has come so
/// many sixtieths of the straight way from before to after.
pub proof fn law_the_change_is_even(g: Game, slopes: Seq<(Real, Real)>, i: int)
    requires
        g.wf(),
        g.state == GameState::Reshaping,
        g.morph_t == decimal(0, 1),
        1 <= slopes.len() <= 60,
        0 <= i < 11,
    ensures
        ({
            let h = ticked(g, slopes);
            let n = slopes.len() as int;
            let b = before_table()[i];
            let a = after_table()[i];
            let c = h.current[i];
            &&& about(h.morph_t, n * one_units(), 60)
            &&& c.cx == b.cx && c.cy == b.cy
            &&& about(
                c.amplitude,
                60 * b.amplitude.units() + n * (a.amplitude.units() - b.amplitude.units()),
                60,
            )
            &&& about(c.sigma, 60 * b.sigma.units() + n * (a.sigma.units() - b.sigma.units()), 60)
        }),
{
    let h = ticked(g, slopes);
    let k = ticked(g, slopes.drop_last());
    let n = slopes.len() as int;
    let u = mote();
    lemma_one_units();
    lemma_mote();
    lemma_change_lasts(g, slopes);
    lemma_change_lasts(g, slopes.drop_last());
    lemma_share_after(g, slopes);
    lemma_bounded_finite(h.morph_t, 1);
    assert(n * (0x1000_0000 * u) <= 60 * (0x1000_0000 * u)) by (nonlinear_arith)
        requires
            n <= 60,
            u > 0,
    ;
    assert(h == morphed(k));
    law_each_tick_goes_a_sixtieth(k, i);
    let r = lemma_row(i);
    lemma_decimal_bounded(r.amplitude.0, 100, 6);
    lemma_decimal_bounded(r.amplitude.1, 100, 6);
    lemma_decimal_bounded(r.sigma.0, 100, 6);
    lemma_decimal_bounded(r.sigma.1, 100, 6);
    lemma_mix_off(before_table()[i].amplitude, after_table()[i].amplitude, h.morph_t, n, 60);
    lemma_mix_off(before_table()[i].sigma, after_table()[i].sigma, h.morph_t, n, 60);
}

} // verus!
