//! What the texts, the colours and the greys tell.

use vstd::arithmetic::power2::{lemma2_to64, lemma2_to64_rest, lemma_pow2_adds};
use vstd::prelude::*;

use crate::bounds::{
    bounded, lemma_bounded_finite, lemma_mul_bounded, lemma_one_units, one_units, size,
};
use crate::canvas::brightness_of;
use crate::convert::{byte_of, decimal};
use crate::fixed::{nearest_integer, one_decimal_text, printable, whole_text};
use crate::game::{Game, GameState};
use crate::laws::lemma_percentage_printable;
use crate::nearness::{about, lemma_mote, lemma_product_off, lemma_quotient_off, mote};
use crate::number::{div_of, le_of, lemma_units_order, mul_of, Real};
use crate::order::{lemma_decimal_integer, lemma_decimal_order};
use crate::screen::{controls_of, title_color_of, title_of};
use crate::surface::{color_of, Color};
use crate::text::digits_of;

verus! {

// ---- Numbers as text ----

/// The number that a text of decimal digits denotes.
pub open spec fn read_number(s: Seq<char>) -> int
    decreases s.len(),
{
    if s.len() == 0 {
        0
    } else {
        10 * read_number(s.drop_last()) + (s.last() as int - '0' as int)
    }
}

/// The digits of a number denote it: they are digits, at least one, and the
/// first is no zero but for zero itself.
pub proof fn law_digits_read_back(n: nat)
    ensures
        read_number(digits_of(n)) == n,
        digits_of(n).len() >= 1,
        forall|i: int| 0 <= i < digits_of(n).len() ==> '0' <= #[trigger] digits_of(n)[i] <= '9',
        n > 0 ==> digits_of(n)[0] != '0',
        n < 10 ==> digits_of(n).len() == 1,
    decreases n,
{
    let s = digits_of(n);
    if n < 10 {
        assert(s.drop_last() =~= Seq::empty());
        assert(read_number(s.drop_last()) == 0);
    } else {
        law_digits_read_back(n / 10);
        assert(s.drop_last() =~= digits_of(n / 10));
        assert(s[0] == digits_of(n / 10)[0]);
        assert forall|i: int| 0 <= i < s.len() implies '0' <= #[trigger] s[i] <= '9' by {
            if i < s.len() - 1 {
                assert(s[i] == digits_of(n / 10)[i]);
            }
        }
    }
}

/// The text shows a whole number that is no farther than a half from the given
/// one.
pub open spec fn shows_whole(text: Seq<char>, a: Real) -> bool {
    2 * size(a.units() - read_number(text) * one_units()) <= one_units()
}

/// The text shows a number with one decimal that is no farther than a
/// twentieth from the given one.
pub open spec fn shows_tenths(text: Seq<char>, a: Real) -> bool {
    let n = text.len() as int;
    &&& n >= 3 && text[n - 2] == '.'
    &&& '0' <= text[n - 1] <= '9'
    &&& 2 * size(
        10 * a.units() - (10 * read_number(text.take(n - 2)) + (text[n - 1] as int - '0' as int))
            * one_units(),
    ) <= one_units()
}

proof fn lemma_nearest_integer(n: int, d: int)
    requires
        n >= 0,
        d > 0,
    ensures
        nearest_integer(n, d) >= 0,
        2 * size(n - nearest_integer(n, d) * d) <= d,
{
    let q = n / d;
    let r = n % d;
    assert(n == q * d + r && 0 <= r < d && q >= 0) by (nonlinear_arith)
        requires
            q == n / d,
            r == n % d,
            n >= 0,
            d > 0,
    ;
    assert((q + 1) * d == q * d + d) by (nonlinear_arith);
}

/// Numbers are shown to the nearest whole.
pub proof fn law_wholes_are_near(a: Real)
    requires
        printable(a),
    ensures
        shows_whole(whole_text(a), a),
{
    let n = nearest_integer(a.units(), one_units());
    lemma_one_units();
    lemma_units_order(a, a);
    lemma_nearest_integer(a.units(), one_units());
    law_digits_read_back(n as nat);
}

/// Numbers with one decimal are shown to the nearest tenth.
pub proof fn law_tenths_are_near(a: Real)
    requires
        printable(a),
    ensures
        shows_tenths(one_decimal_text(a), a),
{
    let t = nearest_integer(a.units() * 10, one_units());
    let head = digits_of((t / 10) as nat);
    let tail = digits_of((t % 10) as nat);
    let text = one_decimal_text(a);
    let n = text.len() as int;
    reveal_strlit(".");
    lemma_one_units();
    lemma_units_order(a, a);
    lemma_nearest_integer(a.units() * 10, one_units());
    law_digits_read_back((t / 10) as nat);
    law_digits_read_back((t % 10) as nat);
    assert(text == head + "."@ + tail);
    assert(text.take(n - 2) =~= head);
    assert(text[n - 2] == '.');
    assert(text[n - 1] == tail[0]);
    assert(tail.drop_last() =~= Seq::empty());
    assert(read_number(tail.drop_last()) == 0);
    assert(tail.last() == tail[0]);
}

// ---- The lines round the canvas ----

/// What the game says of its state.
pub open spec fn says(state: GameState) -> Seq<char> {
    match state {
        GameState::Aiming => "Aim and putt"@,
        GameState::Rolling => "Sampling inference in progress..."@,
        GameState::Stuck => "Stuck in local minimum — add context with [r] to reshape"@,
        GameState::Reshaping => "Reshaping energy landscape..."@,
        GameState::InHole => "Global minimum found! Press [Enter] to reset"@,
    }
}

/// While aiming, the footer shows the power of the next putt, to the nearest
/// tenth; in every other state, the count of putts.
pub proof fn law_the_footer_tells_power_and_count(g: Game)
    requires
        g.state == GameState::Aiming ==> printable(g.putt_power),
    ensures
        g.state == GameState::Aiming ==> exists|power: Seq<char>| #[trigger]
            shows_tenths(power, g.putt_power) && controls_of(g) == "  ←/→ Aim  ↑/↓ Power: "@
                + power + "  [Space] Putt  [r] Reshape  [q] Quit  |  "@ + says(g.state),
        g.state != GameState::Aiming ==> exists|count: Seq<char>|
            #![trigger read_number(count)]
            read_number(count) == g.putt_count && controls_of(g)
                == "  [s] Stop  [r] Reshape  [Enter] Reset  [q] Quit  |  Putt #"@ + count + " | "@
                + says(g.state),
{
    if g.state == GameState::Aiming {
        law_tenths_are_near(g.putt_power);
        assert(shows_tenths(one_decimal_text(g.putt_power), g.putt_power));
    } else {
        law_digits_read_back(g.putt_count as nat);
        assert(read_number(digits_of(g.putt_count as nat)) == g.putt_count);
    }
}

/// The title tells whether the context changes and whether the ball is in the
/// hole, and has its own colour for each.
pub proof fn law_the_title_tells_the_state(state: GameState)
    ensures
        state == GameState::Reshaping ==> title_of(state)
            == " P(X|C) → P(X|C')  [Context Change]"@ && title_color_of(state) == Color::Yellow,
        state == GameState::InHole ==> title_of(state)
            == " ⛳ Global Minimum Reached — Valid Code Found!"@ && title_color_of(state)
            == Color::Green,
        state != GameState::Reshaping && state != GameState::InHole ==> title_of(state)
            == " E(x) = Σ aᵢ·exp(−‖x−cᵢ‖²/2σᵢ²)   |   Agent Golf"@ && title_color_of(state)
            == Color::Cyan,
{
}

/// While the landscape changes, the label shows how far it has come, to the
/// nearest percent of the computed share.
pub proof fn law_the_percentage_is_the_share(g: Game)
    requires
        g.wf(),
    ensures
        shows_whole(
            whole_text(mul_of(g.morph_t, decimal(100, 1))),
            mul_of(g.morph_t, decimal(100, 1)),
        ),
        about(mul_of(g.morph_t, decimal(100, 1)), 100 * g.morph_t.units(), 1),
{
    let p = one_units();
    let u = mote();
    let t = g.morph_t;
    let m = mul_of(t, decimal(100, 1));
    lemma_one_units();
    lemma_mote();
    lemma_decimal_integer(1);
    lemma_decimal_integer(100);
    lemma_units_order(t, t);
    assert(bounded(t, 1) && bounded(decimal(100, 1), 100));
    lemma_product_off(t, decimal(100, 1), 1, 100);
    lemma_mul_bounded(t, decimal(100, 1), 1, 100, 1, 100);
    lemma_bounded_finite(m, 100);
    let tu = t.units();
    let mu = m.units();
    assert(size(mu - 100 * tu) <= 0x4_0000_0000 * u) by (nonlinear_arith)
        requires
            size(mu * p - tu * (100 * p)) <= 0x4_0000_0000 * (u * p),
            p > 0,
    ;
    lemma_percentage_printable(g);
    law_wholes_are_near(m);
}

// ---- Colours ----

/// The bands of colour, from the deepest to the highest.
pub open spec fn band(c: Color) -> int {
    if c == Color::Rgb(255, 50, 255) {
        0
    } else if c == Color::Rgb(180, 50, 220) {
        1
    } else if c == Color::Rgb(50, 80, 220) {
        2
    } else if c == Color::Rgb(30, 180, 180) {
        3
    } else if c == Color::Rgb(50, 200, 80) {
        4
    } else if c == Color::Rgb(220, 200, 50) {
        5
    } else if c == Color::Rgb(220, 80, 50) {
        6
    } else {
        7
    }
}

/// 1 where `h` is at or above so many tenths, and 0 where it is below.
pub open spec fn reaches(h: Real, tenths: int) -> int {
    if le_of(decimal(tenths, 10), h) {
        1
    } else {
        0
    }
}

/// The band of a height is the number of edges that it reaches: -3.5, -2,
/// -0.8, 0.2, 1.2 and 2.2.
pub proof fn law_colours_tell_the_height(h: Real)
    requires
        !h.is_nan(),
    ensures
        band(color_of(h)) == reaches(h, -35) + reaches(h, -20) + reaches(h, -8) + reaches(h, 2)
            + reaches(h, 12) + reaches(h, 22),
{
    lemma_decimal_order(-35, 10, -20, 10);
    lemma_decimal_order(-20, 10, -8, 10);
    lemma_decimal_order(-8, 10, 2, 10);
    lemma_decimal_order(2, 10, 12, 10);
    lemma_decimal_order(12, 10, 22, 10);
}

/// A higher point is never in a lower band.
pub proof fn law_colours_rise_with_the_height(low: Real, high: Real)
    requires
        le_of(low, high),
    ensures
        band(color_of(low)) <= band(color_of(high)) <= 6,
{
    law_colours_tell_the_height(low);
    law_colours_tell_the_height(high);
}

// ---- Greys ----

/// The grey of a position is 55, and 200 more in proportion to its place in
/// the trail, less what is lost to a whole number.
pub proof fn law_greys_rise_evenly(age: int, len: int)
    requires
        0 <= age < len <= 1000,
    ensures
        len * (brightness_of(age, len) - 55) <= 200 * age <= len * (brightness_of(age, len) - 54),
{
    let p = one_units();
    let u = mote();
    let a = decimal(age, 1);
    let c = decimal(len, 1);
    let full = decimal(200, 1);
    let q = div_of(a, c);
    let v = mul_of(q, full);
    lemma_one_units();
    lemma_mote();
    lemma2_to64();
    lemma2_to64_rest();
    lemma_pow2_adds(21, 1000);
    lemma_decimal_integer(age);
    lemma_decimal_integer(len);
    lemma_decimal_integer(200);
    assert(0 <= age * p && age * p <= len * p && len * p > 0) by (nonlinear_arith)
        requires
            0 <= age < len,
            p > 0,
    ;
    assert(size(a.units()) * p <= p * c.units()) by (nonlinear_arith)
        requires
            a.units() == age * p,
            c.units() == len * p,
            0 <= age * p <= len * p,
            p > 0,
    ;
    lemma_quotient_off(a, c, 1074);
    let qu = q.units();
    assert(2 * size(len * qu - age * p) <= (0x20_0000 * u) * len) by (nonlinear_arith)
        requires
            2 * size(qu * (len * p) - (age * p) * p) <= (0x20_0000 * u) * (len * p),
            p > 0,
    ;
    assert(bounded(full, 200));
    assert(bounded(q, 1));
    lemma_product_off(q, full, 1, 200);
    lemma_mul_bounded(q, full, 1, 200, 1, 200);
    let vu = v.units();
    assert(size(vu - 200 * qu) <= 0x4_0000_0000 * u) by (nonlinear_arith)
        requires
            size(vu * p - qu * (200 * p)) <= 0x4_0000_0000 * (u * p),
            p > 0,
    ;
    let lv = len * vu;
    let lq = len * qu;
    let lu = len * u;
    let ap = age * p;
    assert(size(lv - 200 * lq) <= 0x4_0000_0000 * lu) by (nonlinear_arith)
        requires
            lv == len * vu,
            lq == len * qu,
            lu == len * u,
            size(vu - 200 * qu) <= 0x4_0000_0000 * u,
            len > 0,
    ;
    assert((0x20_0000 * u) * len == 0x20_0000 * lu) by (nonlinear_arith)
        requires
            lu == len * u,
    ;
    assert(0 < lu <= 1000 * u) by (nonlinear_arith)
        requires
            lu == len * u,
            0 < len <= 1000,
            u > 0,
    ;
    assert(2 * size(lv - 200 * ap) < p);
    // The whole part of the product.
    let b = byte_of(v);
    let whole = vu / p;
    assert(whole * p <= vu < whole * p + p) by (nonlinear_arith)
        requires
            whole == vu / p,
            p > 0,
    ;
    if vu <= 0 {
        assert(b == 0);
        assert(lv <= 0) by (nonlinear_arith)
            requires
                lv == len * vu,
                vu <= 0,
                len > 0,
        ;
        assert(400 * ap < p);
        assert(age == 0) by (nonlinear_arith)
            requires
                400 * ap < p,
                ap == age * p,
                age >= 0,
                p > 0,
        ;
        assert(len * 0 == 0);
        assert(len * (brightness_of(age, len) - 55) == 0) by (nonlinear_arith)
            requires
                brightness_of(age, len) == 55,
        ;
        assert(len * (brightness_of(age, len) - 54) == len) by (nonlinear_arith)
            requires
                brightness_of(age, len) == 55,
        ;
    } else {
        assert(0 <= whole <= 200) by (nonlinear_arith)
            requires
                whole * p <= vu,
                vu < whole * p + p,
                0 < vu <= 200 * p,
                p > 0,
        ;
        assert(b == whole);
        let lb = len * b;
        assert(lb * p <= lv && lv < lb * p + len * p) by (nonlinear_arith)
            requires
                lb == len * b,
                lv == len * vu,
                b * p <= vu,
                vu < b * p + p,
                len > 0,
        ;
        // Both sides are multiples of one, and nearer than a half.
        assert(lb <= 200 * age) by (nonlinear_arith)
            requires
                lb * p <= lv,
                2 * (lv - 200 * (age * p)) < p,
                p > 0,
        ;
        assert(200 * age <= lb + len) by (nonlinear_arith)
            requires
                lv < lb * p + len * p,
                2 * (200 * (age * p) - lv) < p,
                p > 0,
        ;
        assert(len * (brightness_of(age, len) - 55) == lb) by (nonlinear_arith)
            requires
                brightness_of(age, len) == b + 55,
                lb == len * b,
        ;
        assert(len * (brightness_of(age, len) - 54) == lb + len) by (nonlinear_arith)
            requires
                brightness_of(age, len) == b + 55,
                lb == len * b,
        ;
    }
}

} // verus!
