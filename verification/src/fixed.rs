//! Numbers as text with a fixed count of decimals.

use vstd::arithmetic::div_mod::lemma_fundamental_div_mod_converse;
use vstd::arithmetic::power2::{
    lemma2_to64, lemma2_to64_rest, lemma_pow2_adds, lemma_pow2_pos, lemma_pow2_strictly_increases,
    lemma_pow2_unfold, pow2,
};
use vstd::bits::lemma_u128_shr_is_div;
use vstd::prelude::*;

use crate::number::Real;
use crate::rounding::{binade, lemma_magnitude_increases, lemma_magnitude_scaled};
use crate::significand::{power_of_two, BINADE};
use crate::text::{digits, digits_of, joined};

verus! {

/// The integer nearest to `n / d`; of two equally near ones, the even one.
pub open spec fn nearest_integer(n: int, d: int) -> int {
    let q = n / d;
    let r = n % d;
    if 2 * r < d || (2 * r == d && q % 2 == 0) {
        q
    } else {
        q + 1
    }
}

/// The number is small enough to be written out, and has no minus sign.
pub open spec fn printable(a: Real) -> bool {
    !a.negative() && a.units() <= 0x10_0000 * pow2(1074)
}

/// A number without decimals.
pub open spec fn whole_text(a: Real) -> Seq<char> {
    digits_of(nearest_integer(a.units(), pow2(1074) as int) as nat)
}

/// A number with one decimal.
pub open spec fn one_decimal_text(a: Real) -> Seq<char> {
    let tenths = nearest_integer(a.units() * 10, pow2(1074) as int);
    digits_of((tenths / 10) as nat) + "."@ + digits_of((tenths % 10) as nat)
}

/// A common factor does not change the nearest integer.
proof fn lemma_nearest_integer_scaled(x: int, d: int, u: int)
    requires
        d > 0,
        u > 0,
    ensures
        nearest_integer(x * u, d * u) == nearest_integer(x, d),
{
    let q = x / d;
    let r = x % d;
    assert(x == q * d + r && 0 <= r < d) by (nonlinear_arith)
        requires
            q == x / d,
            r == x % d,
            d > 0,
    ;
    assert(x * u == q * (d * u) + r * u && 0 <= r * u && r * u < d * u && d * u > 0)
        by (nonlinear_arith)
        requires
            x == q * d + r,
            0 <= r < d,
            u > 0,
    ;
    lemma_fundamental_div_mod_converse(x * u, d * u, q, r * u);
    assert((2 * (r * u) < d * u <==> 2 * r < d) && (2 * (r * u) == d * u <==> 2 * r == d))
        by (nonlinear_arith)
        requires
            u > 0,
    ;
}

/// The integer nearest to a multiple of a number.
fn multiple(a: Real, factor: u32) -> (n: u32)
    requires
        printable(a),
        1 <= factor <= 10,
    ensures
        n == nearest_integer(a.units() * factor, pow2(1074) as int),
        n <= 0x10_0000 * factor + 1,
{
    let k: u64 = a.low_bits();
    proof {
        lemma2_to64();
        lemma2_to64_rest();
        lemma_pow2_pos(1074);
        lemma_magnitude_scaled(1042, binade());
        lemma_pow2_adds(32, 1042);
        if k > 1043 * binade() {
            lemma_magnitude_increases(1043 * binade(), k as int);
        }
    }
    let (m, t) = Real::split(k);
    proof {
        assert(t <= 1042) by {
            if t >= 1043 {
                assert(t * BINADE >= 1043 * BINADE);
            }
        }
    }
    let shift: u32 = 1074 - t;
    proof {
        assert(0 <= m * factor <= 0x20_0000_0000_0000 * 10) by (nonlinear_arith)
            requires
                0 <= m <= 0x20_0000_0000_0000,
                0 <= factor <= 10,
        ;
    }
    let x: u128 = (m as u128) * (factor as u128);
    proof {
        let u = pow2(t as nat) as int;
        let d = pow2(shift as nat) as int;
        lemma_pow2_adds(shift as nat, t as nat);
        lemma_pow2_pos(t as nat);
        lemma_pow2_pos(shift as nat);
        assert((m * u) * factor == x * u) by (nonlinear_arith)
            requires
                x == m * factor,
        ;
        lemma_nearest_integer_scaled(x as int, d, u);
        // The significand is no larger than the bound on the value allows.
        assert(m <= 0x10_0000 * d) by (nonlinear_arith)
            requires
                m * u <= 0x10_0000 * (d * u),
                u > 0,
        ;
    }
    if shift >= 128 {
        proof {
            lemma_pow2_strictly_increases(64, shift as nat);
            let d = pow2(shift as nat) as int;
            assert(x as int / d == 0 && x as int % d == x) by (nonlinear_arith)
                requires
                    0 <= x < d,
            ;
        }
        return 0;
    }
    let unit: u128 = power_of_two(shift);
    let half: u128 = power_of_two(shift - 1);
    proof {
        lemma_u128_shr_is_div(x, shift as u128);
        lemma_pow2_unfold(shift as nat);
    }
    let q: u128 = x >> (shift as u128);
    proof {
        let d = unit as int;
        let r = x as int % d;
        assert(x == q * d + r && 0 <= r < d) by (nonlinear_arith)
            requires
                q == x as int / d,
                r == x as int % d,
                d > 0,
        ;
        assert(q <= 0x10_0000 * factor) by (nonlinear_arith)
            requires
                q * d <= x,
                x == m * factor,
                m <= 0x10_0000 * d,
                factor > 0,
                d > 0,
        ;
    }
    let low: u128 = x - q * unit;
    if low < half || (low == half && q % 2 == 0) {
        q as u32
    } else {
        q as u32 + 1
    }
}

/// A number rounded to an integer, as text.
pub fn whole(a: Real) -> (s: String)
    requires
        printable(a),
    ensures
        s@ == whole_text(a),
{
    let n: u32 = multiple(a, 1);
    proof {
        assert(a.units() * 1 == a.units());
    }
    digits(n)
}

/// A number rounded to one decimal, as text.
pub fn one_decimal(a: Real) -> (s: String)
    requires
        printable(a),
    ensures
        s@ == one_decimal_text(a),
{
    let n: u32 = multiple(a, 10);
    let before: String = digits(n / 10);
    let after: String = digits(n % 10);
    let s: String = joined(before.as_str(), ".", after.as_str(), "");
    proof {
        reveal_strlit("");
        assert(s@ =~= before@ + "."@ + after@);
    }
    s
}

} // verus!
