//! Division and square root, rounded once to nearest, ties to even.

use vstd::arithmetic::power2::{
    lemma2_to64, lemma2_to64_rest, lemma_pow2_adds, lemma_pow2_pos, lemma_pow2_unfold, pow2,
};
use vstd::prelude::*;

use crate::number::{div_of, nan, signed, Real, NAN_BITS};
use crate::rounding::{
    lemma_magnitude_increases, lemma_scale_ratio, lemma_scaled_is_nearest,
    lemma_scaled_is_nearest_root, lemma_scales_positive, magnitude, nearest, nearest_root,
    scale_down, scale_up,
};
use crate::significand::{round_scaled, BINADE, INFINITY_KEY};

verus! {

/// The square root, rounded once. The root of a negative number is undefined.
pub open spec fn sqrt_of(a: Real) -> Real {
    if a.is_nan() {
        nan()
    } else if a.is_zero() {
        a
    } else if a.negative() {
        nan()
    } else if a.is_infinite() {
        a
    } else {
        signed(false, nearest_root(a.units() * pow2(1074)))
    }
}

/// Shifts a significand up until its leading bit is the 53rd.
pub(crate) fn normalize(m: u64) -> (r: (u64, u32))
    requires
        0 < m < 2 * BINADE,
    ensures
        BINADE <= r.0 < 2 * BINADE,
        r.1 <= 52,
        r.0 == m * pow2(r.1 as nat),
{
    let mut top: u64 = m;
    let mut shift: u32 = 0;
    proof {
        lemma2_to64();
    }
    while top < BINADE
        invariant
            0 < m,
            0 < top < 2 * BINADE,
            shift <= 52,
            top == m * pow2(shift as nat),
        decreases 2 * BINADE - top,
    {
        proof {
            lemma_pow2_unfold((shift + 1) as nat);
            lemma_pow2_pos(shift as nat);
            let p = pow2(shift as nat) as int;
            assert(m * (2 * p) == 2 * (m * p)) by (nonlinear_arith);
            assert(p <= m * p) by (nonlinear_arith)
                requires
                    m > 0,
                    p > 0,
            ;
            if shift == 52 {
                lemma2_to64_rest();
            }
        }
        top = top * 2;
        shift = shift + 1;
    }
    (top, shift)
}

/// The integer square root.
pub(crate) fn integer_root(m: u128) -> (r: u64)
    requires
        m < 0x4000_0000_0000_0000_0000_0000_0000,
    ensures
        r < 0x80_0000_0000_0000,
        r * r <= m < (r + 1) * (r + 1),
{
    let mut r: u64 = 0;
    let mut step: u64 = 0x80_0000_0000_0000;
    let ghost mut exponent: nat = 55;
    proof {
        lemma2_to64();
        lemma2_to64_rest();
    }
    while step > 1
        invariant
            m < 0x4000_0000_0000_0000_0000_0000_0000,
            step == pow2(exponent),
            1 <= step <= 0x80_0000_0000_0000,
            r + step <= 0x80_0000_0000_0000,
            r * r <= m < (r + step) * (r + step),
        decreases step,
    {
        proof {
            lemma2_to64();
            if exponent > 0 {
                lemma_pow2_unfold(exponent);
                lemma_pow2_pos((exponent - 1) as nat);
            }
        }
        let half: u64 = step / 2;
        let candidate: u64 = r + half;
        proof {
            assert(0 <= candidate * candidate <= 0x80_0000_0000_0000 * 0x80_0000_0000_0000)
                by (nonlinear_arith)
                requires
                    0 <= candidate <= 0x80_0000_0000_0000,
            ;
        }
        if (candidate as u128) * (candidate as u128) <= m {
            r = candidate;
        }
        step = half;
        proof {
            exponent = (exponent - 1) as nat;
        }
    }
    r
}

impl Real {
    pub fn div(self, other: Real) -> (r: Real)
        ensures
            r == div_of(self, other),
    {
        let i: u64 = self.low_bits();
        let j: u64 = other.low_bits();
        if i > INFINITY_KEY || j > INFINITY_KEY {
            return Real { bits: NAN_BITS };
        }
        let negative: bool = self.is_negative() != other.is_negative();
        if i == INFINITY_KEY {
            if j == INFINITY_KEY {
                return Real { bits: NAN_BITS };
            }
            return Real::with_sign(negative, INFINITY_KEY);
        }
        if j == INFINITY_KEY {
            return Real::with_sign(negative, 0);
        }
        if j == 0 {
            if i == 0 {
                return Real { bits: NAN_BITS };
            }
            return Real::with_sign(negative, INFINITY_KEY);
        }
        let k: u64 = Real::div_keys(i, j);
        Real::with_sign(negative, k)
    }

    fn div_keys(i: u64, j: u64) -> (k: u64)
        requires
            i < INFINITY_KEY,
            0 < j < INFINITY_KEY,
        ensures
            k <= INFINITY_KEY,
            k == nearest(magnitude(i as int) * pow2(1074), magnitude(j as int)),
    {
        proof {
            lemma_magnitude_increases(0, j as int);
            lemma2_to64();
            lemma2_to64_rest();
        }
        if i == 0 {
            proof {
                let d = magnitude(j as int);
                assert(magnitude(0) * d == 0);
                crate::rounding::lemma_nearest_exact(0, 0, d);
            }
            return 0;
        }
        let (mi, ti) = Real::split(i);
        let (mj, tj) = Real::split(j);
        let (ni, si) = normalize(mi);
        let (nj, sj) = normalize(mj);
        let top: u128 = (ni as u128) * 0x1_0000_0000_0000_0000;
        let q: u128 = top / (nj as u128);
        let inexact: bool = top % (nj as u128) != 0;
        let e: i32 = ti as i32 + 1010 + sj as i32 - tj as i32 - si as i32;
        proof {
            assert(0x20_0000_0000_0000 <= q < 0x4_0000_0000_0000_0000) by (nonlinear_arith)
                requires
                    q == top as int / nj as int,
                    0x10_0000_0000_0000 <= nj < 0x20_0000_0000_0000,
                    0x10_0000_0000_0000 * 0x1_0000_0000_0000_0000 <= top < 0x20_0000_0000_0000
                        * 0x1_0000_0000_0000_0000,
            ;
        }
        let k: u64 = round_scaled(q, e, inexact);
        proof {
            assert(q * nj <= top < (q + 1) * nj && (inexact <==> q * nj < top))
                by (nonlinear_arith)
                requires
                    q == top as int / nj as int,
                    inexact <==> top as int % nj as int != 0,
                    nj > 0,
            ;
            // Both sides of the division, over the shared power p.
            let a = scale_up(e as int);
            let b = scale_down(e as int);
            let p = pow2((si + 64) as nat) as int;
            let tp = pow2(tj as nat) as int;
            let sp = pow2(sj as nat) as int;
            let np = pow2((ti + 1074) as nat) as int;
            lemma_pow2_adds(si as nat, 64);
            lemma_pow2_adds(ti as nat, 1074);
            lemma_pow2_adds(tj as nat, (si + 64) as nat);
            lemma_pow2_adds(sj as nat, (ti + 1074) as nat);
            lemma_scale_ratio((sj + ti + 1074) as nat, e as int, (tj + si + 64) as nat);
            lemma_scales_positive(e as int);
            lemma_pow2_pos((si + 64) as nat);
            lemma_pow2_pos((ti + 1074) as nat);
            let d = magnitude(j as int);
            let n = magnitude(i as int) * pow2(1074);
            assert(n == mi * np) by (nonlinear_arith)
                requires
                    n == (mi * pow2(ti as nat)) * pow2(1074),
                    np == pow2(ti as nat) * pow2(1074),
            ;
            assert(top == mi * p) by (nonlinear_arith)
                requires
                    top == (mi * pow2(si as nat)) * 0x1_0000_0000_0000_0000,
                    p == pow2(si as nat) * 0x1_0000_0000_0000_0000,
            ;
            lemma_quotient_bracket(q as int, mi as int, mj as int, p, tp, sp, np, a, b);
            lemma_quotient_bracket(q + 1, mi as int, mj as int, p, tp, sp, np, a, b);
            lemma_scaled_is_nearest(k as int, q as int, e as int, inexact, n, d);
        }
        k
    }

    pub fn sqrt(self) -> (r: Real)
        ensures
            r == sqrt_of(self),
    {
        let i: u64 = self.low_bits();
        if i > INFINITY_KEY {
            return Real { bits: NAN_BITS };
        }
        if i == 0 {
            return self;
        }
        if self.is_negative() {
            return Real { bits: NAN_BITS };
        }
        if i == INFINITY_KEY {
            return self;
        }
        let (m, t) = Real::split(i);
        let (top, s) = normalize(m);
        // 1074 + t - s - extra is even.
        let odd: bool = (t + 1074 - s) % 2 == 1;
        let extra: u32 = if odd {
            57
        } else {
            56
        };
        let unit: u128 = if odd {
            0x200_0000_0000_0000
        } else {
            0x100_0000_0000_0000
        };
        let square: u128 = (top as u128) * unit;
        let root: u64 = integer_root(square);
        let e: u32 = (t + 1074 - s - extra) / 2;
        proof {
            assert(root >= 0x40_0000_0000_0000) by (nonlinear_arith)
                requires
                    square < (root + 1) * (root + 1),
                    square >= 0x10_0000_0000_0000 * 0x100_0000_0000_0000,
            ;
            assert(0 <= root * root < 0x80_0000_0000_0000 * 0x80_0000_0000_0000)
                by (nonlinear_arith)
                requires
                    0 <= root < 0x80_0000_0000_0000,
            ;
        }
        let inexact: bool = (root as u128) * (root as u128) != square;
        let k: u64 = round_scaled(root as u128, e as i32, inexact);
        proof {
            lemma2_to64();
            lemma2_to64_rest();
            lemma_pow2_adds(s as nat, extra as nat);
            lemma_pow2_adds(t as nat, 1074);
            lemma_pow2_adds(e as nat, e as nat);
            lemma_pow2_adds((e + e) as nat, (s + extra) as nat);
            let n = self.units() * pow2(1074);
            let up = pow2(t as nat) as int;
            let sp = pow2(s as nat) as int;
            let ee = pow2((e + e) as nat) as int;
            assert(unit == pow2(extra as nat));
            assert(n == square * ee) by (nonlinear_arith)
                requires
                    n == (m * up) * pow2(1074),
                    square == (m * sp) * unit,
                    up * pow2(1074) == ee * (sp * unit),
            ;
            lemma_scaled_is_nearest_root(
                k as int,
                root as int,
                e as nat,
                inexact,
                square as int,
                n,
            );
        }
        Real::with_sign(false, k)
    }
}

/// Carries a comparison of `c * mj` with `mi`, over shifted significands, to
/// the operands themselves.
proof fn lemma_quotient_bracket(
    c: int,
    mi: int,
    mj: int,
    p: int,
    tp: int,
    sp: int,
    np: int,
    a: int,
    b: int,
)
    requires
        p > 0,
        np > 0,
        b > 0,
        (sp * np) * b == (tp * p) * a,
    ensures
        c * (mj * sp) == mi * p ==> c * a * (mj * tp) == (mi * np) * b,
        c * (mj * sp) < mi * p ==> c * a * (mj * tp) < (mi * np) * b,
        c * (mj * sp) > mi * p ==> c * a * (mj * tp) > (mi * np) * b,
{
    let left = c * a * (mj * tp);
    let right = (mi * np) * b;
    let f = np * b;
    assert(f > 0) by (nonlinear_arith)
        requires
            np > 0,
            b > 0,
            f == np * b,
    ;
    let common = (tp * p) * a;
    assert(left * p == (c * mj) * common) by (nonlinear_arith)
        requires
            left == c * a * (mj * tp),
            common == (tp * p) * a,
    ;
    assert((c * mj) * common == (c * (mj * sp)) * f) by (nonlinear_arith)
        requires
            (sp * np) * b == common,
            f == np * b,
    ;
    assert(right * p == (mi * p) * f) by (nonlinear_arith)
        requires
            right == (mi * np) * b,
            f == np * b,
    ;
    let x = c * (mj * sp);
    let y = mi * p;
    assert((x == y ==> left == right) && (x < y ==> left < right) && (x > y ==> left > right))
        by (nonlinear_arith)
        requires
            left * p == x * f,
            right * p == y * f,
            p > 0,
            f > 0,
    ;
}

} // verus!
