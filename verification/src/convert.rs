//! Bounds on numbers, and conversions between numbers, integers and decimals.

use vstd::arithmetic::power2::{
    lemma2_to64, lemma2_to64_rest, lemma_pow2_adds, lemma_pow2_pos, lemma_pow2_strictly_increases,
    pow2,
};
use vstd::bits::lemma_u128_shr_is_div;
use vstd::prelude::*;

use crate::division::normalize;
use crate::number::{le_of, lemma_units_order, lt_of, rounded, signed, Real};
use crate::rounding::{
    binade, lemma_magnitude_increases, lemma_magnitude_scaled, lemma_nearest_exact,
    lemma_nearest_monotone, magnitude, nearest,
};
use crate::significand::{BINADE, INFINITY_KEY};

verus! {

/// The smaller of two numbers; a NaN gives way to the other one.
pub open spec fn min_of(a: Real, b: Real) -> Real {
    if a.is_nan() || lt_of(b, a) {
        b
    } else {
        a
    }
}

/// The larger of two numbers; a NaN gives way to the other one.
pub open spec fn max_of(a: Real, b: Real) -> Real {
    if a.is_nan() || lt_of(a, b) {
        b
    } else {
        a
    }
}

/// The number moved to the nearer end of the range where it lies outside; a
/// NaN stays.
pub open spec fn clamp_of(a: Real, low: Real, high: Real) -> Real {
    if lt_of(a, low) {
        low
    } else if lt_of(high, a) {
        high
    } else {
        a
    }
}

/// The number that the decimal fraction `n / d` denotes: the nearest one.
pub open spec fn decimal(n: int, d: int) -> Real {
    rounded(n * pow2(1074), d, false)
}

/// The whole part, held to the range of a byte; a NaN gives zero.
pub open spec fn byte_of(a: Real) -> int {
    let whole = a.units() / (pow2(1074) as int);
    if a.is_nan() || a.units() <= 0 {
        0
    } else if whole > 255 {
        255
    } else {
        whole
    }
}

impl Real {
    pub fn is_a_nan(self) -> (r: bool)
        ensures
            r == self.is_nan(),
    {
        self.low_bits() > INFINITY_KEY
    }

    pub fn min(self, other: Real) -> (r: Real)
        ensures
            r == min_of(self, other),
    {
        if self.is_a_nan() || other.lt(self) {
            other
        } else {
            self
        }
    }

    pub fn max(self, other: Real) -> (r: Real)
        ensures
            r == max_of(self, other),
    {
        if self.is_a_nan() || self.lt(other) {
            other
        } else {
            self
        }
    }

    pub fn clamp(self, low: Real, high: Real) -> (r: Real)
        requires
            le_of(low, high),
        ensures
            r == clamp_of(self, low, high),
            self.is_nan() ==> r == self,
            !self.is_nan() ==> le_of(low, r) && le_of(r, high),
    {
        if self.lt(low) {
            low
        } else if high.lt(self) {
            high
        } else {
            self
        }
    }

    /// The integer as a number; every 32-bit integer is one.
    pub fn from_u32(n: u32) -> (r: Real)
        ensures
            r == decimal(n as int, 1),
            r.units() == n * pow2(1074),
            !r.negative(),
            r.is_finite(),
    {
        proof {
            lemma2_to64();
            lemma2_to64_rest();
            lemma_pow2_pos(1074);
        }
        if n == 0 {
            return Real { bits: 0 };
        }
        let (q, s) = normalize(n as u64);
        let t: u64 = 1074 - s as u64;
        proof {
            lemma_magnitude_scaled(t as nat, q as int);
            lemma_pow2_adds(s as nat, t as nat);
            let k = t * binade() + q;
            let p = pow2(1074) as int;
            assert(q * pow2(t as nat) == n * p) by (nonlinear_arith)
                requires
                    q == n * pow2(s as nat),
                    p == pow2(s as nat) * pow2(t as nat),
            ;
            assert(n * p > 0) by (nonlinear_arith)
                requires
                    n > 0,
                    p > 0,
            ;
            lemma_nearest_exact(k, n * p, 1);
        }
        Real::with_sign(false, t * BINADE + q)
    }

    /// The number written as `n / d` in decimal notation.
    pub fn decimal(n: i32, d: u32) -> (r: Real)
        requires
            d > 0,
        ensures
            r == decimal(n as int, d as int),
    {
        let negative: bool = n < 0;
        let size: u32 = if negative {
            (-(n as i64)) as u32
        } else {
            n as u32
        };
        let a: Real = Real::from_u32(size);
        let b: Real = Real::from_u32(d);
        let r: Real = a.div(b);
        proof {
            let p = pow2(1074) as int;
            lemma_pow2_pos(1074);
            lemma_units_order(a, b);
            let x = size * p;
            assert(d * p > 0) by (nonlinear_arith)
                requires
                    d > 0,
                    p > 0,
            ;
            assert(x >= 0) by (nonlinear_arith)
                requires
                    size >= 0,
                    p > 0,
                    x == size * p,
            ;
            assert(x * p >= 0) by (nonlinear_arith)
                requires
                    x >= 0,
                    p > 0,
            ;
            assert((x * p) * d == x * (d * p)) by (nonlinear_arith);
            lemma_nearest_monotone(x * p, d * p, x, d as int);
            lemma_nearest_monotone(x, d as int, x * p, d * p);
            assert(r == signed(false, nearest(x, d as int)));
            if size == 0 {
                assert(0 * p == 0);
                assert(magnitude(0) == 0);
                assert(0 * d == 0);
                lemma_nearest_exact(0, 0, d as int);
            } else {
                assert(x > 0) by (nonlinear_arith)
                    requires
                        size > 0,
                        p > 0,
                        x == size * p,
                ;
            }
            assert(n * p == if negative {
                -x
            } else {
                x
            }) by (nonlinear_arith)
                requires
                    negative ==> n == -size,
                    !negative ==> n == size,
                    x == size * p,
            ;
        }
        if negative {
            r.neg()
        } else {
            r
        }
    }

    /// The whole part as a byte, saturating.
    pub fn to_byte(self) -> (r: u8)
        ensures
            r == byte_of(self),
    {
        let k: u64 = self.low_bits();
        proof {
            lemma_units_order(self, self);
            lemma_pow2_pos(1074);
            lemma2_to64();
            lemma2_to64_rest();
        }
        if k > INFINITY_KEY || self.is_negative() || k == 0 {
            return 0;
        }
        if k >= 0x4070_0000_0000_0000 {
            // At least 256.
            proof {
                lemma_magnitude_scaled(1030, binade());
                if 0x4070_0000_0000_0000 < k {
                    lemma_magnitude_increases(0x4070_0000_0000_0000, k as int);
                }
                lemma_pow2_adds(44, 1030);
                let p = pow2(1074) as int;
                assert(binade() * pow2(1030) == 256 * p);
                assert(self.units() / p >= 256) by (nonlinear_arith)
                    requires
                        self.units() >= 256 * p,
                        p > 0,
                ;
            }
            return 255;
        }
        let (m, t) = Real::split(k);
        proof {
            assert(t <= 1029) by {
                if t >= 1030 {
                    assert(t * BINADE >= 1030 * BINADE);
                }
            }
        }
        let shift: u32 = 1074 - t;
        proof {
            lemma_pow2_adds(shift as nat, t as nat);
            lemma_pow2_pos(shift as nat);
            lemma_pow2_pos(t as nat);
            let p = pow2(1074) as int;
            let small = pow2(shift as nat) as int;
            let unit = pow2(t as nat) as int;
            assert((m * unit) / p == m as int / small) by {
                vstd::arithmetic::div_mod::lemma_div_denominator(m * unit, unit, small);
                assert(unit * small == p) by (nonlinear_arith)
                    requires
                        p == small * unit,
                ;
                vstd::arithmetic::div_mod::lemma_div_multiples_vanish(m as int, unit);
                assert(m * unit == unit * m) by (nonlinear_arith);
            }
        }
        if shift >= 128 {
            proof {
                lemma_pow2_strictly_increases(53, shift as nat);
                let small = pow2(shift as nat) as int;
                assert(m as int / small == 0) by (nonlinear_arith)
                    requires
                        0 <= m < small,
                ;
            }
            return 0;
        }
        proof {
            lemma_u128_shr_is_div(m as u128, shift as u128);
            let small = pow2(shift as nat) as int;
            if shift > 45 {
                lemma_pow2_strictly_increases(45, shift as nat);
            }
            assert(m as int / small <= 255) by (nonlinear_arith)
                requires
                    0 <= m < 0x20_0000_0000_0000,
                    small >= 0x2000_0000_0000,
            ;
        }
        ((m as u128) >> (shift as u128)) as u8
    }
}

} // verus!
