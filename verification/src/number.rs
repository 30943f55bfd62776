//! Binary64 arithmetic on bit patterns: comparison, addition, multiplication,
//! division and square root, each rounded once to nearest, ties to even.

use vstd::arithmetic::power2::{
    lemma2_to64, lemma2_to64_rest, lemma_pow2_adds, lemma_pow2_pos, pow2,
};
use vstd::prelude::*;

use crate::rounding::{
    infinity_key, lemma_magnitude_increases, lemma_magnitude_scaled, lemma_nearest_exact,
    lemma_nearest_exists, lemma_scale_ratio, lemma_scaled_is_nearest, magnitude, nearest,
    scale_down, scale_up,
};
use crate::significand::{power_of_two, round_scaled, BINADE, INFINITY_KEY};

verus! {

/// The place of the sign bit, 2^63.
pub const SIGN: u64 = 0x8000_0000_0000_0000;

/// The pattern that stands for the result of an undefined operation.
pub const NAN_BITS: u64 = 0x7ff8_0000_0000_0000;

/// A binary64 number, held as its encoding. Two are `==` if their encodings
/// are; `lt` and `le` compare the values.
#[derive(Clone, Copy, PartialEq, Eq, Structural, Debug)]
pub struct Real {
    pub bits: u64,
}

impl Real {
    /// The sign bit is set.
    pub open spec fn negative(self) -> bool {
        self.bits >= SIGN
    }

    /// The encoding without its sign bit.
    pub open spec fn key(self) -> int {
        if self.negative() {
            self.bits - SIGN
        } else {
            self.bits as int
        }
    }

    pub open spec fn is_nan(self) -> bool {
        self.key() > infinity_key()
    }

    pub open spec fn is_infinite(self) -> bool {
        self.key() == infinity_key()
    }

    pub open spec fn is_finite(self) -> bool {
        self.key() < infinity_key()
    }

    pub open spec fn is_zero(self) -> bool {
        self.key() == 0
    }

    /// The value in units of 2^-1074, infinity standing at 2^1024.
    pub open spec fn units(self) -> int {
        if self.negative() {
            -magnitude(self.key())
        } else {
            magnitude(self.key())
        }
    }
}

/// The number with the given sign and key.
pub open spec fn signed(negative: bool, k: int) -> Real {
    Real {
        bits: (if negative {
            k + SIGN
        } else {
            k
        }) as u64,
    }
}

pub open spec fn nan() -> Real {
    Real { bits: NAN_BITS }
}

/// `n / d` units rounded to nearest; a zero takes the given sign.
pub open spec fn rounded(n: int, d: int, negative_zero: bool) -> Real {
    if n > 0 {
        signed(false, nearest(n, d))
    } else if n < 0 {
        signed(true, nearest(-n, d))
    } else {
        signed(negative_zero, 0)
    }
}

/// The number with the other sign.
pub open spec fn neg_of(a: Real) -> Real {
    signed(!a.negative(), a.key())
}

/// The sum, rounded once. A sum that cancels is +0.
pub open spec fn add_of(a: Real, b: Real) -> Real {
    if a.is_nan() || b.is_nan() {
        nan()
    } else if a.is_infinite() {
        if b.is_infinite() && a.negative() != b.negative() {
            nan()
        } else {
            a
        }
    } else if b.is_infinite() {
        b
    } else {
        rounded(a.units() + b.units(), 1, a.negative() && b.negative())
    }
}

/// The difference: the sum with the second number negated.
pub open spec fn sub_of(a: Real, b: Real) -> Real {
    add_of(a, neg_of(b))
}

/// The product, rounded once.
pub open spec fn mul_of(a: Real, b: Real) -> Real {
    let negative = a.negative() != b.negative();
    if a.is_nan() || b.is_nan() {
        nan()
    } else if a.is_infinite() || b.is_infinite() {
        if a.is_zero() || b.is_zero() {
            nan()
        } else {
            signed(negative, infinity_key())
        }
    } else {
        signed(
            negative,
            nearest(magnitude(a.key()) * magnitude(b.key()), pow2(1074) as int),
        )
    }
}

/// The quotient, rounded once.
pub open spec fn div_of(a: Real, b: Real) -> Real {
    let negative = a.negative() != b.negative();
    if a.is_nan() || b.is_nan() {
        nan()
    } else if a.is_infinite() {
        if b.is_infinite() {
            nan()
        } else {
            signed(negative, infinity_key())
        }
    } else if b.is_infinite() {
        signed(negative, 0)
    } else if b.is_zero() {
        if a.is_zero() {
            nan()
        } else {
            signed(negative, infinity_key())
        }
    } else {
        signed(negative, nearest(magnitude(a.key()) * pow2(1074), magnitude(b.key())))
    }
}

/// `a` is less than `b`; nothing is less than, nor greater than, a NaN.
pub open spec fn lt_of(a: Real, b: Real) -> bool {
    !a.is_nan() && !b.is_nan() && a.units() < b.units()
}

/// `a` is at most `b`; never so with a NaN.
pub open spec fn le_of(a: Real, b: Real) -> bool {
    !a.is_nan() && !b.is_nan() && a.units() <= b.units()
}

impl Real {
    pub(crate) fn is_negative(self) -> (r: bool)
        ensures
            r == self.negative(),
    {
        self.bits >= SIGN
    }

    pub(crate) fn low_bits(self) -> (k: u64)
        ensures
            k == self.key(),
            k < SIGN,
    {
        if self.bits >= SIGN {
            self.bits - SIGN
        } else {
            self.bits
        }
    }

    pub(crate) fn with_sign(negative: bool, k: u64) -> (r: Real)
        requires
            k < SIGN,
        ensures
            r == signed(negative, k as int),
            r.negative() == negative,
            r.key() == k,
    {
        if negative {
            Real { bits: k + SIGN }
        } else {
            Real { bits: k }
        }
    }

    /// The significand and the exponent of its unit.
    pub(crate) fn split(k: u64) -> (r: (u64, u32))
        requires
            k < INFINITY_KEY,
        ensures
            magnitude(k as int) == r.0 * pow2(r.1 as nat),
            r.0 < 2 * BINADE,
            r.1 <= 2045,
            r.1 == 0 || r.0 >= BINADE,
            k > 0 ==> r.0 > 0,
            k == r.1 * BINADE + r.0,
    {
        if k < BINADE {
            proof {
                lemma_magnitude_scaled(0, k as int);
            }
            (k, 0)
        } else {
            let t: u64 = k / BINADE - 1;
            let q: u64 = k % BINADE + BINADE;
            proof {
                lemma_magnitude_scaled(t as nat, q as int);
            }
            (q, t as u32)
        }
    }

    pub fn neg(self) -> (r: Real)
        ensures
            r == neg_of(self),
    {
        if self.bits >= SIGN {
            Real { bits: self.bits - SIGN }
        } else {
            Real { bits: self.bits + SIGN }
        }
    }

    pub fn lt(self, other: Real) -> (r: bool)
        ensures
            r == lt_of(self, other),
    {
        let i: u64 = self.low_bits();
        let j: u64 = other.low_bits();
        if i > INFINITY_KEY || j > INFINITY_KEY {
            return false;
        }
        proof {
            lemma_units_order(self, other);
        }
        if self.is_negative() {
            if other.is_negative() {
                j < i
            } else {
                i > 0 || j > 0
            }
        } else if other.is_negative() {
            false
        } else {
            i < j
        }
    }

    pub fn le(self, other: Real) -> (r: bool)
        ensures
            r == le_of(self, other),
    {
        let i: u64 = self.low_bits();
        let j: u64 = other.low_bits();
        if i > INFINITY_KEY || j > INFINITY_KEY {
            return false;
        }
        !other.lt(self)
    }
}

impl Real {
    pub fn add(self, other: Real) -> (r: Real)
        ensures
            r == add_of(self, other),
    {
        let i: u64 = self.low_bits();
        let j: u64 = other.low_bits();
        if i > INFINITY_KEY || j > INFINITY_KEY {
            return Real { bits: NAN_BITS };
        }
        let same: bool = self.is_negative() == other.is_negative();
        if i == INFINITY_KEY {
            if j == INFINITY_KEY && !same {
                return Real { bits: NAN_BITS };
            }
            return self;
        }
        if j == INFINITY_KEY {
            return other;
        }
        proof {
            lemma_units_order(self, other);
        }
        if i == j && !same {
            return Real { bits: 0 };
        }
        let swap: bool = i < j;
        let negative: bool = if swap {
            other.is_negative()
        } else {
            self.is_negative()
        };
        let high: u64 = if swap {
            j
        } else {
            i
        };
        let low: u64 = if swap {
            i
        } else {
            j
        };
        let k: u64 = Real::add_keys(high, low, same);
        proof {
            lemma_nearest_exists(
                if same {
                    magnitude(high as int) + magnitude(low as int)
                } else {
                    magnitude(high as int) - magnitude(low as int)
                },
                1,
            );
            if same && high == 0 {
                lemma_nearest_exact(0, 0, 1);
            }
        }
        Real::with_sign(negative, k)
    }

    /// Adds or subtracts two magnitudes, the larger one given first.
    fn add_keys(high: u64, low: u64, same: bool) -> (k: u64)
        requires
            low <= high < INFINITY_KEY,
            !same ==> low < high,
        ensures
            k <= INFINITY_KEY,
            same ==> k == nearest(magnitude(high as int) + magnitude(low as int), 1),
            !same ==> k == nearest(magnitude(high as int) - magnitude(low as int), 1),
    {
        if low == 0 {
            proof {
                assert(magnitude(0) == 0);
                lemma_nearest_exact(high as int, magnitude(high as int), 1);
            }
            return high;
        }
        let (mh, th) = Real::split(high);
        let (ml, tl) = Real::split(low);
        proof {
            lemma2_to64();
            lemma2_to64_rest();
            assert(tl <= th) by {
                if tl > th {
                    assert(tl * BINADE >= th * BINADE + BINADE);
                }
            }
            lemma_magnitude_increases(0, low as int);
            if low < high {
                lemma_magnitude_increases(low as int, high as int);
            }
        }
        let gap: u32 = th - tl;
        let ghost n = if same {
            magnitude(high as int) + magnitude(low as int)
        } else {
            magnitude(high as int) - magnitude(low as int)
        };
        if gap <= 64 {
            let unit: u128 = power_of_two(gap);
            proof {
                if gap < 64 {
                    vstd::arithmetic::power2::lemma_pow2_strictly_increases(gap as nat, 64);
                }
                lemma_pow2_adds(gap as nat, tl as nat);
                lemma_pow2_pos(tl as nat);
                assert(0 <= mh * unit <= 0x20_0000_0000_0000 * 0x1_0000_0000_0000_0000)
                    by (nonlinear_arith)
                    requires
                        0 <= mh < 0x20_0000_0000_0000,
                        0 <= unit <= 0x1_0000_0000_0000_0000,
                ;
                let p = pow2(tl as nat) as int;
                assert((mh * unit) * p == mh * (unit * p)) by (nonlinear_arith);
                if !same {
                    assert(mh * unit > ml) by (nonlinear_arith)
                        requires
                            (mh * unit) * p > ml * p,
                            p > 0,
                    ;
                }
            }
            let shifted: u128 = (mh as u128) * unit;
            let m: u128 = if same {
                shifted + ml as u128
            } else {
                shifted - ml as u128
            };
            let k: u64 = round_scaled(m, tl as i32, false);
            proof {
                let p = pow2(tl as nat) as int;
                assert(m * p * 1 == n) by (nonlinear_arith)
                    requires
                        same ==> m == mh * unit + ml && n == mh * (unit * p) + ml * p,
                        !same ==> m == mh * unit - ml && n == mh * (unit * p) - ml * p,
                ;
                lemma_scaled_is_nearest(k as int, m as int, tl as int, false, n, 1);
            }
            k
        } else {
            let m: u128 = if same {
                (mh as u128) * 1024
            } else {
                (mh as u128) * 1024 - 1
            };
            let e: i32 = th as i32 - 10;
            let k: u64 = round_scaled(m, e, true);
            proof {
                let p = pow2(e as nat) as int;
                let small = magnitude(low as int);
                lemma_pow2_adds(e as nat, 10);
                lemma_pow2_pos(e as nat);
                assert(magnitude(high as int) == (mh * 1024) * p) by (nonlinear_arith)
                    requires
                        magnitude(high as int) == mh * (p * 1024),
                ;
                assert(small < p) by {
                    let pl = pow2(tl as nat) as int;
                    lemma_pow2_pos(tl as nat);
                    assert(ml * pl < 0x20_0000_0000_0000 * pl) by (nonlinear_arith)
                        requires
                            ml < 0x20_0000_0000_0000,
                            pl > 0,
                    ;
                    lemma_pow2_adds(53, tl as nat);
                    vstd::arithmetic::power2::lemma_pow2_strictly_increases(
                        (53 + tl) as nat,
                        e as nat,
                    );
                }
                assert(m * p * 1 < n && n < (m + 1) * p * 1) by (nonlinear_arith)
                    requires
                        same ==> m == mh * 1024 && n == (mh * 1024) * p + small,
                        !same ==> m == mh * 1024 - 1 && n == (mh * 1024) * p - small,
                        0 < small < p,
                ;
                lemma_scaled_is_nearest(k as int, m as int, e as int, true, n, 1);
            }
            k
        }
    }

    pub fn sub(self, other: Real) -> (r: Real)
        ensures
            r == sub_of(self, other),
    {
        self.add(other.neg())
    }

    pub fn mul(self, other: Real) -> (r: Real)
        ensures
            r == mul_of(self, other),
    {
        let i: u64 = self.low_bits();
        let j: u64 = other.low_bits();
        if i > INFINITY_KEY || j > INFINITY_KEY {
            return Real { bits: NAN_BITS };
        }
        let negative: bool = self.is_negative() != other.is_negative();
        if i == INFINITY_KEY || j == INFINITY_KEY {
            if i == 0 || j == 0 {
                return Real { bits: NAN_BITS };
            }
            return Real::with_sign(negative, INFINITY_KEY);
        }
        let (mi, ti) = Real::split(i);
        let (mj, tj) = Real::split(j);
        proof {
            assert(0 <= mi * mj < 0x20_0000_0000_0000 * 0x20_0000_0000_0000) by (nonlinear_arith)
                requires
                    0 <= mi < 0x20_0000_0000_0000,
                    0 <= mj < 0x20_0000_0000_0000,
            ;
        }
        let m: u128 = (mi as u128) * (mj as u128);
        let e: i32 = ti as i32 + tj as i32 - 1074;
        let k: u64 = round_scaled(m, e, false);
        proof {
            let n = magnitude(i as int) * magnitude(j as int);
            let pi = pow2(ti as nat) as int;
            let pj = pow2(tj as nat) as int;
            let d = pow2(1074) as int;
            let a = scale_up(e as int);
            let b = scale_down(e as int);
            lemma_pow2_pos(1074);
            lemma_pow2_adds(ti as nat, tj as nat);
            lemma_scale_ratio((ti + tj) as nat, e as int, 1074);
            assert(n == (mi * mj) * (pi * pj)) by (nonlinear_arith)
                requires
                    n == (mi * pi) * (mj * pj),
            ;
            assert(m * a * d == n * b) by (nonlinear_arith)
                requires
                    n == m * (pi * pj),
                    (pi * pj) * b == d * a,
            ;
            lemma_scaled_is_nearest(k as int, m as int, e as int, false, n, d);
        }
        Real::with_sign(negative, k)
    }
}

pub proof fn lemma_units_order(a: Real, b: Real)
    ensures
        magnitude(a.key()) >= 0,
        magnitude(b.key()) >= 0,
        a.key() > 0 ==> magnitude(a.key()) > 0,
        b.key() > 0 ==> magnitude(b.key()) > 0,
        a.key() == 0 ==> magnitude(a.key()) == 0,
        b.key() == 0 ==> magnitude(b.key()) == 0,
        a.key() < b.key() ==> magnitude(a.key()) < magnitude(b.key()),
        b.key() < a.key() ==> magnitude(b.key()) < magnitude(a.key()),
{
    let i = a.key();
    let j = b.key();
    assert(magnitude(0) == 0);
    if i > 0 {
        lemma_magnitude_increases(0, i);
    }
    if j > 0 {
        lemma_magnitude_increases(0, j);
    }
    if i < j {
        lemma_magnitude_increases(i, j);
    }
    if j < i {
        lemma_magnitude_increases(j, i);
    }
}

} // verus!
