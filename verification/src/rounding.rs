//! Rounding to the nearest binary64 value.
//!
//! The non-negative binary64 values are numbered in increasing order by the
//! low 63 bits of their encoding: 0 is zero, 1 is the least subnormal, and
//! [`infinity_key`] is infinity. Magnitudes are counted in units of 2^-1074,
//! the least subnormal, so that every finite one is an integer.

use vstd::arithmetic::power2::{
    lemma2_to64, lemma_pow2_adds, lemma_pow2_pos, lemma_pow2_unfold, pow2,
};
use vstd::prelude::*;

verus! {

/// The number of fraction patterns under one exponent, 2^52.
pub open spec fn binade() -> int {
    0x10_0000_0000_0000
}

/// The key of infinity; the keys above it are those of NaN.
pub open spec fn infinity_key() -> int {
    2047 * binade()
}

/// The magnitude of the value with key `k`, in units of 2^-1074. Infinity
/// stands at 2^1024, the place of the value that would follow the largest
/// finite one.
pub open spec fn magnitude(k: int) -> int {
    if k < binade() {
        k
    } else {
        (binade() + k % binade()) * pow2((k / binade() - 1) as nat)
    }
}

/// Twice the midpoint between the values with keys `k` and `k + 1`.
pub open spec fn midpoint2(k: int) -> int {
    magnitude(k) + magnitude(k + 1)
}

/// `k` is the key of the value nearest to `n / d` units; of two equally near
/// values it is the one with the even key.
pub open spec fn is_nearest(k: int, n: int, d: int) -> bool {
    &&& 0 <= k <= infinity_key()
    &&& k > 0 ==> midpoint2(k - 1) * d <= 2 * n && (midpoint2(k - 1) * d == 2 * n ==> k % 2 == 0)
    &&& k < infinity_key() ==> 2 * n <= midpoint2(k) * d && (2 * n == midpoint2(k) * d ==> k % 2
        == 0)
}

/// The key of the value nearest to `n / d` units, ties to even.
pub open spec fn nearest(n: int, d: int) -> int {
    choose|k: int| is_nearest(k, n, d)
}

/// `k` is the key of the value nearest to the square root of `n` units.
pub open spec fn is_nearest_root(k: int, n: int) -> bool {
    &&& 0 <= k <= infinity_key()
    &&& k > 0 ==> midpoint2(k - 1) * midpoint2(k - 1) <= 4 * n && (midpoint2(k - 1) * midpoint2(
        k - 1,
    ) == 4 * n ==> k % 2 == 0)
    &&& k < infinity_key() ==> 4 * n <= midpoint2(k) * midpoint2(k) && (4 * n == midpoint2(k)
        * midpoint2(k) ==> k % 2 == 0)
}

/// The key of the value nearest to the square root of `n` units, ties to even.
pub open spec fn nearest_root(n: int) -> int {
    choose|k: int| is_nearest_root(k, n)
}

/// A significand `q` over the quantum `2^t` has the key `t * 2^52 + q`.
pub proof fn lemma_magnitude_scaled(t: nat, q: int)
    requires
        0 <= q <= 2 * binade(),
        t == 0 || q >= binade(),
    ensures
        magnitude(t * binade() + q) == q * pow2(t),
{
    let k = t * binade() + q;
    lemma2_to64();
    if q < binade() {
        assert(pow2(t) == 1);
    } else if q < 2 * binade() {
        assert(k / binade() == t + 1);
        assert(k % binade() == q - binade());
    } else {
        assert(k / binade() == t + 2);
        assert(k % binade() == 0);
        lemma_pow2_unfold(t + 1);
        assert(binade() * (2 * pow2(t)) == (2 * binade()) * pow2(t)) by (nonlinear_arith);
    }
}

/// Splits a key into the quantum exponent and the significand.
pub proof fn lemma_key_split(k: int) -> (r: (nat, int))
    requires
        k >= 0,
    ensures
        k == r.0 * binade() + r.1,
        0 <= r.1 < 2 * binade(),
        r.0 == 0 || r.1 >= binade(),
        magnitude(k) == r.1 * pow2(r.0),
        magnitude(k + 1) == (r.1 + 1) * pow2(r.0),
{
    let t: nat = if k < binade() {
        0
    } else {
        (k / binade() - 1) as nat
    };
    let q = k - t * binade();
    lemma_magnitude_scaled(t, q);
    lemma_magnitude_scaled(t, q + 1);
    (t, q)
}

pub proof fn lemma_magnitude_step(k: int)
    requires
        k >= 0,
    ensures
        magnitude(k) < magnitude(k + 1),
{
    let (t, q) = lemma_key_split(k);
    lemma_pow2_pos(t);
    assert(q * pow2(t) < (q + 1) * pow2(t)) by (nonlinear_arith)
        requires
            pow2(t) > 0,
    ;
}

/// The keys number the values in increasing order.
pub proof fn lemma_magnitude_increases(i: int, j: int)
    requires
        0 <= i < j,
    ensures
        magnitude(i) < magnitude(j),
    decreases j - i,
{
    lemma_magnitude_step(j - 1);
    if i < j - 1 {
        lemma_magnitude_increases(i, j - 1);
    }
}

pub proof fn lemma_midpoint_increases(i: int, j: int)
    requires
        0 <= i < j,
    ensures
        midpoint2(i) < midpoint2(j),
{
    lemma_magnitude_increases(i, j);
    lemma_magnitude_increases(i + 1, j + 1);
}

/// At most one key is nearest.
pub proof fn lemma_nearest_unique(i: int, j: int, n: int, d: int)
    requires
        d > 0,
        is_nearest(i, n, d),
        is_nearest(j, n, d),
    ensures
        i == j,
{
    lemma_nearest_order(i, j, n, d);
    lemma_nearest_order(j, i, n, d);
}

proof fn lemma_nearest_order(i: int, j: int, n: int, d: int)
    requires
        d > 0,
        is_nearest(i, n, d),
        is_nearest(j, n, d),
    ensures
        j <= i,
{
    if i < j - 1 {
        lemma_midpoint_increases(i, j - 1);
        assert(midpoint2(i) * d < midpoint2(j - 1) * d) by (nonlinear_arith)
            requires
                d > 0,
                midpoint2(i) < midpoint2(j - 1),
        ;
    }
}

proof fn lemma_floor_key(j: int, n: int, d: int) -> (k: int)
    requires
        d > 0,
        0 <= n < magnitude(j) * d,
        j >= 0,
    ensures
        0 <= k < j,
        magnitude(k) * d <= n < magnitude(k + 1) * d,
    decreases j,
{
    if j == 0 {
        assert(magnitude(0) == 0);
        assert(0 * d == 0);
        0
    } else if magnitude(j - 1) * d <= n {
        j - 1
    } else {
        lemma_floor_key(j - 1, n, d)
    }
}

/// Every non-negative ratio has a nearest value.
pub proof fn lemma_nearest_exists(n: int, d: int)
    requires
        n >= 0,
        d > 0,
    ensures
        is_nearest(nearest(n, d), n, d),
{
    if magnitude(infinity_key()) * d <= n {
        let k = infinity_key();
        lemma_magnitude_step(k - 1);
        assert(midpoint2(k - 1) * d < 2 * (magnitude(k) * d)) by (nonlinear_arith)
            requires
                d > 0,
                midpoint2(k - 1) < 2 * magnitude(k),
        ;
        assert(is_nearest(k, n, d));
    } else {
        let k = lemma_floor_key(infinity_key(), n, d);
        lemma_magnitude_step(k);
        lemma_magnitude_step(k + 1);
        assert(midpoint2(k + 1) * d > 2 * (magnitude(k + 1) * d)) by (nonlinear_arith)
            requires
                d > 0,
                midpoint2(k + 1) > 2 * magnitude(k + 1),
        ;
        if k > 0 {
            lemma_magnitude_step(k - 1);
            assert(midpoint2(k - 1) * d < 2 * (magnitude(k) * d)) by (nonlinear_arith)
                requires
                    d > 0,
                    midpoint2(k - 1) < 2 * magnitude(k),
            ;
        }
        if 2 * n < midpoint2(k) * d || (2 * n == midpoint2(k) * d && k % 2 == 0) {
            assert(is_nearest(k, n, d));
        } else {
            assert(is_nearest(k + 1, n, d));
        }
    }
}

/// A key that is nearest is the nearest one.
pub proof fn lemma_nearest_is(k: int, n: int, d: int)
    requires
        d > 0,
        is_nearest(k, n, d),
    ensures
        nearest(n, d) == k,
{
    lemma_nearest_unique(k, nearest(n, d), n, d);
}

/// Rounding preserves order.
pub proof fn lemma_nearest_monotone(n1: int, d1: int, n2: int, d2: int)
    requires
        0 <= n1,
        0 <= n2,
        0 < d1,
        0 < d2,
        n1 * d2 <= n2 * d1,
    ensures
        0 <= nearest(n1, d1) <= nearest(n2, d2) <= infinity_key(),
{
    lemma_nearest_exists(n1, d1);
    lemma_nearest_exists(n2, d2);
    let i = nearest(n2, d2);
    let j = nearest(n1, d1);
    if i < j {
        let low = midpoint2(i);
        let high = midpoint2(j - 1);
        assert(low <= high) by {
            if i < j - 1 {
                lemma_midpoint_increases(i, j - 1);
            }
        }
        // 2 * n2 / d2 <= low <= high <= 2 * n1 / d1 <= 2 * n2 / d2
        assert(high * (d1 * d2) <= 2 * (n1 * d2)) by (nonlinear_arith)
            requires
                high * d1 <= 2 * n1,
                d2 > 0,
        ;
        assert(2 * (n2 * d1) <= low * (d1 * d2)) by (nonlinear_arith)
            requires
                2 * n2 <= low * d2,
                d1 > 0,
        ;
        assert(d1 * d2 > 0) by (nonlinear_arith)
            requires
                d1 > 0,
                d2 > 0,
        ;
        let dd = d1 * d2;
        assert(low == high && high * dd == 2 * (n1 * d2) && 2 * (n2 * d1) == low * dd)
            by (nonlinear_arith)
            requires
                low <= high,
                dd > 0,
                high * dd <= 2 * (n1 * d2),
                n1 * d2 <= n2 * d1,
                2 * (n2 * d1) <= low * dd,
        ;
        assert(high * d1 == 2 * n1) by (nonlinear_arith)
            requires
                high * (d1 * d2) == 2 * (n1 * d2),
                d2 > 0,
        ;
        assert(low * d2 == 2 * n2) by (nonlinear_arith)
            requires
                low * (d1 * d2) == 2 * (n2 * d1),
                d1 > 0,
        ;
        assert(i == j - 1) by {
            if i < j - 1 {
                lemma_midpoint_increases(i, j - 1);
            }
        }
    }
}

/// A value that is representable rounds to itself.
pub proof fn lemma_nearest_exact(k: int, n: int, d: int)
    requires
        0 <= k <= infinity_key(),
        d > 0,
        n == magnitude(k) * d,
    ensures
        nearest(n, d) == k,
{
    lemma_magnitude_step(k);
    assert(midpoint2(k) * d > 2 * (magnitude(k) * d)) by (nonlinear_arith)
        requires
            d > 0,
            midpoint2(k) > 2 * magnitude(k),
    ;
    if k > 0 {
        lemma_magnitude_step(k - 1);
        assert(midpoint2(k - 1) * d < 2 * (magnitude(k) * d)) by (nonlinear_arith)
            requires
                d > 0,
                midpoint2(k - 1) < 2 * magnitude(k),
        ;
    }
    lemma_nearest_is(k, n, d);
}

/// At most one key is nearest to a square root.
pub proof fn lemma_nearest_root_is(k: int, n: int)
    requires
        is_nearest_root(k, n),
    ensures
        nearest_root(n) == k,
{
    let j = nearest_root(n);
    lemma_nearest_root_order(j, k, n);
    lemma_nearest_root_order(k, j, n);
}

/// The largest key whose magnitude has a square of at most `n`.
proof fn lemma_root_floor(j: int, n: int) -> (k: int)
    requires
        0 <= n < magnitude(j) * magnitude(j),
        j >= 0,
    ensures
        0 <= k < j,
        magnitude(k) * magnitude(k) <= n < magnitude(k + 1) * magnitude(k + 1),
    decreases j,
{
    if j == 0 {
        assert(magnitude(0) == 0);
        assert(magnitude(0) * magnitude(0) == 0) by (nonlinear_arith)
            requires
                magnitude(0) == 0,
        ;
        0
    } else if magnitude(j - 1) * magnitude(j - 1) <= n {
        j - 1
    } else {
        lemma_root_floor(j - 1, n)
    }
}

/// Some key is nearest to the root.
pub proof fn lemma_nearest_root_exists(n: int)
    requires
        0 <= n < magnitude(infinity_key()) * magnitude(infinity_key()),
    ensures
        is_nearest_root(nearest_root(n), n),
{
    let k = lemma_root_floor(infinity_key(), n);
    let a = magnitude(k);
    let b = magnitude(k + 1);
    assert(magnitude(0) == 0);
    if k > 0 {
        lemma_magnitude_increases(0, k);
        lemma_magnitude_step(k - 1);
        if k > 1 {
            lemma_magnitude_increases(0, k - 1);
        }
        let m = midpoint2(k - 1);
        assert(m * m < 4 * (a * a)) by (nonlinear_arith)
            requires
                0 <= m < 2 * a,
        ;
    }
    lemma_magnitude_step(k);
    lemma_magnitude_step(k + 1);
    let m = midpoint2(k);
    let o = midpoint2(k + 1);
    assert(4 * (b * b) < o * o) by (nonlinear_arith)
        requires
            0 <= 2 * b < o,
    ;
    if 4 * n < m * m || (4 * n == m * m && k % 2 == 0) {
        assert(is_nearest_root(k, n));
    } else {
        assert(is_nearest_root(k + 1, n));
    }
}

proof fn lemma_nearest_root_order(i: int, j: int, n: int)
    requires
        is_nearest_root(i, n),
        is_nearest_root(j, n),
    ensures
        j <= i,
{
    if i < j - 1 {
        lemma_midpoint_increases(i, j - 1);
        lemma_magnitude_increases(0, i + 1);
        assert(magnitude(0) == 0);
        if i > 0 {
            lemma_magnitude_increases(0, i);
        }
        assert(midpoint2(i) * midpoint2(i) < midpoint2(j - 1) * midpoint2(j - 1))
            by (nonlinear_arith)
            requires
                0 <= midpoint2(i) < midpoint2(j - 1),
        ;
    }
}

/// A root known to lie in the scaled interval has the key as its nearest.
pub proof fn lemma_scaled_is_nearest_root(
    k: int,
    root: int,
    e: nat,
    inexact: bool,
    square: int,
    n: int,
)
    requires
        rounds_scaled(k, root, e as int, inexact),
        root > 0,
        !inexact ==> root * root == square,
        inexact ==> root * root < square < (root + 1) * (root + 1),
        n == square * (pow2(e) * pow2(e)),
    ensures
        nearest_root(n) == k,
{
    let a = pow2(e) as int;
    lemma_pow2_pos(e);
    assert(magnitude(0) == 0);
    if k > 0 {
        let mid = midpoint2(k - 1);
        lemma_magnitude_increases(0, k);
        if k > 1 {
            lemma_magnitude_increases(0, k - 1);
        }
        let twice = 2 * root * a;
        assert(mid * 1 == mid);
        assert(mid * mid <= twice * twice) by (nonlinear_arith)
            requires
                0 <= mid <= twice,
        ;
        assert(twice * twice == 4 * (root * root) * (a * a)) by (nonlinear_arith)
            requires
                twice == 2 * root * a,
        ;
        assert(a * a > 0) by (nonlinear_arith)
            requires
                a > 0,
        ;
        if inexact {
            assert(4 * (root * root) * (a * a) < 4 * (square * (a * a))) by (nonlinear_arith)
                requires
                    root * root < square,
                    a * a > 0,
            ;
        } else {
            assert(4 * (root * root) * (a * a) == 4 * (square * (a * a))) by (nonlinear_arith)
                requires
                    root * root == square,
            ;
            if mid * mid == 4 * n {
                assert(mid == twice) by (nonlinear_arith)
                    requires
                        mid * mid == twice * twice,
                        0 <= mid <= twice,
                ;
            }
        }
    }
    if k < infinity_key() {
        let mid = midpoint2(k);
        assert(mid * 1 == mid);
        assert(a * a > 0) by (nonlinear_arith)
            requires
                a > 0,
        ;
        if inexact {
            let twice = 2 * (root + 1) * a;
            assert(0 <= twice) by (nonlinear_arith)
                requires
                    twice == 2 * (root + 1) * a,
                    root > 0,
                    a > 0,
            ;
            assert(twice * twice <= mid * mid) by (nonlinear_arith)
                requires
                    0 <= twice <= mid,
            ;
            assert(twice * twice == 4 * ((root + 1) * (root + 1)) * (a * a)) by (nonlinear_arith)
                requires
                    twice == 2 * (root + 1) * a,
            ;
            assert(4 * (square * (a * a)) < 4 * ((root + 1) * (root + 1)) * (a * a))
                by (nonlinear_arith)
                requires
                    square < (root + 1) * (root + 1),
                    a * a > 0,
            ;
        } else {
            let twice = 2 * root * a;
            assert(0 <= twice) by (nonlinear_arith)
                requires
                    twice == 2 * root * a,
                    root > 0,
                    a > 0,
            ;
            assert(twice * twice <= mid * mid) by (nonlinear_arith)
                requires
                    0 <= twice <= mid,
            ;
            assert(twice * twice == 4 * (root * root) * (a * a)) by (nonlinear_arith)
                requires
                    twice == 2 * root * a,
            ;
            assert(4 * (root * root) * (a * a) == 4 * (square * (a * a))) by (nonlinear_arith)
                requires
                    root * root == square,
            ;
            if mid * mid == 4 * n {
                assert(mid == twice) by (nonlinear_arith)
                    requires
                        mid * mid == twice * twice,
                        0 <= twice <= mid,
                ;
            }
        }
    }
    lemma_nearest_root_is(k, n);
}

/// The factor by which `2^e` multiplies.
pub open spec fn scale_up(e: int) -> int {
    if e >= 0 {
        pow2(e as nat) as int
    } else {
        1
    }
}

/// The factor by which `2^e` divides.
pub open spec fn scale_down(e: int) -> int {
    if e >= 0 {
        1
    } else {
        pow2((-e) as nat) as int
    }
}

/// `k` is the key nearest to every `(m + rest) * 2^e` units, where `rest` is
/// zero, or, if `inexact`, lies strictly between 0 and 1.
pub open spec fn rounds_scaled(k: int, m: int, e: int, inexact: bool) -> bool {
    let low = 2 * m * scale_up(e);
    let high = if inexact {
        2 * (m + 1) * scale_up(e)
    } else {
        low
    };
    &&& 0 <= k <= infinity_key()
    &&& k > 0 ==> midpoint2(k - 1) * scale_down(e) <= low
    &&& k < infinity_key() ==> high <= midpoint2(k) * scale_down(e)
    &&& !inexact && k > 0 && midpoint2(k - 1) * scale_down(e) == low ==> k % 2 == 0
    &&& !inexact && k < infinity_key() && low == midpoint2(k) * scale_down(e) ==> k % 2 == 0
}

pub proof fn lemma_scales_positive(e: int)
    ensures
        scale_up(e) > 0,
        scale_down(e) > 0,
{
    if e >= 0 {
        lemma_pow2_pos(e as nat);
    } else {
        lemma_pow2_pos((-e) as nat);
    }
}

/// `2^t / 2^e` is `2^(t - e)`.
pub proof fn lemma_scale_ratio(t: nat, e: int, shift: nat)
    requires
        t == e + shift,
    ensures
        pow2(t) * scale_down(e) == pow2(shift) * scale_up(e),
{
    if e >= 0 {
        lemma_pow2_adds(e as nat, shift);
        assert(pow2(e as nat) * pow2(shift) == pow2(shift) * pow2(e as nat)) by (nonlinear_arith);
    } else {
        lemma_pow2_adds(t, (-e) as nat);
    }
}

/// A ratio that is known to lie in the scaled interval has the key as its
/// nearest.
pub proof fn lemma_scaled_is_nearest(k: int, m: int, e: int, inexact: bool, n: int, d: int)
    requires
        rounds_scaled(k, m, e, inexact),
        d > 0,
        !inexact ==> m * scale_up(e) * d == n * scale_down(e),
        inexact ==> m * scale_up(e) * d < n * scale_down(e) < (m + 1) * scale_up(e) * d,
    ensures
        is_nearest(k, n, d),
        nearest(n, d) == k,
{
    lemma_scales_positive(e);
    let a = scale_up(e);
    let b = scale_down(e);
    if k > 0 {
        let mid = midpoint2(k - 1);
        if inexact {
            assert(mid * d < 2 * n) by (nonlinear_arith)
                requires
                    mid * b <= 2 * m * a,
                    m * a * d < n * b,
                    d > 0,
                    b > 0,
            ;
        } else {
            assert(mid * d <= 2 * n) by (nonlinear_arith)
                requires
                    mid * b <= 2 * m * a,
                    m * a * d == n * b,
                    d > 0,
                    b > 0,
            ;
            if mid * d == 2 * n {
                assert(mid * b == 2 * m * a) by (nonlinear_arith)
                    requires
                        mid * d == 2 * n,
                        m * a * d == n * b,
                        d > 0,
                        b > 0,
                ;
            }
        }
    }
    if k < infinity_key() {
        let mid = midpoint2(k);
        if inexact {
            assert(2 * n < mid * d) by (nonlinear_arith)
                requires
                    2 * (m + 1) * a <= mid * b,
                    n * b < (m + 1) * a * d,
                    d > 0,
                    b > 0,
            ;
        } else {
            assert(2 * n <= mid * d) by (nonlinear_arith)
                requires
                    2 * m * a <= mid * b,
                    m * a * d == n * b,
                    d > 0,
                    b > 0,
            ;
            if 2 * n == mid * d {
                assert(2 * m * a == mid * b) by (nonlinear_arith)
                    requires
                        2 * n == mid * d,
                        m * a * d == n * b,
                        d > 0,
                        b > 0,
                ;
            }
        }
    }
    lemma_nearest_is(k, n, d);
}

/// The keys next to a value that lies between two multiples of the quantum
/// `2^t`, and the midpoint between these.
proof fn lemma_quantum(m: int, e: int, t: nat, shift: nat, q: int)
    requires
        t == e + shift,
        0 <= q < 2 * binade(),
        t == 0 || q >= binade(),
        q * pow2(shift) <= m < (q + 1) * pow2(shift),
    ensures
        scale_up(e) > 0,
        scale_down(e) > 0,
        magnitude(t * binade() + q) * scale_down(e) <= m * scale_up(e),
        (m + 1) * scale_up(e) <= magnitude(t * binade() + q + 1) * scale_down(e),
        midpoint2(t * binade() + q) * scale_down(e) == (2 * q + 1) * pow2(shift) * scale_up(e),
{
    let k = t * binade() + q;
    let a = scale_up(e);
    let b = scale_down(e);
    let big = pow2(t) as int;
    let small = pow2(shift) as int;
    lemma_scales_positive(e);
    lemma_scale_ratio(t, e, shift);
    lemma_magnitude_scaled(t, q);
    lemma_magnitude_scaled(t, q + 1);
    assert(magnitude(k) * b <= m * a) by (nonlinear_arith)
        requires
            magnitude(k) == q * big,
            big * b == small * a,
            q * small <= m,
            a > 0,
    ;
    assert((m + 1) * a <= magnitude(k + 1) * b) by (nonlinear_arith)
        requires
            magnitude(k + 1) == (q + 1) * big,
            big * b == small * a,
            m + 1 <= (q + 1) * small,
            a > 0,
    ;
    assert(midpoint2(k) * b == (2 * q + 1) * small * a) by (nonlinear_arith)
        requires
            midpoint2(k) == q * big + (q + 1) * big,
            big * b == small * a,
    ;
}

/// Rounding down to the multiple `q` of the quantum.
pub proof fn lemma_quantized_down(m: int, e: int, inexact: bool, t: nat, shift: nat, q: int)
    requires
        t == e + shift,
        0 <= q < 2 * binade(),
        t == 0 || q >= binade(),
        t <= 2045,
        q * pow2(shift) <= m < (q + 1) * pow2(shift),
        2 * m <= (2 * q + 1) * pow2(shift),
        inexact ==> 2 * (m + 1) <= (2 * q + 1) * pow2(shift),
        !inexact && 2 * m == (2 * q + 1) * pow2(shift) ==> q % 2 == 0,
    ensures
        rounds_scaled(t * binade() + q, m, e, inexact),
{
    let k = t * binade() + q;
    let a = scale_up(e);
    let b = scale_down(e);
    let half = (2 * q + 1) * pow2(shift);
    lemma_quantum(m, e, t, shift, q);
    assert(k % 2 == q % 2);
    if k > 0 {
        lemma_magnitude_step(k - 1);
        assert(midpoint2(k - 1) * b < 2 * m * a) by (nonlinear_arith)
            requires
                midpoint2(k - 1) < 2 * magnitude(k),
                magnitude(k) * b <= m * a,
                b > 0,
        ;
    }
    if inexact {
        assert(2 * (m + 1) * a <= half * a) by (nonlinear_arith)
            requires
                2 * (m + 1) <= half,
                a > 0,
        ;
    } else {
        assert(2 * m * a <= half * a && (2 * m * a == half * a ==> 2 * m == half))
            by (nonlinear_arith)
            requires
                2 * m <= half,
                a > 0,
        ;
    }
}

/// Rounding up to the multiple `q + 1` of the quantum.
pub proof fn lemma_quantized_up(m: int, e: int, inexact: bool, t: nat, shift: nat, q: int)
    requires
        t == e + shift,
        0 <= q < 2 * binade(),
        t == 0 || q >= binade(),
        t <= 2045,
        q * pow2(shift) <= m < (q + 1) * pow2(shift),
        2 * m >= (2 * q + 1) * pow2(shift),
        !inexact && 2 * m == (2 * q + 1) * pow2(shift) ==> q % 2 == 1,
    ensures
        rounds_scaled(t * binade() + q + 1, m, e, inexact),
{
    let k = t * binade() + q;
    let a = scale_up(e);
    let b = scale_down(e);
    let half = (2 * q + 1) * pow2(shift);
    lemma_quantum(m, e, t, shift, q);
    assert(k % 2 == q % 2);
    lemma_magnitude_step(k + 1);
    assert(2 * (m + 1) * a < midpoint2(k + 1) * b) by (nonlinear_arith)
        requires
            2 * magnitude(k + 1) < midpoint2(k + 1),
            (m + 1) * a <= magnitude(k + 1) * b,
            b > 0,
    ;
    assert(2 * m * a < 2 * (m + 1) * a) by (nonlinear_arith)
        requires
            a > 0,
    ;
    assert(half * a <= 2 * m * a && (half * a == 2 * m * a ==> 2 * m == half))
        by (nonlinear_arith)
        requires
            half <= 2 * m,
            a > 0,
    ;
}

} // verus!
