//! Integer significands: their length in bits, and rounding one to the key of
//! a binary64 value.

use vstd::arithmetic::power2::{
    lemma2_to64, lemma2_to64_rest, lemma_pow2_adds, lemma_pow2_pos, lemma_pow2_strictly_increases,
    lemma_pow2_unfold, pow2,
};
use vstd::bits::lemma_u128_shr_is_div;
use vstd::prelude::*;

use crate::rounding::{
    binade, infinity_key, lemma_magnitude_scaled, lemma_magnitude_step, lemma_quantized_down,
    lemma_quantized_up, lemma_scales_positive, magnitude, midpoint2, rounds_scaled, scale_down,
    scale_up,
};

verus! {

/// The number of fraction patterns under one exponent, 2^52.
pub const BINADE: u64 = 0x10_0000_0000_0000;

/// The key of infinity.
pub const INFINITY_KEY: u64 = 0x7ff0_0000_0000_0000;

proof fn lemma_one_shifted(n: u128)
    requires
        n < 128,
    ensures
        (1u128 << n) == pow2(n as nat),
    decreases n,
{
    lemma2_to64();
    if n == 0 {
        assert(1u128 << 0u128 == 1u128) by (bit_vector);
    } else {
        let prev: u128 = (n - 1) as u128;
        lemma_one_shifted(prev);
        lemma_pow2_unfold(n as nat);
        assert((1u128 << n) == 2 * (1u128 << prev)) by (bit_vector)
            requires
                0 < n < 128,
                prev == n - 1,
        ;
    }
}

/// The powers of two as machine integers.
pub fn power_of_two(n: u32) -> (p: u128)
    requires
        n < 128,
    ensures
        p == pow2(n as nat),
{
    proof {
        lemma_one_shifted(n as u128);
    }
    1u128 << (n as u128)
}

/// The number of bits up to the highest set one; none for zero.
pub fn bit_length(m: u128) -> (l: u32)
    ensures
        l <= 128,
        m == 0 ==> l == 0,
        m > 0 ==> l > 0 && pow2((l - 1) as nat) <= m < pow2(l as nat),
{
    if m == 0 {
        return 0;
    }
    let mut rest: u128 = m;
    let mut l: u32 = 0;
    proof {
        lemma2_to64();
    }
    while rest >= 65536
        invariant
            rest > 0,
            rest * pow2(l as nat) <= m < (rest + 1) * pow2(l as nat),
            m <= u128::MAX,
            l <= 128,
        decreases rest,
    {
        let next: u128 = rest / 65536;
        proof {
            lemma2_to64();
            lemma_pow2_adds(l as nat, 16);
            let p = pow2(l as nat) as int;
            let whole = rest as int;
            let part = next as int;
            assert(p * 65536 == pow2((l + 16) as nat));
            assert(part * (p * 65536) <= m < (part + 1) * (p * 65536)) by (nonlinear_arith)
                requires
                    part * 65536 <= whole,
                    whole + 1 <= (part + 1) * 65536,
                    whole * p <= m,
                    m < (whole + 1) * p,
                    p >= 0,
            ;
            lemma_length_bound(m, (l + 16) as nat, part);
        }
        rest = next;
        l = l + 16;
    }
    while rest > 1
        invariant
            rest > 0,
            rest * pow2(l as nat) <= m < (rest + 1) * pow2(l as nat),
            m <= u128::MAX,
            l <= 128,
        decreases rest,
    {
        let next: u128 = rest / 2;
        proof {
            lemma2_to64();
            lemma_pow2_adds(l as nat, 1);
            let p = pow2(l as nat) as int;
            let whole = rest as int;
            let part = next as int;
            assert(part * (p * 2) <= m < (part + 1) * (p * 2)) by (nonlinear_arith)
                requires
                    part * 2 <= whole,
                    whole + 1 <= (part + 1) * 2,
                    whole * p <= m,
                    m < (whole + 1) * p,
                    p >= 0,
            ;
            lemma_length_bound(m, (l + 1) as nat, part);
        }
        rest = next;
        l = l + 1;
    }
    proof {
        lemma2_to64();
        lemma_pow2_adds(l as nat, 1);
        assert(rest == 1);
        assert(1 * pow2(l as nat) <= m < 2 * pow2(l as nat));
        lemma_length_bound(m, l as nat, 1);
    }
    l + 1
}

proof fn lemma_length_bound(m: u128, l: nat, part: int)
    requires
        part > 0,
        part * pow2(l) <= m,
    ensures
        l < 128,
{
    lemma_pow2_pos(l);
    assert(pow2(l) <= part * pow2(l)) by (nonlinear_arith)
        requires
            part > 0,
            pow2(l) > 0,
    ;
    if l >= 128 {
        lemma_pow2_128();
        if l > 128 {
            lemma_pow2_strictly_increases(128, l);
        }
    }
}

proof fn lemma_pow2_128()
    ensures
        pow2(128) == u128::MAX + 1,
        pow2(127) * 2 == pow2(128),
{
    lemma2_to64();
    lemma_pow2_adds(64, 64);
    lemma_pow2_unfold(128);
}

/// The key nearest to `(m + rest) * 2^e` units, where `rest` is zero, or, if
/// `inexact`, anything strictly between 0 and 1.
pub fn round_scaled(m: u128, e: i32, inexact: bool) -> (k: u64)
    requires
        m < 0x8000_0000_0000_0000_0000_0000_0000_0000,
        -5000 <= e <= 5000,
        inexact ==> m >= 0x20_0000_0000_0000,
    ensures
        rounds_scaled(k as int, m as int, e as int, inexact),
{
    proof {
        lemma2_to64();
        lemma2_to64_rest();
        lemma_pow2_128();
        lemma_scales_positive(e as int);
        lemma_magnitude_step(0);
    }
    if m == 0 {
        proof {
            let b = scale_down(e as int);
            assert(0 * scale_up(e as int) == 0);
            assert(midpoint2(0) == 1);
            assert(1 * b == b);
        }
        return 0;
    }
    let l: i32 = bit_length(m) as i32;
    let t: i32 = if e + l > 53 {
        e + l - 53
    } else {
        0
    };
    proof {
        if inexact && l < 54 {
            if l < 53 {
                lemma_pow2_strictly_increases(l as nat, 53);
            }
        }
    }
    if t >= 2046 {
        proof {
            lemma_overflow(m as int, e as int, inexact, l as nat);
        }
        return INFINITY_KEY;
    }
    if t > e {
        let shift: u32 = (t - e) as u32;
        if shift >= 128 {
            proof {
                lemma_underflow(m as int, e as int, inexact);
            }
            return 0;
        }
        let unit: u128 = power_of_two(shift);
        let half: u128 = power_of_two(shift - 1);
        proof {
            lemma_u128_shr_is_div(m, shift as u128);
            lemma_pow2_unfold(shift as nat);
            lemma_pow2_pos(shift as nat);
        }
        let q: u128 = m >> (shift as u128);
        proof {
            lemma_quotient_range(m as int, l as nat, shift as nat, q as int);
            assert(q * unit <= m < (q + 1) * unit) by (nonlinear_arith)
                requires
                    q == m as int / unit as int,
                    unit > 0,
            ;
        }
        let low: u128 = m - q * unit;
        let up: bool = low > half || (low == half && (inexact || q % 2 == 1));
        proof {
            assert((2 * q + 1) * unit == 2 * (q * unit) + unit) by (nonlinear_arith);
            if up {
                lemma_quantized_up(
                    m as int,
                    e as int,
                    inexact,
                    t as nat,
                    shift as nat,
                    q as int,
                );
            } else {
                lemma_quantized_down(
                    m as int,
                    e as int,
                    inexact,
                    t as nat,
                    shift as nat,
                    q as int,
                );
            }
        }
        let base: u64 = (t as u64) * BINADE + q as u64;
        if up {
            base + 1
        } else {
            base
        }
    } else {
        let shift: u32 = (e - t) as u32;
        proof {
            lemma_exact_range(m as int, l as nat, shift as nat);
        }
        let unit: u128 = power_of_two(shift);
        let q: u128 = m * unit;
        proof {
            lemma_exact_scaled(m as int, e as int, t as nat, shift as nat, q as int);
        }
        (t as u64) * BINADE + q as u64
    }
}

proof fn lemma_overflow(m: int, e: int, inexact: bool, l: nat)
    requires
        l > 0,
        pow2((l - 1) as nat) <= m,
        e + l - 53 >= 2046,
    ensures
        rounds_scaled(infinity_key(), m, e, inexact),
{
    let k = infinity_key();
    let a = scale_up(e);
    let b = scale_down(e);
    lemma_scales_positive(e);
    lemma2_to64();
    lemma2_to64_rest();
    lemma_magnitude_scaled(2046, binade());
    lemma_magnitude_step(k - 1);
    lemma_pow2_adds(52, 2046);
    // magnitude(k) * b == 2^2098 * b <= 2^(l - 1) * a <= m * a
    assert(pow2(2098) * b <= pow2((l - 1) as nat) * a) by {
        if e >= 0 {
            lemma_pow2_adds((l - 1) as nat, e as nat);
            if l - 1 + e > 2098 {
                lemma_pow2_strictly_increases(2098, (l - 1 + e) as nat);
            }
        } else {
            lemma_pow2_adds(2098, (-e) as nat);
            if l - 1 > 2098 - e {
                lemma_pow2_strictly_increases((2098 - e) as nat, (l - 1) as nat);
            }
        }
    }
    assert(pow2((l - 1) as nat) * a <= m * a) by (nonlinear_arith)
        requires
            pow2((l - 1) as nat) <= m,
            a > 0,
    ;
    assert(midpoint2(k - 1) * b < 2 * (magnitude(k) * b)) by (nonlinear_arith)
        requires
            midpoint2(k - 1) < 2 * magnitude(k),
            b > 0,
    ;
    assert(2 * m * a == 2 * (m * a)) by (nonlinear_arith);
}

proof fn lemma_underflow(m: int, e: int, inexact: bool)
    requires
        0 <= m < pow2(127),
        e <= -128,
    ensures
        rounds_scaled(0, m, e, inexact),
{
    lemma_pow2_128();
    if e < -128 {
        lemma_pow2_strictly_increases(128, (-e) as nat);
    }
    assert(midpoint2(0) == 1);
}

proof fn lemma_quotient_range(m: int, l: nat, shift: nat, q: int)
    requires
        l > 0,
        pow2((l - 1) as nat) <= m < pow2(l),
        q == m / pow2(shift) as int,
        shift + 53 >= l,
    ensures
        0 <= q < 2 * binade(),
        shift + 53 == l ==> q >= binade(),
{
    lemma2_to64();
    lemma2_to64_rest();
    lemma_pow2_pos(shift);
    lemma_pow2_adds(53, shift);
    if l < shift + 53 {
        lemma_pow2_strictly_increases(l, shift + 53);
    }
    let u = pow2(shift) as int;
    assert(0 <= q < 2 * binade()) by (nonlinear_arith)
        requires
            q == m / u,
            u > 0,
            0 <= m < (2 * binade()) * u,
    ;
    if shift + 53 == l {
        lemma_pow2_adds(52, shift);
        assert(q >= binade()) by (nonlinear_arith)
            requires
                q == m / u,
                u > 0,
                m >= binade() * u,
        ;
    }
}

proof fn lemma_exact_range(m: int, l: nat, shift: nat)
    requires
        l > 0,
        pow2((l - 1) as nat) <= m < pow2(l),
        shift + l <= 53,
    ensures
        shift < 128,
        0 <= m * pow2(shift) < 2 * binade(),
        shift + l == 53 ==> m * pow2(shift) >= binade(),
{
    lemma2_to64();
    lemma2_to64_rest();
    lemma_pow2_pos(shift);
    lemma_pow2_adds(l, shift);
    lemma_pow2_adds((l - 1) as nat, shift);
    if l + shift < 53 {
        lemma_pow2_strictly_increases(l + shift, 53);
    }
    let u = pow2(shift) as int;
    let low = pow2((l - 1) as nat) as int;
    let high = pow2(l) as int;
    assert(low * u <= m * u < high * u) by (nonlinear_arith)
        requires
            low <= m < high,
            u > 0,
    ;
    assert(low * u >= 0) by (nonlinear_arith)
        requires
            low >= 0,
            u > 0,
    ;
}

proof fn lemma_exact_scaled(m: int, e: int, t: nat, shift: nat, q: int)
    requires
        e == t + shift,
        q == m * pow2(shift),
        0 <= q < 2 * binade(),
        t == 0 || q >= binade(),
        t <= 2045,
    ensures
        rounds_scaled(t * binade() + q, m, e, false),
{
    let k = t * binade() + q;
    lemma_scales_positive(e);
    lemma_pow2_adds(t, shift);
    lemma_magnitude_scaled(t, q);
    lemma_magnitude_step(k);
    if k > 0 {
        lemma_magnitude_step(k - 1);
    }
    let small = pow2(shift) as int;
    let big = pow2(t) as int;
    assert((m * small) * big == m * (big * small)) by (nonlinear_arith);
    assert(2 * m * (big * small) == 2 * (m * (big * small))) by (nonlinear_arith);
}

} // verus!
