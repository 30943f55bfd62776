//! The arithmetic held against the machine's own, bit for bit.

use agent_golf::number::Real;

fn number(v: f64) -> Real {
    Real { bits: v.to_bits() }
}

fn float(r: Real) -> f64 {
    f64::from_bits(r.bits)
}

fn assert_same(got: Real, want: f64, what: &str, a: f64, b: f64) {
    if want.is_nan() {
        assert!(float(got).is_nan(), "{} of {:e} and {:e}", what, a, b);
    } else {
        assert_eq!(got.bits, want.to_bits(), "{} of {:e} and {:e}", what, a, b);
    }
}

fn check_pair(a: f64, b: f64) {
    let x = number(a);
    let y = number(b);
    assert_same(x.add(y), a + b, "sum", a, b);
    assert_same(x.sub(y), a - b, "difference", a, b);
    assert_same(x.mul(y), a * b, "product", a, b);
    assert_same(x.div(y), a / b, "quotient", a, b);
    assert_same(x.sqrt(), a.sqrt(), "root", a, b);
    assert_eq!(x.neg().bits, (-a).to_bits());
    assert_eq!(x.lt(y), a < b);
    assert_eq!(x.le(y), a <= b);
    assert_eq!(x.is_a_nan(), a.is_nan());
    assert_eq!(x.to_byte(), a as u8);
    if a != b {
        assert_same(x.min(y), a.min(b), "minimum", a, b);
        assert_same(x.max(y), a.max(b), "maximum", a, b);
    }
}

struct Bits(u64);

impl Bits {
    fn draw(&mut self) -> u64 {
        self.0 ^= self.0 << 13;
        self.0 ^= self.0 >> 7;
        self.0 ^= self.0 << 17;
        self.0
    }
}

#[test]
fn special_values_agree_with_the_machine() {
    let values: [f64; 27] = [
        0.0,
        -0.0,
        1.0,
        -1.0,
        0.5,
        2.0,
        3.0,
        255.0,
        255.9,
        256.0,
        -3.5,
        f64::MIN_POSITIVE,
        f64::MAX,
        f64::MIN,
        f64::EPSILON,
        f64::INFINITY,
        f64::NEG_INFINITY,
        f64::NAN,
        f64::from_bits(1),
        f64::from_bits(2),
        f64::from_bits(3),
        f64::from_bits(0x000f_ffff_ffff_ffff),
        f64::from_bits(0x0010_0000_0000_0001),
        f64::from_bits(0x001f_ffff_ffff_ffff),
        f64::from_bits(0x3fef_ffff_ffff_ffff),
        f64::from_bits(0x3ff0_0000_0000_0001),
        f64::from_bits(0x7fe0_0000_0000_0000),
    ];
    for a in values {
        for b in values {
            check_pair(a, b);
        }
    }
}

#[test]
fn arbitrary_patterns_agree_with_the_machine() {
    let mut bits = Bits(0x1234_5678_9abc_def1);
    for _ in 0..40_000 {
        check_pair(f64::from_bits(bits.draw()), f64::from_bits(bits.draw()));
    }
}

#[test]
fn close_exponents_agree_with_the_machine() {
    let mut bits = Bits(0x0fed_cba9_8765_4321);
    for _ in 0..40_000 {
        let a = f64::from_bits(bits.draw() % (1 << 52) + ((1000 + bits.draw() % 70) << 52));
        let b = f64::from_bits(bits.draw() % (1 << 52) + ((1000 + bits.draw() % 70) << 52));
        check_pair(a, b);
        check_pair(-a, b);
    }
}

#[test]
fn tiny_and_halfway_values_agree_with_the_machine() {
    let mut bits = Bits(0x7777_1111_3333_9999);
    for _ in 0..20_000 {
        // Subnormals against ordinary numbers.
        let a = f64::from_bits(bits.draw() % (1 << 54));
        let b = f64::from_bits(bits.draw() % (1 << 52) + ((1000 + bits.draw() % 60) << 52));
        check_pair(a, b);
        check_pair(b, a);
        // Sums of an integer and a half: ties.
        let c = ((1u64 << 52) + bits.draw() % (1 << 52)) as f64;
        check_pair(c, 0.5);
        check_pair(c, -0.5);
        check_pair(c, 1.5);
    }
}

#[test]
fn decimals_are_the_literals() {
    let cases: [(Real, f64); 13] = [
        (Real::decimal(7, 10), 0.7),
        (Real::decimal(90, 100), 0.90),
        (Real::decimal(6, 100), 0.06),
        (Real::decimal(5, 100), 0.05),
        (Real::decimal(12, 1000), 0.012),
        (Real::decimal(866, 1000), 0.866),
        (Real::decimal(45, 100), 0.45),
        (Real::decimal(-35, 10), -3.5),
        (Real::decimal(-8, 10), -0.8),
        (Real::decimal(0, 1), 0.0),
        (Real::decimal(i32::MIN, 1), -2147483648.0),
        (Real::from_u32(u32::MAX), 4294967295.0),
        (Real::from_u32(0), 0.0),
    ];
    for (got, want) in cases {
        assert_eq!(got.bits, want.to_bits());
    }
}

#[test]
fn clamping_keeps_the_range_and_a_nan() {
    let low = number(0.1);
    let high = number(9.9);
    for v in [-1.0f64, 0.1, 0.05, 5.0, 9.9, 10.0, f64::INFINITY, f64::NEG_INFINITY] {
        assert_eq!(number(v).clamp(low, high).bits, v.clamp(0.1, 9.9).to_bits());
    }
    assert!(number(f64::NAN).clamp(low, high).is_a_nan());
}

#[test]
fn sums_and_products_commute_and_keep_order() {
    let values = [-1e300, -2.5, -0.1, 0.0, 1e-310, 0.1, 0.3, 7.0, 1e300];
    for a in values {
        for b in values {
            let (x, y) = (number(a), number(b));
            assert_eq!(x.add(y), y.add(x));
            assert_eq!(x.mul(y), y.mul(x));
            if x.le(y) {
                for c in [0.1, 3.7] {
                    let z = number(c);
                    assert!(x.add(z).le(y.add(z)));
                    assert!(x.mul(z).le(y.mul(z)));
                    assert!(x.div(z).le(y.div(z)));
                }
            }
        }
    }
}
