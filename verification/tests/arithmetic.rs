//! The numbers against the machine's own floating point.

use lerc::float::{Double, Single};

struct Lcg(u64);

impl Lcg {
    fn next(&mut self) -> u64 {
        self.0 = self.0.wrapping_mul(6364136223846793005).wrapping_add(1442695040888963407);
        let x = self.0;
        (x >> 33) ^ x.rotate_left(17)
    }
}

fn d(value: f64) -> Double {
    Double { bits: value.to_bits() }
}

fn s(value: f32) -> Single {
    Single { bits: value.to_bits() }
}

fn agree(found: Double, expected: f64) {
    let found = f64::from_bits(found.bits);
    assert!(
        found.to_bits() == expected.to_bits() || (found.is_nan() && expected.is_nan()),
        "expected {expected:e}, got {found:e}"
    );
}

fn edge_values() -> Vec<f64> {
    let mut values = vec![
        0.0,
        0.5,
        1.0,
        1.5,
        2.0,
        3.0,
        0.1,
        1.0 / 3.0,
        255.0,
        4294967295.0,
        9007199254740991.0,
        9007199254740992.0,
        9007199254740994.0,
        f64::EPSILON,
        f64::MIN_POSITIVE,
        f64::MIN_POSITIVE / 3.0,
        5e-324,
        1e-310,
        f64::MAX,
        f64::MAX / 2.0,
        1e300,
        f64::INFINITY,
        f64::NAN,
        f64::from(f32::MAX),
        f64::from(f32::MAX) * 1.00000003,
        f64::from(f32::MIN_POSITIVE),
        1e-45,
        7e-46,
        16777217.0,
        16777219.0,
    ];
    let negative: Vec<f64> = values.iter().map(|value| -value).collect();
    values.extend(negative);
    values
}

fn pairs() -> Vec<(f64, f64)> {
    let edges = edge_values();
    let mut found = Vec::new();
    for &a in &edges {
        for &b in &edges {
            found.push((a, b));
        }
    }
    let mut lcg = Lcg(41);
    for _ in 0..4000 {
        let a = f64::from_bits(lcg.next());
        let b = f64::from_bits(lcg.next());
        found.push((a, b));
        // Exponents close to each other, where sums cancel and round.
        let near = (lcg.next() % 120) as i32 - 60;
        let c = (lcg.next() % (1 << 53)) as f64 * 2f64.powi(near);
        let e = -((lcg.next() % (1 << 53)) as f64);
        found.push((c, e));
    }
    found
}

#[test]
fn sums_and_differences_match_the_machine() {
    for (a, b) in pairs() {
        agree(d(a).plus(d(b)), a + b);
        agree(d(a).minus(d(b)), a - b);
    }
    agree(d(0.1).plus(d(0.2)), 0.30000000000000004);
    agree(d(-0.0).plus(d(0.0)), 0.0);
}

#[test]
fn products_and_quotients_match_the_machine() {
    for (a, b) in pairs() {
        agree(d(a).times(d(b)), a * b);
        agree(d(a).over(d(b)), a / b);
    }
    agree(d(0.1).times(d(3.0)), 0.30000000000000004);
    agree(d(1.0).over(d(3.0)), 0.3333333333333333);
}

#[test]
fn comparisons_match_the_machine() {
    for (a, b) in pairs() {
        assert_eq!(d(a).less_than(d(b)), a < b);
        assert_eq!(d(a).equals(d(b)), a == b);
    }
    for value in edge_values() {
        assert_eq!(d(value).is_finite(), value.is_finite());
        assert_eq!(d(value).is_nan(), value.is_nan());
        agree(d(value).abs(), value.abs());
        agree(d(value).negate(), -value);
        if value.is_finite() {
            assert_eq!(d(value).is_integral(), value.fract() == 0.0);
            if value.is_sign_positive() {
                agree(d(value).floor(), value.floor());
            }
        }
    }
    agree(d(2.0).min(d(-3.0)), -3.0);
    agree(d(2.0).max(d(-3.0)), 2.0);
    agree(d(f64::NAN).min(d(1.0)), 1.0);
    agree(d(1.0).max(d(f64::NAN)), 1.0);
}

#[test]
fn conversions_match_the_machine() {
    let mut lcg = Lcg(7);
    let mut values = edge_values();
    for _ in 0..4000 {
        values.push(f64::from_bits(lcg.next()));
        values.push(f64::from(f32::from_bits(lcg.next() as u32)) * 1.00000001);
        values.push((lcg.next() % (1 << 40)) as f64 / 256.0);
    }
    for value in values {
        let narrow = f32::from_bits(d(value).narrow().bits);
        let expected = value as f32;
        assert!(
            narrow.to_bits() == expected.to_bits() || (narrow.is_nan() && expected.is_nan()),
            "narrowing {value:e}"
        );
        assert_eq!(d(value).to_integer(-128, 127), i64::from(value as i8));
        assert_eq!(d(value).to_integer(0, 65535), i64::from(value as u16));
        assert_eq!(
            d(value).to_integer(i64::from(i32::MIN), i64::from(i32::MAX)),
            i64::from(value as i32)
        );
    }
    for _ in 0..4000 {
        let single = f32::from_bits(lcg.next() as u32);
        agree(s(single).widen(), f64::from(single));
        assert_eq!(s(single).is_finite(), single.is_finite());
        let integer = lcg.next() as i64;
        agree(Double::from_integer(integer), integer as f64);
        let small = lcg.next() as i32;
        agree(Double::from_integer(i64::from(small)), f64::from(small));
    }
    agree(Double::from_integer(i64::MIN), i64::MIN as f64);
    agree(Double::from_integer(0), 0.0);
}

#[test]
fn levels_are_rounded_and_capped() {
    let cases = [
        (0.0, 10, 0),
        (0.49, 10, 0),
        (0.5, 10, 1),
        (2.5, 10, 3),
        (9.75, 10, 10),
        (10.5, 10, 10),
        (1e300, 10, 10),
        (-3.0, 10, 0),
    ];
    for (value, high, expected) in cases {
        assert_eq!(d(value).to_level(high), expected, "level of {value}");
    }
    assert_eq!(d(0.0).ceil_level(), None);
    assert_eq!(d(2.25).ceil_level(), Some(3));
    assert_eq!(d(1e12).ceil_level(), None);
}
