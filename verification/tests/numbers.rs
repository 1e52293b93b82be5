//! Floating point on integers agrees with the machine's.

use cvdt::statistics::{mean, middle, sum, sum_distances, sum_squared_distances, sum_squares};
use cvdt::Float;

fn n(x: f64) -> Float {
    Float::from_bits(x.to_bits())
}

fn x(v: Float) -> f64 {
    f64::from_bits(v.to_bits())
}

/// The same bits, or both not a number.
fn same(a: Float, b: f64) -> bool {
    a.to_bits() == b.to_bits() || (x(a).is_nan() && b.is_nan())
}

/// Numbers of many sizes: borders first, then pseudo-random patterns.
fn patterns() -> Vec<f64> {
    let mut v = vec![
        0.0,
        -0.0,
        1.0,
        -1.0,
        2.0,
        0.5,
        0.1,
        -0.1,
        1.0 / 3.0,
        3.0,
        1e300,
        -1e300,
        1e-300,
        5e-324,
        -5e-324,
        f64::MIN_POSITIVE,
        f64::MAX,
        f64::MIN,
        f64::EPSILON,
        1.0 + f64::EPSILON,
        1.0 - f64::EPSILON / 2.0,
        f64::INFINITY,
        f64::NEG_INFINITY,
        f64::NAN,
        9007199254740993.0,
        4503599627370497.5,
        2.2250738585072011e-308,
        1.7976931348623155e308,
    ];
    let mut s: u64 = 0x1234_5678_9abc_def1;
    for i in 0..160 {
        s ^= s << 13;
        s ^= s >> 7;
        s ^= s << 17;
        v.push(match i % 4 {
            0 => f64::from_bits(s),
            1 => (s % 2000) as f64 / 16.0 - 60.0,
            2 => f64::from_bits((s & 0x800f_ffff_ffff_ffff) | (0x3ff0 + (s >> 60)) << 48),
            _ => f64::from_bits(s & 0x801f_ffff_ffff_ffff),
        });
    }
    v
}

#[test]
fn sums_and_differences_round_correctly() {
    for &a in &patterns() {
        for &b in &patterns() {
            assert!(same(n(a).plus(n(b)), a + b), "{a:e} + {b:e}");
            assert!(same(n(a).minus(n(b)), a - b), "{a:e} - {b:e}");
        }
    }
}

#[test]
fn products_round_correctly() {
    for &a in &patterns() {
        for &b in &patterns() {
            assert!(same(n(a).times(n(b)), a * b), "{a:e} * {b:e}");
        }
    }
}

#[test]
fn quotients_round_correctly() {
    for &a in &patterns() {
        for &b in &patterns() {
            assert!(same(n(a).over(n(b)), a / b), "{a:e} / {b:e}");
        }
    }
}

#[test]
fn roots_round_correctly() {
    for &a in &patterns() {
        assert!(same(n(a).sqrt(), a.sqrt()), "sqrt {a:e}");
        assert!(same(n(a.abs()).sqrt(), a.abs().sqrt()), "sqrt {a:e}");
    }
}

#[test]
fn comparisons_agree() {
    for &a in &patterns() {
        for &b in &patterns() {
            assert_eq!(n(a).lt(n(b)), a < b);
            assert_eq!(n(a).le(n(b)), a <= b);
            assert_eq!(n(a) == n(b), a == b);
            assert_eq!(n(a).ranks_before(n(b)), a.total_cmp(&b).is_le());
            assert!(same(n(a).max(n(b)), a.max(b)) || (a == 0.0 && b == 0.0));
        }
        assert_eq!(n(a).is_finite(), a.is_finite());
        assert_eq!(n(a).is_nan(), a.is_nan());
        assert!(same(n(a).neg(), -a));
        assert!(same(n(a).abs(), a.abs()));
    }
}

#[test]
fn conversions_agree() {
    for v in [
        0u64,
        1,
        2,
        3,
        1000,
        (1 << 53) + 1,
        (1 << 53) + 3,
        (1 << 54) + 2,
        u64::MAX,
        u64::MAX - 1024,
        u64::MAX - 1025,
        0x8000_0000_0000_0401,
    ] {
        assert!(same(Float::from_u64(v), v as f64));
    }
    for &a in &patterns() {
        assert_eq!(n(a).to_index(), a.floor() as usize);
        if a >= 0.0 {
            assert_eq!(n(a).round_to_u32(), a.round() as u32);
        }
    }
    assert_eq!(n(0.49999999999999994).round_to_u32(), 0);
    assert_eq!(n(0.5).round_to_u32(), 1);
    assert_eq!(n(2.5).round_to_u32(), 3);
    assert_eq!(n(4294967294.5).round_to_u32(), 4294967295);
    assert_eq!(n(1e20).round_to_u32(), u32::MAX);
}

#[test]
fn logarithms_are_close() {
    assert!(same(n(1.0).log2(), 0.0));
    assert!(same(n(2.0).log2(), 1.0));
    assert!(same(n(0.5).log2(), -1.0));
    assert!(same(n(0.25).log2(), -2.0));
    assert!(same(n(5e-324).log2(), -1074.0));
    assert!(same(n(0.0).log2(), f64::NEG_INFINITY));
    assert!(same(n(f64::INFINITY).log2(), f64::INFINITY));
    assert!(x(n(-1.0).log2()).is_nan());
    assert!(x(n(f64::NAN).log2()).is_nan());
    for i in 1..200 {
        for d in 1..40 {
            let a = i as f64 / d as f64;
            let (got, want) = (x(n(a).log2()), a.log2());
            assert!((got - want).abs() <= want.abs() * 4.5e-16, "log2 {a}");
        }
    }
}

#[test]
fn constants_are_what_they_say() {
    assert!(same(Float::zero(), 0.0));
    assert!(same(Float::one(), 1.0));
    assert!(same(Float::two(), 2.0));
    assert!(same(Float::infinity(), f64::INFINITY));
    assert!(same(Float::neg_infinity(), f64::NEG_INFINITY));
    assert!(x(Float::not_a_number()).is_nan());
}

#[test]
fn statistics_of_numbers() {
    let v = [n(0.1), n(0.7), n(-2.5), n(4.0)];
    let f = [0.1, 0.7, -2.5, 4.0];
    assert!(same(sum(&v), ((0.1 + 0.7) + -2.5) + 4.0));
    assert!(same(
        sum_squares(&v),
        ((0.1 * 0.1 + 0.7 * 0.7) + 2.5 * 2.5) + 16.0
    ));
    assert!(same(mean(&v), (((0.1 + 0.7) + -2.5) + 4.0) / 4.0));
    let m = 0.5;
    let squared = f.iter().fold(0.0, |s, &a| s + (a - m) * (a - m));
    assert!(same(sum_squared_distances(&v, n(m)), squared));
    let plain = f.iter().fold(0.0, |s, &a: &f64| s + (a - m).abs());
    assert!(same(sum_distances(&v, n(m)), plain));
    assert!(same(middle(&[n(1.0), n(2.0), n(4.0)]), 2.0));
    assert!(same(middle(&[n(1.0), n(2.0), n(4.0), n(8.0)]), 3.0));
}

#[test]
fn rounding_laws_on_values() {
    for &a in &patterns() {
        if a.is_finite() && a != 0.0 {
            assert!(same(n(a).over(n(a)), 1.0));
        }
        if a.is_finite() {
            assert!(same(n(a).times(Float::one()), a));
            assert!(same(n(a).minus(n(a)), 0.0));
        }
    }
}

#[test]
fn small_natural_numbers_are_exact() {
    let top = 1u64 << 53;
    for a in [0u64, 1, 2, 3, 94906265, top / 2 - 1, top - 1] {
        assert_eq!(x(Float::from_u64(a)) as u64, a);
        for b in [0u64, 1, 3, 5, 94906265] {
            if a + b <= top {
                let sum = Float::from_u64(a).plus(Float::from_u64(b));
                assert_eq!(sum.to_bits(), Float::from_u64(a + b).to_bits());
            }
            if a as u128 * b as u128 <= top as u128 {
                let product = Float::from_u64(a).times(Float::from_u64(b));
                assert_eq!(product.to_bits(), Float::from_u64(a * b).to_bits());
            }
        }
    }
}
