//! Floating point against that of the machine.

use openjd::binary64::Binary64;
use openjd::decimal::fixed_point_text;
use openjd::repr::{push_float, push_plain_float};

fn soft(x: f64) -> Binary64 {
    Binary64::from_bits(x.to_bits()).unwrap()
}

fn bits(r: Option<Binary64>) -> Option<u64> {
    r.map(|f| f.to_bits())
}

fn hard(x: f64) -> Option<u64> {
    if x.is_finite() {
        Some(x.to_bits())
    } else {
        None
    }
}

/// Numbers of all sizes, many of them close to each other or at the edges.
fn numbers() -> Vec<f64> {
    let mut out = vec![
        0.0,
        -0.0,
        1.0,
        -1.0,
        0.5,
        1.5,
        2.5,
        -2.5,
        0.1,
        0.3,
        1e16,
        1e22,
        1e23,
        123456789.125,
        9007199254740992.0,
        9007199254740993.0,
        9223372036854775807.0,
        -9223372036854775808.0,
        f64::MAX,
        f64::MIN_POSITIVE,
        5e-324,
        2.2250738585072011e-308,
        1e-5,
        1e-4,
        4.35,
        1e308,
        -1e308,
    ];
    let mut seed: u64 = 42;
    for i in 0..120 {
        seed = seed.wrapping_mul(6364136223846793005).wrapping_add(1442695040888963407);
        let x = if i % 3 == 0 {
            f64::from_bits(seed)
        } else if i % 3 == 1 {
            (seed >> 40) as f64 / 64.0
        } else {
            (seed as i64 >> 8) as f64 * 0.001
        };
        if x.is_finite() {
            out.push(x);
        }
    }
    out
}

#[test]
fn bits_go_there_and_back() {
    for x in numbers() {
        assert_eq!(soft(x).to_bits(), x.to_bits());
    }
    assert!(Binary64::from_bits(f64::INFINITY.to_bits()).is_none());
    assert!(Binary64::from_bits(f64::NEG_INFINITY.to_bits()).is_none());
    assert!(Binary64::from_bits(f64::NAN.to_bits()).is_none());
}

#[test]
fn operations_round_like_the_machine() {
    let numbers = numbers();
    for &a in &numbers {
        for &b in &numbers {
            let (x, y) = (soft(a), soft(b));
            assert_eq!(bits(x.plus(&y)), hard(a + b), "{a} + {b}");
            assert_eq!(bits(x.minus(&y)), hard(a - b), "{a} - {b}");
            assert_eq!(bits(x.mul(&y)), hard(a * b), "{a} * {b}");
            if b != 0.0 {
                assert_eq!(bits(x.div(&y)), hard(a / b), "{a} / {b}");
                assert_eq!(Some(x.rem(&y).to_bits()), hard(a % b), "{a} % {b}");
            }
            assert_eq!(x.less(&y), a < b);
            assert_eq!(x.equals(&y), a == b);
        }
    }
}

#[test]
fn integers_convert_like_the_machine() {
    let mut seed: u64 = 3;
    let mut ints = vec![0, 1, -1, i64::MAX, i64::MIN, 9007199254740993, -9007199254740993];
    for _ in 0..200 {
        seed = seed.wrapping_mul(6364136223846793005).wrapping_add(1442695040888963407);
        ints.push((seed as i64) >> (seed % 63));
    }
    for i in ints {
        assert_eq!(Binary64::from_i64(i).to_bits(), (i as f64).to_bits(), "{i}");
        let u = i as u64;
        assert_eq!(Binary64::from_u64(u).to_bits(), (u as f64).to_bits(), "{u}");
    }
}

#[test]
fn rounding_goes_to_whole_numbers() {
    for x in numbers() {
        let f = soft(x);
        let fits = |y: f64| {
            if -9223372036854775808.0 <= y && y < 9223372036854775808.0 {
                Some(y as i64)
            } else {
                None
            }
        };
        assert_eq!(f.floor_to_i64(), fits(x.floor()), "floor {x}");
        assert_eq!(f.ceil_to_i64(), fits(x.ceil()), "ceil {x}");
        assert_eq!(f.round_to_i64(), fits(x.round_ties_even()), "round {x}");
        assert_eq!(f.floor().to_bits(), x.floor().to_bits(), "floor {x}");
        assert_eq!(f.round_half_even().to_bits(), x.round_ties_even().to_bits(), "round {x}");
        assert_eq!(f.is_whole(), x.fract() == 0.0, "{x}");
        assert_eq!(f.neg().to_bits(), (-x).to_bits());
        assert_eq!(f.negative(), x.is_sign_negative());
        assert_eq!(f.is_zero(), x == 0.0);
    }
}

#[test]
fn plain_text_is_that_of_the_standard_library() {
    for x in numbers() {
        let mut text = String::new();
        push_plain_float(&mut text, &soft(x));
        assert_eq!(text, format!("{x}"));
    }
}

#[test]
fn text_reads_back() {
    for x in numbers() {
        let mut text = String::new();
        push_float(&mut text, &soft(x));
        assert_eq!(text.parse::<f64>().unwrap().to_bits(), x.to_bits(), "{text}");
    }
}

#[test]
fn text_is_positional_or_scientific() {
    let cases = [
        (0.0, "0.0"),
        (-0.0, "-0.0"),
        (1.0, "1.0"),
        (0.1, "0.1"),
        (-2.5, "-2.5"),
        (1e16, "1e+16"),
        (9999999999999998.0, "9999999999999998.0"),
        (1e22, "1e+22"),
        (1e23, "1e+23"),
        (0.0001, "0.0001"),
        (0.00001, "1e-05"),
        (1.5e-7, "1.5e-07"),
        (5e-324, "5e-324"),
        (1.7976931348623157e308, "1.7976931348623157e+308"),
        (123456789.125, "123456789.125"),
        (0.30000000000000004, "0.30000000000000004"),
    ];
    for (x, expected) in cases {
        let mut text = String::new();
        push_float(&mut text, &soft(x));
        assert_eq!(text, expected);
    }
}

#[test]
fn fixed_point_is_that_of_the_standard_library() {
    for x in numbers() {
        for places in [0usize, 1, 2, 5, 17, 30] {
            assert_eq!(
                fixed_point_text(&soft(x), places),
                format!("{x:.places$}"),
                "{x} with {places}"
            );
        }
    }
}
