use tectonicdb::binary32::{gt, lt, max_of, min_of, nan};
use tectonicdb::decimal::append_decimal;

fn samples() -> Vec<f32> {
    vec![
        0.0,
        -0.0,
        1.0,
        -1.0,
        0.5,
        -0.5,
        2.0,
        1e-45,
        -1e-45,
        1.1754944e-38,
        3.4028235e38,
        -3.4028235e38,
        f32::INFINITY,
        f32::NEG_INFINITY,
        f32::NAN,
        -f32::NAN,
        123.456,
        -123.456,
        16777216.0,
    ]
}

#[test]
fn order_of_bit_patterns_is_the_order_of_the_numbers() {
    for a in samples() {
        for b in samples() {
            assert_eq!(lt(a.to_bits(), b.to_bits()), a < b, "{} < {}", a, b);
            assert_eq!(gt(a.to_bits(), b.to_bits()), a > b, "{} > {}", a, b);
        }
    }
}

#[test]
fn nan_is_told_from_its_bits() {
    for a in samples() {
        assert_eq!(nan(a.to_bits()), a.is_nan());
    }
    assert!(nan(0x7fc0_0000));
    assert!(nan(0x7f80_0001));
    assert!(nan(0xffff_ffff));
    assert!(!nan(0x7f80_0000));
    assert!(!nan(0xff80_0000));
}

#[test]
fn running_maximum_and_minimum_keep_the_old_value_unless_beaten() {
    for x in samples() {
        for acc in samples() {
            let hi = if x > acc { x } else { acc };
            let lo = if x < acc { x } else { acc };
            assert_eq!(max_of(x.to_bits(), acc.to_bits()), hi.to_bits());
            assert_eq!(min_of(x.to_bits(), acc.to_bits()), lo.to_bits());
        }
    }
}

#[test]
fn zeros_of_either_sign_are_equal() {
    let plus_zero = 0.0f32.to_bits();
    let minus_zero = (-0.0f32).to_bits();
    assert!(!lt(minus_zero, plus_zero));
    assert!(!lt(plus_zero, minus_zero));
    assert_eq!(max_of(minus_zero, plus_zero), plus_zero);
    assert_eq!(min_of(plus_zero, minus_zero), minus_zero);
}

#[test]
fn decimal_numerals() {
    for n in [0u32, 7, 10, 99, 100, 1800, 4294967295] {
        let mut s = String::new();
        append_decimal(&mut s, n);
        assert_eq!(s, n.to_string());
    }
    let mut s = String::from("t=");
    append_decimal(&mut s, 3600);
    assert_eq!(s, "t=3600");
}
