use lox::util::{Number, INFINITY_BITS, SIGN_BIT};

fn samples() -> Vec<f64> {
    vec![
        0.0,
        -0.0,
        1.0,
        -1.0,
        0.5,
        -0.5,
        2.0,
        3.25,
        -3.25,
        1e300,
        -1e300,
        1e-300,
        -1e-300,
        5e-324,
        -5e-324,
        f64::MIN_POSITIVE,
        f64::MAX,
        f64::MIN,
        f64::INFINITY,
        f64::NEG_INFINITY,
        f64::NAN,
        -f64::NAN,
        f64::from_bits(0x7ff0_0000_0000_0001),
        f64::from_bits(0xfff8_0000_0000_0001),
        123456789.125,
        -987654321.5,
    ]
}

fn number(value: f64) -> Number {
    Number::from_bits(value.to_bits())
}

#[test]
fn equality_is_that_of_the_floats() {
    for a in samples() {
        for b in samples() {
            assert_eq!(number(a).eq(&number(b)), a == b, "{} == {}", a, b);
        }
    }
}

#[test]
fn order_is_that_of_the_floats() {
    for a in samples() {
        for b in samples() {
            assert_eq!(number(a).lt(&number(b)), a < b, "{} < {}", a, b);
            assert_eq!(number(a).le(&number(b)), a <= b, "{} <= {}", a, b);
        }
    }
}

#[test]
fn negation_is_that_of_the_floats() {
    for a in samples() {
        assert_eq!(number(a).neg().to_bits(), (-a).to_bits(), "-{}", a);
        assert_eq!(number(a).neg().neg().to_bits(), a.to_bits());
    }
}

#[test]
fn not_a_number_is_found() {
    for a in samples() {
        assert_eq!(number(a).nan(), a.is_nan(), "{}", a);
    }
}

#[test]
fn exact_patterns() {
    assert_eq!(SIGN_BIT, (-0.0f64).to_bits());
    assert_eq!(INFINITY_BITS, f64::INFINITY.to_bits());
    assert_eq!(Number::from_bits(7).to_bits(), 7);
    assert_eq!(number(1.0).neg().to_bits(), 0xbff0_0000_0000_0000);
    assert!(number(0.0).eq(&number(-0.0)));
    assert!(!number(0.0).lt(&number(-0.0)));
    assert!(number(0.0).le(&number(-0.0)));
    assert!(!number(f64::NAN).eq(&number(f64::NAN)));
    assert!(!number(f64::NAN).le(&number(f64::NAN)));
    assert!(number(-2.0).lt(&number(-1.0)));
    assert!(number(-1.0).lt(&number(5e-324)));
}
