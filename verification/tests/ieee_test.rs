use histdiff_core::ieee::{
    bits_eq, bits_is_finite, bits_is_nan, bits_is_zero, bits_lt, INFINITY_BITS, NAN_BITS,
    ONE_BITS, SIGN_BIT,
};

fn samples() -> Vec<f64> {
    vec![
        0.0,
        -0.0,
        1.0,
        -1.0,
        0.5,
        -0.5,
        5.0,
        10.5,
        -3.0,
        -5.5,
        1.0e-320,
        -1.0e-320,
        f64::MIN_POSITIVE,
        f64::MAX,
        f64::MIN,
        f64::INFINITY,
        f64::NEG_INFINITY,
        f64::NAN,
        -f64::NAN,
        f64::from_bits(0x7FF0_0000_0000_0001),
        f64::EPSILON,
        123456.789,
        -123456.789,
    ]
}

#[test]
fn constants_are_the_patterns_they_name() {
    assert_eq!(ONE_BITS, 1.0f64.to_bits());
    assert_eq!(INFINITY_BITS, f64::INFINITY.to_bits());
    assert_eq!(SIGN_BIT, (-0.0f64).to_bits());
    assert!(f64::from_bits(NAN_BITS).is_nan());
}

#[test]
fn classification_agrees_with_the_hardware() {
    for v in samples() {
        assert_eq!(bits_is_nan(v.to_bits()), v.is_nan(), "{:?}", v);
        assert_eq!(bits_is_finite(v.to_bits()), v.is_finite(), "{:?}", v);
        assert_eq!(bits_is_zero(v.to_bits()), v == 0.0, "{:?}", v);
    }
}

#[test]
fn comparison_agrees_with_the_hardware() {
    for a in samples() {
        for b in samples() {
            assert_eq!(bits_lt(a.to_bits(), b.to_bits()), a < b, "{:?} < {:?}", a, b);
            assert_eq!(bits_eq(a.to_bits(), b.to_bits()), a == b, "{:?} == {:?}", a, b);
        }
    }
}

#[test]
fn comparison_agrees_with_the_hardware_on_many_patterns() {
    let mut state: u64 = 0x9E37_79B9_7F4A_7C15;
    let mut next = || {
        state ^= state << 13;
        state ^= state >> 7;
        state ^= state << 17;
        state
    };
    let mut patterns: Vec<u64> = Vec::new();
    for _ in 0..400 {
        let bits = next();
        patterns.push(bits);
        // neighbours, the same magnitude under the other sign, and small exponents
        patterns.push(bits.wrapping_add(1));
        patterns.push(bits ^ SIGN_BIT);
        patterns.push(bits >> 12);
    }
    for &a in &patterns {
        let x = f64::from_bits(a);
        assert_eq!(bits_is_nan(a), x.is_nan());
        assert_eq!(bits_is_finite(a), x.is_finite());
        for &b in patterns.iter().step_by(7) {
            let y = f64::from_bits(b);
            assert_eq!(bits_lt(a, b), x < y, "{:?} < {:?}", x, y);
            assert_eq!(bits_eq(a, b), x == y, "{:?} == {:?}", x, y);
        }
    }
}
