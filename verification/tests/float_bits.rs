use proximity::comp::ApproxComparable;
use proximity::comp::small_int_to_bits;
use proximity::float_bits::{le_bits, lt_bits, tolerance_is_valid};

#[test]
fn lt_bits_agrees_with_ieee_on_ordinary_values() {
    let samples: [f32; 12] = [
        0.0,
        -0.0,
        1.0,
        -1.0,
        1.5,
        -2.75,
        1e-8,
        1e30,
        -1e30,
        f32::MIN_POSITIVE,
        1e-42, // subnormal
        3.0,
    ];
    for &a in samples.iter() {
        for &b in samples.iter() {
            assert_eq!(lt_bits(a.to_bits(), b.to_bits()), a < b, "{} < {}", a, b);
            assert_eq!(le_bits(a.to_bits(), b.to_bits()), a <= b, "{} <= {}", a, b);
        }
    }
}

#[test]
fn lt_bits_agrees_with_ieee_on_special_values() {
    let specials: [f32; 7] = [
        f32::NAN,
        -f32::NAN,
        f32::INFINITY,
        f32::NEG_INFINITY,
        0.0,
        -0.0,
        1.0,
    ];
    for &a in specials.iter() {
        for &b in specials.iter() {
            assert_eq!(lt_bits(a.to_bits(), b.to_bits()), a < b);
            assert_eq!(le_bits(a.to_bits(), b.to_bits()), a <= b);
        }
    }
}

#[test]
fn tolerance_validity_is_strict_positivity() {
    assert!(tolerance_is_valid(1e-8f32.to_bits()));
    assert!(tolerance_is_valid(f32::INFINITY.to_bits()));
    assert!(tolerance_is_valid(f32::MIN_POSITIVE.to_bits()));
    assert!(!tolerance_is_valid(0.0f32.to_bits()));
    assert!(!tolerance_is_valid((-0.0f32).to_bits()));
    assert!(!tolerance_is_valid((-1.0f32).to_bits()));
    assert!(!tolerance_is_valid(f32::NAN.to_bits()));
    assert!(!tolerance_is_valid(f32::NEG_INFINITY.to_bits()));
}

#[test]
fn small_int_encoding_is_the_ieee_encoding() {
    let cases: [u32; 12] = [0, 1, 2, 3, 4, 5, 127, 128, 255, 1000, 65535, 0xff_ffff];
    for &d in cases.iter() {
        assert_eq!(small_int_to_bits(d), (d as f32).to_bits(), "encoding of {}", d);
    }
}

#[test]
fn short_fuzziness_is_absolute_difference() {
    assert_eq!((1i16).fuzziness(&1i16), 0.0f32.to_bits());
    assert_eq!((1i16).fuzziness(&2i16), 1.0f32.to_bits());
    assert_eq!((2i16).fuzziness(&1i16), 1.0f32.to_bits());
    assert_eq!((-5i16).fuzziness(&5i16), 10.0f32.to_bits());
    assert_eq!(i16::MIN.fuzziness(&i16::MAX), 65535.0f32.to_bits());
}

#[test]
fn short_matches_iff_strictly_within_tolerance() {
    assert!((1i16).roughly_matches(&2i16, 1.5f32.to_bits()));
    assert!(!(1i16).roughly_matches(&2i16, 1.0f32.to_bits())); // strict
    assert!((7i16).roughly_matches(&7i16, 1e-8f32.to_bits()));
    assert!(!(7i16).roughly_matches(&8i16, f32::NAN.to_bits()));
}
