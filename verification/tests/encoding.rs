use softf64::soft_f64::SoftF64 as Value;
use softf64::sticky::shift_right_jam;
use softf64::sticky::wide_shift_right_jam;
use softf64::widen::u64_widen_mul;

#[test]
fn bits_round_trip() {
    let patterns: [u64; 10] = [
        0,
        1,
        0x8000_0000_0000_0000,
        0x3ff0_0000_0000_0000,
        0x7ff0_0000_0000_0000,
        0xfff0_0000_0000_0000,
        0x7ff8_0000_0000_0000,
        0x7ff0_0000_0000_0001,
        0xffff_ffff_ffff_ffff,
        0x0123_4567_89ab_cdef,
    ];
    for x in patterns.iter() {
        assert_eq!(Value::from_bits(*x).to_bits(), *x);
        assert_eq!(Value::from_repr(*x).repr(), *x);
        assert_eq!(Value::from_bits(*x), Value(*x));
    }
}

#[test]
fn signed_repr_is_twos_complement() {
    assert_eq!(Value::from_bits(0).signed_repr(), 0);
    assert_eq!(Value::from_bits(0x3ff0_0000_0000_0000).signed_repr(), 0x3ff0_0000_0000_0000);
    assert_eq!(Value::from_bits(0x8000_0000_0000_0000).signed_repr(), i64::MIN);
    assert_eq!(Value::from_bits(0xffff_ffff_ffff_ffff).signed_repr(), -1);
}

#[test]
fn format_constants() {
    assert_eq!(Value::BITS, 64);
    assert_eq!(Value::SIGNIFICAND_BITS, 52);
    assert_eq!(Value::EXPONENT_BITS, 11);
    assert_eq!(Value::EXPONENT_MAX, 2047);
    assert_eq!(Value::EXPONENT_BIAS, 1023);
    assert_eq!(Value::SIGN_MASK, 1u64 << 63);
    assert_eq!(Value::SIGNIFICAND_MASK, (1u64 << 52) - 1);
    assert_eq!(Value::IMPLICIT_BIT, 1u64 << 52);
    assert_eq!(Value::EXPONENT_MASK, 0x7ffu64 << 52);
}

#[test]
fn decompose_splits_the_fields() {
    assert_eq!(Value::decompose(0x3ff0_0000_0000_0000), (0, 1023, 0));
    assert_eq!(Value::decompose(0xc008_0000_0000_0000), (1, 1024, 0x0008_0000_0000_0000));
    assert_eq!(Value::decompose(0x0000_0000_0000_0001), (0, 0, 1));
    assert_eq!(Value::decompose(0xffff_ffff_ffff_ffff), (1, 2047, 0x000f_ffff_ffff_ffff));
}

#[test]
fn recompose_inverts_decompose() {
    let patterns: [u64; 8] = [
        0,
        1,
        0x8000_0000_0000_0000,
        0x3ff0_0000_0000_0000,
        0x7ff0_0000_0000_0000,
        0x7ff8_0000_0000_0001,
        0xffff_ffff_ffff_ffff,
        0x0123_4567_89ab_cdef,
    ];
    for x in patterns.iter() {
        let (sign, exponent, significand) = Value::decompose(*x);
        assert_eq!(Value::recompose(sign, exponent, significand), *x);
    }
    assert_eq!(Value::recompose(1, 1024, 0x0008_0000_0000_0000), 0xc008_0000_0000_0000);
}

#[test]
fn normalize_restores_the_implicit_bit() {
    assert_eq!(Value::normalize(1), (-51, 0x0010_0000_0000_0000));
    assert_eq!(Value::normalize(3), (-50, 0x0018_0000_0000_0000));
    assert_eq!(Value::normalize(0x0008_0000_0000_0000), (0, 0x0010_0000_0000_0000));
    assert_eq!(Value::normalize(0x000f_ffff_ffff_ffff), (0, 0x001f_ffff_ffff_fffe));
}

#[test]
fn unpack_gives_normal_form() {
    assert_eq!(Value::unpack(0x3ff0_0000_0000_0000), (1023, 0x0010_0000_0000_0000));
    assert_eq!(Value::unpack(0xbff8_0000_0000_0000), (1023, 0x0018_0000_0000_0000));
    assert_eq!(Value::unpack(1), (-51, 0x0010_0000_0000_0000));
    assert_eq!(Value::unpack(0x7fef_ffff_ffff_ffff), (2046, 0x001f_ffff_ffff_ffff));
}

#[test]
fn negation_flips_the_sign_only() {
    assert_eq!(Value::from_bits(0x3ff0_0000_0000_0000).neg().to_bits(), 0xbff0_0000_0000_0000);
    assert_eq!(Value::from_bits(0).neg().to_bits(), 0x8000_0000_0000_0000);
    assert_eq!(Value::from_bits(0x7ff8_0000_0000_1234).neg().to_bits(), 0xfff8_0000_0000_1234);
}

#[test]
fn negation_twice_is_identity() {
    let patterns: [u64; 6] = [
        0,
        0x8000_0000_0000_0000,
        0x3ff0_0000_0000_0000,
        0x7ff0_0000_0000_0001,
        0xfff8_dead_beef_0001,
        0xffff_ffff_ffff_ffff,
    ];
    for x in patterns.iter() {
        assert_eq!(Value::from_bits(*x).neg().neg().to_bits(), *x);
    }
}

#[test]
fn widening_product_keeps_both_halves() {
    assert_eq!(u64_widen_mul(0, 0xffff_ffff_ffff_ffff), (0, 0));
    assert_eq!(u64_widen_mul(3, 5), (15, 0));
    assert_eq!(u64_widen_mul(1 << 32, 1 << 32), (0, 1));
    assert_eq!(
        u64_widen_mul(0xffff_ffff_ffff_ffff, 0xffff_ffff_ffff_ffff),
        (1, 0xffff_ffff_ffff_fffe)
    );
    let (low, high) = u64_widen_mul(0x0123_4567_89ab_cdef, 0xfedc_ba98_7654_3210);
    let wide = (0x0123_4567_89ab_cdefu128) * (0xfedc_ba98_7654_3210u128);
    assert_eq!(low, wide as u64);
    assert_eq!(high, (wide >> 64) as u64);
}

#[test]
fn sticky_shift_remembers_lost_bits() {
    assert_eq!(shift_right_jam(0b1000, 3), 0b1);
    assert_eq!(shift_right_jam(0b1001, 3), 0b1);
    assert_eq!(shift_right_jam(0b10000, 3), 0b10);
    assert_eq!(shift_right_jam(0b10001, 3), 0b11);
    assert_eq!(shift_right_jam(0b10100, 3), 0b11);
    assert_eq!(shift_right_jam(0xffff_ffff_ffff_ffff, 63), 1);
    assert_eq!(shift_right_jam(0x8000_0000_0000_0000, 63), 1);
    assert_eq!(shift_right_jam(0x4000_0000_0000_0000, 63), 1);
    assert_eq!(shift_right_jam(0, 17), 0);
}

#[test]
fn wide_sticky_shift_remembers_lost_bits() {
    assert_eq!(wide_shift_right_jam(1, 0, 1), (0, 0x8000_0000_0000_0000));
    assert_eq!(wide_shift_right_jam(1, 1, 1), (0, 0x8000_0000_0000_0001));
    assert_eq!(wide_shift_right_jam(0x10, 0x30, 4), (1, 3));
    assert_eq!(wide_shift_right_jam(0x10, 0x31, 4), (1, 3));
    assert_eq!(wide_shift_right_jam(0x10, 0x21, 4), (1, 3));
    assert_eq!(wide_shift_right_jam(0x1f, 0x20, 4), (1, 0xf000_0000_0000_0002));
    assert_eq!(wide_shift_right_jam(0, 0x8000_0000_0000_0000, 63), (0, 1));
    assert_eq!(wide_shift_right_jam(0xffff_ffff_ffff_ffff, 0, 63), (1, 0xffff_ffff_ffff_fffe));
}

#[test]
fn classes_of_encodings() {
    let zero = Value::from_bits(0x8000_0000_0000_0000);
    let subnormal = Value::from_bits(0x000f_ffff_ffff_ffff);
    let normal = Value::from_bits(0x0010_0000_0000_0000);
    let infinity = Value::from_bits(0xfff0_0000_0000_0000);
    let nan = Value::from_bits(0x7ff0_0000_0000_0001);
    assert!(zero.is_zero() && !zero.is_subnormal() && !zero.is_infinite() && !zero.is_nan());
    assert!(!subnormal.is_zero() && subnormal.is_subnormal());
    assert!(!subnormal.is_infinite() && !subnormal.is_nan());
    assert!(!normal.is_zero() && !normal.is_subnormal());
    assert!(!normal.is_infinite() && !normal.is_nan());
    assert!(infinity.is_infinite() && !infinity.is_nan() && !infinity.is_zero());
    assert!(nan.is_nan() && !nan.is_infinite() && !nan.is_subnormal());
    assert!(Value::from_bits(1).is_subnormal());
    assert!(Value::from_bits(0xffff_ffff_ffff_ffff).is_nan());
}

#[test]
fn default_is_positive_zero() {
    assert_eq!(Value::default().to_bits(), 0);
}
