use softf64::SoftF64;

const POS_ZERO: u64 = 0;
const NEG_ZERO: u64 = 0x8000_0000_0000_0000;
const POS_INF: u64 = 0x7ff0_0000_0000_0000;
const NEG_INF: u64 = 0xfff0_0000_0000_0000;
const QNAN: u64 = 0x7ff8_0000_0000_0000;
const ONE: u64 = 0x3ff0_0000_0000_0000;
const TWO: u64 = 0x4000_0000_0000_0000;
const NEG_TWO: u64 = 0xc000_0000_0000_0000;
const MAX_FINITE: u64 = 0x7fef_ffff_ffff_ffff;

fn add(a: u64, b: u64) -> u64 {
    SoftF64::from_bits(a).add(SoftF64::from_bits(b)).to_bits()
}

fn sub(a: u64, b: u64) -> u64 {
    SoftF64::from_bits(a).sub(SoftF64::from_bits(b)).to_bits()
}

fn mul(a: u64, b: u64) -> u64 {
    SoftF64::from_bits(a).mul(SoftF64::from_bits(b)).to_bits()
}

fn div(a: u64, b: u64) -> u64 {
    SoftF64::from_bits(a).div(SoftF64::from_bits(b)).to_bits()
}

#[test]
fn nan_operands_come_back_quiet() {
    let signalling: u64 = 0x7ff0_0000_0000_1234;
    let negative: u64 = 0xfff4_0000_0000_0001;
    assert_eq!(add(signalling, ONE), 0x7ff8_0000_0000_1234);
    assert_eq!(add(ONE, signalling), 0x7ff8_0000_0000_1234);
    assert_eq!(add(negative, ONE), 0x7ffc_0000_0000_0001);
    assert_eq!(add(signalling, negative), 0x7ff8_0000_0000_1234);
    assert_eq!(sub(ONE, signalling), 0x7ff8_0000_0000_1234);
    assert_eq!(mul(signalling, ONE), 0x7ff8_0000_0000_1234);
    assert_eq!(mul(POS_INF, signalling), 0x7ff8_0000_0000_1234);
    assert_eq!(mul(negative, POS_ZERO), 0xfffc_0000_0000_0001);
    assert_eq!(mul(negative, signalling), 0xfffc_0000_0000_0001);
    assert_eq!(div(signalling, POS_ZERO), 0x7ff8_0000_0000_1234);
    assert_eq!(div(ONE, negative), 0xfffc_0000_0000_0001);
    assert_eq!(div(QNAN, QNAN), QNAN);
}

#[test]
fn infinities_in_addition() {
    assert_eq!(add(POS_INF, NEG_INF), QNAN);
    assert_eq!(add(NEG_INF, POS_INF), QNAN);
    assert_eq!(add(POS_INF, POS_INF), POS_INF);
    assert_eq!(add(NEG_INF, NEG_INF), NEG_INF);
    assert_eq!(add(POS_INF, ONE), POS_INF);
    assert_eq!(add(NEG_TWO, POS_INF), POS_INF);
    assert_eq!(add(NEG_INF, MAX_FINITE), NEG_INF);
    assert_eq!(add(POS_ZERO, NEG_INF), NEG_INF);
    assert_eq!(sub(POS_INF, POS_INF), QNAN);
    assert_eq!(sub(POS_INF, NEG_INF), POS_INF);
}

#[test]
fn infinities_in_multiplication() {
    assert_eq!(mul(POS_INF, POS_ZERO), QNAN);
    assert_eq!(mul(NEG_ZERO, POS_INF), QNAN);
    assert_eq!(mul(POS_INF, TWO), POS_INF);
    assert_eq!(mul(POS_INF, NEG_TWO), NEG_INF);
    assert_eq!(mul(NEG_TWO, NEG_INF), POS_INF);
    assert_eq!(mul(NEG_INF, POS_INF), NEG_INF);
    assert_eq!(mul(1, NEG_INF), NEG_INF);
}

#[test]
fn infinities_and_zeros_in_division() {
    assert_eq!(div(POS_INF, POS_INF), QNAN);
    assert_eq!(div(NEG_INF, POS_INF), QNAN);
    assert_eq!(div(POS_ZERO, NEG_ZERO), QNAN);
    assert_eq!(div(POS_INF, TWO), POS_INF);
    assert_eq!(div(POS_INF, NEG_ZERO), NEG_INF);
    assert_eq!(div(NEG_TWO, POS_INF), NEG_ZERO);
    assert_eq!(div(TWO, NEG_INF), NEG_ZERO);
    assert_eq!(div(POS_ZERO, TWO), POS_ZERO);
    assert_eq!(div(POS_ZERO, NEG_TWO), NEG_ZERO);
    assert_eq!(div(ONE, POS_ZERO), POS_INF);
    assert_eq!(div(NEG_TWO, POS_ZERO), NEG_INF);
    assert_eq!(div(TWO, NEG_ZERO), NEG_INF);
    assert_eq!(div(1, NEG_ZERO), NEG_INF);
}

#[test]
fn zeros_in_addition() {
    assert_eq!(add(POS_ZERO, NEG_ZERO), POS_ZERO);
    assert_eq!(add(NEG_ZERO, NEG_ZERO), NEG_ZERO);
    assert_eq!(add(POS_ZERO, POS_ZERO), POS_ZERO);
    assert_eq!(add(POS_ZERO, ONE), ONE);
    assert_eq!(add(NEG_ZERO, NEG_TWO), NEG_TWO);
    // A zero on the right leaves the left operand, not the zero.
    assert_eq!(add(ONE, POS_ZERO), ONE);
    assert_eq!(add(NEG_TWO, NEG_ZERO), NEG_TWO);
    assert_eq!(add(1, NEG_ZERO), 1);
    assert_eq!(sub(ONE, POS_ZERO), ONE);
    assert_eq!(sub(POS_ZERO, ONE), 0xbff0_0000_0000_0000);
}

#[test]
fn zeros_in_multiplication() {
    assert_eq!(mul(POS_ZERO, TWO), POS_ZERO);
    assert_eq!(mul(NEG_TWO, POS_ZERO), NEG_ZERO);
    assert_eq!(mul(NEG_ZERO, NEG_TWO), POS_ZERO);
    assert_eq!(mul(NEG_ZERO, POS_ZERO), NEG_ZERO);
}

#[test]
fn a_value_minus_itself_is_positive_zero() {
    assert_eq!(sub(ONE, ONE), POS_ZERO);
    assert_eq!(add(NEG_TWO, TWO), POS_ZERO);
    assert_eq!(add(TWO, NEG_TWO), POS_ZERO);
    assert_eq!(sub(1, 1), POS_ZERO);
    assert_eq!(sub(MAX_FINITE, MAX_FINITE), POS_ZERO);
}

#[test]
fn overflow_gives_signed_infinity() {
    assert_eq!(add(MAX_FINITE, MAX_FINITE), POS_INF);
    assert_eq!(mul(MAX_FINITE, TWO), POS_INF);
    assert_eq!(mul(MAX_FINITE, NEG_TWO), NEG_INF);
    assert_eq!(div(MAX_FINITE, 0x3fe0_0000_0000_0000), POS_INF);
    assert_eq!(div(MAX_FINITE, 1), POS_INF);
    // The largest finite value plus half its last place is a tie, and the
    // even neighbour is beyond the finite range.
    assert_eq!(add(MAX_FINITE, 0x7c90_0000_0000_0000), POS_INF);
    // A little less stays finite.
    assert_eq!(add(MAX_FINITE, 0x7c8f_ffff_ffff_ffff), MAX_FINITE);
}

#[test]
fn underflow_gives_signed_zero_or_subnormal() {
    // Half the smallest subnormal is a tie and goes to the even zero.
    assert_eq!(mul(1, 0x3fe0_0000_0000_0000), POS_ZERO);
    assert_eq!(div(1, TWO), POS_ZERO);
    assert_eq!(div(1, NEG_TWO), NEG_ZERO);
    // Anything more than half goes up to the smallest subnormal.
    assert_eq!(mul(1, 0x3fe0_0000_0000_0001), 1);
    assert_eq!(div(3, 0x4010_0000_0000_0000), 1);
    // Three halves of it is a tie between one and two, and two is even.
    assert_eq!(mul(3, 0x3fe0_0000_0000_0000), 2);
    assert_eq!(div(3, TWO), 2);
    assert_eq!(mul(1, 1), POS_ZERO);
    assert_eq!(mul(0x8000_0000_0000_0001, 1), NEG_ZERO);
    assert_eq!(div(1, MAX_FINITE), POS_ZERO);
    assert_eq!(mul(0x0010_0000_0000_0000, 0x3fe0_0000_0000_0000), 0x0008_0000_0000_0000);
}

#[test]
fn ties_go_to_the_even_neighbour() {
    // 1 + 2^-53 lies halfway between 1 and 1 + 2^-52; 1 is even.
    assert_eq!(add(ONE, 0x3ca0_0000_0000_0000), ONE);
    // (1 + 2^-52) + 2^-53 lies halfway between 1 + 2^-52 and 1 + 2^-51; the
    // latter is even.
    assert_eq!(add(0x3ff0_0000_0000_0001, 0x3ca0_0000_0000_0000), 0x3ff0_0000_0000_0002);
    // Just over and just under the halfway point.
    assert_eq!(add(ONE, 0x3ca0_0000_0000_0001), 0x3ff0_0000_0000_0001);
    assert_eq!(add(0x3ff0_0000_0000_0001, 0x3c9f_ffff_ffff_ffff), 0x3ff0_0000_0000_0001);
    // The same ties, reached by subtraction.
    assert_eq!(sub(0x3ff0_0000_0000_0001, 0x3ca0_0000_0000_0000), ONE);
    assert_eq!(sub(TWO, 0x3ca0_0000_0000_0000), TWO);
    // A tie in a product: (1 + 2^-52) * (1 + 2^-1) = 1.5 + 1.5 * 2^-52.
    assert_eq!(mul(0x3ff0_0000_0000_0001, 0x3ff8_0000_0000_0000), 0x3ff8_0000_0000_0002);
    assert_eq!(mul(0x3ff0_0000_0000_0003, 0x3ff8_0000_0000_0000), 0x3ff8_0000_0000_0004);
}

#[test]
fn operations_commute_on_samples() {
    let samples: [u64; 12] = [
        POS_ZERO, NEG_ZERO, ONE, NEG_TWO, MAX_FINITE, 1, 0x8000_0000_0000_0003,
        0x000f_ffff_ffff_ffff, 0x0010_0000_0000_0000, 0x3ca0_0000_0000_0000,
        0x3ff0_0000_0000_0001, 0x4340_0000_0000_0001,
    ];
    for a in samples.iter() {
        for b in samples.iter() {
            assert_eq!(add(*a, *b), add(*b, *a));
            assert_eq!(mul(*a, *b), mul(*b, *a));
        }
    }
}

#[test]
fn subtraction_is_addition_of_the_negation() {
    let samples: [u64; 8] = [
        POS_ZERO, NEG_ZERO, ONE, NEG_TWO, MAX_FINITE, 1, POS_INF, 0x3ff0_0000_0000_0001,
    ];
    for a in samples.iter() {
        for b in samples.iter() {
            let negated = SoftF64::from_bits(*b).neg().to_bits();
            assert_eq!(sub(*a, *b), add(*a, negated));
        }
    }
    assert_eq!(sub(0x4008_0000_0000_0000, ONE), TWO);
}
