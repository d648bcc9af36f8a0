use softf64::SoftF64;

fn mul_bits(a: u64, b: u64) -> u64 {
    SoftF64::from_bits(a).mul(SoftF64::from_bits(b)).to_bits()
}

fn check_mul(a: f64, b: f64) {
    let got = mul_bits(a.to_bits(), b.to_bits());
    let want = (a * b).to_bits();
    assert_eq!(got, want, "{:e} * {:e}", a, b);
}

#[test]
fn two_times_three_is_six() {
    assert_eq!(mul_bits(0x4000_0000_0000_0000, 0x4008_0000_0000_0000), 0x4018_0000_0000_0000);
}

#[test]
fn largest_finite_times_two_overflows() {
    assert_eq!(mul_bits(0x7fef_ffff_ffff_ffff, 0x4000_0000_0000_0000), 0x7ff0_0000_0000_0000);
}

#[test]
fn multiplication_agrees_with_hardware_on_samples() {
    let samples: [f64; 30] = [
        1.0, -1.0, 2.0, 3.0, 0.1, -0.1, 0.3, 1e308, -1e308, 1.7976931348623157e308,
        5e-324, -5e-324, 2.2250738585072014e-308, 2.225073858507201e-308, 1e-310, -3e-320,
        9007199254740992.0, 9007199254740993.0, 1.0000000000000002, 0.9999999999999999,
        123456789.123456789, -987654321.987654321, 6.02214076e23, 1.602176634e-19,
        1e-160, 3.3e-162, 1.5e-154, 7.7e-170, 1e160, 4.9e-150,
    ];
    for a in samples.iter() {
        for b in samples.iter() {
            check_mul(*a, *b);
        }
    }
}

#[test]
fn subnormal_products_agree_with_hardware() {
    // Products that land in the subnormal range, where the double-width
    // product is shifted right and a sticky bit decides the rounding.
    let mut x: u64 = 0x3c9a_bcde_f012_3457;
    let mut i = 0;
    while i < 2000 {
        x = x.wrapping_mul(6364136223846793005).wrapping_add(1442695040888963407);
        let a_sig = x & 0x000f_ffff_ffff_ffff;
        x = x.wrapping_mul(6364136223846793005).wrapping_add(1442695040888963407);
        let b_sig = x & 0x000f_ffff_ffff_ffff;
        let a_exp = 400 + (i % 200) as u64;
        let b_exp = 590 - (i % 97) as u64;
        let a = f64::from_bits((a_exp << 52) | a_sig);
        let b = f64::from_bits((b_exp << 52) | b_sig);
        check_mul(a, b);
        i += 1;
    }
}
