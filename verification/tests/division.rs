use softf64::SoftF64;

fn div_bits(a: u64, b: u64) -> u64 {
    SoftF64::from_bits(a).div(SoftF64::from_bits(b)).to_bits()
}

fn check_div(a: f64, b: f64) {
    let got = div_bits(a.to_bits(), b.to_bits());
    let want = (a / b).to_bits();
    assert_eq!(got, want, "{:e} / {:e}", a, b);
}

fn next(x: &mut u64) -> u64 {
    *x = x.wrapping_mul(6364136223846793005).wrapping_add(1442695040888963407);
    *x >> 11
}

#[test]
fn one_third_is_correctly_rounded() {
    assert_eq!(div_bits(0x3ff0_0000_0000_0000, 0x4008_0000_0000_0000), 0x3fd5_5555_5555_5555);
}

#[test]
fn equal_significands_divide_exactly() {
    check_div(1.0, 1.0);
    check_div(3.0, 1.5);
    check_div(1.25, 10.0);
    check_div(5e-324, 5e-324);
    check_div(1.7976931348623157e308, 1.7976931348623157e308);
}

#[test]
fn division_agrees_with_hardware_on_samples() {
    let samples: [f64; 30] = [
        1.0, -1.0, 2.0, 3.0, 0.1, -0.1, 0.3, 1e308, -1e308, 1.7976931348623157e308,
        5e-324, -5e-324, 2.2250738585072014e-308, 2.225073858507201e-308, 1e-310, -3e-320,
        9007199254740992.0, 9007199254740993.0, 1.0000000000000002, 0.9999999999999999,
        123456789.123456789, -987654321.987654321, 6.02214076e23, 1.602176634e-19,
        1e-160, 3.3e-162, 1.5e-154, 7.7e-170, 1e160, 4.9e-150,
    ];
    for a in samples.iter() {
        for b in samples.iter() {
            check_div(*a, *b);
        }
    }
}

#[test]
fn division_agrees_with_hardware_on_random_normals() {
    let mut x: u64 = 0x1234_5678_9abc_def1;
    let mut i = 0;
    while i < 20000 {
        let a_sig = next(&mut x) & 0x000f_ffff_ffff_ffff;
        let b_sig = next(&mut x) & 0x000f_ffff_ffff_ffff;
        let a_exp = 1 + next(&mut x) % 2046;
        let b_exp = 1 + next(&mut x) % 2046;
        let sign = (next(&mut x) & 1) << 63;
        let a = f64::from_bits(sign | (a_exp << 52) | a_sig);
        let b = f64::from_bits((b_exp << 52) | b_sig);
        check_div(a, b);
        i += 1;
    }
}

#[test]
fn subnormal_quotients_agree_with_hardware() {
    let mut x: u64 = 0x0fed_cba9_8765_4321;
    let mut i = 0;
    while i < 20000 {
        let a_sig = next(&mut x) & 0x000f_ffff_ffff_ffff;
        let b_sig = next(&mut x) & 0x000f_ffff_ffff_ffff;
        let a_exp = 1 + next(&mut x) % 60;
        let b_exp = 1020 + next(&mut x) % 60;
        let a = f64::from_bits((a_exp << 52) | a_sig);
        let b = f64::from_bits((b_exp << 52) | b_sig);
        check_div(a, b);
        i += 1;
    }
}

#[test]
fn subnormal_operands_agree_with_hardware() {
    let mut x: u64 = 0x0bad_cafe_f00d_beef;
    let mut i = 0;
    while i < 20000 {
        let a = f64::from_bits(next(&mut x) >> (next(&mut x) % 52));
        let b = f64::from_bits(1 + (next(&mut x) >> (next(&mut x) % 52)));
        check_div(a, b);
        check_div(b, a + 5e-324);
        check_div(1.0, b);
        check_div(a, 1e-300);
        i += 1;
    }
}

#[test]
fn divisors_near_powers_of_two_agree_with_hardware() {
    let mut x: u64 = 0x5555_aaaa_3333_cccc;
    let mut k: u64 = 0;
    while k < 3000 {
        let low = f64::from_bits(0x3ff0_0000_0000_0000 + k);
        let high = f64::from_bits(0x4000_0000_0000_0000 - 1 - k);
        let a = f64::from_bits(0x3ff0_0000_0000_0000 | (next(&mut x) & 0x000f_ffff_ffff_ffff));
        check_div(a, low);
        check_div(a, high);
        check_div(low, high);
        check_div(high, low);
        check_div(1.0, low);
        check_div(1.0, high);
        k += 1;
    }
}
