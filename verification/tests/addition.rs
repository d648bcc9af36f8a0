use softf64::SoftF64;

fn add_bits(a: u64, b: u64) -> u64 {
    SoftF64::from_bits(a).add(SoftF64::from_bits(b)).to_bits()
}

fn native_add(a: f64, b: f64) -> u64 {
    (a + b).to_bits()
}

fn check_add(a: f64, b: f64) {
    assert_eq!(add_bits(a.to_bits(), b.to_bits()), native_add(a, b), "{:e} + {:e}", a, b);
}

#[test]
fn one_plus_two_is_three() {
    assert_eq!(add_bits(0x3ff0_0000_0000_0000, 0x4000_0000_0000_0000), 0x4008_0000_0000_0000);
}

#[test]
fn sign_of_zero_sums() {
    let pz = 0u64;
    let nz = 0x8000_0000_0000_0000u64;
    assert_eq!(add_bits(pz, nz), pz);
    assert_eq!(add_bits(nz, pz), pz);
    assert_eq!(add_bits(nz, nz), nz);
    assert_eq!(add_bits(pz, pz), pz);
}

#[test]
fn smallest_subnormal_doubles() {
    assert_eq!(add_bits(1, 1), 2);
}

#[test]
fn addition_agrees_with_hardware_on_samples() {
    let samples: [f64; 24] = [
        1.0, -1.0, 2.0, 3.0, 0.1, -0.1, 0.3, 1e308, -1e308, 1.7976931348623157e308,
        5e-324, -5e-324, 2.2250738585072014e-308, 2.225073858507201e-308, 1e-310, -3e-320,
        9007199254740992.0, 9007199254740993.0, 1.0000000000000002, 0.9999999999999999,
        123456789.123456789, -987654321.987654321, 6.02214076e23, 1.602176634e-19,
    ];
    for a in samples.iter() {
        for b in samples.iter() {
            check_add(*a, *b);
        }
    }
}
