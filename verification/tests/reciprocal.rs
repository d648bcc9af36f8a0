use softf64::reciprocal::reciprocal_estimate;

fn gap(b: u64) -> u128 {
    // How far the estimate is below 2^116 / b, rounded down.
    let x = reciprocal_estimate(b) as u128;
    let true_reciprocal = (1u128 << 116) / (b as u128);
    assert!(x <= true_reciprocal, "estimate above the reciprocal for {:#x}", b);
    true_reciprocal - x
}

#[test]
fn reciprocal_estimates_of_chosen_significands() {
    assert_eq!(reciprocal_estimate(0x0010_0000_0000_0000), 0xffff_ffff_ffff_ff1f);
    assert_eq!(reciprocal_estimate(0x0010_0000_0000_0001), 0xffff_ffff_ffff_ef22);
    assert_eq!(reciprocal_estimate(0x001f_ffff_ffff_ffff), 0x8000_0000_0000_02bd);
    assert_eq!(reciprocal_estimate(0x0018_0000_0000_0000), 0xaaaa_aaaa_aaaa_a9ca);
    assert_eq!(reciprocal_estimate(0x0016_a09e_667f_3bcd), 0xb504_f333_f9de_6028);
    assert_eq!(reciprocal_estimate(0x0010_0000_0020_0000), 0xffff_fffd_ffff_ff24);
    assert_eq!(reciprocal_estimate(0x001f_ffff_ffe0_0000), 0x8000_0000_7fff_feb0);
    assert_eq!(reciprocal_estimate(0x0013_3333_3333_3333), 0xd555_5555_5555_56af);
}

#[test]
fn reciprocal_estimate_stays_just_below() {
    let mut x: u64 = 0x9e37_79b9_7f4a_7c15;
    let mut i = 0;
    while i < 200_000 {
        x = x.wrapping_mul(6364136223846793005).wrapping_add(1442695040888963407);
        let b = 0x0010_0000_0000_0000 | (x >> 12);
        let g = gap(b);
        assert!(g >= 1 && g < 388, "gap {} for {:#x}", g, b);
        i += 1;
    }
}

#[test]
fn reciprocal_estimate_near_the_ends_of_the_range() {
    let mut k: u64 = 0;
    while k < 50_000 {
        for b in [
            0x0010_0000_0000_0000 + k,
            0x001f_ffff_ffff_ffff - k,
            0x0010_0000_0000_0000 + (k << 21),
            0x0010_0000_0000_0000 + (k << 21) + 0x1f_ffff,
        ]
        .iter()
        {
            let g = gap(*b);
            assert!(g >= 1 && g < 388, "gap {} for {:#x}", g, b);
        }
        k += 1;
    }
}
