//! The full product of two 64-bit integers.

use vstd::prelude::*;

verus! {

proof fn lemma_split_bits(x: u128)
    by (bit_vector)
    ensures
        (x >> 64) * 0x1_0000_0000_0000_0000 + (x & 0xffff_ffff_ffff_ffff) == x,
        x >> 64 <= 0xffff_ffff_ffff_ffff,
        x & 0xffff_ffff_ffff_ffff <= 0xffff_ffff_ffff_ffff,
{
}

/// Multiplies two 64-bit integers without losing the upper half: the result
/// is the low word and the high word of the 128-bit product.
pub fn u64_widen_mul(a: u64, b: u64) -> (r: (u64, u64))
    ensures
        r.1 * 0x1_0000_0000_0000_0000 + r.0 == a * b,
{
    proof {
        assert(a * b <= 0xffff_ffff_ffff_ffff * 0xffff_ffff_ffff_ffff) by (nonlinear_arith)
            requires
                0 <= a <= 0xffff_ffff_ffff_ffff,
                0 <= b <= 0xffff_ffff_ffff_ffff,
        ;
    }
    let x: u128 = (a as u128) * (b as u128);
    proof {
        lemma_split_bits(x);
    }
    ((x & 0xffff_ffff_ffff_ffff) as u64, (x >> 64) as u64)
}

} // verus!
