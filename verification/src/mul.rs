//! Multiplication.

use vstd::prelude::*;
use vstd::arithmetic::power2::pow2;
use vstd::arithmetic::power2::lemma_pow2_adds;
use vstd::arithmetic::power2::lemma_pow2_pos;
use vstd::arithmetic::power2::lemma_pow2_strictly_increases;
use vstd::arithmetic::power2::lemma2_to64;
use vstd::arithmetic::power2::lemma2_to64_rest;
use vstd::arithmetic::div_mod::lemma_div_is_ordered_by_denominator;
use vstd::bits::lemma_u64_shl_is_mul;
use crate::rounding::is_nearest_even;
use crate::rounding::lemma_below_smallest;
use crate::rounding::lemma_beyond_largest;
use crate::rounding::lemma_round_with_tail;
use crate::soft_f64::SoftF64;
use crate::soft_f64::abs_of;
use crate::soft_f64::canonical_nan;
use crate::soft_f64::is_finite;
use crate::soft_f64::is_infinite;
use crate::soft_f64::is_nan;
use crate::soft_f64::is_negative;
use crate::soft_f64::is_zero;
use crate::soft_f64::lemma_field_masks;
use crate::soft_f64::magnitude;
use crate::soft_f64::quieted;
use crate::sticky::approximates;
use crate::sticky::jam;
use crate::sticky::lemma_approximates_scaled;
use crate::sticky::lemma_jam_approximates;
use crate::sticky::wide_shift_right_jam;
use crate::widen::u64_widen_mul;

verus! {

/// What multiplication owes for two finite operands: the exact product,
/// rounded to the nearest encoding, ties to even, with the sign of the
/// operands' signs combined. The product of two magnitudes counts units of
/// 2^-2148, hence the divisor.
pub open spec fn is_rounded_product(a: u64, b: u64, r: u64) -> bool {
    &&& is_negative(r) == (is_negative(a) != is_negative(b))
    &&& is_nearest_even(magnitude(a) * magnitude(b), pow2(1074), abs_of(r))
}

/// What multiplication owes for any two operands.
///
/// A NaN operand comes back quiet, the first operand before the second.
/// Infinity times zero is the canonical NaN; infinity times anything else is
/// infinity with the combined sign. Two finite operands give their exact
/// product, rounded.
pub open spec fn is_product(a: u64, b: u64, r: u64) -> bool {
    if is_nan(a) {
        r == quieted(a)
    } else if is_nan(b) {
        r == quieted(b)
    } else if is_infinite(a) || is_infinite(b) {
        if is_zero(a) || is_zero(b) {
            r == canonical_nan()
        } else {
            &&& is_infinite(r)
            &&& is_negative(r) == (is_negative(a) != is_negative(b))
        }
    } else {
        is_rounded_product(a, b, r)
    }
}

proof fn lemma_product_bits(hi: u64, lo: u64, sign: u64, exp: u64)
    by (bit_vector)
    requires
        hi < 0x0020_0000_0000_0000,
        sign == 0 || sign == 0x8000_0000_0000_0000,
        exp <= 2046,
    ensures
        (hi & 0x0010_0000_0000_0000 != 0) == (hi >= 0x0010_0000_0000_0000),
        hi < 0x0010_0000_0000_0000 ==> ((hi << 1) | (lo >> 63)) * 0x1_0000_0000_0000_0000 + (lo
            << 1) == 2 * (hi * 0x1_0000_0000_0000_0000 + lo),
        hi < 0x0010_0000_0000_0000 ==> hi | sign == hi + sign,
        hi >= 0x0010_0000_0000_0000 ==> (hi & 0x000f_ffff_ffff_ffff) | (exp << 52) | sign == sign
            + exp * 0x0010_0000_0000_0000 + (hi - 0x0010_0000_0000_0000),
        (hi | sign) & 1 == hi % 2,
        ((hi & 0x000f_ffff_ffff_ffff) | (exp << 52) | sign) & 1 == hi % 2,
        0x7ff0_0000_0000_0000 | sign == 0x7ff0_0000_0000_0000 + sign,
{
}

/// The last steps of a multiplication: overflow to infinity, the shift into
/// the subnormal range or the flush to zero, and rounding by the low word.
///
/// `num` is the exact product in units of 2^-2148. The 128-bit value
/// `high : low` has its leading bit at the implicit-bit place of `high` and
/// stands for `num / 2^1074`, scaled to the exponent.
fn finish_product(
    product_sign: u64,
    exponent: i32,
    high: u64,
    low: u64,
    Ghost(num): Ghost<nat>,
) -> (r: u64)
    requires
        product_sign == 0 || product_sign == SoftF64::SIGN_MASK,
        -2000 <= exponent <= 4000,
        0x0010_0000_0000_0000 <= high < 0x0020_0000_0000_0000,
        exponent >= 1 ==> (high * 0x1_0000_0000_0000_0000 + low) * pow2((exponent - 1) as nat)
            * pow2(1074) == 0x1_0000_0000_0000_0000 * num,
        exponent <= 0 ==> (high * 0x1_0000_0000_0000_0000 + low) * pow2(1074)
            == 0x1_0000_0000_0000_0000 * num * pow2((1 - exponent) as nat),
    ensures
        is_negative(r) == (product_sign != 0),
        is_nearest_even(num, pow2(1074), abs_of(r)),
{
    let ghost wide: int = high * 0x1_0000_0000_0000_0000 + low;
    let ghost den = pow2(1074);
    let ghost n = num as int;
    proof {
        lemma_product_bits(high, low, product_sign, 0);
        lemma_pow2_pos(1074);
        lemma2_to64();
        lemma2_to64_rest();
    }
    // If we have overflowed the type, return +/- infinity.
    if exponent >= 2047 {
        proof {
            let u = pow2(2045) as int;
            let up = pow2((exponent - 1) as nat) as int;
            lemma_pow2_adds(1, 2045);
            lemma_pow2_pos(2045);
            if exponent - 1 > 2046 {
                lemma_pow2_strictly_increases(2046, (exponent - 1) as nat);
            }
            assert(up >= 2 * u);
            assert(wide * up * den >= 0x0010_0000_0000_0000 * 0x1_0000_0000_0000_0000 * (2 * u)
                * den) by (nonlinear_arith)
                requires
                    wide >= 0x0010_0000_0000_0000 * 0x1_0000_0000_0000_0000,
                    up >= 2 * u,
                    u > 0,
                    den > 0,
            ;
            assert(2 * n >= 0x003f_ffff_ffff_ffff * u * den) by (nonlinear_arith)
                requires
                    0x1_0000_0000_0000_0000 * n >= 0x0010_0000_0000_0000
                        * 0x1_0000_0000_0000_0000 * (2 * u) * den,
                    u > 0,
                    den > 0,
            ;
            lemma_beyond_largest(num, den);
        }
        return SoftF64::EXPONENT_MASK | product_sign;
    }
    let mut product_high: u64 = high;
    let mut product_low: u64 = low;
    if exponent <= 0 {
        // The result is subnormal before rounding. If it is so small that it
        // just underflows to zero, return a zero of the appropriate sign.
        let shift: u32 = (1 - exponent) as u32;
        if shift >= 64 {
            proof {
                let ps = pow2(shift as nat) as int;
                if shift > 64 {
                    lemma_pow2_strictly_increases(64, shift as nat);
                }
                assert(2 * n <= den) by (nonlinear_arith)
                    requires
                        wide * den == 0x1_0000_0000_0000_0000 * n * ps,
                        ps >= 0x1_0000_0000_0000_0000,
                        0 <= wide < 0x0020_0000_0000_0000 * 0x1_0000_0000_0000_0000,
                        den > 0,
                        n >= 0,
                ;
                lemma_below_smallest(num, den);
            }
            return product_sign;
        }
        // Otherwise, shift the significand of the result so that the round
        // bit is the high bit of the low word.
        let shifted = wide_shift_right_jam(product_high, product_low, shift);
        product_high = shifted.0;
        product_low = shifted.1;
        proof {
            let ps = pow2(shift as nat) as int;
            let z = jam(wide, ps);
            lemma_pow2_pos(shift as nat);
            lemma_jam_approximates(wide, ps);
            lemma_approximates_scaled(z, wide, ps, 1, den as int);
            assert(wide * den == (0x1_0000_0000_0000_0000 * n) * ps) by (nonlinear_arith)
                requires
                    wide * den == 0x1_0000_0000_0000_0000 * n * ps,
            ;
            assert(ps * den == den * ps) by (nonlinear_arith);
            lemma_approximates_scaled(z, 0x1_0000_0000_0000_0000 * n, den as int, 1, ps);
            assert(approximates(z, 0x1_0000_0000_0000_0000 * n, den as int, 1));
            if shift > 1 {
                lemma_pow2_strictly_increases(1, shift as nat);
            }
            lemma_div_is_ordered_by_denominator(wide, 2, ps);
            assert(z < 0x0010_0000_0000_0000 * 0x1_0000_0000_0000_0000);
            assert(pow2(0) * den == den) by (nonlinear_arith)
                requires
                    pow2(0) == 1,
            ;
            lemma_round_with_tail(
                1,
                product_high as int,
                product_low as int,
                0x1_0000_0000_0000_0000,
                1,
                num,
                den,
            );
            lemma_product_bits(product_high, product_low, product_sign, 0);
        }
    } else {
        proof {
            let up = pow2((exponent - 1) as nat) as int;
            assert(wide * (up * den) == wide * up * den) by (nonlinear_arith);
            lemma_round_with_tail(
                exponent as int,
                high as int,
                low as int,
                0x1_0000_0000_0000_0000,
                1,
                num,
                den,
            );
            lemma_product_bits(high, low, product_sign, exponent as u64);
        }
        // The result is normal before rounding; insert the exponent.
        product_high &= SoftF64::SIGNIFICAND_MASK;
        product_high |= (exponent as u64) << 52;
    }
    // Insert the sign of the result.
    product_high |= product_sign;
    // Final rounding. The result may overflow to infinity, or underflow to
    // zero, but those are the correct results in those cases.
    if product_low > SoftF64::SIGN_MASK {
        product_high += 1;
    }
    if product_low == SoftF64::SIGN_MASK {
        product_high += product_high & 1;
    }
    product_high
}

/// How the normalized 128-bit product relates to the exact product of the
/// two magnitudes, for a product shifted left by `c` places (zero or one).
proof fn lemma_product_scale(
    va: int,
    vb: int,
    ma: int,
    mb: int,
    ea: nat,
    eb: nat,
    wide: int,
    c: int,
    pe: int,
)
    requires
        va * 0x0010_0000_0000_0000 == ma * pow2(ea),
        vb * 0x0010_0000_0000_0000 == mb * pow2(eb),
        c == 0 || c == 1,
        wide == ma * mb * (if c == 0 { 2048int } else { 4096int }),
        pe == ea + eb - 1124 - c,
    ensures
        pe >= 1 ==> wide * pow2((pe - 1) as nat) * pow2(1074) == 0x1_0000_0000_0000_0000 * (va
            * vb),
        pe <= 0 ==> wide * pow2(1074) == 0x1_0000_0000_0000_0000 * (va * vb) * pow2(
            (1 - pe) as nat,
        ),
{
    let x = va * vb;
    let m = ma * mb;
    let pa = pow2(ea) as int;
    let pb = pow2(eb) as int;
    let s = pow2(ea + eb) as int;
    let den = pow2(1074) as int;
    let w = pow2((51 + c) as nat) as int;
    let k = if c == 0 { 2048int } else { 4096int };
    lemma_pow2_adds(ea, eb);
    lemma2_to64();
    lemma2_to64_rest();
    assert(w == (if c == 0 { 0x0008_0000_0000_0000int } else { 0x0010_0000_0000_0000int }));
    let left = (va * 0x0010_0000_0000_0000) * (vb * 0x0010_0000_0000_0000);
    assert(left == (ma * pa) * (mb * pb));
    assert(left == x * 0x100_0000_0000_0000_0000_0000_0000) by (nonlinear_arith)
        requires
            left == (va * 0x0010_0000_0000_0000) * (vb * 0x0010_0000_0000_0000),
            x == va * vb,
    ;
    assert((ma * pa) * (mb * pb) == m * s) by (nonlinear_arith)
        requires
            m == ma * mb,
            s == pa * pb,
    ;
    assert(x * 0x100_0000_0000_0000_0000_0000_0000 == m * s);
    if pe >= 1 {
        let up = pow2((pe - 1) as nat) as int;
        lemma_pow2_adds((pe - 1) as nat, 1074);
        lemma_pow2_adds((pe - 1 + 1074) as nat, (51 + c) as nat);
        assert(s == up * den * w);
        let mq = m * (up * den);
        assert(m * s == mq * w) by (nonlinear_arith)
            requires
                s == up * den * w,
                mq == m * (up * den),
        ;
        assert(wide * up * den == k * mq) by (nonlinear_arith)
            requires
                wide == m * k,
                mq == m * (up * den),
        ;
    } else {
        let ps = pow2((1 - pe) as nat) as int;
        lemma_pow2_adds(ea + eb, (1 - pe) as nat);
        lemma_pow2_adds(1074, (51 + c) as nat);
        assert(s * ps == den * w);
        let xs = x * ps;
        let md = m * den;
        assert(xs * 0x100_0000_0000_0000_0000_0000_0000 == md * w) by (nonlinear_arith)
            requires
                x * 0x100_0000_0000_0000_0000_0000_0000 == m * s,
                s * ps == den * w,
                xs == x * ps,
                md == m * den,
        ;
        assert(wide * den == k * md) by (nonlinear_arith)
            requires
                wide == m * k,
                md == m * den,
        ;
        assert(0x1_0000_0000_0000_0000 * x * ps == 0x1_0000_0000_0000_0000 * xs)
            by (nonlinear_arith)
            requires
                xs == x * ps,
        ;
    }
}

/// Multiplies two finite, nonzero values.
fn mul_finite(a_rep: u64, b_rep: u64) -> (r: u64)
    requires
        !is_zero(a_rep),
        is_finite(a_rep),
        !is_zero(b_rep),
        is_finite(b_rep),
    ensures
        is_rounded_product(a_rep, b_rep, r),
{
    proof {
        lemma_field_masks(a_rep);
        lemma_field_masks(b_rep);
        lemma_sign_bits(a_rep, b_rep);
        lemma2_to64();
        lemma2_to64_rest();
    }
    let product_sign: u64 = (a_rep ^ b_rep) & SoftF64::SIGN_MASK;
    // Subnormal operands are brought into normal form, with the exponent
    // that goes with it.
    let (a_exponent, a_significand) = SoftF64::unpack(a_rep);
    let (b_exponent, b_significand) = SoftF64::unpack(b_rep);
    proof {
        lemma_u64_shl_is_mul(b_significand, 11);
    }
    // Get the significand of a*b. Before multiplying the significands, shift
    // one of them left to left-align it in the field. Thus, the product will
    // have (exponent bits + 2) integral digits, all but two of which must be
    // zero. Normalizing this result is just a conditional left-shift by one
    // and bumping the exponent accordingly.
    let (low, high) = u64_widen_mul(a_significand, b_significand << 11);
    let mut product_low: u64 = low;
    let mut product_high: u64 = high;
    let mut product_exponent: i32 = a_exponent + b_exponent - 1023;
    let ghost ma = a_significand as int;
    let ghost mb = b_significand as int;
    proof {
        let shifted = mb * 2048;
        assert(ma * shifted == ma * mb * 2048) by (nonlinear_arith)
            requires
                shifted == mb * 2048,
        ;
        assert(0x0010_0000_0000_0000 * 0x0010_0000_0000_0000 * 2048 <= ma * mb * 2048 && ma * mb
            * 2048 < 0x0020_0000_0000_0000 * 0x0020_0000_0000_0000 * 2048) by (nonlinear_arith)
            requires
                0x0010_0000_0000_0000 <= ma < 0x0020_0000_0000_0000,
                0x0010_0000_0000_0000 <= mb < 0x0020_0000_0000_0000,
        ;
        lemma_product_bits(high, low, product_sign, 0);
    }
    let ghost c: int = 1;
    // Normalize the significand, adjust the exponent if needed.
    if (product_high & SoftF64::IMPLICIT_BIT) != 0 {
        product_exponent = product_exponent + 1;
        proof {
            c = 0;
        }
    } else {
        product_high = (product_high << 1) | (product_low >> 63);
        product_low = product_low << 1;
    }
    proof {
        lemma_product_scale(
            magnitude(a_rep) as int,
            magnitude(b_rep) as int,
            ma,
            mb,
            (a_exponent + 51) as nat,
            (b_exponent + 51) as nat,
            product_high * 0x1_0000_0000_0000_0000 + product_low,
            c,
            product_exponent as int,
        );
        assert(0x1_0000_0000_0000_0000 * (magnitude(a_rep) as int * magnitude(b_rep) as int)
            == 0x1_0000_0000_0000_0000 * (magnitude(a_rep) * magnitude(b_rep)));
    }
    finish_product(
        product_sign,
        product_exponent,
        product_high,
        product_low,
        Ghost(magnitude(a_rep) * magnitude(b_rep)),
    )
}

proof fn lemma_sign_bits(a: u64, b: u64)
    by (bit_vector)
    ensures
        (a ^ b) & 0x8000_0000_0000_0000 == (if (a >= 0x8000_0000_0000_0000) != (b
            >= 0x8000_0000_0000_0000) {
            0x8000_0000_0000_0000u64
        } else {
            0u64
        }),
        a >= 0x8000_0000_0000_0000 ==> (a & 0x7fff_ffff_ffff_ffff) | 0x8000_0000_0000_0000 == a,
        0x7ff0_0000_0000_0000u64 | 0x0008_0000_0000_0000u64 == 0x7ff8_0000_0000_0000u64,
        0x7ff0_0000_0000_0000u64 | 0x8000_0000_0000_0000u64 == 0xfff0_0000_0000_0000u64,
        0x7ff0_0000_0000_0000u64 | 0u64 == 0x7ff0_0000_0000_0000u64,
        0x0010_0000_0000_0000u64 >> 1 == 0x0008_0000_0000_0000u64,
{
}

impl SoftF64 {
    /// The product of two values, rounded to nearest, ties to even.
    pub fn mul(self, rhs: Self) -> (r: Self)
        ensures
            is_product(self.0, rhs.0, r.0),
    {
        let a_rep: u64 = self.repr();
        let b_rep: u64 = rhs.repr();
        let inf_rep: u64 = Self::EXPONENT_MASK;
        let quiet_bit: u64 = Self::IMPLICIT_BIT >> 1;
        let qnan_rep: u64 = Self::EXPONENT_MASK | quiet_bit;
        let a_exponent: u64 = (a_rep >> 52) & 0x7ff;
        let b_exponent: u64 = (b_rep >> 52) & 0x7ff;
        let product_sign: u64 = (a_rep ^ b_rep) & Self::SIGN_MASK;
        proof {
            lemma_field_masks(a_rep);
            lemma_field_masks(b_rep);
            lemma_sign_bits(a_rep, b_rep);
        }
        // Detect if a or b is zero, denormal, infinity, or NaN.
        if a_exponent.wrapping_sub(1) >= 2046 || b_exponent.wrapping_sub(1) >= 2046 {
            let a_abs: u64 = a_rep & 0x7fff_ffff_ffff_ffff;
            let b_abs: u64 = b_rep & 0x7fff_ffff_ffff_ffff;
            // NaN * anything = qNaN
            if a_abs > inf_rep {
                return Self::from_repr(a_rep | quiet_bit);
            }
            // anything * NaN = qNaN
            if b_abs > inf_rep {
                return Self::from_repr(b_rep | quiet_bit);
            }
            if a_abs == inf_rep {
                if b_abs != 0 {
                    // infinity * non-zero = +/- infinity
                    return Self::from_repr(a_abs | product_sign);
                } else {
                    // infinity * zero = NaN
                    return Self::from_repr(qnan_rep);
                }
            }
            if b_abs == inf_rep {
                if a_abs != 0 {
                    // infinity * non-zero = +/- infinity
                    return Self::from_repr(b_abs | product_sign);
                } else {
                    // infinity * zero = NaN
                    return Self::from_repr(qnan_rep);
                }
            }
            // zero * anything = +/- zero
            if a_abs == 0 || b_abs == 0 {
                proof {
                    assert(magnitude(a_rep) * magnitude(b_rep) == 0) by (nonlinear_arith)
                        requires
                            magnitude(a_rep) == 0 || magnitude(b_rep) == 0,
                    ;
                    lemma_below_smallest(0, pow2(1074));
                }
                return Self::from_repr(product_sign);
            }
        }
        Self::from_repr(mul_finite(a_rep, b_rep))
    }
}

} // verus!
