//! Addition and subtraction.

use vstd::prelude::*;
use vstd::arithmetic::power2::pow2;
use vstd::arithmetic::power2::lemma_pow2_adds;
use vstd::arithmetic::power2::lemma_pow2_pos;
use vstd::arithmetic::power2::lemma_pow2_strictly_increases;
use vstd::arithmetic::power2::lemma2_to64;
use vstd::arithmetic::power2::lemma2_to64_rest;
use vstd::arithmetic::div_mod::lemma_div_is_ordered_by_denominator;
use vstd::arithmetic::div_mod::lemma_fundamental_div_mod;
use crate::rounding::is_nearest_even;
use crate::rounding::packed;
use crate::rounding::lemma_beyond_largest;
use crate::rounding::lemma_round_with_tail;
use crate::soft_f64::SoftF64;
use crate::soft_f64::abs_of;
use crate::soft_f64::is_negative;
use crate::soft_f64::magnitude;
use crate::soft_f64::is_nan;
use crate::soft_f64::is_infinite;
use crate::soft_f64::quieted;
use crate::soft_f64::canonical_nan;
use crate::rounding::lemma_exact_is_nearest;
use crate::soft_f64::signed_value;
use crate::soft_f64::is_zero;
use crate::soft_f64::is_finite;
use crate::soft_f64::lemma_field_masks;
use crate::soft_f64::lemma_leading_shift;
use crate::rounding::lemma_magnitude_monotonic;
use crate::sticky::lemma_approximates_offset;
use vstd::bits::lemma_u64_shl_is_mul;
use crate::sticky::approximates;
use crate::sticky::lemma_approximates_scaled;
use crate::sticky::lemma_jam_approximates;
use crate::sticky::lemma_jam_of_approximation;
use crate::sticky::shift_right_jam;

verus! {

/// Shifts the smaller operand's significand right by the difference of the
/// exponents. What is lost is kept as a sticky bit; a shift by the word's
/// width or more leaves the sticky bit alone.
fn align_operand(significand: u64, align: u64) -> (r: u64)
    requires
        significand % 8 == 0,
        0x0080_0000_0000_0000 <= significand < 0x0100_0000_0000_0000,
    ensures
        approximates(r as int, significand as int, pow2(align as nat) as int, 1),
        r <= significand,
        align >= 1 ==> r < 0x0080_0000_0000_0000,
        align >= 4 ==> r <= 0x0010_0000_0000_0000,
        align <= 3 ==> r * pow2(align as nat) == significand,
{
    proof {
        lemma2_to64();
        lemma2_to64_rest();
        lemma_pow2_pos(align as nat);
    }
    if align == 0 {
        assert(significand * 1 == significand);
        significand
    } else if align < 64 {
        let r = shift_right_jam(significand, align as u32);
        proof {
            let x = significand as int;
            let d = pow2(align as nat) as int;
            lemma_jam_approximates(x, d);
            lemma_fundamental_div_mod(x, d);
            assert(d >= 2) by {
                if align > 1 {
                    lemma_pow2_strictly_increases(1, align as nat);
                }
            }
            lemma_div_is_ordered_by_denominator(x, 2, d);
            if align >= 4 {
                assert(d >= 16) by {
                    if align > 4 {
                        lemma_pow2_strictly_increases(4, align as nat);
                    }
                }
                lemma_div_is_ordered_by_denominator(x, 16, d);
            } else {
                assert(d == 2 || d == 4 || d == 8);
                assert(x % d == 0);
                assert(d * (x / d) == (x / d) * d) by (nonlinear_arith);
            }
        }
        r
    } else {
        proof {
            lemma_pow2_strictly_increases(56, align as nat);
            assert(0 * pow2(align as nat) == 0);
            assert(2 * pow2(align as nat) > significand);
        }
        1
    }
}

/// Where the exponent has run past the largest finite one, the exact value
/// is at or beyond the midpoint between the largest finite value and 2^1024.
proof fn lemma_overflow_is_infinite(e: int, z: int, g: int, total: nat)
    requires
        e >= 2047,
        z >= 0x0080_0000_0000_0000,
        g == 1 || g == 2,
        approximates(z, (total * 0x0080_0000_0000_0000) as int, pow2((e + 51) as nat) as int, g),
    ensures
        is_nearest_even(total, 1, SoftF64::EXPONENT_MASK),
{
    let u = pow2(2045) as int;
    let big = pow2((e + 51) as nat) as int;
    lemma2_to64_rest();
    lemma_pow2_adds(53, 2045);
    lemma_pow2_pos(2045);
    if e + 51 > 2098 {
        lemma_pow2_strictly_increases(2098, (e + 51) as nat);
    }
    assert(big >= 0x0020_0000_0000_0000 * u);
    let t = total as int;
    assert((z - g) * big >= 0x007f_ffff_ffff_fffe * (0x0020_0000_0000_0000 * u))
        by (nonlinear_arith)
        requires
            z - g >= 0x007f_ffff_ffff_fffe,
            big >= 0x0020_0000_0000_0000 * u,
            u > 0,
    ;
    assert(z * big >= (z - g) * big) by (nonlinear_arith)
        requires
            g > 0,
            big > 0,
    ;
    assert(t * 0x0080_0000_0000_0000 >= 0x007f_ffff_ffff_fffe * (0x0020_0000_0000_0000 * u));
    assert(2 * t >= 0x003f_ffff_ffff_ffff * u) by (nonlinear_arith)
        requires
            t * 0x0080_0000_0000_0000 >= 0x007f_ffff_ffff_fffe * (0x0020_0000_0000_0000 * u),
    ;
    assert(0x003f_ffff_ffff_ffff * u * 1 == 0x003f_ffff_ffff_ffff * u);
    lemma_beyond_largest(total, 1);
}

proof fn lemma_pack_bits(sig: u64, exp: u64, sign: u64)
    by (bit_vector)
    requires
        sig < 0x0100_0000_0000_0000,
        exp <= 2046,
        sign == 0 || sign == 0x8000_0000_0000_0000,
    ensures
        ((sig >> 3) & 0x000f_ffff_ffff_ffff) | (exp << 52) | sign == sign + exp
            * 0x0010_0000_0000_0000 + ((sig >> 3) & 0x000f_ffff_ffff_ffff),
        (((sig >> 3) & 0x000f_ffff_ffff_ffff) | (exp << 52) | sign) & 1 == (sig / 8) % 2,
        (sig >> 3) & 0x000f_ffff_ffff_ffff == (if sig >= 0x0080_0000_0000_0000 {
            (sig / 8 - 0x0010_0000_0000_0000) as u64
        } else {
            sig / 8
        }),
        sig & 7 == sig % 8,
        0x7ff0_0000_0000_0000 | sign == 0x7ff0_0000_0000_0000 + sign,
{
}

/// The last steps of an addition: overflow to infinity, the shift into the
/// subnormal range, and rounding by the three guard bits.
///
/// `total` is the exact size of the sum in units of 2^-1074. The significand
/// carries three guard bits and stands for `total * 8 / 2^(exponent - 1)`.
fn finish_sum(
    result_sign: u64,
    exponent: i32,
    significand: u64,
    Ghost(total): Ghost<nat>,
    Ghost(g): Ghost<int>,
) -> (r: u64)
    requires
        result_sign == 0 || result_sign == SoftF64::SIGN_MASK,
        -51 <= exponent <= 2047,
        0x0080_0000_0000_0000 <= significand < 0x0100_0000_0000_0000,
        g == 1 || g == 2,
        approximates(
            significand as int,
            (total * 0x0080_0000_0000_0000) as int,
            pow2((exponent + 51) as nat) as int,
            g,
        ),
    ensures
        is_negative(r) == (result_sign != 0),
        is_nearest_even(total, 1, abs_of(r)),
{
    proof {
        lemma_pack_bits(0, 0, result_sign);
    }
    if exponent >= 2047 {
        proof {
            lemma_overflow_is_infinite(exponent as int, significand as int, g, total);
        }
        return SoftF64::EXPONENT_MASK | result_sign;
    }
    let mut sig = significand;
    let mut exp = exponent;
    let ghost e: int = if exponent <= 0 { 1 } else { exponent as int };
    let ghost gg: int = if exponent <= 0 { 1 } else { g };
    let ghost total55 = (total * 0x0080_0000_0000_0000) as int;
    proof {
        lemma2_to64();
        lemma2_to64_rest();
    }
    if exponent <= 0 {
        // The result is subnormal before rounding.
        let shift: u32 = (1 - exponent) as u32;
        sig = shift_right_jam(sig, shift);
        exp = 0;
        proof {
            let d = pow2(shift as nat) as int;
            let before = pow2((exponent + 51) as nat) as int;
            lemma_pow2_pos(shift as nat);
            lemma_pow2_pos((exponent + 51) as nat);
            if shift >= 2 {
                lemma_pow2_adds(2, (shift - 2) as nat);
            }
            lemma_jam_of_approximation(significand as int, total55, before, g, d);
            lemma_pow2_adds((exponent + 51) as nat, shift as nat);
            lemma_jam_approximates(significand as int, d);
            if shift > 1 {
                lemma_pow2_strictly_increases(1, shift as nat);
            }
            lemma_div_is_ordered_by_denominator(significand as int, 2, d);
        }
    }
    proof {
        let u = pow2((e - 1) as nat) as int;
        lemma_pow2_adds((e - 1) as nat, 52);
        lemma_pow2_pos((e - 1) as nat);
        assert(total55 == (8 * total) * 0x0010_0000_0000_0000);
        lemma_approximates_scaled(sig as int, (8 * total) as int, u, gg, 0x0010_0000_0000_0000);
        assert(u * 1 == u);
        lemma_round_with_tail(e, sig as int / 8, sig as int % 8, 8, gg, total, 1);
        lemma_pack_bits(sig, exp as u64, result_sign);
    }
    // The low three bits are round, guard and sticky.
    let round_guard_sticky: u64 = sig & 0x7;
    // Shift the significand into place, and mask off the implicit bit.
    let mut result: u64 = (sig >> 3) & SoftF64::SIGNIFICAND_MASK;
    // Insert the exponent and the sign.
    result |= (exp as u64) << 52;
    result |= result_sign;
    assert(result == result_sign + packed(e, sig as int / 8));
    // Final rounding. A carry out of the significand moves into the exponent,
    // up to infinity, which is then the right result.
    if round_guard_sticky > 0x4 {
        result += 1;
    }
    if round_guard_sticky == 0x4 {
        result += result & 1;
    }
    result
}

/// What addition owes for two finite operands: the exact sum is taken in
/// units of 2^-1074 and rounded to the nearest encoding, ties to even. An
/// exact zero is negative only when both operands are negative.
pub open spec fn is_rounded_sum(a: u64, b: u64, r: u64) -> bool {
    let s = signed_value(a) + signed_value(b);
    if s == 0 {
        r == (if is_negative(a) && is_negative(b) {
            SoftF64::SIGN_MASK
        } else {
            0
        })
    } else {
        &&& is_negative(r) == (s < 0)
        &&& is_nearest_even((if s < 0 { -s } else { s }) as nat, 1, abs_of(r))
    }
}

proof fn lemma_sum_bits(a: u64, b: u64, z: u64)
    by (bit_vector)
    requires
        z < 0x0200_0000_0000_0000,
    ensures
        ((a ^ b) & 0x8000_0000_0000_0000 != 0) == ((a >= 0x8000_0000_0000_0000) != (b
            >= 0x8000_0000_0000_0000)),
        (z & 0x0100_0000_0000_0000 != 0) == (z >= 0x0100_0000_0000_0000),
{
}

/// Of two significands in normal form with their exponents, the larger value
/// has the larger exponent, or the same exponent and the larger significand.
proof fn lemma_unpacked_order(ma: int, ea: nat, mb: int, eb: nat)
    requires
        0x0010_0000_0000_0000 <= ma < 0x0020_0000_0000_0000,
        0x0010_0000_0000_0000 <= mb < 0x0020_0000_0000_0000,
        ma * pow2(ea) >= mb * pow2(eb),
    ensures
        ea >= eb,
        ea == eb ==> ma >= mb,
{
    lemma_pow2_pos(ea);
    lemma_pow2_pos(eb);
    let pa = pow2(ea) as int;
    let pb = pow2(eb) as int;
    if ea < eb {
        lemma_pow2_adds(1, ea);
        lemma2_to64();
        if ea + 1 < eb {
            lemma_pow2_strictly_increases(ea + 1, eb);
        }
        assert(2 * pa <= pb);
        assert(ma * pa < mb * pb) by (nonlinear_arith)
            requires
                ma < 0x0020_0000_0000_0000,
                0x0010_0000_0000_0000 <= mb,
                2 * pa <= pb,
                pa > 0,
        ;
    } else if ea == eb {
        assert(ma >= mb) by (nonlinear_arith)
            requires
                ma * pa >= mb * pa,
                pa > 0,
        ;
    }
}

/// A nonzero approximation stands for a nonzero quotient, and zero for zero.
proof fn lemma_approximates_zero(z: int, num: int, den: int)
    by (nonlinear_arith)
    requires
        z >= 0,
        num >= 0,
        den > 0,
        approximates(z, num, den, 1),
    ensures
        z == 0 <==> num == 0,
{
}

/// After a subtraction has cancelled leading bits, shifting the difference
/// back up keeps it an approximation of the exact difference. More than one
/// bit is cancelled only where the difference is exact.
proof fn lemma_cancellation(z: int, total55: int, e: nat, shift: nat)
    requires
        z > 0,
        total55 >= 0x0080_0000_0000_0000,
        shift >= 1,
        z * pow2(shift) < 0x0100_0000_0000_0000,
        approximates(z, total55, pow2(e) as int, 1),
        z * pow2(e) != total55 ==> shift == 1 && e >= 1,
    ensures
        shift <= e,
        approximates(z * pow2(shift), total55, pow2((e - shift) as nat) as int, 2),
{
    let ps = pow2(shift) as int;
    let pe = pow2(e) as int;
    lemma_pow2_pos(shift);
    lemma_pow2_pos(e);
    lemma2_to64();
    if z * pe == total55 {
        if shift > e {
            lemma_pow2_adds(e, (shift - e) as nat);
            lemma_pow2_adds(1, (shift - e - 1) as nat);
            lemma_pow2_pos((shift - e - 1) as nat);
            let rest = pow2((shift - e) as nat) as int;
            assert(rest >= 2) by (nonlinear_arith)
                requires
                    rest == 2 * pow2((shift - e - 1) as nat),
                    pow2((shift - e - 1) as nat) > 0,
            ;
            assert(z * ps >= 0x0100_0000_0000_0000) by (nonlinear_arith)
                requires
                    ps == pe * rest,
                    rest >= 2,
                    z * pe >= 0x0080_0000_0000_0000,
            ;
        }
        lemma_pow2_adds(shift, (e - shift) as nat);
        assert((z * ps) * pow2((e - shift) as nat) == z * pe) by (nonlinear_arith)
            requires
                pe == ps * pow2((e - shift) as nat),
        ;
    } else {
        lemma_pow2_adds(1, (e - 1) as nat);
        let low = pow2((e - 1) as nat) as int;
        assert(pe == 2 * low);
        assert(shift == 1);
        assert(ps == 2);
        assert(z * ps == 2 * z) by (nonlinear_arith)
            requires
                ps == 2,
        ;
        assert(z % 2 == 1);
        assert((2 * z) % 4 == 2);
        assert((2 * z - 2) * low == (z - 1) * pe && (2 * z + 2) * low == (z + 1) * pe)
            by (nonlinear_arith)
            requires
                pe == 2 * low,
        ;
    }
}

/// Adds two finite, nonzero values.
fn add_finite(a_bits: u64, b_bits: u64) -> (r: u64)
    requires
        !is_zero(a_bits),
        is_finite(a_bits),
        !is_zero(b_bits),
        is_finite(b_bits),
    ensures
        is_rounded_sum(a_bits, b_bits, r),
{
    proof {
        lemma_field_masks(a_bits);
        lemma_field_masks(b_bits);
        lemma2_to64();
        lemma2_to64_rest();
    }
    let a_abs: u64 = a_bits & 0x7fff_ffff_ffff_ffff;
    let b_abs: u64 = b_bits & 0x7fff_ffff_ffff_ffff;
    let mut a_rep: u64 = a_bits;
    let mut b_rep: u64 = b_bits;
    // Swap the operands if necessary so that `a` has the larger absolute value.
    if b_abs > a_abs {
        a_rep = b_bits;
        b_rep = a_bits;
    }
    // The exponent and significand of both, subnormal values in normal form.
    let (a_exponent, a_mantissa) = SoftF64::unpack(a_rep);
    let (b_exponent, b_mantissa) = SoftF64::unpack(b_rep);
    let ghost va = magnitude(a_rep) as int;
    let ghost vb = magnitude(b_rep) as int;
    let ghost ea = (a_exponent + 51) as nat;
    let ghost eb = (b_exponent + 51) as nat;
    proof {
        assert(magnitude(a_rep) == magnitude(abs_of(a_rep)));
        assert(magnitude(b_rep) == magnitude(abs_of(b_rep)));
        lemma_magnitude_monotonic(abs_of(b_rep), abs_of(a_rep));
        lemma_magnitude_monotonic(0, abs_of(b_rep));
        assert(magnitude(0) == 0);
        assert(va * pow2(52) >= vb * pow2(52)) by (nonlinear_arith)
            requires
                va >= vb,
        ;
        lemma_unpacked_order(a_mantissa as int, ea, b_mantissa as int, eb);
        lemma_field_masks(a_rep);
        lemma_sum_bits(a_rep, b_rep, 0);
        lemma_u64_shl_is_mul(a_mantissa, 3);
        lemma_u64_shl_is_mul(b_mantissa, 3);
    }
    // The sign of the result is the sign of the larger operand. If the signs
    // differ this is a subtraction, otherwise an addition.
    let result_sign: u64 = a_rep & SoftF64::SIGN_MASK;
    let subtraction: bool = ((a_rep ^ b_rep) & SoftF64::SIGN_MASK) != 0;
    // Make room for round, guard and sticky below the significands.
    let mut a_significand: u64 = a_mantissa << 3;
    // Shift the significand of `b` by the difference in exponents, with a
    // sticky bottom bit to get the rounding right.
    let align: u64 = a_exponent.wrapping_sub(b_exponent) as u64;
    let b_significand: u64 = align_operand(b_mantissa << 3, align);
    let mut exponent: i32 = a_exponent;
    let ghost d = align as nat;
    let ghost total: int = if subtraction { va - vb } else { va + vb };
    let ghost total55 = total * 0x0080_0000_0000_0000;
    let ghost g: int = 1;
    proof {
        let pd = pow2(d) as int;
        let pb = pow2(eb) as int;
        let am = a_mantissa as int;
        let bm = b_mantissa as int;
        lemma_pow2_pos(d);
        lemma_pow2_pos(eb);
        lemma_pow2_adds(d, eb);
        lemma_approximates_offset(8 * am, b_significand as int, 8 * bm, pd);
        let exact8 = if subtraction { 8 * am * pd - 8 * bm } else { 8 * am * pd + 8 * bm };
        let combined = if subtraction { 8 * am - b_significand } else { 8 * am + b_significand };
        assert(approximates(combined, exact8, pd, 1));
        lemma_approximates_scaled(combined, exact8, pd, 1, pb);
        assert(exact8 * pb == total55) by (nonlinear_arith)
            requires
                exact8 == (if subtraction { 8 * am * pd - 8 * bm } else { 8 * am * pd + 8 * bm }),
                total55 == total * 0x0080_0000_0000_0000,
                total == (if subtraction { va - vb } else { va + vb }),
                va * 0x0010_0000_0000_0000 == am * (pd * pb),
                vb * 0x0010_0000_0000_0000 == bm * pb,
        ;
        assert(approximates(combined, total55, pow2(ea) as int, 1));
        if align <= 3 {
            assert(combined * pd == exact8) by (nonlinear_arith)
                requires
                    b_significand * pd == 8 * bm,
                    combined == (if subtraction { 8 * am - b_significand } else { 8 * am + b_significand }),
                    exact8 == (if subtraction { 8 * am * pd - 8 * bm } else { 8 * am * pd + 8 * bm }),
            ;
            assert(combined * pow2(ea) == total55) by (nonlinear_arith)
                requires
                    combined * pd == exact8,
                    exact8 * pb == total55,
                    pow2(ea) == pd * pb,
            ;
        }
        lemma_pow2_pos(ea);
        assert(total >= 0 && combined >= 0);
        lemma_approximates_zero(combined, total55, pow2(ea) as int);
    }
    if subtraction {
        a_significand = a_significand.wrapping_sub(b_significand);
        // If a == -b, return +zero.
        if a_significand == 0 {
            return 0;
        }
        // If partial cancellation occurred, we need to left-shift the result
        // and adjust the exponent.
        if a_significand < 0x0080_0000_0000_0000 {
            let zeros: u32 = a_significand.leading_zeros();
            proof {
                lemma_leading_shift(a_significand, 8);
                let shift = (zeros - 8) as nat;
                if align >= 4 {
                    if shift >= 2 {
                        lemma_pow2_adds(2, (shift - 2) as nat);
                        lemma_pow2_pos((shift - 2) as nat);
                        assert(a_significand * pow2(shift) >= 0x0100_0000_0000_0000)
                            by (nonlinear_arith)
                            requires
                                pow2(shift) == 4 * pow2((shift - 2) as nat),
                                pow2((shift - 2) as nat) > 0,
                                a_significand >= 0x0040_0000_0000_0000,
                        ;
                    }
                }
                lemma_cancellation(a_significand as int, total55, ea, shift);
            }
            let shift: i32 = zeros as i32 - 8;
            a_significand = a_significand << (shift as u32);
            exponent = exponent - shift;
            proof {
                g = 2;
            }
        }
    } else {
        a_significand = a_significand + b_significand;
        // If the addition carried up, we need to right-shift the result and
        // adjust the exponent.
        proof {
            lemma_sum_bits(a_rep, b_rep, a_significand);
        }
        if a_significand & 0x0100_0000_0000_0000 != 0 {
            proof {
                lemma_pow2_pos(ea);
                lemma_jam_of_approximation(a_significand as int, total55, pow2(ea) as int, 1, 2);
                lemma_pow2_adds(ea, 1);
                lemma_jam_approximates(a_significand as int, 2);
            }
            a_significand = shift_right_jam(a_significand, 1);
            exponent = exponent + 1;
        }
    }
    finish_sum(result_sign, exponent, a_significand, Ghost(total as nat), Ghost(g))
}

/// What addition owes for any two operands.
///
/// A NaN operand comes back quiet and without its sign, the first operand
/// before the second. Infinities of opposite sign give the canonical NaN; an
/// infinity and anything else give that infinity. Two finite operands give
/// their exact sum, rounded.
pub open spec fn is_sum(a: u64, b: u64, r: u64) -> bool {
    if is_nan(a) {
        r == quieted(abs_of(a))
    } else if is_nan(b) {
        r == quieted(abs_of(b))
    } else if is_infinite(a) {
        if is_infinite(b) && is_negative(a) != is_negative(b) {
            r == canonical_nan()
        } else {
            r == a
        }
    } else if is_infinite(b) {
        r == b
    } else {
        is_rounded_sum(a, b, r)
    }
}

proof fn lemma_special_sum_bits(a: u64, b: u64)
    by (bit_vector)
    ensures
        (a ^ b == 0x8000_0000_0000_0000) == (a & 0x7fff_ffff_ffff_ffff == b
            & 0x7fff_ffff_ffff_ffff && (a >= 0x8000_0000_0000_0000) != (b
            >= 0x8000_0000_0000_0000)),
        (a & 0x7fff_ffff_ffff_ffff == 0 && b & 0x7fff_ffff_ffff_ffff == 0) ==> a & b == (if a
            >= 0x8000_0000_0000_0000 && b >= 0x8000_0000_0000_0000 {
            0x8000_0000_0000_0000u64
        } else {
            0u64
        }),
        0x7ff0_0000_0000_0000u64 | 0x0008_0000_0000_0000u64 == 0x7ff8_0000_0000_0000u64,
{
}

impl SoftF64 {
    /// The sum of two values, rounded to nearest, ties to even.
    pub fn add(self, rhs: Self) -> (r: Self)
        ensures
            is_sum(self.0, rhs.0, r.0),
    {
        let a_rep: u64 = self.repr();
        let b_rep: u64 = rhs.repr();
        let a_abs: u64 = a_rep & 0x7fff_ffff_ffff_ffff;
        let b_abs: u64 = b_rep & 0x7fff_ffff_ffff_ffff;
        let inf_rep: u64 = Self::EXPONENT_MASK;
        let quiet_bit: u64 = Self::IMPLICIT_BIT >> 1;
        proof {
            lemma_field_masks(a_rep);
            lemma_field_masks(b_rep);
            lemma_special_sum_bits(a_rep, b_rep);
            assert(0x0010_0000_0000_0000u64 >> 1 == 0x0008_0000_0000_0000u64) by (bit_vector);
        }
        // Detect if a or b is zero, infinity, or NaN.
        if a_abs.wrapping_sub(1) >= inf_rep - 1 || b_abs.wrapping_sub(1) >= inf_rep - 1 {
            // NaN + anything = qNaN
            if a_abs > inf_rep {
                return Self::from_repr(a_abs | quiet_bit);
            }
            // anything + NaN = qNaN
            if b_abs > inf_rep {
                return Self::from_repr(b_abs | quiet_bit);
            }
            if a_abs == inf_rep {
                if (a_rep ^ b_rep) == Self::SIGN_MASK {
                    // +/-infinity + -/+infinity = qNaN
                    return Self::from_repr(inf_rep | quiet_bit);
                } else {
                    // +/-infinity + anything remaining = +/-infinity
                    return self;
                }
            }
            // anything remaining + +/-infinity = +/-infinity
            if b_abs == inf_rep {
                return rhs;
            }
            // zero + anything = anything
            if a_abs == 0 {
                // but we need to get the sign right for zero + zero
                if b_abs == 0 {
                    return Self::from_repr(a_rep & b_rep);
                } else {
                    proof {
                        lemma_zero_plus(a_rep, b_rep);
                    }
                    return rhs;
                }
            }
            // anything + zero = anything
            if b_abs == 0 {
                proof {
                    lemma_zero_plus(b_rep, a_rep);
                }
                return self;
            }
        }
        Self::from_repr(add_finite(a_rep, b_rep))
    }

    /// The difference of two values: the sum of the first and the negated
    /// second.
    pub fn sub(self, rhs: Self) -> (r: Self)
        ensures
            is_sum(self.0, rhs.0 ^ Self::SIGN_MASK, r.0),
    {
        self.add(rhs.neg())
    }
}

/// A zero added to a nonzero finite value leaves that value.
proof fn lemma_zero_plus(zero: u64, x: u64)
    requires
        is_zero(zero),
        !is_zero(x),
        is_finite(x),
    ensures
        is_rounded_sum(zero, x, x),
        is_rounded_sum(x, zero, x),
{
    assert(magnitude(zero) == 0);
    assert(magnitude(x) == magnitude(abs_of(x)));
    lemma_magnitude_monotonic(0, abs_of(x));
    assert(magnitude(0) == 0);
    lemma_exact_is_nearest(abs_of(x));
}

} // verus!
