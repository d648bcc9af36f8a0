//! Division.

use vstd::prelude::*;
use vstd::arithmetic::power2::pow2;
use vstd::arithmetic::power2::lemma_pow2_adds;
use vstd::arithmetic::power2::lemma_pow2_pos;
use vstd::arithmetic::power2::lemma_pow2_strictly_increases;
use vstd::arithmetic::power2::lemma_pow2_unfold;
use vstd::arithmetic::power2::lemma2_to64;
use vstd::arithmetic::power2::lemma2_to64_rest;
use vstd::arithmetic::div_mod::lemma_fundamental_div_mod;
use vstd::arithmetic::div_mod::lemma_mod_bound;
use vstd::bits::lemma_u64_shl_is_mul;
use vstd::bits::lemma_u64_shr_is_div;
use crate::rounding::is_nearest_even;
use crate::rounding::packed;
use crate::rounding::lemma_below_smallest;
use crate::rounding::lemma_beyond_largest;
use crate::rounding::lemma_round_with_remainder;
use crate::soft_f64::SoftF64;
use crate::soft_f64::abs_of;
use crate::soft_f64::canonical_nan;
use crate::soft_f64::is_finite;
use crate::soft_f64::is_infinite;
use crate::soft_f64::is_nan;
use crate::soft_f64::is_negative;
use crate::soft_f64::is_zero;
use crate::soft_f64::lemma_field_masks;
use crate::soft_f64::magnitude;
use crate::soft_f64::quieted;
use crate::reciprocal::reciprocal_estimate;
use crate::widen::u64_widen_mul;

verus! {

/// What division owes for two finite operands with a nonzero divisor: the
/// exact quotient, rounded to the nearest encoding, ties to even, with the
/// sign of the operands' signs combined. The quotient of two magnitudes is a
/// plain ratio, so it is scaled back to units of 2^-1074.
pub open spec fn is_rounded_quotient(a: u64, b: u64, r: u64) -> bool {
    &&& is_negative(r) == (is_negative(a) != is_negative(b))
    &&& is_nearest_even(magnitude(a) * pow2(1074), magnitude(b), abs_of(r))
}

proof fn lemma_quotient_bits(q: u64, exp: u64, abs: u64, sign: u64)
    by (bit_vector)
    requires
        0x0010_0000_0000_0000 <= q < 0x0020_0000_0000_0000,
        exp <= 2046,
        abs <= 0x7ff0_0000_0000_0000,
        sign == 0 || sign == 0x8000_0000_0000_0000,
    ensures
        (q & 0x000f_ffff_ffff_ffff) | (exp << 52) == exp * 0x0010_0000_0000_0000 + (q
            - 0x0010_0000_0000_0000),
        abs | sign == abs + sign,
        abs & 1 == abs % 2,
        ((q & 0x000f_ffff_ffff_ffff) | (exp << 52)) & 1 == q % 2,
{
}

/// The last steps of a division: overflow to infinity, the shift into the
/// subnormal range or the flush to zero, and rounding by the remainder.
///
/// `quotient` is the quotient of `a * 2^52` by `b`, or one below it where
/// the remainder is less than half the divisor over. `num / den` is the
/// exact quotient of the two values in units of 2^-1074.
fn finish_quotient(
    quotient_sign: u64,
    written_exponent: i32,
    quotient: u64,
    a_significand: u64,
    b_significand: u64,
    Ghost(num): Ghost<nat>,
    Ghost(den): Ghost<nat>,
) -> (r: u64)
    requires
        quotient_sign == 0 || quotient_sign == SoftF64::SIGN_MASK,
        -3000 <= written_exponent <= 4000,
        0x0010_0000_0000_0000 <= quotient < 0x0020_0000_0000_0000,
        0x0010_0000_0000_0000 <= b_significand < 0x0020_0000_0000_0000,
        0x0010_0000_0000_0000 <= a_significand <= 2 * b_significand,
        quotient * b_significand <= a_significand * 0x0010_0000_0000_0000,
        2 * (a_significand * 0x0010_0000_0000_0000 - quotient * b_significand) < 3
            * b_significand,
        den > 0,
        written_exponent >= 1 ==> num * b_significand == a_significand * 0x0010_0000_0000_0000
            * (pow2((written_exponent - 1) as nat) * den),
        -52 <= written_exponent <= 0 ==> 2 * num * b_significand == a_significand * pow2(
            (52 + written_exponent) as nat,
        ) * den,
        written_exponent < -52 ==> 2 * num * b_significand * pow2(
            (-52 - written_exponent) as nat,
        ) == a_significand * den,
    ensures
        is_negative(r) == (quotient_sign != 0),
        is_nearest_even(num, den, abs_of(r)),
{
    let ghost q = quotient as int;
    let ghost a = a_significand as int;
    let ghost b = b_significand as int;
    let ghost n = num as int;
    let ghost k = den as int;
    let ghost whole: int = a * 0x0010_0000_0000_0000;
    proof {
        lemma2_to64();
        lemma2_to64_rest();
        lemma_quotient_bits(quotient, 0, 0x7ff0_0000_0000_0000, quotient_sign);
        assert(q * b >= 0x0010_0000_0000_0000 * b) by (nonlinear_arith)
            requires
                q >= 0x0010_0000_0000_0000,
                b > 0,
        ;
        assert(q * b < 0x0020_0000_0000_0000 * 0x0020_0000_0000_0000) by (nonlinear_arith)
            requires
                0 <= q < 0x0020_0000_0000_0000,
                0 <= b < 0x0020_0000_0000_0000,
        ;
    }
    // If we have overflowed the exponent, return infinity.
    if written_exponent >= 2047 {
        proof {
            let u = pow2(2045) as int;
            let up = pow2((written_exponent - 1) as nat) as int;
            lemma_pow2_unfold(2046);
            lemma_pow2_pos(2045);
            if written_exponent - 1 > 2046 {
                lemma_pow2_strictly_increases(2046, (written_exponent - 1) as nat);
            }
            assert(n * b >= 0x0010_0000_0000_0000 * b * (2 * u * k)) by (nonlinear_arith)
                requires
                    n * b == whole * (up * k),
                    whole >= 0x0010_0000_0000_0000 * b,
                    up >= 2 * u,
                    u > 0,
                    k > 0,
                    b > 0,
            ;
            assert(2 * n >= 0x003f_ffff_ffff_ffff * u * k) by (nonlinear_arith)
                requires
                    n * b >= 0x0010_0000_0000_0000 * b * (2 * u * k),
                    b > 0,
                    u > 0,
                    k > 0,
            ;
            lemma_beyond_largest(num, den);
        }
        return SoftF64::EXPONENT_MASK | quotient_sign;
    }
    let abs_result: u64;
    let mut residual: u64;
    if written_exponent > 0 {
        // The remainder of the undivided significand, doubled for the
        // comparison with the divisor.
        let undivided: u128 = (a_significand as u128) * 0x0010_0000_0000_0000u128;
        let covered: u128 = (quotient as u128) * (b_significand as u128);
        residual = ((undivided - covered) as u64) << 1;
        abs_result = (quotient & SoftF64::SIGNIFICAND_MASK) | ((written_exponent as u64) << 52);
        proof {
            lemma_u64_shl_is_mul((undivided - covered) as u64, 1);
            lemma_quotient_bits(quotient, written_exponent as u64, 0, quotient_sign);
            let e = written_exponent as int;
            let ud = pow2((e - 1) as nat) * den;
            assert(2 * n * b == (2 * q * b + residual) * ud) by (nonlinear_arith)
                requires
                    n * b == whole * ud,
                    residual == 2 * (whole - q * b),
            ;
            lemma_round_with_remainder(e, q, residual as int, b, num, den);
            assert(abs_result == packed(e, q));
        }
    } else {
        if 52 + written_exponent < 0 {
            proof {
                let ps = pow2((-52 - written_exponent) as nat) as int;
                lemma_pow2_unfold((-52 - written_exponent) as nat);
                lemma_pow2_pos((-53 - written_exponent) as nat);
                assert(2 * n <= k) by (nonlinear_arith)
                    requires
                        2 * n * b * ps == a * k,
                        ps >= 2,
                        a <= 2 * b,
                        b > 0,
                        k > 0,
                        n >= 0,
                ;
                lemma_below_smallest(num, den);
            }
            return quotient_sign;
        }
        let shift: u32 = (1 - written_exponent) as u32;
        let place: u32 = (52 + written_exponent) as u32;
        let ret: u64 = quotient >> shift;
        proof {
            lemma_u64_shl_is_mul(1, place as u64);
            if place < 52 {
                lemma_pow2_strictly_increases(place as nat, 52);
            }
            assert(a * pow2(place as nat) <= 0x0040_0000_0000_0000 * 0x0010_0000_0000_0000)
                by (nonlinear_arith)
                requires
                    0 <= a <= 0x0040_0000_0000_0000,
                    0 <= pow2(place as nat) <= 0x0010_0000_0000_0000,
            ;
        }
        let undivided: u128 = (a_significand as u128) * ((1u64 << place) as u128);
        proof {
            let h = pow2((shift - 1) as nat) as int;
            let full = pow2(shift as nat) as int;
            let p = pow2(place as nat) as int;
            lemma_u64_shl_is_mul(1, place as u64);
            lemma_u64_shr_is_div(quotient, shift as u64);
            lemma_pow2_unfold(shift as nat);
            lemma_pow2_pos((shift - 1) as nat);
            lemma_pow2_adds(place as nat, (shift - 1) as nat);
            lemma_fundamental_div_mod(q, full);
            lemma_mod_bound(q, full);
            let r0 = q % full;
            let m = ret as int;
            assert(q == full * m + r0);
            assert(m <= q / 2) by {
                vstd::arithmetic::div_mod::lemma_div_is_ordered_by_denominator(q, 2, full);
            }
            // The doubled remainder of the shifted quotient, scaled by `h`.
            let d = a * p - 2 * m * b;
            assert(d * h == (whole - q * b) + r0 * b) by (nonlinear_arith)
                requires
                    d == a * p - 2 * m * b,
                    p * h == 0x0010_0000_0000_0000,
                    whole == a * 0x0010_0000_0000_0000,
                    q == full * m + r0,
                    full == 2 * h,
            ;
            assert(0 <= d && d < 3 * b) by (nonlinear_arith)
                requires
                    d * h == (whole - q * b) + r0 * b,
                    0 <= whole - q * b,
                    2 * (whole - q * b) < 3 * b,
                    0 <= r0 <= 2 * h - 1,
                    h >= 1,
                    b > 0,
            ;
            assert(2 * m * b <= a * p);
            assert(2 * n * b == (2 * m * b + d) * (pow2(0) * den)) by (nonlinear_arith)
                requires
                    2 * n * b == a * p * k,
                    d == a * p - 2 * m * b,
                    pow2(0) == 1,
                    k == den,
            ;
            lemma_round_with_remainder(1, m, d, b, num, den);
            assert(m * b < 0x0010_0000_0000_0000 * 0x0020_0000_0000_0000) by (nonlinear_arith)
                requires
                    0 <= m < 0x0010_0000_0000_0000,
                    0 <= b < 0x0020_0000_0000_0000,
            ;
            assert(packed(1, m) == m);
            lemma_quotient_bits(quotient, 0, ret, quotient_sign);
        }
        let covered: u128 = ((ret as u128) * (b_significand as u128)) * 2;
        proof {
            let m = ret as int;
            assert((m * b) * 2 == 2 * m * b) by (nonlinear_arith);
            assert(undivided == a * pow2(place as nat));
            assert(covered == 2 * m * b);
        }
        residual = (undivided - covered) as u64;
        abs_result = ret;
    }
    proof {
        lemma_quotient_bits(quotient, 0, abs_result, quotient_sign);
    }
    // Round. Adding the low bit of the result turns the comparison below
    // into "at least" for an odd result, which breaks a tie towards even.
    residual = residual + (abs_result & 1);
    let rounded: u64 = if residual > b_significand {
        abs_result + 1
    } else {
        abs_result
    };
    proof {
        lemma_quotient_bits(quotient, 0, rounded, quotient_sign);
    }
    rounded | quotient_sign
}

/// How a quotient of significands relates to the exact quotient of the two
/// values, for a dividend doubled `c` times (zero or one).
proof fn lemma_quotient_scale(
    va: int,
    vb: int,
    a: int,
    b: int,
    ea: nat,
    eb: nat,
    c: int,
    we: int,
)
    requires
        va * 0x0010_0000_0000_0000 == a * pow2(ea),
        vb * 0x0010_0000_0000_0000 == b * pow2(eb),
        c == 0 || c == 1,
        we == ea - eb + 1023 - c,
    ensures
        we >= 1 ==> (va * pow2(1074)) * b == ((1 + c) * a) * 0x0010_0000_0000_0000 * (pow2(
            (we - 1) as nat,
        ) * vb),
        -52 <= we <= 0 ==> 2 * (va * pow2(1074)) * b == ((1 + c) * a) * pow2((52 + we) as nat)
            * vb,
        we < -52 ==> 2 * (va * pow2(1074)) * b * pow2((-52 - we) as nat) == ((1 + c) * a) * vb,
{
    let z = 0x0010_0000_0000_0000int;
    let pa = pow2(ea) as int;
    let pb = pow2(eb) as int;
    let big = pow2(1074) as int;
    let num = va * big;
    let aa = (1 + c) * a;
    lemma2_to64();
    lemma2_to64_rest();
    lemma_pow2_adds(ea, 1074);
    // Both sides are compared after scaling by 2^52.
    assert(num * b * z == a * b * (pa * big)) by (nonlinear_arith)
        requires
            num == va * big,
            va * z == a * pa,
    ;
    if we >= 1 {
        let u = pow2((we - 1) as nat) as int;
        lemma_pow2_adds((we - 1) as nat, eb);
        lemma_pow2_adds((we - 1 + eb) as nat, 52);
        lemma_pow2_adds((we - 1 + eb + 52) as nat, c as nat);
        assert(pa * big == (1 + c) * (u * pb * z));
        let right = aa * z * (u * vb);
        let front = aa * u * z;
        assert(right * z == front * (vb * z)) by (nonlinear_arith)
            requires
                right == aa * z * (u * vb),
                front == aa * u * z,
        ;
        assert(front * (b * pb) == a * b * ((1 + c) * (u * pb * z))) by (nonlinear_arith)
            requires
                front == aa * u * z,
                aa == (1 + c) * a,
        ;
        assert(num * b * z == right * z);
    } else if we >= -52 {
        let p = pow2((52 + we) as nat) as int;
        lemma_pow2_adds((ea + 1074) as nat, 1);
        lemma_pow2_adds((52 + we) as nat, eb);
        lemma_pow2_adds((52 + we + eb) as nat, c as nat);
        assert(2 * (pa * big) == (1 + c) * (p * pb));
        let right = aa * p * vb;
        let front = aa * p;
        assert(right * z == front * (vb * z)) by (nonlinear_arith)
            requires
                right == aa * p * vb,
                front == aa * p,
        ;
        assert(front * (b * pb) == a * b * ((1 + c) * (p * pb))) by (nonlinear_arith)
            requires
                front == aa * p,
                aa == (1 + c) * a,
        ;
        assert((2 * num * b) * z == 2 * (a * b * (pa * big))) by (nonlinear_arith)
            requires
                num * b * z == a * b * (pa * big),
        ;
        assert(2 * (a * b * (pa * big)) == a * b * (2 * (pa * big))) by (nonlinear_arith);
    } else {
        let s = pow2((-52 - we) as nat) as int;
        lemma_pow2_adds((ea + 1074) as nat, 1);
        lemma_pow2_adds((ea + 1075) as nat, (-52 - we) as nat);
        lemma_pow2_adds(eb, c as nat);
        assert(2 * (pa * big) * s == (1 + c) * pb);
        let right = aa * vb;
        assert(right * z == aa * (vb * z)) by (nonlinear_arith)
            requires
                right == aa * vb,
        ;
        assert(aa * (b * pb) == a * b * ((1 + c) * pb)) by (nonlinear_arith)
            requires
                aa == (1 + c) * a,
        ;
        assert((2 * num * b * s) * z == a * b * (2 * (pa * big) * s)) by (nonlinear_arith)
            requires
                num * b * z == a * b * (pa * big),
        ;
    }
}

/// The quotient that the reciprocal estimate gives is the true quotient of
/// the significands or one below it, and one below it only where the true
/// quotient lies in the lower half of its step.
///
/// `est` is the upper word of the product of the estimate `x` and the
/// doubled dividend. Read with 53 fractional bits it is in [1/2, 2); below
/// one it is taken as it is, for the doubled dividend, and else halved.
proof fn lemma_quotient_estimate(x: int, a: int, b: int, est: int, low: int)
    requires
        0x0010_0000_0000_0000 <= a < 0x0020_0000_0000_0000,
        0x0010_0000_0000_0000 <= b < 0x0020_0000_0000_0000,
        0 <= x,
        x * b < 0x10_0000_0000_0000_0000_0000_0000_0000,
        (x + 388) * b >= 0x10_0000_0000_0000_0000_0000_0000_0000,
        est * 0x1_0000_0000_0000_0000 + low == x * (2 * a),
        0 <= low < 0x1_0000_0000_0000_0000,
        0 <= est,
    ensures
        est < 0x0020_0000_0000_0000 ==> 0x0010_0000_0000_0000 <= est && a <= b && est * b <= (2
            * a) * 0x0010_0000_0000_0000 && 2 * ((2 * a) * 0x0010_0000_0000_0000 - est * b) < 3
            * b,
        est >= 0x0020_0000_0000_0000 ==> 0x0010_0000_0000_0000 <= est / 2 < 0x0020_0000_0000_0000
            && (est / 2) * b <= a * 0x0010_0000_0000_0000 && 2 * (a * 0x0010_0000_0000_0000 - (est
            / 2) * b) < 3 * b,
{
    let xb = x * b;
    let eb = est * b;
    let whole = a * 0x0020_0000_0000_0000;
    // est * b < a * 2^53 and 2 * (a * 2^53 - est * b) < 3 * b
    assert((x * (2 * a)) * b == xb * (2 * a)) by (nonlinear_arith)
        requires
            xb == x * b,
    ;
    assert((est * 0x1_0000_0000_0000_0000 + low) * b == 0x1_0000_0000_0000_0000 * eb + low * b)
        by (nonlinear_arith)
        requires
            eb == est * b,
    ;
    assert(0 <= low * b < 0x1_0000_0000_0000_0000 * b) by (nonlinear_arith)
        requires
            0 <= low < 0x1_0000_0000_0000_0000,
            b > 0,
    ;
    assert(xb * (2 * a) < 0x10_0000_0000_0000_0000_0000_0000_0000 * (2 * a)) by (nonlinear_arith)
        requires
            xb < 0x10_0000_0000_0000_0000_0000_0000_0000,
            a > 0,
    ;
    assert((x + 388) * b == xb + 388 * b) by (nonlinear_arith)
        requires
            xb == x * b,
    ;
    assert(xb * (2 * a) >= (0x10_0000_0000_0000_0000_0000_0000_0000 - 388 * b) * (2 * a))
        by (nonlinear_arith)
        requires
            xb >= 0x10_0000_0000_0000_0000_0000_0000_0000 - 388 * b,
            a > 0,
    ;
    assert((0x10_0000_0000_0000_0000_0000_0000_0000 - 388 * b) * (2 * a)
        == 0x1_0000_0000_0000_0000 * whole - 776 * (a * b)) by (nonlinear_arith)
        requires
            whole == a * 0x0020_0000_0000_0000,
    ;
    assert(776 * (a * b) < 0x8000_0000_0000_0000 * b) by (nonlinear_arith)
        requires
            0 < a < 0x0020_0000_0000_0000,
            b > 0,
    ;
    assert(eb < whole);
    assert(2 * (whole - eb) < 3 * b);
    assert((2 * a) * 0x0010_0000_0000_0000 == whole);
    if est < 0x0020_0000_0000_0000 {
        if est < 0x0010_0000_0000_0000 {
            assert(eb <= 0x000f_ffff_ffff_ffff * b) by (nonlinear_arith)
                requires
                    eb == est * b,
                    0 <= est <= 0x000f_ffff_ffff_ffff,
                    b > 0,
            ;
        }
        if a > b {
            assert(eb <= 0x001f_ffff_ffff_ffff * b) by (nonlinear_arith)
                requires
                    eb == est * b,
                    0 <= est <= 0x001f_ffff_ffff_ffff,
                    b > 0,
            ;
        }
    } else {
        let q = est / 2;
        let qb = q * b;
        assert(eb == 2 * qb + (est % 2) * b) by (nonlinear_arith)
            requires
                eb == est * b,
                qb == q * b,
                est == 2 * q + est % 2,
        ;
        assert(0 <= (est % 2) * b <= b) by (nonlinear_arith)
            requires
                0 <= est % 2 <= 1,
                b > 0,
        ;
        if q >= 0x0020_0000_0000_0000 {
            assert(qb >= 0x0020_0000_0000_0000 * 0x0010_0000_0000_0000) by (nonlinear_arith)
                requires
                    qb == q * b,
                    q >= 0x0020_0000_0000_0000,
                    b >= 0x0010_0000_0000_0000,
            ;
        }
    }
}

/// Divides a finite, nonzero value by a finite, nonzero value.
fn div_finite(a_rep: u64, b_rep: u64) -> (r: u64)
    requires
        !is_zero(a_rep),
        is_finite(a_rep),
        !is_zero(b_rep),
        is_finite(b_rep),
    ensures
        is_rounded_quotient(a_rep, b_rep, r),
{
    proof {
        lemma_field_masks(a_rep);
        lemma_field_masks(b_rep);
        lemma_quotient_sign_bits(a_rep, b_rep);
        lemma2_to64();
        lemma2_to64_rest();
    }
    let quotient_sign: u64 = (a_rep ^ b_rep) & SoftF64::SIGN_MASK;
    // Subnormal operands are brought into normal form, with the exponent
    // that goes with it.
    let (a_exponent, a_significand) = SoftF64::unpack(a_rep);
    let (b_exponent, b_significand) = SoftF64::unpack(b_rep);
    let base_exponent: i32 = a_exponent - b_exponent + 1023;
    // Multiply the dividend by the reciprocal of the divisor. The estimate
    // of the reciprocal errs on the low side, so the quotient does too.
    let x_uq0: u64 = reciprocal_estimate(b_significand);
    proof {
        lemma_u64_shl_is_mul(a_significand, 1);
    }
    let (low, estimate) = u64_widen_mul(x_uq0, a_significand << 1);
    proof {
        lemma_quotient_estimate(
            x_uq0 as int,
            a_significand as int,
            b_significand as int,
            estimate as int,
            low as int,
        );
        lemma_u64_shr_is_div(estimate, 1);
    }
    let quotient: u64;
    let dividend: u64;
    let written_exponent: i32;
    let ghost c: int;
    // The estimate is in [1/2, 2) with 53 fractional bits; bring it into
    // [1, 2) with 52.
    if estimate < 0x0020_0000_0000_0000 {
        // The highest bit is clear: read the estimate with one fractional
        // bit less, which doubles it.
        quotient = estimate;
        dividend = a_significand << 1;
        written_exponent = base_exponent - 1;
        proof {
            c = 1;
        }
    } else {
        // The highest bit is set: drop the lowest.
        quotient = estimate >> 1;
        dividend = a_significand;
        written_exponent = base_exponent;
        proof {
            c = 0;
        }
    }
    proof {
        lemma_quotient_scale(
            magnitude(a_rep) as int,
            magnitude(b_rep) as int,
            a_significand as int,
            b_significand as int,
            (a_exponent + 51) as nat,
            (b_exponent + 51) as nat,
            c,
            written_exponent as int,
        );
        assert(magnitude(b_rep) > 0) by {
            assert(magnitude(b_rep) == magnitude(abs_of(b_rep)));
            crate::rounding::lemma_magnitude_monotonic(0, abs_of(b_rep));
            assert(magnitude(0) == 0);
        }
        assert(dividend == (1 + c) * a_significand) by (nonlinear_arith)
            requires
                (c == 0 && dividend == a_significand) || (c == 1 && dividend == 2
                    * a_significand),
        ;
    }
    finish_quotient(
        quotient_sign,
        written_exponent,
        quotient,
        dividend,
        b_significand,
        Ghost(magnitude(a_rep) * pow2(1074)),
        Ghost(magnitude(b_rep)),
    )
}

proof fn lemma_quotient_sign_bits(a: u64, b: u64)
    by (bit_vector)
    ensures
        (a ^ b) & 0x8000_0000_0000_0000 == (if (a >= 0x8000_0000_0000_0000) != (b
            >= 0x8000_0000_0000_0000) {
            0x8000_0000_0000_0000u64
        } else {
            0u64
        }),
        0x7ff0_0000_0000_0000u64 | 0x0008_0000_0000_0000u64 == 0x7ff8_0000_0000_0000u64,
        0x7ff0_0000_0000_0000u64 | 0x8000_0000_0000_0000u64 == 0xfff0_0000_0000_0000u64,
        0x7ff0_0000_0000_0000u64 | 0u64 == 0x7ff0_0000_0000_0000u64,
        0x0010_0000_0000_0000u64 >> 1 == 0x0008_0000_0000_0000u64,
{
}

/// What division owes for any two operands.
///
/// A NaN operand comes back quiet, the first operand before the second.
/// Infinity by infinity and zero by zero are the canonical NaN. Infinity by
/// anything else, and a nonzero value by zero, are infinity; anything
/// finite by infinity is zero; both with the combined sign. Otherwise the
/// result is the exact quotient, rounded.
pub open spec fn is_quotient(a: u64, b: u64, r: u64) -> bool {
    if is_nan(a) {
        r == quieted(a)
    } else if is_nan(b) {
        r == quieted(b)
    } else if is_infinite(a) {
        if is_infinite(b) {
            r == canonical_nan()
        } else {
            &&& is_infinite(r)
            &&& is_negative(r) == (is_negative(a) != is_negative(b))
        }
    } else if is_infinite(b) {
        &&& is_zero(r)
        &&& is_negative(r) == (is_negative(a) != is_negative(b))
    } else if is_zero(b) {
        if is_zero(a) {
            r == canonical_nan()
        } else {
            &&& is_infinite(r)
            &&& is_negative(r) == (is_negative(a) != is_negative(b))
        }
    } else {
        is_rounded_quotient(a, b, r)
    }
}

impl SoftF64 {
    /// The quotient of two values, rounded to nearest, ties to even.
    pub fn div(self, rhs: Self) -> (r: Self)
        ensures
            is_quotient(self.0, rhs.0, r.0),
    {
        let a_rep: u64 = self.repr();
        let b_rep: u64 = rhs.repr();
        let inf_rep: u64 = Self::EXPONENT_MASK;
        let quiet_bit: u64 = Self::IMPLICIT_BIT >> 1;
        let qnan_rep: u64 = Self::EXPONENT_MASK | quiet_bit;
        let a_exponent: u64 = (a_rep >> 52) & 0x7ff;
        let b_exponent: u64 = (b_rep >> 52) & 0x7ff;
        let quotient_sign: u64 = (a_rep ^ b_rep) & Self::SIGN_MASK;
        proof {
            lemma_field_masks(a_rep);
            lemma_field_masks(b_rep);
            lemma_quotient_sign_bits(a_rep, b_rep);
        }
        // Detect if a or b is zero, denormal, infinity, or NaN.
        if a_exponent.wrapping_sub(1) >= 2046 || b_exponent.wrapping_sub(1) >= 2046 {
            let a_abs: u64 = a_rep & 0x7fff_ffff_ffff_ffff;
            let b_abs: u64 = b_rep & 0x7fff_ffff_ffff_ffff;
            // NaN / anything = qNaN
            if a_abs > inf_rep {
                return Self::from_repr(a_rep | quiet_bit);
            }
            // anything / NaN = qNaN
            if b_abs > inf_rep {
                return Self::from_repr(b_rep | quiet_bit);
            }
            if a_abs == inf_rep {
                if b_abs == inf_rep {
                    // infinity / infinity = NaN
                    return Self::from_repr(qnan_rep);
                } else {
                    // infinity / anything else = +/- infinity
                    return Self::from_repr(a_abs | quotient_sign);
                }
            }
            // anything else / infinity = +/- 0
            if b_abs == inf_rep {
                return Self::from_repr(quotient_sign);
            }
            if a_abs == 0 {
                if b_abs == 0 {
                    // zero / zero = NaN
                    return Self::from_repr(qnan_rep);
                } else {
                    // zero / anything else = +/- zero
                    proof {
                        assert(magnitude(a_rep) * pow2(1074) == 0) by (nonlinear_arith)
                            requires
                                magnitude(a_rep) == 0,
                        ;
                        lemma_below_smallest(0, magnitude(b_rep));
                    }
                    return Self::from_repr(quotient_sign);
                }
            }
            // anything else / zero = +/- infinity
            if b_abs == 0 {
                return Self::from_repr(inf_rep | quotient_sign);
            }
        }
        Self::from_repr(div_finite(a_rep, b_rep))
    }
}

} // verus!
