//! What holds of the operations across all their inputs.

use vstd::prelude::*;
use vstd::arithmetic::power2::pow2;
use vstd::arithmetic::power2::lemma_pow2_pos;
use crate::add::is_sum;
use crate::div::is_quotient;
use crate::mul::is_product;
use crate::rounding::lemma_nearest_even_unique;
use crate::soft_f64::SoftF64;
use crate::soft_f64::abs_of;
use crate::soft_f64::canonical_nan;
use crate::soft_f64::compose;
use crate::soft_f64::exponent_of;
use crate::soft_f64::is_finite;
use crate::soft_f64::is_infinite;
use crate::soft_f64::is_nan;
use crate::soft_f64::is_negative;
use crate::soft_f64::is_quiet_nan;
use crate::soft_f64::is_subnormal;
use crate::soft_f64::is_zero;
use crate::soft_f64::magnitude;
use crate::soft_f64::quieted;
use crate::soft_f64::significand_of;
use crate::soft_f64::signed_value;

verus! {

/// Turning an encoding into a value and back gives the encoding again, for
/// every one of the 2^64 patterns; and so does the other way round.
pub proof fn lemma_bits_round_trip(x: u64, v: SoftF64)
    ensures
        SoftF64::from_bits(x).to_bits() == x,
        SoftF64::from_bits(v.to_bits()) == v,
{
}

/// Splitting an encoding into its fields and joining them again gives the
/// encoding again.
pub proof fn lemma_fields_round_trip(x: u64)
    ensures
        exponent_of(x) <= 2047,
        significand_of(x) < SoftF64::IMPLICIT_BIT,
        compose(if is_negative(x) { 1 } else { 0 }, exponent_of(x), significand_of(x)) == x,
{
}

/// The classes of encodings by their fields: zero and subnormal have the
/// exponent zero, infinity and NaN have it all ones, and the significand
/// tells each pair apart.
pub proof fn lemma_classes_by_fields(x: u64)
    ensures
        is_zero(x) <==> exponent_of(x) == 0 && significand_of(x) == 0,
        is_subnormal(x) <==> exponent_of(x) == 0 && significand_of(x) != 0,
        is_infinite(x) <==> exponent_of(x) == 2047 && significand_of(x) == 0,
        is_nan(x) <==> exponent_of(x) == 2047 && significand_of(x) != 0,
        is_finite(x) <==> exponent_of(x) < 2047,
{
}

/// Negating twice gives the value back, NaNs with their payload included.
pub proof fn lemma_neg_involution(a: SoftF64)
    ensures
        a.neg().neg() == a,
{
    let x = a.0;
    assert((x ^ 0x8000_0000_0000_0000) ^ 0x8000_0000_0000_0000 == x) by (bit_vector);
}

/// A NaN that is passed on is a quiet NaN with the payload it had.
pub proof fn lemma_quieted_nan(x: u64)
    requires
        is_nan(x),
    ensures
        is_nan(quieted(x)),
        is_quiet_nan(quieted(x)),
        is_negative(quieted(x)) == is_negative(x),
        significand_of(quieted(x)) == (if significand_of(x) >= 0x0008_0000_0000_0000 {
            significand_of(x)
        } else {
            (significand_of(x) + 0x0008_0000_0000_0000) as u64
        }),
{
    assert(x | 0x0008_0000_0000_0000 == (if x % 0x0010_0000_0000_0000 >= 0x0008_0000_0000_0000 {
        x
    } else {
        (x + 0x0008_0000_0000_0000) as u64
    }) && (x % 0x0010_0000_0000_0000 < 0x0008_0000_0000_0000 ==> x
        <= 0xffff_ffff_ffff_ffff - 0x0008_0000_0000_0000)) by (bit_vector);
}

/// A NaN operand decides the result of every operation: the first operand's
/// NaN, made quiet, or else the second's. Addition drops its sign.
pub proof fn lemma_nan_propagates(a: u64, b: u64, sum: u64, product: u64, quotient: u64)
    requires
        is_nan(a) || is_nan(b),
        is_sum(a, b, sum),
        is_product(a, b, product),
        is_quotient(a, b, quotient),
    ensures
        is_quiet_nan(sum),
        is_quiet_nan(product),
        is_quiet_nan(quotient),
        sum == quieted(abs_of(if is_nan(a) { a } else { b })),
        product == quieted(if is_nan(a) { a } else { b }),
        quotient == quieted(if is_nan(a) { a } else { b }),
{
    let x = if is_nan(a) { a } else { b };
    lemma_quieted_nan(x);
    lemma_quieted_nan(abs_of(x));
}

/// The sums, products and quotients that have no value are the canonical
/// quiet NaN; a nonzero finite value divided by zero is an infinity with the
/// sign of the two operands' signs combined.
pub proof fn lemma_invalid_operations(a: u64, b: u64, sum: u64, product: u64, quotient: u64)
    requires
        is_sum(a, b, sum),
        is_product(a, b, product),
        is_quotient(a, b, quotient),
    ensures
        is_infinite(a) && is_infinite(b) && is_negative(a) != is_negative(b) ==> sum
            == canonical_nan(),
        (is_infinite(a) && is_zero(b)) || (is_zero(a) && is_infinite(b)) ==> product
            == canonical_nan(),
        (is_infinite(a) && is_infinite(b)) || (is_zero(a) && is_zero(b)) ==> quotient
            == canonical_nan(),
        is_finite(a) && !is_zero(a) && is_zero(b) ==> is_infinite(quotient) && is_negative(
            quotient,
        ) == (is_negative(a) != is_negative(b)),
{
}

/// A sum that is exactly zero is the positive zero, unless both operands are
/// negative zeros: so a value and its negation add up to the positive zero.
pub proof fn lemma_exact_zero_sum(a: u64, b: u64, r: u64)
    requires
        is_finite(a),
        is_finite(b),
        is_sum(a, b, r),
        signed_value(a) + signed_value(b) == 0,
    ensures
        r == (if is_zero(a) && is_zero(b) && is_negative(a) && is_negative(b) {
            SoftF64::SIGN_MASK
        } else {
            0
        }),
{
    if is_negative(a) && is_negative(b) {
        assert(magnitude(a) == 0 && magnitude(b) == 0);
        assert(magnitude(a) == magnitude(abs_of(a)));
        assert(magnitude(b) == magnitude(abs_of(b)));
        if abs_of(a) > 0 {
            crate::rounding::lemma_magnitude_monotonic(0, abs_of(a));
        }
        if abs_of(b) > 0 {
            crate::rounding::lemma_magnitude_monotonic(0, abs_of(b));
        }
        assert(magnitude(0) == 0);
    }
}

/// An encoding is known by its sign and its sign-free part.
proof fn lemma_same_parts(x: u64, y: u64)
    requires
        is_negative(x) == is_negative(y),
        abs_of(x) == abs_of(y),
    ensures
        x == y,
{
}

/// Addition does not depend on the order of its operands, where neither is
/// a NaN.
pub proof fn lemma_add_commutes(a: u64, b: u64, r1: u64, r2: u64)
    requires
        !is_nan(a),
        !is_nan(b),
        is_sum(a, b, r1),
        is_sum(b, a, r2),
    ensures
        r1 == r2,
{
    if is_finite(a) && is_finite(b) {
        let s = signed_value(a) + signed_value(b);
        if s != 0 {
            let size = (if s < 0 { -s } else { s }) as nat;
            lemma_nearest_even_unique(size, 1, abs_of(r1), abs_of(r2));
            lemma_same_parts(r1, r2);
        }
    }
}

/// Multiplication does not depend on the order of its operands, where
/// neither is a NaN.
pub proof fn lemma_mul_commutes(a: u64, b: u64, r1: u64, r2: u64)
    requires
        !is_nan(a),
        !is_nan(b),
        is_product(a, b, r1),
        is_product(b, a, r2),
    ensures
        r1 == r2,
{
    if is_finite(a) && is_finite(b) {
        assert(magnitude(a) * magnitude(b) == magnitude(b) * magnitude(a)) by (nonlinear_arith);
        lemma_pow2_pos(1074);
        lemma_nearest_even_unique(
            magnitude(a) * magnitude(b),
            pow2(1074),
            abs_of(r1),
            abs_of(r2),
        );
        lemma_same_parts(r1, r2);
    } else if !(is_zero(a) || is_zero(b)) {
        lemma_same_parts(r1, r2);
    }
}

/// The magnitude of a nonzero encoding is not zero.
proof fn lemma_nonzero_magnitude(x: u64)
    requires
        !is_zero(x),
        is_finite(x),
    ensures
        magnitude(x) > 0,
{
    assert(magnitude(x) == magnitude(abs_of(x)));
    crate::rounding::lemma_magnitude_monotonic(0, abs_of(x));
    assert(magnitude(0) == 0);
}

/// A sum that an encoding holds exactly is not rounded: where the exact sum
/// of two finite values is the value of a finite encoding `c` other than
/// zero, addition returns `c`.
pub proof fn lemma_exact_sum(a: u64, b: u64, c: u64, sum: u64)
    requires
        is_finite(a),
        is_finite(b),
        is_finite(c),
        !is_zero(c),
        is_sum(a, b, sum),
        signed_value(a) + signed_value(b) == signed_value(c),
    ensures
        sum == c,
{
    lemma_nonzero_magnitude(c);
    assert(magnitude(c) == magnitude(abs_of(c)));
    crate::rounding::lemma_exact_is_nearest(abs_of(c));
    lemma_nearest_even_unique(magnitude(c), 1, abs_of(sum), abs_of(c));
    lemma_same_parts(sum, c);
}

/// A product that an encoding holds exactly is not rounded. The product of
/// two values counts units of 2^-2148, so the value of `c` is scaled to
/// match.
pub proof fn lemma_exact_product(a: u64, b: u64, c: u64, product: u64)
    requires
        is_finite(a),
        is_finite(b),
        is_finite(c),
        !is_zero(c),
        is_product(a, b, product),
        signed_value(a) * signed_value(b) == signed_value(c) * pow2(1074),
    ensures
        product == c,
{
    let unit = pow2(1074);
    let va = magnitude(a) as int;
    let vb = magnitude(b) as int;
    let vc = magnitude(c) as int;
    lemma_pow2_pos(1074);
    lemma_nonzero_magnitude(c);
    assert(magnitude(c) == magnitude(abs_of(c)));
    crate::rounding::lemma_exact_is_nearest(abs_of(c));
    assert(va * vb == vc * unit && (is_negative(a) != is_negative(b)) == is_negative(c))
        by (nonlinear_arith)
        requires
            signed_value(a) * signed_value(b) == signed_value(c) * unit,
            signed_value(a) == (if is_negative(a) { -va } else { va }),
            signed_value(b) == (if is_negative(b) { -vb } else { vb }),
            signed_value(c) == (if is_negative(c) { -vc } else { vc }),
            va >= 0,
            vb >= 0,
            vc > 0,
            unit > 0,
    ;
    crate::rounding::lemma_nearest_even_scaled(magnitude(c), 1, unit, abs_of(c));
    assert(magnitude(c) * unit == magnitude(a) * magnitude(b));
    assert(1 * unit == unit);
    lemma_nearest_even_unique(magnitude(a) * magnitude(b), unit, abs_of(product), abs_of(c));
    lemma_same_parts(product, c);
}

/// A quotient that an encoding holds exactly is not rounded: where the
/// value of `a` is the value of `c` times the value of `b`, division of `a`
/// by `b` returns `c`.
pub proof fn lemma_exact_quotient(a: u64, b: u64, c: u64, quotient: u64)
    requires
        is_finite(a),
        is_finite(b),
        !is_zero(b),
        is_finite(c),
        !is_zero(c),
        is_quotient(a, b, quotient),
        signed_value(a) * pow2(1074) == signed_value(c) * signed_value(b),
    ensures
        quotient == c,
{
    let unit = pow2(1074);
    let va = magnitude(a) as int;
    let vb = magnitude(b) as int;
    let vc = magnitude(c) as int;
    lemma_pow2_pos(1074);
    lemma_nonzero_magnitude(c);
    lemma_nonzero_magnitude(b);
    assert(magnitude(c) == magnitude(abs_of(c)));
    crate::rounding::lemma_exact_is_nearest(abs_of(c));
    assert(va * unit == vc * vb && (is_negative(a) != is_negative(b)) == is_negative(c))
        by (nonlinear_arith)
        requires
            signed_value(a) * unit == signed_value(c) * signed_value(b),
            signed_value(a) == (if is_negative(a) { -va } else { va }),
            signed_value(b) == (if is_negative(b) { -vb } else { vb }),
            signed_value(c) == (if is_negative(c) { -vc } else { vc }),
            va >= 0,
            vb > 0,
            vc > 0,
            unit > 0,
    ;
    crate::rounding::lemma_nearest_even_scaled(magnitude(c), 1, magnitude(b), abs_of(c));
    assert(magnitude(c) * magnitude(b) == magnitude(a) * unit);
    assert(1 * magnitude(b) == magnitude(b));
    lemma_nearest_even_unique(magnitude(a) * unit, magnitude(b), abs_of(quotient), abs_of(c));
    lemma_same_parts(quotient, c);
}

/// Each operation has one result: what the contracts of addition,
/// multiplication and division state holds of a single encoding.
pub proof fn lemma_results_are_unique(a: u64, b: u64, r1: u64, r2: u64)
    ensures
        is_sum(a, b, r1) && is_sum(a, b, r2) ==> r1 == r2,
        is_product(a, b, r1) && is_product(a, b, r2) ==> r1 == r2,
        is_quotient(a, b, r1) && is_quotient(a, b, r2) ==> r1 == r2,
{
    if is_sum(a, b, r1) && is_sum(a, b, r2) {
        if is_finite(a) && is_finite(b) {
            let s = signed_value(a) + signed_value(b);
            if s != 0 {
                let size = (if s < 0 { -s } else { s }) as nat;
                lemma_nearest_even_unique(size, 1, abs_of(r1), abs_of(r2));
                lemma_same_parts(r1, r2);
            }
        }
    }
    if is_product(a, b, r1) && is_product(a, b, r2) {
        if is_finite(a) && is_finite(b) {
            lemma_pow2_pos(1074);
            lemma_nearest_even_unique(
                magnitude(a) * magnitude(b),
                pow2(1074),
                abs_of(r1),
                abs_of(r2),
            );
        }
        if !is_nan(a) && !is_nan(b) {
            lemma_same_parts(r1, r2);
        }
    }
    if is_quotient(a, b, r1) && is_quotient(a, b, r2) {
        if is_finite(a) && is_finite(b) && !is_zero(b) {
            lemma_nonzero_magnitude(b);
            lemma_nearest_even_unique(
                magnitude(a) * pow2(1074),
                magnitude(b),
                abs_of(r1),
                abs_of(r2),
            );
        }
        if !is_nan(a) && !is_nan(b) {
            lemma_same_parts(r1, r2);
        }
    }
}

} // verus!
