//! The reciprocal of a significand by Newton-Raphson steps, and how far the
//! estimate can be from the true reciprocal.

use vstd::prelude::*;
use vstd::arithmetic::div_mod::lemma_fundamental_div_mod_converse;

verus! {

/// One Newton-Raphson step at half width, `x * (2 - b * x)`, in the integers
/// that the 32-bit words hold: `x` is a fraction of 32 bits, `beta` the
/// divisor with one integer bit and 31 fractional bits.
#[verifier::opaque]
pub open spec fn half_step(x: int, beta: int) -> int {
    let p = (x * beta) / 0x1_0000_0000;
    let corr = (0x1_0000_0000_0000_0000 - p) % 0x1_0000_0000;
    ((x * corr) / 0x8000_0000) % 0x1_0000_0000
}

/// The linear first estimate is within 184224974 units of the last place of
/// the reciprocal: `|x0 * beta - 2^63| <= 184224974 * beta`.
proof fn lemma_first_estimate(beta: int)
    requires
        0x8000_0000 <= beta < 0x1_0000_0000,
    ensures
        0x8000_0000_0000_0000 - 184224974 * beta <= (0x1_7504_F333 - beta) * beta
            <= 0x8000_0000_0000_0000 + 184224974 * beta,
{
    let x0 = 0x1_7504_F333 - beta;
    // Above: (x0 + u0) * beta - 2^63 = (beta - 2^31) * (2^32 - beta) + beta.
    assert((x0 + 184224974) * beta - 0x8000_0000_0000_0000 == (beta - 0x8000_0000) * (0x1_0000_0000
        - beta) + beta) by (nonlinear_arith)
        requires
            x0 == 0x1_7504_F333 - beta,
    ;
    assert((beta - 0x8000_0000) * (0x1_0000_0000 - beta) >= 0) by (nonlinear_arith)
        requires
            0x8000_0000 <= beta < 0x1_0000_0000,
    ;
    assert((x0 + 184224974) * beta == x0 * beta + 184224974 * beta) by (nonlinear_arith);
    // Below: 4 * (2^63 - (x0 - u0) * beta) = (2 * beta - k)^2 + 35862109223.
    assert(4 * (0x8000_0000_0000_0000 - (x0 - 184224974) * beta) == (2 * beta - 6074000997) * (2
        * beta - 6074000997) + 35862109223) by (nonlinear_arith)
        requires
            x0 == 0x1_7504_F333 - beta,
    ;
    assert((2 * beta - 6074000997) * (2 * beta - 6074000997) >= 0) by (nonlinear_arith);
    assert((x0 - 184224974) * beta == x0 * beta - 184224974 * beta) by (nonlinear_arith);
}

/// One step squares the error: an estimate within `u` units of the
/// reciprocal gives one within `u * u / 2^31 + 1` units below it and three
/// units above it, and the step does not leave the 32-bit word.
proof fn lemma_half_step(x: int, beta: int, u: int, un: int)
    requires
        0x8000_0002 <= beta < 0x1_0000_0000,
        0 <= x < 0x1_0000_0000,
        3 <= u <= 184224974,
        u * u <= 0x8000_0000 * (un - 1),
        0x8000_0000_0000_0000 - u * beta <= x * beta <= 0x8000_0000_0000_0000 + u * beta,
    ensures
        0 <= half_step(x, beta) < 0x1_0000_0000,
        0x8000_0000_0000_0000 - un * beta <= half_step(x, beta) * beta <= 0x8000_0000_0000_0000
            + 3 * beta,
{
    reveal(half_step);
    let t = x * beta;
    let p = t / 0x1_0000_0000;
    let r1 = t % 0x1_0000_0000;
    let d = t - 0x8000_0000_0000_0000;
    assert(u * beta <= 184224974 * 0x1_0000_0000) by (nonlinear_arith)
        requires
            0 <= u <= 184224974,
            0 <= beta <= 0x1_0000_0000,
    ;
    assert(1 <= p < 0x1_0000_0000);
    let corr = (0x1_0000_0000_0000_0000 - p) % 0x1_0000_0000;
    assert(corr == 0x1_0000_0000 - p);
    let w = x * corr;
    let y = w / 0x8000_0000;
    let r2 = w % 0x8000_0000;
    assert(w >= 0) by (nonlinear_arith)
        requires
            w == x * corr,
            x >= 0,
            corr >= 0,
    ;
    let yb = y * beta;
    let r2b = r2 * beta;
    // 2^63 * (y * beta - 2^63) = -d^2 + t * r1 - 2^32 * r2 * beta
    assert(w * beta == t * corr) by (nonlinear_arith)
        requires
            w == x * corr,
            t == x * beta,
    ;
    assert(0x1_0000_0000 * (t * corr) == 0x1_0000_0000_0000_0000 * t - t * t + t * r1)
        by (nonlinear_arith)
        requires
            corr == 0x1_0000_0000 - p,
            t == 0x1_0000_0000 * p + r1,
    ;
    assert(w * beta == 0x8000_0000 * yb + r2b) by (nonlinear_arith)
        requires
            w == 0x8000_0000 * y + r2,
            yb == y * beta,
            r2b == r2 * beta,
    ;
    assert(0x1_0000_0000_0000_0000 * t - t * t == 0x4000_0000_0000_0000_0000_0000_0000_0000 - d
        * d) by (nonlinear_arith)
        requires
            d == t - 0x8000_0000_0000_0000,
    ;
    let tr = t * r1;
    let dd = d * d;
    assert(0x8000_0000_0000_0000 * (yb - 0x8000_0000_0000_0000) == -dd + tr - 0x1_0000_0000 * r2b);
    // The size of each term.
    assert(dd <= 0x8000_0000_0000_0000 * ((un - 1) * beta)) by (nonlinear_arith)
        requires
            dd == d * d,
            0 - u * beta <= d <= u * beta,
            u * u <= 0x8000_0000 * (un - 1),
            0 < beta < 0x1_0000_0000,
            u >= 0,
    ;
    assert(dd >= 0) by (nonlinear_arith)
        requires
            dd == d * d,
    ;
    assert((un - 1) * beta == un * beta - beta) by (nonlinear_arith);
    assert(0 <= r2b <= 0x7fff_ffff * beta) by (nonlinear_arith)
        requires
            r2b == r2 * beta,
            0 <= r2 <= 0x7fff_ffff,
            beta > 0,
    ;
    assert(0 <= tr <= (0x8000_0000_0000_0000 + 184224974 * 0x1_0000_0000) * 0xffff_ffff)
        by (nonlinear_arith)
        requires
            tr == t * r1,
            0 <= t <= 0x8000_0000_0000_0000 + 184224974 * 0x1_0000_0000,
            0 <= r1 <= 0xffff_ffff,
    ;
    assert(y < 0x1_0000_0000) by {
        if y >= 0x1_0000_0000 {
            assert(yb >= 0x1_0000_0000 * 0x8000_0002) by (nonlinear_arith)
                requires
                    yb == y * beta,
                    y >= 0x1_0000_0000,
                    beta >= 0x8000_0002,
            ;
        }
    }
    assert(half_step(x, beta) == y);
}

/// The estimate that the half-width steps leave: three steps from the
/// linear first estimate, then one unit off, all in 32-bit words.
pub open spec fn half_width_estimate(beta: int) -> int {
    let x0 = 0x1_7504_F333 - beta;
    let x3 = half_step(half_step(half_step(x0, beta), beta), beta);
    if x3 == 0 {
        0xffff_ffff
    } else {
        x3 - 1
    }
}

/// A half-width step, given the quotients and remainders of its two
/// divisions.
proof fn lemma_step_witness(x: int, beta: int, p: int, r1: int, y: int, r2: int)
    requires
        x * beta == p * 0x1_0000_0000 + r1,
        0 <= r1 < 0x1_0000_0000,
        1 <= p <= 0x1_0000_0000,
        x * (0x1_0000_0000 - p) == y * 0x8000_0000 + r2,
        0 <= r2 < 0x8000_0000,
    ensures
        half_step(x, beta) == y % 0x1_0000_0000,
{
    reveal(half_step);
    lemma_fundamental_div_mod_converse(x * beta, 0x1_0000_0000, p, r1);
    let corr = (0x1_0000_0000_0000_0000 - p) % 0x1_0000_0000;
    assert(corr == 0x1_0000_0000 - p);
    lemma_fundamental_div_mod_converse(x * corr, 0x8000_0000, y, r2);
}

/// The half-width steps for the two smallest divisors, followed one by one.
proof fn lemma_smallest_divisors()
    ensures
        half_width_estimate(0x8000_0000) == 0xffff_ffff,
        half_width_estimate(0x8000_0001) == 0xffff_fffe,
{
    lemma_step_witness(0xf504_f333, 0x8000_0000, 0x7a82_7999, 0x8000_0000, 0xff87_6cce, 0x6b31_8b85);
    lemma_step_witness(0xff87_6cce, 0x8000_0000, 0x7fc3_b667, 0x0, 0xffff_c735, 0x563e_c51e);
    lemma_step_witness(0xffff_c735, 0x8000_0000, 0x7fff_e39a, 0x8000_0000, 0x1_0000_0000, 0x79b3_2b1e);
    lemma_step_witness(0xf504_f332, 0x8000_0001, 0x7a82_7999, 0xf504_f332, 0xff87_6ccd, 0x65b4_051e);
    lemma_step_witness(0xff87_6ccd, 0x8000_0001, 0x7fc3_b667, 0x7f87_6ccd, 0xffff_c734, 0x5602_7b85);
    lemma_step_witness(0xffff_c734, 0x8000_0001, 0x7fff_e39a, 0xffff_c734, 0xffff_ffff, 0x79b3_0eb8);
}

/// The half-width estimate is within nine units of the last place below
/// the reciprocal of the truncated divisor, and within two above it.
///
/// The two smallest divisors are followed step by step: for the smallest,
/// the reciprocal is one, which no 32-bit fraction holds, and the last step
/// wraps to zero before the final decrement brings it back.
proof fn lemma_half_width_estimate(beta: int)
    requires
        0x8000_0000 <= beta < 0x1_0000_0000,
    ensures
        0 < half_width_estimate(beta) < 0x1_0000_0000,
        0x8000_0000_0000_0000 - 9 * beta <= half_width_estimate(beta) * beta
            <= 0x8000_0000_0000_0000 + 2 * beta,
{
    let x0 = 0x1_7504_F333 - beta;
    let x1 = half_step(x0, beta);
    let x2 = half_step(x1, beta);
    let x3 = half_step(x2, beta);
    if beta == 0x8000_0000 || beta == 0x8000_0001 {
        lemma_smallest_divisors();
    } else {
        lemma_first_estimate(beta);
        lemma_half_step(x0, beta, 184224974, 15804007);
        lemma_half_step(x1, beta, 15804007, 116309);
        lemma_half_step(x2, beta, 116309, 8);
        assert(x3 * beta >= 0x8000_0000_0000_0000 - 8 * 0x1_0000_0000);
        assert(x3 >= 2) by (nonlinear_arith)
            requires
                x3 * beta >= 0x8000_0000_0000_0000 - 8 * 0x1_0000_0000,
                0 < beta < 0x1_0000_0000,
                x3 >= 0,
        ;
        assert((x3 - 1) * beta == x3 * beta - beta) by (nonlinear_arith);
    }
}

/// The Newton-Raphson step at full width, taken from a half-width
/// estimate `x`, less the 225 units that are taken off after it: five that
/// the truncations and carries of the steps may have added, and 220 that
/// bound the error that is left. `beta` and `blo` are the two halves of the
/// divisor.
#[verifier::opaque]
pub open spec fn full_step(x: int, beta: int, blo: int) -> int {
    let s = x * beta + (x * blo) / 0x1_0000_0000 - 1;
    let corr = 0x1_0000_0000_0000_0000 - s;
    let hi = corr / 0x1_0000_0000;
    let lo = corr % 0x1_0000_0000;
    2 * (x * hi) + (x * lo) / 0x8000_0000 - 225
}

/// The full-width step leaves an estimate that is below the reciprocal of
/// the divisor `b = beta * 2^32 + blo`, by less than 388 units of the last
/// place: `x * b < 2^127 <= (x + 388) * b`.
proof fn lemma_full_step(x: int, beta: int, blo: int)
    requires
        0x8000_0000 <= beta < 0x1_0000_0000,
        0 <= blo < 0x1_0000_0000,
        0 < x < 0x1_0000_0000,
        0x8000_0000_0000_0000 - 9 * beta <= x * beta <= 0x8000_0000_0000_0000 + 2 * beta,
    ensures
        0 < x * beta + (x * blo) / 0x1_0000_0000 - 1 < 0x1_0000_0000_0000_0000,
        0 <= full_step(x, beta, blo) < 0x1_0000_0000_0000_0000,
        full_step(x, beta, blo) * (beta * 0x1_0000_0000 + blo)
            < 0x8000_0000_0000_0000_0000_0000_0000_0000,
        (full_step(x, beta, blo) + 388) * (beta * 0x1_0000_0000 + blo)
            >= 0x8000_0000_0000_0000_0000_0000_0000_0000,
{
    reveal(full_step);
    let b = beta * 0x1_0000_0000 + blo;
    let xb = x * beta;
    let xl = x * blo;
    let t = x * b;
    assert(t == 0x1_0000_0000 * xb + xl) by (nonlinear_arith)
        requires
            t == x * b,
            b == beta * 0x1_0000_0000 + blo,
            xb == x * beta,
            xl == x * blo,
    ;
    assert(0 <= xl < 0x1_0000_0000 * 0x1_0000_0000) by (nonlinear_arith)
        requires
            xl == x * blo,
            0 <= x < 0x1_0000_0000,
            0 <= blo < 0x1_0000_0000,
    ;
    let q1 = xl / 0x1_0000_0000;
    let rr = xl % 0x1_0000_0000;
    let s = xb + q1 - 1;
    let corr = 0x1_0000_0000_0000_0000 - s;
    let hi = corr / 0x1_0000_0000;
    let lo = corr % 0x1_0000_0000;
    let xh = x * hi;
    let xlo = x * lo;
    let w = 2 * xh + xlo / 0x8000_0000;
    let r3 = xlo % 0x8000_0000;
    let xc = x * corr;
    assert(xc == 0x1_0000_0000 * xh + xlo) by (nonlinear_arith)
        requires
            xc == x * corr,
            corr == 0x1_0000_0000 * hi + lo,
            xh == x * hi,
            xlo == x * lo,
    ;
    assert(xlo >= 0) by (nonlinear_arith)
        requires
            xlo == x * lo,
            x >= 0,
            lo >= 0,
    ;
    assert(xc == 0x8000_0000 * w + r3);
    // 2^63 * w * b = 2^190 - e^2 + (2^32 + rr) * t - 2^32 * r3 * b
    let e = t - 0x8000_0000_0000_0000_0000_0000;
    let wb = w * b;
    let r3b = r3 * b;
    let ee = e * e;
    let rt = (0x1_0000_0000 + rr) * t;
    assert(xc * b == corr * t) by (nonlinear_arith)
        requires
            xc == x * corr,
            t == x * b,
    ;
    assert(0x1_0000_0000 * (corr * t) == 0x1_0000_0000_0000_0000_0000_0000 * t - t * t + rt)
        by (nonlinear_arith)
        requires
            0x1_0000_0000 * corr == 0x1_0000_0000_0000_0000_0000_0000 + 0x1_0000_0000 - t + rr,
            rt == (0x1_0000_0000 + rr) * t,
    ;
    assert(0x1_0000_0000_0000_0000_0000_0000 * t - t * t
        == 0x4000_0000_0000_0000_0000_0000_0000_0000_0000_0000_0000_0000 - ee) by (nonlinear_arith)
        requires
            e == t - 0x8000_0000_0000_0000_0000_0000,
            ee == e * e,
    ;
    assert(xc * b == 0x8000_0000 * wb + r3b) by (nonlinear_arith)
        requires
            xc == 0x8000_0000 * w + r3,
            wb == w * b,
            r3b == r3 * b,
    ;
    assert(0x8000_0000_0000_0000 * wb == 0x4000_0000_0000_0000_0000_0000_0000_0000_0000_0000_0000_0000
        - ee + rt - 0x1_0000_0000 * r3b);
    // The size of each term.
    assert(9 * beta * 0x1_0000_0000 <= 9 * b);
    assert(-9 * b <= e <= 4 * b);
    assert(0 <= ee <= 81 * (b * b)) by (nonlinear_arith)
        requires
            ee == e * e,
            -9 * b <= e <= 9 * b,
    ;
    assert(b * b < 0x1_0000_0000_0000_0000 * b) by (nonlinear_arith)
        requires
            0 < b < 0x1_0000_0000_0000_0000,
    ;
    assert(0 <= r3b <= 0x7fff_ffff * b) by (nonlinear_arith)
        requires
            r3b == r3 * b,
            0 <= r3 <= 0x7fff_ffff,
            b > 0,
    ;
    assert(0 <= rt <= 0x2_0000_0000 * (0x8000_0000_0000_0000_0000_0000
        + 0x4_0000_0000_0000_0000)) by (nonlinear_arith)
        requires
            rt == (0x1_0000_0000 + rr) * t,
            0 <= rr < 0x1_0000_0000,
            0 <= t <= 0x8000_0000_0000_0000_0000_0000 + 0x4_0000_0000_0000_0000,
    ;
    assert(wb + 163 * b > 0x8000_0000_0000_0000_0000_0000_0000_0000);
    assert(wb <= 0x8000_0000_0000_0000_0000_0000_0000_0000 + 0x2_0000_0000_0000_0000
        + 0x10_0000_0000);
    assert(w >= 225) by (nonlinear_arith)
        requires
            wb == w * b,
            wb + 163 * b > 0x8000_0000_0000_0000_0000_0000_0000_0000,
            0 < b < 0x1_0000_0000_0000_0000,
    ;
    let est = w - 225;
    assert(est * b == wb - 225 * b && (est + 388) * b == wb + 163 * b) by (nonlinear_arith)
        requires
            wb == w * b,
            est == w - 225,
    ;
    assert(est < 0x1_0000_0000_0000_0000) by (nonlinear_arith)
        requires
            est * b < 0x8000_0000_0000_0000_0000_0000_0000_0000,
            b >= 0x8000_0000_0000_0000,
            est >= 0,
    ;
}

/// What one operation on a 64-bit word does, in arithmetic terms. `which`
/// picks the operation, so that a call brings in one fact and no more.
proof fn lemma_word_ops(v: u64, which: u64)
    by (bit_vector)
    ensures
        which == 0 ==> (v as u32) as u64 == v % 0x1_0000_0000,
        which == 1 ==> v >> 32 == v / 0x1_0000_0000,
        which == 2 ==> v >> 31 == v / 0x8000_0000,
        which == 3 ==> v >> 21 == v / 0x20_0000,
        which == 4 ==> v & 0xffff_ffff == v % 0x1_0000_0000,
        which == 5 ==> v << 1 == ((2 * v) % 0x1_0000_0000_0000_0000) as u64,
        which == 6 && v < 0x0020_0000_0000_0000 ==> v << 11 == v * 2048,
{
}

/// The decrements after the full-width step, which may pass through zero:
/// the result is the whole sum less 225 all the same.
proof fn lemma_decrements(upper: u64, lower: u64, doubled: int)
    requires
        0 <= doubled,
        upper == doubled % 0x1_0000_0000_0000_0000,
        225 <= doubled + lower < 0x1_0000_0000_0000_0000 + 225,
    ensures
        upper.wrapping_add(lower).wrapping_sub(2).wrapping_sub(1).wrapping_sub(2).wrapping_sub(220)
            == doubled + lower - 225,
{
}

proof fn lemma_word_product(x: int, y: int)
    by (nonlinear_arith)
    requires
        0 <= x < 0x1_0000_0000,
        0 <= y < 0x1_0000_0000,
    ensures
        0 <= x * y <= 0xffff_ffff * 0xffff_ffff,
{
}

/// The half-width part of the estimate: the linear first estimate, three
/// Newton-Raphson steps in 32-bit words, and the decrement that follows them.
fn half_width_steps(b_uq1_hw: u32) -> (x: u32)
    requires
        b_uq1_hw >= 0x8000_0000,
    ensures
        x == half_width_estimate(b_uq1_hw as int),
{
    let ghost beta = b_uq1_hw as int;
    // 3/4 + 1/sqrt(2) - 1, truncated to 32 fractional bits.
    let c_hw: u32 = 0x7504_F333;
    let mut x_uq0_hw: u32 = c_hw.wrapping_sub(b_uq1_hw);
    let ghost x0 = 0x1_7504_F333 - beta;
    let ghost x1 = half_step(x0, beta);
    let ghost x2 = half_step(x1, beta);
    let ghost x3 = half_step(x2, beta);
    let mut idx: usize = 0;
    while idx < 3
        invariant
            idx <= 3,
            b_uq1_hw == beta,
            x1 == half_step(x0, beta),
            x2 == half_step(x1, beta),
            x3 == half_step(x2, beta),
            x_uq0_hw == (if idx == 0 {
                x0
            } else if idx == 1 {
                x1
            } else if idx == 2 {
                x2
            } else {
                x3
            }),
        decreases 3 - idx,
    {
        let ghost before = x_uq0_hw as int;
        // 2 - b * x, where "0 - ..." stands for "2 - ..." with one integer bit.
        let product: u64 = (x_uq0_hw as u64).wrapping_mul(b_uq1_hw as u64);
        let negated: u64 = 0u64.wrapping_sub(product >> 32);
        let corr_uq1_hw: u32 = #[verifier::truncate]
        (negated as u32);
        let scaled: u64 = (x_uq0_hw as u64).wrapping_mul(corr_uq1_hw as u64);
        proof {
            reveal(half_step);
            lemma_word_product(before, beta);
            lemma_word_product(before, corr_uq1_hw as int);
            lemma_word_ops(product, 1);
            lemma_word_ops(negated, 0);
            lemma_word_ops(scaled, 2);
            lemma_word_ops(scaled >> 31, 0);
            let p = (before * beta) / 0x1_0000_0000;
            assert(product == before * beta);
            assert(negated == (if p == 0 {
                0
            } else {
                0x1_0000_0000_0000_0000 - p
            }));
            assert(corr_uq1_hw == (0x1_0000_0000_0000_0000 - p) % 0x1_0000_0000);
            assert(scaled == before * corr_uq1_hw);
        }
        x_uq0_hw = #[verifier::truncate]
        ((scaled >> 31) as u32);
        proof {
            assert(x_uq0_hw == half_step(before, beta));
        }
        idx += 1;
    }
    // The estimate may have wrapped from just under one to zero; the
    // decrement brings it back.
    x_uq0_hw.wrapping_sub(1)
}

/// The full-width part of the estimate: one Newton-Raphson step that
/// multiplies by halves, and the decrements that keep the estimate below the
/// reciprocal.
fn full_width_step(x_uq0_hw: u32, b_uq1_hw: u32, blo: u64) -> (x: u64)
    requires
        blo < 0x1_0000_0000,
        0 < x_uq0_hw * b_uq1_hw + (x_uq0_hw * blo) / 0x1_0000_0000 - 1 < 0x1_0000_0000_0000_0000,
        0 <= full_step(x_uq0_hw as int, b_uq1_hw as int, blo as int) < 0x1_0000_0000_0000_0000,
    ensures
        x == full_step(x_uq0_hw as int, b_uq1_hw as int, blo as int),
{
    let x_wide: u64 = x_uq0_hw as u64;
    let high_product: u64 = x_wide.wrapping_mul(b_uq1_hw as u64);
    let low_product: u64 = x_wide.wrapping_mul(blo);
    proof {
        lemma_word_product(x_wide as int, b_uq1_hw as int);
        lemma_word_product(x_wide as int, blo as int);
        lemma_word_ops(low_product, 1);
        assert(high_product == x_wide * b_uq1_hw);
        assert(low_product == x_wide * blo);
    }
    let sum: u64 = high_product.wrapping_add(low_product >> 32).wrapping_sub(1);
    let corr_uq1: u64 = 0u64.wrapping_sub(sum);
    assert(sum == x_uq0_hw * b_uq1_hw + (x_uq0_hw * blo) / 0x1_0000_0000 - 1);
    assert(corr_uq1 == 0x1_0000_0000_0000_0000 - sum);
    let lo_corr: u64 = corr_uq1 & 0xffff_ffff;
    let hi_corr: u64 = corr_uq1 >> 32;
    let high_part: u64 = x_wide.wrapping_mul(hi_corr);
    let low_part: u64 = x_wide.wrapping_mul(lo_corr);
    proof {
        lemma_word_ops(corr_uq1, 4);
        lemma_word_ops(corr_uq1, 1);
        lemma_word_product(x_wide as int, lo_corr as int);
        lemma_word_product(x_wide as int, hi_corr as int);
        assert(high_part == x_wide * hi_corr);
        assert(low_part == x_wide * lo_corr);
        lemma_word_ops(high_part, 5);
        lemma_word_ops(low_part, 2);
    }
    let upper: u64 = high_part << 1;
    let lower: u64 = low_part >> 31;
    proof {
        let doubled = 2 * (x_wide * hi_corr);
        assert(doubled + lower - 225 == full_step(x_uq0_hw as int, b_uq1_hw as int, blo as int))
            by {
            reveal(full_step);
        }
        lemma_decrements(upper, lower, doubled);
    }
    let mut x_uq0: u64 = upper.wrapping_add(lower).wrapping_sub(2);
    x_uq0 = x_uq0.wrapping_sub(1);
    // Account for a possible overflow of the half-width steps.
    x_uq0 = x_uq0.wrapping_sub(2);
    // The estimate is now within 220 units of the last place of the true
    // reciprocal. Taking them off keeps it below.
    x_uq0.wrapping_sub(220)
}

/// The estimate of the reciprocal of a 53-bit significand, step by step:
/// the half-width estimate for the upper 32 bits of the divisor, then the
/// full-width step with the 21 bits that are left.
pub open spec fn reciprocal_of(b_significand: int) -> int {
    let beta = b_significand / 0x20_0000;
    let blo = (b_significand % 0x20_0000) * 2048;
    full_step(half_width_estimate(beta), beta, blo)
}

/// An estimate of the reciprocal of a significand in [1, 2), as a fraction
/// of 64 bits. It is below the true reciprocal, by less than 388 units of
/// the last place.
///
/// The start is the linear estimate `3/4 + 1/sqrt(2) - b/2`. Three
/// Newton-Raphson steps `x * (2 - b * x)` run at half width, one more at full
/// width. All arithmetic is fixed-width and wraps.
pub fn reciprocal_estimate(b_significand: u64) -> (x: u64)
    requires
        0x0010_0000_0000_0000 <= b_significand < 0x0020_0000_0000_0000,
    ensures
        x == reciprocal_of(b_significand as int),
        x * b_significand < 0x10_0000_0000_0000_0000_0000_0000_0000,
        (x + 388) * b_significand >= 0x10_0000_0000_0000_0000_0000_0000_0000,
{
    proof {
        lemma_word_ops(b_significand, 6);
        lemma_word_ops(b_significand, 3);
    }
    // The divisor as a fixed-point number with one integer bit.
    let b_uq1: u64 = b_significand << 11;
    // Its upper half, truncated.
    let b_uq1_hw: u32 = #[verifier::truncate]
    ((b_significand >> 21) as u32);
    let x_uq0_hw: u32 = half_width_steps(b_uq1_hw);
    let blo: u64 = b_uq1 & 0xffff_ffff;
    proof {
        lemma_word_ops(b_uq1, 4);
        lemma_half_width_estimate(b_uq1_hw as int);
        lemma_full_step(x_uq0_hw as int, b_uq1_hw as int, blo as int);
    }
    let estimate: u64 = full_width_step(x_uq0_hw, b_uq1_hw, blo);
    proof {
        let b = b_uq1_hw * 0x1_0000_0000 + blo;
        assert(b == b_significand * 2048);
        assert(estimate * b == 2048 * (estimate * b_significand) && (estimate + 388) * b == 2048
            * ((estimate + 388) * b_significand)) by (nonlinear_arith)
            requires
                b == b_significand * 2048,
        ;
    }
    estimate
}

} // verus!
