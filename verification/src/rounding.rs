//! Round-to-nearest, ties-to-even, stated over exact quotients of naturals.

use vstd::prelude::*;
use vstd::arithmetic::power2::pow2;
use vstd::arithmetic::power2::lemma_pow2_pos;
use vstd::arithmetic::power2::lemma_pow2_unfold;
use vstd::arithmetic::power2::lemma2_to64;
use vstd::arithmetic::div_mod::lemma_fundamental_div_mod;
use vstd::arithmetic::div_mod::lemma_mod_multiples_vanish;
use crate::soft_f64::SoftF64;
use crate::sticky::approximates;
use crate::soft_f64::magnitude;
use crate::soft_f64::exponent_of;
use crate::soft_f64::significand_of;

verus! {

/// `r` is the sign-free encoding that round-to-nearest, ties-to-even gives the
/// exact quotient `num / den`, counted in units of 2^-1074.
///
/// Sign-free encodings up to infinity are ordered as their magnitudes are, so
/// the neighbours of `r` among the representable values are `r - 1` and
/// `r + 1`. The quotient has to lie between the midpoints towards those two;
/// it may lie on a midpoint only when `r` is even. Infinity is the answer from
/// the midpoint between the largest finite value and 2^1024 upwards.
pub open spec fn is_nearest_even(num: nat, den: nat, r: u64) -> bool {
    &&& r <= SoftF64::EXPONENT_MASK
    &&& r > 0 ==> {
        let twice_mid = (magnitude((r - 1) as u64) + magnitude(r)) * den;
        if r % 2 == 0 {
            twice_mid <= 2 * num
        } else {
            twice_mid < 2 * num
        }
    }
    &&& r < SoftF64::EXPONENT_MASK ==> {
        let twice_mid = (magnitude(r) + magnitude((r + 1) as u64)) * den;
        if r % 2 == 0 {
            2 * num <= twice_mid
        } else {
            2 * num < twice_mid
        }
    }
}

/// The encoding built from an exponent `e >= 1` and a significand `m` that
/// carries its leading bit (none for a subnormal, where `e == 1`).
pub open spec fn packed(e: int, m: int) -> int {
    (e - 1) * 0x0010_0000_0000_0000 + m
}

/// The magnitude of a packed encoding is its significand times the unit of
/// its exponent. A significand of 2^53 is the carry into the next exponent.
pub proof fn lemma_magnitude_packed(e: int, m: int)
    requires
        1 <= e <= 2047,
        0 <= m <= 0x0020_0000_0000_0000,
        e == 1 || m >= 0x0010_0000_0000_0000,
        packed(e, m) <= SoftF64::EXPONENT_MASK,
    ensures
        magnitude(packed(e, m) as u64) == m * pow2((e - 1) as nat),
{
    let p = packed(e, m) as u64;
    lemma2_to64();
    if m < 0x0010_0000_0000_0000 {
        assert(p == m);
        assert(exponent_of(p) == 0);
        assert(m * 1 == m);
    } else if m < 0x0020_0000_0000_0000 {
        assert(p == e * 0x0010_0000_0000_0000 + (m - 0x0010_0000_0000_0000));
        assert(exponent_of(p) == e);
        assert(significand_of(p) == m - 0x0010_0000_0000_0000);
    } else {
        assert(p == (e + 1) * 0x0010_0000_0000_0000);
        assert(exponent_of(p) == e + 1);
        assert(significand_of(p) == 0);
        lemma_pow2_unfold(e as nat);
        assert(0x0010_0000_0000_0000 * (2 * pow2((e - 1) as nat)) == 0x0020_0000_0000_0000
            * pow2((e - 1) as nat)) by (nonlinear_arith);
    }
}

/// A larger sign-free encoding has a larger magnitude, step by step.
pub proof fn lemma_magnitude_step(x: u64)
    requires
        x < SoftF64::EXPONENT_MASK,
    ensures
        magnitude(x) < magnitude((x + 1) as u64),
{
    let e0 = exponent_of(x) as int;
    let f = significand_of(x) as int;
    let e = if e0 == 0 { 1 } else { e0 };
    let m = if e0 == 0 { f } else { f + 0x0010_0000_0000_0000 };
    assert(packed(e, m) == x);
    lemma_magnitude_packed(e, m);
    lemma_magnitude_packed(e, m + 1);
    lemma_pow2_pos((e - 1) as nat);
    assert(m * pow2((e - 1) as nat) < (m + 1) * pow2((e - 1) as nat)) by (nonlinear_arith)
        requires
            pow2((e - 1) as nat) > 0,
    ;
}

/// Magnitude is monotonic over the sign-free encodings up to infinity.
pub proof fn lemma_magnitude_monotonic(x: u64, y: u64)
    requires
        x <= y <= SoftF64::EXPONENT_MASK,
    ensures
        magnitude(x) <= magnitude(y),
        x < y ==> magnitude(x) < magnitude(y),
    decreases y - x,
{
    if x < y {
        lemma_magnitude_step(x);
        lemma_magnitude_monotonic((x + 1) as u64, y);
    }
}

/// Round-to-nearest, ties-to-even names one encoding: two encodings that both
/// round the same quotient are the same.
pub proof fn lemma_nearest_even_unique(num: nat, den: nat, r1: u64, r2: u64)
    requires
        den > 0,
        is_nearest_even(num, den, r1),
        is_nearest_even(num, den, r2),
    ensures
        r1 == r2,
{
    lemma_nearest_even_order(num, den, r1, r2);
    lemma_nearest_even_order(num, den, r2, r1);
}

proof fn lemma_nearest_even_order(num: nat, den: nat, r1: u64, r2: u64)
    requires
        den > 0,
        is_nearest_even(num, den, r1),
        is_nearest_even(num, den, r2),
    ensures
        r1 >= r2,
{
    if r1 < r2 {
        let a = magnitude(r1) as int;
        let b = magnitude((r1 + 1) as u64) as int;
        let c = magnitude((r2 - 1) as u64) as int;
        let d = magnitude(r2) as int;
        lemma_magnitude_monotonic(r1, (r2 - 1) as u64);
        lemma_magnitude_monotonic((r1 + 1) as u64, r2);
        let n = num as int;
        let k = den as int;
        if r1 + 1 == r2 {
            assert(a == c && b == d);
            assert(r1 % 2 != 0 || r2 % 2 != 0);
        } else {
            assert(a < c && b < d);
            assert((a + b) * k < (c + d) * k) by (nonlinear_arith)
                requires
                    a + b < c + d,
                    k > 0,
            ;
        }
    }
}

/// The rounding step: once the quotient is known to lie between the packed
/// encoding `(e, m)` and its successor, comparing it with their midpoint
/// decides which of the two is the nearest, the even one on a tie.
pub proof fn lemma_round_from_floor(e: int, m: int, num: nat, den: nat)
    requires
        1 <= e <= 2046,
        0 <= m < 0x0020_0000_0000_0000,
        e == 1 || m >= 0x0010_0000_0000_0000,
        den > 0,
        m * pow2((e - 1) as nat) * den <= num,
        num < (m + 1) * pow2((e - 1) as nat) * den,
    ensures
        packed(e, m) < SoftF64::EXPONENT_MASK,
        2 * num < (2 * m + 1) * pow2((e - 1) as nat) * den ==> is_nearest_even(
            num,
            den,
            packed(e, m) as u64,
        ),
        2 * num > (2 * m + 1) * pow2((e - 1) as nat) * den ==> is_nearest_even(
            num,
            den,
            (packed(e, m) + 1) as u64,
        ),
        2 * num == (2 * m + 1) * pow2((e - 1) as nat) * den ==> is_nearest_even(
            num,
            den,
            (packed(e, m) + m % 2) as u64,
        ),
{
    let u = pow2((e - 1) as nat) as int;
    let p = packed(e, m) as u64;
    let n = num as int;
    let k = den as int;
    let lo = m * u;
    let hi = (m + 1) * u;
    lemma_pow2_pos((e - 1) as nat);
    lemma_magnitude_packed(e, m);
    lemma_magnitude_packed(e, m + 1);
    assert(magnitude(p) == lo);
    assert(magnitude((p + 1) as u64) == hi);
    assert((2 * m + 1) * u * k == (lo + hi) * k) by (nonlinear_arith)
        requires
            lo == m * u,
            hi == (m + 1) * u,
    ;
    assert(lo < hi) by (nonlinear_arith)
        requires
            lo == m * u,
            hi == (m + 1) * u,
            u > 0,
    ;
    assert(p % 2 == m % 2);
    if p > 0 {
        let below = magnitude((p - 1) as u64) as int;
        lemma_magnitude_step((p - 1) as u64);
        assert((below + lo) * k < 2 * n) by (nonlinear_arith)
            requires
                below < lo,
                lo * k <= n,
                k > 0,
        ;
    }
    if p + 1 < SoftF64::EXPONENT_MASK {
        let above = magnitude((p + 2) as u64) as int;
        lemma_magnitude_step((p + 1) as u64);
        assert(2 * n < (hi + above) * k) by (nonlinear_arith)
            requires
                hi < above,
                n < hi * k,
                k > 0,
        ;
    }
}

/// Rounding by a tail of discarded bits. The significand `m` is followed by a
/// tail below `unit`, and the two together stand for the exact quotient
/// scaled by `unit`. The encoding goes up by one when the tail is over half a
/// unit, or is just half a unit while `m` is odd.
pub proof fn lemma_round_with_tail(
    e: int,
    m: int,
    tail: int,
    unit: int,
    g: int,
    num: nat,
    den: nat,
)
    requires
        1 <= e <= 2046,
        0 <= m < 0x0020_0000_0000_0000,
        e == 1 || m >= 0x0010_0000_0000_0000,
        g == 1 || g == 2,
        unit > 0,
        unit % (4 * g) == 0,
        0 <= tail < unit,
        den > 0,
        approximates(m * unit + tail, unit * num, (pow2((e - 1) as nat) * den) as int, g),
    ensures
        is_nearest_even(
            num,
            den,
            (packed(e, m) + (if 2 * tail > unit {
                1
            } else if 2 * tail == unit {
                m % 2
            } else {
                0
            })) as u64,
        ),
{
    let u = pow2((e - 1) as nat) as int;
    lemma_pow2_pos((e - 1) as nat);
    let k = den as int;
    let n = num as int;
    let d = u * k;
    assert(d > 0) by (nonlinear_arith)
        requires
            d == u * k,
            u > 0,
            k > 0,
    ;
    let z = m * unit + tail;
    let floor_side = m * d;
    let half = unit / 2;
    assert(unit == 2 * half) by {
        if g == 1 {
            assert(unit % 4 == 0);
        } else {
            assert(unit % 8 == 0);
        }
    }
    // All comparisons are made after scaling by `unit`.
    assert(z * d == unit * floor_side + tail * d) by (nonlinear_arith)
        requires
            z == m * unit + tail,
            floor_side == m * d,
    ;
    assert((z - g) * d == unit * floor_side + (tail - g) * d) by (nonlinear_arith)
        requires
            z == m * unit + tail,
            floor_side == m * d,
    ;
    assert((z + g) * d == unit * floor_side + (tail + g) * d) by (nonlinear_arith)
        requires
            z == m * unit + tail,
            floor_side == m * d,
    ;
    assert(unit * ((m + 1) * d) == unit * floor_side + unit * d) by (nonlinear_arith)
        requires
            floor_side == m * d,
    ;
    assert(unit * ((2 * m + 1) * d) == 2 * (unit * floor_side) + 2 * (half * d))
        by (nonlinear_arith)
        requires
            floor_side == m * d,
            unit == 2 * half,
    ;
    let scaled = unit * n;
    // Where the tail stands against nothing, half a unit and a whole unit.
    if z * d == scaled {
        lemma_tail_side(tail, 0, d);
        lemma_tail_side(tail, half, d);
        lemma_tail_side(half, tail, d);
        lemma_tail_side(tail, unit - 1, d);
        lemma_tail_side(unit - 1, unit, d);
    } else {
        assert(tail % (2 * g) == g && half % (2 * g) == 0) by {
            lemma_tail_residue(m, unit, tail, g);
        }
        assert(g <= tail <= unit - g);
        lemma_tail_side(0, tail - g, d);
        lemma_tail_side(tail + g, unit, d);
        if 2 * tail > unit {
            assert(tail - g >= half);
            lemma_tail_side(half, tail - g, d);
        } else {
            assert(tail + g <= half);
            lemma_tail_side(tail + g, half, d);
        }
    }
    assert(0 * d == 0);
    assert(unit * floor_side <= scaled);
    assert(scaled < unit * ((m + 1) * d));
    lemma_unit_cancel(floor_side, n, unit);
    lemma_unit_cancel(n, (m + 1) * d, unit);
    lemma_unit_cancel((2 * m + 1) * d, 2 * n, unit);
    lemma_unit_cancel(2 * n, (2 * m + 1) * d, unit);
    assert(unit * (2 * n) == 2 * scaled) by (nonlinear_arith)
        requires
            scaled == unit * n,
    ;
    assert(m * u * k == floor_side && (m + 1) * u * k == (m + 1) * d && (2 * m + 1) * u * k == (2
        * m + 1) * d) by (nonlinear_arith)
        requires
            d == u * k,
            floor_side == m * d,
    ;
    lemma_round_from_floor(e, m, num, den);
}

proof fn lemma_tail_side(a: int, b: int, d: int)
    by (nonlinear_arith)
    requires
        d > 0,
    ensures
        a <= b ==> a * d <= b * d,
        a < b ==> a * d < b * d,
        a == b ==> a * d == b * d,
{
}

proof fn lemma_unit_cancel(a: int, b: int, unit: int)
    by (nonlinear_arith)
    requires
        unit > 0,
    ensures
        unit * a <= unit * b <==> a <= b,
        unit * a < unit * b <==> a < b,
{
}

proof fn lemma_tail_residue(m: int, unit: int, tail: int, g: int)
    requires
        g == 1 || g == 2,
        unit > 0,
        unit % (4 * g) == 0,
        (m * unit + tail) % (2 * g) == g,
    ensures
        tail % (2 * g) == g,
        (unit / 2) % (2 * g) == 0,
{
    let c = unit / (4 * g);
    lemma_fundamental_div_mod(unit, 4 * g);
    assert(m * unit + tail == (2 * g) * (2 * c * m) + tail) by (nonlinear_arith)
        requires
            unit == (4 * g) * c,
    ;
    lemma_mod_multiples_vanish(2 * c * m, tail, 2 * g);
    assert(unit / 2 == (2 * g) * c + 0) by (nonlinear_arith)
        requires
            unit == (4 * g) * c,
            g == 1 || g == 2,
    ;
    lemma_mod_multiples_vanish(c, 0, 2 * g);
}

/// Rounding by a remainder. The exact quotient is `m + dr / (2 * bs)` units of
/// the exponent `e`, where `dr` is twice the remainder that a division by
/// `bs` left. The remainder may be up to half a divisor too large, which
/// means that `m` is one below the true floor. Either way the encoding goes up
/// by one exactly when `dr`, plus one for an odd `m`, is over the divisor.
pub proof fn lemma_round_with_remainder(e: int, m: int, dr: int, bs: int, num: nat, den: nat)
    requires
        1 <= e <= 2046,
        0 <= m < 0x0020_0000_0000_0000,
        e == 1 || m >= 0x0010_0000_0000_0000,
        bs > 0,
        den > 0,
        0 <= dr < 3 * bs,
        2 * num * bs == (2 * m * bs + dr) * (pow2((e - 1) as nat) * den),
    ensures
        is_nearest_even(
            num,
            den,
            (packed(e, m) + (if dr + m % 2 > bs {
                1int
            } else {
                0int
            })) as u64,
        ),
{
    let u = pow2((e - 1) as nat) as int;
    lemma_pow2_pos((e - 1) as nat);
    let k = den as int;
    let n = num as int;
    let d = u * k;
    assert(d > 0) by (nonlinear_arith)
        requires
            d == u * k,
            u > 0,
            k > 0,
    ;
    // Everything is compared after scaling by twice the divisor.
    let w = 2 * bs;
    let scaled = 2 * n * bs;
    assert(scaled == w * n) by (nonlinear_arith)
        requires
            scaled == 2 * n * bs,
            w == 2 * bs,
    ;
    assert((2 * m * bs + dr) * d == w * (m * d) + dr * d) by (nonlinear_arith)
        requires
            w == 2 * bs,
    ;
    assert(w * ((m + 1) * d) == w * (m * d) + w * d) by (nonlinear_arith);
    assert(w * ((m + 2) * d) == w * (m * d) + 2 * (w * d)) by (nonlinear_arith);
    assert(w * ((2 * m + 1) * d) == 2 * (w * (m * d)) + 2 * (bs * d)) by (nonlinear_arith)
        requires
            w == 2 * bs,
    ;
    assert(w * ((2 * m + 3) * d) == 2 * (w * (m * d)) + 6 * (bs * d)) by (nonlinear_arith)
        requires
            w == 2 * bs,
    ;
    assert(w * d == 2 * (bs * d)) by (nonlinear_arith)
        requires
            w == 2 * bs,
    ;
    lemma_tail_side(0, dr, d);
    lemma_tail_side(dr, bs, d);
    lemma_tail_side(bs, dr, d);
    lemma_tail_side(dr, 2 * bs, d);
    lemma_tail_side(2 * bs, dr, d);
    lemma_tail_side(dr, 3 * bs - 1, d);
    lemma_tail_side(3 * bs - 1, 3 * bs, d);
    assert((2 * bs) * d == 2 * (bs * d) && (3 * bs) * d == 3 * (bs * d) && 0 * d == 0)
        by (nonlinear_arith);
    assert(m * u * k == m * d && (m + 1) * u * k == (m + 1) * d && (m + 2) * u * k == (m + 2) * d
        && (2 * m + 1) * u * k == (2 * m + 1) * d && (2 * m + 3) * u * k == (2 * m + 3) * d)
        by (nonlinear_arith)
        requires
            d == u * k,
    ;
    assert(w * (2 * n) == 2 * scaled) by (nonlinear_arith)
        requires
            scaled == w * n,
    ;
    if dr < 2 * bs {
        lemma_unit_cancel(m * d, n, w);
        lemma_unit_cancel(n, (m + 1) * d, w);
        lemma_unit_cancel((2 * m + 1) * d, 2 * n, w);
        lemma_unit_cancel(2 * n, (2 * m + 1) * d, w);
        lemma_round_from_floor(e, m, num, den);
    } else {
        // The true floor is m + 1, and the quotient is below the midpoint
        // that follows it.
        lemma_unit_cancel((m + 1) * d, n, w);
        lemma_unit_cancel(n, (m + 2) * d, w);
        lemma_unit_cancel(2 * n, (2 * m + 3) * d, w);
        if m + 1 < 0x0020_0000_0000_0000 {
            lemma_round_from_floor(e, m + 1, num, den);
        } else if e < 2046 {
            // A carry into the next exponent, where the unit is twice as large.
            lemma_pow2_unfold(e as nat);
            let up = pow2(e as nat) as int;
            assert(0x0010_0000_0000_0000 * up * k == (m + 1) * d && 0x0010_0000_0000_0001 * up * k
                == (m + 3) * d && 0x0020_0000_0000_0001 * up * k == (2 * m + 3) * d + d)
                by (nonlinear_arith)
                requires
                    up == 2 * u,
                    d == u * k,
                    m + 1 == 0x0020_0000_0000_0000,
            ;
            assert((m + 3) * d == (m + 2) * d + d) by (nonlinear_arith);
            lemma_round_from_floor(e + 1, 0x0010_0000_0000_0000, num, den);
            assert(packed(e + 1, 0x0010_0000_0000_0000) == packed(e, m) + 1);
        } else {
            lemma_pow2_unfold(2045);
            lemma_pow2_unfold(2046);
            assert(0x003f_ffff_ffff_ffff * pow2(2045) * k <= 0x0020_0000_0000_0000 * d * 2)
                by (nonlinear_arith)
                requires
                    d == u * k,
                    u == pow2(2045),
                    k > 0,
                    u > 0,
            ;
            assert(0x0020_0000_0000_0000 * d == (m + 1) * d);
            lemma_beyond_largest(num, den);
            assert(packed(e, m) + 1 == SoftF64::EXPONENT_MASK);
        }
    }
}

/// From the midpoint between the largest finite value and 2^1024 upwards,
/// the nearest encoding is infinity.
pub proof fn lemma_beyond_largest(num: nat, den: nat)
    requires
        2 * num >= 0x003f_ffff_ffff_ffff * pow2(2045) * den,
    ensures
        is_nearest_even(num, den, SoftF64::EXPONENT_MASK),
{
    let u = pow2(2045) as int;
    lemma_magnitude_packed(2046, 0x001f_ffff_ffff_ffff);
    lemma_magnitude_packed(2046, 0x0020_0000_0000_0000);
    assert(packed(2046, 0x0020_0000_0000_0000) == SoftF64::EXPONENT_MASK);
    assert(packed(2046, 0x001f_ffff_ffff_ffff) == SoftF64::EXPONENT_MASK - 1);
    assert(0x001f_ffff_ffff_ffff * u + 0x0020_0000_0000_0000 * u == 0x003f_ffff_ffff_ffff * u)
        by (nonlinear_arith);
}

/// Up to half the smallest subnormal, the nearest encoding is zero.
pub proof fn lemma_below_smallest(num: nat, den: nat)
    requires
        2 * num <= den,
    ensures
        is_nearest_even(num, den, 0),
{
    lemma_magnitude_packed(1, 0);
    lemma_magnitude_packed(1, 1);
    lemma2_to64();
    assert(packed(1, 0) == 0 && packed(1, 1) == 1);
    assert((0 + 1) * den == den) by (nonlinear_arith);
}

/// Rounding looks at the quotient only: a numerator and a denominator
/// scaled alike round to the same encoding.
pub proof fn lemma_nearest_even_scaled(num: nat, den: nat, k: nat, r: u64)
    requires
        k > 0,
    ensures
        is_nearest_even(num, den, r) <==> is_nearest_even(num * k, den * k, r),
{
    let n = num as int;
    let d = den as int;
    let kk = k as int;
    assert(2 * (n * kk) == (2 * n) * kk) by (nonlinear_arith);
    if r > 0 {
        let m = magnitude((r - 1) as u64) + magnitude(r);
        assert(m * (d * kk) == (m * d) * kk) by (nonlinear_arith);
        lemma_scale_side(m * d, 2 * n, kk);
        lemma_scale_side(2 * n, m * d, kk);
    }
    if r < SoftF64::EXPONENT_MASK {
        let m = magnitude(r) + magnitude((r + 1) as u64);
        assert(m * (d * kk) == (m * d) * kk) by (nonlinear_arith);
        lemma_scale_side(m * d, 2 * n, kk);
        lemma_scale_side(2 * n, m * d, kk);
    }
}

proof fn lemma_scale_side(a: int, b: int, k: int)
    by (nonlinear_arith)
    requires
        k > 0,
    ensures
        a <= b <==> a * k <= b * k,
        a < b <==> a * k < b * k,
{
}

/// A finite or infinite encoding is the nearest one to its own magnitude.
pub proof fn lemma_exact_is_nearest(x: u64)
    requires
        x <= SoftF64::EXPONENT_MASK,
    ensures
        is_nearest_even(magnitude(x), 1, x),
{
    if x > 0 {
        lemma_magnitude_step((x - 1) as u64);
    }
    if x < SoftF64::EXPONENT_MASK {
        lemma_magnitude_step(x);
    }
}

} // verus!
