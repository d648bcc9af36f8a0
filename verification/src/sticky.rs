//! Right shifts that keep a sticky bit, and what they preserve.
//!
//! A result that has lost low bits still rounds as the exact value does, as
//! long as its lowest bit records that something nonzero was lost. This file
//! states that relation and shows that every step of the arithmetic keeps it.

use vstd::prelude::*;
use vstd::arithmetic::power2::pow2;
use vstd::arithmetic::power2::lemma_pow2_pos;
use vstd::arithmetic::power2::lemma2_to64;
use vstd::arithmetic::power2::lemma2_to64_rest;
use vstd::arithmetic::div_mod::lemma_fundamental_div_mod;
use vstd::arithmetic::div_mod::lemma_mod_bound;
use vstd::arithmetic::div_mod::lemma_mod_multiples_vanish;
use vstd::bits::lemma_u64_shl_is_mul;
use vstd::bits::lemma_u64_shr_is_div;
use vstd::bits::lemma_u64_low_bits_mask_is_mod;
use vstd::bits::low_bits_mask;
use vstd::arithmetic::div_mod::lemma_fundamental_div_mod_converse;
use vstd::arithmetic::power2::lemma_pow2_adds;

verus! {

/// The quotient `x / d` with its lowest bit forced to one when the division
/// left a remainder.
pub open spec fn jam(x: int, d: int) -> int {
    let q = x / d;
    if x % d != 0 && q % 2 == 0 {
        q + 1
    } else {
        q
    }
}

/// `z` stands for the exact quotient `num / den` as far as rounding at a
/// coarser position can tell: either it is that quotient, or it is an odd
/// multiple of `g` and the quotient lies strictly within `g` of it.
pub open spec fn approximates(z: int, num: int, den: int, g: int) -> bool {
    ||| z * den == num
    ||| (z % (2 * g) == g && (z - g) * den < num && num < (z + g) * den)
}

/// A jammed quotient approximates the exact one.
pub proof fn lemma_jam_approximates(x: int, d: int)
    requires
        0 <= x,
        0 < d,
    ensures
        approximates(jam(x, d), x, d, 1),
        0 <= jam(x, d) <= x,
        x < d ==> jam(x, d) <= 1,
{
    let q = x / d;
    let r = x % d;
    lemma_fundamental_div_mod(x, d);
    lemma_mod_bound(x, d);
    assert(x == d * q + r);
    assert(q >= 0 && q <= x && (x < d ==> q == 0)) by (nonlinear_arith)
        requires
            x == d * q + r,
            0 <= r < d,
            0 <= x,
    ;
    assert(d * q == q * d) by (nonlinear_arith);
    assert((q + 1) * d == q * d + d) by (nonlinear_arith);
    assert((q - 1) * d == q * d - d) by (nonlinear_arith);
    assert((q + 2) * d == q * d + 2 * d) by (nonlinear_arith);
    if r != 0 && q % 2 == 0 {
        assert(q + 1 <= x) by (nonlinear_arith)
            requires
                x == d * q + r,
                0 < r,
                0 < d,
                q >= 0,
        ;
        assert(jam(x, d) == q + 1);
        assert((q + 1) % 2 == 1);
        assert((q + 1 - 1) * d < x);
        assert(x < (q + 1 + 1) * d);
        assert(approximates(q + 1, x, d, 1));
    } else if r != 0 {
        assert(jam(x, d) == q);
        assert(q % 2 == 1);
        assert(approximates(q, x, d, 1));
    } else {
        assert(jam(x, d) == q);
        assert(approximates(q, x, d, 1));
    }
}

/// Jamming a value that already approximates a quotient gives a value that
/// approximates the quotient divided further.
pub proof fn lemma_jam_of_approximation(z: int, num: int, den: int, g: int, d: int)
    requires
        0 <= z,
        0 < den,
        g == 1 || g == 2,
        d == 2 || (d > 0 && d % 4 == 0),
        approximates(z, num, den, g),
    ensures
        approximates(jam(z, d), num, den * d, 1),
{
    let q = z / d;
    let r = z % d;
    lemma_fundamental_div_mod(z, d);
    lemma_mod_bound(z, d);
    assert(z == d * q + r);
    let j = jam(z, d);
    let dd = den * d;
    assert(j * dd == (j * d) * den) by (nonlinear_arith)
        requires
            dd == den * d,
    ;
    assert((j - 1) * dd == ((j - 1) * d) * den) by (nonlinear_arith)
        requires
            dd == den * d,
    ;
    assert((j + 1) * dd == ((j + 1) * d) * den) by (nonlinear_arith)
        requires
            dd == den * d,
    ;
    assert(d * q == q * d) by (nonlinear_arith);
    assert((q + 1) * d == q * d + d) by (nonlinear_arith);
    assert((q - 1) * d == q * d - d) by (nonlinear_arith);
    assert((q + 2) * d == q * d + 2 * d) by (nonlinear_arith);
    if z * den == num {
        if r == 0 {
            assert(j == q);
        } else {
            // q * d < z < (q + 1) * d, and j is the odd one of q and q + 1.
            assert((q * d) * den < z * den && z * den < ((q + 1) * d) * den) by (nonlinear_arith)
                requires
                    q * d < z,
                    z < (q + 1) * d,
                    den > 0,
            ;
            lemma_mul_le(((j - 1) * d), q * d, den);
            lemma_mul_le((q + 1) * d, (j + 1) * d, den);
        }
    } else {
        if d == 2 && g == 2 {
            // z is twice an odd number: halving it loses nothing.
            assert(z % 4 == 2);
            assert(r == 0 && j == q && q % 2 == 1);
            assert((q - 1) * d == z - 2 && (q + 1) * d == z + 2);
        } else {
            // z is an odd multiple of g, so it is no multiple of d, and the
            // quotient stays strictly between q * d and (q + 1) * d.
            if g == 1 {
                lemma_mod_of_sum(q, d, r, 2);
                assert(r % 2 == 1);
            } else {
                lemma_mod_of_sum(q, d, r, 4);
                assert(r % 4 == 2);
            }
            assert(r != 0 && q * d <= z - g && z + g <= (q + 1) * d);
            lemma_mul_le(q * d, z - g, den);
            lemma_mul_le(z + g, (q + 1) * d, den);
            lemma_mul_le(((j - 1) * d), q * d, den);
            lemma_mul_le((q + 1) * d, (j + 1) * d, den);
        }
    }
}

/// Scaling the quotient's numerator and denominator alike changes nothing.
pub proof fn lemma_approximates_scaled(z: int, num: int, den: int, g: int, k: int)
    requires
        k > 0,
    ensures
        approximates(z, num, den, g) <==> approximates(z, num * k, den * k, g),
{
    assert(z * (den * k) == (z * den) * k) by (nonlinear_arith);
    assert((z - g) * (den * k) == ((z - g) * den) * k) by (nonlinear_arith);
    assert((z + g) * (den * k) == ((z + g) * den) * k) by (nonlinear_arith);
    lemma_mul_cancel(z * den, num, k);
    lemma_mul_cancel((z - g) * den, num, k);
    lemma_mul_cancel(num, (z + g) * den, k);
}

/// Adding the approximation of a quotient to an even whole number, or taking
/// it away from one, approximates the exact sum or difference.
pub proof fn lemma_approximates_offset(a: int, z: int, num: int, den: int)
    requires
        a % 2 == 0,
        approximates(z, num, den, 1),
    ensures
        approximates(a + z, a * den + num, den, 1),
        approximates(a - z, a * den - num, den, 1),
{
    assert((a + z) * den == a * den + z * den) by (nonlinear_arith);
    assert((a - z) * den == a * den - z * den) by (nonlinear_arith);
    assert((a + z - 1) * den == a * den + (z - 1) * den) by (nonlinear_arith);
    assert((a + z + 1) * den == a * den + (z + 1) * den) by (nonlinear_arith);
    assert((a - z - 1) * den == a * den - (z + 1) * den) by (nonlinear_arith);
    assert((a - z + 1) * den == a * den - (z - 1) * den) by (nonlinear_arith);
    if z * den != num {
        assert(z % 2 == 1);
        assert((a + z) % 2 == 1);
        assert((a - z) % 2 == 1);
        assert((a - z - 1) * den < a * den - num);
        assert(a * den - num < (a - z + 1) * den);
    }
}

proof fn lemma_mul_cancel(a: int, b: int, k: int)
    by (nonlinear_arith)
    requires
        k > 0,
    ensures
        a < b <==> a * k < b * k,
        a == b <==> a * k == b * k,
{
}

proof fn lemma_jam_bits(x: u64, n: u64)
    by (bit_vector)
    requires
        0 < n < 64,
    ensures
        ({
            let q = x >> n;
            let sticky = if (x << ((64 - n) as u64)) != 0 { 1u64 } else { 0u64 };
            (q | sticky) == (if x & (((1u64 << n) - 1) as u64) != 0 && q % 2 == 0 {
                (q + 1) as u64
            } else {
                q
            })
        }),
{
}

/// Shifts `x` right by `n` places and sets the lowest bit of the result when
/// any of the bits shifted out was set.
pub fn shift_right_jam(x: u64, n: u32) -> (r: u64)
    requires
        0 < n < 64,
    ensures
        r == jam(x as int, pow2(n as nat) as int),
{
    proof {
        lemma_jam_bits(x, n as u64);
        lemma2_to64();
        lemma2_to64_rest();
        lemma_u64_shl_is_mul(1u64, n as u64);
        lemma_u64_shr_is_div(x, n as u64);
        lemma_u64_low_bits_mask_is_mod(x, n as nat);
        assert(low_bits_mask(n as nat) == pow2(n as nat) - 1);
    }
    let sticky: u64 = if (x << (64 - n)) != 0 { 1 } else { 0 };
    (x >> n) | sticky
}

proof fn lemma_wide_jam_bits(hi: u64, lo: u64, n: u64)
    by (bit_vector)
    requires
        0 < n < 64,
    ensures
        ({
            let mask = ((1u64 << n) - 1) as u64;
            let sticky = if (lo << ((64 - n) as u64)) != 0 { 1u64 } else { 0u64 };
            let whole = (hi << ((64 - n) as u64)) | (lo >> n);
            &&& whole == ((hi & mask) << ((64 - n) as u64)) + (lo >> n)
            &&& (sticky == 1) == (lo & mask != 0)
            &&& whole | sticky == (if sticky == 1 && whole % 2 == 0 {
                (whole + 1) as u64
            } else {
                whole
            })
        }),
{
}

/// Shifts the 128-bit value `high : low` right by `n` places and sets the
/// lowest bit of the result when any of the bits shifted out was set.
pub fn wide_shift_right_jam(high: u64, low: u64, n: u32) -> (r: (u64, u64))
    requires
        0 < n < 64,
    ensures
        r.0 * 0x1_0000_0000_0000_0000 + r.1 == jam(
            high * 0x1_0000_0000_0000_0000 + low,
            pow2(n as nat) as int,
        ),
{
    proof {
        lemma_wide_jam_bits(high, low, n as u64);
        lemma2_to64();
        lemma2_to64_rest();
        let d = pow2(n as nat) as int;
        let c = pow2((64 - n) as nat) as int;
        lemma_pow2_pos(n as nat);
        lemma_pow2_pos((64 - n) as nat);
        lemma_pow2_adds(n as nat, (64 - n) as nat);
        lemma_u64_shl_is_mul(1u64, n as u64);
        lemma_u64_shr_is_div(high, n as u64);
        lemma_u64_shr_is_div(low, n as u64);
        lemma_u64_low_bits_mask_is_mod(high, n as nat);
        lemma_u64_low_bits_mask_is_mod(low, n as nat);
        assert(low_bits_mask(n as nat) == pow2(n as nat) - 1);
        let hq = high as int / d;
        let hr = high as int % d;
        let lq = low as int / d;
        let lr = low as int % d;
        lemma_fundamental_div_mod(high as int, d);
        lemma_fundamental_div_mod(low as int, d);
        lemma_mod_bound(high as int, d);
        lemma_mod_bound(low as int, d);
        assert(hr * c <= (d - 1) * c) by (nonlinear_arith)
            requires
                0 <= hr <= d - 1,
                c > 0,
        ;
        assert((d - 1) * c == d * c - c) by (nonlinear_arith);
        lemma_u64_shl_is_mul(hr as u64, (64 - n) as u64);
        let whole = hr * c + lq;
        let wide = high * 0x1_0000_0000_0000_0000 + low;
        assert(wide == (hq * 0x1_0000_0000_0000_0000 + whole) * d + lr) by (nonlinear_arith)
            requires
                wide == high * 0x1_0000_0000_0000_0000 + low,
                high == d * hq + hr,
                low == d * lq + lr,
                d * c == 0x1_0000_0000_0000_0000,
                whole == hr * c + lq,
        ;
        lemma_fundamental_div_mod_converse(wide, d, hq * 0x1_0000_0000_0000_0000 + whole, lr);
    }
    let sticky: u64 = if (low << (64 - n)) != 0 { 1 } else { 0 };
    (high >> n, (high << (64 - n)) | (low >> n) | sticky)
}

proof fn lemma_mul_le(a: int, b: int, c: int)
    by (nonlinear_arith)
    requires
        a <= b,
        c > 0,
    ensures
        a * c <= b * c,
{
}

/// The remainder of `d * q + r` by a divisor `k` of `d` is that of `r`.
proof fn lemma_mod_of_sum(q: int, d: int, r: int, k: int)
    requires
        k > 0,
        d % k == 0,
    ensures
        (d * q + r) % k == r % k,
{
    let c = d / k;
    lemma_fundamental_div_mod(d, k);
    assert(d * q + r == k * (c * q) + r) by (nonlinear_arith)
        requires
            d == k * c,
    ;
    lemma_mod_multiples_vanish(c * q, r, k);
}

} // verus!
