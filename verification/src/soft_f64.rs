//! The binary64 value type, its bit fields and its mathematical meaning.

use vstd::prelude::*;
use vstd::arithmetic::power2::pow2;
use vstd::arithmetic::power2::lemma_pow2_adds;
use vstd::arithmetic::power2::lemma_pow2_pos;
use vstd::arithmetic::power2::lemma2_to64;
use vstd::arithmetic::power2::lemma2_to64_rest;
use vstd::bits::lemma_u64_shl_is_mul;
use vstd::std_specs::bits::axiom_u64_leading_zeros;
use vstd::std_specs::bits::u64_leading_zeros;

verus! {

/// A binary64 value, held as its raw encoding: one sign bit, eleven exponent
/// bits and fifty-two significand bits, from the top down.
#[derive(Clone, Copy, Debug, PartialEq, Eq, Structural)]
pub struct SoftF64(pub u64);

/// Whether the sign bit of an encoding is set.
pub open spec fn is_negative(x: u64) -> bool {
    x >= SoftF64::SIGN_MASK
}

/// The encoding with its sign bit cleared.
pub open spec fn abs_of(x: u64) -> u64 {
    if x >= SoftF64::SIGN_MASK {
        (x - SoftF64::SIGN_MASK) as u64
    } else {
        x
    }
}

/// The biased exponent field, between 0 and 2047.
pub open spec fn exponent_of(x: u64) -> u64 {
    abs_of(x) / SoftF64::IMPLICIT_BIT
}

/// The stored significand field, below 2^52.
pub open spec fn significand_of(x: u64) -> u64 {
    x % SoftF64::IMPLICIT_BIT
}

/// The encoding that has the given fields.
pub open spec fn compose(sign: u64, exponent: u64, significand: u64) -> int {
    sign * SoftF64::SIGN_MASK + exponent * SoftF64::IMPLICIT_BIT + significand
}

/// A NaN: the exponent is all ones and the significand is not zero.
pub open spec fn is_nan(x: u64) -> bool {
    abs_of(x) > SoftF64::EXPONENT_MASK
}

/// An infinity: the exponent is all ones and the significand is zero.
pub open spec fn is_infinite(x: u64) -> bool {
    abs_of(x) == SoftF64::EXPONENT_MASK
}

/// Neither an infinity nor a NaN.
pub open spec fn is_finite(x: u64) -> bool {
    abs_of(x) < SoftF64::EXPONENT_MASK
}

/// A zero of either sign.
pub open spec fn is_zero(x: u64) -> bool {
    abs_of(x) == 0
}

/// A subnormal value: the exponent is zero and the significand is not.
pub open spec fn is_subnormal(x: u64) -> bool {
    0 < abs_of(x) < SoftF64::IMPLICIT_BIT
}

/// The quiet NaN with an empty payload and a clear sign.
pub open spec fn canonical_nan() -> u64 {
    0x7ff8_0000_0000_0000
}

/// A NaN encoding whose top significand bit is set.
pub open spec fn is_quiet_nan(x: u64) -> bool {
    abs_of(x) >= canonical_nan()
}

/// The encoding with the top bit of its significand set: what a NaN becomes
/// when it is passed on.
pub open spec fn quieted(x: u64) -> u64 {
    x | 0x0008_0000_0000_0000
}

/// The size of an encoding, sign aside, counted in units of 2^-1074 (the
/// smallest subnormal). Every finite binary64 value is a whole number of these
/// units. The encoding of infinity stands for 2^1024, the first power of two
/// that no finite value reaches.
pub open spec fn magnitude(x: u64) -> nat {
    let e = exponent_of(x);
    let f = significand_of(x);
    if e == 0 {
        f as nat
    } else {
        ((SoftF64::IMPLICIT_BIT + f) * pow2((e - 1) as nat)) as nat
    }
}

/// The value of a finite encoding in units of 2^-1074, with its sign.
pub open spec fn signed_value(x: u64) -> int {
    if is_negative(x) {
        -(magnitude(x) as int)
    } else {
        magnitude(x) as int
    }
}

/// How the bit masks of the format act on an encoding, in arithmetic terms.
pub proof fn lemma_field_masks(x: u64)
    by (bit_vector)
    ensures
        x & 0x7fff_ffff_ffff_ffff == (if x >= 0x8000_0000_0000_0000 {
            (x - 0x8000_0000_0000_0000) as u64
        } else {
            x
        }),
        x & 0x8000_0000_0000_0000 == (if x >= 0x8000_0000_0000_0000 {
            0x8000_0000_0000_0000u64
        } else {
            0u64
        }),
        x & 0x000f_ffff_ffff_ffff == x % 0x0010_0000_0000_0000,
        (x >> 52) & 0x7ff == (x & 0x7fff_ffff_ffff_ffff) / 0x0010_0000_0000_0000,
        x & 0x7ff0_0000_0000_0000 == ((x & 0x7fff_ffff_ffff_ffff) / 0x0010_0000_0000_0000)
            * 0x0010_0000_0000_0000,
        (x & 0x7ff0_0000_0000_0000) >> 52 == (x & 0x7fff_ffff_ffff_ffff) / 0x0010_0000_0000_0000,
        x >> 63 == (if x >= 0x8000_0000_0000_0000 { 1u64 } else { 0u64 }),
        x ^ 0x8000_0000_0000_0000 == (if x >= 0x8000_0000_0000_0000 {
            (x - 0x8000_0000_0000_0000) as u64
        } else {
            (x + 0x8000_0000_0000_0000) as u64
        }),
        (x as i64) as int == (if x >= 0x8000_0000_0000_0000 {
            x - 0x1_0000_0000_0000_0000
        } else {
            x as int
        }),
{
}

proof fn lemma_compose_bits(sign: u64, exponent: u64, significand: u64)
    by (bit_vector)
    requires
        sign <= 1,
        exponent <= 0x7ff,
        significand < 0x0010_0000_0000_0000,
    ensures
        (sign << 63) | (exponent << 52) | significand == sign * 0x8000_0000_0000_0000
            + exponent * 0x0010_0000_0000_0000 + significand,
        significand | 0x0010_0000_0000_0000 == significand + 0x0010_0000_0000_0000,
{
}

proof fn lemma_leading_shift_bits(x: u64, lz: u64, k: u64)
    by (bit_vector)
    requires
        0 < k < 64,
        0 < x < 1u64 << ((64 - k) as u64),
        lz < 64,
        (x >> ((63 - lz) as u64)) & 1 != 0,
        x >> ((64 - lz) as u64) == 0,
    ensures
        k <= lz,
        x << ((lz - k) as u64) >= 1u64 << ((63 - k) as u64),
        x << ((lz - k) as u64) < 1u64 << ((64 - k) as u64),
        x < 1u64 << ((64 - lz) as u64),
        x < 1u64 << ((63 - k) as u64) ==> k < lz,
{
}

/// Shifting a nonzero value left by its count of leading zeros, less `k`,
/// multiplies it by a power of two and puts its leading bit `k` places below
/// the top.
pub proof fn lemma_leading_shift(x: u64, k: u64)
    requires
        0 < k < 64,
        0 < x < pow2((64 - k) as nat),
    ensures
        k <= u64_leading_zeros(x) < 64,
        x < pow2((63 - k) as nat) ==> k < u64_leading_zeros(x),
        x << ((u64_leading_zeros(x) - k) as u64) == x * pow2((u64_leading_zeros(x) - k) as nat),
        pow2((63 - k) as nat) <= x * pow2((u64_leading_zeros(x) - k) as nat) < pow2(
            (64 - k) as nat,
        ),
{
    axiom_u64_leading_zeros(x);
    let lz = u64_leading_zeros(x) as u64;
    lemma2_to64();
    lemma2_to64_rest();
    lemma_u64_shl_is_mul(1u64, (64 - k) as u64);
    lemma_u64_shl_is_mul(1u64, (63 - k) as u64);
    lemma_leading_shift_bits(x, lz, k);
    let s = (lz - k) as u64;
    lemma_u64_shl_is_mul(1u64, (64 - lz) as u64);
    lemma_pow2_adds((64 - lz) as nat, s as nat);
    lemma_pow2_pos(s as nat);
    assert(x * pow2(s as nat) < pow2((64 - lz) as nat) * pow2(s as nat)) by (nonlinear_arith)
        requires
            x < pow2((64 - lz) as nat),
            pow2(s as nat) > 0,
    ;
    lemma_u64_shl_is_mul(x, s);
}

impl Default for SoftF64 {
    /// The positive zero.
    fn default() -> (r: Self)
        ensures
            r.0 == 0,
    {
        SoftF64(0)
    }
}

impl SoftF64 {
    pub const BITS: u32 = 64;

    pub const SIGNIFICAND_BITS: u32 = 52;

    pub const EXPONENT_BITS: u32 = 11;

    pub const EXPONENT_MAX: u32 = 2047;

    pub const EXPONENT_BIAS: u32 = 1023;

    pub const SIGN_MASK: u64 = 0x8000_0000_0000_0000;

    pub const SIGNIFICAND_MASK: u64 = 0x000f_ffff_ffff_ffff;

    pub const IMPLICIT_BIT: u64 = 0x0010_0000_0000_0000;

    pub const EXPONENT_MASK: u64 = 0x7ff0_0000_0000_0000;

    /// The value that an encoding stands for: the same 64 bits.
    pub open spec fn spec_from_bits(a: u64) -> Self {
        SoftF64(a)
    }

    /// The encoding of a value: the same 64 bits.
    pub open spec fn spec_to_bits(self) -> u64 {
        self.0
    }

    /// The value with its sign bit flipped.
    pub open spec fn spec_neg(self) -> Self {
        SoftF64(self.0 ^ Self::SIGN_MASK)
    }

    /// Reinterprets a raw encoding as a value. Every pattern is accepted and
    /// kept as it is.
    #[verifier::when_used_as_spec(spec_from_bits)]
    pub fn from_bits(a: u64) -> (r: Self)
        ensures
            r == Self::spec_from_bits(a),
            r.0 == a,
    {
        SoftF64(a)
    }

    /// The raw encoding of the value.
    #[verifier::when_used_as_spec(spec_to_bits)]
    pub fn to_bits(self) -> (r: u64)
        ensures
            r == self.spec_to_bits(),
            r == self.0,
    {
        self.0
    }

    /// The raw encoding as an unsigned integer.
    pub fn repr(self) -> (r: u64)
        ensures
            r == self.0,
    {
        self.to_bits()
    }

    /// The raw encoding read as a two's-complement integer: negative exactly
    /// when the sign bit is set.
    pub fn signed_repr(self) -> (r: i64)
        ensures
            r as int == (if is_negative(self.0) {
                self.0 - 0x1_0000_0000_0000_0000
            } else {
                self.0 as int
            }),
    {
        proof {
            lemma_field_masks(self.0);
        }
        #[verifier::truncate]
        (self.to_bits() as i64)
    }

    /// The value with the given raw encoding.
    pub fn from_repr(a: u64) -> (r: Self)
        ensures
            r.0 == a,
    {
        Self::from_bits(a)
    }

    /// Whether the value is a NaN: the exponent is all ones and the
    /// significand is not zero.
    pub fn is_nan(self) -> (r: bool)
        ensures
            r == is_nan(self.0),
    {
        proof {
            lemma_field_masks(self.0);
        }
        (self.0 & 0x7fff_ffff_ffff_ffff) > Self::EXPONENT_MASK
    }

    /// Whether the value is an infinity: the exponent is all ones and the
    /// significand is zero.
    pub fn is_infinite(self) -> (r: bool)
        ensures
            r == is_infinite(self.0),
    {
        proof {
            lemma_field_masks(self.0);
        }
        (self.0 & 0x7fff_ffff_ffff_ffff) == Self::EXPONENT_MASK
    }

    /// Whether the value is a zero of either sign.
    pub fn is_zero(self) -> (r: bool)
        ensures
            r == is_zero(self.0),
    {
        proof {
            lemma_field_masks(self.0);
        }
        (self.0 & 0x7fff_ffff_ffff_ffff) == 0
    }

    /// Whether the value is subnormal: the exponent is zero and the
    /// significand is not.
    pub fn is_subnormal(self) -> (r: bool)
        ensures
            r == is_subnormal(self.0),
    {
        proof {
            lemma_field_masks(self.0);
        }
        let abs: u64 = self.0 & 0x7fff_ffff_ffff_ffff;
        0 < abs && abs < Self::IMPLICIT_BIT
    }

    /// Splits an encoding into sign, biased exponent and stored significand.
    pub fn decompose(bits: u64) -> (r: (u64, u64, u64))
        ensures
            r.0 == (if is_negative(bits) { 1u64 } else { 0u64 }),
            r.1 == exponent_of(bits),
            r.2 == significand_of(bits),
            r.1 <= 2047,
            r.2 < Self::IMPLICIT_BIT,
            compose(r.0, r.1, r.2) == bits,
    {
        proof {
            lemma_field_masks(bits);
        }
        (
            bits >> 63,
            (bits >> 52) & 0x7ff,
            bits & Self::SIGNIFICAND_MASK,
        )
    }

    /// Joins sign, biased exponent and stored significand into an encoding.
    /// The fields are taken as they are, so each must lie in its range.
    pub fn recompose(sign: u64, exponent: u64, significand: u64) -> (r: u64)
        requires
            sign <= 1,
            exponent <= 2047,
            significand < Self::IMPLICIT_BIT,
        ensures
            r == compose(sign, exponent, significand),
            is_negative(r) == (sign == 1),
            exponent_of(r) == exponent,
            significand_of(r) == significand,
    {
        proof {
            lemma_compose_bits(sign, exponent, significand);
        }
        (sign << 63) | (exponent << 52) | significand
    }

    /// Brings the significand of a subnormal value into normal form: shifts it
    /// left until the implicit bit is set, and returns the exponent that
    /// keeps the value, which is at most zero, beside the shifted significand.
    pub fn normalize(significand: u64) -> (r: (i32, u64))
        requires
            0 < significand < Self::IMPLICIT_BIT,
        ensures
            -51 <= r.0 <= 0,
            Self::IMPLICIT_BIT <= r.1 < 2 * Self::IMPLICIT_BIT,
            r.1 == significand * pow2((1 - r.0) as nat),
    {
        let zeros: u32 = significand.leading_zeros();
        proof {
            lemma2_to64_rest();
            lemma_leading_shift(significand, 11);
        }
        let shift: u32 = zeros.wrapping_sub(11);
        (1i32.wrapping_sub(shift as i32), significand << shift)
    }

    /// The exponent and the significand of a nonzero finite value in normal
    /// form: the significand carries its leading bit, and a subnormal value
    /// gets the exponent, at most zero, that keeps its size.
    pub fn unpack(bits: u64) -> (r: (i32, u64))
        requires
            !is_zero(bits),
            is_finite(bits),
        ensures
            -51 <= r.0 <= 2046,
            Self::IMPLICIT_BIT <= r.1 < 2 * Self::IMPLICIT_BIT,
            magnitude(bits) * pow2(52) == r.1 * pow2((r.0 + 51) as nat),
    {
        proof {
            lemma_field_masks(bits);
        }
        let exponent: i32 = ((bits >> 52) & 0x7ff) as i32;
        let significand: u64 = bits & Self::SIGNIFICAND_MASK;
        if exponent == 0 {
            let r = Self::normalize(significand);
            proof {
                let shift = (1 - r.0) as nat;
                lemma_pow2_adds(shift, (r.0 + 51) as nat);
                assert(significand * pow2(shift) * pow2((r.0 + 51) as nat) == significand * (pow2(
                    shift,
                ) * pow2((r.0 + 51) as nat))) by (nonlinear_arith);
            }
            r
        } else {
            proof {
                lemma_compose_bits(0, 0, significand);
                let m = (significand + Self::IMPLICIT_BIT) as int;
                lemma_pow2_adds((exponent - 1) as nat, 52);
                assert(m * pow2((exponent - 1) as nat) * pow2(52) == m * (pow2(
                    (exponent - 1) as nat,
                ) * pow2(52))) by (nonlinear_arith);
            }
            (exponent, significand | Self::IMPLICIT_BIT)
        }
    }

    /// The value with the sign bit flipped and every other bit kept.
    #[verifier::when_used_as_spec(spec_neg)]
    pub fn neg(self) -> (r: Self)
        ensures
            r == self.spec_neg(),
            r.0 == self.0 ^ Self::SIGN_MASK,
            is_negative(r.0) == !is_negative(self.0),
            abs_of(r.0) == abs_of(self.0),
    {
        proof {
            lemma_field_masks(self.0);
        }
        Self::from_repr(self.repr() ^ Self::SIGN_MASK)
    }
}

} // verus!
