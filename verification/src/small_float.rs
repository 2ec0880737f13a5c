//! Small floats: 8-bit unsigned floating-point values with a 3-bit mantissa
//! and a 5-bit exponent. Each of the 256 values names one bin of the
//! allocator and the size of the regions that the bin holds.
use vstd::prelude::*;

verus! {

use vstd::arithmetic::power2::{pow2, lemma_pow2_unfold, lemma_pow2_pos};

/// The number of bits that represent the mantissa.
pub const MANTISSA_BITS: u32 = 3;

/// The number of possible mantissa values (a power of two).
pub const MANTISSA_VALUE: u32 = 8;

/// A mask that can be bitwise-anded with a float to get just the mantissa.
pub const MANTISSA_MASK: u32 = 7;

/// The integer that the small float `f` stands for: the mantissa `f % 8`
/// alone when the exponent `f / 8` is zero (denormal), otherwise the mantissa
/// with its hidden high bit, scaled by `2^(exponent - 1)`.
pub open spec fn small_float_value(f: nat) -> nat {
    let exponent = f / 8;
    let mantissa = f % 8;
    if exponent == 0 {
        mantissa
    } else {
        (mantissa + 8) * pow2((exponent - 1) as nat)
    }
}

/// The same value, computed on 64-bit words (exact for every `f < 256`).
spec fn value_bits(f: u64) -> u64 {
    if f >> 3u64 == 0 {
        f & 7
    } else {
        (((f & 7) | 8) << (f >> 3u64)) >> 1u64
    }
}

proof fn lemma_value_bits(f: u64)
    requires
        f < 256,
    ensures
        value_bits(f) == small_float_value(f as nat),
{
    let e = f >> 3u64;
    let m = f & 7;
    assert(e == f / 8 && m == f % 8 && m < 8 && e < 32) by (bit_vector)
        requires
            f < 256,
            e == f >> 3u64,
            m == f & 7,
    ;
    if e != 0 {
        assert((m | 8) == m + 8) by (bit_vector)
            requires
                m < 8,
        ;
        let s = (e - 1) as u64;
        vstd::bits::lemma_u64_pow2_no_overflow(s as nat);
        assert(pow2(s as nat) <= 0x8000_0000) by {
            vstd::arithmetic::power2::lemma2_to64();
            if s < 31 {
                vstd::arithmetic::power2::lemma_pow2_strictly_increases(s as nat, 31);
            }
        }
        assert((m + 8) * pow2(s as nat) <= 16 * 0x8000_0000) by (nonlinear_arith)
            requires
                m + 8 <= 16,
                pow2(s as nat) <= 0x8000_0000,
        ;
        vstd::bits::lemma_u64_shl_is_mul((m | 8) as u64, s);
        assert((((f & 7) | 8) << (f >> 3u64)) >> 1u64 == ((m | 8) << s)) by (bit_vector)
            requires
                f < 256,
                e == f >> 3u64,
                m == f & 7,
                e != 0,
                s == e - 1,
        ;
    }
}


/// The float that a normalized `size`, with its highest set bit at `s + 3`,
/// rounds down to: exponent `s + 1`, mantissa the three bits below the top.
spec fn normal_float(size: u32, s: u32) -> u32 {
    (((s + 1) as u32) << 3u32) | ((size >> s) & 7)
}

proof fn lemma_round_down_normal(size: u32, s: u32)
    by (bit_vector)
    requires
        s <= 28,
        (size >> s) >> 3u32 == 1,
    ensures
        normal_float(size, s) < 240,
        value_bits(normal_float(size, s) as u64) <= size as u64,
        (size as u64) < value_bits((normal_float(size, s) + 1) as u64),
{
}


/// The float that a normalized `size` rounds up to: as `normal_float`, plus
/// one when any bit below the mantissa is set (which may carry into the
/// exponent).
spec fn normal_float_up(size: u32, s: u32) -> u32 {
    let low_bits_mask = ((1u32 << s) - 1) as u32;
    if size & low_bits_mask != 0 {
        (normal_float(size, s) + 1) as u32
    } else {
        normal_float(size, s)
    }
}

proof fn lemma_round_up_normal(size: u32, s: u32)
    by (bit_vector)
    requires
        s <= 28,
        (size >> s) >> 3u32 == 1,
    ensures
        1 <= normal_float_up(size, s) <= 240,
        size as u64 <= value_bits(normal_float_up(size, s) as u64),
        value_bits((normal_float_up(size, s) - 1) as u64) < size as u64,
{
}

/// Facts on the highest set bit of a nonzero `size`, from `leading_zeros`.
proof fn lemma_highest_bit(size: u32)
    requires
        size >= 8,
    ensures
        3 <= 31 - size.leading_zeros() <= 31,
        (size >> ((28 - size.leading_zeros()) as u32)) >> 3u32 == 1,
{
    vstd::std_specs::bits::axiom_u32_leading_zeros(size);
    let lz = size.leading_zeros();
    assert(lz < 29) by (bit_vector)
        requires
            size >= 8,
            lz <= 32,
            size >> ((32 - lz) as u32) == 0,
    ;
    let h = (31 - lz) as u32;
    assert((size >> ((28 - lz) as u32)) >> 3u32 == 1) by (bit_vector)
        requires
            lz < 29,
            h == 31 - lz,
            (size >> h) & 1u32 != 0u32,
            size >> ((32 - lz) as u32) == 0,
    ;
}

/// The least small float whose value is at least `size` (`size` rounded up
/// to the float scale).
pub fn uint_to_float_round_up(size: u32) -> (r: u32)
    ensures
        r <= 240,
        size <= small_float_value(r as nat),
        r == 0 || small_float_value((r - 1) as nat) < size,
{
    let mut exp: u32 = 0;
    let mut mantissa: u32;

    if size < MANTISSA_VALUE {
        // Denorm: 0..(MANTISSA_VALUE-1)
        mantissa = size;
        proof {
            assert((0u32 << 3u32) + size == size) by (bit_vector);
        }
    } else {
        // Normalized: hidden high bit always 1, not stored (as in a float).
        proof {
            lemma_highest_bit(size);
        }
        let leading_zeros = size.leading_zeros();
        let highest_set_bit = 31 - leading_zeros;

        let mantissa_start_bit = highest_set_bit - MANTISSA_BITS;
        exp = mantissa_start_bit + 1;
        mantissa = (size >> mantissa_start_bit) & MANTISSA_MASK;

        proof {
            assert(1u32 << mantissa_start_bit >= 1 && (size >> mantissa_start_bit) & 7 <= 7)
                by (bit_vector)
                requires
                    mantissa_start_bit <= 28,
            ;
        }
        let low_bits_mask = (1u32 << mantissa_start_bit) - 1;

        // Round up!
        if (size & low_bits_mask) != 0 {
            mantissa += 1;
        }
        proof {
            let s = mantissa_start_bit;
            assert((exp << 3u32) + mantissa == normal_float_up(size, s)) by (bit_vector)
                requires
                    s <= 28,
                    exp == s + 1,
                    low_bits_mask == ((1u32 << s) - 1) as u32,
                    size & low_bits_mask != 0 ==> mantissa == ((size >> s) & 7) + 1,
                    size & low_bits_mask == 0 ==> mantissa == (size >> s) & 7,
            ;
        }
    }
    proof {
        lemma_round_up_bits(size);
    }

    // Using `+` instead of `|` allows mantissa->exp overflow for round up
    (exp << MANTISSA_BITS) + mantissa
}

/// The greatest small float whose value is at most `size` (`size` rounded
/// down to the float scale).
pub fn uint_to_float_round_down(size: u32) -> (r: u32)
    ensures
        r < 240,
        small_float_value(r as nat) <= size < small_float_value(r as nat + 1),
{
    let mut exp: u32 = 0;
    let mantissa: u32;

    if size < MANTISSA_VALUE {
        // Denorm: 0..(MANTISSA_VALUE-1)
        mantissa = size;
        proof {
            assert((0u32 << 3u32) | size == size) by (bit_vector);
        }
    } else {
        proof {
            lemma_highest_bit(size);
        }
        let leading_zeros = size.leading_zeros();
        let highest_set_bit = 31 - leading_zeros;

        let mantissa_start_bit = highest_set_bit - MANTISSA_BITS;
        exp = mantissa_start_bit + 1;
        mantissa = (size >> mantissa_start_bit) & MANTISSA_MASK;
        proof {
            let s = mantissa_start_bit;
            assert((exp << 3u32) | mantissa == normal_float(size, s)) by (bit_vector)
                requires
                    s <= 28,
                    exp == s + 1,
                    mantissa == (size >> s) & 7,
            ;
        }
    }
    proof {
        lemma_round_down_bits(size);
    }

    (exp << MANTISSA_BITS) | mantissa
}

/// The `u32` that holds the value of the small float `float_value`, taken
/// modulo `2^32` (the values of floats from 240 on do not fit). Floats from
/// 264 on would shift by 32 or more, which is refused.
pub fn float_to_uint(float_value: u32) -> (r: u32)
    requires
        float_value < 264,
    ensures
        r == small_float_value(float_value as nat) % 0x1_0000_0000,
{
    let exponent = float_value >> MANTISSA_BITS;
    let mantissa = float_value & MANTISSA_MASK;
    proof {
        assert(exponent == float_value / 8 && mantissa == float_value % 8 && exponent <= 32)
            by (bit_vector)
            requires
                float_value < 264,
                exponent == float_value >> 3u32,
                mantissa == float_value & 7,
        ;
    }
    if exponent == 0 {
        mantissa
    } else {
        let r = (mantissa | MANTISSA_VALUE) << (exponent - 1);
        proof {
            let s = (exponent - 1) as u32;
            assert((mantissa | 8) == mantissa + 8) by (bit_vector)
                requires
                    mantissa < 8,
            ;
            lemma_shl_is_mul_mod((mantissa | 8) as u32, s);
        }
        r
    }
}

/// Shifting left by `s` multiplies by `2^s`, modulo `2^32`.
proof fn lemma_shl_is_mul_mod(x: u32, s: u32)
    requires
        x < 16,
        s < 32,
    ensures
        (x << s) as nat == (x * pow2(s as nat)) % 0x1_0000_0000,
{
    vstd::bits::lemma_u64_pow2_no_overflow(s as nat);
    assert(pow2(s as nat) <= 0x8000_0000) by {
        vstd::arithmetic::power2::lemma2_to64();
        if s < 31 {
            vstd::arithmetic::power2::lemma_pow2_strictly_increases(s as nat, 31);
        }
    }
    assert(x * pow2(s as nat) <= 16 * 0x8000_0000) by (nonlinear_arith)
        requires
            x <= 16,
            pow2(s as nat) <= 0x8000_0000,
    ;
    vstd::bits::lemma_u64_shl_is_mul(x as u64, s as u64);
    assert((x << s) as u64 == ((x as u64) << (s as u64)) % 0x1_0000_0000) by (bit_vector)
        requires
            s < 32,
    ;
}


/// A small float, one of the 256 bin indices of the allocator.
#[derive(Clone, Copy, PartialEq, Eq, Structural, Debug)]
pub struct SmallFloat(pub u8);

impl View for SmallFloat {
    type V = nat;

    open spec fn view(&self) -> nat {
        self.0 as nat
    }
}

impl SmallFloat {
    /// The integer that this float stands for.
    pub open spec fn value(self) -> nat {
        small_float_value(self@)
    }

    /// The least small float whose value is at least `size`.
    pub fn from_u32_round_up(size: u32) -> (r: SmallFloat)
        ensures
            r@ == spec_round_up(size),
    {
        let f = uint_to_float_round_up(size);
        proof {
            lemma_round_up_unique(size, f as nat);
        }
        SmallFloat(f as u8)
    }

    /// The greatest small float whose value is at most `size`.
    pub fn from_u32_round_down(size: u32) -> (r: SmallFloat)
        ensures
            r@ == spec_round_down(size),
    {
        let f = uint_to_float_round_down(size);
        proof {
            lemma_round_down_unique(size, f as nat);
        }
        SmallFloat(f as u8)
    }

    /// The value of this float as a `u32` (modulo `2^32`).
    pub fn to_u32(self) -> (r: u32)
        ensures
            r == self.value() % 0x1_0000_0000,
    {
        float_to_uint(self.0 as u32)
    }

    /// The bits of this float.
    pub fn reinterpret_as_u32(self) -> (r: u32)
        ensures
            r == self@,
    {
        self.0 as u32
    }

    /// The float with the given bits.
    pub fn reinterpret_u32(value: u32) -> (r: SmallFloat)
        requires
            value < 256,
        ensures
            r@ == value,
    {
        SmallFloat(value as u8)
    }
}

/// The float that the bit computation of rounding down gives.
spec fn round_down_bits(size: u32) -> nat {
    if size < 8 {
        size as nat
    } else {
        normal_float(size, (28 - size.leading_zeros()) as u32) as nat
    }
}

/// The bit computation of rounding down gives the rounded float.
proof fn lemma_round_down_bits(size: u32)
    ensures
        round_down_bits(size) == spec_round_down(size),
        spec_round_down(size) < 240,
        small_float_value(spec_round_down(size)) <= size < small_float_value(
            spec_round_down(size) + 1,
        ),
{
    if size < 8 {
        lemma_value_bits(size as u64);
        lemma_value_bits((size + 1) as u64);
        assert(value_bits(size as u64) == size && value_bits((size + 1) as u64) == size + 1)
            by (bit_vector)
            requires
                size < 8,
        ;
        lemma_round_down_unique(size, size as nat);
    } else {
        lemma_highest_bit(size);
        let s = (28 - size.leading_zeros()) as u32;
        lemma_round_down_normal(size, s);
        let r = normal_float(size, s);
        lemma_value_bits(r as u64);
        lemma_value_bits((r + 1) as u64);
        lemma_round_down_unique(size, r as nat);
    }
}

/// `size` rounded down to the float scale is below 240, at most `size`, and
/// the next float is above `size`.
pub proof fn lemma_round_down(size: u32)
    ensures
        spec_round_down(size) < 240,
        small_float_value(spec_round_down(size)) <= size < small_float_value(
            spec_round_down(size) + 1,
        ),
{
    lemma_round_down_bits(size);
}

/// The float that the bit computation of rounding up gives.
spec fn round_up_bits(size: u32) -> nat {
    if size < 8 {
        size as nat
    } else {
        normal_float_up(size, (28 - size.leading_zeros()) as u32) as nat
    }
}

/// The bit computation of rounding up gives the rounded float.
proof fn lemma_round_up_bits(size: u32)
    ensures
        round_up_bits(size) == spec_round_up(size),
        spec_round_up(size) <= 240,
        size <= small_float_value(spec_round_up(size)),
        spec_round_up(size) == 0 || small_float_value((spec_round_up(size) - 1) as nat) < size,
{
    if size < 8 {
        lemma_value_bits(size as u64);
        if size > 0 {
            lemma_value_bits((size - 1) as u64);
            assert(value_bits(size as u64) == size && value_bits((size - 1) as u64) == size - 1)
                by (bit_vector)
                requires
                    0 < size < 8,
            ;
        } else {
            assert(value_bits(0) == 0) by (bit_vector);
        }
        lemma_round_up_unique(size, size as nat);
    } else {
        lemma_highest_bit(size);
        let s = (28 - size.leading_zeros()) as u32;
        lemma_round_up_normal(size, s);
        let r = normal_float_up(size, s);
        lemma_value_bits(r as u64);
        lemma_value_bits((r - 1) as u64);
        lemma_round_up_unique(size, r as nat);
    }
}

/// `size` rounded up to the float scale is at most 240, its value is at
/// least `size`, and the float below has a value below `size`.
pub proof fn lemma_round_up(size: u32)
    ensures
        spec_round_up(size) <= 240,
        size <= small_float_value(spec_round_up(size)),
        spec_round_up(size) == 0 || small_float_value((spec_round_up(size) - 1) as nat) < size,
{
    lemma_round_up_bits(size);
}

/// The largest float whose value fits in a `u32` is 239, of value
/// `0xF000_0000`.
pub proof fn lemma_value_239()
    ensures
        small_float_value(239) == 0xF000_0000,
{
    lemma_value_bits(239);
    assert(value_bits(239) == 0xF000_0000) by (bit_vector);
}

/// Every float below 240 is a fixed point of both roundings: its value
/// rounds down and up to itself.
pub proof fn lemma_round_trip(f: nat)
    requires
        f < 240,
    ensures
        small_float_value(f) <= u32::MAX,
        spec_round_down(small_float_value(f) as u32) == f,
        spec_round_up(small_float_value(f) as u32) == f,
{
    lemma_value_239();
    if f < 239 {
        lemma_small_float_value_increases(f, 239);
    }
    let v = small_float_value(f) as u32;
    lemma_small_float_value_increases(f, f + 1);
    lemma_round_down_unique(v, f);
    if f > 0 {
        lemma_small_float_value_increases((f - 1) as nat, f);
    }
    lemma_round_up_unique(v, f);
}

/// Small float values grow strictly with the float.
pub proof fn lemma_small_float_value_increases(f: nat, g: nat)
    requires
        f < g < 256,
    ensures
        small_float_value(f) < small_float_value(g),
    decreases g - f,
{
    if g == f + 1 {
        lemma_value_bits(f as u64);
        lemma_value_bits(g as u64);
        let x = f as u64;
        assert(value_bits(x) < value_bits((x + 1) as u64)) by (bit_vector)
            requires
                x < 255,
        ;
    } else {
        lemma_small_float_value_increases(f, (g - 1) as nat);
        lemma_small_float_value_increases((g - 1) as nat, g);
    }
}

/// `size` rounded up to the float scale: the least float of value at least
/// `size` (240, whose value is `2^32`, for the largest sizes).
pub open spec fn spec_round_up(size: u32) -> nat {
    choose|f: nat|
        f <= 240 && size <= #[trigger] small_float_value(f) && (f == 0 || small_float_value(
            (f - 1) as nat,
        ) < size)
}

/// `size` rounded down to the float scale: the greatest float of value at
/// most `size`.
pub open spec fn spec_round_down(size: u32) -> nat {
    choose|f: nat| f < 240 && #[trigger] small_float_value(f) <= size < small_float_value(f + 1)
}

proof fn lemma_round_up_unique(size: u32, f: nat)
    requires
        f <= 240,
        size <= small_float_value(f),
        f == 0 || small_float_value((f - 1) as nat) < size,
    ensures
        spec_round_up(size) == f,
{
    let g = spec_round_up(size);
    assert(g <= 240 && size <= small_float_value(g) && (g == 0 || small_float_value(
        (g - 1) as nat,
    ) < size));
    if g < f {
        if g < (f - 1) as nat {
            lemma_small_float_value_increases(g, (f - 1) as nat);
        }
    } else if f < g {
        if f < (g - 1) as nat {
            lemma_small_float_value_increases(f, (g - 1) as nat);
        }
    }
}

proof fn lemma_round_down_unique(size: u32, f: nat)
    requires
        f < 240,
        small_float_value(f) <= size < small_float_value(f + 1),
    ensures
        spec_round_down(size) == f,
{
    let g = spec_round_down(size);
    assert(g < 240 && small_float_value(g) <= size < small_float_value(g + 1));
    if g < f {
        if g + 1 < f {
            lemma_small_float_value_increases(g + 1, f);
        }
    } else if f < g {
        if f + 1 < g {
            lemma_small_float_value_increases(f + 1, g);
        }
    }
}

} // verus!
