//! Numbers in the IEEE 754 binary64 format, held as their bit patterns.

use vstd::prelude::*;
use vstd::arithmetic::div_mod::{
    lemma_basic_div, lemma_div_multiples_vanish, lemma_mod_multiples_basic, lemma_small_mod,
};
use vstd::arithmetic::power2::{
    lemma2_to64, lemma2_to64_rest, lemma_pow2_adds, lemma_pow2_pos, lemma_pow2_strictly_increases,
    lemma_pow2_unfold, pow2,
};
use vstd::bits::{lemma_u64_pow2_no_overflow, lemma_u64_shl_is_mul};

verus! {

/// The weight of the lowest bit of the exponent field.
pub const EXPONENT_UNIT: u64 = 0x10_0000_0000_0000;

/// The weight of the sign bit.
pub const SIGN_UNIT: u64 = 0x8000_0000_0000_0000;

/// The exponent field of infinities and of values that are not a number.
pub const SPECIAL_EXPONENT: u64 = 0x7ff;

/// The exponent field.
pub open spec fn exponent_field(bits: u64) -> nat {
    ((bits / EXPONENT_UNIT) % 2048) as nat
}

/// The fraction field.
pub open spec fn fraction_field(bits: u64) -> nat {
    (bits % EXPONENT_UNIT) as nat
}

/// Whether the sign bit is set.
pub open spec fn sign_bit(bits: u64) -> bool {
    bits >= SIGN_UNIT
}

/// Whether the number is finite, that is neither infinite nor "not a number".
pub open spec fn finite(bits: u64) -> bool {
    exponent_field(bits) != SPECIAL_EXPONENT
}

/// Whether the number is infinite, of either sign.
pub open spec fn infinite(bits: u64) -> bool {
    exponent_field(bits) == SPECIAL_EXPONENT && fraction_field(bits) == 0
}

/// The significand of a finite number. Its absolute value is
/// `significand * 2^scale`.
pub open spec fn significand(bits: u64) -> nat {
    if exponent_field(bits) == 0 {
        fraction_field(bits)
    } else {
        (EXPONENT_UNIT + fraction_field(bits)) as nat
    }
}

/// The power of two by which the significand of a finite number is scaled.
pub open spec fn scale(bits: u64) -> int {
    if exponent_field(bits) == 0 {
        1 - 1075
    } else {
        exponent_field(bits) - 1075
    }
}

/// Whether the number is finite and has no fractional part.
pub open spec fn integral(bits: u64) -> bool {
    &&& finite(bits)
    &&& scale(bits) < 0 ==> significand(bits) % pow2((-scale(bits)) as nat) == 0
}

/// The absolute value of a finite number, with the fractional part dropped.
pub open spec fn magnitude(bits: u64) -> nat {
    if scale(bits) < 0 {
        significand(bits) / pow2((-scale(bits)) as nat)
    } else {
        significand(bits) * pow2(scale(bits) as nat)
    }
}

/// Whether the number is 0, 1, 2 and so on.
pub open spec fn natural(bits: u64) -> bool {
    &&& integral(bits)
    &&& !sign_bit(bits) || significand(bits) == 0
}

/// How often a number asks for something to be repeated.
#[derive(Debug, Clone, Copy, PartialEq, Eq, Structural)]
pub enum Count {
    /// This many times. A natural number above `usize::MAX` counts as `usize::MAX`.
    Natural(usize),
    /// Without end.
    Infinite,
    /// The number is no count: negative, fractional or not a number.
    Neither,
}

/// The count that a number stands for.
pub open spec fn count_of(bits: u64) -> Count {
    if natural(bits) {
        if magnitude(bits) <= usize::MAX {
            Count::Natural(magnitude(bits) as usize)
        } else {
            Count::Natural(usize::MAX)
        }
    } else if infinite(bits) {
        Count::Infinite
    } else {
        Count::Neither
    }
}

/// `value` as a `usize`, or `usize::MAX` where it is larger.
fn clamp(value: u64) -> (clamped: usize)
    ensures
        clamped == if value <= usize::MAX {
            value as usize
        } else {
            usize::MAX
        },
{
    if value <= usize::MAX as u64 {
        value as usize
    } else {
        usize::MAX
    }
}

/// Below 1 only zero is integral.
pub proof fn lemma_below_one(bits: u64)
    requires
        exponent_field(bits) < 1023,
    ensures
        integral(bits) <==> significand(bits) == 0,
        significand(bits) == 0 ==> magnitude(bits) == 0,
{
    let shift = (-scale(bits)) as nat;
    lemma2_to64_rest();
    assert(pow2(53) <= pow2(shift)) by {
        if shift > 53 {
            lemma_pow2_strictly_increases(53, shift);
        }
    }
    assert(significand(bits) < pow2(53));
    lemma_small_mod(significand(bits), pow2(shift));
    if significand(bits) == 0 {
        lemma_basic_div(0, pow2(shift) as int);
    }
}

/// Which count the number stands for.
pub fn count(bits: u64) -> (count: Count)
    ensures
        count == count_of(bits),
{
    let exponent: u64 = (bits / EXPONENT_UNIT) % 2048;
    let fraction: u64 = bits % EXPONENT_UNIT;
    if exponent == SPECIAL_EXPONENT {
        return if fraction == 0 {
            Count::Infinite
        } else {
            Count::Neither
        };
    }
    if exponent < 1023 {
        proof {
            lemma_below_one(bits);
        }
        return if exponent == 0 && fraction == 0 {
            Count::Natural(0)
        } else {
            Count::Neither
        };
    }
    if bits >= SIGN_UNIT {
        return Count::Neither;
    }
    let whole: u64 = EXPONENT_UNIT + fraction;
    if exponent < 1075 {
        let shift: u64 = 1075 - exponent;
        proof {
            lemma_u64_pow2_no_overflow(shift as nat);
            lemma_u64_shl_is_mul(1, shift);
            lemma_pow2_pos(shift as nat);
        }
        let unit: u64 = 1u64 << shift;
        if whole % unit == 0 {
            Count::Natural(clamp(whole / unit))
        } else {
            Count::Neither
        }
    } else {
        let shift: u64 = exponent - 1075;
        if shift > 11 {
            proof {
                lemma_pow2_strictly_increases(11, shift as nat);
                lemma_pow2_unfold(12);
                if shift > 12 {
                    lemma_pow2_strictly_increases(12, shift as nat);
                }
                lemma2_to64();
                assert(whole * pow2(shift as nat) >= 0x10_0000_0000_0000 * 0x1000)
                    by (nonlinear_arith)
                    requires
                        whole >= 0x10_0000_0000_0000,
                        pow2(shift as nat) >= 0x1000,
                ;
            }
            Count::Natural(usize::MAX)
        } else {
            proof {
                lemma2_to64();
                if shift < 11 {
                    lemma_pow2_strictly_increases(shift as nat, 11);
                }
                assert(whole * pow2(shift as nat) <= u64::MAX) by (nonlinear_arith)
                    requires
                        whole < 0x20_0000_0000_0000,
                        0 <= pow2(shift as nat) <= 0x800,
                ;
                lemma_u64_shl_is_mul(whole, shift);
            }
            Count::Natural(clamp(whole << shift))
        }
    }
}

/// The position of the highest bit that is set in `byte`.
pub open spec fn top_bit(byte: u8) -> nat {
    if byte >= 128 {
        7
    } else if byte >= 64 {
        6
    } else if byte >= 32 {
        5
    } else if byte >= 16 {
        4
    } else if byte >= 8 {
        3
    } else if byte >= 4 {
        2
    } else if byte >= 2 {
        1
    } else {
        0
    }
}

/// The bit pattern of the number `byte`.
pub open spec fn byte_bits(byte: u8) -> u64 {
    if byte == 0 {
        0
    } else {
        ((1023 + top_bit(byte)) * EXPONENT_UNIT + (byte - pow2(top_bit(byte))) * pow2(
            (52 - top_bit(byte)) as nat,
        )) as u64
    }
}

/// The number `byte`.
pub fn from_byte(byte: u8) -> (bits: u64)
    ensures
        bits == byte_bits(byte),
{
    if byte == 0 {
        return 0;
    }
    let top: u64 = if byte >= 128 {
        7
    } else if byte >= 64 {
        6
    } else if byte >= 32 {
        5
    } else if byte >= 16 {
        4
    } else if byte >= 8 {
        3
    } else if byte >= 4 {
        2
    } else if byte >= 2 {
        1
    } else {
        0
    };
    proof {
        lemma2_to64();
        lemma2_to64_rest();
        lemma_u64_shl_is_mul(1, top);
        lemma_byte_fraction(byte);
        lemma_u64_shl_is_mul((byte as u64 - pow2(top as nat)) as u64, (52 - top) as u64);
    }
    (1023 + top) * EXPONENT_UNIT + ((byte as u64 - (1u64 << top)) << (52 - top))
}

/// What a byte has below its highest bit fits in the fraction field.
proof fn lemma_byte_fraction(byte: u8)
    requires
        byte > 0,
    ensures
        pow2(top_bit(byte)) <= byte < 2 * pow2(top_bit(byte)),
        0 <= (byte - pow2(top_bit(byte))) * pow2((52 - top_bit(byte)) as nat) < EXPONENT_UNIT,
{
    lemma2_to64();
    lemma2_to64_rest();
    let top = top_bit(byte);
    let low = byte - pow2(top);
    lemma_pow2_adds(top, (52 - top) as nat);
    assert(0 <= low * pow2((52 - top) as nat) < pow2(top) * pow2((52 - top) as nat))
        by (nonlinear_arith)
        requires
            0 <= low < pow2(top),
            pow2((52 - top) as nat) > 0,
    ;
}

/// The number made from a byte is that byte: a natural number of the same value, without a sign.
pub proof fn byte_bits_denote_the_byte(byte: u8)
    ensures
        byte_bits(byte) < 0x8000_0000_0000_0000,
        natural(byte_bits(byte)),
        magnitude(byte_bits(byte)) == byte,
        count_of(byte_bits(byte)) == Count::Natural(byte as usize),
{
    let bits = byte_bits(byte);
    if byte == 0 {
        lemma_below_one(bits);
    } else {
        lemma_byte_fraction(byte);
        lemma2_to64();
        lemma2_to64_rest();
        let top = top_bit(byte);
        let low = byte - pow2(top);
        let unit = pow2((52 - top) as nat);
        assert(bits == (1023 + top) * EXPONENT_UNIT + low * unit);
        assert(exponent_field(bits) == 1023 + top);
        assert(fraction_field(bits) == low * unit);
        lemma_pow2_adds(top, (52 - top) as nat);
        assert(significand(bits) == byte * unit) by (nonlinear_arith)
            requires
                significand(bits) == EXPONENT_UNIT + low * unit,
                EXPONENT_UNIT == pow2(top) * unit,
                low == byte - pow2(top),
        ;
        lemma_mod_multiples_basic(byte as int, unit as int);
        lemma_div_multiples_vanish(byte as int, unit as int);
        assert(unit * byte == byte * unit) by (nonlinear_arith);
    }
}

} // verus!
