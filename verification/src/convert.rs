//! Conversions between single precision and the narrower formats.
//!
//! Brain floats and half floats are carried as the `u16`, FP8 E4M3 floats as the
//! `u8` that holds their bits. One unit of a brain float is `2^-133`, one of a
//! half float `2^-24` and one of an E4M3 float `2^-9`.

use crate::binary::{lemma_nearest_is, lemma_rounding_cancels, lemma_units_increase};
use crate::binary::{nearest, units};
use crate::round::{located, round_scaled};
use crate::single::{is_infinite, is_nan, is_negative, magnitude, normalize, size, split};
use crate::single::{lemma_zero_rounds_to_zero, HIDDEN, INFINITY, NAN};
use vstd::arithmetic::power2::{lemma_pow2_adds, lemma_pow2_pos, pow2};
use vstd::prelude::*;

verus! {

/// The weight of the implicit leading bit of a brain float's fraction.
pub const BF16_HIDDEN: u16 = 0x80;

/// The bits of a brain float's positive infinity.
pub const BF16_INFINITY: u16 = 0x7f80;

/// The weight of the implicit leading bit of a half float's fraction.
pub const F16_HIDDEN: u16 = 0x400;

/// The bits of a half float's positive infinity.
pub const F16_INFINITY: u16 = 0x7c00;

/// The weight of the implicit leading bit of an E4M3 float's fraction.
pub const E4M3_HIDDEN: u8 = 8;

/// The largest finite E4M3 magnitude code, 448.
pub const E4M3_MAX: u8 = 0x7e;

/// The E4M3 magnitude code of NaN.
pub const E4M3_NAN: u8 = 0x7f;

/// Whether the bits are those of a brain-float NaN.
pub open spec fn is_bf16_nan(x: u16) -> bool {
    x % 0x8000 > BF16_INFINITY
}

/// Whether the bits are those of an E4M3 NaN.
pub open spec fn is_e4m3_nan(x: u8) -> bool {
    x % 0x80 == E4M3_NAN
}

/// A single-precision float rounded to a brain float, ties to even. A NaN keeps
/// the upper half of its bits and becomes quiet.
pub open spec fn bf16_of(x: u32) -> u16 {
    if is_nan(x) {
        ((x >> 16) | 0x40) as u16
    } else if is_infinite(x) {
        signed_u16(is_negative(x), BF16_INFINITY as nat)
    } else {
        signed_u16(
            is_negative(x),
            nearest(BF16_HIDDEN as nat, BF16_INFINITY as nat, size(x), pow2(16)),
        )
    }
}

/// A single-precision float rounded to a half float, ties to even. A NaN keeps
/// its sign and the upper bits of its fraction and becomes quiet.
pub open spec fn f16_of(x: u32) -> u16 {
    if is_nan(x) {
        (((x >> 16) & 0x8000) | 0x7e00 | ((x >> 13) & 0x3ff)) as u16
    } else if is_infinite(x) {
        signed_u16(is_negative(x), F16_INFINITY as nat)
    } else {
        signed_u16(
            is_negative(x),
            nearest(F16_HIDDEN as nat, F16_INFINITY as nat, size(x), pow2(125)),
        )
    }
}

/// A single-precision float rounded to an E4M3 float, ties to even. Everything
/// beyond 448, infinity too, saturates to 448; a NaN keeps its sign.
pub open spec fn e4m3_of(x: u32) -> u8 {
    if is_nan(x) {
        signed_u8(is_negative(x), E4M3_NAN as nat)
    } else if is_infinite(x) {
        signed_u8(is_negative(x), E4M3_MAX as nat)
    } else {
        signed_u8(
            is_negative(x),
            nearest(E4M3_HIDDEN as nat, E4M3_MAX as nat, size(x), pow2(140)),
        )
    }
}

/// The 16-bit pattern with the given sign and magnitude code.
pub open spec fn signed_u16(negative: bool, mag: nat) -> u16 {
    (if negative {
        mag + 0x8000
    } else {
        mag
    }) as u16
}

/// The 8-bit pattern with the given sign and magnitude code.
pub open spec fn signed_u8(negative: bool, mag: nat) -> u8 {
    (if negative {
        mag + 0x80
    } else {
        mag
    }) as u8
}

/// The single-precision float with the value of a brain float. A NaN becomes
/// quiet.
pub open spec fn single_of_bf16(x: u16) -> u32 {
    if is_bf16_nan(x) {
        ((x | 0x40) * 0x1_0000) as u32
    } else {
        (x * 0x1_0000) as u32
    }
}

/// `r` is the single-precision float with the value of the E4M3 float `x`: the
/// sign is kept and the absolute values agree.
pub open spec fn has_e4m3_value(x: u8, r: u32) -> bool {
    &&& magnitude(r) < INFINITY
    &&& is_negative(r) == (x >= 0x80)
    &&& size(r) == units(E4M3_HIDDEN as nat, (x % 0x80) as nat) * pow2(140)
}

/// The single-precision float with the value of an E4M3 float; for a NaN,
/// [`NAN`].
pub open spec fn single_of_e4m3(x: u8) -> u32 {
    if is_e4m3_nan(x) {
        NAN
    } else {
        choose|r: u32| has_e4m3_value(x, r)
    }
}

/// No two single-precision floats have the value of one E4M3 float.
pub proof fn lemma_e4m3_value_is_unique(x: u8, a: u32, b: u32)
    requires
        has_e4m3_value(x, a),
        has_e4m3_value(x, b),
    ensures
        a == b,
{
    if magnitude(a) < magnitude(b) {
        lemma_units_increase(HIDDEN as nat, magnitude(a), magnitude(b));
    } else if magnitude(b) < magnitude(a) {
        lemma_units_increase(HIDDEN as nat, magnitude(b), magnitude(a));
    }
}

/// `half::bf16::to_f32`, on bit patterns: the conversion is exact, so a brain
/// float keeps its bits as the upper half of the result, and a NaN has the
/// quiet bit set besides.
#[verifier::external_body]
pub(crate) fn bf16_to_single(x: u16) -> (r: u32)
    ensures
        r == single_of_bf16(x),
{
    half::bf16::from_bits(x).to_f32().to_bits()
}

/// `float8::F8E4M3::to_f32`, on bit patterns: the conversion is exact, so the
/// result has the sign and the absolute value of the argument; a NaN gives a
/// NaN. Which NaN it gives is not said.
#[verifier::external_body]
pub(crate) fn e4m3_to_single(x: u8) -> (r: u32)
    ensures
        is_e4m3_nan(x) ==> is_nan(r),
        !is_e4m3_nan(x) ==> has_e4m3_value(x, r),
{
    float8::F8E4M3::from_bits(x).to_f32().to_bits()
}

/// Widens an E4M3 float to single precision.
pub fn widen_e4m3(x: u8) -> (r: u32)
    ensures
        r == single_of_e4m3(x),
{
    let wide: u32 = e4m3_to_single(x);
    if x % 0x80 == E4M3_NAN {
        NAN
    } else {
        proof {
            lemma_e4m3_value_is_unique(x, wide, single_of_e4m3(x));
        }
        wide
    }
}

/// Widens a brain float to single precision.
pub fn widen_bf16(x: u16) -> (r: u32)
    ensures
        r == single_of_bf16(x),
{
    bf16_to_single(x)
}

/// Rounds a finite single-precision magnitude to a format with `2^unit` times
/// its unit.
fn narrow_magnitude(hidden: u64, top: u64, mag: u32, unit: u32) -> (r: u64)
    requires
        2 <= hidden <= 0x400,
        hidden % 2 == 0,
        0 < top <= 0xffff_ffff,
        mag < INFINITY,
        unit <= 0x1000,
    ensures
        r <= top,
        r == nearest(
            hidden as nat,
            top as nat,
            units(HIDDEN as nat, mag as nat),
            pow2(unit as nat),
        ),
{
    let ghost n = units(HIDDEN as nat, mag as nat);
    let ghost u = unit as nat;
    proof {
        lemma_pow2_pos(u);
        lemma_pow2_pos(23);
    }
    if mag == 0 {
        proof {
            lemma_zero_rounds_to_zero(hidden as nat, top as nat, n, pow2(u));
        }
        return 0;
    }
    let (sig, power) = normalize(mag);
    let r: u64 = round_scaled(hidden, top, sig, power, false, unit + 23);
    proof {
        let scaled = n * pow2(23);
        assert(sig * (pow2(power as nat) * 1) == scaled);
        assert(located(scaled, 1, sig as nat, power as nat, false));
        lemma_pow2_adds(u, 23);
        lemma_rounding_cancels(hidden as nat, top as nat, r as nat, n, pow2(u), pow2(23));
        lemma_nearest_is(hidden as nat, top as nat, r as nat, n, pow2(u));
    }
    r
}

/// Rounds a single-precision float to a brain float.
pub fn narrow_to_bf16(x: u32) -> (r: u16)
    ensures
        r == bf16_of(x),
{
    let (negative, mag) = split(x);
    let code: u16 = if mag > INFINITY {
        assert((x >> 16) | 0x40 <= 0xffff) by (bit_vector);
        return ((x >> 16) | 0x40) as u16;
    } else if mag == INFINITY {
        BF16_INFINITY
    } else {
        narrow_magnitude(BF16_HIDDEN as u64, BF16_INFINITY as u64, mag, 16) as u16
    };
    if negative {
        code + 0x8000
    } else {
        code
    }
}

/// Rounds a single-precision float to a half float.
pub fn narrow_to_f16(x: u32) -> (r: u16)
    ensures
        r == f16_of(x),
{
    let (negative, mag) = split(x);
    let code: u16 = if mag > INFINITY {
        assert(((x >> 16) & 0x8000) | 0x7e00 | ((x >> 13) & 0x3ff) <= 0xffff) by (bit_vector);
        return (((x >> 16) & 0x8000) | 0x7e00 | ((x >> 13) & 0x3ff)) as u16;
    } else if mag == INFINITY {
        F16_INFINITY
    } else {
        narrow_magnitude(F16_HIDDEN as u64, F16_INFINITY as u64, mag, 125) as u16
    };
    if negative {
        code + 0x8000
    } else {
        code
    }
}

/// Rounds a single-precision float to an E4M3 float.
pub fn narrow_to_e4m3(x: u32) -> (r: u8)
    ensures
        r == e4m3_of(x),
{
    let (negative, mag) = split(x);
    let code: u8 = if mag > INFINITY {
        E4M3_NAN
    } else if mag == INFINITY {
        E4M3_MAX
    } else {
        narrow_magnitude(E4M3_HIDDEN as u64, E4M3_MAX as u64, mag, 140) as u8
    };
    if negative {
        code + 0x80
    } else {
        code
    }
}

} // verus!
