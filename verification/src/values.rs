//! What floating-point results are: of all floats, those nearest to the exact value.

use crate::binary::{lemma_nearest_rounds, lemma_units_double, lemma_units_increase};
use crate::binary::{nearest, rounds_to, units};
use crate::convert::{bf16_of, e4m3_of, f16_of, is_bf16_nan, is_e4m3_nan, single_of_bf16};
use crate::convert::single_of_e4m3;
use crate::roundtrip::{lemma_e4m3_widens, lemma_product_rounds, lemma_quotient_rounds};
use crate::single::{clamped, is_infinite, is_nan, is_negative, is_zero, magnitude, product};
use crate::single::{quotient, size};
use vstd::arithmetic::power2::{lemma2_to64, lemma_pow2_pos, pow2};
use vstd::prelude::*;

verus! {

/// How far the number of a code is from `n / d` units, in parts of `d`.
pub open spec fn distance(hidden: nat, mag: nat, n: nat, d: nat) -> nat {
    let there = units(hidden, mag) * d;
    if there >= n {
        (there - n) as nat
    } else {
        (n - there) as nat
    }
}

/// `mag` is at least as near to `n / d` units as `other`, and even where both are
/// equally near.
pub open spec fn is_as_near(hidden: nat, mag: nat, other: nat, n: nat, d: nat) -> bool {
    ||| distance(hidden, mag, n, d) < distance(hidden, other, n, d)
    ||| mag == other
    ||| distance(hidden, mag, n, d) == distance(hidden, other, n, d) && mag % 2 == 0
}

/// No code up to the largest is nearer to a number than the one to which it rounds.
pub proof fn law_rounding_is_to_nearest(
    hidden: nat,
    top: nat,
    mag: nat,
    n: nat,
    d: nat,
    other: nat,
)
    requires
        hidden > 0,
        d > 0,
        rounds_to(hidden, top, mag, n, d),
        other <= top,
    ensures
        is_as_near(hidden, mag, other, n, d),
{
    let (u, o) = (units(hidden, mag) as int, units(hidden, other) as int);
    if other > mag {
        let u1 = units(hidden, mag + 1) as int;
        lemma_units_increase(hidden, mag, other);
        if other > mag + 1 {
            lemma_units_increase(hidden, mag + 1, other);
        }
        assert(u * d < o * d && u1 * d <= o * d && (u + u1) * d == u * d + u1 * d) by (
            nonlinear_arith)
            requires
                u < o,
                u1 <= o,
                d > 0,
        ;
    } else if other < mag {
        let u0 = units(hidden, (mag - 1) as nat) as int;
        lemma_units_increase(hidden, other, mag);
        if other < mag - 1 {
            lemma_units_increase(hidden, other, (mag - 1) as nat);
        }
        assert(o * d < u * d && o * d <= u0 * d && (u0 + u) * d == u0 * d + u * d) by (
            nonlinear_arith)
            requires
                o < u,
                o <= u0,
                d > 0,
        ;
    }
}

/// The numbers of a format: a code below twice the hidden bit is its own number, and
/// from the hidden bit on, every further exponent doubles the number.
pub proof fn law_codes_stand_for_numbers(hidden: nat, mag: nat)
    requires
        hidden > 0,
    ensures
        mag <= 2 * hidden ==> units(hidden, mag) == mag,
        mag >= hidden ==> units(hidden, mag + hidden) == 2 * units(hidden, mag),
{
    lemma2_to64();
    if mag >= hidden {
        lemma_units_double(hidden, mag);
    }
    let h = hidden as int;
    if mag < hidden {
        vstd::arithmetic::div_mod::lemma_fundamental_div_mod_converse(mag as int, h, 0, mag as int);
    } else if mag < 2 * hidden {
        vstd::arithmetic::div_mod::lemma_fundamental_div_mod_converse(mag as int, h, 1, mag - h);
        assert((mag - h + h) * 1 == mag);
    } else if mag == 2 * hidden {
        vstd::arithmetic::div_mod::lemma_fundamental_div_mod_converse(mag as int, h, 2, 0);
        assert((0 + h) * 2 == mag);
    }
}

/// The parts of a single-precision float: one bit of sign, eight of exponent and 23
/// of fraction. An exponent of all ones is an infinity or a NaN.
pub proof fn law_parts_of_a_single(x: u32)
    ensures
        is_negative(x) <==> x / 0x8000_0000 == 1,
        magnitude(x) == x % 0x8000_0000,
        is_nan(x) <==> (x / 0x80_0000) % 0x100 == 0xff && x % 0x80_0000 != 0,
        is_infinite(x) <==> (x / 0x80_0000) % 0x100 == 0xff && x % 0x80_0000 == 0,
        is_zero(x) <==> x == 0 || x == 0x8000_0000,
        size(x) == units(0x80_0000, (x % 0x8000_0000) as nat),
{
}

/// A product of finite floats has the sign of the exact product, and no float is
/// nearer to it; infinity stands for the number that its code would stand for.
pub proof fn law_product_is_nearest(a: u32, b: u32, other: nat)
    requires
        magnitude(a) < 0x7f80_0000,
        magnitude(b) < 0x7f80_0000,
        other <= 0x7f80_0000,
    ensures
        magnitude(product(a, b)) <= 0x7f80_0000,
        is_negative(product(a, b)) == (is_negative(a) != is_negative(b)),
        is_as_near(
            0x80_0000,
            magnitude(product(a, b)),
            other,
            size(a) * size(b),
            pow2(149),
        ),
{
    lemma_pow2_pos(149);
    lemma_product_rounds(a, b);
    law_rounding_is_to_nearest(
        0x80_0000,
        0x7f80_0000,
        magnitude(product(a, b)),
        size(a) * size(b),
        pow2(149),
        other,
    );
}

/// A quotient of finite floats, the second of which is not zero, has the sign of the
/// exact quotient, and no float is nearer to it.
pub proof fn law_quotient_is_nearest(a: u32, b: u32, other: nat)
    requires
        magnitude(a) < 0x7f80_0000,
        0 < magnitude(b) < 0x7f80_0000,
        other <= 0x7f80_0000,
    ensures
        size(b) > 0,
        magnitude(quotient(a, b)) <= 0x7f80_0000,
        is_negative(quotient(a, b)) == (is_negative(a) != is_negative(b)),
        is_as_near(
            0x80_0000,
            magnitude(quotient(a, b)),
            other,
            size(a) * pow2(149),
            size(b),
        ),
{
    lemma_quotient_rounds(a, b);
    lemma_units_increase(0x80_0000, 0, magnitude(b));
    law_rounding_is_to_nearest(
        0x80_0000,
        0x7f80_0000,
        magnitude(quotient(a, b)),
        size(a) * pow2(149),
        size(b),
        other,
    );
}

/// Products and quotients outside the finite numbers: what is undefined is a NaN,
/// and an infinite or vanishing result keeps the sign.
pub proof fn law_special_results(a: u32, b: u32)
    ensures
        is_nan(product(a, b)) <==> is_nan(a) || is_nan(b) || is_infinite(a) && is_zero(b)
            || is_zero(a) && is_infinite(b),
        is_nan(product(a, b)) ==> product(a, b) == 0x7fc0_0000,
        !is_nan(product(a, b)) && (is_infinite(a) || is_infinite(b)) ==> is_infinite(
            product(a, b),
        ),
        is_nan(quotient(a, b)) <==> is_nan(a) || is_nan(b) || is_infinite(a) && is_infinite(b)
            || is_zero(a) && is_zero(b),
        is_nan(quotient(a, b)) ==> quotient(a, b) == 0x7fc0_0000,
        !is_nan(quotient(a, b)) && (is_infinite(a) || is_zero(b)) ==> is_infinite(
            quotient(a, b),
        ),
        !is_nan(quotient(a, b)) && is_infinite(b) ==> is_zero(quotient(a, b)),
        !is_nan(product(a, b)) ==> is_negative(product(a, b)) == (is_negative(a)
            != is_negative(b)),
        !is_nan(quotient(a, b)) ==> is_negative(quotient(a, b)) == (is_negative(a)
            != is_negative(b)),
{
    if magnitude(a) < 0x7f80_0000 && magnitude(b) < 0x7f80_0000 {
        lemma_product_rounds(a, b);
        if magnitude(b) > 0 {
            lemma_quotient_rounds(a, b);
        }
    }
}

/// Holding a float between `-limit` and `limit` keeps its sign, and moves it only
/// where it lies outside, and then to the limit.
pub proof fn law_clamping_moves_to_the_limit(x: u32, limit: u32)
    requires
        limit <= 0x7f80_0000,
    ensures
        is_nan(x) || magnitude(x) <= limit ==> clamped(x, limit) == x,
        !is_nan(x) && magnitude(x) > limit ==> magnitude(clamped(x, limit)) == limit,
        is_negative(clamped(x, limit)) == is_negative(x),
{
}

/// Rounding a finite float to a brain float, a half float or an FP8 float keeps its
/// sign, and no float of that format is nearer; infinity stands for the number that
/// its code would stand for, and FP8 has nothing beyond 448.
pub proof fn law_narrowing_is_to_nearest(x: u32, other: nat)
    requires
        magnitude(x) < 0x7f80_0000,
    ensures
        (bf16_of(x) >= 0x8000) == is_negative(x),
        bf16_of(x) % 0x8000 <= 0x7f80,
        other <= 0x7f80 ==> is_as_near(
            0x80,
            (bf16_of(x) % 0x8000) as nat,
            other,
            size(x),
            pow2(16),
        ),
        (f16_of(x) >= 0x8000) == is_negative(x),
        f16_of(x) % 0x8000 <= 0x7c00,
        other <= 0x7c00 ==> is_as_near(
            0x400,
            (f16_of(x) % 0x8000) as nat,
            other,
            size(x),
            pow2(125),
        ),
        (e4m3_of(x) >= 0x80) == is_negative(x),
        e4m3_of(x) % 0x80 <= 0x7e,
        other <= 0x7e ==> is_as_near(
            8,
            (e4m3_of(x) % 0x80) as nat,
            other,
            size(x),
            pow2(140),
        ),
{
    lemma_pow2_pos(16);
    lemma_pow2_pos(125);
    lemma_pow2_pos(140);
    lemma_nearest_rounds(0x80, 0x7f80, size(x), pow2(16));
    lemma_nearest_rounds(0x400, 0x7c00, size(x), pow2(125));
    lemma_nearest_rounds(8, 0x7e, size(x), pow2(140));
    let (b, h, q) = (
        nearest(0x80, 0x7f80, size(x), pow2(16)),
        nearest(0x400, 0x7c00, size(x), pow2(125)),
        nearest(8, 0x7e, size(x), pow2(140)),
    );
    assert(b <= 0x7f80 && h <= 0x7c00 && q <= 0x7e);
    assert(bf16_of(x) % 0x8000 == b && f16_of(x) % 0x8000 == h && e4m3_of(x) % 0x80 == q);
    if other <= 0x7f80 {
        law_rounding_is_to_nearest(0x80, 0x7f80, b, size(x), pow2(16), other);
    }
    if other <= 0x7c00 {
        law_rounding_is_to_nearest(0x400, 0x7c00, h, size(x), pow2(125), other);
    }
    if other <= 0x7e {
        law_rounding_is_to_nearest(8, 0x7e, q, size(x), pow2(140), other);
    }
}

/// Rounding what is not finite: an infinity stays one, and becomes 448 in FP8; a NaN
/// stays one with its sign, becomes quiet, and keeps the bits of its fraction that
/// there is room for.
pub proof fn law_narrowing_of_specials(x: u32)
    ensures
        is_infinite(x) ==> {
            &&& bf16_of(x) % 0x8000 == 0x7f80
            &&& f16_of(x) % 0x8000 == 0x7c00
            &&& e4m3_of(x) % 0x80 == 0x7e
            &&& (bf16_of(x) >= 0x8000) == is_negative(x)
            &&& (f16_of(x) >= 0x8000) == is_negative(x)
            &&& (e4m3_of(x) >= 0x80) == is_negative(x)
        },
        is_nan(x) ==> {
            &&& bf16_of(x) / 0x80 == x / 0x80_0000
            &&& (bf16_of(x) / 0x40) % 2 == 1
            &&& bf16_of(x) % 0x40 == (x / 0x1_0000) % 0x40
            &&& f16_of(x) / 0x8000 == x / 0x8000_0000
            &&& (f16_of(x) / 0x200) % 0x40 == 0x3f
            &&& f16_of(x) % 0x200 == (x / 0x2000) % 0x200
            &&& e4m3_of(x) % 0x80 == 0x7f
            &&& (e4m3_of(x) >= 0x80) == is_negative(x)
        },
{
    if is_nan(x) {
        assert((x >> 16) | 0x40 <= 0xffff && ((x >> 16) & 0x8000) | 0x7e00 | ((x >> 13) & 0x3ff)
            <= 0xffff) by (bit_vector);
        assert(((x >> 16) | 0x40) / 0x80 == x / 0x80_0000 && (((x >> 16) | 0x40) / 0x40) % 2 == 1
            && ((x >> 16) | 0x40) % 0x40 == (x / 0x1_0000) % 0x40) by (bit_vector);
        let y = ((x >> 16) & 0x8000) | 0x7e00 | ((x >> 13) & 0x3ff);
        assert((((x >> 16) & 0x8000) | 0x7e00 | ((x >> 13) & 0x3ff)) / 0x8000 == x / 0x8000_0000
            && ((((x >> 16) & 0x8000) | 0x7e00 | ((x >> 13) & 0x3ff)) / 0x200) % 0x40 == 0x3f
            && (((x >> 16) & 0x8000) | 0x7e00 | ((x >> 13) & 0x3ff)) % 0x200 == (x / 0x2000)
            % 0x200) by (bit_vector);
        assert(f16_of(x) == y);
    }
}

/// Widening is exact: sign and value are kept. A NaN stays a NaN: a brain float keeps
/// its bits but becomes quiet, and every FP8 NaN becomes the same one.
pub proof fn law_widening_is_exact(x: u16, q: u8)
    ensures
        is_nan(single_of_bf16(x)) <==> is_bf16_nan(x),
        is_negative(single_of_bf16(x)) == (x >= 0x8000),
        !is_bf16_nan(x) ==> single_of_bf16(x) == x * 0x1_0000,
        is_bf16_nan(x) ==> {
            &&& single_of_bf16(x) % 0x1_0000 == 0
            &&& single_of_bf16(x) / 0x80_0000 == x / 0x80
            &&& (single_of_bf16(x) / 0x40_0000) % 2 == 1
            &&& (single_of_bf16(x) / 0x1_0000) % 0x40 == x % 0x40
        },
        is_bf16_nan(x) <==> (x / 0x80) % 0x100 == 0xff && x % 0x80 != 0,
        is_nan(single_of_e4m3(q)) <==> q % 0x80 == 0x7f,
        is_e4m3_nan(q) <==> q % 0x80 == 0x7f,
        q % 0x80 == 0x7f ==> single_of_e4m3(q) == 0x7fc0_0000,
        q % 0x80 != 0x7f ==> {
            &&& magnitude(single_of_e4m3(q)) < 0x7f80_0000
            &&& is_negative(single_of_e4m3(q)) == (q >= 0x80)
            &&& size(single_of_e4m3(q)) == units(8, (q % 0x80) as nat) * pow2(140)
        },
{
    assert(x >= 0x8000 <==> (x | 0x40) >= 0x8000) by (bit_vector);
    assert(x % 0x8000 > 0x7f80 ==> (x | 0x40) % 0x8000 > 0x7f80) by (bit_vector);
    assert((x | 0x40) / 0x80 == x / 0x80 && ((x | 0x40) / 0x40) % 2 == 1 && (x | 0x40) % 0x40 == x
        % 0x40) by (bit_vector);
    if q % 0x80 != 0x7f {
        lemma_e4m3_widens(q);
    }
}

} // verus!
