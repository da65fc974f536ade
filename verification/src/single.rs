//! Single-precision arithmetic on bit patterns.
//!
//! A single-precision float is carried as the `u32` that holds its bits. Its
//! unit (see [`crate::binary`]) is `2^-149`.

use crate::binary::{lemma_nearest_is, lemma_rounding_cancels};
use crate::binary::{nearest, rounds_to, units};
use crate::round::{located, round_scaled};
use vstd::arithmetic::power2::{lemma_pow2_adds, lemma_pow2_pos, lemma_pow2_unfold, pow2};
use vstd::prelude::*;

verus! {

/// The weight of the implicit leading bit of a single-precision fraction.
pub const HIDDEN: u32 = 0x80_0000;

/// The sign bit.
pub const SIGN: u32 = 0x8000_0000;

/// The bits of positive infinity.
pub const INFINITY: u32 = 0x7f80_0000;

/// The bits of the quiet NaN that an invalid operation gives.
pub const NAN: u32 = 0x7fc0_0000;

/// The bits of one.
pub const ONE: u32 = 0x3f80_0000;

/// The magnitude code: the bits without the sign.
pub open spec fn magnitude(x: u32) -> nat {
    (x % SIGN) as nat
}

/// Whether the sign bit is set.
pub open spec fn is_negative(x: u32) -> bool {
    x >= SIGN
}

/// Whether the bits are those of a NaN.
pub open spec fn is_nan(x: u32) -> bool {
    magnitude(x) > INFINITY
}

/// Whether the bits are those of an infinity.
pub open spec fn is_infinite(x: u32) -> bool {
    magnitude(x) == INFINITY
}

/// Whether the bits are those of a zero.
pub open spec fn is_zero(x: u32) -> bool {
    magnitude(x) == 0
}

/// The absolute value, in units of `2^-149`.
pub open spec fn size(x: u32) -> nat {
    units(HIDDEN as nat, magnitude(x))
}

/// The bits with the given sign and magnitude code.
pub open spec fn with_sign(negative: bool, mag: nat) -> u32 {
    (if negative {
        mag + SIGN
    } else {
        mag as int
    }) as u32
}

/// The single-precision product: the exact product rounded to nearest, ties to
/// even. Every NaN result is [`NAN`].
pub open spec fn product(a: u32, b: u32) -> u32 {
    let negative = is_negative(a) != is_negative(b);
    if is_nan(a) || is_nan(b) || (is_infinite(a) && is_zero(b)) || (is_zero(a) && is_infinite(
        b,
    )) {
        NAN
    } else if is_infinite(a) || is_infinite(b) {
        with_sign(negative, INFINITY as nat)
    } else {
        with_sign(
            negative,
            nearest(HIDDEN as nat, INFINITY as nat, size(a) * size(b), pow2(149)),
        )
    }
}

/// The single-precision quotient: the exact quotient rounded to nearest, ties to
/// even. Every NaN result is [`NAN`].
pub open spec fn quotient(a: u32, b: u32) -> u32 {
    let negative = is_negative(a) != is_negative(b);
    if is_nan(a) || is_nan(b) || (is_infinite(a) && is_infinite(b)) || (is_zero(a) && is_zero(
        b,
    )) {
        NAN
    } else if is_infinite(a) || is_zero(b) {
        with_sign(negative, INFINITY as nat)
    } else if is_infinite(b) {
        with_sign(negative, 0)
    } else {
        with_sign(
            negative,
            nearest(HIDDEN as nat, INFINITY as nat, size(a) * pow2(149), size(b)),
        )
    }
}

/// The number held between `-limit` and `limit`; a NaN is left as it is.
pub open spec fn clamped(x: u32, limit: u32) -> u32 {
    if !is_nan(x) && magnitude(x) > limit {
        with_sign(is_negative(x), limit as nat)
    } else {
        x
    }
}

/// The sign and the magnitude code of a float.
pub(crate) fn split(x: u32) -> (parts: (bool, u32))
    ensures
        parts.0 == is_negative(x),
        parts.1 == magnitude(x),
        parts.1 < SIGN,
{
    if x >= SIGN {
        (true, x - SIGN)
    } else {
        (false, x)
    }
}

/// Puts a sign and a magnitude code together.
pub(crate) fn join(negative: bool, mag: u32) -> (x: u32)
    requires
        mag < SIGN,
    ensures
        x == with_sign(negative, mag as nat),
        is_negative(x) == negative,
        magnitude(x) == mag,
{
    if negative {
        mag + SIGN
    } else {
        mag
    }
}

/// A finite positive magnitude as a significand with its leading bit in place
/// and a power of two.
pub(crate) fn normalize(mag: u32) -> (parts: (u64, u32))
    requires
        0 < mag < INFINITY,
    ensures
        HIDDEN <= parts.0 < 2 * HIDDEN,
        parts.1 <= 276,
        parts.0 * pow2(parts.1 as nat) == units(HIDDEN as nat, mag as nat) * pow2(23),
{
    let exponent: u32 = mag / HIDDEN;
    let fraction: u32 = mag % HIDDEN;
    if exponent > 0 {
        proof {
            let sig = (fraction + HIDDEN) as int;
            lemma_pow2_adds((exponent - 1) as nat, 23);
            let p = pow2((exponent - 1) as nat) as int;
            let r = pow2(23) as int;
            assert(sig * (p * r) == (sig * p) * r) by (nonlinear_arith);
        }
        ((fraction + HIDDEN) as u64, exponent - 1 + 23)
    } else {
        let mut sig: u64 = fraction as u64;
        let mut power: u32 = 23;
        proof {
            vstd::arithmetic::power2::lemma2_to64();
        }
        while sig < HIDDEN as u64
            invariant
                0 < sig < 2 * HIDDEN,
                0 < fraction,
                power <= 23,
                pow2(0) == 1,
                pow2(23) == HIDDEN,
                sig * pow2(power as nat) == fraction * pow2(23),
            decreases power,
        {
            assert(power > 0) by {
                if power == 0 {
                    assert(fraction * pow2(23) >= HIDDEN) by (nonlinear_arith)
                        requires
                            fraction >= 1,
                            pow2(23) == HIDDEN,
                    ;
                    assert(sig * 1 == sig);
                }
            }
            proof {
                lemma_pow2_unfold(power as nat);
                let p = pow2((power - 1) as nat) as int;
                assert((sig * 2) * p == sig * (2 * p)) by (nonlinear_arith);
            }
            sig = sig * 2;
            power = power - 1;
        }
        (sig, power)
    }
}

/// Zero rounds to the zero code.
pub(crate) proof fn lemma_zero_rounds_to_zero(hidden: nat, top: nat, n: nat, d: nat)
    requires
        hidden > 1,
        n == 0,
        d > 0,
    ensures
        nearest(hidden, top, n, d) == 0,
{
    crate::binary::lemma_units_increase(hidden, 0, 1);
    assert((units(hidden, 0) + units(hidden, 1)) * d > 0) by (nonlinear_arith)
        requires
            units(hidden, 0) + units(hidden, 1) > 0,
            d > 0,
    ;
    assert(rounds_to(hidden, top, 0, n, d));
    lemma_nearest_is(hidden, top, 0, n, d);
}

/// Multiplies two single-precision floats.
pub fn multiply(a: u32, b: u32) -> (r: u32)
    ensures
        r == product(a, b),
{
    let (na, ma) = split(a);
    let (nb, mb) = split(b);
    let negative = na != nb;
    if ma > INFINITY || mb > INFINITY || (ma == INFINITY && mb == 0) || (ma == 0 && mb
        == INFINITY) {
        return NAN;
    }
    if ma == INFINITY || mb == INFINITY {
        return join(negative, INFINITY);
    }
    let ghost n = (size(a) * size(b)) as nat;
    proof {
        lemma_pow2_pos(149);
    }
    if ma == 0 || mb == 0 {
        proof {
            let (x, y) = (size(a), size(b));
            assert(x * y == 0) by (nonlinear_arith)
                requires
                    x == 0 || y == 0,
            ;
            lemma_zero_rounds_to_zero(HIDDEN as nat, INFINITY as nat, n, pow2(149));
        }
        return join(negative, 0);
    }
    let (sa, pa) = normalize(ma);
    let (sb, pb) = normalize(mb);
    proof {
        assert(0x4000_0000_0000 <= sa * sb < 0x1_0000_0000_0000) by (nonlinear_arith)
            requires
                0x80_0000 <= sa < 0x100_0000,
                0x80_0000 <= sb < 0x100_0000,
        ;
    }
    let sig: u64 = sa * sb;
    let level: u32 = pa + pb;
    let mag: u64 = round_scaled(HIDDEN as u64, INFINITY as u64, sig, level, false, 149 + 46);
    proof {
        let (x, y) = (size(a) as int, size(b) as int);
        let (p, q) = (pow2(pa as nat) as int, pow2(pb as nat) as int);
        let r = pow2(23) as int;
        lemma_pow2_adds(pa as nat, pb as nat);
        lemma_pow2_adds(23, 23);
        lemma_pow2_adds(149, 46);
        lemma_pow2_pos(46);
        assert((x * y) * (r * r) == (sa * sb) * (p * q)) by (nonlinear_arith)
            requires
                sa * p == x * r,
                sb * q == y * r,
        {
            assert((x * r) * (y * r) == (x * y) * (r * r));
            assert((sa * p) * (sb * q) == (sa * sb) * (p * q));
        }
        let scaled = (n * pow2(46)) as nat;
        assert(sig * (pow2(level as nat) * 1) == scaled);
        assert(located(scaled, 1, sig as nat, level as nat, false));
        assert(rounds_to(HIDDEN as nat, INFINITY as nat, mag as nat, scaled, 1 * pow2(195)));
        lemma_rounding_cancels(
            HIDDEN as nat,
            INFINITY as nat,
            mag as nat,
            n,
            pow2(149),
            pow2(46),
        );
        lemma_nearest_is(HIDDEN as nat, INFINITY as nat, mag as nat, n, pow2(149));
    }
    join(negative, mag as u32)
}

/// Divides one single-precision float by another.
pub fn divide(a: u32, b: u32) -> (r: u32)
    ensures
        r == quotient(a, b),
{
    let (na, ma) = split(a);
    let (nb, mb) = split(b);
    let negative = na != nb;
    if ma > INFINITY || mb > INFINITY || (ma == INFINITY && mb == INFINITY) || (ma == 0 && mb
        == 0) {
        return NAN;
    }
    if ma == INFINITY || mb == 0 {
        return join(negative, INFINITY);
    }
    if mb == INFINITY {
        return join(negative, 0);
    }
    let ghost n = (size(a) * pow2(149)) as nat;
    proof {
        crate::binary::lemma_units_increase(HIDDEN as nat, 0, mb as nat);
    }
    if ma == 0 {
        proof {
            let p = pow2(149);
            assert(0 * p == 0) by (nonlinear_arith);
            lemma_zero_rounds_to_zero(HIDDEN as nat, INFINITY as nat, n, size(b));
        }
        return join(negative, 0);
    }
    let (sa, pa) = normalize(ma);
    let (sb, pb) = normalize(mb);
    let widened: u64 = sa * 0x100_0000_0000;
    let sig: u64 = widened / sb;
    let inexact = widened % sb != 0;
    let level: u32 = pa + 309 - pb;
    proof {
        vstd::arithmetic::div_mod::lemma_fundamental_div_mod(widened as int, sb as int);
        assert(sig >= 2 * HIDDEN) by (nonlinear_arith)
            requires
                sb * sig + widened % sb == widened,
                0 <= widened % sb < sb,
                widened >= 0x80_0000 * 0x100_0000_0000,
                0 < sb < 0x100_0000,
        ;
    }
    let mag: u64 = round_scaled(HIDDEN as u64, INFINITY as u64, sig, level, inexact, 200);
    proof {
        lemma_quotient_is_located(a, b, sa, pa, sb, pb, sig, level, inexact);
        lemma_pow2_pos(200);
        lemma_rounding_cancels(
            HIDDEN as nat,
            INFINITY as nat,
            mag as nat,
            n,
            size(b),
            pow2(200),
        );
        lemma_nearest_is(HIDDEN as nat, INFINITY as nat, mag as nat, n, size(b));
    }
    join(negative, mag as u32)
}

/// The integer quotient of the significands locates the quotient of the numbers.
proof fn lemma_quotient_is_located(
    a: u32,
    b: u32,
    sa: u64,
    pa: u32,
    sb: u64,
    pb: u32,
    sig: u64,
    level: u32,
    inexact: bool,
)
    requires
        0 < sb,
        pb <= 276,
        sa * pow2(pa as nat) == size(a) * pow2(23),
        sb * pow2(pb as nat) == size(b) * pow2(23),
        sig == (sa * 0x100_0000_0000) / (sb as int),
        inexact == ((sa * 0x100_0000_0000) % (sb as int) != 0),
        level == pa + 309 - pb,
    ensures
        located(
            (size(a) * pow2(149)) * pow2(200),
            size(b),
            sig as nat,
            level as nat,
            inexact,
        ),
{
    let (x, y) = (size(a) as int, size(b) as int);
    let wide = sa * 0x100_0000_0000;
    let rest = wide % (sb as int);
    vstd::arithmetic::div_mod::lemma_fundamental_div_mod(wide, sb as int);
    let r = pow2(23) as int;
    let z = pow2((pa + 309) as nat) as int;
    let l = pow2(level as nat) as int;
    lemma_pow2_pos(23);
    lemma_pow2_pos((pa + 309) as nat);
    lemma_pow2_adds(level as nat, pb as nat);
    lemma_pow2_adds(pa as nat, 309);
    lemma_pow2_adds(309, 40);
    lemma_pow2_adds(149, 200);
    vstd::arithmetic::power2::lemma2_to64_rest();
    let n = ((size(a) * pow2(149)) * pow2(200)) as int;
    let unit = l * y;
    // Both sides times `2^23`.
    assert(unit * r == sb * z) by (nonlinear_arith)
        requires
            unit == l * y,
            y * r == sb * pow2(pb as nat),
            z == l * pow2(pb as nat),
    {
        assert((l * y) * r == l * (y * r));
        assert(l * (sb * pow2(pb as nat)) == sb * (l * pow2(pb as nat)));
    }
    assert(n * r == wide * z) by (nonlinear_arith)
        requires
            n == (x * pow2(149)) * pow2(200),
            pow2(149) * pow2(200) == pow2(349),
            pow2(309) * pow2(40) == pow2(349),
            pow2(40) == 0x100_0000_0000,
            x * r == sa * pow2(pa as nat),
            z == pow2(pa as nat) * pow2(309),
            wide == sa * 0x100_0000_0000,
    {
        assert(n == x * pow2(349));
        assert(n * r == (x * r) * pow2(349));
        assert((sa * pow2(pa as nat)) * (pow2(309) * pow2(40)) == (sa * pow2(40)) * (pow2(
            pa as nat,
        ) * pow2(309)));
    }
    assert(wide == sb * sig + rest);
    assert((sig * unit) * r == (sb * sig) * z) by (nonlinear_arith)
        requires
            unit * r == sb * z,
    {
        assert((sig * unit) * r == sig * (unit * r));
        assert(sig * (sb * z) == (sb * sig) * z);
    }
    assert(((sig + 1) * unit) * r == (sb * sig + sb) * z) by (nonlinear_arith)
        requires
            unit * r == sb * z,
    {
        assert(((sig + 1) * unit) * r == (sig + 1) * (unit * r));
        assert((sig + 1) * (sb * z) == (sb * sig + sb) * z);
    }
    let s = (sb * sig) as int;
    assert((s + rest) * z == s * z + rest * z) by (nonlinear_arith);
    assert((s + sb) * z == s * z + sb * z) by (nonlinear_arith);
    if inexact {
        assert(0 < rest * z < sb * z) by (nonlinear_arith)
            requires
                0 < rest < sb,
                z > 0,
        ;
        lemma_less_cancels((sig * unit) as int, n, r);
        lemma_less_cancels(n, ((sig + 1) * unit) as int, r);
    } else {
        assert(rest * z == 0) by (nonlinear_arith)
            requires
                rest == 0,
        ;
        assert(n == sig * unit) by (nonlinear_arith)
            requires
                n * r == (sig * unit) * r,
                r > 0,
        ;
    }
}

proof fn lemma_less_cancels(x: int, y: int, c: int)
    by (nonlinear_arith)
    requires
        x * c < y * c,
        c > 0,
    ensures
        x < y,
{
}

/// Holds a single-precision float between `-limit` and `limit`.
pub fn clamp(x: u32, limit: u32) -> (r: u32)
    requires
        limit <= INFINITY,
    ensures
        r == clamped(x, limit),
{
    let (negative, mag) = split(x);
    if mag <= INFINITY && mag > limit {
        join(negative, limit)
    } else {
        x
    }
}

} // verus!
