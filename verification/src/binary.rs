//! Binary floating-point formats: what a code stands for, and what it means to
//! round a number to a format.
//!
//! A format with `p` fraction bits is known here by `hidden`, the number `2^p`
//! that the implicit leading bit adds to a fraction. The *magnitude code* of a
//! float is its bit pattern without the sign. Every finite magnitude is a whole
//! number of *units*, one unit being the smallest subnormal of the format.

use vstd::arithmetic::div_mod::lemma_fundamental_div_mod;
use vstd::arithmetic::div_mod::lemma_fundamental_div_mod_converse;
use vstd::arithmetic::power2::lemma_pow2_pos;
use vstd::arithmetic::power2::lemma_pow2_unfold;
use vstd::arithmetic::power2::pow2;
use vstd::prelude::*;

verus! {

/// The number of units that the magnitude code `mag` stands for.
///
/// The formula is kept beyond the largest finite code, so that rounding can be
/// stated as if the exponent range had no end.
pub open spec fn units(hidden: nat, mag: nat) -> nat {
    let exponent = mag / hidden;
    let fraction = mag % hidden;
    if exponent == 0 {
        fraction
    } else {
        (fraction + hidden) * pow2((exponent - 1) as nat)
    }
}

/// `n / d` units lie above the midpoint between `mag` and the code below it, or
/// on that midpoint with `mag` even.
pub open spec fn reaches(hidden: nat, mag: nat, n: nat, d: nat) -> bool {
    mag > 0 ==> {
        let midpoints = (units(hidden, (mag - 1) as nat) + units(hidden, mag)) * d;
        2 * n > midpoints || (2 * n == midpoints && mag % 2 == 0)
    }
}

/// `n / d` units lie below the midpoint between `mag` and the code above it, or
/// on that midpoint with `mag` even.
pub open spec fn stays_below(hidden: nat, mag: nat, n: nat, d: nat) -> bool {
    let midpoints = (units(hidden, mag) + units(hidden, mag + 1)) * d;
    2 * n < midpoints || (2 * n == midpoints && mag % 2 == 0)
}

/// `mag` is the code nearest to `n / d` units, ties going to the even code, and
/// `top` where the nearest code lies beyond `top`.
pub open spec fn rounds_to(hidden: nat, top: nat, mag: nat, n: nat, d: nat) -> bool {
    &&& mag <= top
    &&& reaches(hidden, mag, n, d)
    &&& mag < top ==> stays_below(hidden, mag, n, d)
}

/// The magnitude code to which `n / d` units round.
pub open spec fn nearest(hidden: nat, top: nat, n: nat, d: nat) -> nat {
    choose|mag: nat| rounds_to(hidden, top, mag, n, d)
}

/// A larger magnitude code stands for a larger number.
pub proof fn lemma_units_increase(hidden: nat, low: nat, high: nat)
    requires
        hidden > 0,
        low < high,
    ensures
        units(hidden, low) < units(hidden, high),
    decreases high - low,
{
    let before = (high - 1) as nat;
    lemma_units_step(hidden, before);
    if low < before {
        lemma_units_increase(hidden, low, before);
    }
}

/// The units that stand between a code and its successor.
proof fn lemma_units_step(hidden: nat, mag: nat)
    requires
        hidden > 0,
    ensures
        units(hidden, mag) < units(hidden, mag + 1),
{
    let e = (mag / hidden) as int;
    let f = (mag % hidden) as int;
    let h = hidden as int;
    lemma_fundamental_div_mod(mag as int, h);
    assert(h * e == e * h) by (nonlinear_arith);
    if f + 1 < h {
        assert(mag + 1 == e * h + (f + 1));
        lemma_fundamental_div_mod_converse((mag + 1) as int, h, e, f + 1);
        if e > 0 {
            let p = pow2((e - 1) as nat) as int;
            lemma_pow2_pos((e - 1) as nat);
            assert((f + 1 + h) * p == (f + h) * p + p) by (nonlinear_arith);
        }
    } else {
        assert((e + 1) * h == e * h + h) by (nonlinear_arith);
        assert(mag + 1 == (e + 1) * h + 0);
        lemma_fundamental_div_mod_converse((mag + 1) as int, h, e + 1, 0);
        let q = pow2(e as nat) as int;
        lemma_pow2_pos(e as nat);
        if e > 0 {
            let p = pow2((e - 1) as nat) as int;
            lemma_pow2_unfold(e as nat);
            lemma_pow2_pos((e - 1) as nat);
            assert((f + h) * p < h * q) by (nonlinear_arith)
                requires
                    f + 1 == h,
                    q == 2 * p,
                    p > 0,
            ;
        } else {
            assert(f < h * q) by (nonlinear_arith)
                requires
                    f < h,
                    q >= 1,
                    f >= 0,
            ;
        }
    }
}

/// Rounding has one result: no two codes are both nearest to a number.
pub proof fn lemma_rounding_is_unique(hidden: nat, top: nat, a: nat, b: nat, n: nat, d: nat)
    requires
        hidden > 0,
        d > 0,
        rounds_to(hidden, top, a, n, d),
        rounds_to(hidden, top, b, n, d),
    ensures
        a == b,
{
    if a < b {
        lemma_rounding_not_below(hidden, top, a, b, n, d);
    } else if b < a {
        lemma_rounding_not_below(hidden, top, b, a, n, d);
    }
}

proof fn lemma_rounding_not_below(hidden: nat, top: nat, low: nat, high: nat, n: nat, d: nat)
    requires
        hidden > 0,
        d > 0,
        rounds_to(hidden, top, low, n, d),
        rounds_to(hidden, top, high, n, d),
    ensures
        !(low < high),
{
    if low < high {
        let a = units(hidden, low) as int;
        let a1 = units(hidden, low + 1) as int;
        let b0 = units(hidden, (high - 1) as nat) as int;
        let b = units(hidden, high) as int;
        if low + 1 < high {
            lemma_units_increase(hidden, low, (high - 1) as nat);
            lemma_units_increase(hidden, low + 1, high);
            assert((a + a1) * d < (b0 + b) * d) by (nonlinear_arith)
                requires
                    a < b0,
                    a1 < b,
                    d > 0,
            ;
        }
    }
}

/// The code that `rounds_to` singles out is the value of `nearest`.
pub proof fn lemma_nearest_is(hidden: nat, top: nat, mag: nat, n: nat, d: nat)
    requires
        hidden > 0,
        d > 0,
        rounds_to(hidden, top, mag, n, d),
    ensures
        nearest(hidden, top, n, d) == mag,
{
    let chosen = nearest(hidden, top, n, d);
    lemma_rounding_is_unique(hidden, top, chosen, mag, n, d);
}

/// A common factor of numerator and denominator does not change what a number
/// rounds to.
pub proof fn lemma_rounding_cancels(hidden: nat, top: nat, mag: nat, n: nat, d: nat, factor: nat)
    requires
        factor > 0,
        rounds_to(hidden, top, mag, n * factor, d * factor),
    ensures
        rounds_to(hidden, top, mag, n, d),
{
    let c = factor as int;
    let above = (units(hidden, mag) + units(hidden, mag + 1)) as int;
    lemma_factor_cancels(above, n as int, d as int, c);
    if mag > 0 {
        let below = (units(hidden, (mag - 1) as nat) + units(hidden, mag)) as int;
        lemma_factor_cancels(below, n as int, d as int, c);
    }
}

proof fn lemma_factor_cancels(sum: int, n: int, d: int, c: int)
    by (nonlinear_arith)
    requires
        c > 0,
    ensures
        2 * (n * c) < sum * (d * c) <==> 2 * n < sum * d,
        2 * (n * c) == sum * (d * c) <==> 2 * n == sum * d,
{
    assert(sum * (d * c) == (sum * d) * c);
    assert(2 * (n * c) == (2 * n) * c);
}

/// The code with exponent step `q` and significand `m` stands for `m * 2^q`.
pub proof fn lemma_units_of_scaled(hidden: nat, q: nat, m: nat)
    requires
        hidden > 0,
        m <= 2 * hidden,
        q == 0 || m >= hidden,
    ensures
        units(hidden, q * hidden + m) == m * pow2(q),
{
    let h = hidden as int;
    let mag = (q * hidden + m) as int;
    vstd::arithmetic::power2::lemma2_to64();
    if m < h {
        lemma_fundamental_div_mod_converse(mag, h, 0, m as int);
    } else if m < 2 * h {
        assert(mag == (q + 1) * h + (m - h)) by (nonlinear_arith)
            requires
                mag == q * h + m,
        ;
        lemma_fundamental_div_mod_converse(mag, h, (q + 1) as int, m - h);
    } else {
        assert(mag == (q + 2) * h + 0) by (nonlinear_arith)
            requires
                mag == q * h + m,
                m == 2 * h,
        ;
        lemma_fundamental_div_mod_converse(mag, h, (q + 2) as int, 0);
        lemma_pow2_unfold(q + 1);
        assert(h * pow2(q + 1) == m * pow2(q)) by (nonlinear_arith)
            requires
                m == 2 * h,
                pow2(q + 1) == 2 * pow2(q),
        ;
    }
}

/// Every number rounds to some code.
proof fn lemma_rounds_from(hidden: nat, top: nat, from: nat, n: nat, d: nat)
    requires
        from <= top,
        reaches(hidden, from, n, d),
    ensures
        exists|mag: nat| rounds_to(hidden, top, mag, n, d),
    decreases top - from,
{
    if from == top || stays_below(hidden, from, n, d) {
        assert(rounds_to(hidden, top, from, n, d));
    } else {
        lemma_rounds_from(hidden, top, from + 1, n, d);
    }
}

/// The value of `nearest` is the code to which a number rounds.
pub proof fn lemma_nearest_rounds(hidden: nat, top: nat, n: nat, d: nat)
    ensures
        rounds_to(hidden, top, nearest(hidden, top, n, d), n, d),
{
    lemma_rounds_from(hidden, top, 0, n, d);
}

/// The gap between a code and its successor is at most one part in `hidden` of
/// the code, or one unit.
proof fn lemma_gap(hidden: nat, mag: nat)
    requires
        hidden > 0,
    ensures
        hidden * (units(hidden, mag + 1) - units(hidden, mag)) <= units(hidden, mag)
            || units(hidden, mag + 1) - units(hidden, mag) == 1,
{
    let e = (mag / hidden) as int;
    let f = (mag % hidden) as int;
    let h = hidden as int;
    lemma_fundamental_div_mod(mag as int, h);
    assert(h * e == e * h) by (nonlinear_arith);
    if e > 0 {
        let p = pow2((e - 1) as nat) as int;
        lemma_pow2_pos((e - 1) as nat);
        if f + 1 < h {
            assert(mag + 1 == e * h + (f + 1));
            lemma_fundamental_div_mod_converse((mag + 1) as int, h, e, f + 1);
            assert((f + 1 + h) * p == (f + h) * p + p) by (nonlinear_arith);
        } else {
            assert((e + 1) * h == e * h + h) by (nonlinear_arith);
            assert(mag + 1 == (e + 1) * h + 0);
            lemma_fundamental_div_mod_converse((mag + 1) as int, h, e + 1, 0);
            lemma_pow2_unfold(e as nat);
            assert(h * (2 * p) == (f + h) * p + p) by (nonlinear_arith)
                requires
                    f + 1 == h,
            ;
        }
        assert(units(hidden, mag + 1) - units(hidden, mag) == p);
        assert(h * p <= (f + h) * p) by (nonlinear_arith)
            requires
                f >= 0,
                p > 0,
        ;
    } else if f + 1 < h {
        assert(0 * h == 0);
        lemma_fundamental_div_mod_converse((mag + 1) as int, h, 0, f + 1);
    } else {
        assert(0 * h == 0 && 1 * h == h);
        lemma_fundamental_div_mod_converse((mag + 1) as int, h, 1, 0);
        vstd::arithmetic::power2::lemma2_to64();
    }
}

/// What rounding changes is at most half a gap: one part in `2 * hidden`, or half
/// a unit.
pub proof fn lemma_rounding_error(hidden: nat, top: nat, mag: nat, n: nat, d: nat)
    requires
        hidden > 0,
        rounds_to(hidden, top, mag, n, d),
        mag < top || n <= units(hidden, mag) * d,
    ensures
        2 * hidden * (units(hidden, mag) * d - n) <= (units(hidden, mag) + hidden) * d,
        2 * hidden * (n - units(hidden, mag) * d) <= (units(hidden, mag) + hidden) * d,
{
    let (h, u, c) = (hidden as int, units(hidden, mag) as int, d as int);
    if mag > 0 {
        let u0 = units(hidden, (mag - 1) as nat) as int;
        lemma_gap(hidden, (mag - 1) as nat);
        lemma_units_increase(hidden, (mag - 1) as nat, mag);
        lemma_half_gap(h, u0, u, c, n as int);
    } else {
        lemma_fundamental_div_mod_converse(0, h, 0, 0);
        assert(u * c == 0) by (nonlinear_arith)
            requires
                u == 0,
        ;
        assert(2 * h * (0 - n) <= 0 <= (u + h) * c) by (nonlinear_arith)
            requires
                h > 0,
                n >= 0,
                u >= 0,
                c >= 0,
        ;
    }
    if mag < top {
        let u1 = units(hidden, mag + 1) as int;
        lemma_gap(hidden, mag);
        lemma_units_increase(hidden, mag, mag + 1);
        assert(2 * h * (n - u * c) <= (u + h) * c) by (nonlinear_arith)
            requires
                2 * n <= (u + u1) * c,
                h * (u1 - u) <= u || u1 - u == 1,
                h > 0,
                u >= 0,
                c >= 0,
        {
            let gap = u1 - u;
            assert((u + u1) * c == 2 * (u * c) + gap * c);
            assert(h * (2 * n) <= h * (2 * (u * c) + gap * c));
            assert(h * (2 * (u * c) + gap * c) == 2 * h * (u * c) + (h * gap) * c);
            assert(h * gap <= u + h);
            assert((h * gap) * c <= (u + h) * c);
        }
    } else {
        assert(2 * h * (n - u * c) <= 0 <= (u + h) * c) by (nonlinear_arith)
            requires
                n <= u * c,
                h > 0,
                u >= 0,
                c >= 0,
        ;
    }
}

proof fn lemma_half_gap(h: int, u0: int, u: int, c: int, n: int)
    requires
        2 * n >= (u0 + u) * c,
        h * (u - u0) <= u0 || u - u0 == 1,
        h > 0,
        0 <= u0 < u,
        c >= 0,
    ensures
        2 * h * (u * c - n) <= (u + h) * c,
{
    let gap = u - u0;
    assert((u0 + u) * c == 2 * (u * c) - gap * c) by (nonlinear_arith)
        requires
            gap == u - u0,
    ;
    assert(h * (2 * n) >= h * (2 * (u * c) - gap * c)) by (nonlinear_arith)
        requires
            2 * n >= 2 * (u * c) - gap * c,
            h > 0,
    ;
    assert(h * (2 * (u * c) - gap * c) == 2 * h * (u * c) - (h * gap) * c) by (nonlinear_arith);
    assert(h * (2 * n) == 2 * h * n) by (nonlinear_arith);
    assert(2 * h * (u * c - n) == 2 * h * (u * c) - 2 * h * n) by (nonlinear_arith);
    assert(h * gap <= u + h);
    assert((h * gap) * c <= (u + h) * c) by (nonlinear_arith)
        requires
            h * gap <= u + h,
            c >= 0,
    ;
}

/// A number that a code stands for rounds to that code.
pub proof fn lemma_exact_rounding(hidden: nat, top: nat, mag: nat, d: nat)
    requires
        hidden > 0,
        d > 0,
        mag <= top,
    ensures
        rounds_to(hidden, top, mag, units(hidden, mag) * d, d),
{
    let (u, c) = (units(hidden, mag) as int, d as int);
    let u1 = units(hidden, mag + 1) as int;
    lemma_units_increase(hidden, mag, mag + 1);
    assert(2 * (u * c) < (u + u1) * c) by (nonlinear_arith)
        requires
            u < u1,
            c > 0,
    ;
    if mag > 0 {
        let u0 = units(hidden, (mag - 1) as nat) as int;
        lemma_units_increase(hidden, (mag - 1) as nat, mag);
        assert(2 * (u * c) > (u0 + u) * c) by (nonlinear_arith)
            requires
                u0 < u,
                c > 0,
        ;
    }
}

/// One step of the exponent doubles a number that is not subnormal.
pub proof fn lemma_units_double(hidden: nat, mag: nat)
    requires
        0 < hidden <= mag,
    ensures
        units(hidden, mag + hidden) == 2 * units(hidden, mag),
{
    let h = hidden as int;
    let (e, f) = ((mag / hidden) as int, (mag % hidden) as int);
    lemma_fundamental_div_mod(mag as int, h);
    assert(h * e == e * h) by (nonlinear_arith);
    assert((e + 1) * h == e * h + h) by (nonlinear_arith);
    assert(e > 0) by (nonlinear_arith)
        requires
            mag == e * h + f,
            f < h,
            h <= mag,
            h > 0,
    ;
    lemma_fundamental_div_mod_converse((mag + hidden) as int, h, e + 1, f);
    lemma_pow2_unfold(e as nat);
    let p = pow2((e - 1) as nat) as int;
    assert((f + h) * (2 * p) == 2 * ((f + h) * p)) by (nonlinear_arith);
}

/// The double of a number rounds to the double of its code, away from the ends of
/// the format.
pub proof fn lemma_rounding_doubles(hidden: nat, top: nat, mag: nat, n: nat, d: nat)
    requires
        hidden % 2 == 0,
        0 < hidden < mag,
        mag + hidden < top,
        rounds_to(hidden, top, mag, n, d),
    ensures
        rounds_to(hidden, top, mag + hidden, 2 * n, d),
{
    lemma_units_double(hidden, (mag - 1) as nat);
    lemma_units_double(hidden, mag);
    lemma_units_double(hidden, mag + 1);
    assert((mag - 1 + hidden) as nat == (mag + hidden - 1) as nat);
    let below = (units(hidden, (mag - 1) as nat) + units(hidden, mag)) as int;
    let above = (units(hidden, mag) + units(hidden, mag + 1)) as int;
    assert((2 * below) * d == 2 * (below * d)) by (nonlinear_arith);
    assert((2 * above) * d == 2 * (above * d)) by (nonlinear_arith);
}

/// The half of a number rounds to the half of its code, away from the ends of the
/// format.
pub proof fn lemma_rounding_halves(hidden: nat, top: nat, mag: nat, n: nat, d: nat)
    requires
        hidden % 2 == 0,
        0 < hidden,
        2 * hidden < mag < top,
        rounds_to(hidden, top, mag, n, d),
    ensures
        rounds_to(hidden, top, (mag - hidden) as nat, n, 2 * d),
{
    let half = (mag - hidden) as nat;
    lemma_units_double(hidden, (half - 1) as nat);
    lemma_units_double(hidden, half);
    lemma_units_double(hidden, half + 1);
    assert((half - 1 + hidden) as nat == (mag - 1) as nat);
    let below = (units(hidden, (half - 1) as nat) + units(hidden, half)) as int;
    let above = (units(hidden, half) + units(hidden, half + 1)) as int;
    assert((2 * below) * d == below * (2 * d)) by (nonlinear_arith);
    assert((2 * above) * d == above * (2 * d)) by (nonlinear_arith);
}

} // verus!
