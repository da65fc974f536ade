//! Rounding an exactly known number to a binary format.

use crate::binary::{lemma_units_increase, lemma_units_of_scaled};
use crate::binary::{reaches, rounds_to, stays_below, units};
use vstd::arithmetic::power2::{lemma_pow2_adds, lemma_pow2_pos, lemma_pow2_unfold, pow2};
use vstd::arithmetic::power2::lemma_pow2_strictly_increases;
use vstd::prelude::*;

verus! {

/// `n / d` is `sig * 2^level`, or, where `inexact`, lies strictly between that
/// number and `(sig + 1) * 2^level`.
pub open spec fn located(n: nat, d: nat, sig: nat, level: nat, inexact: bool) -> bool {
    if inexact {
        sig * (pow2(level) * d) < n < (sig + 1) * (pow2(level) * d)
    } else {
        n == sig * (pow2(level) * d)
    }
}

/// Dropping the lowest bit of the significand keeps the number located.
proof fn lemma_located_halves(n: nat, d: nat, sig: nat, level: nat, inexact: bool)
    requires
        d > 0,
        located(n, d, sig, level, inexact),
    ensures
        located(n, d, sig / 2, level + 1, inexact || sig % 2 == 1),
{
    let p = (pow2(level) * d) as int;
    let s = sig as int;
    let half = s / 2;
    lemma_pow2_unfold(level + 1);
    lemma_pow2_pos(level);
    assert(p > 0) by (nonlinear_arith)
        requires
            p == pow2(level) * d,
            pow2(level) > 0,
            d > 0,
    ;
    assert(pow2(level + 1) * d == 2 * p) by (nonlinear_arith)
        requires
            pow2(level + 1) == 2 * pow2(level),
            p == pow2(level) * d,
    ;
    assert(half * (2 * p) == (2 * half) * p) by (nonlinear_arith);
    assert((half + 1) * (2 * p) == (2 * half) * p + 2 * p) by (nonlinear_arith);
    assert((s + 1) * p == s * p + p) by (nonlinear_arith);
    if s % 2 == 1 {
        assert(s == 2 * half + 1);
        assert(s * p == (2 * half) * p + p) by (nonlinear_arith)
            requires
                s == 2 * half + 1,
        ;
    } else {
        assert(s == 2 * half);
    }
}

/// The code chosen from the significand, its guard bit and what lies below them
/// is the nearest one.
proof fn lemma_choice_is_nearest(
    hidden: nat,
    n: nat,
    d: nat,
    sig: nat,
    level: nat,
    inexact: bool,
    unit: nat,
    kept: nat,
)
    requires
        hidden >= 2,
        hidden % 2 == 0,
        d > 0,
        located(n, d, sig, level, inexact),
        sig < 4 * hidden,
        level + 1 >= unit,
        sig >= 2 * hidden || level + 1 == unit,
        kept == sig / 2 + (if sig % 2 == 1 && (inexact || (sig / 2) % 2 == 1) {
            1nat
        } else {
            0nat
        }),
    ensures
        reaches(hidden, ((level + 1 - unit) * hidden + kept) as nat, n, d * pow2(unit)),
        stays_below(hidden, ((level + 1 - unit) * hidden + kept) as nat, n, d * pow2(unit)),
{
    let q = (level + 1 - unit) as nat;
    let h = hidden as int;
    let mag = (q * hidden + kept) as nat;
    let dd = (d * pow2(unit)) as int;
    let w = pow2(q) as int;
    let p = (pow2(level) * d) as int;
    let s = sig as int;
    let k = kept as int;
    let big = w * dd;
    lemma_pow2_pos(q);
    lemma_pow2_pos(level);
    lemma_pow2_pos(unit);
    lemma_pow2_unfold(level + 1);
    lemma_pow2_adds(q, unit);
    assert(p > 0) by (nonlinear_arith)
        requires
            p == pow2(level) * d,
            pow2(level) > 0,
            d > 0,
    ;
    assert(big == 2 * p) by (nonlinear_arith)
        requires
            big == w * dd,
            dd == d * pow2(unit),
            w == pow2(q),
            pow2(q) * pow2(unit) == pow2(level + 1),
            pow2(level + 1) == 2 * pow2(level),
            p == pow2(level) * d,
    ;
    assert((s + 1) * p == s * p + p) by (nonlinear_arith);
    assert(dd > 0) by (nonlinear_arith)
        requires
            dd == d * pow2(unit),
            d > 0,
            pow2(unit) > 0,
    ;
    assert((q * hidden) % 2 == 0) by (nonlinear_arith)
        requires
            hidden % 2 == 0,
    {
        assert(q * hidden == 2 * (q * (hidden / 2)));
    }
    assert(mag % 2 == kept % 2);

    // The code itself and its two neighbours.
    lemma_units_of_scaled(hidden, q, kept);
    assert(units(hidden, mag + 1) >= (k + 1) * w) by {
        if k < 2 * h {
            lemma_units_of_scaled(hidden, q, (kept + 1) as nat);
        } else {
            assert(mag + 1 == (q + 1) * hidden + (hidden + 1)) by (nonlinear_arith)
                requires
                    mag == q * hidden + kept,
                    kept == 2 * hidden,
            ;
            lemma_units_of_scaled(hidden, q + 1, hidden + 1);
            lemma_pow2_unfold(q + 1);
            assert((h + 1) * (2 * w) >= (2 * h + 1) * w) by (nonlinear_arith)
                requires
                    w > 0,
            ;
        }
    }
    let above = (units(hidden, mag) + units(hidden, mag + 1)) as int;
    assert(above * dd >= (2 * k + 1) * big) by (nonlinear_arith)
        requires
            above >= k * w + (k + 1) * w,
            big == w * dd,
            dd > 0,
    ;
    // Twice the number, in multiples of `p`.
    assert(s == 2 * (s / 2) + s % 2);
    assert((2 * k + 1) * big == (4 * k + 2) * p) by (nonlinear_arith)
        requires
            big == 2 * p,
    ;
    assert((2 * k - 1) * big == (4 * k - 2) * p) by (nonlinear_arith)
        requires
            big == 2 * p,
    ;
    let up = k - s / 2;
    assert(2 * (s * p) == (4 * k - 4 * up + 2 * (s % 2)) * p) by (nonlinear_arith)
        requires
            s == 2 * (k - up) + s % 2,
    ;
    assert forall|x: int, y: int| x < y implies #[trigger] (x * p) < #[trigger] (y * p) by {
        assert(x * p < y * p) by (nonlinear_arith)
            requires
                x < y,
                p > 0,
        ;
    }
    assert((4 * k - 4 * up + 2 * (s % 2)) * p + 2 * p == (4 * k - 4 * up + 2 * (s % 2) + 2) * p)
        by (nonlinear_arith);
    if mag > 0 {
        let below = (units(hidden, (mag - 1) as nat) + units(hidden, mag)) as int;
        if q > 0 && k == h {
            assert(mag - 1 == (q - 1) * hidden + (2 * hidden - 1)) by (nonlinear_arith)
                requires
                    mag == q * hidden + kept,
                    kept == hidden,
            ;
            lemma_units_of_scaled(hidden, (q - 1) as nat, (2 * hidden - 1) as nat);
            lemma_pow2_unfold(q);
            let v = pow2((q - 1) as nat) as int;
            lemma_pow2_pos((q - 1) as nat);
            assert(below * dd < (2 * k) * big) by (nonlinear_arith)
                requires
                    below == (2 * h - 1) * v + k * w,
                    w == 2 * v,
                    k == h,
                    v > 0,
                    dd > 0,
                    big == w * dd,
            {
                assert((2 * h - 1) * v < k * w);
                assert(below < (2 * k) * w);
                assert((2 * k) * big == ((2 * k) * w) * dd);
            }
            assert((2 * k) * big == (4 * k) * p) by (nonlinear_arith)
                requires
                    big == 2 * p,
            ;
        } else {
            lemma_units_of_scaled(hidden, q, (kept - 1) as nat);
            assert(below * dd == (2 * k - 1) * big) by (nonlinear_arith)
                requires
                    below == (k - 1) * w + k * w,
                    big == w * dd,
            ;
        }
    }
}

/// `lemma_choice_is_nearest` for every number that is located where the
/// significand says, with the codes beyond `top` folded into `top`.
proof fn lemma_choice_holds(
    hidden: u64,
    top: u64,
    sig: u64,
    level: u32,
    inexact: bool,
    unit: u32,
    kept: u64,
)
    requires
        2 <= hidden,
        hidden % 2 == 0,
        top > 0,
        sig < 4 * hidden,
        level + 1 >= unit,
        sig >= 2 * hidden || level + 1 == unit,
        kept == sig / 2 + (if sig % 2 == 1 && (inexact || (sig / 2) % 2 == 1) {
            1int
        } else {
            0int
        }),
    ensures
        forall|n: nat, d: nat|
            #![trigger located(n, d, sig as nat, level as nat, inexact)]
            d > 0 && located(n, d, sig as nat, level as nat, inexact) ==> {
                let mag = (level + 1 - unit) * hidden + kept;
                rounds_to(
                    hidden as nat,
                    top as nat,
                    (if mag > top {
                        top as int
                    } else {
                        mag
                    }) as nat,
                    n,
                    d * pow2(unit as nat),
                )
            },
{
    assert forall|n: nat, d: nat|
        #![trigger located(n, d, sig as nat, level as nat, inexact)]
        d > 0 && located(n, d, sig as nat, level as nat, inexact) implies {
        let mag = (level + 1 - unit) * hidden + kept;
        rounds_to(
            hidden as nat,
            top as nat,
            (if mag > top {
                top as int
            } else {
                mag
            }) as nat,
            n,
            d * pow2(unit as nat),
        )
    } by {
        let mag = ((level + 1 - unit) * hidden + kept) as nat;
        let dd = (d * pow2(unit as nat)) as int;
        lemma_choice_is_nearest(
            hidden as nat,
            n,
            d,
            sig as nat,
            level as nat,
            inexact,
            unit as nat,
            kept as nat,
        );
        if mag > top {
            let h = hidden as nat;
            let t = top as nat;
            lemma_pow2_pos(unit as nat);
            assert(dd > 0) by (nonlinear_arith)
                requires
                    dd == d * pow2(unit as nat),
                    d > 0,
                    pow2(unit as nat) > 0,
            ;
            lemma_units_increase(h, t, mag);
            lemma_units_increase(h, (t - 1) as nat, (mag - 1) as nat);
            let low = (units(h, (t - 1) as nat) + units(h, t)) as int;
            let high = (units(h, (mag - 1) as nat) + units(h, mag)) as int;
            assert(low * dd < high * dd) by (nonlinear_arith)
                requires
                    low < high,
                    dd > 0,
            ;
        }
    }
}

/// A 64-bit significand can be halved at most 64 times before it is spent.
proof fn lemma_halving_is_bounded(s: u64, steps: nat, sig: u64)
    requires
        s * pow2(steps) <= sig,
    ensures
        (s / 2) * pow2(steps + 1) <= sig,
        s > 0 ==> steps < 64,
{
    let p = pow2(steps) as int;
    lemma_pow2_unfold(steps + 1);
    lemma_pow2_pos(steps);
    assert((s / 2) * (2 * p) <= s * p) by (nonlinear_arith)
        requires
            p > 0,
            s >= 0,
    {
        assert(2 * (s / 2) <= s);
        assert((s / 2) * (2 * p) == (2 * (s / 2)) * p);
    }
    if s > 0 && steps >= 64 {
        vstd::arithmetic::power2::lemma2_to64();
        if steps > 64 {
            lemma_pow2_strictly_increases(64, steps);
        }
        assert(s * p >= p) by (nonlinear_arith)
            requires
                s >= 1,
                p > 0,
        ;
    }
}

/// Rounds a located number to a format: the magnitude code nearest to the
/// number, one unit of the format being `2^unit`, and `top` for all that lies
/// beyond it.
pub(crate) fn round_scaled(
    hidden: u64,
    top: u64,
    sig: u64,
    level: u32,
    inexact: bool,
    unit: u32,
) -> (mag: u64)
    requires
        2 <= hidden <= 0x80_0000,
        hidden % 2 == 0,
        0 < top <= 0xffff_ffff,
        level <= 0x1_0000,
        unit <= 0x1_0000,
        sig >= 2 * hidden,
    ensures
        mag <= top,
        forall|n: nat, d: nat|
            #![trigger located(n, d, sig as nat, level as nat, inexact)]
            d > 0 && located(n, d, sig as nat, level as nat, inexact) ==> rounds_to(
                hidden as nat,
                top as nat,
                mag as nat,
                n,
                d * pow2(unit as nat),
            ),
{
    let mut s: u64 = sig;
    let mut at: u32 = level;
    let mut rest: bool = inexact;
    proof {
        vstd::arithmetic::power2::lemma2_to64();
        assert(s * 1 == s);
        assert(pow2((at - level) as nat) == 1);
    }
    while s >= 4 * hidden || at + 1 < unit
        invariant
            2 <= hidden <= 0x80_0000,
            level <= 0x1_0000,
            unit <= 0x1_0000,
            level <= at,
            at <= level + 64 || at <= unit,
            s * pow2((at - level) as nat) <= sig,
            s >= 2 * hidden || at + 1 <= unit,
            forall|n: nat, d: nat|
                #![trigger located(n, d, sig as nat, level as nat, inexact)]
                d > 0 && located(n, d, sig as nat, level as nat, inexact) ==> located(
                    n,
                    d,
                    s as nat,
                    at as nat,
                    rest,
                ),
        decreases s, unit - at,
    {
        assert forall|n: nat, d: nat|
            #![trigger located(n, d, sig as nat, level as nat, inexact)]
            d > 0 && located(n, d, sig as nat, level as nat, inexact) implies located(
            n,
            d,
            (s / 2) as nat,
            (at + 1) as nat,
            rest || s % 2 == 1,
        ) by {
            lemma_located_halves(n, d, s as nat, at as nat, rest);
        }
        proof {
            lemma_halving_is_bounded(s, (at - level) as nat, sig);
        }
        rest = rest || s % 2 == 1;
        s = s / 2;
        at = at + 1;
    }
    let up: u64 = if s % 2 == 1 && (rest || (s / 2) % 2 == 1) {
        1
    } else {
        0
    };
    let kept: u64 = s / 2 + up;
    let step: u64 = (at + 1 - unit) as u64;
    proof {
        assert(step * hidden <= 0x2_0000 * 0x80_0000) by (nonlinear_arith)
            requires
                step <= 0x2_0000,
                hidden <= 0x80_0000,
        ;
        lemma_choice_holds(hidden, top, s, at, rest, unit, kept);
    }
    let mag: u64 = step * hidden + kept;
    if mag > top {
        top
    } else {
        mag
    }
}

} // verus!
