//! What is left of a number that is quantized and dequantized again.
//!
//! Between the two a number is rounded four times: its scale is inverted, the
//! number is multiplied with the inverse and rounded to FP8, and the code is
//! multiplied with the scale. The proofs follow the errors in integers, all sizes
//! being counted in the smallest single-precision subnormal: `p` is the size of
//! one, `2^149`, and `0x80_0000` the number of steps between two powers of two.

use crate::binary::{lemma_exact_rounding, lemma_nearest_is, lemma_nearest_rounds};
use crate::binary::{lemma_rounding_error, lemma_rounding_is_unique};
use crate::binary::{lemma_units_increase, lemma_units_of_scaled};
use crate::binary::{nearest, rounds_to, stays_below, units};
use crate::block::{blocks, law_blocks_partition, law_one_scale_per_block, Fp8BlockSize};
use crate::convert::{bf16_of, e4m3_of, is_bf16_nan, is_e4m3_nan, single_of_bf16};
use crate::convert::{has_e4m3_value, single_of_e4m3};
use crate::convert::{BF16_HIDDEN, BF16_INFINITY, E4M3_HIDDEN, E4M3_MAX};
use crate::dequant::{dequant_error, dequant_is_defined, dequant_of, is_dequant_work};
use crate::dequant::{scaled, Fp8BlockwiseDequant};
use crate::device::Work;
use crate::error::DType;
use crate::layout::{lemma_matrix_volume, volume};
use crate::quantize::{absmax, absolute, entry, in_block, lemma_absmax, lemma_row_and_column};
use crate::quantize::{are_block_codes, are_block_scales, quantized, scale_for, BLOCK, FP8_MAX};
use crate::quantize::{dynamic_error, dynamic_is_defined, is_dynamic_work, matrix_rows};
use crate::single::{clamped, is_negative, magnitude, product, quotient, size, with_sign};
use crate::single::{HIDDEN, INFINITY, ONE, SIGN};
use crate::tensor::{lemma_compact_position, Tensor};
use vstd::arithmetic::power2::{lemma2_to64, lemma2_to64_rest, pow2};
use vstd::arithmetic::power2::{lemma_pow2_adds, lemma_pow2_pos};
use vstd::prelude::*;

verus! {

/// The errors of two roundings add up.
proof fn lemma_two_roundings(z: int, x: int, q: int, s: int)
    requires
        x >= 0,
        q >= 0,
        s >= 0,
        0x80_0000 * (z - x) <= z,
        0x80_0000 * (x - z) <= z,
        0x100_0000 * (q - z) <= q + 0x80_0000 * s,
        0x100_0000 * (z - q) <= q + 0x80_0000 * s,
    ensures
        0x80_0000 * q <= 0x80_0004 * x + 0x80_0000 * s,
        0x80_0000 * x <= 0x80_0002 * q + 0x80_0000 * s,
{
}

/// The error of a number divided by a scale: `i` is the rounded inverse of the
/// scale `s`, and `q` the rounded product of `x` and `i`.
proof fn lemma_scaled_error(p: int, s: int, x: int, i: int, q: int)
    requires
        p > 0,
        s > 0,
        x >= 0,
        q >= 0,
        i >= 0x80_0000,
        0x100_0000 * (i * s - p * p) <= (i + 0x80_0000) * s,
        0x100_0000 * (p * p - i * s) <= (i + 0x80_0000) * s,
        0x100_0000 * (q * p - x * i) <= (q + 0x80_0000) * p,
        0x100_0000 * (x * i - q * p) <= (q + 0x80_0000) * p,
    ensures
        0x80_0000 * (q * s) <= 0x80_0004 * (x * p) + 0x80_0000 * s,
        0x80_0000 * (x * p) <= 0x80_0002 * (q * s) + 0x80_0000 * s,
{
    let inv = i * s;
    let z = x * inv;
    let xp = x * p;
    let qs = q * s;
    // The inverse, times `x`.
    assert((i + 0x80_0000) * s <= 2 * inv) by (nonlinear_arith)
        requires
            i >= 0x80_0000,
            s > 0,
            inv == i * s,
    ;
    assert(0x80_0000 * (z - xp * p) <= z && 0x80_0000 * (xp * p - z) <= z) by (nonlinear_arith)
        requires
            0x100_0000 * (inv - p * p) <= 2 * inv,
            0x100_0000 * (p * p - inv) <= 2 * inv,
            x >= 0,
            z == x * inv,
            xp == x * p,
    {
        let err = inv - p * p;
        assert(0x80_0000 * err <= inv);
        assert(-(0x80_0000 * err) <= inv);
        assert(x * (0x80_0000 * err) <= x * inv);
        assert(x * (-(0x80_0000 * err)) <= x * inv);
        assert(x * (0x80_0000 * err) == 0x80_0000 * (x * inv - x * (p * p)));
        assert(x * (p * p) == (x * p) * p);
    }
    // The product, times `s`.
    let qsp = qs * p;
    let sp = s * p;
    assert(0x100_0000 * (qsp - z) <= qsp + 0x80_0000 * sp && 0x100_0000 * (z - qsp) <= qsp
        + 0x80_0000 * sp) by (nonlinear_arith)
        requires
            0x100_0000 * (q * p - x * i) <= (q + 0x80_0000) * p,
            0x100_0000 * (x * i - q * p) <= (q + 0x80_0000) * p,
            s > 0,
            inv == i * s,
            z == x * inv,
            qs == q * s,
            qsp == qs * p,
            sp == s * p,
    {
        let err = q * p - x * i;
        assert((0x100_0000 * err) * s <= ((q + 0x80_0000) * p) * s);
        assert((0x100_0000 * (-err)) * s <= ((q + 0x80_0000) * p) * s);
        assert(((q + 0x80_0000) * p) * s == qsp + 0x80_0000 * sp);
        assert(err * s == qsp - z);
        assert((0x100_0000 * err) * s == 0x100_0000 * (err * s));
        assert((0x100_0000 * (-err)) * s == -(0x100_0000 * (err * s)));
    }
    let xpp = xp * p;
    assert(xpp >= 0 && qsp >= 0 && sp >= 0) by (nonlinear_arith)
        requires
            x >= 0,
            q >= 0,
            s > 0,
            p > 0,
            xp == x * p,
            xpp == xp * p,
            qs == q * s,
            qsp == qs * p,
            sp == s * p,
    ;
    lemma_two_roundings(z, xpp, qsp, sp);
    assert(0x80_0000 * qs <= 0x80_0004 * xp + 0x80_0000 * s && 0x80_0000 * xp <= 0x80_0002 * qs
        + 0x80_0000 * s) by (nonlinear_arith)
        requires
            0x80_0000 * qsp <= 0x80_0004 * xpp + 0x80_0000 * sp,
            0x80_0000 * xpp <= 0x80_0002 * qsp + 0x80_0000 * sp,
            qsp == qs * p,
            xpp == xp * p,
            sp == s * p,
            p > 0,
    {
        assert((0x80_0000 * qs) * p <= (0x80_0004 * xp + 0x80_0000 * s) * p);
        assert((0x80_0000 * xp) * p <= (0x80_0002 * qs + 0x80_0000 * s) * p);
    }
}

/// The clamped quotient is as close: nothing that is quantized lies far beyond 448
/// times its scale.
proof fn lemma_clamped_error(p: int, s: int, a: int, x: int, q: int, k: int)
    requires
        p >= 0x80_0000,
        s > 0x20_0000,
        0 <= x <= a,
        0 <= q,
        0x100_0000 * (a - 448 * s) <= 448 * (s + 0x80_0000),
        0x80_0000 * (q * s) <= 0x80_0004 * (x * p) + 0x80_0000 * s,
        0x80_0000 * (x * p) <= 0x80_0002 * (q * s) + 0x80_0000 * s,
        k == (if q <= 448 * p {
            q
        } else {
            448 * p
        }),
    ensures
        0 <= k * s,
        0x80_0000 * (k * s) <= 0x80_0004 * (x * p) + s * p,
        0x80_0000 * (x * p) <= 0x80_0002 * (k * s) + 897 * (s * p),
{
    let sp = s * p;
    assert(0 < 0x80_0000 * s <= sp) by (nonlinear_arith)
        requires
            p >= 0x80_0000,
            s > 0,
            sp == s * p,
    ;
    assert(0 <= k * s <= q * s) by (nonlinear_arith)
        requires
            0 <= k <= q,
            s > 0,
    ;
    if q > 448 * p {
        assert(k * s == 448 * sp) by (nonlinear_arith)
            requires
                k == 448 * p,
                sp == s * p,
        ;
        assert(x * p <= a * p) by (nonlinear_arith)
            requires
                x <= a,
                p > 0,
        ;
        let bound = 448 * s;
        assert(0x100_0000 * (a * p) <= 0x100_0001 * (448 * sp) + 448 * (0x80_0000 * p)) by (
            nonlinear_arith)
            requires
                0x100_0000 * (a - bound) <= bound + 448 * 0x80_0000,
                bound == 448 * s,
                p > 0,
                sp == s * p,
        {
            assert((0x100_0000 * a) * p <= (0x100_0001 * bound + 448 * 0x80_0000) * p);
            assert(bound * p == 448 * sp);
        }
        assert(0x80_0000 * p <= 4 * sp) by (nonlinear_arith)
            requires
                s > 0x20_0000,
                p > 0,
                sp == s * p,
        ;
    }
}

/// The four roundings together: `c` is the E4M3 code, in units of `e`, of the
/// clamped quotient `k`, and `r` the rounded product of code and scale.
proof fn lemma_recovered_error(p: int, e: int, s: int, x: int, k: int, c: int, r: int)
    requires
        p == 512 * e,
        e > 0,
        s > 0x20_0000,
        x >= 0,
        k >= 0,
        c >= 0,
        r >= 0,
        0x80_0000 * (k * s) <= 0x80_0004 * (x * p) + s * p,
        0x80_0000 * (x * p) <= 0x80_0002 * (k * s) + 897 * (s * p),
        16 * (c * e - k) <= (c + 8) * e,
        16 * (k - c * e) <= (c + 8) * e,
        0x100_0000 * (r * p - (c * e) * s) <= (r + 0x80_0000) * p,
        0x100_0000 * ((c * e) * s - r * p) <= (r + 0x80_0000) * p,
    ensures
        7168 * (r - x) <= 512 * x + 14 * s,
        7168 * (x - r) <= 512 * x + 14 * s,
{
    let ce = c * e;
    let ces = ce * s;
    let es = e * s;
    let ks = k * s;
    let (xp, rp, sp) = (x * p, r * p, s * p);
    assert((c + 8) * e == ce + 8 * e) by (nonlinear_arith)
        requires
            ce == c * e,
    ;
    assert(16 * (ces - ks) <= ces + 8 * es && 16 * (ks - ces) <= ces + 8 * es) by (
        nonlinear_arith)
        requires
            16 * (ce - k) <= ce + 8 * e,
            16 * (k - ce) <= ce + 8 * e,
            s > 0,
            ces == ce * s,
            es == e * s,
            ks == k * s,
    {
        assert((16 * (ce - k)) * s <= (ce + 8 * e) * s);
        assert((16 * (k - ce)) * s <= (ce + 8 * e) * s);
    }
    assert(sp == 512 * es) by (nonlinear_arith)
        requires
            sp == s * p,
            es == e * s,
            p == 512 * e,
    ;
    assert((r + 0x80_0000) * p == rp + 0x80_0000 * p) by (nonlinear_arith)
        requires
            rp == r * p,
    ;
    assert(0x80_0000 * p <= 4 * sp) by (nonlinear_arith)
        requires
            s > 0x20_0000,
            p > 0,
            sp == s * p,
    ;
    assert(xp >= 0 && rp >= 0 && es > 0 && ces >= 0 && ks >= 0) by (nonlinear_arith)
        requires
            x >= 0,
            r >= 0,
            p > 0,
            e > 0,
            s > 0,
            c >= 0,
            k >= 0,
            xp == x * p,
            rp == r * p,
            es == e * s,
            ce == c * e,
            ces == ce * s,
            ks == k * s,
    ;
    lemma_last_roundings(xp, ks, ces, rp, es);
    assert(7168 * (r - x) <= 512 * x + 14 * s && 7168 * (x - r) <= 512 * x + 14 * s) by (
        nonlinear_arith)
        requires
            7168 * (rp - xp) <= 512 * xp + 14 * sp,
            7168 * (xp - rp) <= 512 * xp + 14 * sp,
            rp == r * p,
            xp == x * p,
            sp == s * p,
            p > 0,
    {
        assert((7168 * (r - x)) * p <= (512 * x + 14 * s) * p);
        assert((7168 * (x - r)) * p <= (512 * x + 14 * s) * p);
    }
}

/// The errors of the clamped quotient, of its code and of the product add up.
proof fn lemma_last_roundings(x: int, k: int, c: int, r: int, e: int)
    requires
        x >= 0,
        k >= 0,
        c >= 0,
        r >= 0,
        e > 0,
        0x80_0000 * k <= 0x80_0004 * x + 512 * e,
        0x80_0000 * x <= 0x80_0002 * k + 897 * (512 * e),
        16 * (c - k) <= c + 8 * e,
        16 * (k - c) <= c + 8 * e,
        0x100_0000 * (r - c) <= r + 4 * (512 * e),
        0x100_0000 * (c - r) <= r + 4 * (512 * e),
    ensures
        14 * (r - x) <= x + 14 * e,
        14 * (x - r) <= x + 14 * e,
{
}

/// The powers of two that the proofs below need, over three of them.
pub proof fn lemma_powers()
    ensures
        pow2(149) == 512 * pow2(140),
        pow2(140) > 0,
        pow2(149) * pow2(149) == 0x4000_0000_0000 * pow2(252),
        pow2(252) >= 0x1_0000_0000_0000 * pow2(149),
        pow2(149) >= 0x1_0000_0000_0000,
        units(HIDDEN as nat, INFINITY as nat) == 0x200_0000 * pow2(252),
        units(HIDDEN as nat, (INFINITY - 1) as nat) == 0x1ff_fffe * pow2(252),
        units(HIDDEN as nat, 0x7f7f_0000) == 0x1fe_0000 * pow2(252),
        size(ONE) == pow2(149),
        size(FP8_MAX) == 448 * pow2(149),
        units(E4M3_HIDDEN as nat, E4M3_MAX as nat) == 448 * 512,
{
    lemma2_to64();
    lemma2_to64_rest();
    lemma_pow2_pos(140);
    lemma_pow2_pos(149);
    lemma_pow2_adds(140, 9);
    lemma_pow2_adds(149, 149);
    lemma_pow2_adds(252, 46);
    lemma_pow2_adds(149, 103);
    lemma_pow2_adds(48, 55);
    lemma_pow2_pos(55);
    let (p, t) = (pow2(149) as int, pow2(55) as int);
    assert(p * (0x1_0000_0000_0000 * t) >= 0x1_0000_0000_0000 * p) by (nonlinear_arith)
        requires
            p > 0,
            t >= 1,
    ;
    lemma_pow2_adds(48, 101);
    lemma_pow2_pos(101);
    lemma_pow2_adds(252, 1);
    lemma_pow2_adds(252, 2);
    lemma_pow2_adds(126, 23);
    lemma_pow2_adds(134, 15);
    lemma_units_of_scaled(0x80_0000, 254, 0x80_0000);
    lemma_units_of_scaled(0x80_0000, 253, 0xff_ffff);
    lemma_units_of_scaled(0x80_0000, 253, 0xff_0000);
    lemma_units_of_scaled(0x80_0000, 126, 0x80_0000);
    lemma_units_of_scaled(0x80_0000, 134, 0xe0_0000);
    lemma_units_of_scaled(8, 14, 14);
}

/// A number below the midpoint before infinity rounds to a finite one.
proof fn lemma_stays_finite(mag: nat, n: nat, d: nat)
    requires
        rounds_to(HIDDEN as nat, INFINITY as nat, mag, n, d),
        n < 0x1ff_ffff * pow2(252) * d,
    ensures
        mag < INFINITY,
{
    lemma_powers();
    let b = pow2(252);
    assert((0x1ff_fffe * b + 0x200_0000 * b) * d == 2 * (0x1ff_ffff * b * d)) by (
        nonlinear_arith);
}

/// The bits put together from a sign and a magnitude code have them.
pub proof fn lemma_with_sign(negative: bool, mag: nat)
    requires
        mag < SIGN,
    ensures
        magnitude(with_sign(negative, mag)) == mag,
        is_negative(with_sign(negative, mag)) == negative,
{
}

/// A product of finite numbers is what the exact product rounds to.
pub proof fn lemma_product_rounds(a: u32, b: u32)
    requires
        magnitude(a) < INFINITY,
        magnitude(b) < INFINITY,
    ensures
        rounds_to(
            HIDDEN as nat,
            INFINITY as nat,
            magnitude(product(a, b)),
            size(a) * size(b),
            pow2(149),
        ),
        is_negative(product(a, b)) == (is_negative(a) != is_negative(b)),
{
    let mag = nearest(HIDDEN as nat, INFINITY as nat, size(a) * size(b), pow2(149));
    let negative = is_negative(a) != is_negative(b);
    lemma_nearest_rounds(HIDDEN as nat, INFINITY as nat, size(a) * size(b), pow2(149));
    assert(product(a, b) == with_sign(negative, mag));
    lemma_with_sign(negative, mag);
}

/// A quotient of finite numbers is what the exact quotient rounds to.
pub proof fn lemma_quotient_rounds(a: u32, b: u32)
    requires
        magnitude(a) < INFINITY,
        0 < magnitude(b) < INFINITY,
    ensures
        rounds_to(
            HIDDEN as nat,
            INFINITY as nat,
            magnitude(quotient(a, b)),
            size(a) * pow2(149),
            size(b),
        ),
        is_negative(quotient(a, b)) == (is_negative(a) != is_negative(b)),
{
    let mag = nearest(HIDDEN as nat, INFINITY as nat, size(a) * pow2(149), size(b));
    let negative = is_negative(a) != is_negative(b);
    lemma_nearest_rounds(HIDDEN as nat, INFINITY as nat, size(a) * pow2(149), size(b));
    assert(quotient(a, b) == with_sign(negative, mag));
    lemma_with_sign(negative, mag);
}

/// A single-precision float with the value of an E4M3 number, given by its
/// significand and power of two.
proof fn lemma_widens_to(x: u8, q: nat, m: nat)
    requires
        q * HIDDEN + m < INFINITY,
        m <= 2 * HIDDEN,
        q == 0 || m >= HIDDEN,
        m * pow2(q) == units(E4M3_HIDDEN as nat, (x % 0x80) as nat) * pow2(140),
    ensures
        exists|r: u32| has_e4m3_value(x, r),
{
    let wide = q * (HIDDEN as nat) + m;
    lemma_units_of_scaled(HIDDEN as nat, q, m);
    let r = if x >= 0x80 {
        (wide + SIGN) as u32
    } else {
        wide as u32
    };
    assert(magnitude(r) == wide);
    assert(has_e4m3_value(x, r));
}

/// Every E4M3 number has a single-precision float with its value.
pub proof fn lemma_e4m3_widens(x: u8)
    requires
        !is_e4m3_nan(x),
    ensures
        has_e4m3_value(x, single_of_e4m3(x)),
{
    let mag = (x % 0x80) as nat;
    let (e, f) = (mag / 8, mag % 8);
    let unit = pow2(140) as int;
    lemma2_to64();
    if e > 0 {
        let (p, t) = (pow2((e - 1) as nat) as int, pow2((e + 119) as nat) as int);
        lemma_pow2_adds((e - 1) as nat, 140);
        lemma_pow2_adds((e + 119) as nat, 20);
        assert(units(8, mag) == (f + 8) * p);
        assert(((f + 8) * p) * unit == ((f + 8) * 0x10_0000) * t) by (nonlinear_arith)
            requires
                p * unit == t * 0x10_0000,
        {
            assert(((f + 8) * p) * unit == (f + 8) * (p * unit));
        }
        lemma_widens_to(x, (e + 119) as nat, ((f + 8) * 0x10_0000) as nat);
    } else if f >= 4 {
        let t = pow2(119) as int;
        lemma_pow2_adds(119, 21);
        assert(f * unit == (f * 0x20_0000) * t) by (nonlinear_arith)
            requires
                unit == t * 0x20_0000,
        ;
        lemma_widens_to(x, 119, f * 0x20_0000);
    } else if f >= 2 {
        let t = pow2(118) as int;
        lemma_pow2_adds(118, 22);
        assert(f * unit == (f * 0x40_0000) * t) by (nonlinear_arith)
            requires
                unit == t * 0x40_0000,
        ;
        lemma_widens_to(x, 118, f * 0x40_0000);
    } else {
        let t = pow2(117) as int;
        lemma_pow2_adds(117, 23);
        assert(f * unit == (f * 0x80_0000) * t && (f == 0 ==> f * unit == 0)) by (
            nonlinear_arith)
            requires
                unit == t * 0x80_0000,
        ;
        if f == 1 {
            lemma_widens_to(x, 117, f * 0x80_0000);
        } else {
            assert(f * pow2(0) == f);
            lemma_widens_to(x, 0, f);
        }
    }
}

/// The inverse of a scale is finite and not subnormal, and close to the exact one.
pub proof fn lemma_inverse(scale: u32)
    requires
        0 < scale < INFINITY,
        size(scale) > 0x20_0000,
        448 * size(scale) < 0x1ff_ffff * pow2(252),
    ensures
        ({
            let (p, s) = (pow2(149) as int, size(scale) as int);
            let inverse = quotient(ONE, scale);
            let i = size(inverse) as int;
            &&& magnitude(inverse) < INFINITY
            &&& !is_negative(inverse)
            &&& i >= 0x80_0000
            &&& 0x100_0000 * (i * s - p * p) <= (i + 0x80_0000) * s
            &&& 0x100_0000 * (p * p - i * s) <= (i + 0x80_0000) * s
        }),
{
    let (p, s, b) = (pow2(149) as int, size(scale) as int, pow2(252) as int);
    let inverse = quotient(ONE, scale);
    let i = size(inverse) as int;
    lemma_powers();
    lemma_quotient_rounds(ONE, scale);
    assert(p * p < 0x1ff_ffff * b * s) by (nonlinear_arith)
        requires
            p * p == 0x4000_0000_0000 * b,
            s >= 0x20_0001,
            b > 0,
    ;
    lemma_stays_finite(magnitude(inverse), (p * p) as nat, s as nat);
    lemma_rounding_error(
        HIDDEN as nat,
        INFINITY as nat,
        magnitude(inverse),
        (p * p) as nat,
        s as nat,
    );
    if i < 0x80_0000 {
        assert(i * s <= 0x80_0000 * s && (i + 0x80_0000) * s <= 0x100_0000 * s) by (
            nonlinear_arith)
            requires
                i < 0x80_0000,
                s > 0,
        ;
        let (square, both) = (p * p, i * s);
        assert(0x100_0000 * (square - both) <= (i + 0x80_0000) * s);
        assert(0x100_0000 * (square - both) <= 0x100_0000 * s);
        assert(false);
    }
}

/// A number divided by a scale is finite, and close to the exact quotient.
proof fn lemma_scaled(x: u32, scale: u32, a: int)
    requires
        magnitude(x) < INFINITY,
        0 < scale < INFINITY,
        size(scale) > 0x20_0000,
        448 * size(scale) < 0x1ff_ffff * pow2(252),
        size(x) <= a,
        0x100_0000 * (a - 448 * size(scale)) <= 448 * (size(scale) + 0x80_0000),
    ensures
        ({
            let (p, s) = (pow2(149) as int, size(scale) as int);
            let quot = product(x, quotient(ONE, scale));
            let q = size(quot) as int;
            &&& magnitude(quot) < INFINITY
            &&& is_negative(quot) == is_negative(x)
            &&& 0x80_0000 * (q * s) <= 0x80_0004 * (size(x) * p) + 0x80_0000 * s
            &&& 0x80_0000 * (size(x) * p) <= 0x80_0002 * (q * s) + 0x80_0000 * s
        }),
{
    let (p, s, b) = (pow2(149) as int, size(scale) as int, pow2(252) as int);
    let v = size(x) as int;
    let inverse = quotient(ONE, scale);
    let i = size(inverse) as int;
    lemma_powers();
    lemma_inverse(scale);
    let quot = product(x, inverse);
    lemma_product_rounds(x, inverse);
    assert(v <= 450 * s);
    assert(v * i <= 900 * (p * p)) by (nonlinear_arith)
        requires
            0 <= v <= 450 * s,
            i >= 0x80_0000,
            s > 0,
            0x100_0000 * (i * s - p * p) <= (i + 0x80_0000) * s,
    {
        assert(v * i <= (450 * s) * i);
        assert((i + 0x80_0000) * s <= 2 * (i * s));
    }
    assert(900 * (p * p) < 0x1ff_ffff * b * p) by (nonlinear_arith)
        requires
            b >= 0x1_0000_0000_0000 * p,
            p > 0,
    ;
    assert(size(x) * size(inverse) == v * i);
    lemma_stays_finite(magnitude(quot), (v * i) as nat, p as nat);
    lemma_rounding_error(
        HIDDEN as nat,
        INFINITY as nat,
        magnitude(quot),
        (v * i) as nat,
        p as nat,
    );
    lemma_scaled_error(p, s, v, i, size(quot) as int);
}

/// The size of a clamped number.
proof fn lemma_clamped_size(x: u32)
    requires
        magnitude(x) < INFINITY,
    ensures
        ({
            let limit = 448 * pow2(149);
            let held = clamped(x, FP8_MAX);
            &&& magnitude(held) < INFINITY
            &&& is_negative(held) == is_negative(x)
            &&& size(held) == (if size(x) <= limit {
                size(x)
            } else {
                limit
            })
        }),
{
    lemma_powers();
    assert(magnitude(FP8_MAX) == FP8_MAX);
    if magnitude(x) > FP8_MAX {
        lemma_units_increase(HIDDEN as nat, FP8_MAX as nat, magnitude(x));
    } else if magnitude(x) < FP8_MAX {
        lemma_units_increase(HIDDEN as nat, magnitude(x), FP8_MAX as nat);
    }
}

/// The E4M3 code of a number up to 448 is close to the number.
proof fn lemma_code_error(x: u32)
    requires
        magnitude(x) < INFINITY,
        size(x) <= 448 * pow2(149),
    ensures
        ({
            let (e, k) = (pow2(140) as int, size(x) as int);
            let code = e4m3_of(x);
            let c = units(E4M3_HIDDEN as nat, (code % 0x80) as nat) as int;
            &&& !is_e4m3_nan(code)
            &&& (code >= 0x80) == is_negative(x)
            &&& c <= 448 * 512
            &&& 16 * (c * e - k) <= (c + 8) * e
            &&& 16 * (k - c * e) <= (c + 8) * e
            &&& rounds_to(E4M3_HIDDEN as nat, E4M3_MAX as nat, (code % 0x80) as nat, size(x),
                pow2(140),
            )
        }),
{
    lemma_powers();
    let (h, top) = (E4M3_HIDDEN as nat, E4M3_MAX as nat);
    let mag = nearest(h, top, size(x), pow2(140));
    lemma_nearest_rounds(h, top, size(x), pow2(140));
    assert((e4m3_of(x) % 0x80) == mag);
    if mag < top {
        lemma_units_increase(h, mag, top);
    } else {
        let (u, e) = (units(h, mag), pow2(140));
        assert(u * e == 448 * (512 * e)) by (nonlinear_arith)
            requires
                u == 448 * 512,
        ;
    }
    lemma_rounding_error(h, top, mag, size(x), pow2(140));
}

/// Quantizing and dequantizing a number changes it by little, for a scale with a
/// finite inverse that keeps the number near the range of E4M3.
proof fn lemma_round_trip(x: u16, scale: u32, a: int)
    requires
        magnitude(single_of_bf16(x)) < INFINITY,
        0 < scale < INFINITY,
        size(scale) > 0x20_0000,
        448 * size(scale) < 0x1ff_ffff * pow2(252),
        size(single_of_bf16(x)) <= a,
        0x100_0000 * (a - 448 * size(scale)) <= 448 * (size(scale) + 0x80_0000),
    ensures
        ({
            let wide = single_of_bf16(x);
            let code = quantized(x, scale);
            let back = scaled(code, scale);
            &&& !is_e4m3_nan(code)
            &&& magnitude(back) < INFINITY
            &&& is_negative(back) == is_negative(wide)
            &&& 7168 * (size(back) - size(wide)) <= 512 * size(wide) + 14 * size(scale)
            &&& 7168 * (size(wide) - size(back)) <= 512 * size(wide) + 14 * size(scale)
        }),
{
    let wide = single_of_bf16(x);
    let quot = product(wide, quotient(ONE, scale));
    let held = clamped(quot, FP8_MAX);
    let code = quantized(x, scale);
    let back = scaled(code, scale);
    let (p, e, s, b) = (pow2(149) as int, pow2(140) as int, size(scale) as int, pow2(252) as int);
    let (v, k) = (size(wide) as int, size(held) as int);
    let c = units(E4M3_HIDDEN as nat, (code % 0x80) as nat) as int;
    lemma_powers();
    lemma_scaled(wide, scale, a);
    lemma_clamped_size(quot);
    lemma_clamped_error(p, s, a, v, size(quot) as int, k);
    lemma_code_error(held);
    lemma_e4m3_widens(code);
    let factor = single_of_e4m3(code);
    lemma_product_rounds(factor, scale);
    assert(size(factor) == c * e);
    assert(c * e <= 448 * p) by (nonlinear_arith)
        requires
            c <= 448 * 512,
            p == 512 * e,
            e > 0,
    ;
    assert(0 <= c * e) by (nonlinear_arith)
        requires
            c >= 0,
            e > 0,
    ;
    assert((c * e) * s < 0x1ff_ffff * b * p) by (nonlinear_arith)
        requires
            0 <= c * e <= 448 * p,
            448 * s < 0x1ff_ffff * b,
            s > 0,
            p > 0,
    {
        assert((c * e) * s <= (448 * p) * s);
        assert((448 * p) * s == (448 * s) * p);
    }
    assert(0 <= (c * e) * s) by (nonlinear_arith)
        requires
            0 <= c * e,
            s > 0,
    ;
    lemma_stays_finite(magnitude(back), ((c * e) * s) as nat, p as nat);
    lemma_rounding_error(
        HIDDEN as nat,
        INFINITY as nat,
        magnitude(back),
        ((c * e) * s) as nat,
        p as nat,
    );
    lemma_recovered_error(p, e, s, v, k, c, size(back) as int);
}

/// The scale of a block whose largest absolute value is finite brings that value
/// to about 448.
pub proof fn lemma_scale(a: u32)
    requires
        a <= 0x7f7f_0000,
    ensures
        scale_for(a) < INFINITY,
        448 * size(scale_for(a)) < 0x1ff_ffff * pow2(252),
        0x100_0000 * (size(a) - 448 * size(scale_for(a))) <= 448 * (size(scale_for(a))
            + 0x80_0000),
        a > 0 ==> 0x100_0000 * (448 * size(scale_for(a)) - size(a)) <= 448 * (size(scale_for(a))
            + 0x80_0000),
{
    lemma_powers();
    let (p, b) = (pow2(149) as int, pow2(252) as int);
    let scale = scale_for(a);
    let (v, s) = (size(a) as int, size(scale) as int);
    assert(magnitude(a) == a);
    if a < 0x7f7f_0000 {
        lemma_units_increase(HIDDEN as nat, a as nat, 0x7f7f_0000);
    }
    assert(v <= 0x1fe_0000 * b);
    if a > 0 {
        lemma_quotient_rounds(a, FP8_MAX);
        let d = 448 * p;
        assert(v * p < 0x1ff_ffff * b * d) by (nonlinear_arith)
            requires
                v <= 0x1fe_0000 * b,
                d == 448 * p,
                p > 0,
                b > 0,
        {
            assert(v * p <= (0x1fe_0000 * b) * p);
            assert((0x1ff_ffff * b) * (448 * p) == (0x1ff_ffff * 448) * (b * p));
            assert((0x1fe_0000 * b) * p == 0x1fe_0000 * (b * p));
            assert(b * p > 0);
        }
        lemma_stays_finite(magnitude(scale), (v * p) as nat, d as nat);
        lemma_rounding_error(
            HIDDEN as nat,
            INFINITY as nat,
            magnitude(scale),
            (v * p) as nat,
            d as nat,
        );
        assert(0x100_0000 * (s * d - v * p) <= (s + 0x80_0000) * d);
        assert(0x100_0000 * (v * p - s * d) <= (s + 0x80_0000) * d);
        assert(0x100_0000 * (448 * s - v) <= 448 * (s + 0x80_0000)) by (nonlinear_arith)
            requires
                0x100_0000 * (s * d - v * p) <= (s + 0x80_0000) * d,
                d == 448 * p,
                p > 0,
        {
            assert((0x100_0000 * (448 * s - v)) * p <= (448 * (s + 0x80_0000)) * p);
        }
        assert(0x100_0000 * (v - 448 * s) <= 448 * (s + 0x80_0000)) by (nonlinear_arith)
            requires
                0x100_0000 * (v * p - s * d) <= (s + 0x80_0000) * d,
                d == 448 * p,
                p > 0,
        {
            assert((0x100_0000 * (v - 448 * s)) * p <= (448 * (s + 0x80_0000)) * p);
        }
    } else {
        assert(units(HIDDEN as nat, 0) == 0);
    }
}

/// A scale whose inverse is finite is not too small.
pub proof fn lemma_invertible(scale: u32)
    requires
        0 < scale < INFINITY,
        magnitude(quotient(ONE, scale)) < INFINITY,
    ensures
        size(scale) > 0x20_0000,
{
    lemma_powers();
    let (p, b, s) = (pow2(149) as int, pow2(252) as int, size(scale) as int);
    let mag = magnitude(quotient(ONE, scale));
    lemma_quotient_rounds(ONE, scale);
    let h = HIDDEN as nat;
    let last = (INFINITY - 1) as nat;
    if mag < last {
        lemma_units_increase(h, mag, last);
        lemma_units_increase(h, mag + 1, INFINITY as nat);
    }
    let sum = (units(h, mag) + units(h, mag + 1)) as int;
    assert(sum <= 0x3ff_fffe * b);
    assert(sum * s <= (0x3ff_fffe * b) * s) by (nonlinear_arith)
        requires
            sum <= 0x3ff_fffe * b,
            s >= 0,
    ;
    if s <= 0x20_0000 {
        assert((0x3ff_fffe * b) * s <= 0x7fff_ffc0_0000 * b) by (nonlinear_arith)
            requires
                0 <= s <= 0x20_0000,
                b > 0,
        ;
        assert(false);
    }
}

/// The dequantization that undoes a blockwise quantization.
pub open spec fn undo(rows: usize, cols: usize, target_dtype: DType) -> Fp8BlockwiseDequant {
    Fp8BlockwiseDequant { rows, cols, block_r: BLOCK, block_c: BLOCK, target_dtype }
}

/// The scale is a positive number, and so is its inverse.
pub open spec fn is_invertible(scale: u32) -> bool {
    0 < scale < INFINITY && magnitude(quotient(ONE, scale)) < INFINITY
}

/// The scale that a dequantization with blocks of 128 by 128 takes for an element
/// is the one that the quantization has made for its block.
pub proof fn law_scales_meet(
    data: Seq<u16>,
    rows: usize,
    cols: usize,
    scales: Seq<u32>,
    target_dtype: DType,
    i: int,
)
    requires
        data.len() == rows * cols,
        are_block_scales(data, rows as int, cols as int, scales),
        0 <= i < data.len(),
    ensures
        ({
            let at = undo(rows, cols, target_dtype).scale_of(i);
            let (r, c) = (i / (cols as int), i % (cols as int));
            let (mb, kb) = (r / (BLOCK as int), c / (BLOCK as int));
            &&& in_block(rows as int, cols as int, mb, kb, r, c)
            &&& entry(data, cols as int, r, c) == data[i]
            &&& 0 <= at < scales.len()
            &&& scales[at] == scale_for(absmax(data, rows as int, cols as int, mb, kb))
        }),
{
    let b = BLOCK as int;
    lemma_row_and_column(rows as int, cols as int, i);
    let (r, c) = (i / (cols as int), i % (cols as int));
    let (mb, kb) = (r / b, c / b);
    law_blocks_partition(rows as int, b, r, mb);
    law_blocks_partition(cols as int, b, c, kb);
    law_one_scale_per_block(rows as int, cols as int, b, b, r, c, r, c);
    let k_blocks = blocks(cols as int, b);
    assert(kb + mb * k_blocks == undo(rows, cols, target_dtype).scale_of(i));
    assert(scales[kb + mb * k_blocks] == scale_for(
        absmax(data, rows as int, cols as int, mb, kb),
    ));
}

/// No block has a scale of zero, a negative scale or a NaN for a scale.
pub proof fn law_scales_are_positive(
    data: Seq<u16>,
    rows: int,
    cols: int,
    scales: Seq<u32>,
    mb: int,
    kb: int,
)
    requires
        are_block_scales(data, rows, cols, scales),
        0 <= mb < blocks(rows, BLOCK as int),
        0 <= kb < blocks(cols, BLOCK as int),
    ensures
        0 < scales[kb + mb * blocks(cols, BLOCK as int)] <= INFINITY,
{
    let a = absmax(data, rows, cols, mb, kb);
    let scale = scales[kb + mb * blocks(cols, BLOCK as int)];
    lemma_absmax(data, rows, cols, mb, kb);
    assert(scale == scale_for(a));
    assert(magnitude(a) == a);
    if 0 < a < INFINITY {
        let (h, p) = (HIDDEN as nat, pow2(149) as int);
        lemma_powers();
        lemma_quotient_rounds(a, FP8_MAX);
        assert(a >= 0x1_0000);
        assert(units(h, 0x1_0000) == 0x1_0000 && units(h, 0) == 0 && units(h, 1) == 1);
        if a > 0x1_0000 {
            lemma_units_increase(h, 0x1_0000, a as nat);
        }
        let v = size(a) as int;
        if magnitude(scale) == 0 {
            assert(2 * (v * p) > 448 * p) by (nonlinear_arith)
                requires
                    v >= 0x1_0000,
                    p > 0,
            ;
            let (sum, d) = (units(h, 0) + units(h, 1), size(FP8_MAX));
            assert(sum * d == d) by (nonlinear_arith)
                requires
                    sum == 1,
            ;
            assert(stays_below(h, 0, (v * p) as nat, d));
            assert(false);
        }
    }
}

/// Dequantizing what was quantized gives back every number, with its sign, up to a
/// fourteenth of its own size and a 512th of the scale of its block, as long as the
/// scale and its inverse are finite. (7168 is 14 times 512.)
pub proof fn law_round_trip(
    data: Seq<u16>,
    rows: usize,
    cols: usize,
    scales: Seq<u32>,
    codes: Seq<u8>,
    target_dtype: DType,
    i: int,
)
    requires
        data.len() == rows * cols,
        are_block_scales(data, rows as int, cols as int, scales),
        are_block_codes(data, cols as int, scales, codes),
        0 <= i < data.len(),
        !is_bf16_nan(data[i]),
        is_invertible(scales[undo(rows, cols, target_dtype).scale_of(i)]),
    ensures
        ({
            let op = undo(rows, cols, target_dtype);
            let wide = single_of_bf16(data[i]);
            let scale = scales[op.scale_of(i)];
            let back = op.value(codes, 0, scales, 0, i);
            &&& !is_e4m3_nan(codes[i])
            &&& magnitude(back) < INFINITY
            &&& is_negative(back) == is_negative(wide)
            &&& 7168 * (size(back) - size(wide)) <= 512 * size(wide) + 14 * size(scale)
            &&& 7168 * (size(wide) - size(back)) <= 512 * size(wide) + 14 * size(scale)
        }),
{
    let a = lemma_scale_of(data, rows, cols, scales, target_dtype, i);
    let scale = scales[undo(rows, cols, target_dtype).scale_of(i)];
    lemma_round_trip(data[i], scale, size(a) as int);
}

/// A block has a scale with a finite inverse where it is all zeros, and where its
/// largest absolute value is finite and at least `2^-118`.
pub proof fn law_ordinary_scales_are_invertible(a: u32)
    requires
        a == 0 || 0x0480_0000 <= a <= 0x7f7f_0000,
    ensures
        is_invertible(scale_for(a)),
{
    lemma_powers();
    let scale = scale_for(a);
    if a == 0 {
        assert(magnitude(ONE) == ONE);
    } else {
        let h = HIDDEN as nat;
        assert(magnitude(a) == a);
        lemma2_to64();
        lemma_units_of_scaled(0x80_0000, 8, 0x80_0000);
        if a > 0x0480_0000 {
            lemma_units_increase(h, 0x0480_0000, a as nat);
        }
        assert(size(a) >= 0x8000_0000);
        lemma_scale(a);
        assert(size(scale) > 0x20_0000);
        if magnitude(scale) == 0 {
            assert(units(h, 0) == 0);
        }
    }
    lemma_inverse(scale);
}

/// Quantizing a tensor on the host and dequantizing the codes with the scales, laid
/// out as a matrix of blocks, is never refused, and gives back the shape and every
/// number as [`law_round_trip`] says.
pub proof fn law_dequantizing_undoes_quantizing(
    input: Tensor,
    quant: Tensor,
    scales: Tensor,
    grid: Tensor,
    out: Tensor,
    i: int,
)
    requires
        input.wf(),
        dynamic_error(input) is None,
        dynamic_is_defined(input),
        is_dynamic_work(input, Work::Done((quant, scales))),
        grid.wf(),
        grid.storage is F32,
        grid.single_elements() == scales.storage->F32_0@,
        0 <= i < input.numel(),
        !is_bf16_nan(input.bf16_elements()[i]),
        is_invertible(
            scales.storage->F32_0@[undo(
                quant.dims@[0],
                quant.dims@[1],
                DType::F32,
            ).scale_of(i)],
        ),
    ensures
        dequant_error(quant, grid, DType::F32) is None,
        dequant_is_defined(quant, grid, block_sides(), DType::F32),
        is_dequant_work(quant, grid, block_sides(), DType::F32, Work::Done(out)) ==> {
            let op = undo(quant.dims@[0], quant.dims@[1], DType::F32);
            let wide = single_of_bf16(input.bf16_elements()[i]);
            let scale = scales.storage->F32_0@[op.scale_of(i)];
            let back = out.single_elements()[i];
            &&& out.dims@ == quant.dims@
            &&& out.numel() == input.numel()
            &&& magnitude(back) < INFINITY
            &&& is_negative(back) == is_negative(wide)
            &&& 7168 * (size(back) - size(wide)) <= 512 * size(wide) + 14 * size(scale)
            &&& 7168 * (size(wide) - size(back)) <= 512 * size(wide) + 14 * size(scale)
        },
{
    let dims = input.dims@;
    let rank = dims.len() as int;
    assert(dims.take(rank - 1) == dims.drop_last());
    assert(volume(dims.take(rank - 1)) <= usize::MAX);
    let (rows, cols) = (quant.dims@[0], quant.dims@[1]);
    assert(rows == matrix_rows(dims) && cols == dims.last());
    assert(input.numel() == rows * cols);
    lemma_matrix_volume(quant.dims@);
    let data = input.bf16_elements();
    let codes = quant.storage->F8E4M3_0@;
    let table = scales.storage->F32_0@;
    assert(codes =~= quant.e4m3_elements()) by {
        assert forall|l: int| 0 <= l < codes.len() implies codes[l]
            == #[trigger] quant.e4m3_elements()[l] by {
            lemma_compact_position(quant, l);
        }
    }
    let b = BLOCK as int;
    let op = undo(rows, cols, DType::F32);
    assert(op == dequant_of(quant, block_sides(), DType::F32));
    lemma_row_and_column(rows as int, cols as int, i);
    law_one_scale_per_block(rows as int, cols as int, b, b, rows - 1, cols - 1, 0, 0);
    assert(op.is_covered(codes, 0, table, 0));
    law_round_trip(data, rows, cols, table, codes, DType::F32, i);
    if is_dequant_work(quant, grid, block_sides(), DType::F32, Work::Done(out)) {
        assert(out.dims@ == quant.dims@);
        lemma_compact_position(out, i);
        assert(out.storage->F32_0@[i] == op.value(codes, 0, table, 0, i));
    }
}

/// Blocks of 128 by 128 elements.
pub open spec fn block_sides() -> Fp8BlockSize {
    Fp8BlockSize { block_r: BLOCK, block_c: BLOCK }
}

/// The facts on the scale of an element that the laws share; returns the largest
/// absolute value of its block.
proof fn lemma_scale_of(
    data: Seq<u16>,
    rows: usize,
    cols: usize,
    scales: Seq<u32>,
    target_dtype: DType,
    i: int,
) -> (a: u32)
    requires
        data.len() == rows * cols,
        are_block_scales(data, rows as int, cols as int, scales),
        0 <= i < data.len(),
        !is_bf16_nan(data[i]),
        is_invertible(scales[undo(rows, cols, target_dtype).scale_of(i)]),
    ensures
        ({
            let scale = scales[undo(rows, cols, target_dtype).scale_of(i)];
            let (r, c) = (i / (cols as int), i % (cols as int));
            let b = BLOCK as int;
            let (p, s) = (pow2(149) as int, size(scale) as int);
            &&& a == absmax(data, rows as int, cols as int, r / b, c / b)
            &&& scale == scale_for(a)
            &&& a <= 0x7f7f_0000
            &&& s > 0x20_0000
            &&& 448 * s < 0x1ff_ffff * pow2(252)
            &&& 0x100_0000 * (size(a) - 448 * s) <= 448 * (s + 0x80_0000)
            &&& magnitude(single_of_bf16(data[i])) <= a
            &&& size(single_of_bf16(data[i])) <= size(a)
        }),
{
    let b = BLOCK as int;
    let scale = scales[undo(rows, cols, target_dtype).scale_of(i)];
    let (r, c) = (i / (cols as int), i % (cols as int));
    let a = absmax(data, rows as int, cols as int, r / b, c / b);
    law_scales_meet(data, rows, cols, scales, target_dtype, i);
    lemma_absmax(data, rows as int, cols as int, r / b, c / b);
    lemma_invertible(scale);
    if a == INFINITY {
        assert(scale == INFINITY);
    }
    lemma_scale(a);
    assert(absolute(entry(data, cols as int, r, c)) <= a);
    let mag = magnitude(single_of_bf16(data[i]));
    assert(magnitude(a) == a);
    if mag < a {
        lemma_units_increase(HIDDEN as nat, mag, a as nat);
    }
    a
}

/// The largest number of a block becomes 448, the largest E4M3 number, under the
/// same condition.
pub proof fn law_largest_becomes_448(
    data: Seq<u16>,
    rows: usize,
    cols: usize,
    scales: Seq<u32>,
    codes: Seq<u8>,
    i: int,
)
    requires
        data.len() == rows * cols,
        are_block_scales(data, rows as int, cols as int, scales),
        are_block_codes(data, cols as int, scales, codes),
        0 <= i < data.len(),
        !is_bf16_nan(data[i]),
        is_invertible(scales[undo(rows, cols, DType::F32).scale_of(i)]),
        absolute(data[i]) > 0,
        absolute(data[i]) == absmax(
            data,
            rows as int,
            cols as int,
            i / (cols as int) / (BLOCK as int),
            i % (cols as int) / (BLOCK as int),
        ),
    ensures
        codes[i] % 0x80 == E4M3_MAX,
{
    let a = lemma_scale_of(data, rows, cols, scales, DType::F32, i);
    let scale = scales[undo(rows, cols, DType::F32).scale_of(i)];
    let wide = single_of_bf16(data[i]);
    let quot = product(wide, quotient(ONE, scale));
    let held = clamped(quot, FP8_MAX);
    let (p, e, s) = (pow2(149) as int, pow2(140) as int, size(scale) as int);
    let (v, k) = (size(wide) as int, size(held) as int);
    lemma_powers();
    lemma_scale(a);
    assert(magnitude(a) == a);
    lemma_scaled(wide, scale, v);
    lemma_clamped_size(quot);
    lemma_clamped_error(p, s, v, v, size(quot) as int, k);
    lemma_code_error(held);
    assert(v >= 447 * s);
    let sp = s * p;
    assert(v * p >= 447 * sp) by (nonlinear_arith)
        requires
            v >= 447 * s,
            p > 0,
            sp == s * p,
    ;
    assert(432 * p < k) by (nonlinear_arith)
        requires
            0x80_0000 * (447 * sp) <= 0x80_0002 * (k * s) + 897 * sp,
            sp == s * p,
            s > 0,
            p > 0,
    {
        if k <= 432 * p {
            assert(k * s <= (432 * p) * s);
            assert((432 * p) * s == 432 * sp);
            assert(sp > 0);
        }
    }
    lemma2_to64();
    lemma_units_of_scaled(8, 14, 13);
    let sum = (units(8, 0x7d) + units(8, 0x7e)) as int;
    assert(sum * e == 864 * p) by (nonlinear_arith)
        requires
            sum == 864 * 512,
            p == 512 * e,
    ;
    assert(rounds_to(8, 0x7e, 0x7e, size(held), pow2(140)));
    lemma_rounding_is_unique(
        8,
        0x7e,
        0x7e,
        (codes[i] % 0x80) as nat,
        size(held),
        pow2(140),
    );
}

/// A scale of one changes nothing: a weight dequantized with it is the weight.
pub proof fn law_unit_scale_keeps_value(weight: u8)
    ensures
        scaled(weight, ONE) == single_of_e4m3(weight),
{
    lemma_powers();
    let wide = single_of_e4m3(weight);
    if is_e4m3_nan(weight) {
    } else {
        lemma_e4m3_widens(weight);
        lemma_exact_rounding(HIDDEN as nat, INFINITY as nat, magnitude(wide), pow2(149));
        lemma_nearest_is(
            HIDDEN as nat,
            INFINITY as nat,
            magnitude(wide),
            size(wide) * size(ONE),
            pow2(149),
        );
    }
}

/// Widening loses nothing: an FP8 number that is widened to single precision and
/// rounded to FP8 again is the same number.
pub proof fn law_fp8_survives_widening(x: u8)
    requires
        !is_e4m3_nan(x),
    ensures
        e4m3_of(single_of_e4m3(x)) == x,
{
    let (h, top) = (E4M3_HIDDEN as nat, E4M3_MAX as nat);
    let mag = (x % 0x80) as nat;
    lemma_pow2_pos(140);
    lemma_e4m3_widens(x);
    lemma_exact_rounding(h, top, mag, pow2(140));
    lemma_nearest_is(h, top, mag, size(single_of_e4m3(x)), pow2(140));
}

/// Widening loses nothing: a brain float that is widened to single precision and
/// rounded again is the same float.
pub proof fn law_bf16_survives_widening(x: u16)
    requires
        !is_bf16_nan(x),
    ensures
        bf16_of(single_of_bf16(x)) == x,
{
    let wide = single_of_bf16(x);
    let mag = (x % 0x8000) as nat;
    let (e, f) = (mag / 0x80, mag % 0x80);
    let (h, top) = (BF16_HIDDEN as nat, BF16_INFINITY as nat);
    assert(magnitude(wide) == mag * 0x1_0000);
    assert(is_negative(wide) == (x >= 0x8000));
    if mag < BF16_INFINITY {
        lemma2_to64();
        assert(magnitude(wide) / 0x80_0000nat == e);
        assert(magnitude(wide) % 0x80_0000nat == f * 0x1_0000);
        if e > 0 {
            let p = pow2((e - 1) as nat) as int;
            assert((f * 0x1_0000 + 0x80_0000) * p == ((f + 0x80) * p) * 0x1_0000) by (
                nonlinear_arith);
        }
        assert(size(wide) == units(h, mag) * pow2(16));
        lemma_exact_rounding(h, top, mag, pow2(16));
        lemma_nearest_is(h, top, mag, size(wide), pow2(16));
    }
}

} // verus!
