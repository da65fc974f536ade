//! What exchanging, doubling and negating the operands does to the results.

use crate::binary::{lemma_nearest_is, lemma_nearest_rounds, lemma_rounding_doubles};
use crate::binary::{lemma_rounding_halves, lemma_rounding_is_unique, lemma_units_double};
use crate::binary::{lemma_units_increase, lemma_units_of_scaled, units};
use crate::block::{blocks, law_blocks_partition, law_one_scale_per_block};
use crate::block::{scale_index, Fp8BlockSize};
use crate::convert::{e4m3_of, is_bf16_nan, single_of_bf16, E4M3_HIDDEN, E4M3_MAX};
use crate::dequant::{dequant_error, dequant_is_defined, dequant_of, is_dequant_work, is_target};
use crate::device::Work;
use crate::error::DType;
use crate::layout::lemma_matrix_volume;
use crate::quantize::{absmax, absolute, are_block_codes, are_block_scales, entry, in_block};
use crate::quantize::{is_absmax, lemma_absmax, lemma_absmax_is, lemma_index_in_range};
use crate::quantize::{lemma_row_and_column, quantized, scale_for, BLOCK, FP8_MAX};
use crate::roundtrip::{law_ordinary_scales_are_invertible, lemma_inverse, lemma_invertible};
use crate::roundtrip::{lemma_powers, lemma_product_rounds, lemma_quotient_rounds, lemma_scale};
use crate::roundtrip::lemma_with_sign;
use crate::single::{clamped, is_negative, magnitude, product, quotient, size};
use crate::single::{HIDDEN, INFINITY, ONE};
use crate::tensor::{is_transpose_of, law_transpose_exchanges, lemma_transpose_is_wf};
use crate::tensor::{lemma_compact_position, Storage, Tensor};
use vstd::arithmetic::div_mod::lemma_fundamental_div_mod_converse;
use vstd::arithmetic::power2::{lemma2_to64, lemma_pow2_adds, lemma_pow2_pos, pow2};
use vstd::prelude::*;

verus! {

/// The `i`-th element of one tensor of floats on the host is the `j`-th of another,
/// of the same type.
pub open spec fn same_element(s: Tensor, i: int, t: Tensor, j: int) -> bool {
    match (s.storage, t.storage) {
        (Storage::BF16(a), Storage::BF16(b)) => a@[s.position(i)] == b@[t.position(j)],
        (Storage::F16(a), Storage::F16(b)) => a@[s.position(i)] == b@[t.position(j)],
        (Storage::F32(a), Storage::F32(b)) => a@[s.position(i)] == b@[t.position(j)],
        _ => false,
    }
}

/// Dequantizing a transposed weight with its transposed scales, under exchanged
/// block sides, is never refused and gives the transposed result: views are read
/// by their rows and columns, wherever their elements lie.
pub proof fn law_dequantizing_commutes_with_transposing(
    weight: Tensor,
    scale_inv: Tensor,
    weight_t: Tensor,
    scale_t: Tensor,
    size: Fp8BlockSize,
    target: DType,
    out: Tensor,
    out_t: Tensor,
    r: int,
    c: int,
)
    requires
        weight.wf(),
        scale_inv.wf(),
        weight.storage is F8E4M3,
        scale_inv.storage is F32,
        weight.dims@.len() == 2,
        size.block_r > 0,
        size.block_c > 0,
        weight.dims@[0] + size.block_r - 1 <= usize::MAX,
        weight.dims@[1] + size.block_c - 1 <= usize::MAX,
        scale_inv.dims@.len() == 2,
        scale_inv.dims@[0] == blocks(weight.dims@[0] as int, size.block_r as int),
        scale_inv.dims@[1] == blocks(weight.dims@[1] as int, size.block_c as int),
        is_target(target),
        is_transpose_of(weight, weight_t),
        is_transpose_of(scale_inv, scale_t),
        0 <= r < weight.dims@[0],
        0 <= c < weight.dims@[1],
    ensures
        ({
            let exchanged = Fp8BlockSize { block_r: size.block_c, block_c: size.block_r };
            let (rows, cols) = (weight.dims@[0], weight.dims@[1]);
            &&& weight_t.wf()
            &&& scale_t.wf()
            &&& dequant_error(weight_t, scale_t, target) is None
            &&& dequant_is_defined(weight_t, scale_t, exchanged, target)
            &&& is_dequant_work(weight, scale_inv, size, target, Work::Done(out))
                && is_dequant_work(weight_t, scale_t, exchanged, target, Work::Done(out_t)) ==> {
                &&& out.dims@ == seq![rows, cols]
                &&& out_t.dims@ == seq![cols, rows]
                &&& same_element(out_t, c * rows + r, out, r * cols + c)
            }
        }),
{
    let exchanged = Fp8BlockSize { block_r: size.block_c, block_c: size.block_r };
    let (rows, cols) = (weight.dims@[0] as int, weight.dims@[1] as int);
    let (a, b) = (size.block_r as int, size.block_c as int);
    let (high, wide) = (blocks(rows, a), blocks(cols, b));
    lemma_transpose_is_wf(weight, weight_t);
    lemma_transpose_is_wf(scale_inv, scale_t);
    lemma_matrix_volume(weight.dims@);
    lemma_matrix_volume(weight_t.dims@);
    lemma_matrix_volume(scale_inv.dims@);
    lemma_matrix_volume(scale_t.dims@);
    let op = dequant_of(weight, size, target);
    let op_t = dequant_of(weight_t, exchanged, target);
    law_one_scale_per_block(rows, cols, a, b, r, c, r, c);
    law_one_scale_per_block(cols, rows, b, a, c, r, cols - 1, rows - 1);
    law_one_scale_per_block(cols, rows, b, a, cols - 1, rows - 1, c, r);
    assert(high * wide == wide * high) by (nonlinear_arith);
    assert(rows * cols == cols * rows) by (nonlinear_arith);
    assert(op_t.is_covered(weight_t.e4m3_elements(), 0, scale_t.single_elements(), 0));
    // The element and its scale.
    let (at, at_t) = (r * cols + c, c * rows + r);
    assert(cols * r == r * cols && rows * c == c * rows) by (nonlinear_arith);
    lemma_fundamental_div_mod_converse(at, cols, r, c);
    lemma_fundamental_div_mod_converse(at_t, rows, c, r);
    assert(0 <= at < rows * cols) by (nonlinear_arith)
        requires
            at == r * cols + c,
            0 <= r < rows,
            0 <= c < cols,
    ;
    assert(0 <= at_t < cols * rows) by (nonlinear_arith)
        requires
            at_t == c * rows + r,
            0 <= r < rows,
            0 <= c < cols,
    ;
    law_transpose_exchanges(weight, weight_t, r, c);
    law_blocks_partition(rows, a, r, 0);
    law_blocks_partition(cols, b, c, 0);
    law_transpose_exchanges(scale_inv, scale_t, r / a, c / b);
    assert(op.scale_of(at) == (r / a) * wide + c / b);
    assert(op_t.scale_of(at_t) == (c / b) * high + r / a);
    assert(op_t.value(weight_t.e4m3_elements(), 0, scale_t.single_elements(), 0, at_t)
        == op.value(weight.e4m3_elements(), 0, scale_inv.single_elements(), 0, at));
    if is_dequant_work(weight, scale_inv, size, target, Work::Done(out)) && is_dequant_work(
        weight_t,
        scale_t,
        exchanged,
        target,
        Work::Done(out_t),
    ) {
        assert(out.dims@ =~= seq![weight.dims@[0], weight.dims@[1]]);
        lemma_compact_position(out, at);
        lemma_compact_position(out_t, at_t);
    }
}

/// The brain float with twice the value and the other sign.
pub open spec fn doubled_and_negated(x: u16) -> u16 {
    let mag = x % 0x8000;
    let twice = if mag == 0 {
        0
    } else {
        mag + 0x80
    };
    (if x >= 0x8000 {
        twice
    } else {
        twice + 0x8000
    }) as u16
}

/// The absolute value is zero, or between `2^-100` and `2^100`.
pub open spec fn is_moderate(x: u16) -> bool {
    x % 0x8000 == 0 || 0x0d80 <= x % 0x8000 <= 0x7180
}

/// What doubling and negating does to a moderate number.
proof fn lemma_doubled(x: u16)
    requires
        is_moderate(x),
    ensures
        ({
            let (v, w) = (single_of_bf16(x), single_of_bf16(doubled_and_negated(x)));
            &&& !is_bf16_nan(x)
            &&& !is_bf16_nan(doubled_and_negated(x))
            &&& is_negative(w) == !is_negative(v)
            &&& magnitude(v) < INFINITY
            &&& magnitude(w) < INFINITY
            &&& magnitude(v) == 0 <==> x % 0x8000 == 0
            &&& magnitude(w) == (if magnitude(v) == 0 {
                0
            } else {
                magnitude(v) + HIDDEN
            })
            &&& size(w) == 2 * size(v)
        }),
{
    let v = single_of_bf16(x);
    assert(magnitude(v) == (x % 0x8000) * 0x1_0000);
    if x % 0x8000 != 0 {
        lemma_units_double(HIDDEN as nat, magnitude(v));
    } else {
        assert(units(HIDDEN as nat, 0) == 0);
    }
}

/// Two matrices of moderate numbers, the second the first doubled and negated.
pub open spec fn is_doubled(x: Seq<u16>, y: Seq<u16>) -> bool {
    &&& y.len() == x.len()
    &&& forall|l: int|
        0 <= l < x.len() ==> is_moderate(#[trigger] x[l]) && y[l] == doubled_and_negated(x[l])
}

/// The largest absolute value of a block doubles with the matrix.
proof fn lemma_absmax_doubles(
    x: Seq<u16>,
    y: Seq<u16>,
    rows: int,
    cols: int,
    mb: int,
    kb: int,
)
    requires
        x.len() == rows * cols,
        is_doubled(x, y),
        absmax(x, rows, cols, mb, kb) > 0,
    ensures
        0x0d80_0000 <= absmax(x, rows, cols, mb, kb) <= 0x7180_0000,
        absmax(y, rows, cols, mb, kb) == absmax(x, rows, cols, mb, kb) + HIDDEN,
{
    let a = absmax(x, rows, cols, mb, kb);
    lemma_absmax(x, rows, cols, mb, kb);
    assert forall|r: int, c: int|
        #![trigger entry(x, cols, r, c)]
        #![trigger entry(y, cols, r, c)]
        in_block(rows, cols, mb, kb, r, c) implies {
        let (v, w) = (entry(x, cols, r, c), entry(y, cols, r, c));
        &&& !is_bf16_nan(v)
        &&& !is_bf16_nan(w)
        &&& absolute(v) == 0 || 0x0d80_0000 <= absolute(v) <= 0x7180_0000
        &&& absolute(w) == (if absolute(v) == 0 {
            0
        } else {
            absolute(v) + HIDDEN
        })
    } by {
        lemma_index_in_range(rows, cols, r, c);
        let v = x[r * cols + c];
        lemma_doubled(v);
        assert(magnitude(single_of_bf16(v)) == (v % 0x8000) * 0x1_0000);
    }
    let (r, c) = choose|r: int, c: int|
        #![trigger entry(x, cols, r, c)]
        in_block(rows, cols, mb, kb, r, c) && !is_bf16_nan(entry(x, cols, r, c)) && absolute(
            entry(x, cols, r, c),
        ) == a;
    assert(absolute(entry(y, cols, r, c)) == a + HIDDEN);
    let twice = (a + HIDDEN) as u32;
    assert(is_absmax(y, rows, cols, mb, kb, twice));
    lemma_absmax_is(y, rows, cols, mb, kb, twice);
}

/// The scale of a block doubles with its largest absolute value, and the inverse of
/// the scale halves.
proof fn lemma_scale_doubles(a: u32)
    requires
        0x0d80_0000 <= a <= 0x7180_0000,
    ensures
        ({
            let twice = (a + HIDDEN) as u32;
            let (s, t) = (scale_for(a), scale_for(twice));
            let (i, j) = (quotient(ONE, s), quotient(ONE, t));
            &&& t == s + HIDDEN
            &&& size(t) == 2 * size(s)
            &&& magnitude(i) < INFINITY
            &&& magnitude(j) < INFINITY
            &&& !is_negative(i)
            &&& !is_negative(j)
            &&& size(i) == 2 * size(j)
        }),
{
    lemma_powers();
    lemma2_to64();
    let twice = (a + HIDDEN) as u32;
    let (s, t) = (scale_for(a), scale_for(twice));
    let (h, top) = (HIDDEN as nat, INFINITY as nat);
    let (p, b) = (pow2(149) as int, pow2(252) as int);
    assert(magnitude(a) == a && magnitude(twice) == twice);
    law_ordinary_scales_are_invertible(a);
    law_ordinary_scales_are_invertible(twice);
    lemma_invertible(s);
    lemma_scale(a);
    assert(magnitude(s) == s && magnitude(t) == t);
    // The size of the scale.
    lemma_units_of_scaled(0x80_0000, 26, 0x80_0000);
    if a > 0x0d80_0000 {
        lemma_units_increase(h, 0x0d80_0000, a as nat);
    }
    lemma_units_of_scaled(0x80_0000, 226, 0x80_0000);
    lemma_pow2_adds(226, 26);
    if a < 0x7180_0000 {
        lemma_units_increase(h, a as nat, 0x7180_0000);
    }
    let (v, z) = (size(a) as int, size(s) as int);
    assert(8 * v <= b);
    assert(v >= 0x2_0000_0000_0000);
    assert(0x80_0000 < z < b);
    assert(units(h, h) == 0x80_0000) by {
        lemma_units_of_scaled(0x80_0000, 0, 0x80_0000);
    }
    if magnitude(s) <= h {
        if magnitude(s) < h {
            lemma_units_increase(h, magnitude(s), h);
        }
        assert(false);
    }
    lemma_units_of_scaled(0x80_0000, 253, 0x80_0000);
    lemma_pow2_adds(252, 1);
    if magnitude(s) >= 0x7f00_0000 {
        if magnitude(s) > 0x7f00_0000 {
            lemma_units_increase(h, 0x7f00_0000, magnitude(s));
        }
        assert(false);
    }
    // The scale doubles.
    lemma_quotient_rounds(a, FP8_MAX);
    lemma_units_double(h, a as nat);
    let n = (v * p) as nat;
    lemma_rounding_doubles(h, top, magnitude(s), n, size(FP8_MAX));
    assert((2 * v) * p == 2 * (v * p)) by (nonlinear_arith);
    lemma_nearest_is(h, top, magnitude(s) + h, 2 * n, size(FP8_MAX));
    assert(t == s + HIDDEN);
    lemma_units_double(h, magnitude(s));
    // The inverse halves.
    let (i, j) = (quotient(ONE, s), quotient(ONE, t));
    lemma_inverse(s);
    lemma_quotient_rounds(ONE, s);
    let w = size(i) as int;
    assert(w > 0x100_0000) by (nonlinear_arith)
        requires
            p * p == 0x4000_0000_0000 * b,
            0x100_0000 * (p * p - w * z) <= (w + 0x80_0000) * z,
            w >= 0x80_0000,
            0 < z < b,
    {
        assert((w + 0x80_0000) * z <= 2 * (w * z));
        assert(p * p <= 2 * (w * z));
        assert(w * z <= w * b);
        if w <= 0x100_0000 {
            assert(w * b <= 0x100_0000 * b);
        }
    }
    assert(units(h, 2 * h) == 0x100_0000) by {
        lemma_units_of_scaled(0x80_0000, 0, 0x100_0000);
    }
    if magnitude(i) <= 2 * h {
        if magnitude(i) < 2 * h {
            lemma_units_increase(h, magnitude(i), 2 * h);
        }
        assert(false);
    }
    let square = (p * p) as nat;
    lemma_rounding_halves(h, top, magnitude(i), square, z as nat);
    lemma_nearest_is(h, top, (magnitude(i) - h) as nat, square, 2 * (z as nat));
    assert(magnitude(j) == magnitude(i) - h);
    lemma_units_double(h, magnitude(j));
}

/// A clamped number has its sign, and its size depends on its magnitude alone.
proof fn lemma_clamped(x: u32, y: u32)
    requires
        magnitude(x) <= INFINITY,
        magnitude(y) == magnitude(x),
    ensures
        magnitude(clamped(x, FP8_MAX)) == magnitude(clamped(y, FP8_MAX)),
        magnitude(clamped(x, FP8_MAX)) <= FP8_MAX,
        is_negative(clamped(x, FP8_MAX)) == is_negative(x),
        is_negative(clamped(y, FP8_MAX)) == is_negative(y),
{
    if magnitude(x) > FP8_MAX {
        lemma_with_sign(is_negative(x), FP8_MAX as nat);
        lemma_with_sign(is_negative(y), FP8_MAX as nat);
    }
}

/// The code of a number has its sign, and its magnitude depends on the magnitude of
/// the number alone.
proof fn lemma_code(x: u32, y: u32)
    requires
        magnitude(x) <= FP8_MAX,
        magnitude(y) == magnitude(x),
    ensures
        e4m3_of(x) % 0x80 == e4m3_of(y) % 0x80,
        e4m3_of(x) >= 0x80 <==> is_negative(x),
        e4m3_of(y) >= 0x80 <==> is_negative(y),
{
    lemma_nearest_rounds(E4M3_HIDDEN as nat, E4M3_MAX as nat, size(x), pow2(140));
}

/// A number that is doubled and negated, with a scale that is doubled, has the
/// negated code.
proof fn lemma_code_negates(x: u16, s: u32, t: u32)
    requires
        is_moderate(x),
        magnitude(quotient(ONE, s)) < INFINITY,
        magnitude(quotient(ONE, t)) < INFINITY,
        !is_negative(quotient(ONE, s)),
        !is_negative(quotient(ONE, t)),
        size(quotient(ONE, s)) == 2 * size(quotient(ONE, t)),
    ensures
        quantized(doubled_and_negated(x), t) % 0x80 == quantized(x, s) % 0x80,
        quantized(doubled_and_negated(x), t) >= 0x80 <==> quantized(x, s) < 0x80,
{
    let (v, w) = (single_of_bf16(x), single_of_bf16(doubled_and_negated(x)));
    let (i, j) = (quotient(ONE, s), quotient(ONE, t));
    lemma_doubled(x);
    let (p, q) = (size(v) as int, size(j) as int);
    assert((2 * p) * q == p * (2 * q)) by (nonlinear_arith);
    assert(size(w) * size(j) == size(v) * size(i));
    lemma_product_rounds(v, i);
    lemma_product_rounds(w, j);
    lemma_pow2_pos(149);
    lemma_rounding_is_unique(
        HIDDEN as nat,
        INFINITY as nat,
        magnitude(product(v, i)),
        magnitude(product(w, j)),
        size(v) * size(i),
        pow2(149),
    );
    lemma_clamped(product(v, i), product(w, j));
    lemma_code(clamped(product(v, i), FP8_MAX), clamped(product(w, j), FP8_MAX));
}

/// Scales know magnitudes, codes know signs: doubling and negating a matrix of
/// moderate numbers doubles the scale of every block that is not all zeros, and
/// negates every code.
pub proof fn law_scales_double_and_codes_negate(
    x: Seq<u16>,
    y: Seq<u16>,
    rows: int,
    cols: int,
    scales_x: Seq<u32>,
    scales_y: Seq<u32>,
    codes_x: Seq<u8>,
    codes_y: Seq<u8>,
    i: int,
)
    requires
        rows >= 0,
        cols >= 0,
        x.len() == rows * cols,
        is_doubled(x, y),
        are_block_scales(x, rows, cols, scales_x),
        are_block_scales(y, rows, cols, scales_y),
        are_block_codes(x, cols, scales_x, codes_x),
        are_block_codes(y, cols, scales_y, codes_y),
        0 <= i < x.len(),
        absmax(
            x,
            rows,
            cols,
            i / cols / (BLOCK as int),
            i % cols / (BLOCK as int),
        ) > 0,
    ensures
        ({
            let b = BLOCK as int;
            let at = scale_index(i / cols, i % cols, b, b, cols);
            &&& scales_y.len() == scales_x.len()
            &&& 0 <= at < scales_x.len()
            &&& 0 < scales_x[at] < scales_y[at] < INFINITY
            &&& size(scales_y[at]) == 2 * size(scales_x[at])
            &&& codes_y[i] % 0x80 == codes_x[i] % 0x80
            &&& codes_y[i] >= 0x80 <==> codes_x[i] < 0x80
        }),
{
    let b = BLOCK as int;
    let (r, c) = (i / cols, i % cols);
    let (mb, kb) = (r / b, c / b);
    lemma_row_and_column(rows, cols, i);
    law_blocks_partition(rows, b, r, mb);
    law_blocks_partition(cols, b, c, kb);
    law_one_scale_per_block(rows, cols, b, b, r, c, r, c);
    let k_blocks = blocks(cols, b);
    let at = scale_index(r, c, b, b, cols);
    assert(at == kb + mb * k_blocks);
    let a = absmax(x, rows, cols, mb, kb);
    let (s, t) = (scales_x[kb + mb * k_blocks], scales_y[kb + mb * k_blocks]);
    assert(s == scale_for(a));
    assert(t == scale_for(absmax(y, rows, cols, mb, kb)));
    lemma_absmax_doubles(x, y, rows, cols, mb, kb);
    lemma_scale_doubles(a);
    law_ordinary_scales_are_invertible(a);
    law_ordinary_scales_are_invertible((a + HIDDEN) as u32);
    assert(is_moderate(x[i]) && y[i] == doubled_and_negated(x[i]));
    lemma_code_negates(x[i], s, t);
}

} // verus!
