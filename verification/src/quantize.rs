//! Quantization of activations to FP8.

use crate::block::{blocks, count_blocks, law_blocks_partition, scale_index};
use crate::convert::{e4m3_of, narrow_to_e4m3, widen_bf16};
use crate::convert::{is_bf16_nan, single_of_bf16};
use crate::device::{elementwise, reduction, single_thread};
use crate::device::{elementwise_config, kernel_count, launch_fits, reduction_config};
use crate::device::{single_thread_config, LaunchConfig};
use crate::device::{Buffer, Call, DeviceOp, DevicePlan, Kernel, PlanOutput, Work};
use crate::error::{DType, Device, Error};
use crate::single::{clamp, divide, multiply};
use crate::single::{clamped, magnitude, product, quotient, INFINITY, ONE, SIGN};
use crate::layout::{is_compact, law_volume_is_the_product, lemma_matrix_volume};
use crate::layout::{lemma_vector_volume, volume};
use crate::tensor::{Storage, Tensor};
use vstd::prelude::*;

verus! {

/// The side of the blocks that share a scale.
pub const BLOCK: usize = 128;

/// The bits of 448, the largest E4M3 number, in single precision.
pub const FP8_MAX: u32 = 0x43e0_0000;

/// The element in row `r` and column `c` is one of the block `mb`, `kb`.
pub open spec fn in_block(rows: int, cols: int, mb: int, kb: int, r: int, c: int) -> bool {
    &&& 0 <= r < rows
    &&& 0 <= c < cols
    &&& r / (BLOCK as int) == mb
    &&& c / (BLOCK as int) == kb
}

/// The entry in row `r` and column `c` of a row-major matrix.
pub open spec fn entry(data: Seq<u16>, cols: int, r: int, c: int) -> u16 {
    data[r * cols + c]
}

/// The absolute value of a brain float, as a single-precision magnitude.
pub open spec fn absolute(x: u16) -> nat {
    magnitude(single_of_bf16(x))
}

/// `a` is the largest absolute value in a block, NaNs left out; zero where the
/// block has no number.
pub open spec fn is_absmax(
    data: Seq<u16>,
    rows: int,
    cols: int,
    mb: int,
    kb: int,
    a: u32,
) -> bool {
    &&& forall|r: int, c: int|
        #![trigger entry(data, cols, r, c)]
        in_block(rows, cols, mb, kb, r, c) && !is_bf16_nan(entry(data, cols, r, c)) ==> absolute(
            entry(data, cols, r, c),
        ) <= a
    &&& a == 0 || exists|r: int, c: int|
        #![trigger entry(data, cols, r, c)]
        in_block(rows, cols, mb, kb, r, c) && !is_bf16_nan(entry(data, cols, r, c)) && absolute(
            entry(data, cols, r, c),
        ) == a
}

/// The largest absolute value in a block, NaNs left out.
pub open spec fn absmax(data: Seq<u16>, rows: int, cols: int, mb: int, kb: int) -> u32 {
    choose|a: u32| is_absmax(data, rows, cols, mb, kb, a)
}

/// The scale of a block with the given largest absolute value: the scale brings
/// that value to the largest E4M3 number.
pub open spec fn scale_for(a: u32) -> u32 {
    if a > 0 {
        quotient(a, FP8_MAX)
    } else {
        ONE
    }
}

/// A brain float divided by a scale, as E4M3.
pub open spec fn quantized(x: u16, scale: u32) -> u8 {
    e4m3_of(clamped(product(single_of_bf16(x), quotient(ONE, scale)), FP8_MAX))
}

/// A block has one largest absolute value.
pub proof fn lemma_absmax_is(data: Seq<u16>, rows: int, cols: int, mb: int, kb: int, a: u32)
    requires
        is_absmax(data, rows, cols, mb, kb, a),
    ensures
        absmax(data, rows, cols, mb, kb) == a,
{
    let b = absmax(data, rows, cols, mb, kb);
    assert(is_absmax(data, rows, cols, mb, kb, b));
}

/// A block has a largest absolute value.
proof fn lemma_absmax_exists(data: Seq<u16>, rows: int, cols: int, mb: int, kb: int, bound: u32)
    requires
        forall|r: int, c: int|
            #![trigger entry(data, cols, r, c)]
            in_block(rows, cols, mb, kb, r, c) && !is_bf16_nan(entry(data, cols, r, c))
                ==> absolute(entry(data, cols, r, c)) <= bound,
    ensures
        exists|a: u32| a <= bound && is_absmax(data, rows, cols, mb, kb, a),
    decreases bound,
{
    if is_absmax(data, rows, cols, mb, kb, bound) {
    } else {
        lemma_absmax_exists(data, rows, cols, mb, kb, (bound - 1) as u32);
    }
}

/// The largest absolute value of a block is one: that of a brain float, or zero.
pub proof fn lemma_absmax(data: Seq<u16>, rows: int, cols: int, mb: int, kb: int)
    ensures
        is_absmax(data, rows, cols, mb, kb, absmax(data, rows, cols, mb, kb)),
        absmax(data, rows, cols, mb, kb) <= 0x7f7f_0000 || absmax(data, rows, cols, mb, kb)
            == INFINITY,
{
    lemma_absmax_exists(data, rows, cols, mb, kb, INFINITY);
}

/// No absolute value, NaNs left out, exceeds `a` in the rectangle from `r0`, `c0`
/// to `r1`, `c1`.
spec fn bounds_rect(data: Seq<u16>, cols: int, r0: int, r1: int, c0: int, c1: int, a: u32) -> bool {
    forall|r: int, c: int|
        #![trigger entry(data, cols, r, c)]
        r0 <= r < r1 && c0 <= c < c1 && !is_bf16_nan(entry(data, cols, r, c)) ==> absolute(
            entry(data, cols, r, c),
        ) <= a
}

/// Searches a block for its largest absolute value.
fn block_absmax(data: &Vec<u16>, rows: usize, cols: usize, mb: usize, kb: usize) -> (a: u32)
    requires
        data@.len() == rows * cols,
        mb < blocks(rows as int, BLOCK as int),
        kb < blocks(cols as int, BLOCK as int),
        rows + BLOCK - 1 <= usize::MAX,
        cols + BLOCK - 1 <= usize::MAX,
    ensures
        is_absmax(data@, rows as int, cols as int, mb as int, kb as int, a),
        a == absmax(data@, rows as int, cols as int, mb as int, kb as int),
        a <= INFINITY,
{
    proof {
        crate::block::law_blocks_are_needed(rows as int, BLOCK as int);
        crate::block::law_blocks_are_needed(cols as int, BLOCK as int);
    }
    let m_start: usize = mb * BLOCK;
    let k_start: usize = kb * BLOCK;
    let m_end: usize = if m_start + BLOCK < rows {
        m_start + BLOCK
    } else {
        rows
    };
    let k_end: usize = if k_start + BLOCK < cols {
        k_start + BLOCK
    } else {
        cols
    };
    let ghost w = cols as int;
    let len: usize = data.len();
    assert forall|r: int, c: int|
        m_start <= r < m_end && k_start <= c < k_end <==> #[trigger] in_block(
            rows as int,
            cols as int,
            mb as int,
            kb as int,
            r,
            c,
        ) by {
        if 0 <= r < rows && 0 <= c < cols {
            law_blocks_partition(rows as int, BLOCK as int, r, mb as int);
            law_blocks_partition(cols as int, BLOCK as int, c, kb as int);
        }
    }
    let mut best: u32 = 0;
    let mut r: usize = m_start;
    while r < m_end
        invariant
            m_start <= r <= m_end <= rows,
            k_start <= k_end <= cols,
            len == data@.len() == rows * cols,
            w == cols,
            best <= INFINITY,
            forall|i: int, j: int|
                m_start <= i < m_end && k_start <= j < k_end <==> #[trigger] in_block(
                    rows as int,
                    cols as int,
                    mb as int,
                    kb as int,
                    i,
                    j,
                ),
            bounds_rect(data@, w, m_start as int, r as int, k_start as int, k_end as int, best),
            best == 0 || exists|i: int, j: int|
                #![trigger entry(data@, w, i, j)]
                in_block(rows as int, w, mb as int, kb as int, i, j) && !is_bf16_nan(
                    entry(data@, w, i, j),
                ) && absolute(entry(data@, w, i, j)) == best,
        decreases m_end - r,
    {
        let mut c: usize = k_start;
        while c < k_end
            invariant
                m_start <= r < m_end <= rows,
                k_start <= c <= k_end <= cols,
                len == data@.len() == rows * cols,
                w == cols,
                best <= INFINITY,
                forall|i: int, j: int|
                    m_start <= i < m_end && k_start <= j < k_end <==> #[trigger] in_block(
                        rows as int,
                        cols as int,
                        mb as int,
                        kb as int,
                        i,
                        j,
                    ),
                bounds_rect(
                    data@,
                    w,
                    m_start as int,
                    r as int,
                    k_start as int,
                    k_end as int,
                    best,
                ),
                bounds_rect(data@, w, r as int, r + 1, k_start as int, c as int, best),
                best == 0 || exists|i: int, j: int|
                    #![trigger entry(data@, w, i, j)]
                    in_block(rows as int, w, mb as int, kb as int, i, j) && !is_bf16_nan(
                        entry(data@, w, i, j),
                    ) && absolute(entry(data@, w, i, j)) == best,
            decreases k_end - c,
        {
            proof {
                lemma_index_in_range(rows as int, w, r as int, c as int);
            }
            let x: u16 = data[r * cols + c];
            let wide: u32 = widen_bf16(x);
            let mag: u32 = wide % SIGN;
            assert(in_block(rows as int, w, mb as int, kb as int, r as int, c as int));
            if mag <= INFINITY && mag > best {
                best = mag;
            }
            proof {
                lemma_nan_widens_to_nan(x);
                assert(entry(data@, w, r as int, c as int) == x);
            }
            c = c + 1;
        }
        r = r + 1;
    }
    proof {
        assert(is_absmax(data@, rows as int, w, mb as int, kb as int, best)) by {
            assert forall|i: int, j: int|
                #![trigger entry(data@, w, i, j)]
                in_block(rows as int, w, mb as int, kb as int, i, j) && !is_bf16_nan(
                    entry(data@, w, i, j),
                ) implies absolute(entry(data@, w, i, j)) <= best by {}
        }
        lemma_absmax_is(data@, rows as int, w, mb as int, kb as int, best);
    }
    best
}

/// A row and a column name a place of the matrix.
pub proof fn lemma_index_in_range(rows: int, cols: int, r: int, c: int)
    by (nonlinear_arith)
    requires
        0 <= r < rows,
        0 <= c < cols,
    ensures
        0 <= r * cols,
        0 <= r * cols + c < rows * cols,
{
}

/// A brain float widens to a NaN just where it is one.
proof fn lemma_nan_widens_to_nan(x: u16)
    ensures
        is_bf16_nan(x) <==> magnitude(single_of_bf16(x)) > INFINITY,
{
    if is_bf16_nan(x) {
        assert(x % 0x8000 > 0x7f80 ==> (x | 0x40) % 0x8000 > 0x7f80) by (bit_vector);
    }
}

/// The number of blocks of a matrix fits where the matrix does.
proof fn lemma_block_count_fits(rows: int, cols: int)
    requires
        rows >= 0,
        cols >= 0,
        rows * cols <= usize::MAX,
    ensures
        0 <= blocks(rows, BLOCK as int) * blocks(cols, BLOCK as int) <= usize::MAX,
{
    let (m, k) = (blocks(rows, BLOCK as int), blocks(cols, BLOCK as int));
    crate::block::law_blocks_are_needed(rows, BLOCK as int);
    crate::block::law_blocks_are_needed(cols, BLOCK as int);
    assert(0 <= m <= rows);
    assert(0 <= k <= cols);
    assert(0 <= m * k <= rows * cols) by (nonlinear_arith)
        requires
            0 <= m <= rows,
            0 <= k <= cols,
    ;
}

/// `scales` holds the scale of every block, the blocks of a row of blocks one
/// after the other: the scale of the block `mb`, `kb` is at `kb + mb * k_blocks`.
pub open spec fn are_block_scales(
    data: Seq<u16>,
    rows: int,
    cols: int,
    scales: Seq<u32>,
) -> bool {
    let k_blocks = blocks(cols, BLOCK as int);
    &&& scales.len() == blocks(rows, BLOCK as int) * k_blocks
    &&& forall|mb: int, kb: int|
        0 <= mb < blocks(rows, BLOCK as int) && 0 <= kb < k_blocks
            ==> #[trigger] scales[kb + mb * k_blocks] == scale_for(
            absmax(data, rows, cols, mb, kb),
        )
}

/// `codes` holds every element divided by the scale of its block.
pub open spec fn are_block_codes(
    data: Seq<u16>,
    cols: int,
    scales: Seq<u32>,
    codes: Seq<u8>,
) -> bool {
    &&& codes.len() == data.len()
    &&& forall|i: int|
        0 <= i < codes.len() ==> #[trigger] codes[i] == quantized(
            data[i],
            scales[scale_index(i / cols, i % cols, BLOCK as int, BLOCK as int, cols)],
        )
}

/// `a` is the largest absolute value of the block of 128 rows and 128 columns around
/// an element, NaNs left out, as the upper half of its single-precision bits; zero
/// where the block has no number.
pub open spec fn is_largest_around(
    data: Seq<u16>,
    rows: int,
    cols: int,
    r: int,
    c: int,
    a: u32,
) -> bool {
    &&& forall|r2: int, c2: int|
        #![trigger entry(data, cols, r2, c2)]
        0 <= r2 < rows && 0 <= c2 < cols && r2 / 128 == r / 128 && c2 / 128 == c / 128 && entry(
            data,
            cols,
            r2,
            c2,
        ) % 0x8000 <= 0x7f80 ==> (entry(data, cols, r2, c2) % 0x8000) * 0x1_0000 <= a
    &&& a == 0 || exists|r2: int, c2: int|
        #![trigger entry(data, cols, r2, c2)]
        0 <= r2 < rows && 0 <= c2 < cols && r2 / 128 == r / 128 && c2 / 128 == c / 128 && entry(
            data,
            cols,
            r2,
            c2,
        ) % 0x8000 <= 0x7f80 && (entry(data, cols, r2, c2) % 0x8000) * 0x1_0000 == a
}

/// What a blockwise quantization makes of an element: where `a` is the largest
/// absolute value of the 128 rows and 128 columns around it, the scale of the block
/// is `a / 448`, or one where `a` is zero, and lies at `(r / 128) * wide + c / 128`,
/// `wide` being the number of blocks in a row. The code is the element times the
/// inverse of the scale, held between -448 and 448 and rounded.
pub proof fn law_block_has_scale_and_codes(
    data: Seq<u16>,
    rows: int,
    cols: int,
    scales: Seq<u32>,
    codes: Seq<u8>,
    high: int,
    wide: int,
    a: u32,
    r: int,
    c: int,
)
    requires
        data.len() == rows * cols,
        are_block_scales(data, rows, cols, scales),
        are_block_codes(data, cols, scales, codes),
        (high - 1) * 128 < rows <= high * 128,
        (wide - 1) * 128 < cols <= wide * 128,
        0 <= r < rows,
        0 <= c < cols,
        is_largest_around(data, rows, cols, r, c, a),
    ensures
        entry(data, cols, r, c) == data[r * cols + c],
        codes.len() == rows * cols,
        scales.len() == high * wide,
        ({
            let scale = scales[(r / 128) * wide + c / 128];
            &&& a > 0 ==> scale == quotient(a, 0x43e0_0000)
            &&& a == 0 ==> scale == 0x3f80_0000
            &&& codes[r * cols + c] == e4m3_of(
                clamped(
                    product(
                        single_of_bf16(data[r * cols + c]),
                        quotient(0x3f80_0000, scale),
                    ),
                    0x43e0_0000,
                ),
            )
        }),
{
    let (mb, kb) = (r / 128, c / 128);
    let i = r * cols + c;
    assert(blocks(rows, 128) == high && blocks(cols, 128) == wide);
    law_blocks_partition(rows, 128, r, mb);
    law_blocks_partition(cols, 128, c, kb);
    lemma_index_in_range(rows, cols, r, c);
    assert(cols * r == r * cols) by (nonlinear_arith);
    vstd::arithmetic::div_mod::lemma_fundamental_div_mod_converse(i, cols, r, c);
    assert(is_absmax(data, rows, cols, mb, kb, a));
    lemma_absmax_is(data, rows, cols, mb, kb, a);
    assert(scales[kb + mb * wide] == scale_for(absmax(data, rows, cols, mb, kb)));
    assert(codes[i] == quantized(data[i], scales[scale_index(r, c, 128, 128, cols)]));
}

/// Quantizes a matrix of brain floats, 128 rows by 128 columns at a time, and
/// returns the codes and the scales.
pub fn fp8_dynamic_quantize_cpu(data: &Vec<u16>, rows: usize, cols: usize) -> (r: (
    Vec<u8>,
    Vec<u32>,
))
    requires
        data@.len() == rows * cols,
        rows + BLOCK - 1 <= usize::MAX,
        cols + BLOCK - 1 <= usize::MAX,
    ensures
        are_block_scales(data@, rows as int, cols as int, r.1@),
        are_block_codes(data@, cols as int, r.1@, r.0@),
{
    let len: usize = data.len();
    let m_blocks = count_blocks(rows, BLOCK);
    let k_blocks = count_blocks(cols, BLOCK);
    proof {
        lemma_block_count_fits(rows as int, cols as int);
    }
    let num_scales: usize = k_blocks * m_blocks;
    let mut scales: Vec<u32> = Vec::with_capacity(num_scales);
    let mut inverses: Vec<u32> = Vec::with_capacity(num_scales);
    let mut mb: usize = 0;
    proof {
        assert(0 * k_blocks == 0);
    }
    while mb < m_blocks
        invariant
            mb <= m_blocks,
            data@.len() == rows * cols,
            rows + BLOCK - 1 <= usize::MAX,
            cols + BLOCK - 1 <= usize::MAX,
            m_blocks == blocks(rows as int, BLOCK as int),
            k_blocks == blocks(cols as int, BLOCK as int),
            scales@.len() == mb * k_blocks,
            inverses@.len() == scales@.len(),
            forall|i: int|
                0 <= i < scales@.len() ==> #[trigger] inverses@[i] == quotient(ONE, scales@[i]),
            forall|i: int, j: int|
                0 <= i < mb && 0 <= j < k_blocks ==> #[trigger] scales@[j + i * k_blocks]
                    == scale_for(absmax(data@, rows as int, cols as int, i, j)),
        decreases m_blocks - mb,
    {
        let mut kb: usize = 0;
        while kb < k_blocks
            invariant
                kb <= k_blocks,
                mb < m_blocks,
                data@.len() == rows * cols,
                rows + BLOCK - 1 <= usize::MAX,
                cols + BLOCK - 1 <= usize::MAX,
                m_blocks == blocks(rows as int, BLOCK as int),
                k_blocks == blocks(cols as int, BLOCK as int),
                scales@.len() == mb * k_blocks + kb,
                inverses@.len() == scales@.len(),
                forall|i: int|
                    0 <= i < scales@.len() ==> #[trigger] inverses@[i] == quotient(
                        ONE,
                        scales@[i],
                    ),
                forall|i: int, j: int|
                    0 <= i < mb && 0 <= j < k_blocks ==> #[trigger] scales@[j + i * k_blocks]
                        == scale_for(absmax(data@, rows as int, cols as int, i, j)),
                forall|j: int|
                    0 <= j < kb ==> #[trigger] scales@[j + mb * k_blocks] == scale_for(
                        absmax(data@, rows as int, cols as int, mb as int, j),
                    ),
            decreases k_blocks - kb,
        {
            let best: u32 = block_absmax(data, rows, cols, mb, kb);
            let scale: u32 = if best > 0 {
                divide(best, FP8_MAX)
            } else {
                ONE
            };
            let ghost before = scales@;
            scales.push(scale);
            inverses.push(divide(ONE, scale));
            proof {
                assert forall|i: int, j: int|
                    0 <= i < mb && 0 <= j < k_blocks implies #[trigger] scales@[j + i
                    * k_blocks] == scale_for(
                    absmax(data@, rows as int, cols as int, i, j),
                ) by {
                    lemma_index_in_range(mb as int, k_blocks as int, i, j);
                    assert(before[j + i * k_blocks] == scales@[j + i * k_blocks]);
                }
            }
            kb = kb + 1;
        }
        proof {
            assert((mb + 1) * k_blocks == mb * k_blocks + k_blocks) by (nonlinear_arith);
            assert forall|i: int, j: int|
                0 <= i < mb + 1 && 0 <= j < k_blocks implies #[trigger] scales@[j + i
                * k_blocks] == scale_for(absmax(data@, rows as int, cols as int, i, j)) by {
                if i == mb {
                    assert(scales@[j + mb * k_blocks] == scale_for(
                        absmax(data@, rows as int, cols as int, mb as int, j),
                    ));
                }
            }
        }
        mb = mb + 1;
    }
    let mut codes: Vec<u8> = Vec::with_capacity(len);
    let mut i: usize = 0;
    while i < len
        invariant
            i <= len,
            len == data@.len() == rows * cols,
            m_blocks == blocks(rows as int, BLOCK as int),
            k_blocks == blocks(cols as int, BLOCK as int),
            scales@.len() == m_blocks * k_blocks,
            inverses@.len() == scales@.len(),
            forall|l: int|
                0 <= l < scales@.len() ==> #[trigger] inverses@[l] == quotient(ONE, scales@[l]),
            codes@.len() == i,
            forall|l: int|
                0 <= l < i ==> #[trigger] codes@[l] == quantized(
                    data@[l],
                    scales@[scale_index(
                        l / cols as int,
                        l % cols as int,
                        BLOCK as int,
                        BLOCK as int,
                        cols as int,
                    )],
                ),
        decreases len - i,
    {
        proof {
            lemma_row_and_column(rows as int, cols as int, i as int);
        }
        let r = i / cols;
        let c = i % cols;
        proof {
            crate::block::law_one_scale_per_block(
                rows as int,
                cols as int,
                BLOCK as int,
                BLOCK as int,
                r as int,
                c as int,
                r as int,
                c as int,
            );
            law_blocks_partition(rows as int, BLOCK as int, r as int, 0);
            law_blocks_partition(cols as int, BLOCK as int, c as int, 0);
            let a = (r / BLOCK) as int;
            let w = k_blocks as int;
            assert(0 <= a * w) by (nonlinear_arith)
                requires
                    a >= 0,
                    w >= 0,
            ;
        }
        let scale_len: usize = inverses.len();
        let inverse: u32 = inverses[(r / BLOCK) * k_blocks + c / BLOCK];
        let value: u32 = multiply(widen_bf16(data[i]), inverse);
        codes.push(narrow_to_e4m3(clamp(value, FP8_MAX)));
        i = i + 1;
    }
    (codes, scales)
}

/// A place of a matrix has a row and a column.
pub proof fn lemma_row_and_column(rows: int, cols: int, i: int)
    requires
        rows >= 0,
        cols >= 0,
        0 <= i < rows * cols,
    ensures
        cols > 0,
        0 <= i / cols < rows,
        0 <= i % cols < cols,
        i == (i / cols) * cols + i % cols,
{
    assert(cols > 0) by (nonlinear_arith)
        requires
            0 <= i < rows * cols,
            cols >= 0,
    ;
    vstd::arithmetic::div_mod::lemma_fundamental_div_mod(i, cols);
    vstd::arithmetic::div_mod::lemma_div_pos_is_pos(i, cols);
    assert(i / cols < rows) by (nonlinear_arith)
        requires
            i == cols * (i / cols) + i % cols,
            0 <= i % cols,
            i < rows * cols,
            cols > 0,
    ;
    assert((i / cols) * cols == cols * (i / cols)) by (nonlinear_arith);
}

/// The number of rows of a tensor seen as a matrix: all dimensions but the last.
pub open spec fn matrix_rows(dims: Seq<usize>) -> nat {
    volume(dims.drop_last())
}

/// The rows and columns of a tensor of rank one or more seen as a matrix.
pub(crate) fn matrix_shape(t: &Tensor) -> (r: (usize, usize))
    requires
        t.wf(),
        t.dims@.len() >= 1,
    ensures
        r.0 == matrix_rows(t.dims@),
        r.1 == t.dims@.last(),
        r.0 * r.1 == t.numel(),
{
    let rank = t.dims.len();
    let mut rows: usize = 1;
    let mut j: usize = 0;
    assert(t.dims@.take(0).len() == 0);
    while j < rank - 1
        invariant
            j < rank,
            rank == t.dims@.len(),
            t.wf(),
            rows == volume(t.dims@.take(j as int)),
        decreases rank - j,
    {
        assert(t.dims@.take(j + 1).drop_last() == t.dims@.take(j as int));
        assert(volume(t.dims@.take(j + 1)) <= usize::MAX);
        rows = rows * t.dims[j];
        j = j + 1;
    }
    assert(t.dims@.take(j as int) == t.dims@.drop_last());
    (rows, t.dims[rank - 1])
}

/// A tensor seen as a matrix: a vector has one row, every further leading dimension
/// multiplies the number of rows, and rows times columns is the number of elements.
pub proof fn law_leading_dimensions_are_rows(dims: Seq<usize>)
    requires
        dims.len() >= 1,
    ensures
        dims.len() == 1 ==> matrix_rows(dims) == 1,
        dims.len() == 2 ==> matrix_rows(dims) == dims[0],
        dims.len() >= 2 ==> matrix_rows(dims) == dims[0] * matrix_rows(dims.drop_first()),
        matrix_rows(dims) * dims.last() == volume(dims),
{
    if dims.len() >= 2 {
        let lead = dims.drop_last();
        law_volume_is_the_product(lead);
        assert(lead.drop_first() == dims.drop_first().drop_last());
        if dims.len() == 2 {
            assert(volume(lead.drop_first()) == 1);
            assert(dims[0] * 1 == dims[0]);
        }
    }
}

/// Why a blockwise quantization is refused, if it is.
pub open spec fn dynamic_error(input: Tensor) -> Option<Error> {
    if input.storage.element_type() != DType::BF16 {
        Some(Error::DynamicInputDType(input.storage.element_type()))
    } else if input.dims@.len() < 2 {
        Some(Error::DynamicInputRank(input.dims@.len() as usize))
    } else if input.storage.place() is Metal {
        Some(Error::UnsupportedDevice(input.storage.place()))
    } else {
        None
    }
}

/// On the host the block counts are in range; on a device they, and the number of
/// blocks, are in range for the device's counters.
pub open spec fn dynamic_is_defined(input: Tensor) -> bool {
    let rows = matrix_rows(input.dims@) as int;
    let cols = input.dims@.last() as int;
    let (m, k) = (rows as u32, cols as u32);
    dynamic_error(input) is None ==> {
        if input.storage.place() == Device::Cpu {
            &&& rows + BLOCK - 1 <= usize::MAX
            &&& cols + BLOCK - 1 <= usize::MAX
        } else {
            &&& m + BLOCK - 1 <= u32::MAX
            &&& k + BLOCK - 1 <= u32::MAX
            &&& blocks(k as int, BLOCK as int) * blocks(m as int, BLOCK as int) <= u32::MAX
        }
    }
}

/// Whether the tensor is valid and its blockwise quantization is within its ranges,
/// for callers that cannot know.
pub fn check_dynamic(input: &Tensor) -> (r: bool)
    ensures
        r == (input.wf() && dynamic_is_defined(*input)),
{
    if !input.is_valid() {
        return false;
    }
    if input.dtype() != DType::BF16 || input.dims.len() < 2 {
        return true;
    }
    let (rows, cols) = matrix_shape(input);
    match input.device() {
        Device::Cpu => rows <= usize::MAX - (BLOCK - 1) && cols <= usize::MAX - (BLOCK - 1),
        Device::Cuda { .. } => {
            let m: u32 = #[verifier::truncate]
            (rows as u32);
            let k: u32 = #[verifier::truncate]
            (cols as u32);
            if m > u32::MAX - 127 || k > u32::MAX - 127 {
                return false;
            }
            let k_blocks: u32 = (k + 127) / 128;
            let m_blocks: u32 = (m + 127) / 128;
            k_blocks.checked_mul(m_blocks).is_some()
        },
        Device::Metal { .. } => true,
    }
}

/// The operations that quantize a matrix on the device.
pub open spec fn dynamic_ops(rows: usize, cols: usize) -> Seq<DeviceOp> {
    let m_blocks = blocks((rows as u32) as int, BLOCK as int) as u32;
    let k_blocks = blocks((cols as u32) as int, BLOCK as int) as u32;
    seq![
        DeviceOp::Contiguous(Buffer::Input),
        DeviceOp::Load(Kernel::QuantizeBlockwise),
        DeviceOp::Alloc {
            buffer: Buffer::Output,
            dtype: DType::F8E4M3,
            len: (rows * cols) as usize,
        },
        DeviceOp::Alloc {
            buffer: Buffer::Scales,
            dtype: DType::F32,
            len: (k_blocks * m_blocks) as usize,
        },
        DeviceOp::Launch {
            call: Call::QuantizeBlockwise {
                input: Buffer::Input,
                out: Buffer::Output,
                scales: Buffer::Scales,
                m: rows as u32,
                k: cols as u32,
            },
            config: LaunchConfig {
                grid_dim: (k_blocks, m_blocks, 1),
                block_dim: (128, 1, 1),
                shared_mem_bytes: 0,
            },
        },
    ]
}

/// Why a quantization on the device is refused, if it is.
pub open spec fn dynamic_cuda_error(input: Tensor) -> Option<Error> {
    if !(input.storage.place() is Cuda) {
        Some(Error::ExpectedCuda(input.storage.place()))
    } else if input.storage.element_type() != DType::BF16 {
        Some(Error::DynamicInputDType(input.storage.element_type()))
    } else {
        None
    }
}

/// A program quantizes a matrix blockwise on a device.
pub open spec fn is_dynamic_plan(
    device: Device,
    rows: usize,
    cols: usize,
    plan: DevicePlan,
) -> bool {
    &&& plan.device == device
    &&& plan.ops@ == dynamic_ops(rows, cols)
    &&& plan.outputs@.len() == 2
    &&& plan.outputs@[0].buffer == Buffer::Output
    &&& plan.outputs@[0].dtype == DType::F8E4M3
    &&& plan.outputs@[0].dims@ == seq![rows, cols]
    &&& plan.outputs@[1].buffer == Buffer::Scales
    &&& plan.outputs@[1].dtype == DType::F32
    &&& plan.outputs@[1].dims@ == seq![
        (blocks((cols as u32) as int, BLOCK as int) * blocks(
            (rows as u32) as int,
            BLOCK as int,
        )) as usize,
    ]
}

/// Lays down how to quantize a tensor, seen as a matrix, on the device.
pub fn fp8_dynamic_quantize_cuda(input: &Tensor, rows: usize, cols: usize) -> (r: Result<
    DevicePlan,
    Error,
>)
    requires
        dynamic_cuda_error(*input) is None ==> {
            &&& rows * cols <= usize::MAX
            &&& (rows as u32) + BLOCK - 1 <= u32::MAX
            &&& (cols as u32) + BLOCK - 1 <= u32::MAX
            &&& blocks((cols as u32) as int, BLOCK as int) * blocks(
                (rows as u32) as int,
                BLOCK as int,
            ) <= u32::MAX
        },
    ensures
        r matches Err(e) ==> Some(e) == dynamic_cuda_error(*input),
        r matches Ok(plan) ==> dynamic_cuda_error(*input) is None && is_dynamic_plan(
            input.storage.place(),
            rows,
            cols,
            plan,
        ),
{
    let device = input.device();
    if !device.is_cuda() {
        return Err(Error::ExpectedCuda(device));
    }
    if input.dtype() != DType::BF16 {
        return Err(Error::DynamicInputDType(input.dtype()));
    }
    let m: u32 = #[verifier::truncate]
    (rows as u32);
    let k: u32 = #[verifier::truncate]
    (cols as u32);
    let k_blocks: u32 = (k + 127) / 128;
    let m_blocks: u32 = (m + 127) / 128;
    let num_scales: usize = (k_blocks * m_blocks) as usize;
    let numel: usize = rows * cols;
    let config = LaunchConfig {
        grid_dim: (k_blocks, m_blocks, 1),
        block_dim: (128, 1, 1),
        shared_mem_bytes: 0,
    };
    let call = Call::QuantizeBlockwise {
        input: Buffer::Input,
        out: Buffer::Output,
        scales: Buffer::Scales,
        m,
        k,
    };
    let mut ops: Vec<DeviceOp> = Vec::new();
    ops.push(DeviceOp::Contiguous(Buffer::Input));
    ops.push(DeviceOp::Load(Kernel::QuantizeBlockwise));
    ops.push(DeviceOp::Alloc { buffer: Buffer::Output, dtype: DType::F8E4M3, len: numel });
    ops.push(DeviceOp::Alloc { buffer: Buffer::Scales, dtype: DType::F32, len: num_scales });
    ops.push(DeviceOp::Launch { call, config });
    let mut dims: Vec<usize> = Vec::new();
    dims.push(rows);
    dims.push(cols);
    let mut scale_dims: Vec<usize> = Vec::new();
    scale_dims.push(num_scales);
    let mut outputs: Vec<PlanOutput> = Vec::new();
    outputs.push(PlanOutput { buffer: Buffer::Output, dtype: DType::F8E4M3, dims });
    outputs.push(PlanOutput { buffer: Buffer::Scales, dtype: DType::F32, dims: scale_dims });
    assert(ops@ =~= dynamic_ops(rows, cols));
    assert(outputs@[0].dims@ =~= seq![rows, cols]);
    assert(outputs@[1].dims@ =~= seq![num_scales]);
    Ok(DevicePlan { device, ops, outputs })
}

/// A blockwise quantization is done on the host and left to the device elsewhere.
pub open spec fn is_dynamic_work(input: Tensor, work: Work<(Tensor, Tensor)>) -> bool {
    let rows = matrix_rows(input.dims@) as usize;
    let cols = input.dims@.last();
    match work {
        Work::Done((quant, scales)) => {
            &&& input.storage.place() == Device::Cpu
            &&& quant.wf()
            &&& quant.dims@ == seq![rows, cols]
            &&& is_compact(quant.dims@, quant.strides@)
            &&& quant.start_offset == 0
            &&& quant.storage is F8E4M3
            &&& scales.wf()
            &&& scales.dims@ == seq![
                (blocks(rows as int, BLOCK as int) * blocks(cols as int, BLOCK as int)) as usize,
            ]
            &&& is_compact(scales.dims@, scales.strides@)
            &&& scales.start_offset == 0
            &&& scales.storage is F32
            &&& are_block_scales(
                input.bf16_elements(),
                rows as int,
                cols as int,
                scales.storage->F32_0@,
            )
            &&& are_block_codes(
                input.bf16_elements(),
                cols as int,
                scales.storage->F32_0@,
                quant.storage->F8E4M3_0@,
            )
        },
        Work::Launch(plan) => {
            &&& input.storage.place() is Cuda
            &&& is_dynamic_plan(input.storage.place(), rows, cols, plan)
        },
    }
}

/// A device leaves codes and scales of the shapes and types that the host leaves for
/// an input of the same shape, and has a thread block for every scale. Holds up to
/// the number of rows and columns that a kernel can be told.
pub proof fn law_device_quantizes_to_the_shapes_of_the_host(
    near: Tensor,
    far: Tensor,
    quant: Tensor,
    scales: Tensor,
    plan: DevicePlan,
)
    requires
        near.wf(),
        near.dims@ == far.dims@,
        dynamic_error(far) is None,
        dynamic_is_defined(far),
        matrix_rows(far.dims@) <= u32::MAX,
        far.dims@.last() <= u32::MAX,
        is_dynamic_work(near, Work::Done((quant, scales))),
        is_dynamic_work(far, Work::Launch(plan)),
    ensures
        plan.device == far.storage.place(),
        plan.outputs@[0].dims@ == quant.dims@,
        plan.outputs@[0].dtype == quant.storage.element_type(),
        plan.outputs@[1].dims@ == scales.dims@,
        plan.outputs@[1].dtype == scales.storage.element_type(),
        plan.ops@.last() matches DeviceOp::Launch { config, .. } && config.grid_dim.0
            * config.grid_dim.1 == scales.dims@[0],
{
    let rank = far.dims@.len();
    assert(far.dims@.take(rank - 1) == far.dims@.drop_last());
    assert(volume(far.dims@.take(rank - 1)) <= usize::MAX);
    let (rows, cols) = (matrix_rows(far.dims@) as usize, far.dims@.last());
    assert(rows == matrix_rows(far.dims@));
    assert((rows as u32) == rows && (cols as u32) == cols);
    let (m, k) = (blocks(rows as int, BLOCK as int), blocks(cols as int, BLOCK as int));
    assert(m * k == k * m) by (nonlinear_arith);
    assert((m as u32) == m && (k as u32) == k);
}

/// Dynamically quantize a BF16 activation tensor to FP8 E4M3 with 128x128
/// blockwise scaling.
///
/// `input`: `[.., K]` tensor in BF16, seen as a matrix `[M, K]`.
///
/// Returns `(quantized, scales)`:
///   - `quantized`: `[M, K]` in F8E4M3
///   - `scales`:    `[ceil(K/128) * ceil(M/128)]` flat F32 in col-major layout
///
/// or the program that computes them where the input is on a device.
pub fn fp8_dynamic_quantize(input: &Tensor) -> (r: Result<Work<(Tensor, Tensor)>, Error>)
    requires
        input.wf(),
        dynamic_is_defined(*input),
    ensures
        r is Ok <==> dynamic_error(*input) is None,
        r matches Err(e) ==> dynamic_error(*input) == Some(e),
        r matches Ok(work) ==> is_dynamic_work(*input, work),
{
    if input.dtype() != DType::BF16 {
        return Err(Error::DynamicInputDType(input.dtype()));
    }
    if input.dims.len() < 2 {
        return Err(Error::DynamicInputRank(input.dims.len()));
    }
    let (rows, cols) = matrix_shape(input);
    assert(input.dims@.take(input.dims@.len() as int) == input.dims@);
    match input.device() {
        Device::Cpu => {
            let data = match input.contiguous() {
                Storage::BF16(data) => data,
                _ => {
                    return Err(Error::DynamicInputDType(input.dtype()));
                },
            };
            assert(data@ =~= input.bf16_elements());
            let (codes, scales) = fp8_dynamic_quantize_cpu(&data, rows, cols);
            let mut dims: Vec<usize> = Vec::new();
            dims.push(rows);
            dims.push(cols);
            let mut scale_dims: Vec<usize> = Vec::new();
            scale_dims.push(scales.len());
            proof {
                assert(dims@ =~= seq![rows, cols]);
                lemma_matrix_volume(dims@);
                lemma_vector_volume(scale_dims@);
            }
            let quant = match Tensor::from_vec(Storage::F8E4M3(codes), dims) {
                Ok(quant) => quant,
                Err(e) => {
                    return Err(e);
                },
            };
            let scales = match Tensor::from_vec(Storage::F32(scales), scale_dims) {
                Ok(scales) => scales,
                Err(e) => {
                    return Err(e);
                },
            };
            Ok(Work::Done((quant, scales)))
        },
        Device::Cuda { .. } => match fp8_dynamic_quantize_cuda(input, rows, cols) {
            Ok(plan) => Ok(Work::Launch(plan)),
            Err(e) => Err(e),
        },
        Device::Metal { .. } => Err(Error::UnsupportedDevice(input.device())),
    }
}

/// Why a per-tensor quantization is refused, if it is.
pub open spec fn scalar_error(input: Tensor) -> Option<Error> {
    if input.storage.element_type() != DType::BF16 {
        Some(Error::ScalarInputDType(input.storage.element_type()))
    } else if !(input.storage.place() is Cuda) {
        Some(Error::ExpectedCuda(input.storage.place()))
    } else {
        None
    }
}

/// The operations that quantize a tensor with one scale: the scale starts at
/// zero, becomes the largest absolute value, then the scale, and every element is
/// divided by it.
pub open spec fn scalar_ops(numel: usize) -> Seq<DeviceOp> {
    seq![
        DeviceOp::Contiguous(Buffer::Input),
        DeviceOp::AllocZeros { buffer: Buffer::Scales, dtype: DType::F32, len: 1 },
        DeviceOp::Load(Kernel::Absmax),
        DeviceOp::Launch {
            call: Call::Absmax {
                input: Buffer::Input,
                scale: Buffer::Scales,
                numel: kernel_count(numel),
            },
            config: reduction_config(numel),
        },
        DeviceOp::Load(Kernel::ComputeScale),
        DeviceOp::Launch {
            call: Call::ComputeScale { scale: Buffer::Scales },
            config: single_thread_config(),
        },
        DeviceOp::Alloc { buffer: Buffer::Output, dtype: DType::F8E4M3, len: numel },
        DeviceOp::Load(Kernel::QuantizeScalar),
        DeviceOp::Launch {
            call: Call::QuantizeScalar {
                input: Buffer::Input,
                out: Buffer::Output,
                scale: Buffer::Scales,
                numel: kernel_count(numel),
            },
            config: elementwise_config(numel),
        },
    ]
}

/// A program quantizes `input` with one scale.
pub open spec fn is_scalar_plan(input: Tensor, plan: DevicePlan) -> bool {
    &&& plan.device == input.storage.place()
    &&& plan.ops@ == scalar_ops(input.numel() as usize)
    &&& plan.outputs@.len() == 2
    &&& plan.outputs@[0].buffer == Buffer::Output
    &&& plan.outputs@[0].dtype == DType::F8E4M3
    &&& plan.outputs@[0].dims@ == input.dims@
    &&& plan.outputs@[1].buffer == Buffer::Scales
    &&& plan.outputs@[1].dtype == DType::F32
    &&& plan.outputs@[1].dims@ == seq![1usize]
}

/// Lays down how to quantize a BF16 tensor to FP8 E4M3 with one scale for the
/// whole tensor.
///
/// The program leaves `(fp8_tensor, scale)`, where `scale` is a single F32 value
/// on the device.
pub fn fp8_scalar_quantize(input: &Tensor) -> (r: Result<DevicePlan, Error>)
    requires
        input.wf(),
        scalar_error(*input) is None ==> launch_fits(input.numel() as usize),
    ensures
        r is Ok <==> scalar_error(*input) is None,
        r matches Err(e) ==> scalar_error(*input) == Some(e),
        r matches Ok(plan) ==> is_scalar_plan(*input, plan),
{
    if input.dtype() != DType::BF16 {
        return Err(Error::ScalarInputDType(input.dtype()));
    }
    let device = input.device();
    if !device.is_cuda() {
        return Err(Error::ExpectedCuda(device));
    }
    let numel = input.elem_count();
    let n: u32 = #[verifier::truncate]
    (numel as u32);
    let mut ops: Vec<DeviceOp> = Vec::new();
    ops.push(DeviceOp::Contiguous(Buffer::Input));
    ops.push(DeviceOp::AllocZeros { buffer: Buffer::Scales, dtype: DType::F32, len: 1 });
    ops.push(DeviceOp::Load(Kernel::Absmax));
    ops.push(
        DeviceOp::Launch {
            call: Call::Absmax { input: Buffer::Input, scale: Buffer::Scales, numel: n },
            config: reduction(numel),
        },
    );
    ops.push(DeviceOp::Load(Kernel::ComputeScale));
    ops.push(
        DeviceOp::Launch {
            call: Call::ComputeScale { scale: Buffer::Scales },
            config: single_thread(),
        },
    );
    ops.push(DeviceOp::Alloc { buffer: Buffer::Output, dtype: DType::F8E4M3, len: numel });
    ops.push(DeviceOp::Load(Kernel::QuantizeScalar));
    ops.push(
        DeviceOp::Launch {
            call: Call::QuantizeScalar {
                input: Buffer::Input,
                out: Buffer::Output,
                scale: Buffer::Scales,
                numel: n,
            },
            config: elementwise(numel),
        },
    );
    let dims: Vec<usize> = input.dims.clone();
    let mut scale_dims: Vec<usize> = Vec::new();
    scale_dims.push(1);
    let mut outputs: Vec<PlanOutput> = Vec::new();
    assert(dims@ =~= input.dims@);
    outputs.push(PlanOutput { buffer: Buffer::Output, dtype: DType::F8E4M3, dims });
    outputs.push(PlanOutput { buffer: Buffer::Scales, dtype: DType::F32, dims: scale_dims });
    assert(ops@ =~= scalar_ops(numel));
    Ok(DevicePlan { device, ops, outputs })
}

} // verus!
