//! FP8 matrix multiplications, laid down for a column-major multiplication
//! routine.

use crate::block::{blocks, scale_index};
use crate::device::Buffer;
use crate::error::{DType, Error};
use crate::quantize::BLOCK;
use vstd::prelude::*;

verus! {

/// Whether an operand is transposed before it is multiplied.
#[derive(Clone, Copy, Debug, PartialEq, Eq, Structural)]
pub enum Transpose {
    No,
    Yes,
}

/// What one scale of an operand is for.
#[derive(Clone, Copy, Debug, PartialEq, Eq, Structural)]
pub enum ScaleMode {
    /// The whole operand.
    Scalar32F,
    /// A block of 128 by 128 elements.
    Blk128x128_32F,
}

/// A column-major matrix: columns of `rows` elements, `ld` elements apart.
#[derive(Clone, Copy, Debug, PartialEq, Eq, Structural)]
pub struct MatrixLayout {
    pub dtype: DType,
    pub rows: u64,
    pub cols: u64,
    pub ld: i64,
}

/// One of the two factors.
#[derive(Clone, Copy, Debug, PartialEq, Eq, Structural)]
pub struct Operand {
    pub data: Buffer,
    pub scale: Buffer,
    pub transpose: Transpose,
    pub layout: MatrixLayout,
}

/// A multiplication `D = alpha * op(A) * op(B) + beta * D`, computed in single
/// precision with each operand scaled.
#[derive(Clone, Copy, Debug, PartialEq, Eq, Structural)]
pub struct GemmPlan {
    pub a: Operand,
    pub b: Operand,
    pub scale_mode: ScaleMode,
    pub d: MatrixLayout,
    /// The number of elements of the result.
    pub d_len: usize,
    pub alpha: i32,
    pub beta: i32,
}

/// The side of the blocks that share a scale in a blockwise multiplication.
pub const GEMM_BLOCK: usize = 128;

/// The multiplication of an activation, `m` rows of `k` elements, with the
/// transpose of a weight, `n` rows of `k` elements.
///
/// The weight is the first factor, so that the column-major result is the
/// row-major one that is wanted.
pub open spec fn gemm_plan(
    m: usize,
    n: usize,
    k: usize,
    scale_mode: ScaleMode,
    act: Buffer,
    act_scale: Buffer,
    w: Buffer,
    w_scale: Buffer,
) -> GemmPlan {
    GemmPlan {
        a: Operand {
            data: w,
            scale: w_scale,
            transpose: Transpose::Yes,
            layout: MatrixLayout {
                dtype: DType::F8E4M3,
                rows: k as u64,
                cols: n as u64,
                ld: k as i64,
            },
        },
        b: Operand {
            data: act,
            scale: act_scale,
            transpose: Transpose::No,
            layout: MatrixLayout {
                dtype: DType::F8E4M3,
                rows: k as u64,
                cols: m as u64,
                ld: k as i64,
            },
        },
        scale_mode,
        d: MatrixLayout { dtype: DType::BF16, rows: n as u64, cols: m as u64, ld: n as i64 },
        d_len: (m * n) as usize,
        alpha: 1,
        beta: 0,
    }
}

fn plan(
    m: usize,
    n: usize,
    k: usize,
    scale_mode: ScaleMode,
    act: Buffer,
    act_scale: Buffer,
    w: Buffer,
    w_scale: Buffer,
) -> (r: GemmPlan)
    requires
        m * n <= usize::MAX,
    ensures
        r == gemm_plan(m, n, k, scale_mode, act, act_scale, w, w_scale),
{
    let ld_k: i64 = #[verifier::truncate]
    (k as i64);
    let ld_n: i64 = #[verifier::truncate]
    (n as i64);
    GemmPlan {
        a: Operand {
            data: w,
            scale: w_scale,
            transpose: Transpose::Yes,
            layout: MatrixLayout {
                dtype: DType::F8E4M3,
                rows: k as u64,
                cols: n as u64,
                ld: ld_k,
            },
        },
        b: Operand {
            data: act,
            scale: act_scale,
            transpose: Transpose::No,
            layout: MatrixLayout {
                dtype: DType::F8E4M3,
                rows: k as u64,
                cols: m as u64,
                ld: ld_k,
            },
        },
        scale_mode,
        d: MatrixLayout { dtype: DType::BF16, rows: n as u64, cols: m as u64, ld: ld_n },
        d_len: m * n,
        alpha: 1,
        beta: 0,
    }
}

/// Lays down an FP8 multiplication with blockwise scaling on both operands.
///
/// Computes `D = (act_scale * act) @ (w_scale * w)^T` where:
///
/// - `act`:       `[m, k]` row-major FP8 E4M3 activations
/// - `w`:         `[n, k]` row-major FP8 E4M3 weights
/// - `w_scale`:   weight scales in col-major `[ceil(n/128), ceil(k/128)]`
/// - `act_scale`: activation scales in col-major `[ceil(k/128), ceil(m/128)]`
///
/// The result is `[m * n]` BF16 in row-major layout. `m` and `k` must be
/// multiples of 128.
pub fn fp8_matmul(
    act: Buffer,
    w: Buffer,
    w_scale_colmaj: Buffer,
    act_scale_colmaj: Buffer,
    m: usize,
    n: usize,
    k: usize,
) -> (r: Result<GemmPlan, Error>)
    requires
        m % GEMM_BLOCK == 0 && k % GEMM_BLOCK == 0 ==> m * n <= usize::MAX,
    ensures
        r == (if m % GEMM_BLOCK != 0 {
            Err(Error::RowsNotAligned(m))
        } else if k % GEMM_BLOCK != 0 {
            Err(Error::InnerNotAligned(k))
        } else {
            Ok(
                gemm_plan(
                    m,
                    n,
                    k,
                    ScaleMode::Blk128x128_32F,
                    act,
                    act_scale_colmaj,
                    w,
                    w_scale_colmaj,
                ),
            )
        }),
{
    if m % GEMM_BLOCK != 0 {
        return Err(Error::RowsNotAligned(m));
    }
    if k % GEMM_BLOCK != 0 {
        return Err(Error::InnerNotAligned(k));
    }
    Ok(plan(m, n, k, ScaleMode::Blk128x128_32F, act, act_scale_colmaj, w, w_scale_colmaj))
}

/// Lays down an FP8 multiplication with one scale for each operand.
///
/// Computes `D = (a_scale * act) @ (w_scale * w)^T`
///
/// - `act`:     `[m, k]` row-major FP8 E4M3
/// - `w`:       `[n, k]` row-major FP8 E4M3
/// - `w_scale`: scalar F32 scale for weights
/// - `a_scale`: scalar F32 scale for activations
///
/// The result is `[m * n]` BF16 in row-major layout.
pub fn fp8_matmul_scalar(
    act: Buffer,
    w: Buffer,
    w_scale: Buffer,
    a_scale: Buffer,
    m: usize,
    n: usize,
    k: usize,
) -> (r: GemmPlan)
    requires
        m * n <= usize::MAX,
    ensures
        r == gemm_plan(m, n, k, ScaleMode::Scalar32F, act, a_scale, w, w_scale),
{
    plan(m, n, k, ScaleMode::Scalar32F, act, a_scale, w, w_scale)
}

/// The element in row `i` and column `j` of a column-major matrix.
pub open spec fn col_major(data: Seq<int>, layout: MatrixLayout, i: int, j: int) -> int {
    data[i + j * layout.ld]
}

/// The element in row `i` and column `j` of an operand after its transposition.
pub open spec fn operand_entry(operand: Operand, data: Seq<int>, i: int, j: int) -> int {
    match operand.transpose {
        Transpose::Yes => col_major(data, operand.layout, j, i),
        Transpose::No => col_major(data, operand.layout, i, j),
    }
}

/// Which scale the element in row `i` and column `j` of an operand has, the
/// scales being column-major over the blocks of the operand after its
/// transposition.
pub open spec fn operand_scale(operand: Operand, mode: ScaleMode, i: int, j: int) -> int {
    let height = match operand.transpose {
        Transpose::Yes => operand.layout.cols,
        Transpose::No => operand.layout.rows,
    };
    let b = GEMM_BLOCK as int;
    match mode {
        ScaleMode::Scalar32F => 0,
        ScaleMode::Blk128x128_32F => i / b + (j / b) * blocks(height as int, b),
    }
}

/// The sum, over the first `count` inner places, of the products that make up
/// the element in row `i` and column `j` of the result, as integers.
pub open spec fn plan_sum(
    plan: GemmPlan,
    a: Seq<int>,
    a_scales: Seq<int>,
    b: Seq<int>,
    b_scales: Seq<int>,
    i: int,
    j: int,
    count: nat,
) -> int
    decreases count,
{
    if count == 0 {
        0
    } else {
        let l = count - 1;
        let a_scale = a_scales[operand_scale(plan.a, plan.scale_mode, i, l)];
        let b_scale = b_scales[operand_scale(plan.b, plan.scale_mode, l, j)];
        plan_sum(plan, a, a_scales, b, b_scales, i, j, l as nat) + (a_scale * operand_entry(
            plan.a,
            a,
            i,
            l,
        )) * (b_scale * operand_entry(plan.b, b, l, j))
    }
}

/// Which scale the element in row `r` and column `l` of a row-major activation of
/// `k` columns has.
pub open spec fn activation_scale(mode: ScaleMode, k: int, r: int, l: int) -> int {
    let b = GEMM_BLOCK as int;
    match mode {
        ScaleMode::Scalar32F => 0,
        ScaleMode::Blk128x128_32F => l / b + (r / b) * blocks(k, b),
    }
}

/// Which scale the element in row `r` and column `l` of a row-major weight of `n`
/// rows has.
pub open spec fn weight_scale(mode: ScaleMode, n: int, r: int, l: int) -> int {
    let b = GEMM_BLOCK as int;
    match mode {
        ScaleMode::Scalar32F => 0,
        ScaleMode::Blk128x128_32F => r / b + (l / b) * blocks(n, b),
    }
}

/// The sum, over the first `count` inner places, of the products that make up
/// the element in row `i` and column `j` of `(act_scale * act) @ (w_scale * w)^T`,
/// both factors row-major with `k` columns.
pub open spec fn scaled_dot(
    mode: ScaleMode,
    act: Seq<int>,
    act_scales: Seq<int>,
    w: Seq<int>,
    w_scales: Seq<int>,
    n: int,
    k: int,
    i: int,
    j: int,
    count: nat,
) -> int
    decreases count,
{
    if count == 0 {
        0
    } else {
        let l = count - 1;
        let act_scale = act_scales[activation_scale(mode, k, i, l)];
        let w_scale = w_scales[weight_scale(mode, n, j, l)];
        scaled_dot(mode, act, act_scales, w, w_scales, n, k, i, j, l as nat) + (act_scale * act[i
            * k + l]) * (w_scale * w[j * k + l])
    }
}

/// The multiplication that is laid down is the one that is wanted: the
/// column-major entry in row `j` and column `i` of its result has the place of
/// the row-major entry in row `i` and column `j`, and is the scaled product of
/// row `i` of the activation and row `j` of the weight.
pub proof fn law_plan_computes_scaled_product(
    m: usize,
    n: usize,
    k: usize,
    mode: ScaleMode,
    buffers: (Buffer, Buffer, Buffer, Buffer),
    act: Seq<int>,
    act_scales: Seq<int>,
    w: Seq<int>,
    w_scales: Seq<int>,
    i: int,
    j: int,
    count: nat,
)
    requires
        k <= i64::MAX,
        n <= i64::MAX,
        0 <= i < m,
        0 <= j < n,
        count <= k,
    ensures
        ({
            let plan = gemm_plan(
                m,
                n,
                k,
                mode,
                buffers.0,
                buffers.1,
                buffers.2,
                buffers.3,
            );
            &&& j + i * plan.d.ld == i * n + j
            &&& plan_sum(plan, w, w_scales, act, act_scales, j, i, count) == scaled_dot(
                mode,
                act,
                act_scales,
                w,
                w_scales,
                n as int,
                k as int,
                i,
                j,
                count,
            )
        }),
    decreases count,
{
    let plan = gemm_plan(
        m,
        n,
        k,
        mode,
        buffers.0,
        buffers.1,
        buffers.2,
        buffers.3,
    );
    assert(plan.d.ld == n);
    assert(plan.a.layout.ld == k);
    assert(plan.b.layout.ld == k);
    if count > 0 {
        let l = count - 1;
        law_plan_computes_scaled_product(
            m,
            n,
            k,
            mode,
            buffers,
            act,
            act_scales,
            w,
            w_scales,
            i,
            j,
            l as nat,
        );
        let ws = w_scales[weight_scale(mode, n as int, j, l)] * w[j * k + l];
        let xs = act_scales[activation_scale(mode, k as int, i, l)] * act[i * k + l];
        assert(l + j * k == j * k + l);
        assert(l + i * k == i * k + l);
        assert(ws * xs == xs * ws) by (nonlinear_arith);
    }
}

/// The inner length of a multiplication.
pub open spec fn inner_length(operand: Operand) -> int {
    match operand.transpose {
        Transpose::Yes => operand.layout.rows as int,
        Transpose::No => operand.layout.cols as int,
    }
}

/// The element in row `i` and column `j` of the result of a multiplication whose
/// operands and scales are read from a memory, as integers; `before` is what the
/// result held.
pub open spec fn result_entry(
    plan: GemmPlan,
    memory: Map<Buffer, Seq<int>>,
    before: Seq<int>,
    i: int,
    j: int,
) -> int {
    plan.alpha * plan_sum(
        plan,
        memory[plan.a.data],
        memory[plan.a.scale],
        memory[plan.b.data],
        memory[plan.b.scale],
        i,
        j,
        inner_length(plan.a) as nat,
    ) + plan.beta * col_major(before, plan.d, i, j)
}

/// A multiplication reads what it is named for: from a memory, it takes the weight
/// with the weight's scales and the activation with the activation's scales, and
/// its result, read as a row-major matrix of `m` rows and `n` columns, is the
/// activation times the transposed weight, each scaled by its own scales. What the
/// result held before does not matter, and every element of it is written.
pub proof fn law_plan_reads_its_own_buffers(
    m: usize,
    n: usize,
    k: usize,
    mode: ScaleMode,
    act: Buffer,
    act_scale: Buffer,
    w: Buffer,
    w_scale: Buffer,
    memory: Map<Buffer, Seq<int>>,
    before: Seq<int>,
    i: int,
    j: int,
)
    requires
        k <= i64::MAX,
        n <= i64::MAX,
        m * n <= usize::MAX,
        0 <= i < m,
        0 <= j < n,
    ensures
        ({
            let plan = gemm_plan(m, n, k, mode, act, act_scale, w, w_scale);
            &&& plan.d_len == m * n
            &&& plan.d.rows == n && plan.d.cols == m
            &&& plan.d.dtype == DType::BF16
            &&& plan.a.layout.dtype == DType::F8E4M3 && plan.b.layout.dtype == DType::F8E4M3
            &&& plan.a.layout.rows == k && plan.a.layout.cols == n
            &&& plan.b.layout.rows == k && plan.b.layout.cols == m
            &&& plan.scale_mode == mode
            &&& j + i * plan.d.ld == i * n + j
            &&& 0 <= i * n + j < plan.d_len
            &&& result_entry(plan, memory, before, j, i) == scaled_dot(
                mode,
                memory[act],
                memory[act_scale],
                memory[w],
                memory[w_scale],
                n as int,
                k as int,
                i,
                j,
                k as nat,
            )
        }),
{
    let plan = gemm_plan(m, n, k, mode, act, act_scale, w, w_scale);
    law_plan_computes_scaled_product(
        m,
        n,
        k,
        mode,
        (act, act_scale, w, w_scale),
        memory[act],
        memory[act_scale],
        memory[w],
        memory[w_scale],
        i,
        j,
        k as nat,
    );
    assert(0 <= i * n + j < m * n) by (nonlinear_arith)
        requires
            0 <= i < m,
            0 <= j < n,
    ;
    let sum = plan_sum(
        plan,
        memory[w],
        memory[w_scale],
        memory[act],
        memory[act_scale],
        j,
        i,
        k as nat,
    );
    let old_entry = col_major(before, plan.d, j, i);
    assert(1 * sum + 0 * old_entry == sum);
}

/// A multiplication names its operands, whatever the sizes: the weight with its
/// scales, transposed, is the first factor, the activation with its scales the
/// second, and the result is their product alone.
pub proof fn law_plan_names_its_operands(
    m: usize,
    n: usize,
    k: usize,
    mode: ScaleMode,
    act: Buffer,
    act_scale: Buffer,
    w: Buffer,
    w_scale: Buffer,
)
    ensures
        ({
            let plan = gemm_plan(m, n, k, mode, act, act_scale, w, w_scale);
            &&& plan.a.data == w && plan.a.scale == w_scale
            &&& plan.b.data == act && plan.b.scale == act_scale
            &&& plan.a.transpose == Transpose::Yes && plan.b.transpose == Transpose::No
            &&& plan.scale_mode == mode
            &&& plan.alpha == 1 && plan.beta == 0
            &&& plan.a.layout.dtype == DType::F8E4M3 && plan.b.layout.dtype == DType::F8E4M3
            &&& plan.d.dtype == DType::BF16
            &&& plan.a.layout.rows == k && plan.a.layout.cols == n
            &&& plan.b.layout.rows == k && plan.b.layout.cols == m
            &&& plan.d.rows == n && plan.d.cols == m
            &&& k <= i64::MAX ==> plan.a.layout.ld == k && plan.b.layout.ld == k
            &&& n <= i64::MAX ==> plan.d.ld == n
            &&& m * n <= usize::MAX ==> plan.d_len == m * n
        }),
{
}

/// The scale of an element is that of its block: the scales of an activation of `k`
/// columns lie `ceil(k / 128)` to a row of blocks, those of a weight of `n` rows
/// `ceil(n / 128)` to a column of blocks, and a single scale is for all elements.
pub proof fn law_scales_of_the_operands(k: int, n: int, wide: int, high: int, r: int, l: int)
    requires
        (wide - 1) * 128 < k <= wide * 128,
        (high - 1) * 128 < n <= high * 128,
    ensures
        activation_scale(ScaleMode::Blk128x128_32F, k, r, l) == l / 128 + (r / 128) * wide,
        weight_scale(ScaleMode::Blk128x128_32F, n, r, l) == r / 128 + (l / 128) * high,
        activation_scale(ScaleMode::Scalar32F, k, r, l) == 0,
        weight_scale(ScaleMode::Scalar32F, n, r, l) == 0,
{
}

/// The dot product of two scaled rows, term by term: the term at `l` is the product
/// of the two elements at `l`, each times its scale.
pub proof fn law_dot_product_is_a_sum(
    mode: ScaleMode,
    act: Seq<int>,
    act_scales: Seq<int>,
    w: Seq<int>,
    w_scales: Seq<int>,
    n: int,
    k: int,
    i: int,
    j: int,
    l: nat,
)
    ensures
        scaled_dot(mode, act, act_scales, w, w_scales, n, k, i, j, 0) == 0,
        scaled_dot(mode, act, act_scales, w, w_scales, n, k, i, j, l + 1) - scaled_dot(
            mode,
            act,
            act_scales,
            w,
            w_scales,
            n,
            k,
            i,
            j,
            l,
        ) == (act_scales[activation_scale(mode, k, i, l as int)] * act[i * k + l]) * (
        w_scales[weight_scale(mode, n, j, l as int)] * w[j * k + l]),
{
}

/// The scales that a blockwise quantization of an activation makes are in the
/// order in which a blockwise multiplication takes them.
pub proof fn law_quantized_scales_fit(k: int, r: int, l: int)
    requires
        0 <= r,
        0 <= l < k,
    ensures
        activation_scale(ScaleMode::Blk128x128_32F, k, r, l) == scale_index(
            r,
            l,
            BLOCK as int,
            BLOCK as int,
            k,
        ),
{
}

/// Row `i` of one operand times row `j` of the other is row `j` of the other times
/// row `i` of the one.
proof fn lemma_exchanged_sum(
    m: usize,
    n: usize,
    k: usize,
    buffers: (Buffer, Buffer, Buffer, Buffer),
    act: Seq<int>,
    act_scales: Seq<int>,
    w: Seq<int>,
    w_scales: Seq<int>,
    i: int,
    j: int,
    count: nat,
)
    ensures
        ({
            let mode = ScaleMode::Scalar32F;
            let (x, xs, y, ys) = buffers;
            let plan = gemm_plan(m, n, k, mode, x, xs, y, ys);
            let exchanged = gemm_plan(n, m, k, mode, y, ys, x, xs);
            plan_sum(exchanged, act, act_scales, w, w_scales, i, j, count) == plan_sum(
                plan,
                w,
                w_scales,
                act,
                act_scales,
                j,
                i,
                count,
            )
        }),
    decreases count,
{
    if count > 0 {
        let l = count - 1;
        lemma_exchanged_sum(
            m,
            n,
            k,
            buffers,
            act,
            act_scales,
            w,
            w_scales,
            i,
            j,
            l as nat,
        );
        let ld = k as i64;
        let xs = act_scales[0] * act[l + i * ld];
        let ws = w_scales[0] * w[l + j * ld];
        assert(xs * ws == ws * xs) by (nonlinear_arith);
    }
}

/// Exchanging the operands of a multiplication with one scale each transposes the
/// result: there are as many elements, and row `i` and column `j` of the one have
/// the sum of row `j` and column `i` of the other. In the row-major results these
/// are at `i * n + j` and at `j * m + i`, as long as the row lengths fit the strides
/// of the multiplication routine.
pub proof fn law_exchange_transposes(
    m: usize,
    n: usize,
    k: usize,
    buffers: (Buffer, Buffer, Buffer, Buffer),
    act: Seq<int>,
    act_scales: Seq<int>,
    w: Seq<int>,
    w_scales: Seq<int>,
    i: int,
    j: int,
)
    requires
        0 <= i < m,
        0 <= j < n,
    ensures
        ({
            let mode = ScaleMode::Scalar32F;
            let (x, xs, y, ys) = buffers;
            let plan = gemm_plan(m, n, k, mode, x, xs, y, ys);
            let exchanged = gemm_plan(n, m, k, mode, y, ys, x, xs);
            &&& exchanged.d_len == plan.d_len
            &&& n <= i64::MAX ==> j + i * plan.d.ld == i * n + j
            &&& m <= i64::MAX ==> i + j * exchanged.d.ld == j * m + i
            &&& plan_sum(exchanged, act, act_scales, w, w_scales, i, j, k as nat) == plan_sum(
                plan,
                w,
                w_scales,
                act,
                act_scales,
                j,
                i,
                k as nat,
            )
        }),
{
    lemma_exchanged_sum(m, n, k, buffers, act, act_scales, w, w_scales, i, j, k as nat);
    assert(m * n == n * m) by (nonlinear_arith);
}

} // verus!
