//! The laws of the functions themselves: what every call of them gives.

use crate::block::{blocks, law_blocks_are_needed, law_one_scale_per_block, Fp8BlockSize};
use crate::convert::{e4m3_of, narrow_to_bf16, narrow_to_e4m3, narrow_to_f16};
use crate::convert::{single_of_bf16, single_of_e4m3};
use crate::dequant::{dequant_error, dequant_is_defined, fp8_blockwise_dequant};
use crate::dequant::{is_dequant_work, Fp8BlockwiseDequant};
use crate::device::{law_kernel_is_told_the_low_bits, Buffer, DevicePlan, Work};
use crate::error::{DType, Device, Error};
use crate::gemm::{fp8_matmul, fp8_matmul_scalar};
use crate::gemm::{law_plan_reads_its_own_buffers, result_entry, scaled_dot, GemmPlan, ScaleMode};
use crate::layout::{lemma_matrix_offset, lemma_matrix_volume, volume};
use crate::linear::{Action, Fp8Linear, Fp8Product};
use crate::machine::{holds, is_largest, largest, leaves, narrowed, run, Machine};
use crate::passes::{code_numbers, law_fp8_path_multiplies_the_activation};
use crate::passes::{law_path_goes_by_type_and_device, memory_numbers};
use crate::programs::{bf16_bits, code_bits, dequantized_bits, has_activation_buffers};
use crate::programs::{host_bits, lemma_ceiling, scalar_codes, storage_bits};
use crate::programs::law_host_finds_weight_and_scale;
use crate::programs::law_packed_dequant_program_scales_by_blocks;
use crate::programs::law_blockwise_program_agrees_with_the_host;
use crate::programs::law_dequant_program_agrees_with_the_host;
use crate::programs::{law_host_dequantizes_by_blocks, law_host_quantizes_the_elements};
use crate::programs::law_scalar_program_quantizes_every_element;
use crate::quantize::{are_block_codes, are_block_scales, fp8_dynamic_quantize};
use crate::quantize::{fp8_dynamic_quantize_cpu, fp8_dynamic_quantize_cuda, fp8_scalar_quantize};
use crate::quantize::is_scalar_plan;
use crate::quantize::{is_largest_around, law_block_has_scale_and_codes, matrix_rows, scale_for};
use crate::single::{clamp, divide, multiply};
use crate::single::{clamped, is_negative, magnitude, product, quotient, size};
use crate::tensor::{law_copy_goes_row_by_row, law_transpose_exchanges, same_number};
use crate::tensor::{Storage, Tensor};
use crate::values::{is_as_near, law_clamping_moves_to_the_limit, law_narrowing_is_to_nearest};
use crate::values::{law_product_is_nearest, law_quotient_is_nearest};
use vstd::arithmetic::power2::pow2;
use vstd::prelude::*;

verus! {

/// A blockwise multiplication is refused where the rows of the activation or the
/// inner length are no multiple of 128, and only there. Otherwise its result, from
/// the buffers that it was called with, is the activation under its scales times the
/// transposed weight under the weight's scales, one scale for each block of 128 by
/// 128.
pub proof fn law_fp8_matmul_multiplies_scaled_blocks(
    act: Buffer,
    w: Buffer,
    w_scale: Buffer,
    act_scale: Buffer,
    m: usize,
    n: usize,
    k: usize,
    r: Result<GemmPlan, Error>,
    memory: Map<Buffer, Seq<int>>,
    before: Seq<int>,
    i: int,
    j: int,
)
    requires
        call_ensures(fp8_matmul, (act, w, w_scale, act_scale, m, n, k), r),
        m * n <= usize::MAX,
        k <= i64::MAX,
        n <= i64::MAX,
        0 <= i < m,
        0 <= j < n,
    ensures
        m % 128 != 0 ==> r == Err::<GemmPlan, Error>(Error::RowsNotAligned(m)),
        m % 128 == 0 && k % 128 != 0 ==> r == Err::<GemmPlan, Error>(
            Error::InnerNotAligned(k),
        ),
        m % 128 == 0 && k % 128 == 0 ==> r is Ok,
        r matches Ok(plan) ==> {
            &&& plan.d_len == m * n
            &&& plan.d.dtype == DType::BF16
            &&& j + i * plan.d.ld == i * n + j
            &&& result_entry(plan, memory, before, j, i) == scaled_dot(
                ScaleMode::Blk128x128_32F,
                memory[act],
                memory[act_scale],
                memory[w],
                memory[w_scale],
                n as int,
                k as int,
                i,
                j,
                k as nat,
            )
        },
{
    let mode = ScaleMode::Blk128x128_32F;
    law_plan_reads_its_own_buffers(
        m,
        n,
        k,
        mode,
        act,
        act_scale,
        w,
        w_scale,
        memory,
        before,
        i,
        j,
    );
}

/// A multiplication with one scale for each operand gives, from the buffers that it
/// was called with, the activation under its scale times the transposed weight under
/// the weight's scale.
pub proof fn law_fp8_matmul_scalar_multiplies_under_two_scales(
    act: Buffer,
    w: Buffer,
    w_scale: Buffer,
    act_scale: Buffer,
    m: usize,
    n: usize,
    k: usize,
    plan: GemmPlan,
    memory: Map<Buffer, Seq<int>>,
    before: Seq<int>,
    i: int,
    j: int,
)
    requires
        call_ensures(fp8_matmul_scalar, (act, w, w_scale, act_scale, m, n, k), plan),
        m * n <= usize::MAX,
        k <= i64::MAX,
        n <= i64::MAX,
        0 <= i < m,
        0 <= j < n,
    ensures
        plan.d_len == m * n,
        plan.d.dtype == DType::BF16,
        j + i * plan.d.ld == i * n + j,
        result_entry(plan, memory, before, j, i) == scaled_dot(
            ScaleMode::Scalar32F,
            memory[act],
            memory[act_scale],
            memory[w],
            memory[w_scale],
            n as int,
            k as int,
            i,
            j,
            k as nat,
        ),
{
    law_plan_reads_its_own_buffers(
        m,
        n,
        k,
        ScaleMode::Scalar32F,
        act,
        act_scale,
        w,
        w_scale,
        memory,
        before,
        i,
        j,
    );
}

/// A call of [`fp8_scalar_quantize`] for a BF16 tensor on a CUDA device gives a program
/// that leaves there the code of every element under the one scale of the tensor, and
/// that scale.
pub proof fn law_fp8_scalar_quantize_quantizes_every_element(
    input: Tensor,
    data: Seq<u16>,
    r: Result<DevicePlan, Error>,
    start: Machine,
)
    requires
        call_ensures(fp8_scalar_quantize, (&input,), r),
        input.wf(),
        input.storage.element_type() == DType::BF16,
        input.storage.place() is Cuda,
        0 < input.numel() <= 0xffff_ff00,
        holds(start.memory, Buffer::Input, input, bf16_bits(data)),
    ensures
        is_largest(data, largest(data)),
        r is Ok,
        r->Ok_0.device == input.storage.place(),
        r->Ok_0.outputs@[0].dims@ == input.dims@,
        r->Ok_0.outputs@[1].dims@ == seq![1usize],
        run(start, r->Ok_0.ops@) matches Some(end) && {
            let scale = scale_for(largest(data));
            &&& leaves(
                end.memory,
                r->Ok_0.outputs@[0].buffer,
                DType::F8E4M3,
                code_bits(scalar_codes(data, scale)),
            )
            &&& leaves(end.memory, r->Ok_0.outputs@[1].buffer, DType::F32, seq![scale])
        },
{
    law_kernel_is_told_the_low_bits(input.numel() as usize);
    law_scalar_program_quantizes_every_element(input, data, r->Ok_0, start);
}

/// A call of [`fp8_dynamic_quantize_cuda`] gives a program that leaves on the device the
/// codes and scales that a call of [`fp8_dynamic_quantize_cpu`] gives for the same
/// elements.
pub proof fn law_device_and_host_quantize_alike(
    input: Tensor,
    data: Vec<u16>,
    rows: usize,
    cols: usize,
    far: Result<DevicePlan, Error>,
    near: (Vec<u8>, Vec<u32>),
    start: Machine,
)
    requires
        call_ensures(fp8_dynamic_quantize_cuda, (&input, rows, cols), far),
        call_ensures(fp8_dynamic_quantize_cpu, (&data, rows, cols), near),
        input.wf(),
        input.storage.element_type() == DType::BF16,
        input.storage.place() is Cuda,
        rows * cols == input.numel(),
        0 < rows <= u32::MAX - 127,
        0 < cols <= u32::MAX - 127,
        blocks(cols as int, 128) * blocks(rows as int, 128) <= u32::MAX,
        holds(start.memory, Buffer::Input, input, bf16_bits(data@)),
    ensures
        far is Ok,
        far->Ok_0.device == input.storage.place(),
        far->Ok_0.outputs@[0].dims@ == seq![rows, cols],
        far->Ok_0.outputs@[1].dims@ == seq![near.1@.len() as usize],
        run(start, far->Ok_0.ops@) matches Some(end) && {
            &&& leaves(
                end.memory,
                far->Ok_0.outputs@[0].buffer,
                DType::F8E4M3,
                code_bits(near.0@),
            )
            &&& leaves(end.memory, far->Ok_0.outputs@[1].buffer, DType::F32, near.1@)
        },
{
    law_blockwise_program_agrees_with_the_host(
        input,
        data@,
        rows,
        cols,
        far->Ok_0,
        start,
        near.0@,
        near.1@,
    );
}

/// A call of [`fp8_dynamic_quantize_cpu`] gives every block the scale of its largest
/// absolute value, and every element its code under that scale, as
/// [`law_block_has_scale_and_codes`] says.
pub proof fn law_fp8_dynamic_quantize_cpu_goes_by_blocks(
    data: Vec<u16>,
    rows: usize,
    cols: usize,
    out: (Vec<u8>, Vec<u32>),
    high: int,
    wide: int,
    a: u32,
    r: int,
    c: int,
)
    requires
        call_ensures(fp8_dynamic_quantize_cpu, (&data, rows, cols), out),
        data@.len() == rows * cols,
        (high - 1) * 128 < rows <= high * 128,
        (wide - 1) * 128 < cols <= wide * 128,
        0 <= r < rows,
        0 <= c < cols,
        is_largest_around(data@, rows as int, cols as int, r, c, a),
    ensures
        out.0@.len() == rows * cols,
        out.1@.len() == high * wide,
        ({
            let scale = out.1@[(r / 128) * wide + c / 128];
            &&& a > 0 ==> scale == quotient(a, 0x43e0_0000)
            &&& a == 0 ==> scale == 0x3f80_0000
            &&& out.0@[r * cols + c] == e4m3_of(
                clamped(
                    product(
                        single_of_bf16(data@[r * cols + c]),
                        quotient(0x3f80_0000, scale),
                    ),
                    0x43e0_0000,
                ),
            )
        }),
{
    law_block_has_scale_and_codes(
        data@,
        rows as int,
        cols as int,
        out.1@,
        out.0@,
        high,
        wide,
        a,
        r,
        c,
    );
}

/// A call of [`fp8_dynamic_quantize`] is accepted for every BF16 tensor of two or more
/// dimensions on the host or on a CUDA device. On the host it gives the codes and
/// scales of its elements; on a device the program that leaves them there, as a
/// matrix of the last dimension in both places.
pub proof fn law_fp8_dynamic_quantize_is_by_blocks_in_both_places(
    near: Tensor,
    far: Tensor,
    here: Result<Work<(Tensor, Tensor)>, Error>,
    there: Result<Work<(Tensor, Tensor)>, Error>,
    start: Machine,
)
    requires
        call_ensures(fp8_dynamic_quantize, (&near,), here),
        call_ensures(fp8_dynamic_quantize, (&far,), there),
        near.wf(),
        far.wf(),
        near.dims@ == far.dims@,
        near.dims@.len() >= 2,
        near.storage.element_type() == DType::BF16,
        far.storage.element_type() == DType::BF16,
        near.storage.place() == Device::Cpu,
        far.storage.place() is Cuda,
        near.numel() > 0,
        matrix_rows(near.dims@) <= u32::MAX - 127,
        near.dims@.last() <= u32::MAX - 127,
        blocks(near.dims@.last() as int, 128) * blocks(matrix_rows(near.dims@) as int, 128)
            <= u32::MAX,
        holds(start.memory, Buffer::Input, far, bf16_bits(near.bf16_elements())),
    ensures
        here is Ok && here->Ok_0 is Done,
        there is Ok && there->Ok_0 is Launch,
        ({
            let (quant, scales) = here->Ok_0->Done_0;
            let plan = there->Ok_0->Launch_0;
            let (rows, cols) = (matrix_rows(near.dims@) as int, near.dims@.last() as int);
            &&& are_block_scales(near.bf16_elements(), rows, cols, scales.single_elements())
            &&& are_block_codes(
                near.bf16_elements(),
                cols,
                scales.single_elements(),
                quant.e4m3_elements(),
            )
            &&& quant.dims@ == seq![rows as usize, cols as usize]
            &&& plan.device == far.storage.place()
            &&& plan.outputs@[0].dims@ == quant.dims@
            &&& plan.outputs@[1].dims@ == scales.dims@
            &&& run(start, plan.ops@) matches Some(end) && {
                &&& leaves(
                    end.memory,
                    plan.outputs@[0].buffer,
                    DType::F8E4M3,
                    code_bits(quant.e4m3_elements()),
                )
                &&& leaves(
                    end.memory,
                    plan.outputs@[1].buffer,
                    DType::F32,
                    scales.single_elements(),
                )
            }
        }),
{
    let dims = near.dims@;
    let rank = dims.len() as int;
    assert(dims.take(rank - 1) == dims.drop_last());
    assert(volume(dims.take(rank - 1)) <= usize::MAX);
    let (rows, cols) = (matrix_rows(dims) as int, dims.last() as int);
    assert(rows > 0 && cols > 0) by (nonlinear_arith)
        requires
            rows * cols > 0,
            rows >= 0,
            cols >= 0,
    ;
    let (high, wide) = (blocks(rows, 128), blocks(cols, 128));
    law_blocks_are_needed(rows, 128);
    law_blocks_are_needed(cols, 128);
    assert(high > 0 && wide > 0);
    let (quant, scales) = here->Ok_0->Done_0;
    law_host_quantizes_the_elements(near, quant, scales, high, wide);
    assert(high * wide == wide * high) by (nonlinear_arith);
    assert(quant.dims@ =~= seq![rows as usize, cols as usize]);
    law_blockwise_program_agrees_with_the_host(
        far,
        near.bf16_elements(),
        rows as usize,
        cols as usize,
        there->Ok_0->Launch_0,
        start,
        quant.e4m3_elements(),
        scales.single_elements(),
    );
    assert(scales.dims@ =~= seq![(high * wide) as usize]);
}

/// A call of [`fp8_blockwise_dequant`] is accepted for FP8 matrices and F32 scales in
/// one place, to BF16, F16 and F32. On the host it gives every weight times the scale
/// in row `r / block_r` and column `c / block_c`, rounded to the type; on a CUDA
/// device the program that leaves the same bits there.
pub proof fn law_fp8_blockwise_dequant_scales_by_blocks_in_both_places(
    near: (Tensor, Tensor),
    far: (Tensor, Tensor),
    size: Fp8BlockSize,
    target: DType,
    here: Result<Work<Tensor>, Error>,
    there: Result<Work<Tensor>, Error>,
    start: Machine,
    r: int,
    c: int,
)
    requires
        call_ensures(fp8_blockwise_dequant, (&near.0, &near.1, &size, target), here),
        call_ensures(fp8_blockwise_dequant, (&far.0, &far.1, &size, target), there),
        near.0.wf(),
        near.1.wf(),
        near.0.storage is F8E4M3,
        near.1.storage is F32,
        far.0.storage.element_type() == DType::F8E4M3,
        far.1.storage.element_type() == DType::F32,
        far.0.storage.place() is Cuda,
        far.1.storage.place() == far.0.storage.place(),
        near.0.dims@.len() == 2,
        far.0.dims@ == near.0.dims@,
        target == DType::BF16 || target == DType::F16 || target == DType::F32,
        near.0.numel() <= 0xffff_ff00,
        0 < size.block_r <= u32::MAX,
        0 < size.block_c <= u32::MAX,
        near.1.dims@.len() == 2,
        (near.1.dims@[0] - 1) * size.block_r < near.0.dims@[0] <= near.1.dims@[0]
            * size.block_r,
        (near.1.dims@[1] - 1) * size.block_c < near.0.dims@[1] <= near.1.dims@[1]
            * size.block_c,
        near.0.dims@[1] + size.block_c - 1 <= usize::MAX,
        holds(start.memory, Buffer::Weight, far.0, code_bits(near.0.e4m3_elements())),
        holds(start.memory, Buffer::ScaleInv, far.1, near.1.single_elements()),
        0 <= r < near.0.dims@[0],
        0 <= c < near.0.dims@[1],
    ensures
        here is Ok && here->Ok_0 is Done,
        there is Ok && there->Ok_0 is Launch,
        ({
            let (w, s) = near;
            let out = here->Ok_0->Done_0;
            let plan = there->Ok_0->Launch_0;
            let (rb, cb) = (r / size.block_r as int, c / size.block_c as int);
            let w_at = w.start_offset + r * w.strides@[0] + c * w.strides@[1];
            let s_at = s.start_offset + rb * s.strides@[0] + cb * s.strides@[1];
            &&& out.dims@ == w.dims@
            &&& out.storage.element_type() == target
            &&& host_bits(out)[r * w.dims@[1] + c] == narrowed(
                target,
                product(single_of_e4m3(w.storage->F8E4M3_0@[w_at]), s.storage->F32_0@[s_at]),
            )
            &&& plan.device == far.0.storage.place()
            &&& plan.outputs@[0].dims@ == w.dims@
            &&& run(start, plan.ops@) matches Some(end) && leaves(
                end.memory,
                plan.outputs@[0].buffer,
                target,
                host_bits(out),
            )
        }),
{
    let (rows, cols) = (near.0.dims@[0] as int, near.0.dims@[1] as int);
    lemma_matrix_volume(near.0.dims@);
    lemma_matrix_volume(near.1.dims@);
    assert(rows * cols > 0) by (nonlinear_arith)
        requires
            rows > 0,
            cols > 0,
    ;
    law_kernel_is_told_the_low_bits(near.0.numel() as usize);
    let (high, wide) = (near.1.dims@[0] as int, near.1.dims@[1] as int);
    let (br, bc) = (size.block_r as int, size.block_c as int);
    lemma_ceiling(rows, br, high);
    lemma_ceiling(cols, bc, wide);
    law_one_scale_per_block(rows, cols, br, bc, rows - 1, cols - 1, 0, 0);
    assert(dequant_is_defined(near.0, near.1, size, target));
    law_host_dequantizes_by_blocks(near.0, near.1, size, target, here->Ok_0->Done_0, r, c);
    law_dequant_program_agrees_with_the_host(
        near,
        far,
        size,
        target,
        here->Ok_0->Done_0,
        there->Ok_0->Launch_0,
        start,
    );
}

/// A call of [`multiply`] or [`divide`] with finite operands gives the sign of the exact
/// result and the float nearest to it, the divisor not being zero; `other` is any
/// float.
pub proof fn law_arithmetic_is_to_nearest(a: u32, b: u32, r: u32, q: u32, other: nat)
    requires
        call_ensures(multiply, (a, b), r),
        call_ensures(divide, (a, b), q),
        magnitude(a) < 0x7f80_0000,
        magnitude(b) < 0x7f80_0000,
        other <= 0x7f80_0000,
    ensures
        is_negative(r) == (is_negative(a) != is_negative(b)),
        is_as_near(0x80_0000, magnitude(r), other, size(a) * size(b), pow2(149)),
        magnitude(b) > 0 ==> {
            &&& is_negative(q) == (is_negative(a) != is_negative(b))
            &&& is_as_near(0x80_0000, magnitude(q), other, size(a) * pow2(149), size(b))
        },
{
    law_product_is_nearest(a, b, other);
    if magnitude(b) > 0 {
        law_quotient_is_nearest(a, b, other);
    }
}

/// A call of a conversion from single precision gives, for a finite float, the sign of
/// it and the float of the format nearest to it; `other` is any float of the format.
pub proof fn law_conversions_are_to_nearest(
    x: u32,
    b: u16,
    h: u16,
    q: u8,
    held: u32,
    limit: u32,
    other: nat,
)
    requires
        call_ensures(narrow_to_bf16, (x,), b),
        call_ensures(narrow_to_f16, (x,), h),
        call_ensures(narrow_to_e4m3, (x,), q),
        call_ensures(clamp, (x, limit), held),
        magnitude(x) < 0x7f80_0000,
        limit <= 0x7f80_0000,
    ensures
        (b >= 0x8000) == is_negative(x),
        other <= 0x7f80 ==> is_as_near(
            0x80,
            (b % 0x8000) as nat,
            other,
            size(x),
            pow2(16),
        ),
        (h >= 0x8000) == is_negative(x),
        other <= 0x7c00 ==> is_as_near(
            0x400,
            (h % 0x8000) as nat,
            other,
            size(x),
            pow2(125),
        ),
        (q >= 0x80) == is_negative(x),
        other <= 0x7e ==> is_as_near(8, (q % 0x80) as nat, other, size(x), pow2(140)),
        is_negative(held) == is_negative(x),
        magnitude(held) == (if magnitude(x) > limit {
            limit as nat
        } else {
            magnitude(x)
        }),
{
    law_narrowing_is_to_nearest(x, other);
    law_clamping_moves_to_the_limit(x, limit);
}

/// A call of [`Fp8Linear::forward`] chooses the path by the type and the device of the
/// activation, as [`law_path_goes_by_type_and_device`] says.
pub proof fn law_forward_chooses_by_type_and_device(
    layer: Fp8Linear,
    x: Tensor,
    action: Action,
)
    requires
        call_ensures(Fp8Linear::forward, (&layer, &x), action),
        layer.wf(),
    ensures
        ({
            let fp8 = x.storage.element_type() == DType::BF16 && x.storage.place() is Cuda;
            let w = layer.weight;
            let ready = dequant_error(w, layer.scale_inv, DType::BF16) is None
                && w.storage.place() is Cuda;
            let fits = w.dims@.len() == 2 && w.dims@[1] == x.dims@.last();
            let other = action is Dequantize || action is Multiply || action is Finish
                && action->Finish_0 is Err;
            &&& !fp8 ==> other
            &&& fp8 && layer.scalar is None && ready ==> action is DequantizeForFp8
            &&& fp8 && layer.scalar is None && !ready ==> other
            &&& fp8 && layer.scalar is Some && !fits ==> other
            &&& fp8 && layer.scalar is Some && fits ==> action is QuantizeActivation
                || action is PrepareBuffers
            &&& action is QuantizeActivation ==> layer.act_numel == Some(x.numel() as usize)
            &&& action is PrepareBuffers ==> layer.act_numel != Some(x.numel() as usize)
        }),
{
    law_path_goes_by_type_and_device(layer, x, action);
}

/// After the product: without a bias it is the result, with one it is added to that
/// product, and the sum is the result, on both paths. A failure of the FP8 path goes
/// over to the other path; one of the other path is the result.
pub proof fn law_bias_is_added_to_the_product(
    layer: Fp8Linear,
    reply: Result<Tensor, Error>,
    fp8: Action,
    fp8_sum: Action,
    other: Action,
    other_sum: Action,
)
    requires
        call_ensures(Fp8Linear::fp8_product_made, (&layer, reply), fp8),
        call_ensures(Fp8Linear::fp8_bias_added, (&layer, reply), fp8_sum),
        call_ensures(Fp8Linear::product_made, (&layer, reply), other),
        call_ensures(Fp8Linear::bias_added, (&layer, reply), other_sum),
    ensures
        reply matches Ok(out) ==> {
            &&& layer.bias is None ==> fp8 == Action::Finish(reply) && other == Action::Finish(
                reply,
            )
            &&& layer.bias is Some ==> fp8 == Action::AddFp8Bias(out) && other
                == Action::AddBias(out)
            &&& fp8_sum == Action::Finish(reply)
        },
        reply is Err ==> layer.falls_back(fp8) && layer.falls_back(fp8_sum),
        reply matches Err(e) ==> other == Action::Finish(Err(e)),
        other_sum == Action::Finish(reply),
{
}

/// The calls of the FP8 path from the activation to the product: with a scalar-scaled
/// weight of the width of a BF16 activation on a CUDA device,
/// [`Fp8Linear::fp8_scalar_forward`] and [`Fp8Linear::fp8_scalar_multiply`] are accepted,
/// and give a program and a multiplication whose result is the activation, divided by
/// the scale of its largest absolute value and rounded to FP8, times the transposed
/// scalar-scaled weight, under both scales.
pub proof fn law_fp8_calls_multiply_the_activation(
    layer: Fp8Linear,
    x: Tensor,
    data: Seq<u16>,
    first: Result<Action, Error>,
    second: Result<Fp8Product, Error>,
    start: Machine,
    w_codes: Seq<u8>,
    w_scale: u32,
    before: Seq<int>,
    i: int,
    j: int,
)
    requires
        call_ensures(Fp8Linear::fp8_scalar_forward, (&layer, &x), first),
        call_ensures(Fp8Linear::fp8_scalar_multiply, (&layer, &x), second),
        layer.wf(),
        layer.scalar is Some,
        layer.scalar->Some_0.0.storage.place() is Cuda,
        layer.scalar->Some_0.0.storage.element_type() == DType::F8E4M3,
        layer.scalar->Some_0.1.storage.place() is Cuda,
        layer.scalar->Some_0.1.storage.element_type() == DType::F32,
        layer.weight.dims@.len() == 2,
        layer.act_numel == Some(x.numel() as usize),
        x.wf(),
        x.storage.element_type() == DType::BF16,
        x.storage.place() is Cuda,
        x.dims@.len() >= 1,
        x.dims@.last() == layer.weight.dims@[1],
        0 < x.numel() <= 0xffff_ff00,
        layer.weight.dims@[0] <= i64::MAX,
        matrix_rows(x.dims@) * layer.weight.dims@[0] <= usize::MAX,
        holds(start.memory, Buffer::Input, x, bf16_bits(data)),
        has_activation_buffers(start.memory, x.numel() as int),
        leaves(start.memory, Buffer::ScalarWeight, DType::F8E4M3, code_bits(w_codes)),
        leaves(start.memory, Buffer::ScalarScale, DType::F32, seq![w_scale]),
        x.dims@.last() <= i64::MAX,
        0 <= i < matrix_rows(x.dims@),
        0 <= j < layer.weight.dims@[0],
    ensures
        first is Ok && first->Ok_0 is QuantizeActivation,
        second is Ok,
        second->Ok_0.device == x.storage.place(),
        second->Ok_0.dims@ == x.dims@.update(x.dims@.len() - 1, layer.weight.dims@[0]),
        run(start, first->Ok_0->QuantizeActivation_0@) matches Some(end) && {
            let scale = scale_for(largest(data));
            let (n, k) = (layer.weight.dims@[0], x.dims@.last());
            result_entry(second->Ok_0.gemm, memory_numbers(end.memory), before, j, i)
                == scaled_dot(
                ScaleMode::Scalar32F,
                code_numbers(scalar_codes(data, scale)),
                seq![size(scale) as int],
                code_numbers(w_codes),
                seq![size(w_scale) as int],
                n as int,
                k as int,
                i,
                j,
                k as nat,
            )
        },
{
    law_kernel_is_told_the_low_bits(x.numel() as usize);
    let multiplication = Action::MultiplyFp8(second->Ok_0);
    assert(layer.multiplies(x, multiplication));
    law_fp8_path_multiplies_the_activation(
        layer,
        x,
        data,
        first->Ok_0,
        multiplication,
        start,
        w_codes,
        w_scale,
        before,
        i,
        j,
    );
    let n = layer.weight.dims@[0];
    assert(second->Ok_0.dims@ =~= x.dims@.update(x.dims@.len() - 1, n));
}

/// What a layer does with the replies of the FP8 path. The weight that was dequantized
/// for it is quantized as it is; a quantized activation is multiplied, unless the
/// scalar-scaled weight is refused; and after any failure the other path begins.
pub proof fn law_replies_lead_on_or_to_the_other_path(
    layer: Fp8Linear,
    x: Tensor,
    weight: Result<Tensor, Error>,
    after_weight: Action,
    activation: Result<(), Error>,
    after_activation: Action,
)
    requires
        call_ensures(Fp8Linear::weight_for_fp8, (&layer, &x, weight), after_weight),
        call_ensures(
            Fp8Linear::activation_quantized,
            (&layer, &x, activation),
            after_activation,
        ),
        layer.scalar is Some,
    ensures
        weight matches Ok(w) ==> {
            &&& after_weight matches Action::QuantizeWeight { weight, plan } && weight == w
                && is_scalar_plan(w, plan)
        },
        weight is Err ==> layer.falls_back(after_weight),
        activation is Err ==> layer.falls_back(after_activation),
        ({
            let (w, s) = layer.scalar->Some_0;
            let usable = w.storage.place() is Cuda && w.storage.element_type() == DType::F8E4M3
                && s.storage.place() is Cuda && s.storage.element_type() == DType::F32;
            activation is Ok ==> if usable {
                layer.multiplies(x, after_activation)
            } else {
                layer.falls_back(after_activation)
            }
        }),
{
}

/// A call of [`Tensor::t`] exchanges rows and columns of every matrix, and of nothing
/// else; a call of [`Tensor::contiguous`] on the host copies every element of a matrix
/// row by row.
pub proof fn law_matrices_are_read_by_rows_and_columns(
    t: Tensor,
    exchanged: Result<Tensor, Error>,
    copy: Storage,
    r: int,
    c: int,
)
    requires
        call_ensures(Tensor::t, (t,), exchanged),
        call_ensures(Tensor::contiguous, (&t,), copy),
        t.wf(),
        t.storage.place() == Device::Cpu,
        t.dims@.len() == 2,
        0 <= r < t.dims@[0],
        0 <= c < t.dims@[1],
    ensures
        exchanged is Ok,
        exchanged->Ok_0.dims@ == seq![t.dims@[1], t.dims@[0]],
        exchanged->Ok_0.storage == t.storage,
        exchanged->Ok_0.position(c * t.dims@[0] + r) == t.start_offset + r * t.strides@[0] + c
            * t.strides@[1],
        copy.count() == t.dims@[0] * t.dims@[1],
        same_number(
            copy,
            r * t.dims@[1] + c,
            t.storage,
            t.start_offset + r * t.strides@[0] + c * t.strides@[1],
        ),
{
    lemma_matrix_offset(t.dims@, t.strides@, r, c);
    law_transpose_exchanges(t, exchanged->Ok_0, r, c);
    law_copy_goes_row_by_row(t, copy, r, c);
}

/// A call of [`Fp8BlockwiseDequant::cpu_fwd`] gives, for FP8 weights and F32 scales that
/// start anywhere in their storages, every weight times the scale of its block, rounded
/// to the target type.
pub proof fn law_cpu_fwd_scales_by_blocks(
    op: Fp8BlockwiseDequant,
    s1: Storage,
    w_offset: usize,
    s2: Storage,
    s_offset: usize,
    result: Result<(Storage, Vec<usize>), Error>,
    wide: int,
    r: int,
    c: int,
)
    requires
        call_ensures(
            Fp8BlockwiseDequant::cpu_fwd,
            (&op, &s1, w_offset, &s2, s_offset),
            result,
        ),
        s1 is F8E4M3,
        s2 is F32,
        op.target_dtype == DType::BF16 || op.target_dtype == DType::F16 || op.target_dtype
            == DType::F32,
        op.block_r > 0,
        op.block_c > 0,
        (wide - 1) * op.block_c < op.cols <= wide * op.block_c,
        0 <= r < op.rows,
        0 <= c < op.cols,
    ensures
        result is Ok,
        result->Ok_0.1@ == seq![op.rows, op.cols],
        result->Ok_0.0.element_type() == op.target_dtype,
        storage_bits(result->Ok_0.0).len() == op.rows * op.cols,
        storage_bits(result->Ok_0.0)[r * op.cols + c] == narrowed(
            op.target_dtype,
            product(
                single_of_e4m3(s1->F8E4M3_0@[w_offset + (r * op.cols + c)]),
                s2->F32_0@[s_offset + ((r / op.block_r as int) * wide + c / op.block_c as int)],
            ),
        ),
{
    law_host_finds_weight_and_scale(
        op,
        s1->F8E4M3_0@,
        w_offset as int,
        s2->F32_0@,
        s_offset as int,
        result->Ok_0.0,
        wide,
        r,
        c,
    );
}

/// A call of [`Fp8BlockwiseDequant::cuda_fwd`] gives, for FP8 weights and F32 scales, a
/// program that leaves on the device of the weights every weight times the scale of
/// its block, rounded to the target type.
pub proof fn law_cuda_fwd_scales_by_blocks(
    op: Fp8BlockwiseDequant,
    s1: Storage,
    s2: Storage,
    result: Result<DevicePlan, Error>,
    w: Seq<u8>,
    scales: Seq<u32>,
    wide: int,
    start: Machine,
)
    requires
        call_ensures(Fp8BlockwiseDequant::cuda_fwd, (&op, &s1, &s2), result),
        s1.element_type() == DType::F8E4M3,
        s2.element_type() == DType::F32,
        op.target_dtype == DType::BF16 || op.target_dtype == DType::F16 || op.target_dtype
            == DType::F32,
        0 < op.numel() <= 0xffff_ff00,
        0 < op.block_r <= u32::MAX,
        0 < op.block_c <= u32::MAX,
        w.len() == op.numel(),
        (wide - 1) * op.block_c < op.cols <= wide * op.block_c,
        scales.len() > ((op.rows - 1) / op.block_r as int) * wide + (op.cols - 1)
            / op.block_c as int,
        leaves(start.memory, Buffer::Weight, DType::F8E4M3, code_bits(w)),
        leaves(start.memory, Buffer::ScaleInv, DType::F32, scales),
    ensures
        result is Ok,
        result->Ok_0.device == s1.place(),
        result->Ok_0.outputs@[0].dims@ == seq![op.rows, op.cols],
        result->Ok_0.outputs@[0].dtype == op.target_dtype,
        run(start, result->Ok_0.ops@) matches Some(end) && leaves(
            end.memory,
            result->Ok_0.outputs@[0].buffer,
            op.target_dtype,
            dequantized_bits(
                w,
                scales,
                op.cols as int,
                op.block_r as int,
                op.block_c as int,
                wide,
                op.target_dtype,
            ),
        ),
{
    law_kernel_is_told_the_low_bits(op.numel() as usize);
    lemma_ceiling(op.cols as int, op.block_c as int, wide);
    law_packed_dequant_program_scales_by_blocks(op, w, scales, wide, result->Ok_0, start);
}

/// A call of [`Fp8Linear::ensure_scalar_weight`] finds the scalar-scaled weight where
/// there is one, and otherwise gives the program that dequantizes the weight to BF16,
/// from weights on a CUDA device and from no others.
pub proof fn law_scalar_weight_is_found_or_made(
    layer: Fp8Linear,
    r: Result<Work<()>, Error>,
)
    requires
        call_ensures(Fp8Linear::ensure_scalar_weight, (&layer,), r),
    ensures
        r is Ok && r->Ok_0 is Done <==> layer.scalar is Some,
        r is Ok && r->Ok_0 is Launch <==> layer.scalar is None && dequant_error(
            layer.weight,
            layer.scale_inv,
            DType::BF16,
        ) is None && layer.weight.storage.place() is Cuda,
        r is Ok && r->Ok_0 is Launch ==> is_dequant_work(
            layer.weight,
            layer.scale_inv,
            layer.block_size,
            DType::BF16,
            Work::Launch(r->Ok_0->Launch_0),
        ),
        r matches Err(e) ==> match dequant_error(layer.weight, layer.scale_inv, DType::BF16) {
            Some(refused) => e == refused,
            None => e == Error::ExpectedCuda(layer.weight.storage.place()),
        },
{
}

} // verus!
