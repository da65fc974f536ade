//! What the programs of this library leave on a device: for every one of them, the
//! numbers that it is for.

use crate::block::{blocks, law_blocks_are_needed, law_blocks_partition};
use crate::block::{scale_index, Fp8BlockSize};
use crate::convert::single_of_e4m3;
use crate::dequant::{dequant_error, dequant_is_defined, dequant_kernel, dequant_of};
use crate::dequant::{is_dequant_work, is_target, Fp8BlockwiseDequant};
use crate::device::{elementwise_config, kernel_count, launch_fits};
use crate::device::{reduction_config, single_thread_config};
use crate::device::law_kernel_is_told_the_low_bits;
use crate::device::{Buffer, Call, DeviceOp, DevicePlan, LaunchConfig, Work};
use crate::error::{DType, Device};
use crate::layout::{lemma_matrix_offset, lemma_matrix_volume, lemma_vector_volume, volume};
use crate::machine::{brain_floats, cell, holds, narrowed};
use crate::machine::{is_largest, largest, leaves, lemma_largest};
use crate::machine::{lemma_flat_launch, lemma_packed, readable, run, run_from};
use crate::machine::{starts, step, threads, writable};
use crate::linear::{Action, Fp8Linear};
use crate::machine::{block_threads, Machine, Region};
use crate::quantize::{absmax, are_block_codes, are_block_scales, is_dynamic_plan};
use crate::quantize::{is_dynamic_work, matrix_rows};
use crate::quantize::{is_scalar_plan, lemma_index_in_range, lemma_row_and_column};
use crate::quantize::{quantized, scale_for};
use crate::single::product;
use crate::tensor::{lemma_compact_position, Storage, Tensor};
use vstd::arithmetic::div_mod::lemma_fundamental_div_mod_converse;
use vstd::prelude::*;

verus! {

/// The bits of brain floats.
pub open spec fn bf16_bits(data: Seq<u16>) -> Seq<u32> {
    Seq::new(data.len(), |i: int| data[i] as u32)
}

/// The bits of FP8 codes.
pub open spec fn code_bits(codes: Seq<u8>) -> Seq<u32> {
    Seq::new(codes.len(), |i: int| codes[i] as u32)
}

/// The codes of some brain floats divided by one scale.
pub open spec fn scalar_codes(data: Seq<u16>, scale: u32) -> Seq<u8> {
    Seq::new(data.len(), |i: int| quantized(data[i], scale))
}

/// The launches of the programs for `numel` elements start, and an elementwise one
/// has a thread for each of them.
proof fn lemma_launches_start(numel: usize)
    requires
        0 < numel <= u32::MAX,
        launch_fits(numel),
    ensures
        kernel_count(numel) == numel,
        starts(elementwise_config(numel)),
        threads(elementwise_config(numel)) >= numel,
        starts(reduction_config(numel)),
        starts(single_thread_config()),
        threads(single_thread_config()) == 1,
{
    assert(kernel_count(numel) == numel);
    lemma_flat_launch(elementwise_config(numel));
    lemma_flat_launch(reduction_config(numel));
    lemma_flat_launch(single_thread_config());
}

/// A buffer that leaves the bits of brain floats gives these floats back.
proof fn lemma_brain_floats(memory: Map<Buffer, Region>, b: Buffer, data: Seq<u16>)
    requires
        leaves(memory, b, DType::BF16, bf16_bits(data)),
    ensures
        readable(memory, b, DType::BF16, data.len() as int),
        brain_floats(memory, b, data.len() as int) == data,
{
    assert(brain_floats(memory, b, data.len() as int) =~= data);
}

/// The program of a quantization with one scale searches the largest absolute value
/// of all elements, makes it the scale, and leaves every element divided by the
/// scale: as many codes as there are elements, none of them unset.
pub proof fn law_scalar_program_quantizes_every_element(
    input: Tensor,
    data: Seq<u16>,
    plan: DevicePlan,
    start: Machine,
)
    requires
        input.wf(),
        input.storage.element_type() == DType::BF16,
        0 < input.numel() <= u32::MAX,
        launch_fits(input.numel() as usize),
        is_scalar_plan(input, plan),
        holds(start.memory, Buffer::Input, input, bf16_bits(data)),
    ensures
        is_largest(data, largest(data)),
        run(start, plan.ops@) matches Some(end) && {
            let scale = scale_for(largest(data));
            &&& leaves(end.memory, plan.outputs@[1].buffer, DType::F32, seq![scale])
            &&& leaves(
                end.memory,
                plan.outputs@[0].buffer,
                DType::F8E4M3,
                code_bits(scalar_codes(data, scale)),
            )
        },
        plan.device == input.storage.place(),
        plan.outputs@.len() == 2,
        plan.outputs@[0].dims@ == input.dims@,
        plan.outputs@[0].dtype == DType::F8E4M3,
        plan.outputs@[1].dims@ == seq![1usize],
        plan.outputs@[1].dtype == DType::F32,
{
    let n = data.len() as int;
    let numel = input.numel() as usize;
    assert(input.dims@.take(input.dims@.len() as int) == input.dims@);
    assert(numel == n);
    let ops = plan.ops@;
    let scale = scale_for(largest(data));
    lemma_launches_start(numel);
    lemma_largest(data);
    // The input is packed, and the scale is zero.
    lemma_packed(start.memory, Buffer::Input, input, bf16_bits(data));
    let m1 = step(start, ops[0])->Some_0;
    let m2 = step(m1, ops[1])->Some_0;
    lemma_brain_floats(m2.memory, Buffer::Input, data);
    let m3 = step(m2, ops[2])->Some_0;
    // The maximum, then the scale.
    lemma_brain_floats(m3.memory, Buffer::Input, data);
    let m4 = step(m3, ops[3])->Some_0;
    assert(m4.memory[Buffer::Scales].cells =~= seq![Some(largest(data))]);
    let m5 = step(m4, ops[4])->Some_0;
    let m6 = step(m5, ops[5])->Some_0;
    assert(m6.memory[Buffer::Scales].cells =~= seq![Some(scale)]);
    let m7 = step(m6, ops[6])->Some_0;
    let m8 = step(m7, ops[7])->Some_0;
    lemma_brain_floats(m8.memory, Buffer::Input, data);
    let m9 = step(m8, ops[8])->Some_0;
    reveal_with_fuel(run_from, 10);
    assert(run(start, ops) == Some(m9));
    assert(leaves(m9.memory, Buffer::Scales, DType::F32, seq![scale]));
}

/// The activation buffers of a layer are there, with room for `numel` elements;
/// what they hold does not matter.
pub open spec fn has_activation_buffers(memory: Map<Buffer, Region>, numel: int) -> bool {
    &&& writable(memory, Buffer::ActivationFp8, DType::F8E4M3, numel)
    &&& memory[Buffer::ActivationFp8].cells.len() == numel
    &&& memory[Buffer::ActivationFp8].view is None
    &&& writable(memory, Buffer::ActivationScale, DType::F32, 1)
    &&& memory[Buffer::ActivationScale].cells.len() == 1
    &&& memory[Buffer::ActivationScale].view is None
}

/// The program that makes the activation buffers leaves room for every element of
/// the activation, and for one scale.
pub proof fn law_buffers_have_room_for_every_element(
    layer: Fp8Linear,
    x: Tensor,
    data: Seq<u16>,
    action: Action,
    start: Machine,
)
    requires
        x.wf(),
        layer.prepares(x, action),
        holds(start.memory, Buffer::Input, x, bf16_bits(data)),
    ensures
        action is PrepareBuffers,
        run(start, action->PrepareBuffers_0@) matches Some(end) && {
            &&& has_activation_buffers(end.memory, x.numel() as int)
            &&& leaves(end.memory, Buffer::ActivationScale, DType::F32, seq![0u32])
        },
{
    assert(x.dims@.take(x.dims@.len() as int) == x.dims@);
    let ops = action->PrepareBuffers_0@;
    let m1 = step(start, ops[0])->Some_0;
    let m2 = step(m1, ops[1])->Some_0;
    let m3 = step(m2, ops[2])->Some_0;
    reveal_with_fuel(run_from, 4);
    assert(run(start, ops) == Some(m3));
}

/// The program that quantizes an activation searches the largest absolute value of
/// all its elements, makes it the scale, and leaves every element divided by the
/// scale, whatever an earlier pass has left in the buffers. The weight and its scale
/// stay as they are.
pub proof fn law_activation_program_quantizes_every_element(
    layer: Fp8Linear,
    x: Tensor,
    data: Seq<u16>,
    action: Action,
    start: Machine,
)
    requires
        x.wf(),
        x.storage.element_type() == DType::BF16,
        0 < x.numel() <= u32::MAX,
        launch_fits(x.numel() as usize),
        layer.quantizes(x, action),
        holds(start.memory, Buffer::Input, x, bf16_bits(data)),
        has_activation_buffers(start.memory, x.numel() as int),
    ensures
        is_largest(data, largest(data)),
        action is QuantizeActivation,
        run(start, action->QuantizeActivation_0@) matches Some(end) && {
            let scale = scale_for(largest(data));
            &&& leaves(end.memory, Buffer::ActivationScale, DType::F32, seq![scale])
            &&& leaves(
                end.memory,
                Buffer::ActivationFp8,
                DType::F8E4M3,
                code_bits(scalar_codes(data, scale)),
            )
            &&& forall|b: Buffer|
                b != Buffer::Input && b != Buffer::ActivationFp8 && b != Buffer::ActivationScale
                    && start.memory.contains_key(b) ==> end.memory.contains_key(b)
                    && #[trigger] end.memory[b] == start.memory[b]
        },
{
    let n = data.len() as int;
    let numel = x.numel() as usize;
    assert(x.dims@.take(x.dims@.len() as int) == x.dims@);
    assert(numel == n);
    let ops = action->QuantizeActivation_0@;
    let scale = scale_for(largest(data));
    lemma_launches_start(numel);
    lemma_largest(data);
    lemma_packed(start.memory, Buffer::Input, x, bf16_bits(data));
    let m1 = step(start, ops[0])->Some_0;
    let m2 = step(m1, ops[1])->Some_0;
    let m3 = step(m2, ops[2])->Some_0;
    assert(m3.memory[Buffer::ActivationScale].cells =~= seq![Some(0u32)]);
    let m4 = step(m3, ops[3])->Some_0;
    lemma_brain_floats(m4.memory, Buffer::Input, data);
    let m5 = step(m4, ops[4])->Some_0;
    assert(m5.memory[Buffer::ActivationScale].cells =~= seq![Some(largest(data))]);
    let m6 = step(m5, ops[5])->Some_0;
    let m7 = step(m6, ops[6])->Some_0;
    assert(m7.memory[Buffer::ActivationScale].cells =~= seq![Some(scale)]);
    let m8 = step(m7, ops[7])->Some_0;
    lemma_brain_floats(m8.memory, Buffer::Input, data);
    let m9 = step(m8, ops[8])->Some_0;
    reveal_with_fuel(run_from, 10);
    assert(run(start, ops) == Some(m9));
    assert(leaves(m9.memory, Buffer::ActivationScale, DType::F32, seq![scale]));
}

/// The program of a blockwise quantization leaves the codes and the scales that the
/// host computes for the same matrix: every element lies in a thread block, and
/// every block has its scale.
pub proof fn law_blockwise_program_agrees_with_the_host(
    input: Tensor,
    data: Seq<u16>,
    rows: usize,
    cols: usize,
    plan: DevicePlan,
    start: Machine,
    codes: Seq<u8>,
    scales: Seq<u32>,
)
    requires
        input.wf(),
        input.storage.element_type() == DType::BF16,
        rows * cols == input.numel(),
        0 < rows <= u32::MAX - 127,
        0 < cols <= u32::MAX - 127,
        blocks(cols as int, 128) * blocks(rows as int, 128) <= u32::MAX,
        is_dynamic_plan(input.storage.place(), rows, cols, plan),
        holds(start.memory, Buffer::Input, input, bf16_bits(data)),
        are_block_scales(data, rows as int, cols as int, scales),
        are_block_codes(data, cols as int, scales, codes),
    ensures
        run(start, plan.ops@) matches Some(end) && {
            &&& leaves(
                end.memory,
                plan.outputs@[0].buffer,
                DType::F8E4M3,
                code_bits(codes),
            )
            &&& leaves(end.memory, plan.outputs@[1].buffer, DType::F32, scales)
        },
        plan.device == input.storage.place(),
        plan.outputs@.len() == 2,
        plan.outputs@[0].dtype == DType::F8E4M3,
        plan.outputs@[0].dims@ == seq![rows, cols],
        plan.outputs@[1].dtype == DType::F32,
        plan.outputs@[1].dims@ == seq![scales.len() as usize],
        plan.outputs@[1].dims@[0] == scales.len(),
{
    let ops = plan.ops@;
    let (m, k) = (rows as int, cols as int);
    let (high, wide) = (blocks(m, 128), blocks(k, 128));
    let n = m * k;
    assert(input.dims@.take(input.dims@.len() as int) == input.dims@);
    assert((rows as u32) == rows && (cols as u32) == cols);
    assert(high * wide == wide * high) by (nonlinear_arith);
    assert(0 <= wide <= u32::MAX && 0 <= high <= u32::MAX);
    assert((wide as u32) == wide && (high as u32) == high);
    lemma_packed(start.memory, Buffer::Input, input, bf16_bits(data));
    let m1 = step(start, ops[0])->Some_0;
    let m2 = step(m1, ops[1])->Some_0;
    let m3 = step(m2, ops[2])->Some_0;
    let m4 = step(m3, ops[3])->Some_0;
    lemma_brain_floats(m4.memory, Buffer::Input, data);
    assert(m4.memory[Buffer::Output].cells.len() == n);
    assert(m4.memory[Buffer::Scales].cells.len() == high * wide);
    let m5 = step(m4, ops[4])->Some_0;
    match ops[4] {
        DeviceOp::Launch { call, config } => {
            assert(starts(config)) by {
                lemma_grid_starts(config);
            }
            assert(step(m4, ops[4]) is Some);
        },
        _ => {},
    }
    reveal_with_fuel(run_from, 6);
    assert(run(start, ops) == Some(m5));
    assert forall|i: int| 0 <= i < n implies #[trigger] m5.memory[Buffer::Output].cells[i]
        == Some(code_bits(codes)[i]) by {
        lemma_row_and_column(m, k, i);
        let (r, c) = (i / k, i % k);
        law_blocks_partition(m, 128, r, r / 128);
        law_blocks_partition(k, 128, c, c / 128);
        let at = scale_index(r, c, 128, 128, k);
        assert(at == c / 128 + (r / 128) * wide);
        assert(scales[c / 128 + (r / 128) * wide] == scale_for(
            absmax(data, m, k, r / 128, c / 128),
        ));
        assert(codes[i] == quantized(data[i], scales[at]));
    }
    assert forall|j: int| 0 <= j < high * wide implies #[trigger] m5.memory[Buffer::Scales].cells[j]
        == Some(scales[j]) by {
        lemma_row_and_column(high, wide, j);
        let (mb, kb) = (j / wide, j % wide);
        assert(scales[kb + mb * wide] == scale_for(absmax(data, m, k, mb, kb)));
    }
}

/// A grid of thread blocks of 128 threads starts.
proof fn lemma_grid_starts(config: LaunchConfig)
    requires
        config.grid_dim.0 > 0,
        config.grid_dim.1 > 0,
        config.grid_dim.2 == 1,
        config.block_dim == (128u32, 1u32, 1u32),
    ensures
        block_threads(config) == 128,
        starts(config),
{
    let (x, y) = (config.grid_dim.0 as int, config.grid_dim.1 as int);
    assert(128 * 1 * 1 == 128);
    assert(x * y * 1 * 128 > 0) by (nonlinear_arith)
        requires
            x > 0,
            y > 0,
    ;
}

/// On the host a tensor is quantized as a matrix of its last dimension: the codes are
/// a matrix of as many elements, and codes and scales, read in row-major order, are
/// those of the blocks of the elements of the tensor, read so too.
pub proof fn law_host_quantizes_the_elements(
    input: Tensor,
    quant: Tensor,
    scales: Tensor,
    high: int,
    wide: int,
)
    requires
        input.wf(),
        input.dims@.len() >= 2,
        is_dynamic_work(input, Work::Done((quant, scales))),
        (high - 1) * 128 < matrix_rows(input.dims@) <= high * 128,
        (wide - 1) * 128 < input.dims@.last() <= wide * 128,
        input.numel() > 0,
    ensures
        input.storage.place() == Device::Cpu,
        quant.dims@.len() == 2,
        quant.dims@[0] == matrix_rows(input.dims@),
        quant.dims@[1] == input.dims@.last(),
        quant.numel() == input.numel(),
        scales.dims@.len() == 1,
        scales.dims@[0] == high * wide,
        quant.storage.element_type() == DType::F8E4M3,
        scales.storage.element_type() == DType::F32,
        are_block_scales(
            input.bf16_elements(),
            matrix_rows(input.dims@) as int,
            input.dims@.last() as int,
            scales.single_elements(),
        ),
        are_block_codes(
            input.bf16_elements(),
            input.dims@.last() as int,
            scales.single_elements(),
            quant.e4m3_elements(),
        ),
{
    let dims = input.dims@;
    let rank = dims.len() as int;
    assert(dims.take(rank - 1) == dims.drop_last());
    assert(volume(dims.take(rank - 1)) <= usize::MAX);
    let (rows, cols) = (matrix_rows(dims) as int, dims.last() as int);
    lemma_ceiling(rows, 128, high);
    lemma_ceiling(cols, 128, wide);
    lemma_matrix_volume(quant.dims@);
    lemma_vector_volume(scales.dims@);
    let (codes, table) = (quant.storage->F8E4M3_0@, scales.storage->F32_0@);
    assert(codes =~= quant.e4m3_elements()) by {
        assert forall|l: int| 0 <= l < codes.len() implies codes[l]
            == #[trigger] quant.e4m3_elements()[l] by {
            lemma_compact_position(quant, l);
        }
    }
    assert(table.len() == high * wide);
    assert(dims.take(rank) == dims);
    assert(rows > 0 && cols > 0) by (nonlinear_arith)
        requires
            rows * cols > 0,
            rows >= 0,
            cols >= 0,
    ;
    assert(high * wide <= rows * cols) by (nonlinear_arith)
        requires
            (high - 1) * 128 < rows,
            (wide - 1) * 128 < cols,
            rows > 0,
            cols > 0,
            high >= 1,
            wide >= 1,
    {
        assert(high <= rows && wide <= cols);
    }
    assert(table =~= scales.single_elements()) by {
        assert forall|l: int| 0 <= l < table.len() implies table[l]
            == #[trigger] scales.single_elements()[l] by {
            lemma_compact_position(scales, l);
        }
    }
}

/// A matrix of FP8 weights, each times the scale of its block and rounded to a type:
/// row `r` and column `c` have the scale in row `r / block_r` and column
/// `c / block_c` of a row-major matrix of scales of `wide` columns.
pub open spec fn dequantized_bits(
    w: Seq<u8>,
    scales: Seq<u32>,
    cols: int,
    block_r: int,
    block_c: int,
    wide: int,
    target: DType,
) -> Seq<u32> {
    Seq::new(
        w.len(),
        |i: int|
            narrowed(
                target,
                product(
                    single_of_e4m3(w[i]),
                    scales[(i / cols / block_r) * wide + i % cols / block_c],
                ),
            ),
    )
}

/// What the launch of a dequantization leaves.
proof fn lemma_dequant_launch(
    op: Fp8BlockwiseDequant,
    w: Seq<u8>,
    scales: Seq<u32>,
    wide: int,
    before: Machine,
)
    requires
        is_target(op.target_dtype),
        0 < op.numel() <= u32::MAX,
        launch_fits(op.numel() as usize),
        0 < op.block_r <= u32::MAX,
        0 < op.block_c <= u32::MAX,
        w.len() == op.numel(),
        (wide - 1) * op.block_c < op.cols <= wide * op.block_c,
        op.last_scale() < scales.len(),
        leaves(before.memory, Buffer::Weight, DType::F8E4M3, code_bits(w)),
        leaves(before.memory, Buffer::ScaleInv, DType::F32, scales),
        writable(before.memory, Buffer::Output, op.target_dtype, op.numel()),
        before.memory[Buffer::Output].cells.len() == op.numel(),
        before.memory[Buffer::Output].view is None,
        before.loaded == dequant_kernel(op.target_dtype),
    ensures
        step(before, op.device_ops()[2]) matches Some(end) && leaves(
            end.memory,
            Buffer::Output,
            op.target_dtype,
            dequantized_bits(
                w,
                scales,
                op.cols as int,
                op.block_r as int,
                op.block_c as int,
                wide,
                op.target_dtype,
            ),
        ),
{
    let n = op.numel();
    let (rows, cols) = (op.rows as int, op.cols as int);
    let (br, bc) = (op.block_r as int, op.block_c as int);
    assert(rows > 0 && cols > 0 && rows <= n && cols <= n) by (nonlinear_arith)
        requires
            n == rows * cols,
            n > 0,
            rows >= 0,
            cols >= 0,
    ;
    assert((op.rows as u32) == rows && (op.cols as u32) == cols);
    assert((op.block_r as u32) == br && (op.block_c as u32) == bc);
    lemma_ceiling(cols, bc, wide);
    lemma_launches_start(n as usize);
    let end = step(before, op.device_ops()[2])->Some_0;
    let last = ((rows - 1) / br) * wide + (cols - 1) / bc;
    assert(last == op.last_scale());
    op.lemma_last_scale(0);
    assert(readable(before.memory, Buffer::ScaleInv, DType::F32, last + 1));
    assert(readable(before.memory, Buffer::Weight, DType::F8E4M3, n));
    let bits = dequantized_bits(w, scales, cols, br, bc, wide, op.target_dtype);
    assert forall|i: int| 0 <= i < n implies #[trigger] end.memory[Buffer::Output].cells[i]
        == Some(bits[i]) by {
        op.lemma_last_scale(i);
        let at = (i / cols / br) * wide + i % cols / bc;
        assert(at == op.scale_of(i));
        assert(cell(before.memory, Buffer::ScaleInv, at) == scales[at]);
        assert(cell(before.memory, Buffer::Weight, i) == code_bits(w)[i]);
    }
}

/// The program of a dequantization on packed operands leaves every weight times the
/// scale of its block.
pub proof fn law_packed_dequant_program_scales_by_blocks(
    op: Fp8BlockwiseDequant,
    w: Seq<u8>,
    scales: Seq<u32>,
    wide: int,
    plan: DevicePlan,
    start: Machine,
)
    requires
        plan.ops@ == op.device_ops(),
        op.leaves_matrix(plan),
        is_target(op.target_dtype),
        0 < op.numel() <= u32::MAX,
        launch_fits(op.numel() as usize),
        0 < op.block_r <= u32::MAX,
        0 < op.block_c <= u32::MAX,
        w.len() == op.numel(),
        (wide - 1) * op.block_c < op.cols <= wide * op.block_c,
        op.last_scale() < scales.len(),
        leaves(start.memory, Buffer::Weight, DType::F8E4M3, code_bits(w)),
        leaves(start.memory, Buffer::ScaleInv, DType::F32, scales),
    ensures
        plan.outputs@.len() == 1,
        plan.outputs@[0].dtype == op.target_dtype,
        plan.outputs@[0].dims@ == seq![op.rows, op.cols],
        run(start, plan.ops@) matches Some(end) && leaves(
            end.memory,
            plan.outputs@[0].buffer,
            op.target_dtype,
            dequantized_bits(
                w,
                scales,
                op.cols as int,
                op.block_r as int,
                op.block_c as int,
                wide,
                op.target_dtype,
            ),
        ),
{
    let ops = op.device_ops();
    let m1 = step(start, ops[0])->Some_0;
    let m2 = step(m1, ops[1])->Some_0;
    lemma_dequant_launch(op, w, scales, wide, m2);
    reveal_with_fuel(run_from, 4);
    assert(run(start, ops) == step(m2, ops[2]));
}

/// The bits of some floats on the host.
pub open spec fn storage_bits(storage: Storage) -> Seq<u32> {
    match storage {
        Storage::BF16(data) => bf16_bits(data@),
        Storage::F16(data) => bf16_bits(data@),
        Storage::F32(data) => data@,
        Storage::F8E4M3(data) => code_bits(data@),
        _ => seq![],
    }
}

/// On the host the weights and the scales are found from where they start: the one
/// in row `r` and column `c` is `r * cols + c` further on, its scale
/// `(r / block_r) * wide + c / block_c`, `wide` being the number of blocks in a row.
pub proof fn law_host_finds_weight_and_scale(
    op: Fp8BlockwiseDequant,
    w: Seq<u8>,
    w_offset: int,
    scales: Seq<u32>,
    s_offset: int,
    out: Storage,
    wide: int,
    r: int,
    c: int,
)
    requires
        op.block_r > 0,
        op.block_c > 0,
        (wide - 1) * op.block_c < op.cols <= wide * op.block_c,
        op.is_dequantized(w, w_offset, scales, s_offset, out),
        0 <= r < op.rows,
        0 <= c < op.cols,
    ensures
        out.element_type() == op.target_dtype,
        storage_bits(out).len() == op.rows * op.cols,
        storage_bits(out)[r * op.cols + c] == narrowed(
            op.target_dtype,
            product(
                single_of_e4m3(w[w_offset + (r * op.cols + c)]),
                scales[s_offset + ((r / op.block_r as int) * wide + c / op.block_c as int)],
            ),
        ),
{
    let cols = op.cols as int;
    let i = r * cols + c;
    lemma_index_in_range(op.rows as int, cols, r, c);
    assert(cols * r == r * cols) by (nonlinear_arith);
    lemma_fundamental_div_mod_converse(i, cols, r, c);
    lemma_ceiling(cols, op.block_c as int, wide);
}

/// The bits of the elements of a tensor of floats on the host, in row-major order.
pub open spec fn host_bits(t: Tensor) -> Seq<u32> {
    Seq::new(
        t.numel(),
        |i: int|
            match t.storage {
                Storage::BF16(data) => data@[t.position(i)] as u32,
                Storage::F16(data) => data@[t.position(i)] as u32,
                Storage::F32(data) => data@[t.position(i)],
                Storage::F8E4M3(data) => data@[t.position(i)] as u32,
                _ => 0,
            },
    )
}

/// On the host every element of a dequantized matrix is the weight in its row and
/// column times the scale in row `r / block_r` and column `c / block_c`, rounded to
/// the target type, for every target and all block sides; weights and scales are
/// found by their strides.
pub proof fn law_host_dequantizes_by_blocks(
    weight: Tensor,
    scale_inv: Tensor,
    size: Fp8BlockSize,
    target: DType,
    out: Tensor,
    r: int,
    c: int,
)
    requires
        weight.wf(),
        scale_inv.wf(),
        weight.dims@.len() == 2,
        scale_inv.dims@.len() == 2,
        size.block_r > 0,
        size.block_c > 0,
        (scale_inv.dims@[0] - 1) * size.block_r < weight.dims@[0] <= scale_inv.dims@[0]
            * size.block_r,
        (scale_inv.dims@[1] - 1) * size.block_c < weight.dims@[1] <= scale_inv.dims@[1]
            * size.block_c,
        dequant_error(weight, scale_inv, target) is None,
        is_dequant_work(weight, scale_inv, size, target, Work::Done(out)),
        0 <= r < weight.dims@[0],
        0 <= c < weight.dims@[1],
    ensures
        ({
            let (rb, cb) = (r / size.block_r as int, c / size.block_c as int);
            let w_at = weight.start_offset + r * weight.strides@[0] + c * weight.strides@[1];
            let s_at = scale_inv.start_offset + rb * scale_inv.strides@[0] + cb
                * scale_inv.strides@[1];
            &&& out.dims@ == weight.dims@
            &&& out.storage.element_type() == target
            &&& 0 <= w_at < weight.storage.count()
            &&& 0 <= s_at < scale_inv.storage.count()
            &&& host_bits(out)[r * weight.dims@[1] + c] == narrowed(
                target,
                product(
                    single_of_e4m3(weight.storage->F8E4M3_0@[w_at]),
                    scale_inv.storage->F32_0@[s_at],
                ),
            )
        }),
{
    let (rows, cols) = (weight.dims@[0] as int, weight.dims@[1] as int);
    let (br, bc) = (size.block_r as int, size.block_c as int);
    let (high, wide) = (scale_inv.dims@[0] as int, scale_inv.dims@[1] as int);
    let (rb, cb) = (r / br, c / bc);
    let i = r * cols + c;
    let op = dequant_of(weight, size, target);
    lemma_matrix_volume(weight.dims@);
    lemma_matrix_volume(scale_inv.dims@);
    lemma_index_in_range(rows, cols, r, c);
    assert(cols * r == r * cols) by (nonlinear_arith);
    lemma_fundamental_div_mod_converse(i, cols, r, c);
    lemma_ceiling(rows, br, high);
    lemma_ceiling(cols, bc, wide);
    law_blocks_partition(rows, br, r, rb);
    law_blocks_partition(cols, bc, c, cb);
    lemma_index_in_range(high, wide, rb, cb);
    lemma_matrix_offset(weight.dims@, weight.strides@, r, c);
    lemma_matrix_offset(scale_inv.dims@, scale_inv.strides@, rb, cb);
    assert(0 <= weight.position(i) < weight.storage.count());
    assert(0 <= scale_inv.position(rb * wide + cb) < scale_inv.storage.count());
    assert(op.scale_of(i) == rb * wide + cb);
    lemma_compact_position(out, i);
}

/// The smallest number of blocks that cover a length.
pub proof fn lemma_ceiling(len: int, block: int, count: int)
    requires
        block > 0,
        (count - 1) * block < len <= count * block,
    ensures
        count == blocks(len, block),
{
    let all = len + block - 1;
    assert(0 <= all - block * count < block) by (nonlinear_arith)
        requires
            (count - 1) * block < len <= count * block,
            all == len + block - 1,
    ;
    lemma_fundamental_div_mod_converse(all, block, count, all - block * count);
}

/// The program of a dequantization leaves, bit for bit, what the host computes from
/// the same weights and scales.
pub proof fn law_dequant_program_agrees_with_the_host(
    near: (Tensor, Tensor),
    far: (Tensor, Tensor),
    size: Fp8BlockSize,
    target: DType,
    out: Tensor,
    plan: DevicePlan,
    start: Machine,
)
    requires
        near.0.wf(),
        near.0.dims@ == far.0.dims@,
        near.0.dims@.len() == 2,
        far.0.storage.element_type() == DType::F8E4M3,
        far.1.storage.element_type() == DType::F32,
        is_target(target),
        0 < near.0.numel() <= u32::MAX,
        launch_fits(near.0.numel() as usize),
        0 < size.block_r <= u32::MAX,
        0 < size.block_c <= u32::MAX,
        dequant_error(near.0, near.1, target) is None,
        dequant_is_defined(near.0, near.1, size, target),
        is_dequant_work(near.0, near.1, size, target, Work::Done(out)),
        is_dequant_work(far.0, far.1, size, target, Work::Launch(plan)),
        holds(start.memory, Buffer::Weight, far.0, code_bits(near.0.e4m3_elements())),
        holds(start.memory, Buffer::ScaleInv, far.1, near.1.single_elements()),
    ensures
        run(start, plan.ops@) matches Some(end) && leaves(
            end.memory,
            plan.outputs@[0].buffer,
            target,
            host_bits(out),
        ),
        plan.device == far.0.storage.place(),
        plan.outputs@.len() == 1,
        plan.outputs@[0].dtype == target,
        plan.outputs@[0].dims@ == out.dims@,
{
    let op = dequant_of(near.0, size, target);
    let (w, scales) = (near.0.e4m3_elements(), near.1.single_elements());
    let wide = blocks(op.cols as int, op.block_c as int);
    lemma_matrix_volume(near.0.dims@);
    assert(op == dequant_of(far.0, size, target));
    law_blocks_are_needed(op.cols as int, op.block_c as int);
    assert(op.cols > 0) by (nonlinear_arith)
        requires
            op.rows * op.cols > 0,
            op.rows >= 0,
            op.cols >= 0,
    ;
    assert(wide > 0) by {
        law_blocks_partition(op.cols as int, op.block_c as int, 0, 0);
    }
    let ops = plan.ops@;
    lemma_packed(start.memory, Buffer::Weight, far.0, code_bits(w));
    let m1 = step(start, ops[0])->Some_0;
    lemma_packed(m1.memory, Buffer::ScaleInv, far.1, scales);
    let m2 = step(m1, ops[1])->Some_0;
    let m3 = step(m2, ops[2])->Some_0;
    let m4 = step(m3, ops[3])->Some_0;
    assert(ops[4] == op.device_ops()[2]);
    lemma_dequant_launch(op, w, scales, wide, m4);
    reveal_with_fuel(run_from, 6);
    assert(run(start, ops) == step(m4, ops[4]));
    let bits = dequantized_bits(
        w,
        scales,
        op.cols as int,
        op.block_r as int,
        op.block_c as int,
        wide,
        target,
    );
    assert(bits =~= host_bits(out)) by {
        assert forall|i: int| 0 <= i < op.numel() implies bits[i] == #[trigger] host_bits(
            out,
        )[i] by {
            lemma_compact_position(out, i);
            assert(op.value(w, 0, scales, 0, i) == product(
                single_of_e4m3(w[i]),
                scales[op.scale_of(i)],
            ));
        }
    }
}

/// What the calls of the quantization with one scale are told, for every number of
/// elements: the lower 32 bits of it, both in the search for the maximum and in the
/// quantization; the output has room for all elements.
pub proof fn law_scalar_program_tells_the_count(input: Tensor, plan: DevicePlan)
    requires
        input.wf(),
        is_scalar_plan(input, plan),
    ensures
        ({
            let count = input.numel() as int % 0x1_0000_0000;
            let ops = plan.ops@;
            &&& ops.len() == 9
            &&& ops[1] matches DeviceOp::AllocZeros { len, .. } && len == 1
            &&& ops[3] matches DeviceOp::Launch { call, .. } && call matches Call::Absmax {
                numel,
                ..
            } && numel == count
            &&& ops[5] matches DeviceOp::Launch { call, .. } && call is ComputeScale
            &&& ops[6] matches DeviceOp::Alloc { len, .. } && len == input.numel()
            &&& ops[8] matches DeviceOp::Launch { call, .. } && call matches Call::QuantizeScalar {
                numel,
                ..
            } && numel == count
        }),
{
    assert(input.dims@.take(input.dims@.len() as int) == input.dims@);
    law_kernel_is_told_the_low_bits(input.numel() as usize);
}

/// The same for the programs of an activation.
pub proof fn law_activation_programs_tell_the_count(
    layer: Fp8Linear,
    x: Tensor,
    preparation: Action,
    quantization: Action,
)
    requires
        x.wf(),
        layer.prepares(x, preparation),
        layer.quantizes(x, quantization),
    ensures
        ({
            let ops = preparation->PrepareBuffers_0@;
            &&& ops.len() == 3
            &&& ops[1] matches DeviceOp::Alloc { len, .. } && len == x.numel()
            &&& ops[2] matches DeviceOp::AllocZeros { len, .. } && len == 1
        }),
        ({
            let count = x.numel() as int % 0x1_0000_0000;
            let ops = quantization->QuantizeActivation_0@;
            &&& ops.len() == 9
            &&& ops[2] matches DeviceOp::Launch { call, .. } && call is ZeroScale
            &&& ops[4] matches DeviceOp::Launch { call, .. } && call matches Call::Absmax {
                numel,
                ..
            } && numel == count
            &&& ops[6] matches DeviceOp::Launch { call, .. } && call is ComputeScale
            &&& ops[8] matches DeviceOp::Launch { call, .. } && call matches Call::QuantizeScalar {
                numel,
                ..
            } && numel == count
        }),
{
    assert(x.dims@.take(x.dims@.len() as int) == x.dims@);
    law_kernel_is_told_the_low_bits(x.numel() as usize);
}

/// What the call of a blockwise quantization is told, for all numbers of rows and
/// columns: the lower 32 bits of each, rows as rows and columns as columns. Its grid
/// has a thread block of 128 threads for every 128 columns and 128 rows of these, and
/// so one for the block of every element; the codes have room for all elements, and
/// the scales for one to a thread block.
pub proof fn law_blockwise_program_tells_rows_and_columns(
    device: Device,
    rows: usize,
    cols: usize,
    plan: DevicePlan,
    r: int,
    c: int,
)
    requires
        is_dynamic_plan(device, rows, cols, plan),
        rows * cols <= usize::MAX,
        rows as int % 0x1_0000_0000 + 127 <= u32::MAX,
        cols as int % 0x1_0000_0000 + 127 <= u32::MAX,
        ((cols as int % 0x1_0000_0000 + 127) / 128) * ((rows as int % 0x1_0000_0000 + 127) / 128)
            <= u32::MAX,
        0 <= r < rows as int % 0x1_0000_0000,
        0 <= c < cols as int % 0x1_0000_0000,
    ensures
        ({
            let (low_rows, low_cols) = (
                rows as int % 0x1_0000_0000,
                cols as int % 0x1_0000_0000,
            );
            let ops = plan.ops@;
            &&& ops.len() == 5
            &&& ops[2] matches DeviceOp::Alloc { len, .. } && len == rows * cols
            &&& ops[4] matches DeviceOp::Launch { call, config } && {
                let (x, y) = (config.grid_dim.0, config.grid_dim.1);
                &&& call matches Call::QuantizeBlockwise { m, k, .. } && m == low_rows && k
                    == low_cols
                &&& config.block_dim == (128u32, 1u32, 1u32)
                &&& config.grid_dim.2 == 1
                &&& config.shared_mem_bytes == 0
                &&& (x - 1) * 128 < low_cols <= x * 128
                &&& (y - 1) * 128 < low_rows <= y * 128
                &&& c / 128 < x && r / 128 < y
                &&& ops[3] matches DeviceOp::Alloc { len, .. } && len == x * y
                &&& plan.outputs@[1].dims@ == seq![(x * y) as usize]
            }
        }),
{
    law_kernel_is_told_the_low_bits(rows);
    law_kernel_is_told_the_low_bits(cols);
    let (m, k) = (rows as int % 0x1_0000_0000, cols as int % 0x1_0000_0000);
    assert((rows as u32) == m && (cols as u32) == k);
    let (high, wide) = (blocks(m, 128), blocks(k, 128));
    assert((high as u32) == high && (wide as u32) == wide);
}

/// What the call of a dequantization is told, for all sizes: the lower 32 bits of the
/// rows, the columns and the sides of a block, each under its own name.
pub proof fn law_dequant_program_tells_the_sizes(op: Fp8BlockwiseDequant)
    requires
        op.numel() <= usize::MAX,
    ensures
        ({
            let ops = op.device_ops();
            &&& ops.len() == 3
            &&& ops[1] matches DeviceOp::Alloc { len, dtype, .. } && len == op.rows * op.cols
                && dtype == op.target_dtype
            &&& ops[2] matches DeviceOp::Launch { call, config } && {
                &&& config == elementwise_config(op.numel() as usize)
                &&& call matches Call::Dequant { rows, cols, block_r, block_c, .. } && {
                    &&& rows == op.rows as int % 0x1_0000_0000
                    &&& cols == op.cols as int % 0x1_0000_0000
                    &&& block_r == op.block_r as int % 0x1_0000_0000
                    &&& block_c == op.block_c as int % 0x1_0000_0000
                }
            }
        }),
{
    law_kernel_is_told_the_low_bits(op.rows);
    law_kernel_is_told_the_low_bits(op.cols);
    law_kernel_is_told_the_low_bits(op.block_r);
    law_kernel_is_told_the_low_bits(op.block_c);
    assert(0 <= op.numel()) by (nonlinear_arith)
        requires
            op.numel() == op.rows * op.cols,
    ;
}

} // verus!
