//! What a forward pass does with the numbers: which path it takes, and what each
//! path multiplies.

use crate::binary::units;
use crate::convert::single_of_e4m3;
use crate::dequant::{dequant_error, dequant_is_defined, is_dequant_work};
use crate::device::{launch_fits, law_kernel_is_told_the_low_bits, Buffer, Work};
use crate::error::{DType, Device};
use crate::gemm::{law_plan_reads_its_own_buffers, result_entry, scaled_dot, ScaleMode};
use crate::layout::{lemma_matrix_volume, volume};
use crate::linear::{Action, Fp8Linear};
use crate::machine::{holds, largest, leaves, narrowed, run, Machine, Region};
use crate::programs::{bf16_bits, code_bits, has_activation_buffers, host_bits, scalar_codes};
use crate::programs::{law_activation_program_quantizes_every_element};
use crate::programs::law_host_dequantizes_by_blocks;
use crate::quantize::{is_scalar_plan, matrix_rows, scale_for};
use crate::single::{product, size};
use crate::tensor::{is_transpose_of, law_transpose_exchanges, Tensor};
use vstd::prelude::*;

verus! {

/// The number of an FP8 code, in units of `2^-9`.
pub open spec fn code_number(code: u8) -> int {
    if code >= 0x80 {
        -(units(8, (code % 0x80) as nat) as int)
    } else {
        units(8, (code % 0x80) as nat) as int
    }
}

/// The numbers of FP8 codes.
pub open spec fn code_numbers(codes: Seq<u8>) -> Seq<int> {
    Seq::new(codes.len(), |i: int| code_number(codes[i]))
}

/// The numbers that a region holds: FP8 codes in units of `2^-9`, single-precision
/// floats without their sign in units of `2^-149`.
pub open spec fn region_numbers(region: Region) -> Seq<int> {
    Seq::new(
        region.cells.len(),
        |i: int|
            match region.dtype {
                DType::F8E4M3 => code_number(region.cells[i]->Some_0 as u8),
                _ => size(region.cells[i]->Some_0) as int,
            },
    )
}

/// The numbers that a memory holds.
pub open spec fn memory_numbers(memory: Map<Buffer, Region>) -> Map<Buffer, Seq<int>> {
    Map::new(|b: Buffer| memory.contains_key(b), |b: Buffer| region_numbers(memory[b]))
}

/// The buffers that an FP8 multiplication reads hold the codes and the scales of an
/// activation and of a weight.
pub open spec fn has_operands(
    memory: Map<Buffer, Region>,
    x_codes: Seq<u8>,
    x_scale: u32,
    w_codes: Seq<u8>,
    w_scale: u32,
) -> bool {
    &&& leaves(memory, Buffer::ActivationFp8, DType::F8E4M3, code_bits(x_codes))
    &&& leaves(memory, Buffer::ActivationScale, DType::F32, seq![x_scale])
    &&& leaves(memory, Buffer::ScalarWeight, DType::F8E4M3, code_bits(w_codes))
    &&& leaves(memory, Buffer::ScalarScale, DType::F32, seq![w_scale])
}

/// The FP8 multiplication of a pass multiplies what its buffers hold: the element in
/// row `i` and column `j` of its result is the product of row `i` of the activation
/// and row `j` of the weight, each code times the one scale of its tensor. The result
/// has the dimensions of the activation but for the last, which is the number of rows
/// of the weight, and is on the activation's device.
pub proof fn law_fp8_multiplication_takes_codes_and_scales(
    layer: Fp8Linear,
    x: Tensor,
    action: Action,
    memory: Map<Buffer, Region>,
    before: Seq<int>,
    x_codes: Seq<u8>,
    x_scale: u32,
    w_codes: Seq<u8>,
    w_scale: u32,
    i: int,
    j: int,
)
    requires
        x.wf(),
        x.dims@.len() >= 1,
        layer.weight.dims@.len() == 2,
        layer.multiplies(x, action),
        x.dims@.last() <= i64::MAX,
        layer.weight.dims@[0] <= i64::MAX,
        matrix_rows(x.dims@) * layer.weight.dims@[0] <= usize::MAX,
        has_operands(memory, x_codes, x_scale, w_codes, w_scale),
        0 <= i < matrix_rows(x.dims@),
        0 <= j < layer.weight.dims@[0],
    ensures
        action is MultiplyFp8,
        ({
            let result = action->MultiplyFp8_0;
            let (n, k) = (layer.weight.dims@[0], x.dims@.last());
            &&& result.device == x.storage.place()
            &&& result.dims@ == x.dims@.update(x.dims@.len() - 1, n)
            &&& result.gemm.d.dtype == DType::BF16
            &&& result.gemm.d_len == matrix_rows(x.dims@) * n
            &&& j + i * result.gemm.d.ld == i * n + j
            &&& result_entry(result.gemm, memory_numbers(memory), before, j, i) == scaled_dot(
                ScaleMode::Scalar32F,
                code_numbers(x_codes),
                seq![size(x_scale) as int],
                code_numbers(w_codes),
                seq![size(w_scale) as int],
                n as int,
                k as int,
                i,
                j,
                k as nat,
            )
        }),
{
    let rank = x.dims@.len() as int;
    assert(x.dims@.take(rank - 1) == x.dims@.drop_last());
    assert(volume(x.dims@.take(rank - 1)) <= usize::MAX);
    let m = matrix_rows(x.dims@) as usize;
    assert(m == matrix_rows(x.dims@));
    let (n, k) = (layer.weight.dims@[0], x.dims@.last());
    let numbers = memory_numbers(memory);
    law_plan_reads_its_own_buffers(
        m,
        n,
        k,
        ScaleMode::Scalar32F,
        Buffer::ActivationFp8,
        Buffer::ActivationScale,
        Buffer::ScalarWeight,
        Buffer::ScalarScale,
        numbers,
        before,
        i,
        j,
    );
    lemma_code_region(memory, Buffer::ActivationFp8, x_codes);
    lemma_code_region(memory, Buffer::ScalarWeight, w_codes);
    assert(numbers[Buffer::ActivationScale] =~= seq![size(x_scale) as int]);
    assert(numbers[Buffer::ScalarScale] =~= seq![size(w_scale) as int]);
    assert(action->MultiplyFp8_0.dims@ =~= x.dims@.update(rank - 1, n));
}

/// A buffer that leaves codes holds their numbers.
proof fn lemma_code_region(memory: Map<Buffer, Region>, b: Buffer, codes: Seq<u8>)
    requires
        leaves(memory, b, DType::F8E4M3, code_bits(codes)),
    ensures
        memory_numbers(memory)[b] == code_numbers(codes),
{
    assert(memory_numbers(memory)[b] =~= code_numbers(codes)) by {
        assert forall|i: int| 0 <= i < codes.len() implies region_numbers(memory[b])[i]
            == #[trigger] code_numbers(codes)[i] by {
            assert(memory[b].cells[i] == Some(code_bits(codes)[i]));
        }
    }
}

/// The FP8 path from the activation to the product: its program and the
/// multiplication after it, on a device that holds the activation and the
/// scalar-scaled weight, give the product of the activation, divided by its scale and
/// rounded to FP8, with the weight, under both scales.
pub proof fn law_fp8_path_multiplies_the_activation(
    layer: Fp8Linear,
    x: Tensor,
    data: Seq<u16>,
    quantization: Action,
    multiplication: Action,
    start: Machine,
    w_codes: Seq<u8>,
    w_scale: u32,
    before: Seq<int>,
    i: int,
    j: int,
)
    requires
        x.wf(),
        x.storage.element_type() == DType::BF16,
        x.dims@.len() >= 1,
        0 < x.numel() <= u32::MAX,
        launch_fits(x.numel() as usize),
        layer.weight.dims@.len() == 2,
        layer.weight.dims@[0] <= i64::MAX,
        x.dims@.last() <= i64::MAX,
        matrix_rows(x.dims@) * layer.weight.dims@[0] <= usize::MAX,
        layer.quantizes(x, quantization),
        layer.multiplies(x, multiplication),
        holds(start.memory, Buffer::Input, x, bf16_bits(data)),
        has_activation_buffers(start.memory, x.numel() as int),
        leaves(start.memory, Buffer::ScalarWeight, DType::F8E4M3, code_bits(w_codes)),
        leaves(start.memory, Buffer::ScalarScale, DType::F32, seq![w_scale]),
        0 <= i < matrix_rows(x.dims@),
        0 <= j < layer.weight.dims@[0],
    ensures
        run(start, quantization->QuantizeActivation_0@) matches Some(end) && {
            let scale = scale_for(largest(data));
            let (n, k) = (layer.weight.dims@[0], x.dims@.last());
            result_entry(
                multiplication->MultiplyFp8_0.gemm,
                memory_numbers(end.memory),
                before,
                j,
                i,
            ) == scaled_dot(
                ScaleMode::Scalar32F,
                code_numbers(scalar_codes(data, scale)),
                seq![size(scale) as int],
                code_numbers(w_codes),
                seq![size(w_scale) as int],
                n as int,
                k as int,
                i,
                j,
                k as nat,
            )
        },
{
    let scale = scale_for(largest(data));
    law_activation_program_quantizes_every_element(layer, x, data, quantization, start);
    let end = run(start, quantization->QuantizeActivation_0@)->Some_0;
    assert(end.memory[Buffer::ScalarWeight] == start.memory[Buffer::ScalarWeight]);
    assert(end.memory[Buffer::ScalarScale] == start.memory[Buffer::ScalarScale]);
    law_fp8_multiplication_takes_codes_and_scales(
        layer,
        x,
        multiplication,
        end.memory,
        before,
        scalar_codes(data, scale),
        scale,
        w_codes,
        w_scale,
        i,
        j,
    );
}

/// How a pass begins. An activation that is not BF16 on a CUDA device takes the path
/// with the dequantized weight. One that is takes the FP8 path: with a scalar-scaled
/// weight of its width it is quantized, into buffers of its own size, which are made
/// where there are none; without such a weight, one is made from weights on a CUDA
/// device.
pub proof fn law_path_goes_by_type_and_device(layer: Fp8Linear, x: Tensor, action: Action)
    requires
        layer.wf(),
        layer.begins(x, action),
    ensures
        ({
            let fp8 = x.storage.element_type() == DType::BF16 && x.storage.place() is Cuda;
            let w = layer.weight;
            let ready = dequant_error(w, layer.scale_inv, DType::BF16) is None
                && w.storage.place() is Cuda;
            let fits = w.dims@.len() == 2 && w.dims@[1] == x.dims@.last();
            let other = action is Dequantize || action is Multiply || action is Finish
                && action->Finish_0 is Err;
            &&& !fp8 ==> other
            &&& fp8 && layer.scalar is None && ready ==> action is DequantizeForFp8
            &&& fp8 && layer.scalar is None && !ready ==> other
            &&& fp8 && layer.scalar is Some && !fits ==> other
            &&& fp8 && layer.scalar is Some && fits && layer.act_numel == Some(
                x.numel() as usize,
            ) ==> action is QuantizeActivation
            &&& fp8 && layer.scalar is Some && fits && layer.act_numel != Some(
                x.numel() as usize,
            ) ==> action is PrepareBuffers
        }),
{
}

/// The weights are quantized again through BF16: a pass that dequantizes them for the
/// FP8 path dequantizes all of them to BF16 where they are, and what it quantizes
/// then is a BF16 tensor of their shape, there, with one scale.
pub proof fn law_weight_goes_through_bf16(
    layer: Fp8Linear,
    x: Tensor,
    action: Action,
    next: Action,
)
    requires
        layer.begins(x, action),
        action is DequantizeForFp8,
        layer.follows(x, action, next),
    ensures
        is_dequant_work(
            layer.weight,
            layer.scale_inv,
            layer.block_size,
            DType::BF16,
            Work::Launch(action->DequantizeForFp8_0),
        ),
        next matches Action::QuantizeWeight { weight, plan } ==> {
            &&& weight.dims@ == layer.weight.dims@
            &&& weight.storage.element_type() == DType::BF16
            &&& weight.storage.place() == layer.weight.storage.place()
            &&& is_scalar_plan(weight, plan)
        },
        next is QuantizeWeight || next is Dequantize || next is Multiply || next is Finish,
{
}

/// The path without FP8 on the host multiplies with the transposed dequantized
/// weight: the element in row `l` and column `j` of the matrix is the weight in row
/// `j` and column `l` times the scale of its block, rounded to the type that the
/// layer was made with.
pub proof fn law_host_path_multiplies_with_the_transposed_weight(
    layer: Fp8Linear,
    action: Action,
    j: int,
    l: int,
)
    requires
        layer.wf(),
        layer.weight.storage.place() == Device::Cpu,
        layer.weight_error() is None,
        layer.falls_back(action),
        layer.scale_inv.dims@.len() == 2,
        layer.block_size.block_r > 0,
        layer.block_size.block_c > 0,
        (layer.scale_inv.dims@[0] - 1) * layer.block_size.block_r < layer.weight.dims@[0]
            <= layer.scale_inv.dims@[0] * layer.block_size.block_r,
        (layer.scale_inv.dims@[1] - 1) * layer.block_size.block_c < layer.weight.dims@[1]
            <= layer.scale_inv.dims@[1] * layer.block_size.block_c,
        0 <= j < layer.weight.dims@[0],
        0 <= l < layer.weight.dims@[1],
    ensures
        action is Multiply,
        ({
            let wt = action->Multiply_0;
            let (w, s) = (layer.weight, layer.scale_inv);
            let (rb, cb) = (
                j / layer.block_size.block_r as int,
                l / layer.block_size.block_c as int,
            );
            let w_at = w.start_offset + j * w.strides@[0] + l * w.strides@[1];
            let s_at = s.start_offset + rb * s.strides@[0] + cb * s.strides@[1];
            &&& wt.wf()
            &&& wt.dims@ == seq![w.dims@[1], w.dims@[0]]
            &&& wt.storage.element_type() == layer.dequant_dtype
            &&& host_bits(wt)[l * w.dims@[0] + j] == narrowed(
                layer.dequant_dtype,
                product(single_of_e4m3(w.storage->F8E4M3_0@[w_at]), s.storage->F32_0@[s_at]),
            )
        }),
{
    let wt = action->Multiply_0;
    let (rows, cols) = (layer.weight.dims@[0] as int, layer.weight.dims@[1] as int);
    let out = choose|out: Tensor| #[trigger]
        is_transpose_of(out, wt) && is_dequant_work(
            layer.weight,
            layer.scale_inv,
            layer.block_size,
            layer.dequant_dtype,
            Work::Done(out),
        );
    law_host_dequantizes_by_blocks(
        layer.weight,
        layer.scale_inv,
        layer.block_size,
        layer.dequant_dtype,
        out,
        j,
        l,
    );
    law_transpose_exchanges(out, wt, j, l);
    lemma_matrix_volume(wt.dims@);
    lemma_matrix_volume(out.dims@);
    assert(0 <= l * rows + j < cols * rows && 0 <= j * cols + l < rows * cols) by (
        nonlinear_arith)
        requires
            0 <= j < rows,
            0 <= l < cols,
    ;
}

/// The path without FP8 elsewhere: weights on a CUDA device are dequantized there to
/// the type that the layer was made with, and weights that cannot be dequantized end
/// the pass with that error.
pub proof fn law_other_path_begins_with_the_weight(layer: Fp8Linear, action: Action)
    requires
        layer.falls_back(action),
    ensures
        layer.weight_error() matches Some(e) ==> action == Action::Finish(Err(e)),
        layer.weight_error() is None && layer.weight.storage.place() is Cuda ==> {
            &&& action is Dequantize
            &&& is_dequant_work(
                layer.weight,
                layer.scale_inv,
                layer.block_size,
                layer.dequant_dtype,
                Work::Launch(action->Dequantize_0),
            )
        },
        layer.weight_error() == dequant_error(
            layer.weight,
            layer.scale_inv,
            layer.dequant_dtype,
        ),
{
}

/// What a pass leaves of a layer: weight, scales, bias, block sides and type are the
/// same, and so is the scalar-scaled weight once there is one.
pub proof fn law_passes_keep_the_layer(layer: Fp8Linear, after: Fp8Linear)
    requires
        layer.evolves_to(after),
    ensures
        after.weight == layer.weight,
        after.scale_inv == layer.scale_inv,
        after.bias == layer.bias,
        after.block_size == layer.block_size,
        after.dequant_dtype == layer.dequant_dtype,
        layer.scalar is Some ==> after.scalar == layer.scalar,
{
}

/// When a pass is within its ranges: layer and activation are valid, the weight can be
/// dequantized to the type of the layer; and on the FP8 path, the weight can be
/// dequantized to BF16 where it is still to be quantized again, and an activation of
/// the width of the weight has no more elements than a launch and a product that can
/// be counted. Nothing else is asked.
pub proof fn law_pass_needs_only_its_ranges(layer: Fp8Linear, x: Tensor)
    requires
        x.numel() <= usize::MAX,
    ensures
        layer.is_defined(x) <==> {
            let (w, s, b) = (layer.weight, layer.scale_inv, layer.block_size);
            let fp8 = x.storage.element_type() == DType::BF16 && x.storage.place() is Cuda;
            let ready = dequant_error(w, s, DType::BF16) is None && w.storage.place() is Cuda;
            &&& w.wf() && s.wf() && x.wf()
            &&& layer.scalar matches Some(scalar) ==> scalar.0.dims@ == w.dims@
            &&& dequant_is_defined(w, s, b, layer.dequant_dtype)
            &&& fp8 && layer.scalar is None ==> dequant_is_defined(w, s, b, DType::BF16)
            &&& fp8 && (layer.scalar is Some || ready) && w.dims@.len() == 2 ==> x.dims@.len()
                >= 1
            &&& fp8 && (layer.scalar is Some || ready) && w.dims@.len() == 2
                && x.dims@.last() == w.dims@[1] ==> {
                &&& x.numel() as int % 0x1_0000_0000 <= 0xffff_ff00
                &&& matrix_rows(x.dims@) * w.dims@[0] <= usize::MAX
            }
        },
{
    law_kernel_is_told_the_low_bits(x.numel() as usize);
}

} // verus!
