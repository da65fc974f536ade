//! Which operands are refused, and for which reason; which are accepted.

use crate::block::{blocks, law_blocks_are_needed, Fp8BlockSize};
use crate::dequant::{dequant_error, dequant_is_defined, dequant_of, is_target};
use crate::dequant::Fp8BlockwiseDequant;
use crate::device::law_kernel_is_told_the_low_bits;
use crate::error::{DType, Device, Error};
use crate::layout::lemma_matrix_volume;
use crate::linear::{activation_error, operand_error, takes_fp8, Fp8Linear};
use crate::quantize::{dynamic_cuda_error, dynamic_error, dynamic_is_defined, matrix_rows};
use crate::quantize::scalar_error;
use crate::tensor::{Storage, Tensor};
use vstd::prelude::*;

verus! {

/// The types that weights can be dequantized to are BF16, F16 and F32.
pub proof fn law_three_targets(target: DType)
    ensures
        is_target(target) <==> target == DType::BF16 || target == DType::F16 || target
            == DType::F32,
{
}

/// A dequantization is refused for the first of these that holds: the weight is not
/// FP8, the scales are not single precision, the weight is no matrix, the two are on
/// different devices, there is no such operation there, or there is none to that
/// type. Nothing else is refused, whatever the sizes.
pub proof fn law_dequantization_is_refused_for_cause(
    weight: Tensor,
    scale_inv: Tensor,
    target: DType,
)
    ensures
        ({
            let (w, s) = (weight.storage, scale_inv.storage);
            let e = dequant_error(weight, scale_inv, target);
            let rank = weight.dims@.len() as usize;
            let typed = w.element_type() == DType::F8E4M3 && s.element_type() == DType::F32;
            let matrix = typed && weight.dims@.len() == 2;
            let together = matrix && w.place() == s.place();
            &&& w.element_type() != DType::F8E4M3 ==> e == Some(
                Error::WeightDType(w.element_type()),
            )
            &&& w.element_type() == DType::F8E4M3 && s.element_type() != DType::F32 ==> e
                == Some(Error::ScaleDType(s.element_type()))
            &&& typed && !matrix ==> e == Some(Error::ExpectedMatrix(rank))
            &&& matrix && !together ==> e == Some(
                Error::DeviceMismatch { lhs: w.place(), rhs: s.place() },
            )
            &&& together && w.place() is Metal ==> e == Some(
                Error::UnsupportedDevice(w.place()),
            )
            &&& together && !(w.place() is Metal) ==> e == (if target == DType::BF16 || target
                == DType::F16 || target == DType::F32 {
                None
            } else {
                Some(Error::TargetDType(target))
            })
        }),
{
}

/// The same for the operation on storages, on the host and on the device.
pub proof fn law_operands_are_refused_for_cause(
    op: Fp8BlockwiseDequant,
    s1: Storage,
    s2: Storage,
)
    ensures
        ({
            let e = op.operand_error(s1, s2);
            let typed = s1.element_type() == DType::F8E4M3 && s2.element_type() == DType::F32;
            let target = op.target_dtype;
            &&& s1.element_type() != DType::F8E4M3 ==> e == Some(
                Error::WeightDType(s1.element_type()),
            )
            &&& s1.element_type() == DType::F8E4M3 && s2.element_type() != DType::F32 ==> e
                == Some(Error::ScaleDType(s2.element_type()))
            &&& typed ==> e == (if target == DType::BF16 || target == DType::F16 || target
                == DType::F32 {
                None
            } else {
                Some(Error::TargetDType(target))
            })
        }),
{
}

/// A dequantization on the host is within its ranges just where the blocks have a
/// width, their number can be counted, and every element has a scale.
pub proof fn law_dequantization_needs_every_scale(
    weight: Tensor,
    scale_inv: Tensor,
    size: Fp8BlockSize,
    target: DType,
)
    requires
        weight.wf(),
        weight.storage.place() == Device::Cpu,
        dequant_error(weight, scale_inv, target) is None,
    ensures
        dequant_is_defined(weight, scale_inv, size, target) <==> {
            let (rows, cols) = (weight.dims@[0] as int, weight.dims@[1] as int);
            let (br, bc) = (size.block_r as int, size.block_c as int);
            &&& bc > 0
            &&& cols + bc - 1 <= usize::MAX
            &&& rows > 0 && cols > 0 ==> br > 0
            &&& forall|r: int, c: int|
                #![trigger r / br, c / bc]
                0 <= r < rows && 0 <= c < cols ==> (r / br) * ((cols + bc - 1) / bc) + c / bc
                    < scale_inv.numel()
        },
{
    let (rows, cols) = (weight.dims@[0] as int, weight.dims@[1] as int);
    let (br, bc) = (size.block_r as int, size.block_c as int);
    let op = dequant_of(weight, size, target);
    let (w, s) = (weight.e4m3_elements(), scale_inv.single_elements());
    lemma_matrix_volume(weight.dims@);
    assert(rows * cols > 0 <==> rows > 0 && cols > 0) by (nonlinear_arith)
        requires
            rows >= 0,
            cols >= 0,
    ;
    if bc > 0 && rows > 0 && cols > 0 && br > 0 {
        let last = (rows - 1) / br * blocks(cols, bc) + (cols - 1) / bc;
        assert(op.last_scale() == last);
        assert forall|r: int, c: int|
            #![trigger r / br, c / bc]
            0 <= r < rows && 0 <= c < cols implies (r / br) * ((cols + bc - 1) / bc) + c / bc
            <= last by {
            law_blocks_are_needed(cols, bc);
            vstd::arithmetic::div_mod::lemma_div_is_ordered(r, rows - 1, br);
            vstd::arithmetic::div_mod::lemma_div_is_ordered(c, cols - 1, bc);
            let wide = blocks(cols, bc);
            assert((r / br) * wide <= ((rows - 1) / br) * wide) by (nonlinear_arith)
                requires
                    r / br <= (rows - 1) / br,
                    wide >= 0,
            ;
        }
        let (at_r, at_c) = ((rows - 1) / br, (cols - 1) / bc);
        assert(at_r * ((cols + bc - 1) / bc) + at_c == last);
    }
}

/// A dequantization on a device is within its ranges wherever the launch is.
pub proof fn law_device_dequantization_needs_a_launch(
    weight: Tensor,
    scale_inv: Tensor,
    size: Fp8BlockSize,
    target: DType,
)
    requires
        weight.wf(),
        weight.storage.place() is Cuda,
        dequant_error(weight, scale_inv, target) is None,
    ensures
        dequant_is_defined(weight, scale_inv, size, target) <==> weight.numel() as int
            % 0x1_0000_0000 <= 0xffff_ff00,
{
    lemma_matrix_volume(weight.dims@);
    assert(weight.dims@.take(2) == weight.dims@);
    law_kernel_is_told_the_low_bits(weight.numel() as usize);
}

/// A blockwise quantization is refused for the first of these that holds: the input
/// is not BF16, it has less than two dimensions, or there is no such operation where
/// it is. Nothing else is refused, whatever the sizes.
pub proof fn law_quantization_is_refused_for_cause(input: Tensor)
    ensures
        ({
            let dtype = input.storage.element_type();
            let place = input.storage.place();
            let e = dynamic_error(input);
            let matrix = dtype == DType::BF16 && input.dims@.len() >= 2;
            &&& dtype != DType::BF16 ==> e == Some(Error::DynamicInputDType(dtype))
            &&& dtype == DType::BF16 && !matrix ==> e == Some(
                Error::DynamicInputRank(input.dims@.len() as usize),
            )
            &&& matrix && place is Metal ==> e == Some(Error::UnsupportedDevice(place))
            &&& matrix && !(place is Metal) ==> e is None
        }),
        ({
            let dtype = input.storage.element_type();
            let place = input.storage.place();
            let e = dynamic_cuda_error(input);
            &&& !(place is Cuda) ==> e == Some(Error::ExpectedCuda(place))
            &&& place is Cuda && dtype != DType::BF16 ==> e == Some(
                Error::DynamicInputDType(dtype),
            )
            &&& place is Cuda && dtype == DType::BF16 ==> e is None
        }),
        ({
            let dtype = input.storage.element_type();
            let place = input.storage.place();
            let e = scalar_error(input);
            &&& dtype != DType::BF16 ==> e == Some(Error::ScalarInputDType(dtype))
            &&& dtype == DType::BF16 && !(place is Cuda) ==> e == Some(
                Error::ExpectedCuda(place),
            )
            &&& dtype == DType::BF16 && place is Cuda ==> e is None
        }),
{
}

/// A blockwise quantization is within its ranges where its blocks can be counted: on
/// the host wherever rows and columns can be rounded up, on a device wherever they
/// and the number of blocks fit its counters.
pub proof fn law_quantization_needs_countable_blocks(input: Tensor, rows: int, cols: int)
    requires
        dynamic_error(input) is None,
        rows == matrix_rows(input.dims@),
        cols == input.dims@.last(),
        rows <= usize::MAX,
    ensures
        input.storage.place() == Device::Cpu ==> (dynamic_is_defined(input) <==> rows + 127
            <= usize::MAX && cols + 127 <= usize::MAX),
        input.storage.place() is Cuda ==> (dynamic_is_defined(input) <==> {
            let (m, k) = (rows % 0x1_0000_0000, cols % 0x1_0000_0000);
            &&& m + 127 <= u32::MAX
            &&& k + 127 <= u32::MAX
            &&& ((k + 127) / 128) * ((m + 127) / 128) <= u32::MAX
        }),
{
    law_kernel_is_told_the_low_bits(rows as usize);
    law_kernel_is_told_the_low_bits(cols as usize);
}

/// The FP8 path is taken by BF16 activations on a CUDA device, and by no others.
pub proof fn law_fp8_path_is_for_bf16_on_cuda(x: Tensor)
    ensures
        takes_fp8(x) <==> x.storage.element_type() == DType::BF16 && x.storage.place() is Cuda,
{
}

/// An activation is refused by the FP8 path for the first of these that holds: the
/// scalar-scaled weight is no matrix, its inner dimension is another, the activation
/// is on no CUDA device, or is not BF16. The operands of the multiplication are
/// refused where one is on no CUDA device or has another type.
pub proof fn law_fp8_operands_are_refused_for_cause(w: Tensor, s: Tensor, x: Tensor)
    ensures
        ({
            let e = activation_error(w, x);
            let matrix = w.dims@.len() == 2;
            let fits = matrix && x.dims@.last() == w.dims@[1];
            let place = x.storage.place();
            let dtype = x.storage.element_type();
            &&& !matrix ==> e == Some(Error::ExpectedMatrix(w.dims@.len() as usize))
            &&& matrix && !fits ==> e == Some(
                Error::InnerDims { activation: x.dims@.last(), weight: w.dims@[1] },
            )
            &&& fits && !(place is Cuda) ==> e == Some(Error::ExpectedCuda(place))
            &&& fits && place is Cuda && dtype != DType::BF16 ==> e == Some(
                Error::ActivationDType(dtype),
            )
            &&& fits && place is Cuda && dtype == DType::BF16 ==> e is None
        }),
        ({
            let e = operand_error(w, s);
            let (wd, sd) = (w.storage.element_type(), s.storage.element_type());
            let (wp, sp) = (w.storage.place(), s.storage.place());
            let ready = wp is Cuda && wd == DType::F8E4M3;
            &&& !(wp is Cuda) ==> e == Some(Error::ExpectedCuda(wp))
            &&& wp is Cuda && wd != DType::F8E4M3 ==> e == Some(Error::ScalarWeightDType(wd))
            &&& ready && !(sp is Cuda) ==> e == Some(Error::ExpectedCuda(sp))
            &&& ready && sp is Cuda && sd != DType::F32 ==> e == Some(
                Error::ScalarScaleDType(sd),
            )
            &&& ready && sp is Cuda && sd == DType::F32 ==> e is None
        }),
{
}

/// A forward pass of a layer on a CUDA device is within its ranges for every
/// activation there of one or more dimensions, as long as the weight and the
/// activation have no more elements than a launch can have, and the product fits.
pub proof fn law_ordinary_passes_are_defined(layer: Fp8Linear, x: Tensor)
    requires
        layer.wf(),
        x.wf(),
        layer.weight.dims@.len() == 2,
        layer.weight.storage.place() is Cuda,
        layer.weight.numel() <= 0xffff_ff00,
        x.dims@.len() >= 1,
        x.numel() <= 0xffff_ff00,
        matrix_rows(x.dims@) * layer.weight.dims@[0] <= usize::MAX,
    ensures
        layer.is_defined(x),
{
    lemma_matrix_volume(layer.weight.dims@);
    assert(layer.weight.dims@.take(2) == layer.weight.dims@);
    assert(x.dims@.take(x.dims@.len() as int) == x.dims@);
    law_kernel_is_told_the_low_bits(layer.weight.numel() as usize);
    law_kernel_is_told_the_low_bits(x.numel() as usize);
}

} // verus!
