//! Blockwise dequantization of FP8 weights.

use crate::block::{blocks, count_blocks, scale_index, Fp8BlockSize};
use crate::convert::{bf16_of, f16_of, narrow_to_bf16, narrow_to_f16, single_of_e4m3, widen_e4m3};
use crate::device::{elementwise, elementwise_config, fits_launch, launch_fits};
use crate::device::{Buffer, Call, DeviceOp, DevicePlan, Kernel, PlanOutput, Work};
use crate::error::{DType, Device, Error};
use crate::layout::{is_compact, lemma_matrix_volume};
use crate::single::{multiply, product};
use crate::tensor::{Storage, Tensor};
use vstd::prelude::*;

verus! {

/// The dequantization of a matrix of FP8 weights.
pub struct Fp8BlockwiseDequant {
    pub rows: usize,
    pub cols: usize,
    pub block_r: usize,
    pub block_c: usize,
    pub target_dtype: DType,
}

/// The single-precision product of an FP8 weight and its scale.
pub open spec fn scaled(weight: u8, scale: u32) -> u32 {
    product(single_of_e4m3(weight), scale)
}

/// The kernel that dequantizes to a type.
pub open spec fn dequant_kernel(target: DType) -> Option<Kernel> {
    match target {
        DType::BF16 => Some(Kernel::DequantBf16),
        DType::F16 => Some(Kernel::DequantF16),
        DType::F32 => Some(Kernel::DequantF32),
        _ => None,
    }
}

/// Whether weights can be dequantized to a type.
pub open spec fn is_target(target: DType) -> bool {
    dequant_kernel(target) is Some
}

impl Fp8BlockwiseDequant {
    /// The name of the operation.
    pub fn name(&self) -> (r: &'static str)
        ensures
            r@ == "fp8-blockwise-dequant"@,
    {
        "fp8-blockwise-dequant"
    }

    /// The dimensions of the matrix.
    pub open spec fn shape(self) -> Seq<usize> {
        seq![self.rows, self.cols]
    }

    /// The dimensions of the matrix.
    fn dims(&self) -> (r: Vec<usize>)
        ensures
            r@ == self.shape(),
    {
        let mut dims: Vec<usize> = Vec::new();
        dims.push(self.rows);
        dims.push(self.cols);
        assert(dims@ =~= self.shape());
        dims
    }

    /// Why the operands are refused, if they are.
    pub open spec fn operand_error(self, s1: Storage, s2: Storage) -> Option<Error> {
        if s1.element_type() != DType::F8E4M3 {
            Some(Error::WeightDType(s1.element_type()))
        } else if s2.element_type() != DType::F32 {
            Some(Error::ScaleDType(s2.element_type()))
        } else if !is_target(self.target_dtype) {
            Some(Error::TargetDType(self.target_dtype))
        } else {
            None
        }
    }

    /// The number of elements of the matrix.
    pub open spec fn numel(self) -> int {
        self.rows * self.cols
    }

    /// Which scale the `idx`-th element has.
    pub open spec fn scale_of(self, idx: int) -> int {
        scale_index(
            idx / self.cols as int,
            idx % self.cols as int,
            self.block_r as int,
            self.block_c as int,
            self.cols as int,
        )
    }

    /// Which scale the last element has.
    pub open spec fn last_scale(self) -> int {
        scale_index(
            self.rows - 1,
            self.cols - 1,
            self.block_r as int,
            self.block_c as int,
            self.cols as int,
        )
    }

    /// The `idx`-th element times its scale, in single precision.
    pub open spec fn value(
        self,
        weight: Seq<u8>,
        w_offset: int,
        scale: Seq<u32>,
        s_offset: int,
        idx: int,
    ) -> u32 {
        scaled(weight[w_offset + idx], scale[s_offset + self.scale_of(idx)])
    }

    /// Every element has a weight and a scale, and no number on the way to them
    /// leaves its range.
    pub open spec fn is_covered(
        self,
        weight: Seq<u8>,
        w_offset: int,
        scale: Seq<u32>,
        s_offset: int,
    ) -> bool {
        self.numel() > 0 ==> {
            &&& self.block_r > 0
            &&& w_offset + self.numel() <= weight.len()
            &&& s_offset + self.last_scale() < scale.len()
        }
    }

    /// `out` holds the dequantized elements, rounded to the target type.
    pub open spec fn is_dequantized(
        self,
        weight: Seq<u8>,
        w_offset: int,
        scale: Seq<u32>,
        s_offset: int,
        out: Storage,
    ) -> bool {
        match (self.target_dtype, out) {
            (DType::BF16, Storage::BF16(data)) => {
                &&& data@.len() == self.numel()
                &&& forall|i: int|
                    0 <= i < self.numel() ==> #[trigger] data@[i] == bf16_of(
                        self.value(weight, w_offset, scale, s_offset, i),
                    )
            },
            (DType::F16, Storage::F16(data)) => {
                &&& data@.len() == self.numel()
                &&& forall|i: int|
                    0 <= i < self.numel() ==> #[trigger] data@[i] == f16_of(
                        self.value(weight, w_offset, scale, s_offset, i),
                    )
            },
            (DType::F32, Storage::F32(data)) => {
                &&& data@.len() == self.numel()
                &&& forall|i: int|
                    0 <= i < self.numel() ==> #[trigger] data@[i] == self.value(
                        weight,
                        w_offset,
                        scale,
                        s_offset,
                        i,
                    )
            },
            _ => false,
        }
    }

    /// No element has a later scale than the last one, and every scale index is a
    /// `usize`.
    pub proof fn lemma_last_scale(self, idx: int)
        requires
            self.block_r > 0,
            self.block_c > 0,
            0 <= idx < self.numel(),
        ensures
            self.cols > 0,
            0 <= idx / self.cols as int,
            0 <= self.scale_of(idx) <= self.last_scale(),
    {
        let (rows, cols) = (self.rows as int, self.cols as int);
        let (br, bc) = (self.block_r as int, self.block_c as int);
        let last = self.numel() - 1;
        assert(cols > 0) by (nonlinear_arith)
            requires
                0 <= idx < rows * cols,
                cols >= 0,
        ;
        assert(rows > 0) by (nonlinear_arith)
            requires
                0 <= idx < rows * cols,
                cols >= 0,
                rows >= 0,
        ;
        assert(last == (rows - 1) * cols + (cols - 1)) by (nonlinear_arith)
            requires
                last == rows * cols - 1,
        ;
        assert((rows - 1) * cols == cols * (rows - 1)) by (nonlinear_arith);
        vstd::arithmetic::div_mod::lemma_fundamental_div_mod_converse(
            last,
            cols,
            rows - 1,
            cols - 1,
        );
        vstd::arithmetic::div_mod::lemma_div_is_ordered(idx, last, cols);
        let (r, c) = (idx / cols, idx % cols);
        vstd::arithmetic::div_mod::lemma_div_pos_is_pos(idx, cols);
        vstd::arithmetic::div_mod::lemma_div_is_ordered(r, rows - 1, br);
        vstd::arithmetic::div_mod::lemma_div_is_ordered(c, cols - 1, bc);
        vstd::arithmetic::div_mod::lemma_div_pos_is_pos(r, br);
        vstd::arithmetic::div_mod::lemma_div_pos_is_pos(c, bc);
        let w = blocks(cols, bc);
        crate::block::law_blocks_are_needed(cols, bc);
        assert(0 <= (r / br) * w <= ((rows - 1) / br) * w) by (nonlinear_arith)
            requires
                0 <= r / br <= (rows - 1) / br,
                w >= 0,
        ;
    }

    /// Multiplies one element with its scale.
    fn element(
        &self,
        weight: &Vec<u8>,
        w_offset: usize,
        scale: &Vec<u32>,
        s_offset: usize,
        scale_cols: usize,
        idx: usize,
    ) -> (r: u32)
        requires
            self.block_c > 0,
            self.is_covered(weight@, w_offset as int, scale@, s_offset as int),
            scale_cols == blocks(self.cols as int, self.block_c as int),
            idx < self.numel(),
        ensures
            r == self.value(weight@, w_offset as int, scale@, s_offset as int, idx as int),
    {
        proof {
            self.lemma_last_scale(idx as int);
        }
        let row = idx / self.cols;
        let col = idx % self.cols;
        let scale_len: usize = scale.len();
        let weight_len: usize = weight.len();
        proof {
            let (a, w) = (row as int / self.block_r as int, scale_cols as int);
            let b = col as int / self.block_c as int;
            assert(a * w >= 0) by (nonlinear_arith)
                requires
                    a >= 0,
                    w >= 0,
            ;
            assert(b >= 0) by {
                vstd::arithmetic::div_mod::lemma_div_pos_is_pos(col as int, self.block_c as int);
            }
            vstd::arithmetic::div_mod::lemma_div_pos_is_pos(row as int, self.block_r as int);
        }
        let w_val: u32 = widen_e4m3(weight[w_offset + idx]);
        let s_val: u32 = scale[s_offset + (row / self.block_r) * scale_cols + col
            / self.block_c];
        multiply(w_val, s_val)
    }

    /// Dequantizes on the host: the element type of the result is the target type,
    /// and each element is the weight times the scale of its block, computed in
    /// single precision and rounded to the target type.
    ///
    /// `w_offset` and `s_offset` are where the weights and the scales start.
    pub fn cpu_fwd(
        &self,
        s1: &Storage,
        w_offset: usize,
        s2: &Storage,
        s_offset: usize,
    ) -> (r: Result<(Storage, Vec<usize>), Error>)
        requires
            s1.place() == Device::Cpu,
            s2.place() == Device::Cpu,
            s1 matches Storage::F8E4M3(w) ==> s2 matches Storage::F32(s) ==> {
                &&& self.block_c > 0
                &&& self.cols + self.block_c - 1 <= usize::MAX
                &&& self.numel() <= usize::MAX
                &&& is_target(self.target_dtype) ==> self.is_covered(
                    w@,
                    w_offset as int,
                    s@,
                    s_offset as int,
                )
            },
        ensures
            r matches Err(e) ==> Some(e) == self.operand_error(*s1, *s2),
            r matches Ok((out, dims)) ==> {
                &&& self.operand_error(*s1, *s2) is None
                &&& dims@ == self.shape()
                &&& self.is_dequantized(
                    s1->F8E4M3_0@,
                    w_offset as int,
                    s2->F32_0@,
                    s_offset as int,
                    out,
                )
            },
    {
        let weight = match s1 {
            Storage::F8E4M3(data) => data,
            _ => {
                return Err(Error::WeightDType(s1.dtype()));
            },
        };
        let scale = match s2 {
            Storage::F32(data) => data,
            _ => {
                return Err(Error::ScaleDType(s2.dtype()));
            },
        };
        let scale_cols = count_blocks(self.cols, self.block_c);
        let numel: usize = self.rows * self.cols;
        let dims = self.dims();
        match self.target_dtype {
            DType::BF16 => {
                let mut out: Vec<u16> = Vec::with_capacity(numel);
                let mut idx: usize = 0;
                while idx < numel
                    invariant
                        idx <= numel,
                        numel == self.numel(),
                        self.block_c > 0,
                        self.is_covered(weight@, w_offset as int, scale@, s_offset as int),
                        scale_cols == blocks(self.cols as int, self.block_c as int),
                        out@.len() == idx,
                        forall|i: int|
                            0 <= i < idx ==> #[trigger] out@[i] == bf16_of(
                                self.value(weight@, w_offset as int, scale@, s_offset as int, i),
                            ),
                    decreases numel - idx,
                {
                    let value: u32 = self.element(
                        weight,
                        w_offset,
                        scale,
                        s_offset,
                        scale_cols,
                        idx,
                    );
                    out.push(narrow_to_bf16(value));
                    idx = idx + 1;
                }
                Ok((Storage::BF16(out), dims))
            },
            DType::F16 => {
                let mut out: Vec<u16> = Vec::with_capacity(numel);
                let mut idx: usize = 0;
                while idx < numel
                    invariant
                        idx <= numel,
                        numel == self.numel(),
                        self.block_c > 0,
                        self.is_covered(weight@, w_offset as int, scale@, s_offset as int),
                        scale_cols == blocks(self.cols as int, self.block_c as int),
                        out@.len() == idx,
                        forall|i: int|
                            0 <= i < idx ==> #[trigger] out@[i] == f16_of(
                                self.value(weight@, w_offset as int, scale@, s_offset as int, i),
                            ),
                    decreases numel - idx,
                {
                    let value: u32 = self.element(
                        weight,
                        w_offset,
                        scale,
                        s_offset,
                        scale_cols,
                        idx,
                    );
                    out.push(narrow_to_f16(value));
                    idx = idx + 1;
                }
                Ok((Storage::F16(out), dims))
            },
            DType::F32 => {
                let mut out: Vec<u32> = Vec::with_capacity(numel);
                let mut idx: usize = 0;
                while idx < numel
                    invariant
                        idx <= numel,
                        numel == self.numel(),
                        self.block_c > 0,
                        self.is_covered(weight@, w_offset as int, scale@, s_offset as int),
                        scale_cols == blocks(self.cols as int, self.block_c as int),
                        out@.len() == idx,
                        forall|i: int|
                            0 <= i < idx ==> #[trigger] out@[i] == self.value(
                                weight@,
                                w_offset as int,
                                scale@,
                                s_offset as int,
                                i,
                            ),
                    decreases numel - idx,
                {
                    let value: u32 = self.element(
                        weight,
                        w_offset,
                        scale,
                        s_offset,
                        scale_cols,
                        idx,
                    );
                    out.push(value);
                    idx = idx + 1;
                }
                Ok((Storage::F32(out), dims))
            },
            other => Err(Error::TargetDType(other)),
        }
    }

    /// The operations that dequantize on the device.
    pub open spec fn device_ops(self) -> Seq<DeviceOp> {
        let kernel = dequant_kernel(self.target_dtype)->Some_0;
        seq![
            DeviceOp::Load(kernel),
            DeviceOp::Alloc {
                buffer: Buffer::Output,
                dtype: self.target_dtype,
                len: self.numel() as usize,
            },
            DeviceOp::Launch {
                call: Call::Dequant {
                    kernel,
                    weight: Buffer::Weight,
                    scale_inv: Buffer::ScaleInv,
                    out: Buffer::Output,
                    rows: self.rows as u32,
                    cols: self.cols as u32,
                    block_r: self.block_r as u32,
                    block_c: self.block_c as u32,
                },
                config: elementwise_config(self.numel() as usize),
            },
        ]
    }

    /// Lays down how to dequantize on the device.
    pub fn cuda_fwd(&self, s1: &Storage, s2: &Storage) -> (r: Result<DevicePlan, Error>)
        requires
            self.operand_error(*s1, *s2) is None ==> {
                &&& self.numel() <= usize::MAX
                &&& launch_fits(self.numel() as usize)
            },
        ensures
            r matches Err(e) ==> Some(e) == self.operand_error(*s1, *s2),
            r matches Ok(plan) ==> {
                &&& self.operand_error(*s1, *s2) is None
                &&& plan.device == s1.place()
                &&& plan.ops@ == self.device_ops()
                &&& self.leaves_matrix(plan)
            },
    {
        if s1.dtype() != DType::F8E4M3 {
            return Err(Error::WeightDType(s1.dtype()));
        }
        if s2.dtype() != DType::F32 {
            return Err(Error::ScaleDType(s2.dtype()));
        }
        let kernel = match self.target_dtype {
            DType::BF16 => Kernel::DequantBf16,
            DType::F16 => Kernel::DequantF16,
            DType::F32 => Kernel::DequantF32,
            other => {
                return Err(Error::TargetDType(other));
            },
        };
        let numel: usize = self.rows * self.cols;
        let config = elementwise(numel);
        let call = Call::Dequant {
            kernel,
            weight: Buffer::Weight,
            scale_inv: Buffer::ScaleInv,
            out: Buffer::Output,
            rows: #[verifier::truncate]
            (self.rows as u32),
            cols: #[verifier::truncate]
            (self.cols as u32),
            block_r: #[verifier::truncate]
            (self.block_r as u32),
            block_c: #[verifier::truncate]
            (self.block_c as u32),
        };
        let mut ops: Vec<DeviceOp> = Vec::new();
        ops.push(DeviceOp::Load(kernel));
        ops.push(
            DeviceOp::Alloc { buffer: Buffer::Output, dtype: self.target_dtype, len: numel },
        );
        ops.push(DeviceOp::Launch { call, config });
        assert(ops@ =~= self.device_ops());
        let mut outputs: Vec<PlanOutput> = Vec::new();
        outputs.push(
            PlanOutput { buffer: Buffer::Output, dtype: self.target_dtype, dims: self.dims() },
        );
        Ok(DevicePlan { device: s1.device(), ops, outputs })
    }

    /// A program leaves the dequantized matrix.
    pub open spec fn leaves_matrix(self, plan: DevicePlan) -> bool {
        &&& plan.outputs@.len() == 1
        &&& plan.outputs@[0].buffer == Buffer::Output
        &&& plan.outputs@[0].dtype == self.target_dtype
        &&& plan.outputs@[0].dims@ == self.shape()
    }
}

/// The dequantization of a matrix tensor.
pub open spec fn dequant_of(
    weight: Tensor,
    block_size: Fp8BlockSize,
    target_dtype: DType,
) -> Fp8BlockwiseDequant {
    Fp8BlockwiseDequant {
        rows: weight.dims@[0],
        cols: weight.dims@[1],
        block_r: block_size.block_r,
        block_c: block_size.block_c,
        target_dtype,
    }
}

/// Why a dequantization is refused, if it is.
pub open spec fn dequant_error(
    weight: Tensor,
    scale_inv: Tensor,
    target_dtype: DType,
) -> Option<Error> {
    if weight.storage.element_type() != DType::F8E4M3 {
        Some(Error::WeightDType(weight.storage.element_type()))
    } else if scale_inv.storage.element_type() != DType::F32 {
        Some(Error::ScaleDType(scale_inv.storage.element_type()))
    } else if weight.dims@.len() != 2 {
        Some(Error::ExpectedMatrix(weight.dims@.len() as usize))
    } else if weight.storage.place() != scale_inv.storage.place() {
        Some(
            Error::DeviceMismatch {
                lhs: weight.storage.place(),
                rhs: scale_inv.storage.place(),
            },
        )
    } else if weight.storage.place() is Metal {
        Some(Error::UnsupportedDevice(weight.storage.place()))
    } else if !is_target(target_dtype) {
        Some(Error::TargetDType(target_dtype))
    } else {
        None
    }
}

/// On the host, the block widths are usable; once nothing else is in the way, no
/// element lacks a scale, and on a device the launch is in range.
pub open spec fn dequant_is_defined(
    weight: Tensor,
    scale_inv: Tensor,
    block_size: Fp8BlockSize,
    target_dtype: DType,
) -> bool {
    let op = dequant_of(weight, block_size, target_dtype);
    let error = dequant_error(weight, scale_inv, target_dtype);
    let on_host = weight.storage.place() == Device::Cpu;
    &&& on_host && (error is None || error->0 is TargetDType) ==> {
        &&& op.block_c > 0
        &&& op.cols + op.block_c - 1 <= usize::MAX
    }
    &&& on_host && error is None ==> op.is_covered(
        weight.e4m3_elements(),
        0,
        scale_inv.single_elements(),
        0,
    )
    &&& !on_host && error is None ==> launch_fits(op.numel() as usize)
}

/// Whether the tensors are valid and their dequantization is within its ranges, for
/// callers that cannot know.
pub fn check_dequant(
    weight: &Tensor,
    scale_inv: &Tensor,
    block_size: &Fp8BlockSize,
    target_dtype: DType,
) -> (r: bool)
    ensures
        r == {
            &&& weight.wf()
            &&& scale_inv.wf()
            &&& dequant_is_defined(*weight, *scale_inv, *block_size, target_dtype)
        },
{
    if !weight.is_valid() || !scale_inv.is_valid() {
        return false;
    }
    if weight.dtype() != DType::F8E4M3 || scale_inv.dtype() != DType::F32 {
        return true;
    }
    let (rows, cols) = match weight.dims2() {
        Ok(dims) => dims,
        Err(_) => {
            return true;
        },
    };
    let place = weight.device();
    if place != scale_inv.device() {
        return true;
    }
    let on_host = match place {
        Device::Cpu => true,
        Device::Cuda { .. } => false,
        Device::Metal { .. } => {
            return true;
        },
    };
    let supported: bool = match target_dtype {
        DType::BF16 | DType::F16 | DType::F32 => true,
        _ => false,
    };
    proof {
        lemma_matrix_volume(weight.dims@);
        assert(weight.dims@.take(2) == weight.dims@);
    }
    let numel: usize = rows * cols;
    let (block_r, block_c) = (block_size.block_r, block_size.block_c);
    if !on_host {
        return !supported || fits_launch(numel);
    }
    if block_c == 0 || cols > usize::MAX - (block_c - 1) {
        return false;
    }
    if !supported || numel == 0 {
        return true;
    }
    if block_r == 0 {
        return false;
    }
    let ghost op = dequant_of(*weight, *block_size, target_dtype);
    assert(rows > 0 && cols > 0) by (nonlinear_arith)
        requires
            rows * cols > 0,
            rows >= 0,
            cols >= 0,
    ;
    let (r, c) = (rows - 1, cols - 1);
    let scale_cols = count_blocks(cols, block_c);
    let count = scale_inv.elem_count();
    assert(op.last_scale() == (r / block_r) * scale_cols + c / block_c);
    match (r / block_r).checked_mul(scale_cols) {
        Some(first) => match first.checked_add(c / block_c) {
            Some(at) => at < count,
            None => false,
        },
        None => false,
    }
}

/// The operations that dequantize tensors on a device.
pub open spec fn dequant_ops(op: Fp8BlockwiseDequant) -> Seq<DeviceOp> {
    seq![
        DeviceOp::Contiguous(Buffer::Weight),
        DeviceOp::Contiguous(Buffer::ScaleInv),
    ] + op.device_ops()
}

/// A program dequantizes `weight`.
pub open spec fn is_dequant_plan(
    weight: Tensor,
    block_size: Fp8BlockSize,
    target_dtype: DType,
    plan: DevicePlan,
) -> bool {
    &&& plan.device == weight.storage.place()
    &&& plan.ops@ == dequant_ops(dequant_of(weight, block_size, target_dtype))
    &&& plan.outputs@.len() == 1
    &&& plan.outputs@[0].buffer == Buffer::Output
    &&& plan.outputs@[0].dtype == target_dtype
    &&& plan.outputs@[0].dims@ == weight.dims@
}

/// A dequantization is done on the host and left to the device elsewhere.
pub open spec fn is_dequant_work(
    weight: Tensor,
    scale_inv: Tensor,
    block_size: Fp8BlockSize,
    target_dtype: DType,
    work: Work<Tensor>,
) -> bool {
    match work {
        Work::Done(out) => {
            &&& weight.storage.place() == Device::Cpu
            &&& out.wf()
            &&& out.dims@ == weight.dims@
            &&& is_compact(out.dims@, out.strides@)
            &&& out.start_offset == 0
            &&& dequant_of(weight, block_size, target_dtype).is_dequantized(
                weight.e4m3_elements(),
                0,
                scale_inv.single_elements(),
                0,
                out.storage,
            )
        },
        Work::Launch(plan) => {
            &&& weight.storage.place() is Cuda
            &&& is_dequant_plan(weight, block_size, target_dtype, plan)
        },
    }
}

/// A device leaves a tensor of the shape and type that the host leaves for a weight
/// of the same shape.
pub proof fn law_device_dequantizes_to_the_shape_of_the_host(
    near: (Tensor, Tensor),
    far: (Tensor, Tensor),
    block_size: Fp8BlockSize,
    target_dtype: DType,
    out: Tensor,
    plan: DevicePlan,
)
    requires
        near.0.dims@ == far.0.dims@,
        is_dequant_work(near.0, near.1, block_size, target_dtype, Work::Done(out)),
        is_dequant_work(far.0, far.1, block_size, target_dtype, Work::Launch(plan)),
    ensures
        plan.device == far.0.storage.place(),
        plan.outputs@[0].dims@ == out.dims@,
        plan.outputs@[0].dtype == out.storage.element_type(),
{
}

/// Dequantize an FP8 E4M3 weight tensor using blockwise scales.
///
/// `weight`:    `[rows, cols]` tensor in `F8E4M3`
/// `scale_inv`: `[ceil(rows/block_r), ceil(cols/block_c)]` tensor in `F32`
///
/// Returns a tensor of shape `[rows, cols]` in `target_dtype`, or the program
/// that computes it where the operands are on a device.
pub fn fp8_blockwise_dequant(
    weight: &Tensor,
    scale_inv: &Tensor,
    block_size: &Fp8BlockSize,
    target_dtype: DType,
) -> (r: Result<Work<Tensor>, Error>)
    requires
        weight.wf(),
        scale_inv.wf(),
        dequant_is_defined(*weight, *scale_inv, *block_size, target_dtype),
    ensures
        r is Ok <==> dequant_error(*weight, *scale_inv, target_dtype) is None,
        r matches Err(e) ==> dequant_error(*weight, *scale_inv, target_dtype) == Some(e),
        r matches Ok(work) ==> is_dequant_work(
            *weight,
            *scale_inv,
            *block_size,
            target_dtype,
            work,
        ),
{
    if weight.dtype() != DType::F8E4M3 {
        return Err(Error::WeightDType(weight.dtype()));
    }
    if scale_inv.dtype() != DType::F32 {
        return Err(Error::ScaleDType(scale_inv.dtype()));
    }
    let (rows, cols) = match weight.dims2() {
        Ok(dims) => dims,
        Err(e) => {
            return Err(e);
        },
    };
    let lhs = weight.device();
    let rhs = scale_inv.device();
    if lhs != rhs {
        return Err(Error::DeviceMismatch { lhs, rhs });
    }
    let op = Fp8BlockwiseDequant {
        rows,
        cols,
        block_r: block_size.block_r,
        block_c: block_size.block_c,
        target_dtype,
    };
    proof {
        assert(op.shape() =~= weight.dims@);
        lemma_matrix_volume(weight.dims@);
        assert(weight.dims@.take(2) == weight.dims@);
    }
    match lhs {
        Device::Cpu => {
            let w = weight.contiguous();
            let s = scale_inv.contiguous();
            proof {
                assert(w->F8E4M3_0@ =~= weight.e4m3_elements());
                assert(s->F32_0@ =~= scale_inv.single_elements());
            }
            let (out, dims) = match op.cpu_fwd(&w, 0, &s, 0) {
                Ok(out) => out,
                Err(e) => {
                    return Err(e);
                },
            };
            match Tensor::from_vec(out, dims) {
                Ok(out) => Ok(Work::Done(out)),
                Err(e) => Err(e),
            }
        },
        Device::Cuda { .. } => {
            let mut ops: Vec<DeviceOp> = Vec::new();
            ops.push(DeviceOp::Contiguous(Buffer::Weight));
            ops.push(DeviceOp::Contiguous(Buffer::ScaleInv));
            match op.cuda_fwd(&weight.storage, &scale_inv.storage) {
                Ok(plan) => {
                    let DevicePlan { device, ops: mut rest, outputs } = plan;
                    ops.append(&mut rest);
                    assert(ops@ =~= dequant_ops(op));
                    Ok(Work::Launch(DevicePlan { device, ops, outputs }))
                },
                Err(e) => Err(e),
            }
        },
        Device::Metal { .. } => Err(Error::UnsupportedDevice(lhs)),
    }
}

} // verus!
