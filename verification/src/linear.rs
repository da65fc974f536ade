//! A linear layer backed by FP8 weights.
//!
//! A forward pass alternates decisions, which are made here, with work on
//! tensors, which the caller does. [`Fp8Linear::forward`] gives the first
//! [`Action`]; the caller carries it out and hands what came of it to the method
//! that the action names, which gives the next one.

use crate::block::Fp8BlockSize;
use crate::dequant::{check_dequant, fp8_blockwise_dequant};
use crate::dequant::{dequant_error, dequant_is_defined};
use crate::dequant::{is_dequant_plan, is_dequant_work};
use crate::device::{elementwise, fits_launch, reduction, single_thread};
use crate::device::{elementwise_config, kernel_count, launch_fits, reduction_config};
use crate::device::{single_thread_config, Buffer, Call, DeviceOp, DevicePlan, Kernel, Work};
use crate::error::{DType, Device, Error};
use crate::gemm::{fp8_matmul_scalar, gemm_plan, GemmPlan, ScaleMode};
use crate::layout::{lemma_matrix_volume, same_dims, volume};
use crate::quantize::{fp8_scalar_quantize, is_scalar_plan, matrix_rows, matrix_shape};
use crate::tensor::{is_transpose_of, Tensor};
use vstd::prelude::*;

verus! {

/// A linear layer backed by FP8 E4M3 weights.
///
/// On CUDA it multiplies in FP8 with one scale for each operand. For that the
/// blockwise-scaled weights are dequantized to BF16 and quantized again, once,
/// when they are first needed. Where that fails, and elsewhere, it multiplies with
/// the weights dequantized to `dequant_dtype`.
///
/// What a pass makes is kept here for the passes after it. The copies of a layer
/// that run side by side share one value of this type, so that what one of them
/// makes is there for all.
#[derive(Debug)]
pub struct Fp8Linear {
    pub weight: Tensor,
    pub scale_inv: Tensor,
    pub bias: Option<Tensor>,
    pub block_size: Fp8BlockSize,
    pub dequant_dtype: DType,
    /// The scalar-scaled weight and its scale, once they are made.
    pub scalar: Option<(Tensor, Tensor)>,
    /// For how many elements the activation buffers were made, once they are.
    pub act_numel: Option<usize>,
}

/// An FP8 multiplication and the dimensions of its result.
#[derive(Debug)]
pub struct Fp8Product {
    /// The device to run it on, which then holds the result.
    pub device: Device,
    pub gemm: GemmPlan,
    pub dims: Vec<usize>,
}

/// What is to be done next in a forward pass.
#[derive(Debug)]
pub enum Action {
    /// Dequantize the weight for the FP8 path; go on with
    /// [`Fp8Linear::weight_for_fp8`].
    DequantizeForFp8(DevicePlan),
    /// Quantize this weight; go on with [`Fp8Linear::scalar_weight_made`].
    QuantizeWeight { weight: Tensor, plan: DevicePlan },
    /// Make the buffers for the activation, on its device; go on with
    /// [`Fp8Linear::buffers_made`].
    PrepareBuffers(Vec<DeviceOp>),
    /// Quantize the activation, on its device; go on with
    /// [`Fp8Linear::activation_quantized`].
    QuantizeActivation(Vec<DeviceOp>),
    /// Multiply in FP8; go on with [`Fp8Linear::fp8_product_made`].
    MultiplyFp8(Fp8Product),
    /// Add the bias to this tensor; go on with [`Fp8Linear::fp8_bias_added`].
    AddFp8Bias(Tensor),
    /// Dequantize the weight; go on with [`Fp8Linear::weight_made`].
    Dequantize(DevicePlan),
    /// Multiply the activation with this matrix; go on with
    /// [`Fp8Linear::product_made`].
    Multiply(Tensor),
    /// Add the bias to this tensor; go on with [`Fp8Linear::bias_added`].
    AddBias(Tensor),
    /// The pass is over, with this result.
    Finish(Result<Tensor, Error>),
}

impl Action {
    /// How far a pass is.
    pub open spec fn stage(self) -> nat {
        match self {
            Action::DequantizeForFp8(_) => 0,
            Action::QuantizeWeight { .. } => 1,
            Action::PrepareBuffers(_) => 2,
            Action::QuantizeActivation(_) => 3,
            Action::MultiplyFp8(_) => 4,
            Action::AddFp8Bias(_) => 5,
            Action::Dequantize(_) => 6,
            Action::Multiply(_) => 7,
            Action::AddBias(_) => 8,
            Action::Finish(_) => 9,
        }
    }
}

/// The operations that make the activation buffers.
pub open spec fn buffer_ops(numel: usize) -> Seq<DeviceOp> {
    seq![
        DeviceOp::Contiguous(Buffer::Input),
        DeviceOp::Alloc { buffer: Buffer::ActivationFp8, dtype: DType::F8E4M3, len: numel },
        DeviceOp::AllocZeros { buffer: Buffer::ActivationScale, dtype: DType::F32, len: 1 },
    ]
}

/// The operations that quantize an activation into the buffers: the scale is set
/// to zero, becomes the largest absolute value, then the scale, and every element
/// is divided by it.
pub open spec fn activation_ops(numel: usize) -> Seq<DeviceOp> {
    seq![
        DeviceOp::Contiguous(Buffer::Input),
        DeviceOp::Load(Kernel::ZeroScale),
        DeviceOp::Launch {
            call: Call::ZeroScale { scale: Buffer::ActivationScale },
            config: single_thread_config(),
        },
        DeviceOp::Load(Kernel::Absmax),
        DeviceOp::Launch {
            call: Call::Absmax {
                input: Buffer::Input,
                scale: Buffer::ActivationScale,
                numel: kernel_count(numel),
            },
            config: reduction_config(numel),
        },
        DeviceOp::Load(Kernel::ComputeScale),
        DeviceOp::Launch {
            call: Call::ComputeScale { scale: Buffer::ActivationScale },
            config: single_thread_config(),
        },
        DeviceOp::Load(Kernel::QuantizeScalar),
        DeviceOp::Launch {
            call: Call::QuantizeScalar {
                input: Buffer::Input,
                out: Buffer::ActivationFp8,
                scale: Buffer::ActivationScale,
                numel: kernel_count(numel),
            },
            config: elementwise_config(numel),
        },
    ]
}

/// Whether an activation takes the FP8 path.
pub open spec fn takes_fp8(x: Tensor) -> bool {
    x.storage.element_type() == DType::BF16 && x.storage.place() is Cuda
}

/// Why the activation does not fit the scalar-scaled weight, if it does not.
pub open spec fn activation_error(scalar_w: Tensor, x: Tensor) -> Option<Error> {
    if scalar_w.dims@.len() != 2 {
        Some(Error::ExpectedMatrix(scalar_w.dims@.len() as usize))
    } else if x.dims@.last() != scalar_w.dims@[1] {
        Some(Error::InnerDims { activation: x.dims@.last(), weight: scalar_w.dims@[1] })
    } else if !(x.storage.place() is Cuda) {
        Some(Error::ExpectedCuda(x.storage.place()))
    } else if x.storage.element_type() != DType::BF16 {
        Some(Error::ActivationDType(x.storage.element_type()))
    } else {
        None
    }
}

/// Why the scalar-scaled weight cannot be multiplied in FP8, if it cannot.
pub open spec fn operand_error(scalar_w: Tensor, scalar_s: Tensor) -> Option<Error> {
    if !(scalar_w.storage.place() is Cuda) {
        Some(Error::ExpectedCuda(scalar_w.storage.place()))
    } else if scalar_w.storage.element_type() != DType::F8E4M3 {
        Some(Error::ScalarWeightDType(scalar_w.storage.element_type()))
    } else if !(scalar_s.storage.place() is Cuda) {
        Some(Error::ExpectedCuda(scalar_s.storage.place()))
    } else if scalar_s.storage.element_type() != DType::F32 {
        Some(Error::ScalarScaleDType(scalar_s.storage.element_type()))
    } else {
        None
    }
}

/// The dimensions of the product of an activation and a weight of `n` rows.
pub open spec fn product_dims(x: Seq<usize>, n: usize) -> Seq<usize> {
    x.drop_last().push(n)
}

/// The counts that the FP8 path computes for `x` are in range.
pub open spec fn fp8_fits(weight: Tensor, x: Tensor) -> bool {
    weight.dims@.len() == 2 ==> {
        &&& x.dims@.len() >= 1
        &&& x.dims@.last() == weight.dims@[1] ==> {
            &&& launch_fits(x.numel() as usize)
            &&& matrix_rows(x.dims@) * weight.dims@[0] <= usize::MAX
        }
    }
}

impl Fp8Linear {
    /// The tensors are within their storages, and the scalar-scaled weight has the
    /// shape of the weight.
    pub open spec fn wf(self) -> bool {
        &&& self.weight.wf()
        &&& self.scale_inv.wf()
        &&& self.scalar matches Some(scalar) ==> scalar.0.dims@ == self.weight.dims@
    }

    /// Why the weight cannot be dequantized, if it cannot.
    pub open spec fn weight_error(self) -> Option<Error> {
        dequant_error(self.weight, self.scale_inv, self.dequant_dtype)
    }

    /// Why the weight cannot be dequantized for the FP8 path, if it cannot.
    pub open spec fn bf16_error(self) -> Option<Error> {
        dequant_error(self.weight, self.scale_inv, DType::BF16)
    }

    /// A dequantization of the weight to a type is within its ranges.
    pub open spec fn dequant_fits(self, target: DType) -> bool {
        dequant_is_defined(self.weight, self.scale_inv, self.block_size, target)
    }

    /// The weight is on the device that can quantize it again.
    pub open spec fn can_requantize(self) -> bool {
        &&& self.bf16_error() is None
        &&& self.weight.storage.place() is Cuda
    }

    /// A forward pass for `x` is within the ranges of the numbers on its way.
    pub open spec fn is_defined(self, x: Tensor) -> bool {
        &&& self.wf()
        &&& x.wf()
        &&& self.dequant_fits(self.dequant_dtype)
        &&& takes_fp8(x) && self.scalar is None ==> self.dequant_fits(DType::BF16)
        &&& takes_fp8(x) && (self.scalar is Some || self.can_requantize()) ==> fp8_fits(
            self.weight,
            x,
        )
    }

    /// There is a scalar-scaled weight, and `x` takes the FP8 path and has the width
    /// of the weight.
    pub open spec fn accepts(self, x: Tensor) -> bool {
        &&& takes_fp8(x)
        &&& self.scalar is Some
        &&& self.weight.dims@.len() == 2
        &&& self.weight.dims@[1] == x.dims@.last()
    }

    /// Two layers differ at most in what the FP8 path has made for later passes.
    pub open spec fn same_layer(self, other: Self) -> bool {
        &&& self.weight == other.weight
        &&& self.scale_inv == other.scale_inv
        &&& self.bias == other.bias
        &&& self.block_size == other.block_size
        &&& self.dequant_dtype == other.dequant_dtype
    }

    /// What later passes can find changed: nothing but the buffers and, once, that
    /// there is a scalar-scaled weight.
    pub open spec fn evolves_to(self, after: Self) -> bool {
        &&& self.same_layer(after)
        &&& self.scalar is Some ==> after.scalar == self.scalar
    }

    /// A tensor is the weight as the device leaves it for the FP8 path.
    pub open spec fn is_bf16_weight(self, w: Tensor) -> bool {
        &&& w.wf()
        &&& w.dims@ == self.weight.dims@
        &&& w.storage.element_type() == DType::BF16
        &&& w.storage.place() == self.weight.storage.place()
    }

    /// The first action of the path that multiplies with the dequantized weight.
    pub open spec fn falls_back(self, action: Action) -> bool {
        match self.weight_error() {
            Some(e) => action == Action::Finish(Err(e)),
            None => match action {
                Action::Multiply(wt) => {
                    &&& self.weight.storage.place() == Device::Cpu
                    &&& wt.wf()
                    &&& exists|w: Tensor| #[trigger] is_transpose_of(w, wt) && is_dequant_work(
                        self.weight,
                        self.scale_inv,
                        self.block_size,
                        self.dequant_dtype,
                        Work::Done(w),
                    )
                },
                Action::Dequantize(plan) => {
                    &&& self.weight.storage.place() is Cuda
                    &&& is_dequant_plan(self.weight, self.block_size, self.dequant_dtype, plan)
                },
                _ => false,
            },
        }
    }

    /// The buffers for the activation are made.
    pub open spec fn prepares(self, x: Tensor, action: Action) -> bool {
        action matches Action::PrepareBuffers(ops) && ops@ == buffer_ops(x.numel() as usize)
    }

    /// The activation is quantized into the buffers.
    pub open spec fn quantizes(self, x: Tensor, action: Action) -> bool {
        action matches Action::QuantizeActivation(ops) && ops@ == activation_ops(
            x.numel() as usize,
        )
    }

    /// The quantized activation is multiplied with the scalar-scaled weight.
    pub open spec fn multiplies(self, x: Tensor, action: Action) -> bool {
        action matches Action::MultiplyFp8(product) && is_fp8_product(
            self.weight.dims@[0],
            x,
            product,
        )
    }

    /// The activation is quantized, into new buffers where those of an earlier pass
    /// do not fit.
    pub open spec fn takes_activation(self, x: Tensor, action: Action) -> bool {
        if self.act_numel == Some(x.numel() as usize) {
            self.quantizes(x, action)
        } else {
            self.prepares(x, action)
        }
    }

    /// The action that follows once there is a scalar-scaled weight.
    pub open spec fn goes_on_with_scalar(self, x: Tensor, action: Action) -> bool {
        match activation_error(self.scalar->Some_0.0, x) {
            Some(_) => self.falls_back(action),
            None => self.takes_activation(x, action),
        }
    }

    /// `b` is an action that can come after `a`, whatever the answer to `a` is.
    pub open spec fn follows(self, x: Tensor, a: Action, b: Action) -> bool {
        match a {
            Action::DequantizeForFp8(_) => self.falls_back(b) || (
            b matches Action::QuantizeWeight { weight, plan } && self.is_bf16_weight(weight)
                && is_scalar_plan(weight, plan)),
            Action::QuantizeWeight { .. } => self.falls_back(b) || self.takes_activation(x, b),
            Action::PrepareBuffers(_) => self.falls_back(b) || self.quantizes(x, b),
            Action::QuantizeActivation(_) => self.falls_back(b) || self.multiplies(x, b),
            Action::MultiplyFp8(_) => self.falls_back(b) || (if self.bias is Some {
                b is AddFp8Bias
            } else {
                b is Finish && b->Finish_0 is Ok
            }),
            Action::AddFp8Bias(_) => self.falls_back(b) || b is Finish && b->Finish_0 is Ok,
            Action::Dequantize(_) => b is Multiply || b is Finish && b->Finish_0 is Err,
            Action::Multiply(_) => b is Finish && b->Finish_0 is Err || (if self.bias is Some {
                b is AddBias
            } else {
                b is Finish && b->Finish_0 is Ok
            }),
            Action::AddBias(_) => b is Finish,
            Action::Finish(_) => false,
        }
    }

    /// The actions of a forward pass, from the first on.
    pub open spec fn is_run(self, x: Tensor, run: Seq<Action>) -> bool {
        &&& run.len() > 0
        &&& self.begins(x, run[0])
        &&& forall|i: int|
            #![trigger run[i]]
            0 < i < run.len() ==> self.follows(x, run[i - 1], run[i])
    }

    /// The first action of a forward pass.
    pub open spec fn begins(self, x: Tensor, action: Action) -> bool {
        if !takes_fp8(x) {
            self.falls_back(action)
        } else if self.scalar is Some {
            self.goes_on_with_scalar(x, action)
        } else if self.can_requantize() {
            action matches Action::DequantizeForFp8(plan) && is_dequant_plan(
                self.weight,
                self.block_size,
                DType::BF16,
                plan,
            )
        } else {
            self.falls_back(action)
        }
    }
}

impl Fp8Linear {
    /// A layer with weights `[n, k]` in F8E4M3, their blockwise scales, and what is
    /// to be added to the product.
    pub fn new(
        weight: Tensor,
        scale_inv: Tensor,
        bias: Option<Tensor>,
        block_size: Fp8BlockSize,
        dequant_dtype: DType,
    ) -> (r: Self)
        ensures
            r == (Fp8Linear {
                weight,
                scale_inv,
                bias,
                block_size,
                dequant_dtype,
                scalar: None,
                act_numel: None,
            }),
    {
        Self {
            weight,
            scale_inv,
            bias,
            block_size,
            dequant_dtype,
            scalar: None,
            act_numel: None,
        }
    }

    /// The FP8 weights.
    pub fn weight(&self) -> (r: &Tensor)
        ensures
            *r == self.weight,
    {
        &self.weight
    }

    /// The blockwise scales of the weights.
    pub fn scale_inv(&self) -> (r: &Tensor)
        ensures
            *r == self.scale_inv,
    {
        &self.scale_inv
    }

    /// The bias, if there is one.
    pub fn bias(&self) -> (r: Option<&Tensor>)
        ensures
            r is Some <==> self.bias is Some,
            r matches Some(bias) ==> *bias == self.bias->0,
    {
        match &self.bias {
            Some(bias) => Some(bias),
            None => None,
        }
    }

    /// Dequantizes the weights, or lays down how to.
    pub fn dequantized_weight(&self) -> (r: Result<Work<Tensor>, Error>)
        requires
            self.wf(),
            self.dequant_fits(self.dequant_dtype),
        ensures
            r is Ok <==> self.weight_error() is None,
            r matches Err(e) ==> self.weight_error() == Some(e),
            r matches Ok(work) ==> is_dequant_work(
                self.weight,
                self.scale_inv,
                self.block_size,
                self.dequant_dtype,
                work,
            ),
    {
        fp8_blockwise_dequant(&self.weight, &self.scale_inv, &self.block_size, self.dequant_dtype)
    }

    /// Whether the tensors are within their storages, and the scalar-scaled weight has
    /// the shape of the weight.
    pub fn is_valid(&self) -> (r: bool)
        ensures
            r == self.wf(),
    {
        let same_shape: bool = match &self.scalar {
            Some(scalar) => same_dims(&scalar.0.dims, &self.weight.dims),
            None => true,
        };
        self.weight.is_valid() && self.scale_inv.is_valid() && same_shape
    }

    /// Whether layer and activation are valid and a forward pass is within its ranges,
    /// for callers that cannot know.
    pub fn check_forward(&self, x: &Tensor) -> (r: bool)
        ensures
            r == self.is_defined(*x),
    {
        if !self.is_valid() || !x.is_valid() {
            return false;
        }
        let (weight, scale_inv, size) = (&self.weight, &self.scale_inv, &self.block_size);
        if !check_dequant(weight, scale_inv, size, self.dequant_dtype) {
            return false;
        }
        if x.dtype() != DType::BF16 || !x.device().is_cuda() {
            return true;
        }
        if self.scalar.is_none() {
            if !check_dequant(weight, scale_inv, size, DType::BF16) {
                return false;
            }
            if weight.dtype() != DType::F8E4M3 || scale_inv.dtype() != DType::F32
                || !weight.device().is_cuda() || weight.device() != scale_inv.device() {
                return true;
            }
        }
        let (n, k) = match weight.dims2() {
            Ok(dims) => dims,
            Err(_) => {
                return true;
            },
        };
        if x.dims.len() == 0 {
            return false;
        }
        let (m, width) = matrix_shape(x);
        width != k || (fits_launch(x.elem_count()) && m.checked_mul(n).is_some())
    }

    /// Looks for a scalar-scaled weight: there is one, or this is how to dequantize
    /// the weight to BF16, from which it is then made.
    pub fn ensure_scalar_weight(&self) -> (r: Result<Work<()>, Error>)
        requires
            self.wf(),
            self.scalar is None ==> self.dequant_fits(DType::BF16),
        ensures
            match r {
                Ok(Work::Done(_)) => self.scalar is Some,
                Ok(Work::Launch(plan)) => {
                    &&& self.scalar is None
                    &&& self.can_requantize()
                    &&& is_dequant_plan(self.weight, self.block_size, DType::BF16, plan)
                },
                Err(e) => {
                    &&& self.scalar is None
                    &&& !self.can_requantize()
                    &&& e == (match self.bf16_error() {
                        Some(e) => e,
                        None => Error::ExpectedCuda(self.weight.storage.place()),
                    })
                },
            },
    {
        if self.scalar.is_some() {
            return Ok(Work::Done(()));
        }
        match fp8_blockwise_dequant(
            &self.weight,
            &self.scale_inv,
            &self.block_size,
            DType::BF16,
        ) {
            Ok(Work::Done(w)) => match fp8_scalar_quantize(&w) {
                Ok(plan) => Ok(Work::Launch(plan)),
                Err(e) => Err(e),
            },
            Ok(Work::Launch(plan)) => Ok(Work::Launch(plan)),
            Err(e) => Err(e),
        }
    }

    /// Begins a forward pass.
    pub fn forward(&self, x: &Tensor) -> (action: Action)
        requires
            self.is_defined(*x),
        ensures
            self.begins(*x, action),
    {
        if x.dtype() != DType::BF16 || !x.device().is_cuda() {
            return self.fall_back();
        }
        match self.ensure_scalar_weight() {
            Ok(Work::Done(_)) => self.fp8_scalar_action(x),
            Ok(Work::Launch(plan)) => Action::DequantizeForFp8(plan),
            Err(_) => self.fall_back(),
        }
    }

    /// Begins the path that multiplies with the dequantized weight.
    fn fall_back(&self) -> (action: Action)
        requires
            self.wf(),
            self.dequant_fits(self.dequant_dtype),
        ensures
            self.falls_back(action),
    {
        match self.dequantized_weight() {
            Ok(Work::Done(w)) => self.weight_made(Ok(w)),
            Ok(Work::Launch(plan)) => Action::Dequantize(plan),
            Err(e) => Action::Finish(Err(e)),
        }
    }

    /// Goes on after [`Action::DequantizeForFp8`].
    pub fn weight_for_fp8(&self, x: &Tensor, reply: Result<Tensor, Error>) -> (action: Action)
        requires
            self.is_defined(*x),
            self.can_requantize(),
            self.dequant_fits(DType::BF16),
            reply matches Ok(w) ==> self.is_bf16_weight(w),
        ensures
            forall|a: Action| a is DequantizeForFp8 ==> #[trigger] self.follows(*x, a, action),
            match reply {
                Ok(w) => action matches Action::QuantizeWeight { weight, plan } && weight == w
                    && is_scalar_plan(w, plan),
                Err(_) => self.falls_back(action),
            },
    {
        match reply {
            Ok(weight) => {
                proof {
                    lemma_matrix_volume(self.weight.dims@);
                }
                match fp8_scalar_quantize(&weight) {
                    Ok(plan) => Action::QuantizeWeight { weight, plan },
                    Err(_) => self.fall_back(),
                }
            },
            Err(_) => self.fall_back(),
        }
    }

    /// Goes on after [`Action::QuantizeWeight`].
    ///
    /// The first scalar-scaled weight that is made is kept.
    pub fn scalar_weight_made(
        &mut self,
        x: &Tensor,
        reply: Result<(Tensor, Tensor), Error>,
    ) -> (action: Action)
        requires
            old(self).is_defined(*x),
            takes_fp8(*x),
            old(self).can_requantize(),
            reply matches Ok(scalar) ==> scalar.0.dims@ == old(self).weight.dims@,
        ensures
            forall|a: Action|
                a is QuantizeWeight ==> #[trigger] final(self).follows(*x, a, action),
            final(self).is_defined(*x),
            old(self).evolves_to(*final(self)),
            final(self).act_numel == old(self).act_numel,
            match reply {
                Ok(scalar) => {
                    &&& final(self).scalar == (if old(self).scalar is Some {
                        old(self).scalar
                    } else {
                        Some(scalar)
                    })
                    &&& final(self).goes_on_with_scalar(*x, action)
                },
                Err(_) => {
                    &&& final(self).scalar == old(self).scalar
                    &&& final(self).falls_back(action)
                },
            },
    {
        match reply {
            Ok(scalar) => {
                if self.scalar.is_none() {
                    self.scalar = Some(scalar);
                }
                self.fp8_scalar_action(x)
            },
            Err(_) => self.fall_back(),
        }
    }

    /// Goes on once there is a scalar-scaled weight.
    fn fp8_scalar_action(&self, x: &Tensor) -> (action: Action)
        requires
            self.is_defined(*x),
            takes_fp8(*x),
            self.scalar is Some,
        ensures
            self.goes_on_with_scalar(*x, action),
    {
        match self.fp8_scalar_forward(x) {
            Ok(action) => action,
            Err(_) => self.fall_back(),
        }
    }

    /// Begins the FP8 forward pass, with the activation buffers of an earlier pass
    /// where they fit.
    pub fn fp8_scalar_forward(&self, x: &Tensor) -> (r: Result<Action, Error>)
        requires
            self.wf(),
            x.wf(),
            fp8_fits(self.weight, *x),
        ensures
            r matches Err(e) ==> Some(e) == (match self.scalar {
                Some(scalar) => activation_error(scalar.0, *x),
                None => Some(Error::NoScalarWeight),
            }),
            r matches Ok(action) ==> {
                &&& self.scalar is Some
                &&& activation_error(self.scalar->Some_0.0, *x) is None
                &&& self.goes_on_with_scalar(*x, action)
            },
    {
        let scalar_w = match &self.scalar {
            Some(scalar) => &scalar.0,
            None => {
                return Err(Error::NoScalarWeight);
            },
        };
        let (_, k_w) = match scalar_w.dims2() {
            Ok(dims) => dims,
            Err(e) => {
                return Err(e);
            },
        };
        let (_, k) = matrix_shape(x);
        if k != k_w {
            return Err(Error::InnerDims { activation: k, weight: k_w });
        }
        let device = x.device();
        if !device.is_cuda() {
            return Err(Error::ExpectedCuda(device));
        }
        if x.dtype() != DType::BF16 {
            return Err(Error::ActivationDType(x.dtype()));
        }
        let numel = x.elem_count();
        let needs_alloc: bool = match self.act_numel {
            Some(made) => made != numel,
            None => true,
        };
        if needs_alloc {
            let mut ops: Vec<DeviceOp> = Vec::new();
            ops.push(DeviceOp::Contiguous(Buffer::Input));
            ops.push(
                DeviceOp::Alloc {
                    buffer: Buffer::ActivationFp8,
                    dtype: DType::F8E4M3,
                    len: numel,
                },
            );
            ops.push(
                DeviceOp::AllocZeros { buffer: Buffer::ActivationScale, dtype: DType::F32, len: 1 },
            );
            assert(ops@ =~= buffer_ops(numel));
            Ok(Action::PrepareBuffers(ops))
        } else {
            Ok(Action::QuantizeActivation(quantize_activation(numel)))
        }
    }

    /// Goes on after [`Action::PrepareBuffers`].
    pub fn buffers_made(&mut self, x: &Tensor, reply: Result<(), Error>) -> (action: Action)
        requires
            old(self).is_defined(*x),
            old(self).accepts(*x),
        ensures
            forall|a: Action|
                a is PrepareBuffers ==> #[trigger] final(self).follows(*x, a, action),
            final(self).is_defined(*x),
            old(self).evolves_to(*final(self)),
            final(self).scalar == old(self).scalar,
            match reply {
                Ok(_) => {
                    &&& final(self).act_numel == Some(x.numel() as usize)
                    &&& final(self).quantizes(*x, action)
                },
                Err(_) => {
                    &&& final(self).act_numel == old(self).act_numel
                    &&& final(self).falls_back(action)
                },
            },
    {
        match reply {
            Ok(_) => {
                let numel = x.elem_count();
                self.act_numel = Some(numel);
                Action::QuantizeActivation(quantize_activation(numel))
            },
            Err(_) => self.fall_back(),
        }
    }

    /// Goes on after [`Action::QuantizeActivation`].
    pub fn activation_quantized(&self, x: &Tensor, reply: Result<(), Error>) -> (action: Action)
        requires
            self.is_defined(*x),
            self.accepts(*x),
        ensures
            forall|a: Action|
                a is QuantizeActivation ==> #[trigger] self.follows(*x, a, action),
            match reply {
                Ok(_) => match operand_error(self.scalar->Some_0.0, self.scalar->Some_0.1) {
                    Some(_) => self.falls_back(action),
                    None => self.multiplies(*x, action),
                },
                Err(_) => self.falls_back(action),
            },
    {
        match reply {
            Ok(_) => match self.fp8_scalar_multiply(x) {
                Ok(product) => Action::MultiplyFp8(product),
                Err(_) => self.fall_back(),
            },
            Err(_) => self.fall_back(),
        }
    }

    /// Lays down the FP8 multiplication of the quantized activation with the
    /// scalar-scaled weight.
    pub fn fp8_scalar_multiply(&self, x: &Tensor) -> (r: Result<Fp8Product, Error>)
        requires
            self.wf(),
            x.wf(),
            x.dims@.len() >= 1,
            self.weight.dims@.len() == 2,
            matrix_rows(x.dims@) * self.weight.dims@[0] <= usize::MAX,
        ensures
            r matches Err(e) ==> Some(e) == (match self.scalar {
                Some(scalar) => operand_error(scalar.0, scalar.1),
                None => Some(Error::NoScalarWeight),
            }),
            r matches Ok(product) ==> {
                &&& self.scalar is Some
                &&& operand_error(self.scalar->Some_0.0, self.scalar->Some_0.1) is None
                &&& is_fp8_product(self.scalar->Some_0.0.dims@[0], *x, product)
            },
    {
        let (scalar_w, scalar_s) = match &self.scalar {
            Some(scalar) => (&scalar.0, &scalar.1),
            None => {
                return Err(Error::NoScalarWeight);
            },
        };
        let w_device = scalar_w.device();
        if !w_device.is_cuda() {
            return Err(Error::ExpectedCuda(w_device));
        }
        if scalar_w.dtype() != DType::F8E4M3 {
            return Err(Error::ScalarWeightDType(scalar_w.dtype()));
        }
        let s_device = scalar_s.device();
        if !s_device.is_cuda() {
            return Err(Error::ExpectedCuda(s_device));
        }
        if scalar_s.dtype() != DType::F32 {
            return Err(Error::ScalarScaleDType(scalar_s.dtype()));
        }
        let (m, k) = matrix_shape(x);
        let n = scalar_w.dims[0];
        let gemm = fp8_matmul_scalar(
            Buffer::ActivationFp8,
            Buffer::ScalarWeight,
            Buffer::ScalarScale,
            Buffer::ActivationScale,
            m,
            n,
            k,
        );
        let mut dims = x.dims.clone();
        assert(dims@ =~= x.dims@);
        let rank: usize = dims.len();
        dims.set(rank - 1, n);
        assert(dims@ =~= product_dims(x.dims@, n));
        Ok(Fp8Product { device: x.device(), gemm, dims })
    }

    /// Goes on after [`Action::MultiplyFp8`].
    pub fn fp8_product_made(&self, reply: Result<Tensor, Error>) -> (action: Action)
        requires
            self.wf(),
            self.dequant_fits(self.dequant_dtype),
        ensures
            forall|x: Tensor, a: Action|
                a is MultiplyFp8 ==> #[trigger] self.follows(x, a, action),
            match reply {
                Ok(out) => action == (if self.bias is Some {
                    Action::AddFp8Bias(out)
                } else {
                    Action::Finish(Ok(out))
                }),
                Err(_) => self.falls_back(action),
            },
    {
        match reply {
            Ok(out) => match &self.bias {
                None => Action::Finish(Ok(out)),
                Some(_) => Action::AddFp8Bias(out),
            },
            Err(_) => self.fall_back(),
        }
    }

    /// Goes on after [`Action::AddFp8Bias`].
    pub fn fp8_bias_added(&self, reply: Result<Tensor, Error>) -> (action: Action)
        requires
            self.wf(),
            self.dequant_fits(self.dequant_dtype),
        ensures
            forall|x: Tensor, a: Action|
                a is AddFp8Bias ==> #[trigger] self.follows(x, a, action),
            match reply {
                Ok(out) => action == Action::Finish(Ok(out)),
                Err(_) => self.falls_back(action),
            },
    {
        match reply {
            Ok(out) => Action::Finish(Ok(out)),
            Err(_) => self.fall_back(),
        }
    }

    /// Goes on after [`Action::Dequantize`].
    pub fn weight_made(&self, reply: Result<Tensor, Error>) -> (action: Action)
        requires
            reply matches Ok(w) ==> w.wf(),
        ensures
            forall|x: Tensor, a: Action|
                a is Dequantize ==> #[trigger] self.follows(x, a, action),
            match reply {
                Ok(w) => if w.dims@.len() == 2 {
                    action matches Action::Multiply(wt) && wt.wf() && is_transpose_of(w, wt)
                } else {
                    action == Action::Finish(Err(Error::ExpectedMatrix(w.dims@.len() as usize)))
                },
                Err(e) => action == Action::Finish(Err(e)),
            },
    {
        match reply {
            Ok(w) => match w.t() {
                Ok(wt) => Action::Multiply(wt),
                Err(e) => Action::Finish(Err(e)),
            },
            Err(e) => Action::Finish(Err(e)),
        }
    }

    /// Goes on after [`Action::Multiply`].
    pub fn product_made(&self, reply: Result<Tensor, Error>) -> (action: Action)
        ensures
            forall|x: Tensor, a: Action|
                a is Multiply ==> #[trigger] self.follows(x, a, action),
            action == (match reply {
                Ok(out) => if self.bias is Some {
                    Action::AddBias(out)
                } else {
                    Action::Finish(Ok(out))
                },
                Err(e) => Action::Finish(Err(e)),
            }),
    {
        match reply {
            Ok(out) => match &self.bias {
                None => Action::Finish(Ok(out)),
                Some(_) => Action::AddBias(out),
            },
            Err(e) => Action::Finish(Err(e)),
        }
    }

    /// Goes on after [`Action::AddBias`].
    pub fn bias_added(&self, reply: Result<Tensor, Error>) -> (action: Action)
        ensures
            forall|x: Tensor, a: Action|
                a is AddBias ==> #[trigger] self.follows(x, a, action),
            action == Action::Finish(reply),
    {
        Action::Finish(reply)
    }
}

/// The FP8 multiplication of an activation with a weight of `n` rows.
pub open spec fn is_fp8_product(n: usize, x: Tensor, product: Fp8Product) -> bool {
    &&& product.gemm == gemm_plan(
        matrix_rows(x.dims@) as usize,
        n,
        x.dims@.last(),
        ScaleMode::Scalar32F,
        Buffer::ActivationFp8,
        Buffer::ActivationScale,
        Buffer::ScalarWeight,
        Buffer::ScalarScale,
    )
    &&& product.device == x.storage.place()
    &&& product.dims@ == product_dims(x.dims@, n)
}

/// Lays down how to quantize an activation into the buffers.
fn quantize_activation(numel: usize) -> (ops: Vec<DeviceOp>)
    requires
        launch_fits(numel),
    ensures
        ops@ == activation_ops(numel),
{
    let n: u32 = #[verifier::truncate]
    (numel as u32);
    let mut ops: Vec<DeviceOp> = Vec::new();
    ops.push(DeviceOp::Contiguous(Buffer::Input));
    ops.push(DeviceOp::Load(Kernel::ZeroScale));
    ops.push(
        DeviceOp::Launch {
            call: Call::ZeroScale { scale: Buffer::ActivationScale },
            config: single_thread(),
        },
    );
    ops.push(DeviceOp::Load(Kernel::Absmax));
    ops.push(
        DeviceOp::Launch {
            call: Call::Absmax { input: Buffer::Input, scale: Buffer::ActivationScale, numel: n },
            config: reduction(numel),
        },
    );
    ops.push(DeviceOp::Load(Kernel::ComputeScale));
    ops.push(
        DeviceOp::Launch {
            call: Call::ComputeScale { scale: Buffer::ActivationScale },
            config: single_thread(),
        },
    );
    ops.push(DeviceOp::Load(Kernel::QuantizeScalar));
    ops.push(
        DeviceOp::Launch {
            call: Call::QuantizeScalar {
                input: Buffer::Input,
                out: Buffer::ActivationFp8,
                scale: Buffer::ActivationScale,
                numel: n,
            },
            config: elementwise(numel),
        },
    );
    assert(ops@ =~= activation_ops(numel));
    ops
}

/// Whatever the FP8 path has made or failed to make, the other path begins the
/// same.
pub proof fn law_fallback_ignores_fp8(a: Fp8Linear, b: Fp8Linear, action: Action)
    requires
        a.same_layer(b),
    ensures
        a.falls_back(action) <==> b.falls_back(action),
{
}

/// An FP8 multiplication leaves as many elements as its dimensions say, and they
/// are those of the activation with the last one exchanged for the number of
/// rows of the weight.
pub proof fn law_product_shape(n: usize, x: Tensor, product: Fp8Product)
    requires
        x.wf(),
        x.dims@.len() >= 1,
        matrix_rows(x.dims@) * n <= usize::MAX,
        is_fp8_product(n, x, product),
    ensures
        product.dims@.len() == x.dims@.len(),
        product.dims@.drop_last() == x.dims@.drop_last(),
        product.dims@.last() == n,
        volume(product.dims@) == product.gemm.d_len,
{
    let rank = x.dims@.len();
    assert(product.dims@.drop_last() == x.dims@.drop_last());
    assert(x.dims@.take(rank - 1) == x.dims@.drop_last());
    assert(volume(x.dims@.take(rank - 1)) <= usize::MAX);
    let m = matrix_rows(x.dims@) as usize;
    assert(m == matrix_rows(x.dims@));
}

/// The states of a layer in the course of one pass, with the actions of the pass:
/// `states[l]` is the layer when it has given `run[l]`. The first action begins the
/// pass, and each of the others is an answer to the one before it. An answer leaves
/// a layer that later passes find the same, and makes new buffers only where buffers
/// were to be made.
pub open spec fn is_history(states: Seq<Fp8Linear>, x: Tensor, run: Seq<Action>) -> bool {
    &&& states.len() == run.len()
    &&& run.len() > 0
    &&& states[0].begins(x, run[0])
    &&& forall|l: int|
        #![trigger states[l]]
        #![trigger run[l]]
        0 < l < run.len() ==> {
            &&& states[l].follows(x, run[l - 1], run[l])
            &&& states[l - 1].evolves_to(states[l])
            &&& run[l - 1] is PrepareBuffers || states[l].act_numel == states[l - 1].act_numel
        }
}

/// Up to the step that makes the buffers, a pass finds the buffers with which it
/// began.
proof fn lemma_buffers_until_made(
    states: Seq<Fp8Linear>,
    x: Tensor,
    run: Seq<Action>,
    l: int,
)
    requires
        is_history(states, x, run),
        0 <= l < run.len(),
    ensures
        states[0].same_layer(states[l]),
        run[l].stage() <= 2 ==> states[l].act_numel == states[0].act_numel,
    decreases l,
{
    if l > 0 {
        lemma_buffers_until_made(states, x, run, l - 1);
        assert(states[l].follows(x, run[l - 1], run[l]));
    }
}

/// The actions that the methods of a layer give one after the other, whatever the
/// answers to them are, form a run of the layer as it was when the pass began.
pub proof fn law_steps_are_a_run(states: Seq<Fp8Linear>, x: Tensor, run: Seq<Action>)
    requires
        is_history(states, x, run),
    ensures
        states[0].is_run(x, run),
{
    assert forall|l: int| 0 < l < run.len() implies states[0].follows(
        x,
        run[l - 1],
        #[trigger] run[l],
    ) by {
        lemma_buffers_until_made(states, x, run, l);
        lemma_buffers_until_made(states, x, run, l - 1);
        assert(states[l].follows(x, run[l - 1], run[l]));
        law_fallback_ignores_fp8(states[0], states[l], run[l]);
    }
}

/// Every action of a run is a later stage than the one before it.
proof fn lemma_stages(layer: Fp8Linear, x: Tensor, run: Seq<Action>, i: int, j: int)
    requires
        layer.is_run(x, run),
        0 <= i <= j < run.len(),
    ensures
        run[j].stage() >= run[i].stage() + (j - i),
    decreases j - i,
{
    if i < j {
        lemma_stages(layer, x, run, i, j - 1);
        assert(layer.follows(x, run[j - 1], run[j]));
    }
}

/// A forward pass ends: no step of it comes twice, and it never has more than ten.
pub proof fn law_forward_ends(layer: Fp8Linear, x: Tensor, run: Seq<Action>)
    requires
        layer.is_run(x, run),
    ensures
        run.len() <= 10,
        forall|i: int, j: int|
            0 <= i < j < run.len() ==> (#[trigger] run[i]).stage() < (#[trigger] run[j]).stage(),
{
    lemma_stages(layer, x, run, 0, run.len() - 1);
    assert forall|i: int, j: int| 0 <= i < j < run.len() implies (#[trigger] run[i]).stage() < (
    #[trigger] run[j]).stage() by {
        lemma_stages(layer, x, run, i, j);
    }
}

/// The weights are quantized again only once: no step of a pass of a layer that has
/// its scalar-scaled weight dequantizes or quantizes it for the FP8 path.
pub proof fn law_scalar_weight_is_made_once(
    layer: Fp8Linear,
    x: Tensor,
    run: Seq<Action>,
    i: int,
)
    requires
        layer.scalar is Some,
        layer.is_run(x, run),
        0 <= i < run.len(),
    ensures
        !(run[i] is DequantizeForFp8),
        !(run[i] is QuantizeWeight),
{
    lemma_stages(layer, x, run, 0, i);
}

/// Once there is a scalar-scaled weight, every later state of the layer has the very
/// same one.
pub proof fn law_scalar_weight_stays(states: Seq<Fp8Linear>, i: int, j: int)
    requires
        forall|l: int|
            #![trigger states[l]]
            0 < l < states.len() ==> states[l - 1].evolves_to(states[l]),
        0 <= i <= j < states.len(),
    ensures
        states[i].scalar is Some ==> states[j].scalar == states[i].scalar,
        states[i].same_layer(states[j]),
    decreases j - i,
{
    if i < j {
        law_scalar_weight_stays(states, i, j - 1);
        assert(states[j - 1].evolves_to(states[j]));
    }
}

/// The activation buffers stay where they are: as long as the number of elements
/// does not change, no step of a pass makes new ones.
pub proof fn law_buffers_are_kept(layer: Fp8Linear, x: Tensor, run: Seq<Action>, i: int)
    requires
        layer.act_numel == Some(x.numel() as usize),
        layer.is_run(x, run),
        0 <= i < run.len(),
    ensures
        !(run[i] is PrepareBuffers),
{
    if i > 0 {
        assert(layer.follows(x, run[i - 1], run[i]));
    }
}

/// What each step of the FP8 path lays down.
proof fn lemma_step(layer: Fp8Linear, x: Tensor, run: Seq<Action>, i: int)
    requires
        layer.is_run(x, run),
        0 <= i < run.len(),
    ensures
        run[i] matches Action::DequantizeForFp8(plan) ==> is_dequant_plan(
            layer.weight,
            layer.block_size,
            DType::BF16,
            plan,
        ),
        run[i] matches Action::QuantizeWeight { weight, plan } ==> layer.is_bf16_weight(weight)
            && is_scalar_plan(weight, plan),
        run[i] is PrepareBuffers ==> layer.prepares(x, run[i]),
        run[i] is QuantizeActivation ==> layer.quantizes(x, run[i]),
        run[i] is MultiplyFp8 ==> layer.multiplies(x, run[i]),
{
    if i > 0 {
        assert(layer.follows(x, run[i - 1], run[i]));
    }
}

/// Two steps of the FP8 path that do the same kind of work do the same work.
pub open spec fn same_work(a: Action, b: Action) -> bool {
    match (a, b) {
        (Action::DequantizeForFp8(p), Action::DequantizeForFp8(q)) => {
            &&& p.device == q.device
            &&& p.ops@ == q.ops@
        },
        (
            Action::QuantizeWeight { plan: p, .. },
            Action::QuantizeWeight { plan: q, .. },
        ) => {
            &&& p.device == q.device
            &&& p.ops@ == q.ops@
        },
        (Action::PrepareBuffers(p), Action::PrepareBuffers(q)) => p@ == q@,
        (Action::QuantizeActivation(p), Action::QuantizeActivation(q)) => p@ == q@,
        (Action::MultiplyFp8(p), Action::MultiplyFp8(q)) => {
            &&& p.device == q.device
            &&& p.gemm == q.gemm
            &&& p.dims@ == q.dims@
        },
        _ => true,
    }
}

/// What earlier passes have made never matters: two passes for one activation, of
/// layers that differ at most in their caches, lay down the same dequantization,
/// the same quantizations and the same product, wherever both come to them.
pub proof fn law_caches_never_matter(
    a: Fp8Linear,
    b: Fp8Linear,
    x: Tensor,
    run_a: Seq<Action>,
    run_b: Seq<Action>,
    i: int,
    j: int,
)
    requires
        a.same_layer(b),
        a.is_run(x, run_a),
        b.is_run(x, run_b),
        0 <= i < run_a.len(),
        0 <= j < run_b.len(),
    ensures
        same_work(run_a[i], run_b[j]),
{
    lemma_step(a, x, run_a, i);
    lemma_step(b, x, run_b, j);
}

/// A later pass repeats the first: whatever was made between two passes for one
/// activation, the later pass lays down the same dequantization, the same
/// quantizations and the same product as the first, wherever both come to them.
/// It finds the very scalar-scaled weight that the first has made, if that made one,
/// and makes none again.
pub proof fn law_later_pass_repeats_first(
    states: Seq<Fp8Linear>,
    x: Tensor,
    first: Seq<Action>,
    later: Seq<Action>,
    at: int,
    i: int,
    j: int,
)
    requires
        forall|l: int|
            #![trigger states[l]]
            0 < l < states.len() ==> states[l - 1].evolves_to(states[l]),
        first.len() - 1 <= at,
        at + later.len() <= states.len(),
        is_history(states.take(first.len() as int), x, first),
        is_history(states.subrange(at, at + later.len()), x, later),
        0 <= i < first.len(),
        0 <= j < later.len(),
    ensures
        same_work(first[i], later[j]),
        states[first.len() - 1].scalar is Some ==> {
            &&& states[at + j].scalar == states[first.len() - 1].scalar
            &&& !(later[j] is DequantizeForFp8)
            &&& !(later[j] is QuantizeWeight)
        },
{
    let rest = states.subrange(at, at + later.len());
    law_steps_are_a_run(states.take(first.len() as int), x, first);
    law_steps_are_a_run(rest, x, later);
    law_scalar_weight_stays(states, 0, at);
    law_scalar_weight_stays(states, first.len() - 1, at);
    law_scalar_weight_stays(states, first.len() - 1, at + j);
    law_caches_never_matter(states[0], states[at], x, first, later, i, j);
    if states[first.len() - 1].scalar is Some {
        law_scalar_weight_is_made_once(states[at], x, later, j);
    }
}

/// A pass that ends well without a step of the other path has multiplied in FP8,
/// whatever the caches held: the product is the last step but the end, and but the
/// bias where there is one.
pub proof fn law_fp8_pass_has_product(layer: Fp8Linear, x: Tensor, run: Seq<Action>)
    requires
        layer.is_run(x, run),
        run.last() is Finish && run.last()->Finish_0 is Ok,
        forall|i: int|
            #![trigger run[i]]
            0 <= i < run.len() ==> !(run[i] is Dequantize) && !(run[i] is Multiply),
    ensures
        ({
            let at = if layer.bias is Some {
                run.len() - 3
            } else {
                run.len() - 2
            };
            &&& at >= 1
            &&& layer.multiplies(x, run[at])
            &&& layer.quantizes(x, run[at - 1])
            &&& layer.bias is Some ==> run[at + 1] is AddFp8Bias
        }),
{
    let n = run.len() as int;
    assert(n >= 2);
    assert(layer.follows(x, run[n - 2], run[n - 1]));
    let at = if layer.bias is Some {
        n - 3
    } else {
        n - 2
    };
    if n >= 3 {
        assert(layer.follows(x, run[n - 3], run[n - 2]));
    }
    assert(at >= 0 && run[at] is MultiplyFp8);
    lemma_step(layer, x, run, at);
    if at > 0 {
        assert(layer.follows(x, run[at - 1], run[at]));
        lemma_step(layer, x, run, at - 1);
    }
}

/// Two layers differ in nothing but that only the second has a bias.
pub open spec fn differ_by_bias(plain: Fp8Linear, biased: Fp8Linear) -> bool {
    &&& plain.bias is None
    &&& biased.bias is Some
    &&& plain.weight == biased.weight
    &&& plain.scale_inv == biased.scale_inv
    &&& plain.block_size == biased.block_size
    &&& plain.dequant_dtype == biased.dequant_dtype
    &&& plain.scalar == biased.scalar
    &&& plain.act_numel == biased.act_numel
}

/// The step that adds the bias to a product.
pub open spec fn bias_step(product: Action, out: Tensor) -> Action {
    if product is MultiplyFp8 {
        Action::AddFp8Bias(out)
    } else {
        Action::AddBias(out)
    }
}

/// A bias adds one step: where a layer without a bias ends with the product, the
/// layer with one takes the same steps, adds the bias to that product, and ends
/// with the sum.
pub proof fn law_bias_is_added_once(
    plain: Fp8Linear,
    biased: Fp8Linear,
    x: Tensor,
    run: Seq<Action>,
    out: Tensor,
    sum: Tensor,
)
    requires
        differ_by_bias(plain, biased),
        plain.is_run(x, run),
        run.last() == Action::Finish(Ok(out)),
    ensures
        ({
            let steps = run.drop_last();
            &&& steps.len() > 0
            &&& biased.is_run(
                x,
                steps.push(bias_step(steps.last(), out)).push(Action::Finish(Ok(sum))),
            )
        }),
{
    let n = run.len() as int;
    assert(n >= 2);
    assert(plain.follows(x, run[n - 2], run[n - 1]));
    let steps = run.drop_last();
    let longer = steps.push(bias_step(steps.last(), out)).push(Action::Finish(Ok(sum)));
    assert forall|i: int| 0 < i < longer.len() implies biased.follows(
        x,
        longer[i - 1],
        #[trigger] longer[i],
    ) by {
        if i < n - 1 {
            assert(longer[i - 1] == run[i - 1] && longer[i] == run[i]);
            assert(plain.follows(x, run[i - 1], run[i]));
            if run[i - 1] is MultiplyFp8 || run[i - 1] is Multiply || run[i - 1] is AddFp8Bias {
                lemma_no_plain_bias(plain, x, run, i - 1);
                lemma_stages(plain, x, run, i, n - 2);
            }
        }
    }
}

/// A layer without a bias has no step that adds one.
proof fn lemma_no_plain_bias(layer: Fp8Linear, x: Tensor, run: Seq<Action>, i: int)
    requires
        layer.bias is None,
        layer.is_run(x, run),
        0 <= i < run.len(),
    ensures
        !(run[i] is AddFp8Bias),
        !(run[i] is AddBias),
{
    if i > 0 {
        assert(layer.follows(x, run[i - 1], run[i]));
    }
}

/// The other way round: a pass with a bias that ends well has added it in its last
/// step but the end, and without that step it is a pass of the layer without the
/// bias, unless an earlier attempt to add it has failed.
pub proof fn law_bias_is_the_only_difference(
    plain: Fp8Linear,
    biased: Fp8Linear,
    x: Tensor,
    run: Seq<Action>,
    sum: Tensor,
)
    requires
        differ_by_bias(plain, biased),
        biased.is_run(x, run),
        run.last() == Action::Finish(Ok(sum)),
        forall|i: int| 0 <= i < run.len() - 2 ==> !(#[trigger] run[i] is AddFp8Bias),
    ensures
        run.len() >= 3,
        ({
            let n = run.len() as int;
            exists|out: Tensor|
                {
                    &&& run[n - 2] == bias_step(run[n - 3], out)
                    &&& plain.is_run(
                        x,
                        #[trigger] run.take(n - 2).push(Action::Finish(Ok(out))),
                    )
                }
        }),
{
    let n = run.len() as int;
    assert(n >= 2);
    assert(biased.follows(x, run[n - 2], run[n - 1]));
    assert(run[n - 2] is AddFp8Bias || run[n - 2] is AddBias);
    assert(n >= 3);
    assert(biased.follows(x, run[n - 3], run[n - 2]));
    let out = match run[n - 2] {
        Action::AddFp8Bias(out) => out,
        Action::AddBias(out) => out,
        _ => sum,
    };
    assert(run[n - 2] == bias_step(run[n - 3], out));
    let shorter = run.take(n - 2).push(Action::Finish(Ok(out)));
    assert forall|i: int| 0 < i < shorter.len() implies plain.follows(
        x,
        shorter[i - 1],
        #[trigger] shorter[i],
    ) by {
        if i < n - 2 {
            assert(shorter[i - 1] == run[i - 1] && shorter[i] == run[i]);
            assert(biased.follows(x, run[i - 1], run[i]));
            lemma_stages(biased, x, run, i, n - 3);
        }
    }
    assert(plain.is_run(x, shorter));
}

/// A failure of the FP8 path is never the result of a pass: where a pass fails, the
/// weight cannot be dequantized, or a step of the other path has failed.
pub proof fn law_fp8_failures_stay_hidden(
    layer: Fp8Linear,
    x: Tensor,
    run: Seq<Action>,
    e: Error,
)
    requires
        layer.is_run(x, run),
        run.last() == Action::Finish(Err(e)),
    ensures
        layer.weight_error() == Some(e) || {
            &&& run.len() >= 2
            &&& {
                let step = run[run.len() - 2];
                step is Dequantize || step is Multiply || step is AddBias
            }
        },
{
    if run.len() >= 2 {
        assert(layer.follows(x, run[run.len() - 2], run[run.len() - 1]));
    }
}

} // verus!
