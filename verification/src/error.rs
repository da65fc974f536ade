//! Element types, devices and the errors of this library.

use vstd::prelude::*;

verus! {

/// The element type of a tensor.
#[derive(Clone, Copy, Debug, PartialEq, Eq, Structural)]
pub enum DType {
    U8,
    U32,
    I64,
    BF16,
    F16,
    F32,
    F64,
    F8E4M3,
}

/// Where the elements of a tensor are.
#[derive(Clone, Copy, Debug, PartialEq, Eq, Structural)]
pub enum Device {
    Cpu,
    Cuda { gpu_id: usize },
    Metal { gpu_id: usize },
}

impl Device {
    /// Whether this is a CUDA device.
    pub fn is_cuda(&self) -> (r: bool)
        ensures
            r == (self is Cuda),
    {
        match self {
            Device::Cuda { .. } => true,
            _ => false,
        }
    }
}

/// Why an operation was refused.
#[derive(Clone, Copy, Debug, PartialEq, Eq, Structural)]
pub enum Error {
    /// A blockwise dequantization was given weights of this type instead of
    /// F8E4M3.
    WeightDType(DType),
    /// A blockwise dequantization was given scales of this type instead of F32.
    ScaleDType(DType),
    /// A blockwise dequantization to this type is not supported.
    TargetDType(DType),
    /// A blockwise quantization was given an input of this type instead of BF16.
    DynamicInputDType(DType),
    /// A blockwise quantization was given an input with this rank, which is less
    /// than two.
    DynamicInputRank(usize),
    /// A per-tensor quantization was given an input of this type instead of BF16.
    ScalarInputDType(DType),
    /// A matrix was expected, and the tensor has this rank.
    ExpectedMatrix(usize),
    /// The operands are on two different devices.
    DeviceMismatch { lhs: Device, rhs: Device },
    /// The operation does not exist for tensors on this device.
    UnsupportedDevice(Device),
    /// A tensor on a CUDA device was expected, and the tensor is on this device.
    ExpectedCuda(Device),
    /// The FP8 forward pass was given an activation of this type instead of BF16.
    ActivationDType(DType),
    /// The FP8 forward pass was given a scalar-scaled weight of this type instead
    /// of F8E4M3.
    ScalarWeightDType(DType),
    /// The FP8 forward pass was given a weight scale of this type instead of F32.
    ScalarScaleDType(DType),
    /// The inner dimensions of activation and weight differ.
    InnerDims { activation: usize, weight: usize },
    /// The row count of the activation is not a multiple of the block length.
    RowsNotAligned(usize),
    /// The inner dimension is not a multiple of the block length.
    InnerNotAligned(usize),
    /// The shape does not fit the elements that were given for it.
    ShapeMismatch,
    /// The layer has no scalar-scaled weight yet.
    NoScalarWeight,
    /// The device or the multiplication failed, with a code of the caller's own.
    Backend(u32),
}

} // verus!
