//! FP8 linear layers.
//!
//! Weights are kept as FP8 E4M3 numbers with one scale for each block of a matrix,
//! activations are quantized on the way, and both are multiplied in FP8 where a
//! device can, or dequantized where it cannot.
//!
//! - [`binary`], [`round`], [`single`], [`convert`]: floating-point numbers as bit
//!   patterns, rounding, arithmetic and conversions.
//! - [`layout`], [`tensor`]: tensors under strided layouts.
//! - [`block`], [`dequant`], [`quantize`]: blocks that share a scale, and the two
//!   directions between FP8 and the wider formats.
//! - [`device`], [`gemm`]: what is to be done on an accelerator.
//! - [`linear`]: the layer.
//! - [`roundtrip`]: what quantizing and dequantizing leaves of a number.
//! - [`symmetry`]: what transposing, doubling and negating the operands does.
//! - [`values`]: what floating-point results are.
//! - [`machine`], [`programs`]: a device, and what the programs leave on it.
//! - [`passes`]: what a forward pass does with the numbers.
//! - [`refusals`]: what is refused, and why.
//! - [`calls`]: what every call of the main functions gives.

pub mod binary;
pub mod block;
pub mod calls;
pub mod convert;
pub mod dequant;
pub mod device;
pub mod error;
pub mod gemm;
pub mod layout;
pub mod linear;
pub mod machine;
pub mod passes;
pub mod programs;
pub mod quantize;
pub mod refusals;
pub mod round;
pub mod roundtrip;
pub mod single;
pub mod symmetry;
pub mod tensor;
pub mod values;
