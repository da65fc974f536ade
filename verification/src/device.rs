//! Programs for an accelerator.
//!
//! What is to be done on the device is laid down here as a list of operations,
//! to be carried out in order up to the first that fails.

use crate::error::{DType, Device};
use vstd::prelude::*;

verus! {

/// A kernel of the device code.
#[derive(Clone, Copy, Debug, PartialEq, Eq, Structural)]
pub enum Kernel {
    DequantBf16,
    DequantF16,
    DequantF32,
    QuantizeBlockwise,
    ZeroScale,
    Absmax,
    ComputeScale,
    QuantizeScalar,
}

/// A compiled module of the device code.
#[derive(Clone, Copy, Debug, PartialEq, Eq, Structural)]
pub enum Module {
    Dequant,
    Quantize,
}

impl Kernel {
    /// The symbol of the kernel.
    pub open spec fn symbol(self) -> Seq<char> {
        match self {
            Kernel::DequantBf16 => "fp8_blockwise_dequant_bf16"@,
            Kernel::DequantF16 => "fp8_blockwise_dequant_f16"@,
            Kernel::DequantF32 => "fp8_blockwise_dequant_f32"@,
            Kernel::QuantizeBlockwise => "bf16_to_fp8_e4m3_blockwise"@,
            Kernel::ZeroScale => "fp8_zero_scale"@,
            Kernel::Absmax => "bf16_absmax"@,
            Kernel::ComputeScale => "fp8_compute_scale"@,
            Kernel::QuantizeScalar => "bf16_to_fp8_e4m3_scalar"@,
        }
    }

    /// The module that the kernel is in.
    pub open spec fn home(self) -> Module {
        match self {
            Kernel::DequantBf16 | Kernel::DequantF16 | Kernel::DequantF32 => Module::Dequant,
            _ => Module::Quantize,
        }
    }

    /// The symbol of the kernel.
    pub fn name(&self) -> (r: &'static str)
        ensures
            r@ == self.symbol(),
    {
        match self {
            Kernel::DequantBf16 => "fp8_blockwise_dequant_bf16",
            Kernel::DequantF16 => "fp8_blockwise_dequant_f16",
            Kernel::DequantF32 => "fp8_blockwise_dequant_f32",
            Kernel::QuantizeBlockwise => "bf16_to_fp8_e4m3_blockwise",
            Kernel::ZeroScale => "fp8_zero_scale",
            Kernel::Absmax => "bf16_absmax",
            Kernel::ComputeScale => "fp8_compute_scale",
            Kernel::QuantizeScalar => "bf16_to_fp8_e4m3_scalar",
        }
    }

    /// The module that the kernel is in.
    pub fn module(&self) -> (r: Module)
        ensures
            r == self.home(),
    {
        match self {
            Kernel::DequantBf16 | Kernel::DequantF16 | Kernel::DequantF32 => Module::Dequant,
            _ => Module::Quantize,
        }
    }
}

/// The memory that an operation works on.
#[derive(Clone, Copy, Debug, PartialEq, Eq, Structural)]
pub enum Buffer {
    /// The FP8 weights of a layer.
    Weight,
    /// The blockwise scales of the weights.
    ScaleInv,
    /// The tensor that is quantized.
    Input,
    /// The main result.
    Output,
    /// The scales that a quantization computes.
    Scales,
    /// The cached FP8 activation of a layer.
    ActivationFp8,
    /// The cached scale of the activation.
    ActivationScale,
    /// The scalar-scaled FP8 weights of a layer.
    ScalarWeight,
    /// The scale of the scalar-scaled weights.
    ScalarScale,
}

/// How many threads a kernel is launched on.
#[derive(Clone, Copy, Debug, PartialEq, Eq)]
pub struct LaunchConfig {
    pub grid_dim: (u32, u32, u32),
    pub block_dim: (u32, u32, u32),
    pub shared_mem_bytes: u32,
}

/// A kernel with its arguments, in the order in which the kernel takes them.
#[derive(Clone, Copy, Debug, PartialEq, Eq, Structural)]
pub enum Call {
    Dequant {
        kernel: Kernel,
        weight: Buffer,
        scale_inv: Buffer,
        out: Buffer,
        rows: u32,
        cols: u32,
        block_r: u32,
        block_c: u32,
    },
    QuantizeBlockwise { input: Buffer, out: Buffer, scales: Buffer, m: u32, k: u32 },
    ZeroScale { scale: Buffer },
    Absmax { input: Buffer, scale: Buffer, numel: u32 },
    ComputeScale { scale: Buffer },
    QuantizeScalar { input: Buffer, out: Buffer, scale: Buffer, numel: u32 },
}

/// One operation on the device.
#[derive(Clone, Copy, Debug, PartialEq, Eq)]
pub enum DeviceOp {
    /// Brings the elements of a buffer into row-major order, one after the other, the
    /// first of them at element 0 of the memory that the later operations read.
    /// Leaves alone a buffer that has them so; one that has them in order but starts
    /// further on is moved like any other.
    Contiguous(Buffer),
    /// Finds a kernel, and loads its module where it is not loaded yet.
    Load(Kernel),
    /// Allocates memory without setting it.
    Alloc { buffer: Buffer, dtype: DType, len: usize },
    /// Allocates memory and sets it to zero.
    AllocZeros { buffer: Buffer, dtype: DType, len: usize },
    /// Starts a kernel.
    Launch { call: Call, config: LaunchConfig },
}

/// A buffer that is to become a tensor.
#[derive(Debug)]
pub struct PlanOutput {
    pub buffer: Buffer,
    pub dtype: DType,
    pub dims: Vec<usize>,
}

/// A program and what it leaves.
#[derive(Debug)]
pub struct DevicePlan {
    /// The device to run it on, which then holds the outputs.
    pub device: Device,
    pub ops: Vec<DeviceOp>,
    pub outputs: Vec<PlanOutput>,
}

/// Work that either is done or is left to a device.
#[derive(Debug)]
pub enum Work<T> {
    Done(T),
    Launch(DevicePlan),
}

/// The number of threads in a block of the elementwise kernels.
pub const THREADS: u32 = 256;

/// The largest number of blocks on which a maximum is searched for.
pub const MAX_REDUCTION_BLOCKS: u32 = 1024;

/// The number of elements as a kernel receives it: its lower 32 bits.
pub open spec fn kernel_count(numel: usize) -> u32 {
    numel as u32
}

/// The number of elements, rounded up to whole thread blocks, is still in range.
pub open spec fn launch_fits(numel: usize) -> bool {
    kernel_count(numel) + THREADS - 1 <= u32::MAX
}

/// Whether the number of elements, rounded up, is still in range.
pub fn fits_launch(numel: usize) -> (r: bool)
    ensures
        r == launch_fits(numel),
{
    let count: u32 = #[verifier::truncate]
    (numel as u32);
    count <= u32::MAX - (THREADS - 1)
}

/// One thread for each element.
pub open spec fn elementwise_config(numel: usize) -> LaunchConfig {
    LaunchConfig {
        grid_dim: (((kernel_count(numel) + THREADS - 1) / THREADS as int) as u32, 1, 1),
        block_dim: (THREADS, 1, 1),
        shared_mem_bytes: 0,
    }
}

/// One thread for each element, or a limited number of threads that share the
/// elements.
pub open spec fn reduction_config(numel: usize) -> LaunchConfig {
    let grid = elementwise_config(numel).grid_dim.0;
    LaunchConfig {
        grid_dim: (
            if grid < MAX_REDUCTION_BLOCKS {
                grid
            } else {
                MAX_REDUCTION_BLOCKS
            },
            1,
            1,
        ),
        block_dim: (THREADS, 1, 1),
        shared_mem_bytes: 0,
    }
}

/// One thread.
pub open spec fn single_thread_config() -> LaunchConfig {
    LaunchConfig { grid_dim: (1, 1, 1), block_dim: (1, 1, 1), shared_mem_bytes: 0 }
}

/// One thread for each element.
pub(crate) fn elementwise(numel: usize) -> (r: LaunchConfig)
    requires
        launch_fits(numel),
    ensures
        r == elementwise_config(numel),
{
    let grid: u32 = ((#[verifier::truncate]
    (numel as u32)) + (THREADS - 1)) / THREADS;
    LaunchConfig { grid_dim: (grid, 1, 1), block_dim: (THREADS, 1, 1), shared_mem_bytes: 0 }
}

/// One thread for each element, up to [`MAX_REDUCTION_BLOCKS`] blocks.
pub(crate) fn reduction(numel: usize) -> (r: LaunchConfig)
    requires
        launch_fits(numel),
    ensures
        r == reduction_config(numel),
{
    let full = elementwise(numel);
    let grid: u32 = if full.grid_dim.0 < MAX_REDUCTION_BLOCKS {
        full.grid_dim.0
    } else {
        MAX_REDUCTION_BLOCKS
    };
    LaunchConfig { grid_dim: (grid, 1, 1), block_dim: (THREADS, 1, 1), shared_mem_bytes: 0 }
}

/// One thread.
pub(crate) fn single_thread() -> (r: LaunchConfig)
    ensures
        r == single_thread_config(),
{
    LaunchConfig { grid_dim: (1, 1, 1), block_dim: (1, 1, 1), shared_mem_bytes: 0 }
}

/// A kernel is told the lower 32 bits of a count, and a launch fits where they can be
/// rounded up to whole thread blocks.
pub proof fn law_kernel_is_told_the_low_bits(numel: usize)
    ensures
        kernel_count(numel) as int == numel as int % 0x1_0000_0000,
        launch_fits(numel) <==> numel as int % 0x1_0000_0000 <= 0xffff_ff00,
{
    let wide = numel as u64;
    assert(wide as u32 == wide % 0x1_0000_0000) by (bit_vector);
}

/// The thread blocks of the launches: elementwise, as many blocks of 256 threads as
/// it takes for the count that the kernel is told, and not one more; in a search for
/// a maximum, the same up to 1024; and one thread where there is one scale.
pub proof fn law_launches_have_the_threads_they_need(numel: usize)
    requires
        launch_fits(numel),
    ensures
        ({
            let count = numel as int % 0x1_0000_0000;
            let (full, limited) = (elementwise_config(numel), reduction_config(numel));
            let grid = full.grid_dim.0 as int;
            &&& full.block_dim == (256u32, 1u32, 1u32)
            &&& limited.block_dim == (256u32, 1u32, 1u32)
            &&& full.grid_dim.1 == 1 && full.grid_dim.2 == 1
            &&& limited.grid_dim.1 == 1 && limited.grid_dim.2 == 1
            &&& count <= grid * 256 < count + 256
            &&& limited.grid_dim.0 <= grid && limited.grid_dim.0 <= 1024
            &&& limited.grid_dim.0 == grid || limited.grid_dim.0 == 1024
            &&& full.shared_mem_bytes == 0 && limited.shared_mem_bytes == 0
        }),
        single_thread_config() == (LaunchConfig {
            grid_dim: (1, 1, 1),
            block_dim: (1, 1, 1),
            shared_mem_bytes: 0,
        }),
{
    law_kernel_is_told_the_low_bits(numel);
}

/// An elementwise launch has a thread for every element and no thread block
/// without one. Holds up to the number of elements that a kernel can be told.
pub proof fn law_elementwise_launch_covers(numel: usize, i: int)
    requires
        numel <= u32::MAX,
        launch_fits(numel),
        0 <= i < numel,
    ensures
        i / (THREADS as int) < elementwise_config(numel).grid_dim.0,
        (elementwise_config(numel).grid_dim.0 - 1) * THREADS < numel,
{
    assert(kernel_count(numel) == numel);
}

} // verus!
