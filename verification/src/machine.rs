//! A device as the programs of this library see it: memory, and what the kernels
//! do with it.
//!
//! The kernels are not part of this library. What a kernel of each name is taken
//! to do is written down here, on its own arguments and on the threads that it is
//! started on, so that it can be said what a program leaves. A program that reads
//! memory that was never set, writes past the end of an allocation, starts a kernel
//! that it has not found, or starts one on no thread, leaves nothing.

use crate::block::blocks;
use crate::convert::{bf16_of, f16_of, is_bf16_nan, single_of_e4m3};
use crate::device::{Buffer, Call, DeviceOp, Kernel, LaunchConfig};
use crate::error::DType;
use crate::quantize::{absmax, absolute, quantized, scale_for};
use crate::single::{product, INFINITY};
use crate::tensor::Tensor;
use vstd::prelude::*;

verus! {

/// An allocation. Elements are kept as their bits, those that were never set as
/// `None`.
pub struct Region {
    pub dtype: DType,
    pub cells: Seq<Option<u32>>,
    /// The tensor whose layout finds the elements, where they were not packed.
    pub view: Option<Tensor>,
}

/// The memory of a device, and the kernel that was found last.
pub struct Machine {
    pub memory: Map<Buffer, Region>,
    pub loaded: Option<Kernel>,
}

/// The kernel of a call.
pub open spec fn kernel_of(call: Call) -> Kernel {
    match call {
        Call::Dequant { kernel, .. } => kernel,
        Call::QuantizeBlockwise { .. } => Kernel::QuantizeBlockwise,
        Call::ZeroScale { .. } => Kernel::ZeroScale,
        Call::Absmax { .. } => Kernel::Absmax,
        Call::ComputeScale { .. } => Kernel::ComputeScale,
        Call::QuantizeScalar { .. } => Kernel::QuantizeScalar,
    }
}

/// The number of threads in a thread block.
pub open spec fn block_threads(config: LaunchConfig) -> int {
    config.block_dim.0 * config.block_dim.1 * config.block_dim.2
}

/// The number of threads of a launch.
pub open spec fn threads(config: LaunchConfig) -> int {
    config.grid_dim.0 * config.grid_dim.1 * config.grid_dim.2 * block_threads(config)
}

/// A launch has thread blocks, and each of them has threads, but no more than a
/// thread block can have.
pub open spec fn starts(config: LaunchConfig) -> bool {
    &&& threads(config) > 0
    &&& 0 < block_threads(config) <= 1024
}

/// The threads of a launch that has only one dimension.
pub proof fn lemma_flat_launch(config: LaunchConfig)
    requires
        config.grid_dim.1 == 1 && config.grid_dim.2 == 1,
        config.block_dim.1 == 1 && config.block_dim.2 == 1,
    ensures
        block_threads(config) == config.block_dim.0,
        threads(config) == config.grid_dim.0 * config.block_dim.0,
{
    let (g, b) = (config.grid_dim.0 as int, config.block_dim.0 as int);
    assert(b * 1 * 1 == b && g * 1 * 1 * b == g * b) by (nonlinear_arith);
}

/// The first `n` elements of a buffer are set, and are of the type.
pub open spec fn readable(memory: Map<Buffer, Region>, b: Buffer, dtype: DType, n: int) -> bool {
    &&& memory.contains_key(b)
    &&& memory[b].dtype == dtype
    &&& 0 <= n <= memory[b].cells.len()
    &&& forall|i: int| 0 <= i < n ==> (#[trigger] memory[b].cells[i]) is Some
}

/// A buffer has room for `n` elements of the type.
pub open spec fn writable(memory: Map<Buffer, Region>, b: Buffer, dtype: DType, n: int) -> bool {
    &&& memory.contains_key(b)
    &&& memory[b].dtype == dtype
    &&& 0 <= n <= memory[b].cells.len()
}

/// An element of a buffer.
pub open spec fn cell(memory: Map<Buffer, Region>, b: Buffer, i: int) -> u32 {
    memory[b].cells[i]->Some_0
}

/// The first `n` elements of a buffer of brain floats.
pub open spec fn brain_floats(memory: Map<Buffer, Region>, b: Buffer, n: int) -> Seq<u16> {
    Seq::new(n as nat, |i: int| cell(memory, b, i) as u16)
}

/// The memory with the elements of a buffer exchanged for others.
pub open spec fn written(
    memory: Map<Buffer, Region>,
    b: Buffer,
    cells: Seq<Option<u32>>,
) -> Map<Buffer, Region> {
    memory.insert(b, Region { dtype: memory[b].dtype, cells, view: memory[b].view })
}

/// The elements of a region one after the other.
pub open spec fn packed(region: Region) -> Region {
    match region.view {
        Some(t) => Region {
            dtype: region.dtype,
            cells: Seq::new(t.numel(), |i: int| region.cells[t.position(i)]),
            view: None,
        },
        None => region,
    }
}

/// `a` is the largest absolute value of some brain floats, NaNs left out; zero
/// where there is no number.
pub open spec fn is_largest(data: Seq<u16>, a: u32) -> bool {
    &&& forall|i: int|
        0 <= i < data.len() && !is_bf16_nan(#[trigger] data[i]) ==> absolute(data[i]) <= a
    &&& a == 0 || exists|i: int|
        0 <= i < data.len() && !is_bf16_nan(#[trigger] data[i]) && absolute(data[i]) == a
}

/// The largest absolute value of some brain floats, NaNs left out.
pub open spec fn largest(data: Seq<u16>) -> u32 {
    choose|a: u32| is_largest(data, a)
}

/// Some brain floats have one largest absolute value.
pub proof fn lemma_largest(data: Seq<u16>)
    ensures
        is_largest(data, largest(data)),
        forall|a: u32| is_largest(data, a) ==> a == largest(data),
{
    lemma_largest_exists(data, INFINITY);
}

proof fn lemma_largest_exists(data: Seq<u16>, bound: u32)
    requires
        forall|i: int|
            0 <= i < data.len() && !is_bf16_nan(#[trigger] data[i]) ==> absolute(data[i])
                <= bound,
    ensures
        exists|a: u32| is_largest(data, a),
    decreases bound,
{
    if !is_largest(data, bound) {
        lemma_largest_exists(data, (bound - 1) as u32);
    }
}

/// A single-precision number rounded to a type, as bits.
pub open spec fn narrowed(dtype: DType, x: u32) -> u32 {
    match dtype {
        DType::BF16 => bf16_of(x) as u32,
        DType::F16 => f16_of(x) as u32,
        _ => x,
    }
}

/// The type that a dequantization kernel leaves.
pub open spec fn kernel_type(kernel: Kernel) -> DType {
    match kernel {
        Kernel::DequantBf16 => DType::BF16,
        Kernel::DequantF16 => DType::F16,
        _ => DType::F32,
    }
}

/// What a kernel makes of the memory. Every thread of an elementwise kernel has the
/// element of its own number. The search for a maximum goes on from the value that
/// it finds, and its threads share all elements. A thread block of the blockwise
/// quantization has the block of the matrix at its own place in the grid, and each
/// of its threads one column of it.
pub open spec fn launch(
    memory: Map<Buffer, Region>,
    call: Call,
    config: LaunchConfig,
) -> Option<Map<Buffer, Region>> {
    match call {
        Call::Dequant { kernel, weight, scale_inv, out, rows, cols, block_r, block_c } => {
            let n = rows * cols;
            let dtype = kernel_type(kernel);
            let wide = blocks(cols as int, block_c as int);
            let last = ((rows - 1) / block_r as int) * wide + (cols - 1) / block_c as int;
            if block_r > 0 && block_c > 0 && readable(memory, weight, DType::F8E4M3, n)
                && readable(memory, scale_inv, DType::F32, last + 1) && writable(
                memory,
                out,
                dtype,
                n,
            ) {
                Some(
                    written(
                        memory,
                        out,
                        Seq::new(
                            memory[out].cells.len(),
                            |i: int|
                                if i < n && i < threads(config) {
                                    let (r, c) = (i / cols as int, i % cols as int);
                                    let at = (r / block_r as int) * wide + c / block_c as int;
                                    Some(
                                        narrowed(
                                            dtype,
                                            product(
                                                single_of_e4m3(cell(memory, weight, i) as u8),
                                                cell(memory, scale_inv, at),
                                            ),
                                        ),
                                    )
                                } else {
                                    memory[out].cells[i]
                                },
                        ),
                    ),
                )
            } else {
                None
            }
        },
        Call::QuantizeBlockwise { input, out, scales, m, k } => {
            let n = m * k;
            let (high, wide) = (blocks(m as int, 128), blocks(k as int, 128));
            let data = brain_floats(memory, input, n);
            let (grid_x, grid_y) = (config.grid_dim.0, config.grid_dim.1);
            if readable(memory, input, DType::BF16, n) && writable(
                memory,
                out,
                DType::F8E4M3,
                n,
            ) && writable(memory, scales, DType::F32, high * wide) {
                let codes = Seq::new(
                    memory[out].cells.len(),
                    |i: int|
                        {
                            let (r, c) = (i / k as int, i % k as int);
                            let a = absmax(data, m as int, k as int, r / 128, c / 128);
                            if i < n && c / 128 < grid_x && r / 128 < grid_y && c % 128
                                < block_threads(config) {
                                Some(quantized(data[i], scale_for(a)) as u32)
                            } else {
                                memory[out].cells[i]
                            }
                        },
                );
                let found = Seq::new(
                    memory[scales].cells.len(),
                    |j: int|
                        {
                            let (mb, kb) = (j / wide, j % wide);
                            if j < high * wide && kb < grid_x && mb < grid_y {
                                Some(scale_for(absmax(data, m as int, k as int, mb, kb)))
                            } else {
                                memory[scales].cells[j]
                            }
                        },
                );
                Some(written(written(memory, out, codes), scales, found))
            } else {
                None
            }
        },
        Call::ZeroScale { scale } => {
            if threads(config) == 1 && writable(memory, scale, DType::F32, 1) {
                Some(written(memory, scale, memory[scale].cells.update(0, Some(0u32))))
            } else {
                None
            }
        },
        Call::Absmax { input, scale, numel } => {
            if readable(memory, input, DType::BF16, numel as int) && readable(
                memory,
                scale,
                DType::F32,
                1,
            ) {
                let found = largest(brain_floats(memory, input, numel as int));
                let before = cell(memory, scale, 0);
                let after = if found > before {
                    found
                } else {
                    before
                };
                Some(written(memory, scale, memory[scale].cells.update(0, Some(after))))
            } else {
                None
            }
        },
        Call::ComputeScale { scale } => {
            if threads(config) == 1 && readable(memory, scale, DType::F32, 1) {
                let made = scale_for(cell(memory, scale, 0));
                Some(written(memory, scale, memory[scale].cells.update(0, Some(made))))
            } else {
                None
            }
        },
        Call::QuantizeScalar { input, out, scale, numel } => {
            if readable(memory, input, DType::BF16, numel as int) && readable(
                memory,
                scale,
                DType::F32,
                1,
            ) && writable(memory, out, DType::F8E4M3, numel as int) {
                Some(
                    written(
                        memory,
                        out,
                        Seq::new(
                            memory[out].cells.len(),
                            |i: int|
                                if i < numel && i < threads(config) {
                                    Some(
                                        quantized(
                                            cell(memory, input, i) as u16,
                                            cell(memory, scale, 0),
                                        ) as u32,
                                    )
                                } else {
                                    memory[out].cells[i]
                                },
                        ),
                    ),
                )
            } else {
                None
            }
        },
    }
}

/// What one operation makes of a device.
pub open spec fn step(machine: Machine, op: DeviceOp) -> Option<Machine> {
    let memory = machine.memory;
    match op {
        DeviceOp::Contiguous(b) => if memory.contains_key(b) {
            Some(
                Machine { memory: memory.insert(b, packed(memory[b])), loaded: machine.loaded },
            )
        } else {
            None
        },
        DeviceOp::Load(kernel) => Some(Machine { memory, loaded: Some(kernel) }),
        DeviceOp::Alloc { buffer, dtype, len } => {
            let cells = Seq::new(len as nat, |i: int| None::<u32>);
            let region = Region { dtype, cells, view: None };
            Some(Machine { memory: memory.insert(buffer, region), loaded: machine.loaded })
        },
        DeviceOp::AllocZeros { buffer, dtype, len } => {
            let cells = Seq::new(len as nat, |i: int| Some(0u32));
            let region = Region { dtype, cells, view: None };
            Some(Machine { memory: memory.insert(buffer, region), loaded: machine.loaded })
        },
        DeviceOp::Launch { call, config } => {
            if machine.loaded == Some(kernel_of(call)) && starts(config) {
                match launch(memory, call, config) {
                    Some(after) => Some(Machine { memory: after, loaded: machine.loaded }),
                    None => None,
                }
            } else {
                None
            }
        },
    }
}

/// What the operations from the `i`-th on make of a device.
pub open spec fn run_from(machine: Machine, ops: Seq<DeviceOp>, i: int) -> Option<Machine>
    decreases ops.len() - i,
{
    if 0 <= i < ops.len() {
        match step(machine, ops[i]) {
            Some(next) => run_from(next, ops, i + 1),
            None => None,
        }
    } else {
        Some(machine)
    }
}

/// What a program makes of a device.
pub open spec fn run(machine: Machine, ops: Seq<DeviceOp>) -> Option<Machine> {
    run_from(machine, ops, 0)
}

/// A buffer is bound to a tensor, whose elements are, in row-major order, the given
/// bits.
pub open spec fn holds(memory: Map<Buffer, Region>, b: Buffer, t: Tensor, bits: Seq<u32>) -> bool {
    &&& memory.contains_key(b)
    &&& memory[b].dtype == t.storage.element_type()
    &&& memory[b].cells.len() == t.storage.count()
    &&& memory[b].view == Some(t)
    &&& bits.len() == t.numel()
    &&& forall|i: int|
        0 <= i < t.numel() ==> memory[b].cells[#[trigger] t.position(i)] == Some(bits[i])
}

/// A buffer is an allocation with the given bits from its start to its end.
pub open spec fn leaves(
    memory: Map<Buffer, Region>,
    b: Buffer,
    dtype: DType,
    bits: Seq<u32>,
) -> bool {
    &&& memory.contains_key(b)
    &&& memory[b].dtype == dtype
    &&& memory[b].cells.len() == bits.len()
    &&& memory[b].view is None
    &&& forall|i: int| 0 <= i < bits.len() ==> #[trigger] memory[b].cells[i] == Some(bits[i])
}

/// Packing a bound tensor leaves its elements.
pub proof fn lemma_packed(memory: Map<Buffer, Region>, b: Buffer, t: Tensor, bits: Seq<u32>)
    requires
        holds(memory, b, t, bits),
    ensures
        leaves(
            memory.insert(b, packed(memory[b])),
            b,
            t.storage.element_type(),
            bits,
        ),
{
}

} // verus!
