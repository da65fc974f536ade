use fp8_linear::block::Fp8BlockSize;
use fp8_linear::convert::{narrow_to_bf16, narrow_to_e4m3, widen_bf16, widen_e4m3};
use fp8_linear::dequant::{fp8_blockwise_dequant, Fp8BlockwiseDequant};
use fp8_linear::device::{Buffer, Call, DeviceOp, DevicePlan, Kernel, LaunchConfig, Module, Work};
use fp8_linear::error::{DType, Device, Error};
use fp8_linear::gemm::{fp8_matmul, fp8_matmul_scalar, GemmPlan, ScaleMode, Transpose};
use fp8_linear::linear::{Action, Fp8Linear};
use fp8_linear::quantize::{
    fp8_dynamic_quantize, fp8_dynamic_quantize_cuda, fp8_scalar_quantize,
};
use fp8_linear::tensor::{Accelerator, RemoteStorage, Storage, Tensor};

/// The memory of a device, with the numbers of each allocation.
struct Gpu {
    gpu_id: usize,
    memory: Vec<(DType, Vec<f32>)>,
    /// How often buffers for an activation were made.
    activation_buffers: usize,
    /// How often a weight was quantized again.
    weights_quantized: usize,
    /// The kind of action that fails.
    broken: &'static str,
}

/// Where in an allocation the elements of a tensor are.
#[derive(Clone)]
struct Layout {
    dims: Vec<usize>,
    strides: Vec<usize>,
    start_offset: usize,
}

impl Layout {
    /// The places of the elements, in row-major order.
    fn places(&self) -> Vec<usize> {
        let mut places = vec![self.start_offset];
        for (dim, stride) in self.dims.iter().zip(&self.strides) {
            places = places
                .iter()
                .flat_map(|place| (0..*dim).map(move |i| place + i * stride))
                .collect();
        }
        places
    }

    /// Whether the elements are one after the other, from the start on.
    fn is_packed(&self) -> bool {
        self.places().iter().enumerate().all(|(i, place)| i == *place)
    }
}

/// Which memory a buffer is, and under which layout.
struct Bindings(Vec<(Buffer, usize, Option<Layout>)>);

impl Bindings {
    fn new() -> Bindings {
        Bindings(Vec::new())
    }

    fn bind(&mut self, buffer: Buffer, handle: usize) {
        self.0.retain(|(b, _, _)| *b != buffer);
        self.0.push((buffer, handle, None));
    }

    fn bind_tensor(&mut self, buffer: Buffer, t: &Tensor) {
        let layout = Layout {
            dims: t.dims.clone(),
            strides: t.strides.clone(),
            start_offset: t.start_offset,
        };
        match &t.storage {
            Storage::Remote(remote) => {
                self.bind(buffer, remote.handle as usize);
                self.0.last_mut().unwrap().2 = Some(layout);
            }
            _ => panic!("not on the device"),
        }
    }

    fn find(&self, buffer: Buffer) -> (usize, Option<Layout>) {
        let found = self.0.iter().find(|(b, _, _)| *b == buffer).unwrap();
        (found.1, found.2.clone())
    }

    /// The memory of a buffer that a kernel can read from its start on.
    fn get(&self, buffer: Buffer) -> usize {
        let (handle, layout) = self.find(buffer);
        assert!(layout.map_or(true, |layout| layout.is_packed()), "{buffer:?} is not packed");
        handle
    }
}

/// A number as the element type holds it.
fn rounded(dtype: DType, x: f32) -> f32 {
    match dtype {
        DType::F32 => x,
        DType::BF16 => f32::from_bits(widen_bf16(narrow_to_bf16(x.to_bits()))),
        DType::F16 => half::f16::from_f32(x).to_f32(),
        DType::F8E4M3 => f32::from_bits(widen_e4m3(narrow_to_e4m3(x.to_bits()))),
        _ => panic!("no float"),
    }
}

fn threads(config: &LaunchConfig) -> usize {
    let (gx, gy, gz) = config.grid_dim;
    let (bx, by, bz) = config.block_dim;
    gx as usize * gy as usize * gz as usize * bx as usize * by as usize * bz as usize
}

impl Gpu {
    fn new() -> Gpu {
        Gpu {
            gpu_id: 0,
            memory: Vec::new(),
            activation_buffers: 0,
            weights_quantized: 0,
            broken: "",
        }
    }

    fn device(&self) -> Device {
        Device::Cuda { gpu_id: self.gpu_id }
    }

    fn storage(&self, handle: usize) -> Storage {
        Storage::Remote(RemoteStorage {
            accelerator: Accelerator::Cuda { gpu_id: self.gpu_id },
            dtype: self.memory[handle].0,
            len: self.memory[handle].1.len(),
            handle: handle as u64,
        })
    }

    fn tensor(&self, handle: usize, dims: Vec<usize>) -> Tensor {
        Tensor::from_vec(self.storage(handle), dims).unwrap()
    }

    /// A part of some numbers on the device.
    fn part(
        &mut self,
        dtype: DType,
        data: &[f32],
        dims: &[usize],
        strides: &[usize],
        start_offset: usize,
    ) -> Tensor {
        let whole = self.upload(dtype, data, &[data.len()]);
        let storage = self.storage(self.handle(&whole));
        Tensor::strided(storage, dims.to_vec(), strides.to_vec(), start_offset).unwrap()
    }

    fn upload(&mut self, dtype: DType, data: &[f32], dims: &[usize]) -> Tensor {
        let data = data.iter().map(|x| rounded(dtype, *x)).collect();
        self.memory.push((dtype, data));
        self.tensor(self.memory.len() - 1, dims.to_vec())
    }

    fn handle(&self, t: &Tensor) -> usize {
        match &t.storage {
            Storage::Remote(remote) => remote.handle as usize,
            _ => panic!("not on the device"),
        }
    }

    /// The elements of a tensor, in row-major order.
    fn download(&self, t: &Tensor) -> Vec<f32> {
        let mut bindings = Bindings::new();
        bindings.bind_tensor(Buffer::Input, t);
        self.elements(&bindings, Buffer::Input)
    }

    /// The elements of a buffer, in row-major order.
    fn elements(&self, bindings: &Bindings, buffer: Buffer) -> Vec<f32> {
        let (handle, layout) = bindings.find(buffer);
        let data = &self.memory[handle].1;
        match layout {
            Some(layout) => layout.places().iter().map(|place| data[*place]).collect(),
            None => data.clone(),
        }
    }

    fn launch(&mut self, bindings: &Bindings, call: &Call, config: &LaunchConfig) {
        assert_eq!(config.shared_mem_bytes, 0);
        match *call {
            Call::Dequant { kernel, weight, scale_inv, out, rows, cols, block_r, block_c } => {
                let (rows, cols) = (rows as usize, cols as usize);
                let (block_r, block_c) = (block_r as usize, block_c as usize);
                assert!(threads(config) >= rows * cols);
                let dtype = match kernel {
                    Kernel::DequantBf16 => DType::BF16,
                    Kernel::DequantF16 => DType::F16,
                    Kernel::DequantF32 => DType::F32,
                    other => panic!("not a dequantization: {other:?}"),
                };
                let w = self.memory[bindings.get(weight)].1.clone();
                let s = self.memory[bindings.get(scale_inv)].1.clone();
                let target = &mut self.memory[bindings.get(out)];
                assert_eq!(target.0, dtype);
                let scale_cols = (cols + block_c - 1) / block_c;
                for i in 0..rows * cols {
                    let scale = s[(i / cols / block_r) * scale_cols + i % cols / block_c];
                    target.1[i] = rounded(dtype, w[i] * scale);
                }
            }
            Call::QuantizeBlockwise { input, out, scales, m, k } => {
                let (m, k) = (m as usize, k as usize);
                let x = self.memory[bindings.get(input)].1.clone();
                let (grid, _, _) = config.grid_dim;
                for mb in 0..config.grid_dim.1 as usize {
                    for kb in 0..grid as usize {
                        let mut absmax = 0.0f32;
                        for r in mb * 128..((mb + 1) * 128).min(m) {
                            for c in kb * 128..((kb + 1) * 128).min(k) {
                                absmax = absmax.max(x[r * k + c].abs());
                            }
                        }
                        let scale = if absmax > 0.0 { absmax / 448.0 } else { 1.0 };
                        self.memory[bindings.get(scales)].1[kb + mb * grid as usize] = scale;
                        for r in mb * 128..((mb + 1) * 128).min(m) {
                            for c in kb * 128..((kb + 1) * 128).min(k) {
                                let q = rounded(DType::F8E4M3, x[r * k + c] / scale);
                                self.memory[bindings.get(out)].1[r * k + c] = q;
                            }
                        }
                    }
                }
            }
            Call::ZeroScale { scale } => {
                assert_eq!(threads(config), 1);
                self.memory[bindings.get(scale)].1[0] = 0.0;
            }
            Call::Absmax { input, scale, numel } => {
                let x = self.memory[bindings.get(input)].1.clone();
                let target = &mut self.memory[bindings.get(scale)].1[0];
                for v in &x[..numel as usize] {
                    *target = target.max(v.abs());
                }
            }
            Call::ComputeScale { scale } => {
                assert_eq!(threads(config), 1);
                let target = &mut self.memory[bindings.get(scale)].1[0];
                *target = if *target > 0.0 { *target / 448.0 } else { 1.0 };
            }
            Call::QuantizeScalar { input, out, scale, numel } => {
                assert!(threads(config) >= numel as usize);
                let x = self.memory[bindings.get(input)].1.clone();
                let s = self.memory[bindings.get(scale)].1[0];
                for (i, v) in x[..numel as usize].iter().enumerate() {
                    let q = rounded(DType::F8E4M3, (v / s).clamp(-448.0, 448.0));
                    self.memory[bindings.get(out)].1[i] = q;
                }
            }
        }
    }

    fn run(&mut self, bindings: &mut Bindings, ops: &[DeviceOp]) {
        let mut loaded: Vec<Kernel> = Vec::new();
        for op in ops {
            match op {
                DeviceOp::Contiguous(buffer) => {
                    let (handle, layout) = bindings.find(*buffer);
                    if layout.map_or(false, |layout| !layout.is_packed()) {
                        let packed = self.elements(bindings, *buffer);
                        self.memory.push((self.memory[handle].0, packed));
                        bindings.bind(*buffer, self.memory.len() - 1);
                    }
                }
                DeviceOp::Load(kernel) => loaded.push(*kernel),
                DeviceOp::Alloc { buffer, dtype, len } => {
                    self.memory.push((*dtype, vec![f32::NAN; *len]));
                    bindings.bind(*buffer, self.memory.len() - 1);
                }
                DeviceOp::AllocZeros { buffer, dtype, len } => {
                    self.memory.push((*dtype, vec![0.0; *len]));
                    bindings.bind(*buffer, self.memory.len() - 1);
                }
                DeviceOp::Launch { call, config } => {
                    assert!(!loaded.is_empty());
                    self.launch(bindings, call, config);
                }
            }
        }
    }

    fn finish(&mut self, mut bindings: Bindings, plan: DevicePlan) -> Vec<Tensor> {
        assert_eq!(plan.device, self.device());
        self.run(&mut bindings, &plan.ops);
        plan.outputs
            .into_iter()
            .map(|output| {
                let handle = bindings.get(output.buffer);
                assert_eq!(self.memory[handle].0, output.dtype);
                self.tensor(handle, output.dims)
            })
            .collect()
    }

    /// Multiplies as a column-major routine does.
    fn gemm(&mut self, bindings: &Bindings, plan: &GemmPlan) -> usize {
        let op = |data: &[f32], operand: &fp8_linear::gemm::Operand, i: usize, j: usize| {
            let (r, c) = match operand.transpose {
                Transpose::Yes => (j, i),
                Transpose::No => (i, j),
            };
            assert!(r < operand.layout.rows as usize && c < operand.layout.cols as usize);
            data[r + c * operand.layout.ld as usize]
        };
        let block = |mode: ScaleMode, rows: usize, i: usize, j: usize| match mode {
            ScaleMode::Scalar32F => 0,
            ScaleMode::Blk128x128_32F => i / 128 + (j / 128) * ((rows + 127) / 128),
        };
        let a = self.memory[bindings.get(plan.a.data)].1.clone();
        let b = self.memory[bindings.get(plan.b.data)].1.clone();
        let a_scale = self.memory[bindings.get(plan.a.scale)].1.clone();
        let b_scale = self.memory[bindings.get(plan.b.scale)].1.clone();
        let (rows, cols) = (plan.d.rows as usize, plan.d.cols as usize);
        let inner = plan.b.layout.rows as usize;
        assert_eq!((plan.alpha, plan.beta), (1, 0));
        let mut d = vec![0.0f32; plan.d_len];
        for i in 0..rows {
            for j in 0..cols {
                let mut sum = 0.0f32;
                for l in 0..inner {
                    let sa = a_scale[block(plan.scale_mode, rows, i, l)];
                    let sb = b_scale[block(plan.scale_mode, inner, l, j)];
                    sum += (sa * op(&a, &plan.a, i, l)) * (sb * op(&b, &plan.b, l, j));
                }
                d[i + j * plan.d.ld as usize] = rounded(plan.d.dtype, sum);
            }
        }
        self.memory.push((plan.d.dtype, d));
        self.memory.len() - 1
    }

    fn add_bias(&mut self, out: &Tensor, bias: &Tensor) -> Tensor {
        let b = self.download(bias);
        let sum: Vec<f32> =
            self.download(out).iter().enumerate().map(|(i, v)| v + b[i % b.len()]).collect();
        let dims = out.dims.clone();
        self.upload(out.dtype(), &sum, &dims)
    }

    fn attempt<T>(&mut self, name: &str, work: impl FnOnce(&mut Gpu) -> T) -> Result<T, Error> {
        if self.broken == name {
            Err(Error::Backend(1))
        } else {
            Ok(work(self))
        }
    }

    /// Runs a forward pass; `buffers` are those of the activation.
    fn forward(
        &mut self,
        layer: &mut Fp8Linear,
        x: &Tensor,
        buffers: &mut Bindings,
    ) -> Result<Tensor, Error> {
        let mut action = layer.forward(x);
        for _ in 0..10 {
            action = match action {
                Action::DequantizeForFp8(plan) => {
                    let reply = self.attempt("dequantize", |gpu| {
                        let mut bindings = Bindings::new();
                        bindings.bind_tensor(Buffer::Weight, layer.weight());
                        bindings.bind_tensor(Buffer::ScaleInv, layer.scale_inv());
                        gpu.finish(bindings, plan).remove(0)
                    });
                    layer.weight_for_fp8(x, reply)
                }
                Action::QuantizeWeight { weight, plan } => {
                    self.weights_quantized += 1;
                    let reply = self.attempt("quantize weight", |gpu| {
                        let mut bindings = Bindings::new();
                        bindings.bind_tensor(Buffer::Input, &weight);
                        let mut outputs = gpu.finish(bindings, plan);
                        let scale = outputs.pop().unwrap();
                        (outputs.pop().unwrap(), scale)
                    });
                    layer.scalar_weight_made(x, reply)
                }
                Action::PrepareBuffers(ops) => {
                    self.activation_buffers += 1;
                    buffers.bind_tensor(Buffer::Input, x);
                    let reply = self.attempt("buffers", |gpu| gpu.run(buffers, &ops));
                    layer.buffers_made(x, reply)
                }
                Action::QuantizeActivation(ops) => {
                    buffers.bind_tensor(Buffer::Input, x);
                    let reply = self.attempt("quantize", |gpu| gpu.run(buffers, &ops));
                    layer.activation_quantized(x, reply)
                }
                Action::MultiplyFp8(product) => {
                    assert_eq!(product.device, self.device());
                    let (w, s) = layer.scalar.as_ref().unwrap();
                    buffers.bind_tensor(Buffer::ScalarWeight, w);
                    buffers.bind_tensor(Buffer::ScalarScale, s);
                    let reply = self.attempt("multiply", |gpu| {
                        let handle = gpu.gemm(buffers, &product.gemm);
                        gpu.tensor(handle, product.dims)
                    });
                    layer.fp8_product_made(reply)
                }
                Action::AddFp8Bias(out) => {
                    let reply = self.attempt("fp8 bias", |gpu| {
                        gpu.add_bias(&out, layer.bias().unwrap())
                    });
                    layer.fp8_bias_added(reply)
                }
                Action::Dequantize(plan) => {
                    let mut bindings = Bindings::new();
                    bindings.bind_tensor(Buffer::Weight, layer.weight());
                    bindings.bind_tensor(Buffer::ScaleInv, layer.scale_inv());
                    let w = self.finish(bindings, plan).remove(0);
                    layer.weight_made(Ok(w))
                }
                Action::Multiply(wt) => {
                    let reply = if x.dims.len() != 2 || x.dims[1] != wt.dims[0] {
                        Err(Error::ShapeMismatch)
                    } else {
                        let (m, k, n) = (x.dims[0], x.dims[1], wt.dims[1]);
                        let (a, b) = (self.download(x), self.download(&wt));
                        let mut out = vec![0.0f32; m * n];
                        for i in 0..m {
                            for j in 0..n {
                                for l in 0..k {
                                    out[i * n + j] += a[i * k + l] * b[l * n + j];
                                }
                            }
                        }
                        Ok(self.upload(x.dtype(), &out, &[m, n]))
                    };
                    layer.product_made(reply)
                }
                Action::AddBias(out) => {
                    let reply = Ok(self.add_bias(&out, layer.bias().unwrap()));
                    layer.bias_added(reply)
                }
                Action::Finish(result) => return result,
            };
        }
        panic!("the pass does not end");
    }
}

fn launched<T>(work: Result<Work<T>, Error>) -> DevicePlan {
    match work {
        Ok(Work::Launch(plan)) => plan,
        Ok(Work::Done(_)) => panic!("done on the host"),
        Err(e) => panic!("refused: {e:?}"),
    }
}

fn dequantized(
    gpu: &mut Gpu,
    weight: &Tensor,
    scale_inv: &Tensor,
    block_size: &Fp8BlockSize,
    target: DType,
) -> Tensor {
    let plan = launched(fp8_blockwise_dequant(weight, scale_inv, block_size, target));
    let mut bindings = Bindings::new();
    bindings.bind_tensor(Buffer::Weight, weight);
    bindings.bind_tensor(Buffer::ScaleInv, scale_inv);
    gpu.finish(bindings, plan).remove(0)
}

#[test]
fn test_fp8_blockwise_dequant_gpu() {
    let mut gpu = Gpu::new();
    let rows = 4usize;
    let cols = 4usize;
    let weight = gpu.upload(DType::F8E4M3, &vec![1.0f32; rows * cols], &[rows, cols]);
    let scale_inv = gpu.upload(DType::F32, &[2.0f32], &[1, 1]);
    let block_size = Fp8BlockSize { block_r: 4, block_c: 4 };

    let out = dequantized(&mut gpu, &weight, &scale_inv, &block_size, DType::BF16);
    assert_eq!(out.dtype(), DType::BF16);
    assert_eq!(out.dims, vec![4, 4]);
    for val in gpu.download(&out) {
        assert!((val - 2.0).abs() < 0.15, "expected ~2.0, got {}", val);
    }
}

#[test]
fn test_fp8_blockwise_dequant_multiple_blocks_gpu() {
    let mut gpu = Gpu::new();
    let block_r = 2usize;
    let block_c = 2usize;
    let rows = 4usize;
    let cols = 4usize;
    let weight = gpu.upload(DType::F8E4M3, &vec![1.0f32; rows * cols], &[rows, cols]);
    let scale_inv = gpu.upload(DType::F32, &[1.0f32, 2.0, 3.0, 4.0], &[2, 2]);
    let block_size = Fp8BlockSize { block_r, block_c };

    let out = dequantized(&mut gpu, &weight, &scale_inv, &block_size, DType::BF16);
    let out_data = gpu.download(&out);
    assert!((out_data[0] - 1.0).abs() < 0.15);
    assert!((out_data[2] - 2.0).abs() < 0.15);
    assert!((out_data[2 * cols] - 3.0).abs() < 0.15);
    assert!((out_data[2 * cols + 2] - 4.0).abs() < 0.15);
}

#[test]
fn test_fp8_linear_gpu() {
    let mut gpu = Gpu::new();
    let weight = gpu.upload(DType::F8E4M3, &[1.0f32; 4], &[2, 2]);
    let scale_inv = gpu.upload(DType::F32, &[1.0f32], &[1, 1]);
    let mut layer = Fp8Linear::new(
        weight,
        scale_inv,
        None,
        Fp8BlockSize { block_r: 2, block_c: 2 },
        DType::BF16,
    );

    let x = gpu.upload(DType::BF16, &[1.0f32, 2.0], &[1, 2]);
    let y = gpu.forward(&mut layer, &x, &mut Bindings::new()).unwrap();
    let y_data = gpu.download(&y);
    assert!((y_data[0] - 3.0).abs() < 0.3);
    assert!((y_data[1] - 3.0).abs() < 0.3);
}

#[test]
fn test_fp8_dequant_realistic_block_size_gpu() {
    let mut gpu = Gpu::new();
    let rows = 256usize;
    let cols = 256usize;
    let block_r = 128usize;
    let block_c = 128usize;

    let weight_f32: Vec<f32> = (0..rows * cols).map(|i| ((i % 7) as f32) * 0.1).collect();
    let weight = gpu.upload(DType::F8E4M3, &weight_f32, &[rows, cols]);
    let scale_inv = gpu.upload(DType::F32, &[2.0f32, 0.5, 1.0, 3.0], &[2, 2]);
    let block_size = Fp8BlockSize { block_r, block_c };
    let out = dequantized(&mut gpu, &weight, &scale_inv, &block_size, DType::BF16);
    let out_data = gpu.download(&out);

    let idx = 0;
    let expected_raw = ((0 % 7) as f32) * 0.1;
    assert!(
        (out_data[idx] - expected_raw * 2.0).abs() < 0.15,
        "idx=0: got {}, expected ~{}",
        out_data[idx],
        expected_raw * 2.0
    );
    let idx2 = 128;
    let expected_raw2 = ((128 % 7) as f32) * 0.1;
    assert!(
        (out_data[idx2] - expected_raw2 * 0.5).abs() < 0.15,
        "idx=128: got {}, expected ~{}",
        out_data[idx2],
        expected_raw2 * 0.5
    );
}

#[test]
fn test_fp8_dynamic_quantize_gpu() {
    let mut gpu = Gpu::new();
    let rows = 128usize;
    let cols = 256usize;
    let mut data = vec![0.0f32; rows * cols];
    for r in 0..rows {
        let val = ((r % 4) as f32 + 1.0) * if r % 2 == 0 { 1.0 } else { -1.0 };
        for c in 0..cols {
            data[r * cols + c] = val;
        }
    }

    let input = gpu.upload(DType::BF16, &data, &[rows, cols]);
    let plan = launched(fp8_dynamic_quantize(&input));
    let mut bindings = Bindings::new();
    bindings.bind_tensor(Buffer::Input, &input);
    let mut outputs = gpu.finish(bindings, plan);
    let scales = outputs.pop().unwrap();
    let quant = outputs.pop().unwrap();

    assert_eq!(quant.dtype(), DType::F8E4M3);
    assert_eq!(quant.dims, vec![rows, cols]);
    assert_eq!(scales.dtype(), DType::F32);
    let k_blocks = (cols + 127) / 128;
    let m_blocks = (rows + 127) / 128;
    assert_eq!(scales.dims, vec![k_blocks * m_blocks]);

    let scales_data = gpu.download(&scales);
    for &s in &scales_data {
        let expected_scale = 4.0 / 448.0;
        assert!(
            (s - expected_scale).abs() < 1e-4,
            "block scale: got {s}, expected {expected_scale}"
        );
    }
    let quant_data = gpu.download(&quant);
    let block_scale = scales_data[0];
    let expected_val = data[0];
    let recovered = quant_data[0] * block_scale;
    assert!(
        (recovered - expected_val).abs() < 0.1,
        "roundtrip: got {recovered}, expected {expected_val}"
    );
}

#[test]
fn test_fp8_gemm_known_values() {
    let mut gpu = Gpu::new();
    let m = 128usize;
    let n = 256usize;
    let k = 256usize;
    let w_fp8 = gpu.upload(DType::F8E4M3, &vec![1.0f32; n * k], &[n, k]);
    let scale_rows = (n + 127) / 128;
    let scale_cols = (k + 127) / 128;
    let scale_inv = gpu.upload(
        DType::F32,
        &vec![1.0f32; scale_rows * scale_cols],
        &[scale_rows, scale_cols],
    );
    let mut layer = Fp8Linear::new(
        w_fp8,
        scale_inv,
        None,
        Fp8BlockSize { block_r: 128, block_c: 128 },
        DType::BF16,
    );

    let x = gpu.upload(DType::BF16, &vec![1.0f32; m * k], &[m, k]);
    let y = gpu.forward(&mut layer, &x, &mut Bindings::new()).unwrap();
    let y_data = gpu.download(&y);
    assert_eq!(y_data.len(), m * n);
    for (i, &val) in y_data.iter().enumerate() {
        let rel_err = (val - k as f32).abs() / (k as f32);
        assert!(
            rel_err < 0.05,
            "element {i} (row={}, col={}): got {val}, expected ~{}, rel_err={rel_err}",
            i / n,
            i % n,
            k as f32,
        );
    }
    assert_eq!(gpu.weights_quantized, 1);
}

#[test]
fn a_dequantization_on_the_device_is_one_launch() {
    let mut gpu = Gpu::new();
    let weight = gpu.upload(DType::F8E4M3, &[1.0; 600], &[20, 30]);
    let scale_inv = gpu.upload(DType::F32, &[1.0; 6], &[2, 3]);
    let block_size = Fp8BlockSize { block_r: 10, block_c: 10 };
    for (target, kernel, name) in [
        (DType::BF16, Kernel::DequantBf16, "fp8_blockwise_dequant_bf16"),
        (DType::F16, Kernel::DequantF16, "fp8_blockwise_dequant_f16"),
        (DType::F32, Kernel::DequantF32, "fp8_blockwise_dequant_f32"),
    ] {
        let plan = launched(fp8_blockwise_dequant(&weight, &scale_inv, &block_size, target));
        assert_eq!(kernel.name(), name);
        assert_eq!(kernel.module(), Module::Dequant);
        assert_eq!(
            plan.ops,
            vec![
                DeviceOp::Contiguous(Buffer::Weight),
                DeviceOp::Contiguous(Buffer::ScaleInv),
                DeviceOp::Load(kernel),
                DeviceOp::Alloc { buffer: Buffer::Output, dtype: target, len: 600 },
                DeviceOp::Launch {
                    call: Call::Dequant {
                        kernel,
                        weight: Buffer::Weight,
                        scale_inv: Buffer::ScaleInv,
                        out: Buffer::Output,
                        rows: 20,
                        cols: 30,
                        block_r: 10,
                        block_c: 10,
                    },
                    config: LaunchConfig {
                        grid_dim: (3, 1, 1),
                        block_dim: (256, 1, 1),
                        shared_mem_bytes: 0,
                    },
                },
            ]
        );
        assert_eq!(plan.outputs.len(), 1);
        assert_eq!(plan.outputs[0].dims, vec![20, 30]);
    }
}

#[test]
fn kernels_are_known_by_their_symbols() {
    for (kernel, name) in [
        (Kernel::QuantizeBlockwise, "bf16_to_fp8_e4m3_blockwise"),
        (Kernel::ZeroScale, "fp8_zero_scale"),
        (Kernel::Absmax, "bf16_absmax"),
        (Kernel::ComputeScale, "fp8_compute_scale"),
        (Kernel::QuantizeScalar, "bf16_to_fp8_e4m3_scalar"),
    ] {
        assert_eq!(kernel.name(), name);
        assert_eq!(kernel.module(), Module::Quantize);
    }
}

#[test]
fn a_blockwise_quantization_has_a_thread_block_for_each_block() {
    let mut gpu = Gpu::new();
    let input = gpu.upload(DType::BF16, &[1.0; 2 * 65 * 300], &[2, 65, 300]);
    let plan = launched(fp8_dynamic_quantize(&input));
    assert_eq!(
        plan.ops[4],
        DeviceOp::Launch {
            call: Call::QuantizeBlockwise {
                input: Buffer::Input,
                out: Buffer::Output,
                scales: Buffer::Scales,
                m: 130,
                k: 300,
            },
            config: LaunchConfig {
                grid_dim: (3, 2, 1),
                block_dim: (128, 1, 1),
                shared_mem_bytes: 0,
            },
        }
    );
    assert_eq!(plan.outputs[0].dims, vec![130, 300]);
    assert_eq!(plan.outputs[1].dims, vec![6]);
}

#[test]
fn a_search_for_a_maximum_runs_on_a_limited_number_of_blocks() {
    let mut gpu = Gpu::new();
    let input = gpu.upload(DType::BF16, &vec![1.0; 1 << 20], &[1 << 10, 1 << 10]);
    let plan = fp8_scalar_quantize(&input).unwrap();
    let grids: Vec<u32> = plan
        .ops
        .iter()
        .filter_map(|op| match op {
            DeviceOp::Launch { config, .. } => Some(config.grid_dim.0),
            _ => None,
        })
        .collect();
    assert_eq!(grids, vec![1024, 1, 4096]);
}

#[test]
fn a_tensor_is_quantized_with_one_scale() {
    let mut gpu = Gpu::new();
    let input = gpu.upload(DType::BF16, &[1.0, -2.0, 0.5, 0.25], &[2, 2]);
    let plan = fp8_scalar_quantize(&input).unwrap();
    let mut bindings = Bindings::new();
    bindings.bind_tensor(Buffer::Input, &input);
    let outputs = gpu.finish(bindings, plan);
    assert_eq!(outputs[0].dims, vec![2, 2]);
    assert_eq!(outputs[1].dims, vec![1]);
    assert_eq!(gpu.download(&outputs[0]), vec![224.0, -448.0, 112.0, 56.0]);
    assert_eq!(gpu.download(&outputs[1]), vec![2.0 / 448.0]);
}

#[test]
fn a_blockwise_multiplication_needs_whole_blocks() {
    let plan = |m, n, k| {
        fp8_matmul(
            Buffer::Input,
            Buffer::Weight,
            Buffer::ScaleInv,
            Buffer::Scales,
            m,
            n,
            k,
        )
    };
    assert_eq!(plan(100, 256, 100), Err(Error::RowsNotAligned(100)));
    assert_eq!(plan(128, 256, 100), Err(Error::InnerNotAligned(100)));
    let gemm = plan(256, 100, 128).unwrap();
    assert_eq!(gemm.scale_mode, ScaleMode::Blk128x128_32F);
    assert_eq!(gemm.d_len, 25600);
    assert_eq!((gemm.d.rows, gemm.d.cols, gemm.d.ld), (100, 256, 100));
    assert_eq!((gemm.a.layout.rows, gemm.a.layout.cols, gemm.a.layout.ld), (128, 100, 128));
    assert_eq!((gemm.b.layout.rows, gemm.b.layout.cols, gemm.b.layout.ld), (128, 256, 128));
    assert_eq!((gemm.a.transpose, gemm.b.transpose), (Transpose::Yes, Transpose::No));
    assert_eq!((gemm.a.data, gemm.a.scale), (Buffer::Weight, Buffer::ScaleInv));
    assert_eq!((gemm.b.data, gemm.b.scale), (Buffer::Input, Buffer::Scales));
}

#[test]
fn a_blockwise_multiplication_takes_the_scales_of_a_quantization() {
    let mut gpu = Gpu::new();
    let (m, n, k) = (256usize, 130usize, 384usize);
    let x: Vec<f32> = (0..m * k).map(|i| ((i / k / 128 + 1) * (i % k / 128 + 1)) as f32).collect();
    let input = gpu.upload(DType::BF16, &x, &[m, k]);
    let quantized = launched(fp8_dynamic_quantize(&input));
    let mut bindings = Bindings::new();
    bindings.bind_tensor(Buffer::Input, &input);
    let outputs = gpu.finish(bindings, quantized);

    let w = gpu.upload(DType::F8E4M3, &vec![1.0; n * k], &[n, k]);
    // One scale for each block of the weight, a column of blocks after the other.
    let w_scale = gpu.upload(DType::F32, &[1.0, 2.0, 1.0, 2.0, 1.0, 2.0], &[6]);
    let plan = fp8_matmul(
        Buffer::Input,
        Buffer::Weight,
        Buffer::ScaleInv,
        Buffer::Scales,
        m,
        n,
        k,
    )
    .unwrap();
    let mut bindings = Bindings::new();
    bindings.bind_tensor(Buffer::Input, &outputs[0]);
    bindings.bind_tensor(Buffer::Scales, &outputs[1]);
    bindings.bind_tensor(Buffer::Weight, &w);
    bindings.bind_tensor(Buffer::ScaleInv, &w_scale);
    let d = gpu.gemm(&bindings, &plan);
    let data = gpu.memory[d].1.clone();
    for i in 0..m {
        for j in 0..n {
            let row = (i / 128 + 1) as f32 * 128.0 * (1.0 + 2.0 + 3.0);
            let expected = row * (j / 128 + 1) as f32;
            assert!((data[i * n + j] - expected).abs() < 0.01 * expected);
        }
    }
}

#[test]
fn a_scalar_multiplication_takes_any_shape() {
    let gemm = fp8_matmul_scalar(
        Buffer::ActivationFp8,
        Buffer::ScalarWeight,
        Buffer::ScalarScale,
        Buffer::ActivationScale,
        3,
        5,
        7,
    );
    assert_eq!(gemm.scale_mode, ScaleMode::Scalar32F);
    assert_eq!(gemm.d_len, 15);
    assert_eq!(gemm.d.dtype, DType::BF16);
    assert_eq!((gemm.a.data, gemm.a.scale), (Buffer::ScalarWeight, Buffer::ScalarScale));
    assert_eq!((gemm.b.data, gemm.b.scale), (Buffer::ActivationFp8, Buffer::ActivationScale));
}

/// A layer with three rows and four columns, on the device.
fn small_layer(gpu: &mut Gpu, bias: bool) -> Fp8Linear {
    layer_with(gpu, bias, DType::BF16)
}

/// The same layer, with any type for the path without FP8.
fn layer_with(gpu: &mut Gpu, bias: bool, dequant_dtype: DType) -> Fp8Linear {
    let data: Vec<f32> = (0..12).map(|i| i as f32 - 5.0).collect();
    let weight = gpu.upload(DType::F8E4M3, &data, &[3, 4]);
    let scale_inv = gpu.upload(DType::F32, &[0.5, 0.25], &[1, 2]);
    let bias = if bias {
        Some(gpu.upload(DType::BF16, &[1.0, 2.0, 3.0], &[3]))
    } else {
        None
    };
    let block_size = Fp8BlockSize { block_r: 4, block_c: 2 };
    Fp8Linear::new(weight, scale_inv, bias, block_size, dequant_dtype)
}

/// What the layer above gives for a row.
fn expected(x: &[f32], bias: bool) -> Vec<f32> {
    (0..3)
        .map(|j| {
            let mut sum = if bias { (j + 1) as f32 } else { 0.0 };
            for l in 0..4 {
                let scale = if l < 2 { 0.5 } else { 0.25 };
                sum += x[l] * ((j * 4 + l) as f32 - 5.0) * scale;
            }
            sum
        })
        .collect()
}

fn close(got: &[f32], wanted: &[f32]) {
    assert_eq!(got.len(), wanted.len());
    for (a, b) in got.iter().zip(wanted) {
        assert!((a - b).abs() < 0.1 + 0.05 * b.abs(), "got {a}, expected ~{b}");
    }
}

#[test]
fn leading_dimensions_are_kept() {
    let mut gpu = Gpu::new();
    let mut layer = small_layer(&mut gpu, true);
    let data = [1.0, 2.0, 3.0, 4.0, 0.5, -1.0, 2.0, 0.0];
    let x = gpu.upload(DType::BF16, &data, &[2, 1, 4]);
    let y = gpu.forward(&mut layer, &x, &mut Bindings::new()).unwrap();
    assert_eq!(y.dims, vec![2, 1, 3]);
    assert_eq!(y.dtype(), DType::BF16);
    let mut wanted = expected(&data[..4], true);
    wanted.extend(expected(&data[4..], true));
    close(&gpu.download(&y), &wanted);
}

#[test]
fn a_vector_gives_a_vector() {
    let mut gpu = Gpu::new();
    let mut layer = small_layer(&mut gpu, false);
    let data = [1.0, 2.0, 3.0, 4.0];
    let x = gpu.upload(DType::BF16, &data, &[4]);
    let y = gpu.forward(&mut layer, &x, &mut Bindings::new()).unwrap();
    assert_eq!(y.dims, vec![3]);
    close(&gpu.download(&y), &expected(&data, false));
}

#[test]
fn the_weight_is_quantized_again_once() {
    let mut gpu = Gpu::new();
    let mut layer = small_layer(&mut gpu, false);
    let mut buffers = Bindings::new();
    for step in 0..3 {
        let data = [step as f32, 2.0, 3.0, 4.0];
        let x = gpu.upload(DType::BF16, &data, &[1, 4]);
        let y = gpu.forward(&mut layer, &x, &mut buffers).unwrap();
        close(&gpu.download(&y), &expected(&data, false));
    }
    assert_eq!(gpu.weights_quantized, 1);
}

#[test]
fn the_activation_buffers_are_kept_while_they_fit() {
    let mut gpu = Gpu::new();
    let mut layer = small_layer(&mut gpu, false);
    let mut buffers = Bindings::new();
    let small = gpu.upload(DType::BF16, &[1.0; 4], &[1, 4]);
    let large = gpu.upload(DType::BF16, &[1.0; 8], &[2, 4]);
    gpu.forward(&mut layer, &small, &mut buffers).unwrap();
    let place = buffers.get(Buffer::ActivationFp8);
    gpu.forward(&mut layer, &small, &mut buffers).unwrap();
    assert_eq!(buffers.get(Buffer::ActivationFp8), place);
    assert_eq!(gpu.activation_buffers, 1);
    gpu.forward(&mut layer, &large, &mut buffers).unwrap();
    assert_eq!(gpu.activation_buffers, 2);
    assert_eq!(layer.act_numel, Some(8));
    gpu.forward(&mut layer, &small, &mut buffers).unwrap();
    assert_eq!(gpu.activation_buffers, 3);
}

#[test]
fn the_first_scalar_weight_stays() {
    let mut gpu = Gpu::new();
    let mut layer = small_layer(&mut gpu, false);
    let x = gpu.upload(DType::BF16, &[1.0; 4], &[1, 4]);
    let scale = |gpu: &mut Gpu| gpu.upload(DType::F32, &[1.0], &[1]);
    let first = gpu.upload(DType::F8E4M3, &[1.0; 12], &[3, 4]);
    let second = gpu.upload(DType::F8E4M3, &[2.0; 12], &[3, 4]);
    let kept = gpu.handle(&first);
    let (s1, s2) = (scale(&mut gpu), scale(&mut gpu));
    layer.scalar_weight_made(&x, Ok((first, s1)));
    layer.scalar_weight_made(&x, Ok((second, s2)));
    assert_eq!(gpu.handle(&layer.scalar.as_ref().unwrap().0), kept);
}

#[test]
fn every_failure_of_the_fp8_path_falls_back() {
    let steps = [
        "dequantize",
        "quantize weight",
        "buffers",
        "quantize",
        "multiply",
        "fp8 bias",
    ];
    for broken in steps {
        let mut gpu = Gpu::new();
        let mut layer = small_layer(&mut gpu, true);
        gpu.broken = broken;
        let data = [1.0, 2.0, 3.0, 4.0];
        let x = gpu.upload(DType::BF16, &data, &[1, 4]);
        let y = gpu.forward(&mut layer, &x, &mut Bindings::new()).unwrap();
        assert_eq!(gpu.download(&y), expected(&data, true), "{broken}");
    }
}

#[test]
fn failed_buffers_are_not_remembered() {
    let mut gpu = Gpu::new();
    let mut layer = small_layer(&mut gpu, false);
    gpu.broken = "buffers";
    let x = gpu.upload(DType::BF16, &[1.0; 4], &[1, 4]);
    gpu.forward(&mut layer, &x, &mut Bindings::new()).unwrap();
    assert_eq!(layer.act_numel, None);
    assert!(layer.scalar.is_some());
}

#[test]
fn other_activations_do_not_take_the_fp8_path() {
    let mut gpu = Gpu::new();
    let mut layer = small_layer(&mut gpu, false);
    let x = gpu.upload(DType::F32, &[1.0, 2.0, 3.0, 4.0], &[1, 4]);
    let y = gpu.forward(&mut layer, &x, &mut Bindings::new()).unwrap();
    assert_eq!(gpu.download(&y), expected(&[1.0, 2.0, 3.0, 4.0], false));
    assert!(layer.scalar.is_none());
    assert_eq!(gpu.weights_quantized, 0);
}

#[test]
fn a_weight_on_the_host_does_not_take_the_fp8_path() {
    let mut gpu = Gpu::new();
    let weight = Tensor::from_vec(Storage::F8E4M3(vec![0x38; 4]), vec![2, 2]).unwrap();
    let scale_inv = Tensor::from_vec(Storage::F32(vec![1.0f32.to_bits()]), vec![1, 1]).unwrap();
    let layer = Fp8Linear::new(weight, scale_inv, None, Fp8BlockSize::default(), DType::BF16);
    let x = gpu.upload(DType::BF16, &[1.0, 2.0], &[1, 2]);
    match layer.forward(&x) {
        Action::Multiply(wt) => assert_eq!(wt.dims, vec![2, 2]),
        other => panic!("unexpected: {other:?}"),
    }
}

#[test]
fn a_narrower_activation_falls_back_and_is_refused_there() {
    let mut gpu = Gpu::new();
    let mut layer = small_layer(&mut gpu, false);
    let x = gpu.upload(DType::BF16, &[1.0, 2.0, 3.0], &[1, 3]);
    let result = gpu.forward(&mut layer, &x, &mut Bindings::new());
    assert!(matches!(result, Err(Error::ShapeMismatch)));
    assert!(matches!(
        layer.fp8_scalar_forward(&x),
        Err(Error::InnerDims { activation: 3, weight: 4 })
    ));
}

#[test]
fn the_fp8_path_names_what_it_does_not_take() {
    let mut gpu = Gpu::new();
    let mut layer = small_layer(&mut gpu, false);
    let x = gpu.upload(DType::BF16, &[1.0; 4], &[1, 4]);
    assert!(matches!(layer.fp8_scalar_forward(&x), Err(Error::NoScalarWeight)));
    assert!(matches!(layer.fp8_scalar_multiply(&x), Err(Error::NoScalarWeight)));

    let weight = gpu.upload(DType::F8E4M3, &[1.0; 12], &[3, 4]);
    let scale = gpu.upload(DType::F32, &[1.0], &[1]);
    layer.scalar_weight_made(&x, Ok((weight, scale)));
    let host = Tensor::from_vec(Storage::BF16(vec![0; 4]), vec![1, 4]).unwrap();
    assert!(matches!(
        layer.fp8_scalar_forward(&host),
        Err(Error::ExpectedCuda(Device::Cpu))
    ));
    let wide = gpu.upload(DType::F32, &[1.0; 4], &[1, 4]);
    assert!(matches!(
        layer.fp8_scalar_forward(&wide),
        Err(Error::ActivationDType(DType::F32))
    ));
    let product = layer.fp8_scalar_multiply(&x).unwrap();
    assert_eq!(product.dims, vec![1, 3]);
    assert_eq!(product.gemm.d_len, 3);
}

#[test]
fn the_fp8_multiplication_names_what_it_does_not_take() {
    let mut gpu = Gpu::new();
    let x = gpu.upload(DType::BF16, &[1.0; 4], &[1, 4]);
    let host = Tensor::from_vec(Storage::F8E4M3(vec![0; 12]), vec![3, 4]).unwrap();
    let weight = |gpu: &mut Gpu| gpu.upload(DType::F8E4M3, &[1.0; 12], &[3, 4]);
    let scale = gpu.upload(DType::F32, &[1.0], &[1]);
    let mut layer = small_layer(&mut gpu, false);
    layer.scalar_weight_made(&x, Ok((host, scale)));
    assert!(matches!(
        layer.fp8_scalar_multiply(&x),
        Err(Error::ExpectedCuda(Device::Cpu))
    ));
    assert!(matches!(layer.activation_quantized(&x, Ok(())), Action::Dequantize(_)));

    let mut layer = small_layer(&mut gpu, false);
    let wide = gpu.upload(DType::BF16, &[1.0; 12], &[3, 4]);
    let scale = gpu.upload(DType::F32, &[1.0], &[1]);
    layer.scalar_weight_made(&x, Ok((wide, scale)));
    assert!(matches!(
        layer.fp8_scalar_multiply(&x),
        Err(Error::ScalarWeightDType(DType::BF16))
    ));

    let mut layer = small_layer(&mut gpu, false);
    let scale = gpu.upload(DType::BF16, &[1.0], &[1]);
    let w = weight(&mut gpu);
    layer.scalar_weight_made(&x, Ok((w, scale)));
    assert!(matches!(
        layer.fp8_scalar_multiply(&x),
        Err(Error::ScalarScaleDType(DType::BF16))
    ));

    let mut layer = small_layer(&mut gpu, false);
    let scale = Tensor::from_vec(Storage::F32(vec![0]), vec![1]).unwrap();
    let w = weight(&mut gpu);
    layer.scalar_weight_made(&x, Ok((w, scale)));
    assert!(matches!(
        layer.fp8_scalar_multiply(&x),
        Err(Error::ExpectedCuda(Device::Cpu))
    ));
}

#[test]
fn failures_of_the_other_path_are_the_result() {
    let mut gpu = Gpu::new();
    let layer = small_layer(&mut gpu, false);
    assert!(matches!(
        layer.weight_made(Err(Error::Backend(3))),
        Action::Finish(Err(Error::Backend(3)))
    ));
    assert!(matches!(
        layer.product_made(Err(Error::Backend(4))),
        Action::Finish(Err(Error::Backend(4)))
    ));
    assert!(matches!(
        layer.bias_added(Err(Error::Backend(5))),
        Action::Finish(Err(Error::Backend(5)))
    ));
    let vector = gpu.upload(DType::BF16, &[1.0; 4], &[4]);
    assert!(matches!(
        layer.weight_made(Ok(vector)),
        Action::Finish(Err(Error::ExpectedMatrix(1)))
    ));
}

#[test]
fn a_pass_outside_its_ranges_is_found_beforehand() {
    let mut gpu = Gpu::new();
    let layer = small_layer(&mut gpu, false);
    let x = gpu.upload(DType::BF16, &[1.0; 4], &[1, 4]);
    assert!(layer.check_forward(&x));
    let scalar = gpu.upload(DType::BF16, &[1.0], &[]);
    assert!(!layer.check_forward(&scalar));
    let host = Tensor::from_vec(Storage::F32(vec![0]), vec![]).unwrap();
    assert!(layer.check_forward(&host));
    let remote = RemoteStorage {
        accelerator: Accelerator::Cuda { gpu_id: 0 },
        dtype: DType::BF16,
        len: 0x1_ffff_fffc,
        handle: 0,
    };
    let large = Tensor::from_vec(Storage::Remote(remote), vec![0x7fff_ffff, 4]).unwrap();
    assert!(!layer.check_forward(&large));
}

#[test]
fn the_fp8_path_dequantizes_to_bf16_whatever_the_other_path_takes() {
    for dequant_dtype in [DType::F32, DType::F16, DType::BF16, DType::U8] {
        let mut gpu = Gpu::new();
        let mut layer = layer_with(&mut gpu, true, dequant_dtype);
        let data = [1.0, 2.0, 3.0, 4.0];
        let x = gpu.upload(DType::BF16, &data, &[1, 4]);
        match layer.forward(&x) {
            Action::DequantizeForFp8(plan) => {
                assert_eq!(plan.outputs[0].dtype, DType::BF16);
                assert_eq!(plan.ops[2], DeviceOp::Load(Kernel::DequantBf16));
            }
            other => panic!("unexpected: {other:?}"),
        }
        let y = gpu.forward(&mut layer, &x, &mut Bindings::new()).unwrap();
        close(&gpu.download(&y), &expected(&data, true));
        assert_eq!(gpu.weights_quantized, 1);
        let (w, s) = layer.scalar.as_ref().unwrap();
        assert_eq!(w.dtype(), DType::F8E4M3);
        assert_eq!(w.dims, vec![3, 4]);
        // The largest dequantized weight is 2.5 in absolute value.
        assert_eq!(gpu.download(s), vec![2.5 / 448.0]);
    }
}

#[test]
fn the_path_without_fp8_keeps_its_own_type() {
    for dequant_dtype in [DType::F32, DType::F16] {
        let mut gpu = Gpu::new();
        let layer = layer_with(&mut gpu, false, dequant_dtype);
        let x = gpu.upload(DType::F32, &[1.0; 4], &[1, 4]);
        match layer.forward(&x) {
            Action::Dequantize(plan) => assert_eq!(plan.outputs[0].dtype, dequant_dtype),
            other => panic!("unexpected: {other:?}"),
        }
    }
}

#[test]
fn a_scalar_weight_is_looked_for_before_it_is_made() {
    let mut gpu = Gpu::new();
    let mut layer = small_layer(&mut gpu, false);
    assert!(matches!(layer.ensure_scalar_weight(), Ok(Work::Launch(_))));
    let x = gpu.upload(DType::BF16, &[1.0; 4], &[1, 4]);
    gpu.forward(&mut layer, &x, &mut Bindings::new()).unwrap();
    assert!(matches!(layer.ensure_scalar_weight(), Ok(Work::Done(()))));

    let weight = Tensor::from_vec(Storage::F8E4M3(vec![0x38; 4]), vec![2, 2]).unwrap();
    let scale_inv = Tensor::from_vec(Storage::F32(vec![1.0f32.to_bits()]), vec![1, 1]).unwrap();
    let host = Fp8Linear::new(weight, scale_inv, None, Fp8BlockSize::default(), DType::F32);
    assert!(matches!(
        host.ensure_scalar_weight(),
        Err(Error::ExpectedCuda(Device::Cpu))
    ));
    // The FP8 path ends before it looks at the activation, so any will do.
    let scalar = gpu.upload(DType::BF16, &[1.0], &[]);
    assert!(host.check_forward(&scalar));
    assert!(matches!(host.forward(&scalar), Action::Multiply(_)));

    let wide = gpu.upload(DType::F32, &[1.0; 4], &[2, 2]);
    let scales = gpu.upload(DType::F32, &[1.0], &[1, 1]);
    let odd = Fp8Linear::new(wide, scales, None, Fp8BlockSize::default(), DType::F32);
    assert!(matches!(
        odd.ensure_scalar_weight(),
        Err(Error::WeightDType(DType::F32))
    ));
    assert!(odd.check_forward(&scalar));
    assert!(matches!(
        odd.forward(&scalar),
        Action::Finish(Err(Error::WeightDType(DType::F32)))
    ));
}

/// The steps of a pass, as they are printed.
fn steps(gpu: &mut Gpu, layer: &mut Fp8Linear, x: &Tensor, buffers: &mut Bindings) -> Vec<String> {
    let mut steps = Vec::new();
    let action = layer.forward(x);
    steps.push(format!("{action:?}"));
    gpu.forward(layer, x, buffers).unwrap();
    let action = layer.activation_quantized(x, Ok(()));
    steps.push(format!("{action:?}"));
    steps
}

#[test]
fn earlier_passes_do_not_change_what_is_laid_down() {
    let mut gpu = Gpu::new();
    let x = gpu.upload(DType::BF16, &[1.0, 2.0, 3.0, 4.0], &[1, 4]);
    let other = gpu.upload(DType::BF16, &[9.0; 12], &[3, 4]);

    let mut fresh = small_layer(&mut gpu, false);
    let mut again = Bindings::new();
    let fresh_y = gpu.forward(&mut fresh, &x, &mut again).unwrap();

    let mut used = small_layer(&mut gpu, false);
    let mut buffers = Bindings::new();
    gpu.forward(&mut used, &other, &mut buffers).unwrap();
    gpu.broken = "multiply";
    gpu.forward(&mut used, &x, &mut buffers).unwrap();
    gpu.broken = "";
    gpu.forward(&mut used, &other, &mut buffers).unwrap();
    let used_y = gpu.forward(&mut used, &x, &mut buffers).unwrap();
    assert_eq!(used_y.dims, fresh_y.dims);
    assert_eq!(gpu.download(&used_y), gpu.download(&fresh_y));

    let a = steps(&mut gpu, &mut used, &x, &mut buffers);
    let b = steps(&mut gpu, &mut fresh, &x, &mut again);
    assert_eq!(a, b);
}

#[test]
fn the_bias_is_one_step_on_the_product() {
    let mut gpu = Gpu::new();
    let data = [1.0, 2.0, 3.0, 4.0];
    let x = gpu.upload(DType::BF16, &data, &[1, 4]);
    let mut plain = small_layer(&mut gpu, false);
    let mut biased = small_layer(&mut gpu, true);
    let ya = gpu.forward(&mut plain, &x, &mut Bindings::new()).unwrap();
    let yb = gpu.forward(&mut biased, &x, &mut Bindings::new()).unwrap();
    assert_eq!(ya.dims, yb.dims);
    let sums: Vec<f32> = gpu
        .download(&ya)
        .iter()
        .enumerate()
        .map(|(j, v)| rounded(DType::BF16, v + (j + 1) as f32))
        .collect();
    assert_eq!(gpu.download(&yb), sums);
    let out = gpu.upload(DType::BF16, &[0.0; 3], &[1, 3]);
    assert!(matches!(plain.fp8_product_made(Ok(out)), Action::Finish(Ok(_))));
    let out = gpu.upload(DType::BF16, &[0.0; 3], &[1, 3]);
    assert!(matches!(biased.fp8_product_made(Ok(out)), Action::AddFp8Bias(_)));
    let sum = gpu.upload(DType::BF16, &[0.0; 3], &[1, 3]);
    assert!(matches!(biased.fp8_bias_added(Ok(sum)), Action::Finish(Ok(_))));
}

#[test]
fn exchanging_the_operands_transposes_the_product() {
    let mut gpu = Gpu::new();
    let (m, n, k) = (3usize, 5usize, 4usize);
    let x: Vec<f32> = (0..m * k).map(|i| i as f32 - 4.0).collect();
    let w: Vec<f32> = (0..n * k).map(|i| 3.0 - (i % 7) as f32).collect();
    let x = gpu.upload(DType::F8E4M3, &x, &[m, k]);
    let w = gpu.upload(DType::F8E4M3, &w, &[n, k]);
    let xs = gpu.upload(DType::F32, &[0.5], &[1]);
    let ws = gpu.upload(DType::F32, &[2.0], &[1]);
    let mut bindings = Bindings::new();
    bindings.bind_tensor(Buffer::Input, &x);
    bindings.bind_tensor(Buffer::Weight, &w);
    bindings.bind_tensor(Buffer::Scales, &xs);
    bindings.bind_tensor(Buffer::ScaleInv, &ws);
    let (bx, bw, bxs, bws) = (Buffer::Input, Buffer::Weight, Buffer::Scales, Buffer::ScaleInv);
    let one = gpu.gemm(&bindings, &fp8_matmul_scalar(bx, bw, bws, bxs, m, n, k));
    let two = gpu.gemm(&bindings, &fp8_matmul_scalar(bw, bx, bxs, bws, n, m, k));
    let (d1, d2) = (gpu.memory[one].1.clone(), gpu.memory[two].1.clone());
    assert_eq!(d1.len(), d2.len());
    for i in 0..m {
        for j in 0..n {
            assert_eq!(d2[j * m + i], d1[i * n + j]);
        }
    }
}

#[test]
fn the_device_functions_refuse_other_operands() {
    let mut gpu = Gpu::new();
    let host = Tensor::from_vec(Storage::BF16(vec![0; 4]), vec![2, 2]).unwrap();
    assert!(matches!(
        fp8_dynamic_quantize_cuda(&host, 2, 2),
        Err(Error::ExpectedCuda(Device::Cpu))
    ));
    let wide = gpu.upload(DType::F32, &[1.0; 4], &[2, 2]);
    assert!(matches!(
        fp8_dynamic_quantize_cuda(&wide, 2, 2),
        Err(Error::DynamicInputDType(DType::F32))
    ));
    let weight = gpu.upload(DType::F8E4M3, &[1.0; 4], &[2, 2]);
    let op = Fp8BlockwiseDequant {
        rows: 2,
        cols: 2,
        block_r: 2,
        block_c: 2,
        target_dtype: DType::F16,
    };
    assert!(matches!(
        op.cuda_fwd(&wide.storage, &wide.storage),
        Err(Error::WeightDType(DType::F32))
    ));
    assert!(matches!(
        op.cuda_fwd(&weight.storage, &weight.storage),
        Err(Error::ScaleDType(DType::F8E4M3))
    ));
    let plan = op.cuda_fwd(&weight.storage, &wide.storage).unwrap();
    assert_eq!(plan.ops.len(), 3);
    assert_eq!(plan.outputs[0].dims, vec![2, 2]);
    assert_eq!(plan.outputs[0].dtype, DType::F16);
}

#[test]
fn a_dequantization_starts_where_its_operands_start() {
    let mut gpu = Gpu::new();
    let block_size = Fp8BlockSize { block_r: 1, block_c: 2 };
    // Three numbers before the weight, and one before the scales.
    let data = [9.0, 9.0, 9.0, 1.0, 2.0, 3.0, 4.0, 5.0, 6.0, 7.0, 8.0];
    let weight = gpu.part(DType::F8E4M3, &data, &[2, 4], &[4, 1], 3);
    let scale_inv = gpu.part(DType::F32, &[9.0, 0.5, 1.0, 2.0, 4.0], &[2, 2], &[2, 1], 1);
    let out = dequantized(&mut gpu, &weight, &scale_inv, &block_size, DType::F32);
    let wanted = vec![0.5, 1.0, 3.0, 4.0, 10.0, 12.0, 28.0, 32.0];
    assert_eq!(gpu.download(&out), wanted);
    // The same numbers column by column, and the scales too.
    let data = [9.0, 1.0, 5.0, 2.0, 6.0, 3.0, 7.0, 4.0, 8.0];
    let weight = gpu.part(DType::F8E4M3, &data, &[2, 4], &[1, 2], 1);
    let scale_inv = gpu.part(DType::F32, &[0.5, 2.0, 1.0, 4.0], &[2, 2], &[1, 2], 0);
    let out = dequantized(&mut gpu, &weight, &scale_inv, &block_size, DType::F32);
    assert_eq!(gpu.download(&out), wanted);
}

#[test]
fn a_quantization_starts_where_its_input_starts() {
    let mut gpu = Gpu::new();
    let data = [9.0, 9.0, 1.0, -4.0, 2.0, 0.5];
    let input = gpu.part(DType::BF16, &data, &[2, 2], &[2, 1], 2);
    for plan in [launched(fp8_dynamic_quantize(&input)), fp8_scalar_quantize(&input).unwrap()] {
        let mut bindings = Bindings::new();
        bindings.bind_tensor(Buffer::Input, &input);
        let outputs = gpu.finish(bindings, plan);
        assert_eq!(gpu.download(&outputs[0]), vec![112.0, -448.0, 224.0, 56.0]);
        assert_eq!(gpu.download(&outputs[1]), vec![4.0 / 448.0]);
    }
    // Every second column of a wider matrix.
    let data = [9.0, 1.0, 9.0, -4.0, 9.0, 2.0, 9.0, 0.5];
    let input = gpu.part(DType::BF16, &data, &[2, 2], &[4, 2], 1);
    let plan = launched(fp8_dynamic_quantize(&input));
    let mut bindings = Bindings::new();
    bindings.bind_tensor(Buffer::Input, &input);
    let outputs = gpu.finish(bindings, plan);
    assert_eq!(gpu.download(&outputs[0]), vec![112.0, -448.0, 224.0, 56.0]);
}

#[test]
fn a_pass_starts_where_its_activation_starts() {
    let mut gpu = Gpu::new();
    let mut layer = small_layer(&mut gpu, true);
    let data = [99.0, 1.0, 2.0, 3.0, 4.0, 99.0];
    let x = gpu.part(DType::BF16, &data, &[1, 4], &[4, 1], 1);
    let mut buffers = Bindings::new();
    for _ in 0..2 {
        let y = gpu.forward(&mut layer, &x, &mut buffers).unwrap();
        close(&gpu.download(&y), &expected(&data[1..5], true));
    }
    assert_eq!(gpu.activation_buffers, 1);
}

#[test]
fn work_is_laid_down_for_the_device_of_its_operands() {
    let mut gpu = Gpu::new();
    gpu.gpu_id = 3;
    let device = Device::Cuda { gpu_id: 3 };
    assert!(device.is_cuda());
    assert!(!Device::Cpu.is_cuda() && !(Device::Metal { gpu_id: 3 }).is_cuda());
    let mut layer = small_layer(&mut gpu, true);
    let data = [1.0, 2.0, 3.0, 4.0];
    let x = gpu.upload(DType::BF16, &data, &[1, 4]);
    assert_eq!(x.device(), device);
    let y = gpu.forward(&mut layer, &x, &mut Bindings::new()).unwrap();
    assert_eq!(y.device(), device);
    close(&gpu.download(&y), &expected(&data, true));
    assert_eq!(layer.fp8_scalar_multiply(&x).unwrap().device, device);
    let matrix = gpu.upload(DType::BF16, &[1.0; 4], &[2, 2]);
    assert_eq!(launched(fp8_dynamic_quantize(&matrix)).device, device);
    assert_eq!(fp8_dynamic_quantize_cuda(&matrix, 2, 2).unwrap().device, device);
    assert_eq!(fp8_scalar_quantize(&matrix).unwrap().device, device);
    let plan = launched(layer.dequantized_weight());
    assert_eq!(plan.device, device);
}

#[test]
fn a_layer_on_two_devices_is_refused() {
    let (mut near, mut far) = (Gpu::new(), Gpu::new());
    far.gpu_id = 1;
    let weight = near.upload(DType::F8E4M3, &[1.0; 4], &[2, 2]);
    let scale_inv = far.upload(DType::F32, &[1.0], &[1, 1]);
    let x = near.upload(DType::BF16, &[1.0; 2], &[1, 2]);
    let layer = Fp8Linear::new(weight, scale_inv, None, Fp8BlockSize::default(), DType::BF16);
    assert!(layer.check_forward(&x));
    let error = Error::DeviceMismatch {
        lhs: Device::Cuda { gpu_id: 0 },
        rhs: Device::Cuda { gpu_id: 1 },
    };
    assert!(matches!(layer.dequantized_weight(), Err(e) if e == error));
    assert!(matches!(layer.ensure_scalar_weight(), Err(e) if e == error));
    assert!(matches!(layer.forward(&x), Action::Finish(Err(e)) if e == error));
}

#[test]
fn a_layer_is_valid_where_its_parts_fit_together() {
    let mut gpu = Gpu::new();
    let mut layer = small_layer(&mut gpu, false);
    let x = gpu.upload(DType::BF16, &[1.0; 4], &[1, 4]);
    assert!(layer.is_valid());
    let w = gpu.upload(DType::F8E4M3, &[1.0; 12], &[3, 4]);
    let s = gpu.upload(DType::F32, &[1.0], &[1]);
    layer.scalar = Some((w, s));
    assert!(layer.is_valid() && layer.check_forward(&x));
    let w = gpu.upload(DType::F8E4M3, &[1.0; 12], &[4, 3]);
    let s = gpu.upload(DType::F32, &[1.0], &[1]);
    layer.scalar = Some((w, s));
    assert!(!layer.is_valid() && !layer.check_forward(&x));
    layer.scalar = None;
    let mut outside = gpu.upload(DType::BF16, &[1.0; 4], &[1, 4]);
    outside.start_offset = 1;
    assert!(!layer.check_forward(&outside));
    layer.scale_inv.strides.push(1);
    assert!(!layer.is_valid() && !layer.check_forward(&x));
}

#[test]
fn a_later_pass_repeats_the_first() {
    let mut gpu = Gpu::new();
    let mut layer = small_layer(&mut gpu, true);
    let mut buffers = Bindings::new();
    let x = gpu.upload(DType::BF16, &[1.0, 2.0, 3.0, 4.0], &[1, 4]);
    let other = gpu.upload(DType::BF16, &[7.0; 8], &[2, 4]);
    let first = gpu.forward(&mut layer, &x, &mut buffers).unwrap();
    let product = format!("{:?}", layer.fp8_scalar_multiply(&x).unwrap());
    let kept = gpu.handle(&layer.scalar.as_ref().unwrap().0);
    gpu.forward(&mut layer, &other, &mut buffers).unwrap();
    let later = gpu.forward(&mut layer, &x, &mut buffers).unwrap();
    assert_eq!(gpu.download(&later), gpu.download(&first));
    assert_eq!(format!("{:?}", layer.fp8_scalar_multiply(&x).unwrap()), product);
    assert_eq!(gpu.handle(&layer.scalar.as_ref().unwrap().0), kept);
    assert_eq!(gpu.weights_quantized, 1);
}

#[test]
fn host_and_device_leave_the_same() {
    let mut gpu = Gpu::new();
    let (rows, cols) = (130usize, 200usize);
    let data: Vec<f32> = (0..rows * cols).map(|i| (i % 97) as f32 - 40.0).collect();
    let bits = data.iter().map(|x| narrow_to_bf16(x.to_bits())).collect();
    let near = Tensor::from_vec(Storage::BF16(bits), vec![rows, cols]).unwrap();
    let far = gpu.upload(DType::BF16, &data, &[rows, cols]);
    let (quant, scales) = match fp8_dynamic_quantize(&near) {
        Ok(Work::Done(out)) => out,
        other => panic!("not done on the host: {other:?}"),
    };
    let plan = launched(fp8_dynamic_quantize(&far));
    let grid = match plan.ops.last() {
        Some(DeviceOp::Launch { config, .. }) => config.grid_dim,
        other => panic!("no launch: {other:?}"),
    };
    assert_eq!(grid, (2, 2, 1));
    let mut bindings = Bindings::new();
    bindings.bind_tensor(Buffer::Input, &far);
    let outputs = gpu.finish(bindings, plan);
    assert_eq!(outputs[0].dims, quant.dims);
    assert_eq!(outputs[0].dtype(), quant.dtype());
    assert_eq!(outputs[1].dims, scales.dims);
    assert_eq!(outputs[1].dtype(), scales.dtype());
    assert_eq!(scales.dims, vec![4]);

    let block_size = Fp8BlockSize { block_r: 128, block_c: 128 };
    let quant_far = gpu.upload(DType::F8E4M3, &data, &[rows, cols]);
    let scales_far = gpu.upload(DType::F32, &[1.0; 4], &[2, 2]);
    let ones = Tensor::from_vec(Storage::F32(vec![1.0f32.to_bits(); 4]), vec![2, 2]).unwrap();
    for target in [DType::BF16, DType::F16, DType::F32] {
        let out = match fp8_blockwise_dequant(&quant, &ones, &block_size, target) {
            Ok(Work::Done(out)) => out,
            other => panic!("not done on the host: {other:?}"),
        };
        let far = dequantized(&mut gpu, &quant_far, &scales_far, &block_size, target);
        assert_eq!(far.dims, out.dims);
        assert_eq!(far.dtype(), out.dtype());
    }
}
