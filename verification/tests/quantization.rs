use fp8_linear::block::Fp8BlockSize;
use fp8_linear::convert::{narrow_to_bf16, narrow_to_e4m3, widen_bf16, widen_e4m3};
use fp8_linear::dequant::{check_dequant, fp8_blockwise_dequant, Fp8BlockwiseDequant};
use fp8_linear::device::Work;
use fp8_linear::error::{DType, Device, Error};
use fp8_linear::linear::{Action, Fp8Linear};
use fp8_linear::quantize::{
    check_dynamic, fp8_dynamic_quantize, fp8_dynamic_quantize_cpu, fp8_scalar_quantize,
};
use fp8_linear::tensor::{Accelerator, RemoteStorage, Storage, Tensor};

fn fp8(data: &[f32], dims: &[usize]) -> Tensor {
    let codes = data.iter().map(|x| narrow_to_e4m3(x.to_bits())).collect();
    Tensor::from_vec(Storage::F8E4M3(codes), dims.to_vec()).unwrap()
}

fn single(data: &[f32], dims: &[usize]) -> Tensor {
    let bits = data.iter().map(|x| x.to_bits()).collect();
    Tensor::from_vec(Storage::F32(bits), dims.to_vec()).unwrap()
}

fn brain(data: &[f32], dims: &[usize]) -> Tensor {
    let bits = data.iter().map(|x| narrow_to_bf16(x.to_bits())).collect();
    Tensor::from_vec(Storage::BF16(bits), dims.to_vec()).unwrap()
}

fn remote(accelerator: Accelerator, dtype: DType, dims: &[usize]) -> Tensor {
    let len = dims.iter().product();
    let storage = RemoteStorage { accelerator, dtype, len, handle: 1 };
    Tensor::from_vec(Storage::Remote(storage), dims.to_vec()).unwrap()
}

/// The elements in row-major order, as numbers.
fn values(t: &Tensor) -> Vec<f32> {
    match t.contiguous() {
        Storage::F32(bits) => bits.iter().map(|x| f32::from_bits(*x)).collect(),
        Storage::BF16(bits) => bits.iter().map(|x| f32::from_bits(widen_bf16(*x))).collect(),
        Storage::F16(bits) => {
            bits.iter().map(|x| half::f16::from_bits(*x).to_f32()).collect()
        }
        Storage::F8E4M3(bits) => bits.iter().map(|x| f32::from_bits(widen_e4m3(*x))).collect(),
        _ => panic!("no floats on the host"),
    }
}

fn done<T>(work: Result<Work<T>, Error>) -> T {
    match work {
        Ok(Work::Done(result)) => result,
        Ok(Work::Launch(_)) => panic!("left to a device"),
        Err(e) => panic!("refused: {e:?}"),
    }
}

#[test]
fn test_fp8_blockwise_dequant_cpu() {
    let rows = 4usize;
    let cols = 4usize;
    let weight = fp8(&vec![1.0f32; rows * cols], &[rows, cols]);
    let scale_inv = single(&[2.0f32], &[1, 1]);
    let block_size = Fp8BlockSize { block_r: 4, block_c: 4 };

    let out = done(fp8_blockwise_dequant(&weight, &scale_inv, &block_size, DType::F32));
    let out_data = values(&out);
    assert_eq!(out_data.len(), rows * cols);
    for val in out_data {
        assert!((val - 2.0).abs() < 0.1, "expected ~2.0, got {}", val);
    }
}

#[test]
fn test_fp8_blockwise_dequant_multiple_blocks_cpu() {
    let block_r = 2usize;
    let block_c = 2usize;
    let rows = 4usize;
    let cols = 4usize;
    let weight = fp8(&vec![1.0f32; rows * cols], &[rows, cols]);
    let scale_inv = single(&[1.0f32, 2.0, 3.0, 4.0], &[2, 2]);
    let block_size = Fp8BlockSize { block_r, block_c };

    let out = done(fp8_blockwise_dequant(&weight, &scale_inv, &block_size, DType::F32));
    let out_data = values(&out);
    assert!((out_data[0] - 1.0).abs() < 0.1);
    assert!((out_data[2] - 2.0).abs() < 0.1);
    assert!((out_data[2 * cols] - 3.0).abs() < 0.1);
    assert!((out_data[2 * cols + 2] - 4.0).abs() < 0.1);
}

/// Multiplies a matrix with a matrix in single precision.
fn matmul(x: &Tensor, w: &Tensor) -> Tensor {
    let (m, k) = x.dims2().unwrap();
    let (k_w, n) = w.dims2().unwrap();
    assert_eq!(k, k_w);
    let (a, b) = (values(x), values(w));
    let mut out = vec![0.0f32; m * n];
    for i in 0..m {
        for j in 0..n {
            for l in 0..k {
                out[i * n + j] += a[i * k + l] * b[l * n + j];
            }
        }
    }
    match x.dtype() {
        DType::BF16 => brain(&out, &[m, n]),
        _ => single(&out, &[m, n]),
    }
}

/// Runs a forward pass whose operands are all on the host.
fn forward_on_host(layer: &Fp8Linear, x: &Tensor) -> Result<Tensor, Error> {
    let mut action = layer.forward(x);
    loop {
        action = match action {
            Action::Multiply(wt) => layer.product_made(Ok(matmul(x, &wt))),
            Action::AddBias(out) => {
                let bias = values(layer.bias().unwrap());
                let mut sum = values(&out);
                for (i, v) in sum.iter_mut().enumerate() {
                    *v += bias[i % bias.len()];
                }
                let dims = out.dims.clone();
                layer.bias_added(Ok(single(&sum, &dims)))
            }
            Action::Finish(result) => return result,
            other => panic!("no work for a device: {other:?}"),
        };
    }
}

#[test]
fn test_fp8_linear_cpu() {
    let weight = fp8(&[1.0f32; 4], &[2, 2]);
    let scale_inv = single(&[1.0f32], &[1, 1]);
    let layer = Fp8Linear::new(
        weight,
        scale_inv,
        None,
        Fp8BlockSize { block_r: 2, block_c: 2 },
        DType::F32,
    );

    let x = single(&[1.0f32, 2.0], &[1, 2]);
    let y = forward_on_host(&layer, &x).unwrap();
    let y_data = values(&y);
    assert_eq!(y.dims, vec![1, 2]);
    assert!((y_data[0] - 3.0).abs() < 0.2);
    assert!((y_data[1] - 3.0).abs() < 0.2);
}

#[test]
fn the_bias_is_added_to_every_row() {
    let weight = fp8(&[1.0, 2.0, 3.0, 4.0], &[2, 2]);
    let scale_inv = single(&[0.5], &[1, 1]);
    let bias = single(&[10.0, 20.0], &[2]);
    let layer = Fp8Linear::new(
        weight,
        scale_inv,
        Some(bias),
        Fp8BlockSize { block_r: 2, block_c: 2 },
        DType::F32,
    );
    let x = single(&[1.0, 2.0, 3.0, 4.0], &[2, 2]);
    let y = forward_on_host(&layer, &x).unwrap();
    assert_eq!(values(&y), vec![12.5, 25.5, 15.5, 32.5]);
    assert_eq!(layer.weight().dims, vec![2, 2]);
    assert_eq!(values(layer.scale_inv()), vec![0.5]);
    assert_eq!(values(layer.bias().unwrap()), vec![10.0, 20.0]);
}

#[test]
fn dequantization_is_exact_in_every_target() {
    let weight = fp8(&[1.5, -2.0, 0.0625, 448.0, 0.0, -0.0, 3.25, 10.0], &[2, 4]);
    let scale_inv = single(&[3.0, 0.25], &[1, 2]);
    let block_size = Fp8BlockSize { block_r: 128, block_c: 2 };
    let expected = [4.5f32, -6.0, 0.015625, 112.0, 0.0, -0.0, 0.8125, 2.5];
    for target in [DType::F32, DType::BF16, DType::F16] {
        let out = done(fp8_blockwise_dequant(&weight, &scale_inv, &block_size, target));
        assert_eq!(out.dtype(), target);
        assert_eq!(out.dims, vec![2, 4]);
        let bits: Vec<u32> = values(&out).iter().map(|x| x.to_bits()).collect();
        let wanted: Vec<u32> = expected.iter().map(|x| x.to_bits()).collect();
        assert_eq!(bits, wanted);
    }
}

#[test]
fn a_dequantized_weight_is_rounded_to_the_target() {
    let weight = fp8(&[1.0], &[1, 1]);
    let scale_inv = single(&[1.00390625], &[1, 1]);
    let block_size = Fp8BlockSize::default();
    let out = done(fp8_blockwise_dequant(&weight, &scale_inv, &block_size, DType::BF16));
    assert_eq!(values(&out), vec![1.0]);
    let scale_inv = single(&[1.01171875], &[1, 1]);
    let out = done(fp8_blockwise_dequant(&weight, &scale_inv, &block_size, DType::BF16));
    assert_eq!(values(&out), vec![1.015625]);
}

#[test]
fn blocks_at_the_edge_are_smaller() {
    // Three rows and five columns in blocks of two by two: two by three scales.
    let weight = fp8(&[1.0; 15], &[3, 5]);
    let scale_inv = single(&[1.0, 2.0, 3.0, 4.0, 5.0, 6.0], &[2, 3]);
    let block_size = Fp8BlockSize { block_r: 2, block_c: 2 };
    let out = done(fp8_blockwise_dequant(&weight, &scale_inv, &block_size, DType::F32));
    assert_eq!(
        values(&out),
        vec![1.0, 1.0, 2.0, 2.0, 3.0, 1.0, 1.0, 2.0, 2.0, 3.0, 4.0, 4.0, 5.0, 5.0, 6.0]
    );
}

#[test]
fn a_transposed_weight_is_dequantized_by_its_own_rows() {
    let weight = fp8(&[1.0, 2.0, 3.0, 4.0, 5.0, 6.0], &[2, 3]).t().unwrap();
    let scale_inv = single(&[1.0, 10.0, 100.0], &[3, 1]);
    let block_size = Fp8BlockSize { block_r: 1, block_c: 2 };
    let out = done(fp8_blockwise_dequant(&weight, &scale_inv, &block_size, DType::F32));
    assert_eq!(out.dims, vec![3, 2]);
    assert_eq!(values(&out), vec![1.0, 4.0, 20.0, 50.0, 300.0, 600.0]);
}

#[test]
fn weights_and_scales_may_start_within_their_storage() {
    let op = Fp8BlockwiseDequant {
        rows: 1,
        cols: 2,
        block_r: 1,
        block_c: 1,
        target_dtype: DType::F32,
    };
    assert_eq!(op.name(), "fp8-blockwise-dequant");
    let weight = Storage::F8E4M3(vec![0x7e, 0x38, 0x40]);
    let scale = Storage::F32(vec![0, 9.0f32.to_bits(), 2.0f32.to_bits(), 3.0f32.to_bits()]);
    match op.cpu_fwd(&weight, 1, &scale, 2) {
        Ok((Storage::F32(bits), dims)) => {
            assert_eq!(bits, vec![2.0f32.to_bits(), 6.0f32.to_bits()]);
            assert_eq!(dims, vec![1, 2]);
        }
        other => panic!("unexpected: {other:?}"),
    }
    assert!(matches!(
        op.cpu_fwd(&scale, 0, &scale, 0),
        Err(Error::WeightDType(DType::F32))
    ));
    assert!(matches!(
        op.cpu_fwd(&weight, 0, &weight, 0),
        Err(Error::ScaleDType(DType::F8E4M3))
    ));
}

#[test]
fn an_unscaled_weight_keeps_its_value() {
    for code in 0..=255u8 {
        let weight = Tensor::from_vec(Storage::F8E4M3(vec![code]), vec![1, 1]).unwrap();
        let scale_inv = single(&[1.0], &[1, 1]);
        let out = done(fp8_blockwise_dequant(
            &weight,
            &scale_inv,
            &Fp8BlockSize::default(),
            DType::F32,
        ));
        let bits = match out.storage {
            Storage::F32(bits) => bits[0],
            other => panic!("unexpected: {other:?}"),
        };
        assert_eq!(bits, widen_e4m3(code));
    }
}

#[test]
fn a_dequantization_refuses_other_operands() {
    let block_size = Fp8BlockSize::default();
    let weight = fp8(&[1.0; 4], &[2, 2]);
    let scale_inv = single(&[1.0], &[1, 1]);
    let refused = |w: &Tensor, s: &Tensor, target: DType| {
        match fp8_blockwise_dequant(w, s, &block_size, target) {
            Err(e) => e,
            Ok(_) => panic!("not refused"),
        }
    };
    assert_eq!(
        refused(&scale_inv, &scale_inv, DType::F32),
        Error::WeightDType(DType::F32)
    );
    assert_eq!(
        refused(&weight, &weight, DType::F32),
        Error::ScaleDType(DType::F8E4M3)
    );
    assert_eq!(
        refused(&fp8(&[1.0; 4], &[4]), &scale_inv, DType::F32),
        Error::ExpectedMatrix(1)
    );
    assert_eq!(
        refused(&weight, &scale_inv, DType::U8),
        Error::TargetDType(DType::U8)
    );
    let far = remote(Accelerator::Cuda { gpu_id: 0 }, DType::F8E4M3, &[2, 2]);
    assert_eq!(
        refused(&far, &scale_inv, DType::F32),
        Error::DeviceMismatch { lhs: Device::Cuda { gpu_id: 0 }, rhs: Device::Cpu }
    );
    let metal = remote(Accelerator::Metal { gpu_id: 0 }, DType::F8E4M3, &[2, 2]);
    let metal_scale = remote(Accelerator::Metal { gpu_id: 0 }, DType::F32, &[1, 1]);
    assert_eq!(
        refused(&metal, &metal_scale, DType::F32),
        Error::UnsupportedDevice(Device::Metal { gpu_id: 0 })
    );
    let far_scale = remote(Accelerator::Cuda { gpu_id: 0 }, DType::F32, &[1, 1]);
    assert_eq!(
        refused(&far, &far_scale, DType::I64),
        Error::TargetDType(DType::I64)
    );
    let other_scale = remote(Accelerator::Cuda { gpu_id: 1 }, DType::F32, &[1, 1]);
    assert_eq!(
        refused(&far, &other_scale, DType::F32),
        Error::DeviceMismatch {
            lhs: Device::Cuda { gpu_id: 0 },
            rhs: Device::Cuda { gpu_id: 1 },
        }
    );
    assert_eq!(
        refused(&metal, &far_scale, DType::F32),
        Error::DeviceMismatch {
            lhs: Device::Metal { gpu_id: 0 },
            rhs: Device::Cuda { gpu_id: 0 },
        }
    );
}

#[test]
fn a_quantization_refuses_other_inputs() {
    assert!(matches!(
        fp8_dynamic_quantize(&single(&[1.0; 4], &[2, 2])),
        Err(Error::DynamicInputDType(DType::F32))
    ));
    assert!(matches!(
        fp8_dynamic_quantize(&brain(&[1.0; 4], &[4])),
        Err(Error::DynamicInputRank(1))
    ));
    assert!(matches!(
        fp8_dynamic_quantize(&remote(Accelerator::Metal { gpu_id: 0 }, DType::BF16, &[2, 2])),
        Err(Error::UnsupportedDevice(Device::Metal { gpu_id: 0 }))
    ));
    assert!(matches!(
        fp8_scalar_quantize(&single(&[1.0; 4], &[2, 2])),
        Err(Error::ScalarInputDType(DType::F32))
    ));
    assert!(matches!(
        fp8_scalar_quantize(&brain(&[1.0; 4], &[2, 2])),
        Err(Error::ExpectedCuda(Device::Cpu))
    ));
}

#[test]
fn a_block_is_scaled_to_448() {
    let (quant, scales) = done(fp8_dynamic_quantize(&brain(&[1.0, -4.0, 2.0, 0.5], &[2, 2])));
    assert_eq!(quant.dims, vec![2, 2]);
    assert_eq!(quant.dtype(), DType::F8E4M3);
    assert_eq!(scales.dims, vec![1]);
    assert_eq!(values(&scales), vec![4.0 / 448.0]);
    // 112, -448, 224 and 56.
    assert_eq!(values(&quant), vec![112.0, -448.0, 224.0, 56.0]);
}

#[test]
fn a_block_of_zeros_has_the_scale_one() {
    let (quant, scales) = done(fp8_dynamic_quantize(&brain(&[0.0; 6], &[2, 3])));
    assert_eq!(values(&scales), vec![1.0]);
    assert_eq!(values(&quant), vec![0.0; 6]);
}

#[test]
fn leading_dimensions_become_rows() {
    let data: Vec<f32> = (0..12).map(|i| i as f32).collect();
    let (quant, scales) = done(fp8_dynamic_quantize(&brain(&data, &[2, 2, 3])));
    assert_eq!(quant.dims, vec![4, 3]);
    assert_eq!(values(&scales), vec![11.0 / 448.0]);
}

#[test]
fn every_block_has_its_own_scale() {
    let (rows, cols) = (130usize, 260usize);
    let mut data = vec![0.0f32; rows * cols];
    for r in 0..rows {
        for c in 0..cols {
            data[r * cols + c] = ((r / 128) * 3 + c / 128 + 1) as f32;
        }
    }
    let (quant, scales) = done(fp8_dynamic_quantize(&brain(&data, &[rows, cols])));
    let expected: Vec<f32> = (1..=6).map(|v| v as f32 / 448.0).collect();
    assert_eq!(values(&scales), expected);
    for v in values(&quant) {
        assert_eq!(v, 448.0);
    }
}

#[test]
fn nan_becomes_nan_and_infinity_spoils_its_block() {
    let (quant, scales) = done(fp8_dynamic_quantize(&brain(&[f32::NAN, 2.0], &[1, 2])));
    assert_eq!(values(&scales), vec![2.0 / 448.0]);
    let q = values(&quant);
    assert!(q[0].is_nan());
    assert_eq!(q[1], 448.0);

    let (quant, scales) = done(fp8_dynamic_quantize(&brain(&[f32::INFINITY, 2.0], &[1, 2])));
    assert_eq!(values(&scales), vec![f32::INFINITY]);
    let q = values(&quant);
    assert!(q[0].is_nan());
    assert_eq!(q[1], 0.0);
}

#[test]
fn a_block_of_very_small_numbers_has_no_inverse_scale() {
    let tiny = f32::from_bits(0x0040_0000);
    let (quant, _) = done(fp8_dynamic_quantize(&brain(&[tiny, 0.0], &[1, 2])));
    let q = values(&quant);
    assert_eq!(q[0], 448.0);
    assert!(q[1].is_nan());
}

#[test]
fn codes_and_scales_are_those_of_floating_point() {
    let (rows, cols) = (131usize, 140usize);
    let mut state = 11u64;
    let mut data = Vec::new();
    for _ in 0..rows * cols {
        state = state.wrapping_mul(6364136223846793005).wrapping_add(1442695040888963407);
        let v = ((state >> 40) as f32 / 16777216.0 - 0.5) * 20.0;
        data.push(half::bf16::from_f32(v));
    }
    let bits: Vec<u16> = data.iter().map(|x| x.to_bits()).collect();
    let (codes, scales) = fp8_dynamic_quantize_cpu(&bits, rows, cols);
    let (m_blocks, k_blocks) = ((rows + 127) / 128, (cols + 127) / 128);
    assert_eq!(scales.len(), m_blocks * k_blocks);
    for mb in 0..m_blocks {
        for kb in 0..k_blocks {
            let rs = mb * 128..((mb + 1) * 128).min(rows);
            let mut absmax = 0.0f32;
            for r in rs.clone() {
                for c in kb * 128..((kb + 1) * 128).min(cols) {
                    absmax = absmax.max(data[r * cols + c].to_f32().abs());
                }
            }
            let scale = absmax / 448.0;
            assert_eq!(scales[kb + mb * k_blocks], scale.to_bits());
            let inv = 1.0 / scale;
            for r in rs {
                for c in kb * 128..((kb + 1) * 128).min(cols) {
                    let v = (data[r * cols + c].to_f32() * inv).clamp(-448.0, 448.0);
                    let code = float8::F8E4M3::from_f32(v).to_bits();
                    assert_eq!(codes[r * cols + c], code);
                }
            }
        }
    }
}

#[test]
fn dequantizing_gives_back_what_was_quantized() {
    let (rows, cols) = (129usize, 257usize);
    let mut state = 5u64;
    let mut data = Vec::new();
    for i in 0..rows * cols {
        state = state.wrapping_mul(6364136223846793005).wrapping_add(1442695040888963407);
        let v = (state >> 40) as f32 / 16777216.0 - 0.5;
        data.push(v * (1.0 + (i % 1000) as f32));
    }
    let input = brain(&data, &[rows, cols]);
    let wide = values(&input);
    let (quant, scales) = done(fp8_dynamic_quantize(&input));
    let scale_data = values(&scales);
    let k_blocks = (cols + 127) / 128;
    let grid = single(&scale_data, &[(rows + 127) / 128, k_blocks]);
    let back = done(fp8_blockwise_dequant(
        &quant,
        &grid,
        &Fp8BlockSize::default(),
        DType::F32,
    ));
    for (i, v) in values(&back).iter().enumerate() {
        let scale = scale_data[(i / cols / 128) * k_blocks + i % cols / 128];
        let bound = wide[i].abs() / 14.0 + scale / 512.0;
        assert!((v - wide[i]).abs() <= bound, "{i}: {} became {v}", wide[i]);
        assert_eq!(v.is_sign_negative(), wide[i].is_sign_negative());
    }
}

#[test]
fn small_numbers_of_a_block_come_back_up_to_a_share_of_the_scale() {
    let mut data = vec![448.0f32];
    for i in 1..=200 {
        data.push(i as f32 / 2048.0);
        data.push(-(i as f32) / 2048.0);
    }
    let n = data.len();
    let input = brain(&data, &[n, 1]);
    let wide = values(&input);
    let (quant, scales) = done(fp8_dynamic_quantize(&input));
    let grid = single(&values(&scales), &[(n + 127) / 128, 1]);
    let back = values(&done(fp8_blockwise_dequant(
        &quant,
        &grid,
        &Fp8BlockSize::default(),
        DType::F32,
    )));
    let scale = values(&scales);
    assert_eq!(scale[0], 1.0);
    for i in 0..n {
        let bound = wide[i].abs() / 14.0 + scale[i / 128] / 512.0;
        assert!((back[i] - wide[i]).abs() <= bound, "{} became {}", wide[i], back[i]);
    }
}

#[test]
fn dequantizing_transposed_operands_gives_the_transposed_result() {
    let (rows, cols) = (5usize, 7usize);
    let data: Vec<f32> = (0..rows * cols).map(|i| (i as f32 - 17.0) / 4.0).collect();
    let weight = fp8(&data, &[rows, cols]);
    // Blocks of two by three: three rows and three columns of scales.
    let table: Vec<f32> = (1..=9).map(|i| i as f32 * 0.75).collect();
    let scale_inv = single(&table, &[3, 3]);
    let sides = Fp8BlockSize { block_r: 2, block_c: 3 };
    let exchanged = Fp8BlockSize { block_r: 3, block_c: 2 };
    for target in [DType::F32, DType::BF16, DType::F16] {
        let out = values(&done(fp8_blockwise_dequant(&weight, &scale_inv, &sides, target)));
        let weight_t = fp8(&data, &[rows, cols]).t().unwrap();
        let scale_t = single(&table, &[3, 3]).t().unwrap();
        let out_t = done(fp8_blockwise_dequant(&weight_t, &scale_t, &exchanged, target));
        assert_eq!(out_t.dims, vec![cols, rows]);
        let turned = values(&out_t);
        for r in 0..rows {
            for c in 0..cols {
                assert_eq!(turned[c * rows + r], out[r * cols + c]);
            }
        }
    }
}

#[test]
fn doubling_and_negating_doubles_the_scales_and_negates_the_codes() {
    let (rows, cols) = (130usize, 129usize);
    let mut state = 23u64;
    let mut data = Vec::new();
    for _ in 0..rows * cols {
        state = state.wrapping_mul(6364136223846793005).wrapping_add(1442695040888963407);
        data.push(((state >> 40) as f32 / 16777216.0 - 0.5) * 1e6);
    }
    data[3] = 0.0;
    let x = brain(&data, &[rows, cols]);
    let twice: Vec<f32> = values(&x).iter().map(|v| -2.0 * v).collect();
    let (qx, sx) = done(fp8_dynamic_quantize(&x));
    let (qy, sy) = done(fp8_dynamic_quantize(&brain(&twice, &[rows, cols])));
    for (a, b) in values(&sx).iter().zip(values(&sy)) {
        assert_eq!(b, 2.0 * a);
    }
    for (a, b) in values(&qx).iter().zip(values(&qy)) {
        assert_eq!(b.to_bits(), (-a).to_bits());
    }
}

#[test]
fn the_largest_number_of_a_block_becomes_448() {
    for top in [0.001f32, 0.3, 1.0, 3.0, 447.0, 1e30, 3.3e38] {
        let (quant, _) = done(fp8_dynamic_quantize(&brain(&[top / 3.0, -top], &[1, 2])));
        assert_eq!(values(&quant)[1], -448.0);
    }
}

#[test]
fn a_layer_fails_as_its_weight_does() {
    let layer = Fp8Linear::new(
        single(&[1.0; 4], &[2, 2]),
        single(&[1.0], &[1, 1]),
        None,
        Fp8BlockSize::default(),
        DType::F32,
    );
    let x = single(&[1.0, 2.0], &[1, 2]);
    assert!(matches!(
        forward_on_host(&layer, &x),
        Err(Error::WeightDType(DType::F32))
    ));
}

#[test]
fn missing_scales_and_empty_blocks_are_found_beforehand() {
    let weight = fp8(&[1.0; 16], &[4, 4]);
    let size = |block_r, block_c| Fp8BlockSize { block_r, block_c };
    let scales = single(&[1.0; 4], &[2, 2]);
    let few = single(&[1.0; 3], &[3]);
    assert!(check_dequant(&weight, &scales, &size(2, 2), DType::F32));
    assert!(!check_dequant(&weight, &few, &size(2, 2), DType::F32));
    assert!(!check_dequant(&weight, &scales, &size(2, 0), DType::F32));
    assert!(!check_dequant(&weight, &scales, &size(2, 0), DType::U8));
    assert!(!check_dequant(&weight, &scales, &size(0, 2), DType::F32));
    assert!(check_dequant(&weight, &scales, &size(0, 2), DType::U8));
    assert!(!check_dequant(&weight, &scales, &size(2, usize::MAX), DType::F32));
    // A refused operand is no matter of ranges.
    assert!(check_dequant(&scales, &scales, &size(0, 0), DType::F32));
    let empty = Tensor::from_vec(Storage::F8E4M3(vec![]), vec![0, 4]).unwrap();
    let none = Tensor::from_vec(Storage::F32(vec![]), vec![0, 2]).unwrap();
    assert!(check_dequant(&empty, &none, &size(2, 2), DType::F32));
    let out = done(fp8_blockwise_dequant(&empty, &none, &size(2, 2), DType::F32));
    assert_eq!(out.dims, vec![0, 4]);
}

#[test]
fn launches_that_are_too_large_are_found_beforehand() {
    let weight = remote(Accelerator::Cuda { gpu_id: 0 }, DType::F8E4M3, &[1, 0xffff_ff01]);
    let scales = remote(Accelerator::Cuda { gpu_id: 0 }, DType::F32, &[1, 1]);
    assert!(!check_dequant(&weight, &scales, &Fp8BlockSize::default(), DType::BF16));
    let weight = remote(Accelerator::Cuda { gpu_id: 0 }, DType::F8E4M3, &[1, 0xffff_ff00]);
    assert!(check_dequant(&weight, &scales, &Fp8BlockSize::default(), DType::BF16));
    let input = remote(Accelerator::Cuda { gpu_id: 0 }, DType::BF16, &[1, 0xffff_ff81]);
    assert!(!check_dynamic(&input));
    let input = remote(Accelerator::Cuda { gpu_id: 0 }, DType::BF16, &[1, 0xffff_ff80]);
    assert!(check_dynamic(&input));
    assert!(check_dynamic(&brain(&[1.0; 4], &[2, 2])));
    assert!(check_dynamic(&brain(&[1.0; 4], &[4])));
    // A layout that leaves the storage is found too.
    let mut outside = brain(&[1.0; 4], &[2, 2]);
    outside.strides[0] = 3;
    assert!(!check_dynamic(&outside));
    let mut outside = fp8(&[1.0; 4], &[2, 2]);
    outside.start_offset = 1;
    let block_size = Fp8BlockSize { block_r: 2, block_c: 2 };
    assert!(!check_dequant(&outside, &single(&[1.0], &[1, 1]), &block_size, DType::F32));
}

#[test]
fn the_scale_of_the_smallest_number_is_positive() {
    let input = Tensor::from_vec(Storage::BF16(vec![1]), vec![1, 1]).unwrap();
    let (_, scales) = done(fp8_dynamic_quantize(&input));
    let scale = values(&scales)[0];
    assert!(scale > 0.0);
    assert_eq!(scale, f32::from_bits(0x0001_0000) / 448.0);
}
