use fp8_linear::block::{count_blocks, Fp8BlockSize};
use fp8_linear::error::{DType, Device, Error};
use fp8_linear::layout::{checked_volume, compact_strides};
use fp8_linear::tensor::{Accelerator, RemoteStorage, Storage, Tensor};

fn numbers(storage: &Storage) -> Vec<i64> {
    match storage {
        Storage::U8(data) => data.iter().map(|x| *x as i64).collect(),
        Storage::U32(data) => data.iter().map(|x| *x as i64).collect(),
        Storage::I64(data) => data.clone(),
        _ => panic!("not an integer storage"),
    }
}

#[test]
fn a_tensor_holds_as_many_elements_as_its_dimensions_say() {
    let t = Tensor::from_vec(Storage::I64(vec![1, 2, 3, 4, 5, 6]), vec![2, 3]).unwrap();
    assert_eq!(t.dims, vec![2, 3]);
    assert_eq!(t.strides, vec![3, 1]);
    assert_eq!(t.elem_count(), 6);
    assert_eq!(t.dtype(), DType::I64);
    assert_eq!(t.device(), Device::Cpu);
    assert_eq!(t.dims2(), Ok((2, 3)));
    assert!(matches!(
        Tensor::from_vec(Storage::I64(vec![1, 2, 3]), vec![2, 3]),
        Err(Error::ShapeMismatch)
    ));
    assert!(matches!(
        Tensor::from_vec(Storage::U8(vec![]), vec![usize::MAX, 2]),
        Err(Error::ShapeMismatch)
    ));
}

#[test]
fn a_scalar_has_one_element() {
    let t = Tensor::from_vec(Storage::U8(vec![7]), vec![]).unwrap();
    assert_eq!(t.elem_count(), 1);
    assert_eq!(numbers(&t.contiguous()), vec![7]);
    assert_eq!(t.dims2(), Err(Error::ExpectedMatrix(0)));
}

#[test]
fn an_empty_tensor_has_no_element() {
    let t = Tensor::from_vec(Storage::U8(vec![]), vec![3, 0]).unwrap();
    assert_eq!(t.elem_count(), 0);
    assert_eq!(numbers(&t.contiguous()), Vec::<i64>::new());
}

#[test]
fn a_transposed_matrix_exchanges_rows_and_columns() {
    let t = Tensor::from_vec(Storage::I64(vec![1, 2, 3, 4, 5, 6]), vec![2, 3]).unwrap();
    let r = t.t().unwrap();
    assert_eq!(r.dims, vec![3, 2]);
    assert_eq!(r.strides, vec![1, 3]);
    assert_eq!(numbers(&r.contiguous()), vec![1, 4, 2, 5, 3, 6]);
    let back = r.t().unwrap();
    assert_eq!(numbers(&back.contiguous()), vec![1, 2, 3, 4, 5, 6]);
}

#[test]
fn only_a_matrix_is_transposed() {
    let t = Tensor::from_vec(Storage::U8(vec![1, 2]), vec![2]).unwrap();
    assert!(matches!(t.t(), Err(Error::ExpectedMatrix(1))));
}

#[test]
fn a_strided_tensor_is_read_in_row_major_order() {
    let data: Vec<u32> = (0..24).collect();
    // Every second column of the rows 1 and 2 of a matrix of 6 columns.
    let t = Tensor::strided(Storage::U32(data), vec![2, 3], vec![6, 2], 6).unwrap();
    assert_eq!(numbers(&t.contiguous()), vec![6, 8, 10, 12, 14, 16]);
}

#[test]
fn a_broadcast_dimension_repeats_its_elements() {
    let t = Tensor::strided(Storage::U8(vec![4, 5]), vec![3, 2], vec![0, 1], 0).unwrap();
    assert_eq!(numbers(&t.contiguous()), vec![4, 5, 4, 5, 4, 5]);
}

#[test]
fn a_layout_must_stay_within_its_storage() {
    let outside = Tensor::strided(Storage::U8(vec![0; 5]), vec![2, 3], vec![3, 1], 0);
    assert!(matches!(outside, Err(Error::ShapeMismatch)));
    let shifted = Tensor::strided(Storage::U8(vec![0; 6]), vec![2, 3], vec![3, 1], 1);
    assert!(matches!(shifted, Err(Error::ShapeMismatch)));
    let ragged = Tensor::strided(Storage::U8(vec![0; 6]), vec![2, 3], vec![1], 0);
    assert!(matches!(ragged, Err(Error::ShapeMismatch)));
    let wide = Tensor::strided(Storage::U8(vec![0; 6]), vec![2, 2], vec![usize::MAX, 2], 0);
    assert!(matches!(wide, Err(Error::ShapeMismatch)));
}

#[test]
fn a_tensor_is_valid_up_to_its_last_element() {
    let mut t = Tensor::from_vec(Storage::U8(vec![0; 6]), vec![2, 3]).unwrap();
    assert!(t.is_valid());
    t.strides[0] = 4;
    assert!(!t.is_valid());
    t.dims[1] = 2;
    assert!(t.is_valid());
    t.start_offset = 1;
    assert!(!t.is_valid());
    // Without elements nothing is left to be outside.
    t.dims[0] = 0;
    assert!(t.is_valid());
    t.strides.pop();
    assert!(!t.is_valid());
    t.strides.push(usize::MAX);
    assert!(t.is_valid());
    t.dims = vec![usize::MAX, 2];
    assert!(!t.is_valid());
    t.dims = vec![2, 3];
    assert!(!t.is_valid());
}

#[test]
fn elements_on_a_device_are_named_and_not_copied() {
    let remote = RemoteStorage {
        accelerator: Accelerator::Cuda { gpu_id: 0 },
        dtype: DType::BF16,
        len: 6,
        handle: 17,
    };
    let t = Tensor::from_vec(Storage::Remote(remote), vec![2, 3]).unwrap();
    assert_eq!(t.device(), Device::Cuda { gpu_id: 0 });
    assert_eq!(t.dtype(), DType::BF16);
    assert!(matches!(t.contiguous(), Storage::Remote(r) if r == remote));
}

#[test]
fn volumes_and_strides_follow_the_dimensions() {
    assert_eq!(checked_volume(&vec![2, 3, 4]), Some(24));
    assert_eq!(checked_volume(&vec![]), Some(1));
    assert_eq!(checked_volume(&vec![usize::MAX, 2]), None);
    assert_eq!(compact_strides(&vec![2, 3, 4]), vec![12, 4, 1]);
}

#[test]
fn blocks_cover_a_length() {
    assert_eq!(count_blocks(0, 128), 0);
    assert_eq!(count_blocks(1, 128), 1);
    assert_eq!(count_blocks(128, 128), 1);
    assert_eq!(count_blocks(129, 128), 2);
    assert_eq!(count_blocks(5, 2), 3);
}

#[test]
fn blocks_have_a_side_of_128_by_default() {
    let size = Fp8BlockSize::default();
    assert_eq!((size.block_r, size.block_c), (128, 128));
    let copy = size.clone();
    assert_eq!((copy.block_r, copy.block_c), (128, 128));
}
