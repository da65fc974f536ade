//! Tensors: typed elements under a strided layout.

use crate::error::{DType, Device, Error};
use crate::layout::{checked_volume, compact_strides, farthest, gather};
use crate::layout::{element_offset, is_compact, reach, volume, volumes_fit};
use crate::layout::{lemma_compact_offset, lemma_matrix_offset, lemma_matrix_volume};
use crate::layout::{lemma_last_is_farthest, lemma_offset_within_reach, trailing_volume};
use vstd::arithmetic::div_mod::lemma_fundamental_div_mod;
use vstd::prelude::*;

verus! {

/// An accelerator that holds elements out of the host's reach.
#[derive(Clone, Copy, Debug, PartialEq, Eq, Structural)]
pub enum Accelerator {
    Cuda { gpu_id: usize },
    Metal { gpu_id: usize },
}

/// Elements in the memory of an accelerator.
#[derive(Clone, Copy, Debug, PartialEq, Eq, Structural)]
pub struct RemoteStorage {
    pub accelerator: Accelerator,
    pub dtype: DType,
    /// The number of elements.
    pub len: usize,
    /// By which the owner of the memory finds the elements again.
    pub handle: u64,
}

/// The elements of a tensor. Floats are held as their bits.
#[derive(Debug)]
pub enum Storage {
    U8(Vec<u8>),
    U32(Vec<u32>),
    I64(Vec<i64>),
    BF16(Vec<u16>),
    F16(Vec<u16>),
    F32(Vec<u32>),
    F64(Vec<u64>),
    F8E4M3(Vec<u8>),
    Remote(RemoteStorage),
}

impl Storage {
    /// The type of the elements.
    pub open spec fn element_type(self) -> DType {
        match self {
            Storage::U8(_) => DType::U8,
            Storage::U32(_) => DType::U32,
            Storage::I64(_) => DType::I64,
            Storage::BF16(_) => DType::BF16,
            Storage::F16(_) => DType::F16,
            Storage::F32(_) => DType::F32,
            Storage::F64(_) => DType::F64,
            Storage::F8E4M3(_) => DType::F8E4M3,
            Storage::Remote(remote) => remote.dtype,
        }
    }

    /// The number of elements.
    pub open spec fn count(self) -> nat {
        match self {
            Storage::U8(data) => data@.len(),
            Storage::U32(data) => data@.len(),
            Storage::I64(data) => data@.len(),
            Storage::BF16(data) => data@.len(),
            Storage::F16(data) => data@.len(),
            Storage::F32(data) => data@.len(),
            Storage::F64(data) => data@.len(),
            Storage::F8E4M3(data) => data@.len(),
            Storage::Remote(remote) => remote.len as nat,
        }
    }

    /// Where the elements are.
    pub open spec fn place(self) -> Device {
        match self {
            Storage::Remote(remote) => match remote.accelerator {
                Accelerator::Cuda { gpu_id } => Device::Cuda { gpu_id },
                Accelerator::Metal { gpu_id } => Device::Metal { gpu_id },
            },
            _ => Device::Cpu,
        }
    }

    /// The type of the elements.
    pub fn dtype(&self) -> (r: DType)
        ensures
            r == self.element_type(),
    {
        match self {
            Storage::U8(_) => DType::U8,
            Storage::U32(_) => DType::U32,
            Storage::I64(_) => DType::I64,
            Storage::BF16(_) => DType::BF16,
            Storage::F16(_) => DType::F16,
            Storage::F32(_) => DType::F32,
            Storage::F64(_) => DType::F64,
            Storage::F8E4M3(_) => DType::F8E4M3,
            Storage::Remote(remote) => remote.dtype,
        }
    }

    /// The number of elements.
    pub fn len(&self) -> (r: usize)
        ensures
            r == self.count(),
    {
        match self {
            Storage::U8(data) => data.len(),
            Storage::U32(data) => data.len(),
            Storage::I64(data) => data.len(),
            Storage::BF16(data) => data.len(),
            Storage::F16(data) => data.len(),
            Storage::F32(data) => data.len(),
            Storage::F64(data) => data.len(),
            Storage::F8E4M3(data) => data.len(),
            Storage::Remote(remote) => remote.len,
        }
    }

    /// Where the elements are.
    pub fn device(&self) -> (r: Device)
        ensures
            r == self.place(),
    {
        match self {
            Storage::Remote(remote) => match remote.accelerator {
                Accelerator::Cuda { gpu_id } => Device::Cuda { gpu_id },
                Accelerator::Metal { gpu_id } => Device::Metal { gpu_id },
            },
            _ => Device::Cpu,
        }
    }
}

/// A tensor: elements, and the layout under which they form a block of numbers.
#[derive(Debug)]
pub struct Tensor {
    pub storage: Storage,
    pub dims: Vec<usize>,
    /// For each dimension, how far apart in the storage two neighbours are.
    pub strides: Vec<usize>,
    /// Where in the storage the first element is.
    pub start_offset: usize,
}

impl Tensor {
    /// The number of elements.
    pub open spec fn numel(self) -> nat {
        volume(self.dims@)
    }

    /// Where in the storage the `i`-th element, in row-major order, is.
    pub open spec fn position(self, i: int) -> int {
        self.start_offset + element_offset(self.dims@, self.strides@, i)
    }

    /// The layout stays within the storage.
    pub open spec fn wf(self) -> bool {
        &&& self.strides@.len() == self.dims@.len()
        &&& volumes_fit(self.dims@)
        &&& forall|i: int|
            0 <= i < self.numel() ==> 0 <= #[trigger] self.position(i) < self.storage.count()
    }

    /// The elements of a tensor of FP8 floats, in row-major order.
    pub open spec fn e4m3_elements(self) -> Seq<u8> {
        Seq::new(self.numel(), |i: int| self.storage->F8E4M3_0@[self.position(i)])
    }

    /// The elements of a tensor of brain floats, in row-major order.
    pub open spec fn bf16_elements(self) -> Seq<u16> {
        Seq::new(self.numel(), |i: int| self.storage->BF16_0@[self.position(i)])
    }

    /// The elements of a tensor of single-precision floats, in row-major order.
    pub open spec fn single_elements(self) -> Seq<u32> {
        Seq::new(self.numel(), |i: int| self.storage->F32_0@[self.position(i)])
    }
}

/// A tensor of a compact layout that starts with its storage holds its elements
/// in row-major order.
pub proof fn lemma_compact_position(t: Tensor, i: int)
    requires
        is_compact(t.dims@, t.strides@),
        t.start_offset == 0,
        0 <= i < t.numel(),
    ensures
        t.position(i) == i,
{
    let n = t.dims@.len() as int;
    assert(t.dims@.take(n) == t.dims@);
    assert(t.strides@.take(n) == t.strides@);
    lemma_compact_offset(t.dims@, t.strides@, n, i);
    assert(i * 1 == i);
}

/// `out` holds, in row-major order, the elements that `data` holds under the
/// layout of `t`.
pub open spec fn gathered<T>(t: Tensor, data: Seq<T>, out: Seq<T>) -> bool {
    &&& out.len() == t.numel()
    &&& forall|i: int| 0 <= i < out.len() ==> #[trigger] out[i] == data[t.position(i)]
}

/// `out` holds the same elements as `t`, in row-major order and one after the
/// other.
pub open spec fn is_copy_of(t: Tensor, out: Storage) -> bool {
    match (t.storage, out) {
        (Storage::U8(a), Storage::U8(b)) => gathered(t, a@, b@),
        (Storage::U32(a), Storage::U32(b)) => gathered(t, a@, b@),
        (Storage::I64(a), Storage::I64(b)) => gathered(t, a@, b@),
        (Storage::BF16(a), Storage::BF16(b)) => gathered(t, a@, b@),
        (Storage::F16(a), Storage::F16(b)) => gathered(t, a@, b@),
        (Storage::F32(a), Storage::F32(b)) => gathered(t, a@, b@),
        (Storage::F64(a), Storage::F64(b)) => gathered(t, a@, b@),
        (Storage::F8E4M3(a), Storage::F8E4M3(b)) => gathered(t, a@, b@),
        (Storage::Remote(a), Storage::Remote(b)) => a == b,
        _ => false,
    }
}

/// `r` is the matrix `t` with rows and columns exchanged, on the same storage.
pub open spec fn is_transpose_of(t: Tensor, r: Tensor) -> bool {
    &&& r.storage == t.storage
    &&& r.start_offset == t.start_offset
    &&& r.dims@ == seq![t.dims@[1], t.dims@[0]]
    &&& r.strides@ == seq![t.strides@[1], t.strides@[0]]
}

/// The element in row `j` and column `i` of a transposed matrix is the element in
/// row `i` and column `j` of the matrix.
pub proof fn law_transpose_exchanges(t: Tensor, r: Tensor, i: int, j: int)
    requires
        t.wf(),
        t.dims@.len() == 2,
        is_transpose_of(t, r),
        0 <= i < t.dims@[0],
        0 <= j < t.dims@[1],
    ensures
        r.position(j * t.dims@[0] + i) == t.position(i * t.dims@[1] + j),
{
    lemma_matrix_offset(t.dims@, t.strides@, i, j);
    lemma_matrix_offset(r.dims@, r.strides@, j, i);
}

/// Transposing twice gives the matrix back.
pub proof fn law_transposing_twice_changes_nothing(t: Tensor, r: Tensor, back: Tensor)
    requires
        t.dims@.len() == 2,
        t.strides@.len() == 2,
        is_transpose_of(t, r),
        is_transpose_of(r, back),
    ensures
        back.storage == t.storage,
        back.start_offset == t.start_offset,
        back.dims@ == t.dims@,
        back.strides@ == t.strides@,
{
}

/// The `i`-th number of one storage on the host is the `j`-th of another, and both
/// are of one type.
pub open spec fn same_number(a: Storage, i: int, b: Storage, j: int) -> bool {
    match (a, b) {
        (Storage::U8(x), Storage::U8(y)) => x@[i] == y@[j],
        (Storage::U32(x), Storage::U32(y)) => x@[i] == y@[j],
        (Storage::I64(x), Storage::I64(y)) => x@[i] == y@[j],
        (Storage::BF16(x), Storage::BF16(y)) => x@[i] == y@[j],
        (Storage::F16(x), Storage::F16(y)) => x@[i] == y@[j],
        (Storage::F32(x), Storage::F32(y)) => x@[i] == y@[j],
        (Storage::F64(x), Storage::F64(y)) => x@[i] == y@[j],
        (Storage::F8E4M3(x), Storage::F8E4M3(y)) => x@[i] == y@[j],
        _ => false,
    }
}

/// A copy in row-major order has every element of a matrix, row by row, wherever
/// its strides say that the element is.
pub proof fn law_copy_goes_row_by_row(t: Tensor, out: Storage, r: int, c: int)
    requires
        t.wf(),
        t.storage.place() == Device::Cpu,
        t.dims@.len() == 2,
        is_copy_of(t, out),
        0 <= r < t.dims@[0],
        0 <= c < t.dims@[1],
    ensures
        out.element_type() == t.storage.element_type(),
        out.count() == t.dims@[0] * t.dims@[1],
        same_number(
            out,
            r * t.dims@[1] + c,
            t.storage,
            t.start_offset + r * t.strides@[0] + c * t.strides@[1],
        ),
{
    let (rows, cols) = (t.dims@[0] as int, t.dims@[1] as int);
    lemma_matrix_volume(t.dims@);
    lemma_matrix_offset(t.dims@, t.strides@, r, c);
    assert(0 <= r * cols + c < rows * cols) by (nonlinear_arith)
        requires
            0 <= r < rows,
            0 <= c < cols,
    ;
}

/// A copy of a tensor of any rank has, at every place in row-major order, the
/// element at the place that the layout gives; of a compact tensor that starts with
/// its storage, it is the storage.
pub proof fn law_copy_has_every_element(t: Tensor, out: Storage, i: int)
    requires
        t.wf(),
        t.storage.place() == Device::Cpu,
        is_copy_of(t, out),
        0 <= i < t.numel(),
    ensures
        out.count() == t.numel(),
        same_number(out, i, t.storage, t.start_offset + element_offset(t.dims@, t.strides@, i)),
        is_compact(t.dims@, t.strides@) && t.start_offset == 0 ==> same_number(
            out,
            i,
            t.storage,
            i,
        ),
{
    if is_compact(t.dims@, t.strides@) && t.start_offset == 0 {
        lemma_compact_position(t, i);
    }
}

/// The strides of a compact tensor with elements: the last is one, and each other
/// is the next one times the next dimension.
pub proof fn law_compact_strides_multiply_up(dims: Seq<usize>, strides: Seq<usize>, k: int)
    requires
        is_compact(dims, strides),
        volume(dims) > 0,
        0 <= k < dims.len(),
    ensures
        k == dims.len() - 1 ==> strides[k] == 1,
        k < dims.len() - 1 ==> strides[k] == dims[k + 1] * strides[k + 1],
{
    assert(strides[k] == trailing_volume(dims, k + 1));
    if k < dims.len() - 1 {
        assert(strides[k + 1] == trailing_volume(dims, k + 2));
    }
}

/// A layout stays within its storage just where its last element does.
pub proof fn law_valid_up_to_the_last_element(t: Tensor)
    ensures
        t.wf() <==> {
            &&& t.strides@.len() == t.dims@.len()
            &&& volumes_fit(t.dims@)
            &&& t.numel() > 0 ==> t.start_offset + reach(t.dims@, t.strides@)
                < t.storage.count()
        },
{
    if t.strides@.len() == t.dims@.len() && t.numel() > 0 {
        lemma_last_is_farthest(t.dims@, t.strides@);
        assert(t.position(t.numel() - 1) == t.start_offset + reach(t.dims@, t.strides@));
        assert forall|i: int| 0 <= i < t.numel() implies 0 <= #[trigger] t.position(i)
            <= t.start_offset + reach(t.dims@, t.strides@) by {
            lemma_offset_within_reach(t.dims@, t.strides@, i);
        }
    }
}

/// Where a tensor is: on the accelerator that holds its elements, or on the host
/// where it holds them itself. A remote tensor has the type and the number of
/// elements that its owner has given it.
pub proof fn law_storage_knows_its_device(storage: Storage)
    ensures
        storage matches Storage::Remote(remote) ==> {
            &&& remote.accelerator matches Accelerator::Cuda { gpu_id } ==> storage.place()
                == (Device::Cuda { gpu_id })
            &&& remote.accelerator matches Accelerator::Metal { gpu_id } ==> storage.place()
                == (Device::Metal { gpu_id })
            &&& storage.element_type() == remote.dtype
            &&& storage.count() == remote.len
        },
        storage.place() == Device::Cpu <==> !(storage is Remote),
        storage is BF16 ==> storage.element_type() == DType::BF16,
        storage is F16 ==> storage.element_type() == DType::F16,
        storage is F32 ==> storage.element_type() == DType::F32,
        storage is F8E4M3 ==> storage.element_type() == DType::F8E4M3,
{
}

/// A transposed matrix stays within its storage.
pub proof fn lemma_transpose_is_wf(t: Tensor, r: Tensor)
    requires
        t.wf(),
        t.dims@.len() == 2,
        is_transpose_of(t, r),
    ensures
        r.wf(),
{
    let (rows, cols) = (t.dims@[0] as int, t.dims@[1] as int);
    lemma_matrix_volume(t.dims@);
    lemma_matrix_volume(r.dims@);
    assert(t.dims@.take(2) == t.dims@);
    assert(rows * cols == cols * rows) by (nonlinear_arith);
    assert forall|l: int| 0 <= l < r.numel() implies 0 <= #[trigger] r.position(l)
        < r.storage.count() by {
        assert(rows > 0) by (nonlinear_arith)
            requires
                0 <= l < cols * rows,
                rows >= 0,
        ;
        let (j, i) = (l / rows, l % rows);
        lemma_fundamental_div_mod(l, rows);
        assert(rows * j == j * rows) by (nonlinear_arith);
        assert(0 <= j < cols) by (nonlinear_arith)
            requires
                l == j * rows + i,
                0 <= i < rows,
                0 <= l < cols * rows,
        ;
        law_transpose_exchanges(t, r, i, j);
        lemma_matrix_offset(t.dims@, t.strides@, i, j);
        assert(0 <= t.position(i * cols + j) < t.storage.count());
    }
}

impl Tensor {
    /// A tensor that holds `storage` in row-major order.
    pub fn from_vec(storage: Storage, dims: Vec<usize>) -> (r: Result<Tensor, Error>)
        ensures
            r is Ok <==> volumes_fit(dims@) && volume(dims@) == storage.count(),
            r matches Err(e) ==> e == Error::ShapeMismatch,
            r matches Ok(t) ==> {
                &&& t.wf()
                &&& t.storage == storage
                &&& t.dims == dims
                &&& t.start_offset == 0
                &&& is_compact(t.dims@, t.strides@)
            },
    {
        let numel = match checked_volume(&dims) {
            Some(numel) => numel,
            None => {
                return Err(Error::ShapeMismatch);
            },
        };
        if numel != storage.len() {
            return Err(Error::ShapeMismatch);
        }
        let strides = compact_strides(&dims);
        let t = Tensor { storage, dims, strides, start_offset: 0 };
        proof {
            assert forall|i: int| 0 <= i < t.numel() implies 0 <= #[trigger] t.position(i)
                < t.storage.count() by {
                lemma_compact_position(t, i);
            }
        }
        Ok(t)
    }

    /// A tensor under any layout that stays within its storage.
    pub fn strided(
        storage: Storage,
        dims: Vec<usize>,
        strides: Vec<usize>,
        start_offset: usize,
    ) -> (r: Result<Tensor, Error>)
        ensures
            r == (if (Tensor { storage, dims, strides, start_offset }).wf() {
                Ok(Tensor { storage, dims, strides, start_offset })
            } else {
                Err(Error::ShapeMismatch)
            }),
    {
        let t = Tensor { storage, dims, strides, start_offset };
        if t.is_valid() {
            Ok(t)
        } else {
            Err(Error::ShapeMismatch)
        }
    }

    /// Whether the layout stays within the storage.
    pub fn is_valid(&self) -> (r: bool)
        ensures
            r == self.wf(),
    {
        if self.strides.len() != self.dims.len() {
            return false;
        }
        let numel = match checked_volume(&self.dims) {
            Some(numel) => numel,
            None => {
                return false;
            },
        };
        if numel == 0 {
            return true;
        }
        let len = self.storage.len();
        let inside: bool = match farthest(&self.dims, &self.strides, self.start_offset) {
            Some(last) => last < len,
            None => false,
        };
        proof {
            let last = self.numel() - 1;
            lemma_last_is_farthest(self.dims@, self.strides@);
            assert(self.position(last) == self.start_offset + reach(self.dims@, self.strides@));
            assert forall|i: int| 0 <= i < self.numel() && inside implies 0
                <= #[trigger] self.position(i) < self.storage.count() by {
                lemma_offset_within_reach(self.dims@, self.strides@, i);
            }
        }
        inside
    }

    /// The type of the elements.
    pub fn dtype(&self) -> (r: DType)
        ensures
            r == self.storage.element_type(),
    {
        self.storage.dtype()
    }

    /// Where the elements are.
    pub fn device(&self) -> (r: Device)
        ensures
            r == self.storage.place(),
    {
        self.storage.device()
    }

    /// The number of elements.
    pub fn elem_count(&self) -> (r: usize)
        requires
            self.wf(),
        ensures
            r == self.numel(),
    {
        match checked_volume(&self.dims) {
            Some(numel) => numel,
            None => 0,
        }
    }

    /// The two dimensions of a matrix.
    pub fn dims2(&self) -> (r: Result<(usize, usize), Error>)
        ensures
            r == (if self.dims@.len() == 2 {
                Ok((self.dims@[0], self.dims@[1]))
            } else {
                Err(Error::ExpectedMatrix(self.dims@.len() as usize))
            }),
    {
        if self.dims.len() == 2 {
            Ok((self.dims[0], self.dims[1]))
        } else {
            Err(Error::ExpectedMatrix(self.dims.len()))
        }
    }

    /// The matrix with rows and columns exchanged, on the same storage.
    pub fn t(self) -> (r: Result<Tensor, Error>)
        requires
            self.wf(),
        ensures
            self.dims@.len() != 2 ==> r == Err::<Tensor, Error>(
                Error::ExpectedMatrix(self.dims@.len() as usize),
            ),
            self.dims@.len() == 2 ==> r is Ok && r->Ok_0.wf() && is_transpose_of(self, r->Ok_0),
    {
        let (rows, cols) = match self.dims2() {
            Ok(dims) => dims,
            Err(e) => {
                return Err(e);
            },
        };
        let mut dims: Vec<usize> = Vec::new();
        dims.push(cols);
        dims.push(rows);
        let mut strides: Vec<usize> = Vec::new();
        strides.push(self.strides[1]);
        strides.push(self.strides[0]);
        let r = Tensor {
            storage: self.storage,
            dims,
            strides,
            start_offset: self.start_offset,
        };
        proof {
            assert(r.dims@ =~= seq![self.dims@[1], self.dims@[0]]);
            assert(r.strides@ =~= seq![self.strides@[1], self.strides@[0]]);
            lemma_transpose_is_wf(self, r);
        }
        Ok(r)
    }

    /// The elements in row-major order, one after the other. Elements on an
    /// accelerator are named and not copied.
    pub fn contiguous(&self) -> (out: Storage)
        requires
            self.wf(),
        ensures
            is_copy_of(*self, out),
            self.storage.place() == Device::Cpu ==> out.count() == self.numel(),
    {
        let n = self.elem_count();
        let (d, s, o) = (&self.dims, &self.strides, self.start_offset);
        proof {
            assert forall|i: int| 0 <= i < n implies 0 <= o + #[trigger] element_offset(
                d@,
                s@,
                i,
            ) < self.storage.count() by {
                assert(0 <= self.position(i) < self.storage.count());
            }
        }
        match &self.storage {
            Storage::U8(data) => Storage::U8(gather(data, d, s, o, n)),
            Storage::U32(data) => Storage::U32(gather(data, d, s, o, n)),
            Storage::I64(data) => Storage::I64(gather(data, d, s, o, n)),
            Storage::BF16(data) => Storage::BF16(gather(data, d, s, o, n)),
            Storage::F16(data) => Storage::F16(gather(data, d, s, o, n)),
            Storage::F32(data) => Storage::F32(gather(data, d, s, o, n)),
            Storage::F64(data) => Storage::F64(gather(data, d, s, o, n)),
            Storage::F8E4M3(data) => Storage::F8E4M3(gather(data, d, s, o, n)),
            Storage::Remote(remote) => Storage::Remote(*remote),
        }
    }
}

} // verus!
