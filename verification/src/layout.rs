//! Strided layouts: where in memory the elements of a tensor are.

use vstd::arithmetic::div_mod::{lemma_fundamental_div_mod, lemma_fundamental_div_mod_converse};
use vstd::arithmetic::div_mod::lemma_small_mod;
use vstd::prelude::*;

verus! {

/// The product of the dimensions.
pub open spec fn volume(dims: Seq<usize>) -> nat
    decreases dims.len(),
{
    if dims.len() == 0 {
        1
    } else {
        volume(dims.drop_last()) * (dims.last() as nat)
    }
}

/// Every leading product of the dimensions fits a `usize`.
pub open spec fn volumes_fit(dims: Seq<usize>) -> bool {
    forall|j: int| 0 <= j <= dims.len() ==> #[trigger] volume(dims.take(j)) <= usize::MAX
}

/// The distance of the `i`-th element, in row-major order, from the first one.
pub open spec fn element_offset(dims: Seq<usize>, strides: Seq<usize>, i: int) -> int
    decreases dims.len(),
{
    if dims.len() == 0 {
        0
    } else {
        let extent = dims.last() as int;
        (i % extent) * strides.last() + element_offset(
            dims.drop_last(),
            strides.drop_last(),
            i / extent,
        )
    }
}

/// The product of the dimensions from the `k`-th on.
pub open spec fn trailing_volume(dims: Seq<usize>, k: int) -> nat
    decreases dims.len() - k,
{
    if 0 <= k < dims.len() {
        (dims[k] as nat) * trailing_volume(dims, k + 1)
    } else {
        1
    }
}

/// The strides of a tensor whose elements lie one after the other.
pub open spec fn is_compact(dims: Seq<usize>, strides: Seq<usize>) -> bool {
    &&& strides.len() == dims.len()
    &&& volume(dims) > 0 ==> forall|k: int|
        0 <= k < dims.len() ==> #[trigger] strides[k] == trailing_volume(dims, k + 1)
}

/// The leading and the trailing dimensions together have the whole volume.
proof fn lemma_volume_splits(dims: Seq<usize>, j: int)
    requires
        0 <= j <= dims.len(),
    ensures
        volume(dims) == volume(dims.take(j)) * trailing_volume(dims, j),
    decreases dims.len() - j,
{
    if j == dims.len() {
        assert(dims.take(j) == dims);
        assert(volume(dims) * 1 == volume(dims));
    } else {
        lemma_volume_splits(dims, j + 1);
        assert(dims.take(j + 1).drop_last() == dims.take(j));
        let (a, b, c) = (
            volume(dims.take(j)) as int,
            dims[j] as int,
            trailing_volume(dims, j + 1) as int,
        );
        assert((a * b) * c == a * (b * c)) by (nonlinear_arith);
    }
}

/// In a compact layout the `i`-th element is `i` places from the first.
pub proof fn lemma_compact_offset(dims: Seq<usize>, strides: Seq<usize>, j: int, i: int)
    requires
        is_compact(dims, strides),
        volume(dims) > 0,
        0 <= j <= dims.len(),
        0 <= i < volume(dims.take(j)),
    ensures
        element_offset(dims.take(j), strides.take(j), i) == i * trailing_volume(dims, j),
    decreases j,
{
    let d = dims.take(j);
    let s = strides.take(j);
    if j > 0 {
        assert(d.drop_last() == dims.take(j - 1));
        assert(s.drop_last() == strides.take(j - 1));
        let e = dims[j - 1] as int;
        let rest = trailing_volume(dims, j) as int;
        let outer = volume(dims.take(j - 1)) as int;
        assert(e > 0) by (nonlinear_arith)
            requires
                0 <= i < outer * e,
                e >= 0,
                outer >= 0,
        ;
        vstd::arithmetic::div_mod::lemma_fundamental_div_mod(i, e);
        assert(0 <= i / e < outer) by (nonlinear_arith)
            requires
                0 <= i < outer * e,
                e > 0,
                i == e * (i / e) + i % e,
                0 <= i % e < e,
        ;
        lemma_compact_offset(dims, strides, j - 1, i / e);
        assert((i % e) * rest + (i / e) * (e * rest) == i * rest) by (nonlinear_arith)
            requires
                i == e * (i / e) + i % e,
        ;
    } else {
        let rest = trailing_volume(dims, j) as int;
        assert(i * rest == 0) by (nonlinear_arith)
            requires
                i == 0,
        ;
    }
}

/// The volume is the product of all dimensions, from the first on: no dimension
/// leaves one element, and every dimension multiplies the others.
pub proof fn law_volume_is_the_product(dims: Seq<usize>)
    ensures
        dims.len() == 0 ==> volume(dims) == 1,
        dims.len() > 0 ==> volume(dims) == dims[0] * volume(dims.drop_first()),
    decreases dims.len(),
{
    if dims.len() == 1 {
        assert(volume(dims.drop_first()) == 1 && volume(dims.drop_last()) == 1);
        assert(dims[0] * 1 == 1 * dims[0]);
    } else if dims.len() > 1 {
        law_volume_is_the_product(dims.drop_last());
        assert(dims.drop_last().drop_first() == dims.drop_first().drop_last());
        let (first, mid, last) = (
            dims[0] as int,
            volume(dims.drop_first().drop_last()) as int,
            dims.last() as int,
        );
        assert((first * mid) * last == first * (mid * last)) by (nonlinear_arith);
    }
}

/// The leading products fit just where the volume does, as long as there are
/// elements.
pub proof fn law_leading_products_fit_with_the_volume(dims: Seq<usize>)
    requires
        volume(dims) > 0,
    ensures
        volumes_fit(dims) <==> volume(dims) <= usize::MAX,
{
    assert(dims.take(dims.len() as int) == dims);
    assert forall|j: int| 0 <= j <= dims.len() implies #[trigger] volume(dims.take(j)) <= volume(
        dims,
    ) by {
        lemma_volume_splits(dims, j);
        let (a, b) = (volume(dims.take(j)) as int, trailing_volume(dims, j) as int);
        assert(a <= a * b) by (nonlinear_arith)
            requires
                a * b > 0,
                a >= 0,
                b >= 0,
        ;
    }
    if volumes_fit(dims) {
        assert(volume(dims.take(dims.len() as int)) <= usize::MAX);
    }
}

/// Elements in row-major order: `i` steps along the first dimension and `j` elements
/// within are `i` times the first stride and the offset of `j` under the remaining
/// dimensions away. A single dimension has its elements one stride apart.
pub proof fn law_first_index_strides(dims: Seq<usize>, strides: Seq<usize>, i: int, j: int)
    requires
        strides.len() == dims.len(),
        dims.len() > 0,
        0 <= i < dims[0],
        0 <= j < volume(dims.drop_first()),
    ensures
        element_offset(dims, strides, i * volume(dims.drop_first()) + j) == i * strides[0]
            + element_offset(dims.drop_first(), strides.drop_first(), j),
        dims.len() == 1 ==> element_offset(dims.drop_first(), strides.drop_first(), j) == 0,
    decreases dims.len(),
{
    let inner = volume(dims.drop_first()) as int;
    let at = i * inner + j;
    if dims.len() == 1 {
        assert(dims.drop_first().len() == 0 && dims.drop_last().len() == 0);
        assert(inner == 1 && j == 0);
        assert(i * 1 == i);
        lemma_small_mod(i as nat, dims[0] as nat);
        assert(element_offset(dims.drop_last(), strides.drop_last(), at / (dims[0] as int)) == 0);
    } else {
        let (d, s) = (dims.drop_first(), strides.drop_first());
        let e = dims.last() as int;
        let mid = volume(d.drop_last()) as int;
        assert(dims.drop_last().drop_first() == d.drop_last());
        assert(strides.drop_last().drop_first() == s.drop_last());
        assert(inner == mid * e);
        assert(e > 0) by (nonlinear_arith)
            requires
                0 <= j < mid * e,
                e >= 0,
        ;
        let (q, r) = (j / e, j % e);
        lemma_fundamental_div_mod(j, e);
        assert(0 <= q < mid) by (nonlinear_arith)
            requires
                j == e * q + r,
                0 <= r < e,
                0 <= j < mid * e,
        ;
        assert(at == e * (i * mid + q) + r) by (nonlinear_arith)
            requires
                at == i * (mid * e) + j,
                j == e * q + r,
        ;
        assert(at == (i * mid + q) * e + r) by (nonlinear_arith)
            requires
                at == e * (i * mid + q) + r,
        ;
        lemma_fundamental_div_mod_converse(at, e, i * mid + q, r);
        law_first_index_strides(dims.drop_last(), strides.drop_last(), i, q);
    }
}

/// The product of the dimensions, unless a leading product leaves the range of
/// `usize`.
pub fn checked_volume(dims: &Vec<usize>) -> (r: Option<usize>)
    ensures
        r is Some <==> volumes_fit(dims@),
        r matches Some(v) ==> v == volume(dims@),
{
    let mut total: usize = 1;
    let mut j: usize = 0;
    assert(dims@.take(0).len() == 0);
    while j < dims.len()
        invariant
            j <= dims@.len(),
            total == volume(dims@.take(j as int)),
            forall|l: int| 0 <= l <= j ==> #[trigger] volume(dims@.take(l)) <= usize::MAX,
        decreases dims@.len() - j,
    {
        assert(dims@.take(j + 1).drop_last() == dims@.take(j as int));
        match total.checked_mul(dims[j]) {
            Some(next) => {
                total = next;
            },
            None => {
                assert(volume(dims@.take(j + 1)) > usize::MAX);
                return None;
            },
        }
        j = j + 1;
    }
    assert(dims@.take(j as int) == dims@);
    Some(total)
}

/// The strides of a compact layout.
pub fn compact_strides(dims: &Vec<usize>) -> (strides: Vec<usize>)
    requires
        volumes_fit(dims@),
    ensures
        is_compact(dims@, strides@),
{
    let n = dims.len();
    let mut strides: Vec<usize> = vec![0; n];
    assert(dims@.take(n as int) == dims@);
    match checked_volume(dims) {
        Some(0) | None => {
            return strides;
        },
        Some(_) => {},
    }
    let mut step: usize = 1;
    let mut j: usize = n;
    while j > 0
        invariant
            j <= n,
            n == dims@.len(),
            strides@.len() == n,
            volumes_fit(dims@),
            0 < volume(dims@) <= usize::MAX,
            step == trailing_volume(dims@, j as int),
            forall|k: int|
                j <= k < n ==> #[trigger] strides@[k] == trailing_volume(dims@, k + 1),
        decreases j,
    {
        j = j - 1;
        strides.set(j, step);
        proof {
            lemma_volume_splits(dims@, j as int);
            let (a, b) = (
                volume(dims@.take(j as int)) as int,
                trailing_volume(dims@, j as int) as int,
            );
            assert(b <= a * b) by (nonlinear_arith)
                requires
                    a * b > 0,
                    a >= 0,
                    b >= 0,
            ;
            assert(dims@[j as int] * step == step * dims@[j as int]) by (nonlinear_arith);
        }
        step = step * dims[j];
    }
    strides
}

/// Copies the elements of a strided layout out in row-major order.
pub(crate) fn gather<T: Copy>(
    data: &Vec<T>,
    dims: &Vec<usize>,
    strides: &Vec<usize>,
    start_offset: usize,
    numel: usize,
) -> (out: Vec<T>)
    requires
        strides@.len() == dims@.len(),
        numel == volume(dims@),
        forall|i: int|
            0 <= i < numel ==> 0 <= start_offset + #[trigger] element_offset(dims@, strides@, i)
                < data@.len(),
    ensures
        out@ == Seq::new(
            numel as nat,
            |i: int| data@[start_offset + element_offset(dims@, strides@, i)],
        ),
{
    let mut out: Vec<T> = Vec::with_capacity(numel);
    let len: usize = data.len();
    let mut i: usize = 0;
    while i < numel
        invariant
            i <= numel,
            len == data@.len(),
            strides@.len() == dims@.len(),
            numel == volume(dims@),
            forall|l: int|
                0 <= l < numel ==> 0 <= start_offset + #[trigger] element_offset(
                    dims@,
                    strides@,
                    l,
                ) < data@.len(),
            out@ == Seq::new(
                i as nat,
                |l: int| data@[start_offset + element_offset(dims@, strides@, l)],
            ),
        decreases numel - i,
    {
        let at = offset_of(dims, strides, i);
        out.push(data[start_offset + at]);
        i = i + 1;
    }
    out
}

/// How far the `i`-th element, in row-major order, is from the first.
fn offset_of(dims: &Vec<usize>, strides: &Vec<usize>, i: usize) -> (r: usize)
    requires
        strides@.len() == dims@.len(),
        i < volume(dims@),
        element_offset(dims@, strides@, i as int) <= usize::MAX,
    ensures
        r == element_offset(dims@, strides@, i as int),
{
    let mut rest: usize = i;
    let mut sum: usize = 0;
    let mut j: usize = dims.len();
    assert(dims@.take(j as int) == dims@);
    assert(strides@.take(j as int) == strides@);
    while j > 0
        invariant
            j <= dims@.len(),
            strides@.len() == dims@.len(),
            rest < volume(dims@.take(j as int)),
            sum + element_offset(dims@.take(j as int), strides@.take(j as int), rest as int)
                == element_offset(dims@, strides@, i as int),
            element_offset(dims@, strides@, i as int) <= usize::MAX,
        decreases j,
    {
        let ghost d = dims@.take(j as int);
        let ghost s = strides@.take(j as int);
        proof {
            assert(d.drop_last() == dims@.take(j - 1));
            assert(s.drop_last() == strides@.take(j - 1));
            let outer = volume(d.drop_last()) as int;
            let e = d.last() as int;
            assert(e > 0) by (nonlinear_arith)
                requires
                    0 <= rest < outer * e,
                    e >= 0,
                    outer >= 0,
            ;
            assert(rest as int / e < outer) by (nonlinear_arith)
                requires
                    0 <= rest < outer * e,
                    e > 0,
            ;
            lemma_offset_is_nonnegative(d.drop_last(), s.drop_last(), rest as int / e);
            assert((rest as int % e) * s.last() >= 0) by (nonlinear_arith)
                requires
                    rest as int % e >= 0,
                    s.last() >= 0,
            ;
        }
        j = j - 1;
        sum = sum + (rest % dims[j]) * strides[j];
        rest = rest / dims[j];
    }
    sum
}

proof fn lemma_offset_is_nonnegative(dims: Seq<usize>, strides: Seq<usize>, i: int)
    requires
        strides.len() == dims.len(),
        0 <= i < volume(dims),
    ensures
        element_offset(dims, strides, i) >= 0,
    decreases dims.len(),
{
    if dims.len() > 0 {
        let outer = volume(dims.drop_last()) as int;
        let e = dims.last() as int;
        assert(e > 0) by (nonlinear_arith)
            requires
                0 <= i < outer * e,
                e >= 0,
                outer >= 0,
        ;
        assert(0 <= i / e < outer) by (nonlinear_arith)
            requires
                0 <= i < outer * e,
                e > 0,
        ;
        lemma_offset_is_nonnegative(dims.drop_last(), strides.drop_last(), i / e);
        assert((i % e) * strides.last() >= 0) by (nonlinear_arith)
            requires
                i % e >= 0,
                strides.last() >= 0,
        ;
    }
}

/// The volume of a matrix is the product of its two dimensions.
pub proof fn lemma_matrix_volume(dims: Seq<usize>)
    requires
        dims.len() == 2,
    ensures
        volume(dims) == dims[0] * dims[1],
        dims[0] * dims[1] <= usize::MAX ==> volumes_fit(dims),
{
    let first = dims.drop_last();
    assert(first == seq![dims[0]]);
    assert(first.drop_last() == Seq::<usize>::empty());
    assert(volume(first.drop_last()) == 1);
    assert(volume(first) == 1 * dims[0]);
    assert forall|j: int| 0 <= j <= 2 implies #[trigger] volume(dims.take(j)) <= volume(first)
        || volume(dims.take(j)) == volume(dims) || j == 0 by {
        if j == 1 {
            assert(dims.take(1) == first);
        } else if j == 2 {
            assert(dims.take(2) == dims);
        }
    }
}

/// The volume of a vector is its length.
pub proof fn lemma_vector_volume(dims: Seq<usize>)
    requires
        dims.len() == 1,
    ensures
        volume(dims) == dims[0],
        volumes_fit(dims),
{
    assert(dims.drop_last() == Seq::<usize>::empty());
    assert(volume(dims.drop_last()) == 1);
    assert(volume(dims) == 1 * dims[0]);
    assert forall|j: int| 0 <= j <= 1 implies #[trigger] volume(dims.take(j)) <= usize::MAX by {
        if j == 1 {
            assert(dims.take(1) == dims);
        }
    }
}

/// The distance of the farthest element from the first.
pub open spec fn reach(dims: Seq<usize>, strides: Seq<usize>) -> int
    decreases dims.len(),
{
    if dims.len() == 0 {
        0
    } else {
        (dims.last() - 1) * strides.last() + reach(dims.drop_last(), strides.drop_last())
    }
}

/// No element is farther from the first than the reach of the layout.
pub proof fn lemma_offset_within_reach(dims: Seq<usize>, strides: Seq<usize>, i: int)
    requires
        strides.len() == dims.len(),
        0 <= i < volume(dims),
    ensures
        0 <= element_offset(dims, strides, i) <= reach(dims, strides),
    decreases dims.len(),
{
    lemma_offset_is_nonnegative(dims, strides, i);
    if dims.len() > 0 {
        let outer = volume(dims.drop_last()) as int;
        let e = dims.last() as int;
        assert(e > 0) by (nonlinear_arith)
            requires
                0 <= i < outer * e,
                e >= 0,
                outer >= 0,
        ;
        assert(0 <= i / e < outer) by (nonlinear_arith)
            requires
                0 <= i < outer * e,
                e > 0,
        ;
        lemma_offset_within_reach(dims.drop_last(), strides.drop_last(), i / e);
        assert((i % e) * strides.last() <= (e - 1) * strides.last()) by (nonlinear_arith)
            requires
                i % e <= e - 1,
                strides.last() >= 0,
        ;
    }
}

/// The last element is as far from the first as the layout reaches.
pub proof fn lemma_last_is_farthest(dims: Seq<usize>, strides: Seq<usize>)
    requires
        strides.len() == dims.len(),
        volume(dims) > 0,
    ensures
        element_offset(dims, strides, volume(dims) - 1) == reach(dims, strides),
    decreases dims.len(),
{
    if dims.len() > 0 {
        lemma_dims_are_positive(dims, dims.len() - 1);
        let outer = volume(dims.drop_last()) as int;
        let e = dims.last() as int;
        let i = volume(dims) - 1;
        assert(i == (outer - 1) * e + (e - 1)) by (nonlinear_arith)
            requires
                i == outer * e - 1,
        ;
        lemma_fundamental_div_mod_converse(i, e, outer - 1, e - 1);
        lemma_last_is_farthest(dims.drop_last(), strides.drop_last());
    }
}

/// Whether two shapes are the same.
pub(crate) fn same_dims(a: &Vec<usize>, b: &Vec<usize>) -> (r: bool)
    ensures
        r == (a@ == b@),
{
    if a.len() != b.len() {
        return false;
    }
    let mut j: usize = 0;
    while j < a.len()
        invariant
            j <= a@.len(),
            a@.len() == b@.len(),
            forall|l: int| 0 <= l < j ==> a@[l] == b@[l],
        decreases a@.len() - j,
    {
        if a[j] != b[j] {
            return false;
        }
        j = j + 1;
    }
    assert(a@ =~= b@);
    true
}

/// Every dimension of a tensor with elements is positive.
proof fn lemma_dims_are_positive(dims: Seq<usize>, j: int)
    requires
        volume(dims) > 0,
        0 <= j < dims.len(),
    ensures
        dims[j] > 0,
        volume(dims.drop_last()) > 0,
    decreases dims.len(),
{
    let outer = volume(dims.drop_last()) as int;
    let e = dims.last() as int;
    assert(outer > 0 && e > 0) by (nonlinear_arith)
        requires
            outer * e > 0,
            outer >= 0,
            e >= 0,
    ;
    if j < dims.len() - 1 {
        lemma_dims_are_positive(dims.drop_last(), j);
    }
}

/// The place of the farthest element, unless it leaves the range of `usize`.
pub(crate) fn farthest(
    dims: &Vec<usize>,
    strides: &Vec<usize>,
    start_offset: usize,
) -> (r: Option<usize>)
    requires
        strides@.len() == dims@.len(),
        volume(dims@) > 0,
    ensures
        r is Some <==> start_offset + reach(dims@, strides@) <= usize::MAX,
        r matches Some(v) ==> v == start_offset + reach(dims@, strides@),
{
    let mut sum: usize = start_offset;
    let mut j: usize = dims.len();
    assert(dims@.take(j as int) == dims@);
    assert(strides@.take(j as int) == strides@);
    while j > 0
        invariant
            j <= dims@.len(),
            strides@.len() == dims@.len(),
            volume(dims@.take(j as int)) > 0,
            sum + reach(dims@.take(j as int), strides@.take(j as int)) == start_offset + reach(
                dims@,
                strides@,
            ),
        decreases j,
    {
        let ghost d = dims@.take(j as int);
        let ghost s = strides@.take(j as int);
        proof {
            assert(d.drop_last() == dims@.take(j - 1));
            assert(s.drop_last() == strides@.take(j - 1));
            lemma_dims_are_positive(d, j - 1);
            lemma_offset_within_reach(d.drop_last(), s.drop_last(), 0);
        }
        j = j - 1;
        let term = match (dims[j] - 1).checked_mul(strides[j]) {
            Some(term) => term,
            None => {
                return None;
            },
        };
        sum = match sum.checked_add(term) {
            Some(next) => next,
            None => {
                return None;
            },
        };
    }
    Some(sum)
}

/// The element in row `i` and column `j` of a matrix is as far from the first as
/// the two strides say.
pub proof fn lemma_matrix_offset(dims: Seq<usize>, strides: Seq<usize>, i: int, j: int)
    requires
        dims.len() == 2,
        strides.len() == 2,
        0 <= i < dims[0],
        0 <= j < dims[1],
    ensures
        0 <= i * dims[1] + j < dims[0] * dims[1],
        element_offset(dims, strides, i * dims[1] + j) == i * strides[0] + j * strides[1],
{
    let cols = dims[1] as int;
    let at = i * cols + j;
    lemma_fundamental_div_mod_converse(at, cols, i, j);
    assert(0 <= at < dims[0] * cols) by (nonlinear_arith)
        requires
            at == i * cols + j,
            0 <= i < dims[0],
            0 <= j < cols,
    ;
    let (d, s) = (dims.drop_last(), strides.drop_last());
    assert(d == seq![dims[0]]);
    assert(s == seq![strides[0]]);
    assert(element_offset(d.drop_last(), s.drop_last(), i / (dims[0] as int)) == 0);
    assert(i % (dims[0] as int) == i) by {
        lemma_small_mod(i as nat, dims[0] as nat);
    }
    assert(element_offset(d, s, i) == i * strides[0]);
}

} // verus!
