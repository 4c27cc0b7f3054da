//! Checked shape, stride, and offset arithmetic for row-major tensors.
//!
//! A tensor describes data and layout: logical dimensions, element strides,
//! and a base offset into storage. These functions are the authoritative
//! checked mappings from that description to element counts and physical
//! offsets; every overflow is a typed error, never a wrapped value.

use vstd::prelude::*;

use crate::text::{decimal, push_decimal};

verus! {

/// The semantic storage type of a tensor element.
#[derive(Debug, Clone, Copy, PartialEq, Eq, Structural)]
pub enum DType {
    F32,
}

impl DType {
    /// Bytes per element: four for single-precision values.
    pub fn byte_width(self) -> (width: usize)
        ensures
            width == 4,
    {
        match self {
            DType::F32 => 4,
        }
    }
}

#[derive(Debug, Clone, Copy, PartialEq, Eq, Structural)]
pub enum TensorError {
    ShapeOverflow,
    ByteCountOverflow,
    StorageLengthMismatch { expected: usize, actual: usize },
    ShapeStrideRankMismatch { shape_rank: usize, stride_rank: usize },
    RankMismatch { expected: usize, actual: usize },
    AxisOutOfBounds { axis: usize, rank: usize },
    IndexOutOfBounds { axis: usize, index: usize, dimension: usize },
    OffsetOverflow,
    InvalidViewExtent { required: usize, storage_len: usize },
    NonContiguous,
    ReshapeElementMismatch { current: usize, requested: usize },
    ExpectedMatrix { rank: usize },
    InvalidSlice { axis: usize, start: usize, end: usize, dimension: usize },
}

/// Product of the dimensions from `axis` to the end; the empty product is one.
pub open spec fn suffix_product(shape: Seq<usize>, axis: int) -> int
    decreases shape.len() - axis,
{
    if axis < 0 || axis >= shape.len() {
        1
    } else {
        shape[axis] * suffix_product(shape, axis + 1)
    }
}

/// The number of elements of `shape`, or the overflow that prevents it.
pub open spec fn element_count(shape: Seq<usize>) -> Result<usize, TensorError> {
    if shape.contains(0) {
        Ok(0)
    } else if suffix_product(shape, 0) <= usize::MAX {
        Ok(suffix_product(shape, 0) as usize)
    } else {
        Err(TensorError::ShapeOverflow)
    }
}

/// Some trailing product of `shape` does not fit in a `usize`.
pub open spec fn strides_overflow(shape: Seq<usize>) -> bool {
    exists|a: int| 0 <= a < shape.len() && #[trigger] suffix_product(shape, a) > usize::MAX
}

/// `Σ xs[i] * strides[i]` over the first `k` axes.
pub open spec fn weighted_sum(xs: Seq<usize>, strides: Seq<usize>, k: int) -> int
    decreases k,
{
    if k <= 0 {
        0
    } else {
        weighted_sum(xs, strides, k - 1) + xs[k - 1] * strides[k - 1]
    }
}

/// `Σ (shape[i] - 1) * strides[i]` over the first `k` axes: how far the last
/// element lies past the first.
pub open spec fn extent_sum(shape: Seq<usize>, strides: Seq<usize>, k: int) -> int
    decreases k,
{
    if k <= 0 {
        0
    } else {
        extent_sum(shape, strides, k - 1) + (shape[k - 1] - 1) * strides[k - 1]
    }
}

/// The first of the first `k` axes whose index is outside its dimension, or
/// `k` when there is none.
pub open spec fn first_outside(indices: Seq<usize>, shape: Seq<usize>, k: int) -> int
    decreases k,
{
    if k <= 0 {
        0
    } else {
        let earlier = first_outside(indices, shape, k - 1);
        if earlier < k - 1 {
            earlier
        } else if indices[k - 1] >= shape[k - 1] {
            k - 1
        } else {
            k
        }
    }
}

/// Whether a view of `shape` and `strides` at `base_offset` fits in storage of
/// `storage_len` elements, or why not.
pub open spec fn view_extent(
    shape: Seq<usize>,
    strides: Seq<usize>,
    base_offset: usize,
    storage_len: usize,
) -> Result<(), TensorError> {
    if shape.len() != strides.len() {
        Err(
            TensorError::ShapeStrideRankMismatch {
                shape_rank: shape.len() as usize,
                stride_rank: strides.len() as usize,
            },
        )
    } else {
        match element_count(shape) {
            Err(e) => Err(e),
            Ok(count) => if count == 0 {
                if base_offset <= storage_len {
                    Ok(())
                } else {
                    Err(TensorError::InvalidViewExtent { required: base_offset, storage_len })
                }
            } else {
                let required = base_offset + extent_sum(shape, strides, shape.len() as int) + 1;
                if required > usize::MAX {
                    Err(TensorError::OffsetOverflow)
                } else if required > storage_len {
                    Err(TensorError::InvalidViewExtent { required: required as usize, storage_len })
                } else {
                    Ok(())
                }
            },
        }
    }
}

/// The physical offset of logical `indices` in a view, or why there is none.
pub open spec fn element_offset(
    shape: Seq<usize>,
    strides: Seq<usize>,
    base_offset: usize,
    storage_len: usize,
    indices: Seq<usize>,
) -> Result<usize, TensorError> {
    match view_extent(shape, strides, base_offset, storage_len) {
        Err(e) => Err(e),
        Ok(()) => if indices.len() != shape.len() {
            Err(
                TensorError::RankMismatch {
                    expected: shape.len() as usize,
                    actual: indices.len() as usize,
                },
            )
        } else {
            let a = first_outside(indices, shape, shape.len() as int);
            let reached = base_offset + weighted_sum(indices, strides, a);
            if reached > usize::MAX {
                Err(TensorError::OffsetOverflow)
            } else if a < shape.len() {
                Err(TensorError::IndexOutOfBounds { axis: a as usize, index: indices[a], dimension: shape[a] })
            } else {
                Ok(reached as usize)
            }
        },
    }
}

proof fn lemma_suffix_monotone(shape: Seq<usize>, a: int, b: int)
    requires
        0 <= a <= b <= shape.len(),
        !shape.contains(0),
    ensures
        suffix_product(shape, b) <= suffix_product(shape, a),
        suffix_product(shape, b) >= 1,
    decreases b - a,
{
    if a < b {
        lemma_suffix_monotone(shape, a + 1, b);
        assert(shape[a] != 0) by {
            if shape[a] == 0 {
                assert(shape.contains(0));
            }
        }
        let x = shape[a] as int;
        let y = suffix_product(shape, a + 1);
        assert(x * y >= y) by (nonlinear_arith)
            requires
                x >= 1,
                y >= 1,
        ;
    } else {
        lemma_suffix_positive(shape, b);
    }
}

proof fn lemma_suffix_positive(shape: Seq<usize>, a: int)
    requires
        0 <= a <= shape.len(),
        !shape.contains(0),
    ensures
        suffix_product(shape, a) >= 1,
    decreases shape.len() - a,
{
    if a < shape.len() {
        lemma_suffix_positive(shape, a + 1);
        assert(shape[a] != 0) by {
            if shape[a] == 0 {
                assert(shape.contains(0));
            }
        }
        let x = shape[a] as int;
        let y = suffix_product(shape, a + 1);
        assert(x * y >= 1) by (nonlinear_arith)
            requires
                x >= 1,
                y >= 1,
        ;
    }
}

proof fn lemma_suffix_zero(shape: Seq<usize>, a: int, z: int)
    requires
        0 <= a <= z < shape.len(),
        shape[z] == 0,
    ensures
        suffix_product(shape, a) == 0,
    decreases z - a,
{
    if a < z {
        lemma_suffix_zero(shape, a + 1, z);
    }
}

/// Checked product of logical dimensions. The rank-0 empty product is one;
/// any zero-sized dimension makes the result zero.
pub fn checked_element_count(shape: &[usize]) -> (r: Result<usize, TensorError>)
    ensures
        r == element_count(shape@),
{
    let mut z: usize = 0;
    while z < shape.len()
        invariant
            z <= shape@.len(),
            forall|j: int| 0 <= j < z ==> shape@[j] != 0,
        decreases shape@.len() - z,
    {
        if shape[z] == 0 {
            assert(shape@.contains(0)) by {
                assert(shape@[z as int] == 0);
            }
            return Ok(0);
        }
        z = z + 1;
    }
    assert(!shape@.contains(0));
    let mut count: usize = 1;
    let mut axis: usize = shape.len();
    while axis > 0
        invariant
            axis <= shape@.len(),
            !shape@.contains(0),
            count == suffix_product(shape@, axis as int),
        decreases axis,
    {
        axis = axis - 1;
        match shape[axis].checked_mul(count) {
            Some(c) => {
                count = c;
            },
            None => {
                proof {
                    lemma_suffix_monotone(shape@, 0, axis as int);
                }
                return Err(TensorError::ShapeOverflow);
            },
        }
    }
    Ok(count)
}

pub fn checked_byte_count(shape: &[usize], dtype: DType) -> (r: Result<usize, TensorError>)
    ensures
        r == match element_count(shape@) {
            Err(e) => Err(e),
            Ok(count) => if count * 4 <= usize::MAX {
                Ok((count * 4) as usize)
            } else {
                Err(TensorError::ByteCountOverflow)
            },
        },
{
    let count = match checked_element_count(shape) {
        Ok(count) => count,
        Err(e) => {
            return Err(e);
        },
    };
    match count.checked_mul(dtype.byte_width()) {
        Some(bytes) => Ok(bytes),
        None => Err(TensorError::ByteCountOverflow),
    }
}

/// Derive canonical row-major element strides from right to left: each
/// stride is the product of the dimensions after its axis.
pub fn canonical_row_major_strides(shape: &[usize]) -> (r: Result<Vec<usize>, TensorError>)
    ensures
        r is Err <==> strides_overflow(shape@),
        r matches Err(e) ==> e == TensorError::ShapeOverflow,
        r matches Ok(strides) ==> strides@.len() == shape@.len() && forall|i: int|
            0 <= i < shape@.len() ==> strides@[i] == suffix_product(shape@, i + 1),
{
    let mut strides: Vec<usize> = Vec::new();
    let mut i: usize = 0;
    while i < shape.len()
        invariant
            i <= shape@.len(),
            strides@.len() == i,
        decreases shape@.len() - i,
    {
        strides.push(0);
        i = i + 1;
    }
    let mut suffix: usize = 1;
    let mut axis: usize = shape.len();
    while axis > 0
        invariant
            axis <= shape@.len(),
            strides@.len() == shape@.len(),
            suffix == suffix_product(shape@, axis as int),
            forall|b: int| axis <= b < shape@.len() ==> suffix_product(shape@, b) <= usize::MAX,
            forall|j: int|
                axis <= j < shape@.len() ==> strides@[j] == suffix_product(shape@, j + 1),
        decreases axis,
    {
        axis = axis - 1;
        strides.set(axis, suffix);
        match shape[axis].checked_mul(suffix) {
            Some(s) => {
                suffix = s;
            },
            None => {
                assert(suffix_product(shape@, axis as int) > usize::MAX);
                return Err(TensorError::ShapeOverflow);
            },
        }
    }
    assert(!strides_overflow(shape@)) by {
        if strides_overflow(shape@) {
            let a = choose|a: int| 0 <= a < shape@.len() && #[trigger] suffix_product(shape@, a) > usize::MAX;
            assert(suffix_product(shape@, a) <= usize::MAX);
        }
    }
    Ok(strides)
}

proof fn lemma_extent_sum_monotone(shape: Seq<usize>, strides: Seq<usize>, j: int, k: int)
    requires
        0 <= j <= k <= shape.len(),
        k <= strides.len(),
        forall|i: int| 0 <= i < shape.len() ==> shape[i] >= 1,
    ensures
        extent_sum(shape, strides, j) <= extent_sum(shape, strides, k),
        extent_sum(shape, strides, j) >= 0,
    decreases k,
{
    if j < k {
        lemma_extent_sum_monotone(shape, strides, j, k - 1);
        let x = shape[k - 1] - 1;
        let y = strides[k - 1] as int;
        assert(x * y >= 0) by (nonlinear_arith)
            requires
                x >= 0,
                y >= 0,
        ;
    } else if k > 0 {
        lemma_extent_sum_monotone(shape, strides, k - 1, k - 1);
        let x = shape[k - 1] - 1;
        let y = strides[k - 1] as int;
        assert(x * y >= 0) by (nonlinear_arith)
            requires
                x >= 0,
                y >= 0,
        ;
    }
}

proof fn lemma_weighted_sum_monotone(xs: Seq<usize>, strides: Seq<usize>, j: int, k: int)
    requires
        0 <= j <= k <= xs.len(),
        k <= strides.len(),
    ensures
        weighted_sum(xs, strides, j) <= weighted_sum(xs, strides, k),
        weighted_sum(xs, strides, j) >= 0,
    decreases k,
{
    if j < k {
        lemma_weighted_sum_monotone(xs, strides, j, k - 1);
        let x = xs[k - 1] as int;
        let y = strides[k - 1] as int;
        assert(x * y >= 0) by (nonlinear_arith)
            requires
                x >= 0,
                y >= 0,
        ;
    } else if k > 0 {
        lemma_weighted_sum_monotone(xs, strides, k - 1, k - 1);
        let x = xs[k - 1] as int;
        let y = strides[k - 1] as int;
        assert(x * y >= 0) by (nonlinear_arith)
            requires
                x >= 0,
                y >= 0,
        ;
    }
}

proof fn lemma_first_outside(indices: Seq<usize>, shape: Seq<usize>, k: int, n: int)
    requires
        0 <= k <= n,
    ensures
        first_outside(indices, shape, k) <= k,
        first_outside(indices, shape, k) < k ==> first_outside(indices, shape, n) == first_outside(
            indices,
            shape,
            k,
        ),
        first_outside(indices, shape, k) == k ==> first_outside(indices, shape, n) >= k,
    decreases n,
{
    if k > 0 {
        lemma_first_outside(indices, shape, k - 1, k - 1);
    }
    if k < n {
        lemma_first_outside(indices, shape, k, n - 1);
        lemma_first_outside(indices, shape, n - 1, n - 1);
    }
}

/// Whether a view fits in its storage: shape and stride ranks agree, and
/// the last element it can address lies inside the storage.
pub fn validate_view_extent(
    shape: &[usize],
    strides: &[usize],
    base_offset: usize,
    storage_len: usize,
) -> (r: Result<(), TensorError>)
    ensures
        r == view_extent(shape@, strides@, base_offset, storage_len),
{
    if shape.len() != strides.len() {
        return Err(
            TensorError::ShapeStrideRankMismatch {
                shape_rank: shape.len(),
                stride_rank: strides.len(),
            },
        );
    }
    let count = match checked_element_count(shape) {
        Ok(count) => count,
        Err(e) => {
            return Err(e);
        },
    };
    if count == 0 {
        if base_offset <= storage_len {
            return Ok(());
        }
        return Err(TensorError::InvalidViewExtent { required: base_offset, storage_len });
    }
    proof {
        assert forall|i: int| 0 <= i < shape@.len() implies shape@[i] >= 1 by {
            if shape@[i] == 0 {
                assert(shape@.contains(0));
            }
        }
        lemma_extent_sum_monotone(shape@, strides@, 0, shape@.len() as int);
    }
    let mut max_offset = base_offset;
    let mut axis: usize = 0;
    while axis < shape.len()
        invariant
            axis <= shape@.len(),
            shape@.len() == strides@.len(),
            forall|i: int| 0 <= i < shape@.len() ==> shape@[i] >= 1,
            element_count(shape@) == Ok::<usize, TensorError>(count),
            count != 0,
            max_offset == base_offset + extent_sum(shape@, strides@, axis as int),
        decreases shape@.len() - axis,
    {
        let contribution = match (shape[axis] - 1).checked_mul(strides[axis]) {
            Some(c) => c,
            None => {
                proof {
                    lemma_extent_sum_monotone(shape@, strides@, axis as int, shape@.len() as int);
                    lemma_extent_sum_monotone(shape@, strides@, axis + 1, shape@.len() as int);
                    assert(extent_sum(shape@, strides@, axis + 1) == extent_sum(shape@, strides@, axis as int)
                        + (shape@[axis as int] - 1) * strides@[axis as int]);
                    assert(extent_sum(shape@, strides@, shape@.len() as int) > usize::MAX);
                }
                return Err(TensorError::OffsetOverflow);
            },
        };
        max_offset = match max_offset.checked_add(contribution) {
            Some(m) => m,
            None => {
                proof {
                    lemma_extent_sum_monotone(shape@, strides@, axis + 1, shape@.len() as int);
                }
                return Err(TensorError::OffsetOverflow);
            },
        };
        axis = axis + 1;
    }
    let required = match max_offset.checked_add(1) {
        Some(required) => required,
        None => {
            return Err(TensorError::OffsetOverflow);
        },
    };
    if required > storage_len {
        return Err(TensorError::InvalidViewExtent { required, storage_len });
    }
    Ok(())
}

/// Authoritative checked logical-index to physical-element offset mapping.
pub fn checked_offset(
    shape: &[usize],
    strides: &[usize],
    base_offset: usize,
    storage_len: usize,
    indices: &[usize],
) -> (r: Result<usize, TensorError>)
    ensures
        r == element_offset(shape@, strides@, base_offset, storage_len, indices@),
{
    match validate_view_extent(shape, strides, base_offset, storage_len) {
        Ok(()) => {},
        Err(e) => {
            return Err(e);
        },
    }
    if indices.len() != shape.len() {
        return Err(TensorError::RankMismatch { expected: shape.len(), actual: indices.len() });
    }
    let ghost n = shape@.len() as int;
    let mut offset = base_offset;
    let mut axis: usize = 0;
    while axis < indices.len()
        invariant
            axis <= n,
            indices@.len() == n,
            shape@.len() == n,
            strides@.len() == n,
            first_outside(indices@, shape@, axis as int) == axis,
            view_extent(shape@, strides@, base_offset, storage_len) == Ok::<(), TensorError>(()),
            offset == base_offset + weighted_sum(indices@, strides@, axis as int),
        decreases n - axis,
    {
        let index = indices[axis];
        let dimension = shape[axis];
        if index >= dimension {
            proof {
                assert(first_outside(indices@, shape@, axis + 1) == axis);
                lemma_first_outside(indices@, shape@, axis + 1, n);
                assert(first_outside(indices@, shape@, n) == axis);
            }
            return Err(TensorError::IndexOutOfBounds { axis, index, dimension });
        }
        proof {
            lemma_first_outside(indices@, shape@, axis + 1, n);
            lemma_first_outside(indices@, shape@, n, n);
            lemma_weighted_sum_monotone(indices@, strides@, axis + 1, first_outside(indices@, shape@, n));
        }
        let step = match index.checked_mul(strides[axis]) {
            Some(step) => step,
            None => {
                return Err(TensorError::OffsetOverflow);
            },
        };
        offset = match offset.checked_add(step) {
            Some(o) => o,
            None => {
                return Err(TensorError::OffsetOverflow);
            },
        };
        axis = axis + 1;
    }
    Ok(offset)
}

/// The row-major logical indices of element `flat_index` of `shape`.
pub fn unravel_row_major(flat_index: usize, shape: &[usize]) -> (indices: Vec<usize>)
    requires
        forall|i: int| 0 <= i < shape@.len() ==> shape@[i] > 0,
    ensures
        indices@.len() == shape@.len(),
        forall|axis: int|
            0 <= axis < shape@.len() ==> indices@[axis] == (flat_index as int / suffix_product(
                shape@,
                axis + 1,
            )) % (shape@[axis] as int),
{
    let mut indices: Vec<usize> = Vec::new();
    let mut i: usize = 0;
    while i < shape.len()
        invariant
            i <= shape@.len(),
            indices@.len() == i,
        decreases shape@.len() - i,
    {
        indices.push(0);
        i = i + 1;
    }
    proof {
        assert(!shape@.contains(0)) by {
            if shape@.contains(0) {
                let j = choose|j: int| 0 <= j < shape@.len() && shape@[j] == 0;
                assert(shape@[j] > 0);
            }
        }
    }
    let mut rest = flat_index;
    let mut axis: usize = shape.len();
    while axis > 0
        invariant
            axis <= shape@.len(),
            indices@.len() == shape@.len(),
            !shape@.contains(0),
            forall|i: int| 0 <= i < shape@.len() ==> shape@[i] > 0,
            rest as int == flat_index as int / suffix_product(shape@, axis as int),
            forall|j: int|
                axis <= j < shape@.len() ==> indices@[j] == (flat_index as int / suffix_product(
                    shape@,
                    j + 1,
                )) % (shape@[j] as int),
        decreases axis,
    {
        axis = axis - 1;
        let dimension = shape[axis];
        indices.set(axis, rest % dimension);
        proof {
            lemma_suffix_positive(shape@, axis + 1);
            let d = suffix_product(shape@, axis + 1);
            vstd::arithmetic::div_mod::lemma_div_denominator(flat_index as int, d, dimension as int);
            assert(d * (dimension as int) == (dimension as int) * d) by (nonlinear_arith);
        }
        rest = rest / dimension;
    }
    indices
}

/// The canonical row-major strides of `shape`: each is the product of the
/// dimensions after its axis.
pub open spec fn canonical_strides(shape: Seq<usize>) -> Seq<usize> {
    Seq::new(shape.len(), |i: int| suffix_product(shape, i + 1) as usize)
}

/// A layout is canonical row-major: its strides are exactly the canonical
/// ones, axes of length one included.
pub open spec fn row_major(shape: Seq<usize>, strides: Seq<usize>) -> bool {
    !strides_overflow(shape) && strides == canonical_strides(shape)
}

fn same_usizes(a: &[usize], b: &[usize]) -> (r: bool)
    ensures
        r == (a@ == b@),
{
    if a.len() != b.len() {
        return false;
    }
    let mut i: usize = 0;
    while i < a.len()
        invariant
            i <= a@.len(),
            a@.len() == b@.len(),
            forall|j: int| 0 <= j < i ==> a@[j] == b@[j],
        decreases a@.len() - i,
    {
        if a[i] != b[i] {
            return false;
        }
        i = i + 1;
    }
    assert(a@ =~= b@);
    true
}

/// Whether `strides` are the canonical row-major strides of `shape`.
pub fn is_contiguous_row_major(shape: &[usize], strides: &[usize]) -> (r: bool)
    ensures
        r == row_major(shape@, strides@),
{
    match canonical_row_major_strides(shape) {
        Ok(canonical) => {
            assert(canonical@ =~= canonical_strides(shape@));
            same_usizes(canonical.as_slice(), strides)
        },
        Err(_) => false,
    }
}

/// The strides of a reshaped view of a canonical layout, or why it cannot
/// be reshaped without copying.
pub open spec fn reshape_result(
    shape: Seq<usize>,
    strides: Seq<usize>,
    base_offset: usize,
    storage_len: usize,
    new_shape: Seq<usize>,
) -> Result<Seq<usize>, TensorError> {
    if !row_major(shape, strides) {
        Err(TensorError::NonContiguous)
    } else {
        match element_count(shape) {
            Err(e) => Err(e),
            Ok(current) => match element_count(new_shape) {
                Err(e) => Err(e),
                Ok(requested) => if current != requested {
                    Err(TensorError::ReshapeElementMismatch { current, requested })
                } else if strides_overflow(new_shape) {
                    Err(TensorError::ShapeOverflow)
                } else {
                    match view_extent(new_shape, canonical_strides(new_shape), base_offset, storage_len) {
                        Err(e) => Err(e),
                        Ok(()) => Ok(canonical_strides(new_shape)),
                    }
                },
            },
        }
    }
}

/// The canonical strides of `new_shape` for a view of the same elements as
/// a canonical layout: the element counts must agree, and the new layout
/// must fit the same storage from the same base offset.
pub fn reshape_layout(
    shape: &[usize],
    strides: &[usize],
    base_offset: usize,
    storage_len: usize,
    new_shape: &[usize],
) -> (r: Result<Vec<usize>, TensorError>)
    ensures
        match r {
            Ok(new_strides) => reshape_result(shape@, strides@, base_offset, storage_len, new_shape@)
                == Ok::<Seq<usize>, TensorError>(new_strides@),
            Err(e) => reshape_result(shape@, strides@, base_offset, storage_len, new_shape@) == Err::<
                Seq<usize>,
                TensorError,
            >(e),
        },
{
    if !is_contiguous_row_major(shape, strides) {
        return Err(TensorError::NonContiguous);
    }
    let current = match checked_element_count(shape) {
        Ok(c) => c,
        Err(e) => {
            return Err(e);
        },
    };
    let requested = match checked_element_count(new_shape) {
        Ok(c) => c,
        Err(e) => {
            return Err(e);
        },
    };
    if current != requested {
        return Err(TensorError::ReshapeElementMismatch { current, requested });
    }
    let new_strides = match canonical_row_major_strides(new_shape) {
        Ok(s) => s,
        Err(e) => {
            return Err(e);
        },
    };
    assert(new_strides@ =~= canonical_strides(new_shape@));
    match validate_view_extent(new_shape, new_strides.as_slice(), base_offset, storage_len) {
        Ok(()) => Ok(new_strides),
        Err(e) => Err(e),
    }
}

/// The shape and strides of the transpose of a matrix layout, or why there
/// is none.
pub open spec fn transpose_result(
    shape: Seq<usize>,
    strides: Seq<usize>,
    base_offset: usize,
    storage_len: usize,
) -> Result<(Seq<usize>, Seq<usize>), TensorError> {
    if shape.len() != 2 {
        Err(TensorError::ExpectedMatrix { rank: shape.len() as usize })
    } else {
        let t_shape = seq![shape[1], shape[0]];
        let t_strides = seq![strides[1], strides[0]];
        match view_extent(t_shape, t_strides, base_offset, storage_len) {
            Err(e) => Err(e),
            Ok(()) => Ok((t_shape, t_strides)),
        }
    }
}

/// Swaps the two axes of a matrix layout; no element moves.
pub fn transpose_layout(
    shape: &[usize],
    strides: &[usize],
    base_offset: usize,
    storage_len: usize,
) -> (r: Result<(Vec<usize>, Vec<usize>), TensorError>)
    requires
        shape@.len() == strides@.len(),
    ensures
        match r {
            Ok((t_shape, t_strides)) => transpose_result(shape@, strides@, base_offset, storage_len)
                == Ok::<(Seq<usize>, Seq<usize>), TensorError>((t_shape@, t_strides@)),
            Err(e) => transpose_result(shape@, strides@, base_offset, storage_len) == Err::<
                (Seq<usize>, Seq<usize>),
                TensorError,
            >(e),
        },
{
    if shape.len() != 2 {
        return Err(TensorError::ExpectedMatrix { rank: shape.len() });
    }
    let t_shape = vec![shape[1], shape[0]];
    let t_strides = vec![strides[1], strides[0]];
    assert(t_shape@ =~= seq![shape@[1], shape@[0]]);
    assert(t_strides@ =~= seq![strides@[1], strides@[0]]);
    match validate_view_extent(t_shape.as_slice(), t_strides.as_slice(), base_offset, storage_len) {
        Ok(()) => Ok((t_shape, t_strides)),
        Err(e) => Err(e),
    }
}

/// The shape and base offset of the half-open range `start..end` of one
/// axis of a layout, or why there is none.
pub open spec fn slice_result(
    shape: Seq<usize>,
    strides: Seq<usize>,
    base_offset: usize,
    storage_len: usize,
    axis: usize,
    start: usize,
    end: usize,
) -> Result<(Seq<usize>, usize), TensorError> {
    if axis >= shape.len() {
        Err(TensorError::AxisOutOfBounds { axis, rank: shape.len() as usize })
    } else if start > end || end > shape[axis as int] {
        Err(TensorError::InvalidSlice { axis, start, end, dimension: shape[axis as int] })
    } else if start * strides[axis as int] > usize::MAX {
        Err(TensorError::OffsetOverflow)
    } else if base_offset + start * strides[axis as int] > usize::MAX {
        Err(TensorError::OffsetOverflow)
    } else {
        let s_shape = shape.update(axis as int, (end - start) as usize);
        let s_base = (base_offset + start * strides[axis as int]) as usize;
        match view_extent(s_shape, strides, s_base, storage_len) {
            Err(e) => Err(e),
            Ok(()) => Ok((s_shape, s_base)),
        }
    }
}

/// Narrows one axis of a layout to `start..end`; no element moves.
pub fn slice_layout(
    shape: &[usize],
    strides: &[usize],
    base_offset: usize,
    storage_len: usize,
    axis: usize,
    start: usize,
    end: usize,
) -> (r: Result<(Vec<usize>, usize), TensorError>)
    requires
        shape@.len() == strides@.len(),
    ensures
        match r {
            Ok((s_shape, s_base)) => slice_result(
                shape@,
                strides@,
                base_offset,
                storage_len,
                axis,
                start,
                end,
            ) == Ok::<(Seq<usize>, usize), TensorError>((s_shape@, s_base)),
            Err(e) => slice_result(shape@, strides@, base_offset, storage_len, axis, start, end)
                == Err::<(Seq<usize>, usize), TensorError>(e),
        },
{
    if axis >= shape.len() {
        return Err(TensorError::AxisOutOfBounds { axis, rank: shape.len() });
    }
    let dimension = shape[axis];
    if start > end || end > dimension {
        return Err(TensorError::InvalidSlice { axis, start, end, dimension });
    }
    let shift = match start.checked_mul(strides[axis]) {
        Some(shift) => shift,
        None => {
            return Err(TensorError::OffsetOverflow);
        },
    };
    let s_base = match base_offset.checked_add(shift) {
        Some(b) => b,
        None => {
            return Err(TensorError::OffsetOverflow);
        },
    };
    let mut s_shape: Vec<usize> = Vec::new();
    let mut i: usize = 0;
    while i < shape.len()
        invariant
            i <= shape@.len(),
            axis < shape@.len(),
            start <= end,
            s_shape@ == shape@.update(axis as int, (end - start) as usize).take(i as int),
        decreases shape@.len() - i,
    {
        if i == axis {
            s_shape.push(end - start);
        } else {
            s_shape.push(shape[i]);
        }
        i = i + 1;
        assert(s_shape@ =~= shape@.update(axis as int, (end - start) as usize).take(i as int));
    }
    assert(s_shape@ =~= shape@.update(axis as int, (end - start) as usize));
    match validate_view_extent(s_shape.as_slice(), strides, s_base, storage_len) {
        Ok(()) => Ok((s_shape, s_base)),
        Err(e) => Err(e),
    }
}

/// The row-major logical indices of element `flat` of `shape`.
pub open spec fn unravel_spec(flat: int, shape: Seq<usize>) -> Seq<usize> {
    Seq::new(
        shape.len(),
        |k: int| ((flat / suffix_product(shape, k + 1)) % (shape[k] as int)) as usize,
    )
}

proof fn lemma_canonical_extent(shape: Seq<usize>, k: int)
    requires
        0 <= k <= shape.len(),
        !shape.contains(0),
        suffix_product(shape, 0) <= usize::MAX,
    ensures
        extent_sum(shape, canonical_strides(shape), k) == suffix_product(shape, 0) - suffix_product(
            shape,
            k,
        ),
    decreases k,
{
    if k > 0 {
        lemma_canonical_extent(shape, k - 1);
        lemma_suffix_monotone(shape, 0, k);
        let d = shape[k - 1] as int;
        let p = suffix_product(shape, k);
        assert(canonical_strides(shape)[k - 1] == p);
        assert((d - 1) * p == d * p - p) by (nonlinear_arith);
    }
}

proof fn lemma_unravel_sum(shape: Seq<usize>, flat: int, k: int)
    requires
        0 <= k <= shape.len(),
        !shape.contains(0),
        suffix_product(shape, 0) <= usize::MAX,
        0 <= flat < suffix_product(shape, 0),
    ensures
        weighted_sum(unravel_spec(flat, shape), canonical_strides(shape), k) + flat
            % suffix_product(shape, k) == flat,
        first_outside(unravel_spec(flat, shape), shape, k) == k,
    decreases k,
{
    lemma_suffix_positive(shape, k);
    if k == 0 {
        vstd::arithmetic::div_mod::lemma_small_mod(flat as nat, suffix_product(shape, 0) as nat);
    } else {
        lemma_unravel_sum(shape, flat, k - 1);
        lemma_suffix_monotone(shape, 0, k);
        let d = shape[k - 1] as int;
        let p = suffix_product(shape, k);
        assert(d > 0) by {
            if d == 0 {
                assert(shape.contains(0));
            }
        }
        vstd::arithmetic::div_mod::lemma_breakdown(flat, p, d);
        assert(p * d == d * p) by (nonlinear_arith);
        let index = (flat / p) % d;
        assert(0 <= index < d) by {
            vstd::arithmetic::div_mod::lemma_mod_bound(flat / p, d);
        }
        assert(unravel_spec(flat, shape)[k - 1] == index);
        assert(canonical_strides(shape)[k - 1] == p);
        assert(index * p == p * index) by (nonlinear_arith);
    }
}

/// Canonical strides number a shape's elements in row-major order: the
/// offset of the row-major indices of element `flat` is `flat` itself.
pub proof fn law_row_major_offset_inverts_unravel(shape: Seq<usize>, flat: int)
    requires
        !shape.contains(0),
        suffix_product(shape, 0) <= usize::MAX,
        0 <= flat < suffix_product(shape, 0),
    ensures
        element_offset(
            shape,
            canonical_strides(shape),
            0,
            suffix_product(shape, 0) as usize,
            unravel_spec(flat, shape),
        ) == Ok::<usize, TensorError>(flat as usize),
{
    let n = shape.len() as int;
    lemma_canonical_extent(shape, n);
    lemma_unravel_sum(shape, flat, n);
    assert(suffix_product(shape, n) == 1);
    assert(flat % 1 == 0);
}

/// A reshape never changes how many elements a layout has: it succeeds only
/// where the requested shape has exactly the current element count.
pub proof fn law_reshape_keeps_element_count(
    shape: Seq<usize>,
    strides: Seq<usize>,
    base_offset: usize,
    storage_len: usize,
    new_shape: Seq<usize>,
)
    ensures
        reshape_result(shape, strides, base_offset, storage_len, new_shape) is Ok ==> {
            &&& element_count(shape) is Ok
            &&& element_count(new_shape) == element_count(shape)
        },
{
}

/// In a valid canonical layout, element `flat` in row-major order lies
/// `flat` places past the base offset.
proof fn lemma_canonical_offset(
    shape: Seq<usize>,
    base_offset: usize,
    storage_len: usize,
    flat: int,
)
    requires
        !shape.contains(0),
        suffix_product(shape, 0) <= usize::MAX,
        0 <= flat < suffix_product(shape, 0),
        view_extent(shape, canonical_strides(shape), base_offset, storage_len) is Ok,
    ensures
        element_offset(
            shape,
            canonical_strides(shape),
            base_offset,
            storage_len,
            unravel_spec(flat, shape),
        ) == Ok::<usize, TensorError>((base_offset + flat) as usize),
{
    let n = shape.len() as int;
    lemma_canonical_extent(shape, n);
    lemma_unravel_sum(shape, flat, n);
    assert(suffix_product(shape, n) == 1);
    assert(flat % 1 == 0);
}

/// A reshape keeps every element where it was: element `flat`, counted in
/// row-major order, has the same offset in the reshaped layout as in the
/// original one, `flat` places past the base offset.
pub proof fn law_reshape_keeps_element_order(
    shape: Seq<usize>,
    strides: Seq<usize>,
    base_offset: usize,
    storage_len: usize,
    new_shape: Seq<usize>,
    flat: int,
)
    requires
        view_extent(shape, strides, base_offset, storage_len) is Ok,
    ensures
        reshape_result(shape, strides, base_offset, storage_len, new_shape) matches Ok(new_strides)
            ==> (element_count(shape) matches Ok(count) && 0 <= flat < count ==> {
            &&& element_offset(
                new_shape,
                new_strides,
                base_offset,
                storage_len,
                unravel_spec(flat, new_shape),
            ) == element_offset(shape, strides, base_offset, storage_len, unravel_spec(flat, shape))
            &&& element_offset(shape, strides, base_offset, storage_len, unravel_spec(flat, shape))
                == Ok::<usize, TensorError>((base_offset + flat) as usize)
        }),
{
    if reshape_result(shape, strides, base_offset, storage_len, new_shape) is Ok {
        if element_count(shape) is Ok {
            let count = element_count(shape)->Ok_0;
            if 0 <= flat < count {
                assert(!shape.contains(0));
                assert(element_count(new_shape) == element_count(shape));
                assert(!new_shape.contains(0));
                lemma_suffix_monotone(shape, 0, 0);
                lemma_suffix_monotone(new_shape, 0, 0);
                assert(suffix_product(shape, 0) <= usize::MAX);
                assert(count as int == suffix_product(shape, 0));
                assert(suffix_product(new_shape, 0) <= usize::MAX);
                assert(count as int == suffix_product(new_shape, 0));
                lemma_canonical_offset(shape, base_offset, storage_len, flat);
                lemma_canonical_offset(new_shape, base_offset, storage_len, flat);
            }
        }
    }
}

/// The extent of a valid canonical layout depends only on its element count.
proof fn lemma_canonical_view_by_count(
    shape: Seq<usize>,
    other: Seq<usize>,
    base_offset: usize,
    storage_len: usize,
)
    requires
        element_count(shape) is Ok,
        element_count(other) == element_count(shape),
        view_extent(shape, canonical_strides(shape), base_offset, storage_len) is Ok,
    ensures
        view_extent(other, canonical_strides(other), base_offset, storage_len) is Ok,
{
    let count = element_count(shape)->Ok_0;
    if count != 0 {
        assert(!shape.contains(0));
        assert(!other.contains(0));
        lemma_suffix_monotone(shape, 0, 0);
        lemma_suffix_monotone(other, 0, 0);
        assert(suffix_product(shape, 0) == suffix_product(other, 0));
        lemma_canonical_extent(shape, shape.len() as int);
        lemma_canonical_extent(other, other.len() as int);
        assert(suffix_product(shape, shape.len() as int) == 1);
        assert(suffix_product(other, other.len() as int) == 1);
    }
    assert(canonical_strides(other).len() == other.len());
}

/// A canonical layout can be reshaped to any shape of the same element
/// count whose own canonical strides fit: the reshape then succeeds, with
/// those strides.
pub proof fn law_reshape_of_canonical_succeeds(
    shape: Seq<usize>,
    strides: Seq<usize>,
    base_offset: usize,
    storage_len: usize,
    new_shape: Seq<usize>,
)
    requires
        row_major(shape, strides),
        view_extent(shape, strides, base_offset, storage_len) is Ok,
        element_count(shape) is Ok,
        element_count(new_shape) == element_count(shape),
        !strides_overflow(new_shape),
    ensures
        reshape_result(shape, strides, base_offset, storage_len, new_shape) == Ok::<
            Seq<usize>,
            TensorError,
        >(canonical_strides(new_shape)),
{
    lemma_canonical_view_by_count(shape, new_shape, base_offset, storage_len);
}

/// Shifting one index by `start` shifts the weighted sum by `start` times
/// that axis's stride, once the axis is among the summed ones.
proof fn lemma_weighted_sum_shift(
    indices: Seq<usize>,
    strides: Seq<usize>,
    axis: int,
    shifted: usize,
    start: int,
    k: int,
)
    requires
        0 <= axis < indices.len(),
        0 <= k <= indices.len(),
        shifted == indices[axis] + start,
    ensures
        weighted_sum(indices.update(axis, shifted), strides, k) == weighted_sum(indices, strides, k)
            + (if axis < k {
            start * strides[axis]
        } else {
            0
        }),
    decreases k,
{
    if k > 0 {
        lemma_weighted_sum_shift(indices, strides, axis, shifted, start, k - 1);
        if k - 1 == axis {
            let i = indices[axis] as int;
            let s = strides[axis] as int;
            assert((i + start) * s == i * s + start * s) by (nonlinear_arith);
        }
    }
}

/// Where every index is inside its dimension, no axis is outside.
proof fn lemma_first_outside_none(indices: Seq<usize>, shape: Seq<usize>, k: int)
    requires
        0 <= k <= indices.len(),
        k <= shape.len(),
        forall|i: int| 0 <= i < k ==> indices[i] < shape[i],
    ensures
        first_outside(indices, shape, k) == k,
    decreases k,
{
    if k > 0 {
        lemma_first_outside_none(indices, shape, k - 1);
    }
}

/// Narrowing one dimension of a shape with no zero dimension to a smaller
/// positive length does not grow any trailing product.
proof fn lemma_suffix_narrowed(shape: Seq<usize>, axis: int, len: usize, k: int)
    requires
        0 <= axis < shape.len(),
        1 <= len <= shape[axis],
        0 <= k <= shape.len(),
        forall|i: int| 0 <= i < shape.len() ==> shape[i] > 0,
    ensures
        0 <= suffix_product(shape.update(axis, len), k) <= suffix_product(shape, k),
    decreases shape.len() - k,
{
    if k < shape.len() {
        lemma_suffix_narrowed(shape, axis, len, k + 1);
        let p1 = suffix_product(shape.update(axis, len), k + 1);
        let p = suffix_product(shape, k + 1);
        let x1 = shape.update(axis, len)[k] as int;
        let x = shape[k] as int;
        assert(0 <= x1 <= x);
        assert(0 <= x1 * p1 <= x * p) by (nonlinear_arith)
            requires
                0 <= x1 <= x,
                0 <= p1 <= p,
        ;
    }
}

/// The extent of a layout narrowed along `axis` to `start..end`, plus the
/// shift `start * strides[axis]`, stays within the layout's own extent.
proof fn lemma_extent_narrowed(
    shape: Seq<usize>,
    strides: Seq<usize>,
    axis: int,
    start: int,
    end: int,
    k: int,
)
    requires
        shape.len() == strides.len(),
        0 <= axis < shape.len(),
        0 <= start < end <= shape[axis],
        0 <= k <= shape.len(),
        forall|i: int| 0 <= i < shape.len() ==> shape[i] > 0,
    ensures
        0 <= extent_sum(shape.update(axis, (end - start) as usize), strides, k),
        extent_sum(shape.update(axis, (end - start) as usize), strides, k) + (if axis < k {
            start * strides[axis]
        } else {
            0
        }) <= extent_sum(shape, strides, k),
    decreases k,
{
    if k > 0 {
        lemma_extent_narrowed(shape, strides, axis, start, end, k - 1);
        let st = strides[k - 1] as int;
        let d = shape[k - 1] as int;
        assert(0 <= (d - 1) * st) by (nonlinear_arith)
            requires
                d >= 1,
                st >= 0,
        ;
        if k - 1 == axis {
            assert(0 <= (end - start - 1) * st && (end - start - 1) * st + start * st <= (d - 1)
                * st) by (nonlinear_arith)
                requires
                    0 <= start < end <= d,
                    st >= 0,
            ;
        }
    }
}

/// A slice of a valid, non-empty layout within the bounds of its axis always
/// succeeds.
pub proof fn law_slice_of_valid_layout_succeeds(
    shape: Seq<usize>,
    strides: Seq<usize>,
    base_offset: usize,
    storage_len: usize,
    axis: usize,
    start: usize,
    end: usize,
)
    requires
        shape.len() == strides.len(),
        view_extent(shape, strides, base_offset, storage_len) is Ok,
        !shape.contains(0),
        axis < shape.len(),
        start < end <= shape[axis as int],
    ensures
        slice_result(shape, strides, base_offset, storage_len, axis, start, end) is Ok,
{
    let a = axis as int;
    let n = shape.len() as int;
    assert forall|i: int| 0 <= i < n implies shape[i] > 0 by {
        if shape[i] == 0 {
            assert(shape.contains(0));
        }
    }
    let narrowed = shape.update(a, (end - start) as usize);
    lemma_extent_narrowed(shape, strides, a, start as int, end as int, n);
    lemma_suffix_narrowed(shape, a, (end - start) as usize, 0);
    lemma_suffix_monotone(shape, 0, 0);
    assert(!narrowed.contains(0)) by {
        if narrowed.contains(0) {
            let i = choose|i: int| 0 <= i < narrowed.len() && narrowed[i] == 0;
            assert(shape[i] > 0);
        }
    }
    lemma_suffix_monotone(narrowed, 0, 0);
    assert(start * strides[a] <= extent_sum(shape, strides, n));
}

/// A slice of a valid layout selects the elements it claims: index `i` along
/// the sliced axis of the slice is index `start + i` of the layout, and every
/// other index is unchanged, so each element of the slice has the same
/// offset, or the same failure, as that element of the layout.
pub proof fn law_slice_selects_same_elements(
    shape: Seq<usize>,
    strides: Seq<usize>,
    base_offset: usize,
    storage_len: usize,
    axis: usize,
    start: usize,
    end: usize,
    indices: Seq<usize>,
)
    requires
        shape.len() == strides.len(),
        view_extent(shape, strides, base_offset, storage_len) is Ok,
        indices.len() == shape.len(),
    ensures
        slice_result(shape, strides, base_offset, storage_len, axis, start, end) matches Ok(
            (s_shape, s_base),
        ) ==> s_shape == shape.update(axis as int, (end - start) as usize) && ((forall|i: int|
            0 <= i < indices.len() ==> indices[i] < s_shape[i]) ==> {
            &&& axis < shape.len()
            &&& indices[axis as int] + start < shape[axis as int]
            &&& element_offset(s_shape, strides, s_base, storage_len, indices) == element_offset(
                shape,
                strides,
                base_offset,
                storage_len,
                indices.update(axis as int, (indices[axis as int] + start) as usize),
            )
        }),
{
    if slice_result(shape, strides, base_offset, storage_len, axis, start, end) is Ok {
        let (s_shape, s_base) = slice_result(
            shape,
            strides,
            base_offset,
            storage_len,
            axis,
            start,
            end,
        )->Ok_0;
        if forall|i: int| 0 <= i < indices.len() ==> indices[i] < s_shape[i] {
            let a = axis as int;
            assert(indices[a] < s_shape[a]);
            let shifted = (indices[a] + start) as usize;
            let moved = indices.update(a, shifted);
            let n = shape.len() as int;
            lemma_first_outside_none(indices, s_shape, n);
            assert forall|i: int| 0 <= i < n implies moved[i] < shape[i] by {
                assert(indices[i] < s_shape[i]);
            }
            lemma_first_outside_none(moved, shape, n);
            lemma_weighted_sum_shift(indices, strides, a, shifted, start as int, n);
        }
    }
}

/// Transposing a matrix layout twice gives back the layout.
pub proof fn law_transpose_twice_is_identity(
    shape: Seq<usize>,
    strides: Seq<usize>,
    base_offset: usize,
    storage_len: usize,
)
    requires
        shape.len() == strides.len(),
        transpose_result(shape, strides, base_offset, storage_len) is Ok,
    ensures
        ({
            let (t_shape, t_strides) = transpose_result(shape, strides, base_offset, storage_len)->Ok_0;
            transpose_result(t_shape, t_strides, base_offset, storage_len) == Ok::<
                (Seq<usize>, Seq<usize>),
                TensorError,
            >((shape, strides))
        }),
{
    let t_shape = seq![shape[1], shape[0]];
    let t_strides = seq![strides[1], strides[0]];
    assert(seq![t_shape[1], t_shape[0]] =~= shape);
    assert(seq![t_strides[1], t_strides[0]] =~= strides);
    assert(shape.contains(0) <==> t_shape.contains(0)) by {
        if shape.contains(0) {
            let i = choose|i: int| 0 <= i < shape.len() && shape[i] == 0;
            assert(t_shape[1 - i] == 0);
        }
        if t_shape.contains(0) {
            let i = choose|i: int| 0 <= i < t_shape.len() && t_shape[i] == 0;
            assert(shape[1 - i] == 0);
        }
    }
    let a = shape[0] as int;
    let b = shape[1] as int;
    assert(suffix_product(shape, 2) == 1);
    assert(suffix_product(t_shape, 2) == 1);
    assert(suffix_product(shape, 1) == b * 1);
    assert(suffix_product(t_shape, 1) == a * 1);
    assert(a * (b * 1) == b * (a * 1)) by (nonlinear_arith);
    assert(suffix_product(shape, 0) == suffix_product(t_shape, 0));
    assert(extent_sum(shape, strides, 0) == 0);
    assert(extent_sum(t_shape, t_strides, 0) == 0);
    assert(t_shape[0] == b && t_strides[0] == strides[1]);
    assert(extent_sum(shape, strides, 1) == (a - 1) * strides[0]);
    assert(extent_sum(t_shape, t_strides, 1) == (b - 1) * strides[1]);
    assert(extent_sum(shape, strides, 2) == extent_sum(t_shape, t_strides, 2));
}

/// The human-readable message of a tensor error.
pub open spec fn tensor_error_message(error: TensorError) -> Seq<char> {
    match error {
        TensorError::ShapeOverflow => "tensor element-count or stride arithmetic overflowed"@,
        TensorError::ByteCountOverflow => "tensor byte-count arithmetic overflowed"@,
        TensorError::StorageLengthMismatch { expected, actual } => "shape needs "@ + decimal(
            expected as nat,
        ) + " elements, storage has "@ + decimal(actual as nat),
        TensorError::ShapeStrideRankMismatch { shape_rank, stride_rank } => "shape rank "@
            + decimal(shape_rank as nat) + " does not match stride rank "@ + decimal(
            stride_rank as nat,
        ),
        TensorError::RankMismatch { expected, actual } => "index rank "@ + decimal(actual as nat)
            + " does not match tensor rank "@ + decimal(expected as nat),
        TensorError::AxisOutOfBounds { axis, rank } => "axis "@ + decimal(axis as nat)
            + " is outside tensor rank "@ + decimal(rank as nat),
        TensorError::IndexOutOfBounds { axis, index, dimension } => "index "@ + decimal(
            index as nat,
        ) + " is outside axis "@ + decimal(axis as nat) + " dimension 0.."@ + decimal(
            dimension as nat,
        ),
        TensorError::OffsetOverflow => "tensor physical-offset arithmetic overflowed"@,
        TensorError::InvalidViewExtent { required, storage_len } =>
            "tensor view requires storage length "@ + decimal(required as nat) + ", available "@
            + decimal(storage_len as nat),
        TensorError::NonContiguous => "operation requires canonical row-major contiguous layout"@,
        TensorError::ReshapeElementMismatch { current, requested } =>
            "reshape changes element count from "@ + decimal(current as nat) + " to "@ + decimal(
            requested as nat,
        ),
        TensorError::ExpectedMatrix { rank } => "rank-2 transpose requires a matrix, got rank "@
            + decimal(rank as nat),
        TensorError::InvalidSlice { axis, start, end, dimension } => "slice "@ + decimal(
            start as nat,
        ) + ".."@ + decimal(end as nat) + " is invalid for axis "@ + decimal(axis as nat)
            + " dimension "@ + decimal(dimension as nat),
    }
}

impl TensorError {
    /// The human-readable message of this error.
    pub fn to_string(&self) -> (message: String)
        ensures
            message@ == tensor_error_message(*self),
    {
        let mut m = String::new();
        let ghost start = m@;
        match *self {
            TensorError::ShapeOverflow => {
                m.append("tensor element-count or stride arithmetic overflowed");
            },
            TensorError::ByteCountOverflow => {
                m.append("tensor byte-count arithmetic overflowed");
            },
            TensorError::StorageLengthMismatch { expected, actual } => {
                m.append("shape needs ");
                push_decimal(&mut m, expected as u64);
                m.append(" elements, storage has ");
                push_decimal(&mut m, actual as u64);
            },
            TensorError::ShapeStrideRankMismatch { shape_rank, stride_rank } => {
                m.append("shape rank ");
                push_decimal(&mut m, shape_rank as u64);
                m.append(" does not match stride rank ");
                push_decimal(&mut m, stride_rank as u64);
            },
            TensorError::RankMismatch { expected, actual } => {
                m.append("index rank ");
                push_decimal(&mut m, actual as u64);
                m.append(" does not match tensor rank ");
                push_decimal(&mut m, expected as u64);
            },
            TensorError::AxisOutOfBounds { axis, rank } => {
                m.append("axis ");
                push_decimal(&mut m, axis as u64);
                m.append(" is outside tensor rank ");
                push_decimal(&mut m, rank as u64);
            },
            TensorError::IndexOutOfBounds { axis, index, dimension } => {
                m.append("index ");
                push_decimal(&mut m, index as u64);
                m.append(" is outside axis ");
                push_decimal(&mut m, axis as u64);
                m.append(" dimension 0..");
                push_decimal(&mut m, dimension as u64);
            },
            TensorError::OffsetOverflow => {
                m.append("tensor physical-offset arithmetic overflowed");
            },
            TensorError::InvalidViewExtent { required, storage_len } => {
                m.append("tensor view requires storage length ");
                push_decimal(&mut m, required as u64);
                m.append(", available ");
                push_decimal(&mut m, storage_len as u64);
            },
            TensorError::NonContiguous => {
                m.append("operation requires canonical row-major contiguous layout");
            },
            TensorError::ReshapeElementMismatch { current, requested } => {
                m.append("reshape changes element count from ");
                push_decimal(&mut m, current as u64);
                m.append(" to ");
                push_decimal(&mut m, requested as u64);
            },
            TensorError::ExpectedMatrix { rank } => {
                m.append("rank-2 transpose requires a matrix, got rank ");
                push_decimal(&mut m, rank as u64);
            },
            TensorError::InvalidSlice { axis, start, end, dimension } => {
                m.append("slice ");
                push_decimal(&mut m, start as u64);
                m.append("..");
                push_decimal(&mut m, end as u64);
                m.append(" is invalid for axis ");
                push_decimal(&mut m, axis as u64);
                m.append(" dimension ");
                push_decimal(&mut m, dimension as u64);
            },
        }
        assert(m@ =~= tensor_error_message(*self));
        m
    }
}

} // verus!
