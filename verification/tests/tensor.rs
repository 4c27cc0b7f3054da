use engine0::tensor::{
    canonical_row_major_strides, checked_byte_count, checked_element_count, checked_offset,
    is_contiguous_row_major, reshape_layout, slice_layout, transpose_layout, unravel_row_major,
    validate_view_extent, DType, TensorError,
};

#[test]
fn canonical_strides_cover_rank_one_through_four() {
    assert_eq!(canonical_row_major_strides(&[4]).unwrap(), vec![1]);
    assert_eq!(canonical_row_major_strides(&[2, 3]).unwrap(), vec![3, 1]);
    assert_eq!(
        canonical_row_major_strides(&[2, 3, 4]).unwrap(),
        vec![12, 4, 1]
    );
    assert_eq!(
        canonical_row_major_strides(&[2, 3, 4, 5]).unwrap(),
        vec![60, 20, 5, 1]
    );
    assert_eq!(
        canonical_row_major_strides(&[1, 3, 1]).unwrap(),
        vec![3, 1, 1]
    );
}

#[test]
fn element_and_byte_counts_are_checked() {
    assert_eq!(checked_element_count(&[]), Ok(1));
    assert_eq!(checked_element_count(&[2, 3, 4]), Ok(24));
    assert_eq!(checked_byte_count(&[2, 3, 4], DType::F32), Ok(96));
    assert_eq!(
        checked_element_count(&[usize::MAX, 2]),
        Err(TensorError::ShapeOverflow)
    );
    assert_eq!(
        checked_byte_count(&[usize::MAX / 2 + 1], DType::F32),
        Err(TensorError::ByteCountOverflow)
    );
}

#[test]
fn canonical_stride_overflow_is_typed_without_allocation() {
    assert_eq!(
        canonical_row_major_strides(&[2, usize::MAX]),
        Err(TensorError::ShapeOverflow)
    );
}

#[test]
fn generated_small_shapes_map_every_index_inside_storage() {
    for rank in 1..=4 {
        let shape = vec![3; rank];
        let strides = canonical_row_major_strides(&shape).unwrap();
        let count = checked_element_count(&shape).unwrap();
        let storage = vec![0.0f32; count];
        for flat in 0..count {
            let mut remaining = flat;
            let mut indices = vec![0; rank];
            for axis in (0..rank).rev() {
                indices[axis] = remaining % 3;
                remaining /= 3;
            }
            assert_eq!(
                checked_offset(&shape, &strides, 0, storage.len(), &indices),
                Ok(flat)
            );
        }
        assert_eq!(
            checked_offset(&shape, &strides, 0, storage.len(), &vec![2; rank]),
            Ok(count - 1)
        );
    }
}

#[test]
fn unravelled_indices_map_back_to_their_position() {
    for shape in [vec![2, 3], vec![4, 1, 3], vec![5], vec![2, 2, 2, 2]] {
        let strides = canonical_row_major_strides(&shape).unwrap();
        let count = checked_element_count(&shape).unwrap();
        for flat in 0..count {
            let indices = unravel_row_major(flat, &shape);
            assert_eq!(checked_offset(&shape, &strides, 0, count, &indices), Ok(flat));
        }
    }
}

#[test]
fn contiguity_requires_exactly_canonical_strides() {
    assert!(is_contiguous_row_major(&[2, 3], &[3, 1]));
    assert!(is_contiguous_row_major(&[], &[]));
    assert!(!is_contiguous_row_major(&[3, 2], &[1, 3]));
    assert!(!is_contiguous_row_major(&[3], &[0]));
    assert!(!is_contiguous_row_major(&[2, usize::MAX], &[usize::MAX, 1]));
}

#[test]
fn reshape_layout_keeps_the_element_count_and_canonical_order() {
    assert_eq!(reshape_layout(&[2, 3], &[3, 1], 0, 6, &[3, 2]), Ok(vec![2, 1]));
    assert_eq!(reshape_layout(&[2, 3], &[3, 1], 0, 6, &[6]), Ok(vec![1]));
    assert_eq!(reshape_layout(&[2, 3], &[3, 1], 0, 6, &[1, 6]), Ok(vec![6, 1]));
    assert_eq!(
        reshape_layout(&[2, 3], &[3, 1], 0, 6, &[4, 2]),
        Err(TensorError::ReshapeElementMismatch {
            current: 6,
            requested: 8
        })
    );
    assert_eq!(
        reshape_layout(&[3, 2], &[1, 3], 0, 6, &[6]),
        Err(TensorError::NonContiguous)
    );
}

#[test]
fn transpose_layout_swaps_axes_and_twice_restores_them() {
    let (shape, strides) = transpose_layout(&[2, 3], &[3, 1], 0, 6).unwrap();
    assert_eq!(shape, vec![3, 2]);
    assert_eq!(strides, vec![1, 3]);
    assert!(!is_contiguous_row_major(&shape, &strides));
    assert_eq!(
        transpose_layout(&shape, &strides, 0, 6),
        Ok((vec![2, 3], vec![3, 1]))
    );
    assert_eq!(
        transpose_layout(&[3], &[1], 0, 3),
        Err(TensorError::ExpectedMatrix { rank: 1 })
    );
}

#[test]
fn slice_layout_moves_the_base_and_narrows_one_axis() {
    assert_eq!(slice_layout(&[4, 3], &[3, 1], 0, 12, 0, 1, 3), Ok((vec![2, 3], 3)));
    assert_eq!(
        slice_layout(&[2, 3], &[3, 1], 0, 6, 2, 0, 1),
        Err(TensorError::AxisOutOfBounds { axis: 2, rank: 2 })
    );
    assert_eq!(
        slice_layout(&[2, 3], &[3, 1], 0, 6, 0, 2, 1),
        Err(TensorError::InvalidSlice {
            axis: 0,
            start: 2,
            end: 1,
            dimension: 2
        })
    );
    assert_eq!(
        slice_layout(&[2, 3], &[3, 1], 0, 6, 1, 0, 4),
        Err(TensorError::InvalidSlice {
            axis: 1,
            start: 0,
            end: 4,
            dimension: 3
        })
    );
}

#[test]
fn view_constructor_rejects_rank_mismatch_and_bad_extent() {
    let storage = [0.0f32; 4];
    assert!(matches!(
        validate_view_extent(&[2, 2], &[2], 0, storage.len()),
        Err(TensorError::ShapeStrideRankMismatch { .. })
    ));
    assert_eq!(
        validate_view_extent(&[2, 2], &[100, 1], 0, storage.len()).unwrap_err(),
        TensorError::InvalidViewExtent {
            required: 102,
            storage_len: 4
        }
    );
}

#[test]
fn view_extent_and_index_arithmetic_overflow_are_typed() {
    let storage = [0.0f32; 1];
    assert_eq!(
        validate_view_extent(&[2], &[usize::MAX], 1, storage.len()).unwrap_err(),
        TensorError::OffsetOverflow
    );
    assert_eq!(
        checked_offset(&[1], &[1], usize::MAX, usize::MAX, &[0]),
        Err(TensorError::OffsetOverflow)
    );
}

#[test]
fn checked_offset_maps_a_rank_three_index() {
    assert_eq!(
        checked_offset(&[2, 3, 4], &[12, 4, 1], 0, 24, &[1, 2, 3]),
        Ok(23)
    );
    assert_eq!(
        checked_offset(&[2, 3], &[3, 1], 0, 6, &[2, 0]),
        Err(TensorError::IndexOutOfBounds {
            axis: 0,
            index: 2,
            dimension: 2
        })
    );
}
