use engine0::embedding::{
    checked_sequence_count, checked_token_index, validate_table, EmbeddingError,
};
use engine0::linear::{
    checked_output_count, layout_error, require_inner, require_rank, BlockSize, KernelError,
};
use engine0::normalization::{rms_norm_dimension, VectorShapeError};
use engine0::parameters::{check_parameter_count, validate_model_shape, ParameterError};
use engine0::sampling::{token_id, SplitMix64};
use engine0::tensor::{checked_offset, unravel_row_major, validate_view_extent, TensorError};
use engine0::tokenizer::TokenId;

#[test]
fn offsets_map_indices_through_strides_from_the_base() {
    assert_eq!(checked_offset(&[2, 3], &[3, 1], 0, 6, &[1, 2]), Ok(5));
    assert_eq!(checked_offset(&[2, 3], &[1, 2], 4, 10, &[1, 1]), Ok(7));
    assert_eq!(checked_offset(&[], &[], 3, 4, &[]), Ok(3));
}

#[test]
fn offset_errors_come_in_check_order() {
    assert_eq!(
        checked_offset(&[2, 2], &[1], 0, 4, &[0, 0]),
        Err(TensorError::ShapeStrideRankMismatch {
            shape_rank: 2,
            stride_rank: 1
        })
    );
    assert_eq!(
        checked_offset(&[2, 3], &[3, 1], 0, 6, &[1]),
        Err(TensorError::RankMismatch {
            expected: 2,
            actual: 1
        })
    );
    assert_eq!(
        checked_offset(&[2, 3], &[3, 1], 0, 6, &[0, 3]),
        Err(TensorError::IndexOutOfBounds {
            axis: 1,
            index: 3,
            dimension: 3
        })
    );
    assert_eq!(
        checked_offset(&[1], &[1], usize::MAX, usize::MAX, &[0]),
        Err(TensorError::OffsetOverflow)
    );
    assert_eq!(
        checked_offset(&[2, 0], &[usize::MAX, 1], 5, 5, &[1, 0]),
        Err(TensorError::OffsetOverflow)
    );
}

#[test]
fn view_extent_requires_the_last_element_inside_storage() {
    assert_eq!(
        validate_view_extent(&[2, 2], &[100, 1], 0, 4),
        Err(TensorError::InvalidViewExtent {
            required: 102,
            storage_len: 4
        })
    );
    assert_eq!(validate_view_extent(&[2, 2], &[2, 1], 0, 4), Ok(()));
    assert_eq!(validate_view_extent(&[0, 3], &[3, 1], 4, 4), Ok(()));
    assert_eq!(
        validate_view_extent(&[0, 3], &[3, 1], 5, 4),
        Err(TensorError::InvalidViewExtent {
            required: 5,
            storage_len: 4
        })
    );
    assert_eq!(
        validate_view_extent(&[2], &[usize::MAX], 1, 1),
        Err(TensorError::OffsetOverflow)
    );
}

#[test]
fn unravel_inverts_row_major_numbering() {
    assert_eq!(unravel_row_major(5, &[2, 3]), vec![1, 2]);
    assert_eq!(unravel_row_major(0, &[2, 3, 4]), vec![0, 0, 0]);
    assert_eq!(unravel_row_major(23, &[2, 3, 4]), vec![1, 2, 3]);
    assert_eq!(unravel_row_major(7, &[]), Vec::<usize>::new());
}

#[test]
fn tensor_error_messages_report_the_numbers() {
    assert_eq!(
        TensorError::IndexOutOfBounds {
            axis: 1,
            index: 3,
            dimension: 3
        }
        .to_string(),
        "index 3 is outside axis 1 dimension 0..3"
    );
    assert_eq!(
        TensorError::InvalidViewExtent {
            required: 102,
            storage_len: 4
        }
        .to_string(),
        "tensor view requires storage length 102, available 4"
    );
    assert_eq!(
        TensorError::ShapeOverflow.to_string(),
        "tensor element-count or stride arithmetic overflowed"
    );
    assert_eq!(
        TensorError::InvalidSlice {
            axis: 0,
            start: 3,
            end: 1,
            dimension: 4
        }
        .to_string(),
        "slice 3..1 is invalid for axis 0 dimension 4"
    );
}

#[test]
fn block_sizes_must_be_positive() {
    assert_eq!(
        BlockSize::try_new(2, 0, 3),
        Err(KernelError::InvalidBlockSize { m: 2, k: 0, n: 3 })
    );
    assert_eq!(
        BlockSize::try_new(2, 1, 3),
        Ok(BlockSize { m: 2, k: 1, n: 3 })
    );
    assert_eq!(BlockSize::default(), BlockSize { m: 32, k: 32, n: 32 });
}

#[test]
fn kernel_shape_checks_report_each_mismatch() {
    assert_eq!(require_rank("dot", "left", 1, 1), Ok(()));
    assert_eq!(
        require_rank("dot", "left", 2, 1),
        Err(KernelError::RankMismatch {
            operation: "dot",
            operand: "left",
            expected: 1,
            actual: 2
        })
    );
    assert_eq!(require_inner("gemv", 3, 3), Ok(()));
    assert_eq!(
        require_inner("gemv", 3, 4),
        Err(KernelError::InnerDimensionMismatch {
            operation: "gemv",
            left: 3,
            right: 4
        })
    );
    assert_eq!(checked_output_count(3, 4), Ok(12));
    assert_eq!(checked_output_count(0, usize::MAX), Ok(0));
    assert_eq!(
        checked_output_count(usize::MAX, 2),
        Err(KernelError::OutputShapeOverflow {
            rows: usize::MAX,
            columns: 2
        })
    );
    assert_eq!(
        layout_error("matmul_blocked", "left", TensorError::NonContiguous),
        KernelError::UnsupportedLayout {
            operation: "matmul_blocked",
            operand: "left"
        }
    );
    assert_eq!(
        layout_error("matmul_blocked", "left", TensorError::OffsetOverflow),
        KernelError::Tensor(TensorError::OffsetOverflow)
    );
    assert_eq!(
        KernelError::from(TensorError::NonContiguous),
        KernelError::Tensor(TensorError::NonContiguous)
    );
}

#[test]
fn kernel_error_messages_name_operation_and_operand() {
    assert_eq!(
        KernelError::RankMismatch {
            operation: "dot",
            operand: "left",
            expected: 1,
            actual: 2
        }
        .to_string(),
        "dot requires rank-1 left, got rank 2"
    );
    assert_eq!(
        KernelError::InvalidBlockSize { m: 2, k: 0, n: 3 }.to_string(),
        "block dimensions must be positive, got (2, 0, 3)"
    );
    assert_eq!(
        KernelError::OutputShapeOverflow {
            rows: 4,
            columns: 5
        }
        .to_string(),
        "output shape [4, 5] overflows usize"
    );
    assert_eq!(
        KernelError::Tensor(TensorError::NonContiguous).to_string(),
        "tensor error: operation requires canonical row-major contiguous layout"
    );
}

#[test]
fn embedding_tables_and_rows_are_checked() {
    assert_eq!(validate_table(&[4, 3]), Ok((4, 3)));
    assert_eq!(
        validate_table(&[4]),
        Err(EmbeddingError::RankMismatch {
            expected: 2,
            actual: 1
        })
    );
    assert_eq!(validate_table(&[0, 3]), Err(EmbeddingError::EmptyVocabulary));
    assert_eq!(
        validate_table(&[4, 0]),
        Err(EmbeddingError::EmptyModelDimension)
    );
    assert_eq!(checked_token_index(TokenId(3), 4), Ok(3));
    assert_eq!(
        checked_token_index(TokenId(4), 4),
        Err(EmbeddingError::TokenOutOfRange {
            token: TokenId(4),
            vocab_size: 4
        })
    );
    assert_eq!(checked_sequence_count(0, 3), Ok(0));
    assert_eq!(
        checked_sequence_count(usize::MAX, 3),
        Err(EmbeddingError::OutputShapeOverflow {
            tokens: usize::MAX,
            model_dimension: 3
        })
    );
    assert_eq!(
        EmbeddingError::TokenOutOfRange {
            token: TokenId(4),
            vocab_size: 4
        }
        .to_string(),
        "token id 4 is outside embedding vocabulary 0..4"
    );
    assert_eq!(
        EmbeddingError::OutputShapeOverflow {
            tokens: 2,
            model_dimension: 3
        }
        .to_string(),
        "embedding output shape [2,3] overflows"
    );
}

#[test]
fn splitmix_next_u64_matches_reference_outputs() {
    let mut rng = SplitMix64::new(0);
    let values = [rng.next_u64(), rng.next_u64(), rng.next_u64()];
    assert_eq!(
        values,
        [
            0xe220_a839_7b1d_cdafu64,
            0x6e78_9e6a_a1b9_65f4u64,
            0x06c4_5d18_8009_454fu64,
        ]
    );
    assert_eq!(SplitMix64::new(42).next_u64(), 13679457532755275413);
}

#[test]
fn vocabulary_positions_become_token_ids_when_they_fit() {
    assert_eq!(token_id(5), Some(TokenId(5)));
    assert_eq!(token_id(u32::MAX as usize), Some(TokenId(u32::MAX)));
    if usize::BITS > 32 {
        assert_eq!(token_id(u32::MAX as usize + 1), None);
    }
}

#[test]
fn model_parameter_shapes_are_checked_in_order() {
    assert_eq!(check_parameter_count("bias", 4, 4), Ok(()));
    assert_eq!(
        check_parameter_count("bias", 4, 3),
        Err(ParameterError::InvalidParameterCount {
            name: "bias",
            expected: 4,
            actual: 3
        })
    );
    assert_eq!(validate_model_shape(4, 3, 12, 12, 4), Ok(12));
    assert!(matches!(
        validate_model_shape(0, 3, 0, 0, 0),
        Err(ParameterError::InvalidDimensions {
            reason: "vocabulary size must be greater than zero",
            ..
        })
    ));
    assert!(matches!(
        validate_model_shape(4, 0, 0, 0, 4),
        Err(ParameterError::InvalidDimensions {
            reason: "hidden dimension must be greater than zero",
            ..
        })
    ));
    assert_eq!(
        validate_model_shape(usize::MAX, 2, 0, 0, 0),
        Err(ParameterError::DimensionOverflow {
            vocab_size: usize::MAX,
            hidden_dim: 2
        })
    );
    assert_eq!(
        validate_model_shape(4, 3, 11, 12, 4),
        Err(ParameterError::InvalidParameterCount {
            name: "embedding",
            expected: 12,
            actual: 11
        })
    );
    assert_eq!(
        validate_model_shape(4, 3, 12, 13, 4),
        Err(ParameterError::InvalidParameterCount {
            name: "output projection",
            expected: 12,
            actual: 13
        })
    );
    assert_eq!(
        validate_model_shape(4, 3, 12, 12, 5),
        Err(ParameterError::InvalidParameterCount {
            name: "output bias",
            expected: 4,
            actual: 5
        })
    );
}

#[test]
fn block_dimensions_must_all_be_positive() {
    for dimensions in [(0, 1, 1), (1, 0, 1), (1, 1, 0)] {
        assert!(matches!(
            BlockSize::try_new(dimensions.0, dimensions.1, dimensions.2),
            Err(KernelError::InvalidBlockSize { .. })
        ));
    }
}

#[test]
fn normalization_operands_are_checked_in_order() {
    assert_eq!(rms_norm_dimension(&[4], &[4]), Ok(4));
    assert_eq!(
        rms_norm_dimension(&[2, 2], &[4, 1, 1]),
        Err(VectorShapeError::RankMismatch { operand: "input", expected: 1, actual: 2 })
    );
    assert_eq!(
        rms_norm_dimension(&[4], &[]),
        Err(VectorShapeError::RankMismatch { operand: "weight", expected: 1, actual: 0 })
    );
    assert_eq!(
        rms_norm_dimension(&[4], &[3]),
        Err(VectorShapeError::LengthMismatch { input: 4, weight: 3 })
    );
    assert_eq!(rms_norm_dimension(&[0], &[0]), Err(VectorShapeError::EmptyDimension));
}
