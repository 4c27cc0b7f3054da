//! Shape checks of RMS normalisation.
//!
//! The normalisation itself squares and scales `f32` values; what is decided
//! here is which operands it accepts: two vectors of one, non-zero length.

use vstd::prelude::*;

verus! {

/// Why the operands of a normalisation have the wrong shape.
#[derive(Debug, Clone, Copy, PartialEq, Eq)]
pub enum VectorShapeError {
    RankMismatch { operand: &'static str, expected: usize, actual: usize },
    LengthMismatch { input: usize, weight: usize },
    EmptyDimension,
}

/// The dimension shared by a normalisation's input and weight vectors. The
/// input's rank is checked first, then the weight's, then that the lengths
/// agree, and last that they are not zero.
pub fn rms_norm_dimension(input_shape: &[usize], weight_shape: &[usize]) -> (r: Result<
    usize,
    VectorShapeError,
>)
    ensures
        input_shape@.len() != 1 ==> (r matches Err(
            VectorShapeError::RankMismatch { operand, expected, actual },
        ) && operand@ == "input"@ && expected == 1 && actual == input_shape@.len()),
        input_shape@.len() == 1 && weight_shape@.len() != 1 ==> (r matches Err(
            VectorShapeError::RankMismatch { operand, expected, actual },
        ) && operand@ == "weight"@ && expected == 1 && actual == weight_shape@.len()),
        input_shape@.len() == 1 && weight_shape@.len() == 1 && input_shape@[0] != weight_shape@[0]
            ==> r == Err::<usize, VectorShapeError>(
            VectorShapeError::LengthMismatch { input: input_shape@[0], weight: weight_shape@[0] },
        ),
        input_shape@.len() == 1 && weight_shape@.len() == 1 && input_shape@[0] == weight_shape@[0]
            ==> (if input_shape@[0] == 0 {
            r == Err::<usize, VectorShapeError>(VectorShapeError::EmptyDimension)
        } else {
            r == Ok::<usize, VectorShapeError>(input_shape@[0])
        }),
{
    if input_shape.len() != 1 {
        return Err(
            VectorShapeError::RankMismatch { operand: "input", expected: 1, actual: input_shape.len() },
        );
    }
    if weight_shape.len() != 1 {
        return Err(
            VectorShapeError::RankMismatch {
                operand: "weight",
                expected: 1,
                actual: weight_shape.len(),
            },
        );
    }
    let dimension = input_shape[0];
    if dimension != weight_shape[0] {
        return Err(VectorShapeError::LengthMismatch { input: dimension, weight: weight_shape[0] });
    }
    if dimension == 0 {
        return Err(VectorShapeError::EmptyDimension);
    }
    Ok(dimension)
}

} // verus!
