//! Shape checks of a model's parameter arrays, made before any value is read.

use vstd::prelude::*;

verus! {

/// Why a set of parameter arrays cannot form a model.
#[derive(Debug, Clone, Copy, PartialEq, Eq)]
pub enum ParameterError {
    InvalidDimensions { vocab_size: usize, hidden_dim: usize, reason: &'static str },
    DimensionOverflow { vocab_size: usize, hidden_dim: usize },
    InvalidParameterCount { name: &'static str, expected: usize, actual: usize },
}

/// A parameter array named `name` must hold exactly `expected` values.
pub fn check_parameter_count(name: &'static str, expected: usize, actual: usize) -> (r: Result<
    (),
    ParameterError,
>)
    ensures
        actual == expected ==> r is Ok,
        actual != expected ==> r == Err::<(), ParameterError>(
            ParameterError::InvalidParameterCount { name, expected, actual },
        ),
{
    if actual == expected {
        Ok(())
    } else {
        Err(ParameterError::InvalidParameterCount { name, expected, actual })
    }
}

/// The checks of a vocabulary-by-hidden model, in order: both dimensions are
/// positive, their product fits, the embedding and output projection hold
/// one value per cell, and the bias one per vocabulary entry. On success the
/// result is the number of cells of each matrix.
pub fn validate_model_shape(
    vocab_size: usize,
    hidden_dim: usize,
    embedding_len: usize,
    output_weight_len: usize,
    output_bias_len: usize,
) -> (r: Result<usize, ParameterError>)
    ensures
        vocab_size == 0 ==> (r matches Err(ParameterError::InvalidDimensions { reason, .. })
            && reason@ == "vocabulary size must be greater than zero"@),
        vocab_size != 0 && hidden_dim == 0 ==> (r matches Err(
            ParameterError::InvalidDimensions { reason, .. },
        ) && reason@ == "hidden dimension must be greater than zero"@),
        r matches Err(ParameterError::InvalidDimensions { vocab_size: v, hidden_dim: h, .. })
            ==> v == vocab_size && h == hidden_dim,
        vocab_size != 0 && hidden_dim != 0 ==> {
            let cells = vocab_size * hidden_dim;
            &&& cells > usize::MAX ==> r == Err::<usize, ParameterError>(
                ParameterError::DimensionOverflow { vocab_size, hidden_dim },
            )
            &&& cells <= usize::MAX && embedding_len != cells ==> r == Err::<usize, ParameterError>(
                ParameterError::InvalidParameterCount {
                    name: "embedding",
                    expected: cells as usize,
                    actual: embedding_len,
                },
            )
            &&& cells <= usize::MAX && embedding_len == cells && output_weight_len != cells ==> r
                == Err::<usize, ParameterError>(
                ParameterError::InvalidParameterCount {
                    name: "output projection",
                    expected: cells as usize,
                    actual: output_weight_len,
                },
            )
            &&& cells <= usize::MAX && embedding_len == cells && output_weight_len == cells
                && output_bias_len != vocab_size ==> r == Err::<usize, ParameterError>(
                ParameterError::InvalidParameterCount {
                    name: "output bias",
                    expected: vocab_size,
                    actual: output_bias_len,
                },
            )
            &&& cells <= usize::MAX && embedding_len == cells && output_weight_len == cells
                && output_bias_len == vocab_size ==> r == Ok::<usize, ParameterError>(
                cells as usize,
            )
        },
{
    if vocab_size == 0 {
        return Err(
            ParameterError::InvalidDimensions {
                vocab_size,
                hidden_dim,
                reason: "vocabulary size must be greater than zero",
            },
        );
    }
    if hidden_dim == 0 {
        return Err(
            ParameterError::InvalidDimensions {
                vocab_size,
                hidden_dim,
                reason: "hidden dimension must be greater than zero",
            },
        );
    }
    let cells = match vocab_size.checked_mul(hidden_dim) {
        Some(cells) => cells,
        None => {
            return Err(ParameterError::DimensionOverflow { vocab_size, hidden_dim });
        },
    };
    match check_parameter_count("embedding", cells, embedding_len) {
        Ok(()) => {},
        Err(e) => {
            return Err(e);
        },
    }
    match check_parameter_count("output projection", cells, output_weight_len) {
        Ok(()) => {},
        Err(e) => {
            return Err(e);
        },
    }
    match check_parameter_count("output bias", vocab_size, output_bias_len) {
        Ok(()) => {},
        Err(e) => {
            return Err(e);
        },
    }
    Ok(cells)
}

} // verus!
