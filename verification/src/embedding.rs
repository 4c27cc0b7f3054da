//! Checks of embedding-table lookups: the table's shape, the token row, and
//! the size of a looked-up sequence.
//!
//! An embedding table is a rank-2 `[vocabulary, model dimension]` view; a
//! token id selects a row. These checks decide whether a lookup is defined.

use vstd::prelude::*;

use crate::tensor::{element_count, tensor_error_message, TensorError};
use crate::text::{decimal, push_decimal};
use crate::tokenizer::TokenId;

verus! {

#[derive(Debug, Clone, PartialEq, Eq)]
pub enum EmbeddingError {
    RankMismatch { expected: usize, actual: usize },
    EmptyVocabulary,
    EmptyModelDimension,
    TokenOutOfRange { token: TokenId, vocab_size: usize },
    OutputShapeOverflow { tokens: usize, model_dimension: usize },
    Tensor(TensorError),
}

/// The vocabulary size and model dimension of a table of `shape`, or why it
/// is not a usable table.
pub open spec fn table_dimensions(shape: Seq<usize>) -> Result<(usize, usize), EmbeddingError> {
    if shape.len() != 2 {
        Err(EmbeddingError::RankMismatch { expected: 2, actual: shape.len() as usize })
    } else if shape[0] == 0 {
        Err(EmbeddingError::EmptyVocabulary)
    } else if shape[1] == 0 {
        Err(EmbeddingError::EmptyModelDimension)
    } else {
        Ok((shape[0], shape[1]))
    }
}

/// A table must be a rank-2 view with a positive vocabulary and model
/// dimension.
pub fn validate_table(shape: &[usize]) -> (r: Result<(usize, usize), EmbeddingError>)
    ensures
        r == table_dimensions(shape@),
{
    if shape.len() != 2 {
        return Err(EmbeddingError::RankMismatch { expected: 2, actual: shape.len() });
    }
    let vocab_size = shape[0];
    let model_dimension = shape[1];
    if vocab_size == 0 {
        return Err(EmbeddingError::EmptyVocabulary);
    }
    if model_dimension == 0 {
        return Err(EmbeddingError::EmptyModelDimension);
    }
    Ok((vocab_size, model_dimension))
}

/// The table row of `token`: its id, when it lies inside the vocabulary.
pub fn checked_token_index(token: TokenId, vocab_size: usize) -> (r: Result<usize, EmbeddingError>)
    ensures
        token.0 < vocab_size ==> r == Ok::<usize, EmbeddingError>(token.0 as usize),
        token.0 >= vocab_size ==> r == Err::<usize, EmbeddingError>(
            EmbeddingError::TokenOutOfRange { token, vocab_size },
        ),
{
    let row = token.0 as usize;
    if row >= vocab_size {
        Err(EmbeddingError::TokenOutOfRange { token, vocab_size })
    } else {
        Ok(row)
    }
}

/// The element count of a `[tokens, model_dimension]` lookup result, checked
/// before any allocation.
pub fn checked_sequence_count(tokens: usize, model_dimension: usize) -> (r: Result<
    usize,
    EmbeddingError,
>)
    ensures
        match element_count(seq![tokens, model_dimension]) {
            Ok(count) => r == Ok::<usize, EmbeddingError>(count),
            Err(_) => r == Err::<usize, EmbeddingError>(
                EmbeddingError::OutputShapeOverflow { tokens, model_dimension },
            ),
        },
{
    let shape = [tokens, model_dimension];
    assert(shape@ =~= seq![tokens, model_dimension]);
    match crate::tensor::checked_element_count(&shape) {
        Ok(count) => Ok(count),
        Err(_) => Err(EmbeddingError::OutputShapeOverflow { tokens, model_dimension }),
    }
}

/// The human-readable message of an embedding error.
pub open spec fn embedding_error_message(error: EmbeddingError) -> Seq<char> {
    match error {
        EmbeddingError::RankMismatch { expected, actual } =>
            "embedding table rank mismatch: expected "@ + decimal(expected as nat) + ", got "@
            + decimal(actual as nat),
        EmbeddingError::EmptyVocabulary => "embedding vocabulary must not be empty"@,
        EmbeddingError::EmptyModelDimension => "embedding model dimension must not be empty"@,
        EmbeddingError::TokenOutOfRange { token, vocab_size } => "token id "@ + decimal(
            token.0 as nat,
        ) + " is outside embedding vocabulary 0.."@ + decimal(vocab_size as nat),
        EmbeddingError::OutputShapeOverflow { tokens, model_dimension } =>
            "embedding output shape ["@ + decimal(tokens as nat) + ","@ + decimal(
            model_dimension as nat,
        ) + "] overflows"@,
        EmbeddingError::Tensor(error) => "tensor error: "@ + tensor_error_message(error),
    }
}

impl EmbeddingError {
    /// The human-readable message of this error.
    pub fn to_string(&self) -> (message: String)
        ensures
            message@ == embedding_error_message(*self),
    {
        let mut m = String::new();
        match *self {
            EmbeddingError::RankMismatch { expected, actual } => {
                m.append("embedding table rank mismatch: expected ");
                push_decimal(&mut m, expected as u64);
                m.append(", got ");
                push_decimal(&mut m, actual as u64);
            },
            EmbeddingError::EmptyVocabulary => {
                m.append("embedding vocabulary must not be empty");
            },
            EmbeddingError::EmptyModelDimension => {
                m.append("embedding model dimension must not be empty");
            },
            EmbeddingError::TokenOutOfRange { token, vocab_size } => {
                m.append("token id ");
                push_decimal(&mut m, token.0 as u64);
                m.append(" is outside embedding vocabulary 0..");
                push_decimal(&mut m, vocab_size as u64);
            },
            EmbeddingError::OutputShapeOverflow { tokens, model_dimension } => {
                m.append("embedding output shape [");
                push_decimal(&mut m, tokens as u64);
                m.append(",");
                push_decimal(&mut m, model_dimension as u64);
                m.append("] overflows");
            },
            EmbeddingError::Tensor(error) => {
                m.append("tensor error: ");
                let inner = error.to_string();
                m.append(inner.as_str());
            },
        }
        assert(m@ =~= embedding_error_message(*self));
        m
    }
}

impl From<TensorError> for EmbeddingError {
    fn from(error: TensorError) -> (r: Self)
        ensures
            r == EmbeddingError::Tensor(error),
    {
        EmbeddingError::Tensor(error)
    }
}

impl vstd::std_specs::convert::FromSpecImpl<TensorError> for EmbeddingError {
    open spec fn obeys_from_spec() -> bool {
        true
    }

    open spec fn from_spec(error: TensorError) -> EmbeddingError {
        EmbeddingError::Tensor(error)
    }
}

} // verus!
