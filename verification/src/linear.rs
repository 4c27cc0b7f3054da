//! Shape checks and typed errors of the linear-algebra kernels.
//!
//! The kernels accept any valid read-only view for their reference paths and
//! only canonical row-major operands for the blocked path; these checks decide
//! which operands are admitted and report why others are not.

use vstd::prelude::*;

use crate::tensor::{element_count, tensor_error_message, TensorError};
use crate::text::{decimal, push_decimal};

verus! {

/// One positive tile extent for each matrix-multiplication axis.
#[derive(Debug, Clone, Copy, PartialEq, Eq, Structural)]
pub struct BlockSize {
    pub m: usize,
    pub k: usize,
    pub n: usize,
}

impl BlockSize {
    pub fn try_new(m: usize, k: usize, n: usize) -> (r: Result<Self, KernelError>)
        ensures
            m == 0 || k == 0 || n == 0 ==> r == Err::<BlockSize, KernelError>(
                KernelError::InvalidBlockSize { m, k, n },
            ),
            !(m == 0 || k == 0 || n == 0) ==> r == Ok::<BlockSize, KernelError>(
                BlockSize { m, k, n },
            ),
    {
        if m == 0 || k == 0 || n == 0 {
            return Err(KernelError::InvalidBlockSize { m, k, n });
        }
        Ok(BlockSize { m, k, n })
    }
}

impl Default for BlockSize {
    /// Tiles of 32 along every axis.
    fn default() -> (block: Self)
        ensures
            block == (BlockSize { m: 32, k: 32, n: 32 }),
    {
        BlockSize { m: 32, k: 32, n: 32 }
    }
}

#[derive(Debug, Clone, PartialEq, Eq)]
pub enum KernelError {
    RankMismatch { operation: &'static str, operand: &'static str, expected: usize, actual: usize },
    LengthMismatch { operation: &'static str, left: usize, right: usize },
    InnerDimensionMismatch { operation: &'static str, left: usize, right: usize },
    UnsupportedLayout { operation: &'static str, operand: &'static str },
    InvalidBlockSize { m: usize, k: usize, n: usize },
    OutputShapeOverflow { rows: usize, columns: usize },
    Tensor(TensorError),
}

/// An operand of `operation` must have rank `expected`.
pub fn require_rank(
    operation: &'static str,
    operand: &'static str,
    rank: usize,
    expected: usize,
) -> (r: Result<(), KernelError>)
    ensures
        rank == expected ==> r is Ok,
        rank != expected ==> r == Err::<(), KernelError>(
            KernelError::RankMismatch { operation, operand, expected, actual: rank },
        ),
{
    if rank == expected {
        Ok(())
    } else {
        Err(KernelError::RankMismatch { operation, operand, expected, actual: rank })
    }
}

/// The inner dimensions of a product must agree.
pub fn require_inner(operation: &'static str, left: usize, right: usize) -> (r: Result<
    (),
    KernelError,
>)
    ensures
        left == right ==> r is Ok,
        left != right ==> r == Err::<(), KernelError>(
            KernelError::InnerDimensionMismatch { operation, left, right },
        ),
{
    if left == right {
        Ok(())
    } else {
        Err(KernelError::InnerDimensionMismatch { operation, left, right })
    }
}

/// The element count of a `rows` by `columns` output, checked before any
/// allocation.
pub fn checked_output_count(rows: usize, columns: usize) -> (r: Result<usize, KernelError>)
    ensures
        match element_count(seq![rows, columns]) {
            Ok(count) => r == Ok::<usize, KernelError>(count),
            Err(_) => r == Err::<usize, KernelError>(
                KernelError::OutputShapeOverflow { rows, columns },
            ),
        },
{
    let shape = [rows, columns];
    assert(shape@ =~= seq![rows, columns]);
    match crate::tensor::checked_element_count(&shape) {
        Ok(count) => Ok(count),
        Err(_) => Err(KernelError::OutputShapeOverflow { rows, columns }),
    }
}

/// A layout failure of an operand: a non-contiguous operand is an unsupported
/// layout for the operation, any other tensor failure passes through.
pub fn layout_error(
    operation: &'static str,
    operand: &'static str,
    error: TensorError,
) -> (r: KernelError)
    ensures
        error == TensorError::NonContiguous ==> r == (KernelError::UnsupportedLayout {
            operation,
            operand,
        }),
        error != TensorError::NonContiguous ==> r == KernelError::Tensor(error),
{
    match error {
        TensorError::NonContiguous => KernelError::UnsupportedLayout { operation, operand },
        other => KernelError::Tensor(other),
    }
}

/// The human-readable message of a kernel error.
pub open spec fn kernel_error_message(error: KernelError) -> Seq<char> {
    match error {
        KernelError::RankMismatch { operation, operand, expected, actual } => operation@
            + " requires rank-"@ + decimal(expected as nat) + " "@ + operand@ + ", got rank "@
            + decimal(actual as nat),
        KernelError::LengthMismatch { operation, left, right } => operation@
            + " requires equal vector lengths, got "@ + decimal(left as nat) + " and "@ + decimal(
            right as nat,
        ),
        KernelError::InnerDimensionMismatch { operation, left, right } => operation@
            + " inner dimensions differ: left K="@ + decimal(left as nat) + ", right K="@
            + decimal(right as nat),
        KernelError::UnsupportedLayout { operation, operand } => operation@
            + " requires canonical row-major "@ + operand@ + " storage"@,
        KernelError::InvalidBlockSize { m, k, n } => "block dimensions must be positive, got ("@
            + decimal(m as nat) + ", "@ + decimal(k as nat) + ", "@ + decimal(n as nat) + ")"@,
        KernelError::OutputShapeOverflow { rows, columns } => "output shape ["@ + decimal(
            rows as nat,
        ) + ", "@ + decimal(columns as nat) + "] overflows usize"@,
        KernelError::Tensor(error) => "tensor error: "@ + tensor_error_message(error),
    }
}

impl KernelError {
    /// The human-readable message of this error.
    pub fn to_string(&self) -> (message: String)
        ensures
            message@ == kernel_error_message(*self),
    {
        let mut m = String::new();
        match *self {
            KernelError::RankMismatch { operation, operand, expected, actual } => {
                m.append(operation);
                m.append(" requires rank-");
                push_decimal(&mut m, expected as u64);
                m.append(" ");
                m.append(operand);
                m.append(", got rank ");
                push_decimal(&mut m, actual as u64);
            },
            KernelError::LengthMismatch { operation, left, right } => {
                m.append(operation);
                m.append(" requires equal vector lengths, got ");
                push_decimal(&mut m, left as u64);
                m.append(" and ");
                push_decimal(&mut m, right as u64);
            },
            KernelError::InnerDimensionMismatch { operation, left, right } => {
                m.append(operation);
                m.append(" inner dimensions differ: left K=");
                push_decimal(&mut m, left as u64);
                m.append(", right K=");
                push_decimal(&mut m, right as u64);
            },
            KernelError::UnsupportedLayout { operation, operand } => {
                m.append(operation);
                m.append(" requires canonical row-major ");
                m.append(operand);
                m.append(" storage");
            },
            KernelError::InvalidBlockSize { m: bm, k, n } => {
                m.append("block dimensions must be positive, got (");
                push_decimal(&mut m, bm as u64);
                m.append(", ");
                push_decimal(&mut m, k as u64);
                m.append(", ");
                push_decimal(&mut m, n as u64);
                m.append(")");
            },
            KernelError::OutputShapeOverflow { rows, columns } => {
                m.append("output shape [");
                push_decimal(&mut m, rows as u64);
                m.append(", ");
                push_decimal(&mut m, columns as u64);
                m.append("] overflows usize");
            },
            KernelError::Tensor(error) => {
                m.append("tensor error: ");
                let inner = error.to_string();
                m.append(inner.as_str());
            },
        }
        assert(m@ =~= kernel_error_message(*self));
        m
    }
}

impl From<TensorError> for KernelError {
    fn from(error: TensorError) -> (r: Self)
        ensures
            r == KernelError::Tensor(error),
    {
        KernelError::Tensor(error)
    }
}

impl vstd::std_specs::convert::FromSpecImpl<TensorError> for KernelError {
    open spec fn obeys_from_spec() -> bool {
        true
    }

    open spec fn from_spec(error: TensorError) -> KernelError {
        KernelError::Tensor(error)
    }
}

} // verus!
