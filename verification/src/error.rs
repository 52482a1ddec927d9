use vstd::prelude::*;

verus! {

/// Errors reported by tensor operations.
#[derive(Debug)]
pub enum TorshError {
    /// Two operands (or an operand and a requested layout) disagree in shape.
    ShapeMismatch { expected: Vec<usize>, got: Vec<usize> },
    /// An argument was outside the values the operation accepts.
    InvalidArgument(String),
    /// The operation cannot be carried out on the given tensor.
    InvalidOperation(String),
    /// A computation produced no usable result (it diverged, for instance).
    ComputeError(String),
}

/// `e` is a shape mismatch that reports `expected` and `got`.
pub open spec fn is_shape_mismatch(e: TorshError, expected: Seq<usize>, got: Seq<usize>) -> bool {
    e matches TorshError::ShapeMismatch { expected: x, got: y } && x@ == expected && y@ == got
}

/// `e` is an invalid-argument error.
pub open spec fn is_invalid_argument(e: TorshError) -> bool {
    e is InvalidArgument
}

/// `e` is an invalid-operation error.
pub open spec fn is_invalid_operation(e: TorshError) -> bool {
    e is InvalidOperation
}

} // verus!
