//! The errors that reductions, scans, folds and windowed folds report.

use vstd::prelude::*;

verus! {

/// Why an operation on arrays was refused.
#[derive(Clone, Copy, Debug, PartialEq, Eq, Structural)]
pub enum ReduceError {
    /// The function handed to a reduce, scan, unscan or windowed fold does
    /// not take two values and return one; its signature is given.
    SignatureMismatch { args: usize, outputs: usize },
    /// A reduce of an array with no rows and no fill value.
    EmptyReduce,
    /// A scan or unscan of a rank 0 array.
    RankZero,
    /// A fold whose function does not take more values than it returns.
    FoldSignature { args: usize, outputs: usize },
    /// A fold over iterated arrays whose row counts differ.
    FoldLengthMismatch { first: usize, second: usize },
    /// A value was needed from the stack, and the stack was empty.
    EmptyStack,
    /// A window size of zero.
    ZeroWindow,
    /// Adjacent windows asked of a rank 0 array.
    ScalarAdjacency,
    /// Rows of different shapes cannot be joined into one array.
    RowShapeMismatch,
    /// A dyadic pervasive function was given two arrays of different shapes.
    ShapeMismatch,
}

} // verus!
