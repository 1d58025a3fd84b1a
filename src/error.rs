use vstd::prelude::*;

verus! {

/// Every way an operation of this library can fail.
#[derive(Debug, Clone, Copy, PartialEq, Eq, Structural)]
pub enum MatrixError {
    /// A product of `a` and `b` was asked for with `a.cols != b.rows`:
    /// carries `(a.cols, b.rows)`.
    DimensionMismatch(usize, usize),
    /// A dot product of vectors of different lengths: carries both lengths.
    LengthMismatch(usize, usize),
    /// A worker's reply channel closed without delivering a value.
    WorkerUnavailable,
    /// A matrix was built from a buffer whose length is not `rows * cols`:
    /// carries `(len, rows, cols)`.
    BufferSizeMismatch(usize, usize, usize),
    /// A reply names an output cell outside the result buffer.
    IndexOutOfRange(usize),
    /// An intermediate product or sum does not fit in an `i64`.
    Overflow,
}

} // verus!
