//! Traceback for Smith-Waterman style pairwise alignment.
//!
//! A [`TraceMatrix`] records, for every cell of the dynamic-programming matrix,
//! which predecessor produced the cell's optimal score. [`TraceMatrix::trace`]
//! walks these decisions backwards from a chosen end cell and reports the
//! alignment as run-length encoded steps together with the consumed range of
//! each sequence.
//!
//! - [`ops`]: alignment operations, steps and decision tags;
//! - [`runs`]: splitting runs into steps, and the encoding of a path;
//! - [`grid`]: the mathematical model of a matrix and of its paths;
//! - [`matrix`]: the matrix itself and the traceback.

pub mod grid;
pub mod matrix;
pub mod ops;
pub mod runs;

pub use grid::Grid;
pub use matrix::{TraceMatrix, TracedAlignment};
pub use ops::{AlignmentOp, AlignmentStep, Trace};
pub use runs::RunningTrace;
