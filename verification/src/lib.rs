//! A minimal dense N-dimensional array (tensor) library.
//!
//! The core is a stride-based array engine: row-major stride computation,
//! NumPy-style broadcasting, and translation between flat buffer offsets and
//! multi-dimensional coordinates.  Element arithmetic and the matrix-multiply
//! kernel are supplied by the caller, so the engine itself is fully verified.

pub mod array;
pub mod conversions;
pub mod errors;
pub mod operations;
pub mod utils;
