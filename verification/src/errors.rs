use vstd::prelude::*;

verus! {

/// Every failure an array operation can report.  All errors are detected
/// before any state is changed: an operation either succeeds completely or
/// returns one of these and leaves its operands untouched.
#[derive(Clone, Copy, Debug, PartialEq, Eq)]
pub enum ArrayError {
    /// A constructor was given a zero-length shape.
    EmptyShape,
    /// The number of coordinates differs from the array's rank.
    RankMismatch,
    /// The flat offset computed from the coordinates lies outside the buffer.
    IndexOutOfBounds,
    /// A reshape would change the total element count.
    SizeMismatch,
    /// Two shapes are not broadcast-compatible, or the inner dimensions of a
    /// matrix product disagree.
    ShapeMismatch,
    /// A nested sequence is not rectangular.
    RaggedShape,
}

} // verus!
