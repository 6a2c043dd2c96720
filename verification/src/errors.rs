use vstd::prelude::*;

verus! {

/// Failure of constructing or stepping a coordinate pair.
#[derive(Clone, Copy, Debug, PartialEq, Eq, Structural)]
pub enum PositionError {
    /// A coordinate handed to the validating factory lies outside the grid.
    InvalidCoordinate,
    /// One step in a fixed direction left the grid; scanning code reads this
    /// as "ray exhausted", not as a caller error.
    OffBoard,
}

/// Failure of a legality query or a placement.
#[derive(Clone, Copy, Debug, PartialEq, Eq, Structural)]
pub enum BoardError {
    /// The target cell already holds a disk.
    OccupiedCell,
    /// No direction holds a sandwiched run, so nothing would be flipped.
    NoDiskToFlip,
}

/// Failure of reading a board from its textual layout.
#[derive(Clone, Copy, Debug, PartialEq, Eq, Structural)]
pub enum ParseError {
    /// A symbol outside `{o, x, _}` occurs among the first 64 characters.
    InvalidChar,
    /// Fewer than 64 characters were supplied.
    SourceTooShort,
}

} // verus!
