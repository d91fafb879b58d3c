//! The errors that the solvers report.

use vstd::prelude::*;

verus! {

/// Malformed input text.
#[derive(Debug, Clone, Copy, PartialEq, Eq, Structural)]
pub enum ParseError {
    /// The row with this index is not as long as the first row.
    RaggedRow(usize),
    /// The character at this row and column is not one the format knows.
    UnexpectedChar(usize, usize),
    /// The table has more cells than can be numbered.
    TooLarge,
    /// The text does not follow the format.
    Malformed,
}

/// A well-formed input that describes no valid search.
#[derive(Debug, Clone, Copy, PartialEq, Eq, Structural)]
pub enum ConfigurationError {
    /// The start state with this key is not a state of the space.
    InvalidStart(u64),
    /// The goal state with this key is not a state of the space.
    InvalidGoal(u64),
    /// The position at this row and column lies outside the grid.
    OutOfGrid(usize, usize),
    /// The board has a cell that is no cell, a depth that is none, or two entities on one cell.
    InvalidBoard,
    /// The board has more entities of this kind, numbered from 1, than the kind has home slots.
    TooManyOfKind(u8),
    /// A size or a count does not fit in 64 bits.
    Overflow,
    /// A rope of so many knots has no head and tail of its own.
    TooFewKnots(usize),
    /// The letter names no kind of entity.
    UnknownKind(char),
}

/// Why a puzzle has no answer.
#[derive(Debug, Clone, Copy, PartialEq, Eq, Structural)]
pub enum PuzzleError {
    /// No input text was given.
    MissingInput,
    /// The input text is malformed.
    Parse(ParseError),
    /// The input describes no valid search.
    Configuration(ConfigurationError),
    /// A number on the way to the answer does not fit its type.
    Overflow,
    /// The input is longer, or holds greater numbers, than the solver takes.
    TooLarge,
}

} // verus!
