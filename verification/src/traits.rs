//! What every puzzle of the first fourteen days offers.

use crate::errors::PuzzleError;
use vstd::prelude::*;

verus! {

/// A puzzle of two parts, each answered from the puzzle's input text.
pub trait AdventOfCode {
    /// The day of the puzzle.
    fn day(&self) -> u8;

    /// The answer of the first part.
    fn run1(&mut self, input: Option<String>) -> Result<String, PuzzleError>;

    /// The answer of the second part.
    fn run2(&mut self, input: Option<String>) -> Result<String, PuzzleError>;
}

} // verus!
