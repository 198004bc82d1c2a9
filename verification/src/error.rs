//! The ways in which placing, solving and generating can fail.

use vstd::prelude::*;

verus! {

/// Failure of an operation on a board, of a solver or of a generator.
#[derive(Clone, Copy, Debug, PartialEq, Eq, Structural)]
pub enum SudokuError {
    /// The board already holds a value twice in a row, column or box.
    InvalidBoard,
    /// The search space was exhausted without reaching a filled board.
    NoSolutionFound,
    /// The search placed more values than the caller allowed.
    IterationLimitExceeded,
    /// A placement named a row or column past 8, or a value past 9.
    PlacementOutOfRange,
    /// A placement named a cell that is marked as a clue.
    PlacementOnClue,
    /// The generator used up its attempts without reaching the difficulty
    /// that was asked for.
    DifficultyUnattainable,
    /// A number that names no difficulty was given for one.
    UnknownDifficulty,
    /// The operating system gave the generator no random bytes for a seed.
    EntropyUnavailable,
}

} // verus!
