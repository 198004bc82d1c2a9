//! Generating puzzles of a requested difficulty.

use vstd::prelude::*;
use vstd::std_specs::convert::TryFromSpecImpl;
use crate::board::SudokuBoard;
use crate::completion::values_in_range;
use crate::error::SudokuError;
use crate::grid::grid_valid;
use crate::solver::{is_puzzle, verify_outcome, Verification};

pub mod random_gen;

verus! {

/// How hard a puzzle is, from the easiest to the hardest.
#[derive(Clone, Copy, Debug, PartialEq, Eq, PartialOrd, Structural)]
pub enum Difficulty {
    Easy,
    Medium,
    Hard,
    Evil,
}

impl Difficulty {
    /// The place of a difficulty in the order from `Easy` (0) to `Evil` (3).
    pub open spec fn level(self) -> int {
        match self {
            Difficulty::Easy => 0,
            Difficulty::Medium => 1,
            Difficulty::Hard => 2,
            Difficulty::Evil => 3,
        }
    }

    /// Gives the place of a difficulty in the order from `Easy` (0) to
    /// `Evil` (3).
    pub fn rank(&self) -> (rank: u32)
        ensures
            rank == self.level(),
    {
        match self {
            Difficulty::Easy => 0,
            Difficulty::Medium => 1,
            Difficulty::Hard => 2,
            Difficulty::Evil => 3,
        }
    }

    /// Gives the name of a difficulty.
    pub fn name(&self) -> (name: &'static str)
        ensures
            name@ == match self {
                Difficulty::Easy => "Easy"@,
                Difficulty::Medium => "Medium"@,
                Difficulty::Hard => "Hard"@,
                Difficulty::Evil => "Evil"@,
            },
    {
        match self {
            Difficulty::Easy => "Easy",
            Difficulty::Medium => "Medium",
            Difficulty::Hard => "Hard",
            Difficulty::Evil => "Evil",
        }
    }
}

impl TryFrom<u32> for Difficulty {
    type Error = SudokuError;

    /// Gives the difficulty with the given place in the order, if there is
    /// one.
    fn try_from(x: u32) -> (result: Result<Self, SudokuError>) {
        match x {
            0 => Ok(Difficulty::Easy),
            1 => Ok(Difficulty::Medium),
            2 => Ok(Difficulty::Hard),
            3 => Ok(Difficulty::Evil),
            _ => Err(SudokuError::UnknownDifficulty),
        }
    }
}

impl TryFromSpecImpl<u32> for Difficulty {
    open spec fn obeys_try_from_spec() -> bool {
        true
    }

    open spec fn try_from_spec(x: u32) -> Result<Self, SudokuError> {
        if x == 0 {
            Ok(Difficulty::Easy)
        } else if x == 1 {
            Ok(Difficulty::Medium)
        } else if x == 2 {
            Ok(Difficulty::Hard)
        } else if x == 3 {
            Ok(Difficulty::Evil)
        } else {
            Err(SudokuError::UnknownDifficulty)
        }
    }
}

/// The fewest clues of an easy puzzle.
pub const EASY_CLUES: u32 = 35;

/// The fewest clues of a medium puzzle.
pub const MEDIUM_CLUES: u32 = 28;

/// The most branches of a hard puzzle.
pub const HARD_BRANCHES: u32 = 1;

/// The difficulty of a puzzle with the given number of clues whose solution
/// took the solver the given number of branches: evil with more branches
/// than a hard puzzle has, hard with any branch or with fewer clues than a
/// medium puzzle has, medium with fewer clues than an easy puzzle has, and
/// easy else.
pub open spec fn classify(clues: int, branches: int) -> Difficulty {
    if branches > HARD_BRANCHES {
        Difficulty::Evil
    } else if branches > 0 || clues < MEDIUM_CLUES {
        Difficulty::Hard
    } else if clues < EASY_CLUES {
        Difficulty::Medium
    } else {
        Difficulty::Easy
    }
}

/// A puzzle: a board whose filled cells are its clues, with its difficulty.
pub struct Puzzle {
    pub board: SudokuBoard,
    pub difficulty: Difficulty,
}

/// The filled cells of a board are exactly its clues.
pub open spec fn clues_finalized(board: SudokuBoard) -> bool {
    forall|i: int| 0 <= i < 81 ==> #[trigger] board.clues@[i] == (board.values@[i] > 0)
}

/// What a generator owes for a puzzle: a valid board with values in range
/// and exactly one solution, whose filled cells are exactly its clues.
pub open spec fn is_generated(puzzle: Puzzle) -> bool {
    &&& is_puzzle(puzzle.board)
    &&& clues_finalized(puzzle.board)
    &&& grid_valid(puzzle.board.values@)
    &&& values_in_range(puzzle.board.values@)
}

/// Sudoku puzzle generator.
pub trait Generator {
    /// Generates a puzzle: a board with exactly one solution whose filled
    /// cells are marked as clues. Fails if no such board of the requested
    /// difficulty was found, or if no random numbers could be had.
    fn run(&mut self) -> (result: Result<Puzzle, SudokuError>)
        ensures
            match result {
                Ok(puzzle) => is_generated(puzzle),
                Err(e) => e == SudokuError::DifficultyUnattainable || e
                    == SudokuError::EntropyUnavailable,
            },
    ;
}

/// Every solver reports a number of branches for every puzzle that a
/// generator gives.
pub proof fn lemma_generated_puzzle_verifies(puzzle: Puzzle, verdict: Verification)
    requires
        is_generated(puzzle),
        verify_outcome(puzzle.board, verdict),
    ensures
        verdict is ValidWithBranches,
{
}

} // verus!
