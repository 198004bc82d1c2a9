//! Solving boards and checking that a board has exactly one solution.
//!
//! This module holds what every solver owes: the trait [`Solver`] with the
//! contracts of its methods. [`least_options`] holds the solver of the
//! crate, and [`options`] its constraint index. The proofs are spread over
//! five modules. [`search`] describes the state of the backtracking search
//! and shows that the search loses no solution and comes to an end.
//! [`choice`] says which placement the strategy takes on a grid, [`sweep`]
//! shows that the sweep over the index takes just that one, [`runs`] shows
//! that the strategy has one outcome on every board, and [`cost`] counts
//! the placements that the search makes and tells whether it comes to an
//! empty cell that is a clue.

use vstd::prelude::*;
use crate::board::{clue_mask, clue_values, Placement, SudokuBoard};
use crate::completion::{
    extends, has_completion, has_unique_completion, is_completion, is_only_completion,
    lemma_completion_needs_valid, values_in_range,
};
use crate::error::SudokuError;
use crate::grid::{grid_filled, grid_valid, has_empty_clue, lemma_cell_units};
use crate::solver::search::{
    cell_of, empty_count, in_range, lemma_filled_count_full, lemma_placed_all_len, placed_all,
};

pub mod choice;
pub mod cost;
pub mod least_options;
pub mod options;
pub mod runs;
pub mod search;
pub mod sweep;

verus! {

/// Solution of a Sudoku puzzle.
#[derive(Debug)]
pub struct Solution {
    /// The values that were placed, in the order in which the solver placed
    /// them.
    pub placements: Vec<Placement>,
    /// How many placements the solver had left to try in place of the ones
    /// it made, summed over the placements.
    pub branches: u32,
}

impl Solution {
    /// The board accepts every placement of the solution: each is in range
    /// and names no clue.
    pub open spec fn fits(&self, board: SudokuBoard) -> bool {
        forall|k: int|
            0 <= k < self.placements@.len() ==> board.place_result(
                #[trigger] self.placements@[k],
            ) is Ok
    }

    /// Makes the placements of the solution on the board, one after the
    /// other, if the board accepts them all. Else the board stays as it is,
    /// and the error is that of the first placement that it refuses.
    pub fn write_to(&self, board: &mut SudokuBoard) -> (result: Result<(), SudokuError>)
        ensures
            final(board).clues == old(board).clues,
            result is Ok <==> self.fits(*old(board)),
            result is Ok ==> final(board).values@ == placed_all(
                old(board).values@,
                self.placements@,
            ),
            result matches Err(e) ==> *final(board) == *old(board) && exists|k: int|
                0 <= k < self.placements@.len() && old(board).place_result(
                    #[trigger] self.placements@[k],
                ) == Err::<(), SudokuError>(e) && forall|j: int|
                    0 <= j < k ==> old(board).place_result(#[trigger] self.placements@[j]) is Ok,
    {
        let mut filled = board.clone();
        let mut k: usize = 0;
        while k < self.placements.len()
            invariant
                k <= self.placements@.len(),
                *board == *old(board),
                filled.clues == board.clues,
                filled.values@ == placed_all(board.values@, self.placements@.take(k as int)),
                forall|j: int|
                    0 <= j < k ==> board.place_result(#[trigger] self.placements@[j]) is Ok,
            decreases self.placements@.len() - k,
        {
            proof {
                assert(self.placements@.take(k + 1).drop_last() =~= self.placements@.take(
                    k as int,
                ));
            }
            filled.place(self.placements[k])?;
            k += 1;
        }
        proof {
            assert(self.placements@.take(k as int) =~= self.placements@);
        }
        *board = filled;
        Ok(())
    }
}

/// What a solver found out about a puzzle.
#[derive(Clone, Copy, Debug, PartialEq, Eq, PartialOrd, Structural)]
pub enum Verification {
    /// The puzzle has no solution or more than one.
    NotValid,
    /// The puzzle has exactly one solution; the number tells how many
    /// placements the solver had left to try in place of the ones that led
    /// to it.
    ValidWithBranches(u32),
}

/// The boards that a solver without a bound on its work is sure to solve:
/// valid boards that some solved grid completes, with no empty clue cell.
pub open spec fn is_solvable(board: SudokuBoard) -> bool {
    &&& grid_valid(board.values@)
    &&& has_completion(board.values@)
    &&& !has_empty_clue(board.values@, board.clues@)
}

/// The boards that are puzzles: no clue cell is empty, and exactly one
/// solved grid completes them.
pub open spec fn is_puzzle(board: SudokuBoard) -> bool {
    &&& !has_empty_clue(board.values@, board.clues@)
    &&& has_unique_completion(board.values@)
}

/// What a solver owes for a board: a solution, or an error that says why
/// there is none. The board itself stays as it was; the solved grid is the
/// board with the placements of the solution made on it.
///
/// A solution is owed for every board that is filled and valid already,
/// and, if the work is not bounded, for every solvable board.
pub open spec fn solve_outcome(
    before: SudokuBoard,
    after: SudokuBoard,
    max_iterations: Option<u32>,
    result: Result<Solution, SudokuError>,
) -> bool {
    &&& after == before
    &&& grid_filled(before.values@) && grid_valid(before.values@) ==> result is Ok
    &&& is_solvable(before) && max_iterations is None ==> result is Ok
    &&& match result {
        Ok(solution) => {
            let solved = placed_all(before.values@, solution.placements@);
            &&& grid_filled(solved)
            &&& grid_valid(solved)
            &&& extends(solved, before.values@)
            &&& !has_empty_clue(before.values@, before.clues@)
            &&& forall|i: int|
                0 <= i < 81 && before.values@[i] == 0 ==> 1 <= #[trigger] solved[i] <= 9
            &&& solution.placements@.len() == empty_count(before.values@)
            &&& forall|k: int|
                0 <= k < solution.placements@.len() ==> in_range(
                    #[trigger] solution.placements@[k],
                ) && before.values@[cell_of(solution.placements@[k])] == 0
            &&& solution.branches <= 8 * solution.placements@.len()
            &&& max_iterations matches Some(max) ==> solution.placements@.len() <= max
        },
        Err(e) => {
            &&& e == SudokuError::InvalidBoard <==> !grid_valid(before.values@)
            &&& e == SudokuError::NoSolutionFound ==> !has_completion(before.values@)
            &&& e == SudokuError::IterationLimitExceeded ==> max_iterations is Some
            &&& e == SudokuError::PlacementOnClue ==> has_empty_clue(before.values@, before.clues@)
            &&& e == SudokuError::InvalidBoard || e == SudokuError::NoSolutionFound || e
                == SudokuError::IterationLimitExceeded || e == SudokuError::PlacementOnClue
        },
    }
}

/// What a solver owes as its verdict on a board with values in range: it
/// reports a number of branches exactly if the board is a puzzle.
pub open spec fn verify_outcome(board: SudokuBoard, verdict: Verification) -> bool {
    values_in_range(board.values@) ==> (verdict is ValidWithBranches <==> is_puzzle(board))
}

/// Solving is idempotent: a solver that is given a solved board reports
/// success at once, with no placement and no branch, and leaves the board
/// as it is.
pub proof fn lemma_solved_board_is_kept(
    before: SudokuBoard,
    after: SudokuBoard,
    max_iterations: Option<u32>,
    result: Result<Solution, SudokuError>,
)
    requires
        solve_outcome(before, after, max_iterations, result),
        grid_filled(before.values@),
        grid_valid(before.values@),
    ensures
        result is Ok,
        result->Ok_0.placements@.len() == 0,
        result->Ok_0.branches == 0,
        after == before,
{
    lemma_filled_count_full(before.values@, 81);
}

/// The clues of the filled cells among the first `upto` cells of a grid, in
/// row-major order.
pub open spec fn clues_from(cells: Seq<u8>, upto: int) -> Seq<Placement>
    decreases upto,
{
    if upto <= 0 {
        Seq::empty()
    } else if cells[upto - 1] > 0 {
        clues_from(cells, upto - 1).push(
            (((upto - 1) / 9) as usize, ((upto - 1) % 9) as usize, cells[upto - 1]),
        )
    } else {
        clues_from(cells, upto - 1)
    }
}

/// A board made from the clues of the first `upto` cells of a grid holds
/// the values of those cells, and marks the filled ones among them as
/// clues.
pub proof fn lemma_clues_from(cells: Seq<u8>, upto: int)
    requires
        cells.len() == 81,
        0 <= upto <= 81,
    ensures
        clue_values(clues_from(cells, upto)).len() == 81,
        clue_mask(clues_from(cells, upto)).len() == 81,
        forall|i: int|
            0 <= i < 81 ==> #[trigger] clue_values(clues_from(cells, upto))[i] == if i < upto {
                cells[i]
            } else {
                0u8
            },
        forall|i: int|
            0 <= i < 81 ==> #[trigger] clue_mask(clues_from(cells, upto))[i] == (i < upto
                && cells[i] > 0),
        forall|k: int|
            0 <= k < clues_from(cells, upto).len() ==> (#[trigger] clues_from(cells, upto)[k]).0
                < 9 && clues_from(cells, upto)[k].1 < 9,
    decreases upto,
{
    if upto > 0 {
        lemma_clues_from(cells, upto - 1);
        lemma_cell_units(upto - 1);
        let rest = clues_from(cells, upto - 1);
        let here = clues_from(cells, upto);
        if cells[upto - 1] > 0 {
            assert(here.drop_last() =~= rest);
        }
    }
}

/// Round trip: the clues of a puzzle, put on a fresh board, give the puzzle
/// again, and the placements that a solver without a bound on its work
/// then returns fill the board to the one solution of the puzzle.
pub proof fn lemma_clues_round_trip(
    puzzle: Seq<u8>,
    solved: Seq<u8>,
    fresh: SudokuBoard,
    after: SudokuBoard,
    result: Result<Solution, SudokuError>,
)
    requires
        puzzle.len() == 81,
        is_only_completion(solved, puzzle),
        fresh.values@ == clue_values(clues_from(puzzle, 81)),
        fresh.clues@ == clue_mask(clues_from(puzzle, 81)),
        solve_outcome(fresh, after, None, result),
    ensures
        fresh.values@ == puzzle,
        result is Ok,
        placed_all(puzzle, result->Ok_0.placements@) == solved,
{
    lemma_clues_from(puzzle, 81);
    assert(fresh.values@ =~= puzzle);
    lemma_completion_needs_valid(solved, puzzle);
    assert(is_solvable(fresh));
    let found = placed_all(puzzle, result->Ok_0.placements@);
    lemma_placed_all_len(puzzle, result->Ok_0.placements@);
    assert forall|i: int| 0 <= i < 81 implies 1 <= #[trigger] found[i] <= 9 by {
        if puzzle[i] != 0 {
            assert(solved[i] == puzzle[i]);
            assert(found[i] == puzzle[i]);
        }
    }
    assert(is_completion(found, puzzle));
}

/// Sudoku puzzle solver.
pub trait Solver {
    /// The solver may report `branches` as the number of branches of the
    /// grid `cells`. What the solver may report does not change with its
    /// use. A solver that says nothing of its counts may report any.
    open spec fn may_count(&self, cells: Seq<u8>, branches: u32) -> bool {
        true
    }

    /// Tells whether a board is a valid puzzle: one that has one and only
    /// one solution.
    fn verify(&mut self, board: &SudokuBoard) -> (verdict: Verification)
        ensures
            verify_outcome(*board, verdict),
            verdict matches Verification::ValidWithBranches(branches) ==> old(self).may_count(
                board.values@,
                branches,
            ),
            forall|cells: Seq<u8>, branches: u32| #[trigger]
                final(self).may_count(cells, branches) == old(self).may_count(cells, branches),
    ;

    /// Solves a board and returns the solution, or tells why it cannot.
    fn solve(&mut self, board: &mut SudokuBoard) -> (result: Result<Solution, SudokuError>)
        ensures
            solve_outcome(*old(board), *final(board), None, result),
            forall|cells: Seq<u8>, branches: u32| #[trigger]
                final(self).may_count(cells, branches) == old(self).may_count(cells, branches),
    ;

    /// Tries to solve a board with at most `max_iterations` placements, and
    /// returns the solution, or tells why it cannot.
    fn try_solve(&mut self, board: &mut SudokuBoard, max_iterations: Option<u32>) -> (result:
        Result<Solution, SudokuError>)
        ensures
            solve_outcome(*old(board), *final(board), max_iterations, result),
            forall|cells: Seq<u8>, branches: u32| #[trigger]
                final(self).may_count(cells, branches) == old(self).may_count(cells, branches),
    ;
}

} // verus!
