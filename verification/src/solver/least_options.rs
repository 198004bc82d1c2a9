//! The backtracking solver that always commits the most constrained
//! placement first.

use vstd::prelude::*;
use crate::board::{Placement, SudokuBoard};
use crate::completion::{
    has_completion, has_unique_completion, is_completion, is_only_completion,
    lemma_completion_needs_valid, lemma_filled_completion, values_in_range,
};
use crate::error::SudokuError;
use crate::grid::{
    grid_filled, grid_valid, has_empty_clue, lemma_cell_units, lemma_row_cell, lemma_unit_cell,
    same_unit, unit_of, Unit,
};
use crate::group::Group;
use crate::solver::{verify_outcome, Solution, Solver, Verification};
use crate::solver::runs::{
    lemma_outcome_is_pinned, lemma_verdict_is_pinned, outcome_of, verdict_of,
};
use crate::completion::{lemma_clear_cell, lemma_place_allowed, lemma_solved_grid};
use crate::solver::choice::{
    follows_strategy, is_branch_count, is_outcome_of_run, is_swept, lemma_search_is_run,
    next_start,
};
use crate::solver::cost::{
    cost_left, has_choice, is_answer, is_over_budget, lemma_cost_barred, lemma_cost_commit,
    lemma_cost_done, lemma_cost_drop, lemma_cost_stuck, lemma_cost_switch,
    lemma_cost_switch_barred, search_hit, tally_fits, Choice,
};
pub use crate::solver::options::AvailableOptions;
use crate::solver::options::lemma_vals_elsewhere;
use crate::solver::search::{
    alt_fits, base_of, branch_total, cell_of, chain_fits, found_before, in_range, is_dead_end,
    lemma_chain_placed_all, lemma_chain_prefix, lemma_commit, lemma_depth, lemma_drop,
    lemma_give_up, lemma_pending_bounds, lemma_resume, lemma_solved, lemma_switch, lemma_unwind,
    lemma_weight, lemma_work_drop, lemma_work_push, lemma_work_switch, link_fits, pending, placed,
    placed_all, placements_of, reached, search_fits, switched, work_left, StepView,
};
use crate::solver::sweep::{
    first_in_sweep, is_option, lemma_filled_is_swept, lemma_no_option_dead_end,
    lemma_no_option_no_choice,
    lemma_option_step, lemma_option_step_is_strategic, lemma_sweep_done, lemma_swept_first,
    no_option_at, no_option_before, no_option_between, option_step, swept_to, unit_alts,
};

verus! {

/// One committed placement with what is left to try in its stead.
struct SolutionStep {
    placement: Placement,
    alts: Vec<Placement>,
    branches: u32,
    others: Ghost<u32>,
    before: Ghost<Seq<u8>>,
    from: Ghost<int>,
}

impl View for SolutionStep {
    type V = StepView;

    closed spec fn view(&self) -> StepView {
        StepView {
            placement: self.placement,
            alts: self.alts@,
            branches: self.branches,
            others: self.others@,
            before: self.before@,
            from: self.from@,
        }
    }
}

/// Sudoku solver using the backtracking least options strategy.
///
/// The solver first places every value that has only one cell left in some
/// row, column or box. When no such value exists, it takes a value that has
/// two cells left in some row, column or box, then three, and so on, and
/// notes the other cells as alternatives.
///
/// When no placement can be found, the solver goes back to the last step
/// that has an alternative left and tries that.
pub struct LeastOptionsSolver {
    solution: Vec<SolutionStep>,
    max_iterations: Option<u32>,
    iterations: u32,
    made: Ghost<nat>,
}

impl Default for LeastOptionsSolver {
    fn default() -> (solver: Self)
        ensures
            solver.steps() == Seq::<StepView>::empty(),
            solver.budget() is None,
    {
        LeastOptionsSolver::new()
    }
}

impl Solver for LeastOptionsSolver {
    /// The number of branches that is reported for a puzzle is that of a
    /// run of the least-options strategy from the puzzle to its solution.
    open spec fn may_count(&self, cells: Seq<u8>, branches: u32) -> bool {
        is_branch_count(cells, branches as int)
    }

    /// The verdict on a board with values in range is the verdict of the
    /// least-options strategy.
    fn verify(&mut self, board: &SudokuBoard) -> (verdict: Verification)
        ensures
            values_in_range(board.values@) ==> verdict == verdict_of(*board),
    {
        let verdict = self.judge(board);
        proof {
            if values_in_range(board.values@) {
                lemma_verdict_is_pinned(*board, verdict);
            }
        }
        verdict
    }

    /// The placements and the branch count are those of a run of the
    /// least-options strategy, which ends on the solved grid. For a board
    /// with values in range, the result is the answer of the least-options
    /// search.
    fn solve(&mut self, board: &mut SudokuBoard) -> (result: Result<Solution, SudokuError>)
        ensures
            result matches Ok(solution) ==> is_outcome_of_run(
                old(board).values@,
                placed_all(old(board).values@, solution.placements@),
                solution.placements@,
                solution.branches as int,
            ),
            values_in_range(old(board).values@) ==> is_answer(*old(board), None, result),
    {
        self.try_solve(board, None)
    }

    /// The placements and the branch count are those of a run of the
    /// least-options strategy, which ends on the solved grid. For a board
    /// with values in range, the result is the answer of the least-options
    /// search.
    fn try_solve(&mut self, board: &mut SudokuBoard, max_iterations: Option<u32>) -> (result:
        Result<Solution, SudokuError>)
        ensures
            result matches Ok(solution) ==> is_outcome_of_run(
                old(board).values@,
                placed_all(old(board).values@, solution.placements@),
                solution.placements@,
                solution.branches as int,
            ),
            values_in_range(old(board).values@) ==> is_answer(*old(board), max_iterations, result),
    {
        self.solution.clear();
        self.max_iterations = max_iterations;
        let mut solve_board = board.clone();
        proof {
            assert(self.steps() =~= Seq::<StepView>::empty());
        }
        let ghost cells = board.values@;
        let ghost clues = board.clues@;
        match self.find_solution(&mut solve_board) {
            Ok(()) => {},
            Err(e) => {
                proof {
                    if has_completion(cells) {
                        let grid = choose|grid: Seq<u8>| is_completion(grid, cells);
                        lemma_completion_needs_valid(grid, cells);
                    }
                }
                return Err(e);
            },
        }
        let ghost steps = self.steps();
        proof {
            lemma_solved(steps, solve_board.values@, clues);
            lemma_depth(steps, solve_board.values@, clues);
            lemma_chain_placed_all(steps, solve_board.values@, clues, steps.len() as int);
            lemma_search_is_run(steps, solve_board.values@, clues);
        }
        let branches = self.branches(Ghost(solve_board.values@), Ghost(clues));
        let mut placements: Vec<Placement> = Vec::new();
        let mut d: usize = 0;
        while d < self.solution.len()
            invariant
                d <= self.solution@.len(),
                self.steps() == steps,
                steps.len() == self.solution@.len(),
                placements@ == placements_of(steps).take(d as int),
            decreases self.solution@.len() - d,
        {
            proof {
                assert(placements_of(steps).take(d + 1) =~= placements_of(steps).take(
                    d as int,
                ).push(steps[d as int].placement));
            }
            placements.push(self.solution[d].placement);
            d += 1;
        }
        proof {
            assert(placements_of(steps).take(steps.len() as int) =~= placements_of(steps));
            if values_in_range(cells) {
                lemma_outcome_is_pinned(
                    cells,
                    solve_board.values@,
                    placements@,
                    branches as int,
                );
            }
        }
        self.solution.clear();
        Ok(Solution { placements, branches })
    }
}

impl LeastOptionsSolver {
    /// The steps of the search, as the proofs see them.
    pub closed spec fn steps(&self) -> Seq<StepView> {
        Seq::new(self.solution@.len(), |d: int| self.solution@[d]@)
    }

    /// The most placements that a search may make, if it is bounded.
    pub closed spec fn budget(&self) -> Option<u32> {
        self.max_iterations
    }

    /// Number of placements that the running search has made, as far as a
    /// `u32` counts.
    pub closed spec fn placements_made(&self) -> u32 {
        self.iterations
    }

    /// The search has made at least as many placements as it has steps, and
    /// no more than it may.
    pub closed spec fn within_budget(&self) -> bool {
        &&& self.solution@.len() <= self.iterations
        &&& self.max_iterations matches Some(max) ==> self.iterations <= max
    }

    /// Number of placements that the running search has made.
    pub closed spec fn made(&self) -> nat {
        self.made@
    }

    /// The counter of the search holds the number of placements that the
    /// search has made, as far as a `u32` counts.
    pub closed spec fn counts_right(&self) -> bool {
        self.iterations == if self.made@ < u32::MAX {
            self.made@
        } else {
            u32::MAX as nat
        }
    }

    /// The search keeps its tally: its counter is right, and the placements
    /// that it has made and those that it has left are together what the
    /// search on the base grid costs.
    pub open spec fn keeps_tally(&self, cells: Seq<u8>, clues: Seq<bool>, live: bool) -> bool {
        self.counts_right() && tally_fits(self.steps(), cells, clues, live, self.made())
    }

    /// What holds where the search ends on an empty cell that is a clue: if
    /// the search has kept its tally and its budget, the search on the base
    /// grid comes to a clue, and it costs no more than it may.
    pub open spec fn ends_on_clue(&self, cells: Seq<u8>, clues: Seq<bool>, live: bool) -> bool {
        self.keeps_tally(cells, clues, live) && self.within_budget() ==> {
            &&& search_hit(base_of(self.steps(), cells), clues, 0)
            &&& !is_over_budget(base_of(self.steps(), cells), clues, self.budget())
        }
    }

    /// Creates a solver with an empty stack and no bound on its work.
    pub fn new() -> (solver: LeastOptionsSolver)
        ensures
            solver.steps() == Seq::<StepView>::empty(),
            solver.budget() is None,
    {
        let solver = LeastOptionsSolver {
            solution: Vec::with_capacity(81),
            max_iterations: None,
            iterations: 0,
            made: Ghost(0),
        };
        assert(solver.steps() =~= Seq::<StepView>::empty());
        solver
    }

    /// Searches for a solution of a copy of the board and then for a second
    /// one, and reports the branches of the first if there is no second.
    fn judge(&mut self, board: &SudokuBoard) -> (verdict: Verification)
        ensures
            verify_outcome(*board, verdict),
            verdict matches Verification::ValidWithBranches(branches) ==> is_branch_count(
                board.values@,
                branches as int,
            ),
    {
        let mut clone = board.clone();

        self.solution.clear();
        self.max_iterations = None;
        proof {
            assert(self.steps() =~= Seq::<StepView>::empty());
        }
        let ghost cells = board.values@;
        let ghost clues = board.clues@;
        match self.find_solution(&mut clone) {
            Ok(_) => {
                let ghost steps = self.steps();
                let ghost found = clone.values@;
                proof {
                    lemma_solved(steps, found, clues);
                    lemma_search_is_run(steps, found, clues);
                }
                let branches = self.branches(Ghost(found), Ghost(clues));
                if self.solution.is_empty() {
                    // The board was filled already: it is its own and only
                    // solution.
                    proof {
                        if values_in_range(cells) {
                            assert(is_only_completion(found, cells)) by {
                                assert forall|other: Seq<u8>| #[trigger]
                                    is_completion(other, cells) implies other == found by {
                                    lemma_filled_completion(other, cells);
                                }
                            }
                        }
                    }
                    return Verification::ValidWithBranches(branches);
                }
                proof {
                    lemma_filled_is_swept(steps, found);
                }
                let again = self.find_solution(&mut clone);
                if again.is_err() && self.solution.is_empty() {
                    proof {
                        if values_in_range(cells) {
                            assert(is_only_completion(found, cells));
                        }
                    }
                    Verification::ValidWithBranches(branches)
                } else {
                    proof {
                        if values_in_range(cells) && has_unique_completion(cells) {
                            let second = clone.values@;
                            lemma_solved(self.steps(), second, clues);
                            assert(!reached(found, self.steps(), second, true));
                            let only = choose|grid: Seq<u8>| is_only_completion(grid, cells);
                            assert(is_completion(found, cells));
                            assert(is_completion(second, cells));
                        }
                    }
                    Verification::NotValid
                }
            },
            Err(_) => {
                proof {
                    if has_unique_completion(cells) {
                        let only = choose|grid: Seq<u8>| is_only_completion(grid, cells);
                        lemma_completion_needs_valid(only, cells);
                    }
                }
                Verification::NotValid
            },
        }
    }

    /// Sum of the branch counts of the steps on the stack.
    fn branches(&self, Ghost(cells): Ghost<Seq<u8>>, Ghost(clues): Ghost<Seq<bool>>) -> (total:
        u32)
        requires
            chain_fits(self.steps(), cells, clues),
        ensures
            total == branch_total(self.steps()),
            total <= 8 * self.steps().len(),
    {
        let ghost steps = self.steps();
        let mut total: u32 = 0;
        let mut d: usize = 0;
        proof {
            lemma_depth(steps, cells, clues);
        }
        while d < self.solution.len()
            invariant
                d <= self.solution@.len(),
                self.steps() == steps,
                steps.len() == self.solution@.len(),
                steps.len() <= 81,
                chain_fits(steps, cells, clues),
                total == branch_total(steps.take(d as int)),
                total <= 8 * d,
            decreases self.solution@.len() - d,
        {
            proof {
                lemma_chain_placed_all(steps, cells, clues, d + 1);
                assert(steps.take(d + 1).drop_last() =~= steps.take(d as int));
            }
            total = total + self.solution[d].branches;
            d += 1;
        }
        proof {
            assert(steps.take(steps.len() as int) =~= steps);
        }
        total
    }

    /// Finds the first slot that is an option of a cell: the cell accepts
    /// the value, and exactly `num_opts` cells of the unit with the sums
    /// `group` do.
    fn find_option(
        index: usize,
        group: Group,
        num_opts: u8,
        available_opts: &[Group; 81],
    ) -> (found: Option<usize>)
        requires
            index < 81,
        ensures
            match found {
                Some(val) => {
                    &&& val < 9
                    &&& is_option(available_opts@, index as int, group, num_opts, val as int)
                    &&& forall|slot: int|
                        0 <= slot < val ==> !is_option(
                            available_opts@,
                            index as int,
                            group,
                            num_opts,
                            slot,
                        )
                },
                None => forall|slot: int|
                    0 <= slot < 9 ==> !is_option(
                        available_opts@,
                        index as int,
                        group,
                        num_opts,
                        slot,
                    ),
            },
    {
        let mut val: usize = 0;
        while val < 9
            invariant
                index < 81,
                val <= 9,
                forall|slot: int|
                    0 <= slot < val ==> !is_option(
                        available_opts@,
                        index as int,
                        group,
                        num_opts,
                        slot,
                    ),
            decreases 9 - val,
        {
            if group[val] == num_opts && available_opts[index][val] == 1 {
                return Some(val);
            }
            val += 1;
        }
        None
    }

    /// Finds alternative placements for a value in the same row.
    fn find_row_alts(row: usize, col: usize, val: usize, opts: &[Group; 81]) -> (alts: Vec<
        Placement,
    >)
        requires
            row < 9,
            col < 9,
            val < 9,
        ensures
            alts@ == unit_alts(opts@, Unit::Row, row as int, row * 9 + col, val as int, 9),
    {
        let mut alts: Vec<Placement> = Vec::new();
        let mut c: usize = 0;
        while c < 9
            invariant
                row < 9,
                col < 9,
                val < 9,
                c <= 9,
                alts@ == unit_alts(
                    opts@,
                    Unit::Row,
                    row as int,
                    row * 9 + col,
                    val as int,
                    c as int,
                ),
            decreases 9 - c,
        {
            proof {
                lemma_unit_cell(Unit::Row, row as int, c as int);
            }
            if c != col && opts[row * 9 + c][val] == 1 {
                alts.push((row, c, (val + 1) as u8));
            }
            c += 1;
        }
        alts
    }

    /// Finds alternative placements for a value in the same column.
    fn find_col_alts(row: usize, col: usize, val: usize, opts: &[Group; 81]) -> (alts: Vec<
        Placement,
    >)
        requires
            row < 9,
            col < 9,
            val < 9,
        ensures
            alts@ == unit_alts(opts@, Unit::Column, col as int, row * 9 + col, val as int, 9),
    {
        let mut alts: Vec<Placement> = Vec::new();
        let mut r: usize = 0;
        while r < 9
            invariant
                row < 9,
                col < 9,
                val < 9,
                r <= 9,
                alts@ == unit_alts(
                    opts@,
                    Unit::Column,
                    col as int,
                    row * 9 + col,
                    val as int,
                    r as int,
                ),
            decreases 9 - r,
        {
            proof {
                lemma_unit_cell(Unit::Column, col as int, r as int);
            }
            if r != row && opts[r * 9 + col][val] == 1 {
                alts.push((r, col, (val + 1) as u8));
            }
            r += 1;
        }
        alts
    }

    /// Finds alternative placements for a value in the same box.
    fn find_box_alts(
        row: usize,
        col: usize,
        box_num: usize,
        val: usize,
        opts: &[Group; 81],
    ) -> (alts: Vec<Placement>)
        requires
            row < 9,
            col < 9,
            box_num < 9,
            val < 9,
        ensures
            alts@ == unit_alts(opts@, Unit::Box, box_num as int, row * 9 + col, val as int, 9),
    {
        let mut alts: Vec<Placement> = Vec::new();
        let mut box_index: usize = 0;
        while box_index < 9
            invariant
                row < 9,
                col < 9,
                box_num < 9,
                val < 9,
                box_index <= 9,
                alts@ == unit_alts(
                    opts@,
                    Unit::Box,
                    box_num as int,
                    row * 9 + col,
                    val as int,
                    box_index as int,
                ),
            decreases 9 - box_index,
        {
            let r = (box_num / 3) * 3 + box_index / 3;
            let c = (box_num % 3) * 3 + box_index % 3;
            proof {
                lemma_unit_cell(Unit::Box, box_num as int, box_index as int);
                lemma_row_cell(r as int, c as int);
            }
            if (r != row || c != col) && opts[r * 9 + c][val] == 1 {
                alts.push((r, c, (val + 1) as u8));
            }
            box_index += 1;
        }
        alts
    }

    /// Commits a placement: notes it as a step with its alternatives, writes
    /// it to the board, counts it and brings the index up to date.
    fn place_value(
        &mut self,
        board: &mut SudokuBoard,
        val: Placement,
        alts: Vec<Placement>,
        branches: u32,
        opts: &mut AvailableOptions,
        Ghost(others): Ghost<u32>,
        Ghost(from): Ghost<int>,
    ) -> (result: Result<(), SudokuError>)
        requires
            in_range(val),
            old(opts).describes(old(board).values@),
        ensures
            final(board).clues == old(board).clues,
            final(self).budget() == old(self).budget(),
            match result {
                Ok(()) => {
                    &&& final(self).steps() == old(self).steps().push(
                        StepView {
                            placement: val,
                            alts: alts@,
                            branches,
                            others,
                            before: old(board).values@,
                            from,
                        },
                    )
                    &&& final(board).values@ == placed(old(board).values@, val)
                    &&& !old(board).clues@[cell_of(val)]
                    &&& final(opts).describes(final(board).values@)
                    &&& final(self).placements_made() >= 1
                    &&& old(self).within_budget() && old(self).steps().len() < 81
                        ==> final(self).within_budget()
                    &&& final(self).made() == old(self).made() + 1
                    &&& old(self).counts_right() ==> final(self).counts_right()
                },
                Err(e) => {
                    ||| e == SudokuError::PlacementOnClue && old(board).clues@[cell_of(val)]
                    ||| {
                        &&& e == SudokuError::IterationLimitExceeded
                        &&& !old(board).clues@[cell_of(val)]
                        &&& old(self).budget() matches Some(max) && (old(self).counts_right()
                            ==> max < u32::MAX && old(self).made() + 1 > max)
                    }
                },
            },
    {
        let ghost before = board.values@;
        let ghost below = self.steps();
        self.solution.push(
            SolutionStep {
                placement: val,
                alts,
                branches,
                others: Ghost(others),
                before: Ghost(before),
                from: Ghost(from),
            },
        );
        assert(self.steps() =~= below.push(
            StepView { placement: val, alts: alts@, branches, others, before, from },
        ));
        board.place(val)?;
        self.inc_placement_counter()?;
        proof {
            let changed = cell_of(val);
            assert forall|i: int|
                0 <= i < 81 && !same_unit(i, changed) implies #[trigger] opts.current_at(
                board.values@,
                i,
            ) by {
                assert(opts.current_at(before, i));
                lemma_vals_elsewhere(before, changed, val.2, i, opts.placements@[i]);
            }
        }
        opts.on_value_changed(board, val.0, val.1);
        Ok(())
    }

    /// Commits an option of a cell together with its alternatives.
    fn commit(
        &mut self,
        board: &mut SudokuBoard,
        opts: &mut AvailableOptions,
        index: usize,
        val: usize,
        alts: Vec<Placement>,
        options: u8,
        Ghost(kind): Ghost<Unit>,
        Ghost(excluded): Ghost<Option<Seq<u8>>>,
    ) -> (result: Result<(), SudokuError>)
        requires
            index < 81,
            val < 9,
            search_fits(old(self).steps(), old(board).values@, old(board).clues@, true, excluded),
            old(opts).describes(old(board).values@),
            is_option(
                old(opts).placements@,
                index as int,
                old(opts).options(kind)[unit_of(kind, index as int)],
                options,
                val as int,
            ),
            alts@ == unit_alts(
                old(opts).placements@,
                kind,
                unit_of(kind, index as int),
                index as int,
                val as int,
                9,
            ),
            first_in_sweep(
                *old(opts),
                old(board).values@,
                next_start(old(self).steps()),
                index as int,
                kind,
                val as int,
                options,
            ),
        ensures
            final(board).clues == old(board).clues,
            final(self).budget() == old(self).budget(),
            match result {
                Ok(()) => {
                    &&& search_fits(
                        final(self).steps(),
                        final(board).values@,
                        final(board).clues@,
                        true,
                        excluded,
                    )
                    &&& base_of(final(self).steps(), final(board).values@) == base_of(
                        old(self).steps(),
                        old(board).values@,
                    )
                    &&& final(opts).describes(final(board).values@)
                    &&& final(self).placements_made() >= 1
                    &&& work_left(final(self).steps()) < work_left(old(self).steps())
                    &&& old(self).within_budget() ==> final(self).within_budget()
                    &&& next_start(final(self).steps()) == if options == 1 {
                        index + 1
                    } else {
                        0int
                    }
                    &&& old(self).keeps_tally(old(board).values@, old(board).clues@, true)
                        ==> final(self).keeps_tally(
                            final(board).values@,
                            final(board).clues@,
                            true,
                        )
                },
                Err(e) => {
                    ||| {
                        &&& e == SudokuError::PlacementOnClue
                        &&& has_empty_clue(
                            base_of(old(self).steps(), old(board).values@),
                            old(board).clues@,
                        )
                        &&& old(self).ends_on_clue(old(board).values@, old(board).clues@, true)
                    }
                    ||| {
                        &&& e == SudokuError::IterationLimitExceeded
                        &&& old(self).budget() is Some
                        &&& old(self).keeps_tally(old(board).values@, old(board).clues@, true)
                            ==> is_over_budget(
                                base_of(old(self).steps(), old(board).values@),
                                old(board).clues@,
                                old(self).budget(),
                            )
                    }
                },
            },
    {
        let row = index / 9;
        let col = index % 9;
        let ghost cells = board.values@;
        let ghost below = self.steps();
        let ghost from = next_start(below);
        let ghost step = option_step(*opts, cells, kind, index as int, val as int, options, from);
        proof {
            lemma_option_step(*opts, cells, kind, index as int, val as int, options, from);
            lemma_option_step_is_strategic(
                *opts,
                cells,
                kind,
                index as int,
                val as int,
                options,
                from,
            );
            lemma_depth(below, cells, board.clues@);
            lemma_chain_prefix(below, cells, board.clues@, below.len() as int);
        }
        let result = self.place_value(
            board,
            (row, col, (val + 1) as u8),
            alts,
            (options - 1) as u32,
            opts,
            Ghost((options - 1) as u32),
            Ghost(from),
        );
        proof {
            if old(self).keeps_tally(cells, board.clues@, true) {
                let c = Choice { i: index as int, kind, slot: val as int, k: options as int };
                if board.clues@[index as int] {
                    lemma_cost_barred(below, cells, board.clues@, step, c);
                } else {
                    lemma_cost_commit(below, cells, board.clues@, step, c);
                }
                lemma_place_allowed(cells, index as int, (val + 1) as u8);
            }
            if result is Ok {
                lemma_commit(below, cells, board.clues@, excluded, step);
                lemma_work_push(below, step);
            } else if result matches Err(e) && e == SudokuError::PlacementOnClue {
                assert(board.clues@[index as int] && base_of(below, cells)[index as int] == 0);
            }
        }
        result
    }

    /// Looks for an option of an empty cell in its row, then in its column,
    /// then in its box, and commits the first that it finds.
    fn try_cell(
        &mut self,
        board: &mut SudokuBoard,
        opts: &mut AvailableOptions,
        index: usize,
        options: u8,
        Ghost(clear_from): Ghost<int>,
        Ghost(excluded): Ghost<Option<Seq<u8>>>,
    ) -> (result: Result<bool, SudokuError>)
        requires
            index < 81,
            old(board).values@[index as int] == 0,
            search_fits(old(self).steps(), old(board).values@, old(board).clues@, true, excluded),
            old(opts).describes(old(board).values@),
            swept_to(
                *old(opts),
                old(self).steps(),
                old(board).values@,
                options,
                clear_from,
                index as int,
            ),
        ensures
            final(board).clues == old(board).clues,
            final(self).budget() == old(self).budget(),
            match result {
                Ok(found) => {
                    &&& search_fits(
                        final(self).steps(),
                        final(board).values@,
                        final(board).clues@,
                        true,
                        excluded,
                    )
                    &&& base_of(final(self).steps(), final(board).values@) == base_of(
                        old(self).steps(),
                        old(board).values@,
                    )
                    &&& final(opts).describes(final(board).values@)
                    &&& old(self).within_budget() ==> final(self).within_budget()
                    &&& old(self).keeps_tally(old(board).values@, old(board).clues@, true)
                        ==> final(self).keeps_tally(
                            final(board).values@,
                            final(board).clues@,
                            true,
                        )
                    &&& found ==> {
                        &&& final(self).placements_made() >= 1
                        &&& work_left(final(self).steps()) < work_left(old(self).steps())
                        &&& next_start(final(self).steps()) == if options == 1 {
                            index + 1
                        } else {
                            0int
                        }
                    }
                    &&& !found ==> {
                        &&& final(self).steps() == old(self).steps()
                        &&& final(self).placements_made() == old(self).placements_made()
                        &&& *final(board) == *old(board)
                        &&& *final(opts) == *old(opts)
                        &&& no_option_at(*old(opts), index as int, options)
                    }
                },
                Err(e) => {
                    ||| {
                        &&& e == SudokuError::PlacementOnClue
                        &&& has_empty_clue(
                            base_of(old(self).steps(), old(board).values@),
                            old(board).clues@,
                        )
                        &&& old(self).ends_on_clue(old(board).values@, old(board).clues@, true)
                    }
                    ||| {
                        &&& e == SudokuError::IterationLimitExceeded
                        &&& old(self).budget() is Some
                        &&& old(self).keeps_tally(old(board).values@, old(board).clues@, true)
                            ==> is_over_budget(
                                base_of(old(self).steps(), old(board).values@),
                                old(board).clues@,
                                old(self).budget(),
                            )
                    }
                },
            },
    {
        let row = index / 9;
        let col = index % 9;
        let the_box = (row / 3) * 3 + col / 3;
        proof {
            lemma_cell_units(index as int);
        }
        let ghost steps = self.steps();
        let ghost cells = board.values@;
        let ghost clues = board.clues@;
        let found_rows = Self::find_option(index, opts.row_options[row], options, &opts.placements);
        if let Some(val) = found_rows {
            let alts = Self::find_row_alts(row, col, val, &opts.placements);
            proof {
                lemma_swept_first(
                    *opts,
                    steps,
                    cells,
                    clues,
                    options,
                    clear_from,
                    index as int,
                    Unit::Row,
                    val as int,
                );
            }
            self.commit(board, opts, index, val, alts, options, Ghost(Unit::Row), Ghost(excluded))?;
            return Ok(true);
        }
        let found_cols = Self::find_option(index, opts.col_options[col], options, &opts.placements);
        if let Some(val) = found_cols {
            let alts = Self::find_col_alts(row, col, val, &opts.placements);
            proof {
                lemma_swept_first(
                    *opts,
                    steps,
                    cells,
                    clues,
                    options,
                    clear_from,
                    index as int,
                    Unit::Column,
                    val as int,
                );
            }
            self.commit(
                board,
                opts,
                index,
                val,
                alts,
                options,
                Ghost(Unit::Column),
                Ghost(excluded),
            )?;
            return Ok(true);
        }
        let found_boxes = Self::find_option(
            index,
            opts.box_options[the_box],
            options,
            &opts.placements,
        );
        if let Some(val) = found_boxes {
            let alts = Self::find_box_alts(row, col, the_box, val, &opts.placements);
            proof {
                lemma_swept_first(
                    *opts,
                    steps,
                    cells,
                    clues,
                    options,
                    clear_from,
                    index as int,
                    Unit::Box,
                    val as int,
                );
            }
            self.commit(board, opts, index, val, alts, options, Ghost(Unit::Box), Ghost(excluded))?;
            return Ok(true);
        }
        proof {
            assert forall|kind: Unit, slot: int| 0 <= slot < 9 implies !#[trigger] is_option(
                opts.placements@,
                index as int,
                opts.options(kind)[unit_of(kind, index as int)],
                options,
                slot,
            ) by {
                match kind {
                    Unit::Row => {},
                    Unit::Column => {},
                    Unit::Box => {},
                }
            }
        }
        Ok(false)
    }

    /// Runs the search on `board` until the board is filled or no step is
    /// left to go back to.
    ///
    /// With an empty stack the search starts from the board as it is, and
    /// fails at once if the board is not valid. If it succeeds, the board
    /// holds the first solution in the order of the search. With steps on
    /// the stack, as a successful search leaves them, the search goes on
    /// from them: on a filled board it first gives up the solution that it
    /// stands on, and so finds another solution or fails with an empty
    /// stack.
    pub fn find_solution(&mut self, board: &mut SudokuBoard) -> (result: Result<(), SudokuError>)
        requires
            search_fits(old(self).steps(), old(board).values@, old(board).clues@, true, None),
            is_swept(old(self).steps(), old(board).values@),
        ensures
            final(board).clues == old(board).clues,
            final(self).budget() == old(self).budget(),
            old(self).steps().len() == 0 && !old(board).valid() ==> result == Err::<
                (),
                SudokuError,
            >(SudokuError::InvalidBoard),
            old(self).steps().len() == 0 && old(board).valid() && old(board).filled()
                ==> result is Ok,
            match result {
                Ok(()) => {
                    &&& final(board).filled()
                    &&& final(board).valid()
                    &&& search_fits(
                        final(self).steps(),
                        final(board).values@,
                        final(board).clues@,
                        true,
                        found_before(old(self).steps(), old(board).values@),
                    )
                    &&& base_of(final(self).steps(), final(board).values@) == base_of(
                        old(self).steps(),
                        old(board).values@,
                    )
                    &&& old(self).steps().len() == 0 ==> final(self).within_budget()
                    &&& old(self).steps().len() == 0 && values_in_range(old(board).values@)
                        ==> final(board).values@ == outcome_of(old(board).values@).solved
                    &&& old(self).steps().len() == 0 && values_in_range(old(board).values@)
                        ==> !is_over_budget(
                            old(board).values@,
                            old(board).clues@,
                            old(self).budget(),
                        ) && !search_hit(old(board).values@, old(board).clues@, 0)
                },
                Err(e) => {
                    ||| {
                        &&& e == SudokuError::InvalidBoard
                        &&& old(self).steps().len() == 0
                        &&& !old(board).valid()
                        &&& *final(board) == *old(board)
                        &&& final(self).steps() == old(self).steps()
                    }
                    ||| {
                        &&& e == SudokuError::NoSolutionFound
                        &&& final(self).steps().len() == 0
                        &&& is_dead_end(
                            base_of(old(self).steps(), old(board).values@),
                            found_before(old(self).steps(), old(board).values@),
                        )
                        &&& old(self).steps().len() == 0 ==> !is_over_budget(
                            old(board).values@,
                            old(board).clues@,
                            old(self).budget(),
                        ) && !search_hit(old(board).values@, old(board).clues@, 0)
                        &&& final(board).values@ == base_of(
                            old(self).steps(),
                            old(board).values@,
                        )
                    }
                    ||| {
                        &&& e == SudokuError::PlacementOnClue
                        &&& has_empty_clue(
                            base_of(old(self).steps(), old(board).values@),
                            old(board).clues@,
                        )
                        &&& old(self).steps().len() == 0 ==> search_hit(
                            old(board).values@,
                            old(board).clues@,
                            0,
                        ) && !is_over_budget(
                            old(board).values@,
                            old(board).clues@,
                            old(self).budget(),
                        )
                    }
                    ||| {
                        &&& e == SudokuError::IterationLimitExceeded
                        &&& old(self).budget() is Some
                        &&& old(self).steps().len() == 0 ==> is_over_budget(
                            old(board).values@,
                            old(board).clues@,
                            old(self).budget(),
                        )
                    }
                },
            },
    {
        self.iterations = 0;
        self.made = Ghost(0);
        let backtrack = !self.solution.is_empty();

        if !backtrack && !board.is_valid() {
            return Err(SudokuError::InvalidBoard);
        }
        // The legality vector of every cell, and for every unit and value
        // the number of cells that accept it.

        let mut opts = AvailableOptions::calculate_options(board);
        let ghost first_steps = self.steps();
        let ghost first_cells = board.values@;
        let ghost excluded = found_before(first_steps, first_cells);
        let ghost resumed = backtrack && grid_filled(first_cells);
        proof {
            if resumed {
                lemma_resume(first_steps, first_cells, board.clues@);
            }
            lemma_depth(first_steps, first_cells, board.clues@);
            lemma_pending_bounds(first_steps);
        }
        while !board.is_filled() || (backtrack && self.iterations == 0)
            invariant
                board.clues == old(board).clues,
                self.budget() == old(self).budget(),
                backtrack == (first_steps.len() > 0),
                first_steps == old(self).steps(),
                first_cells == old(board).values@,
                excluded == found_before(first_steps, first_cells),
                resumed == (backtrack && grid_filled(first_cells)),
                !backtrack ==> grid_valid(first_cells),
                !backtrack && grid_filled(first_cells) ==> self.iterations == 0,
                !backtrack ==> self.within_budget(),
                !backtrack ==> self.keeps_tally(board.values@, board.clues@, true),
                is_swept(self.steps(), board.values@),
                opts.describes(board.values@),
                base_of(self.steps(), board.values@) == base_of(first_steps, first_cells),
                search_fits(
                    self.steps(),
                    board.values@,
                    board.clues@,
                    !(resumed && self.iterations == 0),
                    excluded,
                ),
                self.iterations == 0 ==> self.steps() == first_steps && board.values@
                    == first_cells,
                (backtrack && self.iterations == 0) || board.valid(),
                work_left(self.steps()) >= 0,
            decreases work_left(self.steps()),
        {
            let ghost live = !(resumed && self.iterations == 0);
            let found_placements = self.scan(board, &mut opts, Ghost(live), Ghost(excluded))?;

            if !board.is_valid() || !found_placements {
                proof {
                    if live {
                        if found_placements {
                            assert forall|grid: Seq<u8>| #[trigger]
                                is_completion(grid, board.values@) implies excluded == Some(
                                grid,
                            ) by {
                                lemma_completion_needs_valid(grid, board.values@);
                            }
                        }
                        lemma_give_up(self.steps(), board.values@, board.clues@, excluded);
                    }
                    if !backtrack {
                        lemma_cost_stuck(self.steps(), board.values@, board.clues@);
                    }
                }
                self.backtrack(board, &mut opts, Ghost(excluded))?;
            }
            proof {
                lemma_depth(self.steps(), board.values@, board.clues@);
                lemma_pending_bounds(self.steps());
            }
        }
        proof {
            if !backtrack && values_in_range(first_cells) {
                lemma_solved(self.steps(), board.values@, board.clues@);
                lemma_solved_grid(board.values@);
                lemma_cost_done(self.steps(), board.values@, board.clues@);
                lemma_search_is_run(self.steps(), board.values@, board.clues@);
                lemma_outcome_is_pinned(
                    first_cells,
                    board.values@,
                    placements_of(self.steps()),
                    branch_total(self.steps()),
                );
            }
        }
        Ok(())
    }

    /// Makes one sweep over the board: for 1, 2, ... 9 cells per value and
    /// unit, looks at the empty cells in row-major order and commits the
    /// first option found. Forced placements (one cell) are all committed
    /// in one sweep; after any other placement the sweep ends. Tells whether
    /// anything was placed.
    fn scan(
        &mut self,
        board: &mut SudokuBoard,
        opts: &mut AvailableOptions,
        Ghost(live): Ghost<bool>,
        Ghost(excluded): Ghost<Option<Seq<u8>>>,
    ) -> (result: Result<bool, SudokuError>)
        requires
            search_fits(old(self).steps(), old(board).values@, old(board).clues@, live, excluded),
            old(opts).describes(old(board).values@),
            !live ==> grid_filled(old(board).values@),
            is_swept(old(self).steps(), old(board).values@),
        ensures
            final(board).clues == old(board).clues,
            final(self).budget() == old(self).budget(),
            match result {
                Ok(found) => {
                    &&& search_fits(
                        final(self).steps(),
                        final(board).values@,
                        final(board).clues@,
                        live,
                        excluded,
                    )
                    &&& base_of(final(self).steps(), final(board).values@) == base_of(
                        old(self).steps(),
                        old(board).values@,
                    )
                    &&& final(opts).describes(final(board).values@)
                    &&& is_swept(final(self).steps(), final(board).values@)
                    &&& old(self).within_budget() ==> final(self).within_budget()
                    &&& old(self).keeps_tally(old(board).values@, old(board).clues@, live)
                        ==> final(self).keeps_tally(
                            final(board).values@,
                            final(board).clues@,
                            live,
                        )
                    &&& found ==> live && final(self).placements_made() >= 1 && work_left(
                        final(self).steps(),
                    ) < work_left(old(self).steps())
                    &&& !found ==> {
                        &&& final(self).steps() == old(self).steps()
                        &&& final(self).placements_made() == old(self).placements_made()
                        &&& *final(board) == *old(board)
                        &&& !grid_filled(old(board).values@) ==> is_dead_end(
                            old(board).values@,
                            excluded,
                        ) && !has_choice(old(board).values@, next_start(old(self).steps()))
                    }
                },
                Err(e) => {
                    ||| {
                        &&& e == SudokuError::PlacementOnClue
                        &&& has_empty_clue(
                            base_of(old(self).steps(), old(board).values@),
                            old(board).clues@,
                        )
                        &&& old(self).ends_on_clue(old(board).values@, old(board).clues@, live)
                    }
                    ||| {
                        &&& e == SudokuError::IterationLimitExceeded
                        &&& old(self).budget() is Some
                        &&& old(self).keeps_tally(old(board).values@, old(board).clues@, live)
                            ==> is_over_budget(
                                base_of(old(self).steps(), old(board).values@),
                                old(board).clues@,
                                old(self).budget(),
                            )
                    }
                },
            },
    {
        let mut found_placements = false;
        let mut options: u8 = 1;
        while options < 10
            invariant
                1 <= options <= 10,
                !found_placements,
                board.clues == old(board).clues,
                self.budget() == old(self).budget(),
                search_fits(self.steps(), board.values@, board.clues@, live, excluded),
                opts.describes(board.values@),
                !live ==> grid_filled(board.values@),
                self.steps() == old(self).steps(),
                self.placements_made() == old(self).placements_made(),
                old(self).within_budget() ==> self.within_budget(),
                old(self).keeps_tally(old(board).values@, old(board).clues@, live)
                    ==> self.keeps_tally(
                        board.values@,
                        board.clues@,
                        live,
                    ),
                *board == *old(board),
                is_swept(self.steps(), board.values@),
                no_option_before(*opts, board.values@, options, 0),
            decreases 10 - options,
        {
            let mut index: usize = 0;
            let ghost mut clear_from: int = 0;
            while index < 81
                invariant
                    1 <= options <= 9,
                    index <= 81,
                    board.clues == old(board).clues,
                    self.budget() == old(self).budget(),
                    search_fits(self.steps(), board.values@, board.clues@, live, excluded),
                    base_of(self.steps(), board.values@) == base_of(
                        old(self).steps(),
                        old(board).values@,
                    ),
                    opts.describes(board.values@),
                    !live ==> grid_filled(board.values@),
                    old(self).within_budget() ==> self.within_budget(),
                    old(self).keeps_tally(old(board).values@, old(board).clues@, live)
                        ==> self.keeps_tally(
                            board.values@,
                            board.clues@,
                            live,
                        ),
                    found_placements ==> live && self.placements_made() >= 1 && work_left(
                        self.steps(),
                    ) < work_left(old(self).steps()),
                    options >= 2 ==> !found_placements,
                    options == 1 ==> {
                        &&& 0 <= clear_from <= index
                        &&& no_option_between(*opts, board.values@, 1, clear_from, index as int)
                    },
                    found_placements ==> clear_from == next_start(self.steps()),
                    !found_placements ==> {
                        &&& self.steps() == old(self).steps()
                        &&& self.placements_made() == old(self).placements_made()
                        &&& *board == *old(board)
                        &&& clear_from == 0
                        &&& is_swept(self.steps(), board.values@)
                        &&& no_option_before(*opts, board.values@, options, index as int)
                    },
                decreases 81 - index,
            {
                if board.values[index] == 0 {
                    let ghost before = *opts;
                    let placed = self.try_cell(
                        board,
                        opts,
                        index,
                        options,
                        Ghost(clear_from),
                        Ghost(excluded),
                    )?;
                    if placed {
                        found_placements = true;
                        if options != 1 {
                            return Ok(true);
                        }
                        proof {
                            clear_from = index + 1;
                        }
                    } else {
                        assert(*opts == before);
                    }
                }
                index += 1;
            }
            if found_placements {
                proof {
                    lemma_sweep_done(*opts, board.values@, clear_from);
                }
                return Ok(true);
            }
            options += 1;
        }
        proof {
            if !grid_filled(board.values@) {
                lemma_no_option_dead_end(*opts, board.values@, excluded);
                lemma_no_option_no_choice(*opts, board.values@, next_start(self.steps()));
            }
        }
        Ok(false)
    }

    /// Goes back through the steps until one has an alternative that leaves
    /// the board valid, undoing each step on the way, and commits that
    /// alternative. Fails when no step is left.
    fn backtrack(
        &mut self,
        board: &mut SudokuBoard,
        opts: &mut AvailableOptions,
        Ghost(excluded): Ghost<Option<Seq<u8>>>,
    ) -> (result: Result<(), SudokuError>)
        requires
            search_fits(old(self).steps(), old(board).values@, old(board).clues@, false, excluded),
            old(opts).describes(old(board).values@),
        ensures
            final(board).clues == old(board).clues,
            final(self).budget() == old(self).budget(),
            match result {
                Ok(()) => {
                    &&& search_fits(
                        final(self).steps(),
                        final(board).values@,
                        final(board).clues@,
                        true,
                        excluded,
                    )
                    &&& base_of(final(self).steps(), final(board).values@) == base_of(
                        old(self).steps(),
                        old(board).values@,
                    )
                    &&& final(opts).describes(final(board).values@)
                    &&& final(board).valid()
                    &&& final(self).placements_made() >= 1
                    &&& work_left(final(self).steps()) < work_left(old(self).steps())
                    &&& old(self).within_budget() ==> final(self).within_budget()
                    &&& is_swept(final(self).steps(), final(board).values@)
                    &&& old(self).keeps_tally(old(board).values@, old(board).clues@, false)
                        ==> final(self).keeps_tally(
                            final(board).values@,
                            final(board).clues@,
                            true,
                        )
                },
                Err(e) => {
                    ||| {
                        &&& e == SudokuError::NoSolutionFound
                        &&& final(self).steps().len() == 0
                        &&& is_dead_end(
                            base_of(old(self).steps(), old(board).values@),
                            excluded,
                        )
                        &&& old(self).within_budget() ==> final(self).within_budget()
                        &&& old(self).keeps_tally(old(board).values@, old(board).clues@, false)
                            ==> final(self).keeps_tally(
                                final(board).values@,
                                final(board).clues@,
                                false,
                            )
                        &&& base_of(final(self).steps(), final(board).values@) == base_of(
                            old(self).steps(),
                            old(board).values@,
                        )
                    }
                    ||| {
                        &&& e == SudokuError::PlacementOnClue
                        &&& has_empty_clue(
                            base_of(old(self).steps(), old(board).values@),
                            old(board).clues@,
                        )
                        &&& old(self).ends_on_clue(old(board).values@, old(board).clues@, false)
                    }
                    ||| {
                        &&& e == SudokuError::IterationLimitExceeded
                        &&& old(self).budget() is Some
                        &&& old(self).keeps_tally(old(board).values@, old(board).clues@, false)
                            ==> is_over_budget(
                                base_of(old(self).steps(), old(board).values@),
                                old(board).clues@,
                                old(self).budget(),
                            )
                    }
                },
            },
    {
        proof {
            lemma_depth(self.steps(), board.values@, board.clues@);
            lemma_weight(self.steps().len() as int);
        }
        loop
            invariant
                board.clues == old(board).clues,
                self.budget() == old(self).budget(),
                search_fits(self.steps(), board.values@, board.clues@, false, excluded),
                base_of(self.steps(), board.values@) == base_of(
                    old(self).steps(),
                    old(board).values@,
                ),
                opts.describes(board.values@),
                pending(self.steps()) < work_left(old(self).steps()) + 1,
                old(self).within_budget() ==> self.within_budget(),
                old(self).keeps_tally(old(board).values@, old(board).clues@, false)
                    ==> self.keeps_tally(
                        board.values@,
                        board.clues@,
                        false,
                    ),
            decreases
                    self.steps().len(),
                    if self.steps().len() > 0 {
                        self.steps().last().alts.len()
                    } else {
                        0
                    },
        {
            let ghost at_top = *self;
            let ghost steps = self.steps();
            let ghost cells = board.values@;
            let ghost clues = board.clues@;
            proof {
                lemma_depth(steps, cells, clues);
            }
            match self.solution.pop() {
                None => {
                    proof {
                        assert forall|grid: Seq<u8>| #[trigger]
                            is_completion(grid, cells) implies excluded == Some(grid) by {
                            if excluded != Some(grid) {
                                assert(reached(grid, steps, cells, false));
                            }
                        }
                    }
                    return Err(SudokuError::NoSolutionFound);
                },
                Some(step) => {
                    let ghost top = steps.last();
                    let ghost rest = steps.drop_last();
                    assert(self.steps() =~= rest);
                    assert(step@ == top);
                    proof {
                        lemma_unwind(steps, cells, clues);
                        assert(link_fits(steps, cells, clues, steps.len() - 1));
                    }
                    let SolutionStep { placement, alts, .. } = step;
                    let mut alts = alts;
                    let (row, col, _) = placement;
                    board.place((row, col, 0))?;
                    assert(board.values@ == top.before);
                    proof {
                        lemma_clear_cell(cells, cell_of(placement));
                    }
                    proof {
                        let changed = cell_of(placement);
                        assert forall|i: int| 0 <= i < 81 && !same_unit(i, changed) implies
                            #[trigger] opts.current_at(board.values@, i) by {
                            assert(opts.current_at(cells, i));
                            lemma_vals_elsewhere(cells, changed, 0u8, i, opts.placements@[i]);
                        }
                    }
                    opts.on_value_changed(board, row, col);
                    if alts.len() > 0 {
                        let new_val = alts.pop().unwrap();
                        proof {
                            assert(alt_fits(top, top.alts.len() - 1));
                            assert(alts@ == top.alts.drop_last());
                            if old(self).keeps_tally(
                                old(board).values@,
                                old(board).clues@,
                                false,
                            ) {
                                let (i, kind, slot, k) = choose|
                                    i: int,
                                    kind: Unit,
                                    slot: int,
                                    k: int,
                                | #[trigger] follows_strategy(top, i, kind, slot, k);
                                if clues[cell_of(new_val)] {
                                    lemma_cost_switch_barred(
                                        steps,
                                        cells,
                                        clues,
                                        Choice { i, kind, slot, k },
                                    );
                                } else {
                                    lemma_cost_switch(
                                        steps,
                                        cells,
                                        clues,
                                        Choice { i, kind, slot, k },
                                    );
                                }
                                lemma_cell_units(cell_of(new_val));
                                lemma_place_allowed(top.before, cell_of(new_val), new_val.2);
                            }
                        }
                        let left = alts.len() as u32;
                        let placed = self.place_value(
                            board,
                            new_val,
                            alts,
                            left,
                            opts,
                            Ghost(top.others),
                            Ghost(top.from),
                        );
                        match placed {
                            Err(e) => {
                                proof {
                                    if e == SudokuError::PlacementOnClue {
                                        lemma_chain_prefix(
                                            steps,
                                            cells,
                                            clues,
                                            steps.len() - 1,
                                        );
                                        let i = cell_of(new_val);
                                        assert(clues[i] && base_of(steps, cells)[i] == 0);
                                        if old(self).keeps_tally(
                                            old(board).values@,
                                            old(board).clues@,
                                            false,
                                        ) && old(self).within_budget() {
                                            assert(at_top.keeps_tally(cells, clues, false));
                                            assert(at_top.within_budget());
                                            assert(cost_left(steps, cells, clues, false) == 0);
                                            assert(search_hit(base_of(steps, cells), clues, 0));
                                        }
                                    }
                                }
                                return Err(e);
                            },
                            Ok(()) => {},
                        }
                        proof {
                            assert(self.steps() == rest.push(switched(top)));
                            lemma_switch(steps, cells, clues, excluded);
                            lemma_work_switch(steps);
                        }
                        if board.is_valid() {
                            return Ok(());
                        }
                        proof {
                            assert forall|grid: Seq<u8>| #[trigger]
                                is_completion(grid, board.values@) implies excluded == Some(
                                grid,
                            ) by {
                                lemma_completion_needs_valid(grid, board.values@);
                            }
                            lemma_give_up(self.steps(), board.values@, clues, excluded);
                        }
                    } else {
                        proof {
                            lemma_drop(steps, cells, clues, excluded);
                            lemma_work_drop(steps);
                            lemma_cost_drop(steps, cells, board.clues@, top.before);
                        }
                    }
                },
            }
        }
    }

    /// Counts one more placement, and fails if that is more than the search
    /// may make.
    fn inc_placement_counter(&mut self) -> (result: Result<(), SudokuError>)
        ensures
            final(self).solution == old(self).solution,
            final(self).max_iterations == old(self).max_iterations,
            final(self).iterations >= 1,
            final(self).iterations == if old(self).iterations < u32::MAX {
                old(self).iterations + 1
            } else {
                u32::MAX as int
            },
            result is Err <==> (old(self).max_iterations matches Some(max)
                && final(self).iterations > max),
            result is Err ==> result == Err::<(), SudokuError>(
                SudokuError::IterationLimitExceeded,
            ),
            final(self).made() == old(self).made() + 1,
            old(self).counts_right() ==> final(self).counts_right(),
    {
        self.iterations = self.iterations.saturating_add(1);
        proof {
            self.made@ = self.made@ + 1;
        }
        match self.max_iterations {
            Some(max) => {
                if self.iterations > max {
                    Err(SudokuError::IterationLimitExceeded)
                } else {
                    Ok(())
                }
            },
            None => Ok(()),
        }
    }
}

} // verus!
