//! How many placements the search makes, and whether it comes to a clue.
//!
//! The search on a grid tries the cells of the option that the strategy
//! takes, one after the other, until one of them leads to a solved grid.
//! Each try costs one placement and what the search below it costs. A try
//! of an empty cell that is marked as a clue ends the search at once. The
//! steps on the stack tell what is still to be tried if the current branch
//! fails, so the cost that is left can be read off them at any time.

use vstd::prelude::*;
use crate::board::{Placement, SudokuBoard};
use crate::error::SudokuError;
use crate::solver::Solution;
use crate::completion::{has_completion, is_completion};
use crate::grid::{grid_filled, grid_valid, Unit};
use crate::solver::choice::{follows_strategy, is_chosen_option, next_start, option_alts};
use crate::solver::runs::{lemma_same_choice, outcome_of};
use crate::solver::search::{
    alt_fits, base_of, cell_of, empty_count, in_range, lemma_filled_count_bounds,
    lemma_filled_count_placed, placed, placed_all, placement_at, splits, step_fits, switched,
    StepView,
};

verus! {

/// An option of a grid: a cell, a kind of unit, a slot, and the number of
/// cells of the unit that accept the value of the slot.
pub struct Choice {
    pub i: int,
    pub kind: Unit,
    pub slot: int,
    pub k: int,
}

/// The strategy takes the option on the grid when its sweep stands at the
/// cell `lo`.
pub open spec fn is_choice(cells: Seq<u8>, lo: int, c: Choice) -> bool {
    is_chosen_option(cells, lo, c.i, c.kind, c.slot, c.k)
}

/// The strategy finds an option to take.
pub open spec fn has_choice(cells: Seq<u8>, lo: int) -> bool {
    exists|c: Choice| is_choice(cells, lo, c)
}

/// The option that the strategy takes.
pub open spec fn choice_of(cells: Seq<u8>, lo: int) -> Choice {
    choose|c: Choice| is_choice(cells, lo, c)
}

/// The placement that is tried for an option when `left` of its
/// alternatives are left: the cell of the option itself as long as all
/// alternatives are left, and else the alternative behind the ones that
/// are left.
pub open spec fn tried_at(cells: Seq<u8>, c: Choice, left: int) -> Placement {
    let all = option_alts(cells, c.i, c.kind, c.slot);
    if left >= all.len() {
        placement_at(c.i, c.slot)
    } else {
        all[left]
    }
}

/// The cell at which the sweep stands after a placement for an option.
pub open spec fn start_behind(c: Choice, p: Placement) -> int {
    if c.k == 1 {
        cell_of(p) + 1
    } else {
        0
    }
}

/// Number of placements that the search makes on a grid, with its sweep at
/// the cell `lo`, until it has filled the grid, tried everything, or come
/// to a cell that is a clue.
pub open spec fn search_cost(cells: Seq<u8>, clues: Seq<bool>, lo: int) -> nat
    decreases empty_count(cells), 1int, 0int,
{
    if grid_filled(cells) || !has_choice(cells, lo) || empty_count(cells) < 0 {
        0
    } else {
        let c = choice_of(cells, lo);
        tries_cost(cells, clues, lo, option_alts(cells, c.i, c.kind, c.slot).len() as int)
    }
}

/// Number of placements that the search makes on a grid from the try with
/// `left` alternatives left on. A try of a cell that is a clue ends the
/// search and costs nothing. Any other try costs itself and the search
/// below it, and, if that neither ends the search nor leads to a solved
/// grid, the tries that are left.
pub open spec fn tries_cost(cells: Seq<u8>, clues: Seq<bool>, lo: int, left: int) -> nat
    decreases empty_count(cells), 0int, left,
{
    if left < 0 || empty_count(cells) < 0 {
        0
    } else {
        let c = choice_of(cells, lo);
        let p = tried_at(cells, c, left);
        let after = placed(cells, p);
        if clues[cell_of(p)] {
            0
        } else {
            let below = if 0 <= empty_count(after) < empty_count(cells) {
                search_cost(after, clues, start_behind(c, p))
            } else {
                0
            };
            let barred = 0 <= empty_count(after) < empty_count(cells) && search_hit(
                after,
                clues,
                start_behind(c, p),
            );
            let later = if barred || has_completion(after) || left == 0 {
                0
            } else {
                tries_cost(cells, clues, lo, left - 1)
            };
            1 + below + later
        }
    }
}

/// The search on a grid, with its sweep at the cell `lo`, comes to a cell
/// that is a clue before it has filled the grid or tried everything.
pub open spec fn search_hit(cells: Seq<u8>, clues: Seq<bool>, lo: int) -> bool
    decreases empty_count(cells), 1int, 0int,
{
    if grid_filled(cells) || !has_choice(cells, lo) || empty_count(cells) < 0 {
        false
    } else {
        let c = choice_of(cells, lo);
        tries_hit(cells, clues, lo, option_alts(cells, c.i, c.kind, c.slot).len() as int)
    }
}

/// The search on a grid comes to a cell that is a clue from the try with
/// `left` alternatives left on: with the try itself, in the search below
/// it, or, if that leads to no solved grid, with the tries that are left.
pub open spec fn tries_hit(cells: Seq<u8>, clues: Seq<bool>, lo: int, left: int) -> bool
    decreases empty_count(cells), 0int, left,
{
    if left < 0 || empty_count(cells) < 0 {
        false
    } else {
        let c = choice_of(cells, lo);
        let p = tried_at(cells, c, left);
        let after = placed(cells, p);
        if clues[cell_of(p)] {
            true
        } else {
            let barred = 0 <= empty_count(after) < empty_count(cells) && search_hit(
                after,
                clues,
                start_behind(c, p),
            );
            barred || (!has_completion(after) && left > 0 && tries_hit(cells, clues, lo, left - 1))
        }
    }
}

/// One of the alternatives that are left of a step leads to a solved grid.
pub open spec fn later_succeeds(s: StepView) -> bool {
    exists|j: int| 0 <= j < s.alts.len() && has_completion(placed(s.before, #[trigger] s.alts[j]))
}

/// The tries that are left of a step come to a cell that is a clue.
pub open spec fn later_hits(s: StepView, clues: Seq<bool>) -> bool {
    s.alts.len() > 0 && tries_hit(s.before, clues, s.from, s.alts.len() - 1)
}

/// Number of placements that the search makes after the branch of the
/// topmost of the first `n` steps has failed: the tries that are left of
/// that step, and, if they neither end the search nor lead to a solved
/// grid, what is left after the step below.
pub open spec fn rest_cost(steps: Seq<StepView>, clues: Seq<bool>, n: int) -> nat
    decreases n,
{
    if n <= 0 {
        0
    } else {
        let s = steps[n - 1];
        let own = if s.alts.len() > 0 {
            tries_cost(s.before, clues, s.from, s.alts.len() - 1)
        } else {
            0
        };
        own + if later_hits(s, clues) || later_succeeds(s) {
            0
        } else {
            rest_cost(steps, clues, n - 1)
        }
    }
}

/// After the branch of the topmost of the first `n` steps has failed, the
/// search comes to a cell that is a clue.
pub open spec fn rest_hit(steps: Seq<StepView>, clues: Seq<bool>, n: int) -> bool
    decreases n,
{
    if n <= 0 {
        false
    } else {
        let s = steps[n - 1];
        later_hits(s, clues) || (!later_succeeds(s) && rest_hit(steps, clues, n - 1))
    }
}

/// Number of placements that the search still makes: what the search on the
/// current grid costs, if the current branch is live, and what is left after
/// it, if it fails.
pub open spec fn cost_left(
    steps: Seq<StepView>,
    cells: Seq<u8>,
    clues: Seq<bool>,
    live: bool,
) -> nat {
    if live {
        search_cost(cells, clues, next_start(steps)) + if search_hit(
            cells,
            clues,
            next_start(steps),
        ) || has_completion(cells) {
            0
        } else {
            rest_cost(steps, clues, steps.len() as int)
        }
    } else {
        rest_cost(steps, clues, steps.len() as int)
    }
}

/// The search still comes to a cell that is a clue: on the current grid, if
/// the current branch is live, or after it, if it fails.
pub open spec fn hit_left(
    steps: Seq<StepView>,
    cells: Seq<u8>,
    clues: Seq<bool>,
    live: bool,
) -> bool {
    if live {
        search_hit(cells, clues, next_start(steps)) || (!has_completion(cells) && rest_hit(
            steps,
            clues,
            steps.len() as int,
        ))
    } else {
        rest_hit(steps, clues, steps.len() as int)
    }
}

/// The tally of the search fits: the grid is valid, the placements that
/// were made and the placements that are left are together what the search
/// on the base grid costs, and the search still comes to a clue exactly if
/// the search on the base grid does.
pub open spec fn tally_fits(
    steps: Seq<StepView>,
    cells: Seq<u8>,
    clues: Seq<bool>,
    live: bool,
    made: nat,
) -> bool {
    &&& grid_valid(cells)
    &&& made + cost_left(steps, cells, clues, live) == search_cost(base_of(steps, cells), clues, 0)
    &&& hit_left(steps, cells, clues, live) == search_hit(base_of(steps, cells), clues, 0)
}

/// The search on a board costs more placements than it may make. A bound of
/// `u32::MAX` placements is no bound.
pub open spec fn is_over_budget(
    cells: Seq<u8>,
    clues: Seq<bool>,
    max_iterations: Option<u32>,
) -> bool {
    max_iterations matches Some(max) && max < u32::MAX && search_cost(cells, clues, 0) > max
}

/// What the least-options search answers for a board with values in range.
/// For a board that is not valid, that it is invalid. Else, if the search
/// costs more placements than it may make, that the limit is exceeded.
/// Else, if the search comes to an empty cell that is a clue, that it
/// cannot place on a clue. Else, if the board has a completion, the outcome
/// of the board: its placements, which fill the board to the solved grid of
/// the outcome, and its branch count. And else, that there is no solution.
pub open spec fn is_answer(
    board: SudokuBoard,
    max_iterations: Option<u32>,
    result: Result<Solution, SudokuError>,
) -> bool {
    let cells = board.values@;
    if !grid_valid(cells) {
        result matches Err(e) && e == SudokuError::InvalidBoard
    } else if is_over_budget(cells, board.clues@, max_iterations) {
        result matches Err(e) && e == SudokuError::IterationLimitExceeded
    } else if search_hit(cells, board.clues@, 0) {
        result matches Err(e) && e == SudokuError::PlacementOnClue
    } else if has_completion(cells) {
        result matches Ok(solution) && {
            &&& solution.placements@ == outcome_of(cells).placements
            &&& solution.branches == outcome_of(cells).branches
            &&& placed_all(cells, solution.placements@) == outcome_of(cells).solved
        }
    } else {
        result matches Err(e) && e == SudokuError::NoSolutionFound
    }
}

/// What is left after the first `n` steps depends on these steps only.
pub proof fn lemma_rest_cost_prefix(
    steps: Seq<StepView>,
    other: Seq<StepView>,
    clues: Seq<bool>,
    n: int,
)
    requires
        0 <= n <= steps.len(),
        n <= other.len(),
        forall|d: int| 0 <= d < n ==> steps[d] == other[d],
    ensures
        rest_cost(steps, clues, n) == rest_cost(other, clues, n),
        rest_hit(steps, clues, n) == rest_hit(other, clues, n),
    decreases n,
{
    if n > 0 {
        lemma_rest_cost_prefix(steps, other, clues, n - 1);
    }
}

/// The option that the strategy takes is the one option that it can take.
pub proof fn lemma_choice_is(cells: Seq<u8>, lo: int, c: Choice)
    requires
        is_choice(cells, lo, c),
    ensures
        has_choice(cells, lo),
        choice_of(cells, lo) == c,
{
    let d = choice_of(cells, lo);
    lemma_same_choice(cells, lo, c.i, c.kind, c.slot, c.k, d.i, d.kind, d.slot, d.k);
}

/// A grid that completes a grid after a placement into an empty cell
/// completes the grid before the placement.
pub proof fn lemma_completes_before(cells: Seq<u8>, p: Placement, grid: Seq<u8>)
    requires
        cells.len() == 81,
        in_range(p),
        cells[cell_of(p)] == 0,
        is_completion(grid, placed(cells, p)),
    ensures
        is_completion(grid, cells),
        grid[cell_of(p)] == p.2,
{
    let after = placed(cells, p);
    assert(after[cell_of(p)] == p.2);
    assert forall|j: int|
        #![trigger grid[j]]
        #![trigger cells[j]]
        0 <= j < 81 && cells[j] != 0 implies grid[j] == cells[j] by {
        assert(after[j] == cells[j]);
    }
}

/// A grid that completes a grid and holds the value of a placement in its
/// cell completes the grid after the placement.
pub proof fn lemma_completes_after(cells: Seq<u8>, p: Placement, grid: Seq<u8>)
    requires
        cells.len() == 81,
        in_range(p),
        is_completion(grid, cells),
        grid[cell_of(p)] == p.2,
    ensures
        is_completion(grid, placed(cells, p)),
{
}

/// A grid has a completion exactly if the placement of a step that splits
/// its completions leads to one, or one of the alternatives of the step
/// does.
pub proof fn lemma_split_succeeds(s: StepView)
    requires
        step_fits(s, placed(s.before, s.placement)),
        splits(s.before, s),
    ensures
        has_completion(s.before) <==> has_completion(placed(s.before, s.placement))
            || later_succeeds(s),
{
    let cells = s.before;
    if has_completion(cells) {
        let grid = choose|grid: Seq<u8>| is_completion(grid, cells);
        if grid[cell_of(s.placement)] == s.placement.2 {
            lemma_completes_after(cells, s.placement, grid);
        } else {
            let k = choose|k: int|
                0 <= k < s.alts.len() && grid[cell_of(#[trigger] s.alts[k])] == s.alts[k].2;
            assert(alt_fits(s, k));
            lemma_completes_after(cells, s.alts[k], grid);
        }
    }
    if has_completion(placed(cells, s.placement)) {
        let grid = choose|grid: Seq<u8>| is_completion(grid, placed(cells, s.placement));
        lemma_completes_before(cells, s.placement, grid);
    }
    if later_succeeds(s) {
        let j = choose|j: int|
            0 <= j < s.alts.len() && has_completion(placed(s.before, #[trigger] s.alts[j]));
        let grid = choose|grid: Seq<u8>| is_completion(grid, placed(cells, s.alts[j]));
        assert(alt_fits(s, j));
        lemma_completes_before(cells, s.alts[j], grid);
    }
}

/// A placement into an empty cell leaves one empty cell less.
pub proof fn lemma_fewer_empty(cells: Seq<u8>, p: Placement)
    requires
        cells.len() == 81,
        in_range(p),
        cells[cell_of(p)] == 0,
    ensures
        0 <= empty_count(placed(cells, p)) < empty_count(cells),
{
    lemma_filled_count_placed(cells, cell_of(p), p.2, 81);
    lemma_filled_count_bounds(placed(cells, p), 81);
}

/// Committing the option that the strategy takes, with all its
/// alternatives, costs one placement of what the search had left.
pub proof fn lemma_cost_commit(
    steps: Seq<StepView>,
    cells: Seq<u8>,
    clues: Seq<bool>,
    s: StepView,
    c: Choice,
)
    requires
        cells.len() == 81,
        !grid_filled(cells),
        s.before == cells,
        s.from == next_start(steps),
        follows_strategy(s, c.i, c.kind, c.slot, c.k),
        s.alts.len() == option_alts(cells, c.i, c.kind, c.slot).len(),
        step_fits(s, placed(cells, s.placement)),
        splits(cells, s),
        !clues[cell_of(s.placement)],
    ensures
        cost_left(steps, cells, clues, true) == 1 + cost_left(
            steps.push(s),
            placed(cells, s.placement),
            clues,
            true,
        ),
        hit_left(steps, cells, clues, true) == hit_left(
            steps.push(s),
            placed(cells, s.placement),
            clues,
            true,
        ),
{
    let lo = next_start(steps);
    let after = placed(cells, s.placement);
    let next = steps.push(s);
    let n = steps.len() as int;
    let left = s.alts.len() as int;
    lemma_choice_is(cells, lo, c);
    lemma_fewer_empty(cells, s.placement);
    lemma_split_succeeds(s);
    assert(tried_at(cells, c, left) == s.placement);
    assert(start_behind(c, s.placement) == next_start(next));
    assert(search_cost(cells, clues, lo) == tries_cost(cells, clues, lo, left));
    assert(search_hit(cells, clues, lo) == tries_hit(cells, clues, lo, left));
    lemma_rest_cost_prefix(next, steps, clues, n);
    assert(rest_cost(next, clues, n + 1) == (if left > 0 {
        tries_cost(cells, clues, lo, left - 1)
    } else {
        0
    }) + if later_hits(s, clues) || later_succeeds(s) {
        0
    } else {
        rest_cost(next, clues, n)
    });
    assert(rest_hit(next, clues, n + 1) == (later_hits(s, clues) || (!later_succeeds(s)
        && rest_hit(next, clues, n))));
}

/// Where the strategy takes an option whose cell is a clue, the search
/// ends there: nothing is left of what it costs.
pub proof fn lemma_cost_barred(
    steps: Seq<StepView>,
    cells: Seq<u8>,
    clues: Seq<bool>,
    s: StepView,
    c: Choice,
)
    requires
        cells.len() == 81,
        !grid_filled(cells),
        s.before == cells,
        s.from == next_start(steps),
        follows_strategy(s, c.i, c.kind, c.slot, c.k),
        s.alts.len() == option_alts(cells, c.i, c.kind, c.slot).len(),
        in_range(s.placement),
        cells[cell_of(s.placement)] == 0,
        clues[cell_of(s.placement)],
    ensures
        cost_left(steps, cells, clues, true) == 0,
        hit_left(steps, cells, clues, true),
{
    let lo = next_start(steps);
    let left = s.alts.len() as int;
    lemma_choice_is(cells, lo, c);
    lemma_fewer_empty(cells, s.placement);
    assert(tried_at(cells, c, left) == s.placement);
    assert(search_cost(cells, clues, lo) == tries_cost(cells, clues, lo, left));
    assert(search_hit(cells, clues, lo) == tries_hit(cells, clues, lo, left));
}

/// Where the strategy finds no option and nothing completes the grid, the
/// search on the grid costs nothing, and what is left is what is left after
/// it.
pub proof fn lemma_cost_stuck(steps: Seq<StepView>, cells: Seq<u8>, clues: Seq<bool>)
    requires
        !has_choice(cells, next_start(steps)),
        !has_completion(cells),
    ensures
        cost_left(steps, cells, clues, true) == cost_left(steps, cells, clues, false),
        hit_left(steps, cells, clues, true) == hit_left(steps, cells, clues, false),
{
}

/// Dropping the last step, once it has no alternatives left, changes
/// nothing of what is left.
pub proof fn lemma_cost_drop(
    steps: Seq<StepView>,
    cells: Seq<u8>,
    clues: Seq<bool>,
    back: Seq<u8>,
)
    requires
        steps.len() > 0,
        steps.last().alts.len() == 0,
    ensures
        cost_left(steps, cells, clues, false) == cost_left(steps.drop_last(), back, clues, false),
        hit_left(steps, cells, clues, false) == hit_left(steps.drop_last(), back, clues, false),
{
    let n = steps.len() as int;
    lemma_rest_cost_prefix(steps, steps.drop_last(), clues, n - 1);
}

/// The last alternative of a step leads to a solved grid, or one of the
/// alternatives before it does, exactly if one of the alternatives does.
proof fn lemma_later_succeeds(top: StepView)
    requires
        top.alts.len() > 0,
    ensures
        later_succeeds(top) <==> has_completion(placed(top.before, top.alts.last()))
            || later_succeeds(switched(top)),
{
    let left = top.alts.len() as int;
    let fresh = switched(top);
    let after = placed(top.before, top.alts.last());
    if later_succeeds(top) {
        let j = choose|j: int|
            0 <= j < top.alts.len() && has_completion(placed(top.before, #[trigger] top.alts[j]));
        if j < left - 1 {
            assert(fresh.alts[j] == top.alts[j]);
        }
    }
    if later_succeeds(fresh) {
        let j = choose|j: int|
            0 <= j < fresh.alts.len() && has_completion(
                placed(fresh.before, #[trigger] fresh.alts[j]),
            );
        assert(top.alts[j] == fresh.alts[j]);
    }
    if has_completion(after) {
        assert(top.alts[left - 1] == top.alts.last());
    }
}

/// Trying the last alternative of the last step costs one placement of what
/// the search had left.
pub proof fn lemma_cost_switch(steps: Seq<StepView>, cells: Seq<u8>, clues: Seq<bool>, c: Choice)
    requires
        steps.len() > 0,
        steps.last().alts.len() > 0,
        follows_strategy(steps.last(), c.i, c.kind, c.slot, c.k),
        step_fits(steps.last(), placed(steps.last().before, steps.last().placement)),
        !clues[cell_of(steps.last().alts.last())],
    ensures
        cost_left(steps, cells, clues, false) == 1 + cost_left(
            steps.drop_last().push(switched(steps.last())),
            placed(steps.last().before, steps.last().alts.last()),
            clues,
            true,
        ),
        hit_left(steps, cells, clues, false) == hit_left(
            steps.drop_last().push(switched(steps.last())),
            placed(steps.last().before, steps.last().alts.last()),
            clues,
            true,
        ),
{
    let top = steps.last();
    let n = steps.len() as int;
    let left = top.alts.len() as int;
    let fresh = switched(top);
    let next = steps.drop_last().push(fresh);
    let alt = top.alts.last();
    let after = placed(top.before, alt);
    lemma_choice_is(top.before, top.from, c);
    assert(alt_fits(top, left - 1));
    lemma_fewer_empty(top.before, alt);
    assert(tried_at(top.before, c, left - 1) == alt);
    assert(start_behind(c, alt) == 0);
    assert(next_start(next) == 0);
    lemma_rest_cost_prefix(next, steps, clues, n - 1);
    lemma_later_succeeds(top);
    assert(rest_cost(steps, clues, n) == tries_cost(top.before, clues, top.from, left - 1)
        + if later_hits(top, clues) || later_succeeds(top) {
        0
    } else {
        rest_cost(steps, clues, n - 1)
    });
    assert(rest_cost(next, clues, n) == (if left - 1 > 0 {
        tries_cost(top.before, clues, top.from, left - 2)
    } else {
        0
    }) + if later_hits(fresh, clues) || later_succeeds(fresh) {
        0
    } else {
        rest_cost(next, clues, n - 1)
    });
    assert(rest_hit(steps, clues, n) == (later_hits(top, clues) || (!later_succeeds(top)
        && rest_hit(steps, clues, n - 1))));
    assert(rest_hit(next, clues, n) == (later_hits(fresh, clues) || (!later_succeeds(fresh)
        && rest_hit(next, clues, n - 1))));
}

/// Where the last alternative of the last step names a cell that is a clue,
/// the search ends with it: nothing is left of what it costs.
pub proof fn lemma_cost_switch_barred(
    steps: Seq<StepView>,
    cells: Seq<u8>,
    clues: Seq<bool>,
    c: Choice,
)
    requires
        steps.len() > 0,
        steps.last().alts.len() > 0,
        follows_strategy(steps.last(), c.i, c.kind, c.slot, c.k),
        step_fits(steps.last(), placed(steps.last().before, steps.last().placement)),
        clues[cell_of(steps.last().alts.last())],
    ensures
        cost_left(steps, cells, clues, false) == 0,
        hit_left(steps, cells, clues, false),
{
    let top = steps.last();
    let left = top.alts.len() as int;
    let alt = top.alts.last();
    lemma_choice_is(top.before, top.from, c);
    assert(alt_fits(top, left - 1));
    lemma_fewer_empty(top.before, alt);
    assert(tried_at(top.before, c, left - 1) == alt);
}

/// On a filled grid that is its own completion the search has nothing left
/// to do.
pub proof fn lemma_cost_done(steps: Seq<StepView>, cells: Seq<u8>, clues: Seq<bool>)
    requires
        grid_filled(cells),
        has_completion(cells),
    ensures
        cost_left(steps, cells, clues, true) == 0,
        !hit_left(steps, cells, clues, true),
{
}

} // verus!
