//! The state of the backtracking search as a mathematical object, and the
//! steps by which the search moves from one state to the next.
//!
//! The search keeps a stack of steps. Each step records the value that was
//! placed, the placements that could have been chosen in its stead, and the
//! grid as it was before the step. A grid is reached by the search if it
//! extends the current grid, or extends the grid before some step and takes
//! one of that step's alternatives.

use vstd::prelude::*;
use crate::board::Placement;
use crate::completion::{extends, has_completion, is_completion, values_in_range};
use crate::grid::{col_of, grid_filled, grid_valid, has_empty_clue, row_of, same_unit, Unit};
use crate::solver::choice::{
    follows_strategy, is_strategic, keeps_order, next_start, option_alts, sweep_start,
};

verus! {

/// Row-major index of the cell that a placement names.
pub open spec fn cell_of(p: Placement) -> int {
    p.0 * 9 + p.1
}

/// The placement that puts the value of slot `slot` into the cell with index
/// `i`.
pub open spec fn placement_at(i: int, slot: int) -> Placement {
    (row_of(i) as usize, col_of(i) as usize, (slot + 1) as u8)
}

/// The placement names a cell of the grid and a value from 1 to 9.
pub open spec fn in_range(p: Placement) -> bool {
    p.0 < 9 && p.1 < 9 && 1 <= p.2 <= 9
}

/// Two placements put the same value into two cells of one row, column or
/// box: no valid grid holds both.
pub open spec fn conflict(p: Placement, q: Placement) -> bool {
    p.2 == q.2 && cell_of(p) != cell_of(q) && same_unit(cell_of(p), cell_of(q))
}

/// The grid after a placement.
pub open spec fn placed(cells: Seq<u8>, p: Placement) -> Seq<u8> {
    cells.update(cell_of(p), p.2)
}

/// One step of the search, as the proofs see it.
pub struct StepView {
    /// The value that the step placed.
    pub placement: Placement,
    /// The placements that are still to be tried in place of this one.
    pub alts: Seq<Placement>,
    /// How many alternatives the step had when it was committed.
    pub branches: u32,
    /// How many other cells the option of the step had when it was chosen.
    pub others: u32,
    /// The grid before the step.
    pub before: Seq<u8>,
    /// The cell at which the sweep stood before the step.
    pub from: int,
}

/// An alternative of a step names an empty cell of the grid before the step
/// and cannot stand together with the step's placement.
pub open spec fn alt_fits(s: StepView, k: int) -> bool {
    &&& in_range(s.alts[k])
    &&& s.before[cell_of(s.alts[k])] == 0
    &&& conflict(s.placement, s.alts[k])
}

/// A step is well formed and leads to the grid `after`.
pub open spec fn step_fits(s: StepView, after: Seq<u8>) -> bool {
    &&& s.before.len() == 81
    &&& in_range(s.placement)
    &&& s.before[cell_of(s.placement)] == 0
    &&& after == placed(s.before, s.placement)
    &&& s.alts.len() <= s.others <= 8
    &&& s.branches == s.alts.len()
    &&& forall|k: int| 0 <= k < s.alts.len() ==> #[trigger] alt_fits(s, k)
    &&& forall|j: int, k: int|
        0 <= j < k < s.alts.len() ==> conflict(#[trigger] s.alts[j], #[trigger] s.alts[k])
}

/// The grid before step `d`, or the current grid if there is no such step.
pub open spec fn state_at(steps: Seq<StepView>, cells: Seq<u8>, d: int) -> Seq<u8> {
    if d < steps.len() {
        steps[d].before
    } else {
        cells
    }
}

/// Step `d` is well formed, leads to the grid before the next step, wrote
/// no clue and follows the strategy.
pub open spec fn link_fits(steps: Seq<StepView>, cells: Seq<u8>, clues: Seq<bool>, d: int) -> bool {
    &&& step_fits(steps[d], state_at(steps, cells, d + 1))
    &&& !clues[cell_of(steps[d].placement)]
    &&& is_strategic(steps[d])
    &&& steps[d].from == sweep_start(steps, 0, d)
}

/// The steps lead one to the next and end in the current grid.
pub open spec fn chain_fits(steps: Seq<StepView>, cells: Seq<u8>, clues: Seq<bool>) -> bool {
    &&& cells.len() == 81
    &&& clues.len() == 81
    &&& forall|d: int| 0 <= d < steps.len() ==> #[trigger] link_fits(steps, cells, clues, d)
}

/// The grid that the search started from.
pub open spec fn base_of(steps: Seq<StepView>, cells: Seq<u8>) -> Seq<u8> {
    state_at(steps, cells, 0)
}

/// `grid` extends the grid before a step and takes the step's `k`-th
/// alternative.
pub open spec fn takes_alt(grid: Seq<u8>, s: StepView, k: int) -> bool {
    extends(grid, s.before) && grid[cell_of(s.alts[k])] == s.alts[k].2
}

/// `grid` takes an alternative of some step.
pub open spec fn takes_some_alt(grid: Seq<u8>, steps: Seq<StepView>) -> bool {
    exists|d: int, k: int|
        0 <= d < steps.len() && 0 <= k < steps[d].alts.len() && #[trigger] takes_alt(
            grid,
            steps[d],
            k,
        )
}

/// `grid` can still be reached by the search: through the current grid, if
/// the current branch is `live`, or through an alternative of some step.
pub open spec fn reached(grid: Seq<u8>, steps: Seq<StepView>, cells: Seq<u8>, live: bool) -> bool {
    (live && extends(grid, cells)) || takes_some_alt(grid, steps)
}

/// Every completion of the base grid but the excluded one can still be
/// reached.
pub open spec fn covers(
    steps: Seq<StepView>,
    cells: Seq<u8>,
    live: bool,
    excluded: Option<Seq<u8>>,
) -> bool {
    forall|grid: Seq<u8>| #[trigger]
        is_completion(grid, base_of(steps, cells)) && excluded != Some(grid) ==> reached(
            grid,
            steps,
            cells,
            live,
        )
}

/// The excluded grid cannot be reached any more.
pub open spec fn avoids(
    steps: Seq<StepView>,
    cells: Seq<u8>,
    live: bool,
    excluded: Option<Seq<u8>>,
) -> bool {
    excluded matches Some(grid) ==> !reached(grid, steps, cells, live)
}

/// The invariant of the search.
pub open spec fn search_fits(
    steps: Seq<StepView>,
    cells: Seq<u8>,
    clues: Seq<bool>,
    live: bool,
    excluded: Option<Seq<u8>>,
) -> bool {
    &&& chain_fits(steps, cells, clues)
    &&& covers(steps, cells, live, excluded)
    &&& avoids(steps, cells, live, excluded)
}

/// Number of filled cells among the first `upto` cells.
pub open spec fn filled_count(cells: Seq<u8>, upto: int) -> int
    decreases upto,
{
    if upto <= 0 {
        0
    } else {
        filled_count(cells, upto - 1) + if cells[upto - 1] != 0 {
            1int
        } else {
            0int
        }
    }
}

/// Number of empty cells of a grid.
pub open spec fn empty_count(cells: Seq<u8>) -> int {
    81 - filled_count(cells, 81)
}

/// The count of filled cells is at most the number of cells counted, and
/// less if one of them is empty.
pub proof fn lemma_filled_count_bounds(cells: Seq<u8>, upto: int)
    requires
        0 <= upto <= 81,
    ensures
        0 <= filled_count(cells, upto) <= upto,
        forall|i: int| 0 <= i < upto && cells[i] == 0 ==> filled_count(cells, upto) < upto,
        filled_count(cells, upto) == upto ==> forall|i: int| 0 <= i < upto ==> cells[i] != 0,
    decreases upto,
{
    if upto > 0 {
        lemma_filled_count_bounds(cells, upto - 1);
    }
}

/// Filling an empty cell raises the count by one.
pub proof fn lemma_filled_count_placed(cells: Seq<u8>, i: int, val: u8, upto: int)
    requires
        cells.len() == 81,
        0 <= i < 81,
        0 <= upto <= 81,
        cells[i] == 0,
        val != 0,
    ensures
        filled_count(cells.update(i, val), upto) == filled_count(cells, upto) + if i < upto {
            1int
        } else {
            0int
        },
    decreases upto,
{
    if upto > 0 {
        lemma_filled_count_placed(cells, i, val, upto - 1);
    }
}

/// What the grid before step `d` has in common with the base grid: it
/// extends the base grid by `d` values from 1 to 9, none of them in a clue
/// cell, and holds the values of the steps before `d`.
pub proof fn lemma_chain_prefix(steps: Seq<StepView>, cells: Seq<u8>, clues: Seq<bool>, d: int)
    requires
        chain_fits(steps, cells, clues),
        0 <= d <= steps.len(),
    ensures
        state_at(steps, cells, d).len() == 81,
        extends(state_at(steps, cells, d), base_of(steps, cells)),
        forall|i: int|
            0 <= i < 81 && #[trigger] state_at(steps, cells, d)[i] != base_of(steps, cells)[i] ==> {
                &&& base_of(steps, cells)[i] == 0
                &&& 1 <= state_at(steps, cells, d)[i] <= 9
                &&& !clues[i]
            },
        filled_count(state_at(steps, cells, d), 81) == filled_count(base_of(steps, cells), 81)
            + d,
        forall|k: int|
            0 <= k < d ==> state_at(steps, cells, d)[cell_of(#[trigger] steps[k].placement)]
                == steps[k].placement.2,
    decreases d,
{
    if d > 0 {
        lemma_chain_prefix(steps, cells, clues, d - 1);
        assert(link_fits(steps, cells, clues, d - 1));
        let prev = steps[d - 1];
        let here = state_at(steps, cells, d);
        assert(here == placed(prev.before, prev.placement));
        lemma_filled_count_placed(prev.before, cell_of(prev.placement), prev.placement.2, 81);
        assert forall|k: int| 0 <= k < d implies here[cell_of(#[trigger] steps[k].placement)]
            == steps[k].placement.2 by {
            if k < d - 1 {
                assert(link_fits(steps, cells, clues, k));
                assert(prev.before[cell_of(steps[k].placement)] == steps[k].placement.2);
            }
        }
    } else if steps.len() > 0 {
        assert(link_fits(steps, cells, clues, 0));
    }
}

/// Every completion of `cells` takes the placement of the step or one of
/// its alternatives.
pub open spec fn splits(cells: Seq<u8>, s: StepView) -> bool {
    forall|grid: Seq<u8>| #[trigger]
        is_completion(grid, cells) ==> grid[cell_of(s.placement)] == s.placement.2
            || exists|k: int|
            0 <= k < s.alts.len() && grid[cell_of(#[trigger] s.alts[k])] == s.alts[k].2
}

/// No grid that the search has yet to consider extends `cells`.
pub open spec fn is_dead_end(cells: Seq<u8>, excluded: Option<Seq<u8>>) -> bool {
    forall|grid: Seq<u8>| #[trigger] is_completion(grid, cells) ==> excluded == Some(grid)
}

/// Committing a step whose placement and alternatives split the completions
/// of the current grid keeps the invariant.
pub proof fn lemma_commit(
    steps: Seq<StepView>,
    cells: Seq<u8>,
    clues: Seq<bool>,
    excluded: Option<Seq<u8>>,
    s: StepView,
)
    requires
        search_fits(steps, cells, clues, true, excluded),
        s.before == cells,
        step_fits(s, placed(cells, s.placement)),
        !clues[cell_of(s.placement)],
        is_strategic(s),
        s.from == next_start(steps),
        splits(cells, s),
    ensures
        search_fits(steps.push(s), placed(cells, s.placement), clues, true, excluded),
        base_of(steps.push(s), placed(cells, s.placement)) == base_of(steps, cells),
{
    let next = steps.push(s);
    let after = placed(cells, s.placement);
    let n = steps.len() as int;
    assert forall|d: int| 0 <= d < next.len() implies #[trigger] link_fits(
        next,
        after,
        clues,
        d,
    ) by {
        if d < n {
            assert(link_fits(steps, cells, clues, d));
        }
    }
    assert(base_of(next, after) == base_of(steps, cells));
    assert forall|grid: Seq<u8>| #[trigger]
        is_completion(grid, base_of(next, after)) && excluded != Some(grid) implies reached(
        grid,
        next,
        after,
        true,
    ) by {
        assert(reached(grid, steps, cells, true));
        if extends(grid, cells) {
            assert(is_completion(grid, cells));
            if grid[cell_of(s.placement)] == s.placement.2 {
                assert(extends(grid, after));
            } else {
                let k = choose|k: int|
                    0 <= k < s.alts.len() && grid[cell_of(#[trigger] s.alts[k])] == s.alts[k].2;
                assert(takes_alt(grid, next[n], k));
            }
        } else {
            let (d, k) = choose|d: int, k: int|
                0 <= d < steps.len() && 0 <= k < steps[d].alts.len() && #[trigger] takes_alt(
                    grid,
                    steps[d],
                    k,
                );
            assert(takes_alt(grid, next[d], k));
        }
    }
    if let Some(grid) = excluded {
        if extends(grid, after) {
            assert(extends(grid, cells));
        }
        if takes_some_alt(grid, next) {
            let (d, k) = choose|d: int, k: int|
                0 <= d < next.len() && 0 <= k < next[d].alts.len() && #[trigger] takes_alt(
                    grid,
                    next[d],
                    k,
                );
            if d < n {
                assert(takes_alt(grid, steps[d], k));
            }
        }
    }
}

/// When nothing extends the current grid, the current branch can be given
/// up.
pub proof fn lemma_give_up(
    steps: Seq<StepView>,
    cells: Seq<u8>,
    clues: Seq<bool>,
    excluded: Option<Seq<u8>>,
)
    requires
        search_fits(steps, cells, clues, true, excluded),
        is_dead_end(cells, excluded),
    ensures
        search_fits(steps, cells, clues, false, excluded),
{
    assert forall|grid: Seq<u8>| #[trigger]
        is_completion(grid, base_of(steps, cells)) && excluded != Some(grid) implies reached(
        grid,
        steps,
        cells,
        false,
    ) by {
        assert(reached(grid, steps, cells, true));
        if extends(grid, cells) {
            assert(is_completion(grid, cells));
        }
    }
}

/// Dropping the last step, once it has no alternatives left, keeps the
/// invariant of a branch that was given up.
pub proof fn lemma_drop(
    steps: Seq<StepView>,
    cells: Seq<u8>,
    clues: Seq<bool>,
    excluded: Option<Seq<u8>>,
)
    requires
        search_fits(steps, cells, clues, false, excluded),
        steps.len() > 0,
        steps.last().alts.len() == 0,
    ensures
        search_fits(steps.drop_last(), steps.last().before, clues, false, excluded),
        base_of(steps.drop_last(), steps.last().before) == base_of(steps, cells),
{
    lemma_unwind(steps, cells, clues);
    let rest = steps.drop_last();
    let back = steps.last().before;
    assert forall|grid: Seq<u8>| #[trigger]
        is_completion(grid, base_of(rest, back)) && excluded != Some(grid) implies reached(
        grid,
        rest,
        back,
        false,
    ) by {
        assert(reached(grid, steps, cells, false));
        let (d, k) = choose|d: int, k: int|
            0 <= d < steps.len() && 0 <= k < steps[d].alts.len() && #[trigger] takes_alt(
                grid,
                steps[d],
                k,
            );
        assert(takes_alt(grid, rest[d], k));
    }
    if let Some(grid) = excluded {
        if takes_some_alt(grid, rest) {
            let (d, k) = choose|d: int, k: int|
                0 <= d < rest.len() && 0 <= k < rest[d].alts.len() && #[trigger] takes_alt(
                    grid,
                    rest[d],
                    k,
                );
            assert(takes_alt(grid, steps[d], k));
        }
    }
}

/// Undoing the last step gives the grid before it, and the steps below it
/// still lead there.
pub proof fn lemma_unwind(steps: Seq<StepView>, cells: Seq<u8>, clues: Seq<bool>)
    requires
        chain_fits(steps, cells, clues),
        steps.len() > 0,
    ensures
        chain_fits(steps.drop_last(), steps.last().before, clues),
        base_of(steps.drop_last(), steps.last().before) == base_of(steps, cells),
        steps.last().before == cells.update(cell_of(steps.last().placement), 0u8),
        cells[cell_of(steps.last().placement)] == steps.last().placement.2,
{
    let rest = steps.drop_last();
    let back = steps.last().before;
    let n = steps.len() as int;
    assert(link_fits(steps, cells, clues, n - 1));
    assert(back =~= cells.update(cell_of(steps.last().placement), 0u8));
    assert forall|d: int| 0 <= d < rest.len() implies #[trigger] link_fits(
        rest,
        back,
        clues,
        d,
    ) by {
        assert(link_fits(steps, cells, clues, d));
    }
}

/// The step that takes the place of the last step when its last alternative
/// is tried.
pub open spec fn switched(top: StepView) -> StepView {
    StepView {
        placement: top.alts.last(),
        alts: top.alts.drop_last(),
        branches: (top.alts.len() - 1) as u32,
        others: top.others,
        before: top.before,
        from: top.from,
    }
}

/// Replacing the last step by its last alternative turns a branch that was
/// given up into a live one.
pub proof fn lemma_switch(
    steps: Seq<StepView>,
    cells: Seq<u8>,
    clues: Seq<bool>,
    excluded: Option<Seq<u8>>,
)
    requires
        search_fits(steps, cells, clues, false, excluded),
        steps.len() > 0,
        steps.last().alts.len() > 0,
        !clues[cell_of(steps.last().alts.last())],
    ensures
        search_fits(
            steps.drop_last().push(switched(steps.last())),
            placed(steps.last().before, steps.last().alts.last()),
            clues,
            true,
            excluded,
        ),
        base_of(
            steps.drop_last().push(switched(steps.last())),
            placed(steps.last().before, steps.last().alts.last()),
        ) == base_of(steps, cells),
{
    lemma_unwind(steps, cells, clues);
    let top = steps.last();
    let n = steps.len() as int;
    let last = top.alts.len() - 1;
    let fresh = switched(top);
    let next = steps.drop_last().push(fresh);
    let after = placed(top.before, top.alts.last());
    assert(link_fits(steps, cells, clues, n - 1));
    assert(alt_fits(top, last));
    assert forall|k: int| 0 <= k < fresh.alts.len() implies #[trigger] alt_fits(fresh, k) by {
        assert(alt_fits(top, k));
        assert(conflict(top.alts[k], top.alts[last]));
    }
    assert(step_fits(fresh, after));
    assert(is_strategic(fresh)) by {
        let (i, kind, slot, k) = choose|i: int, kind: Unit, slot: int, k: int| #[trigger]
            follows_strategy(top, i, kind, slot, k);
        let all = option_alts(top.before, i, kind, slot);
        assert(fresh.alts =~= all.take(fresh.alts.len() as int));
        assert(fresh.placement == all[last]);
        assert(keeps_order(fresh, i, kind, slot));
        assert(follows_strategy(fresh, i, kind, slot, k));
    }
    assert forall|d: int| 0 <= d < next.len() implies #[trigger] link_fits(
        next,
        after,
        clues,
        d,
    ) by {
        if d < n - 1 {
            assert(link_fits(steps, cells, clues, d));
        }
    }
    assert(base_of(next, after) == base_of(steps, cells));
    assert forall|grid: Seq<u8>| #[trigger]
        is_completion(grid, base_of(next, after)) && excluded != Some(grid) implies reached(
        grid,
        next,
        after,
        true,
    ) by {
        assert(reached(grid, steps, cells, false));
        let (d, k) = choose|d: int, k: int|
            0 <= d < steps.len() && 0 <= k < steps[d].alts.len() && #[trigger] takes_alt(
                grid,
                steps[d],
                k,
            );
        if d < n - 1 {
            assert(takes_alt(grid, next[d], k));
        } else if k < last {
            assert(takes_alt(grid, next[n - 1], k));
        } else {
            assert(extends(grid, after));
        }
    }
    if let Some(grid) = excluded {
        if extends(grid, after) {
            assert(after[cell_of(top.alts[last])] == top.alts[last].2);
            assert(extends(grid, top.before));
            assert(takes_alt(grid, steps[n - 1], last));
        }
        if takes_some_alt(grid, next) {
            let (d, k) = choose|d: int, k: int|
                0 <= d < next.len() && 0 <= k < next[d].alts.len() && #[trigger] takes_alt(
                    grid,
                    next[d],
                    k,
                );
            assert(takes_alt(grid, steps[d], k));
        }
    }
}

/// When a search from an empty stack has filled the grid, a placement that can
/// stand neither with the placement of a step nor with an alternative that
/// is left of it leads nowhere from the grid before the step.
pub proof fn lemma_abandoned_is_barren(
    steps: Seq<StepView>,
    cells: Seq<u8>,
    clues: Seq<bool>,
    d: int,
    p: Placement,
)
    requires
        search_fits(steps, cells, clues, true, None),
        grid_filled(cells),
        grid_valid(cells),
        0 <= d < steps.len(),
        in_range(p),
        steps[d].before[cell_of(p)] == 0,
        conflict(steps[d].placement, p),
        forall|a: int| 0 <= a < steps[d].alts.len() ==> conflict(#[trigger] steps[d].alts[a], p),
    ensures
        !has_completion(placed(steps[d].before, p)),
{
    let s = steps[d];
    let tried = placed(s.before, p);
    if has_completion(tried) {
        let grid = choose|grid: Seq<u8>| is_completion(grid, tried);
        assert(link_fits(steps, cells, clues, d));
        lemma_chain_prefix(steps, cells, clues, d);
        assert(tried[cell_of(p)] == p.2);
        assert(grid[cell_of(p)] == p.2);
        assert forall|j: int|
            #![trigger grid[j]]
            #![trigger s.before[j]]
            0 <= j < 81 && s.before[j] != 0 implies grid[j] == s.before[j] by {
            assert(tried[j] == s.before[j]);
        }
        assert(extends(grid, s.before));
        assert(extends(grid, base_of(steps, cells))) by {
            assert forall|j: int|
                #![trigger grid[j]]
                #![trigger base_of(steps, cells)[j]]
                0 <= j < 81 && base_of(steps, cells)[j] != 0 implies grid[j] == base_of(
                steps,
                cells,
            )[j] by {
                assert(s.before[j] == base_of(steps, cells)[j]);
            }
        }
        assert(is_completion(grid, base_of(steps, cells)));
        assert(reached(grid, steps, cells, true));
        lemma_chain_prefix(steps, cells, clues, steps.len() as int);
        if extends(grid, cells) {
            assert(cells[cell_of(s.placement)] == s.placement.2);
            assert(grid[cell_of(s.placement)] == s.placement.2);
            assert(grid[cell_of(s.placement)] != grid[cell_of(p)]);
        } else {
            let (e, k) = choose|e: int, k: int|
                0 <= e < steps.len() && 0 <= k < steps[e].alts.len() && #[trigger] takes_alt(
                    grid,
                    steps[e],
                    k,
                );
            assert(link_fits(steps, cells, clues, e));
            assert(alt_fits(steps[e], k));
            let alt = steps[e].alts[k];
            if e < d {
                assert(s.before[cell_of(steps[e].placement)] == steps[e].placement.2);
                assert(grid[cell_of(steps[e].placement)] == steps[e].placement.2);
                assert(grid[cell_of(steps[e].placement)] != grid[cell_of(alt)]);
            } else if e == d {
                assert(conflict(alt, p));
                assert(grid[cell_of(alt)] != grid[cell_of(p)]);
            } else {
                lemma_chain_prefix(steps, cells, clues, e);
                assert(steps[e].before[cell_of(s.placement)] == s.placement.2);
                assert(grid[cell_of(s.placement)] == s.placement.2);
                assert(grid[cell_of(s.placement)] != grid[cell_of(p)]);
            }
        }
    }
}

/// The grid that a resumed search must not find again: the current grid, if
/// it is filled and valid and steps led to it.
pub open spec fn found_before(steps: Seq<StepView>, cells: Seq<u8>) -> Option<Seq<u8>> {
    if steps.len() > 0 && grid_filled(cells) && grid_valid(cells) {
        Some(cells)
    } else {
        None
    }
}

/// A search that is resumed on a filled grid starts from a branch that is
/// given up, with that grid excluded.
pub proof fn lemma_resume(steps: Seq<StepView>, cells: Seq<u8>, clues: Seq<bool>)
    requires
        search_fits(steps, cells, clues, true, None),
        steps.len() > 0,
        grid_filled(cells),
    ensures
        search_fits(steps, cells, clues, false, found_before(steps, cells)),
{
    let excluded = found_before(steps, cells);
    assert forall|grid: Seq<u8>| #[trigger]
        is_completion(grid, base_of(steps, cells)) && excluded != Some(grid) implies reached(
        grid,
        steps,
        cells,
        false,
    ) by {
        assert(reached(grid, steps, cells, true));
        if extends(grid, cells) {
            assert(grid =~= cells);
            crate::completion::lemma_completion_needs_valid(grid, cells);
        }
    }
    if excluded is Some {
        if takes_some_alt(cells, steps) {
            let (d, k) = choose|d: int, k: int|
                0 <= d < steps.len() && 0 <= k < steps[d].alts.len() && #[trigger] takes_alt(
                    cells,
                    steps[d],
                    k,
                );
            assert(link_fits(steps, cells, clues, d));
            assert(alt_fits(steps[d], k));
            lemma_chain_prefix(steps, cells, clues, steps.len() as int);
            let i = cell_of(steps[d].placement);
            let j = cell_of(steps[d].alts[k]);
            assert(cells[i] == steps[d].placement.2);
            assert(cells[i] != cells[j]);
        }
    }
}

/// The grid after a list of placements, made one after the other.
pub open spec fn placed_all(cells: Seq<u8>, placements: Seq<Placement>) -> Seq<u8>
    decreases placements.len(),
{
    if placements.len() == 0 {
        cells
    } else {
        placed(placed_all(cells, placements.drop_last()), placements.last())
    }
}

/// Placements into cells of the grid keep the size of the grid.
pub proof fn lemma_placed_all_len(cells: Seq<u8>, placements: Seq<Placement>)
    requires
        forall|k: int| 0 <= k < placements.len() ==> in_range(#[trigger] placements[k]),
        cells.len() == 81,
    ensures
        placed_all(cells, placements).len() == 81,
    decreases placements.len(),
{
    if placements.len() > 0 {
        lemma_placed_all_len(cells, placements.drop_last());
        assert(in_range(placements.last()));
    }
}

/// The placements of the steps, in their order.
pub open spec fn placements_of(steps: Seq<StepView>) -> Seq<Placement> {
    Seq::new(steps.len(), |d: int| steps[d].placement)
}

/// Sum of the branch counts of the steps.
pub open spec fn branch_total(steps: Seq<StepView>) -> int
    decreases steps.len(),
{
    if steps.len() == 0 {
        0
    } else {
        branch_total(steps.drop_last()) + steps.last().branches
    }
}

/// The grid before step `d` is the base grid after the placements of the
/// steps before `d`, each of which names an empty cell of the base grid.
pub proof fn lemma_chain_placed_all(
    steps: Seq<StepView>,
    cells: Seq<u8>,
    clues: Seq<bool>,
    d: int,
)
    requires
        chain_fits(steps, cells, clues),
        0 <= d <= steps.len(),
    ensures
        state_at(steps, cells, d) == placed_all(
            base_of(steps, cells),
            placements_of(steps).take(d),
        ),
        forall|k: int|
            0 <= k < d ==> in_range(#[trigger] placements_of(steps)[k]) && base_of(
                steps,
                cells,
            )[cell_of(placements_of(steps)[k])] == 0,
        branch_total(steps.take(d)) <= 8 * d,
    decreases d,
{
    let all = placements_of(steps);
    if d > 0 {
        lemma_chain_placed_all(steps, cells, clues, d - 1);
        lemma_chain_prefix(steps, cells, clues, d - 1);
        assert(link_fits(steps, cells, clues, d - 1));
        assert(all.take(d).drop_last() =~= all.take(d - 1));
        assert(steps.take(d).drop_last() =~= steps.take(d - 1));
    }
}

/// A filled and valid grid that the search reached from a base grid with
/// values in range completes that grid, and the base grid has no empty clue
/// cell.
pub proof fn lemma_solved(steps: Seq<StepView>, cells: Seq<u8>, clues: Seq<bool>)
    requires
        chain_fits(steps, cells, clues),
        grid_filled(cells),
        grid_valid(cells),
    ensures
        extends(cells, base_of(steps, cells)),
        !has_empty_clue(base_of(steps, cells), clues),
        values_in_range(base_of(steps, cells)) ==> is_completion(cells, base_of(steps, cells)),
        forall|i: int|
            0 <= i < 81 && base_of(steps, cells)[i] == 0 ==> 1 <= #[trigger] cells[i] <= 9,
{
    lemma_chain_prefix(steps, cells, clues, steps.len() as int);
    let base = base_of(steps, cells);
    assert forall|i: int| 0 <= i < 81 && base[i] == 0 implies 1 <= #[trigger] cells[i] <= 9 by {
        assert(cells[i] > 0);
    }
    if has_empty_clue(base, clues) {
        let i = choose|i: int| 0 <= i < 81 && #[trigger] clues[i] && base[i] == 0;
        assert(cells[i] > 0);
    }
    if values_in_range(base) {
        assert forall|i: int| 0 <= i < 81 implies 1 <= #[trigger] cells[i] <= 9 by {
            assert(cells[i] > 0);
            assert(base[i] <= 9);
        }
    }
}

/// Ten to the power of `k`.
pub open spec fn pow10(k: nat) -> nat
    decreases k,
{
    if k == 0 {
        1
    } else {
        10 * pow10((k - 1) as nat)
    }
}

/// The weight of one alternative of the topmost of `len` steps: one
/// alternative weighs more than all that can ever be left above it.
pub open spec fn weight(len: int) -> int {
    pow10((81 - len) as nat) as int
}

/// The weighted number of alternatives that are left in the steps.
pub open spec fn pending(steps: Seq<StepView>) -> int
    decreases steps.len(),
{
    if steps.len() == 0 {
        0
    } else {
        pending(steps.drop_last()) + steps.last().alts.len() * weight(steps.len() as int)
    }
}

/// A bound on the work that the search has left: it falls with every step
/// that is committed and with every alternative that is tried.
pub open spec fn work_left(steps: Seq<StepView>) -> int {
    pending(steps) + weight(steps.len() as int) - 1
}

/// A weight is at least one, and ten times the weight of the next step.
pub proof fn lemma_weight(len: int)
    requires
        0 <= len <= 81,
    ensures
        weight(len) >= 1,
        len < 81 ==> weight(len) == 10 * weight(len + 1),
{
    lemma_pow10_positive((81 - len) as nat);
}

/// A power of ten is at least one.
pub proof fn lemma_pow10_positive(k: nat)
    ensures
        pow10(k) >= 1,
    decreases k,
{
    if k > 0 {
        lemma_pow10_positive((k - 1) as nat);
    }
}

/// Neither the alternatives that are left nor the work that is left are
/// ever negative.
pub proof fn lemma_pending_bounds(steps: Seq<StepView>)
    requires
        steps.len() <= 81,
    ensures
        pending(steps) >= 0,
        work_left(steps) >= 0,
    decreases steps.len(),
{
    lemma_weight(steps.len() as int);
    if steps.len() > 0 {
        lemma_pending_bounds(steps.drop_last());
        lemma_scaled(steps.last().alts.len() as int, 0, weight(steps.len() as int));
    }
}

/// Scaling a weight by a count is monotone in the count.
pub proof fn lemma_scaled(count: int, least: int, w: int)
    requires
        least <= count,
        w >= 0,
    ensures
        least * w <= count * w,
{
    assert(least * w <= count * w) by (nonlinear_arith)
        requires
            least <= count,
            w >= 0,
    ;
}

/// Committing a step lowers the work that is left.
pub proof fn lemma_work_push(steps: Seq<StepView>, s: StepView)
    requires
        steps.len() < 81,
        s.alts.len() <= 8,
    ensures
        work_left(steps.push(s)) < work_left(steps),
{
    let n = steps.len() as int;
    let next = steps.push(s);
    assert(next.drop_last() =~= steps);
    lemma_weight(n);
    lemma_scaled(8, s.alts.len() as int, weight(n + 1));
}

/// Dropping a step leaves no more alternatives than there were.
pub proof fn lemma_work_drop(steps: Seq<StepView>)
    requires
        0 < steps.len() <= 81,
    ensures
        pending(steps.drop_last()) <= pending(steps),
{
    lemma_weight(steps.len() as int);
    lemma_scaled(steps.last().alts.len() as int, 0, weight(steps.len() as int));
}

/// Trying the last alternative of the last step leaves less work than the
/// alternatives alone weighed before.
pub proof fn lemma_work_switch(steps: Seq<StepView>)
    requires
        0 < steps.len() <= 81,
        steps.last().alts.len() > 0,
    ensures
        work_left(steps.drop_last().push(switched(steps.last()))) == pending(steps) - 1,
        pending(steps.drop_last().push(switched(steps.last()))) <= pending(steps),
{
    let n = steps.len() as int;
    let top = steps.last();
    let next = steps.drop_last().push(switched(top));
    assert(next.drop_last() =~= steps.drop_last());
    lemma_weight(n);
    let a = top.alts.len() as int;
    let w = weight(n);
    assert((a - 1) * w == a * w - w) by (nonlinear_arith);
}

/// The steps are at most as many as the cells that they filled.
pub proof fn lemma_depth(steps: Seq<StepView>, cells: Seq<u8>, clues: Seq<bool>)
    requires
        chain_fits(steps, cells, clues),
    ensures
        steps.len() + filled_count(base_of(steps, cells), 81) == filled_count(cells, 81),
        steps.len() <= 81,
        !grid_filled(cells) ==> steps.len() < 81,
        grid_filled(cells) ==> steps.len() == empty_count(base_of(steps, cells)),
{
    lemma_chain_prefix(steps, cells, clues, steps.len() as int);
    lemma_filled_count_bounds(cells, 81);
    lemma_filled_count_bounds(base_of(steps, cells), 81);
    if grid_filled(cells) {
        lemma_filled_count_full(cells, 81);
    }
}

/// A filled grid counts every cell.
pub proof fn lemma_filled_count_full(cells: Seq<u8>, upto: int)
    requires
        0 <= upto <= 81,
        grid_filled(cells),
    ensures
        filled_count(cells, upto) == upto,
    decreases upto,
{
    if upto > 0 {
        lemma_filled_count_full(cells, upto - 1);
        assert(cells[upto - 1] > 0);
    }
}

} // verus!
