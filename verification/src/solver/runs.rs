//! Why the outcome of a board is one outcome.
//!
//! On every grid, and wherever its sweep stands, the least-options strategy
//! takes one option, and it tries the cells of that option in one order. A
//! run goes on from a cell only when the cells before it have led nowhere,
//! and it cannot go on from a cell that leads nowhere itself. So two runs
//! from one grid make the same placements, count the same branches and lead
//! to the same solved grid: the first solution in the order of the search.

use vstd::prelude::*;
use crate::board::{Placement, SudokuBoard};
use crate::completion::{extends, has_completion, is_completion, values_in_range};
use crate::grid::{grid_filled, lemma_unit_of, unit_of, Unit};
use crate::solver::{is_puzzle, verify_outcome, Verification};
use crate::solver::choice::{
    comes_before, finds_first, follows_strategy, has_option, is_barren, is_branch_count,
    is_chosen_option, is_first_found, is_first_option, is_outcome_of_run, is_run, is_run_from,
    leads_on, lemma_other_cells_named, option_alts, start_after, takes_option,
};
use crate::solver::search::{branch_total, cell_of, in_range, placed, placements_of, StepView};

verus! {

/// The steps of a run but the first.
pub open spec fn rest_of(steps: Seq<StepView>) -> Seq<StepView> {
    steps.subrange(1, steps.len() as int)
}

/// The branches of some steps are those of the first and those of the
/// rest.
pub proof fn lemma_branch_total_first(steps: Seq<StepView>)
    requires
        steps.len() > 0,
    ensures
        branch_total(steps) == steps[0].branches + branch_total(rest_of(steps)),
    decreases steps.len(),
{
    if steps.len() > 1 {
        lemma_branch_total_first(steps.drop_last());
        assert(rest_of(steps).drop_last() =~= rest_of(steps.drop_last()));
    } else {
        assert(rest_of(steps) =~= Seq::<StepView>::empty());
        assert(steps.drop_last() =~= Seq::<StepView>::empty());
    }
}

/// A run starts with a step that follows the strategy on the grid that the
/// run starts from, and goes on with a run from the grid that this step
/// leaves and from the cell at which the sweep then stands.
pub proof fn lemma_run_rest(steps: Seq<StepView>, first: int, cells: Seq<u8>, solved: Seq<u8>)
    requires
        is_run_from(steps, first, cells, solved),
        steps.len() > 0,
    ensures
        steps[0].before == cells,
        steps[0].from == first,
        cells.len() == 81,
        is_first_found(steps[0]),
        is_run_from(
            rest_of(steps),
            start_after(steps[0]),
            placed(cells, steps[0].placement),
            solved,
        ),
{
    let rest = rest_of(steps);
    let next = start_after(steps[0]);
    assert(leads_on(steps, first, solved, 0));
    assert forall|d: int| 0 <= d < rest.len() implies #[trigger] leads_on(
        rest,
        next,
        solved,
        d,
    ) by {
        assert(leads_on(steps, first, solved, d + 1));
        assert(steps.take(d + 1).last() == steps[d]);
        if d > 0 {
            assert(rest.take(d).last() == steps[d]);
        }
    }
}

/// The solved grid of a run extends the grid that the run starts from. A
/// run without steps starts from the solved grid, and a run with steps
/// starts by filling an empty cell with the value that the solved grid holds
/// there.
pub proof fn lemma_run_extends(steps: Seq<StepView>, first: int, cells: Seq<u8>, solved: Seq<u8>)
    requires
        is_run_from(steps, first, cells, solved),
    ensures
        cells.len() == 81,
        extends(solved, cells),
        steps.len() == 0 ==> cells == solved,
        steps.len() > 0 ==> !grid_filled(cells),
        steps.len() > 0 ==> in_range(steps[0].placement) && cells[cell_of(steps[0].placement)]
            == 0 && solved[cell_of(steps[0].placement)] == steps[0].placement.2,
    decreases steps.len(),
{
    if steps.len() > 0 {
        lemma_run_rest(steps, first, cells, solved);
        let head = steps[0];
        let (i, kind, slot, k) = choose|i: int, kind: Unit, slot: int, k: int| #[trigger]
            follows_strategy(head, i, kind, slot, k);
        lemma_run_extends(
            rest_of(steps),
            start_after(head),
            placed(cells, head.placement),
            solved,
        );
        let c = cell_of(head.placement);
        assert(placed(cells, head.placement)[c] == head.placement.2);
        assert forall|j: int|
            #![trigger solved[j]]
            #![trigger cells[j]]
            0 <= j < 81 && cells[j] != 0 implies solved[j] == cells[j] by {
            assert(placed(cells, head.placement)[j] == cells[j]);
        }
    }
}

/// Every cell of the solved grid of a run holds the value that the grid at
/// the start of the run holds there, or a value from 1 to 9.
pub proof fn lemma_run_values(steps: Seq<StepView>, first: int, cells: Seq<u8>, solved: Seq<u8>)
    requires
        is_run_from(steps, first, cells, solved),
    ensures
        forall|i: int|
            0 <= i < 81 ==> #[trigger] solved[i] == cells[i] || 1 <= solved[i] <= 9,
    decreases steps.len(),
{
    lemma_run_extends(steps, first, cells, solved);
    if steps.len() > 0 {
        lemma_run_rest(steps, first, cells, solved);
        let after = placed(cells, steps[0].placement);
        lemma_run_values(rest_of(steps), start_after(steps[0]), after, solved);
        assert forall|i: int| 0 <= i < 81 implies #[trigger] solved[i] == cells[i] || 1
            <= solved[i] <= 9 by {
            assert(solved[i] == after[i] || 1 <= solved[i] <= 9);
        }
    }
}

/// A run from a grid with values in range ends in a completion of that
/// grid.
pub proof fn lemma_run_completes(
    steps: Seq<StepView>,
    first: int,
    cells: Seq<u8>,
    solved: Seq<u8>,
)
    requires
        is_run_from(steps, first, cells, solved),
        values_in_range(cells),
    ensures
        is_completion(solved, cells),
{
    lemma_run_extends(steps, first, cells, solved);
    lemma_run_values(steps, first, cells, solved);
    assert forall|i: int| 0 <= i < 81 implies 1 <= #[trigger] solved[i] <= 9 by {
        assert(solved[i] > 0);
        assert(cells[i] <= 9);
    }
}

/// A run from a grid with one empty cell makes one placement and counts no
/// branch.
pub proof fn lemma_one_gap_run(steps: Seq<StepView>, cells: Seq<u8>, solved: Seq<u8>, gap: int)
    requires
        is_run(steps, cells, solved),
        0 <= gap < 81,
        forall|j: int| 0 <= j < 81 && j != gap ==> #[trigger] cells[j] != 0,
        cells[gap] == 0,
    ensures
        steps.len() == 1,
        branch_total(steps) == 0,
{
    lemma_run_extends(steps, 0, cells, solved);
    assert(solved[gap] > 0);
    lemma_run_rest(steps, 0, cells, solved);
    let head = steps[0];
    let rest = rest_of(steps);
    let after = placed(cells, head.placement);
    assert(cell_of(head.placement) == gap);
    assert(grid_filled(after)) by {
        assert forall|j: int| 0 <= j < 81 implies #[trigger] after[j] > 0 by {
            if j != gap {
                assert(cells[j] != 0);
            }
        }
    }
    lemma_run_extends(rest, start_after(head), after, solved);
    assert(rest.len() == 0);
    let (i, kind, slot, k) = choose|i: int, kind: Unit, slot: int, k: int| #[trigger]
        follows_strategy(head, i, kind, slot, k);
    if head.alts.len() > 0 {
        let all = option_alts(cells, i, kind, slot);
        lemma_unit_of(kind, i);
        lemma_other_cells_named(cells, kind, unit_of(kind, i), i, slot, 9);
        assert(head.alts[0] == all[0]);
        assert(takes_option(cells, head.alts[0], i, kind, slot));
        assert(cell_of(all[0]) == gap);
        assert(i == gap);
    }
    lemma_branch_total_first(steps);
    assert(branch_total(rest) == 0);
}

/// A sweep comes first to one option only.
pub proof fn lemma_same_first(
    cells: Seq<u8>,
    lo: int,
    k: int,
    i: int,
    kind: Unit,
    slot: int,
    i2: int,
    kind2: Unit,
    slot2: int,
)
    requires
        is_first_option(cells, lo, i, kind, slot, k),
        is_first_option(cells, lo, i2, kind2, slot2, k),
    ensures
        i == i2,
        kind == kind2,
        slot == slot2,
{
    if comes_before(i, kind, slot, i2, kind2, slot2) {
        assert(!has_option(cells, i, kind, slot, k));
    }
    if comes_before(i2, kind2, slot2, i, kind, slot) {
        assert(!has_option(cells, i2, kind2, slot2, k));
    }
}

/// On one grid, with its sweep at one cell, the strategy takes one option
/// only.
pub proof fn lemma_same_choice(
    cells: Seq<u8>,
    lo: int,
    i: int,
    kind: Unit,
    slot: int,
    k: int,
    i2: int,
    kind2: Unit,
    slot2: int,
    k2: int,
)
    requires
        is_chosen_option(cells, lo, i, kind, slot, k),
        is_chosen_option(cells, lo, i2, kind2, slot2, k2),
    ensures
        i == i2,
        kind == kind2,
        slot == slot2,
        k == k2,
{
    if k < k2 {
        assert(!has_option(cells, i, kind, slot, k));
    }
    if k2 < k {
        assert(!has_option(cells, i2, kind2, slot2, k2));
    }
    let start = if is_first_option(cells, lo, i, kind, slot, k) {
        lo
    } else {
        0
    };
    lemma_same_first(cells, start, k, i, kind, slot, i2, kind2, slot2);
}

/// Two steps that follow the strategy on one grid, with the sweep at one
/// cell, and that both lead somewhere make the same placement and count the
/// same branches.
pub proof fn lemma_first_steps_agree(a: StepView, b: StepView)
    requires
        is_first_found(a),
        is_first_found(b),
        a.before == b.before,
        a.from == b.from,
        has_completion(placed(a.before, a.placement)),
        has_completion(placed(b.before, b.placement)),
    ensures
        a.placement == b.placement,
        a.branches == b.branches,
        a.others == b.others,
{
    let (i, kind, slot, k) = choose|i: int, kind: Unit, slot: int, k: int| #[trigger]
        follows_strategy(a, i, kind, slot, k) && finds_first(a, i, kind, slot);
    let (i2, kind2, slot2, k2) = choose|i2: int, kind2: Unit, slot2: int, k2: int| #[trigger]
        follows_strategy(b, i2, kind2, slot2, k2) && finds_first(b, i2, kind2, slot2);
    lemma_same_choice(a.before, a.from, i, kind, slot, k, i2, kind2, slot2, k2);
    let all = option_alts(a.before, i, kind, slot);
    if a.alts.len() > b.alts.len() {
        if a.alts.len() < all.len() {
            assert(is_barren(b.before, all[a.alts.len() as int]));
        }
        assert(is_barren(b.before, a.placement));
    }
    if b.alts.len() > a.alts.len() {
        if b.alts.len() < all.len() {
            assert(is_barren(a.before, all[b.alts.len() as int]));
        }
        assert(is_barren(a.before, b.placement));
    }
}

/// A placement in range keeps the values of a grid in range.
pub proof fn lemma_placed_in_range(cells: Seq<u8>, p: Placement)
    requires
        cells.len() == 81,
        values_in_range(cells),
        in_range(p),
    ensures
        values_in_range(placed(cells, p)),
{
    assert forall|i: int| 0 <= i < 81 implies #[trigger] placed(cells, p)[i] <= 9 by {
        if i != cell_of(p) {
            assert(cells[i] <= 9);
        }
    }
}

/// All runs of the strategy from one grid with values in range, with the
/// sweep at one cell, lead to the same solved grid, make the same
/// placements and count the same branches.
pub proof fn lemma_runs_agree(
    one: Seq<StepView>,
    other: Seq<StepView>,
    first: int,
    cells: Seq<u8>,
    solved: Seq<u8>,
    solved2: Seq<u8>,
)
    requires
        values_in_range(cells),
        is_run_from(one, first, cells, solved),
        is_run_from(other, first, cells, solved2),
    ensures
        solved == solved2,
        placements_of(one) == placements_of(other),
        branch_total(one) == branch_total(other),
    decreases one.len(),
{
    lemma_run_extends(one, first, cells, solved);
    lemma_run_extends(other, first, cells, solved2);
    if one.len() == 0 {
        assert(one =~= other);
    } else {
        lemma_run_rest(one, first, cells, solved);
        lemma_run_rest(other, first, cells, solved2);
        lemma_branch_total_first(one);
        lemma_branch_total_first(other);
        let rest_one = rest_of(one);
        let rest_other = rest_of(other);
        let after_one = placed(cells, one[0].placement);
        let after_other = placed(cells, other[0].placement);
        lemma_placed_in_range(cells, one[0].placement);
        lemma_placed_in_range(cells, other[0].placement);
        lemma_run_completes(rest_one, start_after(one[0]), after_one, solved);
        lemma_run_completes(rest_other, start_after(other[0]), after_other, solved2);
        lemma_first_steps_agree(one[0], other[0]);
        lemma_runs_agree(rest_one, rest_other, start_after(one[0]), after_one, solved, solved2);
        assert(placements_of(rest_one).len() == placements_of(rest_other).len());
        assert forall|d: int| 0 <= d < one.len() implies placements_of(one)[d]
            == placements_of(other)[d] by {
            if d > 0 {
                assert(placements_of(rest_one)[d - 1] == placements_of(rest_other)[d - 1]);
            }
        }
        assert(placements_of(one) =~= placements_of(other));
    }
}

/// What a run of the strategy from a grid gives: the solved grid, the
/// placements and the branch count.
pub struct Outcome {
    pub solved: Seq<u8>,
    pub placements: Seq<Placement>,
    pub branches: int,
}

/// Some run of the strategy from `cells` gives the outcome.
pub open spec fn is_outcome(cells: Seq<u8>, outcome: Outcome) -> bool {
    is_outcome_of_run(cells, outcome.solved, outcome.placements, outcome.branches)
}

/// The outcome of a grid with values in range that has a completion: what
/// every run of the strategy from the grid gives.
pub open spec fn outcome_of(cells: Seq<u8>) -> Outcome {
    choose|outcome: Outcome| is_outcome(cells, outcome)
}

/// The number of branches of a grid: the number that every run of the
/// strategy from the grid counts.
pub open spec fn branch_count(cells: Seq<u8>) -> int {
    outcome_of(cells).branches
}

/// A grid with values in range has one outcome: what one run of the
/// strategy from the grid gives is what every run gives.
pub proof fn lemma_outcome_is_pinned(
    cells: Seq<u8>,
    solved: Seq<u8>,
    placements: Seq<Placement>,
    branches: int,
)
    requires
        values_in_range(cells),
        is_outcome_of_run(cells, solved, placements, branches),
    ensures
        solved == outcome_of(cells).solved,
        placements == outcome_of(cells).placements,
        branches == outcome_of(cells).branches,
{
    let given = Outcome { solved, placements, branches };
    assert(is_outcome(cells, given));
    let chosen = outcome_of(cells);
    let steps = choose|steps: Seq<StepView>| #[trigger]
        is_run(steps, cells, solved) && placements == placements_of(steps) && branches
            == branch_total(steps);
    let steps2 = choose|steps2: Seq<StepView>| #[trigger]
        is_run(steps2, cells, chosen.solved) && chosen.placements == placements_of(steps2)
            && chosen.branches == branch_total(steps2);
    lemma_runs_agree(steps, steps2, 0, cells, solved, chosen.solved);
}

/// The number of branches of a grid with values in range is one number.
pub proof fn lemma_branch_count_is_unique(cells: Seq<u8>, branches: int)
    requires
        values_in_range(cells),
        is_branch_count(cells, branches),
    ensures
        branches == branch_count(cells),
{
    let (steps, solved) = choose|steps: Seq<StepView>, solved: Seq<u8>| #[trigger]
        is_run(steps, cells, solved) && branches == branch_total(steps);
    assert(is_outcome_of_run(cells, solved, placements_of(steps), branches));
    lemma_outcome_is_pinned(cells, solved, placements_of(steps), branches);
}

/// What the least-options strategy finds out about a board with values in
/// range: the number of branches of the board if it is a puzzle, and else
/// that it is none.
pub open spec fn verdict_of(board: SudokuBoard) -> Verification {
    if is_puzzle(board) {
        Verification::ValidWithBranches(branch_count(board.values@) as u32)
    } else {
        Verification::NotValid
    }
}

/// A verdict that tells the puzzles from the other boards, and that reports
/// for a puzzle the branches of some run of the strategy, is the verdict of
/// the strategy.
pub proof fn lemma_verdict_is_pinned(board: SudokuBoard, verdict: Verification)
    requires
        values_in_range(board.values@),
        verify_outcome(board, verdict),
        verdict matches Verification::ValidWithBranches(branches) ==> is_branch_count(
            board.values@,
            branches as int,
        ),
    ensures
        verdict == verdict_of(board),
{
    if let Verification::ValidWithBranches(branches) = verdict {
        lemma_branch_count_is_unique(board.values@, branches as int);
    }
}

} // verus!
