//! Which placement the least-options strategy takes on a grid.
//!
//! An option is a value together with a unit in which some cells accept it.
//! The strategy takes an option with the fewest cells, and among these the
//! first that its sweep comes to. The sweep goes by cell in row-major order,
//! then row before column before box, then by value. It starts at the first
//! cell, but for one case: after a forced placement, one of an option with
//! one cell, it goes on behind the cell that was filled, and starts anew
//! only when it finds no further option with one cell from there on.

use vstd::prelude::*;
use crate::board::Placement;
use crate::completion::has_completion;
use crate::grid::{
    grid_filled, grid_valid, lemma_cell_units, lemma_unit_cell, lemma_unit_of, pos_in_unit,
    unit_cell, unit_of, value_allowed, Unit,
};
use crate::solver::options::{unit_sum, AvailableOptions};
use crate::solver::search::{
    base_of, branch_total, cell_of, conflict, in_range, lemma_abandoned_is_barren, link_fits,
    placed, placement_at, placements_of, search_fits, state_at, StepView,
};

verus! {

/// Number of cells among the first `upto` of a unit that accept the value
/// `n`.
pub open spec fn accepting_cells(cells: Seq<u8>, kind: Unit, group: int, n: int, upto: int) -> int
    decreases upto,
{
    if upto <= 0 {
        0
    } else {
        accepting_cells(cells, kind, group, n, upto - 1) + if value_allowed(
            cells,
            unit_cell(kind, group, upto - 1),
            n,
        ) {
            1int
        } else {
            0int
        }
    }
}

/// The cell with index `i` accepts the value of slot `slot`, and `k` cells
/// of its unit of the given kind do.
pub open spec fn has_option(cells: Seq<u8>, i: int, kind: Unit, slot: int, k: int) -> bool {
    value_allowed(cells, i, slot + 1) && accepting_cells(
        cells,
        kind,
        unit_of(kind, i),
        slot + 1,
        9,
    ) == k
}

/// The place of a kind of unit in the order of the sweep.
pub open spec fn kind_rank(kind: Unit) -> int {
    match kind {
        Unit::Row => 0,
        Unit::Column => 1,
        Unit::Box => 2,
    }
}

/// The sweep looks at slot `slot2` of the kind `kind2` of cell `j` before it
/// looks at slot `slot` of the kind `kind` of cell `i`.
pub open spec fn comes_before(
    j: int,
    kind2: Unit,
    slot2: int,
    i: int,
    kind: Unit,
    slot: int,
) -> bool {
    j < i || (j == i && (kind_rank(kind2) < kind_rank(kind) || (kind2 == kind && slot2 < slot)))
}

/// No cell has an option with fewer than `k` cells.
pub open spec fn no_fewer_options(cells: Seq<u8>, k: int) -> bool {
    forall|j: int, kind: Unit, slot: int, fewer: int|
        0 <= j < 81 && 0 <= slot < 9 && 1 <= fewer < k ==> !#[trigger] has_option(
            cells,
            j,
            kind,
            slot,
            fewer,
        )
}

/// Some cell from the cell `lo` on has an option with one cell.
pub open spec fn forced_from(cells: Seq<u8>, lo: int) -> bool {
    exists|j: int, kind: Unit, slot: int|
        lo <= j < 81 && 0 <= slot < 9 && #[trigger] has_option(cells, j, kind, slot, 1)
}

/// The first option with `k` cells that a sweep from the cell `lo` on comes
/// to.
pub open spec fn is_first_option(
    cells: Seq<u8>,
    lo: int,
    i: int,
    kind: Unit,
    slot: int,
    k: int,
) -> bool {
    &&& 0 <= lo <= i < 81
    &&& 0 <= slot < 9
    &&& has_option(cells, i, kind, slot, k)
    &&& forall|j: int, kind2: Unit, slot2: int|
        lo <= j < 81 && 0 <= slot2 < 9 && comes_before(j, kind2, slot2, i, kind, slot)
            ==> !#[trigger] has_option(cells, j, kind2, slot2, k)
}

/// The option that the strategy takes on a grid when its sweep stands at
/// the cell `lo`: an option with the fewest cells. If that is one cell and
/// a cell from `lo` on has such an option, it is the first that the sweep
/// comes to from there. Else it is the first that a sweep over all cells
/// comes to.
pub open spec fn is_chosen_option(
    cells: Seq<u8>,
    lo: int,
    i: int,
    kind: Unit,
    slot: int,
    k: int,
) -> bool {
    &&& 0 <= lo <= 81
    &&& 1 <= k <= 9
    &&& no_fewer_options(cells, k)
    &&& if k == 1 && forced_from(cells, lo) {
        is_first_option(cells, lo, i, kind, slot, 1)
    } else {
        is_first_option(cells, 0, i, kind, slot, k)
    }
}

/// A placement takes an option: it puts the value of the option into a
/// cell of the unit of the option that accepts it.
pub open spec fn takes_option(
    cells: Seq<u8>,
    p: Placement,
    i: int,
    kind: Unit,
    slot: int,
) -> bool {
    &&& p.2 == slot + 1
    &&& in_range(p)
    &&& unit_of(kind, cell_of(p)) == unit_of(kind, i)
    &&& value_allowed(cells, cell_of(p), slot + 1)
}

/// The cells among the first `upto` of a unit, but for the cell `skip`, that
/// accept the value of slot `slot`, each as a placement of that value, in
/// the order of the unit.
pub open spec fn other_cells(
    cells: Seq<u8>,
    kind: Unit,
    group: int,
    skip: int,
    slot: int,
    upto: int,
) -> Seq<Placement>
    decreases upto,
{
    if upto <= 0 {
        Seq::empty()
    } else {
        let rest = other_cells(cells, kind, group, skip, slot, upto - 1);
        let j = unit_cell(kind, group, upto - 1);
        if j != skip && value_allowed(cells, j, slot + 1) {
            rest.push(placement_at(j, slot))
        } else {
            rest
        }
    }
}

/// The alternatives of an option of a cell: the other cells of its unit
/// that accept its value, in the order of the unit.
pub open spec fn option_alts(cells: Seq<u8>, i: int, kind: Unit, slot: int) -> Seq<Placement> {
    other_cells(cells, kind, unit_of(kind, i), i, slot, 9)
}

/// A step keeps the order in which the cells of its option are tried: the
/// cell of the option first, then the alternatives from the last to the
/// first. Its alternatives are the ones that are still to be tried, and its
/// placement is the one that is tried now.
pub open spec fn keeps_order(s: StepView, i: int, kind: Unit, slot: int) -> bool {
    let all = option_alts(s.before, i, kind, slot);
    &&& s.alts.len() <= all.len()
    &&& s.alts == all.take(s.alts.len() as int)
    &&& s.placement == if s.alts.len() == all.len() {
        placement_at(i, slot)
    } else {
        all[s.alts.len() as int]
    }
}

/// A step follows the strategy: it takes the chosen option of the grid
/// before it, tries the cells of that option in their order, and its branch
/// count is the number of cells that it has left to try.
pub open spec fn follows_strategy(s: StepView, i: int, kind: Unit, slot: int, k: int) -> bool {
    &&& is_chosen_option(s.before, s.from, i, kind, slot, k)
    &&& s.others == k - 1
    &&& s.branches == s.alts.len()
    &&& takes_option(s.before, s.placement, i, kind, slot)
    &&& forall|a: int|
        0 <= a < s.alts.len() ==> takes_option(s.before, #[trigger] s.alts[a], i, kind, slot)
    &&& keeps_order(s, i, kind, slot)
}

/// A step follows the strategy for some option.
pub open spec fn is_strategic(s: StepView) -> bool {
    exists|i: int, kind: Unit, slot: int, k: int| #[trigger] follows_strategy(s, i, kind, slot, k)
}

/// No solved grid completes the grid after the placement.
pub open spec fn is_barren(cells: Seq<u8>, p: Placement) -> bool {
    !has_completion(placed(cells, p))
}

/// A step tries a cell of its option only when the cells that are tried
/// before it have led nowhere.
pub open spec fn finds_first(s: StepView, i: int, kind: Unit, slot: int) -> bool {
    let all = option_alts(s.before, i, kind, slot);
    s.alts.len() < all.len() ==> {
        &&& is_barren(s.before, placement_at(i, slot))
        &&& forall|j: int| s.alts.len() < j < all.len() ==> is_barren(s.before, #[trigger] all[j])
    }
}

/// A step follows the strategy for some option, and tries a cell of that
/// option only when the cells that are tried before it have led nowhere.
pub open spec fn is_first_found(s: StepView) -> bool {
    exists|i: int, kind: Unit, slot: int, k: int| #[trigger]
        follows_strategy(s, i, kind, slot, k) && finds_first(s, i, kind, slot)
}

/// Each of the other cells of a unit is a cell of the unit that accepts the
/// value, and they come in the order of the unit.
pub proof fn lemma_other_cells_named(
    cells: Seq<u8>,
    kind: Unit,
    group: int,
    skip: int,
    slot: int,
    upto: int,
)
    requires
        0 <= group < 9,
        0 <= slot < 9,
        0 <= upto <= 9,
    ensures
        forall|k: int|
            0 <= k < other_cells(cells, kind, group, skip, slot, upto).len() ==> {
                let alt = #[trigger] other_cells(cells, kind, group, skip, slot, upto)[k];
                &&& 0 <= cell_of(alt) < 81
                &&& in_range(alt)
                &&& alt == placement_at(cell_of(alt), slot)
                &&& unit_of(kind, cell_of(alt)) == group
                &&& pos_in_unit(kind, cell_of(alt)) < upto
                &&& cell_of(alt) != skip
                &&& value_allowed(cells, cell_of(alt), slot + 1)
            },
        forall|j: int, k: int|
            0 <= j < k < other_cells(cells, kind, group, skip, slot, upto).len() ==> pos_in_unit(
                kind,
                cell_of(#[trigger] other_cells(cells, kind, group, skip, slot, upto)[j]),
            ) < pos_in_unit(
                kind,
                cell_of(#[trigger] other_cells(cells, kind, group, skip, slot, upto)[k]),
            ),
    decreases upto,
{
    if upto > 0 {
        lemma_other_cells_named(cells, kind, group, skip, slot, upto - 1);
        lemma_unit_cell(kind, group, upto - 1);
        let rest = other_cells(cells, kind, group, skip, slot, upto - 1);
        let here = other_cells(cells, kind, group, skip, slot, upto);
        let j = unit_cell(kind, group, upto - 1);
        lemma_cell_units(j);
        assert(cell_of(placement_at(j, slot)) == j);
        assert forall|a: int, b: int| 0 <= a < b < here.len() implies pos_in_unit(
            kind,
            cell_of(#[trigger] here[a]),
        ) < pos_in_unit(kind, cell_of(#[trigger] here[b])) by {
            assert(here[a] == rest[a]);
            if b < rest.len() {
                assert(here[b] == rest[b]);
            } else {
                assert(cell_of(here[b]) == j);
            }
        }
    }
}

/// The other cells of a unit leave out no cell of the unit that accepts the
/// value, but for the one that is to be left out.
pub proof fn lemma_other_cells_complete(
    cells: Seq<u8>,
    kind: Unit,
    group: int,
    skip: int,
    slot: int,
    upto: int,
)
    requires
        0 <= group < 9,
        0 <= slot < 9,
        0 <= upto <= 9,
    ensures
        forall|p: int|
            0 <= p < upto && unit_cell(kind, group, p) != skip && value_allowed(
                cells,
                #[trigger] unit_cell(kind, group, p),
                slot + 1,
            ) ==> exists|k: int|
                0 <= k < other_cells(cells, kind, group, skip, slot, upto).len() && cell_of(
                    #[trigger] other_cells(cells, kind, group, skip, slot, upto)[k],
                ) == unit_cell(kind, group, p),
    decreases upto,
{
    if upto > 0 {
        lemma_other_cells_complete(cells, kind, group, skip, slot, upto - 1);
        let rest = other_cells(cells, kind, group, skip, slot, upto - 1);
        let here = other_cells(cells, kind, group, skip, slot, upto);
        let j = unit_cell(kind, group, upto - 1);
        lemma_unit_cell(kind, group, upto - 1);
        lemma_cell_units(j);
        assert(cell_of(placement_at(j, slot)) == j);
        assert forall|p: int|
            0 <= p < upto && unit_cell(kind, group, p) != skip && value_allowed(
                cells,
                #[trigger] unit_cell(kind, group, p),
                slot + 1,
            ) implies exists|k: int|
            0 <= k < here.len() && cell_of(#[trigger] here[k]) == unit_cell(kind, group, p) by {
            if p < upto - 1 {
                let k = choose|k: int|
                    0 <= k < rest.len() && cell_of(#[trigger] rest[k]) == unit_cell(
                        kind,
                        group,
                        p,
                    );
                assert(cell_of(here[k]) == unit_cell(kind, group, p));
            } else {
                assert(cell_of(here[here.len() - 1]) == unit_cell(kind, group, p));
            }
        }
    }
}

/// A placement that takes an option in another cell cannot stand together
/// with one that takes it too.
pub proof fn lemma_takers_conflict(
    cells: Seq<u8>,
    p: Placement,
    q: Placement,
    i: int,
    kind: Unit,
    slot: int,
)
    requires
        takes_option(cells, p, i, kind, slot),
        takes_option(cells, q, i, kind, slot),
        cell_of(p) != cell_of(q),
    ensures
        conflict(p, q),
{
    match kind {
        Unit::Row => {},
        Unit::Column => {},
        Unit::Box => {},
    }
}

/// The cell at which the sweep stands after a step: the cell after the one
/// that the step filled, if the step was forced, and else the first cell,
/// because the sweep starts anew.
pub open spec fn start_after(s: StepView) -> int {
    if s.others == 0 {
        cell_of(s.placement) + 1
    } else {
        0
    }
}

/// The cell at which the sweep stands after some steps.
pub open spec fn next_start(steps: Seq<StepView>) -> int {
    if steps.len() > 0 {
        start_after(steps.last())
    } else {
        0
    }
}

/// The cell at which the sweep stands before step `d` of a run whose sweep
/// started at the cell `first`.
pub open spec fn sweep_start(steps: Seq<StepView>, first: int, d: int) -> int {
    if d == 0 {
        first
    } else {
        next_start(steps.take(d))
    }
}

/// The sweep has come to its end: no cell from the one on at which it
/// stands has an option with one cell. This holds at once where the sweep
/// starts anew.
pub open spec fn is_swept(steps: Seq<StepView>, cells: Seq<u8>) -> bool {
    next_start(steps) > 0 ==> !forced_from(cells, next_start(steps))
}

/// Step `d` follows the strategy from where the sweep stands, tries a cell
/// only when the cells before it have led nowhere, and leads to the grid
/// before the next step.
pub open spec fn leads_on(steps: Seq<StepView>, first: int, solved: Seq<u8>, d: int) -> bool {
    &&& is_first_found(steps[d])
    &&& steps[d].from == sweep_start(steps, first, d)
    &&& steps[d].before.len() == 81
    &&& state_at(steps, solved, d + 1) == placed(steps[d].before, steps[d].placement)
}

/// The steps are a run of the strategy from the grid `cells`, with the
/// sweep at the cell `first`, to the filled and valid grid `solved`: the
/// first step starts from `cells`, each follows the strategy on the grid
/// that the one before it left, and the last leaves `solved`.
pub open spec fn is_run_from(
    steps: Seq<StepView>,
    first: int,
    cells: Seq<u8>,
    solved: Seq<u8>,
) -> bool {
    &&& solved.len() == 81
    &&& grid_filled(solved)
    &&& grid_valid(solved)
    &&& cells == base_of(steps, solved)
    &&& forall|d: int| 0 <= d < steps.len() ==> #[trigger] leads_on(steps, first, solved, d)
}

/// The steps are a run of the strategy from the grid `cells` to the filled
/// and valid grid `solved`, with a sweep that starts at the first cell.
pub open spec fn is_run(steps: Seq<StepView>, cells: Seq<u8>, solved: Seq<u8>) -> bool {
    is_run_from(steps, 0, cells, solved)
}

/// The placements and the branch count are those of a run of the strategy
/// from `cells` to `solved`.
pub open spec fn is_outcome_of_run(
    cells: Seq<u8>,
    solved: Seq<u8>,
    placements: Seq<Placement>,
    branches: int,
) -> bool {
    exists|steps: Seq<StepView>| #[trigger]
        is_run(steps, cells, solved) && placements == placements_of(steps) && branches
            == branch_total(steps)
}

/// Some run of the strategy from `cells` to a filled grid has the given
/// branch count.
pub open spec fn is_branch_count(cells: Seq<u8>, branches: int) -> bool {
    exists|steps: Seq<StepView>, solved: Seq<u8>| #[trigger]
        is_run(steps, cells, solved) && branches == branch_total(steps)
}

/// The steps of a search from an empty stack that has filled the grid are a run
/// of the strategy.
pub proof fn lemma_search_is_run(steps: Seq<StepView>, cells: Seq<u8>, clues: Seq<bool>)
    requires
        search_fits(steps, cells, clues, true, None),
        grid_filled(cells),
        grid_valid(cells),
    ensures
        is_run(steps, base_of(steps, cells), cells),
{
    assert forall|d: int| 0 <= d < steps.len() implies #[trigger] leads_on(steps, 0, cells, d) by {
        assert(link_fits(steps, cells, clues, d));
        let s = steps[d];
        let (i, kind, slot, k) = choose|i: int, kind: Unit, slot: int, k: int| #[trigger]
            follows_strategy(s, i, kind, slot, k);
        lemma_tried_cells_are_barren(steps, cells, clues, d, i, kind, slot, k);
    }
}

/// When a search from an empty stack has filled the grid, the cells of an option
/// that were tried before the placement of a step have led nowhere.
pub proof fn lemma_tried_cells_are_barren(
    steps: Seq<StepView>,
    cells: Seq<u8>,
    clues: Seq<bool>,
    d: int,
    i: int,
    kind: Unit,
    slot: int,
    k: int,
)
    requires
        search_fits(steps, cells, clues, true, None),
        grid_filled(cells),
        grid_valid(cells),
        0 <= d < steps.len(),
        follows_strategy(steps[d], i, kind, slot, k),
    ensures
        finds_first(steps[d], i, kind, slot),
{
    let s = steps[d];
    let all = option_alts(s.before, i, kind, slot);
    let left = s.alts.len() as int;
    lemma_unit_of(kind, i);
    lemma_cell_units(i);
    lemma_other_cells_named(s.before, kind, unit_of(kind, i), i, slot, 9);
    if left < all.len() {
        assert(s.placement == all[left]);
        assert forall|j: int| left < j < all.len() implies is_barren(
            s.before,
            #[trigger] all[j],
        ) by {
            assert(takes_option(s.before, all[j], i, kind, slot));
            lemma_takers_conflict(s.before, s.placement, all[j], i, kind, slot);
            assert forall|a: int| 0 <= a < s.alts.len() implies conflict(
                #[trigger] s.alts[a],
                all[j],
            ) by {
                assert(s.alts[a] == all[a]);
                lemma_takers_conflict(s.before, s.alts[a], all[j], i, kind, slot);
            }
            lemma_abandoned_is_barren(steps, cells, clues, d, all[j]);
        }
        let own = placement_at(i, slot);
        assert(takes_option(s.before, own, i, kind, slot));
        lemma_takers_conflict(s.before, s.placement, own, i, kind, slot);
        assert forall|a: int| 0 <= a < s.alts.len() implies conflict(
            #[trigger] s.alts[a],
            own,
        ) by {
            assert(s.alts[a] == all[a]);
            lemma_takers_conflict(s.before, s.alts[a], own, i, kind, slot);
        }
        lemma_abandoned_is_barren(steps, cells, clues, d, own);
    }
}

/// The sums of an index that describes a grid count the cells that accept
/// a value.
pub proof fn lemma_sums_count_accepting(
    opts: AvailableOptions,
    cells: Seq<u8>,
    kind: Unit,
    group: int,
    slot: int,
    upto: int,
)
    requires
        opts.describes(cells),
        0 <= group < 9,
        0 <= slot < 9,
        0 <= upto <= 9,
    ensures
        unit_sum(opts.placements@, kind, group, slot, upto) == accepting_cells(
            cells,
            kind,
            group,
            slot + 1,
            upto,
        ),
    decreases upto,
{
    if upto > 0 {
        lemma_sums_count_accepting(opts, cells, kind, group, slot, upto - 1);
        lemma_unit_cell(kind, group, upto - 1);
        let j = unit_cell(kind, group, upto - 1);
        assert(opts.current_at(cells, j));
        assert(opts.placements@[j][slot] == if value_allowed(cells, j, slot + 1) {
            1u8
        } else {
            0u8
        });
    }
}

/// For an index that describes a grid, the options that it shows are the
/// options of the grid.
pub proof fn lemma_option_of_grid(
    opts: AvailableOptions,
    cells: Seq<u8>,
    i: int,
    kind: Unit,
    slot: int,
    k: int,
)
    requires
        opts.describes(cells),
        0 <= i < 81,
        0 <= slot < 9,
    ensures
        has_option(cells, i, kind, slot, k) <==> (opts.placements@[i][slot] == 1 && opts.options(
            kind,
        )[unit_of(kind, i)][slot] == k),
{
    lemma_unit_of(kind, i);
    lemma_sums_count_accepting(opts, cells, kind, unit_of(kind, i), slot, 9);
    assert(opts.current_at(cells, i));
    assert(opts.placements@[i][slot] == if value_allowed(cells, i, slot + 1) {
        1u8
    } else {
        0u8
    });
}

} // verus!
