//! What the sweep of the solver over the constraint index finds: the
//! options of a cell, the alternatives of an option, and the step that
//! commits an option.

use vstd::prelude::*;
use crate::board::Placement;
use crate::completion::{is_completion, lemma_completion_places, lemma_completion_value_allowed};
use crate::grid::{
    grid_filled, lemma_cell_units, lemma_unit_cell, lemma_unit_of, pos_in_unit, unit_cell, unit_of,
    value_allowed, Unit,
};
use crate::group::Group;
use crate::solver::choice::{
    comes_before, follows_strategy, forced_from, has_option, is_chosen_option, is_first_option,
    is_strategic, is_swept, keeps_order, lemma_option_of_grid,
    lemma_other_cells_complete, lemma_other_cells_named, lemma_takers_conflict, next_start,
    option_alts, other_cells, takes_option,
};
use crate::solver::cost::{has_choice, is_choice, Choice};
use crate::solver::options::{are_flags, lemma_unit_sum_bounds, unit_sum, AvailableOptions};
use crate::solver::search::{
    alt_fits, cell_of, chain_fits, conflict, is_dead_end, link_fits, placed, placement_at,
    splits, step_fits, StepView,
};

verus! {

/// The cells among the first `upto` of a unit, but for the cell `skip`, that
/// accept the value of slot `slot`, each as a placement of that value, in
/// the order of the unit.
pub open spec fn unit_alts(
    placements: Seq<Group>,
    kind: Unit,
    group: int,
    skip: int,
    slot: int,
    upto: int,
) -> Seq<Placement>
    decreases upto,
{
    if upto <= 0 {
        Seq::empty()
    } else {
        let rest = unit_alts(placements, kind, group, skip, slot, upto - 1);
        let j = unit_cell(kind, group, upto - 1);
        if j != skip && placements[j][slot] == 1 {
            rest.push(placement_at(j, slot))
        } else {
            rest
        }
    }
}

/// Slot `slot` is an option of the cell with index `i` in a unit whose sums
/// are `group`: the cell accepts the value, and `num_opts` cells of the
/// unit do.
pub open spec fn is_option(
    placements: Seq<Group>,
    i: int,
    group: Group,
    num_opts: u8,
    slot: int,
) -> bool {
    group[slot] == num_opts && placements[i][slot] == 1
}

/// The alternatives that a unit offers are as many as the sum of the unit
/// says, less the cell that is left out.
pub proof fn lemma_alts_count(
    placements: Seq<Group>,
    kind: Unit,
    group: int,
    skip: int,
    slot: int,
    upto: int,
)
    requires
        are_flags(placements),
        0 <= group < 9,
        0 <= slot < 9,
        0 <= upto <= 9,
        0 <= skip < 81,
    ensures
        unit_alts(placements, kind, group, skip, slot, upto).len() == unit_sum(
            placements,
            kind,
            group,
            slot,
            upto,
        ) - if unit_of(kind, skip) == group && pos_in_unit(kind, skip) < upto {
            placements[skip][slot] as int
        } else {
            0int
        },
    decreases upto,
{
    if upto > 0 {
        lemma_alts_count(placements, kind, group, skip, slot, upto - 1);
        lemma_unit_cell(kind, group, upto - 1);
        lemma_unit_of(kind, skip);
        assert(placements[unit_cell(kind, group, upto - 1)][slot] <= 1);
    }
}

/// The alternatives that the index offers for a unit are the other cells
/// of the unit that accept the value.
pub proof fn lemma_alts_of_grid(
    opts: AvailableOptions,
    cells: Seq<u8>,
    kind: Unit,
    group: int,
    skip: int,
    slot: int,
    upto: int,
)
    requires
        opts.describes(cells),
        0 <= group < 9,
        0 <= slot < 9,
        0 <= upto <= 9,
    ensures
        unit_alts(opts.placements@, kind, group, skip, slot, upto) == other_cells(
            cells,
            kind,
            group,
            skip,
            slot,
            upto,
        ),
    decreases upto,
{
    if upto > 0 {
        lemma_alts_of_grid(opts, cells, kind, group, skip, slot, upto - 1);
        lemma_unit_cell(kind, group, upto - 1);
        let j = unit_cell(kind, group, upto - 1);
        assert(opts.current_at(cells, j));
        assert(opts.placements@[j][slot] == if value_allowed(cells, j, slot + 1) {
            1u8
        } else {
            0u8
        });
    }
}

/// The step that commits an option of a cell, found by a sweep that stood
/// at the cell `from`.
pub open spec fn option_step(
    opts: AvailableOptions,
    cells: Seq<u8>,
    kind: Unit,
    i: int,
    slot: int,
    num_opts: u8,
    from: int,
) -> StepView {
    StepView {
        placement: placement_at(i, slot),
        alts: unit_alts(opts.placements@, kind, unit_of(kind, i), i, slot, 9),
        branches: (num_opts - 1) as u32,
        others: (num_opts - 1) as u32,
        before: cells,
        from,
    }
}

/// The alternatives of an option of a cell: each takes the option in
/// another cell than the one of the option, no two name the same cell, and
/// every other cell of the unit that accepts the value is named.
pub open spec fn alts_cover(
    cells: Seq<u8>,
    kind: Unit,
    i: int,
    slot: int,
    alts: Seq<Placement>,
) -> bool {
    &&& forall|k: int|
        0 <= k < alts.len() ==> takes_option(cells, #[trigger] alts[k], i, kind, slot) && cell_of(
            alts[k],
        ) != i
    &&& forall|j: int, k: int|
        0 <= j < k < alts.len() ==> cell_of(#[trigger] alts[j]) != cell_of(#[trigger] alts[k])
    &&& forall|p: int|
        0 <= p < 9 && unit_cell(kind, unit_of(kind, i), p) != i && value_allowed(
            cells,
            #[trigger] unit_cell(kind, unit_of(kind, i), p),
            slot + 1,
        ) ==> exists|k: int|
            0 <= k < alts.len() && cell_of(#[trigger] alts[k]) == unit_cell(
                kind,
                unit_of(kind, i),
                p,
            )
}

/// The alternatives that the index offers for an option of a cell cover the
/// other cells of the option, and are one less than the sum of the unit
/// says.
pub proof fn lemma_alts_cover(
    opts: AvailableOptions,
    cells: Seq<u8>,
    kind: Unit,
    i: int,
    slot: int,
)
    requires
        opts.describes(cells),
        cells.len() == 81,
        0 <= i < 81,
        0 <= slot < 9,
        opts.placements@[i][slot] == 1,
    ensures
        alts_cover(
            cells,
            kind,
            i,
            slot,
            unit_alts(opts.placements@, kind, unit_of(kind, i), i, slot, 9),
        ),
        unit_alts(opts.placements@, kind, unit_of(kind, i), i, slot, 9).len() == opts.options(
            kind,
        )[unit_of(kind, i)][slot] - 1,
        1 <= opts.options(kind)[unit_of(kind, i)][slot] <= 9,
        value_allowed(cells, i, slot + 1),
{
    let group = unit_of(kind, i);
    let placements = opts.placements@;
    let alts = unit_alts(placements, kind, group, i, slot, 9);
    lemma_unit_of(kind, i);
    lemma_alts_count(placements, kind, group, i, slot, 9);
    lemma_alts_of_grid(opts, cells, kind, group, i, slot, 9);
    lemma_other_cells_named(cells, kind, group, i, slot, 9);
    lemma_other_cells_complete(cells, kind, group, i, slot, 9);
    lemma_unit_sum_bounds(placements, kind, group, slot, 9);
    assert(opts.options(kind)[group][slot] == unit_sum(placements, kind, group, slot, 9));
    assert(placements[unit_cell(kind, group, pos_in_unit(kind, i))][slot] <= unit_sum(
        placements,
        kind,
        group,
        slot,
        9,
    ));
    assert(opts.current_at(cells, i));
}

/// A step whose alternatives cover the other cells of the option that it
/// takes is well formed.
pub proof fn lemma_covered_step_fits(s: StepView, i: int, kind: Unit, slot: int)
    requires
        s.before.len() == 81,
        0 <= i < 81,
        0 <= slot < 9,
        s.placement == placement_at(i, slot),
        value_allowed(s.before, i, slot + 1),
        alts_cover(s.before, kind, i, slot, s.alts),
        s.alts.len() <= s.others <= 8,
        s.branches == s.alts.len(),
    ensures
        cell_of(s.placement) == i,
        step_fits(s, placed(s.before, s.placement)),
{
    lemma_cell_units(i);
    assert(takes_option(s.before, s.placement, i, kind, slot));
    assert forall|k: int| 0 <= k < s.alts.len() implies #[trigger] alt_fits(s, k) by {
        lemma_takers_conflict(s.before, s.placement, s.alts[k], i, kind, slot);
    }
    assert forall|j: int, k: int| 0 <= j < k < s.alts.len() implies conflict(
        #[trigger] s.alts[j],
        #[trigger] s.alts[k],
    ) by {
        lemma_takers_conflict(s.before, s.alts[j], s.alts[k], i, kind, slot);
    }
}

/// A step whose alternatives cover the other cells of the option that it
/// takes splits the completions of the grid.
pub proof fn lemma_covered_step_splits(s: StepView, i: int, kind: Unit, slot: int)
    requires
        s.before.len() == 81,
        0 <= i < 81,
        0 <= slot < 9,
        s.placement == placement_at(i, slot),
        value_allowed(s.before, i, slot + 1),
        alts_cover(s.before, kind, i, slot, s.alts),
    ensures
        splits(s.before, s),
{
    let cells = s.before;
    let group = unit_of(kind, i);
    lemma_cell_units(i);
    assert forall|grid: Seq<u8>| #[trigger] is_completion(grid, cells) implies grid[cell_of(
        s.placement,
    )] == s.placement.2 || exists|k: int|
        0 <= k < s.alts.len() && grid[cell_of(#[trigger] s.alts[k])] == s.alts[k].2 by {
        lemma_completion_places(grid, cells, kind, i, slot + 1);
        let p = choose|p: int|
            0 <= p < 9 && #[trigger] grid[unit_cell(kind, group, p)] == slot + 1 && value_allowed(
                cells,
                unit_cell(kind, group, p),
                slot + 1,
            );
        let j = unit_cell(kind, group, p);
        if j != i {
            let k = choose|k: int| 0 <= k < s.alts.len() && cell_of(#[trigger] s.alts[k]) == j;
            assert(takes_option(cells, s.alts[k], i, kind, slot));
            assert(grid[cell_of(s.alts[k])] == s.alts[k].2);
        }
    }
}

/// The step that commits an option of a cell is well formed, has one
/// alternative less than the unit has cells for the value, and splits the
/// completions of the grid.
pub proof fn lemma_option_step(
    opts: AvailableOptions,
    cells: Seq<u8>,
    kind: Unit,
    i: int,
    slot: int,
    num_opts: u8,
    from: int,
)
    requires
        opts.describes(cells),
        cells.len() == 81,
        0 <= i < 81,
        0 <= slot < 9,
        is_option(opts.placements@, i, opts.options(kind)[unit_of(kind, i)], num_opts, slot),
    ensures
        1 <= num_opts <= 9,
        cells[i] == 0,
        cell_of(placement_at(i, slot)) == i,
        option_step(opts, cells, kind, i, slot, num_opts, from).alts.len() == num_opts - 1,
        step_fits(
            option_step(opts, cells, kind, i, slot, num_opts, from),
            placed(cells, placement_at(i, slot)),
        ),
        splits(cells, option_step(opts, cells, kind, i, slot, num_opts, from)),
{
    let s = option_step(opts, cells, kind, i, slot, num_opts, from);
    lemma_alts_cover(opts, cells, kind, i, slot);
    lemma_covered_step_fits(s, i, kind, slot);
    lemma_covered_step_splits(s, i, kind, slot);
}

/// The cell with index `i` has no option with exactly `num_opts` cells in
/// any of its units.
pub open spec fn no_option_at(opts: AvailableOptions, i: int, num_opts: u8) -> bool {
    forall|kind: Unit, slot: int|
        0 <= slot < 9 ==> !#[trigger] is_option(
            opts.placements@,
            i,
            opts.options(kind)[unit_of(kind, i)],
            num_opts,
            slot,
        )
}

/// No empty cell has an option with fewer than `num_opts` cells, and none of
/// the empty cells before `index` has one with exactly `num_opts`.
pub open spec fn no_option_before(
    opts: AvailableOptions,
    cells: Seq<u8>,
    num_opts: u8,
    index: int,
) -> bool {
    forall|i: int, k: u8|
        0 <= i < 81 && cells[i] == 0 && 1 <= k <= num_opts && (k < num_opts || i < index)
            ==> #[trigger] no_option_at(opts, i, k)
}

/// None of the empty cells from `lo` up to and without `hi` has an option
/// with exactly `num_opts` cells.
pub open spec fn no_option_between(
    opts: AvailableOptions,
    cells: Seq<u8>,
    num_opts: u8,
    lo: int,
    hi: int,
) -> bool {
    forall|i: int|
        0 <= lo <= i < hi && i < 81 && cells[i] == 0 ==> #[trigger] no_option_at(
            opts,
            i,
            num_opts,
        )
}

/// The sweep, which stood at the cell `lo` before, has found no option
/// before it came to slot `slot` of the kind `kind` of the cell with index
/// `index`: none with fewer cells, none with as many cells in an earlier
/// cell, and none in this cell for an earlier kind or slot. For an option
/// with one cell, the earlier cells are those from `lo` on, or all of them
/// if no cell from `lo` on has such an option.
pub open spec fn first_in_sweep(
    opts: AvailableOptions,
    cells: Seq<u8>,
    lo: int,
    index: int,
    kind: Unit,
    slot: int,
    num_opts: u8,
) -> bool {
    &&& 0 <= lo <= 81
    &&& forall|kind2: Unit, slot2: int|
        0 <= slot2 < 9 && comes_before(index, kind2, slot2, index, kind, slot)
            ==> !#[trigger] is_option(
            opts.placements@,
            index,
            opts.options(kind2)[unit_of(kind2, index)],
            num_opts,
            slot2,
        )
    &&& num_opts >= 2 ==> no_option_before(opts, cells, num_opts, index)
    &&& num_opts == 1 ==> {
        ||| lo <= index && no_option_between(opts, cells, 1, lo, index)
        ||| no_option_between(opts, cells, 1, 0, index) && !forced_from(cells, lo)
    }
}

/// An option of the grid in a cell before `index` that the sweep has seen
/// is an option that the index shows, and there is none.
pub proof fn lemma_no_option_seen(
    opts: AvailableOptions,
    cells: Seq<u8>,
    j: int,
    kind: Unit,
    slot: int,
    k: u8,
)
    requires
        opts.describes(cells),
        0 <= j < 81,
        0 <= slot < 9,
        cells[j] == 0 ==> no_option_at(opts, j, k),
    ensures
        !has_option(cells, j, kind, slot, k as int),
{
    lemma_option_of_grid(opts, cells, j, kind, slot, k as int);
    if has_option(cells, j, kind, slot, k as int) {
        assert(is_option(opts.placements@, j, opts.options(kind)[unit_of(kind, j)], k, slot));
    }
}

/// A sweep that has found no option with one cell from the cell `lo` on
/// has come to its end.
pub proof fn lemma_sweep_done(opts: AvailableOptions, cells: Seq<u8>, lo: int)
    requires
        opts.describes(cells),
        0 <= lo,
        no_option_between(opts, cells, 1, lo, 81),
    ensures
        !forced_from(cells, lo),
{
    if forced_from(cells, lo) {
        let (j, kind, slot) = choose|j: int, kind: Unit, slot: int|
            lo <= j < 81 && 0 <= slot < 9 && #[trigger] has_option(cells, j, kind, slot, 1);
        if cells[j] == 0 {
            assert(no_option_at(opts, j, 1));
        }
        lemma_no_option_seen(opts, cells, j, kind, slot, 1);
    }
}

/// How far the sweep for options with `num_opts` cells has come when it
/// looks at the cell with index `index`. It has seen no option with fewer
/// cells, and none with as many in an earlier cell. For options with one
/// cell, the earlier cells are those from `clear_from` on, where the sweep
/// stood after the last step, or all cells, if the sweep before had come to
/// its end.
pub open spec fn swept_to(
    opts: AvailableOptions,
    steps: Seq<StepView>,
    cells: Seq<u8>,
    num_opts: u8,
    clear_from: int,
    index: int,
) -> bool {
    &&& num_opts >= 2 ==> no_option_before(opts, cells, num_opts, index)
    &&& num_opts == 1 ==> {
        &&& 0 <= clear_from <= index
        &&& no_option_between(opts, cells, 1, clear_from, index)
        &&& clear_from == next_start(steps) || (clear_from == 0 && is_swept(steps, cells))
    }
}

/// When the sweep has come as far as a cell and finds there an option that
/// no earlier kind and slot of the cell offers, that option is the first in
/// the sweep.
pub proof fn lemma_swept_first(
    opts: AvailableOptions,
    steps: Seq<StepView>,
    cells: Seq<u8>,
    clues: Seq<bool>,
    num_opts: u8,
    clear_from: int,
    index: int,
    kind: Unit,
    slot: int,
)
    requires
        chain_fits(steps, cells, clues),
        swept_to(opts, steps, cells, num_opts, clear_from, index),
        forall|kind2: Unit, slot2: int|
            0 <= slot2 < 9 && comes_before(index, kind2, slot2, index, kind, slot)
                ==> !#[trigger] is_option(
                opts.placements@,
                index,
                opts.options(kind2)[unit_of(kind2, index)],
                num_opts,
                slot2,
            ),
    ensures
        first_in_sweep(opts, cells, next_start(steps), index, kind, slot, num_opts),
{
    if steps.len() > 0 {
        assert(link_fits(steps, cells, clues, steps.len() - 1));
    }
}

/// A filled grid has no options, so every sweep over it has come to its
/// end.
pub proof fn lemma_filled_is_swept(steps: Seq<StepView>, cells: Seq<u8>)
    requires
        grid_filled(cells),
    ensures
        is_swept(steps, cells),
{
    let lo = next_start(steps);
    if forced_from(cells, lo) {
        let (j, kind, slot) = choose|j: int, kind: Unit, slot: int|
            lo <= j < 81 && 0 <= slot < 9 && #[trigger] has_option(cells, j, kind, slot, 1);
        assert(cells[j] > 0);
    }
}

/// The first option that the sweep finds is the option that the strategy
/// takes.
pub proof fn lemma_first_in_sweep_is_chosen(
    opts: AvailableOptions,
    cells: Seq<u8>,
    lo: int,
    index: int,
    kind: Unit,
    slot: int,
    num_opts: u8,
)
    requires
        opts.describes(cells),
        cells.len() == 81,
        0 <= index < 81,
        0 <= slot < 9,
        1 <= num_opts <= 9,
        is_option(
            opts.placements@,
            index,
            opts.options(kind)[unit_of(kind, index)],
            num_opts,
            slot,
        ),
        first_in_sweep(opts, cells, lo, index, kind, slot, num_opts),
    ensures
        is_chosen_option(cells, lo, index, kind, slot, num_opts as int),
{
    lemma_option_of_grid(opts, cells, index, kind, slot, num_opts as int);
    assert forall|j: int, kind2: Unit, slot2: int, fewer: int|
        0 <= j < 81 && 0 <= slot2 < 9 && 1 <= fewer < num_opts implies !#[trigger] has_option(
        cells,
        j,
        kind2,
        slot2,
        fewer,
    ) by {
        if cells[j] == 0 {
            assert(no_option_at(opts, j, fewer as u8));
        }
        lemma_no_option_seen(opts, cells, j, kind2, slot2, fewer as u8);
    }
    let start = if num_opts == 1 && lo <= index && no_option_between(opts, cells, 1, lo, index) {
        lo
    } else {
        0
    };
    assert forall|j: int, kind2: Unit, slot2: int|
        start <= j < 81 && 0 <= slot2 < 9 && comes_before(
            j,
            kind2,
            slot2,
            index,
            kind,
            slot,
        ) implies !#[trigger] has_option(cells, j, kind2, slot2, num_opts as int) by {
        if j < index {
            if cells[j] == 0 {
                if num_opts >= 2 {
                    assert(no_option_at(opts, j, num_opts));
                } else if start == lo {
                    assert(no_option_between(opts, cells, 1, lo, index));
                    assert(no_option_at(opts, j, 1));
                } else {
                    assert(no_option_between(opts, cells, 1, 0, index));
                    assert(no_option_at(opts, j, 1));
                }
            }
            lemma_no_option_seen(opts, cells, j, kind2, slot2, num_opts);
        } else {
            lemma_option_of_grid(opts, cells, j, kind2, slot2, num_opts as int);
            assert(!is_option(
                opts.placements@,
                index,
                opts.options(kind2)[unit_of(kind2, index)],
                num_opts,
                slot2,
            ));
        }
    }
    assert(is_first_option(cells, start, index, kind, slot, num_opts as int));
    if start > 0 {
        assert(forced_from(cells, lo));
    }
}

/// Where the index shows no option at all, the strategy finds no option to
/// take.
pub proof fn lemma_no_option_no_choice(opts: AvailableOptions, cells: Seq<u8>, lo: int)
    requires
        opts.describes(cells),
        no_option_before(opts, cells, 10, 0),
    ensures
        !has_choice(cells, lo),
{
    if has_choice(cells, lo) {
        let c = choose|c: Choice| is_choice(cells, lo, c);
        if cells[c.i] == 0 {
            assert(no_option_at(opts, c.i, c.k as u8));
        }
        lemma_no_option_seen(opts, cells, c.i, c.kind, c.slot, c.k as u8);
    }
}

/// A grid with an empty cell and without options has no completion.
pub proof fn lemma_no_option_dead_end(
    opts: AvailableOptions,
    cells: Seq<u8>,
    excluded: Option<Seq<u8>>,
)
    requires
        cells.len() == 81,
        opts.describes(cells),
        !grid_filled(cells),
        no_option_before(opts, cells, 10, 0),
    ensures
        is_dead_end(cells, excluded),
{
    let i = choose|i: int| 0 <= i < 81 && !(#[trigger] cells[i] > 0);
    assert forall|grid: Seq<u8>| #[trigger] is_completion(grid, cells) implies excluded == Some(
        grid,
    ) by {
        lemma_completion_value_allowed(grid, cells, i);
        let slot = grid[i] - 1;
        assert(opts.current_at(cells, i));
        assert(opts.placements@[i][slot] == 1);
        opts.lemma_own_sums(Unit::Row, i);
        let sum = opts.options(Unit::Row)[unit_of(Unit::Row, i)][slot];
        assert(no_option_at(opts, i, sum));
        assert(is_option(
            opts.placements@,
            i,
            opts.options(Unit::Row)[unit_of(Unit::Row, i)],
            sum,
            slot,
        ));
    }
}

/// The step that commits the first option of the sweep follows the
/// strategy.
pub proof fn lemma_option_step_is_strategic(
    opts: AvailableOptions,
    cells: Seq<u8>,
    kind: Unit,
    i: int,
    slot: int,
    num_opts: u8,
    from: int,
)
    requires
        opts.describes(cells),
        cells.len() == 81,
        0 <= i < 81,
        0 <= slot < 9,
        1 <= num_opts <= 9,
        is_option(opts.placements@, i, opts.options(kind)[unit_of(kind, i)], num_opts, slot),
        first_in_sweep(opts, cells, from, i, kind, slot, num_opts),
    ensures
        is_strategic(option_step(opts, cells, kind, i, slot, num_opts, from)),
        follows_strategy(
            option_step(opts, cells, kind, i, slot, num_opts, from),
            i,
            kind,
            slot,
            num_opts as int,
        ),
        option_step(opts, cells, kind, i, slot, num_opts, from).alts == option_alts(
            cells,
            i,
            kind,
            slot,
        ),
{
    let s = option_step(opts, cells, kind, i, slot, num_opts, from);
    lemma_cell_units(i);
    lemma_first_in_sweep_is_chosen(opts, cells, from, i, kind, slot, num_opts);
    lemma_alts_cover(opts, cells, kind, i, slot);
    lemma_unit_of(kind, i);
    lemma_alts_of_grid(opts, cells, kind, unit_of(kind, i), i, slot, 9);
    assert(s.alts =~= option_alts(cells, i, kind, slot).take(s.alts.len() as int));
    assert(takes_option(cells, s.placement, i, kind, slot));
    assert(keeps_order(s, i, kind, slot));
    assert(follows_strategy(s, i, kind, slot, num_opts as int));
}

} // verus!
