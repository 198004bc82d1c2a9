//! What it means to complete a grid, and the facts about completions that
//! the search rests on.

use vstd::prelude::*;
use vstd::set_lib::{lemma_int_range, lemma_len_subset, set_int_range};
use crate::grid::{
    grid_filled, grid_valid, lemma_unit_cell, lemma_unit_of, same_unit, unit_cell, unit_of,
    value_allowed, value_occurs_near, Unit,
};

verus! {

/// `grid` agrees with `cells` wherever `cells` holds a value.
pub open spec fn extends(grid: Seq<u8>, cells: Seq<u8>) -> bool {
    forall|i: int|
        #![trigger grid[i]]
        #![trigger cells[i]]
        0 <= i < 81 && cells[i] != 0 ==> grid[i] == cells[i]
}

/// A solved grid: 81 values from 1 to 9, none twice in a row, column or box.
pub open spec fn is_solution(grid: Seq<u8>) -> bool {
    &&& grid.len() == 81
    &&& forall|i: int| 0 <= i < 81 ==> 1 <= #[trigger] grid[i] <= 9
    &&& grid_valid(grid)
}

/// `grid` is a solved grid that keeps every value of `cells`.
pub open spec fn is_completion(grid: Seq<u8>, cells: Seq<u8>) -> bool {
    is_solution(grid) && extends(grid, cells)
}

/// Some solved grid keeps every value of `cells`.
pub open spec fn has_completion(cells: Seq<u8>) -> bool {
    exists|grid: Seq<u8>| is_completion(grid, cells)
}

/// Exactly one solved grid keeps every value of `cells`.
pub open spec fn has_unique_completion(cells: Seq<u8>) -> bool {
    exists|grid: Seq<u8>| is_only_completion(grid, cells)
}

/// `grid` completes `cells`, and no other grid does.
pub open spec fn is_only_completion(grid: Seq<u8>, cells: Seq<u8>) -> bool {
    &&& is_completion(grid, cells)
    &&& forall|other: Seq<u8>| #[trigger] is_completion(other, cells) ==> other == grid
}

/// A grid that keeps every value of a grid with one completion, and that has
/// a completion itself, has one completion too.
pub proof fn lemma_more_values_one_completion(more: Seq<u8>, fewer: Seq<u8>)
    requires
        extends(more, fewer),
        has_completion(more),
        has_unique_completion(fewer),
    ensures
        has_unique_completion(more),
{
    let only = choose|grid: Seq<u8>| is_only_completion(grid, fewer);
    let found = choose|grid: Seq<u8>| is_completion(grid, more);
    assert forall|other: Seq<u8>| #[trigger] is_completion(other, more) implies other == only by {
        assert forall|i: int| 0 <= i < 81 && fewer[i] != 0 implies other[i] == fewer[i] by {
            assert(more[i] == fewer[i]);
        }
        assert(is_completion(other, fewer));
    }
    assert(is_only_completion(found, more));
}

/// Every cell holds a value from 0 to 9.
pub open spec fn values_in_range(cells: Seq<u8>) -> bool {
    forall|i: int| 0 <= i < 81 ==> #[trigger] cells[i] <= 9
}

/// In a solved grid every unit holds every value from 1 to 9.
pub proof fn lemma_unit_holds_value(grid: Seq<u8>, kind: Unit, group: int, n: int)
    requires
        is_solution(grid),
        0 <= group < 9,
        1 <= n <= 9,
    ensures
        exists|p: int| 0 <= p < 9 && #[trigger] grid[unit_cell(kind, group, p)] == n,
{
    if forall|p: int| 0 <= p < 9 ==> #[trigger] grid[unit_cell(kind, group, p)] != n {
        let held = Seq::new(9, |p: int| grid[unit_cell(kind, group, p)] as int);
        assert forall|a: int, b: int| 0 <= a < 9 && 0 <= b < 9 && a != b implies held[a]
            != held[b] by {
            lemma_unit_cell(kind, group, a);
            lemma_unit_cell(kind, group, b);
            let i = unit_cell(kind, group, a);
            let j = unit_cell(kind, group, b);
            assert(same_unit(i, j));
            assert(grid[i] != grid[j]);
        }
        held.unique_seq_to_set();
        lemma_int_range(1, 10);
        let others = set_int_range(1, 10).remove(n);
        assert forall|x: int| held.to_set().contains(x) implies others.contains(x) by {
            let p = choose|p: int| 0 <= p < 9 && held[p] == x;
            lemma_unit_cell(kind, group, p);
            assert(grid[unit_cell(kind, group, p)] != n);
        }
        assert(held.to_set().subset_of(others));
        lemma_len_subset(held.to_set(), others);
        assert(false);
    }
}

/// A completion puts each value that is allowed in some cell into a cell of
/// the same unit where it is allowed too.
pub proof fn lemma_completion_places(grid: Seq<u8>, cells: Seq<u8>, kind: Unit, i: int, n: int)
    requires
        is_completion(grid, cells),
        cells.len() == 81,
        0 <= i < 81,
        1 <= n <= 9,
        value_allowed(cells, i, n),
    ensures
        exists|p: int|
            0 <= p < 9 && #[trigger] grid[unit_cell(kind, unit_of(kind, i), p)] == n
                && value_allowed(cells, unit_cell(kind, unit_of(kind, i), p), n),
{
    lemma_unit_of(kind, i);
    let group = unit_of(kind, i);
    lemma_unit_holds_value(grid, kind, group, n);
    let p = choose|p: int| 0 <= p < 9 && #[trigger] grid[unit_cell(kind, group, p)] == n;
    let j = unit_cell(kind, group, p);
    lemma_unit_cell(kind, group, p);
    assert(same_unit(i, j));
    assert(cells[j] != n);
    assert(cells[j] == 0);
    if value_occurs_near(cells, j, n) {
        let k = choose|k: int| 0 <= k < 81 && same_unit(j, k) && #[trigger] cells[k] == n;
        assert(grid[k] == cells[k]);
        assert(k != j);
        assert(grid[j] != grid[k]);
    }
}

/// A completion gives each empty cell a value that is allowed there.
pub proof fn lemma_completion_value_allowed(grid: Seq<u8>, cells: Seq<u8>, i: int)
    requires
        is_completion(grid, cells),
        0 <= i < 81,
        cells[i] == 0,
    ensures
        value_allowed(cells, i, grid[i] as int),
{
    if value_occurs_near(cells, i, grid[i] as int) {
        let k = choose|k: int| 0 <= k < 81 && same_unit(i, k) && #[trigger] cells[k] == grid[i];
        assert(grid[k] == cells[k]);
        assert(grid[i] != grid[k]);
    }
}

/// Only a valid grid has a completion.
pub proof fn lemma_completion_needs_valid(grid: Seq<u8>, cells: Seq<u8>)
    requires
        is_completion(grid, cells),
    ensures
        grid_valid(cells),
{
    assert forall|i: int, j: int|
        0 <= i < 81 && 0 <= j < 81 && i != j && same_unit(i, j) && 1 <= #[trigger] cells[i]
            <= 9 implies cells[i] != #[trigger] cells[j] by {
        if cells[i] == cells[j] {
            assert(grid[i] == cells[i]);
            assert(grid[j] == cells[j]);
        }
    }
}

/// A completion of a filled grid is that grid.
pub proof fn lemma_filled_completion(grid: Seq<u8>, cells: Seq<u8>)
    requires
        is_completion(grid, cells),
        cells.len() == 81,
        grid_filled(cells),
    ensures
        grid == cells,
{
    assert(grid =~= cells);
}

/// A filled and valid grid with values in range is a solved grid, and its
/// own and only completion.
pub proof fn lemma_solved_grid(cells: Seq<u8>)
    requires
        cells.len() == 81,
        grid_filled(cells),
        grid_valid(cells),
        values_in_range(cells),
    ensures
        is_solution(cells),
        is_only_completion(cells, cells),
{
    assert forall|i: int| 0 <= i < 81 implies 1 <= #[trigger] cells[i] <= 9 by {
        assert(cells[i] > 0);
    }
    assert forall|other: Seq<u8>| #[trigger] is_completion(other, cells) implies other
        == cells by {
        lemma_filled_completion(other, cells);
    }
}

/// Writing an allowed value into a cell keeps a valid grid valid.
pub proof fn lemma_place_allowed(cells: Seq<u8>, i: int, n: u8)
    requires
        cells.len() == 81,
        0 <= i < 81,
        grid_valid(cells),
        value_allowed(cells, i, n as int),
    ensures
        grid_valid(cells.update(i, n)),
{
    let after = cells.update(i, n);
    assert forall|a: int, b: int|
        0 <= a < 81 && 0 <= b < 81 && a != b && same_unit(a, b) && 1 <= #[trigger] after[a]
            <= 9 implies after[a] != #[trigger] after[b] by {
        if a == i {
            assert(cells[b] != n);
        } else if b == i {
            assert(cells[a] != n);
        } else {
            assert(cells[a] != cells[b]);
        }
    }
}

/// A solved grid without one of its values has the solved grid as its only
/// completion.
pub proof fn lemma_one_value_comes_back(grid: Seq<u8>, i: int)
    requires
        is_solution(grid),
        0 <= i < 81,
    ensures
        is_only_completion(grid, grid.update(i, 0u8)),
{
    let gap = grid.update(i, 0u8);
    lemma_clear_cell(grid, i);
    assert(is_completion(grid, grid));
    assert forall|other: Seq<u8>| #[trigger] is_completion(other, gap) implies other == grid by {
        lemma_unit_of(Unit::Row, i);
        let row = unit_of(Unit::Row, i);
        lemma_unit_holds_value(other, Unit::Row, row, grid[i] as int);
        let p = choose|p: int|
            0 <= p < 9 && #[trigger] other[unit_cell(Unit::Row, row, p)] == grid[i];
        let j = unit_cell(Unit::Row, row, p);
        lemma_unit_cell(Unit::Row, row, p);
        if j != i {
            assert(gap[j] == grid[j]);
            assert(other[j] == grid[j]);
            assert(same_unit(i, j));
            assert(grid[i] != grid[j]);
        }
        assert forall|k: int| 0 <= k < 81 implies other[k] == grid[k] by {
            if k != i {
                assert(gap[k] == grid[k]);
            }
        }
        assert(other =~= grid);
    }
}

/// Clearing a cell of a grid leaves a grid that every completion of the
/// first completes too, and keeps a valid grid valid.
pub proof fn lemma_clear_cell(cells: Seq<u8>, i: int)
    requires
        cells.len() == 81,
        0 <= i < 81,
    ensures
        forall|grid: Seq<u8>| #[trigger]
            is_completion(grid, cells) ==> is_completion(grid, cells.update(i, 0u8)),
        grid_valid(cells) ==> grid_valid(cells.update(i, 0u8)),
        values_in_range(cells) ==> values_in_range(cells.update(i, 0u8)),
{
    let after = cells.update(i, 0u8);
    if grid_valid(cells) {
        assert forall|a: int, b: int|
            0 <= a < 81 && 0 <= b < 81 && a != b && same_unit(a, b) && 1 <= #[trigger] after[a]
                <= 9 implies after[a] != #[trigger] after[b] by {
            if b != i {
                assert(cells[a] != cells[b]);
            }
        }
    }
    if values_in_range(cells) {
        assert forall|a: int| 0 <= a < 81 implies #[trigger] after[a] <= 9 by {
            if a != i {
                assert(cells[a] <= 9);
            }
        }
    }
}

} // verus!
