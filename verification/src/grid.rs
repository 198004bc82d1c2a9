//! The geometry of the 9x9 grid and what holds of its cell values.
//!
//! A grid is a sequence of 81 cell values in row-major order: 0 for an
//! empty cell, 1 to 9 for a filled one. Its units are the nine rows, the
//! nine columns and the nine boxes of nine cells each.

use vstd::prelude::*;
use crate::group::Group;

verus! {

/// Row of the cell with row-major index `i`.
pub open spec fn row_of(i: int) -> int {
    i / 9
}

/// Column of the cell with row-major index `i`.
pub open spec fn col_of(i: int) -> int {
    i % 9
}

/// Box of the cell with row-major index `i`; boxes are numbered row-major too.
pub open spec fn box_of(i: int) -> int {
    (row_of(i) / 3) * 3 + col_of(i) / 3
}

/// Row-major index of the cell at position `pos` of row `group`.
pub open spec fn row_cell(group: int, pos: int) -> int {
    group * 9 + pos
}

/// Row-major index of the cell at position `pos` of column `group`.
pub open spec fn col_cell(group: int, pos: int) -> int {
    pos * 9 + group
}

/// Row-major index of the cell at position `pos` of box `group`.
pub open spec fn box_cell(group: int, pos: int) -> int {
    ((group / 3) * 3 + pos / 3) * 9 + (group % 3) * 3 + pos % 3
}

/// Position of the cell with row-major index `i` inside its box.
pub open spec fn box_pos(i: int) -> int {
    ((i / 9) % 3) * 3 + (i % 9) % 3
}

/// Two cells share a row, a column or a box.
pub open spec fn same_unit(i: int, j: int) -> bool {
    row_of(i) == row_of(j) || col_of(i) == col_of(j) || box_of(i) == box_of(j)
}

/// The cell at a position of a row lies in that row, at that position.
pub proof fn lemma_row_cell(group: int, pos: int)
    requires
        0 <= group < 9,
        0 <= pos < 9,
    ensures
        0 <= row_cell(group, pos) < 81,
        row_of(row_cell(group, pos)) == group,
        col_of(row_cell(group, pos)) == pos,
{
}

/// The cell at a position of a column lies in that column, at that position.
pub proof fn lemma_col_cell(group: int, pos: int)
    requires
        0 <= group < 9,
        0 <= pos < 9,
    ensures
        0 <= col_cell(group, pos) < 81,
        col_of(col_cell(group, pos)) == group,
        row_of(col_cell(group, pos)) == pos,
{
}

/// The cell at a position of a box lies in that box, at that position.
pub proof fn lemma_box_cell(group: int, pos: int)
    requires
        0 <= group < 9,
        0 <= pos < 9,
    ensures
        0 <= box_cell(group, pos) < 81,
        box_of(box_cell(group, pos)) == group,
        box_pos(box_cell(group, pos)) == pos,
{
    let band = group / 3;
    let stack = group % 3;
    let r = pos / 3;
    let c = pos % 3;
    let i = box_cell(group, pos);
    assert(i == 27 * band + 9 * r + 3 * stack + c);
    assert(i / 9 == 3 * band + r);
    assert(i % 9 == 3 * stack + c);
}

/// Every cell is the cell at its position of its row, of its column and of
/// its box.
pub proof fn lemma_cell_units(i: int)
    requires
        0 <= i < 81,
    ensures
        0 <= row_of(i) < 9,
        0 <= col_of(i) < 9,
        0 <= box_of(i) < 9,
        0 <= box_pos(i) < 9,
        row_cell(row_of(i), col_of(i)) == i,
        col_cell(col_of(i), row_of(i)) == i,
        box_cell(box_of(i), box_pos(i)) == i,
{
    let r = i / 9;
    let c = i % 9;
    assert(i == 9 * r + c);
    let band = r / 3;
    let stack = c / 3;
    assert(r == 3 * band + r % 3);
    assert(c == 3 * stack + c % 3);
    let group = box_of(i);
    let pos = box_pos(i);
    assert(group == 3 * band + stack);
    assert(pos == 3 * (r % 3) + c % 3);
    assert(group / 3 == band && group % 3 == stack);
    assert(pos / 3 == r % 3 && pos % 3 == c % 3);
}

/// No value from 1 to 9 occurs twice in a row, a column or a box.
pub open spec fn grid_valid(cells: Seq<u8>) -> bool {
    forall|i: int, j: int|
        0 <= i < 81 && 0 <= j < 81 && i != j && same_unit(i, j) && 1 <= #[trigger] cells[i] <= 9
            ==> cells[i] != #[trigger] cells[j]
}

/// Every cell holds a value.
pub open spec fn grid_filled(cells: Seq<u8>) -> bool {
    forall|i: int| 0 <= i < 81 ==> #[trigger] cells[i] > 0
}

/// Some cell in the row, the column or the box of the cell with index `i`
/// holds `n`.
pub open spec fn value_occurs_near(cells: Seq<u8>, i: int, n: int) -> bool {
    exists|j: int| 0 <= j < 81 && same_unit(i, j) && #[trigger] cells[j] == n
}

/// The cell with index `i` is empty and no cell of its row, column or box
/// holds `n`.
pub open spec fn value_allowed(cells: Seq<u8>, i: int, n: int) -> bool {
    cells[i] == 0 && !value_occurs_near(cells, i, n)
}

/// Some clue cell is empty: no search can fill the grid.
pub open spec fn has_empty_clue(cells: Seq<u8>, clues: Seq<bool>) -> bool {
    exists|i: int| 0 <= i < 81 && #[trigger] clues[i] && cells[i] == 0
}

/// The three kinds of groups of nine cells.
#[derive(Clone, Copy, Debug, PartialEq, Eq, Structural)]
pub enum Unit {
    Row,
    Column,
    Box,
}

/// Row-major index of the cell at position `pos` of the `group`-th unit of a kind.
pub open spec fn unit_cell(kind: Unit, group: int, pos: int) -> int {
    match kind {
        Unit::Row => row_cell(group, pos),
        Unit::Column => col_cell(group, pos),
        Unit::Box => box_cell(group, pos),
    }
}

/// Number of the unit of a kind that holds the cell with index `i`.
pub open spec fn unit_of(kind: Unit, i: int) -> int {
    match kind {
        Unit::Row => row_of(i),
        Unit::Column => col_of(i),
        Unit::Box => box_of(i),
    }
}

/// Position of the cell with index `i` inside its unit of a kind.
pub open spec fn pos_in_unit(kind: Unit, i: int) -> int {
    match kind {
        Unit::Row => col_of(i),
        Unit::Column => row_of(i),
        Unit::Box => box_pos(i),
    }
}

/// How often `n` occurs among the first `upto` cells of a unit.
pub open spec fn unit_count(cells: Seq<u8>, kind: Unit, group: int, n: u8, upto: int) -> int
    decreases upto,
{
    if upto <= 0 {
        0
    } else {
        unit_count(cells, kind, group, n, upto - 1) + if cells[unit_cell(kind, group, upto - 1)]
            == n {
            1int
        } else {
            0int
        }
    }
}

/// The cell at a position of a unit lies in that unit, at that position.
pub proof fn lemma_unit_cell(kind: Unit, group: int, pos: int)
    requires
        0 <= group < 9,
        0 <= pos < 9,
    ensures
        0 <= unit_cell(kind, group, pos) < 81,
        unit_of(kind, unit_cell(kind, group, pos)) == group,
        pos_in_unit(kind, unit_cell(kind, group, pos)) == pos,
{
    lemma_row_cell(group, pos);
    lemma_col_cell(group, pos);
    lemma_box_cell(group, pos);
}

/// Every cell is the cell at its position of its unit of each kind.
pub proof fn lemma_unit_of(kind: Unit, i: int)
    requires
        0 <= i < 81,
    ensures
        0 <= unit_of(kind, i) < 9,
        0 <= pos_in_unit(kind, i) < 9,
        unit_cell(kind, unit_of(kind, i), pos_in_unit(kind, i)) == i,
{
    lemma_cell_units(i);
}

/// A count of one or more shows a position of the unit that holds the
/// value, a count of two or more shows two.
pub proof fn lemma_count_witnesses(cells: Seq<u8>, kind: Unit, group: int, n: u8, upto: int)
    requires
        0 <= upto <= 9,
    ensures
        0 <= unit_count(cells, kind, group, n, upto) <= upto,
        unit_count(cells, kind, group, n, upto) >= 1 ==> exists|p: int|
            0 <= p < upto && #[trigger] cells[unit_cell(kind, group, p)] == n,
        unit_count(cells, kind, group, n, upto) >= 2 ==> exists|p: int, q: int|
            0 <= p < q < upto && #[trigger] cells[unit_cell(kind, group, p)] == n
                && #[trigger] cells[unit_cell(kind, group, q)] == n,
    decreases upto,
{
    if upto > 0 {
        lemma_count_witnesses(cells, kind, group, n, upto - 1);
        let before = unit_count(cells, kind, group, n, upto - 1);
        if unit_count(cells, kind, group, n, upto) >= 2 {
            if before >= 2 {
                let (p, q) = choose|p: int, q: int|
                    0 <= p < q < upto - 1 && #[trigger] cells[unit_cell(kind, group, p)] == n
                        && #[trigger] cells[unit_cell(kind, group, q)] == n;
                assert(0 <= p < q < upto && cells[unit_cell(kind, group, p)] == n
                    && cells[unit_cell(kind, group, q)] == n);
            } else {
                let p = choose|p: int|
                    0 <= p < upto - 1 && #[trigger] cells[unit_cell(kind, group, p)] == n;
                assert(0 <= p < upto - 1 < upto && cells[unit_cell(kind, group, p)] == n
                    && cells[unit_cell(kind, group, upto - 1)] == n);
            }
        }
        if unit_count(cells, kind, group, n, upto) >= 1 {
            if before >= 1 {
                let p = choose|p: int|
                    0 <= p < upto - 1 && #[trigger] cells[unit_cell(kind, group, p)] == n;
                assert(0 <= p < upto && cells[unit_cell(kind, group, p)] == n);
            } else {
                assert(cells[unit_cell(kind, group, upto - 1)] == n);
            }
        }
    }
}

/// Positions that hold the value are counted.
pub proof fn lemma_count_of_hits(
    cells: Seq<u8>,
    kind: Unit,
    group: int,
    n: u8,
    upto: int,
    p: int,
    q: int,
)
    requires
        0 <= p < upto <= 9,
        0 <= q < upto,
        cells[unit_cell(kind, group, p)] == n,
        cells[unit_cell(kind, group, q)] == n,
    ensures
        unit_count(cells, kind, group, n, upto) >= 1,
        p != q ==> unit_count(cells, kind, group, n, upto) >= 2,
    decreases upto,
{
    lemma_count_witnesses(cells, kind, group, n, upto - 1);
    if p < upto - 1 && q < upto - 1 {
        lemma_count_of_hits(cells, kind, group, n, upto - 1, p, q);
    } else if p < upto - 1 {
        lemma_count_of_hits(cells, kind, group, n, upto - 1, p, p);
    } else if q < upto - 1 {
        lemma_count_of_hits(cells, kind, group, n, upto - 1, q, q);
    }
}

/// No unit counts a value from 1 to 9 twice.
pub open spec fn counts_at_most_one(cells: Seq<u8>) -> bool {
    forall|kind: Unit, group: int, n: u8|
        0 <= group < 9 && 1 <= n <= 9 ==> #[trigger] unit_count(cells, kind, group, n, 9) <= 1
}

/// A grid is valid exactly if no unit counts a value from 1 to 9 twice.
pub proof fn lemma_valid_iff_counts(cells: Seq<u8>)
    requires
        cells.len() == 81,
    ensures
        grid_valid(cells) <==> counts_at_most_one(cells),
{
    if grid_valid(cells) {
        assert forall|kind: Unit, group: int, n: u8| 0 <= group < 9 && 1 <= n <= 9 implies
            #[trigger] unit_count(cells, kind, group, n, 9) <= 1 by {
            lemma_count_witnesses(cells, kind, group, n, 9);
            if unit_count(cells, kind, group, n, 9) >= 2 {
                let (p, q) = choose|p: int, q: int|
                    0 <= p < q < 9 && #[trigger] cells[unit_cell(kind, group, p)] == n
                        && #[trigger] cells[unit_cell(kind, group, q)] == n;
                lemma_unit_cell(kind, group, p);
                lemma_unit_cell(kind, group, q);
                let i = unit_cell(kind, group, p);
                let j = unit_cell(kind, group, q);
                assert(same_unit(i, j));
                assert(cells[i] != cells[j]);
            }
        }
    }
    if counts_at_most_one(cells) {
        assert forall|i: int, j: int|
            0 <= i < 81 && 0 <= j < 81 && i != j && same_unit(i, j) && 1 <= #[trigger] cells[i]
                <= 9 implies cells[i] != #[trigger] cells[j] by {
            if cells[i] == cells[j] {
                let kind = if row_of(i) == row_of(j) {
                    Unit::Row
                } else if col_of(i) == col_of(j) {
                    Unit::Column
                } else {
                    Unit::Box
                };
                lemma_unit_of(kind, i);
                lemma_unit_of(kind, j);
                let group = unit_of(kind, i);
                lemma_count_of_hits(
                    cells,
                    kind,
                    group,
                    cells[i],
                    9,
                    pos_in_unit(kind, i),
                    pos_in_unit(kind, j),
                );
                assert(unit_count(cells, kind, group, cells[i], 9) <= 1);
            }
        }
    }
}

/// The legality vector of a cell: slot `n - 1` is 1 if `n` is allowed there,
/// else 0.
pub open spec fn is_allowed_vals(cells: Seq<u8>, i: int, vals: Group) -> bool {
    forall|slot: int|
        0 <= slot < 9 ==> #[trigger] vals[slot] == if value_allowed(cells, i, slot + 1) {
            1u8
        } else {
            0u8
        }
}

/// On an empty grid every cell accepts every value: its legality vector
/// holds nine ones.
pub proof fn lemma_empty_grid_allows_all(cells: Seq<u8>, i: int, vals: Group)
    requires
        cells.len() == 81,
        forall|j: int| 0 <= j < 81 ==> #[trigger] cells[j] == 0,
        0 <= i < 81,
        is_allowed_vals(cells, i, vals),
    ensures
        forall|slot: int| 0 <= slot < 9 ==> #[trigger] vals[slot] == 1,
{
    assert forall|slot: int| 0 <= slot < 9 implies #[trigger] vals[slot] == 1 by {
        assert(!value_occurs_near(cells, i, slot + 1));
    }
}

/// One value on an otherwise empty grid takes exactly the slot of that
/// value, and no other, from every other cell of its row, its column and
/// its box.
pub proof fn lemma_single_value_takes_slot(cells: Seq<u8>, j: int, v: u8, i: int, vals: Group)
    requires
        cells.len() == 81,
        forall|k: int| 0 <= k < 81 ==> #[trigger] cells[k] == 0,
        0 <= j < 81,
        1 <= v <= 9,
        0 <= i < 81,
        i != j,
        same_unit(i, j),
        is_allowed_vals(cells.update(j, v), i, vals),
    ensures
        forall|slot: int|
            0 <= slot < 9 ==> #[trigger] vals[slot] == if slot == v - 1 {
                0u8
            } else {
                1u8
            },
{
    let after = cells.update(j, v);
    assert forall|slot: int| 0 <= slot < 9 implies #[trigger] vals[slot] == if slot == v - 1 {
        0u8
    } else {
        1u8
    } by {
        if slot == v - 1 {
            assert(after[j] == slot + 1);
            assert(value_occurs_near(after, i, slot + 1));
        } else {
            if value_occurs_near(after, i, slot + 1) {
                let k = choose|k: int|
                    0 <= k < 81 && same_unit(i, k) && #[trigger] after[k] == slot + 1;
                assert(cells[k] == 0);
            }
        }
    }
}

} // verus!
