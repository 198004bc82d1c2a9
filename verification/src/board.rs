//! The board: a grid of cell values with the mask of its clues.

use vstd::prelude::*;
use crate::error::SudokuError;
use crate::grid::{
    box_cell, col_of, grid_filled, grid_valid, is_allowed_vals, lemma_box_cell, lemma_cell_units,
    lemma_unit_cell, lemma_unit_of, lemma_valid_iff_counts, pos_in_unit, row_of, same_unit,
    unit_cell, unit_count, unit_of, value_allowed, value_occurs_near, Unit,
};
use crate::group::Group;

verus! {

/// A value for a cell: row, column (both 0 to 8) and value (1 to 9, or 0 to
/// clear the cell).
pub type Placement = (usize, usize, u8);

/// The cell values that a list of clues leaves on an empty grid: each clue
/// writes its value, a later clue for the same cell replacing an earlier one.
pub open spec fn clue_values(clues: Seq<Placement>) -> Seq<u8>
    decreases clues.len(),
{
    if clues.len() == 0 {
        Seq::new(81, |i: int| 0u8)
    } else {
        clue_values(clues.drop_last()).update(
            clues.last().0 * 9 + clues.last().1,
            clues.last().2,
        )
    }
}

/// The clue mask that a list of clues leaves: the cells that some clue names.
pub open spec fn clue_mask(clues: Seq<Placement>) -> Seq<bool>
    decreases clues.len(),
{
    if clues.len() == 0 {
        Seq::new(81, |i: int| false)
    } else {
        clue_mask(clues.drop_last()).update(clues.last().0 * 9 + clues.last().1, true)
    }
}

/// A Sudoku grid: 81 cell values in row-major order (0 for an empty cell, 1
/// to 9 for a filled one) and a mask of the cells that are clues and cannot
/// be written.
#[derive(Debug)]
pub struct SudokuBoard {
    pub values: [u8; 81],
    pub clues: [bool; 81],
}

impl Clone for SudokuBoard {
    fn clone(&self) -> (copy: Self)
        ensures
            copy == *self,
    {
        SudokuBoard { values: self.values, clues: self.clues }
    }
}

impl SudokuBoard {
    /// No value from 1 to 9 occurs twice in a row, a column or a box.
    pub open spec fn valid(&self) -> bool {
        grid_valid(self.values@)
    }

    /// Every cell holds a value.
    pub open spec fn filled(&self) -> bool {
        grid_filled(self.values@)
    }

    /// Creates a board that holds the given clues and is empty elsewhere.
    pub fn with_clues(clues: &[Placement]) -> (board: SudokuBoard)
        requires
            forall|k: int| 0 <= k < clues@.len() ==> clues@[k].0 < 9 && clues@[k].1 < 9,
        ensures
            board.values@ == clue_values(clues@),
            board.clues@ == clue_mask(clues@),
    {
        let mut board = SudokuBoard { values: [0u8; 81], clues: [false; 81] };
        assert(board.values@ =~= clue_values(clues@.take(0)));
        assert(board.clues@ =~= clue_mask(clues@.take(0)));
        let mut k: usize = 0;
        while k < clues.len()
            invariant
                k <= clues@.len(),
                forall|j: int| 0 <= j < clues@.len() ==> clues@[j].0 < 9 && clues@[j].1 < 9,
                board.values@ == clue_values(clues@.take(k as int)),
                board.clues@ == clue_mask(clues@.take(k as int)),
            decreases clues@.len() - k,
        {
            let (row, col, val) = clues[k];
            board.values[row * 9 + col] = val;
            board.clues[row * 9 + col] = true;
            proof {
                let next = clues@.take(k + 1);
                assert(next.drop_last() =~= clues@.take(k as int));
                assert(next.last() == clues@[k as int]);
            }
            k += 1;
        }
        assert(clues@.take(clues@.len() as int) =~= clues@);
        board
    }

    /// Tells whether every cell holds a value.
    pub fn is_filled(&self) -> (filled: bool)
        ensures
            filled == self.filled(),
    {
        let mut i: usize = 0;
        while i < 81
            invariant
                i <= 81,
                forall|j: int| 0 <= j < i ==> #[trigger] self.values@[j] > 0,
            decreases 81 - i,
        {
            if self.values[i] == 0 {
                return false;
            }
            i += 1;
        }
        true
    }

    /// Tells whether no value from 1 to 9 occurs twice in a row, a column or
    /// a box.
    pub fn is_valid(&self) -> (valid: bool)
        ensures
            valid == self.valid(),
    {
        let mut group: usize = 0;
        while group < 9
            invariant
                group <= 9,
                forall|kind: Unit, g: int, n: u8|
                    0 <= g < group && 1 <= n <= 9 ==> #[trigger] unit_count(
                        self.values@,
                        kind,
                        g,
                        n,
                        9,
                    ) <= 1,
            decreases 9 - group,
        {
            let mut n: u8 = 1;
            while n < 10
                invariant
                    group < 9,
                    1 <= n <= 10,
                    forall|kind: Unit, g: int, n: u8|
                        0 <= g < group && 1 <= n <= 9 ==> #[trigger] unit_count(
                            self.values@,
                            kind,
                            g,
                            n,
                            9,
                        ) <= 1,
                    forall|kind: Unit, m: u8|
                        1 <= m < n ==> #[trigger] unit_count(
                            self.values@,
                            kind,
                            group as int,
                            m,
                            9,
                        ) <= 1,
                decreases 10 - n,
            {
                let (row, col, a_box) = self.get_val_count(group, n);
                if row > 1 || col > 1 || a_box > 1 {
                    proof {
                        lemma_valid_iff_counts(self.values@);
                        let kind = if row > 1 {
                            Unit::Row
                        } else if col > 1 {
                            Unit::Column
                        } else {
                            Unit::Box
                        };
                        assert(unit_count(self.values@, kind, group as int, n, 9) > 1);
                    }
                    return false;
                }
                proof {
                    assert forall|kind: Unit, m: u8| 1 <= m < n + 1 implies #[trigger] unit_count(
                        self.values@,
                        kind,
                        group as int,
                        m,
                        9,
                    ) <= 1 by {
                        if m == n {
                            match kind {
                                Unit::Row => {},
                                Unit::Column => {},
                                Unit::Box => {},
                            }
                        }
                    }
                }
                n += 1;
            }
            group += 1;
        }
        proof {
            lemma_valid_iff_counts(self.values@);
        }
        true
    }

    /// Counts how often `val` occurs in the row, in the column and in the box
    /// with number `group`.
    pub fn get_val_count(&self, group: usize, val: u8) -> (counts: (i32, i32, i32))
        requires
            group < 9,
        ensures
            counts.0 == unit_count(self.values@, Unit::Row, group as int, val, 9),
            counts.1 == unit_count(self.values@, Unit::Column, group as int, val, 9),
            counts.2 == unit_count(self.values@, Unit::Box, group as int, val, 9),
    {
        let mut row: i32 = 0;
        let mut col: i32 = 0;
        let mut a_box: i32 = 0;
        let mut pos: usize = 0;
        while pos < 9
            invariant
                group < 9,
                pos <= 9,
                0 <= row <= pos,
                0 <= col <= pos,
                0 <= a_box <= pos,
                row == unit_count(self.values@, Unit::Row, group as int, val, pos as int),
                col == unit_count(self.values@, Unit::Column, group as int, val, pos as int),
                a_box == unit_count(self.values@, Unit::Box, group as int, val, pos as int),
            decreases 9 - pos,
        {
            proof {
                lemma_unit_cell(Unit::Row, group as int, pos as int);
                lemma_unit_cell(Unit::Column, group as int, pos as int);
                lemma_unit_cell(Unit::Box, group as int, pos as int);
            }
            row = row + self.check_val(group * 9 + pos, val);
            col = col + self.check_val(pos * 9 + group, val);
            a_box = a_box + self.check_val(box_to_index(group, pos), val);
            pos += 1;
        }
        (row, col, a_box)
    }

    /// Gives 1 if the cell with the given index holds `value`, else 0.
    pub fn check_val(&self, index: usize, value: u8) -> (hit: i32)
        requires
            index < 81,
        ensures
            hit == if self.values@[index as int] == value {
                1int
            } else {
                0int
            },
    {
        if self.values[index] == value {
            1
        } else {
            0
        }
    }

    /// Gives the legality vector of a cell: slot `n - 1` is 1 if the cell is
    /// empty and `n` occurs nowhere in its row, column and box, else 0.
    pub fn get_allowed_vals(&self, row: usize, col: usize) -> (vals: Group)
        requires
            row < 9,
            col < 9,
        ensures
            is_allowed_vals(self.values@, row * 9 + col, vals),
    {
        let mut vals: Group = [0u8; 9];
        if self.values[row * 9 + col] > 0 {
            return vals;
        }
        let ghost i = (row * 9 + col) as int;
        let mut n: u8 = 1;
        while n < 10
            invariant
                row < 9,
                col < 9,
                i == row * 9 + col,
                self.values@[i] == 0,
                1 <= n <= 10,
                forall|slot: int|
                    0 <= slot < n - 1 ==> #[trigger] vals[slot] == if value_allowed(
                        self.values@,
                        i,
                        slot + 1,
                    ) {
                        1u8
                    } else {
                        0u8
                    },
                forall|slot: int| n - 1 <= slot < 9 ==> #[trigger] vals[slot] == 0u8,
            decreases 10 - n,
        {
            if !self.occurs_near(row, col, n) {
                vals[(n - 1) as usize] = 1;
            }
            n += 1;
        }
        vals
    }

    /// Tells whether `n` occurs in the row, the column or the box of a cell.
    fn occurs_near(&self, row: usize, col: usize, n: u8) -> (found: bool)
        requires
            row < 9,
            col < 9,
        ensures
            found == value_occurs_near(self.values@, row * 9 + col, n as int),
    {
        let the_box = (row / 3) * 3 + (col / 3);
        let ghost i = (row * 9 + col) as int;
        proof {
            lemma_cell_units(i);
        }
        let mut pos: usize = 0;
        while pos < 9
            invariant
                row == unit_of(Unit::Row, i),
                col == unit_of(Unit::Column, i),
                the_box == unit_of(Unit::Box, i),
                row < 9,
                col < 9,
                the_box < 9,
                0 <= i < 81,
                pos <= 9,
                forall|kind: Unit, p: int|
                    0 <= p < pos ==> self.values@[#[trigger] unit_cell(kind, unit_of(kind, i), p)]
                        != n,
            decreases 9 - pos,
        {
            proof {
                lemma_unit_cell(Unit::Row, row as int, pos as int);
                lemma_unit_cell(Unit::Column, col as int, pos as int);
                lemma_unit_cell(Unit::Box, the_box as int, pos as int);
            }
            if self.values[row * 9 + pos] == n || self.values[pos * 9 + col] == n
                || self.values[box_to_index(the_box, pos)] == n {
                proof {
                    let kind = if self.values@[row * 9 + pos] == n {
                        Unit::Row
                    } else if self.values@[pos * 9 + col] == n {
                        Unit::Column
                    } else {
                        Unit::Box
                    };
                    let j = unit_cell(kind, unit_of(kind, i), pos as int);
                    assert(0 <= j < 81 && same_unit(i, j) && self.values@[j] == n as int);
                }
                return true;
            }
            pos += 1;
        }
        proof {
            assert forall|j: int| 0 <= j < 81 && same_unit(i, j) implies #[trigger] self.values@[j]
                != n as int by {
                let kind = if row_of(i) == row_of(j) {
                    Unit::Row
                } else if col_of(i) == col_of(j) {
                    Unit::Column
                } else {
                    Unit::Box
                };
                lemma_unit_of(kind, j);
                assert(unit_cell(kind, unit_of(kind, i), pos_in_unit(kind, j)) == j);
            }
        }
        false
    }

    /// What `place` answers: an error for a placement that is out of range
    /// or names a clue, else success.
    pub open spec fn place_result(&self, placement: Placement) -> Result<(), SudokuError> {
        if placement.2 > 9 || placement.0 > 8 || placement.1 > 8 {
            Err(SudokuError::PlacementOutOfRange)
        } else if self.clues@[placement.0 * 9 + placement.1] {
            Err(SudokuError::PlacementOnClue)
        } else {
            Ok(())
        }
    }

    /// Writes a value into a cell, or clears the cell with the value 0.
    /// Nothing is written if the placement is out of range or names a clue.
    pub fn place(&mut self, placement: Placement) -> (result: Result<(), SudokuError>)
        ensures
            result == old(self).place_result(placement),
            final(self).clues == old(self).clues,
            result is Ok ==> final(self).values@ == old(self).values@.update(
                placement.0 * 9 + placement.1,
                placement.2,
            ),
            result is Err ==> final(self).values == old(self).values,
    {
        let (row, col, val) = placement;
        if val > 9 {
            return Err(SudokuError::PlacementOutOfRange);
        }
        if col > 8 || row > 8 {
            return Err(SudokuError::PlacementOutOfRange);
        }
        if self.clues[row * 9 + col] {
            Err(SudokuError::PlacementOnClue)
        } else {
            self.values[row * 9 + col] = val;
            Ok(())
        }
    }
}

/// Row-major index of the cell at position `pos` of box `group`.
pub fn box_to_index(group: usize, pos: usize) -> (index: usize)
    requires
        group < 9,
        pos < 9,
    ensures
        index == box_cell(group as int, pos as int),
        index < 81,
{
    proof {
        lemma_box_cell(group as int, pos as int);
    }
    ((group / 3) * 3 + pos / 3) * 9 + (group % 3) * 3 + pos % 3
}

} // verus!
