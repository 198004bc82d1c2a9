//! The constraint index: which values each cell still accepts, and how many
//! cells of each row, column and box accept each value.

use vstd::prelude::*;
use crate::board::SudokuBoard;
use crate::grid::{
    is_allowed_vals, lemma_cell_units, lemma_row_cell, lemma_unit_cell, lemma_unit_of, pos_in_unit,
    same_unit, unit_cell, unit_of, value_allowed, value_occurs_near, Unit,
};
use crate::group::Group;

verus! {

/// Sum of slot `slot` over the legality vectors of the first `upto` cells of
/// a unit.
pub open spec fn unit_sum(
    placements: Seq<Group>,
    kind: Unit,
    group: int,
    slot: int,
    upto: int,
) -> int
    decreases upto,
{
    if upto <= 0 {
        0
    } else {
        unit_sum(placements, kind, group, slot, upto - 1) + placements[unit_cell(
            kind,
            group,
            upto - 1,
        )][slot]
    }
}

/// Every slot of every legality vector is 0 or 1.
pub open spec fn are_flags(placements: Seq<Group>) -> bool {
    forall|i: int, slot: int|
        0 <= i < 81 && 0 <= slot < 9 ==> (#[trigger] placements[i][slot]) <= 1
}

/// With flags for slots, a sum over a unit counts at most its cells, and
/// counts each cell of the unit that has its flag set.
pub proof fn lemma_unit_sum_bounds(
    placements: Seq<Group>,
    kind: Unit,
    group: int,
    slot: int,
    upto: int,
)
    requires
        are_flags(placements),
        0 <= group < 9,
        0 <= slot < 9,
        0 <= upto <= 9,
    ensures
        0 <= unit_sum(placements, kind, group, slot, upto) <= upto,
        forall|p: int|
            0 <= p < upto ==> (#[trigger] placements[unit_cell(kind, group, p)][slot])
                <= unit_sum(placements, kind, group, slot, upto),
    decreases upto,
{
    if upto > 0 {
        lemma_unit_sum_bounds(placements, kind, group, slot, upto - 1);
        lemma_unit_cell(kind, group, upto - 1);
        assert(placements[unit_cell(kind, group, upto - 1)][slot] <= 1);
    }
}

/// Replacing the legality vector of one cell changes the sums of the units
/// of that cell by the difference, and no other sum.
pub proof fn lemma_unit_sum_update(
    placements: Seq<Group>,
    i: int,
    fresh: Group,
    kind: Unit,
    group: int,
    slot: int,
    upto: int,
)
    requires
        placements.len() == 81,
        0 <= i < 81,
        0 <= group < 9,
        0 <= upto <= 9,
    ensures
        unit_sum(placements.update(i, fresh), kind, group, slot, upto) == unit_sum(
            placements,
            kind,
            group,
            slot,
            upto,
        ) + if unit_of(kind, i) == group && pos_in_unit(kind, i) < upto {
            fresh[slot] - placements[i][slot]
        } else {
            0
        },
    decreases upto,
{
    if upto > 0 {
        lemma_unit_sum_update(placements, i, fresh, kind, group, slot, upto - 1);
        lemma_unit_cell(kind, group, upto - 1);
        lemma_unit_of(kind, i);
    }
}

/// Writing one cell leaves the allowed values of every cell outside its row,
/// column and box as they were.
pub proof fn lemma_allowed_elsewhere(cells: Seq<u8>, changed: int, val: u8, i: int, n: int)
    requires
        cells.len() == 81,
        0 <= changed < 81,
        0 <= i < 81,
        !same_unit(i, changed),
    ensures
        value_allowed(cells.update(changed, val), i, n) == value_allowed(cells, i, n),
{
    let after = cells.update(changed, val);
    if value_occurs_near(cells, i, n) {
        let j = choose|j: int| 0 <= j < 81 && same_unit(i, j) && #[trigger] cells[j] == n;
        assert(after[j] == n);
    }
    if value_occurs_near(after, i, n) {
        let j = choose|j: int| 0 <= j < 81 && same_unit(i, j) && #[trigger] after[j] == n;
        assert(cells[j] == n);
    }
}

/// Writing one cell leaves the legality vector of every cell outside its
/// row, column and box as it was.
pub proof fn lemma_vals_elsewhere(cells: Seq<u8>, changed: int, val: u8, i: int, vals: Group)
    requires
        cells.len() == 81,
        0 <= changed < 81,
        0 <= i < 81,
        !same_unit(i, changed),
        is_allowed_vals(cells, i, vals),
    ensures
        is_allowed_vals(cells.update(changed, val), i, vals),
{
    assert forall|slot: int| 0 <= slot < 9 implies #[trigger] vals[slot] == if value_allowed(
        cells.update(changed, val),
        i,
        slot + 1,
    ) {
        1u8
    } else {
        0u8
    } by {
        lemma_allowed_elsewhere(cells, changed, val, i, slot + 1);
    }
}

/// The constraint index of the search.
///
/// `placements` holds for every cell its legality vector. `row_options`,
/// `col_options` and `box_options` hold for every row, column and box the
/// sum of the legality vectors of its cells: how many of its cells accept
/// each value.
pub struct AvailableOptions {
    pub placements: [Group; 81],
    pub row_options: [Group; 9],
    pub col_options: [Group; 9],
    pub box_options: [Group; 9],
}

impl AvailableOptions {
    /// The sums that the index keeps for the units of a kind.
    pub open spec fn options(&self, kind: Unit) -> Seq<Group> {
        match kind {
            Unit::Row => self.row_options@,
            Unit::Column => self.col_options@,
            Unit::Box => self.box_options@,
        }
    }

    /// Every sum is the sum of the legality vectors of its unit, and every
    /// slot of a legality vector is 0 or 1.
    pub open spec fn sums_hold(&self) -> bool {
        &&& are_flags(self.placements@)
        &&& forall|kind: Unit, group: int, slot: int|
            0 <= group < 9 && 0 <= slot < 9 ==> (#[trigger] self.options(kind)[group][slot])
                == unit_sum(self.placements@, kind, group, slot, 9)
    }

    /// The legality vector of the cell with index `i` is that of `cells`.
    pub open spec fn current_at(&self, cells: Seq<u8>, i: int) -> bool {
        is_allowed_vals(cells, i, self.placements@[i])
    }

    /// The index describes `cells`: every legality vector is that of its
    /// cell, and the sums hold.
    pub open spec fn describes(&self, cells: Seq<u8>) -> bool {
        &&& self.sums_hold()
        &&& forall|i: int| 0 <= i < 81 ==> #[trigger] self.current_at(cells, i)
    }

    /// The index describes `cells` but for the legality vectors of the row,
    /// the column and the box of the cell with index `changed`.
    pub open spec fn describes_away_from(&self, cells: Seq<u8>, changed: int) -> bool {
        &&& self.sums_hold()
        &&& forall|i: int|
            0 <= i < 81 && !same_unit(i, changed) ==> #[trigger] self.current_at(cells, i)
    }

    /// Computes the index of a board anew.
    pub fn calculate_options(board: &SudokuBoard) -> (opts: AvailableOptions)
        ensures
            opts.describes(board.values@),
    {
        let mut opts = AvailableOptions {
            placements: [[0u8; 9]; 81],
            row_options: [[0u8; 9]; 9],
            col_options: [[0u8; 9]; 9],
            box_options: [[0u8; 9]; 9],
        };
        proof {
            assert forall|kind: Unit, group: int, slot: int|
                0 <= group < 9 && 0 <= slot < 9 implies (#[trigger] opts.options(
                kind,
            )[group][slot]) == unit_sum(opts.placements@, kind, group, slot, 9) by {
                lemma_zero_sum(opts.placements@, kind, group, slot, 9);
            }
        }
        let mut i: usize = 0;
        while i < 81
            invariant
                i <= 81,
                opts.sums_hold(),
                forall|j: int| 0 <= j < i ==> #[trigger] opts.current_at(board.values@, j),
                forall|j: int, slot: int|
                    i <= j < 81 && 0 <= slot < 9 ==> (#[trigger] opts.placements@[j][slot]) == 0,
            decreases 81 - i,
        {
            let ghost before = opts;
            opts.refresh(board, i);
            proof {
                assert forall|j: int| 0 <= j < i implies #[trigger] opts.current_at(
                    board.values@,
                    j,
                ) by {
                    assert(before.current_at(board.values@, j));
                }
            }
            i += 1;
        }
        opts
    }

    /// Brings the index up to date after the value of one cell has changed:
    /// the legality vectors of the cells in the row, the column and the box
    /// of that cell are computed anew, and the sums follow.
    pub fn on_value_changed(&mut self, board: &SudokuBoard, row: usize, col: usize)
        requires
            row < 9,
            col < 9,
            old(self).describes_away_from(board.values@, row * 9 + col),
        ensures
            final(self).describes(board.values@),
    {
        let ghost changed = (row * 9 + col) as int;
        let mut i: usize = 0;
        while i < 81
            invariant
                i <= 81,
                row < 9,
                col < 9,
                changed == row * 9 + col,
                self.sums_hold(),
                forall|j: int|
                    0 <= j < 81 && (j < i || !same_unit(j, changed))
                        ==> #[trigger] self.current_at(board.values@, j),
            decreases 81 - i,
        {
            let ghost before = *self;
            if shares_unit(i, row, col) {
                self.refresh(board, i);
            }
            proof {
                assert forall|j: int| 0 <= j < 81 && (j < i + 1 || !same_unit(j, changed)) implies
                    #[trigger] self.current_at(board.values@, j) by {
                    if j != i {
                        assert(before.current_at(board.values@, j));
                    }
                }
            }
            i += 1;
        }
    }

    /// Computes the legality vector of one cell anew and lets the sums
    /// follow.
    fn refresh(&mut self, board: &SudokuBoard, i: usize)
        requires
            i < 81,
            old(self).sums_hold(),
        ensures
            final(self).sums_hold(),
            final(self).current_at(board.values@, i as int),
            forall|j: int|
                0 <= j < 81 && j != i ==> #[trigger] final(self).placements@[j] == old(
                    self,
                ).placements@[j],
    {
        let row = i / 9;
        let col = i % 9;
        proof {
            lemma_cell_units(i as int);
        }
        let fresh = board.get_allowed_vals(row, col);
        self.replace(i, fresh);
    }

    /// The sums of the units of a cell count that cell, and count at most
    /// nine cells.
    pub proof fn lemma_own_sums(&self, kind: Unit, i: int)
        requires
            self.sums_hold(),
            0 <= i < 81,
        ensures
            forall|slot: int|
                #![trigger self.placements@[i][slot]]
                #![trigger self.options(kind)[unit_of(kind, i)][slot]]
                0 <= slot < 9 ==> self.placements@[i][slot] <= self.options(kind)[unit_of(
                    kind,
                    i,
                )][slot] <= 9,
    {
        lemma_unit_of(kind, i);
        let group = unit_of(kind, i);
        assert forall|slot: int| 0 <= slot < 9 implies self.placements@[i][slot] <= (
        #[trigger] self.options(kind)[group][slot]) <= 9 by {
            lemma_unit_sum_bounds(self.placements@, kind, group, slot, 9);
            assert(self.placements@[unit_cell(kind, group, pos_in_unit(kind, i))][slot]
                <= unit_sum(self.placements@, kind, group, slot, 9));
        }
    }

    /// Replaces the legality vector of one cell and moves the sums of its
    /// row, column and box by the difference.
    fn replace(&mut self, i: usize, fresh: Group)
        requires
            i < 81,
            old(self).sums_hold(),
            forall|slot: int| 0 <= slot < 9 ==> (#[trigger] fresh[slot]) <= 1,
        ensures
            final(self).sums_hold(),
            final(self).placements@ == old(self).placements@.update(i as int, fresh),
    {
        let r = i / 9;
        let c = i % 9;
        let b = (r / 3) * 3 + c / 3;
        let pos = self.placements[i];
        proof {
            lemma_cell_units(i as int);
            self.lemma_own_sums(Unit::Row, i as int);
            self.lemma_own_sums(Unit::Column, i as int);
            self.lemma_own_sums(Unit::Box, i as int);
            assert(self.options(Unit::Row)[r as int] == self.row_options[r as int]);
            assert(self.options(Unit::Column)[c as int] == self.col_options[c as int]);
            assert(self.options(Unit::Box)[b as int] == self.box_options[b as int]);
        }
        let row_rest = crate::group::sub(self.row_options[r], &pos);
        let col_rest = crate::group::sub(self.col_options[c], &pos);
        let box_rest = crate::group::sub(self.box_options[b], &pos);
        self.placements[i] = fresh;
        self.row_options[r] = crate::group::add(row_rest, &fresh);
        self.col_options[c] = crate::group::add(col_rest, &fresh);
        self.box_options[b] = crate::group::add(box_rest, &fresh);
        proof {
            assert(self.placements@ == old(self).placements@.update(i as int, fresh));
            assert forall|j: int, slot: int| 0 <= j < 81 && 0 <= slot < 9 implies (
            #[trigger] self.placements@[j][slot]) <= 1 by {
                if j != i {
                    assert(old(self).placements@[j][slot] <= 1);
                }
            }
            assert forall|kind: Unit, group: int, slot: int|
                0 <= group < 9 && 0 <= slot < 9 implies (#[trigger] self.options(
                kind,
            )[group][slot]) == unit_sum(self.placements@, kind, group, slot, 9) by {
                lemma_unit_sum_update(old(self).placements@, i as int, fresh, kind, group, slot, 9);
                lemma_unit_of(kind, i as int);
                assert(old(self).options(kind)[group][slot] == unit_sum(
                    old(self).placements@,
                    kind,
                    group,
                    slot,
                    9,
                ));
            }
        }
    }
}

/// Tells whether the cell with index `i` shares a row, a column or a box
/// with the cell in the given row and column.
fn shares_unit(i: usize, row: usize, col: usize) -> (shared: bool)
    requires
        i < 81,
        row < 9,
        col < 9,
    ensures
        shared == same_unit(i as int, row * 9 + col),
{
    proof {
        lemma_row_cell(row as int, col as int);
    }
    let r = i / 9;
    let c = i % 9;
    r == row || c == col || (r / 3) * 3 + c / 3 == (row / 3) * 3 + col / 3
}

/// Sums over legality vectors that are all zero are zero.
pub proof fn lemma_zero_sum(placements: Seq<Group>, kind: Unit, group: int, slot: int, upto: int)
    requires
        0 <= group < 9,
        0 <= slot < 9,
        0 <= upto <= 9,
        forall|i: int, s: int| 0 <= i < 81 && 0 <= s < 9 ==> (#[trigger] placements[i][s]) == 0,
    ensures
        unit_sum(placements, kind, group, slot, upto) == 0,
    decreases upto,
{
    if upto > 0 {
        lemma_zero_sum(placements, kind, group, slot, upto - 1);
        lemma_unit_cell(kind, group, upto - 1);
    }
}

} // verus!
