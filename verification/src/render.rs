//! The text form of a board.

use vstd::prelude::*;
use vstd::string::StringExecFns;
use crate::board::SudokuBoard;
use crate::completion::values_in_range;
use crate::grid::{grid_filled, grid_valid};

verus! {

/// The text of a cell value: a blank for an empty cell, else the digit.
pub open spec fn value_text(value: u8) -> Seq<char> {
    if value == 0 {
        " "@
    } else if value == 1 {
        "1"@
    } else if value == 2 {
        "2"@
    } else if value == 3 {
        "3"@
    } else if value == 4 {
        "4"@
    } else if value == 5 {
        "5"@
    } else if value == 6 {
        "6"@
    } else if value == 7 {
        "7"@
    } else if value == 8 {
        "8"@
    } else {
        "9"@
    }
}

/// The mark that follows the cell in column `col`: a plus sign at the end
/// of a box, a bar at the end of the row, a dot else.
pub open spec fn mark_text(col: int) -> Seq<char> {
    if col == 2 || col == 5 {
        "+"@
    } else if col == 8 {
        "|"@
    } else {
        "."@
    }
}

/// The rule below row `row`.
pub open spec fn rule_text(row: int) -> Seq<char> {
    if row == 2 || row == 5 {
        "|---+---+---+---+---+---+---+---+---|"@
    } else if row == 8 {
        "-------------------------------------"@
    } else {
        "|--- --- ---|--- --- ---|--- --- ---|"@
    }
}

/// The text of a truth value.
pub open spec fn bool_text(b: bool) -> Seq<char> {
    if b {
        "true"@
    } else {
        "false"@
    }
}

/// The line of row `row` up to and without column `upto`.
pub open spec fn cells_text(cells: Seq<u8>, row: int, upto: int) -> Seq<char>
    decreases upto,
{
    if upto <= 0 {
        "|"@
    } else {
        cells_text(cells, row, upto - 1) + " "@ + value_text(cells[row * 9 + upto - 1]) + " "@
            + mark_text(upto - 1)
    }
}

/// The top rule and the lines of the rows before `upto`, each with the rule
/// below it.
pub open spec fn rows_text(cells: Seq<u8>, upto: int) -> Seq<char>
    decreases upto,
{
    if upto <= 0 {
        "-------------------------------------"@ + "\n"@
    } else {
        rows_text(cells, upto - 1) + cells_text(cells, upto - 1, 9) + "\n"@ + rule_text(upto - 1)
            + "\n"@
    }
}

/// The text of a board: its rows between rules, and a last line that tells
/// whether the board is valid and whether it is filled.
pub open spec fn board_text(cells: Seq<u8>) -> Seq<char> {
    rows_text(cells, 9) + "Valid: "@ + bool_text(grid_valid(cells)) + "\tComplete: "@ + bool_text(
        grid_filled(cells),
    ) + "\n"@
}

/// Gives the text of a cell value.
fn value_str(value: u8) -> (text: &'static str)
    requires
        value <= 9,
    ensures
        text@ == value_text(value),
{
    match value {
        0 => " ",
        1 => "1",
        2 => "2",
        3 => "3",
        4 => "4",
        5 => "5",
        6 => "6",
        7 => "7",
        8 => "8",
        _ => "9",
    }
}

impl SudokuBoard {
    /// Gives the board as text: a grid of the values with their rules, and a
    /// last line that tells whether the board is valid and whether it is
    /// filled.
    pub fn render(&self) -> (text: String)
        requires
            values_in_range(self.values@),
        ensures
            text@ == board_text(self.values@),
    {
        let mut text = String::from_str("-------------------------------------");
        text.append("\n");
        let mut row: usize = 0;
        while row < 9
            invariant
                row <= 9,
                values_in_range(self.values@),
                text@ == rows_text(self.values@, row as int),
            decreases 9 - row,
        {
            let ghost above = text@;
            text.append("|");
            let mut col: usize = 0;
            while col < 9
                invariant
                    row < 9,
                    col <= 9,
                    values_in_range(self.values@),
                    text@ == above + cells_text(self.values@, row as int, col as int),
                decreases 9 - col,
            {
                let ghost line = cells_text(self.values@, row as int, col as int);
                text.append(" ");
                text.append(value_str(self.values[row * 9 + col]));
                text.append(" ");
                text.append(
                    match col {
                        2 | 5 => "+",
                        8 => "|",
                        _ => ".",
                    },
                );
                assert(text@ =~= above + (line + " "@ + value_text(self.values@[row * 9 + col])
                    + " "@ + mark_text(col as int)));
                col += 1;
            }
            let ghost line = cells_text(self.values@, row as int, 9);
            text.append("\n");
            text.append(
                match row {
                    2 | 5 => "|---+---+---+---+---+---+---+---+---|",
                    8 => "-------------------------------------",
                    _ => "|--- --- ---|--- --- ---|--- --- ---|",
                },
            );
            text.append("\n");
            assert(text@ =~= above + line + "\n"@ + rule_text(row as int) + "\n"@);
            row += 1;
        }
        let valid = self.is_valid();
        let filled = self.is_filled();
        let ghost rows = text@;
        text.append("Valid: ");
        text.append(if valid { "true" } else { "false" });
        text.append("\tComplete: ");
        text.append(if filled { "true" } else { "false" });
        text.append("\n");
        assert(text@ =~= rows + "Valid: "@ + bool_text(valid) + "\tComplete: "@ + bool_text(filled)
            + "\n"@);
        text
    }
}

} // verus!
