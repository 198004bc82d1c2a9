use sudokugen::board::{Placement, SudokuBoard};
use sudokugen::error::SudokuError;

fn check_is_valid(clues: &[Placement], expected: bool) {
    let board = SudokuBoard::with_clues(clues);
    assert_eq!(board.is_valid(), expected);
}

#[test]
fn when_creating_board_with_clue_then_place_clue_correctly() {
    let clues = [(0, 0, 1)];
    let board = SudokuBoard::with_clues(&clues);
    assert_eq!(board.values[0], 1);
}

#[test]
fn when_creating_board_with_many_clues_then_place_clues_correctly() {
    let clues = [(1, 1, 1), (2, 7, 9), (7, 7, 5)];
    let board = SudokuBoard::with_clues(&clues);
    assert_eq!(board.values[10], 1);
    assert_eq!(board.values[25], 9);
    assert_eq!(board.values[70], 5);
}

#[test]
fn when_board_is_empty_then_is_filled_returns_false() {
    let board = SudokuBoard::with_clues(&[]);
    assert_eq!(board.is_filled(), false);
}

#[test]
fn when_board_not_full_then_is_filled_returns_false() {
    let clues = [(1, 1, 1), (2, 7, 9), (7, 7, 5)];
    let board = SudokuBoard::with_clues(&clues);
    assert_eq!(board.is_filled(), false);
}

#[test]
fn when_board_is_full_then_is_filled_returns_true() {
    let mut board = SudokuBoard::with_clues(&[]);
    board.values = [1; 81];
    assert_eq!(board.is_filled(), true);
}

#[test]
fn when_board_is_empty_then_it_is_valid() {
    check_is_valid(&[], true);
}

#[test]
fn when_board_has_no_duplicates_on_row_col_or_box_then_it_is_valid() {
    check_is_valid(
        &[
            (0, 4, 2),
            (1, 4, 1),
            (2, 4, 7),
            (3, 3, 3),
            (3, 4, 6),
            (3, 5, 2),
            (4, 0, 3),
            (4, 1, 2),
            (4, 2, 7),
            (4, 3, 4),
            (4, 4, 5),
            (4, 5, 9),
            (4, 6, 1),
            (4, 7, 8),
            (4, 8, 6),
            (5, 3, 1),
            (5, 4, 8),
            (5, 5, 7),
            (6, 4, 3),
            (7, 4, 9),
            (8, 4, 4),
        ],
        true,
    );
}

#[test]
fn when_board_has_same_number_duplicated_on_row_then_it_is_not_valid() {
    check_is_valid(&[(7, 0, 2), (7, 8, 2)], false);
}

#[test]
fn when_board_has_same_number_duplicated_on_column_then_it_is_not_valid() {
    check_is_valid(&[(2, 3, 7), (6, 3, 7)], false);
}

#[test]
fn when_board_has_same_number_duplicated_in_box_then_it_is_not_valid() {
    check_is_valid(&[(3, 3, 1), (5, 5, 1)], false);
}

#[test]
fn when_cell_has_value_then_no_available_placements() {
    let board = SudokuBoard::with_clues(&[(4, 4, 1)]);
    assert_eq!(board.get_allowed_vals(4, 4), [0; 9]);
}

#[test]
fn when_groups_have_no_values_then_all_available_placements() {
    let board = SudokuBoard::with_clues(&[]);
    assert_eq!(board.get_allowed_vals(4, 4), [1; 9]);
}

#[test]
fn when_row_has_same_value_then_remove_from_placements() {
    let board = SudokuBoard::with_clues(&[(4, 8, 1)]);
    assert_eq!(board.get_allowed_vals(4, 4), [0, 1, 1, 1, 1, 1, 1, 1, 1]);
}

#[test]
fn when_col_has_same_value_then_remove_from_placements() {
    let board = SudokuBoard::with_clues(&[(8, 4, 5)]);
    assert_eq!(board.get_allowed_vals(4, 4), [1, 1, 1, 1, 0, 1, 1, 1, 1]);
}

#[test]
fn when_box_has_same_value_then_remove_from_placements() {
    let board = SudokuBoard::with_clues(&[(5, 5, 9)]);
    assert_eq!(board.get_allowed_vals(4, 4), [1, 1, 1, 1, 1, 1, 1, 1, 0]);
}

#[test]
fn render_draws_values_between_rules() {
    let board = SudokuBoard::with_clues(&[(0, 0, 5), (0, 8, 9), (4, 4, 1), (8, 2, 7)]);
    let blank = "|   .   .   +   .   .   +   .   .   |\n";
    let thin = "|--- --- ---|--- --- ---|--- --- ---|\n";
    let thick = "|---+---+---+---+---+---+---+---+---|\n";
    let edge = "-------------------------------------\n";
    let mut expected = String::new();
    expected += edge;
    expected += "| 5 .   .   +   .   .   +   .   . 9 |\n";
    expected += thin;
    expected += blank;
    expected += thin;
    expected += blank;
    expected += thick;
    expected += blank;
    expected += thin;
    expected += "|   .   .   +   . 1 .   +   .   .   |\n";
    expected += thin;
    expected += blank;
    expected += thick;
    expected += blank;
    expected += thin;
    expected += blank;
    expected += thin;
    expected += "|   .   . 7 +   .   .   +   .   .   |\n";
    expected += edge;
    expected += "Valid: true\tComplete: false\n";
    assert_eq!(board.render(), expected);
}

#[test]
fn render_tells_invalid_and_complete() {
    let mut board = SudokuBoard::with_clues(&[]);
    board.values = [1; 81];
    let text = board.render();
    assert!(text.ends_with("Valid: false\tComplete: true\n"));
    assert!(text.contains("| 1 . 1 . 1 + 1 . 1 . 1 + 1 . 1 . 1 |\n"));
}

#[test]
fn place_writes_value_and_rejects_bad_placements() {
    let mut board = SudokuBoard::with_clues(&[(0, 0, 1)]);
    assert_eq!(board.place((3, 4, 7)), Ok(()));
    assert_eq!(board.values[31], 7);
    assert_eq!(board.place((3, 4, 0)), Ok(()));
    assert_eq!(board.values[31], 0);
    assert_eq!(board.place((3, 4, 10)), Err(SudokuError::PlacementOutOfRange));
    assert_eq!(board.place((9, 4, 1)), Err(SudokuError::PlacementOutOfRange));
    assert_eq!(board.place((3, 9, 1)), Err(SudokuError::PlacementOutOfRange));
    assert_eq!(board.place((0, 0, 2)), Err(SudokuError::PlacementOnClue));
    assert_eq!(board.values[0], 1);
    assert_eq!(board.values[31], 0);
}

#[test]
fn empty_grid_allows_every_value_in_every_cell() {
    let board = SudokuBoard::with_clues(&[]);
    for row in 0..9 {
        for col in 0..9 {
            assert_eq!(board.get_allowed_vals(row, col), [1; 9]);
        }
    }
}

#[test]
fn value_in_row_takes_its_slot_from_the_cells_of_the_row() {
    let board = SudokuBoard::with_clues(&[(2, 6, 4)]);
    for col in 0..9 {
        if col != 6 {
            assert_eq!(
                board.get_allowed_vals(2, col),
                [1, 1, 1, 0, 1, 1, 1, 1, 1]
            );
        }
    }
    assert_eq!(board.get_allowed_vals(2, 6), [0; 9]);
    assert_eq!(board.get_allowed_vals(5, 0), [1; 9]);
}

#[test]
fn later_clue_for_a_cell_replaces_the_earlier_one() {
    let board = SudokuBoard::with_clues(&[(1, 2, 3), (1, 2, 8)]);
    assert_eq!(board.values[11], 8);
    assert!(board.clues[11]);
    assert!(!board.clues[12]);
}
