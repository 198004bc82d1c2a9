use sudokugen::board::SudokuBoard;
use sudokugen::solver::least_options::AvailableOptions;

fn check_sums(opts: &AvailableOptions) {
    for group in 0..9 {
        for slot in 0..9 {
            let mut row = 0;
            let mut col = 0;
            let mut a_box = 0;
            for pos in 0..9 {
                row += opts.placements[group * 9 + pos][slot];
                col += opts.placements[pos * 9 + group][slot];
                let index = ((group / 3) * 3 + pos / 3) * 9 + (group % 3) * 3 + pos % 3;
                a_box += opts.placements[index][slot];
            }
            assert_eq!(opts.row_options[group][slot], row);
            assert_eq!(opts.col_options[group][slot], col);
            assert_eq!(opts.box_options[group][slot], a_box);
        }
    }
}

#[test]
fn options_of_empty_board_count_nine_cells_everywhere() {
    let board = SudokuBoard::with_clues(&[]);
    let opts = AvailableOptions::calculate_options(&board);
    for index in 0..81 {
        assert_eq!(opts.placements[index], [1; 9]);
    }
    for group in 0..9 {
        assert_eq!(opts.row_options[group], [9; 9]);
        assert_eq!(opts.col_options[group], [9; 9]);
        assert_eq!(opts.box_options[group], [9; 9]);
    }
}

#[test]
fn options_follow_the_allowed_values_of_the_board() {
    let board = SudokuBoard::with_clues(&[(0, 0, 5), (4, 4, 5), (8, 8, 1)]);
    let opts = AvailableOptions::calculate_options(&board);
    for index in 0..81 {
        assert_eq!(
            opts.placements[index],
            board.get_allowed_vals(index / 9, index % 9)
        );
    }
    check_sums(&opts);
    // The value 5 has no cell left in row 0, and six cells in row 1.
    assert_eq!(opts.row_options[0][4], 0);
    assert_eq!(opts.row_options[1][4], 5);
    assert_eq!(opts.row_options[2][4], 5);
    assert_eq!(opts.row_options[3][4], 5);
}

#[test]
fn on_value_changed_gives_what_a_fresh_index_gives() {
    let mut board = SudokuBoard::with_clues(&[(0, 0, 5), (4, 4, 5), (8, 8, 1)]);
    let mut opts = AvailableOptions::calculate_options(&board);
    board.place((2, 7, 3)).expect("a free cell");
    opts.on_value_changed(&board, 2, 7);
    let fresh = AvailableOptions::calculate_options(&board);
    assert_eq!(opts.placements, fresh.placements);
    assert_eq!(opts.row_options, fresh.row_options);
    assert_eq!(opts.col_options, fresh.col_options);
    assert_eq!(opts.box_options, fresh.box_options);
    check_sums(&opts);

    board.place((2, 7, 0)).expect("a free cell");
    opts.on_value_changed(&board, 2, 7);
    let fresh = AvailableOptions::calculate_options(&board);
    assert_eq!(opts.placements, fresh.placements);
    assert_eq!(opts.row_options, fresh.row_options);
    assert_eq!(opts.col_options, fresh.col_options);
    assert_eq!(opts.box_options, fresh.box_options);
}
