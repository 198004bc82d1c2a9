use sudokugen::board::{Placement, SudokuBoard};
use sudokugen::error::SudokuError;
use sudokugen::solver::least_options::LeastOptionsSolver;
use sudokugen::solver::{Solution, Solver, Verification};

fn super_hard() -> [Placement; 25] {
    [
        (0, 3, 3),
        (0, 4, 7),
        (0, 5, 6),
        (0, 8, 8),
        (1, 5, 1),
        (1, 8, 6),
        (2, 1, 2),
        (3, 0, 7),
        (3, 2, 4),
        (3, 6, 9),
        (3, 7, 3),
        (4, 0, 1),
        (4, 2, 8),
        (4, 5, 2),
        (5, 0, 2),
        (5, 1, 6),
        (5, 4, 9),
        (5, 8, 4),
        (6, 5, 3),
        (6, 7, 7),
        (6, 8, 1),
        (7, 6, 8),
        (7, 7, 6),
        (8, 3, 9),
        (8, 4, 6),
    ]
}

fn evil() -> [Placement; 28] {
    [
        (0, 0, 8),
        (0, 4, 1),
        (0, 8, 9),
        (1, 1, 4),
        (1, 4, 8),
        (1, 7, 2),
        (2, 3, 2),
        (2, 5, 5),
        (3, 2, 8),
        (3, 4, 2),
        (3, 6, 7),
        (4, 0, 5),
        (4, 1, 6),
        (4, 3, 7),
        (4, 5, 1),
        (4, 7, 9),
        (4, 8, 8),
        (5, 2, 1),
        (5, 4, 9),
        (5, 6, 5),
        (6, 3, 9),
        (6, 5, 2),
        (7, 1, 8),
        (7, 4, 4),
        (7, 7, 6),
        (8, 0, 7),
        (8, 4, 5),
        (8, 8, 4),
    ]
}

fn reflection_symmetry() -> [Placement; 18] {
    [
        (1, 1, 9),
        (1, 4, 1),
        (1, 7, 3),
        (2, 2, 6),
        (2, 4, 2),
        (2, 6, 7),
        (3, 3, 3),
        (3, 5, 4),
        (4, 0, 2),
        (4, 1, 1),
        (4, 7, 9),
        (4, 8, 8),
        (6, 2, 2),
        (6, 3, 5),
        (6, 5, 6),
        (6, 6, 4),
        (7, 1, 8),
        (7, 7, 1),
    ]
}

fn against_brute_force() -> [Placement; 17] {
    [
        (1, 5, 3),
        (1, 7, 8),
        (1, 8, 5),
        (2, 2, 1),
        (2, 4, 2),
        (3, 3, 5),
        (3, 5, 7),
        (4, 2, 4),
        (4, 6, 1),
        (5, 1, 9),
        (6, 0, 5),
        (6, 7, 7),
        (6, 8, 3),
        (7, 2, 2),
        (7, 4, 1),
        (8, 4, 4),
        (8, 8, 9),
    ]
}

#[test]
fn verify_super_hard() {
    let board = SudokuBoard::with_clues(&reflection_symmetry());

    let result = LeastOptionsSolver::new().verify(&board);
    assert_eq!(Verification::ValidWithBranches(4), result);
}

#[test]
fn solve_super_hard() {
    let mut board = SudokuBoard::with_clues(&super_hard());

    LeastOptionsSolver::new()
        .solve(&mut board)
        .expect("Expected success");
}

#[test]
fn find_solution_fails_for_board_with_invalid_clues() {
    let mut board = SudokuBoard::with_clues(&super_hard());
    board.values[4] = 3;

    LeastOptionsSolver::new()
        .find_solution(&mut board)
        .expect_err("Expected error");
}

#[test]
fn solve_evil() {
    let mut board = SudokuBoard::with_clues(&evil());

    let _result = LeastOptionsSolver::new()
        .solve(&mut board)
        .expect("Expected success");
}

#[test]
fn solve_reflection_symmetry() {
    let mut board = SudokuBoard::with_clues(&reflection_symmetry());

    let _result = LeastOptionsSolver::new()
        .solve(&mut board)
        .expect("Expected success");
}

#[test]
fn solve_against_brute_force() {
    let mut board = SudokuBoard::with_clues(&against_brute_force());

    let _result = LeastOptionsSolver::new()
        .solve(&mut board)
        .expect("Expected success");
}

#[test]
fn verify_counts_branches_of_known_puzzles() {
    let mut solver = LeastOptionsSolver::new();
    assert_eq!(
        solver.verify(&SudokuBoard::with_clues(&super_hard())),
        Verification::ValidWithBranches(3)
    );
    assert_eq!(
        solver.verify(&SudokuBoard::with_clues(&evil())),
        Verification::ValidWithBranches(0)
    );
    assert_eq!(
        solver.verify(&SudokuBoard::with_clues(&against_brute_force())),
        Verification::ValidWithBranches(3)
    );
}

#[test]
fn write_to_refuses_clues_and_leaves_the_board() {
    let mut board = SudokuBoard::with_clues(&super_hard());
    let solution = LeastOptionsSolver::new()
        .solve(&mut board)
        .expect("Expected success");
    // The last cell to be filled becomes a clue: nothing is written.
    let (row, col, _) = solution.placements[55];
    board.clues[row * 9 + col] = true;
    let before = board.clone();
    assert_eq!(
        solution.write_to(&mut board),
        Err(SudokuError::PlacementOnClue)
    );
    assert_eq!(board.values, before.values);
    board.clues[row * 9 + col] = false;
    assert_eq!(solution.write_to(&mut board), Ok(()));
    assert!(board.is_filled());
    assert!(board.is_valid());
}

#[test]
fn solve_of_corrupted_clues_is_invalid_board() {
    let mut board = SudokuBoard::with_clues(&super_hard());
    board.values[4] = 3;
    let result = LeastOptionsSolver::new().solve(&mut board);
    assert_eq!(result.err(), Some(SudokuError::InvalidBoard));
}

/// Solves the board and writes the solution to it.
fn solve_in_place(board: &mut SudokuBoard) -> Solution {
    let before = board.clone();
    let solution = LeastOptionsSolver::new()
        .solve(board)
        .expect("Expected success");
    // The solver leaves the board alone.
    assert_eq!(board.values, before.values);
    assert_eq!(board.clues, before.clues);
    solution.write_to(board).expect("free cells");
    solution
}

fn solved_grid() -> SudokuBoard {
    let mut board = SudokuBoard::with_clues(&super_hard());
    solve_in_place(&mut board);
    board
}

/// A valid board without solution: the first cell of the first row accepts
/// nothing, because the value that the row lacks stands in its column.
fn stuck_board() -> SudokuBoard {
    let mut board = solved_grid();
    assert_eq!(board.values[0], 4);
    assert_eq!(board.values[55], 4);
    board.values[0] = 0;
    board.values[1] = 4;
    board.values[55] = 0;
    assert!(board.is_valid());
    assert_eq!(board.get_allowed_vals(0, 0), [0; 9]);
    board
}

#[test]
fn solve_lists_the_placements_that_fill_the_board() {
    let mut board = SudokuBoard::with_clues(&super_hard());
    let before = board.clone();
    let solution = LeastOptionsSolver::new()
        .solve(&mut board)
        .expect("Expected success");
    assert_eq!(board.values, before.values);
    assert_eq!(board.clues, before.clues);
    solution.write_to(&mut board).expect("free cells");
    assert!(board.is_filled());
    assert!(board.is_valid());
    assert_eq!(board.clues, before.clues);
    assert_eq!(solution.placements.len(), 81 - 25);
    assert_eq!(solution.branches, 3);
    let mut replay = before.clone();
    for &(row, col, val) in solution.placements.iter() {
        assert_eq!(before.values[row * 9 + col], 0);
        assert_eq!(replay.values[row * 9 + col], 0);
        replay.place((row, col, val)).expect("a free cell");
    }
    assert_eq!(replay.values, board.values);
    for index in 0..81 {
        if before.values[index] > 0 {
            assert_eq!(board.values[index], before.values[index]);
        }
    }
}

#[test]
fn solve_of_solved_board_places_nothing() {
    let mut board = solved_grid();
    let before = board.clone();
    let solution = LeastOptionsSolver::new()
        .solve(&mut board)
        .expect("Expected success");
    assert_eq!(solution.placements.len(), 0);
    assert_eq!(solution.branches, 0);
    assert_eq!(board.values, before.values);
    let bounded = LeastOptionsSolver::new()
        .try_solve(&mut board, Some(0))
        .expect("Expected success");
    assert_eq!(bounded.placements.len(), 0);
}

#[test]
fn verify_of_solved_board_is_valid_without_branches() {
    let board = solved_grid();
    assert_eq!(
        LeastOptionsSolver::new().verify(&board),
        Verification::ValidWithBranches(0)
    );
}

#[test]
fn verify_rejects_boards_without_or_with_many_solutions() {
    let mut solver = LeastOptionsSolver::new();
    // An empty board has many solutions.
    assert_eq!(
        solver.verify(&SudokuBoard::with_clues(&[])),
        Verification::NotValid
    );
    // A duplicate in a row makes the board invalid.
    assert_eq!(
        solver.verify(&SudokuBoard::with_clues(&[(7, 0, 2), (7, 8, 2)])),
        Verification::NotValid
    );
    // A valid board without solution.
    assert_eq!(solver.verify(&stuck_board()), Verification::NotValid);
    // An empty cell that is a clue cannot be filled.
    let mut blocked = solved_grid();
    blocked.values[40] = 0;
    blocked.clues[40] = true;
    assert_eq!(solver.verify(&blocked), Verification::NotValid);
    blocked.clues[40] = false;
    assert_eq!(solver.verify(&blocked), Verification::ValidWithBranches(0));
}

#[test]
fn solve_reports_why_it_fails() {
    let mut board = stuck_board();
    let before = board.clone();
    assert_eq!(
        LeastOptionsSolver::new().solve(&mut board).err(),
        Some(SudokuError::NoSolutionFound)
    );
    assert_eq!(board.values, before.values);

    let mut board = SudokuBoard::with_clues(&super_hard());
    let before = board.clone();
    assert_eq!(
        LeastOptionsSolver::new()
            .try_solve(&mut board, Some(10))
            .err(),
        Some(SudokuError::IterationLimitExceeded)
    );
    assert_eq!(board.values, before.values);
    assert!(LeastOptionsSolver::new()
        .try_solve(&mut board, Some(1000))
        .is_ok());

    let mut blocked = solved_grid();
    blocked.values[40] = 0;
    blocked.clues[40] = true;
    assert_eq!(
        LeastOptionsSolver::new().solve(&mut blocked).err(),
        Some(SudokuError::PlacementOnClue)
    );
    assert_eq!(blocked.values[40], 0);
}

#[test]
fn search_fails_on_the_empty_clue_that_it_comes_to() {
    // The third placement of the search on this board names the cell (3, 4).
    let mut board = SudokuBoard::with_clues(&super_hard());
    board.clues[3 * 9 + 4] = true;
    let before = board.clone();
    assert_eq!(
        LeastOptionsSolver::new().solve(&mut board).err(),
        Some(SudokuError::PlacementOnClue)
    );
    // Two placements come before it: a budget of two reaches the clue, a
    // budget of one is used up before.
    assert_eq!(
        LeastOptionsSolver::new()
            .try_solve(&mut board, Some(2))
            .err(),
        Some(SudokuError::PlacementOnClue)
    );
    assert_eq!(
        LeastOptionsSolver::new()
            .try_solve(&mut board, Some(1))
            .err(),
        Some(SudokuError::IterationLimitExceeded)
    );
    assert_eq!(board.values, before.values);

    // The first placement of all names a clue: no budget is needed.
    let mut blocked = solved_grid();
    blocked.values[40] = 0;
    blocked.clues[40] = true;
    assert_eq!(
        LeastOptionsSolver::new()
            .try_solve(&mut blocked, Some(0))
            .err(),
        Some(SudokuError::PlacementOnClue)
    );
}

#[test]
fn search_that_ends_before_the_empty_clue_finds_no_solution() {
    // No cell of this board accepts a value, so the search never comes to
    // the empty cell that is a clue.
    let mut board = stuck_board();
    board.clues[55] = true;
    assert_eq!(board.values[55], 0);
    assert_eq!(
        LeastOptionsSolver::new().solve(&mut board).err(),
        Some(SudokuError::NoSolutionFound)
    );
    // A board that is not valid is refused before the search.
    board.values[2] = 4;
    assert_eq!(
        LeastOptionsSolver::new().solve(&mut board).err(),
        Some(SudokuError::InvalidBoard)
    );
}

#[test]
fn find_solution_resumed_on_a_puzzle_finds_no_second_solution() {
    let mut board = SudokuBoard::with_clues(&evil());
    let mut solver = LeastOptionsSolver::new();
    solver.find_solution(&mut board).expect("Expected success");
    assert!(board.is_filled());
    assert_eq!(
        solver.find_solution(&mut board),
        Err(SudokuError::NoSolutionFound)
    );
}

#[test]
fn find_solution_resumed_on_an_open_board_finds_a_second_solution() {
    let mut board = SudokuBoard::with_clues(&[]);
    let mut solver = LeastOptionsSolver::new();
    solver.find_solution(&mut board).expect("Expected success");
    let first = board.values;
    solver.find_solution(&mut board).expect("Expected success");
    assert!(board.is_filled());
    assert!(board.is_valid());
    assert_ne!(board.values, first);
}

fn digits(board: &SudokuBoard) -> String {
    board.values.iter().map(|v| format!("{}", v)).collect()
}

#[test]
fn solve_finds_the_known_solutions() {
    let mut board = SudokuBoard::with_clues(&super_hard());
    let solution = solve_in_place(&mut board);
    assert_eq!(
        digits(&board),
        "415376298839521746627849315754618932198432657263795184946283571372154869581967423"
    );
    assert_eq!(
        solution.placements[..5],
        [(2, 5, 9), (3, 3, 6), (3, 4, 1), (3, 5, 8), (3, 8, 2)]
    );

    let mut board = SudokuBoard::with_clues(&evil());
    let solution = solve_in_place(&mut board);
    assert_eq!(
        digits(&board),
        "852413679147689325639275481398524716564731298271896543413962857985347162726158934"
    );
    assert_eq!(solution.placements.len(), 53);
    assert_eq!(solution.branches, 0);

    let mut board = SudokuBoard::with_clues(&reflection_symmetry());
    let solution = solve_in_place(&mut board);
    assert_eq!(
        digits(&board),
        "721853946495617832836429751967384125214765398358291674172536489683942517549178263"
    );
    assert_eq!(solution.placements.len(), 63);
    assert_eq!(solution.branches, 4);
}

#[test]
fn try_solve_succeeds_exactly_within_its_budget() {
    // The search for this board makes 103 placements, 56 of which stay.
    let mut board = SudokuBoard::with_clues(&super_hard());
    assert_eq!(
        LeastOptionsSolver::new()
            .try_solve(&mut board, Some(102))
            .err(),
        Some(SudokuError::IterationLimitExceeded)
    );
    assert!(!board.is_filled());
    let solution = LeastOptionsSolver::new()
        .try_solve(&mut board, Some(103))
        .expect("Expected success");
    assert!(!board.is_filled());
    assert_eq!(solution.placements.len(), 56);

    // The search for this board never goes back: 64 placements, all stay.
    let mut board = SudokuBoard::with_clues(&against_brute_force());
    assert_eq!(
        LeastOptionsSolver::new()
            .try_solve(&mut board, Some(63))
            .err(),
        Some(SudokuError::IterationLimitExceeded)
    );
    let solution = LeastOptionsSolver::new()
        .try_solve(&mut board, Some(64))
        .expect("Expected success");
    assert_eq!(solution.placements.len(), 64);
    assert_eq!(solution.branches, 3);
}

#[test]
fn solve_of_open_board_finds_the_first_solution_of_the_search() {
    let mut board = SudokuBoard::with_clues(&[]);
    let solution = solve_in_place(&mut board);
    assert_eq!(
        digits(&board),
        "123456789789123456456879123512698374374512698698347215231965847845731962967284531"
    );
    assert_eq!(solution.placements.len(), 81);
    assert_eq!(solution.branches, 104);
    assert_eq!(
        solution.placements[..12],
        [
            (0, 0, 1),
            (1, 3, 1),
            (2, 6, 1),
            (3, 1, 1),
            (6, 2, 1),
            (4, 4, 1),
            (5, 7, 1),
            (7, 5, 1),
            (8, 8, 1),
            (0, 1, 2),
            (1, 4, 2),
            (2, 7, 2)
        ]
    );

    let mut board = SudokuBoard::with_clues(&[(0, 0, 5), (4, 4, 5), (8, 8, 1)]);
    let solution = solve_in_place(&mut board);
    assert_eq!(
        digits(&board),
        "523467189189523467647198523762349815914852376358716294471685932235971648896234751"
    );
    assert_eq!(solution.placements.len(), 78);
    assert_eq!(solution.branches, 80);
}
