use rand::SeedableRng;
use rand_pcg::Pcg64Mcg;
use sudokugen::board::{Placement, SudokuBoard};
use sudokugen::error::SudokuError;
use sudokugen::generator::random_gen::{
    convert_to_clues, get_board_with_clues, get_difficulty, judge_removal, legal_slots,
    RandomSudoku, Removal,
};
use sudokugen::generator::{Difficulty, Generator, Puzzle};
use sudokugen::solver::least_options::LeastOptionsSolver;
use sudokugen::solver::{Solution, Solver, Verification};

fn generate(seed: u32, difficulty: Difficulty) -> Result<Puzzle, SudokuError> {
    RandomSudoku::new(LeastOptionsSolver::new())
        .seed(seed)
        .difficulty(difficulty)
        .run()
}

fn clues_of(board: &SudokuBoard) -> Vec<Placement> {
    let mut clues = Vec::new();
    for index in 0..81 {
        if board.values[index] > 0 {
            clues.push((index / 9, index % 9, board.values[index]));
        }
    }
    clues
}

fn check_puzzle(puzzle: &Puzzle, target: Difficulty) {
    assert_eq!(puzzle.difficulty, target);
    for index in 0..81 {
        assert_eq!(puzzle.board.clues[index], puzzle.board.values[index] > 0);
        assert!(puzzle.board.values[index] <= 9);
    }
    assert!(puzzle.board.is_valid());
    let verdict = LeastOptionsSolver::new().verify(&puzzle.board);
    let clues = clues_of(&puzzle.board).len() as u32;
    match verdict {
        Verification::ValidWithBranches(branches) => {
            assert!(get_difficulty(81 - clues, branches) >= target);
            assert_eq!(get_difficulty(81 - clues, branches), target);
        }
        Verification::NotValid => panic!("generated puzzle is not valid"),
    }
}

#[test]
fn seeded_board_is_valid_and_holds_at_most_25_values() {
    for seed in 0..20u8 {
        let mut rng = Pcg64Mcg::from_seed([seed; 16]);
        let board = get_board_with_clues(&mut rng);
        assert!(board.is_valid());
        let filled = board.values.iter().filter(|&&v| v > 0).count();
        assert!(filled <= 25);
        assert!(filled > 0);
        assert!(board.values.iter().all(|&v| v <= 9));
        assert!(board.clues.iter().all(|&c| !c));
    }
}

#[test]
fn seeded_board_is_filled_in_shuffled_order() {
    let mut rng = Pcg64Mcg::from_seed([3; 16]);
    let board = get_board_with_clues(&mut rng);
    // In row-major order the first cells would be filled and the last rows
    // would stay empty.
    assert!(board.values[..25].iter().any(|&v| v == 0));
    assert!(board.values[54..].iter().any(|&v| v > 0));
}

/// A solver that solves as the least-options solver does and finds every
/// board that it is asked about wanting.
struct Doubter {
    inner: LeastOptionsSolver,
}

impl Solver for Doubter {
    fn verify(&mut self, _board: &SudokuBoard) -> Verification {
        Verification::NotValid
    }

    fn solve(&mut self, board: &mut SudokuBoard) -> Result<Solution, SudokuError> {
        self.inner.solve(board)
    }

    fn try_solve(
        &mut self,
        board: &mut SudokuBoard,
        max_iterations: Option<u32>,
    ) -> Result<Solution, SudokuError> {
        self.inner.try_solve(board, max_iterations)
    }
}

#[test]
fn generator_gives_up_when_no_removal_is_accepted() {
    let doubter = Doubter {
        inner: LeastOptionsSolver::new(),
    };
    let result = RandomSudoku::new(doubter)
        .seed(5)
        .difficulty(Difficulty::Medium)
        .run();
    assert_eq!(result.err(), Some(SudokuError::DifficultyUnattainable));
}

#[test]
fn generator_keeps_the_solved_board_when_no_removal_is_accepted() {
    let doubter = Doubter {
        inner: LeastOptionsSolver::new(),
    };
    let puzzle = RandomSudoku::new(doubter)
        .seed(5)
        .difficulty(Difficulty::Easy)
        .run()
        .expect("an easy puzzle");
    assert!(puzzle.board.is_filled());
    assert!(puzzle.board.is_valid());
    assert!(puzzle.board.clues.iter().all(|&c| c));
}

#[test]
fn solved_seeded_board_is_filled_and_valid() {
    for seed in 0..10u8 {
        let mut rng = Pcg64Mcg::from_seed([seed; 16]);
        let mut generator = RandomSudoku::new(LeastOptionsSolver::new());
        let board = generator
            .solve_with_random_clues(&mut rng)
            .expect("a seeded board is solved");
        assert!(board.is_filled());
        assert!(board.is_valid());
    }
}

#[test]
fn generated_easy_puzzles_are_valid_puzzles() {
    for seed in 1..6 {
        let puzzle = generate(seed, Difficulty::Easy).expect("an easy puzzle");
        check_puzzle(&puzzle, Difficulty::Easy);
        assert!(clues_of(&puzzle.board).len() >= 35);
    }
}

#[test]
fn generated_puzzles_reach_the_requested_difficulty() {
    for target in [Difficulty::Medium, Difficulty::Hard, Difficulty::Evil] {
        let mut reached = 0;
        for seed in 1..9 {
            match generate(seed, target) {
                Ok(puzzle) => {
                    check_puzzle(&puzzle, target);
                    reached += 1;
                }
                Err(e) => assert_eq!(e, SudokuError::DifficultyUnattainable),
            }
        }
        assert!(reached > 0);
    }
}

#[test]
fn generator_without_a_seed_draws_one() {
    let puzzle = RandomSudoku::new(LeastOptionsSolver::new())
        .run()
        .expect("an easy puzzle");
    check_puzzle(&puzzle, Difficulty::Easy);
}

#[test]
fn nothing_more_can_go_from_a_generated_puzzle() {
    let mut checked = 0;
    for (seed, target) in [(7, Difficulty::Easy), (3, Difficulty::Medium)] {
        let Ok(puzzle) = generate(seed, target) else {
            continue;
        };
        checked += 1;
        let clues = clues_of(&puzzle.board).len() as u32;
        assert!(clues < 81);
        let mut overshoots = false;
        let mut keeps_one_solution = false;
        for index in 0..81 {
            if puzzle.board.values[index] == 0 {
                continue;
            }
            let mut board = SudokuBoard::with_clues(&[]);
            board.values = puzzle.board.values;
            board.values[index] = 0;
            match LeastOptionsSolver::new().verify(&board) {
                Verification::ValidWithBranches(branches) => {
                    keeps_one_solution = true;
                    if get_difficulty(81 - (clues - 1), branches) > target {
                        overshoots = true;
                    }
                }
                Verification::NotValid => {}
            }
        }
        assert!(overshoots || !keeps_one_solution);
    }
    assert!(checked > 0);
}

#[test]
fn same_seed_gives_same_puzzle() {
    let first = generate(42, Difficulty::Easy).expect("an easy puzzle");
    let second = generate(42, Difficulty::Easy).expect("an easy puzzle");
    assert_eq!(first.board.values, second.board.values);
    assert_eq!(first.board.clues, second.board.clues);
}

#[test]
fn clues_of_generated_puzzle_solve_to_the_same_grid() {
    let puzzle = generate(7, Difficulty::Easy).expect("an easy puzzle");
    let mut solved = puzzle.board.clone();
    LeastOptionsSolver::new()
        .solve(&mut solved)
        .expect("a puzzle has a solution")
        .write_to(&mut solved)
        .expect("free cells");
    assert!(solved.is_filled());
    assert!(solved.is_valid());

    let mut fresh = SudokuBoard::with_clues(&clues_of(&puzzle.board));
    assert_eq!(fresh.values, puzzle.board.values);
    assert_eq!(fresh.clues, puzzle.board.clues);
    let solution = LeastOptionsSolver::new()
        .solve(&mut fresh)
        .expect("a puzzle has a solution");
    assert_eq!(fresh.values, puzzle.board.values);
    solution.write_to(&mut fresh).expect("free cells");
    assert_eq!(fresh.values, solved.values);
    for index in 0..81 {
        if puzzle.board.values[index] > 0 {
            assert_eq!(fresh.values[index], puzzle.board.values[index]);
        }
    }
}

#[test]
fn difficulty_follows_clues_and_branches() {
    assert_eq!(get_difficulty(0, 0), Difficulty::Easy);
    assert_eq!(get_difficulty(46, 0), Difficulty::Easy);
    assert_eq!(get_difficulty(47, 0), Difficulty::Medium);
    assert_eq!(get_difficulty(53, 0), Difficulty::Medium);
    assert_eq!(get_difficulty(54, 0), Difficulty::Hard);
    assert_eq!(get_difficulty(0, 1), Difficulty::Hard);
    assert_eq!(get_difficulty(60, 1), Difficulty::Hard);
    assert_eq!(get_difficulty(0, 2), Difficulty::Evil);
    assert_eq!(get_difficulty(81, 7), Difficulty::Evil);
}

#[test]
fn removal_is_judged_by_verdict_and_target() {
    assert_eq!(
        judge_removal(Verification::NotValid, 10, Difficulty::Evil),
        Removal::Rejected
    );
    assert_eq!(
        judge_removal(Verification::ValidWithBranches(0), 10, Difficulty::Easy),
        Removal::Accepted(Difficulty::Easy)
    );
    assert_eq!(
        judge_removal(Verification::ValidWithBranches(0), 47, Difficulty::Easy),
        Removal::Overshoot
    );
    assert_eq!(
        judge_removal(Verification::ValidWithBranches(0), 47, Difficulty::Medium),
        Removal::Accepted(Difficulty::Medium)
    );
    assert_eq!(
        judge_removal(Verification::ValidWithBranches(1), 47, Difficulty::Medium),
        Removal::Overshoot
    );
    assert_eq!(
        judge_removal(Verification::ValidWithBranches(2), 47, Difficulty::Evil),
        Removal::Accepted(Difficulty::Evil)
    );
}

#[test]
fn legal_slots_lists_set_slots_in_order() {
    assert_eq!(legal_slots(&[0; 9]), Vec::<u8>::new());
    assert_eq!(legal_slots(&[1; 9]), vec![0, 1, 2, 3, 4, 5, 6, 7, 8]);
    assert_eq!(legal_slots(&[0, 1, 0, 0, 1, 0, 0, 0, 1]), vec![1, 4, 8]);
}

#[test]
fn convert_to_clues_marks_filled_cells() {
    let mut board = SudokuBoard::with_clues(&[(0, 0, 0)]);
    board.values[5] = 3;
    board.values[80] = 9;
    convert_to_clues(&mut board);
    for index in 0..81 {
        assert_eq!(board.clues[index], index == 0 || index == 5 || index == 80);
    }
    assert_eq!(board.values[5], 3);
    assert_eq!(board.values[0], 0);
}

#[test]
fn difficulty_from_number() {
    assert_eq!(Difficulty::try_from(0), Ok(Difficulty::Easy));
    assert_eq!(Difficulty::try_from(1), Ok(Difficulty::Medium));
    assert_eq!(Difficulty::try_from(2), Ok(Difficulty::Hard));
    assert_eq!(Difficulty::try_from(3), Ok(Difficulty::Evil));
    assert_eq!(Difficulty::try_from(4), Err(SudokuError::UnknownDifficulty));
    assert_eq!(Difficulty::Easy.rank(), 0);
    assert_eq!(Difficulty::Evil.rank(), 3);
    assert_eq!(Difficulty::Hard.name(), "Hard");
    assert!(Difficulty::Easy < Difficulty::Medium);
    assert!(Difficulty::Hard < Difficulty::Evil);
}
