//! The generator that seeds a board at random, solves it, and removes
//! values in a random order while the puzzle keeps its one solution.

use vstd::prelude::*;
use rand::{RngCore, SeedableRng};
use rand::rngs::OsRng;
use rand::seq::SliceRandom;
use rand_pcg::Pcg64Mcg;
use crate::board::SudokuBoard;
use crate::completion::{
    extends, has_unique_completion, is_completion, is_only_completion, lemma_clear_cell,
    lemma_more_values_one_completion, lemma_one_value_comes_back, lemma_place_allowed,
    lemma_solved_grid, values_in_range,
};
use crate::error::SudokuError;
use crate::generator::{
    classify, clues_finalized, is_generated, Difficulty, Generator, Puzzle, EASY_CLUES,
    HARD_BRANCHES, MEDIUM_CLUES,
};
use crate::grid::{
    grid_filled, grid_valid, has_empty_clue, lemma_cell_units, same_unit, value_allowed,
};
use crate::group::Group;
use crate::solver::{is_puzzle, Solver, Verification};
use crate::solver::choice::{is_branch_count, is_run};
use crate::solver::least_options::LeastOptionsSolver;
use crate::solver::runs::{lemma_branch_count_is_unique, lemma_one_gap_run, verdict_of};
use crate::solver::search::{
    branch_total, cell_of, empty_count, filled_count, in_range, lemma_filled_count_bounds,
    lemma_filled_count_full, lemma_filled_count_placed, StepView,
};

verus! {

/// Number of removal orders that are tried before the generator gives up.
pub const CREATE_CLUE_ATTEMPTS: u32 = 5;

/// Number of values that a board is seeded with before it is solved.
pub const SEED_VALUES: u32 = 25;

/// Number of seeded boards that are tried before the generator gives up: as
/// many as a `u32` counts.
pub const SOLVE_ATTEMPTS: u32 = 4294967295;

/// The random number generator `Mcg128Xsl64` of rand_pcg, which that crate
/// also calls `Pcg64Mcg`. The proofs see nothing of its state.
#[verifier::external_type_specification]
#[verifier::external_body]
pub struct ExMcg128Xsl64(rand_pcg::Mcg128Xsl64);

/// `SliceRandom::shuffle` of rand on a vector of indices. The call swaps
/// items of the slice in place, so the vector holds the same items as
/// before, each as often as before; their order depends on the generator.
#[verifier::external_body]
fn shuffle(sequence: &mut Vec<usize>, rng: &mut Pcg64Mcg)
    ensures
        final(sequence)@.to_multiset() == old(sequence)@.to_multiset(),
{
    sequence.shuffle(rng);
}

/// `SliceRandom::choose` of rand on a vector of bytes. The call gives
/// nothing for an empty slice, and else one item of the slice; which one
/// depends on the generator.
#[verifier::external_body]
fn choose_slot(values: &Vec<u8>, rng: &mut Pcg64Mcg) -> (picked: Option<u8>)
    ensures
        values@.len() == 0 ==> picked is None,
        values@.len() > 0 ==> picked is Some && values@.contains(picked->0),
{
    values.choose(rng).copied()
}

/// The error of rand_core: here, that the operating system gave no random
/// bytes.
#[verifier::external_type_specification]
#[verifier::external_body]
pub struct ExRandError(rand::Error);

/// `SeedableRng::from_rng` of rand_core for the generator of rand_pcg, with
/// `OsRng` as the source of its seed. The state of the new generator comes
/// from the operating system, so nothing is claimed of it, nor of when the
/// operating system fails to give it: the call then returns the error.
#[verifier::external_body]
fn rng_from_os() -> Result<Pcg64Mcg, rand::Error> {
    Pcg64Mcg::from_rng(OsRng)
}

/// `RngCore::fill_bytes` of rand_core for the generator of rand_pcg. The
/// call overwrites the bytes with output of the generator; nothing is
/// claimed of them.
#[verifier::external_body]
fn fill_bytes(rng: &mut Pcg64Mcg, dest: &mut [u8; 16]) {
    rng.fill_bytes(dest);
}

/// `SeedableRng::from_seed` of rand_core for the generator of rand_pcg.
/// Nothing is claimed of the state of the new generator.
#[verifier::external_body]
fn rng_from_seed(seed: [u8; 16]) -> Pcg64Mcg {
    Pcg64Mcg::from_seed(seed)
}

/// A shuffled sequence of cell indices still holds cell indices only.
proof fn lemma_shuffled_indices(before: Seq<usize>, after: Seq<usize>)
    requires
        before.to_multiset() == after.to_multiset(),
        forall|k: int| 0 <= k < before.len() ==> #[trigger] before[k] < 81,
    ensures
        after.len() == before.len(),
        forall|k: int| 0 <= k < after.len() ==> #[trigger] after[k] < 81,
{
    before.to_multiset_ensures();
    after.to_multiset_ensures();
    assert forall|k: int| 0 <= k < after.len() implies #[trigger] after[k] < 81 by {
        let a = after[k];
        assert(after.contains(a));
        assert(after.to_multiset().count(a) > 0);
        assert(before.to_multiset().count(a) > 0);
        assert(before.contains(a));
        let j = choose|j: int| 0 <= j < before.len() && before[j] == a;
        assert(before[j] < 81);
    }
}

/// Gives the cell indices 0 to 80 in a random order.
fn shuffled_indices(rng: &mut Pcg64Mcg) -> (sequence: Vec<usize>)
    ensures
        sequence@.len() == 81,
        forall|k: int| 0 <= k < 81 ==> #[trigger] sequence@[k] < 81,
        forall|i: usize| i < 81 ==> #[trigger] sequence@.contains(i),
        sequence@.to_multiset() == Seq::new(81, |k: int| k as usize).to_multiset(),
{
    let mut sequence: Vec<usize> = Vec::new();
    let mut i: usize = 0;
    while i < 81
        invariant
            i <= 81,
            sequence@ == Seq::new(i as nat, |k: int| k as usize),
        decreases 81 - i,
    {
        sequence.push(i);
        assert(sequence@ =~= Seq::new((i + 1) as nat, |k: int| k as usize));
        i += 1;
    }
    let ghost ordered = sequence@;
    shuffle(&mut sequence, rng);
    proof {
        lemma_shuffled_indices(ordered, sequence@);
        ordered.to_multiset_ensures();
        sequence@.to_multiset_ensures();
        assert forall|i: usize| i < 81 implies #[trigger] sequence@.contains(i) by {
            assert(ordered[i as int] == i);
            assert(ordered.contains(i));
            assert(ordered.to_multiset().count(i) > 0);
        }
    }
    sequence
}

/// The slots below `upto` of a legality vector that are set, in ascending
/// order.
pub open spec fn set_slots(vals: Group, upto: int) -> Seq<u8>
    decreases upto,
{
    if upto <= 0 {
        Seq::empty()
    } else if vals[upto - 1] == 1 {
        set_slots(vals, upto - 1).push((upto - 1) as u8)
    } else {
        set_slots(vals, upto - 1)
    }
}

/// Every slot that `set_slots` lists is below `upto` and set.
pub proof fn lemma_set_slots(vals: Group, upto: int)
    requires
        0 <= upto <= 9,
    ensures
        forall|k: int|
            0 <= k < set_slots(vals, upto).len() ==> (#[trigger] set_slots(vals, upto)[k]) < upto
                && vals[set_slots(vals, upto)[k] as int] == 1,
    decreases upto,
{
    if upto > 0 {
        lemma_set_slots(vals, upto - 1);
        let here = set_slots(vals, upto);
        let rest = set_slots(vals, upto - 1);
        assert forall|k: int| 0 <= k < here.len() implies (#[trigger] here[k]) < upto
            && vals[here[k] as int] == 1 by {
            if k < rest.len() {
                assert(here[k] == rest[k]);
            }
        }
    }
}

/// Lists the slots of a legality vector that are set, in ascending order.
pub fn legal_slots(placements: &Group) -> (slots: Vec<u8>)
    ensures
        slots@ == set_slots(*placements, 9),
{
    let mut slots: Vec<u8> = Vec::new();
    let mut val: u8 = 0;
    while val < 9
        invariant
            val <= 9,
            slots@ == set_slots(*placements, val as int),
        decreases 9 - val,
    {
        if placements[val as usize] == 1 {
            slots.push(val);
        }
        val += 1;
    }
    slots
}

/// The cell with index `i` accepts no value.
pub open spec fn accepts_nothing(cells: Seq<u8>, i: int) -> bool {
    forall|slot: int| 0 <= slot < 9 ==> !#[trigger] value_allowed(cells, i, slot + 1)
}

/// The cell with index `i` is settled: it is filled, or it accepts no value.
pub open spec fn is_settled(cells: Seq<u8>, i: int) -> bool {
    cells[i] != 0 || accepts_nothing(cells, i)
}

/// A cell that is settled stays settled when an empty cell is filled.
proof fn lemma_stays_settled(cells: Seq<u8>, j: int, v: u8, i: int)
    requires
        cells.len() == 81,
        0 <= i < 81,
        0 <= j < 81,
        cells[j] == 0,
        v != 0,
        is_settled(cells, i),
    ensures
        is_settled(cells.update(j, v), i),
{
    let after = cells.update(j, v);
    if cells[i] == 0 {
        assert forall|slot: int| 0 <= slot < 9 implies !#[trigger] value_allowed(
            after,
            i,
            slot + 1,
        ) by {
            assert(!value_allowed(cells, i, slot + 1));
            if i != j {
                let k = choose|k: int|
                    0 <= k < 81 && same_unit(i, k) && #[trigger] cells[k] == slot + 1;
                assert(after[k] == slot + 1);
            }
        }
    }
}

/// A legality vector without a set slot belongs to a cell that accepts
/// nothing.
proof fn lemma_no_slot_set(vals: Group, upto: int)
    requires
        0 <= upto <= 9,
        set_slots(vals, upto).len() == 0,
    ensures
        forall|slot: int| 0 <= slot < upto ==> #[trigger] vals[slot] != 1,
    decreases upto,
{
    if upto > 0 {
        lemma_no_slot_set(vals, upto - 1);
    }
}

/// No cell of the board is a clue.
pub open spec fn no_clues(board: SudokuBoard) -> bool {
    forall|i: int| 0 <= i < 81 ==> !#[trigger] board.clues@[i]
}

/// Seeds an empty board: visits the cells in a random order and gives each
/// visited cell that accepts any value one of the values it accepts, chosen
/// at random, until 25 values are placed or every cell was visited.
pub fn get_board_with_clues(rng: &mut Pcg64Mcg) -> (board: SudokuBoard)
    ensures
        board.valid(),
        values_in_range(board.values@),
        no_clues(board),
        filled_count(board.values@, 81) <= SEED_VALUES,
        filled_count(board.values@, 81) < SEED_VALUES ==> forall|i: int|
            0 <= i < 81 ==> #[trigger] is_settled(board.values@, i),
{
    let mut board = SudokuBoard { values: [0u8; 81], clues: [false; 81] };
    let add_sequence = shuffled_indices(rng);
    proof {
        lemma_empty_count_of_empty(board.values@, 81);
    }
    let mut index: usize = 0;
    let mut placed: u32 = 0;
    while placed < SEED_VALUES && index < 81
        invariant
            index <= 81,
            placed <= SEED_VALUES,
            add_sequence@.len() == 81,
            forall|k: int| 0 <= k < 81 ==> #[trigger] add_sequence@[k] < 81,
            board.valid(),
            values_in_range(board.values@),
            no_clues(board),
            filled_count(board.values@, 81) == placed,
            forall|k: int|
                0 <= k < index ==> is_settled(board.values@, #[trigger] add_sequence@[k] as int),
        decreases 81 - index,
    {
        let row = add_sequence[index] / 9;
        let col = add_sequence[index] % 9;
        let ghost before = board.values@;
        let ghost i = (row * 9 + col) as int;
        proof {
            lemma_cell_units(add_sequence[index as int] as int);
        }
        let placements = board.get_allowed_vals(row, col);
        index += 1;
        let candidates = legal_slots(&placements);
        match choose_slot(&candidates, rng) {
            Some(slot) => {
                proof {
                    lemma_set_slots(placements, 9);
                    let k = choose|k: int| 0 <= k < candidates@.len() && candidates@[k] == slot;
                    assert(placements[slot as int] == 1);
                    assert(value_allowed(before, i, slot + 1));
                    lemma_place_allowed(before, i, (slot + 1) as u8);
                    lemma_filled_count_placed(before, i, (slot + 1) as u8, 81);
                    assert(!board.clues@[i]);
                }
                let written = board.place((row, col, slot + 1));
                assert(written is Ok);
                proof {
                    assert forall|j: int| 0 <= j < 81 implies #[trigger] board.values@[j] <= 9 by {
                        if j != i {
                            assert(before[j] <= 9);
                        }
                    }
                    assert forall|k: int| 0 <= k < index implies is_settled(
                        board.values@,
                        #[trigger] add_sequence@[k] as int,
                    ) by {
                        if k < index - 1 {
                            lemma_stays_settled(
                                before,
                                i,
                                (slot + 1) as u8,
                                add_sequence@[k] as int,
                            );
                        }
                    }
                }
                placed += 1;
            },
            None => {
                proof {
                    lemma_no_slot_set(placements, 9);
                    assert forall|slot: int| 0 <= slot < 9 implies !#[trigger] value_allowed(
                        before,
                        i,
                        slot + 1,
                    ) by {
                        assert(placements[slot] != 1);
                    }
                    assert(is_settled(before, add_sequence@[index - 1] as int));
                }
            },
        }
    }
    proof {
        if placed < SEED_VALUES {
            assert forall|i: int| 0 <= i < 81 implies #[trigger] is_settled(board.values@, i) by {
                assert(add_sequence@.contains(i as usize));
                let k = choose|k: int|
                    0 <= k < add_sequence@.len() && add_sequence@[k] == i as usize;
                assert(is_settled(board.values@, add_sequence@[k] as int));
            }
        }
    }
    board
}

/// What becomes of the removal of a value, once the solver has judged the
/// board without it.
#[derive(Clone, Copy, Debug, PartialEq, Eq, Structural)]
pub enum Removal {
    /// The board has lost its one solution: the value goes back.
    Rejected,
    /// The board is still a puzzle, now of the given difficulty: the value
    /// stays out.
    Accepted(Difficulty),
    /// The board is still a puzzle, but harder than was asked for: the value
    /// goes back and no further value is removed.
    Overshoot,
}

/// What becomes of the removal of the `removed`-th value of a board when
/// the solver gives `verdict` for the board without it.
pub open spec fn judged(verdict: Verification, removed: int, target: Difficulty) -> Removal {
    match verdict {
        Verification::NotValid => Removal::Rejected,
        Verification::ValidWithBranches(branches) => {
            let reached = classify(81 - removed, branches as int);
            if reached.level() > target.level() {
                Removal::Overshoot
            } else {
                Removal::Accepted(reached)
            }
        },
    }
}

/// What a removal leaves behind. A removal that is rejected, or that goes
/// too far, leaves the board and the difficulty as they were, and only the
/// one that goes too far asks to stop. A removal that is accepted leaves
/// the cell empty and the difficulty that was reached.
pub open spec fn removal_leaves(
    removal: Removal,
    index: int,
    before: SudokuBoard,
    after: SudokuBoard,
    diff_before: Difficulty,
    diff_after: Difficulty,
    stop: bool,
) -> bool {
    match removal {
        Removal::Rejected => !stop && after == before && diff_after == diff_before,
        Removal::Overshoot => stop && after == before && diff_after == diff_before,
        Removal::Accepted(reached) => {
            &&& !stop
            &&& after.clues == before.clues
            &&& after.values@ == before.values@.update(index, 0u8)
            &&& diff_after == reached
        },
    }
}

/// Decides what becomes of the removal of the `removed`-th value of a board
/// from the verdict of the solver on the board without it.
pub fn judge_removal(verdict: Verification, removed: u32, target: Difficulty) -> (removal:
    Removal)
    requires
        removed <= 81,
    ensures
        removal == judged(verdict, removed as int, target),
{
    match verdict {
        Verification::ValidWithBranches(branches) => {
            let reached = get_difficulty(removed, branches);
            if reached.rank() > target.rank() {
                Removal::Overshoot
            } else {
                Removal::Accepted(reached)
            }
        },
        Verification::NotValid => Removal::Rejected,
    }
}

/// The value of the cell with index `i` cannot go: the cell is empty, or the
/// grid without its value has no longer exactly one completion.
pub open spec fn is_pinned(cells: Seq<u8>, i: int) -> bool {
    cells[i] != 0 ==> !has_unique_completion(cells.update(i, 0u8))
}

/// A value that cannot go from a grid with one completion cannot go either
/// once another value has gone.
proof fn lemma_stays_pinned(cells: Seq<u8>, gone: int, i: int)
    requires
        cells.len() == 81,
        0 <= gone < 81,
        0 <= i < 81,
        has_unique_completion(cells),
        is_pinned(cells, i),
    ensures
        is_pinned(cells.update(gone, 0u8), i),
{
    let left = cells.update(gone, 0u8);
    if left[i] != 0 && has_unique_completion(left.update(i, 0u8)) {
        let more = cells.update(i, 0u8);
        let solved = choose|grid: Seq<u8>| is_only_completion(grid, cells);
        assert(is_completion(solved, more));
        lemma_more_values_one_completion(more, left.update(i, 0u8));
    }
}

/// A grid has the given difficulty for a count of branches that goes with
/// it: the difficulty is that of its number of clues and of that count.
pub open spec fn is_rated(cells: Seq<u8>, branches: u32, difficulty: Difficulty) -> bool {
    classify(filled_count(cells, 81), branches as int) == difficulty
}

/// An easy puzzle has 35 clues or more and no branch, a medium puzzle has
/// from 28 to 34 clues and no branch, a hard puzzle has one branch, or none
/// and fewer than 28 clues, and an evil puzzle has two branches or more.
pub proof fn lemma_rated(cells: Seq<u8>, branches: u32, difficulty: Difficulty)
    requires
        is_rated(cells, branches, difficulty),
    ensures
        difficulty == Difficulty::Easy ==> filled_count(cells, 81) >= 35 && branches == 0,
        difficulty == Difficulty::Medium ==> 28 <= filled_count(cells, 81) < 35 && branches == 0,
        difficulty == Difficulty::Hard ==> branches == 1 || (branches == 0
            && filled_count(cells, 81) < 28),
        difficulty == Difficulty::Evil ==> branches >= 2,
{
}

/// Byte `i` of the 16 bytes that a seed number is spread over: the four
/// bytes of the number, highest first, four times over.
pub open spec fn seed_byte(seed: u32, i: int) -> int {
    if i % 4 == 0 {
        seed as int / 16777216
    } else if i % 4 == 1 {
        (seed as int / 65536) % 256
    } else if i % 4 == 2 {
        (seed as int / 256) % 256
    } else {
        seed as int % 256
    }
}

/// Generator of random Sudoku puzzles.
///
/// The seed of its random numbers and the difficulty of its puzzles can be
/// set.
pub struct RandomSudoku<S: Solver> {
    solver: S,
    random_seed: bool,
    seed: [u8; 16],
    difficulty: Difficulty,
    max_iterations: u32,
}

impl<S: Solver> Generator for RandomSudoku<S> {
    /// The puzzle has the difficulty that the generator aims at, the
    /// generator rates it so, and nothing more was to be removed from it.
    /// Only a generator that takes a fresh seed can fail for want of random
    /// numbers.
    fn run(&mut self) -> (result: Result<Puzzle, SudokuError>)
        ensures
            final(self).target() == old(self).target(),
            final(self).counts_as(old(self)),
            !old(self).seeds_itself() ==> final(self).seed_bytes() == old(self).seed_bytes(),
            result matches Ok(puzzle) ==> {
                &&& puzzle.difficulty == old(self).target()
                &&& final(self).rates(puzzle.board.values@, puzzle.difficulty)
                &&& final(self).is_spent(puzzle.board.values@)
            },
            result matches Err(e) ==> (e == SudokuError::EntropyUnavailable
                ==> old(self).seeds_itself()),
    {
        // Set up the random numbers.
        let mut rng = self.random_generator()?;
        // Seed a board at random and solve it.
        let mut board = self.solve_with_random_clues(&mut rng)?;
        // Remove values while the board stays a puzzle.
        self.find_valid_puzzle(&mut board, &mut rng)?;
        Ok(Puzzle { board, difficulty: self.difficulty })
    }
}

impl<S: Solver> RandomSudoku<S> {
    /// The difficulty that the generator aims at.
    pub closed spec fn target(&self) -> Difficulty {
        self.difficulty
    }

    /// The generator takes a fresh seed from the operating system for every
    /// puzzle.
    pub closed spec fn seeds_itself(&self) -> bool {
        self.random_seed
    }

    /// The seed of the random numbers.
    pub closed spec fn seed_bytes(&self) -> Seq<u8> {
        self.seed@
    }

    /// The most placements that the solver may make on a seeded board.
    pub closed spec fn solve_budget(&self) -> u32 {
        self.max_iterations
    }

    /// The solver of the generator may report `branches` as the number of
    /// branches of the grid `cells`.
    pub closed spec fn solver_may_count(&self, cells: Seq<u8>, branches: u32) -> bool {
        self.solver.may_count(cells, branches)
    }

    /// The generator rates the grid `cells` as of the given difficulty: the
    /// grid is filled and counts as easy, or the difficulty is that of the
    /// number of its clues and of a number of branches that the solver may
    /// report for it.
    pub open spec fn rates(&self, cells: Seq<u8>, difficulty: Difficulty) -> bool {
        ||| grid_filled(cells) && difficulty == Difficulty::Easy
        ||| exists|branches: u32| #[trigger]
            self.solver_may_count(cells, branches) && is_rated(cells, branches, difficulty)
    }

    /// What the generator does with the value of the cell with index
    /// `index`, which is the `removed`-th value to go. If the board without
    /// the value has no longer exactly one completion, the removal is
    /// rejected. Else the removal is judged by a number of branches that
    /// the solver may report for the board without the value.
    pub open spec fn removes(
        &self,
        index: int,
        removed: int,
        before: SudokuBoard,
        after: SudokuBoard,
        diff_before: Difficulty,
        diff_after: Difficulty,
        stop: bool,
    ) -> bool {
        let cleared = before.values@.update(index, 0u8);
        if has_unique_completion(cleared) {
            exists|branches: u32| #[trigger]
                self.solver_may_count(cleared, branches) && removal_leaves(
                    judged(Verification::ValidWithBranches(branches), removed, self.target()),
                    index,
                    before,
                    after,
                    diff_before,
                    diff_after,
                    stop,
                )
        } else {
            removal_leaves(
                Removal::Rejected,
                index,
                before,
                after,
                diff_before,
                diff_after,
                stop,
            )
        }
    }

    /// Nothing more is to be removed from the grid `cells`: the solver may
    /// rate the grid without one of its values above the difficulty that
    /// the generator aims at, or the grid without any one of its values has
    /// no longer exactly one completion.
    pub open spec fn is_spent(&self, cells: Seq<u8>) -> bool {
        ||| exists|i: int, branches: u32|
            0 <= i < 81 && cells[i] != 0 && #[trigger] self.solver_may_count(
                cells.update(i, 0u8),
                branches,
            ) && classify(filled_count(cells, 81) - 1, branches as int).level()
                > self.target().level()
        ||| forall|i: int| 0 <= i < 81 ==> #[trigger] is_pinned(cells, i)
    }

    /// What the solver may report is the same for `self` as for `other`.
    pub open spec fn counts_as(&self, other: &Self) -> bool {
        forall|cells: Seq<u8>, branches: u32| #[trigger]
            self.solver_may_count(cells, branches) == other.solver_may_count(cells, branches)
    }

    /// The generator has the settings of `other`, and its solver may report
    /// what the solver of `other` may.
    pub open spec fn keeps(&self, other: &Self) -> bool {
        &&& self.target() == other.target()
        &&& self.seeds_itself() == other.seeds_itself()
        &&& self.seed_bytes() == other.seed_bytes()
        &&& self.solve_budget() == other.solve_budget()
        &&& self.counts_as(other)
    }

    /// Two generators whose solvers may report the same count as each
    /// other.
    proof fn lemma_counts_as(&self, other: &Self)
        requires
            forall|cells: Seq<u8>, branches: u32| #[trigger]
                self.solver.may_count(cells, branches) == other.solver.may_count(
                    cells,
                    branches,
                ),
        ensures
            self.counts_as(other),
            other.counts_as(self),
    {
        assert forall|cells: Seq<u8>, branches: u32| #[trigger]
            self.solver_may_count(cells, branches) == other.solver_may_count(
                cells,
                branches,
            ) by {
            assert(self.solver.may_count(cells, branches) == other.solver.may_count(
                cells,
                branches,
            ));
        }
    }

    /// Generators that count as each other rate every grid alike.
    pub proof fn lemma_rates_alike(&self, other: &Self, cells: Seq<u8>, difficulty: Difficulty)
        requires
            self.counts_as(other),
            other.rates(cells, difficulty),
        ensures
            self.rates(cells, difficulty),
    {
        if !(grid_filled(cells) && difficulty == Difficulty::Easy) {
            let branches = choose|branches: u32| #[trigger]
                other.solver_may_count(cells, branches) && is_rated(cells, branches, difficulty);
            assert(self.solver_may_count(cells, branches));
        }
    }

    /// The solver of the generator has at most one number of branches that
    /// it may report for the grid `cells`.
    pub open spec fn counts_once(&self, cells: Seq<u8>) -> bool {
        forall|a: u32, b: u32|
            #![trigger self.solver_may_count(cells, a), self.solver_may_count(cells, b)]
            self.solver_may_count(cells, a) && self.solver_may_count(cells, b) ==> a == b
    }

    /// The difficulty that is reached: where the solver has one number of
    /// branches for a grid that the generator rates, and the grid is not
    /// filled, the difficulty of the rating is that of the number of clues
    /// and of any number of branches that the solver reports for the grid.
    ///
    /// A filled grid counts as easy whatever the solver reports for it.
    pub proof fn lemma_rated_as_counted(&self, puzzle: Puzzle, branches: u32)
        requires
            self.rates(puzzle.board.values@, puzzle.difficulty),
            self.counts_once(puzzle.board.values@),
            self.solver_may_count(puzzle.board.values@, branches),
            !grid_filled(puzzle.board.values@),
        ensures
            puzzle.difficulty == classify(
                filled_count(puzzle.board.values@, 81),
                branches as int,
            ),
    {
        let cells = puzzle.board.values@;
        let rated = choose|rated: u32| #[trigger]
            self.solver_may_count(cells, rated) && is_rated(cells, rated, puzzle.difficulty);
        assert(self.solver_may_count(cells, rated) && self.solver_may_count(cells, branches));
    }

    /// Creates a generator of easy puzzles that takes its seed from the
    /// operating system and works with the given solver.
    ///
    /// The builder methods `seed` and `difficulty` change these settings.
    pub fn new(solver: S) -> (generator: RandomSudoku<S>)
        ensures
            generator.target() == Difficulty::Easy,
            generator.seeds_itself(),
            generator.solve_budget() == 1000,
            forall|cells: Seq<u8>, branches: u32| #[trigger]
                generator.solver_may_count(cells, branches) == solver.may_count(cells, branches),
    {
        RandomSudoku {
            solver,
            random_seed: true,
            seed: [0u8; 16],
            difficulty: Difficulty::Easy,
            max_iterations: 1000,
        }
    }

    /// Sets the seed of the random numbers: the four bytes of the number,
    /// highest first, four times over.
    ///
    /// The same seed and the same difficulty give the same puzzle.
    pub fn seed(self, seed: u32) -> (generator: RandomSudoku<S>)
        ensures
            !generator.seeds_itself(),
            generator.seed_bytes().len() == 16,
            forall|i: int|
                0 <= i < 16 ==> #[trigger] generator.seed_bytes()[i] == seed_byte(seed, i),
            generator.target() == self.target(),
            generator.solve_budget() == self.solve_budget(),
            generator.counts_as(&self),
    {
        assert(seed >> 24 == seed / 16777216 && seed >> 24 < 256) by (bit_vector);
        assert((seed >> 16) & 0xff == (seed / 65536) % 256) by (bit_vector);
        assert((seed >> 8) & 0xff == (seed / 256) % 256) by (bit_vector);
        assert(seed & 0xff == seed % 256) by (bit_vector);
        let seed_bytes: [u8; 4] = [
            (seed >> 24) as u8,
            ((seed >> 16) & 0xff) as u8,
            ((seed >> 8) & 0xff) as u8,
            (seed & 0xff) as u8,
        ];
        let mut generator = self;
        generator.random_seed = false;
        let mut i: usize = 0;
        while i < 16
            invariant
                i <= 16,
                !generator.random_seed,
                generator.solver == self.solver,
                generator.difficulty == self.difficulty,
                generator.max_iterations == self.max_iterations,
                seed_bytes[0] == seed / 16777216,
                seed_bytes[1] == (seed / 65536) % 256,
                seed_bytes[2] == (seed / 256) % 256,
                seed_bytes[3] == seed % 256,
                forall|j: int| 0 <= j < i ==> #[trigger] generator.seed@[j] == seed_byte(seed, j),
            decreases 16 - i,
        {
            generator.seed[i] = seed_bytes[i % 4];
            i += 1;
        }
        proof {
            generator.lemma_counts_as(&self);
        }
        generator
    }

    /// Sets the difficulty that the generator aims at.
    pub fn difficulty(self, diff: Difficulty) -> (generator: RandomSudoku<S>)
        ensures
            generator.target() == diff,
            generator.seeds_itself() == self.seeds_itself(),
            generator.seed_bytes() == self.seed_bytes(),
            generator.solve_budget() == self.solve_budget(),
            generator.counts_as(&self),
    {
        let mut generator = self;
        generator.difficulty = diff;
        generator
    }

    /// Sets up the random numbers: from the seed that was set, or from a
    /// fresh seed, which the generator then keeps. Fails only where a fresh
    /// seed is wanted and the operating system gives none.
    fn random_generator(&mut self) -> (result: Result<Pcg64Mcg, SudokuError>)
        ensures
            final(self).target() == old(self).target(),
            final(self).solve_budget() == old(self).solve_budget(),
            final(self).seeds_itself() == old(self).seeds_itself(),
            final(self).counts_as(old(self)),
            !old(self).seeds_itself() ==> final(self).seed_bytes() == old(self).seed_bytes()
                && result is Ok,
            result matches Err(e) ==> e == SudokuError::EntropyUnavailable
                && final(self).seed_bytes() == old(self).seed_bytes(),
    {
        if self.random_seed {
            match rng_from_os() {
                Ok(source) => {
                    let mut source = source;
                    fill_bytes(&mut source, &mut self.seed);
                },
                Err(_) => {
                    return Err(SudokuError::EntropyUnavailable);
                },
            }
        }
        Ok(rng_from_seed(self.seed))
    }

    /// Seeds boards at random until the solver solves one within its
    /// budget, and gives that board with the solution written to it. Gives
    /// up after `SOLVE_ATTEMPTS` boards.
    pub fn solve_with_random_clues(&mut self, rng: &mut Pcg64Mcg) -> (result: Result<
        SudokuBoard,
        SudokuError,
    >)
        ensures
            final(self).keeps(old(self)),
            match result {
                Ok(board) => {
                    &&& board.filled()
                    &&& board.valid()
                    &&& values_in_range(board.values@)
                    &&& no_clues(board)
                },
                Err(e) => e == SudokuError::DifficultyUnattainable,
            },
    {
        let mut attempt: u32 = 0;
        while attempt < SOLVE_ATTEMPTS
            invariant
                self.keeps(old(self)),
            decreases SOLVE_ATTEMPTS - attempt,
        {
            let mut board = get_board_with_clues(rng);
            let ghost seeded = board;
            let ghost before = *self;
            let result = self.solver.try_solve(&mut board, Some(self.max_iterations));
            proof {
                self.lemma_counts_as(&before);
            }

            if let Ok(solution) = result {
                proof {
                    assert forall|k: int| 0 <= k < solution.placements@.len() implies
                        board.place_result(#[trigger] solution.placements@[k]) is Ok by {
                        assert(in_range(solution.placements@[k]));
                        assert(!board.clues@[cell_of(solution.placements@[k])]);
                    }
                }
                // The solver leaves the board alone: write its solution down.
                let written = solution.write_to(&mut board);
                assert(written is Ok);
                proof {
                    assert forall|i: int| 0 <= i < 81 implies #[trigger] board.values@[i] <= 9 by {
                        if seeded.values@[i] != 0 {
                            assert(seeded.values@[i] <= 9);
                        }
                    }
                }
                return Ok(board);
            }
            attempt += 1;
        }
        Err(SudokuError::DifficultyUnattainable)
    }

    /// Removes values from a solved board in a random order while the board
    /// keeps its one solution and does not get harder than the generator
    /// aims at. If the board has then reached that difficulty, its filled
    /// cells become its clues, and nothing more is to be removed from it.
    /// If not, the values go back and another order is tried,
    /// `CREATE_CLUE_ATTEMPTS` orders in all.
    fn find_valid_puzzle(&mut self, board: &mut SudokuBoard, rng: &mut Pcg64Mcg) -> (result:
        Result<(), SudokuError>)
        requires
            old(board).filled(),
            old(board).valid(),
            values_in_range(old(board).values@),
            no_clues(*old(board)),
        ensures
            final(self).keeps(old(self)),
            old(self).target() == Difficulty::Easy ==> result is Ok,
            match result {
                Ok(()) => {
                    &&& is_puzzle(*final(board))
                    &&& clues_finalized(*final(board))
                    &&& final(board).valid()
                    &&& values_in_range(final(board).values@)
                    &&& extends(old(board).values@, final(board).values@)
                    &&& final(self).rates(final(board).values@, old(self).difficulty)
                    &&& final(self).is_spent(final(board).values@)
                },
                Err(e) => e == SudokuError::DifficultyUnattainable && *final(board) == *old(board),
            },
    {
        let orig_values = board.values;
        proof {
            lemma_solved_grid(orig_values@);
            lemma_filled_count_full(orig_values@, 81);
        }
        let mut attempt: u32 = 0;
        while attempt < CREATE_CLUE_ATTEMPTS
            invariant
                self.keeps(old(self)),
                *board == *old(board),
                orig_values == old(board).values,
                board.filled(),
                board.valid(),
                values_in_range(board.values@),
                no_clues(*board),
                is_only_completion(orig_values@, orig_values@),
                filled_count(orig_values@, 81) == 81,
                self.difficulty == Difficulty::Easy ==> attempt == 0,
            decreases CREATE_CLUE_ATTEMPTS - attempt,
        {
            let removal_sequence = shuffled_indices(rng);

            let mut count: usize = 0;
            let mut removed_cells: u32 = 0;
            let mut diff = Difficulty::Easy;
            let ghost mut halted = false;

            while count < 81
                invariant_except_break
                    !halted,
                invariant
                    count <= 81,
                    self.keeps(old(self)),
                    removal_sequence@.len() == 81,
                    forall|k: int| 0 <= k < 81 ==> #[trigger] removal_sequence@[k] < 81,
                    forall|i: usize| i < 81 ==> #[trigger] removal_sequence@.contains(i),
                    halted ==> self.is_spent(board.values@),
                    !halted ==> forall|k: int|
                        0 <= k < count ==> is_pinned(
                            board.values@,
                            #[trigger] removal_sequence@[k] as int,
                        ),
                    board.clues == old(board).clues,
                    no_clues(*board),
                    board.valid(),
                    values_in_range(board.values@),
                    extends(orig_values@, board.values@),
                    has_unique_completion(board.values@),
                    removed_cells == empty_count(board.values@),
                    diff.level() <= self.difficulty.level(),
                    self.rates(board.values@, diff),
                ensures
                    halted || count == 81,
                decreases 81 - count,
            {
                let index = removal_sequence[count];
                count += 1;
                if board.values[index] > 0 && !board.clues[index] {
                    let ghost before = *self;
                    let ghost rated = (board.values@, diff);
                    let ghost removed = removed_cells;
                    let ghost held = *board;
                    let stop = self.try_removing_value(
                        board,
                        index,
                        &mut removed_cells,
                        &mut diff,
                    );
                    proof {
                        if board.values@ == rated.0 {
                            self.lemma_rates_alike(&before, rated.0, rated.1);
                        }
                        let cleared = rated.0.update(index as int, 0u8);
                        if stop {
                            let branches = choose|branches: u32| #[trigger]
                                before.solver_may_count(cleared, branches) && removal_leaves(
                                    judged(
                                        Verification::ValidWithBranches(branches),
                                        removed + 1,
                                        before.target(),
                                    ),
                                    index as int,
                                    held,
                                    *board,
                                    rated.1,
                                    diff,
                                    stop,
                                );
                            assert(self.solver_may_count(cleared, branches));
                            assert(board.values@ == rated.0);
                            assert(classify(
                                filled_count(rated.0, 81) - 1,
                                branches as int,
                            ).level() > self.target().level());
                            halted = true;
                        } else if board.values@ != rated.0 {
                            assert forall|k: int| 0 <= k < count implies is_pinned(
                                board.values@,
                                #[trigger] removal_sequence@[k] as int,
                            ) by {
                                if k < count - 1 {
                                    lemma_stays_pinned(
                                        rated.0,
                                        index as int,
                                        removal_sequence@[k] as int,
                                    );
                                }
                            }
                        }
                    }
                    if stop {
                        break;
                    }
                }
            }
            proof {
                if !halted {
                    assert forall|i: int| 0 <= i < 81 implies #[trigger] is_pinned(
                        board.values@,
                        i,
                    ) by {
                        assert(removal_sequence@.contains(i as usize));
                        let k = choose|k: int|
                            0 <= k < 81 && removal_sequence@[k] == i as usize;
                        assert(is_pinned(board.values@, removal_sequence@[k] as int));
                    }
                }
            }

            if diff.rank() >= self.difficulty.rank() {
                convert_to_clues(board);
                proof {
                    if has_empty_clue(board.values@, board.clues@) {
                        let i = choose|i: int|
                            0 <= i < 81 && #[trigger] board.clues@[i] && board.values@[i] == 0;
                        assert(!old(board).clues@[i]);
                    }
                    assert forall|i: int| 0 <= i < 81 implies #[trigger] board.clues@[i] == (
                    board.values@[i] > 0) by {
                        assert(!old(board).clues@[i]);
                    }
                }
                return Ok(());
            } else {
                board.values = orig_values;
            }
            attempt += 1;
        }
        Err(SudokuError::DifficultyUnattainable)
    }

    /// Removes the value of one cell and asks the solver whether the board
    /// is still a puzzle. If it is not, or if it has become harder than the
    /// generator aims at, the value goes back. Tells whether the board has
    /// become too hard, so that no further value should be removed.
    fn try_removing_value(
        &mut self,
        board: &mut SudokuBoard,
        index: usize,
        removed_cells: &mut u32,
        diff: &mut Difficulty,
    ) -> (stop: bool)
        requires
            index < 81,
            old(board).values@[index as int] > 0,
            !old(board).clues@[index as int],
            no_clues(*old(board)),
            old(board).valid(),
            values_in_range(old(board).values@),
            *old(removed_cells) == empty_count(old(board).values@),
        ensures
            final(self).keeps(old(self)),
            final(board).clues == old(board).clues,
            *final(removed_cells) == empty_count(final(board).values@),
            old(self).removes(
                index as int,
                *old(removed_cells) + 1,
                *old(board),
                *final(board),
                *old(diff),
                *final(diff),
                stop,
            ),
            stop ==> *final(board) == *old(board),
            *final(board) == *old(board) ==> *final(diff) == *old(diff),
            *final(board) != *old(board) ==> ({
                &&& final(board).values@ == old(board).values@.update(index as int, 0u8)
                &&& is_puzzle(*final(board))
                &&& final(diff).level() <= old(self).difficulty.level()
                &&& final(self).rates(final(board).values@, *final(diff))
            }),
    {
        let num = board.values[index];
        let (row, col) = (index / 9, index % 9);
        let ghost before = board.values@;
        proof {
            lemma_cell_units(index as int);
            lemma_clear_cell(before, index as int);
            lemma_filled_count_placed(before.update(index as int, 0u8), index as int, num, 81);
            assert(before.update(index as int, 0u8).update(index as int, num) =~= before);
            lemma_filled_count_bounds(before.update(index as int, 0u8), 81);
        }
        let cleared = board.place((row, col, 0));
        assert(cleared is Ok);
        let verdict = self.solver.verify(board);
        proof {
            self.lemma_counts_as(old(self));
        }
        let removal = judge_removal(verdict, *removed_cells + 1, self.difficulty);
        proof {
            let cleared = before.update(index as int, 0u8);
            assert(!has_empty_clue(cleared, board.clues@)) by {
                if has_empty_clue(cleared, board.clues@) {
                    let i = choose|i: int|
                        0 <= i < 81 && #[trigger] board.clues@[i] && cleared[i] == 0;
                    assert(!old(board).clues@[i]);
                }
            }
            assert(verdict is ValidWithBranches <==> has_unique_completion(cleared));
            if let Verification::ValidWithBranches(branches) = verdict {
                assert(old(self).solver.may_count(cleared, branches));
                assert(old(self).solver_may_count(cleared, branches));
            }
        }
        match removal {
            Removal::Accepted(reached) => {
                *removed_cells = *removed_cells + 1;
                *diff = reached;
                proof {
                    let branches = verdict->ValidWithBranches_0;
                    assert(old(self).solver.may_count(board.values@, branches));
                    assert(self.solver_may_count(board.values@, branches));
                    assert(is_rated(board.values@, branches, reached));
                }
                return false;
            },
            Removal::Overshoot => {
                let restored = board.place((row, col, num));
                assert(restored is Ok);
                assert(board.values =~= old(board).values);
                return true;
            },
            Removal::Rejected => {
                let restored = board.place((row, col, num));
                assert(restored is Ok);
                assert(board.values =~= old(board).values);
                return false;
            },
        }
    }
}

/// The difficulty of a puzzle that a generator with the least-options solver
/// has rated as of the difficulty that it aims at: the solver reports a
/// number of branches for the puzzle, and the difficulty of the number of
/// clues and of that number of branches is the difficulty of the puzzle,
/// which is the one that the generator aims at.
pub proof fn lemma_generated_puzzle_class(
    generator: &RandomSudoku<LeastOptionsSolver>,
    puzzle: Puzzle,
    verdict: Verification,
)
    requires
        is_generated(puzzle),
        generator.rates(puzzle.board.values@, puzzle.difficulty),
        puzzle.difficulty == generator.target(),
        verdict == verdict_of(puzzle.board),
    ensures
        verdict is ValidWithBranches,
        classify(filled_count(puzzle.board.values@, 81), verdict->ValidWithBranches_0 as int)
            == puzzle.difficulty,
        classify(
            filled_count(puzzle.board.values@, 81),
            verdict->ValidWithBranches_0 as int,
        ).level() >= generator.target().level(),
{
    let cells = puzzle.board.values@;
    if grid_filled(cells) && puzzle.difficulty == Difficulty::Easy {
        let none = Seq::<StepView>::empty();
        assert(is_run(none, cells, cells));
        assert(branch_total(none) == 0);
        assert(is_branch_count(cells, 0));
        lemma_branch_count_is_unique(cells, 0);
        lemma_filled_count_full(cells, 81);
    } else {
        let rated = choose|rated: u32| #[trigger]
            generator.solver_may_count(cells, rated) && is_rated(cells, rated, puzzle.difficulty);
        assert(is_branch_count(cells, rated as int));
        lemma_branch_count_is_unique(cells, rated as int);
    }
}

/// A puzzle of a generator with the least-options solver is never the solved
/// grid itself: from a filled grid a value can go, and the solver rates the
/// grid without it as easy, which no generator aims below.
pub proof fn lemma_spent_grid_has_gaps(
    generator: &RandomSudoku<LeastOptionsSolver>,
    cells: Seq<u8>,
)
    requires
        cells.len() == 81,
        grid_valid(cells),
        values_in_range(cells),
        generator.is_spent(cells),
    ensures
        !grid_filled(cells),
{
    if grid_filled(cells) {
        lemma_solved_grid(cells);
        lemma_filled_count_full(cells, 81);
        if forall|i: int| 0 <= i < 81 ==> #[trigger] is_pinned(cells, i) {
            assert(is_pinned(cells, 0));
            lemma_one_value_comes_back(cells, 0);
        } else {
            let (i, branches) = choose|i: int, branches: u32|
                0 <= i < 81 && cells[i] != 0 && #[trigger] generator.solver_may_count(
                    cells.update(i, 0u8),
                    branches,
                ) && classify(filled_count(cells, 81) - 1, branches as int).level()
                    > generator.target().level();
            let gap_grid = cells.update(i, 0u8);
            let (steps, solved) = choose|steps: Seq<StepView>, solved: Seq<u8>| #[trigger]
                is_run(steps, gap_grid, solved) && branches as int == branch_total(steps);
            lemma_one_gap_run(steps, gap_grid, solved, i);
        }
    }
}

/// A grid without values has no filled cell.
proof fn lemma_empty_count_of_empty(cells: Seq<u8>, upto: int)
    requires
        0 <= upto <= 81,
        forall|i: int| 0 <= i < 81 ==> #[trigger] cells[i] == 0,
    ensures
        filled_count(cells, upto) == 0,
    decreases upto,
{
    if upto > 0 {
        lemma_empty_count_of_empty(cells, upto - 1);
    }
}

/// Gives the difficulty of a puzzle from which `removed` of the 81 values
/// were removed and whose solution took the solver `branches` branches.
pub fn get_difficulty(removed: u32, branches: u32) -> (difficulty: Difficulty)
    requires
        removed <= 81,
    ensures
        difficulty == classify(81 - removed, branches as int),
{
    let clues = 81 - removed;
    if branches > HARD_BRANCHES {
        Difficulty::Evil
    } else if branches > 0 || clues < MEDIUM_CLUES {
        Difficulty::Hard
    } else if clues < EASY_CLUES {
        Difficulty::Medium
    } else {
        Difficulty::Easy
    }
}

/// Marks every filled cell of a board as a clue.
pub fn convert_to_clues(board: &mut SudokuBoard)
    ensures
        final(board).values == old(board).values,
        forall|i: int|
            0 <= i < 81 ==> #[trigger] final(board).clues@[i] == (old(board).clues@[i]
                || old(board).values@[i] > 0),
{
    let mut i: usize = 0;
    while i < 81
        invariant
            i <= 81,
            board.values == old(board).values,
            forall|j: int|
                0 <= j < i ==> #[trigger] board.clues@[j] == (old(board).clues@[j]
                    || old(board).values@[j] > 0),
            forall|j: int| i <= j < 81 ==> #[trigger] board.clues@[j] == old(board).clues@[j],
        decreases 81 - i,
    {
        if board.values[i] > 0 {
            board.clues[i] = true;
        }
        i += 1;
    }
}

} // verus!
