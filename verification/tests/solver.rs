use sudoku_solver::sudoku::{PassResult, SolveOutcome, Sudoku};

// The classic example puzzle, 81 digits in row-major order, 0 = empty.
const CLASSIC: &str =
    "530070000600195000098000060800060003400803001700020006060000280000419005000080079";

// Its unique solution.
const CLASSIC_SOLUTION: &str =
    "534678912672195348198342567859761423426853791713924856961537284287419635345286179";

// Arto Inkala's notoriously hard puzzle: simple deductions stall almost
// immediately, so solving it must push, try, exhaust and undo guesses.
const HARD: &str =
    "800000000003600000070090200050007000000045700000100030001000068008500010090000400";

const HARD_SOLUTION: &str =
    "812753649943682175675491283154237896369845721287169534521974368438526917796318452";

fn board_of(s: &str) -> [[u8; 9]; 9] {
    let digits: Vec<u8> = s.bytes().map(|b| b - b'0').collect();
    let mut out = [[0u8; 9]; 9];
    for r in 0..9 {
        for c in 0..9 {
            out[r][c] = digits[9 * r + c];
        }
    }
    out
}

#[test]
fn from_string_reads_digits_in_row_major_order() {
    let s = Sudoku::from_string(CLASSIC);
    let b = s.board();
    assert_eq!(b[0][0], 5);
    assert_eq!(b[0][1], 3);
    assert_eq!(b[0][4], 7);
    assert_eq!(b[1][0], 6);
    assert_eq!(b[4][4], 0);
    assert_eq!(b[8][7], 7);
    assert_eq!(b[8][8], 9);
}

#[test]
fn fresh_puzzle_is_not_solved() {
    let s = Sudoku::from_string(CLASSIC);
    assert!(!s.is_filled());
    assert!(s.is_valid());
    assert!(!s.is_solved());
}

#[test]
fn classic_puzzle_solves_to_canonical_solution() {
    let mut s = Sudoku::from_string(CLASSIC);
    let outcome = s.solve();
    assert!(matches!(outcome, SolveOutcome::Solved));
    assert!(s.is_solved());
    let b = s.board();
    assert_eq!(b[0], [5, 3, 4, 6, 7, 8, 9, 1, 2]);
    assert_eq!(b, board_of(CLASSIC_SOLUTION));
}

#[test]
fn solve_preserves_the_given_clues() {
    let clues = board_of(CLASSIC);
    let mut s = Sudoku::from_string(CLASSIC);
    s.solve();
    let b = s.board();
    for r in 0..9 {
        for c in 0..9 {
            if clues[r][c] != 0 {
                assert_eq!(b[r][c], clues[r][c]);
            }
        }
    }
}

#[test]
fn solve_on_solved_grid_changes_nothing() {
    let mut s = Sudoku::from_string(CLASSIC_SOLUTION);
    assert!(s.is_solved());
    let before = s.board();
    let outcome = s.solve();
    assert!(matches!(outcome, SolveOutcome::Solved));
    assert_eq!(s.board(), before);
    assert!(s.is_solved());
}

#[test]
fn solved_units_hold_each_digit_once() {
    let mut s = Sudoku::from_string(CLASSIC);
    s.solve();
    let b = s.board();
    for u in 0..9 {
        let mut row_counts = [0u8; 10];
        let mut col_counts = [0u8; 10];
        let mut box_counts = [0u8; 10];
        for i in 0..9 {
            row_counts[b[u][i] as usize] += 1;
            col_counts[b[i][u] as usize] += 1;
            box_counts[b[u / 3 * 3 + i / 3][u % 3 * 3 + i % 3] as usize] += 1;
        }
        for d in 1..10 {
            assert_eq!(row_counts[d], 1);
            assert_eq!(col_counts[d], 1);
            assert_eq!(box_counts[d], 1);
        }
        assert_eq!(row_counts[0], 0);
        assert_eq!(col_counts[0], 0);
        assert_eq!(box_counts[0], 0);
    }
}

#[test]
fn filled_grid_with_row_duplicate_is_not_solved() {
    // The canonical solution with one cell overwritten so that 5 occurs
    // twice in the first row: full, but invalid.
    let mut tampered = String::from(CLASSIC_SOLUTION);
    // Cell (0, 8) becomes 5, duplicating the 5 at (0, 0).
    tampered.replace_range(8..9, "5");
    let s = Sudoku::from_string(&tampered);
    assert!(s.is_filled());
    assert!(!s.is_valid());
    assert!(!s.is_solved());
}

#[test]
fn hard_puzzle_requires_backtracking_and_converges() {
    let mut s = Sudoku::from_string(HARD);
    // Deduction alone stalls on this board: the first passes change the
    // state, but the puzzle is only solved after speculative guesses.
    let outcome = s.solve();
    assert!(matches!(outcome, SolveOutcome::Solved));
    assert!(s.is_solved());
    assert_eq!(s.board(), board_of(HARD_SOLUTION));
}

#[test]
fn unsolvable_puzzle_reports_exhausted() {
    // The classic puzzle with a second 5 in the first row: no
    // completion of this board can ever be valid.
    let mut bad = String::from(CLASSIC);
    bad.replace_range(1..2, "5");
    let mut s = Sudoku::from_string(&bad);
    let outcome = s.solve();
    assert!(matches!(outcome, SolveOutcome::Exhausted));
    assert!(!s.is_solved());
}

#[test]
fn elimination_pass_reports_progress_then_stalls_when_solved() {
    let mut s = Sudoku::from_string(CLASSIC);
    let first = s.elimination_pass(false);
    assert!(matches!(first, PassResult::Changed));

    let mut done = Sudoku::from_string(CLASSIC_SOLUTION);
    let on_solved = done.elimination_pass(false);
    assert!(matches!(on_solved, PassResult::Stagnant));
}

#[test]
fn repeated_passes_reach_a_fixed_point() {
    let mut s = Sudoku::from_string(CLASSIC);
    let mut passes = 0;
    loop {
        match s.elimination_pass(false) {
            PassResult::Changed => {
                passes += 1;
                assert!(passes < 100000);
            }
            PassResult::Stagnant => break,
            PassResult::Contradiction => panic!("no guess is active"),
        }
    }
    // The classic puzzle yields to propagation alone.
    assert!(s.is_solved());
}

#[test]
fn empty_grid_solves_by_guessing_alone() {
    // No clue constrains anything, so propagation stalls at once and
    // the whole board is filled through the backtracking controller.
    let empty = "0".repeat(81);
    let mut s = Sudoku::from_string(&empty);
    let outcome = s.solve();
    assert!(matches!(outcome, SolveOutcome::Solved));
    assert!(s.is_solved());
}

#[test]
fn pass_reports_contradiction_while_guessing() {
    // The cell at row 0, column 8 sees the digits 1 through 8 in its
    // row and a 9 in its column, so its very first visit eliminates
    // every candidate. With a guess active the pass must hand control
    // back for an undo instead of finishing.
    let mut board = String::from("123456780000000009");
    board.push_str(&"0".repeat(63));
    let mut s = Sudoku::from_string(&board);
    let res = s.elimination_pass(true);
    assert!(matches!(res, PassResult::Contradiction));
}
