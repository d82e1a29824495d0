//! The solving engine: the board together with its candidate blacklist
//! and choice stack, constraint propagation, forced-value deduction, and
//! the backtracking controller.

use vstd::prelude::*;
use crate::backtracking::BacktrackNode;
use crate::grid::{
    additions_justified, blacklist_monotone, blacklist_wf, board_extends, board_filled,
    board_solved, board_valid, board_wf, box_seq, box_values, cell_free_count, col_seq,
    col_values, eliminated, fills_sound, in_box, in_col, in_peers, in_row, lemma_blacklist_eq,
    lemma_peers_persist, lemma_rowmajor_decomp, lemma_rowmajor_inj, row_seq, row_values,
    unit_has_conflict, unit_no_dup, Blacklist, Board,
};
use crate::grid::{
    lemma_box_hidden_single_forced, lemma_col_hidden_single_forced, lemma_consistency_after_elims,
    lemma_consistency_pullback, lemma_invalid_no_extension,
    lemma_place_preserves_valid,
    lemma_row_hidden_single_forced, solution_consistent,
};
use crate::utils::lemma_count_match_two;
use crate::measure::{
    lemma_elim_measure, lemma_fill_measure, lemma_stack_pot_prefix, lemma_stack_pot_push,
    lemma_try_place_bound, stack_pot, state_measure,
};
use crate::utils::{count_match, sum_over};
use vstd::string::is_ascii_spec_bytes;
use vstd::utf8::is_ascii_chars;

verus! {

/// `c` is one of the characters `'0'` through `'9'`.
pub open spec fn is_digit_char(c: char) -> bool {
    '0' <= c && c <= '9'
}

/// The numeric value of a digit character.
pub open spec fn digit_of(c: char) -> u8 {
    (c as u8 - 48) as u8
}

/// Digit `d` cannot go into any other empty cell of row `r`: every
/// empty cell of the row apart from `(r, c)` has `d` blacklisted.
pub open spec fn row_hidden_single(b: Board, t: Blacklist, r: int, c: int, d: u8) -> bool {
    forall|j: int| 0 <= j < 9 && j != c && #[trigger] b[r][j] == 0 ==> eliminated(t, r, j, d as int)
}

/// Digit `d` cannot go into any other empty cell of column `c`.
pub open spec fn col_hidden_single(b: Board, t: Blacklist, r: int, c: int, d: u8) -> bool {
    forall|i: int| 0 <= i < 9 && i != r && #[trigger] b[i][c] == 0 ==> eliminated(t, i, c, d as int)
}

/// Digit `d` cannot go into any other empty cell of the box of `(r, c)`.
pub open spec fn box_hidden_single(b: Board, t: Blacklist, r: int, c: int, d: u8) -> bool {
    forall|i: int, j: int|
        r / 3 * 3 <= i < r / 3 * 3 + 3 && c / 3 * 3 <= j < c / 3 * 3 + 3 && !(i == r && j == c)
            && #[trigger] b[i][j] == 0 ==> eliminated(t, i, j, d as int)
}

/// No deduction rule of the elimination engine applies to the empty
/// cell `(r, c)` any more: every digit present among its peers is
/// already eliminated, it does not have exactly one candidate left, no
/// still-possible digit of it is a hidden single of its row, column or
/// box, and — while a guess is active — it still has a candidate (else
/// the pass would have reported a contradiction instead of a stall).
pub open spec fn cell_at_fixpoint(b: Board, t: Blacklist, r: int, c: int, active: bool) -> bool {
    &&& forall|d: int|
        1 <= d <= 9 && #[trigger] in_peers(b, r, c, d as u8) ==> eliminated(t, r, c, d)
    &&& cell_free_count(t, r, c) != 1
    &&& active ==> cell_free_count(t, r, c) != 0
    &&& forall|d: u8|
        #![trigger row_hidden_single(b, t, r, c, d)]
        #![trigger col_hidden_single(b, t, r, c, d)]
        #![trigger box_hidden_single(b, t, r, c, d)]
        1 <= d <= 9 && !eliminated(t, r, c, d as int) ==> !row_hidden_single(b, t, r, c, d)
            && !col_hidden_single(b, t, r, c, d) && !box_hidden_single(b, t, r, c, d)
}

/// What a run of the solver reports.
pub enum SolveOutcome {
    /// The board is completely and validly filled.
    Solved,
    /// Fatal: the search space was exhausted — every guess path led to a
    /// contradiction, or deduction stalled on a full but invalid board.
    /// The puzzle has no solution under the implemented rule set.
    Exhausted,
}

/// What one full pass of the elimination engine over the board reports.
pub enum PassResult {
    /// At least one change was made: a candidate was eliminated or a
    /// cell was filled.
    Changed,
    /// A full pass made no change at all: propagation alone cannot
    /// proceed and a guess is required.
    Stagnant,
    /// An empty cell with no candidates left was found while a guess was
    /// active: the current guess path is contradictory and must be
    /// undone. The pass stops immediately.
    Contradiction,
}

// What one visit of the elimination engine to a single empty cell did.
enum CellResult {
    // The cell received a value (hidden or naked single).
    Filled,
    // At least one candidate was newly blacklisted; the cell stays empty.
    Eliminated,
    // Neither the board nor the blacklist changed.
    NoChange,
    // The cell is empty and has no candidate left: the current guess
    // path is contradictory.
    Contradiction,
}

/// `(r2, c2)` is a peer of `(r, c)`: a different cell sharing its row,
/// its column, or its 3x3 box.
pub open spec fn is_peer(r: int, c: int, r2: int, c2: int) -> bool {
    !(r2 == r && c2 == c) && (r2 == r || c2 == c || (r2 / 3 == r / 3 && c2 / 3 == c / 3))
}

/// Sum of remaining-candidate counts over all empty peers of `(r, c)`.
pub open spec fn peer_cand_sum(b: Board, t: Blacklist, r: int, c: int) -> nat {
    sum_over(
        |i: int|
            if is_peer(r, c, i / 9, i % 9) && b[i / 9][i % 9] == 0 {
                cell_free_count(t, i / 9, i % 9)
            } else {
                0
            },
        81,
    )
}

/// Number of empty peers of `(r, c)`.
pub open spec fn peer_empty_count(b: Board, r: int, c: int) -> nat {
    count_match(|i: int| is_peer(r, c, i / 9, i % 9) && b[i / 9][i % 9] == 0, 81)
}

/// The guess score `s1 / n1` is strictly lower — strictly better — than
/// `s2 / n2`, compared by cross-multiplication; a cell with no empty
/// peers (`n == 0`) scores infinitely high.
pub open spec fn score_lt(s1: nat, n1: nat, s2: nat, n2: nat) -> bool {
    if n1 == 0 {
        false
    } else if n2 == 0 {
        true
    } else {
        s1 * n2 < s2 * n1
    }
}

/// The guess score of `(r1, c1)` is strictly better than that of
/// `(r2, c2)`: its empty peers hold fewer remaining candidates on
/// average, so a guess there constrains its neighborhood more.
pub open spec fn cell_score_lt(b: Board, t: Blacklist, r1: int, c1: int, r2: int, c2: int) -> bool {
    score_lt(
        peer_cand_sum(b, t, r1, c1),
        peer_empty_count(b, r1, c1),
        peer_cand_sum(b, t, r2, c2),
        peer_empty_count(b, r2, c2),
    )
}

/// The cell the backtracking controller guesses at: an empty cell whose
/// score no other empty cell strictly beats, and that strictly beats
/// every empty cell before it in row-major order (ties go to the first
/// cell encountered).
pub open spec fn is_best_bet(b: Board, t: Blacklist, r: int, c: int) -> bool {
    &&& 0 <= r < 9
    &&& 0 <= c < 9
    &&& b[r][c] == 0
    &&& forall|r2: int, c2: int|
        0 <= r2 < 9 && 0 <= c2 < 9 && #[trigger] b[r2][c2] == 0 ==> !cell_score_lt(
            b,
            t,
            r2,
            c2,
            r,
            c,
        )
    &&& forall|r2: int, c2: int|
        0 <= r2 < 9 && 0 <= c2 < 9 && #[trigger] b[r2][c2] == 0 && 9 * r2 + c2 < 9 * r + c
            ==> cell_score_lt(b, t, r, c, r2, c2)
}

/// Strict score comparison is transitive.
proof fn lemma_score_lt_trans(s1: nat, n1: nat, s2: nat, n2: nat, s3: nat, n3: nat)
    requires
        score_lt(s1, n1, s2, n2),
        score_lt(s2, n2, s3, n3),
    ensures
        score_lt(s1, n1, s3, n3),
{
    if n2 == 0 {
        assert(!score_lt(s2, n2, s3, n3));
    } else if n3 == 0 {
    } else {
        assert(s1 * n3 < s3 * n1) by (nonlinear_arith)
            requires
                n1 > 0,
                n2 > 0,
                n3 > 0,
                s1 * n2 < s2 * n1,
                s2 * n3 < s3 * n2,
        ;
    }
}

/// A score strictly better than one that a third score does not beat is
/// strictly better than the third as well.
proof fn lemma_score_lt_not_ge(s1: nat, n1: nat, s2: nat, n2: nat, s3: nat, n3: nat)
    requires
        score_lt(s1, n1, s2, n2),
        !score_lt(s3, n3, s2, n2),
    ensures
        score_lt(s1, n1, s3, n3),
{
    if n2 == 0 {
        assert(n3 == 0);
    } else if n3 == 0 {
    } else {
        assert(n1 > 0);
        assert(s1 * n3 < s3 * n1) by (nonlinear_arith)
            requires
                n1 > 0,
                n2 > 0,
                n3 > 0,
                s1 * n2 < s2 * n1,
                !(s3 * n2 < s2 * n3),
        ;
    }
}

/// Compares two guess scores by cross-multiplication.
fn score_less(s1: u16, n1: u16, s2: u16, n2: u16) -> (r: bool)
    requires
        s1 <= 729,
        n1 <= 81,
        s2 <= 729,
        n2 <= 81,
    ensures
        r == score_lt(s1 as nat, n1 as nat, s2 as nat, n2 as nat),
{
    if n1 == 0 {
        false
    } else if n2 == 0 {
        true
    } else {
        proof {
            assert((s1 as int) * (n2 as int) <= 729 * 81 && (s2 as int) * (n1 as int) <= 729
                * 81) by (nonlinear_arith)
                requires
                    s1 <= 729,
                    n1 <= 81,
                    s2 <= 729,
                    n2 <= 81,
            ;
        }
        (s1 as u32) * (n2 as u32) < (s2 as u32) * (n1 as u32)
    }
}

/// Every cell that `base` fills keeps its value, both on the live board
/// and in every snapshot held by the choice stack: the clues of the
/// puzzle survive guessing, propagation and undo alike.
pub open spec fn extends_clues(s: Sudoku, base: Board) -> bool {
    &&& board_extends(base, s.grid())
    &&& forall|i: int|
        0 <= i < s.stack().len() ==> board_extends(base, (#[trigger] s.stack()[i]).spec_board())
}

/// The solver's termination potential: the budget of the choice stack
/// plus the propagation budget of the live state.
pub open spec fn solver_measure(s: Sudoku) -> nat {
    stack_pot(s.stack()) + state_measure(s.grid(), s.table())
}

/// Law: on a fresh solver state — every candidate still open, as
/// `from_string` builds it — every well-formed solved board that
/// extends the clues is reachable. Together with `solve`'s contract
/// this pins the solver completely: started fresh, it answers `Solved`
/// exactly when such a board exists, and `Exhausted` proves that none
/// does.
pub proof fn lemma_fresh_state_reaches_any_solution(s0: Sudoku, full: Board)
    requires
        forall|r: int, c: int, k: int|
            0 <= r < 9 && 0 <= c < 9 && 0 <= k < 9 ==> s0.table()[r][c][k] == 0,
        board_wf(full),
        board_solved(full),
        board_extends(s0.grid(), full),
    ensures
        solution_consistent(s0.grid(), s0.table(), full),
{
    assert forall|r: int, c: int| 0 <= r < 9 && 0 <= c < 9 && s0.grid()[r][c] == 0 implies !(
    #[trigger] eliminated(s0.table(), r, c, full[r][c] as int)) by {
        assert(1 <= full[r][c] <= 9);
        assert(s0.table()[r][c][full[r][c] - 1] == 0);
    }
}

/// The snapshot held by the choice point `n` can still reach `full`.
pub open spec fn node_state_consistent(n: BacktrackNode, full: Board) -> bool {
    solution_consistent(n.spec_board(), n.spec_blacklist(), full)
}

/// What a stalled, fully propagated state guarantees about the choice
/// points it records: the snapshot is a valid board, and none of the
/// untried digits occurs among the peers of the guess cell there — so
/// trying any of them keeps the board valid.
pub open spec fn node_clean(n: BacktrackNode) -> bool {
    &&& board_valid(n.spec_board())
    &&& forall|i: int|
        0 <= i < n.spec_nums().len() ==> !in_peers(
            n.spec_board(),
            n.spec_row_idx() as int,
            n.spec_col_idx() as int,
            #[trigger] n.spec_nums()[i],
        )
}

/// The board lying directly below the choice point at position `j`:
/// the next deeper snapshot, or the live board for the newest one.
pub open spec fn below_board(s: Sudoku, j: int) -> Board {
    if j + 1 < s.stack().len() {
        s.stack()[j + 1].spec_board()
    } else {
        s.grid()
    }
}

/// The blacklist lying directly below the choice point at position `j`.
pub open spec fn below_table(s: Sudoku, j: int) -> Blacklist {
    if j + 1 < s.stack().len() {
        s.stack()[j + 1].spec_blacklist()
    } else {
        s.table()
    }
}

/// The chain link at stack position `j`: if the snapshot there can
/// still reach `full`, then either the digit `full` demands at that
/// guess cell is still untried, or that very digit is the one placed
/// below and the state below can still reach `full`.
pub open spec fn link_at(s: Sudoku, full: Board, j: int) -> bool
    recommends
        0 <= j < s.stack().len(),
{
    let n = s.stack()[j];
    let r = n.spec_row_idx() as int;
    let c = n.spec_col_idx() as int;
    node_state_consistent(n, full) ==> {
        ||| exists|i: int|
            0 <= i < n.spec_nums().len() && #[trigger] n.spec_nums()[i] == full[r][c]
        ||| (below_board(s, j)[r][c] == full[r][c] && solution_consistent(
            below_board(s, j),
            below_table(s, j),
            full,
        ))
    }
}

/// Wherever the search currently stands, the solution `full` has not
/// been lost: the earliest snapshot (or the live state, with no guess
/// active) can still reach it, and at every level of the choice stack
/// either `full`'s digit is still untried there or the search is
/// currently exploring below that very digit.
pub open spec fn solution_tracked(s: Sudoku, full: Board) -> bool {
    &&& (s.stack().len() == 0 ==> solution_consistent(s.grid(), s.table(), full))
    &&& (s.stack().len() > 0 ==> node_state_consistent(s.stack()[0], full))
    &&& forall|j: int| 0 <= j < s.stack().len() ==> #[trigger] link_at(s, full, j)
}

/// The concrete effect of a successful try step on the choice stack
/// and the live state, with `j` the position of the choice point that
/// supplied the digit. Every choice point above `j` had no digit left
/// to try and has been discarded for good. The choice point at `j`
/// keeps its cell and its snapshots and loses its last untried digit.
/// That digit now stands at the recorded cell of a board that is
/// otherwise exactly the snapshot board, and the blacklist is exactly
/// the snapshot blacklist: the pre-guess state was restored and the
/// next digit placed on it.
pub open spec fn try_step_effect(pre: Sudoku, post: Sudoku, j: int) -> bool {
    let n0 = pre.stack()[j];
    let n1 = post.stack()[j];
    let r = n0.spec_row_idx() as int;
    let c = n0.spec_col_idx() as int;
    &&& 0 <= j < pre.stack().len()
    &&& post.stack().len() == j + 1
    &&& forall|i: int|
        j < i < pre.stack().len() ==> (#[trigger] pre.stack()[i]).spec_nums().len() == 0
    &&& forall|i: int| 0 <= i < j ==> #[trigger] post.stack()[i] == pre.stack()[i]
    &&& n0.spec_nums().len() > 0
    &&& n1.spec_row_idx() == n0.spec_row_idx()
    &&& n1.spec_col_idx() == n0.spec_col_idx()
    &&& n1.spec_board() == n0.spec_board()
    &&& n1.spec_blacklist() == n0.spec_blacklist()
    &&& n1.spec_nums() == n0.spec_nums().drop_last()
    &&& post.grid()[r][c] == n0.spec_nums().last()
    &&& forall|r2: int, c2: int|
        0 <= r2 < 9 && 0 <= c2 < 9 && !(r2 == r && c2 == c) ==> post.grid()[r2][c2]
            == n0.spec_board()[r2][c2]
    &&& post.table() == n0.spec_blacklist()
}

/// The board and blacklist that undoing a guess restores: the snapshots
/// held by the newest choice point.
pub open spec fn restored_from_top(s: Sudoku) -> (Board, Blacklist)
    recommends
        s.stack().len() > 0,
{
    (s.stack().last().spec_board(), s.stack().last().spec_blacklist())
}

/// Law: the backtracking snapshot/restore round trip is the identity.
/// A choice point stores deep copies of the board and the blacklist it
/// was built from; however the live board, blacklist, or deeper choice
/// points are mutated afterwards, restoring from that choice point
/// yields a board and a blacklist equal bit for bit to the snapshotted
/// pre-mutation values. And since a restore leaves the choice stack
/// untouched, any state with the same stack restores to the same
/// values: the restore can be repeated at will.
pub proof fn lemma_snapshot_restore_round_trip(
    b0: Board,
    t0: Blacklist,
    node: BacktrackNode,
    mutated: Sudoku,
)
    requires
        node.spec_board() == b0,
        node.spec_blacklist() == t0,
        mutated.stack().len() > 0,
        mutated.stack().last() == node,
    ensures
        restored_from_top(mutated) == (b0, t0),
        forall|again: Sudoku|
            (#[trigger] again.stack()) == mutated.stack() ==> restored_from_top(again) == (
                b0,
                t0,
            ),
{
}

pub struct Sudoku {
    // The 9x9 matrix of cell values; 0 denotes an empty cell.
    board: Board,
    // Per cell, which digits can no longer be placed there.
    blacklist: Blacklist,
    // The currently active choice points, earliest guess first.
    backtrack_stack: Vec<BacktrackNode>,
}

impl Sudoku {
    /// The current board.
    pub closed spec fn grid(self) -> Board {
        self.board
    }

    /// The current candidate blacklist.
    pub closed spec fn table(self) -> Blacklist {
        self.blacklist
    }

    /// The current choice stack, earliest guess first.
    pub closed spec fn stack(self) -> Seq<BacktrackNode> {
        self.backtrack_stack@
    }

    /// Every reachable solver state is well formed: cell values are in
    /// 0..=9, blacklist entries are either 0 or the digit they stand
    /// for, and every choice point on the stack is usable.
    pub open spec fn wf(self) -> bool {
        &&& board_wf(self.grid())
        &&& blacklist_wf(self.table())
        &&& forall|i: int| 0 <= i < self.stack().len() ==> (#[trigger] self.stack()[i]).wf()
    }

    /// Builds a solver state from an 81-character digit string in
    /// row-major order, 0 meaning empty. All candidates start open and
    /// no guess is active.
    pub fn from_string(s: &str) -> (sudoku: Self)
        requires
            s@.len() == 81,
            forall|i: int| 0 <= i < 81 ==> is_digit_char(#[trigger] s@[i]),
        ensures
            sudoku.wf(),
            sudoku.stack().len() == 0,
            forall|r: int, c: int|
                0 <= r < 9 && 0 <= c < 9 ==> sudoku.grid()[r][c] == digit_of(s@[9 * r + c]),
            forall|r: int, c: int, k: int|
                0 <= r < 9 && 0 <= c < 9 && 0 <= k < 9 ==> sudoku.table()[r][c][k] == 0,
    {
        proof {
            assert(is_ascii_chars(s@));
            is_ascii_spec_bytes(s);
        }
        let bytes = s.as_bytes();
        let mut board: Board = [[0u8; 9]; 9];
        let mut i: usize = 0;
        while i < 81
            invariant
                i <= 81,
                s@.len() == 81,
                forall|j: int| 0 <= j < 81 ==> is_digit_char(#[trigger] s@[j]),
                bytes@.len() == 81,
                forall|j: int| 0 <= j < 81 ==> bytes@[j] == s@[j] as u8,
                forall|j: int| 0 <= j < i ==> #[trigger] board[j / 9][j % 9] == digit_of(s@[j]),
                forall|r: int, c: int| 0 <= r < 9 && 0 <= c < 9 ==> board[r][c] <= 9,
            decreases 81 - i,
        {
            let v = bytes[i] - 48;
            let ghost prev = board;
            board[i / 9][i % 9] = v;
            proof {
                assert forall|j: int| 0 <= j < i + 1 implies #[trigger] board[j / 9][j % 9]
                    == digit_of(s@[j]) by {
                    if j < i && board[j / 9][j % 9] != prev[j / 9][j % 9] {
                        lemma_rowmajor_inj(j, i as int);
                    }
                }
            }
            i += 1;
        }
        proof {
            assert forall|r: int, c: int| 0 <= r < 9 && 0 <= c < 9 implies board[r][c] == digit_of(
                s@[9 * r + c],
            ) by {
                lemma_rowmajor_decomp(r, c);
                assert(board[(9 * r + c) / 9][(9 * r + c) % 9] == digit_of(s@[9 * r + c]));
            }
        }
        Sudoku { board, blacklist: [[[0u8; 9]; 9]; 9], backtrack_stack: Vec::new() }
    }

    /// A copy of the current board, for observers such as rendering.
    pub fn board(&self) -> (b: Board)
        ensures
            b == self.grid(),
    {
        self.board
    }

    /// True iff no cell holds 0.
    pub fn is_filled(&self) -> (r: bool)
        ensures
            r == board_filled(self.grid()),
    {
        let mut i: usize = 0;
        while i < 81
            invariant
                i <= 81,
                forall|j: int| 0 <= j < i ==> #[trigger] self.grid()[j / 9][j % 9] != 0,
            decreases 81 - i,
        {
            if self.board[i / 9][i % 9] == 0 {
                return false;
            }
            i += 1;
        }
        proof {
            assert forall|r: int, c: int| 0 <= r < 9 && 0 <= c < 9 implies self.grid()[r][c]
                != 0 by {
                lemma_rowmajor_decomp(r, c);
                assert(self.grid()[(9 * r + c) / 9][(9 * r + c) % 9] != 0);
            }
        }
        true
    }

    /// True iff every row, every column, and every 3x3 box contains each
    /// digit 1..=9 at most once among its non-zero cells.
    pub fn is_valid(&self) -> (r: bool)
        ensures
            r == board_valid(self.grid()),
    {
        let mut u: usize = 0;
        while u < 9
            invariant
                u <= 9,
                forall|k: int| 0 <= k < u ==> unit_no_dup(#[trigger] row_seq(self.grid(), k)),
                forall|k: int| 0 <= k < u ==> unit_no_dup(#[trigger] col_seq(self.grid(), k)),
                forall|k: int|
                    0 <= k < u ==> unit_no_dup(#[trigger] box_seq(self.grid(), k / 3, k % 3)),
            decreases 9 - u,
        {
            let rv = row_values(&self.board, u);
            if unit_has_conflict(&rv) {
                return false;
            }
            let cv = col_values(&self.board, u);
            if unit_has_conflict(&cv) {
                return false;
            }
            let bv = box_values(&self.board, u / 3 * 3, u % 3 * 3);
            if unit_has_conflict(&bv) {
                return false;
            }
            u += 1;
        }
        proof {
            assert forall|br: int, bc: int| 0 <= br < 3 && 0 <= bc < 3 implies unit_no_dup(
                #[trigger] box_seq(self.grid(), br, bc),
            ) by {
                let k = 3 * br + bc;
                assert(k / 3 == br && k % 3 == bc) by (nonlinear_arith)
                    requires
                        0 <= br < 3,
                        0 <= bc < 3,
                        k == 3 * br + bc,
                ;
                assert(unit_no_dup(box_seq(self.grid(), k / 3, k % 3)));
            }
        }
        true
    }

    /// Marks `num` eliminated for the cell `(row, col)`; reports whether
    /// the entry was newly set.
    fn eliminate(&mut self, row: usize, col: usize, num: u8) -> (newly: bool)
        requires
            old(self).wf(),
            row < 9,
            col < 9,
            1 <= num <= 9,
        ensures
            final(self).wf(),
            final(self).grid() == old(self).grid(),
            final(self).stack() == old(self).stack(),
            newly == (old(self).table()[row as int][col as int][num - 1] == 0),
            final(self).table()[row as int][col as int][num - 1] == num,
            forall|r: int, c: int, k: int|
                0 <= r < 9 && 0 <= c < 9 && 0 <= k < 9 && !(r == row && c == col && k == num - 1)
                    ==> final(self).table()[r][c][k] == old(self).table()[r][c][k],
    {
        let k = (num - 1) as usize;
        let newly = self.blacklist[row][col][k] == 0;
        if newly {
            self.blacklist[row][col][k] = num;
        }
        proof {
            assert forall|r: int, c: int, x: int|
                0 <= r < 9 && 0 <= c < 9 && 0 <= x < 9 implies (self.table()[r][c][x] == 0
                || self.table()[r][c][x] == x + 1) by {
                if !(r == row && c == col && x == k) {
                    assert(self.table()[r][c][x] == old(self).table()[r][c][x]);
                }
            }
            assert(self.stack() == old(self).stack());
            assert forall|i: int| 0 <= i < self.stack().len() implies (#[trigger] self.stack()[i]).wf() by {
                assert(self.stack()[i] == old(self).stack()[i]);
            }
        }
        newly
    }

    /// Blacklists every non-zero value of `vals` for the cell
    /// `(row, col)`; reports whether any entry was newly set. The caller
    /// warrants that each non-zero value appears among the peers of the
    /// cell, which keeps every addition justified.
    #[verifier::loop_isolation(false)]
    fn eliminate_values(&mut self, row: usize, col: usize, vals: &[u8; 9]) -> (changed: bool)
        requires
            old(self).wf(),
            row < 9,
            col < 9,
            forall|i: int| 0 <= i < 9 ==> vals@[i] <= 9,
            forall|i: int|
                0 <= i < 9 && vals@[i] != 0 ==> in_peers(
                    old(self).grid(),
                    row as int,
                    col as int,
                    #[trigger] vals@[i],
                ),
        ensures
            final(self).wf(),
            final(self).grid() == old(self).grid(),
            final(self).stack() == old(self).stack(),
            forall|r: int, c: int, k: int|
                0 <= r < 9 && 0 <= c < 9 && 0 <= k < 9 && !(r == row && c == col)
                    ==> final(self).table()[r][c][k] == old(self).table()[r][c][k],
            blacklist_monotone(old(self).table(), final(self).table()),
            additions_justified(old(self).table(), final(self).table(), old(self).grid()),
            forall|i: int|
                0 <= i < 9 && vals@[i] != 0 ==> eliminated(
                    final(self).table(),
                    row as int,
                    col as int,
                    #[trigger] vals@[i] as int,
                ),
            changed ==> state_measure(old(self).grid(), final(self).table()) < state_measure(
                old(self).grid(),
                old(self).table(),
            ),
            !changed ==> final(self).table() == old(self).table(),
    {
        let mut changed = false;
        let mut idx: usize = 0;
        while idx < 9
            invariant
                idx <= 9,
                self.wf(),
                self.grid() == old(self).grid(),
                self.stack() == old(self).stack(),
                forall|r: int, c: int, k: int|
                    0 <= r < 9 && 0 <= c < 9 && 0 <= k < 9 && !(r == row && c == col)
                        ==> self.table()[r][c][k] == old(self).table()[r][c][k],
                blacklist_monotone(old(self).table(), self.table()),
                additions_justified(old(self).table(), self.table(), old(self).grid()),
                forall|i: int|
                    0 <= i < idx && vals@[i] != 0 ==> eliminated(
                        self.table(),
                        row as int,
                        col as int,
                        #[trigger] vals@[i] as int,
                    ),
                changed ==> state_measure(old(self).grid(), self.table()) < state_measure(
                    old(self).grid(),
                    old(self).table(),
                ),
                !changed ==> self.table() == old(self).table(),
            decreases 9 - idx,
        {
            let v = vals[idx];
            if v != 0 {
                let ghost prev = self.table();
                let newly = self.eliminate(row, col, v);
                proof {
                    if newly {
                        lemma_elim_measure(
                            old(self).grid(),
                            prev,
                            self.table(),
                            row as int,
                            col as int,
                            v - 1,
                        );
                        assert(old(self).table()[row as int][col as int][v - 1] == 0 || prev[
                            row as int][col as int][v - 1] != 0);
                    } else {
                        lemma_blacklist_eq(prev, self.table());
                    }
                    assert forall|r: int, c: int, k: int|
                        0 <= r < 9 && 0 <= c < 9 && 0 <= k < 9 && old(self).table()[r][c][k] == 0
                            && self.table()[r][c][k] != 0 implies in_peers(
                        old(self).grid(),
                        r,
                        c,
                        ((k + 1) as u8),
                    ) by {
                        if !(r == row && c == col && k == v - 1) {
                            assert(self.table()[r][c][k] == prev[r][c][k]);
                        } else {
                            assert(in_peers(old(self).grid(), row as int, col as int, vals@[idx as int]));
                            assert((k + 1) as u8 == v);
                        }
                    }
                }
                if newly {
                    changed = true;
                }
            }
            idx += 1;
        }
        changed
    }

    /// Number of digits still possible for the cell `(row, col)`.
    fn free_count(&self, row: usize, col: usize) -> (n: u8)
        requires
            row < 9,
            col < 9,
        ensures
            n == cell_free_count(self.table(), row as int, col as int),
            n <= 9,
    {
        let mut n: u8 = 0;
        let mut k: usize = 0;
        while k < 9
            invariant
                k <= 9,
                n <= k,
                row < 9,
                col < 9,
                n == count_match(|x: int| self.table()[row as int][col as int][x] == 0, k as nat),
            decreases 9 - k,
        {
            if self.blacklist[row][col][k] == 0 {
                n += 1;
            }
            k += 1;
        }
        n
    }

    /// The lowest digit still possible for the cell `(row, col)`, or
    /// `None` if every digit has been eliminated there.
    fn first_free(&self, row: usize, col: usize) -> (r: Option<u8>)
        requires
            row < 9,
            col < 9,
        ensures
            match r {
                Some(num) => 1 <= num <= 9 && self.table()[row as int][col as int][num - 1] == 0,
                None => cell_free_count(self.table(), row as int, col as int) == 0,
            },
    {
        let mut k: usize = 0;
        while k < 9
            invariant
                k <= 9,
                row < 9,
                col < 9,
                count_match(|x: int| self.table()[row as int][col as int][x] == 0, k as nat) == 0,
            decreases 9 - k,
        {
            if self.blacklist[row][col][k] == 0 {
                return Some((k + 1) as u8);
            }
            k += 1;
        }
        None
    }

    /// The digits that could still be put into the cell `(row, col)`:
    /// entry `k` is `k + 1` while that digit is possible, 0 otherwise.
    fn whitelist_for(&self, row: usize, col: usize) -> (wl: [u8; 9])
        requires
            row < 9,
            col < 9,
        ensures
            forall|k: int|
                0 <= k < 9 ==> wl@[k] == (if self.table()[row as int][col as int][k] == 0 {
                    (k + 1) as u8
                } else {
                    0u8
                }),
    {
        let mut wl: [u8; 9] = [0u8; 9];
        let mut k: usize = 0;
        while k < 9
            invariant
                k <= 9,
                row < 9,
                col < 9,
                forall|x: int|
                    0 <= x < k ==> wl@[x] == (if self.table()[row as int][col as int][x] == 0 {
                        (x + 1) as u8
                    } else {
                        0u8
                    }),
                forall|x: int| k <= x < 9 ==> wl@[x] == 0,
            decreases 9 - k,
        {
            if self.blacklist[row][col][k] == 0 {
                wl[k] = (k + 1) as u8;
            }
            k += 1;
        }
        wl
    }

    /// True iff every other empty cell of row `row` has `num`
    /// blacklisted, so that `num` could only go into `(row, col)`.
    fn only_place_in_row(&self, row: usize, col: usize, num: u8) -> (r: bool)
        requires
            row < 9,
            col < 9,
            1 <= num <= 9,
        ensures
            r == row_hidden_single(self.grid(), self.table(), row as int, col as int, num),
    {
        let mut j: usize = 0;
        while j < 9
            invariant
                j <= 9,
                row < 9,
                col < 9,
                1 <= num <= 9,
                forall|x: int|
                    0 <= x < j && x != col && #[trigger] self.grid()[row as int][x] == 0
                        ==> eliminated(self.table(), row as int, x, num as int),
            decreases 9 - j,
        {
            if j != col && self.board[row][j] == 0 && self.blacklist[row][j][(num - 1) as usize]
                == 0 {
                return false;
            }
            j += 1;
        }
        true
    }

    /// True iff every other empty cell of column `col` has `num`
    /// blacklisted, so that `num` could only go into `(row, col)`.
    fn only_place_in_col(&self, row: usize, col: usize, num: u8) -> (r: bool)
        requires
            row < 9,
            col < 9,
            1 <= num <= 9,
        ensures
            r == col_hidden_single(self.grid(), self.table(), row as int, col as int, num),
    {
        let mut i: usize = 0;
        while i < 9
            invariant
                i <= 9,
                row < 9,
                col < 9,
                1 <= num <= 9,
                forall|x: int|
                    0 <= x < i && x != row && #[trigger] self.grid()[x][col as int] == 0
                        ==> eliminated(self.table(), x, col as int, num as int),
            decreases 9 - i,
        {
            if i != row && self.board[i][col] == 0 && self.blacklist[i][col][(num - 1) as usize]
                == 0 {
                return false;
            }
            i += 1;
        }
        true
    }

    /// True iff every other empty cell of the box of `(row, col)` has
    /// `num` blacklisted, so that `num` could only go into `(row, col)`.
    fn only_place_in_box(&self, row: usize, col: usize, num: u8) -> (r: bool)
        requires
            row < 9,
            col < 9,
            1 <= num <= 9,
        ensures
            r == box_hidden_single(self.grid(), self.table(), row as int, col as int, num),
    {
        let br = row / 3 * 3;
        let bc = col / 3 * 3;
        let mut p: usize = 0;
        while p < 9
            invariant
                p <= 9,
                row < 9,
                col < 9,
                1 <= num <= 9,
                br == row as int / 3 * 3,
                bc == col as int / 3 * 3,
                forall|q: int|
                    0 <= q < p && !(br + q / 3 == row && bc + q % 3 == col) && #[trigger] self.grid()[br
                        + q / 3][bc + q % 3] == 0 ==> eliminated(
                        self.table(),
                        br + q / 3,
                        bc + q % 3,
                        num as int,
                    ),
            decreases 9 - p,
        {
            let i = br + p / 3;
            let j = bc + p % 3;
            if !(i == row && j == col) && self.board[i][j] == 0 && self.blacklist[i][j][(num
                - 1) as usize] == 0 {
                return false;
            }
            p += 1;
        }
        proof {
            assert forall|i: int, j: int|
                br <= i < br + 3 && bc <= j < bc + 3 && !(i == row && j == col)
                    && #[trigger] self.grid()[i][j] == 0 implies eliminated(
                self.table(),
                i,
                j,
                num as int,
            ) by {
                let q = 3 * (i - br) + (j - bc);
                assert(q / 3 == i - br && q % 3 == j - bc) by (nonlinear_arith)
                    requires
                        0 <= i - br < 3,
                        0 <= j - bc < 3,
                        q == 3 * (i - br) + (j - bc),
                ;
                assert(self.grid()[br + q / 3][bc + q % 3] == 0);
            }
        }
        true
    }

    /// Writes `num` into the empty cell `(row, col)`. The caller
    /// warrants that `num` does not yet occur among the cell's peers,
    /// so a valid board stays valid.
    fn place(&mut self, row: usize, col: usize, num: u8)
        requires
            old(self).wf(),
            row < 9,
            col < 9,
            1 <= num <= 9,
            old(self).grid()[row as int][col as int] == 0,
            !in_row(old(self).grid(), row as int, num),
            !in_col(old(self).grid(), col as int, num),
            !in_box(old(self).grid(), row as int, col as int, num),
        ensures
            board_valid(old(self).grid()) ==> board_valid(final(self).grid()),
            final(self).wf(),
            final(self).table() == old(self).table(),
            final(self).stack() == old(self).stack(),
            final(self).grid()[row as int][col as int] == num,
            forall|r: int, c: int|
                0 <= r < 9 && 0 <= c < 9 && !(r == row && c == col) ==> final(self).grid()[r][c]
                    == old(self).grid()[r][c],
            state_measure(final(self).grid(), final(self).table()) < state_measure(
                old(self).grid(),
                old(self).table(),
            ),
    {
        self.board[row][col] = num;
        proof {
            assert(self.stack() == old(self).stack());
            assert forall|i: int| 0 <= i < self.stack().len() implies (
            #[trigger] self.stack()[i]).wf() by {
                assert(self.stack()[i] == old(self).stack()[i]);
            }
            lemma_fill_measure(
                old(self).grid(),
                self.grid(),
                self.table(),
                row as int,
                col as int,
            );
            if board_valid(old(self).grid()) {
                lemma_place_preserves_valid(
                    old(self).grid(),
                    self.grid(),
                    row as int,
                    col as int,
                    num,
                );
            }
        }
    }

    /// One visit of the elimination engine to the empty cell
    /// `(row, col)`: peer elimination against the cell's row, column and
    /// box, then the hidden-single and naked-single deductions, then —
    /// only while a guess is active — the zero-candidate contradiction
    /// check. The blacklist only grows, every addition names a digit
    /// actually present among the cell's peers, and any value placed was
    /// still admitted for the cell on entry.
    #[verifier::loop_isolation(false)]
    fn process_cell(&mut self, row: usize, col: usize, active: bool) -> (res: CellResult)
        requires
            old(self).wf(),
            row < 9,
            col < 9,
            old(self).grid()[row as int][col as int] == 0,
        ensures
            final(self).wf(),
            final(self).stack() == old(self).stack(),
            forall|r: int, c: int|
                0 <= r < 9 && 0 <= c < 9 && !(r == row && c == col) ==> final(self).grid()[r][c]
                    == old(self).grid()[r][c],
            forall|r: int, c: int, k: int|
                0 <= r < 9 && 0 <= c < 9 && 0 <= k < 9 && !(r == row && c == col)
                    ==> final(self).table()[r][c][k] == old(self).table()[r][c][k],
            blacklist_monotone(old(self).table(), final(self).table()),
            additions_justified(old(self).table(), final(self).table(), old(self).grid()),
            fills_sound(old(self).grid(), old(self).table(), final(self).grid()),
            state_measure(final(self).grid(), final(self).table()) <= state_measure(
                old(self).grid(),
                old(self).table(),
            ),
            res is Filled ==> final(self).grid()[row as int][col as int] != 0 && state_measure(
                final(self).grid(),
                final(self).table(),
            ) < state_measure(old(self).grid(), old(self).table()),
            res is Eliminated ==> final(self).grid() == old(self).grid() && state_measure(
                final(self).grid(),
                final(self).table(),
            ) < state_measure(old(self).grid(), old(self).table()),
            res is NoChange ==> final(self).grid() == old(self).grid() && final(self).table()
                == old(self).table() && cell_at_fixpoint(
                final(self).grid(),
                final(self).table(),
                row as int,
                col as int,
                active,
            ),
            res is Contradiction ==> active && final(self).grid() == old(self).grid()
                && cell_free_count(final(self).table(), row as int, col as int) == 0,
            board_valid(old(self).grid()) ==> board_valid(final(self).grid()),
            forall|full: Board|
                board_wf(full) && board_solved(full) && #[trigger] solution_consistent(
                    old(self).grid(),
                    old(self).table(),
                    full,
                ) ==> solution_consistent(final(self).grid(), final(self).table(), full),
            res is Contradiction ==> forall|full: Board|
                !(board_wf(full) && board_solved(full) && #[trigger] solution_consistent(
                    old(self).grid(),
                    old(self).table(),
                    full,
                )),
    {
        let ghost t0 = self.table();
        let ghost b0 = self.grid();

        // 1. Peer elimination against the row, the column, and the box.
        let rv = row_values(&self.board, row);
        let cv = col_values(&self.board, col);
        let bv = box_values(&self.board, row, col);
        proof {
            assert forall|i: int| 0 <= i < 9 && rv@[i] != 0 implies rv@[i] <= 9 && in_peers(
                b0,
                row as int,
                col as int,
                #[trigger] rv@[i],
            ) by {
                assert(b0[row as int][i] == rv@[i]);
            }
            assert forall|i: int| 0 <= i < 9 && cv@[i] != 0 implies cv@[i] <= 9 && in_peers(
                b0,
                row as int,
                col as int,
                #[trigger] cv@[i],
            ) by {
                assert(b0[i][col as int] == cv@[i]);
            }
            assert forall|i: int| 0 <= i < 9 && bv@[i] != 0 implies bv@[i] <= 9 && in_peers(
                b0,
                row as int,
                col as int,
                #[trigger] bv@[i],
            ) by {
                assert(b0[row as int / 3 * 3 + i / 3][col as int / 3 * 3 + i % 3] == bv@[i]);
            }
        }
        let ch1 = self.eliminate_values(row, col, &rv);
        let ghost t1 = self.table();
        let ch2 = self.eliminate_values(row, col, &cv);
        let ghost t2 = self.table();
        let ch3 = self.eliminate_values(row, col, &bv);
        let elim_changed = ch1 || ch2 || ch3;
        proof {
            assert forall|r: int, c: int, k: int|
                0 <= r < 9 && 0 <= c < 9 && 0 <= k < 9 && t0[r][c][k] == 0 && self.table()[r][c][k]
                    != 0 implies in_peers(b0, r, c, ((k + 1) as u8)) by {
                if t1[r][c][k] != 0 {
                    assert(additions_justified(t0, t1, b0));
                } else if t2[r][c][k] != 0 {
                    assert(additions_justified(t1, t2, b0));
                } else {
                    assert(additions_justified(t2, self.table(), b0));
                }
            }
            assert(blacklist_monotone(t0, self.table()));
            if !elim_changed {
                assert(self.table() == t0);
            }
            assert forall|d: u8| 1 <= d <= 9 && #[trigger] in_row(b0, row as int, d) implies
                eliminated(self.table(), row as int, col as int, d as int) by {
                let j = choose|j: int| 0 <= j < 9 && b0[row as int][j] == d;
                assert(rv@[j] == d);
                assert(eliminated(t1, row as int, col as int, rv@[j] as int));
            }
            assert forall|d: u8| 1 <= d <= 9 && #[trigger] in_col(b0, col as int, d) implies
                eliminated(self.table(), row as int, col as int, d as int) by {
                let i = choose|i: int| 0 <= i < 9 && b0[i][col as int] == d;
                assert(cv@[i] == d);
                assert(eliminated(t2, row as int, col as int, cv@[i] as int));
            }
            assert forall|d: u8|
                1 <= d <= 9 && #[trigger] in_box(b0, row as int, col as int, d) implies
                eliminated(self.table(), row as int, col as int, d as int) by {
                let br = row as int / 3 * 3;
                let bc = col as int / 3 * 3;
                let (i, j) = choose|i: int, j: int|
                    br <= i < br + 3 && bc <= j < bc + 3 && b0[i][j] == d;
                let x = 3 * (i - br) + (j - bc);
                assert(x / 3 == i - br && x % 3 == j - bc) by (nonlinear_arith)
                    requires
                        0 <= i - br < 3,
                        0 <= j - bc < 3,
                        x == 3 * (i - br) + (j - bc),
                ;
                assert(bv@[x] == d);
                assert(eliminated(self.table(), row as int, col as int, bv@[x] as int));
            }
            assert forall|full: Board|
                board_wf(full) && board_solved(full) && #[trigger] solution_consistent(
                    b0,
                    t0,
                    full,
                ) implies solution_consistent(b0, self.table(), full) by {
                lemma_consistency_after_elims(b0, t0, self.table(), full);
            }
        }

        // 2. Hidden single: a digit that no other empty cell of the row,
        // the column, or the box can take goes into this cell.
        let wl = self.whitelist_for(row, col);
        let mut hidden: u8 = 0;
        let mut t: usize = 0;
        while t < 9
            invariant
                t <= 9,
                hidden != 0 ==> 1 <= hidden <= 9 && self.table()[row as int][col as int][hidden
                    - 1] == 0,
                hidden != 0 ==> row_hidden_single(
                    self.grid(),
                    self.table(),
                    row as int,
                    col as int,
                    hidden,
                ) || col_hidden_single(self.grid(), self.table(), row as int, col as int, hidden)
                    || box_hidden_single(self.grid(), self.table(), row as int, col as int, hidden),
                hidden == 0 ==> forall|x: int|
                    0 <= x < t && #[trigger] wl@[x] != 0 ==> !row_hidden_single(
                        self.grid(),
                        self.table(),
                        row as int,
                        col as int,
                        wl@[x],
                    ) && !col_hidden_single(
                        self.grid(),
                        self.table(),
                        row as int,
                        col as int,
                        wl@[x],
                    ) && !box_hidden_single(
                        self.grid(),
                        self.table(),
                        row as int,
                        col as int,
                        wl@[x],
                    ),
            decreases 9 - t,
        {
            if hidden == 0 {
                let num = wl[t];
                if num != 0 {
                    if self.only_place_in_row(row, col, num) || self.only_place_in_col(
                        row,
                        col,
                        num,
                    ) || self.only_place_in_box(row, col, num) {
                        hidden = num;
                    }
                }
            }
            t += 1;
        }
        if hidden != 0 {
            let ghost tb = self.table();
            proof {
                assert(!eliminated(tb, row as int, col as int, hidden as int));
                assert(!in_row(b0, row as int, hidden));
                assert(!in_col(b0, col as int, hidden));
                assert(!in_box(b0, row as int, col as int, hidden));
            }
            self.place(row, col, hidden);
            proof {
                assert(t0[row as int][col as int][hidden - 1] == 0);
                assert(fills_sound(b0, t0, self.grid()));
                assert forall|full: Board|
                    board_wf(full) && board_solved(full) && #[trigger] solution_consistent(
                        b0,
                        t0,
                        full,
                    ) implies solution_consistent(self.grid(), tb, full) by {
                    lemma_consistency_after_elims(b0, t0, tb, full);
                    if row_hidden_single(b0, tb, row as int, col as int, hidden) {
                        lemma_row_hidden_single_forced(
                            b0,
                            tb,
                            full,
                            row as int,
                            col as int,
                            hidden,
                        );
                    } else if col_hidden_single(b0, tb, row as int, col as int, hidden) {
                        lemma_col_hidden_single_forced(
                            b0,
                            tb,
                            full,
                            row as int,
                            col as int,
                            hidden,
                        );
                    } else {
                        lemma_box_hidden_single_forced(
                            b0,
                            tb,
                            full,
                            row as int,
                            col as int,
                            hidden,
                        );
                    }
                    assert(full[row as int][col as int] == hidden);
                    assert forall|r: int, c: int|
                        0 <= r < 9 && 0 <= c < 9 && self.grid()[r][c] == 0 implies !(
                    #[trigger] eliminated(tb, r, c, full[r][c] as int)) by {
                        assert(b0[r][c] == 0);
                    }
                }
            }
            return CellResult::Filled;
        }

        // 3. Naked single: exactly one candidate left for this cell.
        let free = self.free_count(row, col);
        if free == 1 {
            if let Some(num) = self.first_free(row, col) {
                let ghost tb = self.table();
                proof {
                    assert(!eliminated(tb, row as int, col as int, num as int));
                    assert(!in_row(b0, row as int, num));
                    assert(!in_col(b0, col as int, num));
                    assert(!in_box(b0, row as int, col as int, num));
                }
                self.place(row, col, num);
                proof {
                    assert(t0[row as int][col as int][num - 1] == 0);
                    assert(fills_sound(b0, t0, self.grid()));
                    assert forall|full: Board|
                        board_wf(full) && board_solved(full) && #[trigger] solution_consistent(
                            b0,
                            t0,
                            full,
                        ) implies solution_consistent(self.grid(), tb, full) by {
                        lemma_consistency_after_elims(b0, t0, tb, full);
                        let fv = full[row as int][col as int];
                        assert(1 <= fv <= 9);
                        assert(!eliminated(tb, row as int, col as int, fv as int));
                        if fv != num {
                            let fr = |k: int| tb[row as int][col as int][k] == 0;
                            if fv < num {
                                lemma_count_match_two(fr, fv - 1, num - 1, 9);
                            } else {
                                lemma_count_match_two(fr, num - 1, fv - 1, 9);
                            }
                            assert(cell_free_count(tb, row as int, col as int) >= 2);
                        }
                        assert(full[row as int][col as int] == num);
                        assert forall|r: int, c: int|
                            0 <= r < 9 && 0 <= c < 9 && self.grid()[r][c] == 0 implies !(
                        #[trigger] eliminated(tb, r, c, full[r][c] as int)) by {
                            assert(b0[r][c] == 0);
                        }
                    }
                }
                return CellResult::Filled;
            }
        }

        // 4. Contradiction check, only while backtracking is active: an
        // empty cell with no candidate left proves the guess path wrong.
        if active && free == 0 {
            proof {
                assert forall|full: Board|
                    !(board_wf(full) && board_solved(full) && #[trigger] solution_consistent(
                        b0,
                        t0,
                        full,
                    )) by {
                    if board_wf(full) && board_solved(full) && solution_consistent(b0, t0, full) {
                        lemma_consistency_after_elims(b0, t0, self.table(), full);
                        let fv = full[row as int][col as int];
                        assert(!eliminated(self.table(), row as int, col as int, fv as int));
                        crate::utils::lemma_count_match_pos(
                            |k: int| self.table()[row as int][col as int][k] == 0,
                            fv - 1,
                            9,
                        );
                        assert(cell_free_count(self.table(), row as int, col as int) >= 1);
                    }
                }
            }
            return CellResult::Contradiction;
        }
        if elim_changed {
            CellResult::Eliminated
        } else {
            proof {
                let g = self.grid();
                let tb = self.table();
                assert forall|d: int|
                    1 <= d <= 9 && #[trigger] in_peers(g, row as int, col as int, d as u8) implies
                    eliminated(tb, row as int, col as int, d) by {
                    let dv = d as u8;
                    if in_row(g, row as int, dv) {
                        let j = choose|j: int| 0 <= j < 9 && g[row as int][j] == dv;
                        assert(rv@[j] == dv);
                        assert(eliminated(t1, row as int, col as int, rv@[j] as int));
                    } else if in_col(g, col as int, dv) {
                        let i = choose|i: int| 0 <= i < 9 && g[i][col as int] == dv;
                        assert(cv@[i] == dv);
                        assert(eliminated(t2, row as int, col as int, cv@[i] as int));
                    } else {
                        let (i, j) = choose|i: int, j: int|
                            row as int / 3 * 3 <= i < row as int / 3 * 3 + 3 && col as int / 3 * 3
                                <= j < col as int / 3 * 3 + 3 && g[i][j] == dv;
                        let br = row as int / 3 * 3;
                        let bc = col as int / 3 * 3;
                        let x = 3 * (i - br) + (j - bc);
                        assert(x / 3 == i - br && x % 3 == j - bc) by (nonlinear_arith)
                            requires
                                0 <= i - br < 3,
                                0 <= j - bc < 3,
                                x == 3 * (i - br) + (j - bc),
                        ;
                        assert(bv@[x] == dv);
                        assert(eliminated(tb, row as int, col as int, bv@[x] as int));
                    }
                }
                assert forall|d: u8|
                    #![trigger row_hidden_single(g, tb, row as int, col as int, d)]
                    #![trigger col_hidden_single(g, tb, row as int, col as int, d)]
                    #![trigger box_hidden_single(g, tb, row as int, col as int, d)]
                    1 <= d <= 9 && !eliminated(tb, row as int, col as int, d as int) implies
                    !row_hidden_single(g, tb, row as int, col as int, d) && !col_hidden_single(
                    g,
                    tb,
                    row as int,
                    col as int,
                    d,
                ) && !box_hidden_single(g, tb, row as int, col as int, d) by {
                    assert(wl@[d - 1] == d);
                }
                assert(cell_at_fixpoint(g, tb, row as int, col as int, active));
            }
            CellResult::NoChange
        }
    }

    /// One full pass of the elimination engine over every empty cell, in
    /// row-major order: peer elimination, hidden single, naked single,
    /// and — only while `active` — the contradiction check, which stops
    /// the pass at once.
    ///
    /// Elimination is monotonic: a digit once eliminated for a cell is
    /// never re-admitted by a pass; only restoring an earlier snapshot
    /// during backtracking can bring it back. The pass never touches
    /// the choice stack, never overwrites a filled cell, keeps a valid
    /// board valid, and keeps every reachable solution reachable. A
    /// `Stagnant` report means a completed pass changed nothing at all:
    /// every empty cell is then at a fixpoint of the deduction rules. A
    /// `Contradiction` report proves that no solution is consistent
    /// with the state the pass started from.
    #[verifier::loop_isolation(false)]
    pub fn elimination_pass(&mut self, active: bool) -> (res: PassResult)
        requires
            old(self).wf(),
        ensures
            final(self).wf(),
            final(self).stack() == old(self).stack(),
            board_extends(old(self).grid(), final(self).grid()),
            blacklist_monotone(old(self).table(), final(self).table()),
            additions_justified(old(self).table(), final(self).table(), final(self).grid()),
            fills_sound(old(self).grid(), old(self).table(), final(self).grid()),
            state_measure(final(self).grid(), final(self).table()) <= state_measure(
                old(self).grid(),
                old(self).table(),
            ),
            res is Changed ==> state_measure(final(self).grid(), final(self).table())
                < state_measure(old(self).grid(), old(self).table()),
            res is Stagnant ==> final(self).grid() == old(self).grid() && final(self).table()
                == old(self).table() && (forall|r: int, c: int|
                0 <= r < 9 && 0 <= c < 9 && #[trigger] final(self).grid()[r][c] == 0
                    ==> cell_at_fixpoint(final(self).grid(), final(self).table(), r, c, active)),
            res is Contradiction ==> active,
            board_valid(old(self).grid()) ==> board_valid(final(self).grid()),
            forall|full: Board|
                board_wf(full) && board_solved(full) && #[trigger] solution_consistent(
                    old(self).grid(),
                    old(self).table(),
                    full,
                ) ==> solution_consistent(final(self).grid(), final(self).table(), full),
            res is Contradiction ==> forall|full: Board|
                !(board_wf(full) && board_solved(full) && #[trigger] solution_consistent(
                    old(self).grid(),
                    old(self).table(),
                    full,
                )),
    {
        let mut changed = false;
        let mut i: usize = 0;
        while i < 81
            invariant
                i <= 81,
                self.wf(),
                self.stack() == old(self).stack(),
                board_extends(old(self).grid(), self.grid()),
                blacklist_monotone(old(self).table(), self.table()),
                additions_justified(old(self).table(), self.table(), self.grid()),
                fills_sound(old(self).grid(), old(self).table(), self.grid()),
                state_measure(self.grid(), self.table()) <= state_measure(
                    old(self).grid(),
                    old(self).table(),
                ),
                changed ==> state_measure(self.grid(), self.table()) < state_measure(
                    old(self).grid(),
                    old(self).table(),
                ),
                !changed ==> self.grid() == old(self).grid() && self.table() == old(self).table(),
                !changed ==> forall|r: int, c: int|
                    0 <= r < 9 && 0 <= c < 9 && 9 * r + c < i && #[trigger] self.grid()[r][c] == 0
                        ==> cell_at_fixpoint(self.grid(), self.table(), r, c, active),
                board_valid(old(self).grid()) ==> board_valid(self.grid()),
                forall|full: Board|
                    board_wf(full) && board_solved(full) && #[trigger] solution_consistent(
                        old(self).grid(),
                        old(self).table(),
                        full,
                    ) ==> solution_consistent(self.grid(), self.table(), full),
            decreases 81 - i,
        {
            let r = i / 9;
            let c = i % 9;
            proof {
                assert(9 * (i as int / 9) + i as int % 9 == i as int) by (nonlinear_arith)
                    requires
                        0 <= i < 81,
                ;
            }
            if self.board[r][c] == 0 {
                let ghost pre = *self;
                let cell_res = self.process_cell(r, c, active);
                proof {
                    assert forall|r2: int, c2: int|
                        0 <= r2 < 9 && 0 <= c2 < 9 && old(self).grid()[r2][c2] != 0 implies
                        self.grid()[r2][c2] == old(self).grid()[r2][c2] by {
                        assert(pre.grid()[r2][c2] == old(self).grid()[r2][c2]);
                        assert(!(r2 == r && c2 == c));
                    }
                    assert(board_extends(pre.grid(), self.grid()));
                    assert forall|r2: int, c2: int, k2: int|
                        0 <= r2 < 9 && 0 <= c2 < 9 && 0 <= k2 < 9 && old(self).table()[r2][c2][k2]
                            == 0 && self.table()[r2][c2][k2] != 0 implies in_peers(
                        self.grid(),
                        r2,
                        c2,
                        ((k2 + 1) as u8),
                    ) by {
                        if pre.table()[r2][c2][k2] != 0 {
                            assert(in_peers(pre.grid(), r2, c2, ((k2 + 1) as u8)));
                            lemma_peers_persist(pre.grid(), self.grid(), r2, c2, ((k2 + 1) as u8));
                        } else {
                            assert(in_peers(pre.grid(), r2, c2, ((k2 + 1) as u8)));
                            lemma_peers_persist(pre.grid(), self.grid(), r2, c2, ((k2 + 1) as u8));
                        }
                    }
                    assert forall|r2: int, c2: int|
                        0 <= r2 < 9 && 0 <= c2 < 9 && old(self).grid()[r2][c2] == 0
                            && self.grid()[r2][c2] != 0 implies 1 <= self.grid()[r2][c2] <= 9 && old(
                        self,
                    ).table()[r2][c2][self.grid()[r2][c2] - 1] == 0 by {
                        if pre.grid()[r2][c2] != 0 {
                            assert(self.grid()[r2][c2] == pre.grid()[r2][c2]);
                        } else {
                            assert(pre.table()[r2][c2][self.grid()[r2][c2] - 1] == 0);
                        }
                    }
                    assert forall|full: Board|
                        board_wf(full) && board_solved(full) && #[trigger] solution_consistent(
                            old(self).grid(),
                            old(self).table(),
                            full,
                        ) implies solution_consistent(self.grid(), self.table(), full) by {
                        assert(solution_consistent(pre.grid(), pre.table(), full));
                    }
                }
                match cell_res {
                    CellResult::Contradiction => {
                        proof {
                            assert forall|full: Board|
                                !(board_wf(full) && board_solved(full)
                                    && #[trigger] solution_consistent(
                                    old(self).grid(),
                                    old(self).table(),
                                    full,
                                )) by {
                                if board_wf(full) && board_solved(full) && solution_consistent(
                                    old(self).grid(),
                                    old(self).table(),
                                    full,
                                ) {
                                    assert(solution_consistent(pre.grid(), pre.table(), full));
                                }
                            }
                        }
                        return PassResult::Contradiction;
                    },
                    CellResult::Filled => {
                        changed = true;
                    },
                    CellResult::Eliminated => {
                        changed = true;
                    },
                    CellResult::NoChange => {},
                }
            }
            i += 1;
        }
        if changed {
            PassResult::Changed
        } else {
            PassResult::Stagnant
        }
    }

    /// Restores the board and the blacklist from the snapshot of the
    /// most recent choice point; the stack itself is untouched. Only
    /// used while backtracking.
    fn reset_state(&mut self)
        requires
            old(self).wf(),
            old(self).stack().len() > 0,
        ensures
            final(self).wf(),
            final(self).stack() == old(self).stack(),
            final(self).grid() == old(self).stack().last().spec_board(),
            final(self).table() == old(self).stack().last().spec_blacklist(),
    {
        let n = self.backtrack_stack.len();
        let b = self.backtrack_stack[n - 1].board();
        let t = self.backtrack_stack[n - 1].blacklist();
        self.board = b;
        self.blacklist = t;
        proof {
            assert(self.stack() == old(self).stack());
            assert forall|i: int| 0 <= i < self.stack().len() implies (
            #[trigger] self.stack()[i]).wf() by {
                assert(self.stack()[i] == old(self).stack()[i]);
            }
        }
    }

    /// Places the next untried digit of the newest choice point on the
    /// board; a choice point with no digit left is discarded, its
    /// parent's snapshot restored, and the parent tried instead, until a
    /// digit is placed or the stack runs out. Reports whether a digit
    /// was placed; `try_step_effect` states the exact outcome of a
    /// successful step (exhausted choice points discarded, the supplier
    /// shorn of its last digit, its snapshots restored with that digit
    /// at its cell), and a failed step proves every choice point was
    /// exhausted. Only used while backtracking, with the board and the
    /// blacklist equal to the top snapshot.
    #[verifier::loop_isolation(false)]
    fn try_new_num(&mut self) -> (placed: bool)
        requires
            old(self).wf(),
            old(self).stack().len() > 0 ==> old(self).grid() == old(
                self,
            ).stack().last().spec_board() && old(self).table() == old(
                self,
            ).stack().last().spec_blacklist(),
        ensures
            final(self).wf(),
            forall|base: Board|
                #[trigger] extends_clues(*old(self), base) ==> extends_clues(*final(self), base),
            placed ==> solver_measure(*final(self)) < stack_pot(old(self).stack()),
            placed ==> try_step_effect(
                *old(self),
                *final(self),
                final(self).stack().len() - 1,
            ),
            !placed ==> final(self).stack().len() == 0 && (final(self).grid() == old(self).grid()
                || !board_filled(final(self).grid())),
            !placed ==> forall|i: int|
                0 <= i < old(self).stack().len() ==> (#[trigger] old(
                    self,
                ).stack()[i]).spec_nums().len() == 0,
            board_valid(old(self).grid()) && (forall|j: int|
                0 <= j < old(self).stack().len() ==> node_clean(#[trigger] old(self).stack()[j]))
                ==> board_valid(final(self).grid()) && (forall|j: int|
                0 <= j < final(self).stack().len() ==> node_clean(#[trigger] final(self).stack()[j])),
            forall|full: Board|
                board_wf(full) && board_solved(full) && #[trigger] solution_tracked(
                    *old(self),
                    full,
                ) ==> solution_tracked(*final(self), full),
            !placed && old(self).stack().len() > 0 ==> forall|full: Board|
                !(board_wf(full) && board_solved(full) && #[trigger] solution_tracked(
                    *old(self),
                    full,
                )),
    {
        loop
            invariant
                self.wf(),
                self.stack().len() <= old(self).stack().len(),
                self.stack() == old(self).stack().subrange(0, self.stack().len() as int),
                forall|i: int|
                    self.stack().len() <= i < old(self).stack().len() ==> (#[trigger] old(
                        self,
                    ).stack()[i]).spec_nums().len() == 0,
                self.stack().len() > 0 ==> self.grid() == self.stack().last().spec_board()
                    && self.table() == self.stack().last().spec_blacklist(),
                (self.grid() == old(self).grid() && self.table() == old(self).table()) || (
                exists|j: int|
                    0 <= j < old(self).stack().len() && self.grid() == (#[trigger] old(
                        self,
                    ).stack()[j]).spec_board() && self.table() == old(
                        self,
                    ).stack()[j].spec_blacklist()),
                forall|full: Board|
                    board_wf(full) && board_solved(full) && #[trigger] solution_tracked(
                        *old(self),
                        full,
                    ) && old(self).stack().len() > 0 ==> self.stack().len() > 0
                        && node_state_consistent(self.stack()[0], full) && (forall|j: int|
                        0 <= j < self.stack().len() ==> #[trigger] link_at(*self, full, j)),
            decreases self.stack().len(),
        {
            let ghost pre_state = *self;
            let ghost pre_stack = self.stack();
            let popped = self.backtrack_stack.pop();
            match popped {
                None => {
                    proof {
                        if self.grid() != old(self).grid() {
                            let j = choose|j: int|
                                0 <= j < old(self).stack().len() && self.grid() == (#[trigger] old(
                                    self,
                                ).stack()[j]).spec_board() && self.table() == old(
                                    self,
                                ).stack()[j].spec_blacklist();
                            assert(old(self).stack()[j].wf());
                            assert(self.grid()[old(self).stack()[j].spec_row_idx() as int][old(
                                self,
                            ).stack()[j].spec_col_idx() as int] == 0);
                        }
                        if board_valid(old(self).grid()) && (forall|j: int|
                            0 <= j < old(self).stack().len() ==> node_clean(
                                #[trigger] old(self).stack()[j],
                            )) {
                            if self.grid() != old(self).grid() || self.table() != old(
                                self,
                            ).table() {
                                let j = choose|j: int|
                                    0 <= j < old(self).stack().len() && self.grid() == (
                                    #[trigger] old(self).stack()[j]).spec_board() && self.table()
                                        == old(self).stack()[j].spec_blacklist();
                                assert(node_clean(old(self).stack()[j]));
                            }
                            assert(board_valid(self.grid()));
                        }
                        assert forall|full: Board|
                            board_wf(full) && board_solved(full) && #[trigger] solution_tracked(
                                *old(self),
                                full,
                            ) implies solution_tracked(*self, full) by {
                            if old(self).stack().len() > 0 {
                                assert(pre_state.stack().len() > 0);
                                assert(false);
                            } else {
                                assert(self.grid() == old(self).grid() && self.table() == old(
                                    self,
                                ).table());
                                assert(solution_consistent(self.grid(), self.table(), full));
                            }
                        }
                        if old(self).stack().len() > 0 {
                            assert forall|full: Board|
                                !(board_wf(full) && board_solved(full)
                                    && #[trigger] solution_tracked(*old(self), full)) by {
                                if board_wf(full) && board_solved(full) && solution_tracked(
                                    *old(self),
                                    full,
                                ) {
                                    assert(pre_state.stack().len() > 0);
                                }
                            }
                        }
                    }
                    return false;
                },
                Some(mut node) => {
                    proof {
                        assert(pre_stack.last() == node);
                        assert(self.stack() =~= old(self).stack().subrange(
                            0,
                            self.stack().len() as int,
                        ));
                        assert forall|i: int| 0 <= i < self.stack().len() implies (
                        #[trigger] self.stack()[i]).wf() by {
                            assert(self.stack()[i] == pre_stack[i]);
                        }
                    }
                    let ghost node0 = node;
                    let num = node.pop_next();
                    if num == 0 {
                        proof {
                            assert(node0.spec_nums().len() == 0);
                            assert(old(self).stack()[pre_stack.len() - 1] == node0);
                            assert forall|full: Board|
                                board_wf(full) && board_solved(full) && #[trigger] solution_tracked(
                                    *old(self),
                                    full,
                                ) && old(self).stack().len() > 0 implies !node_state_consistent(
                                node0,
                                full,
                            ) by {
                                let m = pre_stack.len() as int;
                                assert(link_at(pre_state, full, m - 1));
                                assert(pre_state.stack()[m - 1] == node0);
                                assert(below_board(pre_state, m - 1) == pre_state.grid());
                                assert(pre_state.grid() == node0.spec_board());
                                let rr = node0.spec_row_idx() as int;
                                let cc = node0.spec_col_idx() as int;
                                assert(node0.spec_board()[rr][cc] == 0);
                                assert(full[rr][cc] != 0);
                            }
                        }
                        // Exhausted: the choice point is dropped for
                        // good; restore its parent's snapshot, if any,
                        // and retry there.
                        if self.backtrack_stack.len() > 0 {
                            self.reset_state();
                            proof {
                                assert forall|full: Board|
                                    board_wf(full) && board_solved(full)
                                        && #[trigger] solution_tracked(*old(self), full) && old(
                                        self,
                                    ).stack().len() > 0 implies (self.stack().len() > 0
                                        && node_state_consistent(self.stack()[0], full) && (
                                    forall|j: int|
                                        0 <= j < self.stack().len() ==> #[trigger] link_at(
                                            *self,
                                            full,
                                            j,
                                        ))) by {
                                    let m = pre_stack.len() as int;
                                    assert(pre_state.stack().len() > 0);
                                    assert(self.stack().len() == m - 1 > 0);
                                    assert(self.stack()[0] == pre_state.stack()[0]);
                                    assert(node_state_consistent(self.stack()[0], full));
                                    assert(!node_state_consistent(node0, full));
                                    assert forall|j: int|
                                        0 <= j < self.stack().len() implies #[trigger] link_at(
                                        *self,
                                        full,
                                        j,
                                    ) by {
                                        assert(link_at(pre_state, full, j));
                                        assert(self.stack()[j] == pre_state.stack()[j]);
                                        let n = self.stack()[j];
                                        let rr = n.spec_row_idx() as int;
                                        let cc = n.spec_col_idx() as int;
                                        if j < self.stack().len() - 1 {
                                            assert(below_board(*self, j) == below_board(
                                                pre_state,
                                                j,
                                            ));
                                            assert(below_table(*self, j) == below_table(
                                                pre_state,
                                                j,
                                            ));
                                        } else {
                                            if node_state_consistent(n, full) {
                                                assert(below_board(pre_state, j)
                                                    == node0.spec_board());
                                                assert(below_table(pre_state, j)
                                                    == node0.spec_blacklist());
                                                assert(exists|i: int|
                                                    0 <= i < n.spec_nums().len()
                                                        && #[trigger] n.spec_nums()[i] == full[rr][cc]);
                                            }
                                        }
                                    }
                                }
                            }
                        } else {
                            proof {
                                assert forall|full: Board|
                                    board_wf(full) && board_solved(full)
                                        && #[trigger] solution_tracked(*old(self), full) && old(
                                        self,
                                    ).stack().len() > 0 implies (self.stack().len() > 0
                                        && node_state_consistent(self.stack()[0], full) && (
                                    forall|j: int|
                                        0 <= j < self.stack().len() ==> #[trigger] link_at(
                                            *self,
                                            full,
                                            j,
                                        ))) by {
                                    assert(pre_stack.len() == 1);
                                    assert(node_state_consistent(pre_state.stack()[0], full));
                                    assert(pre_state.stack()[0] == node0);
                                    assert(!node_state_consistent(node0, full));
                                }
                            }
                        }
                    } else {
                        let r = node.row_idx();
                        let c = node.col_idx();
                        let ghost snap_grid = self.grid();
                        self.board[r][c] = num;
                        self.backtrack_stack.push(node);
                        proof {
                            assert(node0.spec_nums().len() > 0);
                            assert(1 <= num <= 9);
                            assert(snap_grid == node0.spec_board());
                            assert(node.wf()) by {
                                assert(forall|i: int|
                                    0 <= i < node.spec_nums().len()
                                        ==> #[trigger] node.spec_nums()[i]
                                        == node0.spec_nums()[i]);
                            }
                            assert(self.stack() =~= pre_stack.drop_last().push(node));
                            assert forall|i: int| 0 <= i < self.stack().len() implies (
                            #[trigger] self.stack()[i]).wf() by {
                                if i < self.stack().len() - 1 {
                                    assert(self.stack()[i] == pre_stack[i]);
                                } else {
                                    assert(self.stack()[i] == node);
                                }
                            }
                            assert(pre_stack.drop_last().push(node0) =~= pre_stack);
                            lemma_try_place_bound(
                                pre_stack.drop_last(),
                                node0,
                                node,
                                self.grid(),
                            );
                            lemma_stack_pot_prefix(old(self).stack(), pre_stack.len() as int);
                            assert forall|base: Board|
                                #[trigger] extends_clues(*old(self), base) implies extends_clues(
                                *self,
                                base,
                            ) by {
                                assert(board_extends(base, node0.spec_board()));
                                assert forall|r2: int, c2: int|
                                    0 <= r2 < 9 && 0 <= c2 < 9 && base[r2][c2] != 0 implies
                                    self.grid()[r2][c2] == base[r2][c2] by {
                                    assert(node0.spec_board()[r2][c2] == base[r2][c2]);
                                }
                                assert forall|i: int| 0 <= i < self.stack().len() implies
                                    board_extends(
                                    base,
                                    (#[trigger] self.stack()[i]).spec_board(),
                                ) by {
                                    if i < self.stack().len() - 1 {
                                        assert(self.stack()[i] == old(self).stack()[i]);
                                    } else {
                                        assert(self.stack()[i].spec_board()
                                            == node0.spec_board());
                                    }
                                }
                            }
                            let m = pre_stack.len() as int;
                            assert(old(self).stack().len() > 0);
                            assert(pre_state.stack()[m - 1] == node0);
                            assert(try_step_effect(*old(self), *self, m - 1)) by {
                                assert(old(self).stack()[m - 1] == pre_stack[m - 1]);
                                assert(pre_stack[m - 1] == node0);
                                assert(self.stack()[m - 1] == node);
                                assert(self.stack().len() == m);
                                assert(snap_grid == node0.spec_board());
                                assert(num == node0.spec_nums().last());
                                assert(self.grid()[node0.spec_row_idx() as int][node0.spec_col_idx() as int]
                                    == num);
                                assert(self.table() == node0.spec_blacklist());
                                assert forall|i: int| 0 <= i < m - 1 implies #[trigger] self.stack()[i]
                                    == old(self).stack()[i] by {
                                    assert(self.stack()[i] == pre_stack[i]);
                                }
                            }
                            if board_valid(old(self).grid()) && (forall|j: int|
                                0 <= j < old(self).stack().len() ==> node_clean(
                                    #[trigger] old(self).stack()[j],
                                )) {
                                assert(node_clean(node0));
                                assert(node0.spec_nums()[node0.spec_nums().len() - 1] == num);
                                assert(!in_peers(
                                    node0.spec_board(),
                                    node0.spec_row_idx() as int,
                                    node0.spec_col_idx() as int,
                                    num,
                                ));
                                lemma_place_preserves_valid(
                                    node0.spec_board(),
                                    self.grid(),
                                    r as int,
                                    c as int,
                                    num,
                                );
                                assert forall|j: int| 0 <= j < self.stack().len() implies
                                    node_clean(#[trigger] self.stack()[j]) by {
                                    if j < self.stack().len() - 1 {
                                        assert(self.stack()[j] == old(self).stack()[j]);
                                    } else {
                                        assert(self.stack()[j] == node);
                                        assert forall|i: int|
                                            0 <= i < node.spec_nums().len() implies !in_peers(
                                            node.spec_board(),
                                            node.spec_row_idx() as int,
                                            node.spec_col_idx() as int,
                                            #[trigger] node.spec_nums()[i],
                                        ) by {
                                            assert(node.spec_nums()[i] == node0.spec_nums()[i]);
                                        }
                                    }
                                }
                            }
                            assert forall|full: Board|
                                board_wf(full) && board_solved(full) && #[trigger] solution_tracked(
                                    *old(self),
                                    full,
                                ) implies solution_tracked(*self, full) by {
                                let rr = node0.spec_row_idx() as int;
                                let cc = node0.spec_col_idx() as int;
                                let fd = full[rr][cc];
                                assert(pre_state.stack().len() > 0);
                                assert(self.stack().len() == m);
                                assert(node_state_consistent(pre_state.stack()[0], full));
                                assert(node_state_consistent(self.stack()[0], full)) by {
                                    if m == 1 {
                                        assert(self.stack()[0] == node);
                                        assert(node.spec_board() == pre_state.stack()[0].spec_board());
                                        assert(node.spec_blacklist() == pre_state.stack()[0].spec_blacklist());
                                    } else {
                                        assert(self.stack()[0] == pre_state.stack()[0]);
                                    }
                                }
                                assert forall|j: int|
                                    0 <= j < self.stack().len() implies #[trigger] link_at(
                                    *self,
                                    full,
                                    j,
                                ) by {
                                    if j < m - 1 {
                                        assert(link_at(pre_state, full, j));
                                        assert(self.stack()[j] == pre_state.stack()[j]);
                                        if j + 1 < m - 1 {
                                            assert(self.stack()[j + 1] == pre_state.stack()[j + 1]);
                                        } else {
                                            assert(self.stack()[j + 1] == node);
                                            assert(pre_state.stack()[j + 1] == node0);
                                            assert(node.spec_board() == node0.spec_board());
                                            assert(node.spec_blacklist()
                                                == node0.spec_blacklist());
                                        }
                                    } else {
                                        if node_state_consistent(node, full) {
                                            assert(node_state_consistent(node0, full));
                                            assert(link_at(pre_state, full, m - 1));
                                            assert(below_board(pre_state, m - 1)
                                                == pre_state.grid());
                                            assert(pre_state.grid() == node0.spec_board());
                                            assert(node0.spec_board()[rr][cc] == 0 && fd != 0);
                                            let i0 = choose|i: int|
                                                0 <= i < node0.spec_nums().len()
                                                    && #[trigger] node0.spec_nums()[i] == fd;
                                            if num == fd {
                                                assert(below_board(*self, j) == self.grid());
                                                assert(self.grid()[rr][cc] == fd);
                                                assert(solution_consistent(
                                                    self.grid(),
                                                    self.table(),
                                                    full,
                                                )) by {
                                                    assert forall|r2: int, c2: int|
                                                        0 <= r2 < 9 && 0 <= c2 < 9
                                                            && self.grid()[r2][c2] != 0 implies
                                                        full[r2][c2] == self.grid()[r2][c2] by {
                                                        if !(r2 == rr && c2 == cc) {
                                                            assert(self.grid()[r2][c2]
                                                                == node0.spec_board()[r2][c2]);
                                                        }
                                                    }
                                                    assert forall|r2: int, c2: int|
                                                        0 <= r2 < 9 && 0 <= c2 < 9
                                                            && self.grid()[r2][c2] == 0 implies !(
                                                    #[trigger] eliminated(
                                                        self.table(),
                                                        r2,
                                                        c2,
                                                        full[r2][c2] as int,
                                                    )) by {
                                                        assert(node0.spec_board()[r2][c2] == 0);
                                                        assert(self.table()
                                                            == node0.spec_blacklist());
                                                    }
                                                }
                                            } else {
                                                assert(node0.spec_nums()[node0.spec_nums().len()
                                                    - 1] == num);
                                                assert(i0 < node0.spec_nums().len() - 1);
                                                assert(node.spec_nums()[i0] == fd);
                                            }
                                        }
                                    }
                                }
                            }
                        }
                        return true;
                    }
                },
            }
        }
    }

    /// Sum of remaining-candidate counts over the empty peers of
    /// `(row, col)`, and the number of those empty peers.
    #[verifier::loop_isolation(false)]
    fn peer_stats(&self, row: usize, col: usize) -> (out: (u16, u16))
        requires
            row < 9,
            col < 9,
        ensures
            out.0 == peer_cand_sum(self.grid(), self.table(), row as int, col as int),
            out.1 == peer_empty_count(self.grid(), row as int, col as int),
            out.0 <= 729,
            out.1 <= 81,
    {
        let ghost fsum = |i: int|
            if is_peer(row as int, col as int, i / 9, i % 9) && self.grid()[i / 9][i % 9] == 0 {
                cell_free_count(self.table(), i / 9, i % 9)
            } else {
                0
            };
        let ghost fcnt = |i: int|
            is_peer(row as int, col as int, i / 9, i % 9) && self.grid()[i / 9][i % 9] == 0;
        let mut sum: u16 = 0;
        let mut cnt: u16 = 0;
        let mut i: usize = 0;
        while i < 81
            invariant
                i <= 81,
                sum == sum_over(fsum, i as nat),
                cnt == count_match(fcnt, i as nat),
                sum <= 9 * i,
                cnt <= i,
            decreases 81 - i,
        {
            let r = i / 9;
            let c = i % 9;
            let peer = !(r == row && c == col) && (r == row || c == col || (r / 3 == row / 3 && c
                / 3 == col / 3));
            proof {
                assert(peer == is_peer(row as int, col as int, i as int / 9, i as int % 9));
            }
            if peer && self.board[r][c] == 0 {
                let fc = self.free_count(r, c);
                sum += fc as u16;
                cnt += 1;
                proof {
                    assert(fsum(i as int) == cell_free_count(self.table(), i as int / 9, i as int
                        % 9));
                }
            } else {
                proof {
                    assert(fsum(i as int) == 0);
                    assert(!fcnt(i as int));
                }
            }
            i += 1;
        }
        (sum, cnt)
    }

    /// The digits still possible for the cell `(row, col)`, in
    /// ascending order; the trial order pops from the back.
    #[verifier::loop_isolation(false)]
    fn candidate_list(&self, row: usize, col: usize) -> (v: Vec<u8>)
        requires
            self.wf(),
            row < 9,
            col < 9,
        ensures
            v@.len() == cell_free_count(self.table(), row as int, col as int),
            forall|i: int|
                0 <= i < v@.len() ==> 1 <= #[trigger] v@[i] <= 9 && self.table()[row as int][col as int][v@[i]
                    - 1] == 0,
            forall|x: int|
                0 <= x < 9 && #[trigger] self.table()[row as int][col as int][x] == 0
                    ==> v@.contains(((x + 1) as u8)),
    {
        let mut v: Vec<u8> = Vec::new();
        let mut k: usize = 0;
        while k < 9
            invariant
                k <= 9,
                v@.len() == count_match(
                    |x: int| self.table()[row as int][col as int][x] == 0,
                    k as nat,
                ),
                forall|i: int|
                    0 <= i < v@.len() ==> 1 <= #[trigger] v@[i] <= 9 && self.table()[row as int][col as int][v@[i]
                        - 1] == 0,
                forall|x: int|
                    0 <= x < k && #[trigger] self.table()[row as int][col as int][x] == 0
                        ==> v@.contains(((x + 1) as u8)),
            decreases 9 - k,
        {
            let ghost prev = v@;
            if self.blacklist[row][col][k] == 0 {
                v.push((k + 1) as u8);
            }
            proof {
                assert forall|x: int|
                    0 <= x < k + 1 && #[trigger] self.table()[row as int][col as int][x] == 0
                        implies v@.contains(((x + 1) as u8)) by {
                    if x < k {
                        let i = choose|i: int| 0 <= i < prev.len() && prev[i] == ((x + 1) as u8);
                        assert(v@[i] == ((x + 1) as u8));
                    } else {
                        assert(v@[v@.len() - 1] == ((x + 1) as u8));
                    }
                }
            }
            k += 1;
        }
        v
    }

    /// The cell to guess at when deduction stalls: scan all empty cells
    /// and keep the one whose empty peers hold the fewest remaining
    /// candidates on average, first in row-major order on ties.
    #[verifier::loop_isolation(false)]
    fn compute_best_bet(&self) -> (rc: (usize, usize))
        requires
            self.wf(),
            !board_filled(self.grid()),
        ensures
            is_best_bet(self.grid(), self.table(), rc.0 as int, rc.1 as int),
    {
        let mut found = false;
        let mut br: usize = 0;
        let mut bc: usize = 0;
        let mut bs: u16 = 0;
        let mut bn: u16 = 0;
        let mut i: usize = 0;
        while i < 81
            invariant
                i <= 81,
                !found ==> forall|r2: int, c2: int|
                    0 <= r2 < 9 && 0 <= c2 < 9 && 9 * r2 + c2 < i ==> #[trigger] self.grid()[r2][c2]
                        != 0,
                found ==> {
                    &&& br < 9
                    &&& bc < 9
                    &&& 9 * br + bc < i
                    &&& self.grid()[br as int][bc as int] == 0
                    &&& bs == peer_cand_sum(self.grid(), self.table(), br as int, bc as int)
                    &&& bn == peer_empty_count(self.grid(), br as int, bc as int)
                    &&& bs <= 729
                    &&& bn <= 81
                    &&& forall|r2: int, c2: int|
                        0 <= r2 < 9 && 0 <= c2 < 9 && 9 * r2 + c2 < i && #[trigger] self.grid()[r2][c2]
                            == 0 ==> !cell_score_lt(
                            self.grid(),
                            self.table(),
                            r2,
                            c2,
                            br as int,
                            bc as int,
                        )
                    &&& forall|r2: int, c2: int|
                        0 <= r2 < 9 && 0 <= c2 < 9 && 9 * r2 + c2 < 9 * br + bc
                            && #[trigger] self.grid()[r2][c2] == 0 ==> cell_score_lt(
                            self.grid(),
                            self.table(),
                            br as int,
                            bc as int,
                            r2,
                            c2,
                        )
                },
            decreases 81 - i,
        {
            let r = i / 9;
            let c = i % 9;
            proof {
                assert(9 * (i as int / 9) + i as int % 9 == i as int) by (nonlinear_arith)
                    requires
                        0 <= i < 81,
                ;
            }
            if self.board[r][c] == 0 {
                let (s, n) = self.peer_stats(r, c);
                if !found {
                    found = true;
                    br = r;
                    bc = c;
                    bs = s;
                    bn = n;
                } else if score_less(s, n, bs, bn) {
                    proof {
                        let g = self.grid();
                        let t = self.table();
                        assert forall|r2: int, c2: int|
                            0 <= r2 < 9 && 0 <= c2 < 9 && 9 * r2 + c2 < i + 1
                                && #[trigger] g[r2][c2] == 0 implies !cell_score_lt(
                            g,
                            t,
                            r2,
                            c2,
                            r as int,
                            c as int,
                        ) by {
                            if 9 * r2 + c2 < i {
                                if cell_score_lt(g, t, r2, c2, r as int, c as int) {
                                    lemma_score_lt_trans(
                                        peer_cand_sum(g, t, r2, c2),
                                        peer_empty_count(g, r2, c2),
                                        peer_cand_sum(g, t, r as int, c as int),
                                        peer_empty_count(g, r as int, c as int),
                                        peer_cand_sum(g, t, br as int, bc as int),
                                        peer_empty_count(g, br as int, bc as int),
                                    );
                                }
                            } else {
                                assert(r2 == r && c2 == c) by (nonlinear_arith)
                                    requires
                                        0 <= r2 < 9,
                                        0 <= c2 < 9,
                                        0 <= i < 81,
                                        r == i / 9,
                                        c == i % 9,
                                        i <= 9 * r2 + c2 < i + 1,
                                ;
                            }
                        }
                        assert forall|r2: int, c2: int|
                            0 <= r2 < 9 && 0 <= c2 < 9 && 9 * r2 + c2 < i && #[trigger] g[r2][c2]
                                == 0 implies cell_score_lt(g, t, r as int, c as int, r2, c2) by {
                            lemma_score_lt_not_ge(
                                peer_cand_sum(g, t, r as int, c as int),
                                peer_empty_count(g, r as int, c as int),
                                peer_cand_sum(g, t, br as int, bc as int),
                                peer_empty_count(g, br as int, bc as int),
                                peer_cand_sum(g, t, r2, c2),
                                peer_empty_count(g, r2, c2),
                            );
                        }
                    }
                    br = r;
                    bc = c;
                    bs = s;
                    bn = n;
                }
            }
            i += 1;
        }
        proof {
            if !found {
                let (r2, c2) = choose|r2: int, c2: int|
                    0 <= r2 < 9 && 0 <= c2 < 9 && #[trigger] self.grid()[r2][c2] == 0;
                assert(9 * r2 + c2 < 81);
                assert(false);
            }
            assert forall|r2: int, c2: int|
                0 <= r2 < 9 && 0 <= c2 < 9 && #[trigger] self.grid()[r2][c2] == 0 implies 9 * r2
                + c2 < 81 by {}
        }
        (br, bc)
    }

    /// Solves the puzzle in place: elimination passes run until nothing
    /// changes, a stall pushes a choice point and guesses, and a
    /// contradiction unwinds the newest guess. The run ends with the
    /// board solved, or with `Exhausted` once every guess path has
    /// failed — the board is then never silently left looking solved.
    ///
    /// On a board that is already solved nothing changes at all. Every
    /// cell that was filled on entry keeps its value (as does every
    /// snapshot), so a solved result extends the given clues exactly.
    ///
    /// The solver is also complete: started with no guess active,
    /// `Exhausted` proves that no well-formed solved board was
    /// reachable from the initial board and candidate table — on a
    /// fresh state (see `lemma_fresh_state_reaches_any_solution`), that
    /// the puzzle has no solution at all.
    #[verifier::loop_isolation(false)]
    pub fn solve(&mut self) -> (outcome: SolveOutcome)
        requires
            old(self).wf(),
        ensures
            final(self).wf(),
            outcome is Solved <==> board_solved(final(self).grid()),
            forall|base: Board|
                #[trigger] extends_clues(*old(self), base) ==> extends_clues(*final(self), base),
            old(self).stack().len() == 0 ==> board_extends(old(self).grid(), final(self).grid()),
            board_solved(old(self).grid()) ==> *final(self) == *old(self) && outcome is Solved,
            outcome is Exhausted ==> final(self).stack().len() == 0 || (board_filled(
                final(self).grid(),
            ) && !board_valid(final(self).grid())),
            old(self).stack().len() == 0 && outcome is Exhausted ==> forall|full: Board|
                !(board_wf(full) && board_solved(full) && #[trigger] solution_consistent(
                    old(self).grid(),
                    old(self).table(),
                    full,
                )),
    {
        if self.is_solved() {
            return SolveOutcome::Solved;
        }
        loop
            invariant
                self.wf(),
                forall|base: Board|
                    #[trigger] extends_clues(*old(self), base) ==> extends_clues(*self, base),
                old(self).stack().len() == 0 ==> forall|full: Board|
                    board_wf(full) && board_solved(full) && #[trigger] solution_consistent(
                        old(self).grid(),
                        old(self).table(),
                        full,
                    ) ==> solution_tracked(*self, full),
                board_valid(old(self).grid()) && old(self).stack().len() == 0 ==> board_valid(
                    self.grid(),
                ) && (forall|j: int|
                    0 <= j < self.stack().len() ==> node_clean(#[trigger] self.stack()[j])),
            decreases solver_measure(*self),
        {
            proof {
                if old(self).stack().len() == 0 {
                    assert(extends_clues(*old(self), old(self).grid()));
                }
            }
            if self.is_solved() {
                return SolveOutcome::Solved;
            }
            let active = self.backtrack_stack.len() > 0;
            let ghost pre = *self;
            let pass_res = self.elimination_pass(active);
            proof {
                assert forall|base: Board| #[trigger] extends_clues(*old(self), base) implies
                    extends_clues(*self, base) by {
                    assert(extends_clues(pre, base));
                    assert forall|r2: int, c2: int|
                        0 <= r2 < 9 && 0 <= c2 < 9 && base[r2][c2] != 0 implies self.grid()[r2][c2]
                        == base[r2][c2] by {
                        assert(pre.grid()[r2][c2] == base[r2][c2]);
                    }
                    assert forall|i: int| 0 <= i < self.stack().len() implies board_extends(
                        base,
                        (#[trigger] self.stack()[i]).spec_board(),
                    ) by {
                        assert(self.stack()[i] == pre.stack()[i]);
                    }
                }
                if board_valid(old(self).grid()) && old(self).stack().len() == 0 {
                    assert(board_valid(self.grid()));
                    assert forall|j: int| 0 <= j < self.stack().len() implies node_clean(
                        #[trigger] self.stack()[j],
                    ) by {
                        assert(self.stack()[j] == pre.stack()[j]);
                    }
                }
                if old(self).stack().len() == 0 {
                    assert forall|full: Board|
                        board_wf(full) && board_solved(full) && #[trigger] solution_consistent(
                            old(self).grid(),
                            old(self).table(),
                            full,
                        ) implies solution_tracked(*self, full) by {
                        assert(solution_tracked(pre, full));
                        if self.stack().len() == 0 {
                            assert(solution_consistent(pre.grid(), pre.table(), full));
                            assert(solution_consistent(self.grid(), self.table(), full));
                        } else {
                            assert(self.stack()[0] == pre.stack()[0]);
                            assert(node_state_consistent(self.stack()[0], full));
                            assert forall|j: int|
                                0 <= j < self.stack().len() implies #[trigger] link_at(
                                *self,
                                full,
                                j,
                            ) by {
                                assert(link_at(pre, full, j));
                                assert(self.stack()[j] == pre.stack()[j]);
                                let n = self.stack()[j];
                                let rr = n.spec_row_idx() as int;
                                let cc = n.spec_col_idx() as int;
                                if j < self.stack().len() - 1 {
                                    assert(self.stack()[j + 1] == pre.stack()[j + 1]);
                                } else {
                                    if node_state_consistent(n, full) {
                                        if !(exists|i: int|
                                            0 <= i < n.spec_nums().len()
                                                && #[trigger] n.spec_nums()[i] == full[rr][cc]) {
                                            assert(below_board(pre, j) == pre.grid());
                                            assert(pre.grid()[rr][cc] == full[rr][cc]);
                                            assert(full[rr][cc] != 0);
                                            assert(solution_consistent(
                                                pre.grid(),
                                                pre.table(),
                                                full,
                                            ));
                                            assert(self.grid()[rr][cc] == pre.grid()[rr][cc]);
                                            assert(solution_consistent(
                                                self.grid(),
                                                self.table(),
                                                full,
                                            ));
                                        }
                                    }
                                }
                            }
                        }
                    }
                }
            }
            match pass_res {
                PassResult::Changed => {
                    proof {
                        assert(solver_measure(*self) < solver_measure(pre));
                    }
                },
                PassResult::Contradiction => {
                    let ghost s1 = *self;
                    self.reset_state();
                    proof {
                        assert forall|base: Board| #[trigger] extends_clues(*old(self), base)
                            implies extends_clues(*self, base) by {
                            assert(extends_clues(pre, base));
                            assert(board_extends(base, pre.stack().last().spec_board()));
                            assert forall|i: int| 0 <= i < self.stack().len() implies
                                board_extends(
                                base,
                                (#[trigger] self.stack()[i]).spec_board(),
                            ) by {
                                assert(self.stack()[i] == pre.stack()[i]);
                            }
                        }
                        if board_valid(old(self).grid()) && old(self).stack().len() == 0 {
                            assert(node_clean(s1.stack().last()));
                            assert(board_valid(self.grid()));
                            assert forall|j: int| 0 <= j < self.stack().len() implies node_clean(
                                #[trigger] self.stack()[j],
                            ) by {
                                assert(self.stack()[j] == s1.stack()[j]);
                            }
                        }
                        if old(self).stack().len() == 0 {
                            assert forall|full: Board|
                                board_wf(full) && board_solved(full)
                                    && #[trigger] solution_consistent(
                                    old(self).grid(),
                                    old(self).table(),
                                    full,
                                ) implies solution_tracked(*self, full) by {
                                assert(solution_tracked(s1, full));
                                assert(self.stack().len() == s1.stack().len() > 0);
                                assert(self.stack()[0] == s1.stack()[0]);
                                assert(node_state_consistent(self.stack()[0], full));
                                assert forall|j: int|
                                    0 <= j < self.stack().len() implies #[trigger] link_at(
                                    *self,
                                    full,
                                    j,
                                ) by {
                                    assert(link_at(s1, full, j));
                                    assert(self.stack()[j] == s1.stack()[j]);
                                    let n = self.stack()[j];
                                    let rr = n.spec_row_idx() as int;
                                    let cc = n.spec_col_idx() as int;
                                    if j < self.stack().len() - 1 {
                                        assert(self.stack()[j + 1] == s1.stack()[j + 1]);
                                    } else {
                                        if node_state_consistent(n, full) {
                                            if !(exists|i: int|
                                                0 <= i < n.spec_nums().len()
                                                    && #[trigger] n.spec_nums()[i]
                                                    == full[rr][cc]) {
                                                assert(below_board(s1, j) == s1.grid());
                                                assert(solution_consistent(
                                                    s1.grid(),
                                                    s1.table(),
                                                    full,
                                                ));
                                                lemma_consistency_pullback(
                                                    pre.grid(),
                                                    pre.table(),
                                                    s1.grid(),
                                                    s1.table(),
                                                    full,
                                                );
                                                assert(solution_consistent(
                                                    pre.grid(),
                                                    pre.table(),
                                                    full,
                                                ));
                                                assert(false);
                                            }
                                        }
                                    }
                                }
                            }
                        }
                    }
                    let ghost at_try = *self;
                    let placed = self.try_new_num();
                    if !placed {
                        proof {
                            let top = at_try.stack().last();
                            assert(top.wf());
                            assert(at_try.grid()[top.spec_row_idx() as int][top.spec_col_idx() as int]
                                == 0);
                            assert(!board_filled(at_try.grid()));
                            assert(!board_solved(self.grid()));
                            if old(self).stack().len() == 0 {
                                assert forall|full: Board|
                                    !(board_wf(full) && board_solved(full)
                                        && #[trigger] solution_consistent(
                                        old(self).grid(),
                                        old(self).table(),
                                        full,
                                    )) by {
                                    if board_wf(full) && board_solved(full)
                                        && solution_consistent(
                                        old(self).grid(),
                                        old(self).table(),
                                        full,
                                    ) {
                                        assert(solution_tracked(at_try, full));
                                    }
                                }
                            }
                        }
                        return SolveOutcome::Exhausted;
                    }
                    proof {
                        assert(at_try.stack() == pre.stack());
                        assert(solver_measure(*self) < stack_pot(pre.stack()));
                        assert(solver_measure(*self) < solver_measure(pre));
                        if old(self).stack().len() == 0 {
                            assert forall|full: Board|
                                board_wf(full) && board_solved(full)
                                    && #[trigger] solution_consistent(
                                    old(self).grid(),
                                    old(self).table(),
                                    full,
                                ) implies solution_tracked(*self, full) by {
                                assert(solution_tracked(at_try, full));
                            }
                        }
                        if board_valid(old(self).grid()) && old(self).stack().len() == 0 {
                            assert(board_valid(at_try.grid()) && (forall|j: int|
                                0 <= j < at_try.stack().len() ==> node_clean(
                                    #[trigger] at_try.stack()[j],
                                )));
                            assert(board_valid(self.grid()));
                        }
                    }
                },
                PassResult::Stagnant => {
                    if self.is_filled() {
                        proof {
                            assert(!board_solved(self.grid()));
                            if old(self).stack().len() == 0 {
                                assert forall|full: Board|
                                    !(board_wf(full) && board_solved(full)
                                        && #[trigger] solution_consistent(
                                        old(self).grid(),
                                        old(self).table(),
                                        full,
                                    )) by {
                                    if board_wf(full) && board_solved(full)
                                        && solution_consistent(
                                        old(self).grid(),
                                        old(self).table(),
                                        full,
                                    ) {
                                        if board_valid(old(self).grid()) && old(self).stack().len() == 0 {
                                            assert(board_valid(self.grid()));
                                            assert(board_solved(self.grid()));
                                        } else {
                                            lemma_invalid_no_extension(old(self).grid(), full);
                                        }
                                    }
                                }
                            }
                        }
                        return SolveOutcome::Exhausted;
                    }
                    let (r, c) = self.compute_best_bet();
                    let nums = self.candidate_list(r, c);
                    let ghost nums_view = nums@;
                    let ghost pre_push = *self;
                    let node = BacktrackNode::new(r, c, nums, self.board, self.blacklist);
                    self.backtrack_stack.push(node);
                    proof {
                        assert(self.stack() == pre_push.stack().push(node));
                        assert(node.wf());
                        assert forall|i: int| 0 <= i < self.stack().len() implies (
                        #[trigger] self.stack()[i]).wf() by {
                            if i < self.stack().len() - 1 {
                                assert(self.stack()[i] == pre_push.stack()[i]);
                            } else {
                                assert(self.stack()[i] == node);
                            }
                        }
                        assert forall|base: Board| #[trigger] extends_clues(*old(self), base)
                            implies extends_clues(*self, base) by {
                            assert(extends_clues(pre_push, base));
                            assert forall|i: int| 0 <= i < self.stack().len() implies
                                board_extends(
                                base,
                                (#[trigger] self.stack()[i]).spec_board(),
                            ) by {
                                if i < self.stack().len() - 1 {
                                    assert(self.stack()[i] == pre_push.stack()[i]);
                                } else {
                                    assert(self.stack()[i].spec_board() == pre_push.grid());
                                }
                            }
                        }
                        assert(self.grid() == self.stack().last().spec_board());
                        assert(self.table() == self.stack().last().spec_blacklist());
                        if board_valid(old(self).grid()) && old(self).stack().len() == 0 {
                            assert(board_valid(node.spec_board()));
                            assert(cell_at_fixpoint(
                                pre_push.grid(),
                                pre_push.table(),
                                r as int,
                                c as int,
                                active,
                            ));
                            assert forall|i: int| 0 <= i < node.spec_nums().len() implies
                                !in_peers(
                                node.spec_board(),
                                node.spec_row_idx() as int,
                                node.spec_col_idx() as int,
                                #[trigger] node.spec_nums()[i],
                            ) by {
                                let d = node.spec_nums()[i];
                                assert(pre_push.table()[r as int][c as int][d - 1] == 0);
                                if in_peers(node.spec_board(), r as int, c as int, d) {
                                    assert(eliminated(
                                        pre_push.table(),
                                        r as int,
                                        c as int,
                                        d as int,
                                    ));
                                }
                            }
                            assert(node_clean(node));
                            assert forall|j: int| 0 <= j < self.stack().len() implies node_clean(
                                #[trigger] self.stack()[j],
                            ) by {
                                if j < self.stack().len() - 1 {
                                    assert(self.stack()[j] == pre_push.stack()[j]);
                                } else {
                                    assert(self.stack()[j] == node);
                                }
                            }
                        }
                        if old(self).stack().len() == 0 {
                            assert forall|full: Board|
                                board_wf(full) && board_solved(full)
                                    && #[trigger] solution_consistent(
                                    old(self).grid(),
                                    old(self).table(),
                                    full,
                                ) implies solution_tracked(*self, full) by {
                                assert(solution_tracked(pre_push, full));
                                let m = pre_push.stack().len() as int;
                                assert(self.stack().len() == m + 1);
                                if m == 0 {
                                    assert(self.stack()[0] == node);
                                    assert(solution_consistent(
                                        pre_push.grid(),
                                        pre_push.table(),
                                        full,
                                    ));
                                    assert(node_state_consistent(node, full));
                                } else {
                                    assert(self.stack()[0] == pre_push.stack()[0]);
                                    assert(node_state_consistent(self.stack()[0], full));
                                }
                                assert forall|j: int|
                                    0 <= j < self.stack().len() implies #[trigger] link_at(
                                    *self,
                                    full,
                                    j,
                                ) by {
                                    let n = self.stack()[j];
                                    let rr = n.spec_row_idx() as int;
                                    let cc = n.spec_col_idx() as int;
                                    if j < m - 1 {
                                        assert(link_at(pre_push, full, j));
                                        assert(self.stack()[j] == pre_push.stack()[j]);
                                        assert(self.stack()[j + 1] == pre_push.stack()[j + 1]);
                                    } else if j == m - 1 {
                                        assert(link_at(pre_push, full, j));
                                        assert(self.stack()[j] == pre_push.stack()[j]);
                                        assert(self.stack()[j + 1] == node);
                                        assert(node.spec_board() == pre_push.grid());
                                        assert(node.spec_blacklist() == pre_push.table());
                                        assert(below_board(pre_push, j) == pre_push.grid());
                                        assert(below_table(pre_push, j) == pre_push.table());
                                    } else {
                                        if node_state_consistent(node, full) {
                                            assert(node.spec_board() == pre_push.grid());
                                            assert(node.spec_blacklist() == pre_push.table());
                                            assert(pre_push.grid()[rr][cc] == 0);
                                            assert(!eliminated(
                                                pre_push.table(),
                                                rr,
                                                cc,
                                                full[rr][cc] as int,
                                            ));
                                            assert(1 <= full[rr][cc] <= 9);
                                            assert(pre_push.table()[rr][cc][full[rr][cc] - 1]
                                                == 0);
                                            assert(nums_view.contains(full[rr][cc]));
                                            let wi = choose|i: int|
                                                0 <= i < nums_view.len() && nums_view[i]
                                                    == full[rr][cc];
                                            assert(n.spec_nums()[wi] == full[rr][cc]);
                                        }
                                    }
                                }
                            }
                        }
                    }
                    let ghost at_try = *self;
                    let placed = self.try_new_num();
                    if !placed {
                        proof {
                            assert(at_try.grid() == pre.grid());
                            assert(!board_solved(self.grid()));
                            if old(self).stack().len() == 0 {
                                assert forall|full: Board|
                                    !(board_wf(full) && board_solved(full)
                                        && #[trigger] solution_consistent(
                                        old(self).grid(),
                                        old(self).table(),
                                        full,
                                    )) by {
                                    if board_wf(full) && board_solved(full)
                                        && solution_consistent(
                                        old(self).grid(),
                                        old(self).table(),
                                        full,
                                    ) {
                                        assert(solution_tracked(at_try, full));
                                    }
                                }
                            }
                        }
                        return SolveOutcome::Exhausted;
                    }
                    proof {
                        lemma_stack_pot_push(pre_push.stack(), node);
                        let e = crate::measure::empty_cells(pre_push.grid());
                        crate::measure::lemma_empty_cells_pos(pre_push.grid(), r as int, c as int);
                        assert(node.spec_nums().len() <= 9) by {
                            crate::utils::lemma_count_match_le(
                                |x: int| pre_push.table()[r as int][c as int][x] == 0,
                                9,
                            );
                        }
                        let cost = crate::measure::guess_cost((e - 1) as nat);
                        assert(crate::measure::node_pot(node) == node.spec_nums().len() * cost);
                        assert(node.spec_nums().len() * cost <= 9 * cost) by (nonlinear_arith)
                            requires
                                node.spec_nums().len() <= 9,
                                cost >= 0,
                        ;
                        assert(crate::measure::guess_allowance(e) == 1 + 9 * cost);
                        assert(state_measure(pre_push.grid(), pre_push.table())
                            >= crate::measure::guess_allowance(e));
                        assert(solver_measure(*self) < stack_pot(at_try.stack()));
                        assert(stack_pot(at_try.stack()) == stack_pot(pre_push.stack())
                            + crate::measure::node_pot(node));
                        assert(solver_measure(*self) < solver_measure(pre));
                        if old(self).stack().len() == 0 {
                            assert forall|full: Board|
                                board_wf(full) && board_solved(full)
                                    && #[trigger] solution_consistent(
                                    old(self).grid(),
                                    old(self).table(),
                                    full,
                                ) implies solution_tracked(*self, full) by {
                                assert(solution_tracked(at_try, full));
                            }
                        }
                        if board_valid(old(self).grid()) && old(self).stack().len() == 0 {
                            assert(board_valid(at_try.grid()) && (forall|j: int|
                                0 <= j < at_try.stack().len() ==> node_clean(
                                    #[trigger] at_try.stack()[j],
                                )));
                            assert(board_valid(self.grid()));
                        }
                    }
                },
            }
        }
    }

    /// True iff the puzzle is solved: the board is completely filled and
    /// no row, column, or box holds a duplicate.
    pub fn is_solved(&self) -> (r: bool)
        ensures
            r == board_solved(self.grid()),
    {
        self.is_filled() && self.is_valid()
    }
}

} // verus!
