//! Termination measure for the solver loop.
//!
//! Every step of the solver either makes propagation progress (fills a
//! cell or eliminates a candidate), consumes an untried guess from a
//! choice point, or discards an exhausted choice point. The potential
//! defined here — a weight for each untried guess that dominates the
//! whole exploration budget of the state it would create, plus a small
//! term for propagation progress — strictly decreases on each of these
//! steps, which bounds the whole search.

use vstd::prelude::*;
use crate::backtracking::BacktrackNode;
use crate::grid::{Blacklist, Board};
use crate::utils::{
    count_match, lemma_count_match_flip, lemma_count_match_le, lemma_count_match_pos,
    lemma_count_match_same, lemma_sum_over_bound, lemma_sum_over_drop, lemma_sum_over_same,
    sum_over,
};

verus! {

/// Number of empty cells of the board.
pub open spec fn empty_cells(b: Board) -> nat {
    count_match(|i: int| b[i / 9][i % 9] == 0, 81)
}

/// Number of digits still possible for the cell with row-major index
/// `i`; `free_flags` below is the total over the whole blacklist.
pub open spec fn cell_free_in_order(t: Blacklist, i: int) -> nat {
    count_match(|k: int| t[i / 9][i % 9][k] == 0, 9)
}

/// Total number of blacklist entries still unset.
pub open spec fn free_flags(t: Blacklist) -> nat {
    sum_over(|i: int| cell_free_in_order(t, i), 81)
}

/// Exploration allowance of a state with `e` empty cells: enough budget
/// to pay for a guess at one cell (at most 9 candidates, each leading to
/// a state with `e - 1` empty cells) and everything under it.
pub open spec fn guess_allowance(e: nat) -> nat
    decreases e,
{
    if e == 0 {
        1
    } else {
        1 + 9 * (100000 + guess_allowance((e - 1) as nat))
    }
}

/// Cost of one untried candidate of a choice point whose guess leads to
/// a state with `e` empty cells: propagation budget plus the allowance
/// for further guesses below it.
pub open spec fn guess_cost(e: nat) -> nat {
    100000 + guess_allowance(e)
}

/// Propagation-plus-guess budget of a board and blacklist.
pub open spec fn state_measure(b: Board, t: Blacklist) -> nat {
    empty_cells(b) * 730 + free_flags(t) + guess_allowance(empty_cells(b))
}

/// Budget held by one choice point: one guess cost for each digit not
/// yet tried there.
pub open spec fn node_pot(n: BacktrackNode) -> nat {
    n.spec_nums().len() * guess_cost((empty_cells(n.spec_board()) - 1) as nat)
}

/// Budget held by a whole choice stack.
pub open spec fn stack_pot(s: Seq<BacktrackNode>) -> nat
    decreases s.len(),
{
    if s.len() == 0 {
        0
    } else {
        stack_pot(s.drop_last()) + node_pot(s.last())
    }
}

pub proof fn lemma_empty_cells_le(b: Board)
    ensures
        empty_cells(b) <= 81,
{
    lemma_count_match_le(|i: int| b[i / 9][i % 9] == 0, 81);
}

pub proof fn lemma_free_flags_le(t: Blacklist)
    ensures
        free_flags(t) <= 729,
{
    assert forall|i: int| 0 <= i < 81 implies #[trigger] cell_free_in_order(t, i) <= 9 by {
        lemma_count_match_le(|k: int| t[i / 9][i % 9][k] == 0, 9);
    }
    lemma_sum_over_bound(|i: int| cell_free_in_order(t, i), 9, 81);
}

pub proof fn lemma_empty_cells_pos(b: Board, r: int, c: int)
    requires
        0 <= r < 9,
        0 <= c < 9,
        b[r][c] == 0,
    ensures
        empty_cells(b) >= 1,
{
    let j = 9 * r + c;
    assert(j / 9 == r && j % 9 == c) by (nonlinear_arith)
        requires
            0 <= r < 9,
            0 <= c < 9,
            j == 9 * r + c,
    ;
    lemma_count_match_pos(|i: int| b[i / 9][i % 9] == 0, j, 81);
}

/// Boards that agree on every cell except `(r, c)`, which goes from
/// empty to filled, have empty-cell counts one apart.
pub proof fn lemma_empty_cells_fill(b1: Board, b2: Board, r: int, c: int)
    requires
        0 <= r < 9,
        0 <= c < 9,
        b1[r][c] == 0,
        b2[r][c] != 0,
        forall|r2: int, c2: int|
            0 <= r2 < 9 && 0 <= c2 < 9 && !(r2 == r && c2 == c) ==> b1[r2][c2] == b2[r2][c2],
    ensures
        empty_cells(b2) + 1 == empty_cells(b1),
{
    let f = |i: int| b1[i / 9][i % 9] == 0;
    let g = |i: int| b2[i / 9][i % 9] == 0;
    let j = 9 * r + c;
    assert(j / 9 == r && j % 9 == c) by (nonlinear_arith)
        requires
            0 <= r < 9,
            0 <= c < 9,
            j == 9 * r + c,
    ;
    assert forall|i: int| 0 <= i < 81 && i != j implies #[trigger] f(i) == g(i) by {
        assert(i == 9 * (i / 9) + i % 9 && 0 <= i % 9 < 9 && 0 <= i / 9 < 9) by (nonlinear_arith)
            requires
                0 <= i < 81,
        ;
        assert(!(i / 9 == r && i % 9 == c));
    }
    lemma_count_match_flip(f, g, j, 81);
}

/// Blacklists that agree everywhere except at `(r, c, k)`, where a free
/// entry becomes set, have free-flag totals one apart.
pub proof fn lemma_free_flags_set(t1: Blacklist, t2: Blacklist, r: int, c: int, k: int)
    requires
        0 <= r < 9,
        0 <= c < 9,
        0 <= k < 9,
        t1[r][c][k] == 0,
        t2[r][c][k] != 0,
        forall|r2: int, c2: int, k2: int|
            0 <= r2 < 9 && 0 <= c2 < 9 && 0 <= k2 < 9 && !(r2 == r && c2 == c && k2 == k)
                ==> t1[r2][c2][k2] == t2[r2][c2][k2],
    ensures
        free_flags(t2) + 1 == free_flags(t1),
{
    let f = |i: int| cell_free_in_order(t1, i);
    let g = |i: int| cell_free_in_order(t2, i);
    let j = 9 * r + c;
    assert(j / 9 == r && j % 9 == c) by (nonlinear_arith)
        requires
            0 <= r < 9,
            0 <= c < 9,
            j == 9 * r + c,
    ;
    assert forall|i: int| 0 <= i < 81 && i != j implies #[trigger] f(i) == g(i) by {
        assert(i == 9 * (i / 9) + i % 9 && 0 <= i % 9 < 9 && 0 <= i / 9 < 9) by (nonlinear_arith)
            requires
                0 <= i < 81,
        ;
        assert(!(i / 9 == r && i % 9 == c));
        lemma_count_match_same(
            |k2: int| t1[i / 9][i % 9][k2] == 0,
            |k2: int| t2[i / 9][i % 9][k2] == 0,
            9,
        );
    }
    assert(g(j) + 1 == f(j)) by {
        lemma_count_match_flip(
            |k2: int| t1[r][c][k2] == 0,
            |k2: int| t2[r][c][k2] == 0,
            k,
            9,
        );
    }
    lemma_sum_over_drop(f, g, j, 81);
}

/// Filling one empty cell strictly lowers the state measure.
pub proof fn lemma_fill_measure(b1: Board, b2: Board, t: Blacklist, r: int, c: int)
    requires
        0 <= r < 9,
        0 <= c < 9,
        b1[r][c] == 0,
        b2[r][c] != 0,
        forall|r2: int, c2: int|
            0 <= r2 < 9 && 0 <= c2 < 9 && !(r2 == r && c2 == c) ==> b1[r2][c2] == b2[r2][c2],
    ensures
        state_measure(b2, t) < state_measure(b1, t),
{
    lemma_empty_cells_fill(b1, b2, r, c);
    lemma_guess_allowance_mono(empty_cells(b2), empty_cells(b1));
}

/// Setting one free blacklist entry strictly lowers the state measure.
pub proof fn lemma_elim_measure(b: Board, t1: Blacklist, t2: Blacklist, r: int, c: int, k: int)
    requires
        0 <= r < 9,
        0 <= c < 9,
        0 <= k < 9,
        t1[r][c][k] == 0,
        t2[r][c][k] != 0,
        forall|r2: int, c2: int, k2: int|
            0 <= r2 < 9 && 0 <= c2 < 9 && 0 <= k2 < 9 && !(r2 == r && c2 == c && k2 == k)
                ==> t1[r2][c2][k2] == t2[r2][c2][k2],
    ensures
        state_measure(b, t2) < state_measure(b, t1),
{
    lemma_free_flags_set(t1, t2, r, c, k);
}

/// The allowance grows with the number of empty cells.
pub proof fn lemma_guess_allowance_mono(e1: nat, e2: nat)
    requires
        e1 <= e2,
    ensures
        guess_allowance(e1) <= guess_allowance(e2),
    decreases e2,
{
    if e1 < e2 {
        lemma_guess_allowance_mono(e1, (e2 - 1) as nat);
    }
}

pub proof fn lemma_stack_pot_push(s: Seq<BacktrackNode>, n: BacktrackNode)
    ensures
        stack_pot(s.push(n)) == stack_pot(s) + node_pot(n),
{
    assert(s.push(n).drop_last() =~= s);
    assert(s.push(n).last() == n);
}

/// A prefix of a stack holds at most the whole stack's budget.
pub proof fn lemma_stack_pot_prefix(s: Seq<BacktrackNode>, n: int)
    requires
        0 <= n <= s.len(),
    ensures
        stack_pot(s.subrange(0, n)) <= stack_pot(s),
    decreases s.len() - n,
{
    if n == s.len() {
        assert(s.subrange(0, n) =~= s);
    } else {
        let shorter = s.drop_last();
        assert(s.subrange(0, n) =~= shorter.subrange(0, n));
        lemma_stack_pot_prefix(shorter, n);
    }
}

/// Consuming one untried digit of the top choice point and placing it
/// on that choice point's snapshot strictly lowers the total potential:
/// the whole remaining state measure of the new board is paid for by
/// the one guess cost that the choice point gave up.
pub proof fn lemma_try_place_bound(
    popped: Seq<BacktrackNode>,
    node0: BacktrackNode,
    node1: BacktrackNode,
    b2: Board,
)
    requires
        node0.wf(),
        node1.spec_board() == node0.spec_board(),
        node1.spec_nums() == node0.spec_nums().drop_last(),
        node0.spec_nums().len() > 0,
        b2[node0.spec_row_idx() as int][node0.spec_col_idx() as int] != 0,
        forall|r: int, c: int|
            0 <= r < 9 && 0 <= c < 9 && !(r == node0.spec_row_idx() && c == node0.spec_col_idx())
                ==> b2[r][c] == node0.spec_board()[r][c],
    ensures
        stack_pot(popped.push(node1)) + state_measure(b2, node0.spec_blacklist()) < stack_pot(
            popped.push(node0),
        ),
{
    let row = node0.spec_row_idx() as int;
    let col = node0.spec_col_idx() as int;
    let e = empty_cells(node0.spec_board());
    let f = free_flags(node0.spec_blacklist());
    let u = node0.spec_nums().len();
    lemma_empty_cells_pos(node0.spec_board(), row, col);
    lemma_empty_cells_le(node0.spec_board());
    lemma_empty_cells_fill(node0.spec_board(), b2, row, col);
    lemma_free_flags_le(node0.spec_blacklist());
    lemma_stack_pot_push(popped, node0);
    lemma_stack_pot_push(popped, node1);
    let cost = guess_cost((e - 1) as nat);
    assert(node_pot(node0) == u * cost);
    assert(node_pot(node1) == (u - 1) * cost);
    assert((u - 1) * cost + cost == u * cost) by (nonlinear_arith)
        requires
            u >= 1,
    ;
    assert(empty_cells(b2) == e - 1);
    assert(state_measure(b2, node0.spec_blacklist()) == (e - 1) * 730 + f + guess_allowance(
        (e - 1) as nat,
    ));
    assert((e - 1) * 730 + f < 100000) by (nonlinear_arith)
        requires
            1 <= e <= 81,
            0 <= f <= 729,
    ;
}

} // verus!
