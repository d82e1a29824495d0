//! The 9x9 board and its structural queries: row, column and 3x3-box
//! extraction, duplicate detection, and the candidate blacklist entries.

use vstd::prelude::*;
use crate::utils::count_match;

verus! {

/// A 9x9 matrix of digit values in `0..=9`; 0 denotes an empty cell.
pub type Board = [[u8; 9]; 9];

/// For each cell, one entry per digit 1..=9: the entry at index `k`
/// is 0 while digit `k + 1` is still possible for that cell, and
/// `k + 1` once the digit has been eliminated.
pub type Blacklist = [[[u8; 9]; 9]; 9];

pub open spec fn board_wf(b: Board) -> bool {
    forall|r: int, c: int| 0 <= r < 9 && 0 <= c < 9 ==> b[r][c] <= 9
}

pub open spec fn blacklist_wf(t: Blacklist) -> bool {
    forall|r: int, c: int, k: int|
        0 <= r < 9 && 0 <= c < 9 && 0 <= k < 9 ==> (t[r][c][k] == 0 || t[r][c][k] == k + 1)
}

/// Digit `d` (1..=9) has been ruled out for the cell at `(r, c)`.
pub open spec fn eliminated(t: Blacklist, r: int, c: int, d: int) -> bool {
    t[r][c][d - 1] != 0
}

/// The 9 values of row `r`, left to right.
pub open spec fn row_seq(b: Board, r: int) -> Seq<u8> {
    Seq::new(9, |i: int| b[r][i])
}

/// The 9 values of column `c`, top to bottom.
pub open spec fn col_seq(b: Board, c: int) -> Seq<u8> {
    Seq::new(9, |i: int| b[i][c])
}

/// The 9 values of the box with box coordinates `(br, bc)` (each in 0..3),
/// in row-major order.
pub open spec fn box_seq(b: Board, br: int, bc: int) -> Seq<u8> {
    Seq::new(9, |i: int| b[br * 3 + i / 3][bc * 3 + i % 3])
}

/// No digit occurs twice among the non-zero entries of a unit.
pub open spec fn unit_no_dup(s: Seq<u8>) -> bool {
    forall|i: int, j: int| 0 <= i < j < s.len() ==> (s[i] == 0 || s[i] != s[j])
}

/// No cell holds 0.
pub open spec fn board_filled(b: Board) -> bool {
    forall|r: int, c: int| 0 <= r < 9 && 0 <= c < 9 ==> b[r][c] != 0
}

/// Every row, every column, and every box contains each digit
/// at most once among its non-zero cells.
pub open spec fn board_valid(b: Board) -> bool {
    &&& forall|r: int| 0 <= r < 9 ==> unit_no_dup(#[trigger] row_seq(b, r))
    &&& forall|c: int| 0 <= c < 9 ==> unit_no_dup(#[trigger] col_seq(b, c))
    &&& forall|br: int, bc: int| 0 <= br < 3 && 0 <= bc < 3 ==> unit_no_dup(#[trigger] box_seq(b, br, bc))
}

pub open spec fn board_solved(b: Board) -> bool {
    board_filled(b) && board_valid(b)
}

/// Digit `d` appears somewhere in row `r`.
pub open spec fn in_row(b: Board, r: int, d: u8) -> bool {
    exists|j: int| 0 <= j < 9 && b[r][j] == d
}

/// Digit `d` appears somewhere in column `c`.
pub open spec fn in_col(b: Board, c: int, d: u8) -> bool {
    exists|i: int| 0 <= i < 9 && b[i][c] == d
}

/// Digit `d` appears somewhere in the box containing the cell `(r, c)`.
pub open spec fn in_box(b: Board, r: int, c: int, d: u8) -> bool {
    exists|i: int, j: int|
        r / 3 * 3 <= i < r / 3 * 3 + 3 && c / 3 * 3 <= j < c / 3 * 3 + 3 && b[i][j] == d
}

/// Digit `d` appears in the row, the column, or the box of the cell `(r, c)`.
pub open spec fn in_peers(b: Board, r: int, c: int, d: u8) -> bool {
    in_row(b, r, d) || in_col(b, c, d) || in_box(b, r, c, d)
}

/// `b` agrees with `base` on every cell that `base` fills: the solver only
/// writes into empty cells, so every reachable board extends the clues.
pub open spec fn board_extends(base: Board, b: Board) -> bool {
    forall|r: int, c: int| 0 <= r < 9 && 0 <= c < 9 && base[r][c] != 0 ==> b[r][c] == base[r][c]
}

/// Every blacklist entry set in `t1` is still set, unchanged, in `t2`:
/// elimination only grows the blacklist.
pub open spec fn blacklist_monotone(t1: Blacklist, t2: Blacklist) -> bool {
    forall|r: int, c: int, k: int|
        0 <= r < 9 && 0 <= c < 9 && 0 <= k < 9 && t1[r][c][k] != 0 ==> t2[r][c][k] == t1[r][c][k]
}

/// Every entry newly set between `t1` and `t2` eliminates a digit that
/// actually appears among the peers of its cell on the board `b`.
pub open spec fn additions_justified(t1: Blacklist, t2: Blacklist, b: Board) -> bool {
    forall|r: int, c: int, k: int|
        0 <= r < 9 && 0 <= c < 9 && 0 <= k < 9 && t1[r][c][k] == 0 && t2[r][c][k] != 0
            ==> in_peers(b, r, c, (k + 1) as u8)
}

/// Every cell filled between `b1` and `b2` received a digit in 1..=9
/// that the blacklist `t1` still admitted for it.
pub open spec fn fills_sound(b1: Board, t1: Blacklist, b2: Board) -> bool {
    forall|r: int, c: int|
        0 <= r < 9 && 0 <= c < 9 && b1[r][c] == 0 && b2[r][c] != 0 ==> 1 <= b2[r][c] <= 9 && t1[r][c][b2[r][c]
            - 1] == 0
}

/// Number of digits still possible for the cell at `(r, c)`.
pub open spec fn cell_free_count(t: Blacklist, r: int, c: int) -> nat {
    count_match(|k: int| t[r][c][k] == 0, 9)
}

/// The unit holds the digits 1..=9 exactly: nine values, each digit
/// once and nothing else.
pub open spec fn unit_complete(s: Seq<u8>) -> bool {
    &&& s.to_multiset().len() == 9
    &&& forall|d: u8| 1 <= d <= 9 ==> s.to_multiset().count(d) == 1
    &&& forall|d: u8| (d == 0 || d > 9) ==> s.to_multiset().count(d) == 0
}

/// Nine distinct values drawn from 1..=9 are all of 1..=9, each once.
proof fn lemma_unit_complete(s: Seq<u8>)
    requires
        s.len() == 9,
        forall|i: int| 0 <= i < 9 ==> 1 <= #[trigger] s[i] <= 9,
        unit_no_dup(s),
    ensures
        unit_complete(s),
{
    broadcast use vstd::seq_lib::group_to_multiset_ensures;
    broadcast use vstd::seq_lib::seq_to_set_is_finite;

    assert(s.no_duplicates()) by {
        assert forall|i: int, j: int| 0 <= i < s.len() && 0 <= j < s.len() && i != j implies s[i]
            != s[j] by {
            if i < j {
                assert(s[i] != 0);
            } else {
                assert(s[j] != 0);
            }
        }
    }
    let si = s.map_values(|x: u8| x as int);
    assert(si.len() == 9);
    assert(forall|i: int| 0 <= i < 9 ==> #[trigger] si[i] == s[i] as int);
    assert(si.no_duplicates());
    si.unique_seq_to_set();
    vstd::set_lib::lemma_int_range(1, 10);
    assert(si.to_set().subset_of(vstd::set_lib::set_int_range(1, 10))) by {
        assert forall|x: int| si.to_set().contains(x) implies vstd::set_lib::set_int_range(
            1,
            10,
        ).contains(x) by {
            assert(si.contains(x));
            let i = choose|i: int| 0 <= i < si.len() && si[i] == x;
            assert(1 <= s[i] <= 9);
        }
    }
    vstd::set_lib::lemma_subset_equality(si.to_set(), vstd::set_lib::set_int_range(1, 10));
    s.lemma_multiset_has_no_duplicates();
    assert forall|d: u8| 1 <= d <= 9 implies s.to_multiset().count(d) == 1 by {
        assert(vstd::set_lib::set_int_range(1, 10).contains(d as int));
        assert(si.to_set().contains(d as int));
        assert(si.contains(d as int));
        let i = choose|i: int| 0 <= i < si.len() && si[i] == d as int;
        assert(s[i] == d);
        assert(s.contains(d));
        assert(s.to_multiset().count(d) > 0);
    }
    assert forall|d: u8| (d == 0 || d > 9) implies s.to_multiset().count(d) == 0 by {
        if s.to_multiset().count(d) > 0 {
            assert(s.contains(d));
            let i = choose|i: int| 0 <= i < s.len() && s[i] == d;
            assert(1 <= s[i] <= 9);
        }
    }
}

/// Law: every row, every column, and every 3x3 box of a solved board
/// holds the multiset of values {1, ..., 9} exactly.
pub proof fn lemma_solved_units_complete(b: Board)
    requires
        board_wf(b),
        board_solved(b),
    ensures
        forall|r: int| 0 <= r < 9 ==> unit_complete(#[trigger] row_seq(b, r)),
        forall|c: int| 0 <= c < 9 ==> unit_complete(#[trigger] col_seq(b, c)),
        forall|br: int, bc: int|
            0 <= br < 3 && 0 <= bc < 3 ==> unit_complete(#[trigger] box_seq(b, br, bc)),
{
    assert forall|r: int| 0 <= r < 9 implies unit_complete(#[trigger] row_seq(b, r)) by {
        lemma_unit_complete(row_seq(b, r));
    }
    assert forall|c: int| 0 <= c < 9 implies unit_complete(#[trigger] col_seq(b, c)) by {
        lemma_unit_complete(col_seq(b, c));
    }
    assert forall|br: int, bc: int| 0 <= br < 3 && 0 <= bc < 3 implies unit_complete(
        #[trigger] box_seq(b, br, bc),
    ) by {
        lemma_unit_complete(box_seq(b, br, bc));
    }
}

/// A digit present among the peers of an empty cell cannot be that
/// cell's value in any valid filled board extending the current one.
pub proof fn lemma_peer_digit_excluded(base: Board, full: Board, r: int, c: int, d: u8)
    requires
        board_extends(base, full),
        board_solved(full),
        0 <= r < 9,
        0 <= c < 9,
        base[r][c] == 0,
        d != 0,
        in_peers(base, r, c, d),
    ensures
        full[r][c] != d,
{
    if full[r][c] == d {
        if in_row(base, r, d) {
            let j = choose|j: int| 0 <= j < 9 && base[r][j] == d;
            assert(j != c);
            assert(full[r][j] == d);
            assert(row_seq(full, r)[j] == d && row_seq(full, r)[c] == d);
            assert(!unit_no_dup(row_seq(full, r)));
        } else if in_col(base, c, d) {
            let i = choose|i: int| 0 <= i < 9 && base[i][c] == d;
            assert(i != r);
            assert(full[i][c] == d);
            assert(col_seq(full, c)[i] == d && col_seq(full, c)[r] == d);
            assert(!unit_no_dup(col_seq(full, c)));
        } else {
            let br = r / 3 * 3;
            let bc = c / 3 * 3;
            let (i, j) = choose|i: int, j: int|
                br <= i < br + 3 && bc <= j < bc + 3 && base[i][j] == d;
            assert(!(i == r && j == c));
            assert(full[i][j] == d);
            let x1 = 3 * (i - br) + (j - bc);
            let x2 = 3 * (r - br) + (c - bc);
            assert(x1 / 3 == i - br && x1 % 3 == j - bc && x2 / 3 == r - br && x2 % 3 == c
                - bc) by (nonlinear_arith)
                requires
                    0 <= i - br < 3,
                    0 <= j - bc < 3,
                    0 <= r - br < 3,
                    0 <= c - bc < 3,
                    x1 == 3 * (i - br) + (j - bc),
                    x2 == 3 * (r - br) + (c - bc),
            ;
            assert(r / 3 == br / 3 && c / 3 == bc / 3) by (nonlinear_arith)
                requires
                    0 <= r < 9,
                    0 <= c < 9,
                    br == r / 3 * 3,
                    bc == c / 3 * 3,
            ;
            assert(box_seq(full, r / 3, c / 3)[x1] == d);
            assert(box_seq(full, r / 3, c / 3)[x2] == d);
            assert(x1 != x2);
            assert(!unit_no_dup(box_seq(full, r / 3, c / 3)));
        }
    }
}

/// The solved board `full` is still reachable from a board and its
/// blacklist: `full` agrees with every filled cell, and no digit that
/// `full` places in a still-empty cell has been blacklisted there.
pub open spec fn solution_consistent(g: Board, t: Blacklist, full: Board) -> bool {
    &&& board_extends(g, full)
    &&& forall|r: int, c: int|
        0 <= r < 9 && 0 <= c < 9 && g[r][c] == 0 ==> !(#[trigger] eliminated(
            t,
            r,
            c,
            full[r][c] as int,
        ))
}

/// Justified, monotone growth of the blacklist keeps every reachable
/// solution reachable: no digit a solution still needs is eliminated.
pub proof fn lemma_consistency_after_elims(g: Board, t0: Blacklist, t1: Blacklist, full: Board)
    requires
        board_wf(full),
        board_solved(full),
        solution_consistent(g, t0, full),
        blacklist_monotone(t0, t1),
        additions_justified(t0, t1, g),
    ensures
        solution_consistent(g, t1, full),
{
    assert forall|r: int, c: int| 0 <= r < 9 && 0 <= c < 9 && g[r][c] == 0 implies !(
    #[trigger] eliminated(t1, r, c, full[r][c] as int)) by {
        let d = full[r][c];
        assert(1 <= d <= 9);
        if eliminated(t1, r, c, d as int) {
            assert(!eliminated(t0, r, c, full[r][c] as int));
            assert(t0[r][c][d - 1] == 0);
            assert(in_peers(g, r, c, ((d as int - 1 + 1) as u8)));
            assert(((d as int - 1 + 1) as u8) == d);
            lemma_peer_digit_excluded(g, full, r, c, d);
        }
    }
}

/// A digit that is some row's hidden single goes into that cell in
/// every reachable solution: if `d` is not yet placed in row `r` and is
/// blacklisted in every other empty cell of the row, a solution
/// consistent with the state can only put its one `d` of that row at
/// `(r, c)`.
pub proof fn lemma_row_hidden_single_forced(
    g: Board,
    t: Blacklist,
    full: Board,
    r: int,
    c: int,
    d: u8,
)
    requires
        board_wf(full),
        board_solved(full),
        solution_consistent(g, t, full),
        0 <= r < 9,
        0 <= c < 9,
        1 <= d <= 9,
        g[r][c] == 0,
        !in_row(g, r, d),
        forall|j: int| 0 <= j < 9 && j != c && #[trigger] g[r][j] == 0 ==> eliminated(t, r, j, d as int),
    ensures
        full[r][c] == d,
{
    lemma_solved_units_complete(full);
    broadcast use vstd::seq_lib::group_to_multiset_ensures;

    assert(row_seq(full, r).to_multiset().count(d) == 1);
    assert(row_seq(full, r).contains(d));
    let j = choose|j: int| 0 <= j < row_seq(full, r).len() && row_seq(full, r)[j] == d;
    assert(full[r][j] == d);
    if j != c {
        if g[r][j] != 0 {
            assert(g[r][j] == d);
        } else {
            assert(eliminated(t, r, j, d as int));
            assert(!eliminated(t, r, j, full[r][j] as int));
        }
        assert(false);
    }
}

/// The column counterpart of the hidden-single forcing law.
pub proof fn lemma_col_hidden_single_forced(
    g: Board,
    t: Blacklist,
    full: Board,
    r: int,
    c: int,
    d: u8,
)
    requires
        board_wf(full),
        board_solved(full),
        solution_consistent(g, t, full),
        0 <= r < 9,
        0 <= c < 9,
        1 <= d <= 9,
        g[r][c] == 0,
        !in_col(g, c, d),
        forall|i: int| 0 <= i < 9 && i != r && #[trigger] g[i][c] == 0 ==> eliminated(t, i, c, d as int),
    ensures
        full[r][c] == d,
{
    lemma_solved_units_complete(full);
    broadcast use vstd::seq_lib::group_to_multiset_ensures;

    assert(col_seq(full, c).to_multiset().count(d) == 1);
    assert(col_seq(full, c).contains(d));
    let i = choose|i: int| 0 <= i < col_seq(full, c).len() && col_seq(full, c)[i] == d;
    assert(full[i][c] == d);
    if i != r {
        if g[i][c] != 0 {
            assert(g[i][c] == d);
        } else {
            assert(eliminated(t, i, c, d as int));
            assert(!eliminated(t, i, c, full[i][c] as int));
        }
        assert(false);
    }
}

/// The box counterpart of the hidden-single forcing law.
pub proof fn lemma_box_hidden_single_forced(
    g: Board,
    t: Blacklist,
    full: Board,
    r: int,
    c: int,
    d: u8,
)
    requires
        board_wf(full),
        board_solved(full),
        solution_consistent(g, t, full),
        0 <= r < 9,
        0 <= c < 9,
        1 <= d <= 9,
        g[r][c] == 0,
        !in_box(g, r, c, d),
        forall|i: int, j: int|
            r / 3 * 3 <= i < r / 3 * 3 + 3 && c / 3 * 3 <= j < c / 3 * 3 + 3 && !(i == r && j == c)
                && #[trigger] g[i][j] == 0 ==> eliminated(t, i, j, d as int),
    ensures
        full[r][c] == d,
{
    lemma_solved_units_complete(full);
    broadcast use vstd::seq_lib::group_to_multiset_ensures;

    let br = r / 3;
    let bc = c / 3;
    assert(box_seq(full, br, bc).to_multiset().count(d) == 1);
    assert(box_seq(full, br, bc).contains(d));
    let x = choose|x: int| 0 <= x < box_seq(full, br, bc).len() && box_seq(full, br, bc)[x] == d;
    let i = br * 3 + x / 3;
    let j = bc * 3 + x % 3;
    assert(full[i][j] == d);
    assert(br * 3 == r / 3 * 3 && bc * 3 == c / 3 * 3);
    assert(r / 3 * 3 <= i < r / 3 * 3 + 3 && c / 3 * 3 <= j < c / 3 * 3 + 3) by (nonlinear_arith)
        requires
            0 <= x < 9,
            i == r / 3 * 3 + x / 3,
            j == c / 3 * 3 + x % 3,
    ;
    if !(i == r && j == c) {
        if g[i][j] != 0 {
            assert(g[i][j] == d);
        } else {
            assert(eliminated(t, i, j, d as int));
            assert(!eliminated(t, i, j, full[i][j] as int));
        }
        assert(false);
    }
}

/// Placing a digit that does not yet occur in its row, its column, or
/// its box keeps the board valid: every value placed by the engine is,
/// at the moment of placement, consistent with all its filled peers.
pub proof fn lemma_place_preserves_valid(b1: Board, b2: Board, r: int, c: int, d: u8)
    requires
        board_valid(b1),
        0 <= r < 9,
        0 <= c < 9,
        d != 0,
        b1[r][c] == 0,
        b2[r][c] == d,
        forall|r2: int, c2: int|
            0 <= r2 < 9 && 0 <= c2 < 9 && !(r2 == r && c2 == c) ==> b2[r2][c2] == b1[r2][c2],
        !in_row(b1, r, d),
        !in_col(b1, c, d),
        !in_box(b1, r, c, d),
    ensures
        board_valid(b2),
{
    assert forall|r2: int| 0 <= r2 < 9 implies unit_no_dup(#[trigger] row_seq(b2, r2)) by {
        if r2 != r {
            assert(row_seq(b2, r2) =~= row_seq(b1, r2));
        } else {
            assert forall|i: int, j: int| 0 <= i < j < 9 implies (row_seq(b2, r2)[i] == 0
                || row_seq(b2, r2)[i] != row_seq(b2, r2)[j]) by {
                if i != c && j != c {
                    assert(row_seq(b1, r2)[i] == 0 || row_seq(b1, r2)[i] != row_seq(b1, r2)[j]);
                } else if i == c {
                    assert(b2[r][j] != d);
                } else {
                    assert(b2[r][i] != d);
                }
            }
        }
    }
    assert forall|c2: int| 0 <= c2 < 9 implies unit_no_dup(#[trigger] col_seq(b2, c2)) by {
        if c2 != c {
            assert(col_seq(b2, c2) =~= col_seq(b1, c2));
        } else {
            assert forall|i: int, j: int| 0 <= i < j < 9 implies (col_seq(b2, c2)[i] == 0
                || col_seq(b2, c2)[i] != col_seq(b2, c2)[j]) by {
                if i != r && j != r {
                    assert(col_seq(b1, c2)[i] == 0 || col_seq(b1, c2)[i] != col_seq(b1, c2)[j]);
                } else if i == r {
                    assert(b2[j][c] != d);
                } else {
                    assert(b2[i][c] != d);
                }
            }
        }
    }
    assert forall|br: int, bc: int| 0 <= br < 3 && 0 <= bc < 3 implies unit_no_dup(
        #[trigger] box_seq(b2, br, bc),
    ) by {
        if !(br == r / 3 && bc == c / 3) {
            assert forall|x: int| 0 <= x < 9 implies box_seq(b2, br, bc)[x] == box_seq(
                b1,
                br,
                bc,
            )[x] by {
                assert(0 <= x / 3 < 3 && 0 <= x % 3 < 3);
                assert(!(br * 3 + x / 3 == r && bc * 3 + x % 3 == c)) by (nonlinear_arith)
                    requires
                        0 <= br < 3,
                        0 <= bc < 3,
                        0 <= x < 9,
                        0 <= r < 9,
                        0 <= c < 9,
                        !(br == r / 3 && bc == c / 3),
                ;
            }
            assert(box_seq(b2, br, bc) =~= box_seq(b1, br, bc));
        } else {
            assert forall|x1: int, x2: int| 0 <= x1 < x2 < 9 implies (box_seq(b2, br, bc)[x1] == 0
                || box_seq(b2, br, bc)[x1] != box_seq(b2, br, bc)[x2]) by {
                let i1 = br * 3 + x1 / 3;
                let j1 = bc * 3 + x1 % 3;
                let i2 = br * 3 + x2 / 3;
                let j2 = bc * 3 + x2 % 3;
                assert(r / 3 * 3 <= i1 < r / 3 * 3 + 3 && c / 3 * 3 <= j1 < c / 3 * 3 + 3 && r / 3
                    * 3 <= i2 < r / 3 * 3 + 3 && c / 3 * 3 <= j2 < c / 3 * 3 + 3 && !(i1 == i2 && j1
                    == j2)) by (nonlinear_arith)
                    requires
                        br == r / 3,
                        bc == c / 3,
                        0 <= r < 9,
                        0 <= c < 9,
                        0 <= x1 < x2 < 9,
                        i1 == br * 3 + x1 / 3,
                        j1 == bc * 3 + x1 % 3,
                        i2 == br * 3 + x2 / 3,
                        j2 == bc * 3 + x2 % 3,
                ;
                if !(i1 == r && j1 == c) && !(i2 == r && j2 == c) {
                    assert(box_seq(b1, br, bc)[x1] == 0 || box_seq(b1, br, bc)[x1] != box_seq(
                        b1,
                        br,
                        bc,
                    )[x2]);
                    assert(box_seq(b2, br, bc)[x1] == box_seq(b1, br, bc)[x1]);
                    assert(box_seq(b2, br, bc)[x2] == box_seq(b1, br, bc)[x2]);
                } else if i1 == r && j1 == c {
                    assert(b2[i2][j2] != d);
                } else {
                    assert(b2[i1][j1] != d);
                }
            }
        }
    }
}

/// Reachability pulls back across a sound solver step: a solution
/// consistent with the later of two states related by justified fills
/// and monotone elimination was already consistent with the earlier.
pub proof fn lemma_consistency_pullback(
    g: Board,
    t: Blacklist,
    g2: Board,
    t2: Blacklist,
    full: Board,
)
    requires
        board_wf(full),
        board_solved(full),
        board_extends(g, g2),
        blacklist_monotone(t, t2),
        fills_sound(g, t, g2),
        solution_consistent(g2, t2, full),
    ensures
        solution_consistent(g, t, full),
{
    assert forall|r: int, c: int| 0 <= r < 9 && 0 <= c < 9 && g[r][c] == 0 implies !(
    #[trigger] eliminated(t, r, c, full[r][c] as int)) by {
        if g2[r][c] == 0 {
            assert(!eliminated(t2, r, c, full[r][c] as int));
            assert(1 <= full[r][c] <= 9);
        } else {
            assert(t[r][c][g2[r][c] - 1] == 0);
            assert(full[r][c] == g2[r][c]);
        }
    }
}

/// An invalid board has no solved extension: a duplicate among filled
/// cells persists into every extension.
pub proof fn lemma_invalid_no_extension(g: Board, full: Board)
    requires
        !board_valid(g),
        board_extends(g, full),
    ensures
        !board_valid(full),
{
    if !(forall|r: int| 0 <= r < 9 ==> unit_no_dup(#[trigger] row_seq(g, r))) {
        let r = choose|r: int| 0 <= r < 9 && !unit_no_dup(#[trigger] row_seq(g, r));
        let (i, j) = choose|i: int, j: int|
            0 <= i < j < row_seq(g, r).len() && !(row_seq(g, r)[i] == 0 || row_seq(g, r)[i]
                != row_seq(g, r)[j]);
        assert(full[r][i] == g[r][i] && full[r][j] == g[r][j]);
        assert(!(row_seq(full, r)[i] == 0 || row_seq(full, r)[i] != row_seq(full, r)[j]));
    } else if !(forall|c: int| 0 <= c < 9 ==> unit_no_dup(#[trigger] col_seq(g, c))) {
        let c = choose|c: int| 0 <= c < 9 && !unit_no_dup(#[trigger] col_seq(g, c));
        let (i, j) = choose|i: int, j: int|
            0 <= i < j < col_seq(g, c).len() && !(col_seq(g, c)[i] == 0 || col_seq(g, c)[i]
                != col_seq(g, c)[j]);
        assert(full[i][c] == g[i][c] && full[j][c] == g[j][c]);
        assert(!(col_seq(full, c)[i] == 0 || col_seq(full, c)[i] != col_seq(full, c)[j]));
    } else {
        let (br, bc) = choose|br: int, bc: int|
            0 <= br < 3 && 0 <= bc < 3 && !unit_no_dup(#[trigger] box_seq(g, br, bc));
        let (i, j) = choose|i: int, j: int|
            0 <= i < j < box_seq(g, br, bc).len() && !(box_seq(g, br, bc)[i] == 0 || box_seq(
                g,
                br,
                bc,
            )[i] != box_seq(g, br, bc)[j]);
        assert(0 <= br * 3 + i / 3 < 9 && 0 <= bc * 3 + i % 3 < 9 && 0 <= br * 3 + j / 3 < 9 && 0
            <= bc * 3 + j % 3 < 9);
        assert(full[br * 3 + i / 3][bc * 3 + i % 3] == g[br * 3 + i / 3][bc * 3 + i % 3]);
        assert(full[br * 3 + j / 3][bc * 3 + j % 3] == g[br * 3 + j / 3][bc * 3 + j % 3]);
        assert(!(box_seq(full, br, bc)[i] == 0 || box_seq(full, br, bc)[i] != box_seq(
            full,
            br,
            bc,
        )[j]));
    }
}

/// Non-zero values persist across an extension of the board.
pub proof fn lemma_peers_persist(b1: Board, b2: Board, r: int, c: int, d: u8)
    requires
        board_extends(b1, b2),
        0 <= r < 9,
        0 <= c < 9,
        d != 0,
        in_peers(b1, r, c, d),
    ensures
        in_peers(b2, r, c, d),
{
}

/// Row-major cell indices decompose uniquely into row and column.
pub proof fn lemma_rowmajor_decomp(r: int, c: int)
    requires
        0 <= r < 9,
        0 <= c < 9,
    ensures
        (9 * r + c) / 9 == r,
        (9 * r + c) % 9 == c,
{
    assert((9 * r + c) / 9 == r && (9 * r + c) % 9 == c) by (nonlinear_arith)
        requires
            0 <= r < 9,
            0 <= c < 9,
    ;
}

/// Two row-major cell indices with the same row and column are equal.
pub proof fn lemma_rowmajor_inj(i: int, j: int)
    requires
        0 <= i < 81,
        0 <= j < 81,
        i / 9 == j / 9,
        i % 9 == j % 9,
    ensures
        i == j,
{
    assert(i == 9 * (i / 9) + i % 9 && j == 9 * (j / 9) + j % 9) by (nonlinear_arith)
        requires
            0 <= i < 81,
            0 <= j < 81,
    ;
}

/// Blacklists that agree on every entry are equal.
pub proof fn lemma_blacklist_eq(t1: Blacklist, t2: Blacklist)
    requires
        forall|r: int, c: int, k: int|
            0 <= r < 9 && 0 <= c < 9 && 0 <= k < 9 ==> t1[r][c][k] == t2[r][c][k],
    ensures
        t1 == t2,
{
    assert forall|r: int, c: int| 0 <= r < 9 && 0 <= c < 9 implies t1[r][c] == t2[r][c] by {
        assert(t1[r][c] =~= t2[r][c]);
    }
    assert forall|r: int| 0 <= r < 9 implies t1[r] == t2[r] by {
        assert(t1[r] =~= t2[r]);
    }
    assert(t1 =~= t2);
}

/// The 9 values of row `r` of `b`.
pub fn row_values(b: &Board, r: usize) -> (out: [u8; 9])
    requires
        r < 9,
    ensures
        out@ == row_seq(*b, r as int),
{
    let mut out: [u8; 9] = [0u8; 9];
    let mut i: usize = 0;
    while i < 9
        invariant
            i <= 9,
            r < 9,
            forall|j: int| 0 <= j < i ==> out@[j] == b[r as int][j],
        decreases 9 - i,
    {
        out[i] = b[r][i];
        i += 1;
    }
    proof {
        assert(out@ =~= row_seq(*b, r as int));
    }
    out
}

/// The 9 values of column `c` of `b`.
pub fn col_values(b: &Board, c: usize) -> (out: [u8; 9])
    requires
        c < 9,
    ensures
        out@ == col_seq(*b, c as int),
{
    let mut out: [u8; 9] = [0u8; 9];
    let mut i: usize = 0;
    while i < 9
        invariant
            i <= 9,
            c < 9,
            forall|j: int| 0 <= j < i ==> out@[j] == b[j][c as int],
        decreases 9 - i,
    {
        out[i] = b[i][c];
        i += 1;
    }
    proof {
        assert(out@ =~= col_seq(*b, c as int));
    }
    out
}

/// The 9 values of the box containing the cell `(r, c)`, in row-major
/// order; the box origin is `(r / 3 * 3, c / 3 * 3)`.
pub fn box_values(b: &Board, r: usize, c: usize) -> (out: [u8; 9])
    requires
        r < 9,
        c < 9,
    ensures
        out@ == box_seq(*b, r as int / 3, c as int / 3),
{
    let br = r / 3;
    let bc = c / 3;
    let mut out: [u8; 9] = [0u8; 9];
    let mut i: usize = 0;
    while i < 9
        invariant
            i <= 9,
            br == r / 3 < 3,
            bc == c / 3 < 3,
            forall|j: int| 0 <= j < i ==> out@[j] == b[br as int * 3 + j / 3][bc as int * 3 + j % 3],
        decreases 9 - i,
    {
        out[i] = b[br * 3 + i / 3][bc * 3 + i % 3];
        i += 1;
    }
    proof {
        assert(out@ =~= box_seq(*b, r as int / 3, c as int / 3));
    }
    out
}

/// True iff some non-zero value occurs twice in the unit `vals`.
pub fn unit_has_conflict(vals: &[u8; 9]) -> (r: bool)
    ensures
        r == !unit_no_dup(vals@),
{
    let mut i: usize = 0;
    while i < 9
        invariant
            i <= 9,
            forall|a: int, b: int| 0 <= a < b < 9 && a < i ==> (vals@[a] == 0 || vals@[a] != vals@[b]),
        decreases 9 - i,
    {
        let mut j: usize = i + 1;
        while j < 9
            invariant
                i < 9,
                i < j <= 9,
                forall|b: int| i < b < j ==> (vals@[i as int] == 0 || vals@[i as int] != vals@[b]),
            decreases 9 - j,
        {
            if vals[i] != 0 && vals[i] == vals[j] {
                return true;
            }
            j += 1;
        }
        i += 1;
    }
    false
}

} // verus!
