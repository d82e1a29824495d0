//! Choice points for the backtracking controller: one speculative guess
//! site, the digits not yet tried there, and a full snapshot of the board
//! and the candidate blacklist taken before the first guess at that cell.

use vstd::prelude::*;
use crate::grid::{Blacklist, Board, blacklist_wf, board_wf};

verus! {

/// One active speculative guess. Choice points live on an ordered stack:
/// the first is the earliest guess still in force, the last the most
/// recent. A choice point owns deep copies of the board and the blacklist,
/// so restoring it can never be corrupted by mutations made under a
/// deeper guess.
pub struct BacktrackNode {
    cell_row_idx: usize,
    cell_col_idx: usize,
    possible_numbers: Vec<u8>,
    initial_board: Board,
    initial_blacklist: Blacklist,
}

impl BacktrackNode {
    /// Row index of the guess cell.
    pub closed spec fn spec_row_idx(self) -> usize {
        self.cell_row_idx
    }

    /// Column index of the guess cell.
    pub closed spec fn spec_col_idx(self) -> usize {
        self.cell_col_idx
    }

    /// The digits not yet tried at the guess cell, in trial order
    /// (the next digit to try is the last element).
    pub closed spec fn spec_nums(self) -> Seq<u8> {
        self.possible_numbers@
    }

    /// The board snapshot taken when this choice point was created.
    pub closed spec fn spec_board(self) -> Board {
        self.initial_board
    }

    /// The blacklist snapshot taken when this choice point was created.
    pub closed spec fn spec_blacklist(self) -> Blacklist {
        self.initial_blacklist
    }

    /// A usable choice point: the guess cell is in range and empty in the
    /// snapshot, the snapshot itself is well formed, and every untried
    /// digit is in 1..=9.
    pub open spec fn wf(self) -> bool {
        &&& self.spec_row_idx() < 9
        &&& self.spec_col_idx() < 9
        &&& board_wf(self.spec_board())
        &&& blacklist_wf(self.spec_blacklist())
        &&& self.spec_board()[self.spec_row_idx() as int][self.spec_col_idx() as int] == 0
        &&& forall|i: int| 0 <= i < self.spec_nums().len() ==> 1 <= #[trigger] self.spec_nums()[i] <= 9
    }

    /// Creates a choice point for the cell `(cell_row_idx, cell_col_idx)`,
    /// with `possible_numbers` as the digits to try and deep copies of the
    /// given board and blacklist as the state to restore on undo.
    pub fn new(
        cell_row_idx: usize,
        cell_col_idx: usize,
        possible_numbers: Vec<u8>,
        initial_board: Board,
        initial_blacklist: Blacklist,
    ) -> (node: Self)
        ensures
            node.spec_row_idx() == cell_row_idx,
            node.spec_col_idx() == cell_col_idx,
            node.spec_nums() == possible_numbers@,
            node.spec_board() == initial_board,
            node.spec_blacklist() == initial_blacklist,
    {
        Self { cell_row_idx, cell_col_idx, possible_numbers, initial_board, initial_blacklist }
    }

    /// Removes and returns the next untried digit, or 0 once every digit
    /// has been tried. The guess site and the snapshots are untouched.
    pub fn pop_next(&mut self) -> (num: u8)
        ensures
            old(self).spec_nums().len() == 0 ==> num == 0 && final(self).spec_nums()
                == old(self).spec_nums(),
            old(self).spec_nums().len() > 0 ==> num == old(self).spec_nums().last()
                && final(self).spec_nums() == old(self).spec_nums().drop_last(),
            final(self).spec_row_idx() == old(self).spec_row_idx(),
            final(self).spec_col_idx() == old(self).spec_col_idx(),
            final(self).spec_board() == old(self).spec_board(),
            final(self).spec_blacklist() == old(self).spec_blacklist(),
    {
        match self.possible_numbers.pop() {
            None => 0,
            Some(i) => i,
        }
    }

    /// Row index of the guess cell.
    pub fn row_idx(&self) -> (r: usize)
        ensures
            r == self.spec_row_idx(),
    {
        self.cell_row_idx
    }

    /// Column index of the guess cell.
    pub fn col_idx(&self) -> (c: usize)
        ensures
            c == self.spec_col_idx(),
    {
        self.cell_col_idx
    }

    /// The board snapshot held by this choice point.
    pub fn board(&self) -> (b: Board)
        ensures
            b == self.spec_board(),
    {
        self.initial_board
    }

    /// The blacklist snapshot held by this choice point.
    pub fn blacklist(&self) -> (t: Blacklist)
        ensures
            t == self.spec_blacklist(),
    {
        self.initial_blacklist
    }
}

} // verus!
