use sudoku_solver::backtracking::BacktrackNode;
use sudoku_solver::utils::has_duplicates;

#[test]
fn node_remembers_its_cell_and_snapshots() {
    let mut board = [[0u8; 9]; 9];
    board[2][7] = 4;
    let mut blacklist = [[[0u8; 9]; 9]; 9];
    blacklist[1][1][3] = 4;
    let node = BacktrackNode::new(2, 7, vec![1, 5, 9], board, blacklist);
    assert_eq!(node.row_idx(), 2);
    assert_eq!(node.col_idx(), 7);
    assert_eq!(node.board(), board);
    assert_eq!(node.blacklist(), blacklist);
}

#[test]
fn snapshot_survives_mutation_of_the_originals() {
    // The round trip at the heart of undo: a choice point owns deep
    // copies, so mutating the live state afterwards cannot corrupt what
    // a restore will hand back.
    let mut board = [[0u8; 9]; 9];
    board[0][0] = 8;
    let mut blacklist = [[[0u8; 9]; 9]; 9];
    blacklist[4][4][0] = 1;
    let node = BacktrackNode::new(0, 1, vec![2], board, blacklist);
    let board_before = board;
    let blacklist_before = blacklist;
    board[0][0] = 3;
    board[5][5] = 7;
    blacklist[4][4][0] = 0;
    blacklist[0][0][8] = 9;
    assert_eq!(node.board(), board_before);
    assert_eq!(node.blacklist(), blacklist_before);
    assert_ne!(node.board(), board);
}

#[test]
fn pop_next_hands_out_digits_from_the_back_then_zero() {
    let board = [[0u8; 9]; 9];
    let blacklist = [[[0u8; 9]; 9]; 9];
    let mut node = BacktrackNode::new(3, 3, vec![2, 6, 7], board, blacklist);
    assert_eq!(node.pop_next(), 7);
    assert_eq!(node.pop_next(), 6);
    assert_eq!(node.pop_next(), 2);
    // Exhausted: 0 signals that no digit is left to try.
    assert_eq!(node.pop_next(), 0);
    assert_eq!(node.pop_next(), 0);
}

#[test]
fn has_duplicates_detects_repeats_only() {
    assert!(!has_duplicates(&[]));
    assert!(!has_duplicates(&[3]));
    assert!(!has_duplicates(&[1, 2, 3, 4, 5, 6, 7, 8, 9]));
    assert!(has_duplicates(&[1, 2, 3, 4, 5, 6, 7, 8, 1]));
    assert!(has_duplicates(&[0, 0]));
    assert!(has_duplicates(&[9, 9, 9]));
    assert!(!has_duplicates(&[0, 1]));
}
