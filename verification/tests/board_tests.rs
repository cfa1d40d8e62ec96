use state_space_adventure::board::{Block, Board, BoardError, Cell};
use std::hash::{Hash, Hasher};

fn block(x: usize, y: usize, width: usize, height: usize) -> Block {
    Block { color: [1, 2, 3, 4], top_left: Cell { x, y }, width, height }
}

fn colored(x: usize, y: usize, width: usize, height: usize, color: [u32; 4]) -> Block {
    Block { color, top_left: Cell { x, y }, width, height }
}

fn sample(pinned: bool) -> Board {
    Board::from_parts(3, 3, pinned, vec![block(0, 0, 1, 1), block(1, 1, 2, 1)]).unwrap()
}

fn positions(board: &Board) -> Vec<(usize, usize, usize, usize)> {
    board
        .blocks()
        .iter()
        .map(|b| (b.top_left.x, b.top_left.y, b.width, b.height))
        .collect()
}

#[test]
fn from_parts_accepts_a_valid_board() {
    let board = sample(false);
    assert_eq!(board.width(), 3);
    assert_eq!(board.height(), 3);
    assert!(!board.pinned());
    assert_eq!(positions(&board), vec![(0, 0, 1, 1), (1, 1, 2, 1)]);
    assert_eq!(board.validate(), Ok(()));
}

#[test]
fn zero_width_is_refused() {
    let r = Board::from_parts(0, 3, false, vec![]);
    assert_eq!(r.err(), Some(BoardError::ZeroDimension));
    let r = Board::from_parts(3, 0, false, vec![block(0, 0, 1, 1)]);
    assert_eq!(r.err(), Some(BoardError::ZeroDimension));
}

#[test]
fn first_block_out_of_bounds_is_reported() {
    let r = Board::from_parts(
        3,
        3,
        false,
        vec![block(0, 0, 1, 1), block(2, 0, 2, 1), block(0, 2, 1, 2)],
    );
    assert_eq!(r.err(), Some(BoardError::OutOfBounds(1)));
    let r = Board::from_parts(3, 3, false, vec![block(0, 0, 1, 1), block(0, 2, 1, 2)]);
    assert_eq!(r.err(), Some(BoardError::OutOfBounds(1)));
}

#[test]
fn bounds_are_checked_before_overlaps() {
    let r = Board::from_parts(3, 3, false, vec![block(0, 0, 2, 2), block(0, 0, 1, 1), block(5, 5, 1, 1)]);
    assert_eq!(r.err(), Some(BoardError::OutOfBounds(2)));
}

#[test]
fn first_overlapping_cell_is_reported() {
    // A horizontal bar in row 1 and a vertical bar in column 1 meet at (1, 1).
    let r = Board::from_parts(3, 3, false, vec![block(0, 1, 3, 1), block(1, 0, 1, 3)]);
    assert_eq!(r.err(), Some(BoardError::Overlap(Cell { x: 1, y: 1 })));
    // The second block is the first to meet an earlier one; its first doubly
    // covered cell in row-major order is (2, 1).
    let r = Board::from_parts(
        4,
        4,
        false,
        vec![block(2, 1, 2, 2), block(0, 0, 1, 1), block(1, 1, 2, 2)],
    );
    assert_eq!(r.err(), Some(BoardError::Overlap(Cell { x: 2, y: 1 })));
    // With two earlier blocks, the cell first in row-major order wins.
    let r = Board::from_parts(
        4,
        4,
        false,
        vec![block(3, 1, 1, 1), block(0, 2, 1, 1), block(0, 1, 4, 2)],
    );
    assert_eq!(r.err(), Some(BoardError::Overlap(Cell { x: 3, y: 1 })));
}

#[test]
fn empty_blocks_never_overlap() {
    let r = Board::from_parts(3, 3, false, vec![block(1, 1, 0, 2), block(1, 1, 1, 1)]);
    assert!(r.is_ok());
}

#[test]
fn can_move_follows_the_rules() {
    let board = sample(false);
    assert!(board.can_move(0, 1, 0));
    assert!(board.can_move(0, 0, 1));
    assert!(board.can_move(0, 2, 0));
    assert!(!board.can_move(0, -1, 0));
    assert!(!board.can_move(0, 0, -1));
    assert!(!board.can_move(0, 1, 1));
    assert!(!board.can_move(0, 3, 0));
    assert!(!board.can_move(0, 0, 3));
    assert!(!board.can_move(0, isize::MIN, 0));
    assert!(board.can_move(1, 0, -1));
    assert!(board.can_move(1, -1, 0));
    assert!(!board.can_move(1, 1, 0));
    assert!(!board.can_move(1, -2, 0));
    assert!(board.can_move(1, 0, 1));
    assert!(!board.can_move(1, 0, 2));
    assert!(!board.can_move(5, 0, 1));
}

#[test]
fn blocked_moves_are_refused() {
    // Block 0 cannot move down into block 1.
    let board = Board::from_parts(2, 2, false, vec![block(0, 0, 1, 1), block(0, 1, 2, 1)]).unwrap();
    assert!(!board.can_move(0, 0, 1));
    assert!(board.can_move(0, 1, 0));
    assert!(!board.can_move(1, 0, -1));
}

#[test]
fn pinned_board_keeps_long_blocks_on_their_axis() {
    let board = sample(true);
    // Block 1 is two cells wide: it may slide sideways but not up or down.
    assert!(board.can_move(1, -1, 0));
    assert!(!board.can_move(1, 0, -1));
    assert!(!board.can_move(1, 0, 1));
    // A one-by-one block moves freely.
    assert!(board.can_move(0, 1, 0));
    assert!(board.can_move(0, 0, 1));
}

#[test]
fn move_block_moves_or_reports() {
    let mut board = sample(false);
    assert_eq!(board.move_block(0, 0, 1), Ok(()));
    assert_eq!(positions(&board), vec![(0, 1, 1, 1), (1, 1, 2, 1)]);
    assert_eq!(board.move_block(0, 1, 0), Err(BoardError::InvalidMove(0)));
    assert_eq!(positions(&board), vec![(0, 1, 1, 1), (1, 1, 2, 1)]);
    assert_eq!(board.move_block(7, 1, 0), Err(BoardError::InvalidMove(7)));
    assert_eq!(board.validate(), Ok(()));
}

#[test]
fn a_move_can_be_undone() {
    let untouched = sample(false);
    let mut board = sample(false);
    assert_eq!(board.move_block(1, -1, 0), Ok(()));
    assert!(board != untouched);
    assert!(board.can_move(1, 1, 0));
    assert_eq!(board.move_block(1, 1, 0), Ok(()));
    assert!(board == untouched);
    assert_eq!(board.board_hash(), untouched.board_hash());
}

#[test]
fn is_solved_checks_the_target_block() {
    let board = sample(false);
    assert!(board.is_solved(1, Cell { x: 2, y: 1 }));
    assert!(board.is_solved(1, Cell { x: 1, y: 1 }));
    assert!(!board.is_solved(1, Cell { x: 0, y: 1 }));
    assert!(!board.is_solved(0, Cell { x: 1, y: 1 }));
    assert!(!board.is_solved(2, Cell { x: 0, y: 0 }));
}

#[test]
fn neighbors_lists_every_unit_move_in_order() {
    let board = sample(false);
    let n = board.neighbors();
    let moved: Vec<(usize, usize, usize, usize)> = n
        .iter()
        .map(|(b, _)| (b.top_left.x, b.top_left.y, b.width, b.height))
        .collect();
    // Block 0: down, right. Block 1: up, down, left.
    assert_eq!(
        moved,
        vec![(0, 1, 1, 1), (1, 0, 1, 1), (1, 0, 2, 1), (1, 2, 2, 1), (0, 1, 2, 1)]
    );
    assert_eq!(positions(&n[0].1), vec![(0, 1, 1, 1), (1, 1, 2, 1)]);
    assert_eq!(positions(&n[4].1), vec![(0, 0, 1, 1), (0, 1, 2, 1)]);
    for (b, next) in &n {
        assert_eq!(next.validate(), Ok(()));
        assert!(next.blocks().iter().any(|c| c == b));
    }
}

#[test]
fn neighbors_of_a_stuck_board_is_empty() {
    let board = Board::from_parts(1, 1, false, vec![block(0, 0, 1, 1)]).unwrap();
    assert!(board.neighbors().is_empty());
}

#[test]
fn block_equality_ignores_color() {
    assert!(colored(1, 2, 3, 4, [0, 0, 0, 0]) == colored(1, 2, 3, 4, [9, 9, 9, 9]));
    assert!(colored(1, 2, 3, 4, [0, 0, 0, 0]) != colored(1, 2, 3, 5, [0, 0, 0, 0]));
}

#[test]
fn board_hash_ignores_block_order_and_color() {
    let a = Board::from_parts(3, 3, false, vec![block(0, 0, 1, 1), block(1, 1, 2, 1)]).unwrap();
    let b = Board::from_parts(
        3,
        3,
        false,
        vec![colored(1, 1, 2, 1, [7, 7, 7, 7]), colored(0, 0, 1, 1, [8, 8, 8, 8])],
    )
    .unwrap();
    assert_eq!(a.board_hash(), b.board_hash());
    assert_eq!(a.board_hash(), a.clone().board_hash());
}

#[test]
fn board_hash_tells_positions_apart() {
    let a = Board::from_parts(3, 3, false, vec![block(0, 0, 1, 1)]).unwrap();
    let b = Board::from_parts(3, 3, false, vec![block(1, 0, 1, 1)]).unwrap();
    let c = Board::from_parts(3, 3, false, vec![block(0, 1, 1, 1)]).unwrap();
    assert_ne!(a.board_hash(), b.board_hash());
    assert_ne!(a.board_hash(), c.board_hash());
    assert_ne!(b.board_hash(), c.board_hash());
}

#[test]
fn board_hash_matches_the_std_hasher() {
    let board = Board::from_parts(3, 3, false, vec![block(1, 1, 2, 1), block(0, 0, 1, 1)]).unwrap();
    let mut h = std::collections::hash_map::DefaultHasher::new();
    for k in [(0usize, 0usize, 1usize, 1usize), (1, 1, 2, 1)] {
        k.0.hash(&mut h);
        k.1.hash(&mut h);
        k.2.hash(&mut h);
        k.3.hash(&mut h);
    }
    assert_eq!(board.board_hash(), h.finish());
}

#[test]
fn moved_shifts_the_top_left_cell() {
    let b = block(1, 1, 2, 1);
    let m = b.moved(-1, 0).unwrap();
    assert_eq!((m.top_left.x, m.top_left.y, m.width, m.height), (0, 1, 2, 1));
    assert_eq!(m.color, b.color);
    assert!(b.moved(-2, 0).is_none());
    assert!(b.moved(0, -2).is_none());
    assert!(block(isize::MAX as usize, 0, 1, 1).moved(1, 0).is_none());
}

#[test]
fn overlaps_tests_shared_cells() {
    assert!(block(0, 0, 2, 2).overlaps(&block(1, 1, 2, 2)));
    assert!(!block(0, 0, 2, 2).overlaps(&block(2, 0, 1, 1)));
    assert!(!block(0, 0, 0, 2).overlaps(&block(0, 0, 1, 1)));
    assert!(block(usize::MAX - 1, 0, 1, 1).overlaps(&block(0, 0, usize::MAX, 1)));
}

#[test]
fn a_block_cannot_jump_over_another() {
    let board = Board::from_parts(3, 1, false, vec![block(0, 0, 1, 1), block(1, 0, 1, 1)]).unwrap();
    assert!(!board.can_move(0, 1, 0));
    assert!(!board.can_move(0, 2, 0));
    let mut jumped = board.clone();
    assert_eq!(jumped.move_block(0, 2, 0), Err(BoardError::InvalidMove(0)));
    // With the way clear, a two-cell slide is allowed.
    let clear = Board::from_parts(3, 1, false, vec![block(0, 0, 1, 1)]).unwrap();
    assert!(clear.can_move(0, 2, 0));
    assert!(clear.can_move(0, 1, 0));
    let back = Board::from_parts(3, 1, false, vec![block(2, 0, 1, 1), block(0, 0, 1, 1)]).unwrap();
    assert!(!back.can_move(0, -2, 0));
}
