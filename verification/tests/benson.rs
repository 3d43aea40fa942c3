use tsumego_solver::bit_board::{BitBoard, BoardPosition};
use tsumego_solver::board::{BoardCell, GoBoard, GoPlayer};

fn stones(points: &[(u8, u8)]) -> BitBoard {
    let mut board = BitBoard::empty();
    for &(x, y) in points {
        board = board.set(BoardPosition::new(x, y));
    }
    board
}

fn board_with_stones(black: &[(u8, u8)], white: &[(u8, u8)]) -> GoBoard {
    let mut board = GoBoard::empty();
    for &(x, y) in black {
        board.set_cell(BoardPosition::new(x, y), BoardCell::Occupied(GoPlayer::Black));
    }
    for &(x, y) in white {
        board.set_cell(BoardPosition::new(x, y), BoardCell::Occupied(GoPlayer::White));
    }
    board
}

/// The 5x3 top-left block with two one-cell eyes at (1, 1) and (3, 1): a
/// shape that is unconditionally alive by Benson's test.
fn two_eye_block() -> Vec<(u8, u8)> {
    let mut cells = Vec::new();
    for x in 0u8..5 {
        for y in 0u8..3 {
            if !((x == 1 && y == 1) || (x == 3 && y == 1)) {
                cells.push((x, y));
            }
        }
    }
    cells
}

#[test]
fn small_black_enclosed_regions() {
    // a black corner wall enclosing the single point (0, 0); the rest of the
    // board is one open region with empty interior cells
    let board = board_with_stones(&[(1, 0), (0, 1), (1, 1)], &[]);

    let answer = stones(&[(0, 0)]);

    assert_eq!(board.small_x_enclosed_regions(GoPlayer::Black), answer);
}

#[test]
fn all_alive1() {
    let cells = two_eye_block();
    let board = board_with_stones(&[], &cells);

    assert_eq!(
        board.unconditionally_alive_blocks_for_player(GoPlayer::White),
        board.get_bitboard_for_player(GoPlayer::White)
    );
}

#[test]
fn all_dead1() {
    // a single white group with a single eye space cannot be alive
    let board = board_with_stones(&[], &[(5, 5)]);

    assert_eq!(board.unconditionally_alive_blocks(), GoBoard::empty());
}

#[test]
fn mixture() {
    // a living two-eye white block in the corner, one dead white stone and
    // one dead black stone elsewhere
    let alive_cells = two_eye_block();
    let mut white = alive_cells.clone();
    white.push((10, 5));
    let board = board_with_stones(&[(12, 6)], &white);

    let answer = GoBoard::new(BitBoard::empty(), stones(&alive_cells), BitBoard::empty());

    assert_eq!(board.unconditionally_alive_blocks(), answer);
}
