use tsumego_solver::bit_board::{BitBoard, BoardPosition};
use tsumego_solver::board::{BoardCell, GoBoard, GoPlayer};
use tsumego_solver::game::GoGame;

fn walled_corner_with_stones() -> GoBoard {
    let mut playable = BitBoard::empty();
    for x in 0u8..5 {
        for y in 0u8..3 {
            playable = playable.set(BoardPosition::new(x, y));
        }
    }
    let mut wall = BitBoard::empty();
    for y in 0u8..4 {
        wall = wall.set(BoardPosition::new(5, y));
    }
    for x in 0u8..5 {
        wall = wall.set(BoardPosition::new(x, 3));
    }
    let oob = playable.or(wall).invert();
    let mut board = GoBoard::new(BitBoard::empty(), wall, oob);
    board.set_cell(BoardPosition::new(1, 1), BoardCell::Occupied(GoPlayer::Black));
    board.set_cell(BoardPosition::new(2, 0), BoardCell::Occupied(GoPlayer::Black));
    board
}

#[test]
fn sgf_round_trip_recovers_the_board() {
    let board = walled_corner_with_stones();
    let text = board.to_sgf();
    let game = GoGame::from_sgf(&text, GoPlayer::Black).unwrap();

    assert_eq!(game.board, board);
    assert_eq!(game.current_player, GoPlayer::Black);
}

#[test]
fn from_sgf_rejects_garbage() {
    assert!(GoGame::from_sgf("this is not an sgf record", GoPlayer::Black).is_none());
}

#[test]
fn from_sgf_replays_moves() {
    // one black setup stone, then a white capture of it
    let text = "(;AB[aa];W[ba];B[cc];W[ab])";
    let game = GoGame::from_sgf(text, GoPlayer::White).unwrap();

    // (0, 0) was captured by the two white stones
    assert_eq!(game.get_cell(BoardPosition::new(0, 0)), BoardCell::Empty);
    assert_eq!(
        game.get_cell(BoardPosition::new(1, 0)),
        BoardCell::Occupied(GoPlayer::White)
    );
    assert_eq!(
        game.get_cell(BoardPosition::new(0, 1)),
        BoardCell::Occupied(GoPlayer::White)
    );
}
