use tsumego_solver::bit_board::{BitBoard, BoardPosition};
use tsumego_solver::board::{BoardCell, GoBoard, GoPlayer};
use tsumego_solver::game::{GoGame, Move, MoveError, PassState};

fn board_with_stones(black: &[(u8, u8)], white: &[(u8, u8)]) -> GoBoard {
    let mut board = GoBoard::empty();
    for &(x, y) in black {
        board.set_cell(BoardPosition::new(x, y), BoardCell::Occupied(GoPlayer::Black));
    }
    for &(x, y) in white {
        board.set_cell(BoardPosition::new(x, y), BoardCell::Occupied(GoPlayer::White));
    }
    board
}

/// A position where black has just captured a single white stone at (2, 2)
/// by playing (2, 1): retaking at (2, 2) is forbidden by ko.
fn ko_position() -> GoGame {
    let board = board_with_stones(
        &[(1, 2), (3, 2), (2, 3)],
        &[(2, 2), (1, 1), (3, 1), (2, 0)],
    );
    let game = GoGame::from_board(board, GoPlayer::Black);
    game.place_stone(BoardPosition::new(2, 1)).unwrap()
}

#[test]
fn can_add_stone() {
    let game = GoGame::empty(GoPlayer::Black);
    let game = game
        .play_move_for_player(Move::Place(BoardPosition::new(0, 0)), GoPlayer::Black)
        .unwrap();

    assert_eq!(
        game.get_cell(BoardPosition::new(0, 0)),
        BoardCell::Occupied(GoPlayer::Black)
    );
}

#[test]
fn previous_board_is_not_mutated() {
    let old_game = GoGame::empty(GoPlayer::Black);
    let new_game = old_game
        .play_move_for_player(Move::Place(BoardPosition::new(0, 0)), GoPlayer::Black)
        .unwrap();

    assert_ne!(
        old_game.get_cell(BoardPosition::new(0, 0)),
        new_game.get_cell(BoardPosition::new(0, 0))
    );
}

#[test]
fn current_player_starts_as_specified() {
    let game = GoGame::empty(GoPlayer::Black);

    assert_eq!(game.current_player, GoPlayer::Black);
}

#[test]
fn player_advances_when_playing_move() {
    let game = GoGame::empty(GoPlayer::Black)
        .place_stone(BoardPosition::new(0, 0))
        .unwrap();

    assert_eq!(game.current_player, GoPlayer::White);
}

#[test]
fn cannot_play_move_out_of_turn() {
    let result = GoGame::empty(GoPlayer::Black)
        .play_move_for_player(Move::Place(BoardPosition::new(0, 0)), GoPlayer::White);

    assert_eq!(result, Err(MoveError::OutOfTurn));
}

#[test]
fn cannot_play_in_occupied_space() {
    let game = GoGame::empty(GoPlayer::Black)
        .place_stone(BoardPosition::new(0, 0))
        .unwrap();
    let result = game.place_stone(BoardPosition::new(0, 0));

    assert_eq!(result, Err(MoveError::Occupied));
}

#[test]
fn single_groups_are_captured() {
    let board = board_with_stones(&[(0, 0)], &[(0, 1)]);
    let game = GoGame::from_board(board, GoPlayer::White);
    let game = game.place_stone(BoardPosition::new(1, 0)).unwrap();

    assert_eq!(game.get_cell(BoardPosition::new(0, 0)), BoardCell::Empty);
}

#[test]
fn complex_groups_are_captured() {
    let board = board_with_stones(
        &[
            (1, 1),
            (3, 1),
            (5, 1),
            (6, 1),
            (7, 2),
            (3, 3),
            (5, 3),
            (6, 3),
            (12, 3),
            (4, 4),
            (3, 5),
            (10, 2),
            (9, 3),
            (10, 3),
            (10, 4),
            (9, 5),
            (10, 5),
            (11, 5),
        ],
        &[
            (7, 1),
            (8, 1),
            (10, 1),
            (8, 2),
            (9, 2),
            (11, 2),
            (13, 2),
            (8, 3),
            (11, 3),
            (8, 4),
            (9, 4),
            (11, 4),
            (6, 5),
            (8, 5),
            (12, 5),
            (9, 6),
            (10, 6),
        ],
    );
    let game = GoGame::from_board(board, GoPlayer::White);
    let game = game.place_stone(BoardPosition::new(11, 6)).unwrap();

    assert_eq!(
        game.board.render(),
        ". . . . . . . . . . . . . . . .\n\
         . b . b . b b w w . w . . . . .\n\
         . . . . . . . b w w . w . w . .\n\
         . . . b . b b . w . . w b . . .\n\
         . . . . b . . . w w . w . . . .\n\
         . . . b . . w . w . . . w . . .\n\
         . . . . . . . . . w w w . . . .\n\
         . . . . . . . . . . . . . . . .\n"
    );
}

#[test]
fn capturing_has_precedence_over_suicide() {
    let board = board_with_stones(&[(1, 0)], &[(2, 0), (1, 1)]);
    let game = GoGame::from_board(board, GoPlayer::White);
    let game = game.place_stone(BoardPosition::new(0, 0)).unwrap();

    assert_eq!(game.get_cell(BoardPosition::new(1, 0)), BoardCell::Empty);
}

#[test]
fn cannot_commit_suicide() {
    let board = board_with_stones(&[], &[(1, 0), (0, 1)]);
    let game = GoGame::from_board(board, GoPlayer::Black);
    let result = game.place_stone(BoardPosition::new(0, 0));

    assert_eq!(result, Err(MoveError::Suicidal));
}

#[test]
fn ko_rule_simple() {
    let game = ko_position();
    let result = game.place_stone(BoardPosition::new(2, 2));

    assert_eq!(result, Err(MoveError::Ko));
}

#[test]
fn capture_two_recapture_one_not_ko_violation() {
    let board = board_with_stones(&[(0, 0), (1, 1), (2, 1)], &[(1, 0), (2, 0)]);
    let game = GoGame::from_board(board, GoPlayer::Black);
    let game = game.place_stone(BoardPosition::new(3, 0)).unwrap();

    game.place_stone(BoardPosition::new(2, 0)).unwrap();
}

#[test]
fn capturing_single_and_joining_group_does_not_trigger_ko() {
    let board = board_with_stones(
        &[(0, 0), (1, 0), (0, 2)],
        &[(0, 1), (2, 0), (2, 1), (1, 2)],
    );
    let game = GoGame::from_board(board, GoPlayer::Black);
    let game = game.place_stone(BoardPosition::new(1, 1)).unwrap();

    let result = game.place_stone(BoardPosition::new(0, 1));

    assert!(result.is_ok());
}

#[test]
fn out_of_bounds_moves_are_not_generated() {
    let mut playable = BitBoard::empty();
    for &(x, y) in &[(0u8, 0u8), (1, 0), (2, 0), (0, 1), (1, 1)] {
        playable = playable.set(BoardPosition::new(x, y));
    }
    let board = GoBoard::new(BitBoard::empty(), BitBoard::empty(), playable.invert());
    let game = GoGame::from_board(board, GoPlayer::Black);
    let moves = game.generate_moves();

    assert_eq!(moves.len(), 6);
}

#[test]
fn cannot_play_out_of_bounds() {
    let mut playable = BitBoard::empty();
    for &(x, y) in &[(0u8, 0u8), (1, 0), (2, 0), (0, 1), (1, 1)] {
        playable = playable.set(BoardPosition::new(x, y));
    }
    let board = GoBoard::new(BitBoard::empty(), BitBoard::empty(), playable.invert());
    let game = GoGame::from_board(board, GoPlayer::Black);

    assert_eq!(
        game.place_stone(BoardPosition::new(10, 5)),
        Err(MoveError::OutOfBounds)
    );
}

#[test]
fn pass_sets_last_move_pass() {
    let game = ko_position();
    let game = game.pass();

    assert_eq!(game.pass_state, PassState::PassedOnce);
}

#[test]
fn move_clears_last_move_pass() {
    let game = ko_position();
    let game = game.pass();
    let game = game.place_stone(BoardPosition::new(13, 7)).unwrap();

    assert_eq!(game.pass_state, PassState::NoPass);
}

#[test]
fn pass_advances_player() {
    let game = ko_position();
    let new_game = game.pass();

    assert_ne!(game.current_player, new_game.current_player);
}

#[test]
fn has_dead_groups_black() {
    let mut game = GoBoard::empty();
    game.set_cell(
        BoardPosition::new(0, 0),
        BoardCell::Occupied(GoPlayer::Black),
    );
    game.set_cell(
        BoardPosition::new(0, 1),
        BoardCell::Occupied(GoPlayer::White),
    );
    game.set_cell(
        BoardPosition::new(1, 0),
        BoardCell::Occupied(GoPlayer::White),
    );

    assert!(game.has_dead_groups());
}

#[test]
fn has_dead_groups_white() {
    let mut game = GoBoard::empty();
    game.set_cell(
        BoardPosition::new(0, 0),
        BoardCell::Occupied(GoPlayer::White),
    );
    game.set_cell(
        BoardPosition::new(0, 1),
        BoardCell::Occupied(GoPlayer::Black),
    );
    game.set_cell(
        BoardPosition::new(1, 0),
        BoardCell::Occupied(GoPlayer::Black),
    );

    assert!(game.has_dead_groups());
}

#[test]
fn has_dead_groups_false() {
    let mut game = GoBoard::empty();
    game.set_cell(
        BoardPosition::new(0, 1),
        BoardCell::Occupied(GoPlayer::White),
    );
    game.set_cell(
        BoardPosition::new(1, 0),
        BoardCell::Occupied(GoPlayer::White),
    );

    assert!(!game.has_dead_groups());
}

#[test]
fn hashing_is_stable() {
    assert_eq!(GoBoard::empty().stable_hash(), 13284472273662876477);
}
