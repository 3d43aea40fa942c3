use tsumego_solver::bit_board::{BitBoard, BoardPosition};
use tsumego_solver::board::{BoardCell, GoBoard, GoPlayer};
use tsumego_solver::game::GoGame;

fn mask(points: &[(u8, u8)]) -> BitBoard {
    let mut board = BitBoard::empty();
    for &(x, y) in points {
        board = board.set(BoardPosition::new(x, y));
    }
    board
}

#[test]
fn flood_fill_is_idempotent() {
    let board = mask(&[(3, 3), (4, 3), (4, 4), (9, 1)]);
    let seed = BitBoard::singleton(BoardPosition::new(4, 3));

    let once = seed.flood_fill(board);
    let twice = once.flood_fill(board);

    assert_eq!(once, twice);
    assert_eq!(once, mask(&[(3, 3), (4, 3), (4, 4)]));
}

#[test]
fn groups_partition_the_board() {
    let board = mask(&[(0, 0), (1, 0), (5, 5), (5, 6), (6, 5), (12, 7)]);
    let groups = board.groups();

    let mut union = BitBoard::empty();
    for g in &groups {
        assert!(union.and(*g).is_empty());
        assert!(!g.is_empty());
        union = union.or(*g);
    }
    assert_eq!(union, board);
    assert_eq!(groups.len(), 3);
}

#[test]
fn game_boards_produced_by_play_have_no_dead_groups() {
    // a capture in the corner: the successor board holds no liberty-less
    // group
    let mut board = GoBoard::empty();
    board.set_cell(BoardPosition::new(0, 0), BoardCell::Occupied(GoPlayer::Black));
    board.set_cell(BoardPosition::new(0, 1), BoardCell::Occupied(GoPlayer::White));
    let game = GoGame::from_board(board, GoPlayer::White);
    let game = game.place_stone(BoardPosition::new(1, 0)).unwrap();

    assert!(!game.board.has_dead_groups());
}

#[test]
fn ko_marker_is_empty_on_the_board() {
    let mut board = GoBoard::empty();
    for &(x, y) in &[(1u8, 2u8), (3, 2), (2, 3)] {
        board.set_cell(BoardPosition::new(x, y), BoardCell::Occupied(GoPlayer::Black));
    }
    for &(x, y) in &[(2u8, 2u8), (1, 1), (3, 1), (2, 0)] {
        board.set_cell(BoardPosition::new(x, y), BoardCell::Occupied(GoPlayer::White));
    }
    let game = GoGame::from_board(board, GoPlayer::Black);
    let game = game.place_stone(BoardPosition::new(2, 1)).unwrap();

    assert_eq!(game.ko_violations.count(), 1);
    let ko_cell = game.ko_violations.some_cell();
    assert_eq!(game.get_cell(ko_cell), BoardCell::Empty);
}

#[test]
fn pass_is_always_generated() {
    let game = GoGame::empty(GoPlayer::Black);
    let moves = game.generate_moves();
    assert!(moves.len() >= 1);

    // on a full board with no legal placement, the pass alone remains
    let full = GoBoard::new(BitBoard::empty(), BitBoard::empty(), BitBoard::empty().invert());
    let shut = GoGame::from_board(full, GoPlayer::Black);
    assert_eq!(shut.generate_moves().len(), 1);
}

#[test]
fn benson_blocks_are_a_subset_of_the_stones() {
    let mut board = GoBoard::empty();
    for x in 0u8..5 {
        for y in 0u8..3 {
            if !((x == 1 && y == 1) || (x == 3 && y == 1)) {
                board.set_cell(BoardPosition::new(x, y), BoardCell::Occupied(GoPlayer::White));
            }
        }
    }
    board.set_cell(BoardPosition::new(9, 6), BoardCell::Occupied(GoPlayer::White));

    let alive = board.unconditionally_alive_blocks_for_player(GoPlayer::White);
    let stones = board.get_bitboard_for_player(GoPlayer::White);
    assert!(alive.and_not(stones).is_empty());
}
