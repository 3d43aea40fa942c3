use std::sync::mpsc::channel;
use std::time::Duration;
use tsumego_solver::bit_board::{BitBoard, BoardPosition};
use tsumego_solver::example_collector::encode_example;
use tsumego_solver::generation::validate_candidate;
use tsumego_solver::board::{BoardCell, GoBoard, GoPlayer};
use tsumego_solver::example_collector::{ChannelExampleCollector, ExampleCollector, NullExampleCollector};
use tsumego_solver::game::{GoGame, MoveError};
use tsumego_solver::move_ranker::LinearMoveRanker;
use tsumego_solver::profiler::{NoProfile, Profile, Profiler};
use tsumego_solver::solver::Puzzle;
use tsumego_solver::terminal::is_terminal;

fn mask(points: &[(u8, u8)]) -> BitBoard {
    let mut board = BitBoard::empty();
    for &(x, y) in points {
        board = board.set(BoardPosition::new(x, y));
    }
    board
}

/// A corner arena `width` columns wide and `height` rows high, with an
/// attacker wall around it owned by `attacker`, everything else out of
/// bounds; `defender_stones` go inside the arena.
fn walled_corner(
    width: u8,
    height: u8,
    attacker: GoPlayer,
    defender_stones: &[(u8, u8)],
) -> GoBoard {
    let mut playable = BitBoard::empty();
    for x in 0..width {
        for y in 0..height {
            playable = playable.set(BoardPosition::new(x, y));
        }
    }
    let mut wall = BitBoard::empty();
    for y in 0..(height + 1) {
        wall = wall.set(BoardPosition::new(width, y));
    }
    for x in 0..width {
        wall = wall.set(BoardPosition::new(x, height));
    }
    let oob = playable.or(wall).invert();
    let defender = match attacker {
        GoPlayer::White => GoPlayer::Black,
        GoPlayer::Black => GoPlayer::White,
    };
    let inside = mask(defender_stones);
    match attacker {
        GoPlayer::White => GoBoard::new(inside, wall, oob),
        GoPlayer::Black => GoBoard::new(wall, inside, oob),
    }
}

#[test]
fn simple_capture() {
    let mut board = GoBoard::empty();
    board.set_cell(BoardPosition::new(0, 0), BoardCell::Occupied(GoPlayer::Black));
    board.set_cell(BoardPosition::new(1, 0), BoardCell::Occupied(GoPlayer::White));
    board.set_cell(BoardPosition::new(0, 1), BoardCell::Occupied(GoPlayer::White));

    board.remove_dead_groups_for_player(GoPlayer::Black);

    assert_eq!(
        board.get_cell(BoardPosition::new(0, 0)),
        BoardCell::Empty
    );
}

#[test]
fn ko_forbids_immediate_recapture() {
    // black has just captured a single white stone at (2, 2) by playing the
    // isolated stone (2, 1)
    let mut board = GoBoard::empty();
    for &(x, y) in &[(1u8, 2u8), (3, 2), (2, 3)] {
        board.set_cell(BoardPosition::new(x, y), BoardCell::Occupied(GoPlayer::Black));
    }
    for &(x, y) in &[(2u8, 2u8), (1, 1), (3, 1), (2, 0)] {
        board.set_cell(BoardPosition::new(x, y), BoardCell::Occupied(GoPlayer::White));
    }
    let game = GoGame::from_board(board, GoPlayer::Black);
    let game = game.place_stone(BoardPosition::new(2, 1)).unwrap();

    assert_eq!(
        game.place_stone(BoardPosition::new(2, 2)),
        Err(MoveError::Ko)
    );

    // any other legal move clears the ko marker in the successor
    let other = game.place_stone(BoardPosition::new(13, 7)).unwrap();
    assert!(other.ko_violations.is_empty());
}

#[test]
fn two_stone_capture_then_recapture_is_not_ko() {
    let mut board = GoBoard::empty();
    for &(x, y) in &[(0u8, 0u8), (1, 1), (2, 1)] {
        board.set_cell(BoardPosition::new(x, y), BoardCell::Occupied(GoPlayer::Black));
    }
    for &(x, y) in &[(1u8, 0u8), (2, 0)] {
        board.set_cell(BoardPosition::new(x, y), BoardCell::Occupied(GoPlayer::White));
    }
    let game = GoGame::from_board(board, GoPlayer::Black);
    // black captures the two white stones with a single move
    let game = game.place_stone(BoardPosition::new(3, 0)).unwrap();

    // white may play straight back into the emptied space
    assert!(game.place_stone(BoardPosition::new(2, 0)).is_ok());
}

#[test]
fn suicidal_play_is_rejected() {
    let mut board = GoBoard::empty();
    board.set_cell(BoardPosition::new(1, 0), BoardCell::Occupied(GoPlayer::White));
    board.set_cell(BoardPosition::new(0, 1), BoardCell::Occupied(GoPlayer::White));
    let game = GoGame::from_board(board, GoPlayer::Black);

    assert_eq!(
        game.place_stone(BoardPosition::new(0, 0)),
        Err(MoveError::Suicidal)
    );
}

#[test]
fn benson_two_eye_group_is_alive() {
    // a walled-in defender block with two separated one-cell eyes
    let mut defender_cells = Vec::new();
    for x in 0u8..5 {
        for y in 0u8..3 {
            if !((x == 1 && y == 1) || (x == 3 && y == 1)) {
                defender_cells.push((x, y));
            }
        }
    }
    let board = walled_corner(5, 3, GoPlayer::White, &defender_cells);

    assert_eq!(
        board.unconditionally_alive_blocks_for_player(GoPlayer::Black),
        board.get_bitboard_for_player(GoPlayer::Black)
    );
}

#[test]
fn terminal_dead_shape() {
    // a 2x1 playable region with no defender stones: the defender cannot
    // make two eyes, so the position is terminal and the attacker wins
    let playable = mask(&[(0, 0), (1, 0)]);
    let board = GoBoard::new(BitBoard::empty(), BitBoard::empty(), playable.invert());
    let game = GoGame::from_board(board, GoPlayer::Black);
    let puzzle = Puzzle::new(game);

    assert_eq!(puzzle.attacker, GoPlayer::Black);
    assert_eq!(
        is_terminal(game, puzzle.player, puzzle.attacker),
        Some(true)
    );
}

#[test]
fn won_puzzle_with_alive_defender() {
    // the defender already owns an unconditionally alive two-eye group, so
    // the solve is settled at the root in the defender's favour
    let mut defender_cells = Vec::new();
    for x in 0u8..5 {
        for y in 0u8..3 {
            if !((x == 1 && y == 1) || (x == 3 && y == 1)) {
                defender_cells.push((x, y));
            }
        }
    }
    let board = walled_corner(5, 3, GoPlayer::White, &defender_cells);
    let game = GoGame::from_board(board, GoPlayer::Black);
    let puzzle = Puzzle::new(game);
    assert_eq!(puzzle.attacker, GoPlayer::White);

    let solution = puzzle
        .solve::<Profile, _, _>(&mut NullExampleCollector, &LinearMoveRanker)
        .unwrap();

    assert!(solution.won);
    assert!(solution.principle_variation.len() <= 2);
    assert!(solution.profiler.visited_nodes <= 10);
}

#[test]
fn kill_in_walled_arena() {
    // a medium problem: a 4x3 arena with no defender stones; the attacker,
    // moving first, can always prevent two eyes, and finding the win takes
    // a real search
    let board = walled_corner(4, 3, GoPlayer::White, &[]);
    let game = GoGame::from_board(board, GoPlayer::White);
    let puzzle = Puzzle::new(game);
    assert_eq!(puzzle.attacker, GoPlayer::White);

    let solution = puzzle
        .solve::<Profile, _, _>(&mut NullExampleCollector, &LinearMoveRanker)
        .unwrap();

    assert!(solution.won);
    assert!((4..=6).contains(&solution.principle_variation.len()));
    assert!((500..=5000).contains(&solution.profiler.visited_nodes));

    // the principal variation is a legal line of play from the start
    let mut replay = puzzle.game;
    for &m in &solution.principle_variation {
        replay = replay.play_move(m).unwrap();
    }
}

#[test]
fn validated_puzzles_have_definite_outcomes() {
    // the walled two-eye defender block: the defender always wins, so the
    // candidate is rejected (no definite outcome for the attacker)
    let mut defender_cells = Vec::new();
    for x in 0u8..5 {
        for y in 0u8..3 {
            if !((x == 1 && y == 1) || (x == 3 && y == 1)) {
                defender_cells.push((x, y));
            }
        }
    }
    let board = walled_corner(5, 3, GoPlayer::White, &defender_cells);
    let rejected = validate_candidate::<NoProfile, _, _>(
        board,
        Duration::from_secs(5),
        &mut NullExampleCollector,
        &LinearMoveRanker,
    );
    assert!(rejected.is_none());
}

#[test]
fn example_record_layout() {
    let mut board = GoBoard::empty();
    board.set_cell(BoardPosition::new(0, 0), BoardCell::Occupied(GoPlayer::Black));
    board.set_cell(BoardPosition::new(1, 0), BoardCell::Occupied(GoPlayer::White));
    let game = GoGame::from_board(board, GoPlayer::Black);

    let bytes = encode_example(&game, GoPlayer::Black);
    assert_eq!(bytes.len(), 49);
    // black stone at (0, 0) is the highest bit of the first plane
    assert_eq!(bytes[0], 0x80);
    // white stone at (1, 0) is the next bit, in the second plane
    assert_eq!(bytes[16], 0x40);
    // no out-of-bounds region: the playable plane is all ones
    assert!(bytes[32..48].iter().all(|&b| b == 0xFF));
    // the side to move won
    assert_eq!(bytes[48], 1);
}

#[test]
fn double_pass_ends_the_game() {
    // after two sequential passes the defender wins exactly when defender
    // stones remain on the board
    let playable = mask(&[(0, 0), (1, 0), (1, 1)]);
    let mut board = GoBoard::new(BitBoard::empty(), BitBoard::empty(), playable.invert());
    board.set_cell(BoardPosition::new(1, 1), BoardCell::Occupied(GoPlayer::White));
    let game = GoGame::from_board(board, GoPlayer::Black);
    let ended = game.pass().pass();

    // the white stone borders the out-of-bounds area, so white attacks and
    // black defends
    let puzzle = Puzzle::new(GoGame::from_board(board, GoPlayer::Black));
    assert_eq!(puzzle.attacker, GoPlayer::White);

    // the defender has no stones left, so the defender loses
    assert_eq!(is_terminal(ended, GoPlayer::Black, puzzle.attacker), Some(false));
    assert_eq!(is_terminal(ended, GoPlayer::White, puzzle.attacker), Some(true));
}

#[test]
fn channel_collector_ships_examples() {
    let (tx, rx) = channel();
    let mut collector = ChannelExampleCollector::new(tx);
    let game = GoGame::empty(GoPlayer::Black);
    collector.collect_example(game, GoPlayer::Black);
    let (node, winner) = rx.recv().unwrap();
    assert_eq!(winner, GoPlayer::Black);
    assert_eq!(node.current_player, GoPlayer::Black);
}

#[test]
fn timed_solve_agrees_with_untimed() {
    let board = walled_corner(4, 3, GoPlayer::White, &[]);
    let puzzle = Puzzle::new(GoGame::from_board(board, GoPlayer::White));

    let untimed = puzzle
        .solve::<NoProfile, _, _>(&mut NullExampleCollector, &LinearMoveRanker)
        .unwrap();
    let timed = puzzle.solve_with_timeout::<NoProfile, _, _>(
        Duration::from_secs(30),
        &mut NullExampleCollector,
        &LinearMoveRanker,
    );

    if let Some(t) = timed {
        assert_eq!(t.won, untimed.won);
    }
}

#[test]
fn profile_counts_nodes() {
    let mut profile = Profile::new();
    profile.visit_node();
    profile.visit_node();
    assert_eq!(profile.visited_nodes, 2);
}
