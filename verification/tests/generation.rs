use tsumego_solver::board::GoPlayer;
use tsumego_solver::generation::{draw_boundary, generate_candidate, generate_playable_area};
use tsumego_solver::gotools::{puzzle_from_stones, PuzzleCollection};

#[test]
fn playable_areas_are_never_empty() {
    for _ in 0..25 {
        let area = generate_playable_area();
        assert!(!area.is_empty());
    }
}

#[test]
fn boundaries_surround_without_overlapping() {
    for _ in 0..10 {
        let area = generate_playable_area();
        let boundary = draw_boundary(area);
        assert!(boundary.and(area).is_empty());
        // every cell of the region expanded one step is in region or boundary
        assert!(area.expand_one().and_not(area.or(boundary)).is_empty());
    }
}

#[test]
fn candidates_have_disjoint_stone_sets() {
    for _ in 0..10 {
        let candidate = generate_candidate();
        let black = candidate.get_bitboard_for_player(GoPlayer::Black);
        let white = candidate.get_bitboard_for_player(GoPlayer::White);
        assert!(black.and(white).is_empty());
        assert!(black.and(candidate.out_of_bounds()).is_empty());
        assert!(white.and(candidate.out_of_bounds()).is_empty());
    }
}

#[test]
fn puzzle_collections_accumulate() {
    let mut all = PuzzleCollection::new();
    let mut one = PuzzleCollection::new();
    one.total_puzzles = 3;
    all.append(one);
    let mut two = PuzzleCollection::new();
    two.total_puzzles = 4;
    all.append(two);
    assert_eq!(all.total_puzzles, 7);
    assert_eq!(all.valid_puzzles.len(), 0);
}

#[test]
fn stone_lists_import_with_rotation() {
    // a stone outside the 16-column arena forces a quarter turn
    let points = vec![
        (17u8, 2u8, GoPlayer::Black),
        (16, 3, GoPlayer::White),
        (15, 2, GoPlayer::Black),
    ];
    let puzzle = puzzle_from_stones(&points);
    assert!(puzzle.is_some());
}
