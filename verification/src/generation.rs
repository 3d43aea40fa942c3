//! Random generation and validation of tsumego candidates.
//!
//! A candidate board is sculpted by a random walk, filled with random
//! stones, and surrounded by attacker stones; the validator accepts it only
//! when, whoever moves first, the mover wins — a definite, non-trivial
//! outcome.  Randomness enters only through the trusted draws in
//! [`crate::rng`]; everything that is promised here holds for every outcome
//! of those draws.

use vstd::prelude::*;

use crate::bit_board::BitBoard;
use crate::bits;
use crate::bits::{cell, pcount};
use crate::board::{GoBoard, GoPlayer};
use crate::example_collector::ExampleCollector;
use crate::game::GoGame;
use crate::move_ranker::MoveRanker;
use crate::profiler::Profiler;
use crate::rng;
use crate::solver::{Puzzle, Solution};
use std::time::Duration;

verus! {

/// The four grid directions.
#[derive(Copy, Clone, Debug, PartialEq, Eq, Structural)]
pub enum BitBoardEdge {
    Top,
    Bottom,
    Left,
    Right,
}

fn edge_mask(edge: BitBoardEdge) -> (r: BitBoard)
    ensures
        r.0 == match edge {
            BitBoardEdge::Top => bits::top_row(),
            BitBoardEdge::Bottom => bits::bottom_row(),
            BitBoardEdge::Left => bits::left_col(),
            BitBoardEdge::Right => bits::right_col(),
        },
{
    match edge {
        BitBoardEdge::Top => BitBoard::top_edge(),
        BitBoardEdge::Bottom => BitBoard::bottom_edge(),
        BitBoardEdge::Left => BitBoard::left_edge(),
        BitBoardEdge::Right => BitBoard::right_edge(),
    }
}

fn opposite_edge(edge: BitBoardEdge) -> (r: BitBoardEdge)
    ensures
        r == match edge {
            BitBoardEdge::Top => BitBoardEdge::Bottom,
            BitBoardEdge::Bottom => BitBoardEdge::Top,
            BitBoardEdge::Left => BitBoardEdge::Right,
            BitBoardEdge::Right => BitBoardEdge::Left,
        },
{
    match edge {
        BitBoardEdge::Top => BitBoardEdge::Bottom,
        BitBoardEdge::Bottom => BitBoardEdge::Top,
        BitBoardEdge::Left => BitBoardEdge::Right,
        BitBoardEdge::Right => BitBoardEdge::Left,
    }
}

fn shift_towards(b: BitBoard, edge: BitBoardEdge) -> (r: BitBoard)
    ensures
        r.0 == match edge {
            BitBoardEdge::Top => bits::up(b.0),
            BitBoardEdge::Bottom => bits::down(b.0),
            BitBoardEdge::Left => bits::left(b.0),
            BitBoardEdge::Right => bits::right(b.0),
        },
{
    match edge {
        BitBoardEdge::Top => b.shift_up(),
        BitBoardEdge::Bottom => b.shift_down(),
        BitBoardEdge::Left => b.shift_left(),
        BitBoardEdge::Right => b.shift_right(),
    }
}

/// Picks an index with positive weight, each index drawn with probability
/// proportional to its weight.  The weights may not all be zero.
#[verifier::loop_isolation(false)]
fn weighted_choice(weights: &Vec<u32>) -> (r: usize)
    requires
        weights@.len() > 0,
        exists|i: int| 0 <= i < weights@.len() && weights@[i] > 0,
        spec_weight_sum(weights@, weights@.len() as int) < usize::MAX,
    ensures
        r < weights@.len(),
        weights@[r as int] > 0,
{
    let mut total: usize = 0;
    let mut i: usize = 0;
    while i < weights.len()
        invariant
            i <= weights@.len(),
            total == spec_weight_sum(weights@, i as int),
        decreases weights@.len() - i,
    {
        proof {
            lemma_weight_sum_mono(weights@, i as int + 1, weights@.len() as int);
        }
        total = total + (weights[i] as usize);
        i = i + 1;
    }
    proof {
        let w = choose|w: int| 0 <= w < weights@.len() && weights@[w] > 0;
        lemma_weight_sum_pos(weights@, w, weights@.len() as int);
    }
    proof {
        lemma_weight_sum_nonneg(weights@, weights@.len() as int);
    }
    let draw = rng::rand_below(total);
    // find the index whose cumulative range holds the draw
    let mut acc: usize = 0;
    let mut j: usize = 0;
    while j < weights.len()
        invariant
            j <= weights@.len(),
            acc == spec_weight_sum(weights@, j as int),
            acc <= draw,
            draw < spec_weight_sum(weights@, weights@.len() as int),
        decreases weights@.len() - j,
    {
        proof {
            lemma_weight_sum_nonneg(weights@, j as int);
            lemma_weight_sum_mono(weights@, j as int + 1, weights@.len() as int);
        }
        let w = weights[j];
        if draw < acc + (w as usize) {
            return j;
        }
        acc = acc + (w as usize);
        j = j + 1;
    }
    vstd::pervasive::unreached()
}

/// The total of the first `n` weights.
pub open spec fn spec_weight_sum(ws: Seq<u32>, n: int) -> int
    decreases n,
{
    if n <= 0 {
        0
    } else {
        spec_weight_sum(ws, n - 1) + ws[n - 1]
    }
}

proof fn lemma_weight_sum_nonneg(ws: Seq<u32>, n: int)
    requires
        0 <= n <= ws.len(),
    ensures
        0 <= spec_weight_sum(ws, n),
    decreases n,
{
    if n > 0 {
        lemma_weight_sum_nonneg(ws, n - 1);
    }
}

/// Prefix totals grow with the prefix.
proof fn lemma_weight_sum_mono(ws: Seq<u32>, m: int, n: int)
    requires
        0 <= m <= n <= ws.len(),
    ensures
        spec_weight_sum(ws, m) <= spec_weight_sum(ws, n),
    decreases n - m,
{
    if m < n {
        lemma_weight_sum_mono(ws, m + 1, n);
    }
}

proof fn lemma_weight_sum_pos(ws: Seq<u32>, w: int, n: int)
    requires
        0 <= w < n <= ws.len(),
        ws[w] > 0,
    ensures
        spec_weight_sum(ws, n) > 0,
    decreases n,
{
    lemma_weight_sum_nonneg(ws, n - 1);
    if w < n - 1 {
        lemma_weight_sum_pos(ws, w, n - 1);
    }
}

/// A list of small weights has a small total.
proof fn lemma_weight_sum_small(ws: Seq<u32>, n: int)
    requires
        0 <= n <= ws.len(),
        forall|q: int| 0 <= q < ws.len() ==> #[trigger] ws[q] <= 128,
    ensures
        spec_weight_sum(ws, n) <= n * 128,
    decreases n,
{
    if n > 0 {
        lemma_weight_sum_small(ws, n - 1);
    }
}

/// Sculpts a random playable region: a random walk of 10 to 29 extension
/// steps from a random seed cell, each step drawn towards a grid direction
/// with probability proportional to how many cells are available there and
/// then to a uniformly drawn cell of that direction, never extending to an
/// edge when the region already touches the opposite edge; finally every
/// fully enclosed hole is filled by keeping what is reachable from the seed
/// once the largest component of the complement is removed.  Whatever the
/// draws, the region is non-empty and forms exactly one 4-connected
/// component.
#[verifier::loop_isolation(false)]
pub fn generate_playable_area() -> (r: BitBoard)
    ensures
        r.0 != 0,
        bits::mask_groups(r.0) == seq![r.0],
{
    let column = rng::rand_below(16);
    let row = rng::rand_below(8);
    let starting_position = crate::bit_board::BoardPosition::new(column as u8, row as u8);

    let iterations = 10 + rng::rand_below(20);

    let mut playable_area = BitBoard::singleton(starting_position);
    proof {
        bits::lemma_cell_sing(starting_position.idx());
    }

    let edges = [BitBoardEdge::Top, BitBoardEdge::Bottom, BitBoardEdge::Left, BitBoardEdge::Right];

    let mut step: usize = 0;
    while step < iterations
        invariant
            cell(playable_area.0, starting_position.idx()),
        decreases iterations - step,
    {
        let mut candidates: Vec<BitBoard> = Vec::new();
        let mut weights: Vec<u32> = Vec::new();

        let mut e: usize = 0;
        while e < 4
            invariant
                e <= 4,
                candidates@.len() == e,
                weights@.len() == e,
                forall|q: int|
                    0 <= q < e ==> (#[trigger] weights@[q] > 0 ==> candidates@[q].0 != 0),
                forall|q: int| 0 <= q < e ==> #[trigger] weights@[q] <= 128,
            decreases 4 - e,
        {
            let edge = edges[e];
            let mut candidate_next_positions = shift_towards(playable_area, edge).and_not(
                playable_area,
            );
            if !(playable_area.and(edge_mask(opposite_edge(edge))).is_empty()) {
                candidate_next_positions = candidate_next_positions.and_not(edge_mask(edge));
            }
            let weight = candidate_next_positions.count();
            proof {
                bits::lemma_pcount_below_le(candidate_next_positions.0, 128);
                if weight > 0 {
                    bits::lemma_empty(candidate_next_positions.0);
                    if candidate_next_positions.0 == 0 {
                        lemma_pcount_zero();
                    }
                }
            }
            candidates.push(candidate_next_positions);
            weights.push(weight);
            e = e + 1;
        }

        let any_positive = weights[0] > 0 || weights[1] > 0 || weights[2] > 0 || weights[3]
            > 0;
        if any_positive {
            proof {
                lemma_weight_sum_small(weights@, 4);
            }
            let pick = weighted_choice(&weights);
            let chosen = candidates[pick];
            proof {
                bits::lemma_empty(0);
                bits::lemma_empty(chosen.0);
                bits::lemma_pcount_strict(0, chosen.0);
                lemma_pcount_zero();
            }
            let cells = chosen.positions();
            let drawn = rng::rand_below(cells.len());
            let next_position = cells[drawn];
            playable_area = playable_area.set(next_position);
        }
        step = step + 1;
    }

    // fill fully enclosed holes: drop the largest connected component of
    // the complement, and keep what the seed still reaches
    let complement = playable_area.invert();
    let complement_groups = complement.groups();
    let mut largest = BitBoard::empty();
    proof {
        bits::lemma_empty(0);
    }
    let mut largest_count: u32 = 0;
    let mut g: usize = 0;
    while g < complement_groups.len()
        invariant
            forall|k: u128| k < 128 ==> (#[trigger] cell(largest.0, k) ==> !cell(playable_area.0, k)),
        decreases complement_groups@.len() - g,
    {
        let group = complement_groups[g];
        let c = group.count();
        if c > largest_count {
            proof {
                bits::lemma_groups_partition(complement.0);
                bits::lemma_sub_cells(
                    complement_groups@.map_values(|b: BitBoard| b.0)[g as int],
                    complement.0,
                );
            }
            largest = group;
            largest_count = c;
        }
        g = g + 1;
    }
    let region_mask = largest.invert();
    proof {
        assert(cell(region_mask.0, starting_position.idx()));
    }
    let r = BitBoard::singleton(starting_position).flood_fill(region_mask);
    proof {
        bits::lemma_single_group(starting_position.idx(), region_mask.0);
    }
    r
}

proof fn lemma_pcount_zero()
    ensures
        pcount(0) == 0,
{
    bits::lemma_empty(0);
    bits::lemma_pcount_below_mono(0, 0, 128);
    lemma_pcount_zero_below(128);
}

proof fn lemma_pcount_zero_below(n: nat)
    ensures
        bits::pcount_below(0, n) == 0,
    decreases n,
{
    if n > 0 {
        lemma_pcount_zero_below((n - 1) as nat);
        bits::lemma_empty(0);
    }
}

/// The cells bordering a region, diagonal neighbours included.
pub open spec fn spec_boundary(region: u128) -> u128 {
    (bits::expand(region) | bits::up(bits::right(region)) | bits::down(bits::right(region))
        | bits::up(bits::left(region)) | bits::down(bits::left(region))) & !region
}

/// The cells bordering the region, diagonal neighbours included.
pub fn draw_boundary(playable_area: BitBoard) -> (r: BitBoard)
    ensures
        r.0 == spec_boundary(playable_area.0),
{
    playable_area.expand_one().or(playable_area.shift_right().shift_up()).or(
        playable_area.shift_right().shift_down(),
    ).or(playable_area.shift_left().shift_up()).or(playable_area.shift_left().shift_down()).and_not(
        playable_area,
    )
}

/// Random stones for the interior: each cell of the region independently
/// stays empty or takes a stone of a random colour.  The two returned sets
/// are disjoint and lie within the region.
#[verifier::loop_isolation(false)]
pub fn generate_interior_stones(playable_area: BitBoard) -> (r: (BitBoard, BitBoard))
    ensures
        forall|k: u128| k < 128 ==> (#[trigger] cell(r.0.0, k) ==> cell(playable_area.0, k)),
        forall|k: u128| k < 128 ==> (#[trigger] cell(r.1.0, k) ==> cell(playable_area.0, k)),
        forall|k: u128| k < 128 ==> !(#[trigger] cell(r.0.0, k) && cell(r.1.0, k)),
{
    let mut black = BitBoard::empty();
    let mut white = BitBoard::empty();
    proof {
        bits::lemma_empty(0);
    }

    let positions = playable_area.positions();
    let mut i: usize = 0;
    while i < positions.len()
        invariant
            i <= positions@.len(),
            i == 0 ==> black.0 == 0 && white.0 == 0,
            i > 0 ==> forall|k: u128|
                k < 128 && (#[trigger] cell(black.0, k) || cell(white.0, k)) ==> k
                    <= positions@[i - 1].idx(),
            forall|k: u128| k < 128 ==> (#[trigger] cell(black.0, k) ==> cell(playable_area.0, k)),
            forall|k: u128| k < 128 ==> (#[trigger] cell(white.0, k) ==> cell(playable_area.0, k)),
            forall|k: u128| k < 128 ==> !(#[trigger] cell(black.0, k) && cell(white.0, k)),
        decreases positions@.len() - i,
    {
        let position = positions[i];
        proof {
            // earlier positions are strictly smaller, so this cell is not
            // yet taken by either colour
            bits::lemma_empty(0);
            assert(!cell(black.0, position.idx()) && !cell(white.0, position.idx())) by {
                if i > 0 && (cell(black.0, position.idx()) || cell(white.0, position.idx())) {
                    assert(positions@[i - 1].0 < positions@[i as int].0);
                }
            }
        }
        let ghost pre_b = black.0;
        let ghost pre_w = white.0;
        if rng::coin() {
            if rng::coin() {
                white = white.set(position);
            } else {
                black = black.set(position);
            }
        }
        proof {
            assert forall|k: u128|
                k < 128 && (#[trigger] cell(black.0, k) || cell(white.0, k)) implies k
                <= positions@[i as int].idx() by {
                if cell(pre_b, k) || cell(pre_w, k) {
                    assert(i > 0);
                    assert(k <= positions@[i - 1].idx());
                    assert(positions@[i - 1].0 < positions@[i as int].0);
                } else {
                    assert(k == position.idx());
                }
            }
        }
        i = i + 1;
    }
    (black, white)
}

/// A random candidate board: a sculpted playable region, random interior
/// stones, and the boundary owned by a random attacker; everything outside
/// region and boundary is out of bounds.  Whatever the draws: there is a
/// connected region whose diagonal-inclusive boundary ring is wholly one
/// colour's, all stones lie on the region or its ring, and out of bounds is
/// exactly the rest of the grid.
pub fn generate_candidate() -> (r: GoBoard)
    ensures
        exists|region: u128|
            {
                &&& bits::mask_groups(region) == seq![region]
                &&& region != 0
                &&& r.oob_mask() == !(region | #[trigger] spec_boundary(region))
                &&& (bits::sub128(spec_boundary(region), r.stones_mask(GoPlayer::White))
                    || bits::sub128(spec_boundary(region), r.stones_mask(GoPlayer::Black)))
                &&& bits::sub128(r.stones_mask(GoPlayer::White), region | spec_boundary(region))
                &&& bits::sub128(r.stones_mask(GoPlayer::Black), region | spec_boundary(region))
            },
{
    let playable_area = generate_playable_area();
    let boundary = draw_boundary(playable_area);
    let out_of_bounds = playable_area.or(boundary).invert();

    let stones = generate_interior_stones(playable_area);
    let mut black = stones.0;
    let mut white = stones.1;

    let attacker = if rng::coin() {
        GoPlayer::White
    } else {
        GoPlayer::Black
    };

    match attacker {
        GoPlayer::White => {
            white = white.or(boundary);
        },
        GoPlayer::Black => {
            black = black.or(boundary);
        },
    }

    let board = GoBoard::new(black, white, out_of_bounds);
    proof {
        let region = playable_area.0;
        let ring = spec_boundary(region);
        bits::lemma_cell_not(region);
        bits::lemma_cell_and(
            bits::expand(region) | bits::up(bits::right(region)) | bits::down(bits::right(region))
                | bits::up(bits::left(region)) | bits::down(bits::left(region)),
            !region,
        );
        bits::lemma_cell_or(region, ring);
        bits::lemma_cell_not((region | ring) as u128);
        bits::lemma_cell_or(stones.0.0, ring);
        bits::lemma_cell_or(stones.1.0, ring);
        // the three sets handed to the board are pairwise disjoint
        assert forall|k: u128| k < 128 implies !(#[trigger] cell(black.0, k) && cell(white.0, k)) by {}
        assert forall|k: u128| k < 128 implies !(#[trigger] cell(black.0, k) && cell(
            out_of_bounds.0,
            k,
        )) by {}
        assert forall|k: u128| k < 128 implies !(#[trigger] cell(white.0, k) && cell(
            out_of_bounds.0,
            k,
        )) by {}
        crate::game::lemma_board_of_masks(black.0, white.0, out_of_bounds.0);
        assert(board == crate::game::board_of(black.0, white.0, out_of_bounds.0));
        bits::lemma_sub_cells(board.stones_mask(GoPlayer::White), region | ring);
        bits::lemma_sub_cells(board.stones_mask(GoPlayer::Black), region | ring);
        match attacker {
            GoPlayer::White => {
                bits::lemma_sub_cells(ring, board.stones_mask(GoPlayer::White));
            },
            GoPlayer::Black => {
                bits::lemma_sub_cells(ring, board.stones_mask(GoPlayer::Black));
            },
        }
    }
    board
}

/// A validated candidate with the winning line for each starting player.
pub struct GeneratedPuzzle<P: Profiler> {
    pub board: GoBoard,
    pub white_solution: Solution<P>,
    pub black_solution: Solution<P>,
}

impl<P: Profiler> GeneratedPuzzle<P> {
    pub fn solution_for_player(&self, player: GoPlayer) -> (r: &Solution<P>)
        ensures
            player == GoPlayer::White ==> r == &self.white_solution,
            player == GoPlayer::Black ==> r == &self.black_solution,
    {
        match player {
            GoPlayer::White => &self.white_solution,
            GoPlayer::Black => &self.black_solution,
        }
    }
}

/// Accepts a candidate board only when it has no captured groups and both
/// sides, when given the first move, win within the time budget: a puzzle
/// with a definite, non-trivial outcome.
pub fn validate_candidate<P: Profiler, E: ExampleCollector, R: MoveRanker>(
    candidate: GoBoard,
    timeout: Duration,
    example_collector: &mut E,
    move_ranker: &R,
) -> (r: Option<(Solution<P>, Solution<P>)>)
    ensures
        candidate.spec_has_dead_groups() ==> r is None,
        r is Some ==> {
            &&& !candidate.spec_has_dead_groups()
            &&& r->Some_0.0.won
            &&& r->Some_0.1.won
            &&& crate::solver::deepening_outcome_is(
                crate::solver::spec_puzzle_on(candidate, GoPlayer::White),
                true,
            )
            &&& crate::solver::deepening_outcome_is(
                crate::solver::spec_puzzle_on(candidate, GoPlayer::Black),
                true,
            )
        },
{
    if candidate.has_dead_groups() {
        return None;
    }

    let white_puzzle = Puzzle::new(GoGame::from_board(candidate, GoPlayer::White));
    proof {
        assert(white_puzzle == crate::solver::spec_puzzle_on(candidate, GoPlayer::White));
    }
    if let Some(white_solution) = white_puzzle.solve_with_timeout::<P, E, R>(
        timeout,
        example_collector,
        move_ranker,
    ) {
        let black_puzzle = Puzzle::new(GoGame::from_board(candidate, GoPlayer::Black));
        proof {
            assert(black_puzzle == crate::solver::spec_puzzle_on(candidate, GoPlayer::Black));
        }
        if let Some(black_solution) = black_puzzle.solve_with_timeout::<P, E, R>(
            timeout,
            example_collector,
            move_ranker,
        ) {
            if white_solution.won && black_solution.won {
                return Some((white_solution, black_solution));
            }
        }
    }

    None
}

/// Generates candidates until one validates, or gives up after `attempts`
/// tries.  Any returned puzzle validated: both sides win when moving first.
pub fn generate_puzzle<P: Profiler, E: ExampleCollector, R: MoveRanker>(
    timeout: Duration,
    attempts: u32,
    example_collector: &mut E,
    move_ranker: &R,
) -> (r: Option<GeneratedPuzzle<P>>)
    ensures
        r is Some ==> {
            &&& !r->Some_0.board.spec_has_dead_groups()
            &&& r->Some_0.white_solution.won
            &&& r->Some_0.black_solution.won
            &&& crate::solver::deepening_outcome_is(
                crate::solver::spec_puzzle_on(r->Some_0.board, GoPlayer::White),
                true,
            )
            &&& crate::solver::deepening_outcome_is(
                crate::solver::spec_puzzle_on(r->Some_0.board, GoPlayer::Black),
                true,
            )
        },
{
    let mut tries: u32 = 0;
    while tries < attempts
        invariant
            tries <= attempts,
        decreases attempts - tries,
    {
        let candidate = generate_candidate();
        if let Some((white_solution, black_solution)) = validate_candidate::<P, E, R>(
            candidate,
            timeout,
            example_collector,
            move_ranker,
        ) {
            return Some(GeneratedPuzzle { board: candidate, white_solution, black_solution });
        }
        tries = tries + 1;
    }
    None
}

} // verus!
