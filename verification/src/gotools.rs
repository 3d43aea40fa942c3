//! Importing puzzles given as plain stone lists, as in the GoTools
//! collection: a list of `(column, row, colour)` stones on a 19x19 board,
//! rotated if needed until it fits the 16x8 arena, with the largest empty
//! region taken as out of bounds.

use vstd::prelude::*;

use crate::bit_board::{BitBoard, BoardPosition};
use crate::bits;
use crate::bits::{mask_groups, pcount};
use crate::board::{BoardCell, GoBoard, GoPlayer};
use crate::game::{board_with, GoGame, PassState};
use crate::sgf::board_set_oob;
use crate::solver::{spec_puzzle_of, Puzzle};

verus! {

/// A batch of imported puzzles: how many records were read, and those that
/// fit the arena.
pub struct PuzzleCollection {
    pub total_puzzles: u32,
    pub valid_puzzles: Vec<Puzzle>,
}

impl PuzzleCollection {
    pub fn new() -> (r: PuzzleCollection)
        ensures
            r.total_puzzles == 0,
            r.valid_puzzles@.len() == 0,
    {
        PuzzleCollection { total_puzzles: 0, valid_puzzles: Vec::new() }
    }

    /// Folds another batch into this one, keeping its puzzles and adding its
    /// count.
    pub fn append(&mut self, other: PuzzleCollection)
        requires
            old(self).total_puzzles + other.total_puzzles <= u32::MAX,
        ensures
            final(self).total_puzzles == old(self).total_puzzles + other.total_puzzles,
            final(self).valid_puzzles@ == old(self).valid_puzzles@ + other.valid_puzzles@,
    {
        self.total_puzzles = self.total_puzzles + other.total_puzzles;
        let mut incoming = other.valid_puzzles;
        self.valid_puzzles.append(&mut incoming);
    }
}

/// Do all the stones fit a grid `x_len` wide and `y_len` high?
pub open spec fn stones_in_bounds(points: Seq<(u8, u8, GoPlayer)>, x_len: u8, y_len: u8) -> bool {
    forall|i: int| 0 <= i < points.len() ==> (#[trigger] points[i]).0 < x_len && points[i].1 < y_len
}

/// One quarter turn of a 19x19 stone set: `(x, y)` goes to `(y, 18 - x)`.
pub open spec fn spec_rotated(points: Seq<(u8, u8, GoPlayer)>) -> Seq<(u8, u8, GoPlayer)> {
    points.map_values(|p: (u8, u8, GoPlayer)| (p.1, (18 - p.0) as u8, p.2))
}

/// Rotates the stone set one quarter turn.  Every coordinate must lie on the
/// 19x19 source grid.
#[verifier::loop_isolation(false)]
pub fn rotate_stones(points: &Vec<(u8, u8, GoPlayer)>) -> (r: Vec<(u8, u8, GoPlayer)>)
    requires
        stones_in_bounds(points@, 19, 19),
    ensures
        r@ == spec_rotated(points@),
        stones_in_bounds(r@, 19, 19),
{
    let mut out: Vec<(u8, u8, GoPlayer)> = Vec::new();
    let mut i: usize = 0;
    while i < points.len()
        invariant
            i <= points@.len(),
            out@ == spec_rotated(points@).take(i as int),
        decreases points@.len() - i,
    {
        let (x, y, p) = points[i];
        out.push((y, 18 - x, p));
        proof {
            assert(out@ =~= spec_rotated(points@).take(i as int + 1));
        }
        i = i + 1;
    }
    proof {
        assert(out@ =~= spec_rotated(points@));
    }
    out
}

/// Checks that every stone fits the arena.
#[verifier::loop_isolation(false)]
pub fn check_in_bounds(points: &Vec<(u8, u8, GoPlayer)>, x_len: u8, y_len: u8) -> (r: bool)
    ensures
        r == stones_in_bounds(points@, x_len, y_len),
{
    let mut i: usize = 0;
    while i < points.len()
        invariant
            i <= points@.len(),
            forall|j: int|
                0 <= j < i ==> (#[trigger] points@[j]).0 < x_len && points@[j].1 < y_len,
        decreases points@.len() - i,
    {
        let (x, y, _) = points[i];
        if !(x < x_len && y < y_len) {
            return false;
        }
        i = i + 1;
    }
    true
}

/// The stone set after `t` quarter turns.
pub open spec fn rot_times(points: Seq<(u8, u8, GoPlayer)>, t: nat) -> Seq<(u8, u8, GoPlayer)>
    decreases t,
{
    if t == 0 {
        points
    } else {
        spec_rotated(rot_times(points, (t - 1) as nat))
    }
}

/// The board holding the listed stones, written in order over an empty
/// board (a later entry overwrites an earlier one on the same cell).
pub open spec fn spec_apply_stones(b: GoBoard, pts: Seq<(u8, u8, GoPlayer)>) -> GoBoard
    decreases pts.len(),
{
    if pts.len() == 0 {
        b
    } else {
        let (x, y, p) = pts[0];
        spec_apply_stones(board_with(b, (x + 16 * y) as u128, p), pts.drop_first())
    }
}

proof fn lemma_pcount_of_zero()
    ensures
        pcount(0) == 0,
{
    bits::lemma_empty(0);
    lemma_pcount_zero_below(128);
}

proof fn lemma_pcount_zero_below(n: nat)
    ensures
        bits::pcount_below(0, n) == 0,
    decreases n,
{
    if n > 0 {
        lemma_pcount_zero_below((n - 1) as nat);
        bits::lemma_empty(0);
    }
}

/// Builds a puzzle from a stone list on the 19x19 source grid: the set is
/// rotated by quarter turns until it fits the 16x8 arena (up to four tries,
/// else nothing), the stones are written on an empty board, and a largest
/// connected empty region becomes the out-of-bounds area.  Black moves
/// first.  The returned board holds exactly the listed stones, rotated as
/// needed, under that out-of-bounds overlay.
#[verifier::loop_isolation(false)]
pub fn puzzle_from_stones(points: &Vec<(u8, u8, GoPlayer)>) -> (r: Option<Puzzle>)
    requires
        stones_in_bounds(points@, 19, 19),
    ensures
        r is Some ==> exists|t: nat|
            t <= 3 && ({
                let pts = #[trigger] rot_times(points@, t);
                let stones_board = spec_apply_stones(
                    GoBoard { white: BitBoard(0), black: BitBoard(0) },
                    pts,
                );
                let gs = mask_groups(stones_board.empty_mask());
                &&& stones_in_bounds(pts, 16, 8)
                &&& exists|oob: u128|
                    ((oob == 0 && gs.len() == 0) || (exists|i: int|
                        0 <= i < gs.len() && #[trigger] gs[i] == oob && (forall|m: int|
                            0 <= m < gs.len() ==> pcount(#[trigger] gs[m]) <= pcount(oob))))
                        && r->Some_0 == spec_puzzle_of(
                        GoGame {
                            ko_violations: BitBoard(0),
                            board: board_set_oob(stones_board, oob),
                            current_player: GoPlayer::Black,
                            pass_state: PassState::NoPass,
                        },
                    )
            }),
{
    let mut stone_set: Vec<(u8, u8, GoPlayer)> = Vec::new();
    let mut c: usize = 0;
    while c < points.len()
        invariant
            c <= points@.len(),
            stone_set@ == points@.take(c as int),
        decreases points@.len() - c,
    {
        stone_set.push(points[c]);
        proof {
            assert(stone_set@ =~= points@.take(c as int + 1));
        }
        c = c + 1;
    }
    proof {
        assert(stone_set@ =~= points@);
    }

    let mut rotations: u8 = 0;
    while !check_in_bounds(&stone_set, 16, 8)
        invariant
            rotations <= 3,
            stones_in_bounds(stone_set@, 19, 19),
            stone_set@ == rot_times(points@, rotations as nat),
        decreases 4 - rotations,
    {
        if rotations >= 3 {
            return None;
        }
        stone_set = rotate_stones(&stone_set);
        rotations = rotations + 1;
    }
    let ghost pts = stone_set@;

    let mut board = GoBoard::empty();
    proof {
        assert(pts.skip(0) =~= pts);
        assert(board == (GoBoard { white: BitBoard(0), black: BitBoard(0) }));
    }
    let mut i: usize = 0;
    while i < stone_set.len()
        invariant
            i <= stone_set@.len(),
            stone_set@ == pts,
            stones_in_bounds(pts, 16, 8),
            spec_apply_stones(GoBoard { white: BitBoard(0), black: BitBoard(0) }, pts)
                == spec_apply_stones(board, pts.skip(i as int)),
        decreases stone_set@.len() - i,
    {
        let (x, y, player) = stone_set[i];
        proof {
            assert(pts.skip(i as int)[0] == pts[i as int]);
            assert(pts.skip(i as int).drop_first() =~= pts.skip(i as int + 1));
        }
        let pos = BoardPosition::new(x, y);
        let ghost pre = board;
        board.set_cell(pos, BoardCell::Occupied(player));
        proof {
            crate::game::lemma_set_cell_board_with(pre, board, pos.idx(), player);
            assert(pos.idx() == (x + 16 * y) as u128);
        }
        i = i + 1;
    }
    proof {
        assert(pts.skip(pts.len() as int) =~= Seq::<(u8, u8, GoPlayer)>::empty());
    }
    let ghost stones_board = board;

    let empty_groups = board.empty_cells().groups();
    let ghost gs = mask_groups(stones_board.empty_mask());
    let mut largest = BitBoard::empty();
    let mut largest_count: u32 = 0;
    proof {
        lemma_pcount_of_zero();
    }
    let mut g: usize = 0;
    while g < empty_groups.len()
        invariant
            g <= empty_groups@.len(),
            empty_groups@.map_values(|bb: BitBoard| bb.0) == gs,
            largest_count == pcount(largest.0),
            g == 0 ==> largest.0 == 0,
            g > 0 ==> exists|i: int| 0 <= i < g && #[trigger] gs[i] == largest.0,
            forall|m: int| 0 <= m < g ==> pcount(#[trigger] gs[m]) <= pcount(largest.0),
        decreases empty_groups@.len() - g,
    {
        let group = empty_groups[g];
        let c = group.count();
        proof {
            assert(group.0 == gs[g as int]);
            if g == 0 {
                bits::lemma_groups_partition(stones_board.empty_mask());
                bits::lemma_empty(0);
                bits::lemma_pcount_strict(0, gs[0]);
            }
        }
        if c > largest_count {
            largest = group;
            largest_count = c;
        }
        g = g + 1;
    }
    let ghost pre_oob = board;
    board.set_out_of_bounds(largest);
    proof {
        assert(board == board_set_oob(stones_board, largest.0));
    }

    let game = GoGame::from_board(board, GoPlayer::Black);
    let puzzle = Puzzle::new(game);
    proof {
        let t = rotations as nat;
        assert(rot_times(points@, t) == pts);
        let sb = spec_apply_stones(GoBoard { white: BitBoard(0), black: BitBoard(0) }, pts);
        assert(sb == stones_board);
        assert(puzzle == spec_puzzle_of(
            GoGame {
                ko_violations: BitBoard(0),
                board: board_set_oob(sb, largest.0),
                current_player: GoPlayer::Black,
                pass_state: PassState::NoPass,
            },
        ));
        if gs.len() == 0 {
            assert(largest.0 == 0);
        } else {
            assert(exists|i: int|
                0 <= i < gs.len() && #[trigger] gs[i] == largest.0 && (forall|m: int|
                    0 <= m < gs.len() ==> pcount(#[trigger] gs[m]) <= pcount(largest.0)));
        }
    }
    Some(puzzle)
}

} // verus!
