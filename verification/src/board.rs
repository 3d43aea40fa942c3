//! The Go board: two bitboards, one per colour, over the 16x8 arena.
//!
//! A cell set in both colour boards is *out of bounds*: not playable, never
//! a liberty source by itself, but counted together with empty cells as the
//! space around which outside groups are assumed to live on.

use vstd::prelude::*;

use crate::bit_board::{BitBoard, BoardPosition};
use crate::bits;
use crate::bits::{cell, ff, sing};
use crate::strutil::push_char;
use std::collections::hash_map::DefaultHasher;
use std::hash::Hasher;
use vstd::std_specs::hash::DefaultHasherAdditionalSpecFns;

verus! {

#[derive(Copy, Clone, Debug, PartialEq, Eq, Structural, Hash)]
pub enum GoPlayer {
    Black,
    White,
}

impl GoPlayer {
    /// The opposite colour.
    pub open spec fn spec_flip(self) -> GoPlayer {
        match self {
            GoPlayer::Black => GoPlayer::White,
            GoPlayer::White => GoPlayer::Black,
        }
    }

    pub fn flip(self) -> (r: GoPlayer)
        ensures
            r == self.spec_flip(),
    {
        match self {
            GoPlayer::Black => GoPlayer::White,
            GoPlayer::White => GoPlayer::Black,
        }
    }

    /// Both colours, black first.
    pub fn both() -> (r: Vec<GoPlayer>)
        ensures
            r@.len() == 2,
            r@[0] == GoPlayer::Black,
            r@[1] == GoPlayer::White,
    {
        let mut v = Vec::new();
        v.push(GoPlayer::Black);
        v.push(GoPlayer::White);
        v
    }
}

#[derive(Copy, Clone, Debug, PartialEq, Eq, Structural)]
pub enum BoardCell {
    Empty,
    OutOfBounds,
    Occupied(GoPlayer),
}

/// A cell set in both `black` and `white` denotes "out of bounds".
#[derive(Copy, Clone, Debug, PartialEq, Eq, Structural, Hash)]
pub struct GoBoard {
    pub white: BitBoard,
    pub black: BitBoard,
}

impl GoBoard {
    /// The raw word holding a colour's bits (out-of-bounds cells included).
    pub open spec fn raw(self, player: GoPlayer) -> u128 {
        match player {
            GoPlayer::Black => self.black.0,
            GoPlayer::White => self.white.0,
        }
    }

    /// The out-of-bounds cells.
    pub open spec fn oob_mask(self) -> u128 {
        self.white.0 & self.black.0
    }

    /// The cells holding a stone of `player`.
    pub open spec fn stones_mask(self, player: GoPlayer) -> u128 {
        match player {
            GoPlayer::Black => self.black.0 & !self.white.0,
            GoPlayer::White => self.white.0 & !self.black.0,
        }
    }

    /// The cells that hold no stone: genuinely empty cells and out-of-bounds
    /// cells together.
    pub open spec fn empty_mask(self) -> u128 {
        !(self.white.0 ^ self.black.0)
    }

    /// The cells where a stone may stand: in bounds and empty.
    pub open spec fn vacant_mask(self) -> u128 {
        !(self.white.0 | self.black.0)
    }

    /// What the board holds at cell `k`.
    pub open spec fn cell_at(self, k: u128) -> BoardCell {
        if cell(self.oob_mask(), k) {
            BoardCell::OutOfBounds
        } else if cell(self.white.0, k) {
            BoardCell::Occupied(GoPlayer::White)
        } else if cell(self.black.0, k) {
            BoardCell::Occupied(GoPlayer::Black)
        } else {
            BoardCell::Empty
        }
    }

    /// The stones of `player` that remain after erasing every group of that
    /// colour with no liberty: the groups reachable by flood fill from the
    /// cells adjacent to the empty space.
    pub open spec fn alive_mask(self, player: GoPlayer) -> u128 {
        ff(
            bits::expand(self.empty_mask()) & self.stones_mask(player),
            self.stones_mask(player),
        )
    }

    /// Does some colour have a group with no liberties?
    pub open spec fn spec_has_dead_groups(self) -> bool {
        self.alive_mask(GoPlayer::Black) != self.stones_mask(GoPlayer::Black) || self.alive_mask(
            GoPlayer::White,
        ) != self.stones_mask(GoPlayer::White)
    }

    /// Cell-level description of the derived masks, for use in proofs.
    pub proof fn lemma_masks(self)
        ensures
            forall|k: u128|
                k < 128 ==> (#[trigger] cell(self.oob_mask(), k) == (cell(self.black.0, k) && cell(
                    self.white.0,
                    k,
                ))),
            forall|k: u128|
                k < 128 ==> (#[trigger] cell(self.stones_mask(GoPlayer::Black), k) == (cell(
                    self.black.0,
                    k,
                ) && !cell(self.white.0, k))),
            forall|k: u128|
                k < 128 ==> (#[trigger] cell(self.stones_mask(GoPlayer::White), k) == (cell(
                    self.white.0,
                    k,
                ) && !cell(self.black.0, k))),
            forall|k: u128|
                k < 128 ==> (#[trigger] cell(self.empty_mask(), k) == (cell(self.black.0, k)
                    == cell(self.white.0, k))),
            forall|k: u128|
                k < 128 ==> (#[trigger] cell(self.vacant_mask(), k) == (!cell(self.black.0, k)
                    && !cell(self.white.0, k))),
    {
        bits::lemma_cell_and(self.white.0, self.black.0);
        bits::lemma_cell_and(self.black.0, !self.white.0);
        bits::lemma_cell_and(self.white.0, !self.black.0);
        bits::lemma_cell_not(self.white.0);
        bits::lemma_cell_not(self.black.0);
        bits::lemma_cell_xor(self.white.0, self.black.0);
        bits::lemma_cell_not(self.white.0 ^ self.black.0);
        bits::lemma_cell_or(self.white.0, self.black.0);
        bits::lemma_cell_not(self.white.0 | self.black.0);
    }

    pub fn empty() -> (r: GoBoard)
        ensures
            r.black.0 == 0 && r.white.0 == 0,
    {
        GoBoard { white: BitBoard::empty(), black: BitBoard::empty() }
    }

    /// Builds a board from three pairwise disjoint cell sets: black stones,
    /// white stones and the out-of-bounds region.
    pub fn new(black: BitBoard, white: BitBoard, out_of_bounds: BitBoard) -> (r: GoBoard)
        ensures
            r.black.0 == black.0 | out_of_bounds.0,
            r.white.0 == white.0 | out_of_bounds.0,
    {
        GoBoard { white: white.or(out_of_bounds), black: black.or(out_of_bounds) }
    }

    /// Cells with no stone on them, the out-of-bounds region included.
    pub fn empty_cells(&self) -> (r: BitBoard)
        ensures
            r.0 == self.empty_mask(),
    {
        self.white.xor(self.black).invert()
    }

    /// Cells where a stone may be placed: empty and in bounds.
    pub fn playable_cells(&self) -> (r: BitBoard)
        ensures
            r.0 == self.vacant_mask(),
    {
        self.white.or(self.black).invert()
    }

    pub fn out_of_bounds(&self) -> (r: BitBoard)
        ensures
            r.0 == self.oob_mask(),
    {
        self.white.and(self.black)
    }

    /// Swaps the two colours; the out-of-bounds region is unchanged.
    pub fn invert_colours(&self) -> (r: GoBoard)
        ensures
            r.black == self.white,
            r.white == self.black,
    {
        GoBoard { white: self.black, black: self.white }
    }

    /// Writes `cell` at `position`, leaving every other cell unchanged.
    pub fn set_cell(&mut self, position: BoardPosition, target: BoardCell)
        requires
            position.wf(),
        ensures
            final(self).cell_at(position.idx()) == target,
            forall|j: u128|
                j < 128 && j != position.idx() ==> (#[trigger] cell(final(self).black.0, j) == cell(
                    old(self).black.0,
                    j,
                )),
            forall|j: u128|
                j < 128 && j != position.idx() ==> (#[trigger] cell(final(self).white.0, j) == cell(
                    old(self).white.0,
                    j,
                )),
    {
        let mask = BitBoard::singleton(position);
        match target {
            BoardCell::Empty => {
                self.black = self.black.and_not(mask);
                self.white = self.white.and_not(mask);
            },
            BoardCell::Occupied(GoPlayer::Black) => {
                self.black = self.black.or(mask);
                self.white = self.white.and_not(mask);
            },
            BoardCell::Occupied(GoPlayer::White) => {
                self.black = self.black.and_not(mask);
                self.white = self.white.or(mask);
            },
            BoardCell::OutOfBounds => {
                self.black = self.black.or(mask);
                self.white = self.white.or(mask);
            },
        }
        proof {
            bits::lemma_cell_and(self.white.0, self.black.0);
        }
    }

    pub fn get_cell(&self, position: BoardPosition) -> (r: BoardCell)
        requires
            position.wf(),
        ensures
            r == self.cell_at(position.idx()),
    {
        let mask = BitBoard::singleton(position);
        proof {
            bits::lemma_cell_and(self.white.0, self.black.0);
        }
        if !(mask.and(self.out_of_bounds()).is_empty()) {
            proof {
                bits::lemma_empty(mask.0 & self.oob_mask());
                let w = choose|w: u128| w < 128 && #[trigger] cell((mask.0 & self.oob_mask()) as u128, w);
                assert(w == position.idx());
            }
            return BoardCell::OutOfBounds;
        }
        proof {
            assert(!cell((mask.0 & self.oob_mask()) as u128, position.idx()));
        }
        if !(mask.and(self.white).is_empty()) {
            proof {
                bits::lemma_empty(mask.0 & self.white.0);
                let w = choose|w: u128| w < 128 && #[trigger] cell((mask.0 & self.white.0) as u128, w);
                assert(w == position.idx());
            }
            return BoardCell::Occupied(GoPlayer::White);
        }
        proof {
            assert(!cell((mask.0 & self.white.0) as u128, position.idx()));
        }
        if !(mask.and(self.black).is_empty()) {
            proof {
                bits::lemma_empty(mask.0 & self.black.0);
                let w = choose|w: u128| w < 128 && #[trigger] cell((mask.0 & self.black.0) as u128, w);
                assert(w == position.idx());
            }
            return BoardCell::Occupied(GoPlayer::Black);
        }
        proof {
            assert(!cell((mask.0 & self.black.0) as u128, position.idx()));
        }
        BoardCell::Empty
    }

    /// The single-coloured stones of `player` (out-of-bounds cells excluded).
    pub fn get_bitboard_for_player(&self, player: GoPlayer) -> (r: BitBoard)
        ensures
            r.0 == self.stones_mask(player),
    {
        match player {
            GoPlayer::Black => self.black.and_not(self.white),
            GoPlayer::White => self.white.and_not(self.black),
        }
    }

    /// Replaces the single-coloured stones of `player`, keeping the
    /// out-of-bounds region and the other colour.
    fn set_bitboard_for_player(&mut self, player: GoPlayer, board: BitBoard)
        ensures
            final(self).raw(player) == board.0 | old(self).oob_mask(),
            final(self).raw(player.spec_flip()) == old(self).raw(player.spec_flip()),
    {
        match player {
            GoPlayer::Black => {
                self.black = board.or(self.out_of_bounds());
            },
            GoPlayer::White => {
                self.white = board.or(self.out_of_bounds());
            },
        }
    }

    /// Is `position` out of bounds?
    pub fn is_out_of_bounds(&self, position: BoardPosition) -> (r: bool)
        requires
            position.wf(),
        ensures
            r == cell(self.oob_mask(), position.idx()),
    {
        proof {
            bits::lemma_cell_and(self.white.0, self.black.0);
        }
        self.out_of_bounds().is_set(position)
    }

    /// Rewrites the out-of-bounds region, keeping all single-coloured stones.
    pub fn set_out_of_bounds(&mut self, out_of_bounds: BitBoard)
        ensures
            final(self).white.0 == (old(self).white.0 & !old(self).oob_mask()) | out_of_bounds.0,
            final(self).black.0 == (old(self).black.0 & !old(self).oob_mask()) | out_of_bounds.0,
    {
        let prev = self.out_of_bounds();
        self.white = self.white.and_not(prev).or(out_of_bounds);
        self.black = self.black.and_not(prev).or(out_of_bounds);
    }

    /// The stones of `player` whose groups have at least one liberty.
    pub fn get_alive_groups_for_player(&self, player: GoPlayer) -> (r: BitBoard)
        ensures
            r.0 == self.alive_mask(player),
    {
        let bitboard = self.get_bitboard_for_player(player);
        self.empty_cells().expand_one().and(bitboard).flood_fill(bitboard)
    }

    /// Erases every maximal group of `player` with zero liberties.
    pub fn remove_dead_groups_for_player(&mut self, player: GoPlayer)
        ensures
            final(self).stones_mask(player) == old(self).alive_mask(player),
            final(self).stones_mask(player.spec_flip()) == old(self).stones_mask(
                player.spec_flip(),
            ),
            final(self).oob_mask() == old(self).oob_mask(),
    {
        let ghost pre = *self;
        let stones_with_liberties = self.get_alive_groups_for_player(player);
        self.set_bitboard_for_player(player, stones_with_liberties);
        proof {
            let cur = *self;
            pre.lemma_masks();
            cur.lemma_masks();
            let alive = pre.alive_mask(player);
            let mask = pre.stones_mask(player);
            bits::lemma_ff_props((bits::expand(pre.empty_mask()) & mask) as u128, mask);
            bits::lemma_sub_cells(alive, mask);
            bits::lemma_cell_or(alive, pre.oob_mask());
            // every alive cell is a stone of `player`, so it is set in the
            // player's own word and clear in the other word
            assert forall|k: u128| k < 128 implies (#[trigger] cell(cur.stones_mask(player), k)
                == cell(alive, k)) by {
                assert(cell(cur.raw(player), k) == (cell(alive, k) || cell(
                    pre.oob_mask(),
                    k,
                )));
                if cell(alive, k) {
                    assert(cell(mask, k));
                }
            }
            bits::lemma_cell_ext(cur.stones_mask(player), alive);
            assert forall|k: u128| k < 128 implies (#[trigger] cell(
                cur.stones_mask(player.spec_flip()),
                k,
            ) == cell(pre.stones_mask(player.spec_flip()), k)) by {
                if cell(alive, k) {
                    assert(cell(mask, k));
                }
            }
            bits::lemma_cell_ext(
                cur.stones_mask(player.spec_flip()),
                pre.stones_mask(player.spec_flip()),
            );
            assert forall|k: u128| k < 128 implies (#[trigger] cell(cur.oob_mask(), k)
                == cell(pre.oob_mask(), k)) by {
                if cell(alive, k) {
                    assert(cell(mask, k));
                }
            }
            bits::lemma_cell_ext(cur.oob_mask(), pre.oob_mask());
        }
    }

    /// The full stone board of the colour standing at `position`.
    fn get_bitboard_at_position(&self, position: BoardPosition) -> (r: BitBoard)
        requires
            position.wf(),
            self.cell_at(position.idx()) is Occupied,
        ensures
            r.0 == self.stones_mask(self.occupant(position.idx())),
    {
        let mask = BitBoard::singleton(position);
        let white = self.get_bitboard_for_player(GoPlayer::White);
        let black = self.get_bitboard_for_player(GoPlayer::Black);
        proof {
            self.lemma_masks();
        }
        if !(mask.and(white).is_empty()) {
            proof {
                let w = choose|w: u128|
                    w < 128 && #[trigger] cell((mask.0 & white.0) as u128, w);
                assert(w == position.idx());
            }
            return white;
        }
        proof {
            assert(!cell((mask.0 & white.0) as u128, position.idx()));
        }
        black
    }

    /// The colour of the stone standing at `k` (meaningful only when the
    /// cell is occupied).
    pub open spec fn occupant(self, k: u128) -> GoPlayer {
        if self.cell_at(k) == BoardCell::Occupied(GoPlayer::White) {
            GoPlayer::White
        } else {
            GoPlayer::Black
        }
    }

    /// Does the maximal same-coloured group through the stone at `position`
    /// have at least one liberty?  Out-of-bounds cells count as liberty
    /// space: they stand for the outside area on which enclosing groups are
    /// assumed to live.
    pub fn group_has_liberties(&self, position: BoardPosition) -> (r: bool)
        requires
            position.wf(),
            self.cell_at(position.idx()) is Occupied,
        ensures
            r == spec_group_has_liberties(*self, position.idx(), self.occupant(position.idx())),
    {
        let mask = self.get_bitboard_at_position(position);
        let group = BitBoard::singleton(position).flood_fill(mask);
        !(group.expand_one().and(self.empty_cells()).is_empty())
    }

    /// Does some colour have a group with no liberties?
    pub fn has_dead_groups(&self) -> (r: bool)
        ensures
            r == self.spec_has_dead_groups(),
    {
        let black_dead = self.get_alive_groups_for_player(GoPlayer::Black) != self
            .get_bitboard_for_player(GoPlayer::Black);
        let white_dead = self.get_alive_groups_for_player(GoPlayer::White) != self
            .get_bitboard_for_player(GoPlayer::White);
        black_dead || white_dead
    }

    /// A deterministic 64-bit digest of the board, stable across runs: the
    /// standard SipHash digest of the two colour words, white first, in
    /// little-endian byte order.
    pub fn stable_hash(&self) -> (r: u64)
        ensures
            r == DefaultHasher::spec_finish(seq![le_bytes_seq(self.white.0), le_bytes_seq(self.black.0)]),
    {
        let mut hasher = DefaultHasher::new();
        let white_bytes = u128_le_bytes(self.white.0);
        let black_bytes = u128_le_bytes(self.black.0);
        hasher.write(white_bytes.as_slice());
        hasher.write(black_bytes.as_slice());
        proof {
            assert(hasher@ =~= seq![le_bytes_seq(self.white.0), le_bytes_seq(self.black.0)]);
        }
        hasher.finish()
    }

    /// The board drawn as 8 rows of 16 cells: `b`, `w`, `.` (empty) or `_`
    /// (out of bounds), the cells of a row separated by single spaces.
    pub fn render(&self) -> (r: String)
        ensures
            r@.len() == 256,
            forall|c: u128, w: u128|
                c < 16 && w < 8 ==> #[trigger] r@[32 * w + 2 * c] == cell_char(
                    self.cell_at((c + 16 * w) as u128),
                ),
            forall|c: u128, w: u128| c < 15 && w < 8 ==> #[trigger] r@[32 * w + 2 * c + 1] == ' ',
            forall|w: u128| w < 8 ==> #[trigger] r@[32 * w + 31] == '\n',
    {
        let mut out = String::new();
        let mut j: u8 = 0;
        while j < 8
            invariant
                j <= 8,
                out@.len() == 32 * j,
                forall|c: u128, w: u128|
                    c < 16 && w < j ==> #[trigger] out@[32 * w + 2 * c] == cell_char(
                        self.cell_at((c + 16 * w) as u128),
                    ),
                forall|c: u128, w: u128| c < 15 && w < j ==> #[trigger] out@[32 * w + 2 * c + 1] == ' ',
                forall|w: u128| w < j ==> #[trigger] out@[32 * w + 31] == '\n',
            decreases 8 - j,
        {
            let mut i: u8 = 0;
            while i < 16
                invariant
                    j < 8,
                    i <= 16,
                    out@.len() == 32 * (j as int) + (if i == 0 { 0int } else { 2 * i - 1 }),
                    forall|c: u128, w: u128|
                        c < 16 && w < j ==> #[trigger] out@[32 * w + 2 * c] == cell_char(
                            self.cell_at((c + 16 * w) as u128),
                        ),
                    forall|c: u128|
                        c < i ==> #[trigger] out@[32 * (j as u128) + 2 * c] == cell_char(
                            self.cell_at((c + 16 * j) as u128),
                        ),
                    forall|c: u128, w: u128|
                        c < 15 && w < j ==> #[trigger] out@[32 * w + 2 * c + 1] == ' ',
                    forall|w: u128| w < j ==> #[trigger] out@[32 * w + 31] == '\n',
                    forall|c: u128|
                        c + 1 < i ==> #[trigger] out@[32 * (j as u128) + 2 * c + 1] == ' ',
                decreases 16 - i,
            {
                if i != 0 {
                    push_char(&mut out, ' ');
                }
                let symbol = cell_char_exec(self.get_cell(BoardPosition::new(i, j)));
                push_char(&mut out, symbol);
                i = i + 1;
            }
            push_char(&mut out, '\n');
            proof {
                assert forall|c: u128, w: u128| c < 16 && w < j + 1 implies #[trigger] out@[32 * w
                    + 2 * c] == cell_char(self.cell_at((c + 16 * w) as u128)) by {
                    if w == j {
                        assert(out@[32 * (j as u128) + 2 * c] == cell_char(
                            self.cell_at((c + 16 * j) as u128),
                        ));
                    }
                }
                assert forall|c: u128, w: u128| c < 15 && w < j + 1 implies #[trigger] out@[32 * w
                    + 2 * c + 1] == ' ' by {
                    if w == j {
                        assert(out@[32 * (j as u128) + 2 * c + 1] == ' ');
                    }
                }
                assert forall|w: u128| w < j + 1 implies #[trigger] out@[32 * w + 31] == '\n' by {
                    if w == j {
                        assert(out@[32 * (j as u128) + 31] == '\n');
                    }
                }
            }
            j = j + 1;
        }
        out
    }
}

/// Does the maximal group of `owner`'s stones through the cell `k` have a
/// liberty: is some cell of the surrounding space (empty cells and the
/// out-of-bounds region) adjacent to the group?
pub open spec fn spec_group_has_liberties(b: GoBoard, k: u128, owner: GoPlayer) -> bool {
    bits::expand(ff(sing(k), b.stones_mask(owner))) & b.empty_mask() != 0
}

/// The character standing for a cell in a rendered board.
pub open spec fn cell_char(c: BoardCell) -> char {
    match c {
        BoardCell::Empty => '.',
        BoardCell::OutOfBounds => '_',
        BoardCell::Occupied(GoPlayer::White) => 'w',
        BoardCell::Occupied(GoPlayer::Black) => 'b',
    }
}

fn cell_char_exec(c: BoardCell) -> (r: char)
    ensures
        r == cell_char(c),
{
    match c {
        BoardCell::Empty => '.',
        BoardCell::OutOfBounds => '_',
        BoardCell::Occupied(GoPlayer::White) => 'w',
        BoardCell::Occupied(GoPlayer::Black) => 'b',
    }
}

/// The sixteen little-endian bytes of a 128-bit word.
pub open spec fn le_bytes_seq(x: u128) -> Seq<u8> {
    Seq::new(16, |i: int| ((x >> ((8 * i) as u128)) & 0xff) as u8)
}

/// The sixteen little-endian bytes of a 128-bit word, as a vector.
pub fn u128_le_bytes(x: u128) -> (r: Vec<u8>)
    ensures
        r@ == le_bytes_seq(x),
{
    let mut out: Vec<u8> = Vec::new();
    let mut i: u8 = 0;
    while i < 16
        invariant
            i <= 16,
            out@.len() == i,
            forall|m: int| 0 <= m < i ==> out@[m] == ((x >> ((8 * m) as u128)) & 0xff) as u8,
        decreases 16 - i,
    {
        out.push(((x >> ((8 * (i as u128)))) & 0xff) as u8);
        i = i + 1;
    }
    proof {
        assert(out@ =~= le_bytes_seq(x));
    }
    out
}

} // verus!
