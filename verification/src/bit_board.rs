//! A 128-bit packed bitboard over a 16-column, 8-row grid.
//!
//! Cells are named by `(column, row)` pairs with column in `[0, 16)` and row
//! in `[0, 8)`; the packed index of a cell is `column + 16 * row`.  All
//! contracts are phrased over [`crate::bits::cell`], the cell-membership
//! predicate of the underlying word.

use vstd::prelude::*;

use crate::bits;
use crate::bits::{cell, ff, first_cell, mask_groups, pcount, pcount_below, sing, sub128};
use crate::strutil::push_char;

verus! {

/// A cell of the grid, named by its packed index.
#[derive(Copy, Clone, Debug, PartialEq, Eq, Structural, Hash)]
pub struct BoardPosition(pub u8);

impl BoardPosition {
    /// Is this a position of the 16x8 grid?
    pub open spec fn wf(self) -> bool {
        self.0 < 128
    }

    /// The packed index as a mask index.
    pub open spec fn idx(self) -> u128 {
        self.0 as u128
    }

    pub fn new(column: u8, row: u8) -> (r: BoardPosition)
        requires
            column < 16,
            row < 8,
        ensures
            r.0 == column + 16 * row,
            r.wf(),
    {
        BoardPosition(column + 16 * row)
    }

    /// The `(column, row)` pair of this position.
    pub fn to_pair(self) -> (r: (u8, u8))
        requires
            self.wf(),
        ensures
            r.0 == self.0 % 16,
            r.1 == self.0 / 16,
            r.0 < 16 && r.1 < 8,
    {
        let y = self.0 / 16;
        let x = self.0 % 16;
        (x, y)
    }
}

/// A bitboard with 16 columns and 8 rows, flowing left to right, then
/// wrapping top to bottom.
#[derive(Copy, Clone, Debug, PartialEq, Eq, Structural, Hash)]
pub struct BitBoard(pub u128);

impl BitBoard {
    /// Does the board hold the cell at position `p`?
    pub open spec fn has(self, k: u128) -> bool {
        cell(self.0, k)
    }

    /// The number of columns of the grid.
    pub fn width() -> (r: u8)
        ensures
            r == 16,
    {
        16
    }

    /// The number of rows of the grid.
    pub fn height() -> (r: u8)
        ensures
            r == 8,
    {
        8
    }

    pub fn empty() -> (r: BitBoard)
        ensures
            r.0 == 0,
    {
        BitBoard(0)
    }

    pub fn from_uint(word: u128) -> (r: BitBoard)
        ensures
            r.0 == word,
    {
        BitBoard(word)
    }

    /// The board holding exactly the cell at `position`.
    pub fn singleton(position: BoardPosition) -> (r: BitBoard)
        requires
            position.wf(),
        ensures
            r.0 == sing(position.idx()),
            forall|k: u128| k < 128 ==> (#[trigger] cell(r.0, k) == (k == position.idx())),
    {
        let r = BitBoard(0x8000_0000_0000_0000_0000_0000_0000_0000u128 >> (position.0 as u128));
        proof {
            bits::lemma_cell_sing(position.idx());
            assert(r.0 == sing(position.idx()));
        }
        r
    }

    pub fn top_edge() -> (r: BitBoard)
        ensures
            r.0 == bits::top_row(),
            forall|k: u128| k < 128 ==> (#[trigger] cell(r.0, k) == (k < 16)),
    {
        let r = BitBoard(0xFFFF_0000_0000_0000_0000_0000_0000_0000u128);
        proof {
            bits::lemma_cell_edges();
            assert(r.0 == bits::top_row());
        }
        r
    }

    pub fn bottom_edge() -> (r: BitBoard)
        ensures
            r.0 == bits::bottom_row(),
            forall|k: u128| k < 128 ==> (#[trigger] cell(r.0, k) == (k >= 112)),
    {
        let r = BitBoard(0x0000_0000_0000_0000_0000_0000_0000_FFFFu128);
        proof {
            bits::lemma_cell_edges();
            assert(r.0 == bits::bottom_row());
        }
        r
    }

    pub fn right_edge() -> (r: BitBoard)
        ensures
            r.0 == bits::right_col(),
            forall|k: u128| k < 128 ==> (#[trigger] cell(r.0, k) == (k % 16 == 15)),
    {
        let r = BitBoard(0x0001_0001_0001_0001_0001_0001_0001_0001u128);
        proof {
            bits::lemma_cell_edges();
            assert(r.0 == bits::right_col());
        }
        r
    }

    pub fn left_edge() -> (r: BitBoard)
        ensures
            r.0 == bits::left_col(),
            forall|k: u128| k < 128 ==> (#[trigger] cell(r.0, k) == (k % 16 == 0)),
    {
        let r = BitBoard(0x8000_8000_8000_8000_8000_8000_8000_8000u128);
        proof {
            bits::lemma_cell_edges();
            assert(r.0 == bits::left_col());
        }
        r
    }

    /// Set union of two boards.
    pub fn or(self, rhs: BitBoard) -> (r: BitBoard)
        ensures
            r.0 == self.0 | rhs.0,
            forall|k: u128|
                k < 128 ==> (#[trigger] cell(r.0, k) == (cell(self.0, k) || cell(rhs.0, k))),
    {
        proof {
            bits::lemma_cell_or(self.0, rhs.0);
        }
        BitBoard(self.0 | rhs.0)
    }

    /// Set intersection of two boards.
    pub fn and(self, rhs: BitBoard) -> (r: BitBoard)
        ensures
            r.0 == self.0 & rhs.0,
            forall|k: u128|
                k < 128 ==> (#[trigger] cell(r.0, k) == (cell(self.0, k) && cell(rhs.0, k))),
    {
        proof {
            bits::lemma_cell_and(self.0, rhs.0);
        }
        BitBoard(self.0 & rhs.0)
    }

    /// Symmetric difference of two boards.
    pub fn xor(self, rhs: BitBoard) -> (r: BitBoard)
        ensures
            r.0 == self.0 ^ rhs.0,
            forall|k: u128|
                k < 128 ==> (#[trigger] cell(r.0, k) == (cell(self.0, k) != cell(rhs.0, k))),
    {
        proof {
            bits::lemma_cell_xor(self.0, rhs.0);
        }
        BitBoard(self.0 ^ rhs.0)
    }

    /// Set complement of a board (within the whole grid).
    pub fn invert(self) -> (r: BitBoard)
        ensures
            r.0 == !self.0,
            forall|k: u128| k < 128 ==> (#[trigger] cell(r.0, k) == !cell(self.0, k)),
    {
        proof {
            bits::lemma_cell_not(self.0);
        }
        BitBoard(!self.0)
    }

    /// Set difference: the cells of `self` that are not in `rhs`.
    pub fn and_not(self, rhs: BitBoard) -> (r: BitBoard)
        ensures
            r.0 == self.0 & !rhs.0,
            forall|k: u128|
                k < 128 ==> (#[trigger] cell(r.0, k) == (cell(self.0, k) && !cell(rhs.0, k))),
    {
        proof {
            bits::lemma_cell_not(rhs.0);
            bits::lemma_cell_and(self.0, !rhs.0);
        }
        BitBoard(self.0 & !rhs.0)
    }

    /// Every cell moves one row towards the top; the top row falls off.
    pub fn shift_up(self) -> (r: BitBoard)
        ensures
            r.0 == bits::up(self.0),
            forall|k: u128|
                k < 128 ==> (#[trigger] cell(r.0, k) == (k + 16 < 128 && cell(
                    self.0,
                    (k + 16) as u128,
                ))),
    {
        let r = BitBoard(self.0 << 16u128);
        proof {
            bits::lemma_cell_up(self.0);
            assert(r.0 == bits::up(self.0));
        }
        r
    }

    /// Every cell moves one row towards the bottom; the bottom row falls off.
    pub fn shift_down(self) -> (r: BitBoard)
        ensures
            r.0 == bits::down(self.0),
            forall|k: u128|
                k < 128 ==> (#[trigger] cell(r.0, k) == (k >= 16 && cell(self.0, (k - 16) as u128))),
    {
        let r = BitBoard(self.0 >> 16u128);
        proof {
            bits::lemma_cell_down(self.0);
            assert(r.0 == bits::down(self.0));
        }
        r
    }

    /// Every cell moves one column to the left; column 0 falls off.
    pub fn shift_left(self) -> (r: BitBoard)
        ensures
            r.0 == bits::left(self.0),
            forall|k: u128|
                k < 128 ==> (#[trigger] cell(r.0, k) == (k % 16 < 15 && cell(
                    self.0,
                    (k + 1) as u128,
                ))),
    {
        let r = BitBoard((self.0 << 1u128) & !0x0001_0001_0001_0001_0001_0001_0001_0001u128);
        proof {
            bits::lemma_cell_left(self.0);
            assert(r.0 == bits::left(self.0));
        }
        r
    }

    /// Every cell moves one column to the right; column 15 falls off.
    pub fn shift_right(self) -> (r: BitBoard)
        ensures
            r.0 == bits::right(self.0),
            forall|k: u128|
                k < 128 ==> (#[trigger] cell(r.0, k) == (k % 16 > 0 && cell(
                    self.0,
                    (k - 1) as u128,
                ))),
    {
        let r = BitBoard((self.0 >> 1u128) & !0x8000_8000_8000_8000_8000_8000_8000_8000u128);
        proof {
            bits::lemma_cell_right(self.0);
            assert(r.0 == bits::right(self.0));
        }
        r
    }

    pub fn is_empty(&self) -> (r: bool)
        ensures
            r == (self.0 == 0),
            r == (forall|k: u128| k < 128 ==> !(#[trigger] cell(self.0, k))),
    {
        proof {
            bits::lemma_empty(self.0);
        }
        self.0 == 0
    }

    pub fn is_set(self, position: BoardPosition) -> (r: bool)
        requires
            position.wf(),
        ensures
            r == cell(self.0, position.idx()),
    {
        proof {
            bits::lemma_cell_sing(position.idx());
            bits::lemma_cell_and(self.0, sing(position.idx()));
            bits::lemma_empty(self.0 & sing(position.idx()));
            if cell(self.0, position.idx()) {
                assert(cell((self.0 & sing(position.idx())) as u128, position.idx()));
            }
        }
        !(self.and(BitBoard::singleton(position)).is_empty())
    }

    /// The board with the cell at `position` added.
    pub fn set(self, position: BoardPosition) -> (r: BitBoard)
        requires
            position.wf(),
        ensures
            forall|k: u128|
                k < 128 ==> (#[trigger] cell(r.0, k) == (cell(self.0, k) || k == position.idx())),
    {
        self.or(BitBoard::singleton(position))
    }

    /// Expands the set cells in all four grid directions by one cell.
    pub fn expand_one(self) -> (r: BitBoard)
        ensures
            r.0 == bits::expand(self.0),
            forall|k: u128|
                k < 128 ==> (#[trigger] cell(r.0, k) == (cell(self.0, k) || exists|j: u128|
                    bits::adj(j, k) && #[trigger] cell(self.0, j))),
    {
        proof {
            bits::lemma_expand_cells(self.0);
        }
        self.or(self.shift_up()).or(self.shift_down()).or(self.shift_left()).or(self.shift_right())
    }

    /// The cells of the board whose four neighbours (counting off-grid
    /// neighbours as present) all lie on the board.
    pub fn interior(self) -> (r: BitBoard)
        ensures
            r.0 == bits::interior_of(self.0),
            forall|k: u128|
                k < 128 ==> (#[trigger] cell(r.0, k) == (cell(self.0, k) && (k + 16 >= 128 || cell(
                    self.0,
                    (k + 16) as u128,
                )) && (k < 16 || cell(self.0, (k - 16) as u128)) && (k % 16 == 15 || cell(
                    self.0,
                    (k + 1) as u128,
                )) && (k % 16 == 0 || cell(self.0, (k - 1) as u128)))),
    {
        self.and(self.shift_up().or(BitBoard::bottom_edge())).and(
            self.shift_down().or(BitBoard::top_edge()),
        ).and(self.shift_left().or(BitBoard::right_edge())).and(
            self.shift_right().or(BitBoard::left_edge()),
        )
    }

    /// The cells of the board that are not interior.
    pub fn border(self) -> (r: BitBoard)
        ensures
            forall|k: u128|
                k < 128 ==> (#[trigger] cell(r.0, k) == (cell(self.0, k) && !cell(
                    bits::interior_of(self.0),
                    k,
                ))),
    {
        self.and_not(self.interior())
    }

    /// The cells adjacent to the board but not on it.
    pub fn immediate_exterior(self) -> (r: BitBoard)
        ensures
            r.0 == bits::expand(self.0) & !self.0,
            forall|k: u128|
                k < 128 ==> (#[trigger] cell(r.0, k) == (cell(bits::expand(self.0), k) && !cell(
                    self.0,
                    k,
                ))),
    {
        self.expand_one().and_not(self)
    }

    /// The set cells none of whose four neighbours is set.
    pub fn singletons(self) -> (r: BitBoard)
        ensures
            r.0 == bits::singletons_of(self.0),
            forall|k: u128|
                k < 128 ==> (#[trigger] cell(r.0, k) == (cell(self.0, k) && !(exists|j: u128|
                    bits::adj(j, k) && #[trigger] cell(self.0, j)))),
    {
        let r = self.and_not(self.shift_up()).and_not(self.shift_down()).and_not(
            self.shift_left(),
        ).and_not(self.shift_right());
        proof {
            assert forall|k: u128| k < 128 implies (#[trigger] cell(r.0, k) == (cell(self.0, k)
                && !(exists|j: u128| bits::adj(j, k) && #[trigger] cell(self.0, j)))) by {
                if cell(self.0, k) {
                    if exists|j: u128| bits::adj(j, k) && cell(self.0, j) {
                        let j = choose|j: u128| bits::adj(j, k) && cell(self.0, j);
                        if j + 16 == k {
                            assert(cell(bits::down(self.0), k));
                        } else if k + 16 == j {
                            assert(cell(bits::up(self.0), k));
                        } else if j % 16 < 15 && j + 1 == k {
                            assert(cell(bits::right(self.0), k));
                        } else {
                            assert(cell(bits::left(self.0), k));
                        }
                    } else {
                        assert(!cell(bits::up(self.0), k) && !cell(bits::down(self.0), k) && !cell(
                            bits::left(self.0),
                            k,
                        ) && !cell(bits::right(self.0), k)) by {
                            if cell(bits::up(self.0), k) {
                                assert(bits::adj((k + 16) as u128, k) && cell(
                                    self.0,
                                    (k + 16) as u128,
                                ));
                            }
                            if cell(bits::down(self.0), k) {
                                assert(bits::adj((k - 16) as u128, k) && cell(
                                    self.0,
                                    (k - 16) as u128,
                                ));
                            }
                            if cell(bits::left(self.0), k) {
                                assert(bits::adj((k + 1) as u128, k) && cell(
                                    self.0,
                                    (k + 1) as u128,
                                ));
                            }
                            if cell(bits::right(self.0), k) {
                                assert(bits::adj((k - 1) as u128, k) && cell(
                                    self.0,
                                    (k - 1) as u128,
                                ));
                            }
                        }
                    }
                }
            }
        }
        r
    }

    /// The number of set cells.
    pub fn count(self) -> (r: u32)
        ensures
            r == pcount(self.0),
    {
        let mut r: u32 = 0;
        let mut k: u32 = 0;
        while k < 128
            invariant
                k <= 128,
                r == pcount_below(self.0, k as nat),
                r <= k,
            decreases 128 - k,
        {
            let b: bool = ((self.0 << (k as u128)) >> 127) == 1;
            proof {
                assert(b == cell(self.0, k as u128));
            }
            if b {
                r = r + 1;
            }
            k = k + 1;
        }
        r
    }

    /// The set cell with the smallest row, and within that the smallest
    /// column; i.e. the least packed index.
    pub fn some_cell(self) -> (r: BoardPosition)
        requires
            self.0 != 0,
        ensures
            r.wf(),
            r.idx() == first_cell(self.0),
            cell(self.0, r.idx()),
            forall|j: u128| j < r.idx() ==> !cell(self.0, j),
    {
        let mut k: u32 = 0;
        while k < 128
            invariant
                self.0 != 0,
                k <= 128,
                forall|j: u128| j < k ==> !cell(self.0, j),
            decreases 128 - k,
        {
            let b: bool = ((self.0 << (k as u128)) >> 127) == 1;
            proof {
                assert(b == cell(self.0, k as u128));
            }
            if b {
                proof {
                    bits::lemma_first_cell(self.0);
                    let f = first_cell(self.0);
                    assert(f == k as u128) by {
                        if f < k as u128 {
                            assert(!cell(self.0, f));
                        }
                        if f > k as u128 {
                            assert(!cell(self.0, k as u128));
                        }
                    }
                }
                return BoardPosition(k as u8);
            }
            k = k + 1;
        }
        proof {
            bits::lemma_empty(self.0);
        }
        vstd::pervasive::unreached()
    }

    /// The maximal connected subset of `mask` reachable from the cells of
    /// `self` that lie on `mask`, by 4-adjacency.
    pub fn flood_fill(self, mask: BitBoard) -> (r: BitBoard)
        ensures
            r.0 == ff(self.0, mask.0),
    {
        let mut filled = self.and(mask);
        proof {
            bits::lemma_cell_and(self.0, mask.0);
            bits::lemma_sub_cells(filled.0, mask.0);
        }
        loop
            invariant
                sub128(filled.0, mask.0),
                ff(self.0, mask.0) == bits::ff_from(filled.0, mask.0),
            decreases 128 - pcount(filled.0),
        {
            let snapshot = filled;
            filled = filled.expand_one().and(mask);
            proof {
                bits::lemma_ff_from_unfold(snapshot.0, mask.0);
                bits::lemma_sub_cells(filled.0, mask.0);
                bits::lemma_cell_and(bits::expand(snapshot.0), mask.0);
            }
            if filled == snapshot {
                proof {
                    assert(bits::ff_from(filled.0, mask.0) == filled.0);
                }
                return filled;
            }
            proof {
                bits::lemma_step_grows(snapshot.0, mask.0);
                bits::lemma_pcount_strict(snapshot.0, filled.0);
                bits::lemma_pcount_below_le(filled.0, 128);
            }
        }
    }

    /// The connected components of the board under 4-adjacency, each as its
    /// own board, ordered by their least cells.  The components are
    /// non-empty, pairwise disjoint, and their union is the board.
    pub fn groups(self) -> (r: Vec<BitBoard>)
        ensures
            r@.map_values(|g: BitBoard| g.0) == mask_groups(self.0),
    {
        let mut out: Vec<BitBoard> = Vec::new();
        let mut remaining = self;
        loop
            invariant
                mask_groups(self.0) == out@.map_values(|g: BitBoard| g.0) + mask_groups(
                    remaining.0,
                ),
            decreases pcount(remaining.0),
        {
            if remaining.is_empty() {
                proof {
                    assert(mask_groups(remaining.0) =~= Seq::<u128>::empty());
                    assert(out@.map_values(|g: BitBoard| g.0) + mask_groups(remaining.0)
                        =~= out@.map_values(|g: BitBoard| g.0));
                }
                return out;
            }
            let seed = BitBoard::singleton(remaining.some_cell());
            let group = seed.flood_fill(remaining);
            proof {
                bits::lemma_first_group(remaining.0);
                bits::lemma_pcount_below_le(remaining.0, 128);
                assert(group.0 == ff(sing(first_cell(remaining.0)), remaining.0));
            }
            let ghost prev = remaining.0;
            out.push(group);
            remaining = remaining.and_not(group);
            proof {
                assert(remaining.0 == prev & !group.0);
                assert(mask_groups(prev) == seq![group.0] + mask_groups(remaining.0));
                assert(mask_groups(self.0) == out@.map_values(|g: BitBoard| g.0) + mask_groups(
                    remaining.0,
                )) by {
                    assert(out@.map_values(|g: BitBoard| g.0) =~= out@.drop_last().map_values(
                        |g: BitBoard| g.0,
                    ).push(group.0));
                    assert(out@.drop_last().map_values(|g: BitBoard| g.0) + (seq![group.0]
                        + mask_groups(remaining.0)) =~= (out@.drop_last().map_values(
                        |g: BitBoard| g.0,
                    ).push(group.0)) + mask_groups(remaining.0));
                }
            }
        }
    }

    /// The board drawn as 8 rows of 16 binary digits, one row per line.
    pub fn render(&self) -> (r: String)
        ensures
            r@.len() == 136,
            forall|c: u128, w: u128|
                c < 16 && w < 8 ==> #[trigger] r@[17 * w + c] == (if cell(self.0, (c + 16 * w) as u128) {
                    '1'
                } else {
                    '0'
                }),
            forall|w: u128| w < 8 ==> #[trigger] r@[17 * w + 16] == '\n',
    {
        let mut out = String::new();
        let mut j: u8 = 0;
        while j < 8
            invariant
                j <= 8,
                out@.len() == 17 * j,
                forall|c: u128, w: u128|
                    c < 16 && w < j ==> #[trigger] out@[17 * w + c] == (if cell(
                        self.0,
                        (c + 16 * w) as u128,
                    ) {
                        '1'
                    } else {
                        '0'
                    }),
                forall|w: u128| w < j ==> #[trigger] out@[17 * w + 16] == '\n',
            decreases 8 - j,
        {
            let mut i: u8 = 0;
            while i < 16
                invariant
                    j < 8,
                    i <= 16,
                    out@.len() == 17 * j + i,
                    forall|c: u128, w: u128|
                        c < 16 && w < j ==> #[trigger] out@[17 * w + c] == (if cell(
                            self.0,
                            (c + 16 * w) as u128,
                        ) {
                            '1'
                        } else {
                            '0'
                        }),
                    forall|c: u128|
                        c < i ==> #[trigger] out@[17 * (j as u128) + c] == (if cell(
                            self.0,
                            (c + 16 * j) as u128,
                        ) {
                            '1'
                        } else {
                            '0'
                        }),
                    forall|w: u128| w < j ==> #[trigger] out@[17 * w + 16] == '\n',
                decreases 16 - i,
            {
                let digit = if self.is_set(BoardPosition::new(i, j)) {
                    '1'
                } else {
                    '0'
                };
                push_char(&mut out, digit);
                i = i + 1;
            }
            push_char(&mut out, '\n');
            proof {
                assert forall|c: u128, w: u128|
                    c < 16 && w < j + 1 implies #[trigger] out@[17 * w + c] == (if cell(
                    self.0,
                    (c + 16 * w) as u128,
                ) {
                    '1'
                } else {
                    '0'
                }) by {
                    if w == j {
                        assert(out@[17 * (j as u128) + c] == (if cell(self.0, (c + 16 * j) as u128) {
                            '1'
                        } else {
                            '0'
                        }));
                    }
                }
                assert forall|w: u128| w < j + 1 implies #[trigger] out@[17 * w + 16] == '\n' by {
                    if w == j {
                        assert(out@[17 * (j as u128) + 16] == '\n');
                    }
                }
            }
            j = j + 1;
        }
        out
    }

    /// One position for each set cell, in increasing packed-index order.
    pub fn positions(self) -> (r: Vec<BoardPosition>)
        ensures
            r@.len() == pcount(self.0),
            forall|i: int|
                0 <= i < r@.len() ==> (#[trigger] r@[i]).wf() && cell(self.0, r@[i].idx()),
            forall|i: int, j: int| 0 <= i < j < r@.len() ==> r@[i].0 < r@[j].0,
            forall|k: u128|
                k < 128 && #[trigger] cell(self.0, k) ==> exists|i: int|
                    0 <= i < r@.len() && r@[i].idx() == k,
    {
        let mut out: Vec<BoardPosition> = Vec::new();
        let mut k: u32 = 0;
        while k < 128
            invariant
                k <= 128,
                out@.len() == pcount_below(self.0, k as nat),
                forall|i: int|
                    0 <= i < out@.len() ==> (#[trigger] out@[i]).wf() && out@[i].0 < k && cell(
                        self.0,
                        out@[i].idx(),
                    ),
                forall|i: int, j: int| 0 <= i < j < out@.len() ==> out@[i].0 < out@[j].0,
                forall|p: u128|
                    p < k && #[trigger] cell(self.0, p) ==> exists|i: int|
                        0 <= i < out@.len() && out@[i].idx() == p,
            decreases 128 - k,
        {
            let b: bool = ((self.0 << (k as u128)) >> 127) == 1;
            proof {
                assert(b == cell(self.0, k as u128));
            }
            if b {
                let ghost before = out@;
                out.push(BoardPosition(k as u8));
                proof {
                    assert forall|p: u128| p < k + 1 && #[trigger] cell(self.0, p) implies exists|
                        i: int,
                    | 0 <= i < out@.len() && out@[i].idx() == p by {
                        if p < k as u128 {
                            let i = choose|i: int| 0 <= i < before.len() && before[i].idx() == p;
                            assert(out@[i].idx() == p);
                        } else {
                            assert(out@[out@.len() - 1].idx() == p);
                        }
                    }
                }
            }
            k = k + 1;
        }
        out
    }
}

} // verus!
