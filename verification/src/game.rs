//! The rules of play: placing stones, captures, suicide, the single-point ko
//! rule, passing, and legal-move generation.
//!
//! A [`GoGame`] is an immutable position; every transition builds a new one.
//! The whole transition relation is given by the spec functions
//! [`GoGame::spec_place_stone`], [`GoGame::spec_pass`] and
//! [`GoGame::spec_play_move`], and each executable operation is proved to
//! return exactly what they describe.

use vstd::prelude::*;

use crate::bit_board::{BitBoard, BoardPosition};
use crate::bits;
use crate::bits::{cell, ff, sing};
use crate::board::{spec_group_has_liberties, BoardCell, GoBoard, GoPlayer};
use crate::bits::singletons_of;

verus! {

#[derive(Copy, Clone, Debug, PartialEq, Eq, Structural)]
pub enum Move {
    Pass,
    Place(BoardPosition),
}

#[derive(Copy, Clone, Debug, PartialEq, Eq, Structural, Hash)]
pub enum PassState {
    NoPass,
    PassedOnce,
    PassedTwice,
}

#[derive(Debug, PartialEq, Eq, Structural)]
pub enum MoveError {
    Occupied,
    OutOfBounds,
    OutOfTurn,
    Suicidal,
    Ko,
}

/// The board made of three disjoint cell sets: black stones, white stones
/// and the out-of-bounds region.
pub open spec fn board_of(black_stones: u128, white_stones: u128, oob: u128) -> GoBoard {
    GoBoard { white: BitBoard(white_stones | oob), black: BitBoard(black_stones | oob) }
}

/// The board with the cell `k` overwritten by a stone of `player`.
pub open spec fn board_with(b: GoBoard, k: u128, player: GoPlayer) -> GoBoard {
    match player {
        GoPlayer::Black => GoBoard {
            white: BitBoard(b.white.0 & !sing(k)),
            black: BitBoard(b.black.0 | sing(k)),
        },
        GoPlayer::White => GoBoard {
            white: BitBoard(b.white.0 | sing(k)),
            black: BitBoard(b.black.0 & !sing(k)),
        },
    }
}

/// The board with every liberty-less group of `opp` erased.
pub open spec fn after_removal(b: GoBoard, opp: GoPlayer) -> GoBoard {
    board_of(
        if opp == GoPlayer::Black {
            b.alive_mask(GoPlayer::Black)
        } else {
            b.stones_mask(GoPlayer::Black)
        },
        if opp == GoPlayer::White {
            b.alive_mask(GoPlayer::White)
        } else {
            b.stones_mask(GoPlayer::White)
        },
        b.oob_mask(),
    )
}

/// Every board's colour word is its single-coloured stones joined with the
/// out-of-bounds region.
pub proof fn lemma_board_decompose(b: GoBoard)
    ensures
        forall|j: u128|
            j < 128 ==> (#[trigger] cell(b.black.0, j) == (cell(b.stones_mask(GoPlayer::Black), j)
                || cell(b.oob_mask(), j))),
        forall|j: u128|
            j < 128 ==> (#[trigger] cell(b.white.0, j) == (cell(b.stones_mask(GoPlayer::White), j)
                || cell(b.oob_mask(), j))),
{
    b.lemma_masks();
}

/// Two boards with the same stones and the same out-of-bounds region are the
/// same board.
pub proof fn lemma_board_eq(a: GoBoard, b: GoBoard)
    requires
        a.stones_mask(GoPlayer::Black) == b.stones_mask(GoPlayer::Black),
        a.stones_mask(GoPlayer::White) == b.stones_mask(GoPlayer::White),
        a.oob_mask() == b.oob_mask(),
    ensures
        a == b,
{
    lemma_board_decompose(a);
    lemma_board_decompose(b);
    assert forall|j: u128| j < 128 implies (cell(a.black.0, j) == cell(b.black.0, j)) by {
        assert(cell(a.stones_mask(GoPlayer::Black), j) == cell(b.stones_mask(GoPlayer::Black), j));
        assert(cell(a.oob_mask(), j) == cell(b.oob_mask(), j));
    }
    assert forall|j: u128| j < 128 implies (cell(a.white.0, j) == cell(b.white.0, j)) by {
        assert(cell(a.stones_mask(GoPlayer::White), j) == cell(b.stones_mask(GoPlayer::White), j));
        assert(cell(a.oob_mask(), j) == cell(b.oob_mask(), j));
    }
    bits::lemma_cell_ext(a.black.0, b.black.0);
    bits::lemma_cell_ext(a.white.0, b.white.0);
}

/// The masks of a board assembled from three pairwise disjoint cell sets.
pub proof fn lemma_board_of_masks(bs: u128, ws: u128, oob: u128)
    requires
        forall|j: u128| j < 128 ==> !(#[trigger] cell(bs, j) && cell(ws, j)),
        forall|j: u128| j < 128 ==> !(#[trigger] cell(bs, j) && cell(oob, j)),
        forall|j: u128| j < 128 ==> !(#[trigger] cell(ws, j) && cell(oob, j)),
    ensures
        board_of(bs, ws, oob).stones_mask(GoPlayer::Black) == bs,
        board_of(bs, ws, oob).stones_mask(GoPlayer::White) == ws,
        board_of(bs, ws, oob).oob_mask() == oob,
{
    let b = board_of(bs, ws, oob);
    b.lemma_masks();
    bits::lemma_cell_or(bs, oob);
    bits::lemma_cell_or(ws, oob);
    assert forall|j: u128| j < 128 implies cell(b.stones_mask(GoPlayer::Black), j) == cell(
        bs,
        j,
    ) by {
        assert(cell(b.black.0, j) == (cell(bs, j) || cell(oob, j)));
        assert(cell(b.white.0, j) == (cell(ws, j) || cell(oob, j)));
    }
    bits::lemma_cell_ext(b.stones_mask(GoPlayer::Black), bs);
    assert forall|j: u128| j < 128 implies cell(b.stones_mask(GoPlayer::White), j) == cell(
        ws,
        j,
    ) by {
        assert(cell(b.black.0, j) == (cell(bs, j) || cell(oob, j)));
        assert(cell(b.white.0, j) == (cell(ws, j) || cell(oob, j)));
    }
    bits::lemma_cell_ext(b.stones_mask(GoPlayer::White), ws);
    assert forall|j: u128| j < 128 implies cell(b.oob_mask(), j) == cell(oob, j) by {
        assert(cell(b.black.0, j) == (cell(bs, j) || cell(oob, j)));
        assert(cell(b.white.0, j) == (cell(ws, j) || cell(oob, j)));
    }
    bits::lemma_cell_ext(b.oob_mask(), oob);
}

/// How the derived masks change when a stone of `player` is written over an
/// empty cell.
pub proof fn lemma_board_with_masks(b: GoBoard, k: u128, player: GoPlayer)
    requires
        k < 128,
        b.cell_at(k) == BoardCell::Empty,
    ensures
        board_with(b, k, player).stones_mask(player) == b.stones_mask(player) | sing(k),
        board_with(b, k, player).stones_mask(player.spec_flip()) == b.stones_mask(
            player.spec_flip(),
        ),
        board_with(b, k, player).oob_mask() == b.oob_mask(),
{
    let bw = board_with(b, k, player);
    b.lemma_masks();
    bw.lemma_masks();
    bits::lemma_cell_sing(k);
    bits::lemma_cell_or(b.black.0, sing(k));
    bits::lemma_cell_or(b.white.0, sing(k));
    bits::lemma_cell_not(sing(k));
    bits::lemma_cell_and(b.black.0, !sing(k));
    bits::lemma_cell_and(b.white.0, !sing(k));
    bits::lemma_cell_or(b.stones_mask(player), sing(k));
    assert forall|j: u128| j < 128 implies cell(bw.stones_mask(player), j) == cell(
        (b.stones_mask(player) | sing(k)) as u128,
        j,
    ) by {}
    bits::lemma_cell_ext(bw.stones_mask(player), b.stones_mask(player) | sing(k));
    assert forall|j: u128| j < 128 implies cell(bw.stones_mask(player.spec_flip()), j) == cell(
        b.stones_mask(player.spec_flip()),
        j,
    ) by {}
    bits::lemma_cell_ext(bw.stones_mask(player.spec_flip()), b.stones_mask(player.spec_flip()));
    assert forall|j: u128| j < 128 implies cell(bw.oob_mask(), j) == cell(b.oob_mask(), j) by {}
    bits::lemma_cell_ext(bw.oob_mask(), b.oob_mask());
}

/// The masks of [`after_removal`] in terms of the masks of its argument.
pub proof fn lemma_after_removal_masks(b: GoBoard, opp: GoPlayer)
    ensures
        after_removal(b, opp).stones_mask(opp) == b.alive_mask(opp),
        after_removal(b, opp).stones_mask(opp.spec_flip()) == b.stones_mask(opp.spec_flip()),
        after_removal(b, opp).oob_mask() == b.oob_mask(),
{
    b.lemma_masks();
    bits::lemma_ff_props(
        bits::expand(b.empty_mask()) & b.stones_mask(opp),
        b.stones_mask(opp),
    );
    bits::lemma_sub_cells(b.alive_mask(opp), b.stones_mask(opp));
    match opp {
        GoPlayer::Black => {
            lemma_board_of_masks(
                b.alive_mask(GoPlayer::Black),
                b.stones_mask(GoPlayer::White),
                b.oob_mask(),
            );
        },
        GoPlayer::White => {
            lemma_board_of_masks(
                b.stones_mask(GoPlayer::Black),
                b.alive_mask(GoPlayer::White),
                b.oob_mask(),
            );
        },
    }
}

/// Writing a stone of `player` over a cell yields exactly [`board_with`]:
/// the cell pinned in both colour words, everything else unchanged.
pub proof fn lemma_set_cell_board_with(pre: GoBoard, post: GoBoard, k: u128, player: GoPlayer)
    requires
        k < 128,
        post.cell_at(k) == BoardCell::Occupied(player),
        forall|j: u128|
            j < 128 && j != k ==> (#[trigger] cell(post.black.0, j) == cell(pre.black.0, j)),
        forall|j: u128|
            j < 128 && j != k ==> (#[trigger] cell(post.white.0, j) == cell(pre.white.0, j)),
    ensures
        post == board_with(pre, k, player),
{
    let bw = board_with(pre, k, player);
    bits::lemma_cell_sing(k);
    bits::lemma_cell_not(sing(k));
    bits::lemma_cell_or(pre.black.0, sing(k));
    bits::lemma_cell_or(pre.white.0, sing(k));
    bits::lemma_cell_and(pre.black.0, !sing(k));
    bits::lemma_cell_and(pre.white.0, !sing(k));
    post.lemma_masks();
    assert forall|j: u128| j < 128 implies cell(post.black.0, j) == cell(bw.black.0, j) by {
        if j != k {
            assert(cell(post.black.0, j) == cell(pre.black.0, j));
        }
    }
    assert forall|j: u128| j < 128 implies cell(post.white.0, j) == cell(bw.white.0, j) by {
        if j != k {
            assert(cell(post.white.0, j) == cell(pre.white.0, j));
        }
    }
    bits::lemma_cell_ext(post.black.0, bw.black.0);
    bits::lemma_cell_ext(post.white.0, bw.white.0);
}

/// An immutable game position: the board, the player to move, the cells
/// forbidden by the ko rule, and how many passes ended the move list.
#[derive(Copy, Clone, Debug, PartialEq, Eq, Structural, Hash)]
pub struct GoGame {
    pub ko_violations: BitBoard,
    pub board: GoBoard,
    /// The player whose turn it currently is.
    pub current_player: GoPlayer,
    /// How many sequential passes have just occurred.  After two, the game
    /// has ended.
    pub pass_state: PassState,
}

impl GoGame {
    /// The board that results from the current player placing a stone at the
    /// (valid, empty) cell `k`: the stone is put down, then every opposing
    /// group without liberties is removed.
    pub open spec fn spec_place_board(self, k: u128) -> GoBoard {
        after_removal(
            board_with(self.board, k, self.current_player),
            self.current_player.spec_flip(),
        )
    }

    /// The ko cells of the next position: when the placed stone touched no
    /// friendly stone, every captured stone that was isolated becomes a
    /// forbidden cell; otherwise none.
    pub open spec fn spec_next_ko(self, k: u128) -> u128 {
        if bits::expand(sing(k)) & !sing(k) & self.board.stones_mask(self.current_player) == 0 {
            singletons_of(
                self.board.stones_mask(self.current_player.spec_flip()) & !self.spec_place_board(
                    k,
                ).stones_mask(self.current_player.spec_flip()),
            )
        } else {
            0
        }
    }

    /// The exact outcome of the current player placing a stone at `pos`.
    pub open spec fn spec_place_stone(self, pos: BoardPosition) -> Result<GoGame, MoveError> {
        let k = pos.idx();
        if cell(self.board.oob_mask(), k) {
            Err(MoveError::OutOfBounds)
        } else if self.board.cell_at(k) != BoardCell::Empty {
            Err(MoveError::Occupied)
        } else if !spec_group_has_liberties(self.spec_place_board(k), k, self.current_player) {
            Err(MoveError::Suicidal)
        } else if cell(self.ko_violations.0, k) {
            Err(MoveError::Ko)
        } else {
            Ok(
                GoGame {
                    ko_violations: BitBoard(self.spec_next_ko(k)),
                    board: self.spec_place_board(k),
                    current_player: self.current_player.spec_flip(),
                    pass_state: PassState::NoPass,
                },
            )
        }
    }

    /// The position after a pass: the board is unchanged, ko cells are
    /// cleared, the turn flips and the pass counter advances.
    pub open spec fn spec_pass(self) -> GoGame {
        GoGame {
            ko_violations: BitBoard(0),
            board: self.board,
            current_player: self.current_player.spec_flip(),
            pass_state: match self.pass_state {
                PassState::NoPass => PassState::PassedOnce,
                PassState::PassedOnce => PassState::PassedTwice,
                PassState::PassedTwice => PassState::PassedTwice,
            },
        }
    }

    /// The exact outcome of the current player playing `go_move`.
    pub open spec fn spec_play_move(self, go_move: Move) -> Result<GoGame, MoveError> {
        match go_move {
            Move::Place(position) => self.spec_place_stone(position),
            Move::Pass => Ok(self.spec_pass()),
        }
    }

    /// Is `go_move` legal here?
    pub open spec fn spec_legal(self, go_move: Move) -> bool {
        self.spec_play_move(go_move) is Ok
    }

    pub fn empty(current_player: GoPlayer) -> (r: GoGame)
        ensures
            r == (GoGame {
                board: GoBoard { white: BitBoard(0), black: BitBoard(0) },
                ko_violations: BitBoard(0),
                current_player: current_player,
                pass_state: PassState::NoPass,
            }),
    {
        GoGame {
            board: GoBoard::empty(),
            ko_violations: BitBoard::empty(),
            current_player,
            pass_state: PassState::NoPass,
        }
    }

    pub fn from_board(board: GoBoard, current_player: GoPlayer) -> (r: GoGame)
        ensures
            r == (GoGame {
                board: board,
                ko_violations: BitBoard(0),
                current_player: current_player,
                pass_state: PassState::NoPass,
            }),
    {
        GoGame { board, ko_violations: BitBoard::empty(), current_player, pass_state: PassState::NoPass }
    }

    pub fn get_board(&self) -> (r: GoBoard)
        ensures
            r == self.board,
    {
        self.board
    }

    pub fn get_cell(&self, position: BoardPosition) -> (r: BoardCell)
        requires
            position.wf(),
        ensures
            r == self.board.cell_at(position.idx()),
    {
        self.board.get_cell(position)
    }

    fn is_out_of_bounds(&self, position: BoardPosition) -> (r: bool)
        requires
            position.wf(),
        ensures
            r == cell(self.board.oob_mask(), position.idx()),
    {
        self.board.is_out_of_bounds(position)
    }

    /// Plays `go_move` on behalf of `player`, rejecting it when it is not
    /// that player's turn.
    pub fn play_move_for_player(&self, go_move: Move, player: GoPlayer) -> (r: Result<
        GoGame,
        MoveError,
    >)
        requires
            go_move is Place ==> go_move->Place_0.wf(),
            (go_move is Pass && player == self.current_player) ==> self.pass_state
                != PassState::PassedTwice,
        ensures
            r == (if player == self.current_player {
                self.spec_play_move(go_move)
            } else {
                Err::<GoGame, MoveError>(MoveError::OutOfTurn)
            }),
    {
        if self.current_player != player {
            return Err(MoveError::OutOfTurn);
        }
        self.play_move(go_move)
    }

    /// Plays any type of move: either placing a stone or passing.
    pub fn play_move(&self, go_move: Move) -> (r: Result<GoGame, MoveError>)
        requires
            go_move is Place ==> go_move->Place_0.wf(),
            go_move is Pass ==> self.pass_state != PassState::PassedTwice,
        ensures
            r == self.spec_play_move(go_move),
    {
        match go_move {
            Move::Place(position) => self.place_stone(position),
            Move::Pass => Ok(self.pass()),
        }
    }

    /// Plays a move that places a stone on the board, or says exactly why it
    /// cannot be played: the cell lies outside the playable region
    /// (`OutOfBounds`), the cell is taken (`Occupied`), the placed group
    /// would have no liberty (`Suicidal`), or the cell is forbidden by the
    /// ko rule (`Ko`).
    pub fn place_stone(&self, position: BoardPosition) -> (r: Result<GoGame, MoveError>)
        requires
            position.wf(),
        ensures
            r == self.spec_place_stone(position),
    {
        let k = position;
        if self.is_out_of_bounds(k) {
            return Err(MoveError::OutOfBounds);
        }
        if self.get_cell(k) != BoardCell::Empty {
            return Err(MoveError::Occupied);
        }

        let next_player = self.current_player.flip();

        let mut new_board = self.board;
        new_board.set_cell(k, BoardCell::Occupied(self.current_player));
        proof {
            lemma_set_cell_board_with(self.board, new_board, k.idx(), self.current_player);
        }
        let ghost b_placed = new_board;

        // remove dead groups owned by the other player
        new_board.remove_dead_groups_for_player(next_player);
        proof {
            lemma_after_removal_masks(b_placed, next_player);
            lemma_board_eq(new_board, after_removal(b_placed, next_player));
            assert(new_board == self.spec_place_board(k.idx()));
        }

        // the placed stone stands on the board: its own colour is never
        // removed by an opposing capture
        proof {
            let cur = self.current_player;
            lemma_board_with_masks(self.board, k.idx(), cur);
            bits::lemma_cell_sing(k.idx());
            bits::lemma_cell_or(self.board.stones_mask(cur), sing(k.idx()));
            assert(cell(new_board.stones_mask(cur), k.idx()));
            lemma_board_decompose(new_board);
            new_board.lemma_masks();
            assert(!cell(new_board.oob_mask(), k.idx()));
            assert(new_board.cell_at(k.idx()) == BoardCell::Occupied(cur));
            assert(new_board.occupant(k.idx()) == cur);
        }

        // evaluate suicide
        if !new_board.group_has_liberties(k) {
            return Err(MoveError::Suicidal);
        }

        // evaluate ko
        if self.ko_violations.is_set(k) {
            return Err(MoveError::Ko);
        }

        let ko_violations = if BitBoard::singleton(k).immediate_exterior().and(
            self.board.get_bitboard_for_player(self.current_player),
        ).is_empty() {
            self.board.get_bitboard_for_player(next_player).and_not(
                new_board.get_bitboard_for_player(next_player),
            ).singletons()
        } else {
            BitBoard::empty()
        };
        proof {
            assert(ko_violations.0 == self.spec_next_ko(k.idx()));
        }

        Ok(
            GoGame {
                ko_violations,
                board: new_board,
                current_player: next_player,
                pass_state: PassState::NoPass,
            },
        )
    }

    /// All legal placements, in increasing cell order, each with the
    /// position it leads to.
    #[verifier::loop_isolation(false)]
    #[verifier::rlimit(100)]
    fn generate_placing_moves(&self) -> (r: Vec<(GoGame, Move)>)
        ensures
            forall|i: int|
                0 <= i < r@.len() ==> (#[trigger] r@[i]).1 is Place && r@[i].1->Place_0.wf()
                    && self.spec_place_stone(r@[i].1->Place_0) == Ok::<GoGame, MoveError>(r@[i].0),
            forall|i: int, j: int|
                0 <= i < j < r@.len() ==> r@[i].1->Place_0.0 < r@[j].1->Place_0.0,
            forall|pos: BoardPosition|
                pos.wf() && #[trigger] self.spec_place_stone(pos) is Ok ==> exists|i: int|
                    0 <= i < r@.len() && r@[i].1 == Move::Place(pos),
    {
        let mut games: Vec<(GoGame, Move)> = Vec::new();
        let positions = self.board.playable_cells().positions();
        proof {
            self.board.lemma_masks();
        }
        let mut idx: usize = 0;
        while idx < positions.len()
            invariant
                forall|i: int|
                    0 <= i < games@.len() ==> (#[trigger] games@[i]).1 is Place
                        && games@[i].1->Place_0.wf() && self.spec_place_stone(games@[i].1->Place_0)
                        == Ok::<GoGame, MoveError>(games@[i].0),
                forall|i: int, j: int|
                    0 <= i < j < games@.len() ==> games@[i].1->Place_0.0 < games@[j].1->Place_0.0,
                idx <= positions@.len(),
                forall|i: int|
                    0 <= i < games@.len() ==> exists|j: int|
                        0 <= j < idx && (#[trigger] games@[i]).1 == Move::Place(positions@[j]),
                forall|j: int|
                    0 <= j < idx && #[trigger] self.spec_place_stone(positions@[j]) is Ok ==> exists|
                        i: int,
                    | 0 <= i < games@.len() && games@[i].1 == Move::Place(positions@[j]),
            decreases positions@.len() - idx,
        {
            let position = positions[idx];
            match self.place_stone(position) {
                Ok(game) => {
                    let ghost pre = games@;
                    games.push((game, Move::Place(position)));
                    proof {
                        assert forall|i: int|
                            0 <= i < games@.len() implies exists|j: int|
                            0 <= j < idx + 1 && (#[trigger] games@[i]).1 == Move::Place(
                                positions@[j],
                            ) by {
                            if i < pre.len() {
                                let j = choose|j: int|
                                    0 <= j < idx && pre[i].1 == Move::Place(positions@[j]);
                                assert(0 <= j < idx + 1 && games@[i].1 == Move::Place(
                                    positions@[j],
                                ));
                            } else {
                                assert(games@[i].1 == Move::Place(positions@[idx as int]));
                            }
                        }
                        assert forall|j: int|
                            0 <= j < idx + 1 && #[trigger] self.spec_place_stone(
                                positions@[j],
                            ) is Ok implies exists|i: int|
                            0 <= i < games@.len() && games@[i].1 == Move::Place(positions@[j]) by {
                            if j == idx {
                                assert(games@[games@.len() - 1].1 == Move::Place(
                                    positions@[idx as int],
                                ));
                            } else {
                                let i = choose|i: int|
                                    0 <= i < pre.len() && pre[i].1 == Move::Place(positions@[j]);
                                assert(games@[i].1 == Move::Place(positions@[j]));
                            }
                        }
                    }
                },
                Err(_) => {
                    proof {
                        assert(self.spec_place_stone(positions@[idx as int]) is Err);
                    }
                },
            }
            idx = idx + 1;
        }
        proof {
            assert forall|pos: BoardPosition|
                pos.wf() && #[trigger] self.spec_place_stone(pos) is Ok implies exists|i: int|
                0 <= i < games@.len() && games@[i].1 == Move::Place(pos) by {
                // a legal placement targets an empty in-bounds cell, so its
                // position was enumerated
                assert(self.board.cell_at(pos.idx()) == BoardCell::Empty);
                assert(cell(self.board.vacant_mask(), pos.idx()));
                let j = choose|j: int|
                    0 <= j < positions@.len() && positions@[j].idx() == pos.idx();
                assert(positions@[j] == pos);
                assert(self.spec_place_stone(positions@[j]) is Ok);
            }
        }
        games
    }

    /// All legal moves with the position each one leads to: every legal
    /// placement, in increasing cell order, then a pass.  At least one move
    /// (the pass) always exists.
    #[verifier::loop_isolation(false)]
    pub fn generate_moves(&self) -> (r: Vec<(GoGame, Move)>)
        requires
            self.pass_state != PassState::PassedTwice,
        ensures
            r@.len() >= 1,
            forall|i: int|
                0 <= i < r@.len() ==> ((#[trigger] r@[i]).1 is Place ==> r@[i].1->Place_0.wf())
                    && self.spec_play_move(r@[i].1) == Ok::<GoGame, MoveError>(r@[i].0),
            forall|i: int, j: int| 0 <= i < j < r@.len() ==> r@[i].1 != r@[j].1,
            r@[r@.len() - 1] == (self.spec_pass(), Move::Pass),
            forall|m: Move|
                (m is Place ==> m->Place_0.wf()) && #[trigger] self.spec_legal(m) ==> exists|i: int|
                    0 <= i < r@.len() && r@[i].1 == m,
    {
        let mut games = self.generate_placing_moves();
        let ghost placing = games@;
        games.push((self.pass(), Move::Pass));
        proof {
            assert forall|m: Move|
                (m is Place ==> m->Place_0.wf()) && #[trigger] self.spec_legal(m) implies exists|
                i: int,
            | 0 <= i < games@.len() && games@[i].1 == m by {
                match m {
                    Move::Pass => {
                        assert(games@[games@.len() - 1].1 == m);
                    },
                    Move::Place(pos) => {
                        let i = choose|i: int|
                            0 <= i < placing.len() && placing[i].1 == Move::Place(pos);
                        assert(games@[i].1 == m);
                    },
                }
            }
        }
        games
    }

    /// Plays a pass: the current player advances, no stone is added, the
    /// pass counter steps forward.
    pub fn pass(&self) -> (r: GoGame)
        requires
            self.pass_state != PassState::PassedTwice,
        ensures
            r == self.spec_pass(),
    {
        GoGame {
            board: self.board,
            ko_violations: BitBoard::empty(),
            current_player: self.current_player.flip(),
            pass_state: match self.pass_state {
                PassState::NoPass => PassState::PassedOnce,
                PassState::PassedOnce => PassState::PassedTwice,
                PassState::PassedTwice => vstd::pervasive::unreached(),
            },
        }
    }
}

} // verus!
