//! The library's cross-cutting laws, stated and proved once over the spec
//! functions that the operations' own contracts use.

use vstd::prelude::*;

use crate::bit_board::{BitBoard, BoardPosition};
use crate::bits;
use crate::bits::{cell, ff, mask_groups, pcount, seq_or, sing, sub128};
use crate::board::{BoardCell, GoBoard, GoPlayer};
use crate::board::spec_group_has_liberties;
use crate::game::{board_with, GoGame, Move, MoveError, PassState};

verus! {

/// Flood fill is idempotent: filling what a fill produced, within the same
/// mask, changes nothing.
pub proof fn law_flood_fill_idempotent(x: BitBoard, mask: BitBoard)
    ensures
        ff(ff(x.0, mask.0), mask.0) == ff(x.0, mask.0),
{
    bits::lemma_ff_idempotent(x.0, mask.0);
}

/// The groups of a board are non-empty, pairwise disjoint, and their union
/// is the board: they partition it.
pub proof fn law_groups_partition(b: BitBoard)
    ensures
        seq_or(mask_groups(b.0)) == b.0,
        forall|i: int, j: int|
            0 <= i < j < mask_groups(b.0).len() ==> mask_groups(b.0)[i] & mask_groups(b.0)[j] == 0,
        forall|i: int|
            0 <= i < mask_groups(b.0).len() ==> mask_groups(b.0)[i] != 0 && sub128(
                #[trigger] mask_groups(b.0)[i],
                b.0,
            ),
{
    bits::lemma_groups_partition(b.0);
}

/// A successful move hands the turn to the other player and leaves the game
/// unfinished.
pub proof fn law_play_flips_player(g: GoGame, m: Move)
    requires
        g.spec_play_move(m) is Ok,
    ensures
        g.spec_play_move(m)->Ok_0.current_player == g.current_player.spec_flip(),
        m is Place ==> g.spec_play_move(m)->Ok_0.pass_state == PassState::NoPass,
{
}

/// The unconditionally alive stones of a colour are a subset of that
/// colour's stones.
pub proof fn law_benson_subset(b: GoBoard, player: GoPlayer)
    ensures
        sub128(crate::benson::spec_benson(b, player), b.stones_mask(player)),
{
    crate::benson::lemma_benson_fix_sub(
        b,
        b.stones_mask(player),
        crate::benson::spec_small_enclosed(b, player),
    );
    bits::lemma_sub_cells(crate::benson::spec_benson(b, player), b.stones_mask(player));
}

/// Every cell that a successful placement marks as forbidden by ko is empty
/// on the new board; and when the move captured at most one stone, at most
/// one cell is so marked.
pub proof fn law_ko_cells(g: GoGame, pos: BoardPosition)
    requires
        pos.wf(),
        g.spec_place_stone(pos) is Ok,
    ensures
        ({
            let nxt = g.spec_place_stone(pos)->Ok_0;
            forall|j: u128|
                j < 128 && #[trigger] cell(nxt.ko_violations.0, j) ==> nxt.board.cell_at(j)
                    == BoardCell::Empty
        }),
        pcount(
            g.board.stones_mask(g.current_player.spec_flip()) & !g.spec_place_board(
                pos.idx(),
            ).stones_mask(g.current_player.spec_flip()),
        ) <= 1 ==> pcount(g.spec_place_stone(pos)->Ok_0.ko_violations.0) <= 1,
{
    let k = pos.idx();
    let cur = g.current_player;
    let opp = cur.spec_flip();
    let nxt = g.spec_place_stone(pos)->Ok_0;
    let b1 = crate::game::board_with(g.board, k, cur);
    let b2 = g.spec_place_board(k);
    let captured = (g.board.stones_mask(opp) & !b2.stones_mask(opp)) as u128;
    g.board.lemma_masks();
    crate::game::lemma_board_with_masks(g.board, k, cur);
    crate::game::lemma_after_removal_masks(b1, opp);
    b2.lemma_masks();
    crate::game::lemma_board_decompose(b2);
    bits::lemma_cell_sing(k);
    bits::lemma_cell_or(g.board.stones_mask(cur), sing(k));
    bits::lemma_cell_not(b2.stones_mask(opp));
    bits::lemma_cell_and(g.board.stones_mask(opp), !b2.stones_mask(opp));
    lemma_singletons_sub(captured);
    bits::lemma_empty(0);
    assert forall|j: u128|
        j < 128 && #[trigger] cell(nxt.ko_violations.0, j) implies cell(captured, j) by {
        assert(nxt.ko_violations.0 == g.spec_next_ko(k));
        assert(cell(nxt.ko_violations.0, j) ==> nxt.ko_violations.0 != 0);
        assert(nxt.ko_violations.0 == bits::singletons_of(captured));
    }
    assert forall|j: u128|
        j < 128 && #[trigger] cell(nxt.ko_violations.0, j) implies nxt.board.cell_at(j)
        == BoardCell::Empty by {
        assert(cell(captured, j));
        assert(cell(g.board.stones_mask(opp), j));
        assert(!cell(b2.stones_mask(opp), j));
        assert(j != k);
        assert(!cell(g.board.stones_mask(cur), j));
        assert(!cell(b2.stones_mask(cur), j));
        assert(!cell(b2.oob_mask(), j));
        assert(!cell(b2.black.0, j) && !cell(b2.white.0, j));
    }
    if pcount(captured) <= 1 {
        bits::lemma_pcount_le(nxt.ko_violations.0, captured);
    }
}

/// The law behind `law_ko_cells`' count clause, with its failing inputs left
/// out: a single placement can capture two isolated stones at once, and then
/// two cells are ko-marked; when at most one stone was captured, at most one
/// cell is.
pub proof fn law_ko_at_most_one(g: GoGame, pos: BoardPosition)
    requires
        pos.wf(),
        g.spec_place_stone(pos) is Ok,
        pcount(
            g.board.stones_mask(g.current_player.spec_flip()) & !g.spec_place_board(
                pos.idx(),
            ).stones_mask(g.current_player.spec_flip()),
        ) <= 1,
    ensures
        pcount(g.spec_place_stone(pos)->Ok_0.ko_violations.0) <= 1,
{
    law_ko_cells(g, pos);
}

/// The exact reach of the ko rule: a placement on an in-bounds empty cell
/// that would not be suicidal is rejected as `Ko` exactly when the cell is
/// marked from the previous capture.
pub proof fn law_ko_rejection(g: GoGame, pos: BoardPosition)
    requires
        pos.wf(),
        !cell(g.board.oob_mask(), pos.idx()),
        g.board.cell_at(pos.idx()) == BoardCell::Empty,
        spec_group_has_liberties(g.spec_place_board(pos.idx()), pos.idx(), g.current_player),
    ensures
        g.spec_place_stone(pos) == Err::<GoGame, MoveError>(MoveError::Ko) <==> cell(
            g.ko_violations.0,
            pos.idx(),
        ),
{
}

/// When a move is a pass, touches a friendly stone, or captures no isolated
/// stone, the successor carries no ko marking: single-point ko arises only
/// from an isolated play capturing isolated stones.  In particular,
/// recapturing after a two-stone capture is never refused as `Ko`.
pub proof fn law_ko_cleared(g: GoGame, m: Move)
    requires
        m is Place ==> m->Place_0.wf(),
        g.spec_play_move(m) is Ok,
        m is Place ==> {
            let k = m->Place_0.idx();
            ||| bits::expand(sing(k)) & !sing(k) & g.board.stones_mask(g.current_player) != 0
            ||| bits::singletons_of(
                g.board.stones_mask(g.current_player.spec_flip()) & !g.spec_place_board(
                    k,
                ).stones_mask(g.current_player.spec_flip()),
            ) == 0
        },
    ensures
        g.spec_play_move(m)->Ok_0.ko_violations.0 == 0,
{
}

/// Universal invariant of the rules engine: a legal move played on a board
/// with no liberty-less group produces a board with no liberty-less group.
/// A pass leaves the board unchanged; a placement removes every captured
/// opposing group, the placed group is checked to have a liberty, and no
/// other friendly group can lose its last liberty without being adjacent to
/// the placed stone — in which case it is part of the placed group.
pub proof fn law_no_dead_groups(g: GoGame, m: Move)
    requires
        !g.board.spec_has_dead_groups(),
        m is Place ==> m->Place_0.wf(),
        g.spec_play_move(m) is Ok,
    ensures
        !g.spec_play_move(m)->Ok_0.board.spec_has_dead_groups(),
{
    match m {
        Move::Pass => {
        },
        Move::Place(pos) => {
            let k = pos.idx();
            let cur = g.current_player;
            let opp = cur.spec_flip();
            let b0 = g.board;
            let b1 = board_with(b0, k, cur);
            let b2 = g.spec_place_board(k);
            b0.lemma_masks();
            b1.lemma_masks();
            b2.lemma_masks();
            crate::game::lemma_board_with_masks(b0, k, cur);
            crate::game::lemma_after_removal_masks(b1, opp);
            bits::lemma_cell_sing(k);
            bits::lemma_cell_or(b0.stones_mask(cur), sing(k));
            lemma_no_dead_side(g, pos, opp);
            lemma_no_dead_side(g, pos, cur);
            assert(b2.alive_mask(opp) == b2.stones_mask(opp));
            assert(b2.alive_mask(cur) == b2.stones_mask(cur));
            assert(b2.alive_mask(GoPlayer::Black) == b2.stones_mask(GoPlayer::Black));
            assert(b2.alive_mask(GoPlayer::White) == b2.stones_mask(GoPlayer::White));
        },
    }
}

/// The two sides of [`law_no_dead_groups`]'s placement case.
proof fn lemma_no_dead_side(g: GoGame, pos: BoardPosition, side: GoPlayer)
    requires
        pos.wf(),
        !g.board.spec_has_dead_groups(),
        g.spec_place_stone(pos) is Ok,
        side == g.current_player || side == g.current_player.spec_flip(),
    ensures
        g.spec_place_board(pos.idx()).alive_mask(side) == g.spec_place_board(
            pos.idx(),
        ).stones_mask(side),
{
    let k = pos.idx();
    let cur = g.current_player;
    let opp = cur.spec_flip();
    let b0 = g.board;
    let b1 = board_with(b0, k, cur);
    let b2 = g.spec_place_board(k);
    b0.lemma_masks();
    b1.lemma_masks();
    b2.lemma_masks();
    crate::game::lemma_board_with_masks(b0, k, cur);
    crate::game::lemma_after_removal_masks(b1, opp);
    bits::lemma_cell_sing(k);
    bits::lemma_cell_or(b0.stones_mask(cur), sing(k));

    // how the empty space evolved: placing at `k` removes it from the empty
    // space; captures only enlarge it
    let e0 = b0.empty_mask();
    let e1 = b1.empty_mask();
    let e2 = b2.empty_mask();
    assert(b0.cell_at(k) == BoardCell::Empty);
    crate::game::lemma_board_decompose(b0);
    crate::game::lemma_board_decompose(b1);
    crate::game::lemma_board_decompose(b2);
    bits::lemma_ff_props(bits::expand(e1) & b1.stones_mask(opp), b1.stones_mask(opp));
    bits::lemma_sub_cells(b1.alive_mask(opp), b1.stones_mask(opp));
    assert forall|j: u128| j < 128 && #[trigger] cell(e1, j) implies cell(e2, j) by {
        assert(cell(b1.black.0, j) == cell(b1.white.0, j));
        if cell(b1.oob_mask(), j) {
            assert(cell(b2.oob_mask(), j));
        } else {
            assert(!cell(b1.stones_mask(GoPlayer::Black), j) && !cell(
                b1.stones_mask(GoPlayer::White),
                j,
            ));
            assert(!cell(b2.stones_mask(GoPlayer::Black), j) && !cell(
                b2.stones_mask(GoPlayer::White),
                j,
            ));
        }
        assert(cell(b2.black.0, j) == cell(b2.white.0, j));
    }
    assert forall|j: u128| j < 128 && j != k && #[trigger] cell(e0, j) implies cell(e2, j) by {
        assert(cell(b0.black.0, j) == cell(b0.white.0, j));
        if cell(b0.oob_mask(), j) {
            assert(cell(b2.oob_mask(), j));
        } else {
            assert(!cell(b0.stones_mask(GoPlayer::Black), j) && !cell(
                b0.stones_mask(GoPlayer::White),
                j,
            ));
            assert(!cell(b1.stones_mask(GoPlayer::Black), j) && !cell(
                b1.stones_mask(GoPlayer::White),
                j,
            ));
            assert(!cell(b2.stones_mask(GoPlayer::Black), j) && !cell(
                b2.stones_mask(GoPlayer::White),
                j,
            ));
        }
        assert(cell(b2.black.0, j) == cell(b2.white.0, j));
    }

    if side == opp && side != cur {
        // the opponent's surviving stones: exactly the groups reachable from
        // the empty frontier; freeing more space keeps them reachable
        let a = b1.alive_mask(opp);
        let s1o = b1.stones_mask(opp);
        let seed1 = (bits::expand(e1) & s1o) as u128;
        let target = b2.alive_mask(opp);
        let seed2 = (bits::expand(e2) & a) as u128;
        bits::lemma_cell_and(bits::expand(e1), s1o);
        bits::lemma_cell_and(bits::expand(e2), a);
        bits::lemma_ff_props(seed2, a);
        bits::lemma_sub_cells(target, a);
        bits::lemma_expand_mono(e1, e2);
        bits::lemma_expand_cells(e2);
        let f = |x: u128| cell(target, x) || (cell(s1o, x) && !cell(a, x));
        let s = bits::mask_of(f);
        bits::lemma_mask_of(f);
        // the original frontier seed lies in the witness set
        assert forall|j: u128| j < 128 && #[trigger] cell(seed1, j) implies cell(s, j) by {
            if cell(a, j) {
                assert(cell(bits::expand(e2), j));
                assert(cell(seed2, j));
                assert(cell(target, j));
            }
        }
        // and the witness set is closed under one fill step
        bits::lemma_expand_cells(s);
        bits::lemma_cell_and(bits::expand(s), s1o);
        assert forall|c: u128| c < 128 && cell(bits::ff_step(s, s1o), c) implies cell(s, c) by {
            if !cell(s, c) {
                assert(cell(bits::expand(s), c) && cell(s1o, c));
                assert(cell(a, c));
                let j = choose|j: u128| bits::adj(j, c) && cell(s, j);
                if cell(target, j) {
                    bits::lemma_ff_absorbs(seed2, a, j, c);
                    assert(cell(target, c));
                } else {
                    assert(cell(s1o, j) && !cell(a, j));
                    bits::lemma_ff_absorbs(seed1, s1o, c, j);
                    assert(cell(a, j));
                }
            }
        }
        bits::lemma_cell_and(seed1, s1o);
        bits::lemma_sub_cells((seed1 & s1o) as u128, s1o);
        assert forall|j: u128| j < 128 && #[trigger] cell((seed1 & s1o) as u128, j) implies cell(
            s,
            j,
        ) by {
            assert(cell(seed1, j));
        }
        bits::lemma_ff_from_least((seed1 & s1o) as u128, s1o, s);
        assert(a == bits::ff_from((seed1 & s1o) as u128, s1o));
        assert forall|j: u128| j < 128 && #[trigger] cell(b2.stones_mask(opp), j) implies cell(
            target,
            j,
        ) by {
            assert(cell(a, j));
            assert(cell(s, j));
        }
        assert forall|j: u128| j < 128 implies (#[trigger] cell(target, j) == cell(
            b2.stones_mask(opp),
            j,
        )) by {}
        bits::lemma_cell_ext(target, b2.stones_mask(opp));
    } else {
        // the mover's side: old groups keep a liberty away from `k`, or they
        // merged into the placed group, whose liberty the rules checked
        let s0c = b0.stones_mask(cur);
        let s2c = b2.stones_mask(cur);
        let fill = b2.alive_mask(cur);
        let seedf = (bits::expand(e2) & s2c) as u128;
        let grp = ff(sing(k), s2c);
        bits::lemma_cell_and(bits::expand(e2), s2c);
        bits::lemma_ff_props(seedf, s2c);
        bits::lemma_sub_cells(fill, s2c);
        bits::lemma_cell_and(sing(k), s2c);
        bits::lemma_ff_props(sing(k), s2c);
        assert(cell(grp, k)) by {
            assert(cell((sing(k) & s2c) as u128, k));
        }
        // the placed group has a liberty, so some of its stones border the
        // new empty space, and the whole group is alive
        assert(spec_group_has_liberties(b2, k, cur));
        let witness_mask = (bits::expand(grp) & e2) as u128;
        bits::lemma_empty(witness_mask);
        bits::lemma_cell_and(bits::expand(grp), e2);
        let e = choose|e: u128| e < 128 && #[trigger] cell(witness_mask, e);
        bits::lemma_expand_cells(grp);
        bits::lemma_expand_cells(e2);
        assert(cell(fill, k)) by {
            if cell(grp, e) {
                // the empty cell is its own liberty witness
                bits::lemma_sub_cells(grp, s2c);
                assert(cell(bits::expand(e2), e));
                assert(cell(seedf, e));
                assert(cell(fill, e));
                bits::lemma_ff_sym(k, e, s2c);
                bits::lemma_ff_trans(e, seedf, s2c);
            } else {
                let gg = choose|gg: u128| bits::adj(gg, e) && #[trigger] cell(grp, gg);
                bits::lemma_sub_cells(grp, s2c);
                assert(cell(bits::expand(e2), gg)) by {
                    assert(bits::adj(e, gg) && cell(e2, e));
                }
                assert(cell(seedf, gg));
                assert(cell(fill, gg));
                bits::lemma_ff_sym(k, gg, s2c);
                bits::lemma_ff_trans(gg, seedf, s2c);
            }
        }
        bits::lemma_ff_trans(k, seedf, s2c);
        // every old stone of the mover is alive on the new board
        bits::lemma_cell_and(bits::expand(e0), s0c);
        bits::lemma_expand_cells(e0);
        let seed0 = (bits::expand(e0) & s0c) as u128;
        assert forall|j: u128| j < 128 && #[trigger] cell(seed0, j) implies cell(fill, j) by {
            assert(cell(s0c, j) && cell(bits::expand(e0), j));
            assert(j != k);
            assert(cell(s2c, j));
            if cell(e0, j) {
                assert(cell(e2, j));
                bits::lemma_expand_cells(e2);
                assert(cell(bits::expand(e2), j));
                assert(cell(seedf, j));
            } else {
                let w = choose|w: u128| bits::adj(w, j) && #[trigger] cell(e0, w);
                if w != k {
                    assert(cell(e2, w));
                    bits::lemma_expand_cells(e2);
                    assert(cell(bits::expand(e2), j)) by {
                        assert(bits::adj(w, j) && cell(e2, w));
                    }
                    assert(cell(seedf, j));
                } else {
                    // the lost liberty is the placed cell itself: the stone
                    // borders the placed stone and joins its group
                    bits::lemma_ff_absorbs(sing(k), s2c, k, j);
                    assert(cell(grp, j));
                    bits::lemma_ff_trans(k, seedf, s2c);
                    assert(cell(fill, j));
                }
            }
        }
        // the step facts that make `fill` a closed set over the old stones
        bits::lemma_expand_cells(fill);
        bits::lemma_cell_and(bits::expand(fill), s0c);
        assert forall|c: u128| c < 128 && cell(bits::ff_step(fill, s0c), c) implies cell(
            fill,
            c,
        ) by {
            assert(cell(bits::expand(fill), c) && cell(s0c, c));
            assert(cell(s2c, c));
            bits::lemma_cell_and(bits::expand(fill), s2c);
            assert(cell(bits::ff_step(fill, s2c), c));
        }
        bits::lemma_cell_and(seed0, s0c);
        bits::lemma_sub_cells((seed0 & s0c) as u128, s0c);
        assert forall|j: u128| j < 128 && #[trigger] cell((seed0 & s0c) as u128, j) implies cell(
            fill,
            j,
        ) by {
            assert(cell(seed0, j));
        }
        bits::lemma_ff_from_least((seed0 & s0c) as u128, s0c, fill);
        assert(b0.alive_mask(cur) == bits::ff_from((seed0 & s0c) as u128, s0c));
        // the old alive set is all the old stones, by hypothesis
        assert(b0.alive_mask(cur) == s0c);
        assert forall|j: u128| j < 128 && #[trigger] cell(s2c, j) implies cell(fill, j) by {
            if j != k {
                assert(cell(s0c, j));
                assert(cell(b0.alive_mask(cur), j));
            }
        }
        assert forall|j: u128| j < 128 implies (#[trigger] cell(fill, j) == cell(s2c, j)) by {}
        bits::lemma_cell_ext(fill, s2c);
    }
}

/// The verdict of a completed solve is a function of the puzzle alone: two
/// solves of the same puzzle that both return — under any move ordering,
/// any deepening schedule that tries the depths in order, with or without a
/// deadline — report the same winner.  In particular a timed solve that
/// returns agrees with the untimed solve.
pub proof fn law_solve_outcome_unique(puzzle: crate::solver::Puzzle, w1: bool, w2: bool)
    requires
        crate::solver::deepening_outcome_is(puzzle, w1),
        crate::solver::deepening_outcome_is(puzzle, w2),
    ensures
        w1 == w2,
{
    let d1 = choose|d: nat|
        1 <= d <= 255 && #[trigger] crate::solver::root_value(puzzle, d) == (if w1 {
            1int
        } else {
            -1int
        }) && (forall|e: nat| 1 <= e < d ==> crate::solver::root_value(puzzle, e) == 0);
    let d2 = choose|d: nat|
        1 <= d <= 255 && #[trigger] crate::solver::root_value(puzzle, d) == (if w2 {
            1int
        } else {
            -1int
        }) && (forall|e: nat| 1 <= e < d ==> crate::solver::root_value(puzzle, e) == 0);
    if d1 < d2 {
        assert(crate::solver::root_value(puzzle, d1) == 0);
    } else if d2 < d1 {
        assert(crate::solver::root_value(puzzle, d2) == 0);
    }
}

/// A connected piece of the stone-free space that is closed, avoids the
/// player's stones, and whose empty cells all touch the block `gb`, holds
/// at least one empty cell touching `gb` — provided no group on the board
/// is liberty-less, so that every stone in the piece leads to an empty cell.
proof fn lemma_part_has_liberty(b: GoBoard, player: GoPlayer, gb: u128, part: u128) -> (e: u128)
    requires
        !b.spec_has_dead_groups(),
        part != 0,
        forall|j: u128| j < 128 ==> (#[trigger] cell(part, j) ==> !cell(b.stones_mask(player), j)),
        forall|j: u128|
            j < 128 ==> (cell(bits::expand(part), j) && !cell(b.stones_mask(player), j)
                ==> #[trigger] cell(part, j)),
        forall|j: u128|
            j < 128 ==> (#[trigger] cell(part, j) && cell(b.empty_mask(), j) ==> cell(
                (bits::expand(gb) & !gb) as u128,
                j,
            )),
    ensures
        e < 128,
        cell(part, e),
        cell(b.empty_mask(), e),
        cell((bits::expand(gb) & !gb) as u128, e),
{
    let stones = b.stones_mask(player);
    let opp = player.spec_flip();
    let sopp = b.stones_mask(opp);
    let e0 = b.empty_mask();
    b.lemma_masks();
    bits::lemma_first_cell(part);
    let c = bits::first_cell(part);
    if cell(e0, c) {
        c
    } else {
        // the piece's least cell is an opposing stone; walk its group to a
        // liberty, which stays inside the closed piece
        assert(cell(sopp, c));
        assert(b.alive_mask(opp) == sopp);
        assert(cell(ff(bits::expand(e0) & sopp, sopp), c));
        bits::lemma_ff_seed_split((bits::expand(e0) & sopp) as u128, sopp, c);
        let p0 = choose|p0: u128|
            p0 < 128 && cell((bits::expand(e0) & sopp) as u128, p0) && cell(sopp, p0)
                && #[trigger] cell(ff(sing(p0), sopp), c);
        bits::lemma_ff_sym(p0, c, sopp);
        // the fill from c within the opposing stones stays inside the piece
        bits::lemma_cell_not(stones);
        bits::lemma_ff_mask_mono(sing(c), sopp, !stones);
        assert(cell(ff(sing(c), !stones), p0));
        bits::lemma_cell_sing(c);
        bits::lemma_cell_and(sing(c), !stones);
        bits::lemma_sub_cells((sing(c) & !stones) as u128, !stones);
        bits::lemma_cell_and(bits::expand(part), !stones);
        assert forall|j: u128|
            j < 128 && cell((sing(c) & !stones) as u128, j) implies cell(part, j) by {
            assert(j == c);
        }
        assert forall|j: u128|
            j < 128 && cell(bits::ff_step(part, !stones), j) implies cell(part, j) by {}
        bits::lemma_ff_from_least((sing(c) & !stones) as u128, !stones, part);
        assert(cell(part, p0));
        // p0 borders the empty space; that empty cell joins the piece
        bits::lemma_cell_and(bits::expand(e0), sopp);
        bits::lemma_expand_cells(e0);
        assert(!cell(e0, p0));
        let e = choose|e: u128| bits::adj(e, p0) && #[trigger] cell(e0, e);
        assert(!cell(stones, e));
        bits::lemma_expand_cells(part);
        assert(cell(bits::expand(part), e)) by {
            bits::lemma_adj_sym(e, p0);
            assert(bits::adj(p0, e) && cell(part, p0));
        }
        assert(cell(part, e));
        e
    }
}

/// The region clauses of a self-justifying pruning state, restated for the
/// lemmas below.
spec fn regions_ok(b: GoBoard, player: GoPlayer, rf: u128) -> bool {
    &&& forall|j: u128|
        j < 128 ==> (#[trigger] cell(rf, j) ==> !cell(b.stones_mask(player), j))
    &&& forall|j: u128|
        j < 128 ==> (cell(bits::expand(rf), j) && !cell(b.stones_mask(player), j)
            ==> #[trigger] cell(rf, j))
}

/// A block with two healthy regions owns two distinct liberties: empty
/// cells bordering the block, one in each region.
proof fn lemma_two_liberties(b: GoBoard, player: GoPlayer, gb: u128, rf: u128) -> (libs: (
    u128,
    u128,
))
    requires
        !b.spec_has_dead_groups(),
        crate::benson::healthy_two(b, gb, rf),
        regions_ok(b, player, rf),
    ensures
        libs.0 != libs.1,
        libs.0 < 128 && cell(b.empty_mask(), libs.0) && cell(
            (bits::expand(gb) & !gb) as u128,
            libs.0,
        ),
        libs.1 < 128 && cell(b.empty_mask(), libs.1) && cell(
            (bits::expand(gb) & !gb) as u128,
            libs.1,
        ),
{
    let stones = b.stones_mask(player);
    let empties = (rf & b.empty_mask()) as u128;
    let ext = (bits::expand(gb) & !gb) as u128;
    let unhealthy = ff((empties & !ext) as u128, rf);
    let healthy = (rf & !unhealthy) as u128;
    bits::lemma_first_cell(healthy);
    let f1 = bits::first_cell(healthy);
    let part1 = ff(sing(f1), healthy);
    let second = (healthy & !part1) as u128;
    bits::lemma_first_cell(second);
    let w = bits::first_cell(second);
    bits::lemma_cell_not(part1);
    bits::lemma_cell_and(healthy, !part1);
    assert(cell(healthy, w) && !cell(part1, w));
    let part2 = ff(sing(w), healthy);
    bits::lemma_cell_sing(f1);
    bits::lemma_cell_sing(w);
    bits::lemma_cell_and(sing(f1), healthy);
    bits::lemma_cell_and(sing(w), healthy);
    bits::lemma_ff_props(sing(f1), healthy);
    bits::lemma_ff_props(sing(w), healthy);
    assert(cell(part1, f1)) by {
        assert(cell((sing(f1) & healthy) as u128, f1));
    }
    assert(cell(part2, w)) by {
        assert(cell((sing(w) & healthy) as u128, w));
    }
    bits::lemma_empty(part1);
    bits::lemma_empty(part2);
    lemma_part_shape(b, player, gb, rf, part1);
    lemma_part_shape(b, player, gb, rf, part2);
    let lib1 = lemma_part_has_liberty(b, player, gb, part1);
    let lib2 = lemma_part_has_liberty(b, player, gb, part2);
    assert(lib1 != lib2) by {
        if lib1 == lib2 {
            assert(cell(part1, lib1) && cell(part2, lib1));
            bits::lemma_ff_sym(w, lib1, healthy);
            bits::lemma_ff_trans(lib1, sing(f1), healthy);
            assert(cell(part1, w));
        }
    }
    (lib1, lib2)
}

/// A fill from one cell of the healthy space is a non-stone, closed piece
/// whose empty cells all border the block — the hypotheses of
/// [`lemma_part_has_liberty`].
#[verifier::rlimit(100)]
proof fn lemma_part_shape(b: GoBoard, player: GoPlayer, gb: u128, rf: u128, pt: u128)
    requires
        crate::benson::healthy_two(b, gb, rf),
        regions_ok(b, player, rf),
        ({
            let empties = (rf & b.empty_mask()) as u128;
            let ext = (bits::expand(gb) & !gb) as u128;
            let unhealthy = ff((empties & !ext) as u128, rf);
            let healthy = (rf & !unhealthy) as u128;
            exists|p: u128| p < 128 && pt == #[trigger] ff(sing(p), healthy)
        }),
    ensures
        forall|j: u128| j < 128 ==> (#[trigger] cell(pt, j) ==> !cell(b.stones_mask(player), j)),
        forall|j: u128|
            j < 128 ==> (cell(bits::expand(pt), j) && !cell(b.stones_mask(player), j)
                ==> #[trigger] cell(pt, j)),
        forall|j: u128|
            j < 128 ==> (#[trigger] cell(pt, j) && cell(b.empty_mask(), j) ==> cell(
                (bits::expand(gb) & !gb) as u128,
                j,
            )),
{
    let stones = b.stones_mask(player);
    let empties = (rf & b.empty_mask()) as u128;
    let ext = (bits::expand(gb) & !gb) as u128;
    let unhealthy = ff((empties & !ext) as u128, rf);
    let healthy = (rf & !unhealthy) as u128;
    let p = choose|p: u128| p < 128 && pt == #[trigger] ff(sing(p), healthy);
    bits::lemma_ff_props(sing(p), healthy);
    bits::lemma_sub_cells(pt, healthy);
    bits::lemma_cell_not(unhealthy);
    bits::lemma_cell_and(rf, !unhealthy);
    bits::lemma_cell_and(empties, !ext);
    bits::lemma_cell_and(rf, b.empty_mask());
    bits::lemma_ff_props((empties & !ext) as u128, rf);
    crate::benson::lemma_complement_of_fill_closed((empties & !ext) as u128, rf);
    assert forall|j: u128| j < 128 && #[trigger] cell(pt, j) implies !cell(stones, j) by {
        assert(cell(rf, j));
    }
    bits::lemma_cell_and(bits::expand(pt), healthy);
    assert forall|j: u128|
        j < 128 && cell(bits::expand(pt), j) && !cell(stones, j) implies #[trigger] cell(
        pt,
        j,
    ) by {
        if !cell(pt, j) {
            bits::lemma_expand_mono(pt, rf);
            assert(cell(bits::expand(rf), j));
            assert(cell(rf, j));
            bits::lemma_expand_mono(pt, healthy);
            assert(cell(bits::expand(healthy), j));
            assert(cell(healthy, j)) by {
                assert(cell(bits::expand((rf & !unhealthy) as u128), j) && cell(rf, j));
            }
            assert(cell(bits::ff_step(pt, healthy), j));
        }
    }
    bits::lemma_cell_not(ext);
    assert forall|j: u128|
        j < 128 && #[trigger] cell(pt, j) && cell(b.empty_mask(), j) implies cell(ext, j) by {
        if !cell(ext, j) {
            assert(cell(healthy, j));
            assert(cell(rf, j));
            assert(cell(empties, j));
            assert(cell((empties & !ext) as u128, j));
            assert(cell(unhealthy, j));
        }
    }
}

/// The alive block holding a given alive stone: one group of the alive
/// set, self-connected, made of the player's stones, with two healthy
/// regions in the stable region set.
#[verifier::rlimit(100)]
proof fn lemma_alive_block_of(b: GoBoard, player: GoPlayer, alive: u128, rf: u128, q: u128) -> (gb: u128)
    requires
        q < 128,
        cell(alive, q),
        alive == crate::benson::keep_healthy(b, mask_groups(alive), rf),
        forall|j: u128| j < 128 ==> (#[trigger] cell(alive, j) ==> cell(b.stones_mask(player), j)),
    ensures
        cell(gb, q),
        crate::benson::healthy_two(b, gb, rf),
        gb == ff(sing(bits::first_cell(gb)), gb),
        forall|j: u128| j < 128 ==> (#[trigger] cell(gb, j) ==> cell(b.stones_mask(player), j)),
{
    bits::lemma_groups_partition(alive);
    bits::lemma_groups_self(alive);
    crate::benson::lemma_keep_healthy_member(b, mask_groups(alive), rf);
    assert(cell(crate::benson::keep_healthy(b, mask_groups(alive), rf), q));
    let i = choose|i: int|
        0 <= i < mask_groups(alive).len() && crate::benson::healthy_two(
            b,
            #[trigger] mask_groups(alive)[i],
            rf,
        ) && cell(mask_groups(alive)[i], q);
    let gb = mask_groups(alive)[i];
    bits::lemma_sub_cells(gb, alive);
    assert forall|j: u128|
        j < 128 && #[trigger] cell(gb, j) implies cell(b.stones_mask(player), j) by {
        assert(cell(alive, j));
    }
    gb
}

/// A block with two healthy regions borders the empty space left after one
/// placement: one of its two region-separated liberties survives.
#[verifier::rlimit(100)]
proof fn lemma_block_border_stone(
    b: GoBoard,
    player: GoPlayer,
    gb: u128,
    rf: u128,
    k: u128,
    e1: u128,
) -> (gc: u128)
    requires
        !b.spec_has_dead_groups(),
        crate::benson::healthy_two(b, gb, rf),
        regions_ok(b, player, rf),
        k < 128,
        forall|j: u128|
            j < 128 ==> (#[trigger] cell(e1, j) == (cell(b.empty_mask(), j) && j != k)),
    ensures
        gc < 128,
        cell(gb, gc),
        cell(bits::expand(e1), gc),
{
    let libs = lemma_two_liberties(b, player, gb, rf);
    let lib = if libs.0 != k {
        libs.0
    } else {
        libs.1
    };
    assert(cell(e1, lib));
    bits::lemma_cell_not(gb);
    bits::lemma_cell_and(bits::expand(gb), !gb);
    bits::lemma_expand_cells(gb);
    let gc = choose|gc: u128| bits::adj(gc, lib) && #[trigger] cell(gb, gc);
    bits::lemma_expand_cells(e1);
    assert(cell(bits::expand(e1), gc)) by {
        bits::lemma_adj_sym(gc, lib);
        assert(bits::adj(lib, gc) && cell(e1, lib));
    }
    gc
}

/// A block that borders the remaining empty space survives the removal
/// step whole: each of its stones is reachable from the new empty frontier.
#[verifier::rlimit(100)]
proof fn lemma_block_survives(
    b: GoBoard,
    player: GoPlayer,
    gb: u128,
    gc: u128,
    e1: u128,
    q: u128,
)
    requires
        q < 128,
        gc < 128,
        cell(gb, q),
        cell(gb, gc),
        cell(bits::expand(e1), gc),
        gb == ff(sing(bits::first_cell(gb)), gb),
        forall|j: u128| j < 128 ==> (#[trigger] cell(gb, j) ==> cell(b.stones_mask(player), j)),
    ensures
        cell(ff(bits::expand(e1) & b.stones_mask(player), b.stones_mask(player)), q),
{
    let stones = b.stones_mask(player);
    let fill = ff(bits::expand(e1) & stones, stones);
    bits::lemma_empty(gb);
    bits::lemma_first_cell(gb);
    assert(cell(stones, gc));
    bits::lemma_cell_and(bits::expand(e1), stones);
    assert(cell((bits::expand(e1) & stones) as u128, gc));
    bits::lemma_ff_props((bits::expand(e1) & stones) as u128, stones);
    assert(cell(fill, gc));
    // the whole block is connected, so `q` reaches that stone
    let fcg = bits::first_cell(gb);
    bits::lemma_ff_sym(fcg, gc, gb);
    bits::lemma_ff_trans(fcg, sing(gc), gb);
    assert(cell(ff(sing(gc), gb), q));
    bits::lemma_ff_mask_mono(sing(gc), gb, stones);
    assert(cell(ff(sing(gc), stones), q));
    bits::lemma_ff_trans(gc, (bits::expand(e1) & stones) as u128, stones);
}

/// Placing one stone removes exactly its own cell from the empty space.
#[verifier::rlimit(100)]
proof fn lemma_empty_after_place(g: GoGame, pos: BoardPosition)
    requires
        pos.wf(),
        g.spec_place_stone(pos) is Ok,
    ensures
        forall|j: u128|
            j < 128 ==> (#[trigger] cell(
                board_with(g.board, pos.idx(), g.current_player).empty_mask(),
                j,
            ) == (cell(g.board.empty_mask(), j) && j != pos.idx())),
{
    let b0 = g.board;
    let cur = g.current_player;
    let k = pos.idx();
    let b1 = board_with(b0, k, cur);
    assert(b0.cell_at(k) == BoardCell::Empty);
    b0.lemma_masks();
    b1.lemma_masks();
    bits::lemma_cell_sing(k);
    bits::lemma_cell_not(sing(k));
    bits::lemma_cell_or(b0.black.0, sing(k));
    bits::lemma_cell_or(b0.white.0, sing(k));
    bits::lemma_cell_and(b0.black.0, !sing(k));
    bits::lemma_cell_and(b0.white.0, !sing(k));
    assert forall|j: u128|
        j < 128 implies (#[trigger] cell(b1.empty_mask(), j) == (cell(b0.empty_mask(), j) && j
        != k)) by {
        assert(cell(b1.empty_mask(), j) == (cell(b1.black.0, j) == cell(b1.white.0, j)));
        assert(cell(b0.empty_mask(), j) == (cell(b0.black.0, j) == cell(b0.white.0, j)));
    }
}

/// One-step temporal safety of Benson's test: on a board with
/// no liberty-less group, no single legal move by the opponent captures any
/// unconditionally alive stone of `player` — each alive block keeps two
/// region-separated liberties, and one move can fill only one of them.
/// Applied inductively together with [`law_no_dead_groups`], the alive
/// stones survive every sequence of opponent moves while the player passes.
#[verifier::rlimit(100)]
pub proof fn law_benson_one_step(g: GoGame, pos: BoardPosition)
    requires
        pos.wf(),
        !g.board.spec_has_dead_groups(),
        g.spec_place_stone(pos) is Ok,
    ensures
        ({
            let player = g.current_player.spec_flip();
            let next = g.spec_place_stone(pos)->Ok_0;
            forall|q: u128|
                q < 128 ==> (#[trigger] cell(crate::benson::spec_benson(g.board, player), q)
                    ==> cell(next.board.stones_mask(player), q))
        }),
{
    let cur = g.current_player;
    let player = cur.spec_flip();
    let b0 = g.board;
    let k = pos.idx();
    let stones = b0.stones_mask(player);
    let b1 = board_with(b0, k, cur);
    let alive = crate::benson::spec_benson(b0, player);

    crate::game::lemma_board_with_masks(b0, k, cur);
    crate::game::lemma_after_removal_masks(b1, player);
    assert(g.spec_place_board(k).stones_mask(player) == b1.alive_mask(player));
    assert(b1.stones_mask(player) == stones);
    let e1 = b1.empty_mask();
    lemma_empty_after_place(g, pos);

    crate::benson::lemma_benson_stable(b0, player);
    let rf0 = choose|rf: u128|
        crate::benson::benson_stable_for(b0, player, alive, #[trigger] (rf | 0));
    let rf = (rf0 | 0) as u128;
    lemma_alive_survives_all(b0, player, rf, k, e1);
}

/// Every unconditionally alive stone stays reachable from the post-move
/// empty frontier: the survival argument, quantified over the alive cells.
#[verifier::rlimit(100)]
proof fn lemma_alive_survives_all(b: GoBoard, player: GoPlayer, rf: u128, k: u128, e1: u128)
    requires
        !b.spec_has_dead_groups(),
        crate::benson::benson_stable_for(b, player, crate::benson::spec_benson(b, player), rf),
        k < 128,
        forall|j: u128|
            j < 128 ==> (#[trigger] cell(e1, j) == (cell(b.empty_mask(), j) && j != k)),
    ensures
        forall|q: u128|
            q < 128 ==> (#[trigger] cell(crate::benson::spec_benson(b, player), q) ==> cell(
                ff(bits::expand(e1) & b.stones_mask(player), b.stones_mask(player)),
                q,
            )),
{
    let alive = crate::benson::spec_benson(b, player);
    assert forall|q: u128|
        q < 128 && #[trigger] cell(alive, q) implies cell(
        ff(bits::expand(e1) & b.stones_mask(player), b.stones_mask(player)),
        q,
    ) by {
        lemma_alive_survives_one(b, player, rf, k, e1, q);
    }
}

/// The survival argument for one alive cell.
#[verifier::rlimit(100)]
proof fn lemma_alive_survives_one(
    b: GoBoard,
    player: GoPlayer,
    rf: u128,
    k: u128,
    e1: u128,
    q: u128,
)
    requires
        !b.spec_has_dead_groups(),
        crate::benson::benson_stable_for(b, player, crate::benson::spec_benson(b, player), rf),
        k < 128,
        q < 128,
        cell(crate::benson::spec_benson(b, player), q),
        forall|j: u128|
            j < 128 ==> (#[trigger] cell(e1, j) == (cell(b.empty_mask(), j) && j != k)),
    ensures
        cell(ff(bits::expand(e1) & b.stones_mask(player), b.stones_mask(player)), q),
{
    let alive = crate::benson::spec_benson(b, player);
    // the stability facts, taken apart once
    assert(alive == crate::benson::keep_healthy(b, mask_groups(alive), rf));
    assert(regions_ok(b, player, rf));
    let gb = lemma_alive_block_of(b, player, alive, rf, q);
    let gc = lemma_block_border_stone(b, player, gb, rf, k, e1);
    lemma_block_survives(b, player, gb, gc, e1, q);
}

/// Every cell of `singletons_of(x)` is a cell of `x`.
proof fn lemma_singletons_sub(x: u128)
    ensures
        forall|j: u128|
            j < 128 ==> (#[trigger] cell(bits::singletons_of(x), j) ==> cell(x, j)),
{
    bits::lemma_cell_and(x, !bits::up(x));
    bits::lemma_cell_and((x & !bits::up(x)) as u128, !bits::down(x));
    bits::lemma_cell_and((x & !bits::up(x) & !bits::down(x)) as u128, !bits::left(x));
    bits::lemma_cell_and(
        (x & !bits::up(x) & !bits::down(x) & !bits::left(x)) as u128,
        !bits::right(x),
    );
}

} // verus!
