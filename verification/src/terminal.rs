//! The terminal oracle: decides finished positions.
//!
//! A position is terminal when both sides have passed, when the defender has
//! unconditionally alive stones (the defender has won), or when the space
//! left to the defender cannot hold two separated eyes (the attacker has
//! won).  The answer depends on the position alone — no move ordering or
//! search state enters it — so it is the same whatever ranker the solver
//! uses.

use vstd::prelude::*;

use crate::benson::spec_benson;
use crate::bits;
use crate::bits::{ff, pcount, singletons_of};
use crate::board::{GoBoard, GoPlayer};
use crate::game::{GoGame, PassState};

verus! {

/// Is the defender provably unable to form two eyes?  The attacker stones
/// connected to the out-of-bounds border are taken as safe; what remains is
/// the largest shape the defender could ever own, and the defender can live
/// in it only if its interior holds two non-adjacent cells.
pub open spec fn spec_defender_dead(board: GoBoard, attacker: GoPlayer) -> bool {
    let attacker_alive = ff(bits::expand(board.oob_mask()), board.stones_mask(attacker));
    let maximum_living_shape = !attacker_alive & !board.oob_mask();
    let inner = bits::interior_of(maximum_living_shape);
    !(pcount(inner) >= 3 || (pcount(inner) == 2 && singletons_of(inner) != 0))
}

/// The exact verdict of the terminal oracle, from the point of view of
/// `player`, a function of the position alone.
pub open spec fn spec_is_terminal(game: GoGame, player: GoPlayer, attacker: GoPlayer) -> Option<
    bool,
> {
    let defender = attacker.spec_flip();
    if game.pass_state == PassState::PassedTwice {
        Some((player == defender) == (game.board.stones_mask(defender) != 0))
    } else if spec_benson(game.board, defender) != 0 {
        Some(defender == player)
    } else if spec_defender_dead(game.board, attacker) {
        Some(attacker == player)
    } else {
        None
    }
}

/// A conservative test that the defender is dead: true means the defender
/// can never make two eyes in the space the safe attacker stones leave.
fn is_defender_dead(board: &GoBoard, attacker: GoPlayer) -> (r: bool)
    ensures
        r == spec_defender_dead(*board, attacker),
{
    let attacker_alive = board.out_of_bounds().expand_one().flood_fill(
        board.get_bitboard_for_player(attacker),
    );
    let maximum_living_shape = attacker_alive.invert().and(board.out_of_bounds().invert());
    let inner = maximum_living_shape.interior();
    let can_live = inner.count() >= 3 || (inner.count() == 2 && !inner.singletons().is_empty());
    !can_live
}

/// Decides whether the position is settled.  When both sides have passed,
/// the defender wins exactly when defender stones remain on the board; when
/// the defender has unconditionally alive stones, the defender has won; when
/// the defender cannot possibly live, the attacker has won; otherwise the
/// position is not terminal.  The verdict (`Some(true)` means `player` wins)
/// is a function of the position, `player` and `attacker` alone.
pub fn is_terminal(game: GoGame, player: GoPlayer, attacker: GoPlayer) -> (r: Option<bool>)
    ensures
        r == spec_is_terminal(game, player, attacker),
{
    let defender = attacker.flip();

    if game.pass_state == PassState::PassedTwice {
        let defender_has_stones = !(game.get_board().get_bitboard_for_player(
            defender,
        ).is_empty());
        Some((player == defender) == defender_has_stones)
    } else if !(game.get_board().unconditionally_alive_blocks_for_player(defender).is_empty()) {
        Some(defender == player)
    } else if is_defender_dead(&game.board, attacker) {
        Some(attacker == player)
    } else {
        None
    }
}

} // verus!
