//! Move ordering.
//!
//! A ranker yields the legal successors of a position in some heuristic
//! order.  Whatever the order, the list holds every legal move exactly once
//! with the position it leads to; the solver is correct for any ordering.

use vstd::prelude::*;

use crate::game::{GoGame, Move, PassState};
use crate::rng;

verus! {

/// Does the list hold exactly the legal successors of `game`: every entry a
/// legal move paired with the position it produces, no move twice, and every
/// legal move present?
pub open spec fn ranked_moves_ok(game: GoGame, r: Seq<(GoGame, Move)>) -> bool {
    &&& forall|i: int|
        0 <= i < r.len() ==> ((#[trigger] r[i]).1 is Place ==> r[i].1->Place_0.wf())
            && game.spec_play_move(r[i].1) == Ok::<GoGame, crate::game::MoveError>(r[i].0)
    &&& forall|i: int, j: int| 0 <= i < r.len() && 0 <= j < r.len() && i != j ==> r[i].1 != r[j].1
    &&& forall|m: Move|
        (m is Place ==> m->Place_0.wf()) && #[trigger] game.spec_legal(m) ==> exists|i: int|
            0 <= i < r.len() && r[i].1 == m
}

/// A move-ordering heuristic: yields the legal successors of a position in
/// the order the search should try them.
pub trait MoveRanker: Sized {
    fn order_moves(&self, game: GoGame) -> (r: Vec<(GoGame, Move)>)
        requires
            game.pass_state != PassState::PassedTwice,
        ensures
            ranked_moves_ok(game, r@),
            r@.len() >= 1,
    ;
}

/// The ranker that keeps the generator's order: placements by increasing
/// cell, then the pass.
pub struct LinearMoveRanker;

impl MoveRanker for LinearMoveRanker {
    fn order_moves(&self, game: GoGame) -> (r: Vec<(GoGame, Move)>)
        ensures
            ranked_moves_ok(game, r@),
            r@.len() >= 1,
    {
        game.generate_moves()
    }
}

/// Where the cell with index `x` lands when the entries at `i` and `j` are
/// exchanged.
pub open spec fn swapped_index(x: int, i: int, j: int) -> int {
    if x == i {
        j
    } else if x == j {
        i
    } else {
        x
    }
}

/// The ranker that returns the legal moves in a uniformly shuffled order:
/// each entry is exchanged with one drawn from the not-yet-fixed suffix.
pub struct RandomMoveRanker;

impl MoveRanker for RandomMoveRanker {
    #[verifier::loop_isolation(false)]
    fn order_moves(&self, game: GoGame) -> (r: Vec<(GoGame, Move)>)
        ensures
            ranked_moves_ok(game, r@),
            r@.len() >= 1,
    {
        let mut moves = game.generate_moves();
        let n = moves.len();
        let mut i: usize = 0;
        while i < n
            invariant
                moves@.len() == n,
                ranked_moves_ok(game, moves@),
            decreases n - i,
        {
            let j = i + rng::rand_below(n - i);
            if i != j {
                let ghost pre = moves@;
                let a = moves[i];
                let b = moves[j];
                moves.set(i, b);
                moves.set(j, a);
                proof {
                    assert forall|x: int| 0 <= x < moves@.len() implies #[trigger] moves@[x]
                        == pre[swapped_index(x, i as int, j as int)] by {}
                    assert(ranked_moves_ok(game, moves@)) by {
                        assert forall|x: int, y: int|
                            0 <= x < moves@.len() && 0 <= y < moves@.len() && x != y implies moves@[x].1
                            != moves@[y].1 by {
                            assert(swapped_index(x, i as int, j as int) != swapped_index(
                                y,
                                i as int,
                                j as int,
                            ));
                        }
                        assert forall|m: Move|
                            (m is Place ==> m->Place_0.wf())
                                && #[trigger] game.spec_legal(m) implies exists|x: int|
                            0 <= x < moves@.len() && moves@[x].1 == m by {
                            let x0 = choose|x0: int| 0 <= x0 < pre.len() && pre[x0].1 == m;
                            let x1 = swapped_index(x0, i as int, j as int);
                            assert(moves@[swapped_index(x1, i as int, j as int)]
                                == pre[swapped_index(
                                swapped_index(x1, i as int, j as int),
                                i as int,
                                j as int,
                            )]);
                            assert(moves@[x1].1 == m);
                        }
                    }
                }
            }
            i = i + 1;
        }
        moves
    }
}

} // verus!
