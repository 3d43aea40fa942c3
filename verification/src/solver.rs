//! The tsumego solver: iterative-deepening negamax with alpha-beta pruning
//! over the ternary value space `{-1, 0, +1}`.
//!
//! `+1` means the side to move wins, `-1` that it loses, and `0` that the
//! current depth limit could not settle the position.  A set of the
//! positions on the current search path prevents descending into cycles.
//! The solver consults its abort controller at every node; with a controller
//! that never aborts it always returns a result.

use vstd::prelude::*;

use crate::abort::{AbortController, NoAbortController, TimeoutAbortController};
use crate::bit_board::BoardPosition;
use crate::bits;
use crate::board::GoPlayer;
use crate::example_collector::ExampleCollector;
use crate::game::{GoGame, Move, PassState};
use crate::move_ranker::MoveRanker;
use crate::profiler::Profiler;
use crate::terminal::is_terminal;
use std::time::Duration;

verus! {

/// A tsumego instance: the starting position, the player whose result is
/// asked for, and the attacking colour (the one whose stones touch the
/// out-of-bounds border).
#[derive(Copy, Clone)]
pub struct Puzzle {
    pub game: GoGame,
    pub player: GoPlayer,
    pub attacker: GoPlayer,
}

/// The puzzle asking for the result of `game`: the mover is the asking
/// player, and White attacks exactly when white stones touch the
/// out-of-bounds border.
pub open spec fn spec_puzzle_of(game: GoGame) -> Puzzle {
    Puzzle {
        game: game,
        player: game.current_player,
        attacker: if bits::expand(game.board.oob_mask()) & game.board.stones_mask(GoPlayer::White)
            != 0 {
            GoPlayer::White
        } else {
            GoPlayer::Black
        },
    }
}

impl Puzzle {
    /// Builds the puzzle for a starting position.  White is the attacker
    /// exactly when white stones touch the out-of-bounds border.
    pub fn new(game: GoGame) -> (r: Puzzle)
        ensures
            r == spec_puzzle_of(game),
            r.game == game,
            r.player == game.current_player,
            r.attacker == (if bits::expand(game.board.oob_mask())
                & game.board.stones_mask(GoPlayer::White) != 0 {
                GoPlayer::White
            } else {
                GoPlayer::Black
            }),
    {
        let attacker = if !(game.board.out_of_bounds().expand_one().and(
            game.board.get_bitboard_for_player(GoPlayer::White),
        ).is_empty()) {
            GoPlayer::White
        } else {
            GoPlayer::Black
        };
        let player = game.current_player;
        Puzzle { game, player, attacker }
    }
}

/// The outcome of a solve: whether the side to move wins, the principal
/// line of play found, and the profiler that watched the search.
pub struct Solution<P: Profiler> {
    pub won: bool,
    pub principle_variation: Vec<Move>,
    pub profiler: P,
}

/// Is `pv` a sequence of moves that can be legally played in order from `g`?
pub open spec fn legal_line(g: GoGame, pv: Seq<Move>) -> bool
    decreases pv.len(),
{
    pv.len() == 0 || ((pv[0] is Place ==> pv[0]->Place_0.wf()) && g.spec_play_move(pv[0]) is Ok
        && legal_line(g.spec_play_move(pv[0])->Ok_0, pv.drop_first()))
}


/// The move with canonical index `k`: the 128 placements in cell order,
/// then the pass.
pub open spec fn move_at(k: nat) -> Move {
    if k < 128 {
        Move::Place(BoardPosition(k as u8))
    } else {
        Move::Pass
    }
}

/// The canonical index of a move.
pub open spec fn move_index(m: Move) -> nat {
    match m {
        Move::Place(pos) => pos.0 as nat,
        Move::Pass => 128,
    }
}

/// The depth-limited negamax value of a position, seen by the side to move:
/// the oracle's verdict where the oracle decides; `0` when the depth budget
/// is exhausted first; otherwise the best over all legal moves of the
/// negated value of the successor, with successors already on the search
/// path skipped and `-1` as the floor.  This is a function of the position,
/// the two roles, the path set and the budget alone — no move ordering, no
/// clock, no randomness enters it.
pub open spec fn game_value(
    player: GoPlayer,
    attacker: GoPlayer,
    node: GoGame,
    parents: Seq<GoGame>,
    d: nat,
) -> int
    decreases d, 130int,
{
    match crate::terminal::spec_is_terminal(node, player, attacker) {
        Some(w) => {
            let sign: int = if node.current_player == player {
                1
            } else {
                -1
            };
            if w {
                sign
            } else {
                -sign
            }
        },
        None => if d == 0 {
            0
        } else {
            best_value_from(player, attacker, node, parents, d, 0)
        },
    }
}

/// The best negated successor value over the moves with canonical index at
/// least `k`, floored at `-1`.
pub open spec fn best_value_from(
    player: GoPlayer,
    attacker: GoPlayer,
    node: GoGame,
    parents: Seq<GoGame>,
    d: nat,
    k: nat,
) -> int
    decreases d, 129int - k,
{
    if d == 0 || k >= 129 {
        -1
    } else {
        let rest = best_value_from(player, attacker, node, parents, d, k + 1);
        let m = move_at(k);
        if node.spec_play_move(m) is Ok {
            let child = node.spec_play_move(m)->Ok_0;
            if !parents.contains(child) {
                let v = -game_value(player, attacker, child, parents.push(child), (d - 1) as nat);
                if v > rest {
                    v
                } else {
                    rest
                }
            } else {
                rest
            }
        } else {
            rest
        }
    }
}

/// The value always lies in the ternary range.
pub proof fn lemma_game_value_range(
    player: GoPlayer,
    attacker: GoPlayer,
    node: GoGame,
    parents: Seq<GoGame>,
    d: nat,
)
    ensures
        -1 <= game_value(player, attacker, node, parents, d) <= 1,
    decreases d, 130int,
{
    if crate::terminal::spec_is_terminal(node, player, attacker) is None && d > 0 {
        lemma_best_range(player, attacker, node, parents, d, 0);
    }
}

proof fn lemma_best_range(
    player: GoPlayer,
    attacker: GoPlayer,
    node: GoGame,
    parents: Seq<GoGame>,
    d: nat,
    k: nat,
)
    ensures
        -1 <= best_value_from(player, attacker, node, parents, d, k) <= 1,
    decreases d, 129int - k,
{
    if d > 0 && k < 129 {
        lemma_best_range(player, attacker, node, parents, d, k + 1);
        let m = move_at(k);
        if node.spec_play_move(m) is Ok {
            let child = node.spec_play_move(m)->Ok_0;
            if !parents.contains(child) {
                lemma_game_value_range(player, attacker, child, parents.push(child), (d - 1) as nat);
            }
        }
    }
}

/// If every admissible move from index `k` on has its negated successor
/// value at most `bound`, the best from `k` is at most `bound`.
proof fn lemma_best_le(
    player: GoPlayer,
    attacker: GoPlayer,
    node: GoGame,
    parents: Seq<GoGame>,
    d: nat,
    k: nat,
    bound: int,
)
    requires
        -1 <= bound,
        forall|j: nat|
            k <= j < 129 && node.spec_play_move(#[trigger] move_at(j)) is Ok && !parents.contains(
                node.spec_play_move(move_at(j))->Ok_0,
            ) ==> -game_value(
                player,
                attacker,
                node.spec_play_move(move_at(j))->Ok_0,
                parents.push(node.spec_play_move(move_at(j))->Ok_0),
                (d - 1) as nat,
            ) <= bound,
    ensures
        best_value_from(player, attacker, node, parents, d, k) <= bound,
    decreases 129int - k,
{
    if d > 0 && k < 129 {
        lemma_best_le(player, attacker, node, parents, d, k + 1, bound);
        assert(node.spec_play_move(move_at(k)) is Ok ==> true);
    }
}

/// Any single admissible move bounds the best from below.
proof fn lemma_best_ge(
    player: GoPlayer,
    attacker: GoPlayer,
    node: GoGame,
    parents: Seq<GoGame>,
    d: nat,
    k: nat,
    m: Move,
)
    requires
        d >= 1,
        m is Place ==> m->Place_0.wf(),
        k <= move_index(m) < 129,
        node.spec_play_move(m) is Ok,
        !parents.contains(node.spec_play_move(m)->Ok_0),
    ensures
        best_value_from(player, attacker, node, parents, d, k) >= -game_value(
            player,
            attacker,
            node.spec_play_move(m)->Ok_0,
            parents.push(node.spec_play_move(m)->Ok_0),
            (d - 1) as nat,
        ),
    decreases 129int - k,
{
    assert(move_at(move_index(m)) == m);
    if k < move_index(m) {
        lemma_best_ge(player, attacker, node, parents, d, k + 1, m);
    }
}

/// The state a solve carries across its iterations: the puzzle, the move
/// ordering, the positions on the current search path, the statistics, and
/// the cancellation port.
pub struct SolvingSession<'r, C: AbortController, P: Profiler, R: MoveRanker> {
    pub puzzle: Puzzle,
    pub move_ranker: &'r R,
    pub parents: Vec<GoGame>,
    pub profiler: P,
    pub abort_controller: C,
}

impl<'r, C: AbortController, P: Profiler, R: MoveRanker> SolvingSession<'r, C, P, R> {
    pub fn new(puzzle: Puzzle, abort_controller: C, move_ranker: &'r R) -> (r: SolvingSession<
        'r,
        C,
        P,
        R,
    >)
        ensures
            r.puzzle == puzzle,
            r.parents@.len() == 0,
            r.abort_controller == abort_controller,
    {
        SolvingSession {
            parents: Vec::new(),
            profiler: P::new(),
            puzzle,
            abort_controller,
            move_ranker,
        }
    }

    /// Prepares one depth-limited iteration.
    pub fn create_iteration(&self, max_depth: u8) -> (r: SolvingIteration)
        ensures
            r.max_depth == max_depth,
            r.variations@.len() == 0,
    {
        SolvingIteration { max_depth, variations: Vec::new() }
    }
}

/// Does the given membership test hold somewhere in the vector?
fn contains_game(v: &Vec<GoGame>, g: &GoGame) -> (r: bool)
    ensures
        r == v@.contains(*g),
{
    let mut i: usize = 0;
    while i < v.len()
        invariant
            i <= v@.len(),
            forall|j: int| 0 <= j < i ==> v@[j] != *g,
        decreases v@.len() - i,
    {
        if v[i] == *g {
            return true;
        }
        i = i + 1;
    }
    false
}

/// The depth-limited negamax.  On a terminal node it returns the oracle's
/// verdict as seen by the node's mover; at depth zero it returns the unknown
/// sentinel `0`; otherwise it maximises the negated values of the children
/// the ranker yields, skipping children already on the search path, pruning
/// once the value reaches `beta`.  It returns the value with the principal
/// line that produced it, or nothing when the controller aborted.
///
/// The returned score carries the usual fail-soft alpha-beta guarantee
/// against [`game_value`]: a score below `beta` is an upper bound on the
/// value, a score above `alpha` a lower bound.  At the full window
/// `(-1, 1)` the two together pin the score to the value exactly.
#[verifier::loop_isolation(false)]
fn negamax<C: AbortController, P: Profiler, R: MoveRanker, E: ExampleCollector>(
    session: &mut SolvingSession<'_, C, P, R>,
    collector: &mut E,
    node: GoGame,
    alpha: i8,
    beta: i8,
    depth_left: u8,
) -> (r: Option<(i8, Vec<Move>)>)
    requires
        -1 <= alpha,
        beta <= 1,
        alpha < beta,
    ensures
        final(session).puzzle == old(session).puzzle,
        final(session).abort_controller == old(session).abort_controller,
        final(session).move_ranker == old(session).move_ranker,
        final(session).parents@ == old(session).parents@,
        r is Some ==> ({
            let sol = r->Some_0;
            let value = game_value(
                old(session).puzzle.player,
                old(session).puzzle.attacker,
                node,
                old(session).parents@,
                depth_left as nat,
            );
            &&& -1 <= sol.0 <= 1
            &&& (sol.0 < beta ==> value <= sol.0)
            &&& (sol.0 > alpha ==> value >= sol.0)
            &&& (crate::terminal::spec_is_terminal(
                node,
                old(session).puzzle.player,
                old(session).puzzle.attacker,
            ) is Some ==> sol.0 as int == value)
            &&& legal_line(node, sol.1@)
            &&& sol.1@.len() <= depth_left
        }),
        !old(session).abort_controller.may_abort() ==> r is Some,
    decreases depth_left,
{
    if session.abort_controller.should_abort() {
        return None;
    }

    session.profiler.visit_node();

    if let Some(value) = is_terminal(node, session.puzzle.player, session.puzzle.attacker) {
        let colour: i8 = if node.current_player == session.puzzle.player {
            1
        } else {
            -1
        };
        let score: i8 = if value {
            colour
        } else {
            -1 * colour
        };
        return Some((score, Vec::new()));
    }

    if depth_left == 0 {
        return Some((0, Vec::new()));
    }

    proof {
        assert(node.pass_state != PassState::PassedTwice);
    }
    let children = session.move_ranker.order_moves(node);

    let ghost player = old(session).puzzle.player;
    let ghost attacker = old(session).puzzle.attacker;
    let ghost path = old(session).parents@;
    let ghost dd = depth_left as nat;

    let mut m: i8 = -1;
    let mut cur_alpha: i8 = alpha;
    let mut pv: Vec<Move> = Vec::new();
    let mut recorded: bool = false;
    let mut idx: usize = 0;

    while idx < children.len() && m < beta
        invariant
            idx <= children@.len(),
            -1 <= m <= 1,
            cur_alpha as int == (if m > alpha {
                m as int
            } else {
                alpha as int
            }),
            legal_line(node, pv@),
            pv@.len() <= depth_left,
            session.puzzle == old(session).puzzle,
            session.abort_controller == old(session).abort_controller,
            session.move_ranker == old(session).move_ranker,
            session.parents@ == old(session).parents@,
            m < beta ==> forall|j: int|
                0 <= j < idx ==> path.contains((#[trigger] children@[j]).0) || -game_value(
                    player,
                    attacker,
                    children@[j].0,
                    path.push(children@[j].0),
                    (dd - 1) as nat,
                ) <= m as int,
            m > alpha ==> exists|j: int|
                0 <= j < idx && !path.contains((#[trigger] children@[j]).0) && -game_value(
                    player,
                    attacker,
                    children@[j].0,
                    path.push(children@[j].0),
                    (dd - 1) as nat,
                ) >= m as int,
        decreases children@.len() - idx,
    {
        let (child, go_move) = children[idx];
        let ghost m_pre = m;
        if !contains_game(&session.parents, &child) {
            session.parents.push(child);
            proof {
                assert(session.parents@ =~= path.push(child));
                assert(cur_alpha < beta);
            }
            let sub = negamax(session, collector, child, -1 * beta, -1 * cur_alpha, depth_left - 1);
            match sub {
                None => {
                    session.parents.pop();
                    proof {
                        assert(session.parents@ =~= old(session).parents@);
                    }
                    return None;
                },
                Some((child_score, child_pv)) => {
                    session.parents.pop();
                    proof {
                        assert(session.parents@ =~= old(session).parents@);
                    }
                    let ghost child_value = game_value(
                        player,
                        attacker,
                        child,
                        path.push(child),
                        (dd - 1) as nat,
                    );
                    let t: i8 = -1 * child_score;
                    if t > m || !recorded {
                        if t > m {
                            m = t;
                        }
                        let mut line: Vec<Move> = Vec::new();
                        line.push(go_move);
                        let mut rest = child_pv;
                        line.append(&mut rest);
                        proof {
                            assert(line@.drop_first() =~= sub->Some_0.1@);
                            assert(node.spec_play_move(go_move) == Ok::<
                                GoGame,
                                crate::game::MoveError,
                            >(child));
                        }
                        pv = line;
                        recorded = true;
                    }
                    if m >= beta {
                        if m != 0 {
                            if idx == 0 {
                                session.profiler.order_success();
                            } else {
                                session.profiler.order_miss();
                            }
                        }
                    }
                    if m > cur_alpha {
                        cur_alpha = m;
                    }
                    proof {
                        // the child's fail-soft bounds, seen from this node
                        if (t as int) < beta {
                            // the child score exceeded its alpha, so it is a
                            // lower bound on the child value
                            assert(child_value >= child_score as int);
                            assert(-child_value <= m as int);
                        }
                        if m == t && m_pre < t {
                            // the child score stayed below its beta, so it
                            // is an upper bound on the child value
                            if (m as int) > alpha {
                                assert(child_value <= child_score as int);
                                assert(-child_value >= m as int);
                            }
                        }
                        assert(m < beta ==> forall|j: int|
                            0 <= j < idx + 1 ==> path.contains((#[trigger] children@[j]).0)
                                || -game_value(
                                player,
                                attacker,
                                children@[j].0,
                                path.push(children@[j].0),
                                (dd - 1) as nat,
                            ) <= m as int);
                        if m > alpha {
                            if m == t && m_pre < t {
                                assert(!path.contains(children@[idx as int].0) && -game_value(
                                    player,
                                    attacker,
                                    children@[idx as int].0,
                                    path.push(children@[idx as int].0),
                                    (dd - 1) as nat,
                                ) >= m as int);
                            } else {
                                assert(m == m_pre);
                            }
                        }
                    }
                },
            }
        }
        idx = idx + 1;
    }

    proof {
        let value = game_value(player, attacker, node, path, dd);
        assert(value == best_value_from(player, attacker, node, path, dd, 0));
        if m < beta {
            // every child was examined and none beat `m`
            assert(idx == children@.len());
            assert forall|j: nat|
                0 <= j < 129 && node.spec_play_move(#[trigger] move_at(j)) is Ok && !path.contains(
                    node.spec_play_move(move_at(j))->Ok_0,
                ) implies -game_value(
                player,
                attacker,
                node.spec_play_move(move_at(j))->Ok_0,
                path.push(node.spec_play_move(move_at(j))->Ok_0),
                (dd - 1) as nat,
            ) <= m as int by {
                let mv = move_at(j);
                assert(node.spec_legal(mv));
                let i = choose|i: int| 0 <= i < children@.len() && children@[i].1 == mv;
                assert(children@[i].0 == node.spec_play_move(mv)->Ok_0);
            }
            lemma_best_le(player, attacker, node, path, dd, 0, m as int);
            assert(value <= m as int);
        }
        if m > alpha {
            let j = choose|j: int|
                0 <= j < idx && !path.contains((#[trigger] children@[j]).0) && -game_value(
                    player,
                    attacker,
                    children@[j].0,
                    path.push(children@[j].0),
                    (dd - 1) as nat,
                ) >= m as int;
            let mv = children@[j].1;
            assert(node.spec_play_move(mv) == Ok::<GoGame, crate::game::MoveError>(
                children@[j].0,
            ));
            assert(move_index(mv) < 129);
            lemma_best_ge(player, attacker, node, path, dd, 0, mv);
            assert(value >= m as int);
        }
    }

    if m != 0 {
        let winner = if m > 0 {
            node.current_player
        } else {
            node.current_player.flip()
        };
        collector.collect_example(node, winner);
    }

    Some((m, pv))
}


/// The value of a full search of `puzzle` limited to `d` plies: the
/// [`game_value`] of the starting position with the root itself as the only
/// path ancestor, exactly what one deepening iteration computes.
pub open spec fn root_value(puzzle: Puzzle, d: nat) -> int {
    game_value(puzzle.player, puzzle.attacker, puzzle.game, seq![puzzle.game], d)
}

/// The verdict iterative deepening assigns to a puzzle: some depth up to 255
/// settles the root to plus or minus one while every shallower depth was
/// still unsettled, and `won` is the sign of that first settled value.  This
/// is a function of the puzzle alone: no move ordering, clock or randomness
/// enters it, so any two solves that return at all agree on `won`.
pub open spec fn deepening_outcome_is(puzzle: Puzzle, won: bool) -> bool {
    exists|d: nat|
        1 <= d <= 255 && #[trigger] root_value(puzzle, d) == (if won {
            1int
        } else {
            -1int
        }) && (forall|e: nat| 1 <= e < d ==> root_value(puzzle, e) == 0)
}

/// The puzzle asking whether `first`, moving first on `board`, wins: a
/// fresh game on the board, with White attacking exactly when white stones
/// touch the out-of-bounds border.
pub open spec fn spec_puzzle_on(board: crate::board::GoBoard, first: GoPlayer) -> Puzzle {
    spec_puzzle_of(
        GoGame {
            ko_violations: crate::bit_board::BitBoard(0),
            board: board,
            current_player: first,
            pass_state: PassState::NoPass,
        },
    )
}

/// One iteration of the iterative deepening: a negamax limited to
/// `max_depth` plies, remembering the principal variation it found.
pub struct SolvingIteration {
    pub max_depth: u8,
    pub variations: Vec<Move>,
}

impl SolvingIteration {
    /// Runs the iteration.  A result of `0` means the depth limit was hit;
    /// `1` and `-1` are final verdicts for the side to move; nothing means
    /// the controller aborted.  A returned score is exactly the
    /// depth-limited [`game_value`] of the starting position: the root
    /// search window spans the whole ternary range, so the fail-soft bounds
    /// meet.
    pub fn solve<C: AbortController, P: Profiler, R: MoveRanker, E: ExampleCollector>(
        &mut self,
        session: &mut SolvingSession<'_, C, P, R>,
        collector: &mut E,
    ) -> (r: Option<i8>)
        ensures
            final(session).puzzle == old(session).puzzle,
            final(session).abort_controller == old(session).abort_controller,
            final(session).move_ranker == old(session).move_ranker,
            final(session).parents@ == old(session).parents@,
            r is Some ==> ({
                let pz = old(session).puzzle;
                &&& r->Some_0 as int == game_value(
                    pz.player,
                    pz.attacker,
                    pz.game,
                    old(session).parents@.push(pz.game),
                    old(self).max_depth as nat,
                )
                &&& -1 <= r->Some_0 <= 1
                &&& legal_line(old(session).puzzle.game, final(self).variations@)
                &&& final(self).variations@.len() <= old(self).max_depth
            }),
            !old(session).abort_controller.may_abort() ==> r is Some,
            final(self).max_depth == old(self).max_depth,
    {
        let game = session.puzzle.game;
        session.parents.push(game);
        let result = negamax(session, collector, game, -1, 1, self.max_depth);
        match result {
            None => {
                session.parents.pop();
                proof {
                    assert(session.parents@ =~= old(session).parents@);
                }
                None
            },
            Some((value, pv)) => {
                session.parents.pop();
                proof {
                    assert(session.parents@ =~= old(session).parents@);
                    let pz = old(session).puzzle;
                    lemma_game_value_range(
                        pz.player,
                        pz.attacker,
                        game,
                        old(session).parents@.push(game),
                        self.max_depth as nat,
                    );
                }
                self.variations = pv;
                Some(value)
            },
        }
    }

    /// The principal variation of the deepest finished search.
    pub fn principle_variation(self) -> (r: Vec<Move>)
        ensures
            r == self.variations,
    {
        self.variations
    }
}

impl Puzzle {
    /// Solves the puzzle with the given controller: deepen the search until
    /// an iteration returns a verdict, give up when the controller aborts.
    /// A returned solution's `won` is the sign of the first depth-limited
    /// root value that settles the position — a function of the puzzle
    /// alone; a never-abort controller comes back empty-handed only when no
    /// depth up to 255 settles it.
    fn solve_with_controller<C: AbortController, P: Profiler, E: ExampleCollector, R: MoveRanker>(
        &self,
        abort_controller: C,
        example_collector: &mut E,
        move_ranker: &R,
    ) -> (r: Option<Solution<P>>)
        ensures
            r is Some ==> deepening_outcome_is(*self, r->Some_0.won),
            r is Some ==> legal_line(self.game, r->Some_0.principle_variation@),
            !abort_controller.may_abort() ==> (r is Some || forall|d: nat|
                1 <= d <= 255 ==> root_value(*self, d) == 0),
    {
        let mut max_depth: u8 = 1;
        let mut session: SolvingSession<'_, C, P, R> = SolvingSession::new(
            *self,
            abort_controller,
            move_ranker,
        );

        loop
            invariant
                1 <= max_depth,
                session.puzzle == *self,
                session.abort_controller == abort_controller,
                session.parents@.len() == 0,
                forall|e: nat| 1 <= e < max_depth ==> root_value(*self, e) == 0,
            decreases 255 - max_depth,
        {
            let mut iteration = session.create_iteration(max_depth);
            let ghost parents_pre = session.parents@;
            let result = iteration.solve(&mut session, example_collector);
            proof {
                assert(parents_pre.push(self.game) =~= seq![self.game]);
            }
            match result {
                None => {
                    return None;
                },
                Some(value) => {
                    proof {
                        assert(value as int == root_value(*self, max_depth as nat));
                    }
                    if value != 0 {
                        proof {
                            assert(root_value(*self, max_depth as nat) == (if value > 0 {
                                1int
                            } else {
                                -1int
                            }));
                        }
                        return Some(
                            Solution {
                                won: value > 0,
                                principle_variation: iteration.principle_variation(),
                                profiler: session.profiler,
                            },
                        );
                    }
                },
            }
            if max_depth == u8::MAX {
                // the arena has 128 cells; no verdict by depth 255 means the
                // search space is exhausted and the position stays unknown
                return None;
            }
            max_depth = max_depth + 1;
            session.profiler.move_down();
        }
    }

    /// Solves the puzzle to the end, without a time limit.  A returned
    /// solution's `won` is the sign of the first depth-limited root value
    /// that settles the position; nothing comes back only when no depth up
    /// to 255 settles it.
    pub fn solve<P: Profiler, E: ExampleCollector, R: MoveRanker>(
        &self,
        example_collector: &mut E,
        move_ranker: &R,
    ) -> (r: Option<Solution<P>>)
        ensures
            r is Some ==> deepening_outcome_is(*self, r->Some_0.won),
            r is Some ==> legal_line(self.game, r->Some_0.principle_variation@),
            r is None ==> forall|d: nat| 1 <= d <= 255 ==> root_value(*self, d) == 0,
    {
        self.solve_with_controller::<NoAbortController, P, E, R>(
            NoAbortController,
            example_collector,
            move_ranker,
        )
    }

    /// Solves the puzzle, giving up once `timeout` has elapsed.  A returned
    /// solution carries the same `won` any completed solve of this puzzle
    /// yields — in particular the same as a solve with no time limit.
    pub fn solve_with_timeout<P: Profiler, E: ExampleCollector, R: MoveRanker>(
        &self,
        timeout: Duration,
        example_collector: &mut E,
        move_ranker: &R,
    ) -> (r: Option<Solution<P>>)
        ensures
            r is Some ==> deepening_outcome_is(*self, r->Some_0.won),
            r is Some ==> legal_line(self.game, r->Some_0.principle_variation@),
    {
        self.solve_with_controller::<TimeoutAbortController, P, E, R>(
            TimeoutAbortController::duration(timeout),
            example_collector,
            move_ranker,
        )
    }
}

} // verus!
