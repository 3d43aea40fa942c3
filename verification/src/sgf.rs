//! Reading and writing positions as SGF.
//!
//! The text format itself is the business of the `sgf_parser` crate, behind
//! the trusted items below; the fields it reads out of a text are given
//! names (`sgf_adds`, `sgf_triangle`, `sgf_moves`), each a function of the
//! text alone.  What the library owns — and proves — is the semantic
//! construction: placing the setup stones, recovering the out-of-bounds
//! region by flood-filling the empty region around the one triangle marker,
//! and replaying the recorded moves under the full rules.

use vstd::prelude::*;

use crate::bit_board::{BitBoard, BoardPosition};
use crate::bits;
use crate::bits::{cell, ff, sing};
use crate::board::{BoardCell, GoBoard, GoPlayer};
use crate::game::{board_with, GoGame};
use crate::solver::{spec_puzzle_of, Puzzle};
use sgf_parser::{Action, Color, SgfToken};

verus! {

/// The one semantic fact the library reads out of an SGF token: a setup
/// stone, the triangle marking the playable region, a played stone, a pass,
/// or something it does not consume.  Coordinates are as in the file,
/// 1-indexed.
#[derive(Copy, Clone, Debug, PartialEq, Eq, Structural)]
pub enum SgfProp {
    AddStone { player: GoPlayer, column: u8, row: u8 },
    Triangle { column: u8, row: u8 },
    PlayStone { player: GoPlayer, column: u8, row: u8 },
    PlayPass { player: GoPlayer },
    Other,
}

/// The semantic fields of one SGF record: the setup stones and triangle of
/// the first node, and the stones played in the following nodes.
pub struct SgfFields {
    pub adds: Vec<(GoPlayer, u8, u8)>,
    pub triangle: Option<(u8, u8)>,
    pub moves: Vec<(GoPlayer, u8, u8)>,
}

#[verifier::external_type_specification]
#[verifier::external_body]
pub struct ExSgfToken(SgfToken);

#[verifier::external_type_specification]
#[verifier::external_body]
pub struct ExColor(Color);

/// Relies on the two variants of `sgf_parser::Color`: maps each to the
/// library's colour of the same name.
#[verifier::external_body]
fn colour_of(color: &Color) -> GoPlayer {
    match color {
        Color::Black => GoPlayer::Black,
        Color::White => GoPlayer::White,
    }
}

/// Relies on the two variants of `sgf_parser::Color`: maps each of the
/// library's colours to the parser's colour of the same name.
#[verifier::external_body]
fn colour_to(player: GoPlayer) -> Color {
    match player {
        GoPlayer::Black => Color::Black,
        GoPlayer::White => Color::White,
    }
}

/// Relies on the shape of `sgf_parser::SgfToken`: reads the one consumed
/// fact out of a token, one variant per arm, moving only fields.
#[verifier::external_body]
fn token_prop(token: &SgfToken) -> SgfProp {
    match token {
        SgfToken::Add { color, coordinate } => SgfProp::AddStone { player: colour_of(color), column: coordinate.0, row: coordinate.1 },
        SgfToken::Triangle { coordinate } => SgfProp::Triangle { column: coordinate.0, row: coordinate.1 },
        SgfToken::Move { color, action: Action::Move(c, r) } => SgfProp::PlayStone { player: colour_of(color), column: *c, row: *r },
        SgfToken::Move { color, action: Action::Pass } => SgfProp::PlayPass { player: colour_of(color) },
        _ => SgfProp::Other,
    }
}

/// The per-node facts the parser reads out of the text: one list of
/// consumed facts per node of the main line, or nothing when the text does
/// not parse, branches into variations, or has no node.  A pure function of
/// the text: the parser is deterministic.
pub uninterp spec fn sgf_nodes_of(s: Seq<char>) -> Option<Seq<Seq<SgfProp>>>;

/// The setup stones of a list of node facts: the `AddStone` entries of the
/// first node, in order.
pub open spec fn prop_adds(props: Seq<SgfProp>) -> Seq<(GoPlayer, u8, u8)>
    decreases props.len(),
{
    if props.len() == 0 {
        Seq::empty()
    } else {
        prop_adds(props.drop_last()) + (match props.last() {
            SgfProp::AddStone { player, column, row } => seq![(player, column, row)],
            _ => Seq::empty(),
        })
    }
}

/// The last triangle marker among a node's facts.
pub open spec fn prop_triangle(props: Seq<SgfProp>) -> Option<(u8, u8)>
    decreases props.len(),
{
    if props.len() == 0 {
        None
    } else {
        match props.last() {
            SgfProp::Triangle { column, row } => Some((column, row)),
            _ => prop_triangle(props.drop_last()),
        }
    }
}

/// The stones played in a node, in order.
pub open spec fn prop_moves(props: Seq<SgfProp>) -> Seq<(GoPlayer, u8, u8)>
    decreases props.len(),
{
    if props.len() == 0 {
        Seq::empty()
    } else {
        prop_moves(props.drop_last()) + (match props.last() {
            SgfProp::PlayStone { player, column, row } => seq![(player, column, row)],
            _ => Seq::empty(),
        })
    }
}

/// The stones played in every node after the first, in order.
pub open spec fn nodes_moves(nodes: Seq<Seq<SgfProp>>) -> Seq<(GoPlayer, u8, u8)>
    decreases nodes.len(),
{
    if nodes.len() <= 1 {
        Seq::empty()
    } else {
        nodes_moves(nodes.drop_last()) + prop_moves(nodes.last())
    }
}

/// The discipline of a setup record: no stone is played in the first node,
/// and no setup stone is added in a later one.
pub open spec fn props_setup_ok(nodes: Seq<Seq<SgfProp>>) -> bool {
    forall|i: int, j: int|
        0 <= i < nodes.len() && 0 <= j < nodes[i].len() ==> (if i == 0 {
            !((#[trigger] nodes[i][j]) is PlayStone)
        } else {
            !(nodes[i][j] is AddStone)
        })
}

/// Does the text denote a well-formed single-line SGF setup record: it
/// parses into at least one node without variations, plays no stone in its
/// first node and adds no stone in a later one?
pub open spec fn sgf_setup_record(s: Seq<char>) -> bool {
    sgf_nodes_of(s) is Some && props_setup_ok(sgf_nodes_of(s)->Some_0)
}

/// The setup stones the text's first node adds, in order, 1-indexed.
pub open spec fn sgf_adds(s: Seq<char>) -> Seq<(GoPlayer, u8, u8)> {
    match sgf_nodes_of(s) {
        Some(nodes) => {
            if nodes.len() > 0 {
                prop_adds(nodes[0])
            } else {
                Seq::empty()
            }
        },
        None => Seq::empty(),
    }
}

/// The last triangle marker of the text's first node, 1-indexed.
pub open spec fn sgf_triangle(s: Seq<char>) -> Option<(u8, u8)> {
    match sgf_nodes_of(s) {
        Some(nodes) => {
            if nodes.len() > 0 {
                prop_triangle(nodes[0])
            } else {
                None
            }
        },
        None => None,
    }
}

/// The stones played in the text's later nodes, in order, 1-indexed.
pub open spec fn sgf_moves(s: Seq<char>) -> Seq<(GoPlayer, u8, u8)> {
    match sgf_nodes_of(s) {
        Some(nodes) => nodes_moves(nodes),
        None => Seq::empty(),
    }
}

/// The scan that shields the parser, as a state machine over the text:
/// outside a bracketed value (state 0), inside one (state 1), or right
/// after a backslash inside one (state 2).  Every value character — the
/// escaped one included — must be printable ASCII with code at least 38.
///
/// The parser slices property values by byte position (the first two bytes
/// become a coordinate, a label value is split after them) and turns bytes
/// into coordinates by subtracting 38 or 96.  The scan walks values exactly
/// as the grammar does — a backslash consumes the following character — so
/// under it every value byte is a one-byte character of code 38 to 127:
/// every slice position falls on a character boundary and every converted
/// byte stays in range.
pub open spec fn spec_value_chars_safe_from(s: Seq<char>, i: int, mode: int) -> bool
    decreases s.len() - i,
{
    if i < 0 || i >= s.len() {
        true
    } else if mode == 0 {
        if s[i] == '[' {
            spec_value_chars_safe_from(s, i + 1, 1)
        } else {
            spec_value_chars_safe_from(s, i + 1, 0)
        }
    } else if mode == 1 {
        if s[i] == ']' {
            spec_value_chars_safe_from(s, i + 1, 0)
        } else if s[i] == '\\' {
            spec_value_chars_safe_from(s, i + 1, 2)
        } else {
            (s[i] as int) >= 38 && (s[i] as int) < 128 && spec_value_chars_safe_from(s, i + 1, 1)
        }
    } else {
        (s[i] as int) >= 38 && (s[i] as int) < 128 && spec_value_chars_safe_from(s, i + 1, 1)
    }
}

/// The whole text passes the value-character scan.
pub open spec fn spec_value_chars_safe(s: Seq<char>) -> bool {
    spec_value_chars_safe_from(s, 0, 0)
}

/// Does the text denote a record that the library will read: the scan that
/// shields the parser passes, and the text is a well-formed setup record?
pub open spec fn spec_sgf_ok(s: Seq<char>) -> bool {
    spec_value_chars_safe(s) && sgf_setup_record(s)
}

/// Runs the value-character scan.
pub fn sgf_text_safe(s: &str) -> (r: bool)
    ensures
        r == spec_value_chars_safe(s@),
{
    let n = s.unicode_len();
    let mut i: usize = 0;
    let mut mode: u8 = 0;
    while i < n
        invariant
            i <= n,
            n == s@.len(),
            mode <= 2,
            spec_value_chars_safe(s@) == spec_value_chars_safe_from(s@, i as int, mode as int),
        decreases n - i,
    {
        let c = s.get_char(i);
        if mode == 0 {
            mode = if c == '[' {
                1
            } else {
                0
            };
        } else if mode == 1 {
            if c == ']' {
                mode = 0;
            } else if c == '\\' {
                mode = 2;
            } else if (c as u32) < 38 || (c as u32) >= 128 {
                proof {
                    assert(!((c as int) >= 38 && (c as int) < 128));
                }
                return false;
            }
        } else {
            if (c as u32) < 38 || (c as u32) >= 128 {
                proof {
                    assert(!((c as int) >= 38 && (c as int) < 128));
                }
                return false;
            }
            mode = 1;
        }
        i = i + 1;
    }
    true
}

/// Relies on `sgf_parser::parse` and the public `nodes`, `variations` and
/// `tokens` fields of its game tree: converts the text into one list of
/// consumed facts per node of the main line — pure conversion, one
/// `token_prop` call per token — or nothing when the text does not parse,
/// branches, or has no node.  The result is the name `sgf_nodes_of`, a
/// function of the text alone.  The scan in `requires` keeps the parser's
/// byte slicing on character boundaries and its byte-to-coordinate
/// conversion in range.
#[verifier::external_body]
fn parse_nodes(s: &str) -> (r: Option<Vec<Vec<SgfProp>>>)
    requires
        spec_value_chars_safe(s@),
    ensures
        r is Some <==> sgf_nodes_of(s@) is Some,
        r is Some ==> r->Some_0@.map_values(|v: Vec<SgfProp>| v@) == sgf_nodes_of(s@)->Some_0,
        r is Some ==> r->Some_0@.len() > 0,
{
    let tree = sgf_parser::parse(s).ok()?;
    if !tree.variations.is_empty() || tree.nodes.is_empty() {
        return None;
    }
    let mut nodes: Vec<Vec<SgfProp>> = Vec::new();
    for node in &tree.nodes {
        let mut props: Vec<SgfProp> = Vec::new();
        for token in &node.tokens {
            props.push(token_prop(token));
        }
        nodes.push(props);
    }
    Some(nodes)
}

/// Relies on `sgf_parser`'s `GameTree`, `GameNode`, `SgfToken` constructors
/// and `Into<String>`: renders one node holding the given setup stones and
/// one triangle as SGF text, a function `sgf_text_of` of the lists alone.
/// The renderer adds 96 to each coordinate below 27 to form its letter, so
/// the coordinates must stay below 27 to rule out wrapping.
#[verifier::external_body]
fn sgf_text_of_setup(adds: &Vec<(GoPlayer, u8, u8)>, triangle: (u8, u8)) -> (r: String)
    requires
        forall|i: int|
            0 <= i < adds@.len() ==> (#[trigger] adds@[i]).1 <= 26 && adds@[i].2 <= 26,
        triangle.0 <= 26 && triangle.1 <= 26,
    ensures
        r@ == sgf_text_of(adds@, triangle),
{
    let mut tokens: Vec<SgfToken> = adds.iter().map(
        |&(p, c, r)| SgfToken::Add { color: colour_to(p), coordinate: (c, r) },
    ).collect();
    tokens.push(SgfToken::Triangle { coordinate: triangle });
    let tree = sgf_parser::GameTree {
        nodes: vec![sgf_parser::GameNode { tokens }],
        variations: Vec::new(),
    };
    tree.into()
}

/// The SGF text rendering one node of setup stones and one triangle.
pub uninterp spec fn sgf_text_of(adds: Seq<(GoPlayer, u8, u8)>, triangle: (u8, u8)) -> Seq<char>;

/// Folds the per-node facts into the record's fields, rejecting a record
/// that plays a stone in its first node or adds one in a later node.
#[verifier::loop_isolation(false)]
fn fold_fields(nodes: &Vec<Vec<SgfProp>>) -> (r: Option<SgfFields>)
    requires
        nodes@.len() > 0,
    ensures
        r is Some <==> props_setup_ok(nodes@.map_values(|v: Vec<SgfProp>| v@)),
        r is Some ==> ({
            let ns = nodes@.map_values(|v: Vec<SgfProp>| v@);
            &&& r->Some_0.adds@ == prop_adds(ns[0])
            &&& r->Some_0.triangle == prop_triangle(ns[0])
            &&& r->Some_0.moves@ == nodes_moves(ns)
        }),
{
    let ghost ns = nodes@.map_values(|v: Vec<SgfProp>| v@);
    let mut adds: Vec<(GoPlayer, u8, u8)> = Vec::new();
    let mut triangle: Option<(u8, u8)> = None;
    let mut moves: Vec<(GoPlayer, u8, u8)> = Vec::new();

    let first = &nodes[0];
    let mut j: usize = 0;
    while j < first.len()
        invariant
            j <= first@.len(),
            first@ == ns[0],
            adds@ == prop_adds(ns[0].take(j as int)),
            triangle == prop_triangle(ns[0].take(j as int)),
            forall|q: int| 0 <= q < j ==> !((#[trigger] ns[0][q]) is PlayStone),
        decreases first@.len() - j,
    {
        proof {
            assert(ns[0].take(j as int + 1).drop_last() =~= ns[0].take(j as int));
            assert(ns[0].take(j as int + 1).last() == ns[0][j as int]);
        }
        match first[j] {
            SgfProp::AddStone { player, column, row } => {
                adds.push((player, column, row));
            },
            SgfProp::Triangle { column, row } => {
                triangle = Some((column, row));
            },
            SgfProp::PlayStone { .. } => {
                proof {
                    assert(!props_setup_ok(ns)) by {
                        assert((ns[0][j as int]) is PlayStone);
                    }
                }
                return None;
            },
            _ => {},
        }
        j = j + 1;
    }
    proof {
        assert(ns[0].take(first@.len() as int) =~= ns[0]);
        assert(nodes_moves(ns.take(1)) == Seq::<(GoPlayer, u8, u8)>::empty());
    }

    let mut i: usize = 1;
    while i < nodes.len()
        invariant
            1 <= i <= nodes@.len(),
            moves@ == nodes_moves(ns.take(i as int)),
            forall|q: int| 0 <= q < ns[0].len() ==> !((#[trigger] ns[0][q]) is PlayStone),
            forall|p: int, q: int|
                1 <= p < i && 0 <= q < ns[p].len() ==> !((#[trigger] ns[p][q]) is AddStone),
        decreases nodes@.len() - i,
    {
        let node = &nodes[i];
        let mut j: usize = 0;
        while j < node.len()
            invariant
                1 <= i < nodes@.len(),
                j <= node@.len(),
                node@ == ns[i as int],
                moves@ == nodes_moves(ns.take(i as int)) + prop_moves(ns[i as int].take(j as int)),
                forall|q: int| 0 <= q < ns[0].len() ==> !((#[trigger] ns[0][q]) is PlayStone),
                forall|p: int, q: int|
                    1 <= p < i && 0 <= q < ns[p].len() ==> !((#[trigger] ns[p][q]) is AddStone),
                forall|q: int| 0 <= q < j ==> !((#[trigger] ns[i as int][q]) is AddStone),
            decreases node@.len() - j,
        {
            proof {
                assert(ns[i as int].take(j as int + 1).drop_last() =~= ns[i as int].take(j as int));
                assert(ns[i as int].take(j as int + 1).last() == ns[i as int][j as int]);
            }
            match node[j] {
                SgfProp::PlayStone { player, column, row } => {
                    moves.push((player, column, row));
                },
                SgfProp::AddStone { .. } => {
                    proof {
                        assert(!props_setup_ok(ns)) by {
                            assert((ns[i as int][j as int]) is AddStone);
                        }
                    }
                    return None;
                },
                _ => {},
            }
            j = j + 1;
        }
        proof {
            assert(ns[i as int].take(node@.len() as int) =~= ns[i as int]);
            assert(ns.take(i as int + 1).drop_last() =~= ns.take(i as int));
            assert(ns.take(i as int + 1).last() =~= ns[i as int]);
        }
        i = i + 1;
    }
    proof {
        assert(ns.take(nodes@.len() as int) =~= ns);
        assert(props_setup_ok(ns));
    }
    Some(SgfFields { adds, triangle, moves })
}

/// Is a 1-indexed SGF coordinate pair on the 16x8 arena?
pub open spec fn coord_ok(column: u8, row: u8) -> bool {
    1 <= column <= 16 && 1 <= row <= 8
}

/// The cell index of a 1-indexed coordinate pair.
pub open spec fn coord_idx(column: u8, row: u8) -> u128 {
    (column - 1 + 16 * (row - 1)) as u128
}

/// The board after writing all the setup stones, in order; nothing if some
/// coordinate leaves the arena.
pub open spec fn spec_apply_adds(b: GoBoard, adds: Seq<(GoPlayer, u8, u8)>) -> Option<GoBoard>
    decreases adds.len(),
{
    if adds.len() == 0 {
        Some(b)
    } else {
        let (p, c, r) = adds[0];
        if coord_ok(c, r) {
            spec_apply_adds(board_with(b, coord_idx(c, r), p), adds.drop_first())
        } else {
            None
        }
    }
}

/// The game after replaying all the recorded moves, in order, under the full
/// rules; nothing if a move leaves the arena, is played out of turn, or is
/// rejected by the rules.  A recorded pass is skipped, as the original
/// puzzle records carry none.
pub open spec fn spec_apply_moves(g: GoGame, moves: Seq<(GoPlayer, u8, u8)>) -> Option<GoGame>
    decreases moves.len(),
{
    if moves.len() == 0 {
        Some(g)
    } else {
        let (p, c, r) = moves[0];
        if !coord_ok(c, r) {
            None
        } else if g.current_player != p {
            None
        } else {
            match g.spec_place_stone(BoardPosition((c - 1 + 16 * (r - 1)) as u8)) {
                Ok(g2) => spec_apply_moves(g2, moves.drop_first()),
                Err(e) => None,
            }
        }
    }
}

/// The board with its out-of-bounds region replaced.
pub open spec fn board_set_oob(b: GoBoard, oob: u128) -> GoBoard {
    GoBoard {
        white: BitBoard((b.white.0 & !b.oob_mask()) | oob),
        black: BitBoard((b.black.0 & !b.oob_mask()) | oob),
    }
}

/// The game denoted by the semantic fields of an SGF record: the setup
/// stones written on an empty board; the out-of-bounds region recovered as
/// the connected empty region around the triangle, if one is given; then the
/// recorded moves replayed with `first_player` to move.
pub open spec fn spec_game_from_setup(
    adds: Seq<(GoPlayer, u8, u8)>,
    triangle: Option<(u8, u8)>,
    moves: Seq<(GoPlayer, u8, u8)>,
    first_player: GoPlayer,
) -> Option<GoGame> {
    match spec_apply_adds(GoBoard { white: BitBoard(0), black: BitBoard(0) }, adds) {
        None => None,
        Some(b) => {
            let b2 = match triangle {
                Some((c, r)) => if coord_ok(c, r) {
                    Some(board_set_oob(b, ff(sing(coord_idx(c, r)), b.empty_mask())))
                } else {
                    None
                },
                None => Some(b),
            };
            match b2 {
                None => None,
                Some(board) => spec_apply_moves(
                    GoGame {
                        ko_violations: BitBoard(0),
                        board: board,
                        current_player: first_player,
                        pass_state: crate::game::PassState::NoPass,
                    },
                    moves,
                ),
            }
        },
    }
}

/// Builds the game a parsed SGF record denotes, exactly as
/// [`spec_game_from_setup`] describes.
#[verifier::loop_isolation(false)]
pub fn game_from_setup(
    adds: &Vec<(GoPlayer, u8, u8)>,
    triangle: Option<(u8, u8)>,
    moves: &Vec<(GoPlayer, u8, u8)>,
    first_player: GoPlayer,
) -> (r: Option<GoGame>)
    ensures
        r == spec_game_from_setup(adds@, triangle, moves@, first_player),
{
    let mut board = GoBoard::empty();
    proof {
        assert(adds@.skip(0) =~= adds@);
        assert(board == (GoBoard { white: BitBoard(0), black: BitBoard(0) }));
    }
    let mut i: usize = 0;
    while i < adds.len()
        invariant
            i <= adds@.len(),
            spec_apply_adds(GoBoard { white: BitBoard(0), black: BitBoard(0) }, adds@)
                == spec_apply_adds(board, adds@.skip(i as int)),
        decreases adds@.len() - i,
    {
        let (p, c, r) = adds[i];
        proof {
            assert(adds@.skip(i as int)[0] == adds@[i as int]);
            assert(adds@.skip(i as int).drop_first() =~= adds@.skip(i as int + 1));
        }
        if !(1 <= c && c <= 16 && 1 <= r && r <= 8) {
            return None;
        }
        let pos = BoardPosition::new(c - 1, r - 1);
        let ghost pre = board;
        board.set_cell(pos, BoardCell::Occupied(p));
        proof {
            crate::game::lemma_set_cell_board_with(pre, board, pos.idx(), p);
            assert(pos.idx() == coord_idx(c, r));
        }
        i = i + 1;
    }
    proof {
        assert(adds@.skip(adds@.len() as int) =~= Seq::<(GoPlayer, u8, u8)>::empty());
    }

    if let Some((c, r)) = triangle {
        if !(1 <= c && c <= 16 && 1 <= r && r <= 8) {
            return None;
        }
        let pos = BoardPosition::new(c - 1, r - 1);
        let oob = BitBoard::singleton(pos).flood_fill(board.empty_cells());
        let ghost pre = board;
        board.set_out_of_bounds(oob);
        proof {
            assert(pos.idx() == coord_idx(c, r));
            assert(board == board_set_oob(pre, ff(sing(coord_idx(c, r)), pre.empty_mask())));
        }
    }

    let mut game = GoGame::from_board(board, first_player);
    proof {
        assert(moves@.skip(0) =~= moves@);
    }
    let mut j: usize = 0;
    while j < moves.len()
        invariant
            j <= moves@.len(),
            spec_game_from_setup(adds@, triangle, moves@, first_player) == spec_apply_moves(
                game,
                moves@.skip(j as int),
            ),
        decreases moves@.len() - j,
    {
        let (p, c, r) = moves[j];
        proof {
            assert(moves@.skip(j as int)[0] == moves@[j as int]);
            assert(moves@.skip(j as int).drop_first() =~= moves@.skip(j as int + 1));
        }
        if !(1 <= c && c <= 16 && 1 <= r && r <= 8) {
            return None;
        }
        if game.current_player != p {
            return None;
        }
        let pos = BoardPosition::new(c - 1, r - 1);
        match game.place_stone(pos) {
            Ok(g2) => {
                game = g2;
            },
            Err(_) => {
                return None;
            },
        }
        j = j + 1;
    }
    proof {
        assert(moves@.skip(moves@.len() as int) =~= Seq::<(GoPlayer, u8, u8)>::empty());
    }
    Some(game)
}

impl GoGame {
    /// Reads a game from SGF text: the first node's setup stones and
    /// triangle define the starting board, later nodes' moves are replayed.
    /// For every readable text — one that passes the value scan and denotes
    /// a well-formed setup record — the result is exactly the game
    /// [`spec_game_from_setup`] builds from the text's named fields; for
    /// every other text it is nothing.
    pub fn from_sgf(sgf_string: &str, first_player: GoPlayer) -> (r: Option<GoGame>)
        ensures
            r == (if spec_sgf_ok(sgf_string@) {
                spec_game_from_setup(
                    sgf_adds(sgf_string@),
                    sgf_triangle(sgf_string@),
                    sgf_moves(sgf_string@),
                    first_player,
                )
            } else {
                None::<GoGame>
            }),
    {
        if !sgf_text_safe(sgf_string) {
            return None;
        }
        let nodes = match parse_nodes(sgf_string) {
            Some(ns) => ns,
            None => {
                return None;
            },
        };
        let fields = match fold_fields(&nodes) {
            Some(f) => f,
            None => {
                return None;
            },
        };
        game_from_setup(&fields.adds, fields.triangle, &fields.moves, first_player)
    }
}

/// The setup-stone list for one colour: one entry per stone with cell index
/// below `n`, in increasing cell order, with 1-indexed coordinates.
pub open spec fn setup_adds_below(b: GoBoard, colour: GoPlayer, n: nat) -> Seq<(GoPlayer, u8, u8)>
    decreases n,
{
    if n == 0 {
        Seq::empty()
    } else {
        setup_adds_below(b, colour, (n - 1) as nat) + (if cell(
            b.stones_mask(colour),
            (n - 1) as u128,
        ) {
            seq![(colour, (((n - 1) % 16) + 1) as u8, (((n - 1) / 16) + 1) as u8)]
        } else {
            Seq::empty()
        })
    }
}

/// The setup-stone list of a board: every black stone, then every white
/// stone, each in increasing cell order, with 1-indexed coordinates.
pub open spec fn spec_setup_adds(b: GoBoard) -> Seq<(GoPlayer, u8, u8)> {
    setup_adds_below(b, GoPlayer::Black, 128) + setup_adds_below(b, GoPlayer::White, 128)
}

impl GoBoard {
    /// Renders the board as SGF: one node adding every stone — black then
    /// white, in cell order, 1-indexed — plus a triangle at the least
    /// out-of-bounds cell, from which parsing recovers the full region by
    /// flood fill.  The board must have an out-of-bounds region for a
    /// representative to exist.
    #[verifier::loop_isolation(false)]
    pub fn to_sgf(&self) -> (r: String)
        requires
            self.oob_mask() != 0,
        ensures
            r@ == sgf_text_of(
                spec_setup_adds(*self),
                (
                    (bits::first_cell(self.oob_mask()) % 16 + 1) as u8,
                    (bits::first_cell(self.oob_mask()) / 16 + 1) as u8,
                ),
            ),
    {
        let mut adds: Vec<(GoPlayer, u8, u8)> = Vec::new();
        let colours = GoPlayer::both();
        let mut ci: usize = 0;
        while ci < 2
            invariant
                ci <= 2,
                adds@ == (if ci == 0 {
                    Seq::<(GoPlayer, u8, u8)>::empty()
                } else if ci == 1 {
                    setup_adds_below(*self, GoPlayer::Black, 128)
                } else {
                    spec_setup_adds(*self)
                }),
                forall|q: int|
                    0 <= q < adds@.len() ==> (#[trigger] adds@[q]).1 <= 26 && adds@[q].2 <= 26,
            decreases 2 - ci,
        {
            let colour = colours[ci];
            let stones = self.get_bitboard_for_player(colour);
            let ghost before = adds@;
            let mut k: u8 = 0;
            while k < 128
                invariant
                    k <= 128,
                    colour == (if ci == 0 {
                        GoPlayer::Black
                    } else {
                        GoPlayer::White
                    }),
                    stones.0 == self.stones_mask(colour),
                    adds@ == before + setup_adds_below(*self, colour, k as nat),
                    forall|q: int|
                        0 <= q < adds@.len() ==> (#[trigger] adds@[q]).1 <= 26 && adds@[q].2 <= 26,
                decreases 128 - k,
            {
                let position = BoardPosition(k);
                if stones.is_set(position) {
                    let (x, y) = position.to_pair();
                    adds.push((colour, x + 1, y + 1));
                    proof {
                        assert(adds@ =~= before + setup_adds_below(*self, colour, k as nat + 1));
                    }
                } else {
                    proof {
                        assert(adds@ =~= before + setup_adds_below(*self, colour, k as nat + 1));
                    }
                }
                k = k + 1;
            }
            ci = ci + 1;
        }
        proof {
            assert(adds@ =~= spec_setup_adds(*self));
        }
        let representative = self.out_of_bounds().some_cell();
        let (tx, ty) = representative.to_pair();
        sgf_text_of_setup(&adds, (tx + 1, ty + 1))
    }
}

impl Puzzle {
    /// Reads a puzzle from SGF text; see [`GoGame::from_sgf`].
    pub fn from_sgf(sgf_string: &str, first_player: GoPlayer) -> (r: Option<Puzzle>)
        ensures
            r == (if spec_sgf_ok(sgf_string@) {
                match spec_game_from_setup(
                    sgf_adds(sgf_string@),
                    sgf_triangle(sgf_string@),
                    sgf_moves(sgf_string@),
                    first_player,
                ) {
                    Some(g) => Some(spec_puzzle_of(g)),
                    None => None::<Puzzle>,
                }
            } else {
                None::<Puzzle>
            }),
    {
        match GoGame::from_sgf(sgf_string, first_player) {
            Some(game) => Some(Puzzle::new(game)),
            None => None,
        }
    }
}

} // verus!
