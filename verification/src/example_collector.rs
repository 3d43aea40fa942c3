//! Collection of training examples from solved positions.
//!
//! The solver hands every decided node to a collector together with the
//! winning colour.  The encoding of an example is fixed: 49 bytes, the three
//! board planes in big-endian order and one outcome byte, with the position
//! canonicalised so that Black is to move.

use vstd::prelude::*;

use crate::board::{GoBoard, GoPlayer};
use crate::game::GoGame;
use std::sync::mpsc::Sender;

verus! {

/// A sink for `(position, winner)` records produced during search.
pub trait ExampleCollector: Sized {
    fn collect_example(&mut self, node: GoGame, player_won: GoPlayer);
}

/// A collector that discards every example.
pub struct NullExampleCollector;

impl ExampleCollector for NullExampleCollector {
    fn collect_example(&mut self, node: GoGame, player_won: GoPlayer) {
    }
}

#[verifier::external_type_specification]
#[verifier::external_body]
#[verifier::reject_recursive_types(T)]
pub struct ExSender<T>(Sender<T>);

/// Relies on `std::sync::mpsc::Sender::send`: hands the value to the
/// receiving end; a value sent to a disconnected receiver is dropped.
#[verifier::external_body]
fn send_example(tx: &Sender<(GoGame, GoPlayer)>, node: GoGame, player_won: GoPlayer) {
    let _ = tx.send((node, player_won));
}

/// Relies on `std::sync::mpsc::Sender::clone`: another sending handle for
/// the same channel.
#[verifier::external_body]
fn clone_sender(tx: &Sender<(GoGame, GoPlayer)>) -> Sender<(GoGame, GoPlayer)> {
    tx.clone()
}

/// A collector that ships every example over a channel, for a writer
/// elsewhere to persist.
pub struct ChannelExampleCollector {
    tx: Sender<(GoGame, GoPlayer)>,
}

impl ChannelExampleCollector {
    pub fn new(tx: Sender<(GoGame, GoPlayer)>) -> ChannelExampleCollector {
        ChannelExampleCollector { tx }
    }

    /// Another collector feeding the same channel.
    pub fn duplicate(&self) -> ChannelExampleCollector {
        ChannelExampleCollector { tx: clone_sender(&self.tx) }
    }
}

impl ExampleCollector for ChannelExampleCollector {
    fn collect_example(&mut self, node: GoGame, player_won: GoPlayer) {
        send_example(&self.tx, node, player_won);
    }
}

/// The sixteen big-endian bytes of a 128-bit word.
pub open spec fn be_bytes_seq(x: u128) -> Seq<u8> {
    Seq::new(16, |i: int| ((x >> ((8 * (15 - i)) as u128)) & 0xff) as u8)
}

/// The 49-byte record for a decided position: bytes 0..16 the stones of the
/// side to move, bytes 16..32 the other side's stones, bytes 32..48 the
/// playable cells, byte 48 whether the side to move won — all after swapping
/// colours if needed so that the side to move is Black.
pub open spec fn spec_example_bytes(node: GoGame, player_won: GoPlayer) -> Seq<u8> {
    let board = if node.current_player == GoPlayer::Black {
        node.board
    } else {
        GoBoard { white: node.board.black, black: node.board.white }
    };
    be_bytes_seq(board.stones_mask(GoPlayer::Black)) + be_bytes_seq(
        board.stones_mask(GoPlayer::White),
    ) + be_bytes_seq(!board.oob_mask()) + seq![
        if player_won == node.current_player {
            1u8
        } else {
            0u8
        },
    ]
}

/// The sixteen big-endian bytes of a 128-bit word, as a vector.
pub fn u128_be_bytes(x: u128) -> (r: Vec<u8>)
    ensures
        r@ == be_bytes_seq(x),
{
    let mut out: Vec<u8> = Vec::new();
    let mut i: u8 = 0;
    while i < 16
        invariant
            i <= 16,
            out@.len() == i,
            forall|m: int|
                0 <= m < i ==> out@[m] == ((x >> ((8 * (15 - m)) as u128)) & 0xff) as u8,
        decreases 16 - i,
    {
        let shift: u128 = 8 * (15 - (i as u128));
        out.push(((x >> shift) & 0xff) as u8);
        i = i + 1;
    }
    proof {
        assert(out@ =~= be_bytes_seq(x));
    }
    out
}

/// Encodes one example in the persisted format: 49 bytes as described by
/// [`spec_example_bytes`].
pub fn encode_example(node: &GoGame, player_won: GoPlayer) -> (r: Vec<u8>)
    ensures
        r@ == spec_example_bytes(*node, player_won),
        r@.len() == 49,
{
    // always make it black to play
    let board = if node.current_player == GoPlayer::Black {
        node.board
    } else {
        node.board.invert_colours()
    };

    let mut bytes = u128_be_bytes(board.get_bitboard_for_player(GoPlayer::Black).0);
    let mut white = u128_be_bytes(board.get_bitboard_for_player(GoPlayer::White).0);
    let mut playable = u128_be_bytes(board.out_of_bounds().invert().0);
    bytes.append(&mut white);
    bytes.append(&mut playable);
    let won: u8 = if player_won == node.current_player {
        1
    } else {
        0
    };
    bytes.push(won);
    proof {
        assert(bytes@ =~= spec_example_bytes(*node, player_won));
    }
    bytes
}

} // verus!
