//! A solver for tsumego (life-and-death problems) on a 16x8 Go arena.
//!
//! The rules engine works over a 128-bit packed bitboard; the solver is an
//! iterative-deepening negamax with alpha-beta pruning over a ternary value
//! space, with Benson's unconditional-life test as an early terminal oracle.

pub mod bit_board;
pub mod board;
pub mod abort;
pub mod benson;
pub mod example_collector;
pub mod pn_search;
pub mod profiler;
pub mod proof_number;
pub mod terminal;
pub mod game;
pub mod generation;
pub mod gotools;
pub mod laws;
pub mod move_ranker;
pub mod rng;
pub mod sgf;
pub mod solver;
pub mod bits;
pub mod strutil;
