//! A verified engine for the four-board push game Shobu: rules and move
//! generation, symmetry-aware incremental Zobrist hashing, a transposition
//! table, and a negamax search with alpha-beta pruning.

pub mod shobu_move;
pub mod symmetry;
pub mod shobu;
pub mod rng;
pub mod tt_entry;
pub mod zobrist;
pub mod utils;
pub mod bot;
pub mod laws;
