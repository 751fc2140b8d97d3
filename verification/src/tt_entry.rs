//! Transposition-table entries: a cached search result with its bound kind.

use vstd::prelude::*;

use crate::shobu_move::Move;

verus! {

/// Whether a cached score is the exact value of the node, only a lower
/// bound (the search was cut off), or only an upper bound (no move improved
/// the window).
#[derive(Clone, Copy)]
pub enum Bound {
    Exact,
    Lower,
    Upper,
}

pub struct TTEntry {
    pub variation_hash: u64,
    pub eval: i64,
    pub flag: Bound,
    pub depth: usize,
    pub best_move: Move,
}

impl TTEntry {
    pub fn new(hash: u64, eval: i64, flag: Bound, depth: usize, best_move: Move) -> (r: TTEntry)
        ensures
            r.variation_hash == hash,
            r.eval == eval,
            r.flag == flag,
            r.depth == depth,
            r.best_move == best_move,
    {
        TTEntry { variation_hash: hash, eval, flag, best_move, depth }
    }
}

} // verus!
