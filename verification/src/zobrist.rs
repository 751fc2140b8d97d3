//! From-scratch Zobrist hashing of a position, for any of the four
//! symmetry images.

use vstd::prelude::*;

use crate::shobu::{Shobu, part_hash_x, scratch_hash, shift_for, BLACK};
use crate::rng::{seeded_keys, piece_key_material, marker_key_material};

verus! {

pub struct Zobrist {
    pub piece_vals: [[u64; 8]; 2],
    pub black_to_go: u64,
}

impl Zobrist {
    /// The fixed key material, drawn from the same seeded stream the board
    /// state uses.
    pub fn new() -> (r: Zobrist)
        ensures
            r.piece_vals == piece_key_material(2137),
            r.black_to_go == marker_key_material(2137),
    {
        let (keys, marker) = seeded_keys(2137);
        Zobrist { piece_vals: keys, black_to_go: marker }
    }

    /// The scratch hash of `position` under one symmetry image, computed
    /// with this key set.
    pub fn get_hash(&self, position: &Shobu, color_swap: bool, horizontal_swap: bool) -> (r: u64)
        ensures
            r == scratch_hash(
                position.boards,
                self.piece_vals,
                self.black_to_go,
                position.active_player == BLACK,
                if horizontal_swap {
                    1int
                } else {
                    0int
                },
                if color_swap {
                    1int
                } else {
                    0int
                },
            ),
    {
        let x: usize = if horizontal_swap {
            1
        } else {
            0
        };
        let y: usize = if color_swap {
            1
        } else {
            0
        };
        let mut hash: u64 = if position.active_player == BLACK {
            self.black_to_go
        } else {
            0
        };
        hash = hash ^ part_hash_x(&position.boards, &self.piece_vals, 0, 0, shift_for(x, y, 0));
        hash = hash ^ part_hash_x(&position.boards, &self.piece_vals, 0, 1, shift_for(x, y, 1));
        hash = hash ^ part_hash_x(&position.boards, &self.piece_vals, 1, 0, shift_for(x, y, 2));
        hash = hash ^ part_hash_x(&position.boards, &self.piece_vals, 1, 1, shift_for(x, y, 3));
        hash = hash ^ part_hash_x(&position.boards, &self.piece_vals, 2, 0, shift_for(x, y, 4));
        hash = hash ^ part_hash_x(&position.boards, &self.piece_vals, 2, 1, shift_for(x, y, 5));
        hash = hash ^ part_hash_x(&position.boards, &self.piece_vals, 3, 0, shift_for(x, y, 6));
        hash = hash ^ part_hash_x(&position.boards, &self.piece_vals, 3, 1, shift_for(x, y, 7));
        hash
    }
}

} // verus!
