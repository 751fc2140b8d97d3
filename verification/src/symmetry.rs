//! The four-element symmetry group on boards and moves: swapping each
//! sub-board with its opposite-colour partner, and mirroring the playable
//! interior horizontally.

use vstd::prelude::*;

use crate::shobu::{playable, is_direction, Shobu};
use crate::shobu_move::Move;
use crate::tt_entry::TTEntry;

verus! {

/// The sub-board paired with `board_id` on the other colour track.
pub open spec fn spec_opposite_color_board(board_id: int) -> int {
    if board_id % 2 == 0 {
        board_id + 1
    } else {
        board_id - 1
    }
}

pub fn opposite_color_board(board_id: usize) -> (r: usize)
    requires
        board_id < 4,
    ensures
        r as int == spec_opposite_color_board(board_id as int),
        r < 4,
{
    match board_id {
        0 => 1,
        1 => 0,
        2 => 3,
        _ => 2,
    }
}

/// The image of a direction offset under the horizontal mirror.
pub open spec fn spec_direction_flipped(direction: i8) -> i8 {
    if direction == -5 {
        -7i8
    } else if direction == 1 {
        -1i8
    } else if direction == 7 {
        5i8
    } else if direction == 5 {
        7i8
    } else if direction == -1 {
        1i8
    } else if direction == -7 {
        -5i8
    } else {
        direction
    }
}

pub fn direction_flipped(direction: i8) -> (r: i8)
    requires
        is_direction(direction),
    ensures
        r == spec_direction_flipped(direction),
        is_direction(r),
{
    match direction {
        -6 => -6,
        -5 => -7,
        1 => -1,
        7 => 5,
        6 => 6,
        5 => 7,
        -1 => 1,
        _ => -5,
    }
}

/// The image of a playable cell under the horizontal mirror of its row.
pub open spec fn spec_tile_flipped(tile: int) -> int {
    if tile % 6 == 1 {
        tile + 3
    } else if tile % 6 == 2 {
        tile + 1
    } else if tile % 6 == 3 {
        tile - 1
    } else {
        tile - 3
    }
}

pub fn tile_flipped(tile: usize) -> (r: usize)
    requires
        playable(tile as int),
    ensures
        r as int == spec_tile_flipped(tile as int),
        playable(r as int),
{
    match tile % 6 {
        1 => tile + 3,
        2 => tile + 1,
        3 => tile - 1,
        _ => tile - 3,
    }
}

pub proof fn lemma_tile_flipped_involution(tile: int)
    requires
        playable(tile),
    ensures
        spec_tile_flipped(spec_tile_flipped(tile)) == tile,
{
}

/// The image of a move under a combination of the two symmetries.
pub open spec fn spec_move_symmetric(mv: Move, color_swap: bool, horizontal_swap: bool) -> Move {
    let b1 = if color_swap {
        spec_opposite_color_board(mv.board_1 as int)
    } else {
        mv.board_1 as int
    };
    let b2 = if color_swap {
        spec_opposite_color_board(mv.board_2 as int)
    } else {
        mv.board_2 as int
    };
    let d = if horizontal_swap {
        spec_direction_flipped(mv.direction)
    } else {
        mv.direction
    };
    let f1 = if horizontal_swap {
        spec_tile_flipped(mv.from_1 as int)
    } else {
        mv.from_1 as int
    };
    let f2 = if horizontal_swap {
        spec_tile_flipped(mv.from_2 as int)
    } else {
        mv.from_2 as int
    };
    Move {
        board_1: b1 as usize,
        board_2: b2 as usize,
        direction: d,
        from_1: f1 as usize,
        from_2: f2 as usize,
        double: mv.double,
    }
}

impl Move {
    /// Translate a move found under one symmetry image of a position back
    /// into the move applicable to the untransformed position.
    pub fn to_symmetric(&self, color_swap: bool, horizontal_swap: bool) -> (r: Move)
        requires
            self.in_range(),
        ensures
            r == spec_move_symmetric(*self, color_swap, horizontal_swap),
            r.in_range(),
    {
        let board_1 = if color_swap {
            opposite_color_board(self.board_1)
        } else {
            self.board_1
        };
        let board_2 = if color_swap {
            opposite_color_board(self.board_2)
        } else {
            self.board_2
        };
        let direction = if horizontal_swap {
            direction_flipped(self.direction)
        } else {
            self.direction
        };
        let from_1 = if horizontal_swap {
            tile_flipped(self.from_1)
        } else {
            self.from_1
        };
        let from_2 = if horizontal_swap {
            tile_flipped(self.from_2)
        } else {
            self.from_2
        };
        Move { board_1, board_2, direction, from_1, from_2, double: self.double }
    }
}


/// The first symmetry combination, in scan order, whose canonical hash of
/// `position` equals `hash`; `None` when no image matches.
pub open spec fn spec_transposition_symmetries(position: Shobu, hash: u64) -> Option<(bool, bool)> {
    if position.spec_symmetry_hash(false, false) == hash {
        Some((false, false))
    } else if position.spec_symmetry_hash(false, true) == hash {
        Some((false, true))
    } else if position.spec_symmetry_hash(true, false) == hash {
        Some((true, false))
    } else if position.spec_symmetry_hash(true, true) == hash {
        Some((true, true))
    } else {
        None
    }
}

/// Which symmetry image of the current position a cached entry was stored
/// under, so its best move can be mapped back before use.
pub fn transposition_symmetries(position: &Shobu, tt_entry: &TTEntry) -> (r: Option<(bool, bool)>)
    ensures
        r == spec_transposition_symmetries(*position, tt_entry.variation_hash),
{
    if position.get_symmetry_hash(false, false) == tt_entry.variation_hash {
        Some((false, false))
    } else if position.get_symmetry_hash(false, true) == tt_entry.variation_hash {
        Some((false, true))
    } else if position.get_symmetry_hash(true, false) == tt_entry.variation_hash {
        Some((true, false))
    } else if position.get_symmetry_hash(true, true) == tt_entry.variation_hash {
        Some((true, true))
    } else {
        None
    }
}


/// Each symmetry combination is self-inverse on moves.
pub proof fn lemma_move_symmetry_involution(mv: Move, color_swap: bool, horizontal_swap: bool)
    requires
        mv.in_range(),
    ensures
        spec_move_symmetric(spec_move_symmetric(mv, color_swap, horizontal_swap), color_swap, horizontal_swap) == mv,
{
}

/// The two generators commute on moves.
pub proof fn lemma_move_symmetry_commutes(mv: Move)
    requires
        mv.in_range(),
    ensures
        spec_move_symmetric(spec_move_symmetric(mv, true, false), false, true)
            == spec_move_symmetric(spec_move_symmetric(mv, false, true), true, false),
{
}

} // verus!
