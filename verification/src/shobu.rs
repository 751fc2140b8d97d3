//! Board state for Shobu: four 6x6 margin-padded sub-boards with a 4x4
//! playable interior, per-player piece rosters, move application and undo,
//! and incrementally maintained symmetry hashes.

use vstd::prelude::*;

use crate::shobu_move::{Move, MoveExtended, diff, spec_diff, internal_2_readable, spec_internal_2_readable, readable_2_internal, spec_readable_2_internal};

verus! {

broadcast use vstd::array::group_array_axioms;

pub const BLACK: i8 = -1;

pub const WHITE: i8 = 1;

pub const EMPTY: i8 = 0;

pub const MARGIN: i8 = i8::MIN;

pub const NOT_ON_BOARD: usize = 0;

pub const TILES: [usize; 16] = [7, 8, 9, 10, 13, 14, 15, 16, 19, 20, 21, 22, 25, 26, 27, 28];

pub const DIRECTIONS: [i8; 8] = [-6, -5, 1, 7, 6, 5, -1, -7];

/// A playable interior cell of the margin-padded 6x6 grid.
pub open spec fn playable(t: int) -> bool {
    7 <= t <= 28 && 1 <= t % 6 <= 4
}

pub open spec fn is_stone(v: i8) -> bool {
    v == BLACK || v == WHITE
}

pub open spec fn is_direction(d: i8) -> bool {
    ||| d == -6
    ||| d == -5
    ||| d == 1
    ||| d == 7
    ||| d == 6
    ||| d == 5
    ||| d == -1
    ||| d == -7
}

/// Index of a player in the roster table: 0 for black, 1 for white.
pub open spec fn pid(player: i8) -> int {
    if player == BLACK {
        0
    } else {
        1
    }
}

pub open spec fn other(player: i8) -> i8 {
    if player == BLACK {
        WHITE
    } else {
        BLACK
    }
}


/// First index in a four-slot roster holding `v`, or 4 if absent.
pub open spec fn find4(r: [usize; 4], v: usize) -> int {
    if r[0] == v {
        0
    } else if r[1] == v {
        1
    } else if r[2] == v {
        2
    } else if r[3] == v {
        3
    } else {
        4
    }
}

/// How many slots of a four-slot roster hold a stone.
pub open spec fn count4(r: [usize; 4]) -> int {
    (if r[0] != NOT_ON_BOARD {
        1int
    } else {
        0int
    }) + (if r[1] != NOT_ON_BOARD {
        1int
    } else {
        0int
    }) + (if r[2] != NOT_ON_BOARD {
        1int
    } else {
        0int
    }) + (if r[3] != NOT_ON_BOARD {
        1int
    } else {
        0int
    })
}

pub struct Shobu {
    pub active_player: i8,
    pub winner: i8,
    pub boards: [[i8; 36]; 4],
    pub pieces: [[[usize; 4]; 4]; 2],
    pub history: Vec<(Move, usize, usize)>,
    pub hashes: [[u64; 2]; 2],
    pub piece_hash_vals: [[u64; 8]; 2],
    pub black_active_hash: u64,
}

impl Shobu {
    /// The stone colour whose roster table row is `p`.
    pub open spec fn player_of(p: int) -> i8 {
        if p == 0 {
            BLACK
        } else {
            WHITE
        }
    }

    /// Margin cells hold the sentinel; playable cells hold a stone or are empty.
    pub open spec fn boards_wf(self) -> bool {
        &&& forall|b: int, t: int|
            0 <= b < 4 && 0 <= t < 36 && !playable(t) ==> #[trigger] self.boards[b][t] == MARGIN
        &&& forall|b: int, t: int|
            0 <= b < 4 && 0 <= t < 36 && playable(t) ==> (#[trigger] self.boards[b][t] == EMPTY
                || self.boards[b][t] == BLACK || self.boards[b][t] == WHITE)
    }

    /// Each roster slot is empty or names a cell that holds that player's stone.
    pub open spec fn roster_entries_ok(self) -> bool {
        forall|p: int, b: int, i: int|
            0 <= p < 2 && 0 <= b < 4 && 0 <= i < 4 ==> {
                let e = #[trigger] self.pieces[p][b][i];
                e == NOT_ON_BOARD || (playable(e as int) && self.boards[b][e as int]
                    == Self::player_of(p))
            }
    }

    /// Two distinct roster slots never name the same cell.
    pub open spec fn roster_distinct(self) -> bool {
        forall|p: int, b: int, i: int, j: int|
            0 <= p < 2 && 0 <= b < 4 && 0 <= i < 4 && 0 <= j < 4 && i != j
                && #[trigger] self.pieces[p][b][i] != NOT_ON_BOARD ==> self.pieces[p][b][i]
                != #[trigger] self.pieces[p][b][j]
    }

    /// Every stone on a board appears in the owning player's roster.
    pub open spec fn roster_complete(self) -> bool {
        forall|p: int, b: int, t: int|
            #![trigger find4(self.pieces[p][b], t as usize)]
            0 <= p < 2 && 0 <= b < 4 && 0 <= t < 36 && playable(t) && self.boards[b][t]
                == Self::player_of(p) ==> find4(self.pieces[p][b], t as usize) < 4
    }

    /// The structural invariant of a board state.
    pub open spec fn wf(self) -> bool {
        &&& self.active_player == BLACK || self.active_player == WHITE
        &&& self.boards_wf()
        &&& self.roster_entries_ok()
        &&& self.roster_distinct()
        &&& self.roster_complete()
    }

    /// Whether the single-board sub-move is legal: mirrors the rule of one
    /// stone advancing one or two cells, pushing at most one opposing stone
    /// into a free cell or off the board.
    pub open spec fn sub_legal(self, b: int, direction: i8, from: int, double: bool) -> bool {
        let to = from + spec_diff(direction, double);
        let mid = from + direction;
        let beyond = to + direction;
        &&& self.boards[b][from] == self.active_player
        &&& 0 <= to < 36
        &&& self.boards[b][to] != MARGIN
        &&& self.boards[b][to] != self.active_player
        &&& !(double && self.boards[b][mid] == self.active_player)
        &&& !(is_stone(self.boards[b][to]) && double && is_stone(self.boards[b][mid]))
        &&& ((is_stone(self.boards[b][to]) || (double && is_stone(self.boards[b][mid])))
            ==> !is_stone(self.boards[b][beyond]))
    }

    /// Whether the (legal) sub-move displaces an opposing stone.
    pub open spec fn sub_push(self, b: int, direction: i8, from: int, double: bool) -> bool {
        let to = from + spec_diff(direction, double);
        let mid = from + direction;
        is_stone(self.boards[b][to]) || (double && is_stone(self.boards[b][mid]))
    }

    /// Whether a full move is legal: different colour tracks, both boards on
    /// the side the active player may select, both sub-moves legal, at most
    /// one push, and no push on a board slot forbidden outside the home
    /// board-pair combination.
    pub open spec fn move_legal(self, mv: Move) -> bool {
        let sum = mv.board_1 + mv.board_2;
        let push_1 = self.sub_push(mv.board_1 as int, mv.direction, mv.from_1 as int, mv.double);
        let push_2 = self.sub_push(mv.board_2 as int, mv.direction, mv.from_2 as int, mv.double);
        &&& mv.in_range()
        &&& sum % 2 == 1
        &&& (self.active_player == BLACK ==> sum <= 3)
        &&& (self.active_player == WHITE ==> sum >= 3)
        &&& self.sub_legal(mv.board_1 as int, mv.direction, mv.from_1 as int, mv.double)
        &&& self.sub_legal(mv.board_2 as int, mv.direction, mv.from_2 as int, mv.double)
        &&& !(push_1 && push_2)
        &&& (self.active_player == BLACK && sum != 1 ==> !(mv.board_1 < 2 && push_1) && !(
        mv.board_2 < 2 && push_2))
        &&& (self.active_player == WHITE && sum != 5 ==> !(mv.board_1 > 1 && push_1) && !(
        mv.board_2 > 1 && push_2))
    }

    pub(crate) fn is_legal_and_push(&self, board_id: usize, direction: i8, from: usize, double: bool) -> (r: (
        bool,
        bool,
    ))
        requires
            self.wf(),
            board_id < 4,
            playable(from as int),
            is_direction(direction),
        ensures
            r.0 == self.sub_legal(board_id as int, direction, from as int, double),
            r.1 == (r.0 && self.sub_push(board_id as int, direction, from as int, double)),
    {
        let board = self.boards[board_id];
        if board[from] != self.active_player {
            return (false, false);
        }
        let d = diff(direction, double);
        let toi: i8 = from as i8 + d;
        if toi < 0 {
            return (false, false);
        }
        let to = toi as usize;
        if to >= 36 {
            return (false, false);
        }
        if board[to] == MARGIN {
            return (false, false);
        }
        let mut pieces_on_path: usize = 0;
        if board[to] == BLACK || board[to] == WHITE {
            if board[to] == self.active_player {
                return (false, false);
            }
            pieces_on_path += 1;
        }
        let nexti: i8 = from as i8 + direction;
        let next = nexti as usize;
        if double && (board[next] == BLACK || board[next] == WHITE) {
            if board[next] == self.active_player {
                return (false, false);
            }
            pieces_on_path += 1;
        }
        if pieces_on_path > 1 {
            return (false, false);
        }
        if pieces_on_path > 0 {
            let beyondi: i8 = to as i8 + direction;
            let beyond = beyondi as usize;
            if board[beyond] == BLACK || board[beyond] == WHITE {
                return (false, false);
            }
        }
        (true, pieces_on_path > 0)
    }

    /// Check a proposed move against every legality rule; on success extend
    /// it with its push annotations. Never mutates the position.
    pub fn validate_and_extend(&self, mv: &Move) -> (r: Result<MoveExtended, String>)
        requires
            self.wf(),
            mv.in_range(),
        ensures
            r is Ok <==> self.move_legal(*mv),
            r matches Err(e) ==> e@ == "Move is invalid!"@,
            r matches Ok(ext) ==> {
                &&& ext.mv == *mv
                &&& ext.push_1 == self.sub_push(mv.board_1 as int, mv.direction, mv.from_1 as int, mv.double)
                &&& ext.push_2 == self.sub_push(mv.board_2 as int, mv.direction, mv.from_2 as int, mv.double)
            },
    {
        let board_sum = mv.board_1 + mv.board_2;
        if board_sum % 2 == 0 {
            return Err("Move is invalid!".to_owned());
        }
        if self.active_player == BLACK && board_sum > 3 {
            return Err("Move is invalid!".to_owned());
        }
        if self.active_player == WHITE && board_sum < 3 {
            return Err("Move is invalid!".to_owned());
        }
        let (legal_1, push_1) = self.is_legal_and_push(mv.board_1, mv.direction, mv.from_1, mv.double);
        if !legal_1 {
            return Err("Move is invalid!".to_owned());
        }
        let (legal_2, push_2) = self.is_legal_and_push(mv.board_2, mv.direction, mv.from_2, mv.double);
        if !legal_2 {
            return Err("Move is invalid!".to_owned());
        }
        if push_1 && push_2 {
            return Err("Move is invalid!".to_owned());
        }
        if self.active_player == BLACK && board_sum != 1 {
            if (mv.board_1 < 2 && push_1) || (mv.board_2 < 2 && push_2) {
                return Err("Move is invalid!".to_owned());
            }
        } else if self.active_player == WHITE && board_sum != 5 {
            if (mv.board_1 > 1 && push_1) || (mv.board_2 > 1 && push_2) {
                return Err("Move is invalid!".to_owned());
            }
        }
        Ok(MoveExtended::new(mv, push_1, push_2))
    }
}


/// Zobrist key group of a human-readable cell index; mirror images of a row
/// share a group, which makes the horizontal symmetry hash derivable from
/// the same keys.
pub open spec fn zobrist_group(j: int) -> int {
    2 * (j / 4) + (if j % 4 == 1 || j % 4 == 2 {
        1int
    } else {
        0int
    })
}

pub(crate) fn zobrist_group_x(j: usize) -> (r: usize)
    requires
        j < 16,
    ensures
        r as int == zobrist_group(j as int),
        r < 8,
{
    2 * (j / 4) + (if j % 4 == 1 || j % 4 == 2 {
        1
    } else {
        0
    })
}

/// The base bit lane of each of the eight (sub-board, board-half) groups.
pub open spec fn base_shift(i: int) -> u64 {
    if i == 0 {
        3u64
    } else if i == 1 {
        5u64
    } else if i == 2 {
        7u64
    } else if i == 3 {
        11u64
    } else if i == 4 {
        13u64
    } else if i == 5 {
        17u64
    } else if i == 6 {
        19u64
    } else {
        23u64
    }
}

/// Bit lane for group `p` in the symmetry class addressed by `x` (flips a
/// group with its partner in the same pair) and `y` (flips the two pairs of
/// a colour track).
pub open spec fn spec_shift(x: int, y: int, p: int) -> u64 {
    base_shift((p % 2 + x) % 2 + 2 * (((p / 2) % 2 + y) % 2) + 4 * (p / 4))
}

pub(crate) fn shift_for(x: usize, y: usize, p: usize) -> (r: u64)
    requires
        x < 2,
        y < 2,
        p < 8,
    ensures
        r == spec_shift(x as int, y as int, p as int),
        r <= 23,
{
    let i = (p % 2 + x) % 2 + 2 * (((p / 2) % 2 + y) % 2) + 4 * (p / 4);
    match i {
        0 => 3,
        1 => 5,
        2 => 7,
        3 => 11,
        4 => 13,
        5 => 17,
        6 => 19,
        _ => 23,
    }
}

/// Bit-lane group of a cell, as the scratch computation assigns it: the
/// sub-board and the readable-column half of the cell.
pub open spec fn part_lane(b: int, tile: int) -> int {
    2 * b + (spec_internal_2_readable(tile) % 4) / 2
}

/// The contribution of one stone placement or removal event to one of the
/// four maintained symmetry hashes; a sentinel tile contributes nothing.
/// The `(cs, hs)` slot takes the lane the scratch table gives that image,
/// so the maintained hashes follow the scratch hashes move by move.
#[verifier::opaque]
pub open spec fn uterm(keys: [[u64; 8]; 2], player: i8, b: int, tile: int, cs: int, hs: int) -> u64 {
    if tile == 0 {
        0u64
    } else {
        keys[pid(player)][zobrist_group(spec_internal_2_readable(tile))] << spec_shift(
            hs,
            cs,
            part_lane(b, tile),
        )
    }
}

impl Shobu {
    /// All fields except the four maintained hashes.
    pub open spec fn same_but_hashes(pre: Shobu, post: Shobu) -> bool {
        &&& post.active_player == pre.active_player
        &&& post.winner == pre.winner
        &&& post.boards == pre.boards
        &&& post.pieces == pre.pieces
        &&& post.history@ == pre.history@
        &&& post.piece_hash_vals == pre.piece_hash_vals
        &&& post.black_active_hash == pre.black_active_hash
    }

    /// Fold one stone event into all four symmetry hashes.
    pub(crate) fn update_hashes(&mut self, player: i8, board_id: usize, tile: usize)
        requires
            is_stone(player),
            board_id < 4,
            tile == NOT_ON_BOARD || playable(tile as int),
        ensures
            Self::same_but_hashes(*old(self), *final(self)),
            forall|cs: int, hs: int|
                0 <= cs < 2 && 0 <= hs < 2 ==> #[trigger] final(self).hashes[cs][hs] == old(
                    self,
                ).hashes[cs][hs] ^ uterm(
                    old(self).piece_hash_vals,
                    player,
                    board_id as int,
                    tile as int,
                    cs,
                    hs,
                ),
    {
        proof {
            reveal(uterm);
        }
        if tile == NOT_ON_BOARD {
            assert(forall|cs: int, hs: int|
                0 <= cs < 2 && 0 <= hs < 2 ==> #[trigger] self.hashes[cs][hs] == self.hashes[cs][hs]
                    ^ uterm(
                    self.piece_hash_vals,
                    player,
                    board_id as int,
                    tile as int,
                    cs,
                    hs,
                )) by {
                assert(forall|x: u64| #![trigger x ^ 0u64] x ^ 0u64 == x) by (bit_vector);
            };
            return ;
        }
        let tile_id = internal_2_readable(tile);
        let part_id = 2 * board_id + (tile_id % 4) / 2;
        let player_id: usize = if player == BLACK {
            0
        } else {
            1
        };
        let key = self.piece_hash_vals[player_id][zobrist_group_x(tile_id)];
        let mut hs_new = self.hashes;
        let row0 = [
            hs_new[0][0] ^ (key << shift_for(0, 0, part_id)),
            hs_new[0][1] ^ (key << shift_for(1, 0, part_id)),
        ];
        let row1 = [
            hs_new[1][0] ^ (key << shift_for(0, 1, part_id)),
            hs_new[1][1] ^ (key << shift_for(1, 1, part_id)),
        ];
        self.hashes = [row0, row1];
    }
}


/// A roster update: the first slot holding `from` now holds `to`.
pub open spec fn roster_updated(r: [usize; 4], from: usize, to: usize) -> [usize; 4] {
    vstd::array::spec_array_update(r, find4(r, from), to)
}

pub proof fn lemma_find4_present(r: [usize; 4], v: usize, i: int)
    requires
        0 <= i < 4,
        r[i] == v,
    ensures
        find4(r, v) < 4,
{
}

/// Replace the first occurrence of `from` by `to` and report how many slots
/// then hold a stone.
fn roster_replace(r: &mut [usize; 4], from: usize, to: usize) -> (count: usize)
    requires
        find4(*old(r), from) < 4,
    ensures
        *final(r) == roster_updated(*old(r), from, to),
        count as int == count4(*final(r)),
{
    let ghost r0 = *r;
    let mut count: usize = 0;
    let mut found = false;
    if r[0] == from {
        r[0] = to;
        found = true;
    }
    if r[0] != NOT_ON_BOARD {
        count += 1;
    }
    if !found && r[1] == from {
        r[1] = to;
        found = true;
    }
    if r[1] != NOT_ON_BOARD {
        count += 1;
    }
    if !found && r[2] == from {
        r[2] = to;
        found = true;
    }
    if r[2] != NOT_ON_BOARD {
        count += 1;
    }
    if !found && r[3] == from {
        r[3] = to;
        found = true;
    }
    if r[3] != NOT_ON_BOARD {
        count += 1;
    }
    proof {
        assert(*r =~= roster_updated(r0, from, to));
    }
    count
}

/// The piece table with one roster entry of one player on one board replaced.
pub open spec fn pieces_updated(
    ps: [[[usize; 4]; 4]; 2],
    p: int,
    b: int,
    from: usize,
    to: usize,
) -> [[[usize; 4]; 4]; 2] {
    vstd::array::spec_array_update(
        ps,
        p,
        vstd::array::spec_array_update(ps[p], b, roster_updated(ps[p][b], from, to)),
    )
}

impl Shobu {
    /// All fields except the piece table and the winner mark.
    pub open spec fn same_but_pieces_winner(pre: Shobu, post: Shobu) -> bool {
        &&& post.active_player == pre.active_player
        &&& post.boards == pre.boards
        &&& post.history@ == pre.history@
        &&& post.hashes == pre.hashes
        &&& post.piece_hash_vals == pre.piece_hash_vals
        &&& post.black_active_hash == pre.black_active_hash
    }

    /// Relocate one roster entry of `player`, and record the opponent as the
    /// winner when that player's roster on this board becomes empty.
    pub(crate) fn update_piece_check_winner(&mut self, player: i8, board_id: usize, from: usize, to: usize)
        requires
            is_stone(player),
            board_id < 4,
            find4(old(self).pieces[pid(player)][board_id as int], from) < 4,
        ensures
            Self::same_but_pieces_winner(*old(self), *final(self)),
            final(self).pieces == pieces_updated(
                old(self).pieces,
                pid(player),
                board_id as int,
                from,
                to,
            ),
            final(self).winner == if count4(
                final(self).pieces[pid(player)][board_id as int],
            ) == 0 {
                other(player)
            } else {
                old(self).winner
            },
    {
        let player_id: usize = if player == BLACK {
            0
        } else {
            1
        };
        let mut roster = self.pieces[player_id][board_id];
        let count = roster_replace(&mut roster, from, to);
        let mut row = self.pieces[player_id];
        row[board_id] = roster;
        self.pieces[player_id] = row;
        if count == 0 {
            self.winner = -player;
        }
        proof {
            assert(self.pieces =~= pieces_updated(
                old(self).pieces,
                pid(player),
                board_id as int,
                from,
                to,
            ));
        }
    }
}


/// The cell a (legal) sub-move pushes an opposing stone away from, or the
/// sentinel when nothing is pushed.
pub open spec fn bsub_pushed_from(brd: [i8; 36], direction: i8, from: int, double: bool) -> int {
    let to = from + spec_diff(direction, double);
    let mid = from + direction;
    if double && is_stone(brd[mid]) {
        mid
    } else if is_stone(brd[to]) {
        to
    } else {
        0
    }
}

/// Where the pushed stone lands, or the sentinel when it leaves the board
/// or nothing is pushed.
pub open spec fn bsub_pushed_to(brd: [i8; 36], direction: i8, from: int, double: bool) -> int {
    let to = from + spec_diff(direction, double);
    let beyond = to + direction;
    if bsub_pushed_from(brd, direction, from, double) == 0 {
        0
    } else if brd[beyond] == MARGIN {
        0
    } else {
        beyond
    }
}

/// One sub-board after a legal sub-move of `active`.
pub open spec fn bsub_board_after(
    brd: [i8; 36],
    active: i8,
    direction: i8,
    from: int,
    double: bool,
) -> [i8; 36] {
    let to = from + spec_diff(direction, double);
    let mid = from + direction;
    let pf = bsub_pushed_from(brd, direction, from, double);
    let pt = bsub_pushed_to(brd, direction, from, double);
    let b1 = if double && is_stone(brd[mid]) {
        vstd::array::spec_array_update(brd, mid, EMPTY)
    } else {
        brd
    };
    let b2 = vstd::array::spec_array_update(b1, from, EMPTY);
    let b3 = vstd::array::spec_array_update(b2, to, active);
    if pf != 0 && pt != 0 {
        vstd::array::spec_array_update(b3, pt, other(active))
    } else {
        b3
    }
}

proof fn lemma_xor_zero_u64(x: u64)
    ensures
        x ^ 0u64 == x,
{
    assert(x ^ 0u64 == x) by (bit_vector);
}

impl Shobu {
    /// The net effect of one legal sub-move on board `b`: the board array,
    /// piece table, winner mark and all four hashes, with every other field
    /// unchanged.
    pub open spec fn sub_rel(
        pre: Shobu,
        post: Shobu,
        b: int,
        direction: i8,
        from: int,
        double: bool,
    ) -> bool {
        let brd = pre.boards[b];
        let a = pre.active_player;
        let keys = pre.piece_hash_vals;
        let to = from + spec_diff(direction, double);
        let pf = bsub_pushed_from(brd, direction, from, double);
        let pt = bsub_pushed_to(brd, direction, from, double);
        let ps1 = if pf != 0 {
            pieces_updated(pre.pieces, pid(other(a)), b, pf as usize, pt as usize)
        } else {
            pre.pieces
        };
        &&& post.boards == vstd::array::spec_array_update(
            pre.boards,
            b,
            bsub_board_after(brd, a, direction, from, double),
        )
        &&& post.pieces == pieces_updated(ps1, pid(a), b, from as usize, to as usize)
        &&& post.winner == if pf != 0 && count4(ps1[pid(other(a))][b]) == 0 {
            a
        } else {
            pre.winner
        }
        &&& forall|cs: int, hs: int|
            0 <= cs < 2 && 0 <= hs < 2 ==> #[trigger] post.hashes[cs][hs] == pre.hashes[cs][hs] ^ uterm(
                keys,
                other(a),
                b,
                pf,
                cs,
                hs,
            ) ^ uterm(keys, other(a), b, pt, cs, hs) ^ uterm(keys, a, b, from, cs, hs) ^ uterm(
                keys,
                a,
                b,
                to,
                cs,
                hs,
            )
        &&& post.active_player == pre.active_player
        &&& post.history@ == pre.history@
        &&& post.piece_hash_vals == pre.piece_hash_vals
        &&& post.black_active_hash == pre.black_active_hash
    }

    /// Advance one stone on one sub-board, pushing and possibly removing an
    /// opposing stone, and keep rosters, winner mark and hashes in step.
    fn move_on_board_unsafe(&mut self, board_id: usize, direction: i8, from: usize, double: bool) -> (pushed_from: usize)
        requires
            old(self).wf(),
            board_id < 4,
            playable(from as int),
            is_direction(direction),
            old(self).sub_legal(board_id as int, direction, from as int, double),
        ensures
            final(self).wf(),
            pushed_from as int == bsub_pushed_from(
                old(self).boards[board_id as int],
                direction,
                from as int,
                double,
            ),
            Self::sub_rel(*old(self), *final(self), board_id as int, direction, from as int, double),
    {
        let ghost pre = *old(self);
        let ghost bi = board_id as int;
        let a = self.active_player;
        let opp = if a == BLACK {
            WHITE
        } else {
            BLACK
        };
        let diff_v = diff(direction, double);
        let toi: i8 = from as i8 + diff_v;
        let to = toi as usize;
        let mut board = self.boards[board_id];
        let mut pushed_from: usize = NOT_ON_BOARD;
        if board[to] == BLACK || board[to] == WHITE {
            pushed_from = to;
        }
        let jump_i: i8 = from as i8 + direction;
        let jump_over = jump_i as usize;
        if double && (board[jump_over] == BLACK || board[jump_over] == WHITE) {
            pushed_from = jump_over;
            board[jump_over] = EMPTY;
        }
        board[from] = EMPTY;
        board[to] = a;
        let mut pushed_to: usize = NOT_ON_BOARD;
        if pushed_from != NOT_ON_BOARD {
            let pti: i8 = toi + direction;
            let pt0 = pti as usize;
            if board[pt0] == MARGIN {
                pushed_to = NOT_ON_BOARD;
            } else {
                board[pt0] = opp;
                pushed_to = pt0;
            }
            self.boards[board_id] = board;
            proof {
                assert(self.boards =~= vstd::array::spec_array_update(
                    pre.boards,
                    bi,
                    bsub_board_after(pre.boards[bi], a, direction, from as int, double),
                ));
                lemma_find4_present_from_roster(pre, pid(opp), bi, pushed_from as int);
            }
            self.update_piece_check_winner(opp, board_id, pushed_from, pushed_to);
            self.update_hashes(opp, board_id, pushed_from);
            self.update_hashes(opp, board_id, pushed_to);
        } else {
            self.boards[board_id] = board;
            proof {
                assert(self.boards =~= vstd::array::spec_array_update(
                    pre.boards,
                    bi,
                    bsub_board_after(pre.boards[bi], a, direction, from as int, double),
                ));
            }
        }
        proof {
            lemma_find4_present_from_roster(pre, pid(a), bi, from as int);
            assert(find4(self.pieces[pid(a)][bi], from) < 4);
        }
        self.update_piece_check_winner(a, board_id, from, to);
        self.update_hashes(a, board_id, from);
        self.update_hashes(a, board_id, to);
        proof {
            if bsub_pushed_from(pre.boards[bi], direction, from as int, double) == 0 {
                reveal(uterm);
                assert forall|cs: int, hs: int| 0 <= cs < 2 && 0 <= hs < 2 implies #[trigger] self
                    .hashes[cs][hs] == pre.hashes[cs][hs] ^ uterm(
                    pre.piece_hash_vals,
                    opp,
                    bi,
                    0,
                    cs,
                    hs,
                ) ^ uterm(pre.piece_hash_vals, opp, bi, 0, cs, hs) ^ uterm(
                    pre.piece_hash_vals,
                    a,
                    bi,
                    from as int,
                    cs,
                    hs,
                ) ^ uterm(pre.piece_hash_vals, a, bi, to as int, cs, hs) by {
                    lemma_xor_zero_u64(pre.hashes[cs][hs]);
                    lemma_xor_zero_u64(pre.hashes[cs][hs] ^ 0u64);
                }
            }
            assert(Self::sub_rel(pre, *self, bi, direction, from as int, double));
            lemma_sub_preserves_wf(pre, *self, bi, direction, from as int, double);
        }
        pushed_from
    }
}

/// A stone standing on a board is found in its owner's roster.
pub proof fn lemma_find4_present_from_roster(s: Shobu, p: int, b: int, t: int)
    requires
        s.wf(),
        0 <= p < 2,
        0 <= b < 4,
        0 <= t < 36,
        playable(t),
        s.boards[b][t] == Shobu::player_of(p),
    ensures
        find4(s.pieces[p][b], t as usize) < 4,
{
}

/// A legal sub-move keeps the structural invariant.
#[verifier::rlimit(100)]
pub proof fn lemma_sub_preserves_wf(pre: Shobu, post: Shobu, b: int, direction: i8, from: int, double: bool)
    requires
        pre.wf(),
        0 <= b < 4,
        playable(from),
        is_direction(direction),
        pre.sub_legal(b, direction, from, double),
        Shobu::sub_rel(pre, post, b, direction, from, double),
    ensures
        post.wf(),
{
    let a = pre.active_player;
    let opp = other(a);
    let brd = pre.boards[b];
    let to = from + spec_diff(direction, double);
    let mid = from + direction;
    let beyond = to + direction;
    let pf = bsub_pushed_from(brd, direction, from, double);
    let pt = bsub_pushed_to(brd, direction, from, double);
    let nb = bsub_board_after(brd, a, direction, from, double);
    let pa = pid(a);
    let po = pid(opp);
    let ra0 = pre.pieces[pa][b];
    let ro0 = pre.pieces[po][b];
    let ia = find4(ra0, from as usize);
    let io = find4(ro0, pf as usize);
    let ps1 = if pf != 0 {
        pieces_updated(pre.pieces, po, b, pf as usize, pt as usize)
    } else {
        pre.pieces
    };
    assert(playable(to));
    assert(pa != po && 0 <= pa < 2 && 0 <= po < 2);
    assert(0 <= ia < 4 && ra0[ia] == from as usize);
    if pf != 0 {
        assert(playable(pf) && brd[pf] == opp);
        assert(0 <= io < 4 && ro0[io] == pf as usize);
        if pt != 0 {
            assert(pt == beyond && playable(pt));
            assert(pt != to && pt != from && pt != mid);
            assert(!is_stone(brd[pt]));
        }
    }
    assert(to != from && mid != from);
    // the new sub-board, cell by cell
    assert forall|t: int| 0 <= t < 36 implies nb[t] == (if pf != 0 && pt != 0 && t == pt {
        opp
    } else if t == to {
        a
    } else if t == from {
        EMPTY
    } else if double && is_stone(brd[mid]) && t == mid {
        EMPTY
    } else {
        brd[t]
    }) by {}
    assert forall|bb: int, t: int| 0 <= bb < 4 && bb != b && 0 <= t < 36 implies post.boards[bb][t]
        == pre.boards[bb][t] by {}
    assert forall|t: int| 0 <= t < 36 implies post.boards[b][t] == nb[t] by {}
    // the new piece table, slot by slot
    assert forall|p: int, bb: int, i: int| 0 <= p < 2 && 0 <= bb < 4 && 0 <= i < 4 implies
        post.pieces[p][bb][i] == (if p == pa && bb == b && i == ia {
        to as usize
    } else if pf != 0 && p == po && bb == b && i == io {
        pt as usize
    } else {
        pre.pieces[p][bb][i]
    }) by {
        assert(ps1[pa][b] == ra0);
        assert(post.pieces == pieces_updated(ps1, pa, b, from as usize, to as usize));
    }
    // margin cells keep the sentinel, playable cells hold stones or nothing
    assert forall|bb: int, t: int| 0 <= bb < 4 && 0 <= t < 36 && !playable(t) implies #[trigger] post.boards[bb][t]
        == MARGIN by {}
    assert forall|bb: int, t: int| 0 <= bb < 4 && 0 <= t < 36 && playable(t) implies (
    #[trigger] post.boards[bb][t] == EMPTY || post.boards[bb][t] == BLACK || post.boards[bb][t]
        == WHITE) by {}
    // every roster slot names a cell with the owner's stone
    assert forall|p: int, bb: int, i: int| 0 <= p < 2 && 0 <= bb < 4 && 0 <= i < 4 implies {
        let e = #[trigger] post.pieces[p][bb][i];
        e == NOT_ON_BOARD || (playable(e as int) && post.boards[bb][e as int] == Shobu::player_of(
            p,
        ))
    } by {
        let e = post.pieces[p][bb][i];
        if p == pa && bb == b && i == ia {
            assert(e == to as usize);
        } else if pf != 0 && p == po && bb == b && i == io {
            assert(e == pt as usize);
        } else {
            assert(e == pre.pieces[p][bb][i]);
            if e != NOT_ON_BOARD && bb == b {
                assert(playable(e as int) && pre.boards[b][e as int] == Shobu::player_of(p));
                if e as int == from {
                    assert(p == pa && ra0[i] == from as usize);
                    assert(i == ia);
                }
                if e as int == to {
                    assert(is_stone(brd[to]) && p == po && pf == to);
                    assert(ro0[i] == pf as usize);
                    assert(i == io);
                }
                if double && is_stone(brd[mid]) && e as int == mid {
                    assert(p == po && pf == mid && ro0[i] == pf as usize);
                    assert(i == io);
                }
                if pf != 0 && pt != 0 && e as int == pt {
                    assert(is_stone(brd[pt]));
                }
            }
        }
    }
    // no two roster slots name the same cell
    assert forall|p: int, bb: int, i: int, j: int|
        0 <= p < 2 && 0 <= bb < 4 && 0 <= i < 4 && 0 <= j < 4 && i != j
            && #[trigger] post.pieces[p][bb][i] != NOT_ON_BOARD implies post.pieces[p][bb][i]
        != #[trigger] post.pieces[p][bb][j] by {
        if bb == b {
            if p == pa && i == ia {
                if post.pieces[p][bb][j] == to as usize {
                    assert(pre.pieces[pa][b][j] == to as usize);
                    assert(pre.boards[b][to] == a);
                }
            } else if p == pa && j == ia {
                if post.pieces[p][bb][i] == to as usize {
                    assert(pre.pieces[pa][b][i] == to as usize);
                    assert(pre.boards[b][to] == a);
                }
            } else if pf != 0 && p == po && i == io {
                if pt != 0 && post.pieces[p][bb][j] == pt as usize {
                    assert(pre.pieces[po][b][j] == pt as usize);
                    assert(pre.boards[b][pt] == opp);
                }
            } else if pf != 0 && p == po && j == io {
                if pt != 0 && post.pieces[p][bb][i] == pt as usize {
                    assert(pre.pieces[po][b][i] == pt as usize);
                    assert(pre.boards[b][pt] == opp);
                }
            }
        }
    }
    // every stone is still listed
    assert forall|p: int, bb: int, t: int|
        0 <= p < 2 && 0 <= bb < 4 && 0 <= t < 36 && playable(t) && post.boards[bb][t]
            == Shobu::player_of(p) implies find4(post.pieces[p][bb], t as usize) < 4 by {
        if bb != b {
            assert(post.pieces[p][bb] == pre.pieces[p][bb]);
            assert(pre.boards[bb][t] == Shobu::player_of(p));
        } else {
            let raf = post.pieces[pa][b];
            if t == to {
                assert(p == pa);
                assert(raf[ia] == to as usize);
                lemma_find4_present(raf, to as usize, ia);
            } else if pf != 0 && pt != 0 && t == pt {
                assert(p == po);
                assert(post.pieces[po][b][io] == pt as usize);
                lemma_find4_present(post.pieces[po][b], pt as usize, io);
            } else {
                assert(post.boards[b][t] == brd[t]);
                assert(pre.boards[b][t] == Shobu::player_of(p));
                assert(find4(pre.pieces[p][b], t as usize) < 4);
                let k = find4(pre.pieces[p][b], t as usize);
                assert(pre.pieces[p][b][k] == t as usize);
                if p == pa {
                    assert(k != ia);
                    assert(post.pieces[p][b][k] == t as usize);
                } else if pf != 0 && p == po {
                    assert(k != io);
                    assert(post.pieces[p][b][k] == t as usize);
                } else {
                    assert(post.pieces[p][b][k] == t as usize);
                }
                lemma_find4_present(post.pieces[p][b], t as usize, k);
            }
        }
    }
    assert(post.wf());
}


impl Shobu {
    /// The net effect of one legal full move: both sub-moves, the turn
    /// passing to the other player, and the undo record appended.
    pub open spec fn apply_rel(pre: Shobu, post: Shobu, mv: Move) -> bool {
        let pf1 = bsub_pushed_from(
            pre.boards[mv.board_1 as int],
            mv.direction,
            mv.from_1 as int,
            mv.double,
        );
        let pf2 = bsub_pushed_from(
            pre.boards[mv.board_2 as int],
            mv.direction,
            mv.from_2 as int,
            mv.double,
        );
        exists|m1: Shobu, m2: Shobu|
            {
                &&& Self::sub_rel(pre, m1, mv.board_1 as int, mv.direction, mv.from_1 as int, mv.double)
                &&& #[trigger] Self::sub_rel(
                    m1,
                    m2,
                    mv.board_2 as int,
                    mv.direction,
                    mv.from_2 as int,
                    mv.double,
                )
                &&& post.boards == m2.boards
                &&& post.pieces == m2.pieces
                &&& post.winner == m2.winner
                &&& post.hashes == m2.hashes
                &&& post.active_player == other(pre.active_player)
                &&& post.piece_hash_vals == pre.piece_hash_vals
                &&& post.black_active_hash == pre.black_active_hash
                &&& post.history@ == pre.history@.push(
                    (
                        mv,
                        if pf1 != 0 {
                            mv.board_1
                        } else {
                            mv.board_2
                        },
                        if pf1 != 0 {
                            pf1 as usize
                        } else {
                            pf2 as usize
                        },
                    ),
                )
            }
    }

    /// Apply a move that is already known to be legal: advance the stone on
    /// both selected sub-boards, pass the turn, and append the undo record.
    pub fn make_move_unsafe(&mut self, mv: &Move)
        requires
            old(self).wf(),
            old(self).move_legal(*mv),
        ensures
            final(self).wf(),
            Self::apply_rel(*old(self), *final(self), *mv),
    {
        let ghost pre = *old(self);
        let ghost b1 = mv.board_1 as int;
        let ghost b2 = mv.board_2 as int;
        let pushed_from_1 = self.move_on_board_unsafe(mv.board_1, mv.direction, mv.from_1, mv.double);
        let ghost m1 = *self;
        proof {
            assert(b1 != b2);
            assert(m1.boards[b2] == pre.boards[b2]);
            assert(m1.sub_legal(b2, mv.direction, mv.from_2 as int, mv.double));
        }
        let pushed_from_2 = self.move_on_board_unsafe(mv.board_2, mv.direction, mv.from_2, mv.double);
        let ghost m2 = *self;
        self.active_player = if self.active_player == BLACK {
            WHITE
        } else {
            BLACK
        };
        if pushed_from_1 != NOT_ON_BOARD {
            self.history.push((mv.deep_copy(), mv.board_1, pushed_from_1));
        } else {
            self.history.push((mv.deep_copy(), mv.board_2, pushed_from_2));
        }
        proof {
            assert(Self::sub_rel(m1, m2, b2, mv.direction, mv.from_2 as int, mv.double));
            assert(self.wf());
            assert(Self::apply_rel(pre, *self, *mv));
        }
    }

    /// Validate a move and apply it; a finished game or an illegal move is
    /// reported as an error and leaves the position untouched.
    pub fn make_move(&mut self, mv: &Move) -> (r: Result<(), String>)
        requires
            old(self).wf(),
            mv.in_range(),
        ensures
            final(self).wf(),
            old(self).winner != 0 ==> (r matches Err(e) && e@ == "Game is over!"@ && *final(self)
                == *old(self)),
            old(self).winner == 0 && !old(self).move_legal(*mv) ==> (r matches Err(e) && e@
                == "Move is invalid!"@ && *final(self) == *old(self)),
            old(self).winner == 0 && old(self).move_legal(*mv) ==> r is Ok && Self::apply_rel(
                *old(self),
                *final(self),
                *mv,
            ),
    {
        if self.winner != 0 {
            return Err("Game is over!".to_owned());
        }
        match self.validate_and_extend(mv) {
            Ok(_) => (),
            Err(e) => {
                return Err(e);
            },
        }
        self.make_move_unsafe(mv);
        Ok(())
    }
}


/// Roster rows other than the updated one are untouched, and the updated row
/// is the single-slot replacement.
pub proof fn lemma_pieces_updated(ps: [[[usize; 4]; 4]; 2], p: int, b: int, from: usize, to: usize)
    requires
        0 <= p < 2,
        0 <= b < 4,
    ensures
        forall|p2: int, b2: int|
            0 <= p2 < 2 && 0 <= b2 < 4 && !(p2 == p && b2 == b) ==> #[trigger] pieces_updated(
                ps,
                p,
                b,
                from,
                to,
            )[p2][b2] == ps[p2][b2],
        pieces_updated(ps, p, b, from, to)[p][b] == vstd::array::spec_array_update(
            ps[p][b],
            find4(ps[p][b], from),
            to,
        ),
{
}

impl Shobu {
    /// A state one legal move past some well-formed position with no winner.
    pub open spec fn undoable(s: Shobu) -> bool {
        exists|pre: Shobu, mv: Move|
            pre.wf() && pre.move_legal(mv) && pre.winner == 0 && #[trigger] Self::apply_rel(
                pre,
                s,
                mv,
            )
    }

    /// The net effect of undoing the most recent move: both stones return to
    /// their origins, a pushed stone is restored (also from off the board),
    /// the turn passes back, and the winner mark is cleared.
    pub open spec fn undo_rel(s: Shobu, post: Shobu) -> bool {
        let a = other(s.active_player);
        let opp = s.active_player;
        let keys = s.piece_hash_vals;
        let entry = s.history@.last();
        let mv = entry.0;
        let pb = entry.1 as int;
        let pf = entry.2 as int;
        let d = spec_diff(mv.direction, mv.double);
        let b1 = mv.board_1 as int;
        let f1 = mv.from_1 as int;
        let t1 = f1 + d;
        let b2 = mv.board_2 as int;
        let f2 = mv.from_2 as int;
        let t2 = f2 + d;
        let fp = if pb == b1 {
            f1
        } else {
            f2
        };
        let pt = fp + d + mv.direction;
        let v1 = vstd::array::spec_array_update(
            s.boards,
            b1,
            vstd::array::spec_array_update(
                vstd::array::spec_array_update(s.boards[b1], f1, a),
                t1,
                EMPTY,
            ),
        );
        let v2 = vstd::array::spec_array_update(
            v1,
            b2,
            vstd::array::spec_array_update(
                vstd::array::spec_array_update(v1[b2], f2, a),
                t2,
                EMPTY,
            ),
        );
        let v3a = vstd::array::spec_array_update(
            v2,
            pb,
            vstd::array::spec_array_update(v2[pb], pf, opp),
        );
        let margin_case = v3a[pb][pt] == MARGIN;
        let v3 = if pf != 0 {
            if margin_case {
                v3a
            } else {
                vstd::array::spec_array_update(
                    v3a,
                    pb,
                    vstd::array::spec_array_update(v3a[pb], pt, EMPTY),
                )
            }
        } else {
            v2
        };
        let q1 = pieces_updated(s.pieces, pid(a), b1, t1 as usize, f1 as usize);
        let q2 = pieces_updated(q1, pid(a), b2, t2 as usize, f2 as usize);
        let q3 = if pf != 0 {
            if margin_case {
                pieces_updated(q2, pid(opp), pb, NOT_ON_BOARD, pf as usize)
            } else {
                pieces_updated(q2, pid(opp), pb, pt as usize, pf as usize)
            }
        } else {
            q2
        };
        &&& s.history@.len() > 0
        &&& post.active_player == a
        &&& post.winner == 0
        &&& post.boards == v3
        &&& post.pieces == q3
        &&& post.history@ == s.history@.drop_last()
        &&& forall|cs: int, hs: int|
            0 <= cs < 2 && 0 <= hs < 2 ==> #[trigger] post.hashes[cs][hs] == (if pf != 0 {
                if margin_case {
                    s.hashes[cs][hs] ^ uterm(keys, opp, pb, pf, cs, hs)
                } else {
                    s.hashes[cs][hs] ^ uterm(keys, opp, pb, pf, cs, hs) ^ uterm(
                        keys,
                        opp,
                        pb,
                        pt,
                        cs,
                        hs,
                    )
                }
            } else {
                s.hashes[cs][hs]
            }) ^ uterm(keys, a, b1, f1, cs, hs) ^ uterm(keys, a, b1, t1, cs, hs) ^ uterm(
                keys,
                a,
                b2,
                f2,
                cs,
                hs,
            ) ^ uterm(keys, a, b2, t2, cs, hs)
        &&& post.piece_hash_vals == s.piece_hash_vals
        &&& post.black_active_hash == s.black_active_hash
    }

    /// Everything the undo needs to know about a state one move past a
    /// well-formed position: the recorded cells are in range and the stones
    /// to be moved back are found in their rosters.
    #[verifier::rlimit(100)]
    pub proof fn lemma_undo_facts(s: Shobu)
        requires
            Self::undoable(s),
        ensures
            ({
                let a = other(s.active_player);
                let opp = s.active_player;
                let entry = s.history@.last();
                let mvs = entry.0;
                let pb = entry.1 as int;
                let pf = entry.2 as int;
                let d = spec_diff(mvs.direction, mvs.double);
                let b1 = mvs.board_1 as int;
                let f1 = mvs.from_1 as int;
                let t1 = f1 + d;
                let b2 = mvs.board_2 as int;
                let f2 = mvs.from_2 as int;
                let t2 = f2 + d;
                let fp = if pb == b1 {
                    f1
                } else {
                    f2
                };
                let pt = fp + d + mvs.direction;
                &&& s.history@.len() > 0
                &&& s.active_player == BLACK || s.active_player == WHITE
                &&& mvs.in_range()
                &&& b1 != b2
                &&& playable(t1) && playable(t2)
                &&& find4(s.pieces[pid(a)][b1], t1 as usize) < 4
                &&& find4(s.pieces[pid(a)][b2], t2 as usize) < 4
                &&& (pf == 0 || (playable(pf) && (pb == b1 || pb == b2)))
                &&& (pf != 0 ==> 0 <= pt && pt < 36 && pt != fp && pt != fp + d && pt != pf)
                &&& (pf != 0 && s.boards[pb][pt] == MARGIN ==> find4(
                    s.pieces[pid(opp)][pb],
                    NOT_ON_BOARD,
                ) < 4)
                &&& (pf != 0 && s.boards[pb][pt] != MARGIN ==> playable(pt) && find4(
                    s.pieces[pid(opp)][pb],
                    pt as usize,
                ) < 4)
            }),
    {
        let (pre, mvg) = choose|pre: Shobu, mvg: Move|
            pre.wf() && pre.move_legal(mvg) && pre.winner == 0 && #[trigger] Shobu::apply_rel(
                pre,
                s,
                mvg,
            );
        let (m1, m2) = choose|m1: Shobu, m2: Shobu|
            {
                &&& Shobu::sub_rel(pre, m1, mvg.board_1 as int, mvg.direction, mvg.from_1 as int, mvg.double)
                &&& #[trigger] Shobu::sub_rel(
                    m1,
                    m2,
                    mvg.board_2 as int,
                    mvg.direction,
                    mvg.from_2 as int,
                    mvg.double,
                )
                &&& s.boards == m2.boards
                &&& s.pieces == m2.pieces
                &&& s.winner == m2.winner
                &&& s.hashes == m2.hashes
            };
        let a = other(s.active_player);
        let opp = s.active_player;
        let entry = s.history@.last();
        let mvs = entry.0;
        let pb = entry.1 as int;
        let pf = entry.2 as int;
        let d = spec_diff(mvs.direction, mvs.double);
        let b1 = mvs.board_1 as int;
        let f1 = mvs.from_1 as int;
        let t1 = f1 + d;
        let b2 = mvs.board_2 as int;
        let f2 = mvs.from_2 as int;
        let t2 = f2 + d;
        let fp = if pb == b1 {
            f1
        } else {
            f2
        };
        let pt = fp + d + mvs.direction;
        assert(mvs == mvg);
        assert(b1 != b2);
        assert(a == pre.active_player);
        assert(pre.sub_legal(b1, mvs.direction, f1, mvs.double));
        assert(m1.boards[b2] == pre.boards[b2]);
        assert(pre.sub_legal(b2, mvs.direction, f2, mvs.double));
        assert(playable(t1) && playable(t2));
        let ra1 = pre.pieces[pid(a)][b1];
        let ia1 = find4(ra1, mvs.from_1);
        lemma_pieces_updated(pre.pieces, pid(other(a)), b1, 0, 0);
        assert(s.pieces[pid(a)][b1] == vstd::array::spec_array_update(ra1, ia1, t1 as usize)) by {
            assert(m1.pieces[pid(a)][b1] == vstd::array::spec_array_update(ra1, ia1, t1 as usize));
            assert(m2.pieces[pid(a)][b1] == m1.pieces[pid(a)][b1]);
        }
        assert(0 <= ia1 < 4);
        lemma_find4_present(s.pieces[pid(a)][b1], t1 as usize, ia1);
        let ra2 = m1.pieces[pid(a)][b2];
        let ia2 = find4(ra2, mvs.from_2);
        assert(m1.pieces[pid(a)][b2] == pre.pieces[pid(a)][b2]);
        assert(0 <= ia2 < 4) by {
            assert(pre.boards[b2][f2] == a);
            assert(find4(pre.pieces[pid(a)][b2], f2 as usize) < 4);
        }
        assert(s.pieces[pid(a)][b2] == vstd::array::spec_array_update(ra2, ia2, t2 as usize));
        lemma_find4_present(s.pieces[pid(a)][b2], t2 as usize, ia2);
        if pf != 0 {
            let brd1 = pre.boards[b1];
            let brd2 = pre.boards[b2];
            let pf1 = bsub_pushed_from(brd1, mvs.direction, f1, mvs.double);
            let pf2 = bsub_pushed_from(brd2, mvs.direction, f2, mvs.double);
            let pushing = if pf1 != 0 {
                1int
            } else {
                2int
            };
            assert(pb == if pf1 != 0 {
                b1
            } else {
                b2
            });
            assert(pf == if pf1 != 0 {
                pf1
            } else {
                pf2
            });
            let brdp = pre.boards[pb];
            let fpp = if pb == b1 {
                f1
            } else {
                f2
            };
            assert(fp == fpp);
            let top = fpp + d;
            assert(pt == top + mvs.direction);
            assert(playable(pf) && brdp[pf] == other(a));
            assert(playable(top));
            assert(0 <= pt && pt < 36);
            assert(pt != fpp && pt != fpp + d && pt != pf);
            let ptv = bsub_pushed_to(brdp, mvs.direction, fpp, mvs.double);
            assert(ptv == if brdp[pt] == MARGIN {
                0int
            } else {
                pt
            });
            let ro0 = pre.pieces[pid(opp)][pb];
            let io = find4(ro0, pf as usize);
            assert(0 <= io < 4);
            assert(s.pieces[pid(opp)][pb] == vstd::array::spec_array_update(
                ro0,
                io,
                ptv as usize,
            )) by {
                if pb == b1 {
                    assert(m1.pieces[pid(opp)][b1] == vstd::array::spec_array_update(
                        ro0,
                        io,
                        ptv as usize,
                    ));
                    assert(m2.pieces[pid(opp)][b1] == m1.pieces[pid(opp)][b1]);
                } else {
                    assert(m1.pieces[pid(opp)][b2] == pre.pieces[pid(opp)][b2]);
                    assert(m2.pieces[pid(opp)][b2] == vstd::array::spec_array_update(
                        ro0,
                        io,
                        ptv as usize,
                    ));
                }
            }
            assert((s.boards[pb][pt] == MARGIN) == (brdp[pt] == MARGIN)) by {
                let nbp = bsub_board_after(brdp, a, mvs.direction, fpp, mvs.double);
                assert(s.boards[pb] == nbp);
                if brdp[pt] == MARGIN {
                    assert(nbp[pt] == brdp[pt]);
                } else {
                    assert(ptv == pt);
                    assert(nbp[pt] == other(a));
                }
            }
            if s.boards[pb][pt] == MARGIN {
                assert(ptv == 0);
                lemma_find4_present(s.pieces[pid(opp)][pb], NOT_ON_BOARD, io);
            } else {
                assert(ptv == pt);
                assert(playable(pt));
                lemma_find4_present(s.pieces[pid(opp)][pb], pt as usize, io);
            }
        }
    }

    /// Take back the most recently applied move.
    #[verifier::rlimit(100)]
    #[verifier::spinoff_prover]
    pub fn undo_move(&mut self)
        requires
            Self::undoable(*old(self)),
        ensures
            Self::undo_rel(*old(self), *final(self)),
    {
        let ghost s0 = *old(self);
        proof {
            Self::lemma_undo_facts(s0);
        }
        let ghost a_g = other(s0.active_player);
        let ghost opp_g = s0.active_player;
        let ghost keys = s0.piece_hash_vals;
        let ghost entry = s0.history@.last();
        let ghost mvs = entry.0;
        let ghost pb = entry.1 as int;
        let ghost pf = entry.2 as int;
        let ghost d = spec_diff(mvs.direction, mvs.double);
        let ghost b1 = mvs.board_1 as int;
        let ghost f1 = mvs.from_1 as int;
        let ghost t1 = f1 + d;
        let ghost b2 = mvs.board_2 as int;
        let ghost f2 = mvs.from_2 as int;
        let ghost t2 = f2 + d;
        let ghost fp = if pb == b1 {
            f1
        } else {
            f2
        };
        let ghost pt = fp + d + mvs.direction;
        let ghost v1 = vstd::array::spec_array_update(
            s0.boards,
            b1,
            vstd::array::spec_array_update(
                vstd::array::spec_array_update(s0.boards[b1], f1, a_g),
                t1,
                EMPTY,
            ),
        );
        let ghost v2 = vstd::array::spec_array_update(
            v1,
            b2,
            vstd::array::spec_array_update(
                vstd::array::spec_array_update(v1[b2], f2, a_g),
                t2,
                EMPTY,
            ),
        );
        let ghost v3a = vstd::array::spec_array_update(
            v2,
            pb,
            vstd::array::spec_array_update(v2[pb], pf, opp_g),
        );
        let ghost margin_case = v3a[pb][pt] == MARGIN;
        let ghost q1 = pieces_updated(s0.pieces, pid(a_g), b1, t1 as usize, f1 as usize);
        let ghost q2 = pieces_updated(q1, pid(a_g), b2, t2 as usize, f2 as usize);
        self.winner = 0;
        self.active_player = if self.active_player == BLACK {
            WHITE
        } else {
            BLACK
        };
        let popped = self.history.pop().unwrap();
        let mv = popped.0;
        let pushed_board = popped.1;
        let pushed_from = popped.2;
        proof {
            assert((mv, pushed_board, pushed_from) == s0.history@.last());
            assert(self.history@ == s0.history@.drop_last());
        }
        let act = self.active_player;
        let d_v = diff(mv.direction, mv.double);
        let to_1i: i8 = mv.from_1 as i8 + d_v;
        let to_1 = to_1i as usize;
        let mut brd_a = self.boards[mv.board_1];
        brd_a[mv.from_1] = act;
        brd_a[to_1] = EMPTY;
        self.boards[mv.board_1] = brd_a;
        proof {
            assert(self.boards == v1);
        }
        self.update_piece_check_winner(act, mv.board_1, to_1, mv.from_1);
        proof {
            assert(self.pieces == q1);
            assert(self.winner == 0);
            lemma_pieces_updated(s0.pieces, pid(a_g), b1, t1 as usize, f1 as usize);
            assert(self.pieces[pid(a_g)][b2] == s0.pieces[pid(a_g)][b2]);
        }
        let to_2i: i8 = mv.from_2 as i8 + d_v;
        let to_2 = to_2i as usize;
        let mut brd_b = self.boards[mv.board_2];
        brd_b[mv.from_2] = act;
        brd_b[to_2] = EMPTY;
        self.boards[mv.board_2] = brd_b;
        proof {
            assert(self.boards == v2);
        }
        self.update_piece_check_winner(act, mv.board_2, to_2, mv.from_2);
        proof {
            assert(self.pieces == q2);
            assert(self.winner == 0);
            lemma_pieces_updated(q1, pid(a_g), b2, t2 as usize, f2 as usize);
            assert(pid(a_g) != pid(opp_g));
            assert(self.pieces[pid(opp_g)][pb] == s0.pieces[pid(opp_g)][pb]);
            assert(forall|cs: int, hs: int|
                0 <= cs < 2 && 0 <= hs < 2 ==> #[trigger] self.hashes[cs][hs] == s0.hashes[cs][hs]);
        }
        if pushed_from != NOT_ON_BOARD {
            let opp2 = if act == BLACK {
                WHITE
            } else {
                BLACK
            };
            proof {
                assert(opp2 == opp_g);
                assert(playable(pushed_from as int));
            }
            self.update_hashes(opp2, pushed_board, pushed_from);
            proof {
                assert(forall|cs: int, hs: int|
                    0 <= cs < 2 && 0 <= hs < 2 ==> #[trigger] self.hashes[cs][hs] == s0.hashes[cs][hs]
                        ^ uterm(keys, opp_g, pb, pf, cs, hs));
            }
            let mut brd_p = self.boards[pushed_board];
            brd_p[pushed_from] = opp2;
            let fp_x = if pushed_board == mv.board_1 {
                mv.from_1
            } else {
                mv.from_2
            };
            let pti: i8 = fp_x as i8 + d_v + mv.direction;
            let pushed_to = pti as usize;
            proof {
                assert(fp_x as int == fp);
                assert(0 <= (pti as int) && (pti as int) < 36);
                assert(pushed_to as int == pt);
                assert(self.boards == v2);
                assert(brd_p == v3a[pb]);
                assert(brd_p[pt] == s0.boards[pb][pt]);
            }
            if brd_p[pushed_to] == MARGIN {
                self.boards[pushed_board] = brd_p;
                proof {
                    assert(self.boards == v3a);
                    assert(margin_case);
                }
                self.update_piece_check_winner(opp2, pushed_board, NOT_ON_BOARD, pushed_from);
                proof {
                    assert(self.winner == 0);
                }
            } else {
                brd_p[pushed_to] = EMPTY;
                self.boards[pushed_board] = brd_p;
                proof {
                    assert(!margin_case);
                    assert(self.boards == vstd::array::spec_array_update(
                        v3a,
                        pb,
                        vstd::array::spec_array_update(v3a[pb], pt, EMPTY),
                    ));
                }
                self.update_piece_check_winner(opp2, pushed_board, pushed_to, pushed_from);
                proof {
                    assert(self.winner == 0);
                }
                self.update_hashes(opp2, pushed_board, pushed_to);
            }
        }
        proof {
            assert(self.boards == (if pf != 0 {
                if margin_case {
                    v3a
                } else {
                    vstd::array::spec_array_update(
                        v3a,
                        pb,
                        vstd::array::spec_array_update(v3a[pb], pt, EMPTY),
                    )
                }
            } else {
                v2
            }));
            assert(self.pieces == (if pf != 0 {
                if margin_case {
                    pieces_updated(q2, pid(opp_g), pb, NOT_ON_BOARD, pf as usize)
                } else {
                    pieces_updated(q2, pid(opp_g), pb, pt as usize, pf as usize)
                }
            } else {
                q2
            }));
            assert(self.winner == 0);
            assert(self.active_player == a_g);
            assert(forall|cs: int, hs: int|
                0 <= cs < 2 && 0 <= hs < 2 ==> #[trigger] self.hashes[cs][hs] == (if pf != 0 {
                    if margin_case {
                        s0.hashes[cs][hs] ^ uterm(keys, opp_g, pb, pf, cs, hs)
                    } else {
                        s0.hashes[cs][hs] ^ uterm(keys, opp_g, pb, pf, cs, hs) ^ uterm(
                            keys,
                            opp_g,
                            pb,
                            pt,
                            cs,
                            hs,
                        )
                    }
                } else {
                    s0.hashes[cs][hs]
                }));
        }
        self.update_hashes(act, mv.board_1, mv.from_1);
        self.update_hashes(act, mv.board_1, to_1);
        self.update_hashes(act, mv.board_2, mv.from_2);
        self.update_hashes(act, mv.board_2, to_2);
        proof {
            assert(forall|cs: int, hs: int|
                0 <= cs < 2 && 0 <= hs < 2 ==> #[trigger] self.hashes[cs][hs] == (if pf != 0 {
                    if margin_case {
                        s0.hashes[cs][hs] ^ uterm(keys, opp_g, pb, pf, cs, hs)
                    } else {
                        s0.hashes[cs][hs] ^ uterm(keys, opp_g, pb, pf, cs, hs) ^ uterm(
                            keys,
                            opp_g,
                            pb,
                            pt,
                            cs,
                            hs,
                        )
                    }
                } else {
                    s0.hashes[cs][hs]
                }) ^ uterm(keys, a_g, b1, f1, cs, hs) ^ uterm(keys, a_g, b1, t1, cs, hs) ^ uterm(
                    keys,
                    a_g,
                    b2,
                    f2,
                    cs,
                    hs,
                ) ^ uterm(keys, a_g, b2, t2, cs, hs));
            assert(Self::undo_rel(s0, *self));
        }
    }
}


/// If `v` occurs nowhere in the roster, then after writing it into slot `i`
/// that slot is the first holding it.
pub proof fn lemma_find4_fresh(r: [usize; 4], i: int, v: usize)
    requires
        0 <= i < 4,
        forall|j: int| 0 <= j < 4 ==> r[j] != v,
    ensures
        find4(vstd::array::spec_array_update(r, i, v), v) == i,
{
}

/// Writing a fresh value into a slot and then writing the old value back
/// restores the roster.
pub proof fn lemma_roster_roundtrip(r: [usize; 4], i: int, v: usize)
    requires
        0 <= i < 4,
        forall|j: int| 0 <= j < 4 ==> r[j] != v,
    ensures
        roster_updated(roster_updated(r, r[i], v), v, r[i]) == r,
{
    let ghost w = r[i] as usize;
    assert(find4(r, w) <= i);
    let i0 = find4(r, w);
    assert(r[i0] == w);
    let r1 = roster_updated(r, w, v);
    assert(r1 == vstd::array::spec_array_update(r, i0, v));
    lemma_find4_fresh(r, i0, v);
    assert(find4(r1, v) == i0);
    assert(roster_updated(r1, v, w) == vstd::array::spec_array_update(r1, i0, w));
    assert(roster_updated(r1, v, w) =~= r);
}

/// Applying a legal move and then undoing it restores the position: the
/// boards, turn, winner mark, hashes and history come back exactly; the
/// piece rosters come back exactly too unless a stone pushed off the board
/// is restored into an earlier free slot, and even then they list the same
/// stones, and the invariant holds.
pub open spec fn undo_exact(pre: Shobu, mv: Move) -> bool {
    let pf1 = bsub_pushed_from(pre.boards[mv.board_1 as int], mv.direction, mv.from_1 as int, mv.double);
    let pf2 = bsub_pushed_from(pre.boards[mv.board_2 as int], mv.direction, mv.from_2 as int, mv.double);
    let pb = if pf1 != 0 {
        mv.board_1 as int
    } else {
        mv.board_2 as int
    };
    let fp = if pf1 != 0 {
        mv.from_1 as int
    } else {
        mv.from_2 as int
    };
    let pf = if pf1 != 0 {
        pf1
    } else {
        pf2
    };
    let pt = bsub_pushed_to(pre.boards[pb], mv.direction, fp, mv.double);
    let ro = pre.pieces[pid(other(pre.active_player))][pb];
    ||| pf == 0
    ||| pt != 0
    ||| find4(
        vstd::array::spec_array_update(ro, find4(ro, pf as usize), NOT_ON_BOARD),
        NOT_ON_BOARD,
    ) == find4(ro, pf as usize)
}

/// Fields restored by an undo; the piece table is restored exactly when
/// `undo_exact` held of the move.
pub open spec fn restores(post: Shobu, pre: Shobu) -> bool {
    &&& post.active_player == pre.active_player
    &&& post.winner == pre.winner
    &&& post.boards == pre.boards
    &&& post.history@ == pre.history@
    &&& post.hashes == pre.hashes
    &&& post.piece_hash_vals == pre.piece_hash_vals
    &&& post.black_active_hash == pre.black_active_hash
    &&& post.wf()
}


/// Reversibility: undoing a just-applied legal move restores the position.
pub proof fn lemma_apply_undo(pre: Shobu, mid: Shobu, post: Shobu, mv: Move)
    requires
        pre.wf(),
        pre.move_legal(mv),
        pre.winner == 0,
        Shobu::apply_rel(pre, mid, mv),
        Shobu::undo_rel(mid, post),
    ensures
        restores(post, pre),
        undo_exact(pre, mv) ==> post.pieces == pre.pieces,
{
    let (m1, m2) = choose|m1: Shobu, m2: Shobu|
        {
            &&& Shobu::sub_rel(pre, m1, mv.board_1 as int, mv.direction, mv.from_1 as int, mv.double)
            &&& #[trigger] Shobu::sub_rel(
                m1,
                m2,
                mv.board_2 as int,
                mv.direction,
                mv.from_2 as int,
                mv.double,
            )
            &&& mid.boards == m2.boards
            &&& mid.pieces == m2.pieces
            &&& mid.winner == m2.winner
            &&& mid.hashes == m2.hashes
        };
    assert(mid.history@.last() == (
        mv,
        (if bsub_pushed_from(pre.boards[mv.board_1 as int], mv.direction, mv.from_1 as int, mv.double) != 0 {
            mv.board_1
        } else {
            mv.board_2
        }),
        (if bsub_pushed_from(pre.boards[mv.board_1 as int], mv.direction, mv.from_1 as int, mv.double) != 0 {
            bsub_pushed_from(pre.boards[mv.board_1 as int], mv.direction, mv.from_1 as int, mv.double) as usize
        } else {
            bsub_pushed_from(pre.boards[mv.board_2 as int], mv.direction, mv.from_2 as int, mv.double) as usize
        }),
    ));
    assert(mid.history@.drop_last() =~= pre.history@);
    assert(post.history@ == pre.history@);
    assert(post.active_player == pre.active_player);
    assert(post.winner == 0);
    lemma_boards_restored(pre, mid, post, mv, m1, m2);
    lemma_hashes_restored(pre, mid, post, mv, m1, m2);
    lemma_pieces_restored(pre, mid, post, mv, m1, m2);
}

/// The board half of reversibility.
#[verifier::rlimit(100)]
proof fn lemma_boards_restored(pre: Shobu, mid: Shobu, post: Shobu, mv: Move, m1: Shobu, m2: Shobu)
    requires
        pre.wf(),
        pre.move_legal(mv),
        pre.winner == 0,
        Shobu::sub_rel(pre, m1, mv.board_1 as int, mv.direction, mv.from_1 as int, mv.double),
        Shobu::sub_rel(m1, m2, mv.board_2 as int, mv.direction, mv.from_2 as int, mv.double),
        mid.boards == m2.boards,
        mid.pieces == m2.pieces,
        mid.hashes == m2.hashes,
        Shobu::apply_rel(pre, mid, mv),
        Shobu::undo_rel(mid, post),
    ensures
        post.boards == pre.boards,
{
    let a = pre.active_player;
    let opp = other(a);
    let d = spec_diff(mv.direction, mv.double);
    let b1 = mv.board_1 as int;
    let f1 = mv.from_1 as int;
    let t1 = f1 + d;
    let b2 = mv.board_2 as int;
    let f2 = mv.from_2 as int;
    let t2 = f2 + d;
    let brd1 = pre.boards[b1];
    let brd2 = pre.boards[b2];
    let pf1 = bsub_pushed_from(brd1, mv.direction, f1, mv.double);
    let pf2 = bsub_pushed_from(brd2, mv.direction, f2, mv.double);
    let pb = if pf1 != 0 {
        b1
    } else {
        b2
    };
    let fp = if pf1 != 0 {
        f1
    } else {
        f2
    };
    let pf = if pf1 != 0 {
        pf1
    } else {
        pf2
    };
    let tp = fp + d;
    let pt = tp + mv.direction;
    let ptv = if pf1 != 0 {
        bsub_pushed_to(brd1, mv.direction, f1, mv.double)
    } else {
        bsub_pushed_to(brd2, mv.direction, f2, mv.double)
    };
    assert(b1 != b2);
    assert(m1.boards[b2] == brd2);
    assert(pre.sub_legal(b1, mv.direction, f1, mv.double));
    assert(pre.sub_legal(b2, mv.direction, f2, mv.double));
    assert(playable(t1) && playable(t2));
    assert(!(pf1 != 0 && pf2 != 0));
    assert(mid.history@.last() == (mv, pb as usize, pf as usize));
    let v1 = vstd::array::spec_array_update(
        mid.boards,
        b1,
        vstd::array::spec_array_update(
            vstd::array::spec_array_update(mid.boards[b1], f1, a),
            t1,
            EMPTY,
        ),
    );
    let v2 = vstd::array::spec_array_update(
        v1,
        b2,
        vstd::array::spec_array_update(
            vstd::array::spec_array_update(v1[b2], f2, a),
            t2,
            EMPTY,
        ),
    );
    let v3a = vstd::array::spec_array_update(
        v2,
        pb,
        vstd::array::spec_array_update(v2[pb], pf, opp),
    );
    let margin_case = v3a[pb][pt] == MARGIN;
    if pf != 0 {
        assert(playable(tp));
        assert(0 <= pt < 36);
        assert(pt != fp && pt != tp && pt != pf);
        assert(v3a[pb][pt] == mid.boards[pb][pt]);
        if ptv == 0 {
            assert(pre.boards[pb][pt] == MARGIN);
            assert(mid.boards[pb][pt] == MARGIN);
            assert(margin_case);
        } else {
            assert(ptv == pt);
            assert(mid.boards[pb][pt] == opp);
            assert(!margin_case);
        }
    }
    assert forall|bb: int, t: int| 0 <= bb < 4 && 0 <= t < 36 implies post.boards[bb][t]
        == pre.boards[bb][t] by {
        if bb == b1 || bb == b2 {
            let brd = pre.boards[bb];
            let f = if bb == b1 {
                f1
            } else {
                f2
            };
            let tt = f + d;
            let md = f + mv.direction;
            let pfx = if bb == b1 {
                pf1
            } else {
                pf2
            };
            if t == f {
                assert(post.boards[bb][t] == a);
            } else if t == tt {
                if pfx != 0 && pfx == tt {
                    assert(bb == pb && pf == pfx);
                    assert(post.boards[bb][t] == opp);
                    assert(brd[t] == opp);
                } else {
                    assert(post.boards[bb][t] == EMPTY);
                    assert(!is_stone(brd[t]));
                    assert(brd[t] != MARGIN && brd[t] != a);
                }
            } else if pfx != 0 && t == pfx {
                assert(bb == pb);
                assert(post.boards[bb][t] == opp);
                assert(brd[t] == opp);
            } else if pfx != 0 && t == pt && bb == pb && !margin_case {
                assert(post.boards[bb][t] == EMPTY);
                assert(!is_stone(brd[t]) && brd[t] != MARGIN);
            } else {
                assert(post.boards[bb][t] == pre.boards[bb][t]);
            }
        }
    }
    assert forall|bb: int| 0 <= bb < 4 implies post.boards[bb] =~= pre.boards[bb] by {}
    assert(post.boards =~= pre.boards);
}

/// The hash half of reversibility: every stone event is folded in twice.
#[verifier::rlimit(100)]
proof fn lemma_hashes_restored(pre: Shobu, mid: Shobu, post: Shobu, mv: Move, m1: Shobu, m2: Shobu)
    requires
        pre.wf(),
        pre.move_legal(mv),
        pre.winner == 0,
        Shobu::sub_rel(pre, m1, mv.board_1 as int, mv.direction, mv.from_1 as int, mv.double),
        Shobu::sub_rel(m1, m2, mv.board_2 as int, mv.direction, mv.from_2 as int, mv.double),
        mid.boards == m2.boards,
        mid.pieces == m2.pieces,
        mid.hashes == m2.hashes,
        Shobu::apply_rel(pre, mid, mv),
        Shobu::undo_rel(mid, post),
    ensures
        post.hashes == pre.hashes,
{
    let a = pre.active_player;
    let opp = other(a);
    let keys = pre.piece_hash_vals;
    let d = spec_diff(mv.direction, mv.double);
    let b1 = mv.board_1 as int;
    let f1 = mv.from_1 as int;
    let t1 = f1 + d;
    let b2 = mv.board_2 as int;
    let f2 = mv.from_2 as int;
    let t2 = f2 + d;
    let brd1 = pre.boards[b1];
    let brd2 = pre.boards[b2];
    let pf1 = bsub_pushed_from(brd1, mv.direction, f1, mv.double);
    let pf2 = bsub_pushed_from(brd2, mv.direction, f2, mv.double);
    let pb = if pf1 != 0 {
        b1
    } else {
        b2
    };
    let fp = if pf1 != 0 {
        f1
    } else {
        f2
    };
    let pf = if pf1 != 0 {
        pf1
    } else {
        pf2
    };
    let pt = fp + d + mv.direction;
    let ptv = if pf1 != 0 {
        bsub_pushed_to(brd1, mv.direction, f1, mv.double)
    } else {
        bsub_pushed_to(brd2, mv.direction, f2, mv.double)
    };
    assert(b1 != b2);
    assert(m1.boards[b2] == brd2);
    assert(pre.sub_legal(b1, mv.direction, f1, mv.double));
    assert(pre.sub_legal(b2, mv.direction, f2, mv.double));
    assert(!(pf1 != 0 && pf2 != 0));
    assert(mid.history@.last() == (mv, pb as usize, pf as usize));
    let v1 = vstd::array::spec_array_update(
        mid.boards,
        b1,
        vstd::array::spec_array_update(
            vstd::array::spec_array_update(mid.boards[b1], f1, a),
            t1,
            EMPTY,
        ),
    );
    let v2 = vstd::array::spec_array_update(
        v1,
        b2,
        vstd::array::spec_array_update(
            vstd::array::spec_array_update(v1[b2], f2, a),
            t2,
            EMPTY,
        ),
    );
    let v3a = vstd::array::spec_array_update(
        v2,
        pb,
        vstd::array::spec_array_update(v2[pb], pf, opp),
    );
    let margin_case = v3a[pb][pt] == MARGIN;
    if pf != 0 {
        assert(playable(fp + d));
        assert(pt != fp && pt != fp + d && pt != pf);
        assert(v3a[pb][pt] == mid.boards[pb][pt]);
        if ptv == 0 {
            assert(mid.boards[pb][pt] == MARGIN);
            assert(margin_case);
        } else {
            assert(ptv == pt);
            assert(mid.boards[pb][pt] == opp);
            assert(!margin_case);
        }
    }
    assert forall|cs: int, hs: int| 0 <= cs < 2 && 0 <= hs < 2 implies post.hashes[cs][hs]
        == pre.hashes[cs][hs] by {
        let x = pre.hashes[cs][hs];
        let upf = uterm(keys, opp, pb, pf, cs, hs);
        let upt = uterm(keys, opp, pb, ptv, cs, hs);
        let uf1 = uterm(keys, a, b1, f1, cs, hs);
        let ut1 = uterm(keys, a, b1, t1, cs, hs);
        let uf2 = uterm(keys, a, b2, f2, cs, hs);
        let ut2 = uterm(keys, a, b2, t2, cs, hs);
        lemma_uterm_zero(keys, opp, b1, cs, hs);
        lemma_uterm_zero(keys, opp, b2, cs, hs);
        lemma_uterm_zero(keys, opp, pb, cs, hs);
        if pf1 != 0 {
            assert(mid.hashes[cs][hs] == x ^ upf ^ upt ^ uf1 ^ ut1 ^ 0u64 ^ 0u64 ^ uf2 ^ ut2);
            if margin_case {
                assert(ptv == 0 && upt == 0u64);
                assert(post.hashes[cs][hs] == mid.hashes[cs][hs] ^ upf ^ uf1 ^ ut1 ^ uf2 ^ ut2);
                assert((x ^ upf ^ 0u64 ^ uf1 ^ ut1 ^ 0u64 ^ 0u64 ^ uf2 ^ ut2) ^ upf ^ uf1 ^ ut1
                    ^ uf2 ^ ut2 == x) by (bit_vector);
            } else {
                assert(uterm(keys, opp, pb, pt, cs, hs) == upt);
                assert(post.hashes[cs][hs] == mid.hashes[cs][hs] ^ upf ^ upt ^ uf1 ^ ut1 ^ uf2
                    ^ ut2);
                assert((x ^ upf ^ upt ^ uf1 ^ ut1 ^ 0u64 ^ 0u64 ^ uf2 ^ ut2) ^ upf ^ upt ^ uf1
                    ^ ut1 ^ uf2 ^ ut2 == x) by (bit_vector);
            }
        } else if pf2 != 0 {
            assert(mid.hashes[cs][hs] == x ^ 0u64 ^ 0u64 ^ uf1 ^ ut1 ^ upf ^ upt ^ uf2 ^ ut2);
            if margin_case {
                assert(ptv == 0 && upt == 0u64);
                assert(post.hashes[cs][hs] == mid.hashes[cs][hs] ^ upf ^ uf1 ^ ut1 ^ uf2 ^ ut2);
                assert((x ^ 0u64 ^ 0u64 ^ uf1 ^ ut1 ^ upf ^ 0u64 ^ uf2 ^ ut2) ^ upf ^ uf1 ^ ut1
                    ^ uf2 ^ ut2 == x) by (bit_vector);
            } else {
                assert(uterm(keys, opp, pb, pt, cs, hs) == upt);
                assert(post.hashes[cs][hs] == mid.hashes[cs][hs] ^ upf ^ upt ^ uf1 ^ ut1 ^ uf2
                    ^ ut2);
                assert((x ^ 0u64 ^ 0u64 ^ uf1 ^ ut1 ^ upf ^ upt ^ uf2 ^ ut2) ^ upf ^ upt ^ uf1
                    ^ ut1 ^ uf2 ^ ut2 == x) by (bit_vector);
            }
        } else {
            assert(pf == 0 && upf == 0u64);
            assert(mid.hashes[cs][hs] == x ^ 0u64 ^ 0u64 ^ uf1 ^ ut1 ^ 0u64 ^ 0u64 ^ uf2 ^ ut2);
            assert(post.hashes[cs][hs] == mid.hashes[cs][hs] ^ uf1 ^ ut1 ^ uf2 ^ ut2);
            assert((x ^ 0u64 ^ 0u64 ^ uf1 ^ ut1 ^ 0u64 ^ 0u64 ^ uf2 ^ ut2) ^ uf1 ^ ut1 ^ uf2 ^ ut2
                == x) by (bit_vector);
        }
    }
    assert forall|cs: int| 0 <= cs < 2 implies post.hashes[cs] =~= pre.hashes[cs] by {}
    assert(post.hashes =~= pre.hashes);
}

/// A sentinel event contributes nothing to a hash.
pub proof fn lemma_uterm_zero(keys: [[u64; 8]; 2], player: i8, b: int, cs: int, hs: int)
    ensures
        uterm(keys, player, b, 0, cs, hs) == 0u64,
{
    reveal(uterm);
}


/// The piece-table half of reversibility: rosters are restored (exactly,
/// under `undo_exact`; as the same stone set otherwise) and the invariant
/// holds again.
#[verifier::rlimit(100)]
proof fn lemma_pieces_restored(pre: Shobu, mid: Shobu, post: Shobu, mv: Move, m1: Shobu, m2: Shobu)
    requires
        pre.wf(),
        pre.move_legal(mv),
        pre.winner == 0,
        Shobu::sub_rel(pre, m1, mv.board_1 as int, mv.direction, mv.from_1 as int, mv.double),
        Shobu::sub_rel(m1, m2, mv.board_2 as int, mv.direction, mv.from_2 as int, mv.double),
        mid.pieces == m2.pieces,
        Shobu::apply_rel(pre, mid, mv),
        Shobu::undo_rel(mid, post),
        post.boards == pre.boards,
        post.active_player == pre.active_player,
    ensures
        post.wf(),
        undo_exact(pre, mv) ==> post.pieces == pre.pieces,
{
    let a = pre.active_player;
    let opp = other(a);
    let d = spec_diff(mv.direction, mv.double);
    let b1 = mv.board_1 as int;
    let f1 = mv.from_1 as int;
    let t1 = f1 + d;
    let b2 = mv.board_2 as int;
    let f2 = mv.from_2 as int;
    let t2 = f2 + d;
    let brd1 = pre.boards[b1];
    let brd2 = pre.boards[b2];
    let pf1 = bsub_pushed_from(brd1, mv.direction, f1, mv.double);
    let pf2 = bsub_pushed_from(brd2, mv.direction, f2, mv.double);
    let pb = if pf1 != 0 {
        b1
    } else {
        b2
    };
    let fp = if pf1 != 0 {
        f1
    } else {
        f2
    };
    let pf = if pf1 != 0 {
        pf1
    } else {
        pf2
    };
    let pt = fp + d + mv.direction;
    let ptv = if pf1 != 0 {
        bsub_pushed_to(brd1, mv.direction, f1, mv.double)
    } else {
        bsub_pushed_to(brd2, mv.direction, f2, mv.double)
    };
    let pa = pid(a);
    let po = pid(opp);
    assert(b1 != b2 && pa != po);
    assert(m1.boards[b2] == brd2);
    assert(pre.sub_legal(b1, mv.direction, f1, mv.double));
    assert(pre.sub_legal(b2, mv.direction, f2, mv.double));
    assert(playable(t1) && playable(t2));
    assert(mid.history@.last() == (mv, pb as usize, pf as usize));
    assert(mid.active_player == opp && other(mid.active_player) == a);
    let ra10 = pre.pieces[pa][b1];
    let ia1 = find4(ra10, mv.from_1);
    let ra20 = pre.pieces[pa][b2];
    let ia2 = find4(ra20, mv.from_2);
    let ro0 = pre.pieces[po][pb];
    let io = find4(ro0, pf as usize);
    assert(0 <= ia1 < 4 && ra10[ia1] == mv.from_1);
    assert(0 <= ia2 < 4 && ra20[ia2] == mv.from_2);
    // describe mid's rows
    let ps1 = if pf1 != 0 {
        pieces_updated(pre.pieces, po, b1, pf1 as usize, bsub_pushed_to(brd1, mv.direction, f1, mv.double) as usize)
    } else {
        pre.pieces
    };
    lemma_pieces_updated(pre.pieces, po, b1, pf1 as usize, ptv as usize);
    lemma_pieces_updated(ps1, pa, b1, mv.from_1, t1 as usize);
    assert(m1.pieces[pa][b1] == vstd::array::spec_array_update(ra10, ia1, t1 as usize));
    assert(m1.pieces[pa][b2] == ra20);
    let ps2 = if pf2 != 0 {
        pieces_updated(m1.pieces, po, b2, pf2 as usize, bsub_pushed_to(brd2, mv.direction, f2, mv.double) as usize)
    } else {
        m1.pieces
    };
    lemma_pieces_updated(m1.pieces, po, b2, pf2 as usize, ptv as usize);
    lemma_pieces_updated(ps2, pa, b2, mv.from_2, t2 as usize);
    assert(mid.pieces[pa][b1] == vstd::array::spec_array_update(ra10, ia1, t1 as usize));
    assert(mid.pieces[pa][b2] == vstd::array::spec_array_update(ra20, ia2, t2 as usize));
    if pf != 0 {
        assert(0 <= io < 4 && ro0[io] == pf as usize) by {
            assert(playable(pf) && pre.boards[pb][pf] == opp);
        }
        assert(mid.pieces[po][pb] == vstd::array::spec_array_update(ro0, io, ptv as usize)) by {
            if pf1 != 0 {
                assert(m1.pieces[po][b1] == vstd::array::spec_array_update(
                    ro0,
                    io,
                    ptv as usize,
                ));
                assert(mid.pieces[po][b1] == m1.pieces[po][b1]);
            } else {
                assert(m1.pieces[po][b2] == pre.pieces[po][b2]);
            }
        }
    }
    assert(forall|p: int, bb: int|
        0 <= p < 2 && 0 <= bb < 4 && !(p == pa && (bb == b1 || bb == b2)) && !(pf != 0 && p == po
            && bb == pb) ==> #[trigger] mid.pieces[p][bb] == pre.pieces[p][bb]);
    // the undo's roster chain
    let q1 = pieces_updated(mid.pieces, pa, b1, t1 as usize, mv.from_1);
    let q2 = pieces_updated(q1, pa, b2, t2 as usize, mv.from_2);
    lemma_pieces_updated(mid.pieces, pa, b1, t1 as usize, mv.from_1);
    lemma_pieces_updated(q1, pa, b2, t2 as usize, mv.from_2);
    assert(forall|j: int| 0 <= j < 4 ==> ra10[j] != t1 as usize) by {
        assert(brd1[t1] != a);
    }
    assert(forall|j: int| 0 <= j < 4 ==> ra20[j] != t2 as usize) by {
        assert(brd2[t2] != a);
    }
    lemma_roster_roundtrip(ra10, ia1, t1 as usize);
    lemma_roster_roundtrip(ra20, ia2, t2 as usize);
    assert(q1[pa][b1] == ra10) by {
        assert(roster_updated(ra10, mv.from_1, t1 as usize) == vstd::array::spec_array_update(
            ra10,
            ia1,
            t1 as usize,
        ));
    }
    assert(q2[pa][b1] == ra10);
    assert(q2[pa][b2] == ra20);
    assert(forall|p: int, bb: int|
        0 <= p < 2 && 0 <= bb < 4 && !(p == pa && (bb == b1 || bb == b2)) ==> #[trigger] q2[p][bb]
            == mid.pieces[p][bb]);
    if pf == 0 {
        assert(post.pieces == q2);
        assert forall|p: int| 0 <= p < 2 implies post.pieces[p] =~= pre.pieces[p] by {}
        assert(post.pieces =~= pre.pieces);
        assert(post.wf());
    } else {
        let ro1 = vstd::array::spec_array_update(ro0, io, ptv as usize);
        assert(q2[po][pb] == ro1);
        if ptv != 0 {
            assert(ptv == pt && playable(pt));
            assert(!is_stone(pre.boards[pb][pt]));
            assert(post.pieces == pieces_updated(q2, po, pb, pt as usize, pf as usize));
            lemma_pieces_updated(q2, po, pb, pt as usize, pf as usize);
            assert(forall|j: int| 0 <= j < 4 ==> ro0[j] != pt as usize) by {
                assert(pre.boards[pb][pt] != opp);
            }
            lemma_roster_roundtrip(ro0, io, pt as usize);
            assert(post.pieces[po][pb] == ro0) by {
                assert(roster_updated(ro0, pf as usize, pt as usize)
                    == vstd::array::spec_array_update(ro0, io, pt as usize));
            }
            assert forall|p: int| 0 <= p < 2 implies post.pieces[p] =~= pre.pieces[p] by {}
            assert(post.pieces =~= pre.pieces);
            assert(post.wf());
        } else {
            // the pushed stone left the board; it returns into the first free slot
            assert(post.pieces == pieces_updated(q2, po, pb, NOT_ON_BOARD, pf as usize));
            lemma_pieces_updated(q2, po, pb, NOT_ON_BOARD, pf as usize);
            let j0 = find4(ro1, NOT_ON_BOARD);
            assert(ro1[io] == NOT_ON_BOARD);
            lemma_find4_present(ro1, NOT_ON_BOARD, io);
            assert(0 <= j0 <= io);
            assert(post.pieces[po][pb] == vstd::array::spec_array_update(ro1, j0, pf as usize));
            assert(forall|p2: int, bb2: int|
                0 <= p2 < 2 && 0 <= bb2 < 4 && !(p2 == po && bb2 == pb)
                    ==> #[trigger] post.pieces[p2][bb2] == pre.pieces[p2][bb2]);
            assert(playable(pf) && pre.boards[pb][pf] == opp);
            lemma_offboard_wf(pre, post, po, pb, pf, io, j0);
            if undo_exact(pre, mv) {
                assert(j0 == io);
            }
        }
    }
}

/// Restoring a stone that had been pushed off the board keeps the invariant,
/// and restores the roster exactly when its stones precede its free slots.
#[verifier::rlimit(100)]
proof fn lemma_offboard_wf(pre: Shobu, post: Shobu, po: int, pb: int, pf: int, io: int, j0: int)
    requires
        pre.wf(),
        0 <= po < 2,
        0 <= pb < 4,
        playable(pf),
        pre.boards[pb][pf] == Shobu::player_of(po),
        io == find4(pre.pieces[po][pb], pf as usize),
        0 <= io < 4,
        j0 == find4(
            vstd::array::spec_array_update(pre.pieces[po][pb], io, NOT_ON_BOARD),
            NOT_ON_BOARD,
        ),
        0 <= j0 <= io,
        post.boards == pre.boards,
        post.active_player == pre.active_player,
        forall|p2: int, bb2: int|
            0 <= p2 < 2 && 0 <= bb2 < 4 && !(p2 == po && bb2 == pb)
                ==> #[trigger] post.pieces[p2][bb2] == pre.pieces[p2][bb2],
        post.pieces[po][pb] == vstd::array::spec_array_update(
            vstd::array::spec_array_update(pre.pieces[po][pb], io, NOT_ON_BOARD),
            j0,
            pf as usize,
        ),
    ensures
        post.wf(),
        j0 == io ==> post.pieces == pre.pieces,
{
    let ro0 = pre.pieces[po][pb];
    let ro1 = vstd::array::spec_array_update(ro0, io, NOT_ON_BOARD);
    let rof = vstd::array::spec_array_update(ro1, j0, pf as usize);
    assert(ro0[io] == pf as usize);
    assert(forall|i: int|
        0 <= i < 4 ==> #[trigger] rof[i] == (if i == j0 {
            pf as usize
        } else if i == io {
            NOT_ON_BOARD
        } else {
            ro0[i]
        }));
    if j0 == io {
        assert(rof =~= ro0);
        assert forall|p: int| 0 <= p < 2 implies post.pieces[p] =~= pre.pieces[p] by {}
        assert(post.pieces =~= pre.pieces);
        assert(post.wf());
    } else {
        assert forall|p: int, bb: int, i: int| 0 <= p < 2 && 0 <= bb < 4 && 0 <= i < 4 implies {
            let e = #[trigger] post.pieces[p][bb][i];
            e == NOT_ON_BOARD || (playable(e as int) && post.boards[bb][e as int]
                == Shobu::player_of(p))
        } by {
            if p == po && bb == pb && i == j0 {
                assert(post.pieces[p][bb][i] == pf as usize);
            }
        }
        assert forall|p: int, bb: int, i: int, j: int|
            0 <= p < 2 && 0 <= bb < 4 && 0 <= i < 4 && 0 <= j < 4 && i != j
                && #[trigger] post.pieces[p][bb][i] != NOT_ON_BOARD implies post.pieces[p][bb][i]
            != #[trigger] post.pieces[p][bb][j] by {
            if p == po && bb == pb {
                if i == j0 {
                    if post.pieces[p][bb][j] == pf as usize {
                        assert(j != io && j != j0);
                        assert(ro0[j] == pf as usize && ro0[io] == pf as usize);
                    }
                } else if j == j0 {
                    if post.pieces[p][bb][i] == pf as usize {
                        assert(i != io);
                        assert(ro0[i] == pf as usize && ro0[io] == pf as usize);
                    }
                }
            }
        }
        assert forall|p: int, bb: int, t: int|
            #![trigger find4(post.pieces[p][bb], t as usize)]
            0 <= p < 2 && 0 <= bb < 4 && 0 <= t < 36 && playable(t) && post.boards[bb][t]
                == Shobu::player_of(p) implies find4(post.pieces[p][bb], t as usize) < 4 by {
            if p == po && bb == pb {
                let k = find4(ro0, t as usize);
                assert(pre.boards[pb][t] == Shobu::player_of(po));
                assert(0 <= k < 4 && ro0[k] == t as usize);
                if t == pf {
                    lemma_find4_present(rof, t as usize, j0);
                } else {
                    assert(k != io);
                    assert(ro1[j0] == NOT_ON_BOARD);
                    assert(k != j0);
                    assert(rof[k] == t as usize);
                    lemma_find4_present(rof, t as usize, k);
                }
            } else {
                assert(pre.boards[bb][t] == Shobu::player_of(p));
                assert(find4(pre.pieces[p][bb], t as usize) < 4);
            }
        }
        assert(post.wf());
    }
}


/// The direction offsets in generation order.
pub(crate) fn direction_at(i: usize) -> (r: i8)
    requires
        i < 8,
    ensures
        r as int == DIRECTIONS[i as int],
        is_direction(r),
{
    match i {
        0 => -6,
        1 => -5,
        2 => 1,
        3 => 7,
        4 => 6,
        5 => 5,
        6 => -1,
        _ => -7,
    }
}

impl Shobu {
    /// A generated move is legal and its push annotations are right.
    pub open spec fn gen_ok(self, me: MoveExtended) -> bool {
        &&& self.move_legal(me.mv)
        &&& me.push_1 == self.sub_push(
            me.mv.board_1 as int,
            me.mv.direction,
            me.mv.from_1 as int,
            me.mv.double,
        )
        &&& me.push_2 == self.sub_push(
            me.mv.board_2 as int,
            me.mv.direction,
            me.mv.from_2 as int,
            me.mv.double,
        )
    }

    /// The candidate at one point of the fixed direction-step-stone scan of
    /// a board pair: the move it denotes, when every legality rule passes.
    #[verifier::opaque]
    pub open spec fn gen_candidate(self, b1: int, b2: int, n: int) -> Option<MoveExtended> {
        let di = n / 32;
        let dbl = (n / 16) % 2;
        let i1 = (n / 4) % 4;
        let i2 = n % 4;
        let direction = DIRECTIONS[di];
        let double = dbl == 1;
        let pa = pid(self.active_player);
        let p1 = self.pieces[pa][b1][i1];
        let p2 = self.pieces[pa][b2][i2];
        let push_1 = self.sub_push(b1, direction, p1 as int, double);
        let push_2 = self.sub_push(b2, direction, p2 as int, double);
        let sum = b1 + b2;
        if p1 != NOT_ON_BOARD && p2 != NOT_ON_BOARD && self.sub_legal(b1, direction, p1 as int, double)
            && self.sub_legal(b2, direction, p2 as int, double) && !(push_1 && push_2) && !(
        self.active_player == BLACK && sum != 1 && ((b1 < 2 && push_1) || (b2 < 2 && push_2))) && !(
        self.active_player == WHITE && sum != 5 && ((b1 > 1 && push_1) || (b2 > 1 && push_2))) {
            Some(
                MoveExtended {
                    mv: Move {
                        board_1: b1 as usize,
                        board_2: b2 as usize,
                        direction,
                        from_1: p1,
                        from_2: p2,
                        double,
                    },
                    push_1,
                    push_2,
                },
            )
        } else {
            None
        }
    }

    /// The legal moves of one board pair, in scan order, after the first
    /// `n` of the 256 candidates.
    pub open spec fn gen_pair_seq(self, b1: int, b2: int, n: int) -> Seq<MoveExtended>
        decreases n,
    {
        if n <= 0 {
            Seq::empty()
        } else {
            self.gen_pair_seq(b1, b2, n - 1) + (match self.gen_candidate(b1, b2, n - 1) {
                Some(me) => seq![me],
                None => Seq::empty(),
            })
        }
    }

    /// Every legal move of the active player, in generation order over the
    /// three admissible board-pair combinations.
    pub open spec fn spec_legal_moves(self) -> Seq<MoveExtended> {
        self.gen_pair_seq(0, 3, 256) + self.gen_pair_seq(1, 2, 256) + (if self.active_player
            == BLACK {
            self.gen_pair_seq(0, 1, 256)
        } else {
            self.gen_pair_seq(2, 3, 256)
        })
    }

    /// Whether any legal move exists at all.
    pub open spec fn has_legal_move(self) -> bool {
        exists|mv: Move| self.move_legal(mv)
    }

    /// Enumerate every legal move on one admissible board pair, in the fixed
    /// direction-step-stone scan order, and append it to `out`.
    fn moves_for_board_pair(&self, out: &mut Vec<MoveExtended>, board_1: usize, board_2: usize)
        requires
            self.wf(),
            board_1 < 4,
            board_2 < 4,
            (board_1 + board_2) % 2 == 1,
            self.active_player == BLACK ==> board_1 + board_2 <= 3,
            self.active_player == WHITE ==> board_1 + board_2 >= 3,
        ensures
            final(out)@ == old(out)@ + self.gen_pair_seq(board_1 as int, board_2 as int, 256),
            forall|k: int|
                old(out)@.len() <= k < final(out)@.len() ==> self.gen_ok(#[trigger] final(out)@[k]),
            forall|k: int| 0 <= k < old(out)@.len() ==> final(out)@[k] == old(out)@[k],
    {
        let player_id: usize = if self.active_player == BLACK {
            0
        } else {
            1
        };
        for n in 0..256usize
            invariant
                self.wf(),
                player_id as int == pid(self.active_player),
                player_id < 2,
                board_1 < 4,
                board_2 < 4,
                (board_1 + board_2) % 2 == 1,
                self.active_player == BLACK ==> board_1 + board_2 <= 3,
                self.active_player == WHITE ==> board_1 + board_2 >= 3,
                out@ == old(out)@ + self.gen_pair_seq(board_1 as int, board_2 as int, n as int),
                forall|k: int|
                    old(out)@.len() <= k < out@.len() ==> self.gen_ok(#[trigger] out@[k]),
                forall|k: int| 0 <= k < old(out)@.len() ==> out@[k] == old(out)@[k],
        {
            let di = n / 32;
            let dbl = (n / 16) % 2;
            let i1 = (n / 4) % 4;
            let i2 = n % 4;
            let direction = direction_at(di);
            let double = dbl == 1;
            let piece_1 = self.pieces[player_id][board_1][i1];
            let piece_2 = self.pieces[player_id][board_2][i2];
            let mut pushed = false;
            if piece_1 != NOT_ON_BOARD && piece_2 != NOT_ON_BOARD {
                let (legal_1, push_1) = self.is_legal_and_push(board_1, direction, piece_1, double);
                let (legal_2, push_2) = self.is_legal_and_push(board_2, direction, piece_2, double);
                if legal_1 && legal_2 && !(push_1 && push_2) {
                    let board_sum = board_1 + board_2;
                    let mut allowed = true;
                    if self.active_player == BLACK && board_sum != 1 {
                        if (board_1 < 2 && push_1) || (board_2 < 2 && push_2) {
                            allowed = false;
                        }
                    } else if self.active_player == WHITE && board_sum != 5 {
                        if (board_1 > 1 && push_1) || (board_2 > 1 && push_2) {
                            allowed = false;
                        }
                    }
                    if allowed {
                        let mv = Move {
                            board_1,
                            board_2,
                            direction,
                            from_1: piece_1,
                            from_2: piece_2,
                            double,
                        };
                        let res = MoveExtended { mv, push_1, push_2 };
                        proof {
                            reveal(Shobu::gen_candidate);
                            assert(self.gen_ok(res));
                            assert(self.gen_candidate(board_1 as int, board_2 as int, n as int)
                                == Some(res));
                        }
                        out.push(res);
                        pushed = true;
                    }
                }
            }
            proof {
                if !pushed {
                    reveal(Shobu::gen_candidate);
                    assert(self.gen_candidate(board_1 as int, board_2 as int, n as int) is None);
                }
                assert(out@ == old(out)@ + self.gen_pair_seq(
                    board_1 as int,
                    board_2 as int,
                    n as int + 1,
                ));
            }
        }
    }

    /// All legal moves of the active player: exactly the generation-order
    /// sequence, every element legal with true push annotations.
    pub fn get_legal_moves(&self) -> (r: Vec<MoveExtended>)
        requires
            self.wf(),
        ensures
            r@ == self.spec_legal_moves(),
            forall|k: int| 0 <= k < r@.len() ==> self.gen_ok(#[trigger] r@[k]),
    {
        let mut res = Vec::new();
        self.moves_for_board_pair(&mut res, 0, 3);
        self.moves_for_board_pair(&mut res, 1, 2);
        if self.active_player == BLACK {
            self.moves_for_board_pair(&mut res, 0, 1);
        } else {
            self.moves_for_board_pair(&mut res, 2, 3);
        }
        res
    }

    /// Every element the scan yields is a legal move with true annotations.
    pub proof fn lemma_gen_pair_sound(self, b1: int, b2: int, n: int)
        requires
            self.wf(),
            0 <= b1 < 4,
            0 <= b2 < 4,
            (b1 + b2) % 2 == 1,
            self.active_player == BLACK ==> b1 + b2 <= 3,
            self.active_player == WHITE ==> b1 + b2 >= 3,
            0 <= n <= 256,
        ensures
            forall|k: int|
                0 <= k < self.gen_pair_seq(b1, b2, n).len() ==> self.gen_ok(
                    #[trigger] self.gen_pair_seq(b1, b2, n)[k],
                ),
        decreases n,
    {
        if n > 0 {
            reveal(Shobu::gen_candidate);
            self.lemma_gen_pair_sound(b1, b2, n - 1);
            let prev = self.gen_pair_seq(b1, b2, n - 1);
            let cur = self.gen_pair_seq(b1, b2, n);
            match self.gen_candidate(b1, b2, n - 1) {
                Some(me) => {
                    assert(0 <= (n - 1) / 32 < 8);
                    assert(is_direction(DIRECTIONS[(n - 1) / 32]));
                    assert(self.gen_ok(me));
                    assert(cur.len() == prev.len() + 1);
                    assert(forall|k: int|
                        0 <= k < prev.len() ==> #[trigger] cur[k] == prev[k]);
                    assert(cur[prev.len() as int] == me);
                },
                None => {
                    assert(cur.len() == prev.len());
                    assert(forall|k: int|
                        0 <= k < prev.len() ==> #[trigger] cur[k] == prev[k]);
                },
            }
        }
    }

    /// An accepted candidate stays in every longer scan prefix.
    pub proof fn lemma_gen_contains(self, b1: int, b2: int, n0: int, n: int)
        requires
            0 <= n0 < n <= 256,
            self.gen_candidate(b1, b2, n0) is Some,
        ensures
            exists|k: int|
                0 <= k < self.gen_pair_seq(b1, b2, n).len() && #[trigger] self.gen_pair_seq(
                    b1,
                    b2,
                    n,
                )[k] == self.gen_candidate(b1, b2, n0).unwrap(),
        decreases n,
    {
        lemma_gen_pair_len_nonneg(self, b1, b2, n0);
        if n == n0 + 1 {
            let me = self.gen_candidate(b1, b2, n0).unwrap();
            let k = self.gen_pair_seq(b1, b2, n0).len() as int;
            assert(self.gen_pair_seq(b1, b2, n)[k] == me);
        } else {
            self.lemma_gen_contains(b1, b2, n0, n - 1);
            let me = self.gen_candidate(b1, b2, n0).unwrap();
            let k = choose|k: int|
                0 <= k < self.gen_pair_seq(b1, b2, n - 1).len() && #[trigger] self.gen_pair_seq(
                    b1,
                    b2,
                    n - 1,
                )[k] == me;
            assert(self.gen_pair_seq(b1, b2, n)[k] == me);
        }
    }

    /// Every legal move on this board pair appears in the full scan.
    pub proof fn lemma_pair_complete(self, mv: Move)
        requires
            self.wf(),
            self.move_legal(mv),
        ensures
            exists|k: int|
                0 <= k < self.gen_pair_seq(mv.board_1 as int, mv.board_2 as int, 256).len()
                    && (#[trigger] self.gen_pair_seq(mv.board_1 as int, mv.board_2 as int, 256)[k]).mv
                    == mv,
    {
        reveal(Shobu::gen_candidate);
        let b1 = mv.board_1 as int;
        let b2 = mv.board_2 as int;
        let pa = pid(self.active_player);
        let di = crate::shobu_move::direction_id_of(mv.direction);
        assert(0 <= di < 8 && DIRECTIONS[di] == mv.direction);
        let dbl: int = if mv.double {
            1
        } else {
            0
        };
        assert(self.sub_legal(b1, mv.direction, mv.from_1 as int, mv.double));
        assert(self.sub_legal(b2, mv.direction, mv.from_2 as int, mv.double));
        assert(self.boards[b1][mv.from_1 as int] == self.active_player);
        assert(self.boards[b2][mv.from_2 as int] == self.active_player);
        assert(self.active_player == Self::player_of(pa));
        lemma_find4_present_from_roster(self, pa, b1, mv.from_1 as int);
        lemma_find4_present_from_roster(self, pa, b2, mv.from_2 as int);
        let i1 = find4(self.pieces[pa][b1], mv.from_1);
        let i2 = find4(self.pieces[pa][b2], mv.from_2);
        assert(0 <= i1 < 4 && self.pieces[pa][b1][i1] == mv.from_1);
        assert(0 <= i2 < 4 && self.pieces[pa][b2][i2] == mv.from_2);
        let n0 = di * 32 + dbl * 16 + i1 * 4 + i2;
        assert(0 <= n0 < 256);
        assert(n0 / 32 == di && (n0 / 16) % 2 == dbl && (n0 / 4) % 4 == i1 && n0 % 4 == i2)
            by (nonlinear_arith)
            requires
                0 <= di < 8 && 0 <= dbl < 2 && 0 <= i1 < 4 && 0 <= i2 < 4 && n0 == di * 32 + dbl
                    * 16 + i1 * 4 + i2,
        ;
        assert(mv.from_1 != NOT_ON_BOARD && mv.from_2 != NOT_ON_BOARD);
        let me = self.gen_candidate(b1, b2, n0);
        assert(me is Some && me.unwrap().mv == mv);
        self.lemma_gen_contains(b1, b2, n0, 256);
    }

    /// Every legal move appears in the generated sequence, as given or with
    /// its two sub-moves swapped onto the enumerated board-pair orientation.
    pub proof fn lemma_legal_moves_complete(self, mv: Move)
        requires
            self.wf(),
            self.move_legal(mv),
        ensures
            exists|k: int|
                0 <= k < self.spec_legal_moves().len() && ((#[trigger] self.spec_legal_moves()[k]).mv
                    == mv || self.spec_legal_moves()[k].mv == move_swapped(mv)),
    {
        let sw = move_swapped(mv);
        lemma_move_legal_swapped(self, mv);
        let a = self.gen_pair_seq(0, 3, 256);
        let b = self.gen_pair_seq(1, 2, 256);
        let c: Seq<MoveExtended> = if self.active_player == BLACK {
            self.gen_pair_seq(0, 1, 256)
        } else {
            self.gen_pair_seq(2, 3, 256)
        };
        lemma_gen_pair_len_nonneg(self, 0, 3, 256);
        lemma_gen_pair_len_nonneg(self, 1, 2, 256);
        if self.active_player == BLACK {
            lemma_gen_pair_len_nonneg(self, 0, 1, 256);
        } else {
            lemma_gen_pair_len_nonneg(self, 2, 3, 256);
        }
        let target: Move = if mv.board_1 < mv.board_2 {
            mv
        } else {
            sw
        };
        assert(self.move_legal(target));
        self.lemma_pair_complete(target);
        let tb1 = target.board_1 as int;
        let tb2 = target.board_2 as int;
        let k0 = choose|k: int|
            0 <= k < self.gen_pair_seq(tb1, tb2, 256).len() && (#[trigger] self.gen_pair_seq(
                tb1,
                tb2,
                256,
            )[k]).mv == target;
        if tb1 == 0 && tb2 == 3 {
            assert(self.spec_legal_moves()[k0].mv == target);
        } else if tb1 == 1 && tb2 == 2 {
            assert(self.spec_legal_moves()[a.len() + k0].mv == target);
        } else {
            assert(self.spec_legal_moves()[a.len() + b.len() + k0].mv == target);
        }
    }

    /// A candidate is recoverable from the move it yields: the scan index is
    /// a function of the direction, step, and the two origin stones.
    pub proof fn lemma_candidate_injective(self, b1: int, b2: int, m1: int, m2: int)
        requires
            self.wf(),
            0 <= b1 < 4,
            0 <= b2 < 4,
            0 <= m1 < 256,
            0 <= m2 < 256,
            self.gen_candidate(b1, b2, m1) is Some,
            self.gen_candidate(b1, b2, m2) is Some,
            self.gen_candidate(b1, b2, m1).unwrap().mv == self.gen_candidate(b1, b2, m2).unwrap().mv,
        ensures
            m1 == m2,
    {
        reveal(Shobu::gen_candidate);
        let pa = pid(self.active_player);
        let d1 = m1 / 32;
        let d2 = m2 / 32;
        assert(0 <= d1 < 8 && 0 <= d2 < 8);
        assert(DIRECTIONS[d1] == DIRECTIONS[d2]);
        assert(d1 == d2);
        assert((m1 / 16) % 2 == (m2 / 16) % 2);
        let i1a = (m1 / 4) % 4;
        let i1b = (m2 / 4) % 4;
        assert(self.pieces[pa][b1][i1a] == self.pieces[pa][b1][i1b]);
        assert(self.pieces[pa][b1][i1a] != NOT_ON_BOARD);
        assert(i1a == i1b);
        let i2a = m1 % 4;
        let i2b = m2 % 4;
        assert(self.pieces[pa][b2][i2a] == self.pieces[pa][b2][i2b]);
        assert(self.pieces[pa][b2][i2a] != NOT_ON_BOARD);
        assert(i2a == i2b);
        assert(m1 == (m1 / 32) * 32 + ((m1 / 16) % 2) * 16 + ((m1 / 4) % 4) * 4 + m1 % 4)
            by (nonlinear_arith)
            requires
                0 <= m1 < 256,
        ;
        assert(m2 == (m2 / 32) * 32 + ((m2 / 16) % 2) * 16 + ((m2 / 4) % 4) * 4 + m2 % 4)
            by (nonlinear_arith)
            requires
                0 <= m2 < 256,
        ;
    }

    /// Element `k` of a scan prefix is an accepted candidate, standing at
    /// the position the scan had reached.
    pub open spec fn gen_origin_at(self, b1: int, b2: int, n: int, k: int) -> bool {
        exists|m: int|
            0 <= m < n && #[trigger] self.gen_candidate(b1, b2, m) is Some && self.gen_candidate(
                b1,
                b2,
                m,
            ).unwrap() == self.gen_pair_seq(b1, b2, n)[k] && self.gen_pair_seq(b1, b2, m).len()
                == k
    }

    /// Every element of a scan prefix has such an origin.
    pub proof fn lemma_gen_origin(self, b1: int, b2: int, n: int)
        requires
            0 <= n <= 256,
        ensures
            forall|k: int|
                0 <= k < self.gen_pair_seq(b1, b2, n).len() ==> #[trigger] self.gen_origin_at(
                    b1,
                    b2,
                    n,
                    k,
                ),
        decreases n,
    {
        if n > 0 {
            self.lemma_gen_origin(b1, b2, n - 1);
            let prev = self.gen_pair_seq(b1, b2, n - 1);
            let cur = self.gen_pair_seq(b1, b2, n);
            assert forall|k: int| 0 <= k < cur.len() implies #[trigger] self.gen_origin_at(
                b1,
                b2,
                n,
                k,
            ) by {
                if k < prev.len() {
                    assert(cur[k] == prev[k]);
                    assert(self.gen_origin_at(b1, b2, n - 1, k));
                    let m = choose|m: int|
                        0 <= m < n - 1 && #[trigger] self.gen_candidate(b1, b2, m) is Some
                            && self.gen_candidate(b1, b2, m).unwrap() == self.gen_pair_seq(
                            b1,
                            b2,
                            n - 1,
                        )[k] && self.gen_pair_seq(b1, b2, m).len() == k;
                    assert(0 <= m < n && self.gen_candidate(b1, b2, m) is Some
                        && self.gen_candidate(b1, b2, m).unwrap() == self.gen_pair_seq(b1, b2, n)[k]
                        && self.gen_pair_seq(b1, b2, m).len() == k);
                } else {
                    assert(self.gen_candidate(b1, b2, n - 1) is Some);
                    assert(cur[k] == self.gen_candidate(b1, b2, n - 1).unwrap());
                    assert(self.gen_pair_seq(b1, b2, n - 1).len() == k);
                    assert(0 <= n - 1 < n && self.gen_candidate(b1, b2, n - 1) is Some
                        && self.gen_candidate(b1, b2, n - 1).unwrap() == self.gen_pair_seq(
                        b1,
                        b2,
                        n,
                    )[k] && self.gen_pair_seq(b1, b2, n - 1).len() == k);
                }
            }
        }
    }

    /// No move appears twice in one board pair's scan.
    pub proof fn lemma_gen_pair_distinct(self, b1: int, b2: int)
        requires
            self.wf(),
            0 <= b1 < 4,
            0 <= b2 < 4,
        ensures
            forall|k1: int, k2: int|
                0 <= k1 < k2 < self.gen_pair_seq(b1, b2, 256).len() ==> (#[trigger] self.gen_pair_seq(
                    b1,
                    b2,
                    256,
                )[k1]).mv != (#[trigger] self.gen_pair_seq(b1, b2, 256)[k2]).mv,
    {
        self.lemma_gen_origin(b1, b2, 256);
        let sq = self.gen_pair_seq(b1, b2, 256);
        assert forall|k1: int, k2: int| 0 <= k1 < k2 < sq.len() implies (#[trigger] sq[k1]).mv != (
        #[trigger] sq[k2]).mv by {
            assert(self.gen_origin_at(b1, b2, 256, k1));
            assert(self.gen_origin_at(b1, b2, 256, k2));
            let m1 = choose|m: int|
                0 <= m < 256 && #[trigger] self.gen_candidate(b1, b2, m) is Some
                    && self.gen_candidate(b1, b2, m).unwrap() == sq[k1] && self.gen_pair_seq(
                    b1,
                    b2,
                    m,
                ).len() == k1;
            let m2 = choose|m: int|
                0 <= m < 256 && #[trigger] self.gen_candidate(b1, b2, m) is Some
                    && self.gen_candidate(b1, b2, m).unwrap() == sq[k2] && self.gen_pair_seq(
                    b1,
                    b2,
                    m,
                ).len() == k2;
            assert(m1 != m2);
            if sq[k1].mv == sq[k2].mv {
                self.lemma_candidate_injective(b1, b2, m1, m2);
            }
        }
    }

    /// Every element of a scan carries its board pair in its move.
    pub proof fn lemma_gen_pair_boards(self, b1: int, b2: int, n: int)
        requires
            0 <= n <= 256,
        ensures
            forall|k: int|
                0 <= k < self.gen_pair_seq(b1, b2, n).len() ==> (#[trigger] self.gen_pair_seq(
                    b1,
                    b2,
                    n,
                )[k]).mv.board_1 as int == b1 && self.gen_pair_seq(b1, b2, n)[k].mv.board_2 as int
                    == b2 || !(0 <= b1 < 4 && 0 <= b2 < 4),
        decreases n,
    {
        if n > 0 {
            reveal(Shobu::gen_candidate);
            self.lemma_gen_pair_boards(b1, b2, n - 1);
            let prev = self.gen_pair_seq(b1, b2, n - 1);
            let cur = self.gen_pair_seq(b1, b2, n);
            assert(forall|k: int| 0 <= k < prev.len() ==> #[trigger] cur[k] == prev[k]);
        }
    }

    /// No move appears twice in the generated sequence.
    pub proof fn lemma_legal_moves_distinct(self)
        requires
            self.wf(),
        ensures
            forall|k1: int, k2: int|
                0 <= k1 < k2 < self.spec_legal_moves().len() ==> (#[trigger] self.spec_legal_moves()[k1]).mv
                    != (#[trigger] self.spec_legal_moves()[k2]).mv,
    {
        let a = self.gen_pair_seq(0, 3, 256);
        let b = self.gen_pair_seq(1, 2, 256);
        let cb1: int = if self.active_player == BLACK {
            0
        } else {
            2
        };
        let cb2: int = if self.active_player == BLACK {
            1
        } else {
            3
        };
        let c = self.gen_pair_seq(cb1, cb2, 256);
        self.lemma_gen_pair_distinct(0, 3);
        self.lemma_gen_pair_distinct(1, 2);
        self.lemma_gen_pair_distinct(cb1, cb2);
        self.lemma_gen_pair_boards(0, 3, 256);
        self.lemma_gen_pair_boards(1, 2, 256);
        self.lemma_gen_pair_boards(cb1, cb2, 256);
        let sq = self.spec_legal_moves();
        assert(sq == a + b + c);
        assert forall|k1: int, k2: int| 0 <= k1 < k2 < sq.len() implies (#[trigger] sq[k1]).mv != (
        #[trigger] sq[k2]).mv by {
            let la = a.len() as int;
            let lb = b.len() as int;
            if k1 < la {
                assert(sq[k1] == a[k1]);
            } else if k1 < la + lb {
                assert(sq[k1] == b[k1 - la]);
            } else {
                assert(sq[k1] == c[k1 - la - lb]);
            }
            if k2 < la {
                assert(sq[k2] == a[k2]);
            } else if k2 < la + lb {
                assert(sq[k2] == b[k2 - la]);
            } else {
                assert(sq[k2] == c[k2 - la - lb]);
            }
        }
    }

    /// A state has a legal move exactly when the generated sequence is
    /// nonempty.
    pub proof fn lemma_has_legal_move_iff(self)
        requires
            self.wf(),
        ensures
            self.has_legal_move() <==> self.spec_legal_moves().len() > 0,
    {
        if self.has_legal_move() {
            let mv = choose|mv: Move| self.move_legal(mv);
            self.lemma_legal_moves_complete(mv);
        }
        if self.spec_legal_moves().len() > 0 {
            self.lemma_gen_pair_sound(0, 3, 256);
            self.lemma_gen_pair_sound(1, 2, 256);
            if self.active_player == BLACK {
                self.lemma_gen_pair_sound(0, 1, 256);
            } else {
                self.lemma_gen_pair_sound(2, 3, 256);
            }
            lemma_gen_pair_len_nonneg(self, 0, 3, 256);
            lemma_gen_pair_len_nonneg(self, 1, 2, 256);
            assert(self.gen_ok(self.spec_legal_moves()[0]));
        }
    }

    /// One direction-step combination that `player` could move passively on
    /// `board_id` (both path cells free for some stone).
    pub open spec fn passive_dir_ok(self, board_id: int, player: i8, dbl: int, di: int) -> bool {
        exists|i: int|
            0 <= i < 4 && {
                let p = #[trigger] self.pieces[pid(player)][board_id][i] as int;
                let dr = DIRECTIONS[di];
                &&& p != 0
                &&& 0 < p + dbl * dr < 36
                &&& self.boards[board_id][p + dbl * dr] == EMPTY
                &&& self.boards[board_id][p + dr] == EMPTY
            }
    }

    /// Count of available passive direction-step combinations among the
    /// first `n` of the sixteen, in scan order.
    pub open spec fn count_passive(self, board_id: int, player: i8, n: int) -> int
        decreases n,
    {
        if n <= 0 {
            0
        } else {
            self.count_passive(board_id, player, n - 1) + (if self.passive_dir_ok(
                board_id,
                player,
                (n - 1) / 8 + 1,
                (n - 1) % 8,
            ) {
                1int
            } else {
                0int
            })
        }
    }

    /// Whether some stone of the player can step passively by `double`
    /// times `direction` on this sub-board.
    fn passive_dir_available(&self, board_id: usize, active_player: i8, dbl: usize, di: usize) -> (r: bool)
        requires
            self.wf(),
            board_id < 4,
            is_stone(active_player),
            1 <= dbl <= 2,
            di < 8,
        ensures
            r == self.passive_dir_ok(board_id as int, active_player, dbl as int, di as int),
    {
        let player_id: usize = if active_player == BLACK {
            0
        } else {
            1
        };
        let direction = direction_at(di);
        let diff_v: i8 = if dbl == 2 {
            2 * direction
        } else {
            direction
        };
        let mut found = false;
        for i in 0..4usize
            invariant
                self.wf(),
                board_id < 4,
                player_id as int == pid(active_player),
                player_id < 2,
                is_direction(direction),
                direction as int == DIRECTIONS[di as int],
                1 <= dbl <= 2,
                di < 8,
                diff_v as int == dbl as int * direction as int,
                -14 <= diff_v as int <= 14,
                found == exists|j: int|
                    0 <= j < i && {
                        let p = #[trigger] self.pieces[pid(active_player)][board_id as int][j] as int;
                        &&& p != 0
                        &&& 0 < p + diff_v < 36
                        &&& self.boards[board_id as int][p + diff_v] == EMPTY
                        &&& self.boards[board_id as int][p + direction as int] == EMPTY
                    },
        {
            let piece = self.pieces[player_id][board_id][i];
            if piece != NOT_ON_BOARD {
                let target: i8 = piece as i8 + diff_v;
                if target > 0 && target < 36 {
                    if self.boards[board_id][target as usize] == EMPTY && self.boards[board_id][(
                    piece as i8 + direction) as usize] == EMPTY {
                        found = true;
                    }
                }
            }
        }
        found
    }

    /// How many of the sixteen direction-step combinations admit a passive
    /// (non-pushing, unobstructed) sub-move for `player` on one sub-board.
    pub fn available_passive_directions(&self, board_id: usize, active_player: i8) -> (r: usize)
        requires
            self.wf(),
            board_id < 4,
            is_stone(active_player),
        ensures
            r as int == self.count_passive(board_id as int, active_player, 16),
    {
        let mut dir_count: usize = 0;
        for n in 0..16usize
            invariant
                self.wf(),
                board_id < 4,
                is_stone(active_player),
                dir_count as int == self.count_passive(board_id as int, active_player, n as int),
                dir_count <= n,
        {
            let found = self.passive_dir_available(board_id, active_player, n / 8 + 1, n % 8);
            if found {
                dir_count += 1;
            }
            proof {
                assert(self.count_passive(board_id as int, active_player, n as int + 1)
                    == self.count_passive(board_id as int, active_player, n as int) + (if found {
                    1int
                } else {
                    0int
                }));
            }
        }
        dir_count
    }
}


/// The shifted key contribution of one cell (by readable index `j`) to a
/// scratch-computed part hash.
pub open spec fn cell_term(keys: [[u64; 8]; 2], v: i8, j: int, sh: u64) -> u64 {
    if v == BLACK {
        keys[0][zobrist_group(j)] << sh
    } else if v == WHITE {
        keys[1][zobrist_group(j)] << sh
    } else {
        0u64
    }
}

/// The scratch hash of one (sub-board, half) group under one lane shift:
/// the two columns of the half, over all four rows.
pub open spec fn part_hash(boards: [[i8; 36]; 4], keys: [[u64; 8]; 2], b: int, h: int, sh: u64) -> u64 {
    let c0 = 2 * h;
    let c1 = 2 * h + 1;
    cell_term(keys, boards[b][spec_readable_2_internal(c0)], c0, sh) ^ cell_term(
        keys,
        boards[b][spec_readable_2_internal(c1)],
        c1,
        sh,
    ) ^ cell_term(keys, boards[b][spec_readable_2_internal(4 + c0)], 4 + c0, sh) ^ cell_term(
        keys,
        boards[b][spec_readable_2_internal(4 + c1)],
        4 + c1,
        sh,
    ) ^ cell_term(keys, boards[b][spec_readable_2_internal(8 + c0)], 8 + c0, sh) ^ cell_term(
        keys,
        boards[b][spec_readable_2_internal(8 + c1)],
        8 + c1,
        sh,
    ) ^ cell_term(keys, boards[b][spec_readable_2_internal(12 + c0)], 12 + c0, sh) ^ cell_term(
        keys,
        boards[b][spec_readable_2_internal(12 + c1)],
        12 + c1,
        sh,
    )
}

/// One symmetry image of the scratch position hash: the side-to-move marker
/// folded with all eight groups, each shifted into the lane the `(x, y)`
/// entry of the shift table gives it.
pub open spec fn scratch_hash(
    boards: [[i8; 36]; 4],
    keys: [[u64; 8]; 2],
    marker: u64,
    black_active: bool,
    x: int,
    y: int,
) -> u64 {
    (if black_active {
        marker
    } else {
        0u64
    }) ^ part_hash(boards, keys, 0, 0, spec_shift(x, y, 0)) ^ part_hash(
        boards,
        keys,
        0,
        1,
        spec_shift(x, y, 1),
    ) ^ part_hash(boards, keys, 1, 0, spec_shift(x, y, 2)) ^ part_hash(
        boards,
        keys,
        1,
        1,
        spec_shift(x, y, 3),
    ) ^ part_hash(boards, keys, 2, 0, spec_shift(x, y, 4)) ^ part_hash(
        boards,
        keys,
        2,
        1,
        spec_shift(x, y, 5),
    ) ^ part_hash(boards, keys, 3, 0, spec_shift(x, y, 6)) ^ part_hash(
        boards,
        keys,
        3,
        1,
        spec_shift(x, y, 7),
    )
}

pub(crate) fn cell_term_x(boards: &[[i8; 36]; 4], keys: &[[u64; 8]; 2], b: usize, j: usize, sh: u64) -> (r: u64)
    requires
        b < 4,
        j < 16,
        sh <= 23,
    ensures
        r == cell_term(*keys, boards[b as int][spec_readable_2_internal(j as int)], j as int, sh),
{
    let t = readable_2_internal(j);
    let v = boards[b][t];
    if v == BLACK {
        keys[0][zobrist_group_x(j)] << sh
    } else if v == WHITE {
        keys[1][zobrist_group_x(j)] << sh
    } else {
        0
    }
}

pub(crate) fn part_hash_x(boards: &[[i8; 36]; 4], keys: &[[u64; 8]; 2], b: usize, h: usize, sh: u64) -> (r: u64)
    requires
        b < 4,
        h < 2,
        sh <= 23,
    ensures
        r == part_hash(*boards, *keys, b as int, h as int, sh),
{
    let c0 = 2 * h;
    let c1 = 2 * h + 1;
    cell_term_x(boards, keys, b, c0, sh) ^ cell_term_x(boards, keys, b, c1, sh) ^ cell_term_x(
        boards,
        keys,
        b,
        4 + c0,
        sh,
    ) ^ cell_term_x(boards, keys, b, 4 + c1, sh) ^ cell_term_x(boards, keys, b, 8 + c0, sh)
        ^ cell_term_x(boards, keys, b, 8 + c1, sh) ^ cell_term_x(boards, keys, b, 12 + c0, sh)
        ^ cell_term_x(boards, keys, b, 12 + c1, sh)
}

impl Shobu {
    /// The four maintained hashes all match the scratch computation; the
    /// `(color, mirror)` slot is built with the `(mirror, color)` entry of
    /// the shift table, as the initialisation indexes it.
    pub open spec fn fresh_hashes(self) -> bool {
        forall|cs: int, hs: int|
            0 <= cs < 2 && 0 <= hs < 2 ==> #[trigger] self.hashes[cs][hs] == scratch_hash(
                self.boards,
                self.piece_hash_vals,
                self.black_active_hash,
                self.active_player == BLACK,
                hs,
                cs,
            )
    }

    /// The maintained hashes agree with the scratch computation of the
    /// current boards; `init_black` is the side-to-move parity folded in
    /// when the slots were initialised, which the incremental updates keep.
    pub open spec fn tracked_hashes(self, init_black: bool) -> bool {
        forall|cs: int, hs: int|
            0 <= cs < 2 && 0 <= hs < 2 ==> #[trigger] self.hashes[cs][hs] == scratch_hash(
                self.boards,
                self.piece_hash_vals,
                self.black_active_hash,
                init_black,
                hs,
                cs,
            )
    }

    /// A freshly initialised state tracks the scratch computation with its
    /// own player's parity.
    pub proof fn lemma_fresh_is_tracked(self)
        requires
            self.fresh_hashes(),
        ensures
            self.tracked_hashes(self.active_player == BLACK),
    {
    }

    /// One symmetry image of the position hash, computed from scratch.
    fn calculate_symmetry_hash(&self, color_swap: bool, horizontal_swap: bool) -> (r: u64)
        ensures
            r == scratch_hash(
                self.boards,
                self.piece_hash_vals,
                self.black_active_hash,
                self.active_player == BLACK,
                if horizontal_swap {
                    1int
                } else {
                    0int
                },
                if color_swap {
                    1int
                } else {
                    0int
                },
            ),
    {
        let x: usize = if horizontal_swap {
            1
        } else {
            0
        };
        let y: usize = if color_swap {
            1
        } else {
            0
        };
        let mut hash: u64 = if self.active_player == BLACK {
            self.black_active_hash
        } else {
            0
        };
        hash = hash ^ part_hash_x(&self.boards, &self.piece_hash_vals, 0, 0, shift_for(x, y, 0));
        hash = hash ^ part_hash_x(&self.boards, &self.piece_hash_vals, 0, 1, shift_for(x, y, 1));
        hash = hash ^ part_hash_x(&self.boards, &self.piece_hash_vals, 1, 0, shift_for(x, y, 2));
        hash = hash ^ part_hash_x(&self.boards, &self.piece_hash_vals, 1, 1, shift_for(x, y, 3));
        hash = hash ^ part_hash_x(&self.boards, &self.piece_hash_vals, 2, 0, shift_for(x, y, 4));
        hash = hash ^ part_hash_x(&self.boards, &self.piece_hash_vals, 2, 1, shift_for(x, y, 5));
        hash = hash ^ part_hash_x(&self.boards, &self.piece_hash_vals, 3, 0, shift_for(x, y, 6));
        hash = hash ^ part_hash_x(&self.boards, &self.piece_hash_vals, 3, 1, shift_for(x, y, 7));
        hash
    }

    /// Fill the four hash slots from scratch.
    fn init_hashes(&mut self)
        ensures
            Self::same_but_hashes(*old(self), *final(self)),
            final(self).fresh_hashes(),
    {
        let h00 = self.calculate_symmetry_hash(false, false);
        let h01 = self.calculate_symmetry_hash(false, true);
        let h10 = self.calculate_symmetry_hash(true, false);
        let h11 = self.calculate_symmetry_hash(true, true);
        self.hashes = [[h00, h01], [h10, h11]];
    }
}


/// Character standing for a cell's contents in the position notation.
pub open spec fn pos_char(v: i8) -> char {
    if v == BLACK {
        'b'
    } else if v == WHITE {
        'w'
    } else {
        '_'
    }
}

/// Cell contents named by a character of the position notation.
pub open spec fn char_cell(c: char) -> i8 {
    if c == 'b' {
        BLACK
    } else if c == 'w' {
        WHITE
    } else {
        EMPTY
    }
}

/// Occurrences of `c` among the first `j` cells of sub-board `i`'s segment
/// of a position string.
pub open spec fn count_ch(s: Seq<char>, i: int, c: char, j: int) -> int
    decreases j,
{
    if j <= 0 {
        0
    } else {
        count_ch(s, i, c, j - 1) + (if s[2 + 17 * i + (j - 1)] == c {
            1int
        } else {
            0int
        })
    }
}

/// A well-formed position string: the active-player token, four sixteen-cell
/// segments separated by blanks, and at most four stones of a colour on any
/// sub-board.
pub open spec fn valid_pos_string(s: Seq<char>) -> bool {
    &&& s.len() == 69
    &&& (s[0] == 'b' || s[0] == 'w')
    &&& forall|i: int| 0 <= i < 4 ==> #[trigger] s[1 + 17 * i] == ' '
    &&& forall|i: int, j: int|
        0 <= i < 4 && 0 <= j < 16 ==> (#[trigger] s[2 + 17 * i + j] == 'b' || s[2 + 17 * i + j]
            == 'w' || s[2 + 17 * i + j] == '_')
    &&& forall|i: int|
        0 <= i < 4 ==> #[trigger] count_ch(s, i, 'b', 16) <= 4 && count_ch(s, i, 'w', 16) <= 4
}

/// Counting scans are monotone, and strictly grow across an occurrence.
pub proof fn lemma_count_ch_mono(s: Seq<char>, i: int, c: char, j1: int, j2: int)
    requires
        0 <= j1 <= j2,
    ensures
        count_ch(s, i, c, j1) <= count_ch(s, i, c, j2),
        count_ch(s, i, c, j2) - count_ch(s, i, c, j1) <= j2 - j1,
    decreases j2 - j1,
{
    if j1 < j2 {
        lemma_count_ch_mono(s, i, c, j1, j2 - 1);
    }
}

impl Shobu {
    /// The position rendered in the textual notation.
    pub open spec fn spec_pos_string(self) -> Seq<char> {
        Seq::new(
            69,
            |i: int|
                if i == 0 {
                    if self.active_player == BLACK {
                        'b'
                    } else {
                        'w'
                    }
                } else if (i - 1) % 17 == 0 {
                    ' '
                } else {
                    pos_char(
                        self.boards[(i - 1) / 17][spec_readable_2_internal((i - 1) % 17 - 1)],
                    )
                },
        )
    }

    /// The canonical hash of one symmetry image: the stored slot with the
    /// side-to-move marker folded in for the black player.
    pub open spec fn spec_symmetry_hash(self, color_swap: bool, horizontal_swap: bool) -> u64 {
        let h = self.hashes[if color_swap {
            1int
        } else {
            0int
        }][if horizontal_swap {
            1int
        } else {
            0int
        }];
        if self.active_player == BLACK {
            h ^ self.black_active_hash
        } else {
            h
        }
    }

    /// The combined non-canonical hash: all four images folded together with
    /// the side-to-move marker.
    pub open spec fn spec_get_hash(self) -> u64 {
        (if self.active_player == BLACK {
            self.black_active_hash
        } else {
            0u64
        }) ^ self.hashes[0][0] ^ self.hashes[0][1] ^ self.hashes[1][0] ^ self.hashes[1][1]
    }

    pub fn get_symmetry_hash(&self, color_swap: bool, horizontal_swap: bool) -> (r: u64)
        ensures
            r == self.spec_symmetry_hash(color_swap, horizontal_swap),
    {
        let cs: usize = if color_swap {
            1
        } else {
            0
        };
        let hs: usize = if horizontal_swap {
            1
        } else {
            0
        };
        if self.active_player == BLACK {
            self.hashes[cs][hs] ^ self.black_active_hash
        } else {
            self.hashes[cs][hs]
        }
    }

    pub fn get_hash(&self) -> (r: u64)
        ensures
            r == self.spec_get_hash(),
    {
        let mut hash: u64 = if self.active_player == BLACK {
            self.black_active_hash
        } else {
            0
        };
        hash = hash ^ self.hashes[0][0];
        hash = hash ^ self.hashes[0][1];
        hash = hash ^ self.hashes[1][0];
        hash = hash ^ self.hashes[1][1];
        hash
    }

    /// The starting layout: each sub-board has white's four stones on its
    /// first row and black's four on its last.
    fn init(&mut self)
        ensures
            final(self).boards == [initial_board(), initial_board(), initial_board(), initial_board()],
            final(self).pieces == [
                [[25usize, 26, 27, 28], [25, 26, 27, 28], [25, 26, 27, 28], [25, 26, 27, 28]],
                [[7usize, 8, 9, 10], [7, 8, 9, 10], [7, 8, 9, 10], [7, 8, 9, 10]],
            ],
            final(self).active_player == old(self).active_player,
            final(self).winner == old(self).winner,
            final(self).history@ == old(self).history@,
            final(self).hashes == old(self).hashes,
            final(self).piece_hash_vals == old(self).piece_hash_vals,
            final(self).black_active_hash == old(self).black_active_hash,
    {
        let row = initial_board_x();
        self.boards = [row, row, row, row];
        self.pieces = [
            [[25, 26, 27, 28], [25, 26, 27, 28], [25, 26, 27, 28], [25, 26, 27, 28]],
            [[7, 8, 9, 10], [7, 8, 9, 10], [7, 8, 9, 10], [7, 8, 9, 10]],
        ];
    }

    /// A fresh game in the starting position, black to move.
    pub fn new() -> (r: Shobu)
        ensures
            r.wf(),
            r.active_player == BLACK,
            r.winner == 0,
            r.history@.len() == 0,
            r.piece_hash_vals == crate::rng::piece_key_material(2137),
            r.black_active_hash == crate::rng::marker_key_material(2137),
            r.fresh_hashes(),
            r.boards == [initial_board(), initial_board(), initial_board(), initial_board()],
            r.pieces == [
                [[25usize, 26, 27, 28], [25, 26, 27, 28], [25, 26, 27, 28], [25, 26, 27, 28]],
                [[7usize, 8, 9, 10], [7, 8, 9, 10], [7, 8, 9, 10], [7, 8, 9, 10]],
            ],
    {
        let (keys, marker) = crate::rng::seeded_keys(2137);
        let mut game = Shobu {
            active_player: BLACK,
            winner: 0,
            boards: [[MARGIN; 36]; 4],
            pieces: [[[NOT_ON_BOARD; 4]; 4]; 2],
            history: Vec::new(),
            hashes: [[0; 2]; 2],
            piece_hash_vals: keys,
            black_active_hash: marker,
        };
        game.init();
        game.init_hashes();
        proof {
            assert forall|b: int, t: int| 0 <= b < 4 && 0 <= t < 36 implies #[trigger] game.boards[b][t]
                == initial_board()[t] by {}
            assert(game.wf()) by {
                assert forall|p: int, bb: int, tt: int|
                    #![trigger find4(game.pieces[p][bb], tt as usize)]
                    0 <= p < 2 && 0 <= bb < 4 && 0 <= tt < 36 && playable(tt) && game.boards[bb][tt]
                        == Self::player_of(p) implies find4(game.pieces[p][bb], tt as usize)
                    < 4 by {
                    assert(initial_board()[tt] == Self::player_of(p));
                }
            }
        }
        game
    }
}

/// The shared starting sub-board.
pub open spec fn initial_board() -> [i8; 36] {
    [
        MARGIN, MARGIN, MARGIN, MARGIN, MARGIN, MARGIN, MARGIN, WHITE, WHITE, WHITE, WHITE,
        MARGIN, MARGIN, EMPTY, EMPTY, EMPTY, EMPTY, MARGIN, MARGIN, EMPTY, EMPTY, EMPTY, EMPTY,
        MARGIN, MARGIN, BLACK, BLACK, BLACK, BLACK, MARGIN, MARGIN, MARGIN, MARGIN, MARGIN,
        MARGIN, MARGIN,
    ]
}

fn initial_board_x() -> (r: [i8; 36])
    ensures
        r == initial_board(),
{
    [
        MARGIN, MARGIN, MARGIN, MARGIN, MARGIN, MARGIN, MARGIN, WHITE, WHITE, WHITE, WHITE,
        MARGIN, MARGIN, EMPTY, EMPTY, EMPTY, EMPTY, MARGIN, MARGIN, EMPTY, EMPTY, EMPTY, EMPTY,
        MARGIN, MARGIN, BLACK, BLACK, BLACK, BLACK, MARGIN, MARGIN, MARGIN, MARGIN, MARGIN,
        MARGIN, MARGIN,
    ]
}


/// Every index below the count has a cell achieving it.
pub proof fn lemma_kth_occurrence(s: Seq<char>, i: int, c: char, k: int, m: int)
    requires
        0 <= k,
        0 <= m <= 16,
        count_ch(s, i, c, m) > k,
    ensures
        exists|j: int|
            0 <= j < m && s[2 + 17 * i + j] == c && #[trigger] count_ch(s, i, c, j) == k,
    decreases m,
{
    if s[2 + 17 * i + (m - 1)] == c && count_ch(s, i, c, m - 1) == k {
        assert(0 <= m - 1 < m && s[2 + 17 * i + (m - 1)] == c && count_ch(s, i, c, m - 1) == k);
    } else {
        lemma_kth_occurrence(s, i, c, k, m - 1);
        let j = choose|j: int|
            0 <= j < m - 1 && s[2 + 17 * i + j] == c && #[trigger] count_ch(s, i, c, j) == k;
        assert(0 <= j < m && s[2 + 17 * i + j] == c && count_ch(s, i, c, j) == k);
    }
}

/// Human-readable index of a padded-grid cell inverts its construction.
pub proof fn lemma_r2i_inverse(j: int)
    requires
        0 <= j < 16,
    ensures
        spec_internal_2_readable(spec_readable_2_internal(j)) == j,
        playable(spec_readable_2_internal(j)),
{
}

impl Shobu {
    /// Parse a position string: active player token and four sub-board
    /// segments, with stones entered into the rosters in reading order.
    pub fn from_string(string: &str) -> (r: Shobu)
        requires
            valid_pos_string(string@),
        ensures
            r.wf(),
            r.active_player == (if string@[0] == 'b' {
                BLACK
            } else {
                WHITE
            }),
            r.winner == 0,
            r.history@.len() == 0,
            r.piece_hash_vals == crate::rng::piece_key_material(2137),
            r.black_active_hash == crate::rng::marker_key_material(2137),
            r.fresh_hashes(),
            forall|i: int, j: int|
                0 <= i < 4 && 0 <= j < 16 ==> r.boards[i][spec_readable_2_internal(j)]
                    == char_cell(#[trigger] string@[2 + 17 * i + j]),
            forall|i: int, j: int|
                0 <= i < 4 && 0 <= j < 16 && #[trigger] string@[2 + 17 * i + j] == 'b'
                    ==> r.pieces[0][i][count_ch(string@, i, 'b', j)] == spec_readable_2_internal(j),
            forall|i: int, j: int|
                0 <= i < 4 && 0 <= j < 16 && #[trigger] string@[2 + 17 * i + j] == 'w'
                    ==> r.pieces[1][i][count_ch(string@, i, 'w', j)] == spec_readable_2_internal(j),
            forall|i: int, k: int|
                0 <= i < 4 && count_ch(string@, i, 'b', 16) <= k < 4 ==> #[trigger] r.pieces[0][i][k]
                    == NOT_ON_BOARD,
            forall|i: int, k: int|
                0 <= i < 4 && count_ch(string@, i, 'w', 16) <= k < 4 ==> #[trigger] r.pieces[1][i][k]
                    == NOT_ON_BOARD,
    {
        let ghost sv = string@;
        let mut boards: [[i8; 36]; 4] = [[MARGIN; 36]; 4];
        let mut p0: [[usize; 4]; 4] = [[NOT_ON_BOARD; 4]; 4];
        let mut p1: [[usize; 4]; 4] = [[NOT_ON_BOARD; 4]; 4];
        for i in 0..4usize
            invariant
                valid_pos_string(sv),
                sv == string@,
                forall|i2: int, j: int|
                    0 <= i2 < i && 0 <= j < 16 ==> boards[i2][spec_readable_2_internal(j)]
                        == char_cell(#[trigger] sv[2 + 17 * i2 + j]),
                forall|i2: int, t: int|
                    0 <= i2 < 4 && 0 <= t < 36 && !playable(t) ==> #[trigger] boards[i2][t]
                        == MARGIN,
                forall|i2: int, t: int|
                    i as int <= i2 < 4 && 0 <= t < 36 ==> #[trigger] boards[i2][t] == MARGIN,
                forall|i2: int, j: int|
                    0 <= i2 < i && 0 <= j < 16 && #[trigger] sv[2 + 17 * i2 + j] == 'b'
                        ==> p0[i2][count_ch(sv, i2, 'b', j)] == spec_readable_2_internal(j),
                forall|i2: int, j: int|
                    0 <= i2 < i && 0 <= j < 16 && #[trigger] sv[2 + 17 * i2 + j] == 'w'
                        ==> p1[i2][count_ch(sv, i2, 'w', j)] == spec_readable_2_internal(j),
                forall|i2: int, k: int|
                    0 <= i2 < 4 && (if i2 < i {
                        count_ch(sv, i2, 'b', 16)
                    } else {
                        0
                    }) <= k < 4 ==> #[trigger] p0[i2][k] == NOT_ON_BOARD,
                forall|i2: int, k: int|
                    0 <= i2 < 4 && (if i2 < i {
                        count_ch(sv, i2, 'w', 16)
                    } else {
                        0
                    }) <= k < 4 ==> #[trigger] p1[i2][k] == NOT_ON_BOARD,
        {
            let mut brd: [i8; 36] = [MARGIN; 36];
            let mut bro: [usize; 4] = [NOT_ON_BOARD; 4];
            let mut wro: [usize; 4] = [NOT_ON_BOARD; 4];
            let mut black_added: usize = 0;
            let mut white_added: usize = 0;
            for j in 0..16usize
                invariant
                    valid_pos_string(sv),
                    sv == string@,
                    i < 4,
                    black_added as int == count_ch(sv, i as int, 'b', j as int),
                    white_added as int == count_ch(sv, i as int, 'w', j as int),
                    black_added <= 4,
                    white_added <= 4,
                    forall|jj: int|
                        0 <= jj < j ==> brd[spec_readable_2_internal(jj)] == char_cell(
                            #[trigger] sv[2 + 17 * i + jj],
                        ),
                    forall|t: int|
                        0 <= t < 36 && !playable(t) ==> #[trigger] brd[t] == MARGIN,
                    forall|t: int|
                        0 <= t < 36 && playable(t) && spec_internal_2_readable(t) >= j
                            ==> #[trigger] brd[t] == MARGIN,
                    forall|jj: int|
                        0 <= jj < j && #[trigger] sv[2 + 17 * i + jj] == 'b' ==> bro[count_ch(
                            sv,
                            i as int,
                            'b',
                            jj,
                        )] == spec_readable_2_internal(jj),
                    forall|jj: int|
                        0 <= jj < j && #[trigger] sv[2 + 17 * i + jj] == 'w' ==> wro[count_ch(
                            sv,
                            i as int,
                            'w',
                            jj,
                        )] == spec_readable_2_internal(jj),
                    forall|k: int|
                        black_added <= k < 4 ==> #[trigger] bro[k] == NOT_ON_BOARD,
                    forall|k: int|
                        white_added <= k < 4 ==> #[trigger] wro[k] == NOT_ON_BOARD,
            {
                let c = string.get_char(2 + 17 * i + j);
                let tile = readable_2_internal(j);
                proof {
                    lemma_r2i_inverse(j as int);
                    lemma_count_ch_mono(sv, i as int, 'b', j as int + 1, 16);
                    lemma_count_ch_mono(sv, i as int, 'w', j as int + 1, 16);
                }
                if c == 'b' {
                    brd[tile] = BLACK;
                    bro[black_added] = tile;
                    black_added += 1;
                } else if c == 'w' {
                    brd[tile] = WHITE;
                    wro[white_added] = tile;
                    white_added += 1;
                } else {
                    brd[tile] = EMPTY;
                }
                proof {
                    assert forall|jj: int|
                        0 <= jj < j + 1 && #[trigger] sv[2 + 17 * i + jj] == 'b' implies bro[count_ch(
                        sv,
                        i as int,
                        'b',
                        jj,
                    )] == spec_readable_2_internal(jj) by {
                        lemma_count_ch_mono(sv, i as int, 'b', jj + 1, j as int + 1);
                        lemma_count_ch_mono(sv, i as int, 'b', 0, jj);
                    }
                    assert forall|jj: int|
                        0 <= jj < j + 1 && #[trigger] sv[2 + 17 * i + jj] == 'w' implies wro[count_ch(
                        sv,
                        i as int,
                        'w',
                        jj,
                    )] == spec_readable_2_internal(jj) by {
                        lemma_count_ch_mono(sv, i as int, 'w', jj + 1, j as int + 1);
                        lemma_count_ch_mono(sv, i as int, 'w', 0, jj);
                    }
                }
            }
            boards[i] = brd;
            p0[i] = bro;
            p1[i] = wro;
        }
        let active = if string.get_char(0) == 'b' {
            BLACK
        } else {
            WHITE
        };
        let (keys, marker) = crate::rng::seeded_keys(2137);
        let mut game = Shobu {
            active_player: active,
            winner: 0,
            boards,
            pieces: [p0, p1],
            history: Vec::new(),
            hashes: [[0; 2]; 2],
            piece_hash_vals: keys,
            black_active_hash: marker,
        };
        game.init_hashes();
        proof {
            Self::lemma_from_string_wf(game, sv);
        }
        game
    }

    /// The parsed state satisfies the structural invariant.
    #[verifier::rlimit(100)]
    proof fn lemma_from_string_wf(game: Shobu, sv: Seq<char>)
        requires
            valid_pos_string(sv),
            game.active_player == BLACK || game.active_player == WHITE,
            forall|i: int, j: int|
                0 <= i < 4 && 0 <= j < 16 ==> game.boards[i][spec_readable_2_internal(j)]
                    == char_cell(#[trigger] sv[2 + 17 * i + j]),
            forall|i: int, t: int|
                0 <= i < 4 && 0 <= t < 36 && !playable(t) ==> #[trigger] game.boards[i][t]
                    == MARGIN,
            forall|i: int, j: int|
                0 <= i < 4 && 0 <= j < 16 && #[trigger] sv[2 + 17 * i + j] == 'b'
                    ==> game.pieces[0][i][count_ch(sv, i, 'b', j)] == spec_readable_2_internal(j),
            forall|i: int, j: int|
                0 <= i < 4 && 0 <= j < 16 && #[trigger] sv[2 + 17 * i + j] == 'w'
                    ==> game.pieces[1][i][count_ch(sv, i, 'w', j)] == spec_readable_2_internal(j),
            forall|i: int, k: int|
                0 <= i < 4 && count_ch(sv, i, 'b', 16) <= k < 4 ==> #[trigger] game.pieces[0][i][k]
                    == NOT_ON_BOARD,
            forall|i: int, k: int|
                0 <= i < 4 && count_ch(sv, i, 'w', 16) <= k < 4 ==> #[trigger] game.pieces[1][i][k]
                    == NOT_ON_BOARD,
        ensures
            game.wf(),
    {
        assert forall|b: int, t: int| 0 <= b < 4 && 0 <= t < 36 && playable(t) implies (
        #[trigger] game.boards[b][t] == EMPTY || game.boards[b][t] == BLACK || game.boards[b][t]
            == WHITE) by {
            let j = spec_internal_2_readable(t);
            crate::shobu_move::lemma_tile_conversions(t);
            assert(game.boards[b][t] == char_cell(sv[2 + 17 * b + j]));
        }
        assert forall|p: int, b: int, i: int| 0 <= p < 2 && 0 <= b < 4 && 0 <= i < 4 implies {
            let e = #[trigger] game.pieces[p][b][i];
            e == NOT_ON_BOARD || (playable(e as int) && game.boards[b][e as int]
                == Self::player_of(p))
        } by {
            let c = if p == 0 {
                'b'
            } else {
                'w'
            };
            let e = game.pieces[p][b][i];
            if e != NOT_ON_BOARD {
                assert(i < count_ch(sv, b, c, 16)) by {
                    if i >= count_ch(sv, b, c, 16) {
                        assert(game.pieces[p][b][i] == NOT_ON_BOARD);
                    }
                }
                lemma_kth_occurrence(sv, b, c, i, 16);
                let j = choose|j: int|
                    0 <= j < 16 && sv[2 + 17 * b + j] == c && #[trigger] count_ch(sv, b, c, j)
                        == i;
                lemma_r2i_inverse(j);
                assert(game.pieces[p][b][i] == spec_readable_2_internal(j));
                assert(game.boards[b][spec_readable_2_internal(j)] == char_cell(sv[2 + 17 * b + j]));
            }
        }
        assert forall|p: int, b: int, i: int, j: int|
            0 <= p < 2 && 0 <= b < 4 && 0 <= i < 4 && 0 <= j < 4 && i != j
                && #[trigger] game.pieces[p][b][i] != NOT_ON_BOARD implies game.pieces[p][b][i]
            != #[trigger] game.pieces[p][b][j] by {
            let c = if p == 0 {
                'b'
            } else {
                'w'
            };
            if game.pieces[p][b][j] == game.pieces[p][b][i] {
                assert(i < count_ch(sv, b, c, 16)) by {
                    if i >= count_ch(sv, b, c, 16) {
                        assert(game.pieces[p][b][i] == NOT_ON_BOARD);
                    }
                }
                assert(j < count_ch(sv, b, c, 16)) by {
                    if j >= count_ch(sv, b, c, 16) {
                        assert(game.pieces[p][b][j] == NOT_ON_BOARD);
                    }
                }
                lemma_kth_occurrence(sv, b, c, i, 16);
                lemma_kth_occurrence(sv, b, c, j, 16);
                let ji = choose|jj: int|
                    0 <= jj < 16 && sv[2 + 17 * b + jj] == c && #[trigger] count_ch(sv, b, c, jj)
                        == i;
                let jj2 = choose|jj: int|
                    0 <= jj < 16 && sv[2 + 17 * b + jj] == c && #[trigger] count_ch(sv, b, c, jj)
                        == j;
                lemma_r2i_inverse(ji);
                lemma_r2i_inverse(jj2);
                assert(spec_readable_2_internal(ji) == spec_readable_2_internal(jj2));
                assert(ji == jj2);
                if ji < jj2 {
                    lemma_count_ch_mono(sv, b, c, ji + 1, jj2);
                }
                if jj2 < ji {
                    lemma_count_ch_mono(sv, b, c, jj2 + 1, ji);
                }
            }
        }
        assert forall|p: int, b: int, t: int|
            #![trigger find4(game.pieces[p][b], t as usize)]
            0 <= p < 2 && 0 <= b < 4 && 0 <= t < 36 && playable(t) && game.boards[b][t]
                == Self::player_of(p) implies find4(game.pieces[p][b], t as usize) < 4 by {
            let c = if p == 0 {
                'b'
            } else {
                'w'
            };
            let j = spec_internal_2_readable(t);
            crate::shobu_move::lemma_tile_conversions(t);
            assert(game.boards[b][t] == char_cell(sv[2 + 17 * b + j]));
            assert(sv[2 + 17 * b + j] == c);
            assert(count_ch(sv, b, c, j) < count_ch(sv, b, c, 16)) by {
                lemma_count_ch_mono(sv, b, c, j + 1, 16);
            }
            lemma_count_ch_mono(sv, b, c, 0, j);
            assert(game.pieces[p][b][count_ch(sv, b, c, j)] == t as usize);
            lemma_find4_present(game.pieces[p][b], t as usize, count_ch(sv, b, c, j));
        }
    }
}


impl Shobu {
    /// Render the position in the textual notation.
    pub fn to_string(&self) -> (r: String)
        ensures
            r@ == self.spec_pos_string(),
    {
        let ghost target = self.spec_pos_string();
        let mut out = String::new();
        if self.active_player == BLACK {
            out.append("b");
        } else {
            out.append("w");
        }
        proof {
            reveal_strlit("b");
            reveal_strlit("w");
            assert(out@ =~= target.subrange(0, 1));
        }
        for i in 0..4usize
            invariant
                target == self.spec_pos_string(),
                out@ =~= target.subrange(0, 1 + 17 * i as int),
        {
            out.append(" ");
            proof {
                reveal_strlit(" ");
                assert(out@ =~= target.subrange(0, 2 + 17 * i as int));
            }
            for j in 0..16usize
                invariant
                    i < 4,
                    target == self.spec_pos_string(),
                    out@ =~= target.subrange(0, 2 + 17 * i as int + j as int),
            {
                let tile = readable_2_internal(j);
                let v = self.boards[i][tile];
                if v == BLACK {
                    out.append("b");
                } else if v == WHITE {
                    out.append("w");
                } else {
                    out.append("_");
                }
                proof {
                    reveal_strlit("b");
                    reveal_strlit("w");
                    reveal_strlit("_");
                    let pos = 2 + 17 * i as int + j as int;
                    assert(target[pos] == pos_char(
                        self.boards[i as int][spec_readable_2_internal(j as int)],
                    ));
                    assert(out@ =~= target.subrange(0, pos + 1));
                }
            }
        }
        proof {
            assert(out@ =~= target);
        }
        out
    }
}


/// Everything observable about a position except how roster slots are
/// ordered: the search must hand the board back in this state.
pub open spec fn same_position(a: Shobu, b: Shobu) -> bool {
    &&& a.active_player == b.active_player
    &&& a.winner == b.winner
    &&& a.boards == b.boards
    &&& a.history@ == b.history@
    &&& a.hashes == b.hashes
    &&& a.piece_hash_vals == b.piece_hash_vals
    &&& a.black_active_hash == b.black_active_hash
}

/// Legality and push annotations depend only on the boards and the turn,
/// which `same_position` preserves.
pub proof fn lemma_legal_same_position(a: Shobu, b: Shobu, mv: Move)
    requires
        same_position(a, b),
    ensures
        a.move_legal(mv) == b.move_legal(mv),
        a.sub_push(mv.board_1 as int, mv.direction, mv.from_1 as int, mv.double) == b.sub_push(
            mv.board_1 as int,
            mv.direction,
            mv.from_1 as int,
            mv.double,
        ),
        a.sub_push(mv.board_2 as int, mv.direction, mv.from_2 as int, mv.double) == b.sub_push(
            mv.board_2 as int,
            mv.direction,
            mv.from_2 as int,
            mv.double,
        ),
{
}


/// The same move with its two sub-moves listed in the other order.
pub open spec fn move_swapped(mv: Move) -> Move {
    Move {
        board_1: mv.board_2,
        board_2: mv.board_1,
        direction: mv.direction,
        from_1: mv.from_2,
        from_2: mv.from_1,
        double: mv.double,
    }
}

/// Legality does not depend on the order of the two sub-moves.
pub proof fn lemma_move_legal_swapped(s: Shobu, mv: Move)
    ensures
        s.move_legal(mv) == s.move_legal(move_swapped(mv)),
{
}

/// Scan prefixes never shrink.
pub proof fn lemma_gen_pair_len_nonneg(s: Shobu, b1: int, b2: int, n: int)
    ensures
        s.gen_pair_seq(b1, b2, n).len() >= 0,
        n >= 0 ==> s.gen_pair_seq(b1, b2, n).len() <= n,
    decreases n,
{
    if n > 0 {
        lemma_gen_pair_len_nonneg(s, b1, b2, n - 1);
    }
}

} // verus!
