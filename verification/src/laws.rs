//! The engine's cross-cutting laws: reversibility is `shobu::lemma_apply_undo`;
//! here stand the hashing laws relating the four symmetry images and the
//! side-to-move marker.

use vstd::prelude::*;

use crate::shobu::{
    Shobu, playable, scratch_hash, part_hash, cell_term, spec_shift, zobrist_group, part_lane,
    uterm, lemma_uterm_zero, bsub_board_after, bsub_pushed_from, bsub_pushed_to, other, is_stone,
    is_direction, lemma_apply_undo, lemma_sub_preserves_wf, restores, BLACK, WHITE, EMPTY, MARGIN,
};
use crate::shobu_move::{Move, spec_diff};
use crate::shobu_move::{spec_readable_2_internal, spec_internal_2_readable};
use crate::symmetry::{spec_opposite_color_board, spec_tile_flipped};

verus! {

/// `b` is the image of `a` under the chosen combination of the board-pair
/// swap and the horizontal mirror, on every playable cell.
pub open spec fn boards_related(
    a: [[i8; 36]; 4],
    b: [[i8; 36]; 4],
    color_swap: bool,
    horizontal_swap: bool,
) -> bool {
    forall|i: int, t: int|
        0 <= i < 4 && 0 <= t < 36 && playable(t) ==> #[trigger] b[i][t] == a[if color_swap {
            spec_opposite_color_board(i)
        } else {
            i
        }][if horizontal_swap {
            spec_tile_flipped(t)
        } else {
            t
        }]
}

/// Mirroring a cell maps its readable index to the readable index of the
/// mirrored column, in the same key group.
proof fn lemma_mirror_readable(r: int, c: int)
    requires
        0 <= r < 4,
        0 <= c < 4,
    ensures
        spec_tile_flipped(spec_readable_2_internal(4 * r + c)) == spec_readable_2_internal(
            4 * r + (3 - c),
        ),
        zobrist_group(4 * r + c) == zobrist_group(4 * r + (3 - c)),
        playable(spec_readable_2_internal(4 * r + c)),
{
    assert(spec_readable_2_internal(4 * r + c) == 7 + 6 * r + c) by {
        assert((4 * r + c) / 4 == r && (4 * r + c) % 4 == c) by (nonlinear_arith)
            requires
                0 <= r < 4 && 0 <= c < 4,
        ;
    }
    assert(spec_readable_2_internal(4 * r + (3 - c)) == 7 + 6 * r + (3 - c)) by {
        assert((4 * r + (3 - c)) / 4 == r && (4 * r + (3 - c)) % 4 == 3 - c) by (nonlinear_arith)
            requires
                0 <= r < 4 && 0 <= c < 4,
        ;
    }
    assert((7 + 6 * r + c) % 6 == 1 + c) by (nonlinear_arith)
        requires
            0 <= r < 4 && 0 <= c < 4,
    ;
    assert(zobrist_group(4 * r + c) == zobrist_group(4 * r + (3 - c))) by {
        assert((4 * r + c) / 4 == r && (4 * r + c) % 4 == c && (4 * r + (3 - c)) / 4 == r && (4 * r
            + (3 - c)) % 4 == 3 - c) by (nonlinear_arith)
            requires
                0 <= r < 4 && 0 <= c < 4,
        ;
    }
}

/// One (sub-board, half) group of the transformed position hashes like the
/// matching group of the original.
#[verifier::rlimit(100)]
#[verifier::spinoff_prover]
proof fn lemma_part_symmetry(
    a: [[i8; 36]; 4],
    b: [[i8; 36]; 4],
    keys: [[u64; 8]; 2],
    color_swap: bool,
    horizontal_swap: bool,
    i: int,
    h: int,
    sh: u64,
)
    requires
        boards_related(a, b, color_swap, horizontal_swap),
        0 <= i < 4,
        0 <= h < 2,
    ensures
        part_hash(b, keys, i, h, sh) == part_hash(
            a,
            keys,
            if color_swap {
                spec_opposite_color_board(i)
            } else {
                i
            },
            if horizontal_swap {
                1 - h
            } else {
                h
            },
            sh,
        ),
{
    let i2 = if color_swap {
        spec_opposite_color_board(i)
    } else {
        i
    };
    assert forall|r: int, c: int| 0 <= r < 4 && 0 <= c < 4 implies #[trigger] cell_term(
        keys,
        b[i][spec_readable_2_internal(4 * r + c)],
        4 * r + c,
        sh,
    ) == cell_term(
        keys,
        a[i2][spec_readable_2_internal(4 * r + (if horizontal_swap {
            3 - c
        } else {
            c
        }))],
        4 * r + (if horizontal_swap {
            3 - c
        } else {
            c
        }),
        sh,
    ) by {
        lemma_mirror_readable(r, c);
        let t = spec_readable_2_internal(4 * r + c);
        assert(b[i][t] == a[i2][if horizontal_swap {
            spec_tile_flipped(t)
        } else {
            t
        }]);
    }
    if horizontal_swap {
        assert(part_hash(b, keys, i, h, sh) == part_hash(a, keys, i2, 1 - h, sh)) by {
            let c0 = 2 * h;
            let c1 = 2 * h + 1;
            let d0 = 2 * (1 - h);
            let d1 = 2 * (1 - h) + 1;
            assert(3 - c0 == d1 && 3 - c1 == d0);
            let p1 = cell_term(keys, a[i2][spec_readable_2_internal(d1)], d1, sh);
            let p2 = cell_term(keys, a[i2][spec_readable_2_internal(d0)], d0, sh);
            let p3 = cell_term(keys, a[i2][spec_readable_2_internal(4 + d1)], 4 + d1, sh);
            let p4 = cell_term(keys, a[i2][spec_readable_2_internal(4 + d0)], 4 + d0, sh);
            let p5 = cell_term(keys, a[i2][spec_readable_2_internal(8 + d1)], 8 + d1, sh);
            let p6 = cell_term(keys, a[i2][spec_readable_2_internal(8 + d0)], 8 + d0, sh);
            let p7 = cell_term(keys, a[i2][spec_readable_2_internal(12 + d1)], 12 + d1, sh);
            let p8 = cell_term(keys, a[i2][spec_readable_2_internal(12 + d0)], 12 + d0, sh);
            assert(part_hash(b, keys, i, h, sh) == p1 ^ p2 ^ p3 ^ p4 ^ p5 ^ p6 ^ p7 ^ p8);
            assert(part_hash(a, keys, i2, 1 - h, sh) == p2 ^ p1 ^ p4 ^ p3 ^ p6 ^ p5 ^ p8 ^ p7);
            assert(p1 ^ p2 ^ p3 ^ p4 ^ p5 ^ p6 ^ p7 ^ p8 == p2 ^ p1 ^ p4 ^ p3 ^ p6 ^ p5 ^ p8
                ^ p7) by (bit_vector);
        }
    } else {
        assert(part_hash(b, keys, i, h, sh) == part_hash(a, keys, i2, h, sh));
    }
}


/// The scratch hash of a transformed position, under any lane table, equals
/// the scratch hash of the original under the matching image's lane table.
pub proof fn lemma_scratch_hash_symmetry(
    a: [[i8; 36]; 4],
    b: [[i8; 36]; 4],
    keys: [[u64; 8]; 2],
    marker: u64,
    black_active: bool,
    color_swap: bool,
    horizontal_swap: bool,
    x: int,
    y: int,
)
    requires
        0 <= x < 2,
        0 <= y < 2,
        boards_related(a, b, color_swap, horizontal_swap),
    ensures
        scratch_hash(b, keys, marker, black_active, x, y) == scratch_hash(
            a,
            keys,
            marker,
            black_active,
            if horizontal_swap {
                1 - x
            } else {
                x
            },
            if color_swap {
                1 - y
            } else {
                y
            },
        ),
{
    let x2: int = if horizontal_swap {
        1 - x
    } else {
        x
    };
    let y2: int = if color_swap {
        1 - y
    } else {
        y
    };
    let m: u64 = if black_active {
        marker
    } else {
        0u64
    };
    lemma_part_symmetry(a, b, keys, color_swap, horizontal_swap, 0, 0, spec_shift(x, y, 0));
    lemma_part_symmetry(a, b, keys, color_swap, horizontal_swap, 0, 1, spec_shift(x, y, 1));
    lemma_part_symmetry(a, b, keys, color_swap, horizontal_swap, 1, 0, spec_shift(x, y, 2));
    lemma_part_symmetry(a, b, keys, color_swap, horizontal_swap, 1, 1, spec_shift(x, y, 3));
    lemma_part_symmetry(a, b, keys, color_swap, horizontal_swap, 2, 0, spec_shift(x, y, 4));
    lemma_part_symmetry(a, b, keys, color_swap, horizontal_swap, 2, 1, spec_shift(x, y, 5));
    lemma_part_symmetry(a, b, keys, color_swap, horizontal_swap, 3, 0, spec_shift(x, y, 6));
    lemma_part_symmetry(a, b, keys, color_swap, horizontal_swap, 3, 1, spec_shift(x, y, 7));
    let r0 = part_hash(a, keys, 0, 0, spec_shift(x2, y2, 0));
    let r1 = part_hash(a, keys, 0, 1, spec_shift(x2, y2, 1));
    let r2 = part_hash(a, keys, 1, 0, spec_shift(x2, y2, 2));
    let r3 = part_hash(a, keys, 1, 1, spec_shift(x2, y2, 3));
    let r4 = part_hash(a, keys, 2, 0, spec_shift(x2, y2, 4));
    let r5 = part_hash(a, keys, 2, 1, spec_shift(x2, y2, 5));
    let r6 = part_hash(a, keys, 3, 0, spec_shift(x2, y2, 6));
    let r7 = part_hash(a, keys, 3, 1, spec_shift(x2, y2, 7));
    assert(scratch_hash(a, keys, marker, black_active, x2, y2) == m ^ r0 ^ r1 ^ r2 ^ r3 ^ r4 ^ r5
        ^ r6 ^ r7);
    if !color_swap && !horizontal_swap {
        assert(scratch_hash(b, keys, marker, black_active, x, y) == m ^ r0 ^ r1 ^ r2 ^ r3 ^ r4
            ^ r5 ^ r6 ^ r7);
    } else if !color_swap && horizontal_swap {
        assert(scratch_hash(b, keys, marker, black_active, x, y) == m ^ r1 ^ r0 ^ r3 ^ r2 ^ r5
            ^ r4 ^ r7 ^ r6);
        assert(m ^ r1 ^ r0 ^ r3 ^ r2 ^ r5 ^ r4 ^ r7 ^ r6 == m ^ r0 ^ r1 ^ r2 ^ r3 ^ r4 ^ r5 ^ r6
            ^ r7) by (bit_vector);
    } else if color_swap && !horizontal_swap {
        assert(scratch_hash(b, keys, marker, black_active, x, y) == m ^ r2 ^ r3 ^ r0 ^ r1 ^ r6
            ^ r7 ^ r4 ^ r5);
        assert(m ^ r2 ^ r3 ^ r0 ^ r1 ^ r6 ^ r7 ^ r4 ^ r5 == m ^ r0 ^ r1 ^ r2 ^ r3 ^ r4 ^ r5 ^ r6
            ^ r7) by (bit_vector);
    } else {
        assert(scratch_hash(b, keys, marker, black_active, x, y) == m ^ r3 ^ r2 ^ r1 ^ r0 ^ r7
            ^ r6 ^ r5 ^ r4);
        assert(m ^ r3 ^ r2 ^ r1 ^ r0 ^ r7 ^ r6 ^ r5 ^ r4 == m ^ r0 ^ r1 ^ r2 ^ r3 ^ r4 ^ r5 ^ r6
            ^ r7) by (bit_vector);
    }
}

/// The hashing scheme's core symmetry law, for any two states whose hash
/// slots track the scratch computation under the same initial parity (as
/// freshly parsed states do, and as the incremental updates maintain): the
/// canonical (identity-image) hash of the transformed position equals the
/// stored symmetry-image hash of the original, in both directions, and the
/// combined hash does not change at all.
pub proof fn lemma_symmetry_hash_images(
    s1: Shobu,
    s2: Shobu,
    init_black: bool,
    color_swap: bool,
    horizontal_swap: bool,
)
    requires
        s1.tracked_hashes(init_black),
        s2.tracked_hashes(init_black),
        s1.piece_hash_vals == s2.piece_hash_vals,
        s1.black_active_hash == s2.black_active_hash,
        s1.active_player == s2.active_player,
        boards_related(s1.boards, s2.boards, color_swap, horizontal_swap),
    ensures
        s2.spec_symmetry_hash(false, false) == s1.spec_symmetry_hash(color_swap, horizontal_swap),
        s2.spec_symmetry_hash(color_swap, horizontal_swap) == s1.spec_symmetry_hash(false, false),
        s2.spec_get_hash() == s1.spec_get_hash(),
{
    let a = s1.boards;
    let b = s2.boards;
    let keys = s1.piece_hash_vals;
    let marker = s1.black_active_hash;
    let bl = init_black;
    let hx: int = if horizontal_swap {
        1
    } else {
        0
    };
    let cy: int = if color_swap {
        1
    } else {
        0
    };
    lemma_scratch_hash_symmetry(a, b, keys, marker, bl, color_swap, horizontal_swap, 0, 0);
    lemma_scratch_hash_symmetry(a, b, keys, marker, bl, color_swap, horizontal_swap, 0, 1);
    lemma_scratch_hash_symmetry(a, b, keys, marker, bl, color_swap, horizontal_swap, 1, 0);
    lemma_scratch_hash_symmetry(a, b, keys, marker, bl, color_swap, horizontal_swap, 1, 1);
    assert(s2.hashes[0][0] == scratch_hash(b, keys, marker, bl, 0, 0));
    assert(s1.hashes[cy][hx] == scratch_hash(a, keys, marker, bl, hx, cy));
    assert(scratch_hash(b, keys, marker, bl, 0, 0) == scratch_hash(a, keys, marker, bl, hx, cy));
    assert(s2.hashes[cy][hx] == scratch_hash(b, keys, marker, bl, hx, cy));
    assert(scratch_hash(b, keys, marker, bl, hx, cy) == scratch_hash(a, keys, marker, bl, 0, 0));
    // all four stored images of the transformed position are a permutation
    // of the original's, so the combined fold is unchanged
    let m: u64 = if s1.active_player == BLACK {
        marker
    } else {
        0u64
    };
    let a00 = s1.hashes[0][0];
    let a01 = s1.hashes[0][1];
    let a10 = s1.hashes[1][0];
    let a11 = s1.hashes[1][1];
    if !color_swap && !horizontal_swap {
        assert(s2.spec_get_hash() == m ^ a00 ^ a01 ^ a10 ^ a11);
    } else if !color_swap && horizontal_swap {
        assert(s2.spec_get_hash() == m ^ a01 ^ a00 ^ a11 ^ a10);
        assert(m ^ a01 ^ a00 ^ a11 ^ a10 == m ^ a00 ^ a01 ^ a10 ^ a11) by (bit_vector);
    } else if color_swap && !horizontal_swap {
        assert(s2.spec_get_hash() == m ^ a10 ^ a11 ^ a00 ^ a01);
        assert(m ^ a10 ^ a11 ^ a00 ^ a01 == m ^ a00 ^ a01 ^ a10 ^ a11) by (bit_vector);
    } else {
        assert(s2.spec_get_hash() == m ^ a11 ^ a10 ^ a01 ^ a00);
        assert(m ^ a11 ^ a10 ^ a01 ^ a00 == m ^ a00 ^ a01 ^ a10 ^ a11) by (bit_vector);
    }
}

/// The combined hash tells the two players to move apart: with the same
/// stored images and a nonzero side-to-move marker, a black-to-move state
/// and a white-to-move state never share it.
pub proof fn lemma_hash_active_player(s1: Shobu, s2: Shobu)
    requires
        s1.hashes == s2.hashes,
        s1.black_active_hash == s2.black_active_hash,
        s1.black_active_hash != 0,
        s1.active_player == BLACK,
        s2.active_player == WHITE,
    ensures
        s1.spec_get_hash() != s2.spec_get_hash(),
{
    let m = s1.black_active_hash;
    let a00 = s1.hashes[0][0];
    let a01 = s1.hashes[0][1];
    let a10 = s1.hashes[1][0];
    let a11 = s1.hashes[1][1];
    assert(m != 0 ==> m ^ a00 ^ a01 ^ a10 ^ a11 != 0u64 ^ a00 ^ a01 ^ a10 ^ a11) by (bit_vector);
}


/// The active-player law at parse level: two freshly initialised states with
/// the same boards and keys but different players to move have different
/// combined hashes, provided the side-to-move marker is nonzero.
pub proof fn lemma_hash_active_player_fresh(s1: Shobu, s2: Shobu)
    requires
        s1.fresh_hashes(),
        s2.fresh_hashes(),
        s1.boards == s2.boards,
        s1.piece_hash_vals == s2.piece_hash_vals,
        s1.black_active_hash == s2.black_active_hash,
        s1.black_active_hash != 0,
        s1.active_player == BLACK,
        s2.active_player == WHITE,
    ensures
        s1.spec_get_hash() != s2.spec_get_hash(),
{
    let keys = s1.piece_hash_vals;
    let m = s1.black_active_hash;
    let q0 = part_hash(s1.boards, keys, 0, 0, spec_shift(0, 0, 0));
    let q1 = part_hash(s1.boards, keys, 0, 1, spec_shift(0, 0, 1));
    let q2 = part_hash(s1.boards, keys, 1, 0, spec_shift(0, 0, 2));
    let q3 = part_hash(s1.boards, keys, 1, 1, spec_shift(0, 0, 3));
    let q4 = part_hash(s1.boards, keys, 2, 0, spec_shift(0, 0, 4));
    let q5 = part_hash(s1.boards, keys, 2, 1, spec_shift(0, 0, 5));
    let q6 = part_hash(s1.boards, keys, 3, 0, spec_shift(0, 0, 6));
    let q7 = part_hash(s1.boards, keys, 3, 1, spec_shift(0, 0, 7));
    assert(s1.hashes[0][0] == m ^ q0 ^ q1 ^ q2 ^ q3 ^ q4 ^ q5 ^ q6 ^ q7);
    assert(s2.hashes[0][0] == 0u64 ^ q0 ^ q1 ^ q2 ^ q3 ^ q4 ^ q5 ^ q6 ^ q7);
    let a01 = s1.hashes[0][1];
    let a10 = s1.hashes[1][0];
    let a11 = s1.hashes[1][1];
    assert(s2.hashes[0][1] == a01 ^ m && s2.hashes[1][0] == a10 ^ m && s2.hashes[1][1] == a11
        ^ m) by {
        lemma_scratch_marker(s1.boards, keys, m, 1, 0);
        lemma_scratch_marker(s1.boards, keys, m, 0, 1);
        lemma_scratch_marker(s1.boards, keys, m, 1, 1);
    }
    assert(m != 0 ==> (m ^ (m ^ q0 ^ q1 ^ q2 ^ q3 ^ q4 ^ q5 ^ q6 ^ q7) ^ a01 ^ a10 ^ a11) != (0u64
        ^ (0u64 ^ q0 ^ q1 ^ q2 ^ q3 ^ q4 ^ q5 ^ q6 ^ q7) ^ (a01 ^ m) ^ (a10 ^ m) ^ (a11
        ^ m))) by (bit_vector);
}

/// A scratch hash with the marker folded in differs from the one without by
/// exactly the marker.
proof fn lemma_scratch_marker(boards: [[i8; 36]; 4], keys: [[u64; 8]; 2], marker: u64, x: int, y: int)
    ensures
        scratch_hash(boards, keys, marker, false, x, y) == scratch_hash(
            boards,
            keys,
            marker,
            true,
            x,
            y,
        ) ^ marker,
{
    let p0 = part_hash(boards, keys, 0, 0, spec_shift(x, y, 0));
    let p1 = part_hash(boards, keys, 0, 1, spec_shift(x, y, 1));
    let p2 = part_hash(boards, keys, 1, 0, spec_shift(x, y, 2));
    let p3 = part_hash(boards, keys, 1, 1, spec_shift(x, y, 3));
    let p4 = part_hash(boards, keys, 2, 0, spec_shift(x, y, 4));
    let p5 = part_hash(boards, keys, 2, 1, spec_shift(x, y, 5));
    let p6 = part_hash(boards, keys, 3, 0, spec_shift(x, y, 6));
    let p7 = part_hash(boards, keys, 3, 1, spec_shift(x, y, 7));
    assert(0u64 ^ p0 ^ p1 ^ p2 ^ p3 ^ p4 ^ p5 ^ p6 ^ p7 == (marker ^ p0 ^ p1 ^ p2 ^ p3 ^ p4 ^ p5
        ^ p6 ^ p7) ^ marker) by (bit_vector);
}


/// Changing one playable cell changes a scratch hash by exactly the two
/// key terms of that cell's old and new contents, in that cell's lane.
#[verifier::rlimit(100)]
#[verifier::spinoff_prover]
proof fn lemma_scratch_one_cell(
    boards: [[i8; 36]; 4],
    b: int,
    tile: int,
    v: i8,
    keys: [[u64; 8]; 2],
    marker: u64,
    bl: bool,
    x: int,
    y: int,
)
    requires
        0 <= b < 4,
        playable(tile),
        0 <= x < 2,
        0 <= y < 2,
    ensures
        ({
            let boards2 = vstd::array::spec_array_update(
                boards,
                b,
                vstd::array::spec_array_update(boards[b], tile, v),
            );
            let j = spec_internal_2_readable(tile);
            let sh = spec_shift(x, y, part_lane(b, tile));
            scratch_hash(boards2, keys, marker, bl, x, y) == scratch_hash(
                boards,
                keys,
                marker,
                bl,
                x,
                y,
            ) ^ cell_term(keys, boards[b][tile], j, sh) ^ cell_term(keys, v, j, sh)
        }),
{
    let boards2 = vstd::array::spec_array_update(
        boards,
        b,
        vstd::array::spec_array_update(boards[b], tile, v),
    );
    let j = spec_internal_2_readable(tile);
    crate::shobu_move::lemma_tile_conversions(tile);
    let r = j / 4;
    let c = j % 4;
    let h = c / 2;
    assert(0 <= r < 4 && 0 <= c < 4 && 0 <= h < 2);
    assert(part_lane(b, tile) == 2 * b + h);
    let sh = spec_shift(x, y, 2 * b + h);
    let o = cell_term(keys, boards[b][tile], j, sh);
    let w = cell_term(keys, v, j, sh);
    assert(boards2[b][tile] == v);
    assert(forall|t: int| 0 <= t < 36 && t != tile ==> boards2[b][t] == #[trigger] boards[b][t]);
    assert(forall|b2: int, t: int|
        0 <= b2 < 4 && b2 != b && 0 <= t < 36 ==> boards2[b2][t] == #[trigger] boards[b2][t]);
    assert forall|j2: int| 0 <= j2 < 16 && j2 != j implies spec_readable_2_internal(j2)
        != tile by {
        crate::shobu::lemma_r2i_inverse(j2);
    }
    assert(j == 4 * r + c && (c == 2 * h || c == 2 * h + 1));
    // the part holding the cell changes by exactly the two terms
        if r == 0 && c == 2 * h + 0 {
            let t0 = cell_term(keys, boards[b][spec_readable_2_internal(2 * h)], 2 * h, sh);
            let t1 = cell_term(keys, boards[b][spec_readable_2_internal(0 + 2 * h + 1)], 0 + 2 * h + 1, sh);
            let t2 = cell_term(keys, boards[b][spec_readable_2_internal(4 + 2 * h)], 4 + 2 * h, sh);
            let t3 = cell_term(keys, boards[b][spec_readable_2_internal(4 + 2 * h + 1)], 4 + 2 * h + 1, sh);
            let t4 = cell_term(keys, boards[b][spec_readable_2_internal(8 + 2 * h)], 8 + 2 * h, sh);
            let t5 = cell_term(keys, boards[b][spec_readable_2_internal(8 + 2 * h + 1)], 8 + 2 * h + 1, sh);
            let t6 = cell_term(keys, boards[b][spec_readable_2_internal(12 + 2 * h)], 12 + 2 * h, sh);
            let t7 = cell_term(keys, boards[b][spec_readable_2_internal(12 + 2 * h + 1)], 12 + 2 * h + 1, sh);
            assert(t0 == o);
            assert((cell_term(keys, boards2[b][spec_readable_2_internal(2 * h)], 2 * h, sh)) == w);
            assert((cell_term(keys, boards2[b][spec_readable_2_internal(0 + 2 * h + 1)], 0 + 2 * h + 1, sh)) == t1);
            assert((cell_term(keys, boards2[b][spec_readable_2_internal(4 + 2 * h)], 4 + 2 * h, sh)) == t2);
            assert((cell_term(keys, boards2[b][spec_readable_2_internal(4 + 2 * h + 1)], 4 + 2 * h + 1, sh)) == t3);
            assert((cell_term(keys, boards2[b][spec_readable_2_internal(8 + 2 * h)], 8 + 2 * h, sh)) == t4);
            assert((cell_term(keys, boards2[b][spec_readable_2_internal(8 + 2 * h + 1)], 8 + 2 * h + 1, sh)) == t5);
            assert((cell_term(keys, boards2[b][spec_readable_2_internal(12 + 2 * h)], 12 + 2 * h, sh)) == t6);
            assert((cell_term(keys, boards2[b][spec_readable_2_internal(12 + 2 * h + 1)], 12 + 2 * h + 1, sh)) == t7);
            assert(part_hash(boards2, keys, b, h, sh) == w ^ t1 ^ t2 ^ t3 ^ t4 ^ t5 ^ t6 ^ t7);
            assert(part_hash(boards, keys, b, h, sh) == t0 ^ t1 ^ t2 ^ t3 ^ t4 ^ t5 ^ t6 ^ t7);
            assert(w ^ t1 ^ t2 ^ t3 ^ t4 ^ t5 ^ t6 ^ t7 == (t0 ^ t1 ^ t2 ^ t3 ^ t4 ^ t5 ^ t6 ^ t7) ^ t0 ^ w) by (bit_vector);
        }
        if r == 0 && c == 2 * h + 1 {
            let t0 = cell_term(keys, boards[b][spec_readable_2_internal(2 * h)], 2 * h, sh);
            let t1 = cell_term(keys, boards[b][spec_readable_2_internal(0 + 2 * h + 1)], 0 + 2 * h + 1, sh);
            let t2 = cell_term(keys, boards[b][spec_readable_2_internal(4 + 2 * h)], 4 + 2 * h, sh);
            let t3 = cell_term(keys, boards[b][spec_readable_2_internal(4 + 2 * h + 1)], 4 + 2 * h + 1, sh);
            let t4 = cell_term(keys, boards[b][spec_readable_2_internal(8 + 2 * h)], 8 + 2 * h, sh);
            let t5 = cell_term(keys, boards[b][spec_readable_2_internal(8 + 2 * h + 1)], 8 + 2 * h + 1, sh);
            let t6 = cell_term(keys, boards[b][spec_readable_2_internal(12 + 2 * h)], 12 + 2 * h, sh);
            let t7 = cell_term(keys, boards[b][spec_readable_2_internal(12 + 2 * h + 1)], 12 + 2 * h + 1, sh);
            assert(t1 == o);
            assert((cell_term(keys, boards2[b][spec_readable_2_internal(0 + 2 * h + 1)], 0 + 2 * h + 1, sh)) == w);
            assert((cell_term(keys, boards2[b][spec_readable_2_internal(2 * h)], 2 * h, sh)) == t0);
            assert((cell_term(keys, boards2[b][spec_readable_2_internal(4 + 2 * h)], 4 + 2 * h, sh)) == t2);
            assert((cell_term(keys, boards2[b][spec_readable_2_internal(4 + 2 * h + 1)], 4 + 2 * h + 1, sh)) == t3);
            assert((cell_term(keys, boards2[b][spec_readable_2_internal(8 + 2 * h)], 8 + 2 * h, sh)) == t4);
            assert((cell_term(keys, boards2[b][spec_readable_2_internal(8 + 2 * h + 1)], 8 + 2 * h + 1, sh)) == t5);
            assert((cell_term(keys, boards2[b][spec_readable_2_internal(12 + 2 * h)], 12 + 2 * h, sh)) == t6);
            assert((cell_term(keys, boards2[b][spec_readable_2_internal(12 + 2 * h + 1)], 12 + 2 * h + 1, sh)) == t7);
            assert(part_hash(boards2, keys, b, h, sh) == t0 ^ w ^ t2 ^ t3 ^ t4 ^ t5 ^ t6 ^ t7);
            assert(part_hash(boards, keys, b, h, sh) == t0 ^ t1 ^ t2 ^ t3 ^ t4 ^ t5 ^ t6 ^ t7);
            assert(t0 ^ w ^ t2 ^ t3 ^ t4 ^ t5 ^ t6 ^ t7 == (t0 ^ t1 ^ t2 ^ t3 ^ t4 ^ t5 ^ t6 ^ t7) ^ t1 ^ w) by (bit_vector);
        }
        if r == 1 && c == 2 * h + 0 {
            let t0 = cell_term(keys, boards[b][spec_readable_2_internal(2 * h)], 2 * h, sh);
            let t1 = cell_term(keys, boards[b][spec_readable_2_internal(0 + 2 * h + 1)], 0 + 2 * h + 1, sh);
            let t2 = cell_term(keys, boards[b][spec_readable_2_internal(4 + 2 * h)], 4 + 2 * h, sh);
            let t3 = cell_term(keys, boards[b][spec_readable_2_internal(4 + 2 * h + 1)], 4 + 2 * h + 1, sh);
            let t4 = cell_term(keys, boards[b][spec_readable_2_internal(8 + 2 * h)], 8 + 2 * h, sh);
            let t5 = cell_term(keys, boards[b][spec_readable_2_internal(8 + 2 * h + 1)], 8 + 2 * h + 1, sh);
            let t6 = cell_term(keys, boards[b][spec_readable_2_internal(12 + 2 * h)], 12 + 2 * h, sh);
            let t7 = cell_term(keys, boards[b][spec_readable_2_internal(12 + 2 * h + 1)], 12 + 2 * h + 1, sh);
            assert(t2 == o);
            assert((cell_term(keys, boards2[b][spec_readable_2_internal(4 + 2 * h)], 4 + 2 * h, sh)) == w);
            assert((cell_term(keys, boards2[b][spec_readable_2_internal(2 * h)], 2 * h, sh)) == t0);
            assert((cell_term(keys, boards2[b][spec_readable_2_internal(0 + 2 * h + 1)], 0 + 2 * h + 1, sh)) == t1);
            assert((cell_term(keys, boards2[b][spec_readable_2_internal(4 + 2 * h + 1)], 4 + 2 * h + 1, sh)) == t3);
            assert((cell_term(keys, boards2[b][spec_readable_2_internal(8 + 2 * h)], 8 + 2 * h, sh)) == t4);
            assert((cell_term(keys, boards2[b][spec_readable_2_internal(8 + 2 * h + 1)], 8 + 2 * h + 1, sh)) == t5);
            assert((cell_term(keys, boards2[b][spec_readable_2_internal(12 + 2 * h)], 12 + 2 * h, sh)) == t6);
            assert((cell_term(keys, boards2[b][spec_readable_2_internal(12 + 2 * h + 1)], 12 + 2 * h + 1, sh)) == t7);
            assert(part_hash(boards2, keys, b, h, sh) == t0 ^ t1 ^ w ^ t3 ^ t4 ^ t5 ^ t6 ^ t7);
            assert(part_hash(boards, keys, b, h, sh) == t0 ^ t1 ^ t2 ^ t3 ^ t4 ^ t5 ^ t6 ^ t7);
            assert(t0 ^ t1 ^ w ^ t3 ^ t4 ^ t5 ^ t6 ^ t7 == (t0 ^ t1 ^ t2 ^ t3 ^ t4 ^ t5 ^ t6 ^ t7) ^ t2 ^ w) by (bit_vector);
        }
        if r == 1 && c == 2 * h + 1 {
            let t0 = cell_term(keys, boards[b][spec_readable_2_internal(2 * h)], 2 * h, sh);
            let t1 = cell_term(keys, boards[b][spec_readable_2_internal(0 + 2 * h + 1)], 0 + 2 * h + 1, sh);
            let t2 = cell_term(keys, boards[b][spec_readable_2_internal(4 + 2 * h)], 4 + 2 * h, sh);
            let t3 = cell_term(keys, boards[b][spec_readable_2_internal(4 + 2 * h + 1)], 4 + 2 * h + 1, sh);
            let t4 = cell_term(keys, boards[b][spec_readable_2_internal(8 + 2 * h)], 8 + 2 * h, sh);
            let t5 = cell_term(keys, boards[b][spec_readable_2_internal(8 + 2 * h + 1)], 8 + 2 * h + 1, sh);
            let t6 = cell_term(keys, boards[b][spec_readable_2_internal(12 + 2 * h)], 12 + 2 * h, sh);
            let t7 = cell_term(keys, boards[b][spec_readable_2_internal(12 + 2 * h + 1)], 12 + 2 * h + 1, sh);
            assert(t3 == o);
            assert((cell_term(keys, boards2[b][spec_readable_2_internal(4 + 2 * h + 1)], 4 + 2 * h + 1, sh)) == w);
            assert((cell_term(keys, boards2[b][spec_readable_2_internal(2 * h)], 2 * h, sh)) == t0);
            assert((cell_term(keys, boards2[b][spec_readable_2_internal(0 + 2 * h + 1)], 0 + 2 * h + 1, sh)) == t1);
            assert((cell_term(keys, boards2[b][spec_readable_2_internal(4 + 2 * h)], 4 + 2 * h, sh)) == t2);
            assert((cell_term(keys, boards2[b][spec_readable_2_internal(8 + 2 * h)], 8 + 2 * h, sh)) == t4);
            assert((cell_term(keys, boards2[b][spec_readable_2_internal(8 + 2 * h + 1)], 8 + 2 * h + 1, sh)) == t5);
            assert((cell_term(keys, boards2[b][spec_readable_2_internal(12 + 2 * h)], 12 + 2 * h, sh)) == t6);
            assert((cell_term(keys, boards2[b][spec_readable_2_internal(12 + 2 * h + 1)], 12 + 2 * h + 1, sh)) == t7);
            assert(part_hash(boards2, keys, b, h, sh) == t0 ^ t1 ^ t2 ^ w ^ t4 ^ t5 ^ t6 ^ t7);
            assert(part_hash(boards, keys, b, h, sh) == t0 ^ t1 ^ t2 ^ t3 ^ t4 ^ t5 ^ t6 ^ t7);
            assert(t0 ^ t1 ^ t2 ^ w ^ t4 ^ t5 ^ t6 ^ t7 == (t0 ^ t1 ^ t2 ^ t3 ^ t4 ^ t5 ^ t6 ^ t7) ^ t3 ^ w) by (bit_vector);
        }
        if r == 2 && c == 2 * h + 0 {
            let t0 = cell_term(keys, boards[b][spec_readable_2_internal(2 * h)], 2 * h, sh);
            let t1 = cell_term(keys, boards[b][spec_readable_2_internal(0 + 2 * h + 1)], 0 + 2 * h + 1, sh);
            let t2 = cell_term(keys, boards[b][spec_readable_2_internal(4 + 2 * h)], 4 + 2 * h, sh);
            let t3 = cell_term(keys, boards[b][spec_readable_2_internal(4 + 2 * h + 1)], 4 + 2 * h + 1, sh);
            let t4 = cell_term(keys, boards[b][spec_readable_2_internal(8 + 2 * h)], 8 + 2 * h, sh);
            let t5 = cell_term(keys, boards[b][spec_readable_2_internal(8 + 2 * h + 1)], 8 + 2 * h + 1, sh);
            let t6 = cell_term(keys, boards[b][spec_readable_2_internal(12 + 2 * h)], 12 + 2 * h, sh);
            let t7 = cell_term(keys, boards[b][spec_readable_2_internal(12 + 2 * h + 1)], 12 + 2 * h + 1, sh);
            assert(t4 == o);
            assert((cell_term(keys, boards2[b][spec_readable_2_internal(8 + 2 * h)], 8 + 2 * h, sh)) == w);
            assert((cell_term(keys, boards2[b][spec_readable_2_internal(2 * h)], 2 * h, sh)) == t0);
            assert((cell_term(keys, boards2[b][spec_readable_2_internal(0 + 2 * h + 1)], 0 + 2 * h + 1, sh)) == t1);
            assert((cell_term(keys, boards2[b][spec_readable_2_internal(4 + 2 * h)], 4 + 2 * h, sh)) == t2);
            assert((cell_term(keys, boards2[b][spec_readable_2_internal(4 + 2 * h + 1)], 4 + 2 * h + 1, sh)) == t3);
            assert((cell_term(keys, boards2[b][spec_readable_2_internal(8 + 2 * h + 1)], 8 + 2 * h + 1, sh)) == t5);
            assert((cell_term(keys, boards2[b][spec_readable_2_internal(12 + 2 * h)], 12 + 2 * h, sh)) == t6);
            assert((cell_term(keys, boards2[b][spec_readable_2_internal(12 + 2 * h + 1)], 12 + 2 * h + 1, sh)) == t7);
            assert(part_hash(boards2, keys, b, h, sh) == t0 ^ t1 ^ t2 ^ t3 ^ w ^ t5 ^ t6 ^ t7);
            assert(part_hash(boards, keys, b, h, sh) == t0 ^ t1 ^ t2 ^ t3 ^ t4 ^ t5 ^ t6 ^ t7);
            assert(t0 ^ t1 ^ t2 ^ t3 ^ w ^ t5 ^ t6 ^ t7 == (t0 ^ t1 ^ t2 ^ t3 ^ t4 ^ t5 ^ t6 ^ t7) ^ t4 ^ w) by (bit_vector);
        }
        if r == 2 && c == 2 * h + 1 {
            let t0 = cell_term(keys, boards[b][spec_readable_2_internal(2 * h)], 2 * h, sh);
            let t1 = cell_term(keys, boards[b][spec_readable_2_internal(0 + 2 * h + 1)], 0 + 2 * h + 1, sh);
            let t2 = cell_term(keys, boards[b][spec_readable_2_internal(4 + 2 * h)], 4 + 2 * h, sh);
            let t3 = cell_term(keys, boards[b][spec_readable_2_internal(4 + 2 * h + 1)], 4 + 2 * h + 1, sh);
            let t4 = cell_term(keys, boards[b][spec_readable_2_internal(8 + 2 * h)], 8 + 2 * h, sh);
            let t5 = cell_term(keys, boards[b][spec_readable_2_internal(8 + 2 * h + 1)], 8 + 2 * h + 1, sh);
            let t6 = cell_term(keys, boards[b][spec_readable_2_internal(12 + 2 * h)], 12 + 2 * h, sh);
            let t7 = cell_term(keys, boards[b][spec_readable_2_internal(12 + 2 * h + 1)], 12 + 2 * h + 1, sh);
            assert(t5 == o);
            assert((cell_term(keys, boards2[b][spec_readable_2_internal(8 + 2 * h + 1)], 8 + 2 * h + 1, sh)) == w);
            assert((cell_term(keys, boards2[b][spec_readable_2_internal(2 * h)], 2 * h, sh)) == t0);
            assert((cell_term(keys, boards2[b][spec_readable_2_internal(0 + 2 * h + 1)], 0 + 2 * h + 1, sh)) == t1);
            assert((cell_term(keys, boards2[b][spec_readable_2_internal(4 + 2 * h)], 4 + 2 * h, sh)) == t2);
            assert((cell_term(keys, boards2[b][spec_readable_2_internal(4 + 2 * h + 1)], 4 + 2 * h + 1, sh)) == t3);
            assert((cell_term(keys, boards2[b][spec_readable_2_internal(8 + 2 * h)], 8 + 2 * h, sh)) == t4);
            assert((cell_term(keys, boards2[b][spec_readable_2_internal(12 + 2 * h)], 12 + 2 * h, sh)) == t6);
            assert((cell_term(keys, boards2[b][spec_readable_2_internal(12 + 2 * h + 1)], 12 + 2 * h + 1, sh)) == t7);
            assert(part_hash(boards2, keys, b, h, sh) == t0 ^ t1 ^ t2 ^ t3 ^ t4 ^ w ^ t6 ^ t7);
            assert(part_hash(boards, keys, b, h, sh) == t0 ^ t1 ^ t2 ^ t3 ^ t4 ^ t5 ^ t6 ^ t7);
            assert(t0 ^ t1 ^ t2 ^ t3 ^ t4 ^ w ^ t6 ^ t7 == (t0 ^ t1 ^ t2 ^ t3 ^ t4 ^ t5 ^ t6 ^ t7) ^ t5 ^ w) by (bit_vector);
        }
        if r == 3 && c == 2 * h + 0 {
            let t0 = cell_term(keys, boards[b][spec_readable_2_internal(2 * h)], 2 * h, sh);
            let t1 = cell_term(keys, boards[b][spec_readable_2_internal(0 + 2 * h + 1)], 0 + 2 * h + 1, sh);
            let t2 = cell_term(keys, boards[b][spec_readable_2_internal(4 + 2 * h)], 4 + 2 * h, sh);
            let t3 = cell_term(keys, boards[b][spec_readable_2_internal(4 + 2 * h + 1)], 4 + 2 * h + 1, sh);
            let t4 = cell_term(keys, boards[b][spec_readable_2_internal(8 + 2 * h)], 8 + 2 * h, sh);
            let t5 = cell_term(keys, boards[b][spec_readable_2_internal(8 + 2 * h + 1)], 8 + 2 * h + 1, sh);
            let t6 = cell_term(keys, boards[b][spec_readable_2_internal(12 + 2 * h)], 12 + 2 * h, sh);
            let t7 = cell_term(keys, boards[b][spec_readable_2_internal(12 + 2 * h + 1)], 12 + 2 * h + 1, sh);
            assert(t6 == o);
            assert((cell_term(keys, boards2[b][spec_readable_2_internal(12 + 2 * h)], 12 + 2 * h, sh)) == w);
            assert((cell_term(keys, boards2[b][spec_readable_2_internal(2 * h)], 2 * h, sh)) == t0);
            assert((cell_term(keys, boards2[b][spec_readable_2_internal(0 + 2 * h + 1)], 0 + 2 * h + 1, sh)) == t1);
            assert((cell_term(keys, boards2[b][spec_readable_2_internal(4 + 2 * h)], 4 + 2 * h, sh)) == t2);
            assert((cell_term(keys, boards2[b][spec_readable_2_internal(4 + 2 * h + 1)], 4 + 2 * h + 1, sh)) == t3);
            assert((cell_term(keys, boards2[b][spec_readable_2_internal(8 + 2 * h)], 8 + 2 * h, sh)) == t4);
            assert((cell_term(keys, boards2[b][spec_readable_2_internal(8 + 2 * h + 1)], 8 + 2 * h + 1, sh)) == t5);
            assert((cell_term(keys, boards2[b][spec_readable_2_internal(12 + 2 * h + 1)], 12 + 2 * h + 1, sh)) == t7);
            assert(part_hash(boards2, keys, b, h, sh) == t0 ^ t1 ^ t2 ^ t3 ^ t4 ^ t5 ^ w ^ t7);
            assert(part_hash(boards, keys, b, h, sh) == t0 ^ t1 ^ t2 ^ t3 ^ t4 ^ t5 ^ t6 ^ t7);
            assert(t0 ^ t1 ^ t2 ^ t3 ^ t4 ^ t5 ^ w ^ t7 == (t0 ^ t1 ^ t2 ^ t3 ^ t4 ^ t5 ^ t6 ^ t7) ^ t6 ^ w) by (bit_vector);
        }
        if r == 3 && c == 2 * h + 1 {
            let t0 = cell_term(keys, boards[b][spec_readable_2_internal(2 * h)], 2 * h, sh);
            let t1 = cell_term(keys, boards[b][spec_readable_2_internal(0 + 2 * h + 1)], 0 + 2 * h + 1, sh);
            let t2 = cell_term(keys, boards[b][spec_readable_2_internal(4 + 2 * h)], 4 + 2 * h, sh);
            let t3 = cell_term(keys, boards[b][spec_readable_2_internal(4 + 2 * h + 1)], 4 + 2 * h + 1, sh);
            let t4 = cell_term(keys, boards[b][spec_readable_2_internal(8 + 2 * h)], 8 + 2 * h, sh);
            let t5 = cell_term(keys, boards[b][spec_readable_2_internal(8 + 2 * h + 1)], 8 + 2 * h + 1, sh);
            let t6 = cell_term(keys, boards[b][spec_readable_2_internal(12 + 2 * h)], 12 + 2 * h, sh);
            let t7 = cell_term(keys, boards[b][spec_readable_2_internal(12 + 2 * h + 1)], 12 + 2 * h + 1, sh);
            assert(t7 == o);
            assert((cell_term(keys, boards2[b][spec_readable_2_internal(12 + 2 * h + 1)], 12 + 2 * h + 1, sh)) == w);
            assert((cell_term(keys, boards2[b][spec_readable_2_internal(2 * h)], 2 * h, sh)) == t0);
            assert((cell_term(keys, boards2[b][spec_readable_2_internal(0 + 2 * h + 1)], 0 + 2 * h + 1, sh)) == t1);
            assert((cell_term(keys, boards2[b][spec_readable_2_internal(4 + 2 * h)], 4 + 2 * h, sh)) == t2);
            assert((cell_term(keys, boards2[b][spec_readable_2_internal(4 + 2 * h + 1)], 4 + 2 * h + 1, sh)) == t3);
            assert((cell_term(keys, boards2[b][spec_readable_2_internal(8 + 2 * h)], 8 + 2 * h, sh)) == t4);
            assert((cell_term(keys, boards2[b][spec_readable_2_internal(8 + 2 * h + 1)], 8 + 2 * h + 1, sh)) == t5);
            assert((cell_term(keys, boards2[b][spec_readable_2_internal(12 + 2 * h)], 12 + 2 * h, sh)) == t6);
            assert(part_hash(boards2, keys, b, h, sh) == t0 ^ t1 ^ t2 ^ t3 ^ t4 ^ t5 ^ t6 ^ w);
            assert(part_hash(boards, keys, b, h, sh) == t0 ^ t1 ^ t2 ^ t3 ^ t4 ^ t5 ^ t6 ^ t7);
            assert(t0 ^ t1 ^ t2 ^ t3 ^ t4 ^ t5 ^ t6 ^ w == (t0 ^ t1 ^ t2 ^ t3 ^ t4 ^ t5 ^ t6 ^ t7) ^ t7 ^ w) by (bit_vector);
        }
    assert(part_hash(boards2, keys, b, h, sh) == part_hash(boards, keys, b, h, sh) ^ o ^ w);
    // every other part reads only unchanged cells
    assert forall|b2: int, h2: int, sh2: u64|
        0 <= b2 < 4 && 0 <= h2 < 2 && !(b2 == b && h2 == h) implies part_hash(
        boards2,
        keys,
        b2,
        h2,
        sh2,
    ) == part_hash(boards, keys, b2, h2, sh2) by {
        assert forall|j2: int| 0 <= j2 < 16 && j2 != j implies boards2[b2][spec_readable_2_internal(
            j2,
        )] == boards[b2][spec_readable_2_internal(j2)] by {
            crate::shobu::lemma_r2i_inverse(j2);
        }
        if b2 == b {
            assert(h2 == 1 - h);
        }
    }
    let m: u64 = if bl {
        marker
    } else {
        0u64
    };
    let q0 = part_hash(boards, keys, 0, 0, spec_shift(x, y, 0));
    let q1 = part_hash(boards, keys, 0, 1, spec_shift(x, y, 1));
    let q2 = part_hash(boards, keys, 1, 0, spec_shift(x, y, 2));
    let q3 = part_hash(boards, keys, 1, 1, spec_shift(x, y, 3));
    let q4 = part_hash(boards, keys, 2, 0, spec_shift(x, y, 4));
    let q5 = part_hash(boards, keys, 2, 1, spec_shift(x, y, 5));
    let q6 = part_hash(boards, keys, 3, 0, spec_shift(x, y, 6));
    let q7 = part_hash(boards, keys, 3, 1, spec_shift(x, y, 7));
    let qq = part_hash(boards2, keys, b, h, sh);
    assert(qq == part_hash(boards, keys, b, h, sh) ^ o ^ w);
        if b == 0 && h == 0 {
            assert(scratch_hash(boards2, keys, marker, bl, x, y) == m ^ qq ^ q1 ^ q2 ^ q3 ^ q4 ^ q5 ^ q6 ^ q7);
            assert(m ^ qq ^ q1 ^ q2 ^ q3 ^ q4 ^ q5 ^ q6 ^ q7 == (m ^ q0 ^ q1 ^ q2 ^ q3 ^ q4 ^ q5 ^ q6 ^ q7) ^ o ^ w) by (bit_vector)
                requires
                    qq == q0 ^ o ^ w,
            ;
        }
        if b == 0 && h == 1 {
            assert(scratch_hash(boards2, keys, marker, bl, x, y) == m ^ q0 ^ qq ^ q2 ^ q3 ^ q4 ^ q5 ^ q6 ^ q7);
            assert(m ^ q0 ^ qq ^ q2 ^ q3 ^ q4 ^ q5 ^ q6 ^ q7 == (m ^ q0 ^ q1 ^ q2 ^ q3 ^ q4 ^ q5 ^ q6 ^ q7) ^ o ^ w) by (bit_vector)
                requires
                    qq == q1 ^ o ^ w,
            ;
        }
        if b == 1 && h == 0 {
            assert(scratch_hash(boards2, keys, marker, bl, x, y) == m ^ q0 ^ q1 ^ qq ^ q3 ^ q4 ^ q5 ^ q6 ^ q7);
            assert(m ^ q0 ^ q1 ^ qq ^ q3 ^ q4 ^ q5 ^ q6 ^ q7 == (m ^ q0 ^ q1 ^ q2 ^ q3 ^ q4 ^ q5 ^ q6 ^ q7) ^ o ^ w) by (bit_vector)
                requires
                    qq == q2 ^ o ^ w,
            ;
        }
        if b == 1 && h == 1 {
            assert(scratch_hash(boards2, keys, marker, bl, x, y) == m ^ q0 ^ q1 ^ q2 ^ qq ^ q4 ^ q5 ^ q6 ^ q7);
            assert(m ^ q0 ^ q1 ^ q2 ^ qq ^ q4 ^ q5 ^ q6 ^ q7 == (m ^ q0 ^ q1 ^ q2 ^ q3 ^ q4 ^ q5 ^ q6 ^ q7) ^ o ^ w) by (bit_vector)
                requires
                    qq == q3 ^ o ^ w,
            ;
        }
        if b == 2 && h == 0 {
            assert(scratch_hash(boards2, keys, marker, bl, x, y) == m ^ q0 ^ q1 ^ q2 ^ q3 ^ qq ^ q5 ^ q6 ^ q7);
            assert(m ^ q0 ^ q1 ^ q2 ^ q3 ^ qq ^ q5 ^ q6 ^ q7 == (m ^ q0 ^ q1 ^ q2 ^ q3 ^ q4 ^ q5 ^ q6 ^ q7) ^ o ^ w) by (bit_vector)
                requires
                    qq == q4 ^ o ^ w,
            ;
        }
        if b == 2 && h == 1 {
            assert(scratch_hash(boards2, keys, marker, bl, x, y) == m ^ q0 ^ q1 ^ q2 ^ q3 ^ q4 ^ qq ^ q6 ^ q7);
            assert(m ^ q0 ^ q1 ^ q2 ^ q3 ^ q4 ^ qq ^ q6 ^ q7 == (m ^ q0 ^ q1 ^ q2 ^ q3 ^ q4 ^ q5 ^ q6 ^ q7) ^ o ^ w) by (bit_vector)
                requires
                    qq == q5 ^ o ^ w,
            ;
        }
        if b == 3 && h == 0 {
            assert(scratch_hash(boards2, keys, marker, bl, x, y) == m ^ q0 ^ q1 ^ q2 ^ q3 ^ q4 ^ q5 ^ qq ^ q7);
            assert(m ^ q0 ^ q1 ^ q2 ^ q3 ^ q4 ^ q5 ^ qq ^ q7 == (m ^ q0 ^ q1 ^ q2 ^ q3 ^ q4 ^ q5 ^ q6 ^ q7) ^ o ^ w) by (bit_vector)
                requires
                    qq == q6 ^ o ^ w,
            ;
        }
        if b == 3 && h == 1 {
            assert(scratch_hash(boards2, keys, marker, bl, x, y) == m ^ q0 ^ q1 ^ q2 ^ q3 ^ q4 ^ q5 ^ q6 ^ qq);
            assert(m ^ q0 ^ q1 ^ q2 ^ q3 ^ q4 ^ q5 ^ q6 ^ qq == (m ^ q0 ^ q1 ^ q2 ^ q3 ^ q4 ^ q5 ^ q6 ^ q7) ^ o ^ w) by (bit_vector)
                requires
                    qq == q7 ^ o ^ w,
            ;
        }
}


/// One legal sub-move keeps the maintained hashes tracking the scratch
/// computation: the four event terms folded into every slot are exactly the
/// scratch difference of the board change.
#[verifier::rlimit(100)]
#[verifier::spinoff_prover]
pub proof fn lemma_sub_rel_tracked(
    pre: Shobu,
    post: Shobu,
    b: int,
    direction: i8,
    from: int,
    double: bool,
    init_black: bool,
)
    requires
        pre.wf(),
        0 <= b < 4,
        playable(from),
        is_direction(direction),
        pre.sub_legal(b, direction, from, double),
        Shobu::sub_rel(pre, post, b, direction, from, double),
        pre.tracked_hashes(init_black),
    ensures
        post.tracked_hashes(init_black),
{
    reveal(uterm);
    let keys = pre.piece_hash_vals;
    let marker = pre.black_active_hash;
    let bl = init_black;
    let a = pre.active_player;
    let opp = other(a);
    let brd = pre.boards[b];
    let to = from + spec_diff(direction, double);
    let mid = from + direction;
    let pf = bsub_pushed_from(brd, direction, from, double);
    let pt = bsub_pushed_to(brd, direction, from, double);
    let nb = bsub_board_after(brd, a, direction, from, double);
    assert(playable(to));
    assert(post.piece_hash_vals == keys && post.black_active_hash == marker);
    assert(is_stone(a));
    let has_mid = double && is_stone(brd[mid]);
    if has_mid {
        assert(playable(mid));
        assert(brd[mid] == opp);
        assert(pf == mid);
    }
    if pf != 0 {
        assert(playable(pf) && brd[pf] == opp);
        if pt != 0 {
            assert(pt == to + direction && playable(pt));
            assert(!is_stone(brd[pt]) && brd[pt] != MARGIN);
            assert(brd[pt] == EMPTY);
            assert(pt != mid && pt != from && pt != to);
        }
    }
    assert(to != from && mid != from);
    assert(double ==> to != mid);
    let g0 = pre.boards;
    let g1 = if has_mid {
        vstd::array::spec_array_update(g0, b, vstd::array::spec_array_update(g0[b], mid, EMPTY))
    } else {
        g0
    };
    let g2 = vstd::array::spec_array_update(g1, b, vstd::array::spec_array_update(g1[b], from, EMPTY));
    let g3 = vstd::array::spec_array_update(g2, b, vstd::array::spec_array_update(g2[b], to, a));
    let g4 = if pf != 0 && pt != 0 {
        vstd::array::spec_array_update(g3, b, vstd::array::spec_array_update(g3[b], pt, opp))
    } else {
        g3
    };
    assert forall|t: int| 0 <= t < 36 implies g4[b][t] == nb[t] by {}
    assert(g4[b] =~= nb);
    assert forall|b2: int, t: int| 0 <= b2 < 4 && b2 != b && 0 <= t < 36 implies g4[b2][t]
        == g0[b2][t] by {}
    assert forall|b2: int| 0 <= b2 < 4 implies g4[b2] =~= post.boards[b2] by {}
    assert(g4 =~= post.boards);
    assert forall|cs: int, hs: int| 0 <= cs < 2 && 0 <= hs < 2 implies #[trigger] post.hashes[cs][hs]
        == scratch_hash(post.boards, keys, marker, bl, hs, cs) by {
        let x = hs;
        let y = cs;
        let u_pf = uterm(keys, opp, b, pf, cs, hs);
        let u_pt = uterm(keys, opp, b, pt, cs, hs);
        let u_f = uterm(keys, a, b, from, cs, hs);
        let u_t = uterm(keys, a, b, to, cs, hs);
        let s0 = scratch_hash(g0, keys, marker, bl, x, y);
        assert(pre.hashes[cs][hs] == s0);
        assert(post.hashes[cs][hs] == pre.hashes[cs][hs] ^ u_pf ^ u_pt ^ u_f ^ u_t);
        if has_mid {
            lemma_scratch_one_cell(g0, b, mid, EMPTY, keys, marker, bl, x, y);
            assert(cell_term(keys, g0[b][mid], spec_internal_2_readable(mid), spec_shift(x, y, part_lane(b, mid))) == u_pf);
            assert(cell_term(keys, EMPTY, spec_internal_2_readable(mid), spec_shift(x, y, part_lane(b, mid))) == 0u64);
            assert(scratch_hash(g1, keys, marker, bl, x, y) == s0 ^ u_pf ^ 0u64);
        }
        lemma_scratch_one_cell(g1, b, from, EMPTY, keys, marker, bl, x, y);
        assert(g1[b][from] == a);
        assert(cell_term(keys, a, spec_internal_2_readable(from), spec_shift(x, y, part_lane(b, from))) == u_f);
        let s1 = scratch_hash(g1, keys, marker, bl, x, y);
        assert(scratch_hash(g2, keys, marker, bl, x, y) == s1 ^ u_f ^ 0u64);
        lemma_scratch_one_cell(g2, b, to, a, keys, marker, bl, x, y);
        assert(g2[b][to] == brd[to]);
        let old_to = cell_term(keys, brd[to], spec_internal_2_readable(to), spec_shift(x, y, part_lane(b, to)));
        assert(cell_term(keys, a, spec_internal_2_readable(to), spec_shift(x, y, part_lane(b, to))) == u_t);
        let s2 = scratch_hash(g2, keys, marker, bl, x, y);
        assert(scratch_hash(g3, keys, marker, bl, x, y) == s2 ^ old_to ^ u_t);
        let s3 = scratch_hash(g3, keys, marker, bl, x, y);
        let s4 = scratch_hash(g4, keys, marker, bl, x, y);
        if pf != 0 && pt != 0 {
            lemma_scratch_one_cell(g3, b, pt, opp, keys, marker, bl, x, y);
            assert(g3[b][pt] == EMPTY);
            assert(cell_term(keys, EMPTY, spec_internal_2_readable(pt), spec_shift(x, y, part_lane(b, pt))) == 0u64);
            assert(cell_term(keys, opp, spec_internal_2_readable(pt), spec_shift(x, y, part_lane(b, pt))) == u_pt);
            assert(s4 == s3 ^ 0u64 ^ u_pt);
        }
        assert(scratch_hash(post.boards, keys, marker, bl, x, y) == s4);
        if pf == 0 {
            lemma_uterm_zero(keys, opp, b, cs, hs);
            assert(u_pf == 0u64 && u_pt == 0u64);
            assert(!has_mid && old_to == 0u64);
            assert(s4 == ((s0 ^ u_f ^ 0u64) ^ 0u64 ^ u_t));
            assert(((s0 ^ u_f ^ 0u64) ^ 0u64 ^ u_t) == s0 ^ 0u64 ^ 0u64 ^ u_f ^ u_t) by (bit_vector);
        } else if has_mid {
            assert(old_to == 0u64);
            if pt != 0 {
                assert(s4 == ((((s0 ^ u_pf ^ 0u64) ^ u_f ^ 0u64) ^ 0u64 ^ u_t) ^ 0u64 ^ u_pt));
                assert(((((s0 ^ u_pf ^ 0u64) ^ u_f ^ 0u64) ^ 0u64 ^ u_t) ^ 0u64 ^ u_pt) == s0
                    ^ u_pf ^ u_pt ^ u_f ^ u_t) by (bit_vector);
            } else {
                lemma_uterm_zero(keys, opp, b, cs, hs);
                assert(u_pt == 0u64);
                assert(s4 == (((s0 ^ u_pf ^ 0u64) ^ u_f ^ 0u64) ^ 0u64 ^ u_t));
                assert((((s0 ^ u_pf ^ 0u64) ^ u_f ^ 0u64) ^ 0u64 ^ u_t) == s0 ^ u_pf ^ 0u64 ^ u_f
                    ^ u_t) by (bit_vector);
            }
        } else {
            assert(pf == to && brd[to] == opp);
            assert(old_to == u_pf);
            if pt != 0 {
                assert(s4 == (((s0 ^ u_f ^ 0u64) ^ u_pf ^ u_t) ^ 0u64 ^ u_pt));
                assert((((s0 ^ u_f ^ 0u64) ^ u_pf ^ u_t) ^ 0u64 ^ u_pt) == s0 ^ u_pf ^ u_pt ^ u_f
                    ^ u_t) by (bit_vector);
            } else {
                lemma_uterm_zero(keys, opp, b, cs, hs);
                assert(u_pt == 0u64);
                assert(s4 == ((s0 ^ u_f ^ 0u64) ^ u_pf ^ u_t));
                assert(((s0 ^ u_f ^ 0u64) ^ u_pf ^ u_t) == s0 ^ u_pf ^ 0u64 ^ u_f ^ u_t) by (bit_vector);
            }
        }
    }
}


/// Applying a legal move keeps the maintained hashes tracking the scratch
/// computation of the current boards: with the fresh-state law, every
/// position reached by play stays in step with the from-scratch hashes.
pub proof fn lemma_apply_tracked(pre: Shobu, post: Shobu, mv: Move, init_black: bool)
    requires
        pre.wf(),
        pre.move_legal(mv),
        Shobu::apply_rel(pre, post, mv),
        pre.tracked_hashes(init_black),
    ensures
        post.tracked_hashes(init_black),
{
    let (m1, m2) = choose|m1: Shobu, m2: Shobu|
        {
            &&& Shobu::sub_rel(pre, m1, mv.board_1 as int, mv.direction, mv.from_1 as int, mv.double)
            &&& #[trigger] Shobu::sub_rel(
                m1,
                m2,
                mv.board_2 as int,
                mv.direction,
                mv.from_2 as int,
                mv.double,
            )
            &&& post.boards == m2.boards
            &&& post.pieces == m2.pieces
            &&& post.winner == m2.winner
            &&& post.hashes == m2.hashes
        };
    let b1 = mv.board_1 as int;
    let b2 = mv.board_2 as int;
    assert(b1 != b2);
    lemma_sub_rel_tracked(pre, m1, b1, mv.direction, mv.from_1 as int, mv.double, init_black);
    lemma_sub_preserves_wf(pre, m1, b1, mv.direction, mv.from_1 as int, mv.double);
    assert(m1.boards[b2] == pre.boards[b2]);
    assert(m1.sub_legal(b2, mv.direction, mv.from_2 as int, mv.double));
    lemma_sub_rel_tracked(m1, m2, b2, mv.direction, mv.from_2 as int, mv.double, init_black);
    assert forall|cs: int, hs: int| 0 <= cs < 2 && 0 <= hs < 2 implies #[trigger] post.hashes[cs][hs]
        == scratch_hash(
        post.boards,
        post.piece_hash_vals,
        post.black_active_hash,
        init_black,
        hs,
        cs,
    ) by {
        assert(m2.hashes[cs][hs] == scratch_hash(
            m2.boards,
            m2.piece_hash_vals,
            m2.black_active_hash,
            init_black,
            hs,
            cs,
        ));
    }
}

/// Undoing a just-applied move restores tracking along with the position.
pub proof fn lemma_undo_tracked(pre: Shobu, mid: Shobu, post: Shobu, mv: Move, init_black: bool)
    requires
        pre.wf(),
        pre.move_legal(mv),
        pre.winner == 0,
        Shobu::apply_rel(pre, mid, mv),
        Shobu::undo_rel(mid, post),
        pre.tracked_hashes(init_black),
    ensures
        post.tracked_hashes(init_black),
{
    lemma_apply_undo(pre, mid, post, mv);
}


/// The combined hash of a tracked state is a pure function of the boards,
/// the player to move, the keys and the marker parity: it does not depend
/// on the path of moves that reached the position.
pub proof fn lemma_get_hash_path_independent(s1: Shobu, s2: Shobu, init_black: bool)
    requires
        s1.tracked_hashes(init_black),
        s2.tracked_hashes(init_black),
        s1.boards == s2.boards,
        s1.active_player == s2.active_player,
        s1.piece_hash_vals == s2.piece_hash_vals,
        s1.black_active_hash == s2.black_active_hash,
    ensures
        s1.spec_get_hash() == s2.spec_get_hash(),
        s1.spec_symmetry_hash(false, false) == s2.spec_symmetry_hash(false, false),
{
    assert(s1.hashes[0][0] == s2.hashes[0][0]);
    assert(s1.hashes[0][1] == s2.hashes[0][1]);
    assert(s1.hashes[1][0] == s2.hashes[1][0]);
    assert(s1.hashes[1][1] == s2.hashes[1][1]);
}

} // verus!
