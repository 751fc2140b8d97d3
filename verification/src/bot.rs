//! The playing engine: a static evaluator, a transposition table keyed on
//! canonical hashes, and a negamax search with alpha-beta pruning that must
//! hand the position back exactly as it found it.

use vstd::prelude::*;

use crate::shobu::{
    Shobu, same_position, lemma_legal_same_position, is_stone, playable, count4, pid, other,
    pieces_updated, bsub_board_after, bsub_pushed_from, bsub_pushed_to, NOT_ON_BOARD, BLACK, WHITE,
};
use crate::shobu_move::{Move, MoveExtended, internal_2_readable, spec_internal_2_readable, spec_diff};
use crate::symmetry::{self, spec_transposition_symmetries, spec_move_symmetric};
use crate::tt_entry::{Bound, TTEntry};

verus! {

/// An opaque transposition table backed by rustc_hash's FxHashMap from
/// canonical hashes to cached search results.
#[verifier::external_body]
pub struct TranspositionTable {
    map: rustc_hash::FxHashMap<u64, TTEntry>,
}

/// What the table holds, as a map from canonical hash to entry.
pub uninterp spec fn tt_contents(t: TranspositionTable) -> Map<u64, TTEntry>;

impl TranspositionTable {
    /// Relies on rustc_hash's `FxHashMap::default()`: it builds an empty map.
    #[verifier::external_body]
    pub fn new() -> (r: TranspositionTable)
        ensures
            tt_contents(r).dom() =~= Set::<u64>::empty(),
    {
        TranspositionTable { map: rustc_hash::FxHashMap::default() }
    }

    /// Relies on HashMap::insert through the FxHashMap alias: the key now
    /// maps to the value and nothing else changes.
    #[verifier::external_body]
    pub fn insert(&mut self, k: u64, v: TTEntry)
        ensures
            tt_contents(*final(self)) == tt_contents(*old(self)).insert(k, v),
    {
        self.map.insert(k, v);
    }

    /// Relies on HashMap::get through the FxHashMap alias: the entry the key
    /// maps to, if it maps to one.
    #[verifier::external_body]
    pub fn get(&self, k: u64) -> (r: Option<&TTEntry>)
        ensures
            match r {
                Some(v) => tt_contents(*self).contains_key(k) && *v == tt_contents(*self)[k],
                None => !tt_contents(*self).contains_key(k),
            },
    {
        self.map.get(&k)
    }
}

pub const MAX_DEPTH: usize = 3;

pub const INF: i64 = 1_000_000_000;

pub const WIN_EVAL: i64 = 100_000;

/// Elements stay contained when a sequence grows at the end.
pub proof fn lemma_contains_after_push(a: Seq<MoveExtended>, b: Seq<MoveExtended>)
    requires
        a.len() <= b.len(),
        forall|k: int| 0 <= k < a.len() ==> b[k] == #[trigger] a[k],
    ensures
        forall|e: MoveExtended| a.contains(e) ==> #[trigger] b.contains(e),
{
    assert forall|e: MoveExtended| a.contains(e) implies #[trigger] b.contains(e) by {
        let k0 = choose|i: int| 0 <= i < a.len() && #[trigger] a[i] == e;
        assert(b[k0] == e);
        assert(exists|i: int| 0 <= i < b.len() && #[trigger] b[i] == e);
    }
}

/// Elements stay contained when a sequence grows at the front.
pub proof fn lemma_contains_after_front(a: Seq<MoveExtended>, b: Seq<MoveExtended>)
    requires
        a.len() + 1 <= b.len(),
        forall|k: int| 0 <= k < a.len() ==> b[k + 1] == #[trigger] a[k],
    ensures
        forall|e: MoveExtended| a.contains(e) ==> #[trigger] b.contains(e),
{
    assert forall|e: MoveExtended| a.contains(e) implies #[trigger] b.contains(e) by {
        let k0 = choose|i: int| 0 <= i < a.len() && #[trigger] a[i] == e;
        assert(b[k0 + 1] == e);
        assert(exists|i: int| 0 <= i < b.len() && #[trigger] b[i] == e);
    }
}

/// Every move of the position's generated sequence occurs in `v`.
pub open spec fn contains_all_moves(v: Seq<MoveExtended>, s: Shobu) -> bool {
    forall|j: int|
        #![trigger s.spec_legal_moves()[j]]
        0 <= j < s.spec_legal_moves().len() ==> v.contains(s.spec_legal_moves()[j])
}

/// The score of a decided position: a large constant plus the remaining
/// depth, for the winner, against the player to move.
pub open spec fn win_score(s: Shobu, depth: int) -> int {
    (if s.winner == s.active_player {
        1int
    } else {
        -1int
    }) * (WIN_EVAL as int + depth)
}

/// The static evaluation oriented to the player to move.
pub open spec fn leaf_score(s: Shobu) -> int {
    (if s.active_player == BLACK {
        -1int
    } else {
        1int
    }) * spec_eval(s)
}

/// The position after a legal move, at specification level: both sub-moves
/// advanced on the boards, the rosters and winner mark updated, the turn
/// passed. The hash slots and history are carried unchanged; nothing the
/// game value reads depends on them.
pub open spec fn spec_apply(s: Shobu, mv: Move) -> Shobu {
    let a = s.active_player;
    let pa = pid(a);
    let po = pid(other(a));
    let d = spec_diff(mv.direction, mv.double);
    let b1 = mv.board_1 as int;
    let f1 = mv.from_1 as int;
    let t1 = f1 + d;
    let b2 = mv.board_2 as int;
    let f2 = mv.from_2 as int;
    let t2 = f2 + d;
    let brd1 = s.boards[b1];
    let brd2 = s.boards[b2];
    let pf1 = bsub_pushed_from(brd1, mv.direction, f1, mv.double);
    let pt1 = bsub_pushed_to(brd1, mv.direction, f1, mv.double);
    let pf2 = bsub_pushed_from(brd2, mv.direction, f2, mv.double);
    let pt2 = bsub_pushed_to(brd2, mv.direction, f2, mv.double);
    let boards2 = vstd::array::spec_array_update(
        vstd::array::spec_array_update(s.boards, b1, bsub_board_after(brd1, a, mv.direction, f1, mv.double)),
        b2,
        bsub_board_after(brd2, a, mv.direction, f2, mv.double),
    );
    let ps1 = if pf1 != 0 {
        pieces_updated(s.pieces, po, b1, pf1 as usize, pt1 as usize)
    } else {
        s.pieces
    };
    let ps2 = pieces_updated(ps1, pa, b1, mv.from_1, t1 as usize);
    let ps3 = if pf2 != 0 {
        pieces_updated(ps2, po, b2, pf2 as usize, pt2 as usize)
    } else {
        ps2
    };
    let ps4 = pieces_updated(ps3, pa, b2, mv.from_2, t2 as usize);
    let w1 = if pf1 != 0 && count4(ps1[po][b1]) == 0 {
        a
    } else {
        s.winner
    };
    let w2 = if pf2 != 0 && count4(ps3[po][b2]) == 0 {
        a
    } else {
        w1
    };
    Shobu {
        active_player: other(a),
        winner: w2,
        boards: boards2,
        pieces: ps4,
        history: s.history,
        hashes: s.hashes,
        piece_hash_vals: s.piece_hash_vals,
        black_active_hash: s.black_active_hash,
    }
}

/// The full-depth negamax value of a position: the won-position score, the
/// oriented static evaluation at depth zero, the no-move sentinel, or the
/// best negated value of a successor over every generated move.
pub open spec fn game_value(s: Shobu, depth: int) -> int
    decreases depth, s.spec_legal_moves().len() + 1,
{
    if s.winner != 0 {
        win_score(s, depth)
    } else if depth <= 0 {
        leaf_score(s)
    } else {
        let ms = s.spec_legal_moves();
        if ms.len() == 0 {
            -(INF as int)
        } else {
            game_value_list(s, ms, depth, ms.len() as int)
        }
    }
}

/// The best negated successor value among the first `i` generated moves.
pub open spec fn game_value_list(s: Shobu, ms: Seq<MoveExtended>, depth: int, i: int) -> int
    decreases depth, i,
{
    if i <= 0 || depth <= 0 {
        -(INF as int)
    } else {
        let prev = game_value_list(s, ms, depth, i - 1);
        let child = -game_value(spec_apply(s, ms[i - 1].mv), depth - 1);
        if child > prev {
            child
        } else {
            prev
        }
    }
}

/// Positional worth of a playable cell, in tenths: central cells are worth
/// more than edge cells.
pub open spec fn spec_pst(tile: int) -> int {
    let j = spec_internal_2_readable(tile);
    let r = j / 4;
    let c = j % 4;
    let dr: int = if r <= 1 {
        r
    } else {
        3 - r
    };
    let dc: int = if c <= 1 {
        c
    } else {
        3 - c
    };
    10 * (dr + dc)
}

/// Material worth of keeping `n` stones on one sub-board, in tenths: losing
/// stones is penalised ever more steeply towards elimination.
pub open spec fn spec_material(n: int) -> int {
    if n == 0 {
        -8000int
    } else if n == 1 {
        -300int
    } else if n == 2 {
        -100int
    } else if n == 3 {
        -30int
    } else {
        0int
    }
}

/// Piecewise-linear worth of a mobility count, in tenths: very low mobility
/// is penalised disproportionately, high mobility flattens out.
pub open spec fn spec_bms(m: int) -> int {
    if m < 7 {
        -100 + 7 * m
    } else if m < 13 {
        7 * m
    } else {
        84 + 5 * (m - 12)
    }
}

/// Positional worth of one roster, in tenths.
pub open spec fn roster_pst(r: [usize; 4]) -> int {
    (if r[0] != NOT_ON_BOARD {
        spec_pst(r[0] as int)
    } else {
        0int
    }) + (if r[1] != NOT_ON_BOARD {
        spec_pst(r[1] as int)
    } else {
        0int
    }) + (if r[2] != NOT_ON_BOARD {
        spec_pst(r[2] as int)
    } else {
        0int
    }) + (if r[3] != NOT_ON_BOARD {
        spec_pst(r[3] as int)
    } else {
        0int
    })
}

/// One player's worth on one sub-board: positional plus material terms.
pub open spec fn board_term(s: Shobu, p: int, b: int) -> int {
    roster_pst(s.pieces[p][b]) + spec_material(count4(s.pieces[p][b]))
}

/// One player's worth over all four sub-boards.
pub open spec fn side_total(s: Shobu, p: int) -> int {
    board_term(s, p, 0) + board_term(s, p, 1) + board_term(s, p, 2) + board_term(s, p, 3)
}

/// One player's mobility worth, measured on the two sub-boards that
/// constrain that player's forced board-pair choice.
pub open spec fn spec_mobility(s: Shobu, player: i8) -> int {
    if player == BLACK {
        spec_bms(s.count_passive(0, BLACK, 16)) + spec_bms(s.count_passive(1, BLACK, 16))
    } else {
        spec_bms(s.count_passive(2, WHITE, 16)) + spec_bms(s.count_passive(3, WHITE, 16))
    }
}

/// The static evaluation from white's perspective, in tenths.
pub open spec fn spec_eval(s: Shobu) -> int {
    side_total(s, 1) + spec_mobility(s, WHITE) - side_total(s, 0) - spec_mobility(s, BLACK)
}

fn pst_value(tile: usize) -> (r: i64)
    requires
        playable(tile as int),
    ensures
        r == spec_pst(tile as int),
        0 <= r <= 20,
{
    let j = internal_2_readable(tile);
    let row = j / 4;
    let col = j % 4;
    let dr: i64 = if row <= 1 {
        row as i64
    } else {
        3 - row as i64
    };
    let dc: i64 = if col <= 1 {
        col as i64
    } else {
        3 - col as i64
    };
    10 * (dr + dc)
}

fn material_value(n: usize) -> (r: i64)
    requires
        n <= 4,
    ensures
        r == spec_material(n as int),
        -8000 <= r <= 0,
{
    match n {
        0 => -8000,
        1 => -300,
        2 => -100,
        3 => -30,
        _ => 0,
    }
}

fn board_mobility_score(m: usize) -> (r: i64)
    requires
        m <= 16,
    ensures
        r == spec_bms(m as int),
        -100 <= r <= 104,
{
    if m < 7 {
        -100 + 7 * (m as i64)
    } else if m < 13 {
        7 * (m as i64)
    } else {
        84 + 5 * ((m as i64) - 12)
    }
}

/// The mobility counter stays within its sixteen combinations.
proof fn lemma_count_passive_bounds(s: Shobu, b: int, player: i8, n: int)
    requires
        n >= 0,
    ensures
        0 <= s.count_passive(b, player, n) <= n,
    decreases n,
{
    if n > 0 {
        lemma_count_passive_bounds(s, b, player, n - 1);
    }
}

pub struct ShobuBot {
    pub tt: TranspositionTable,
    pub max_depth: usize,
}

impl ShobuBot {
    /// The transposition table hashes deterministically, and every cached
    /// entry carries a bounded score and an indexable best move.
    pub open spec fn wf(self) -> bool {
        &&& 1 <= self.max_depth <= 64
        &&& forall|k: u64|
            tt_contents(self.tt).contains_key(k) ==> (-INF <= (#[trigger] tt_contents(
                self.tt,
            )[k]).eval <= INF && tt_contents(self.tt)[k].best_move.in_range())
    }

    pub fn new() -> (r: ShobuBot)
        ensures
            r.wf(),
            r.max_depth == MAX_DEPTH,
            tt_contents(r.tt) == Map::<u64, TTEntry>::empty(),
    {
        ShobuBot { tt: TranspositionTable::new(), max_depth: MAX_DEPTH }
    }

    fn mobility_score(&self, active_player: i8, position: &Shobu) -> (r: i64)
        requires
            position.wf(),
            is_stone(active_player),
        ensures
            r == spec_mobility(*position, active_player),
            -200 <= r <= 208,
    {
        let (m1, m2) = if active_player == BLACK {
            (
                position.available_passive_directions(0, BLACK),
                position.available_passive_directions(1, BLACK),
            )
        } else {
            (
                position.available_passive_directions(2, WHITE),
                position.available_passive_directions(3, WHITE),
            )
        };
        proof {
            lemma_count_passive_bounds(
                *position,
                if active_player == BLACK {
                    0int
                } else {
                    2int
                },
                active_player,
                16,
            );
            lemma_count_passive_bounds(
                *position,
                if active_player == BLACK {
                    1int
                } else {
                    3int
                },
                active_player,
                16,
            );
        }
        board_mobility_score(m1) + board_mobility_score(m2)
    }

    #[verifier::rlimit(100)]
    #[verifier::spinoff_prover]
    fn side_board_score(&self, position: &Shobu, player_id: usize, board_id: usize) -> (r: i64)
        requires
            position.wf(),
            player_id < 2,
            board_id < 4,
        ensures
            r == board_term(*position, player_id as int, board_id as int),
            -8000 <= r <= 80,
    {
        let roster = position.pieces[player_id][board_id];
        let mut material: usize = 0;
        let mut score: i64 = 0;
        if roster[0] != NOT_ON_BOARD {
            score = score + pst_value(roster[0]);
            material += 1;
        }
        if roster[1] != NOT_ON_BOARD {
            score = score + pst_value(roster[1]);
            material += 1;
        }
        if roster[2] != NOT_ON_BOARD {
            score = score + pst_value(roster[2]);
            material += 1;
        }
        if roster[3] != NOT_ON_BOARD {
            score = score + pst_value(roster[3]);
            material += 1;
        }
        score + material_value(material)
    }

    /// The heuristic score of the position from white's perspective:
    /// positional tables, a nonlinear material term, and mobility.
    pub fn eval(&self, position: &Shobu) -> (r: i64)
        requires
            position.wf(),
        ensures
            r == spec_eval(*position),
            -34_000 <= r <= 34_000,
    {
        let mut ev: i64 = 0;
        ev = ev - self.side_board_score(position, 0, 0);
        ev = ev - self.side_board_score(position, 0, 1);
        ev = ev - self.side_board_score(position, 0, 2);
        ev = ev - self.side_board_score(position, 0, 3);
        ev = ev - self.mobility_score(BLACK, position);
        ev = ev + self.side_board_score(position, 1, 0);
        ev = ev + self.side_board_score(position, 1, 1);
        ev = ev + self.side_board_score(position, 1, 2);
        ev = ev + self.side_board_score(position, 1, 3);
        ev = ev + self.mobility_score(WHITE, position);
        ev
    }
}


impl ShobuBot {
    /// The table's answer to a probe of this position at this depth: the
    /// entry stored under the combined hash, when it was searched at least
    /// as deep as wanted.
    pub open spec fn spec_probe(self, s: Shobu, depth: int) -> Option<(i64, Bound)> {
        let h = s.spec_get_hash();
        let m = tt_contents(self.tt);
        if m.contains_key(h) && m[h].depth >= depth {
            Some((m[h].eval, m[h].flag))
        } else {
            None
        }
    }

    /// Whether a probe answer ends a search over the window at once: an
    /// exact value always, a bound when it collapses the window.
    pub open spec fn probe_returns(p: Option<(i64, Bound)>, alpha: int, beta: int) -> bool {
        match p {
            Some(pair) => match pair.1 {
                Bound::Exact => true,
                Bound::Lower => (if alpha >= pair.0 as int {
                    alpha
                } else {
                    pair.0 as int
                }) >= beta,
                Bound::Upper => alpha >= (if beta <= pair.0 as int {
                    beta
                } else {
                    pair.0 as int
                }),
            },
            None => false,
        }
    }

    /// The cached result for the position's combined hash, exactly when one
    /// is present and was searched at least as deep as wanted.
    fn get_transposition(&self, position: &Shobu, depth: usize) -> (r: Option<(i64, Bound)>)
        requires
            self.wf(),
        ensures
            r == self.spec_probe(*position, depth as int),
            r matches Some(p) ==> -INF <= p.0 <= INF,
    {
        match self.tt.get(position.get_hash()) {
            Some(entry) => {
                if entry.depth >= depth {
                    Some((entry.eval, entry.flag))
                } else {
                    None
                }
            },
            None => None,
        }
    }

    /// The table's best move for this position, mapped back through the
    /// matching symmetry image, when a stored entry names one and the mapped
    /// move is legal here.
    pub open spec fn promoted_move(self, s: Shobu) -> Option<Move> {
        let m = tt_contents(self.tt);
        let h = s.spec_get_hash();
        if m.contains_key(h) {
            match spec_transposition_symmetries(s, m[h].variation_hash) {
                Some(cshs) => {
                    let mv = spec_move_symmetric(m[h].best_move, cshs.0, cshs.1);
                    if s.move_legal(mv) {
                        Some(mv)
                    } else {
                        None
                    }
                },
                None => None,
            }
        } else {
            None
        }
    }

    /// Legal moves with pushing moves first and, when the table knows a best
    /// move for this position, that move brought to the front: every legal
    /// move is in the result, every element is legal, the promoted table
    /// move (when one validates) stands first, and otherwise no pushing
    /// move follows a non-pushing one.
    fn moves_ordered(&self, position: &Shobu) -> (r: Vec<MoveExtended>)
        requires
            self.wf(),
            position.wf(),
        ensures
            forall|k: int| 0 <= k < r@.len() ==> position.gen_ok(#[trigger] r@[k]),
            contains_all_moves(r@, *position),
            self.promoted_move(*position) matches Some(mv) ==> r@.len() > 0 && r@[0].mv == mv,
            self.promoted_move(*position) is None ==> forall|k1: int, k2: int|
                0 <= k1 < k2 < r@.len() && ((#[trigger] r@[k2]).push_1 || r@[k2].push_2) ==> ((
                #[trigger] r@[k1]).push_1 || r@[k1].push_2),
    {
        let generated = position.get_legal_moves();
        let mut moves: Vec<MoveExtended> = Vec::new();
        let n = generated.len();
        for idx in 0..n
            invariant
                n == generated@.len(),
                position.wf(),
                generated@ == position.spec_legal_moves(),
                forall|k: int| 0 <= k < generated@.len() ==> position.gen_ok(#[trigger] generated@[k]),
                forall|k: int| 0 <= k < moves@.len() ==> position.gen_ok(#[trigger] moves@[k]),
                forall|k: int|
                    0 <= k < moves@.len() ==> (#[trigger] moves@[k]).push_1 || moves@[k].push_2,
                forall|j: int|
                    0 <= j < idx && ((#[trigger] generated@[j]).push_1 || generated@[j].push_2)
                        ==> moves@.contains(generated@[j]),
        {
            let ghost pre_moves = moves@;
            let me = &generated[idx];
            if me.push_1 || me.push_2 {
                moves.push(MoveExtended { mv: me.to_move(), push_1: me.push_1, push_2: me.push_2 });
            }
            proof {
                lemma_contains_after_push(pre_moves, moves@);
                if generated@[idx as int].push_1 || generated@[idx as int].push_2 {
                    assert(moves@[moves@.len() - 1] == generated@[idx as int]);
                    assert(moves@.contains(generated@[idx as int]));
                }
            }
        }
        let ghost push_count = moves@.len() as int;
        for idx in 0..n
            invariant
                n == generated@.len(),
                position.wf(),
                generated@ == position.spec_legal_moves(),
                forall|k: int| 0 <= k < generated@.len() ==> position.gen_ok(#[trigger] generated@[k]),
                forall|k: int| 0 <= k < moves@.len() ==> position.gen_ok(#[trigger] moves@[k]),
                0 <= push_count <= moves@.len(),
                forall|k: int|
                    0 <= k < push_count ==> (#[trigger] moves@[k]).push_1 || moves@[k].push_2,
                forall|k: int|
                    push_count <= k < moves@.len() ==> !((#[trigger] moves@[k]).push_1
                        || moves@[k].push_2),
                forall|j: int|
                    0 <= j < generated@.len() && ((#[trigger] generated@[j]).push_1
                        || generated@[j].push_2) ==> moves@.contains(generated@[j]),
                forall|j: int|
                    0 <= j < idx && !((#[trigger] generated@[j]).push_1 || generated@[j].push_2)
                        ==> moves@.contains(generated@[j]),
        {
            let ghost pre_moves = moves@;
            let me = &generated[idx];
            if !(me.push_1 || me.push_2) {
                moves.push(MoveExtended { mv: me.to_move(), push_1: me.push_1, push_2: me.push_2 });
            }
            proof {
                lemma_contains_after_push(pre_moves, moves@);
                if !(generated@[idx as int].push_1 || generated@[idx as int].push_2) {
                    assert(moves@[moves@.len() - 1] == generated@[idx as int]);
                    assert(moves@.contains(generated@[idx as int]));
                }
            }
        }
        match self.tt.get(position.get_hash()) {
            Some(entry) => {
                match symmetry::transposition_symmetries(position, entry) {
                    Some((color_swap, horizontal_swap)) => {
                        let tt_best = entry.best_move.to_symmetric(color_swap, horizontal_swap);
                        match position.validate_and_extend(&tt_best) {
                            Ok(mv) => {
                                let ghost before = moves@;
                                moves.insert(0, mv);
                                proof {
                                    assert(forall|k: int|
                                        0 <= k < before.len() ==> moves@[k + 1] == #[trigger] before[k]);
                                    lemma_contains_after_front(before, moves@);
                                    assert(self.promoted_move(*position) == Some(tt_best));
                                    assert(moves@[0].mv == tt_best);
                                }
                            },
                            Err(_) => {
                                proof {
                                    assert(self.promoted_move(*position) is None);
                                }
                            },
                        }
                    },
                    None => {
                        proof {
                            assert(self.promoted_move(*position) is None);
                        }
                    },
                }
            },
            None => {
                proof {
                    assert(self.promoted_move(*position) is None);
                }
            },
        }
        proof {
            assert(contains_all_moves(moves@, *position)) by {
                assert forall|j: int|
                    #![trigger (*position).spec_legal_moves()[j]]
                    0 <= j < (*position).spec_legal_moves().len() implies moves@.contains(
                    (*position).spec_legal_moves()[j],
                ) by {
                    assert(generated@[j] == (*position).spec_legal_moves()[j]);
                }
            }
        }
        moves
    }

    /// Negamax with alpha-beta pruning over the transposition table. The
    /// position comes back exactly as it went in; the score is a
    /// window-bounded value, classified and cached before returning.
    #[verifier::loop_isolation(false)]
    #[verifier::rlimit(100)]
    #[verifier::spinoff_prover]
    pub fn negamax(&mut self, position: &mut Shobu, depth: usize, alpha_prev: i64, beta_prev: i64, active_player: i8) -> (r: i64)
        requires
            old(self).wf(),
            old(position).wf(),
            depth <= 64,
            -INF <= alpha_prev <= INF,
            -INF <= beta_prev <= INF,
            is_stone(active_player),
        ensures
            final(self).wf(),
            final(self).max_depth == old(self).max_depth,
            final(position).wf(),
            same_position(*final(position), *old(position)),
            final(position).pieces == old(position).pieces,
            -INF <= r <= INF,
            ({
                let s0 = *old(position);
                let p = old(self).spec_probe(s0, depth as int);
                let returned = Self::probe_returns(p, alpha_prev as int, beta_prev as int);
                &&& returned ==> r == p.unwrap().0 && tt_contents(final(self).tt) == tt_contents(
                    old(self).tt,
                )
                &&& !returned && s0.winner != 0 ==> r as int == win_score(s0, depth as int)
                    && tt_contents(final(self).tt) == tt_contents(old(self).tt)
                &&& !returned && s0.winner == 0 && depth == 0 ==> r as int == leaf_score(s0)
                    && tt_contents(final(self).tt) == tt_contents(old(self).tt)
                &&& !returned && s0.winner == 0 && depth > 0 && !s0.has_legal_move() ==> r == -INF
                    && tt_contents(final(self).tt) == tt_contents(old(self).tt)
                &&& !returned && s0.winner == 0 && depth > 0 && s0.has_legal_move() ==> {
                    let m2 = tt_contents(final(self).tt);
                    let h = s0.spec_get_hash();
                    &&& m2.contains_key(h)
                    &&& m2[h].eval == r
                    &&& m2[h].depth == depth
                    &&& m2[h].variation_hash == s0.spec_symmetry_hash(false, false)
                    &&& s0.move_legal(m2[h].best_move)
                    &&& (p is None ==> m2[h].flag == (if r <= alpha_prev {
                        Bound::Upper
                    } else if r >= beta_prev {
                        Bound::Lower
                    } else {
                        Bound::Exact
                    }))
                }
            }),
        decreases depth,
    {
        let mut alpha = alpha_prev;
        let mut beta = beta_prev;
        match self.get_transposition(position, depth) {
            Some((entry_eval, flag)) => {
                match flag {
                    Bound::Exact => {
                        return entry_eval;
                    },
                    Bound::Lower => {
                        alpha = if alpha >= entry_eval {
                            alpha
                        } else {
                            entry_eval
                        };
                    },
                    Bound::Upper => {
                        beta = if beta <= entry_eval {
                            beta
                        } else {
                            entry_eval
                        };
                    },
                }
                if alpha >= beta {
                    return entry_eval;
                }
            },
            None => (),
        }
        if position.winner != 0 {
            let sign: i64 = if position.winner == position.active_player {
                1
            } else {
                -1
            };
            return sign * (WIN_EVAL + depth as i64);
        }
        if depth == 0 {
            let sign: i64 = if position.active_player == BLACK {
                -1
            } else {
                1
            };
            return sign * self.eval(position);
        }
        let moves = self.moves_ordered(position);
        proof {
            position.lemma_has_legal_move_iff();
            if moves@.len() == 0 {
                if position.spec_legal_moves().len() > 0 {
                    assert(moves@.contains(position.spec_legal_moves()[0]));
                }
            } else {
                assert(position.gen_ok(moves@[0]));
                assert(position.move_legal(moves@[0].mv));
            }
        }
        if moves.len() == 0 {
            // a position with no legal move: treated as no improving move found
            return -INF;
        }
        let ghost p0 = *position;
        let mut best_eval: i64 = -INF;
        let mut best_move_idx: usize = 0;
        let mut i: usize = 0;
        while i < moves.len()
            invariant
                self.wf(),
                self.max_depth == old(self).max_depth,
                position.wf(),
                same_position(*position, p0),
                position.pieces == p0.pieces,
                p0.winner == 0,
                forall|k: int| 0 <= k < moves@.len() ==> p0.gen_ok(#[trigger] moves@[k]),
                best_move_idx < moves@.len(),
                i <= moves@.len(),
                -INF <= best_eval <= INF,
                -INF <= alpha <= INF,
                -INF <= beta <= INF,
            decreases moves@.len() - i,
        {
            let ghost pre_node = *position;
            let saved_boards = position.boards;
            let saved_pieces = position.pieces;
            let saved_hashes = position.hashes;
            let saved_active = position.active_player;
            let saved_winner = position.winner;
            proof {
                lemma_legal_same_position(p0, pre_node, moves@[i as int].mv);
            }
            position.make_move_unsafe(&moves[i].mv);
            let eval = -self.negamax(position, depth - 1, -beta, -alpha, -active_player);
            position.boards = saved_boards;
            position.pieces = saved_pieces;
            position.hashes = saved_hashes;
            position.active_player = saved_active;
            position.winner = saved_winner;
            let _ = position.history.pop();
            proof {
                assert(position.history@ == pre_node.history@);
                assert(position.wf());
            }
            if eval > best_eval {
                best_eval = eval;
                best_move_idx = i;
            }
            alpha = if alpha >= best_eval {
                alpha
            } else {
                best_eval
            };
            if alpha >= beta {
                i += 1;
                break ;
            }
            i += 1;
        }
        let flag = if best_eval <= alpha_prev {
            Bound::Upper
        } else if best_eval >= beta {
            Bound::Lower
        } else {
            Bound::Exact
        };
        let stored_move = moves[best_move_idx].to_move();
        let new_entry = TTEntry::new(
            position.get_symmetry_hash(false, false),
            best_eval,
            flag,
            depth,
            stored_move,
        );
        self.tt.insert(position.get_hash(), new_entry);
        best_eval
    }

    /// Search every legal root move to the configured depth and return the
    /// best one; a position without legal moves yields the fallback move, a
    /// case the rules leave open.
    #[verifier::loop_isolation(false)]
    pub fn choose_move(&mut self, position: &mut Shobu) -> (r: Move)
        requires
            old(self).wf(),
            old(position).wf(),
            old(position).winner == 0,
        ensures
            final(self).wf(),
            final(self).max_depth == old(self).max_depth,
            final(position).wf(),
            same_position(*final(position), *old(position)),
            final(position).pieces == old(position).pieces,
            r.in_range(),
            old(position).has_legal_move() ==> old(position).move_legal(r),
            !old(position).has_legal_move() ==> r == fallback_move(),
    {
        let moves = position.get_legal_moves();
        proof {
            position.lemma_has_legal_move_iff();
            if moves@.len() > 0 {
                assert(position.gen_ok(moves@[0]));
                assert(position.move_legal(moves@[0].mv));
            }
        }
        if moves.len() == 0 {
            return Move {
                board_1: 0,
                board_2: 1,
                direction: -6,
                from_1: 25,
                from_2: 25,
                double: false,
            };
        }
        let ghost p0 = *position;
        let mut best_move: usize = 0;
        let mut best_eval: i64 = -INF - 1;
        let mut i: usize = 0;
        while i < moves.len()
            invariant
                self.wf(),
                self.max_depth == old(self).max_depth,
                position.wf(),
                same_position(*position, p0),
                position.pieces == p0.pieces,
                p0 == *old(position),
                p0.winner == 0,
                moves@.len() > 0,
                forall|k: int| 0 <= k < moves@.len() ==> p0.gen_ok(#[trigger] moves@[k]),
                best_move < moves@.len(),
                i <= moves@.len(),
            decreases moves@.len() - i,
        {
            let ghost pre_node = *position;
            let saved_boards = position.boards;
            let saved_pieces = position.pieces;
            let saved_hashes = position.hashes;
            let saved_active = position.active_player;
            let saved_winner = position.winner;
            proof {
                lemma_legal_same_position(p0, pre_node, moves@[i as int].mv);
            }
            position.make_move_unsafe(&moves[i].mv);
            let depth = self.max_depth - 1;
            let next_player = position.active_player;
            let eval = -self.negamax(position, depth, -INF, INF, next_player);
            position.boards = saved_boards;
            position.pieces = saved_pieces;
            position.hashes = saved_hashes;
            position.active_player = saved_active;
            position.winner = saved_winner;
            let _ = position.history.pop();
            proof {
                assert(position.history@ == pre_node.history@);
                assert(position.wf());
            }
            if eval > best_eval {
                best_eval = eval;
                best_move = i;
            }
            i += 1;
        }
        proof {
            lemma_legal_same_position(p0, *old(position), moves@[best_move as int].mv);
        }
        moves[best_move].mv.deep_copy()
    }

    /// Plain negamax over the full window, with no pruning, ordering or
    /// caching: the reference the pruned search must agree with.
    #[verifier::loop_isolation(false)]
    #[verifier::rlimit(100)]
    #[verifier::spinoff_prover]
    pub fn negamax_plain(&self, position: &mut Shobu, depth: usize) -> (r: i64)
        requires
            self.wf(),
            old(position).wf(),
            depth <= 64,
        ensures
            final(position).wf(),
            same_position(*final(position), *old(position)),
            final(position).pieces == old(position).pieces,
            -INF <= r <= INF,
            r as int == game_value(*old(position), depth as int),
        decreases depth,
    {
        if position.winner != 0 {
            let sign: i64 = if position.winner == position.active_player {
                1
            } else {
                -1
            };
            return sign * (WIN_EVAL + depth as i64);
        }
        if depth == 0 {
            let sign: i64 = if position.active_player == BLACK {
                -1
            } else {
                1
            };
            return sign * self.eval(position);
        }
        let moves = position.get_legal_moves();
        proof {
            position.lemma_has_legal_move_iff();
            if moves@.len() > 0 {
                assert(position.gen_ok(moves@[0]));
                assert(position.move_legal(moves@[0].mv));
            }
        }
        if moves.len() == 0 {
            return -INF;
        }
        let ghost p0 = *position;
        let mut best_eval: i64 = -INF;
        let mut i: usize = 0;
        while i < moves.len()
            invariant
                self.wf(),
                position.wf(),
                same_position(*position, p0),
                position.pieces == p0.pieces,
                p0.winner == 0,
                depth > 0,
                moves@ == p0.spec_legal_moves(),
                forall|k: int| 0 <= k < moves@.len() ==> p0.gen_ok(#[trigger] moves@[k]),
                i <= moves@.len(),
                -INF <= best_eval <= INF,
                best_eval as int == game_value_list(p0, moves@, depth as int, i as int),
            decreases moves@.len() - i,
        {
            let ghost pre_node = *position;
            let saved_boards = position.boards;
            let saved_pieces = position.pieces;
            let saved_hashes = position.hashes;
            let saved_active = position.active_player;
            let saved_winner = position.winner;
            proof {
                lemma_legal_same_position(p0, pre_node, moves@[i as int].mv);
            }
            position.make_move_unsafe(&moves[i].mv);
            let ghost mid = *position;
            let eval = -self.negamax_plain(position, depth - 1);
            position.boards = saved_boards;
            position.pieces = saved_pieces;
            position.hashes = saved_hashes;
            position.active_player = saved_active;
            position.winner = saved_winner;
            let _ = position.history.pop();
            proof {
                assert(position.history@ == pre_node.history@);
                assert(position.wf());
                let mvg = moves@[i as int].mv;
                lemma_apply_rel_spec_apply(pre_node, mid, mvg);
                let t0 = spec_apply(p0, mvg);
                let tn = spec_apply(pre_node, mvg);
                assert(tn.boards == t0.boards && tn.pieces == t0.pieces && tn.active_player
                    == t0.active_player && tn.winner == t0.winner);
                lemma_game_value_core(mid, t0, depth as int - 1);
                assert(eval as int == -game_value(t0, depth as int - 1));
                assert(game_value_list(p0, moves@, depth as int, i as int + 1) == (if eval as int
                    > game_value_list(p0, moves@, depth as int, i as int) {
                    eval as int
                } else {
                    game_value_list(p0, moves@, depth as int, i as int)
                }));
            }
            if eval > best_eval {
                best_eval = eval;
            }
            i += 1;
        }
        proof {
            assert(game_value(p0, depth as int) == game_value_list(
                p0,
                moves@,
                depth as int,
                moves@.len() as int,
            ));
        }
        best_eval
    }

    /// Root search over the unpruned reference negamax.
    #[verifier::loop_isolation(false)]
    #[verifier::rlimit(100)]
    #[verifier::spinoff_prover]
    pub fn choose_move_unpruned(&self, position: &mut Shobu) -> (r: Move)
        requires
            self.wf(),
            old(position).wf(),
            old(position).winner == 0,
        ensures
            final(position).wf(),
            same_position(*final(position), *old(position)),
            final(position).pieces == old(position).pieces,
            r.in_range(),
            old(position).has_legal_move() ==> old(position).move_legal(r),
            !old(position).has_legal_move() ==> r == fallback_move(),
            old(position).has_legal_move() ==> ({
                let s = *old(position);
                let ms = s.spec_legal_moves();
                let d = self.max_depth as int - 1;
                exists|k: int|
                    #![trigger ms[k]]
                    0 <= k < ms.len() && r == ms[k].mv && (forall|j: int|
                        0 <= j < ms.len() ==> -game_value(spec_apply(s, (#[trigger] ms[j]).mv), d)
                            <= -game_value(spec_apply(s, ms[k].mv), d)) && (forall|j: int|
                        0 <= j < k ==> -game_value(spec_apply(s, (#[trigger] ms[j]).mv), d)
                            < -game_value(spec_apply(s, ms[k].mv), d))
            }),
    {
        let moves = position.get_legal_moves();
        proof {
            position.lemma_has_legal_move_iff();
            if moves@.len() > 0 {
                assert(position.gen_ok(moves@[0]));
                assert(position.move_legal(moves@[0].mv));
            }
        }
        if moves.len() == 0 {
            return Move {
                board_1: 0,
                board_2: 1,
                direction: -6,
                from_1: 25,
                from_2: 25,
                double: false,
            };
        }
        let ghost p0 = *position;
        let ghost d = self.max_depth as int - 1;
        let mut best_move: usize = 0;
        let mut best_eval: i64 = -INF - 1;
        let mut i: usize = 0;
        while i < moves.len()
            invariant
                self.wf(),
                position.wf(),
                same_position(*position, p0),
                position.pieces == p0.pieces,
                p0 == *old(position),
                p0.winner == 0,
                moves@.len() > 0,
                moves@ == p0.spec_legal_moves(),
                d == self.max_depth as int - 1,
                forall|k: int| 0 <= k < moves@.len() ==> p0.gen_ok(#[trigger] moves@[k]),
                best_move < moves@.len(),
                i <= moves@.len(),
                i == 0 ==> best_move == 0 && best_eval == -INF - 1,
                i > 0 ==> best_move < i && best_eval as int == -game_value(
                    spec_apply(p0, moves@[best_move as int].mv),
                    d,
                ),
                i > 0 ==> forall|j: int|
                    0 <= j < i ==> -game_value(spec_apply(p0, (#[trigger] moves@[j]).mv), d)
                        <= best_eval as int,
                i > 0 ==> forall|j: int|
                    0 <= j < best_move ==> -game_value(spec_apply(p0, (#[trigger] moves@[j]).mv), d)
                        < best_eval as int,
            decreases moves@.len() - i,
        {
            let ghost pre_node = *position;
            let saved_boards = position.boards;
            let saved_pieces = position.pieces;
            let saved_hashes = position.hashes;
            let saved_active = position.active_player;
            let saved_winner = position.winner;
            proof {
                lemma_legal_same_position(p0, pre_node, moves@[i as int].mv);
            }
            position.make_move_unsafe(&moves[i].mv);
            let ghost mid = *position;
            let depth = self.max_depth - 1;
            let eval = -self.negamax_plain(position, depth);
            position.boards = saved_boards;
            position.pieces = saved_pieces;
            position.hashes = saved_hashes;
            position.active_player = saved_active;
            position.winner = saved_winner;
            let _ = position.history.pop();
            proof {
                assert(position.history@ == pre_node.history@);
                assert(position.wf());
                let mvg = moves@[i as int].mv;
                lemma_apply_rel_spec_apply(pre_node, mid, mvg);
                let t0 = spec_apply(p0, mvg);
                let tn = spec_apply(pre_node, mvg);
                assert(tn.boards == t0.boards && tn.pieces == t0.pieces && tn.active_player
                    == t0.active_player && tn.winner == t0.winner);
                lemma_game_value_core(mid, t0, d);
                assert(eval as int == -game_value(t0, d));
            }
            if eval > best_eval {
                best_eval = eval;
                best_move = i;
            }
            i += 1;
        }
        proof {
            lemma_legal_same_position(p0, *old(position), moves@[best_move as int].mv);
            let ms = p0.spec_legal_moves();
            assert(0 <= best_move < ms.len() && (forall|j: int|
                0 <= j < ms.len() ==> -game_value(spec_apply(p0, (#[trigger] ms[j]).mv), d)
                    <= -game_value(spec_apply(p0, ms[best_move as int].mv), d)) && (forall|j: int|
                0 <= j < best_move ==> -game_value(spec_apply(p0, (#[trigger] ms[j]).mv), d)
                    < -game_value(spec_apply(p0, ms[best_move as int].mv), d)));
        }
        moves[best_move].mv.deep_copy()
    }
}

/// The documented fallback when the root position has no legal move at all.
pub open spec fn fallback_move() -> Move {
    Move { board_1: 0, board_2: 1, direction: -6i8, from_1: 25, from_2: 25, double: false }
}


/// Applying a legal move takes the position's board, roster, winner and
/// turn fields to exactly the specification-level successor's.
pub proof fn lemma_apply_rel_spec_apply(pre: Shobu, post: Shobu, mv: Move)
    requires
        pre.wf(),
        pre.move_legal(mv),
        Shobu::apply_rel(pre, post, mv),
    ensures
        post.boards == spec_apply(pre, mv).boards,
        post.pieces == spec_apply(pre, mv).pieces,
        post.winner == spec_apply(pre, mv).winner,
        post.active_player == spec_apply(pre, mv).active_player,
{
    let (m1, m2) = choose|m1: Shobu, m2: Shobu|
        {
            &&& Shobu::sub_rel(pre, m1, mv.board_1 as int, mv.direction, mv.from_1 as int, mv.double)
            &&& #[trigger] Shobu::sub_rel(
                m1,
                m2,
                mv.board_2 as int,
                mv.direction,
                mv.from_2 as int,
                mv.double,
            )
            &&& post.boards == m2.boards
            &&& post.pieces == m2.pieces
            &&& post.winner == m2.winner
            &&& post.hashes == m2.hashes
        };
    let b1 = mv.board_1 as int;
    let b2 = mv.board_2 as int;
    assert(b1 != b2);
    assert(m1.boards[b2] == pre.boards[b2]);
    assert(m1.active_player == pre.active_player);
    assert(post.boards == spec_apply(pre, mv).boards);
    assert(post.pieces == spec_apply(pre, mv).pieces);
    assert(post.winner == spec_apply(pre, mv).winner);
}


/// Two states with the same boards, rosters and turn generate the same
/// scan sequence.
proof fn lemma_gen_core(s1: Shobu, s2: Shobu, b1: int, b2: int, n: int)
    requires
        s1.boards == s2.boards,
        s1.pieces == s2.pieces,
        s1.active_player == s2.active_player,
        0 <= n <= 256,
    ensures
        s1.gen_pair_seq(b1, b2, n) == s2.gen_pair_seq(b1, b2, n),
    decreases n,
{
    reveal(Shobu::gen_candidate);
    if n > 0 {
        lemma_gen_core(s1, s2, b1, b2, n - 1);
        assert(s1.gen_candidate(b1, b2, n - 1) == s2.gen_candidate(b1, b2, n - 1));
    }
}

/// Two such states also have the same legal-move sequence.
proof fn lemma_legal_moves_core(s1: Shobu, s2: Shobu)
    requires
        s1.boards == s2.boards,
        s1.pieces == s2.pieces,
        s1.active_player == s2.active_player,
    ensures
        s1.spec_legal_moves() == s2.spec_legal_moves(),
{
    lemma_gen_core(s1, s2, 0, 3, 256);
    lemma_gen_core(s1, s2, 1, 2, 256);
    lemma_gen_core(s1, s2, 0, 1, 256);
    lemma_gen_core(s1, s2, 2, 3, 256);
}

/// And the same mobility counts.
proof fn lemma_count_passive_core(s1: Shobu, s2: Shobu, b: int, player: i8, n: int)
    requires
        s1.boards == s2.boards,
        s1.pieces == s2.pieces,
    ensures
        s1.count_passive(b, player, n) == s2.count_passive(b, player, n),
    decreases n,
{
    if n > 0 {
        lemma_count_passive_core(s1, s2, b, player, n - 1);
        assert(s1.passive_dir_ok(b, player, (n - 1) / 8 + 1, (n - 1) % 8) == s2.passive_dir_ok(
            b,
            player,
            (n - 1) / 8 + 1,
            (n - 1) % 8,
        ));
    }
}

/// The game value reads only the boards, rosters, winner and turn.
pub proof fn lemma_game_value_core(s1: Shobu, s2: Shobu, depth: int)
    requires
        s1.boards == s2.boards,
        s1.pieces == s2.pieces,
        s1.active_player == s2.active_player,
        s1.winner == s2.winner,
    ensures
        game_value(s1, depth) == game_value(s2, depth),
    decreases depth, s1.spec_legal_moves().len() + 2,
{
    lemma_legal_moves_core(s1, s2);
    if s1.winner != 0 {
    } else if depth <= 0 {
        lemma_count_passive_core(s1, s2, 0, BLACK, 16);
        lemma_count_passive_core(s1, s2, 1, BLACK, 16);
        lemma_count_passive_core(s1, s2, 2, WHITE, 16);
        lemma_count_passive_core(s1, s2, 3, WHITE, 16);
        assert(spec_eval(s1) == spec_eval(s2));
    } else {
        let ms = s1.spec_legal_moves();
        if ms.len() > 0 {
            lemma_game_value_list_core(s1, s2, ms, depth, ms.len() as int);
        }
    }
}

/// The prefix maxima agree too.
proof fn lemma_game_value_list_core(s1: Shobu, s2: Shobu, ms: Seq<MoveExtended>, depth: int, i: int)
    requires
        s1.boards == s2.boards,
        s1.pieces == s2.pieces,
        s1.active_player == s2.active_player,
        s1.winner == s2.winner,
    ensures
        game_value_list(s1, ms, depth, i) == game_value_list(s2, ms, depth, i),
    decreases depth, i,
{
    if i > 0 && depth > 0 {
        lemma_game_value_list_core(s1, s2, ms, depth, i - 1);
        let t1 = spec_apply(s1, ms[i - 1].mv);
        let t2 = spec_apply(s2, ms[i - 1].mv);
        assert(t1.boards == t2.boards && t1.pieces == t2.pieces && t1.active_player
            == t2.active_player && t1.winner == t2.winner);
        lemma_game_value_core(t1, t2, depth - 1);
    }
}

} // verus!
