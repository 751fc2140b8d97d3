//! Moves: the unordered pair of sub-boards, a direction, a step multiplier
//! and the two origin cells, plus the push-annotated extension used by move
//! generation and notation.

use vstd::prelude::*;

use crate::shobu::{playable, is_direction, is_stone, direction_at, BLACK};

verus! {

pub struct Move {
    pub board_1: usize,
    pub board_2: usize,
    pub direction: i8,
    pub from_1: usize,
    pub from_2: usize,
    pub double: bool,
}

pub struct MoveExtended {
    pub mv: Move,
    pub push_1: bool,
    pub push_2: bool,
}

pub proof fn lemma_digit_run_nonneg(s: Seq<char>, i: int)
    ensures
        digit_run_len(s, i) >= 0,
    decreases s.len() - i,
{
    if 0 <= i < s.len() && is_digit(s[i]) {
        lemma_digit_run_nonneg(s, i + 1);
    }
}

impl Move {
    /// Field ranges under which the rules engine can index boards and cells.
    pub open spec fn in_range(self) -> bool {
        &&& self.board_1 < 4
        &&& self.board_2 < 4
        &&& playable(self.from_1 as int)
        &&& playable(self.from_2 as int)
        &&& is_direction(self.direction)
    }

    pub fn deep_copy(&self) -> (r: Move)
        ensures
            r == *self,
    {
        Move {
            board_1: self.board_1,
            board_2: self.board_2,
            direction: self.direction,
            from_1: self.from_1,
            from_2: self.from_2,
            double: self.double,
        }
    }
}

/// Cell offset of one step (or two, for a double step) in a direction.
pub open spec fn spec_diff(direction: i8, double: bool) -> int {
    if double {
        2 * direction
    } else {
        direction as int
    }
}

pub fn diff(direction: i8, double: bool) -> (r: i8)
    requires
        is_direction(direction),
    ensures
        r as int == spec_diff(direction, double),
{
    if double {
        2 * direction
    } else {
        direction
    }
}

/// Human-readable cell index (row-major 0..16) to padded-grid cell index.
pub open spec fn spec_readable_2_internal(tile: int) -> int {
    7 + 6 * (tile / 4) + tile % 4
}

/// Padded-grid cell index to human-readable cell index.
pub open spec fn spec_internal_2_readable(tile: int) -> int {
    tile - 2 * ((tile - 7) / 6) - 7
}

pub proof fn lemma_tile_conversions(tile: int)
    requires
        playable(tile),
    ensures
        0 <= spec_internal_2_readable(tile) < 16,
        spec_readable_2_internal(spec_internal_2_readable(tile)) == tile,
{
}

pub fn readable_2_internal(tile: usize) -> (r: usize)
    requires
        tile < 16,
    ensures
        r as int == spec_readable_2_internal(tile as int),
        playable(r as int),
{
    7 + 6 * (tile / 4) + tile % 4
}

pub fn internal_2_readable(tile: usize) -> (r: usize)
    requires
        7 <= tile,
    ensures
        r as int == spec_internal_2_readable(tile as int),
        playable(tile as int) ==> r < 16,
{
    tile - 2 * ((tile - 7) / 6) - 7
}

impl MoveExtended {
    pub fn new(mv: &Move, push_1: bool, push_2: bool) -> (r: MoveExtended)
        ensures
            r.mv == *mv,
            r.push_1 == push_1,
            r.push_2 == push_2,
    {
        MoveExtended { mv: mv.deep_copy(), push_1, push_2 }
    }

    pub fn to_move(&self) -> (r: Move)
        ensures
            r == self.mv,
    {
        Move {
            board_1: self.mv.board_1,
            board_2: self.mv.board_2,
            direction: self.mv.direction,
            from_1: self.mv.from_1,
            from_2: self.mv.from_2,
            double: self.mv.double,
        }
    }
}


fn is_upper_at(s: &str, i: usize) -> (r: bool)
    requires
        i < s@.len(),
    ensures
        r == is_upper(s@[i as int]),
{
    let c = s.get_char(i);
    'A' <= c && c <= 'Z'
}

fn is_digit_at(s: &str, i: usize) -> (r: bool)
    requires
        i < s@.len(),
    ensures
        r == is_digit(s@[i as int]),
{
    let c = s.get_char(i);
    '0' <= c && c <= '9'
}

pub open spec fn is_upper(c: char) -> bool {
    'A' <= c <= 'Z'
}

pub open spec fn is_digit(c: char) -> bool {
    '0' <= c <= '9'
}

/// Length of the run of capital letters starting at `i`.
pub open spec fn upper_run_len(s: Seq<char>, i: int) -> int
    decreases s.len() - i,
{
    if 0 <= i < s.len() && is_upper(s[i]) {
        1 + upper_run_len(s, i + 1)
    } else {
        0
    }
}

/// Length of the run of decimal digits starting at `i`.
pub open spec fn digit_run_len(s: Seq<char>, i: int) -> int
    decreases s.len() - i,
{
    if 0 <= i < s.len() && is_digit(s[i]) {
        1 + digit_run_len(s, i + 1)
    } else {
        0
    }
}

/// Value of the `n` digits starting at `i`.
pub open spec fn digits_value(s: Seq<char>, i: int, n: int) -> int
    decreases n,
{
    if n <= 0 {
        0
    } else {
        digits_value(s, i, n - 1) * 10 + (s[i + n - 1] as int - '0' as int)
    }
}

/// Identifier of a direction code given as a run of `n` capitals at `i`,
/// or -1 when the run is no code.
pub open spec fn direction_code_id(s: Seq<char>, i: int, n: int) -> int {
    if n == 1 {
        if s[i] == 'U' {
            0int
        } else if s[i] == 'R' {
            2int
        } else if s[i] == 'D' {
            4int
        } else if s[i] == 'L' {
            6int
        } else {
            -1int
        }
    } else if n == 2 {
        if s[i] == 'U' && s[i + 1] == 'R' {
            1int
        } else if s[i] == 'D' && s[i + 1] == 'R' {
            3int
        } else if s[i] == 'D' && s[i + 1] == 'L' {
            5int
        } else if s[i] == 'U' && s[i + 1] == 'L' {
            7int
        } else {
            -1int
        }
    } else {
        -1int
    }
}

/// The parse of a textual move for the given active player: an optional
/// leading step doubler, a direction code, the passive sub-board colour and
/// cell, the home-or-far flag, and the second cell. Junk after the last
/// digit run is ignored; anything else malformed parses to `None`.
pub open spec fn spec_move_from_string(s: Seq<char>, active: i8) -> Option<Move> {
    let dbl = s.len() > 0 && s[0] == '2';
    let i0: int = if dbl {
        1
    } else {
        0
    };
    let ul = upper_run_len(s, i0);
    let did = direction_code_id(s, i0, ul);
    if did < 0 {
        None
    } else {
        let i1 = i0 + ul;
        if i1 >= s.len() {
            None
        } else {
            let b1: int = if s[i1] == 'b' {
                1 + active as int
            } else {
                2 + active as int
            };
            let i2 = i1 + 1;
            let dl1 = digit_run_len(s, i2);
            let n1 = digits_value(s, i2, dl1);
            if dl1 == 0 || n1 >= 16 {
                None
            } else {
                let i3 = i2 + dl1;
                if i3 >= s.len() {
                    None
                } else {
                    let b2: int = if s[i3] == 'h' {
                        if active == BLACK {
                            1 - b1
                        } else {
                            5 - b1
                        }
                    } else {
                        3 - b1
                    };
                    let i4 = i3 + 1;
                    let dl2 = digit_run_len(s, i4);
                    let n2 = digits_value(s, i4, dl2);
                    if dl2 == 0 || n2 >= 16 {
                        None
                    } else {
                        Some(
                            Move {
                                board_1: b1 as usize,
                                board_2: b2 as usize,
                                direction: crate::shobu::DIRECTIONS[did] as i8,
                                from_1: spec_readable_2_internal(n1) as usize,
                                from_2: spec_readable_2_internal(n2) as usize,
                                double: dbl,
                            },
                        )
                    }
                }
            }
        }
    }
}

impl Move {
    /// Decode a move from its textual notation, total over all inputs.
    pub fn from_string(encoded: &str, active_player: i8) -> (r: Option<Move>)
        requires
            is_stone(active_player),
        ensures
            r == spec_move_from_string(encoded@, active_player),
            r matches Some(mv) ==> mv.in_range(),
    {
        let ghost s = encoded@;
        let n = encoded.unicode_len();
        let double = n > 0 && encoded.get_char(0) == '2';
        let start: usize = if double {
            1
        } else {
            0
        };
        let mut index = start;
        while index < n && is_upper_at(encoded, index)
            invariant
                s == encoded@,
                n == s.len(),
                start <= index <= n,
                forall|k: int| start <= k < index ==> is_upper(s[k]),
                upper_run_len(s, start as int) == (index - start) + upper_run_len(s, index as int),
            decreases n - index,
        {
            index += 1;
        }
        proof {
            assert(upper_run_len(s, index as int) == 0);
            assert(upper_run_len(s, start as int) == index - start);
        }
        let run = index - start;
        let direction_id: i32 = if run == 1 {
            let c = encoded.get_char(start);
            if c == 'U' {
                0
            } else if c == 'R' {
                2
            } else if c == 'D' {
                4
            } else if c == 'L' {
                6
            } else {
                -1
            }
        } else if run == 2 {
            let c0 = encoded.get_char(start);
            let c1 = encoded.get_char(start + 1);
            if c0 == 'U' && c1 == 'R' {
                1
            } else if c0 == 'D' && c1 == 'R' {
                3
            } else if c0 == 'D' && c1 == 'L' {
                5
            } else if c0 == 'U' && c1 == 'L' {
                7
            } else {
                -1
            }
        } else {
            -1
        };
        if direction_id < 0 {
            return None;
        }
        let direction = direction_at(direction_id as usize);
        if index >= n {
            return None;
        }
        let board_1: usize = if encoded.get_char(index) == 'b' {
            if active_player == BLACK {
                0
            } else {
                2
            }
        } else {
            if active_player == BLACK {
                1
            } else {
                3
            }
        };
        let ghost i1 = index as int;
        proof {
            let i0: int = if s.len() > 0 && s[0] == '2' {
                1
            } else {
                0
            };
            assert(start as int == i0);
            assert(upper_run_len(s, i0) == i1 - i0);
            assert(direction_code_id(s, i0, upper_run_len(s, i0)) == direction_id as int);
        }
        index += 1;
        let (ok_1, from_read_1, after_1) = scan_number(encoded, index);
        if !ok_1 {
            proof {
                let i0: int = if s.len() > 0 && s[0] == '2' {
                    1
                } else {
                    0
                };
                let ul = upper_run_len(s, i0);
                let did = direction_code_id(s, i0, ul);
                assert(start as int == i0);
                assert(ul == i1 - i0);
                assert(did == direction_id as int);
                let i2 = i1 + 1;
                let dl1 = digit_run_len(s, i2);
                let n1 = digits_value(s, i2, dl1);
                assert(!(i2 < s.len() && dl1 > 0 && n1 < 16));
                if i2 >= s.len() {
                    assert(digit_run_len(s, i2) == 0);
                }
                lemma_digit_run_nonneg(s, i2);
                assert(dl1 == 0 || n1 >= 16);
                assert(spec_move_from_string(s, active_player) is None);
            }
            return None;
        }
        index = after_1;
        if index >= n {
            return None;
        }
        let board_2: usize = if encoded.get_char(index) == 'h' {
            if active_player == BLACK {
                1 - board_1
            } else {
                5 - board_1
            }
        } else {
            3 - board_1
        };
        index += 1;
        let (ok_2, from_read_2, _after_2) = scan_number(encoded, index);
        if !ok_2 {
            proof {
                let i0: int = if s.len() > 0 && s[0] == '2' {
                    1
                } else {
                    0
                };
                let ul = upper_run_len(s, i0);
                assert(start as int == i0);
                assert(ul == i1 - i0);
                let i2 = i1 + 1;
                let dl1 = digit_run_len(s, i2);
                let i3 = i2 + dl1;
                assert(after_1 as int == i3);
                let i4 = i3 + 1;
                let dl2 = digit_run_len(s, i4);
                let n2 = digits_value(s, i4, dl2);
                if i4 >= s.len() {
                    assert(digit_run_len(s, i4) == 0);
                }
                lemma_digit_run_nonneg(s, i4);
                assert(dl2 == 0 || n2 >= 16);
                assert(spec_move_from_string(s, active_player) is None);
            }
            return None;
        }
        let from_1 = readable_2_internal(from_read_1);
        let from_2 = readable_2_internal(from_read_2);
        let r = Move { board_1, board_2, direction, from_1, from_2, double };
        proof {
            let i0: int = if s.len() > 0 && s[0] == '2' {
                1
            } else {
                0
            };
            assert(start as int == i0);
            let ul = upper_run_len(s, i0);
            let did = direction_code_id(s, i0, ul);
            assert(ul == i1 - i0);
            assert(did == direction_id as int);
            let i2 = i1 + 1;
            let dl1 = digit_run_len(s, i2);
            assert(from_read_1 == digits_value(s, i2, dl1));
            let i3 = i2 + dl1;
            assert(after_1 as int == i3);
            let i4 = i3 + 1;
            let dl2 = digit_run_len(s, i4);
            assert(from_read_2 == digits_value(s, i4, dl2));
            assert(Some(r) == spec_move_from_string(s, active_player));
        }
        Some(r)
    }
}

/// Scan the digit run at `index`: succeeds when it is nonempty and its
/// value is a cell index below sixteen, and reports where the run ends.
fn scan_number(encoded: &str, index: usize) -> (r: (bool, usize, usize))
    ensures
        ({
            let s = encoded@;
            let dl = digit_run_len(s, index as int);
            let v = digits_value(s, index as int, dl);
            &&& r.0 == (index < s.len() && dl > 0 && v < 16)
            &&& r.0 ==> r.1 == v && r.1 < 16
            &&& r.2 as int == index as int + (if index < s.len() {
                dl
            } else {
                0
            })
        }),
{
    let ghost s = encoded@;
    let n = encoded.unicode_len();
    if index >= n {
        return (false, 0, index);
    }
    let mut i = index;
    let mut v: usize = 0;
    while i < n && is_digit_at(encoded, i)
        invariant
            s == encoded@,
            n == s.len(),
            index <= i <= n,
            index < n,
            digit_run_len(s, index as int) == (i - index) + digit_run_len(s, i as int),
            v == digits_value(s, index as int, i - index) || (v > 100 && digits_value(
                s,
                index as int,
                i - index,
            ) > 100),
            v <= 100000,
        decreases n - i,
    {
        let c = encoded.get_char(i);
        let d = (c as u32 - '0' as u32) as usize;
        proof {
            assert(digits_value(s, index as int, (i - index) + 1) == digits_value(
                s,
                index as int,
                i - index,
            ) * 10 + (s[i as int] as int - '0' as int));
        }
        if v <= 100 {
            v = v * 10 + d;
        }
        i += 1;
    }
    proof {
        assert(digit_run_len(s, i as int) == 0);
        assert(digit_run_len(s, index as int) == i - index);
    }
    if i == index {
        return (false, 0, i);
    }
    if v < 16 {
        (true, v, i)
    } else {
        (false, 0, i)
    }
}


/// Position of a direction offset in the direction table.
pub open spec fn direction_id_of(d: i8) -> int {
    if d == -6 {
        0int
    } else if d == -5 {
        1int
    } else if d == 1 {
        2int
    } else if d == 7 {
        3int
    } else if d == 6 {
        4int
    } else if d == 5 {
        5int
    } else if d == -1 {
        6int
    } else {
        7int
    }
}

/// The letters of a direction code.
pub open spec fn dir_code_seq(id: int) -> Seq<char> {
    if id == 0 {
        seq!['U']
    } else if id == 1 {
        seq!['U', 'R']
    } else if id == 2 {
        seq!['R']
    } else if id == 3 {
        seq!['D', 'R']
    } else if id == 4 {
        seq!['D']
    } else if id == 5 {
        seq!['D', 'L']
    } else if id == 6 {
        seq!['L']
    } else {
        seq!['U', 'L']
    }
}

pub open spec fn digit_char(n: int) -> char {
    if n == 0 {
        '0'
    } else if n == 1 {
        '1'
    } else if n == 2 {
        '2'
    } else if n == 3 {
        '3'
    } else if n == 4 {
        '4'
    } else if n == 5 {
        '5'
    } else if n == 6 {
        '6'
    } else if n == 7 {
        '7'
    } else if n == 8 {
        '8'
    } else {
        '9'
    }
}

/// Decimal rendering of a cell index below sixteen.
pub open spec fn tile_digits(n: int) -> Seq<char> {
    if n < 10 {
        seq![digit_char(n)]
    } else {
        seq!['1', digit_char(n - 10)]
    }
}

impl MoveExtended {
    /// The passive sub-board and the aggressive one: the pushing sub-move is
    /// the aggressive one; an all-passive move orders the pair by the active
    /// player's viewpoint.
    pub open spec fn spec_passive_aggressive(self, active: i8) -> (int, int) {
        let b1 = self.mv.board_1 as int;
        let b2 = self.mv.board_2 as int;
        if !self.push_1 && !self.push_2 {
            if active == BLACK {
                (if b1 <= b2 {
                    b1
                } else {
                    b2
                }, if b1 <= b2 {
                    b2
                } else {
                    b1
                })
            } else {
                (if b1 <= b2 {
                    b2
                } else {
                    b1
                }, if b1 <= b2 {
                    b1
                } else {
                    b2
                })
            }
        } else if self.push_1 {
            (b2, b1)
        } else {
            (b1, b2)
        }
    }

    /// The textual notation of the move.
    pub open spec fn spec_encode(self, active: i8) -> Seq<char> {
        let pa = self.spec_passive_aggressive(active);
        let passive_from = spec_internal_2_readable(
            if pa.0 == self.mv.board_1 as int {
                self.mv.from_1 as int
            } else {
                self.mv.from_2 as int
            },
        );
        let aggressive_from = spec_internal_2_readable(
            if pa.1 == self.mv.board_1 as int {
                self.mv.from_1 as int
            } else {
                self.mv.from_2 as int
            },
        );
        (if self.mv.double {
            seq!['2']
        } else {
            Seq::<char>::empty()
        }) + dir_code_seq(direction_id_of(self.mv.direction)) + seq![
            if pa.0 % 2 == 0 {
                'b'
            } else {
                'w'
            },
        ] + tile_digits(passive_from) + seq![
            if self.mv.board_1 + self.mv.board_2 == 3 {
                'f'
            } else {
                'h'
            },
        ] + tile_digits(aggressive_from)
    }

    fn passive_aggressive_board(&self, active_player: i8) -> (r: (usize, usize))
        requires
            self.mv.in_range(),
        ensures
            r.0 as int == self.spec_passive_aggressive(active_player).0,
            r.1 as int == self.spec_passive_aggressive(active_player).1,
            r.0 < 4 && r.1 < 4,
    {
        if !self.push_1 && !self.push_2 {
            let lo = if self.mv.board_1 <= self.mv.board_2 {
                self.mv.board_1
            } else {
                self.mv.board_2
            };
            let hi = if self.mv.board_1 <= self.mv.board_2 {
                self.mv.board_2
            } else {
                self.mv.board_1
            };
            if active_player == BLACK {
                (lo, hi)
            } else {
                (hi, lo)
            }
        } else if self.push_1 {
            (self.mv.board_2, self.mv.board_1)
        } else {
            (self.mv.board_1, self.mv.board_2)
        }
    }

    /// Encode the move in its textual notation.
    pub fn to_string(&self, active_player: i8) -> (r: String)
        requires
            self.mv.in_range(),
        ensures
            r@ == self.spec_encode(active_player),
    {
        let mut encoded = String::new();
        if self.mv.double {
            encoded.append("2");
        }
        proof {
            reveal_strlit("2");
            assert(encoded@ =~= (if self.mv.double {
                seq!['2']
            } else {
                Seq::<char>::empty()
            }));
        }
        append_direction_code(&mut encoded, self.mv.direction);
        let (passive_board, aggressive_board) = self.passive_aggressive_board(active_player);
        if passive_board % 2 == 0 {
            encoded.append("b");
        } else {
            encoded.append("w");
        }
        proof {
            reveal_strlit("b");
            reveal_strlit("w");
        }
        let passive_from = internal_2_readable(
            if passive_board == self.mv.board_1 {
                self.mv.from_1
            } else {
                self.mv.from_2
            },
        );
        append_tile_number(&mut encoded, passive_from);
        if self.mv.board_1 + self.mv.board_2 == 3 {
            encoded.append("f");
        } else {
            encoded.append("h");
        }
        proof {
            reveal_strlit("f");
            reveal_strlit("h");
        }
        let aggressive_from = internal_2_readable(
            if aggressive_board == self.mv.board_1 {
                self.mv.from_1
            } else {
                self.mv.from_2
            },
        );
        append_tile_number(&mut encoded, aggressive_from);
        proof {
            assert(encoded@ =~= self.spec_encode(active_player));
        }
        encoded
    }
}

/// Append the letters of a direction's code.
fn append_direction_code(out: &mut String, direction: i8)
    requires
        is_direction(direction),
    ensures
        final(out)@ == old(out)@ + dir_code_seq(direction_id_of(direction)),
{
    match direction {
        -6 => out.append("U"),
        -5 => out.append("UR"),
        1 => out.append("R"),
        7 => out.append("DR"),
        6 => out.append("D"),
        5 => out.append("DL"),
        -1 => out.append("L"),
        _ => out.append("UL"),
    }
    proof {
        reveal_strlit("U");
        reveal_strlit("UR");
        reveal_strlit("R");
        reveal_strlit("DR");
        reveal_strlit("D");
        reveal_strlit("DL");
        reveal_strlit("L");
        reveal_strlit("UL");
        assert(final(out)@ =~= old(out)@ + dir_code_seq(direction_id_of(direction)));
    }
}

/// Append the decimal rendering of a cell index.
fn append_tile_number(out: &mut String, n: usize)
    requires
        n < 16,
    ensures
        final(out)@ == old(out)@ + tile_digits(n as int),
{
    match n {
        0 => out.append("0"),
        1 => out.append("1"),
        2 => out.append("2"),
        3 => out.append("3"),
        4 => out.append("4"),
        5 => out.append("5"),
        6 => out.append("6"),
        7 => out.append("7"),
        8 => out.append("8"),
        9 => out.append("9"),
        10 => out.append("10"),
        11 => out.append("11"),
        12 => out.append("12"),
        13 => out.append("13"),
        14 => out.append("14"),
        _ => out.append("15"),
    }
    proof {
        reveal_strlit("0");
        reveal_strlit("1");
        reveal_strlit("2");
        reveal_strlit("3");
        reveal_strlit("4");
        reveal_strlit("5");
        reveal_strlit("6");
        reveal_strlit("7");
        reveal_strlit("8");
        reveal_strlit("9");
        reveal_strlit("10");
        reveal_strlit("11");
        reveal_strlit("12");
        reveal_strlit("13");
        reveal_strlit("14");
        reveal_strlit("15");
        assert(final(out)@ =~= old(out)@ + tile_digits(n as int));
    }
}

} // verus!
