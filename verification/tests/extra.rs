use shobu::bot::ShobuBot;
use shobu::rng::seeded_keys;
use shobu::shobu::Shobu;
use shobu::shobu_move::Move;
use shobu::utils::strip;
use shobu::zobrist::Zobrist;

#[test]
fn test_pruned_matches_unpruned() {
    let positions = [
        "b w_b_____________ wb______________ wb______________ wb______________",
        "w bw______________ bw______________ b_w_____________ bw______________",
        "b w_b_____________ wb______________ w__w________w__w wb__bb_________b",
    ];
    for position in positions {
        let mut game = Shobu::from_string(position);
        let mut bot = ShobuBot::new();
        let pruned = bot.choose_move(&mut game);
        let mut game2 = Shobu::from_string(position);
        let bot2 = ShobuBot::new();
        let unpruned = bot2.choose_move_unpruned(&mut game2);
        let active = game.active_player;
        let a = game.validate_and_extend(&pruned).unwrap().to_string(active);
        let b = game2.validate_and_extend(&unpruned).unwrap().to_string(active);
        assert_eq!(a, b);
    }
}

#[test]
fn test_win_scored_as_forced_win() {
    let position = "b w_b_____________ wb______________ wb______________ wb______________";
    let mut game = Shobu::from_string(position);
    let mut bot = ShobuBot::new();
    let mv = bot.choose_move(&mut game);
    game.make_move(&mv).unwrap();
    assert_eq!(game.winner, -1);
}

#[test]
fn test_illegal_move_rejected_and_state_kept() {
    let mut game = Shobu::new();
    let before = game.to_string();
    // two sub-boards of the same colour track
    let mv = Move { board_1: 0, board_2: 3, direction: -6, from_1: 25, from_2: 25, double: false };
    let bad = Move { board_1: 0, board_2: 2, direction: -6, from_1: 25, from_2: 25, double: false };
    assert!(game.validate_and_extend(&bad).is_err());
    assert!(game.make_move(&bad).is_err());
    assert_eq!(game.to_string(), before);
    assert!(game.make_move(&mv).is_ok());
}

#[test]
fn test_game_over_rejects_moves() {
    let moves = [
        "2Uw14h13", "2DLw3f2", "2Ub14h13", "Db0h9", "2Ub15h12", "2DRw0h4", "Db7h6", "Db1h10",
        "Db6h10", "Lb2h13", "Uw14h10", "Rb1h14",
    ];
    let mut game = Shobu::new();
    for mv_str in moves {
        let mv = Move::from_string(mv_str, game.active_player).unwrap();
        game.make_move(&mv).unwrap();
    }
    assert_ne!(game.winner, 0);
    let moves = game.get_legal_moves();
    if moves.len() > 0 {
        let e = game.make_move(&moves[0].to_move());
        assert!(e.is_err());
    }
}

#[test]
fn test_seeded_keys_deterministic() {
    let (k1, m1) = seeded_keys(2137);
    let (k2, m2) = seeded_keys(2137);
    assert_eq!(k1, k2);
    assert_eq!(m1, m2);
    assert_ne!(m1, 0);
}

#[test]
fn test_incremental_hashes_match_scratch() {
    // after real moves, each maintained hash slot must still equal the
    // from-scratch hash of the current boards (the initial side-to-move
    // marker parity folded in at construction time stays in the slots)
    let zobrist = Zobrist::new();
    let moves = ["2Uw14h13", "2DLw3f2", "2Ub14h13", "Db0h9", "2Ub15h12"];
    let mut game = Shobu::new();
    let marker = game.black_active_hash;
    for mv_str in moves {
        let mv = Move::from_string(mv_str, game.active_player).unwrap();
        game.make_move(&mv).unwrap();
        for color_swap in [false, true] {
            for horizontal_swap in [false, true] {
                // zobrist folds the marker for the current player; the slots
                // keep the parity of the initial (black) player instead
                let mut scratch = zobrist.get_hash(&game, color_swap, horizontal_swap);
                if game.active_player == 1 {
                    scratch ^= marker;
                }
                let stored = game.hashes[color_swap as usize][horizontal_swap as usize];
                assert_eq!(stored, scratch);
            }
        }
    }
}

#[test]
fn test_zobrist_matches_board_hashes() {
    let zobrist = Zobrist::new();
    let position = "b w_b_____________ wb______________ wb______________ w______________b";
    let game = Shobu::from_string(position);
    for color_swap in [false, true] {
        for horizontal_swap in [false, true] {
            let expected = game.hashes[color_swap as usize][horizontal_swap as usize];
            assert_eq!(zobrist.get_hash(&game, color_swap, horizontal_swap), expected);
        }
    }
}

#[test]
fn test_eval_balanced_at_start() {
    let bot = ShobuBot::new();
    let game = Shobu::new();
    assert_eq!(bot.eval(&game), 0);
}

#[test]
fn test_malformed_moves_rejected() {
    assert!(Move::from_string("", -1).is_none());
    assert!(Move::from_string("Xb2h1", -1).is_none());
    assert!(Move::from_string("Db99h1", -1).is_none());
    assert!(Move::from_string("Db2h", -1).is_none());
    assert!(Move::from_string("2", -1).is_none());
}

#[test]
fn test_strip_line_endings() {
    assert_eq!(strip("abc\r\n"), "abc");
    assert_eq!(strip("abc\n"), "abc");
    assert_eq!(strip("abc"), "abc");
    assert_eq!(strip(""), "");
}
