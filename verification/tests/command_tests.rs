use noggin::movegen::gen_pseudolegal_moves;
use noggin::uci::{parse_go, parse_position_cmd};
use noggin::{Move, Position, KIWIPETE_FEN, STARTPOS_FEN};

fn words(text: &str) -> Vec<String> {
    text.split_whitespace().map(|w| w.to_string()).collect()
}

#[test]
fn go_reads_every_limit() {
    let p = parse_go(&words("go wtime 1000 btime 2000 winc 10 binc 20 depth 5 nodes 100 movetime 50")).unwrap();
    assert_eq!(p.wtime, Some(1000));
    assert_eq!(p.btime, Some(2000));
    assert_eq!(p.winc, Some(10));
    assert_eq!(p.binc, Some(20));
    assert_eq!(p.depth, Some(5));
    assert_eq!(p.nodes, Some(100));
    assert_eq!(p.movetime, Some(50));
}

#[test]
fn go_skips_unknown_words_and_rejects_bad_counts() {
    let p = parse_go(&words("go infinite ponder depth +7")).unwrap();
    assert_eq!(p.depth, Some(7));
    assert_eq!(p.wtime, None);
    assert_eq!(p.nodes, None);
    let q = parse_go(&words("go")).unwrap();
    assert_eq!(q.movetime, None);
    assert!(parse_go(&words("go depth")).is_err());
    assert!(parse_go(&words("go depth x")).is_err());
    assert!(parse_go(&words("go nodes -3")).is_err());
}

#[test]
fn position_from_startpos_and_moves() {
    let p = parse_position_cmd(&words("position startpos")).unwrap();
    assert_eq!(p.fen(), STARTPOS_FEN);
    let q = parse_position_cmd(&words("position startpos moves e2e4 e7e5 g1f3")).unwrap();
    assert_eq!(q.fen(), "rnbqkbnr/pppp1ppp/8/4p3/4P3/5N2/PPPP1PPP/RNBQKB1R b KQkq - 1 2");
}

#[test]
fn position_from_fen_and_moves() {
    let text = format!("position fen {} moves e1g1", KIWIPETE_FEN);
    let p = parse_position_cmd(&words(&text)).unwrap();
    assert_eq!(p.fen(), "r3k2r/p1ppqpb1/bn2pnp1/3PN3/1p2P3/2N2Q1p/PPPBBPPP/R4RK1 b kq - 1 1");
}

#[test]
fn position_errors() {
    assert!(parse_position_cmd(&words("position")).is_err());
    assert!(parse_position_cmd(&words("position middlegame")).is_err());
    assert!(parse_position_cmd(&words("position fen 8/8/8/8")).is_err());
    assert!(parse_position_cmd(&words("position fen 8/8/8/8/8/8/8/8 w - - 0 1")).is_err());
    assert!(parse_position_cmd(&words("position startpos e2e4")).is_err());
    assert!(parse_position_cmd(&words("position startpos moves zz")).is_err());
    assert!(parse_position_cmd(&words("position startpos moves e2e5")).is_err());
    assert!(parse_position_cmd(&words("position startpos moves e2e4 e2e4")).is_err());
}

#[test]
fn pinned_pieces_stay_on_their_line() {
    let p = Position::from_fen("4k3/4r3/8/8/8/8/4B3/4K3 w - - 0 1").unwrap();
    assert!(!p.is_legal(Move::from_uci("e2d3").unwrap()));
    assert!(p.is_legal(Move::from_uci("e1d1").unwrap()));
    let q = Position::from_fen("4k3/4r3/8/8/8/8/4R3/4K3 w - - 0 1").unwrap();
    assert!(q.is_legal(Move::from_uci("e2e7").unwrap()));
    assert!(q.is_legal(Move::from_uci("e2e4").unwrap()));
    assert!(!q.is_legal(Move::from_uci("e2d2").unwrap()));
}

#[test]
fn single_check_is_answered_by_capture_block_or_king_move() {
    let p = Position::from_fen("4k3/8/8/8/8/8/3B4/r3K3 w - - 0 1").unwrap();
    assert!(p.is_legal(Move::from_uci("e1e2").unwrap()));
    assert!(p.is_legal(Move::from_uci("d2c1").unwrap()));
    assert!(!p.is_legal(Move::from_uci("d2e3").unwrap()));
    assert!(!p.is_legal(Move::from_uci("e1d1").unwrap()));
}

#[test]
fn fen_round_trip_after_moves() {
    let mut p = Position::from_fen(KIWIPETE_FEN).unwrap();
    for uci in ["e2a6", "b4c3", "d2c3", "e8g8", "e1g1"] {
        let mv = Move::from_uci(uci).unwrap();
        assert!(p.is_legal(mv));
        p = p.make_move(mv);
        let q = Position::from_fen(&p.fen()).unwrap();
        assert_eq!(q.fen(), p.fen());
        assert_eq!(q.hash(), p.hash());
    }
}

#[test]
fn king_moves_never_walk_into_attack() {
    for fen in [
        KIWIPETE_FEN,
        "4k3/8/8/8/8/8/3B4/r3K3 w - - 0 1",
        "4k3/8/8/8/8/5n2/8/r3K3 w - - 0 1",
        "8/8/3k4/8/8/3K4/8/8 w - - 0 1",
        "r3k2r/8/8/8/8/8/8/R3K2R b KQkq - 0 1",
        "r3k2r/8/8/8/8/8/8/R3K2R w KQkq - 0 1",
        "1r2k2r/8/8/8/8/8/8/R3K2R w KQk - 0 1",
    ] {
        let p = Position::from_fen(fen).unwrap();
        let king = p.king_sq(p.stm());
        let moves = p.gen_legal_moves();
        let mut steps = 0;
        for mv in moves.iter().copied() {
            if mv.from() != king {
                continue;
            }
            steps += 1;
            let q = p.make_move(mv);
            for reply in gen_pseudolegal_moves(&q).iter().copied() {
                assert!(!q.takes_king(reply), "{} {}", fen, mv.uci());
            }
        }
        assert!(steps > 0, "{}", fen);
    }
}

#[test]
fn listed_moves_are_pseudo_legal() {
    for fen in [
        STARTPOS_FEN,
        KIWIPETE_FEN,
        "4k3/8/8/8/8/8/3B4/r3K3 w - - 0 1",
        "4k3/8/8/8/8/5n2/8/r3K3 w - - 0 1",
        "4k3/8/8/3pP3/8/8/8/4K3 w - d6 0 1",
    ] {
        let p = Position::from_fen(fen).unwrap();
        let pseudo = gen_pseudolegal_moves(&p);
        let legal = p.gen_legal_moves();
        assert!(legal.len() > 0, "{}", fen);
        for mv in legal.iter().copied() {
            assert!(pseudo.contains(mv), "{} {}", fen, mv.uci());
        }
    }
}

#[test]
fn listed_moves_never_leave_the_king_attacked() {
    for fen in [
        KIWIPETE_FEN,
        STARTPOS_FEN,
        "4k3/8/8/8/8/5n2/8/r3K3 w - - 0 1",
        "4k3/8/8/8/1b6/8/3P4/R3K2R w KQ - 0 1",
        "4k3/4r3/8/8/8/8/3N4/R3K3 w Q - 0 1",
        "8/8/8/2k5/3Pp3/8/8/4K3 b - d3 0 1",
        "r3k2r/p1ppqpb1/bn2pnp1/3PN3/1p2P3/2N2Q1p/PPPBBPPP/R3K2R b KQkq - 0 1",
    ] {
        let p = Position::from_fen(fen).unwrap();
        let moves = p.gen_legal_moves();
        assert!(moves.iter().next().is_some(), "{}", fen);
        for mv in moves.iter().copied() {
            let q = p.make_move(mv);
            for reply in gen_pseudolegal_moves(&q).iter().copied() {
                assert!(!q.takes_king(reply), "{} {}", fen, mv.uci());
            }
        }
    }
}

#[test]
fn en_passant_in_check_must_answer_the_check() {
    // The knight on f3 gives check; the en-passant capture does not answer it, so it is not
    // listed.
    let p = Position::from_fen("4k3/8/8/3pP3/8/5n2/8/4K3 w - d6 0 1").unwrap();
    let moves = p.gen_legal_moves();
    assert!(!moves.iter().any(|mv| mv.uci() == "e5d6"));
    assert!(!p.is_legal(Move::from_uci("e5d6").unwrap()));
    // Taking the checking pawn en passant answers the check.
    let p = Position::from_fen("8/8/8/2k5/3Pp3/8/8/4K3 b - d3 0 1").unwrap();
    let moves = p.gen_legal_moves();
    assert!(moves.iter().any(|mv| mv.uci() == "e4d3"));
    // Landing on the checking line answers a check by a bishop.
    let p = Position::from_fen("5K2/8/8/3pP3/1b6/8/8/7k w - d6 0 1").unwrap();
    let moves = p.gen_legal_moves();
    assert!(moves.iter().any(|mv| mv.uci() == "e5d6"));
}

#[test]
fn moves_list_holds_each_move_once() {
    for fen in [
        KIWIPETE_FEN,
        STARTPOS_FEN,
        "4k3/8/8/8/8/5n2/8/r3K3 w - - 0 1",
        "4k3/1P6/8/8/8/8/8/4K3 w - - 0 1",
        "r3k2r/8/8/8/8/8/8/R3K2R w KQkq - 0 1",
    ] {
        let p = Position::from_fen(fen).unwrap();
        let moves: Vec<Move> = p.gen_legal_moves().iter().copied().collect();
        for i in 0..moves.len() {
            for j in 0..i {
                assert!(moves[i] != moves[j], "{} {}", fen, moves[i].uci());
            }
        }
    }
}

#[test]
fn perft_sums_the_counts_below_each_move() {
    for fen in [KIWIPETE_FEN, STARTPOS_FEN, "4k3/8/8/8/8/5n2/8/r3K3 w - - 0 1"] {
        let p = Position::from_fen(fen).unwrap();
        let moves = p.gen_legal_moves();
        assert_eq!(p.perft(1), moves.len());
        assert_eq!(p.perft(0), 1);
        assert_eq!(p.perft(-3), 1);
        let mut total = 0;
        for mv in moves.iter().copied() {
            total += p.make_move(mv).perft(2);
        }
        assert_eq!(p.perft(3), total, "{}", fen);
    }
}

#[test]
fn position_command_accepts_exactly_legal_move_lists() {
    let ok = parse_position_cmd(&words("position startpos moves e2e4 e7e5 g1f3"));
    assert!(ok.is_ok());
    let bad = parse_position_cmd(&words("position startpos moves e2e4 e2e4"));
    assert!(bad.is_err());
    let bad_fen = parse_position_cmd(&words("position fen 8/8/8/8/8/8/8/8 w - - 0 1"));
    assert!(bad_fen.is_err());
}

#[test]
fn pseudo_legal_moves_that_keep_the_king_safe_are_listed() {
    for fen in [
        KIWIPETE_FEN,
        STARTPOS_FEN,
        "4k3/8/8/8/8/5n2/8/r3K3 w - - 0 1",
        "4k3/8/8/8/1b6/8/3P4/R3K2R w KQ - 0 1",
        "4k3/4r3/8/8/8/8/3N4/R3K3 w Q - 0 1",
        "8/8/8/2k5/3Pp3/8/8/4K3 b - d3 0 1",
        "4k3/8/8/8/8/8/4r3/R3K2b w Q - 0 1",
    ] {
        let p = Position::from_fen(fen).unwrap();
        let listed = p.gen_legal_moves();
        for mv in gen_pseudolegal_moves(&p).iter().copied() {
            if p.takes_king(mv) {
                continue;
            }
            let q = p.make_move(mv);
            let safe = !gen_pseudolegal_moves(&q).iter().copied().any(|reply| q.takes_king(reply));
            assert_eq!(safe, listed.contains(mv), "{} {}", fen, mv.uci());
        }
    }
}
