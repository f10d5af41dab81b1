use noggin::attacks::{bishop_attacks, king_attacks, knight_attacks, pawn_attacks, rook_attacks};
use noggin::eval::evaluate;
use noggin::pcg::PCG32;
use noggin::search::{is_mate, relative_eval, stored_score, tt_len, MovePicker, TTEntry, TTKind};
use noggin::{Check, Move, MoveList, Piece, Position, Side, Sq, KIWIPETE_FEN, MATE_SCORE, STARTPOS_FEN};

#[test]
fn king_and_knight_attacks_from_corners() {
    assert_eq!(king_attacks(Sq(0)), 0x302);
    assert_eq!(knight_attacks(Sq(0)), 0x20400);
    assert_eq!(king_attacks(Sq(63)), 0x40c0000000000000);
}

#[test]
fn sliders_stop_at_blockers() {
    // rook on a1 with a blocker on a3 and on c1
    let occ = (1u64 << 16) | (1u64 << 2);
    assert_eq!(rook_attacks(Sq(0), occ), (1u64 << 8) | (1u64 << 16) | (1u64 << 1) | (1u64 << 2));
    // bishop on a1 over an empty board reaches the long diagonal
    assert_eq!(bishop_attacks(Sq(0), 0), 0x8040201008040200);
}

#[test]
fn pawn_attacks_do_not_wrap() {
    assert_eq!(pawn_attacks(1u64 << 8, Side::White), 1u64 << 17);
    assert_eq!(pawn_attacks(1u64 << 15, Side::White), 1u64 << 22);
    assert_eq!(pawn_attacks(1u64 << 48, Side::Black), 1u64 << 41);
}

#[test]
fn square_names() {
    assert_eq!(Sq::from_san("e4").unwrap().id(), 28);
    assert_eq!(Sq::from_san("h8").unwrap().id(), 63);
    assert!(Sq::from_san("i1").is_none());
    assert!(Sq::from_san("a9").is_none());
    assert!(Sq::from_san("a").is_none());
    assert_eq!(Sq(28).san(), "e4");
    assert_eq!(Sq::from_coords(7, 0).id(), 56);
}

#[test]
fn uci_move_text_round_trip() {
    let m = Move::from_uci("e7e8q").unwrap();
    assert_eq!(m.from().id(), 52);
    assert_eq!(m.to().id(), 60);
    assert!(matches!(m.promotion(), Some(Piece::Queen)));
    assert_eq!(m.uci(), "e7e8q");
    assert_eq!(Move::from_uci("g1f3").unwrap().uci(), "g1f3");
    assert!(Move::from_uci("e7e8k").is_none());
    assert!(Move::from_uci("e2e").is_none());
    assert!(Move::from_uci("e2e4q5").is_none());
    assert!(Move::from_uci("z2e4").is_none());
}

#[test]
fn move_fields_are_packed() {
    let m = Move::new(Sq(12), Sq(28), None);
    assert_eq!(m.from().id(), 12);
    assert_eq!(m.to().id(), 28);
    assert!(m.promotion().is_none());
    assert!(Move::null() != m);
}

#[test]
fn fen_errors() {
    assert!(Position::from_fen("").is_err());
    assert!(Position::from_fen("rnbqkbnr/pppppppp/8/8/8/8/PPPPPPPP/RNBQKBNR x KQkq - 0 1").is_err());
    assert!(Position::from_fen("rnbqkbnr/pppppppp/8/8/8/8/PPPPPPPP/RNBQKBNR w KQkx - 0 1").is_err());
    assert!(Position::from_fen("rnbqkbnr/pppppppp/8/8/8/8/PPPPPPPP/RNBQKBNR w KQkq e9 0 1").is_err());
    assert!(Position::from_fen("rnbqkbnr/pppppppp/8/8/8/8/PPPPPPPP/RNBQKBNR w KQkq - x 1").is_err());
    assert!(Position::from_fen("rnbqkbnr/pppppppp/8/8/8/8/PPPPPPPP/RNBQKBNR w KQkq - 0").is_err());
    assert!(Position::from_fen("rnbqkbnr/pppppppp/9/8/8/8/PPPPPPPP/RNBQKBNR w KQkq - 0 1").is_err());
    assert!(Position::from_fen("rnbqkbnr/pppppppp/8/8/8/8/PPPPPPPP/RNBQKBN w KQkq - 0 1").is_err());
}

#[test]
fn fen_reads_positions_that_cannot_be_played() {
    let empty = Position::from_fen("8/8/8/8/8/8/8/8 w - - 0 1").unwrap();
    assert_eq!(empty.hash(), empty.compute_hash());
    assert!(noggin::fen::parse_playable("8/8/8/8/8/8/8/8 w - - 0 1").is_err());
    // castling rights without the rook in its corner
    let lone = Position::from_fen("4k3/8/8/8/8/8/8/4K3 w K - 0 1").unwrap();
    assert_eq!(lone.hash(), lone.compute_hash());
    assert!(noggin::fen::parse_playable("4k3/8/8/8/8/8/8/4K3 w K - 0 1").is_err());
    // an en-passant square with no pawn behind it
    let odd = Position::from_fen("4k3/8/8/8/8/8/8/4K3 w - e6 0 1").unwrap();
    assert_eq!(odd.hash(), odd.compute_hash());
    assert!(noggin::fen::parse_playable("4k3/8/8/8/8/8/8/4K3 w - e6 0 1").is_err());
    assert!(noggin::fen::parse_playable(STARTPOS_FEN).is_ok());
}

#[test]
fn fen_accepts_loose_spacing_and_plus_signs() {
    let p = Position::from_fen("  rnbqkbnr/pppppppp/8/8/8/8/PPPPPPPP/RNBQKBNR   w KQkq -  +0 +1 extra").unwrap();
    assert_eq!(p.fen(), STARTPOS_FEN);
}

#[test]
fn fen_round_trips() {
    for fen in [
        "4k3/8/8/8/8/8/8/4K2R w K - 0 1",
        "r3k2r/8/8/8/8/8/8/4K3 w kq - 0 1",
        "8/8/8/8/8/8/6k1/4K2R w K - 0 1",
        "rnbqkb1r/ppppp1pp/7n/4Pp2/8/8/PPPP1PPP/RNBQKBNR w KQkq f6 0 3",
    ] {
        assert_eq!(Position::from_fen(fen).unwrap().fen(), fen);
    }
}

#[test]
fn unusable_en_passant_square_is_dropped() {
    // no white pawn can take on e6
    let p = Position::from_fen("4k3/8/8/4p3/8/8/8/4K3 w - e6 0 1").unwrap();
    assert!(p.fen().contains(" - 0 1"));
}

#[test]
fn debug_string_lists_the_fen() {
    let p = Position::from_fen(STARTPOS_FEN).unwrap();
    let s = p.debug_str();
    assert!(s.starts_with("8 | r n b q k b n r \n"));
    assert!(s.contains("Side-to-move: w\n"));
    assert!(s.contains("Castle rights: KQkq\n"));
    assert!(s.contains("En-passant: -\n"));
    assert!(s.ends_with(&format!("FEN: {}\n", STARTPOS_FEN)));
}

#[test]
fn hash_matches_recomputation_after_moves() {
    let pos = Position::from_fen(KIWIPETE_FEN).unwrap();
    assert_eq!(pos.hash(), pos.compute_hash());
    let moves = pos.gen_legal_moves();
    for mv in moves.iter() {
        let child = pos.make_move(*mv);
        assert_eq!(child.hash(), child.compute_hash());
        let grand = child.gen_legal_moves();
        for m2 in grand.iter() {
            if child.takes_king(*m2) {
                continue;
            }
            let g = child.make_move(*m2);
            assert_eq!(g.hash(), g.compute_hash());
        }
    }
}

#[test]
fn hash_differs_by_the_side_key_when_only_the_side_differs() {
    let w = Position::from_fen("4k3/8/8/8/8/8/4P3/4K3 w - - 0 1").unwrap();
    let b = Position::from_fen("4k3/8/8/8/8/8/4P3/4K3 b - - 0 1").unwrap();
    assert_eq!(w.compute_hash() ^ b.compute_hash(), noggin::zobrist::black_to_move());
    let w2 = Position::from_fen("4k3/8/8/8/8/8/4P3/4K3 w - - 7 30").unwrap();
    assert_eq!(w.compute_hash(), w2.compute_hash());
}

#[test]
fn double_step_sets_en_passant_only_when_usable() {
    let p = Position::from_fen("4k3/8/8/8/3p4/8/4P3/4K3 w - - 0 1").unwrap();
    let child = p.make_move(Move::from_uci("e2e4").unwrap());
    // the fields are single-spaced, "-" for no castling rights
    assert_eq!(child.fen(), "4k3/8/8/8/3pP3/8/8/4K3 b - e3 0 1");
    let q = Position::from_fen("4k3/8/8/8/8/8/4P3/4K3 w - - 0 1").unwrap();
    let child = q.make_move(Move::from_uci("e2e4").unwrap());
    assert_eq!(child.fen(), "4k3/8/8/8/4P3/8/8/4K3 b - - 0 1");
}

#[test]
fn castling_moves_the_rook_and_drops_rights() {
    let p = Position::from_fen("r3k2r/8/8/8/8/8/8/R3K2R w KQkq - 3 10").unwrap();
    let c = p.make_move(Move::from_uci("e1g1").unwrap());
    assert_eq!(c.fen(), "r3k2r/8/8/8/8/8/8/R4RK1 b kq - 4 10");
    let d = c.make_move(Move::from_uci("a8a1").unwrap());
    assert_eq!(d.fen(), "4k2r/8/8/8/8/8/8/r4RK1 w k - 0 11");
}

#[test]
fn checks_are_classified() {
    let p = Position::from_fen("4k3/8/8/8/8/8/8/4K2r w - - 0 1").unwrap();
    assert!(matches!(p.checked(), Check::Single(_)));
    assert!(p.checked().is_single());
    let q = Position::from_fen("4k3/8/8/8/8/5n2/8/r3K3 w - - 0 1").unwrap();
    assert!(q.checked().is_double());
    assert_eq!(q.gen_legal_moves().len(), 2);
    let s = Position::from_fen(STARTPOS_FEN).unwrap();
    assert!(s.checked().is_none());
    assert!(!s.checked().is_some());
}

#[test]
fn legality_is_tested_against_generated_moves() {
    let p = Position::from_fen(STARTPOS_FEN).unwrap();
    assert!(p.is_legal(Move::from_uci("e2e4").unwrap()));
    assert!(!p.is_legal(Move::from_uci("e2e5").unwrap()));
    assert!(!p.is_legal(Move::from_uci("e1e2").unwrap()));
}

#[test]
fn perft_of_small_positions() {
    for (fen, counts) in [
        (STARTPOS_FEN, vec![20usize, 400, 8902, 197281]),
        ("4k3/8/8/8/8/8/8/4K2R w K - 0 1", vec![15, 66, 1197, 7059]),
        ("4k3/8/8/8/8/8/8/R3K3 w Q - 0 1", vec![16, 71, 1287, 7626]),
        ("r3k2r/8/8/8/8/8/8/4K3 w kq - 0 1", vec![5, 130, 782, 22180]),
        ("8/8/8/8/8/8/6k1/4K2R w K - 0 1", vec![12, 38, 564, 2219]),
    ] {
        let p = Position::from_fen(fen).unwrap();
        for (d, &n) in counts.iter().enumerate() {
            assert_eq!(p.perft((d + 1) as i32), n, "{} depth {}", fen, d + 1);
        }
    }
    assert_eq!(Position::from_fen(STARTPOS_FEN).unwrap().perft(0), 1);
}

#[test]
fn material_evaluation() {
    let p = Position::from_fen(STARTPOS_FEN).unwrap();
    assert_eq!(evaluate(&p), 0);
    let q = Position::from_fen("4k3/8/8/8/8/8/8/3QK3 b - - 0 1").unwrap();
    assert_eq!(evaluate(&q), 900);
    assert_eq!(relative_eval(&q), -900);
    assert_eq!(Piece::Rook.material_value(), 500);
}

#[test]
fn pcg_sequence() {
    let mut rng = PCG32::new(9238, 3);
    assert_eq!(rng.next32(), 40194543);
    assert_eq!(rng.next32(), 1378028378);
    assert_eq!(rng.next64(), 8358036127291271424);
    for _ in 0..100 {
        let x = rng.range(10, 20);
        assert!(10 <= x && x < 20);
    }
}

#[test]
fn mate_scores_survive_the_table() {
    for ply in [0, 3, 17] {
        for score in [MATE_SCORE - 5, -(MATE_SCORE - 7), 123, -456, 0] {
            let entry = TTEntry {
                kind: TTKind::Exact,
                depth: 1,
                hash_lo: 0,
                mv: Move::null(),
                rel_score: stored_score(score, ply),
            };
            assert_eq!(entry.score(ply), score);
        }
    }
    assert!(is_mate(MATE_SCORE - 10));
    assert!(!is_mate(500));
}

#[test]
fn table_cutoffs() {
    let e = TTEntry { kind: TTKind::Lower, depth: 3, hash_lo: 7, mv: Move::null(), rel_score: 50 };
    assert_eq!(e.cutoff(0, -100, 40), Some(50));
    assert_eq!(e.cutoff(0, -100, 60), None);
    let u = TTEntry { kind: TTKind::Upper, ..e };
    assert_eq!(u.cutoff(0, 60, 100), Some(50));
    let x = TTEntry { kind: TTKind::Exact, ..e };
    assert_eq!(x.cutoff(0, 0, 100), Some(50));
    assert_eq!(x.cutoff(0, 50, 100), None);
    assert_eq!(tt_len(16), 16 * 1024 * 1024 / std::mem::size_of::<TTEntry>());
    assert_eq!(tt_len(0), 1024);
}

#[test]
fn picker_hands_out_best_first() {
    let p = Position::from_fen(KIWIPETE_FEN).unwrap();
    let moves = p.gen_legal_moves();
    let n = moves.len();
    let hash_mv = moves.get(n - 1);
    let mut picker = MovePicker::new(&p, moves, hash_mv);
    let (i0, m0) = picker.next().unwrap();
    assert_eq!(i0, 0);
    assert!(m0 == hash_mv);
    let mut count = 1;
    let mut last_capture = true;
    while let Some((i, m)) = picker.next() {
        assert_eq!(i, count);
        let cap = p.is_capture(m).is_some();
        assert!(last_capture || !cap);
        last_capture = cap;
        count += 1;
    }
    assert_eq!(count, n);
}

#[test]
fn move_list_basics() {
    let mut l = MoveList::new();
    assert_eq!(l.len(), 0);
    l.push(Move::new(Sq(1), Sq(2), None));
    l.push(Move::new(Sq(3), Sq(4), None));
    l.swap(0, 1);
    assert_eq!(l.get(0).from().id(), 3);
    assert!(l.contains(Move::new(Sq(1), Sq(2), None)));
    assert_eq!(l.iter().count(), 2);
}

#[test]
fn bitboard_iteration_is_ascending() {
    let mut it = noggin::iter_bb((1u64 << 5) | (1u64 << 40) | 1);
    assert_eq!(it.next().unwrap().id(), 0);
    assert_eq!(it.next().unwrap().id(), 5);
    assert_eq!(it.next().unwrap().id(), 40);
    assert!(it.next().is_none());
}

#[test]
fn promotions_are_ordered_between_the_hash_move_and_captures() {
    let pos = Position::from_fen("r3k3/1P6/8/8/8/8/8/4K2R w - - 0 1").unwrap();
    let hash = Move::from_uci("h1h2").unwrap();
    let promo = Move::from_uci("b7b8q").unwrap();
    let capture = Move::from_uci("b7a8n").unwrap();
    let quiet = Move::from_uci("e1d1").unwrap();
    let rook_capture_pos = Position::from_fen("r3k3/8/8/8/8/8/8/R3K3 w - - 0 1").unwrap();
    let plain_capture = Move::from_uci("a1a8").unwrap();
    let h = MovePicker::score_move(&pos, hash, hash);
    let p = MovePicker::score_move(&pos, promo, hash);
    let pc = MovePicker::score_move(&pos, capture, hash);
    let c = MovePicker::score_move(&rook_capture_pos, plain_capture, hash);
    let q = MovePicker::score_move(&pos, quiet, hash);
    assert!(h > p && p > pc && pc > c && c > q);
}
