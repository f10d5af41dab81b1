use noggin::{Position, KIWIPETE_FEN, STARTPOS_FEN};

#[test]
fn test_kiwipete_perft_depth_1() {
    let pos = Position::from_fen(KIWIPETE_FEN).unwrap();
    assert_eq!(pos.perft(1), 48);
}

#[test]
fn test_kiwipete_perft_depth_2() {
    let pos = Position::from_fen(KIWIPETE_FEN).unwrap();
    assert_eq!(pos.perft(2), 2039);
}

#[test]
fn test_kiwipete_perft_depth_3() {
    let pos = Position::from_fen(KIWIPETE_FEN).unwrap();
    assert_eq!(pos.perft(3), 97862);
}

#[test]
fn test_kiwipete_perft_depth_4() {
    let pos = Position::from_fen(KIWIPETE_FEN).unwrap();
    assert_eq!(pos.perft(4), 4085603);
}

#[test]
fn test_kiwipete_perft_depth_5() {
    let pos = Position::from_fen(KIWIPETE_FEN).unwrap();
    assert_eq!(pos.perft(5), 193690690);
}

#[test]
fn split_perft_counts_each_root_move() {
    let pos = Position::from_fen(STARTPOS_FEN).unwrap();
    let split = pos.split_perft(2);
    assert_eq!(split.len(), 20);
    assert!(split.iter().all(|(_, n)| *n == 20));
    // a move that gives check is left out
    let checks = Position::from_fen("4k3/8/8/8/8/8/8/R3K3 w - - 0 1").unwrap();
    let split = checks.split_perft(1);
    assert!(split.iter().all(|(m, _)| m.uci() != "a1a8"));
    assert!(split.iter().any(|(m, _)| m.uci() == "a1a7"));
}
