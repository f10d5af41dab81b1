use noggin::movegen::{gen_pseudolegal_captures, gen_pseudolegal_moves};
use noggin::{Move, Position, KIWIPETE_FEN};
use std::collections::HashSet;

#[test]
fn test_capture_gen() {
    let pos = Position::from_fen(KIWIPETE_FEN).unwrap();

    let filtered: HashSet<Move> = gen_pseudolegal_moves(&pos)
        .iter()
        .copied()
        .filter(|&mv| pos.is_capture(mv).is_some())
        .collect();

    let non_filtered: HashSet<Move> = gen_pseudolegal_captures(&pos).iter().copied().collect();

    assert!(filtered.len() > 0);
    assert_eq!(filtered, non_filtered);
}

#[test]
fn test_make_and_unmake_move() {
    let pos = Position::from_fen(KIWIPETE_FEN).unwrap();
    let baseline = pos.clone();

    let moves = gen_pseudolegal_moves(&pos);

    for i in 0..moves.len() {
        let mv = moves.get(i);

        let _child = pos.make_move(mv);

        assert_eq!(pos, baseline);
    }
}

#[test]
fn blocked_edge_pawn_lists_only_king_moves_once() {
    let pos = Position::from_fen("4k3/8/8/8/n7/7n/7P/4K3 w - - 0 1").unwrap();
    let r = gen_pseudolegal_moves(&pos);
    assert_eq!(r.len(), 5);
    let mut got: Vec<String> = r.iter().map(|m| m.uci()).collect();
    got.sort();
    assert_eq!(got, vec!["e1d1", "e1d2", "e1e2", "e1f1", "e1f2"]);
}
