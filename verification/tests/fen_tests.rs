use noggin::{Position, KIWIPETE_FEN, STARTPOS_FEN};

#[test]
fn test_startpos_read_write() {
    assert_eq!(Position::from_fen(STARTPOS_FEN).unwrap().fen(), STARTPOS_FEN);
}

#[test]
fn test_kiwipete_read_write() {
    assert_eq!(Position::from_fen(KIWIPETE_FEN).unwrap().fen(), KIWIPETE_FEN);
}

#[test]
fn fen_without_rights_or_en_passant_is_single_spaced() {
    let text = "8/8/8/8/8/K7/P7/k7 w - - 0 1";
    let pos = Position::from_fen(text).unwrap();
    assert_eq!(pos.fen(), text);
}
