use noggin::{Move, Piece, Sq};

#[test]
fn test_null_promotion_encoding() {
    assert!(Move::new(Sq(10), Sq(10), None).promotion().is_none());
}

#[test]
fn test_knight_promotion_encoding() {
    assert!(matches!(
        Move::new(Sq(10), Sq(10), Some(Piece::Knight)).promotion(),
        Some(Piece::Knight)
    ));
}

#[test]
fn test_bishop_promotion_encoding() {
    assert!(matches!(
        Move::new(Sq(10), Sq(10), Some(Piece::Bishop)).promotion(),
        Some(Piece::Bishop)
    ));
}

#[test]
fn test_rook_promotion_encoding() {
    assert!(matches!(
        Move::new(Sq(10), Sq(10), Some(Piece::Rook)).promotion(),
        Some(Piece::Rook)
    ));
}

#[test]
fn test_queen_promotion_encoding() {
    assert!(matches!(
        Move::new(Sq(10), Sq(10), Some(Piece::Queen)).promotion(),
        Some(Piece::Queen)
    ));
}
