//! Static evaluation: material balance.
use vstd::prelude::*;
use crate::bits::{popcount, count_ones};
use crate::{Position, Piece, Side, Score, material};

verus! {

/// Material of side `c`: each pawn, knight, bishop, rook and queen at its value.
pub open spec fn side_material(pos: Position, c: Side) -> int {
    popcount(pos.bb(Piece::Pawn, c)) * material(Piece::Pawn) + popcount(pos.bb(Piece::Knight, c))
        * material(Piece::Knight) + popcount(pos.bb(Piece::Bishop, c)) * material(Piece::Bishop)
        + popcount(pos.bb(Piece::Rook, c)) * material(Piece::Rook) + popcount(pos.bb(Piece::Queen, c))
        * material(Piece::Queen)
}

/// White's material minus Black's.
pub open spec fn material_balance(pos: Position) -> int {
    side_material(pos, Side::White) - side_material(pos, Side::Black)
}

/// The material balance of the position, from White's point of view.
pub fn evaluate(pos: &Position) -> (r: Score)
    ensures
        r == material_balance(*pos),
        -300_000 <= r <= 300_000,
{
    let mut score: Score = 0;
    let sides = [Side::White, Side::Black];
    let pieces = [Piece::Pawn, Piece::Knight, Piece::Bishop, Piece::Rook, Piece::Queen];
    let mut i: usize = 0;
    while i < 2
        invariant
            i <= 2,
            sides@ == seq![Side::White, Side::Black],
            pieces@ == seq![Piece::Pawn, Piece::Knight, Piece::Bishop, Piece::Rook, Piece::Queen],
            -288_000 <= score <= 288_000,
            score == (if i >= 1 { side_material(*pos, Side::White) } else { 0 }) - (if i >= 2 {
                side_material(*pos, Side::Black)
            } else {
                0
            }),
        decreases 2 - i,
    {
        let side = sides[i];
        let mut j: usize = 0;
        let mut side_score: Score = 0;
        while j < 5
            invariant
                j <= 5,
                pieces@ == seq![Piece::Pawn, Piece::Knight, Piece::Bishop, Piece::Rook, Piece::Queen],
                0 <= side_score <= 57600 * (j as int),
                side_score == partial_material(*pos, side, j as int),
            decreases 5 - j,
        {
            let piece = pieces[j];
            assert(piece == crate::piece_from_index(j as int)->0);
            let n = count_ones(pos.bb_get(piece, side)) as i32;
            let value = piece.material_value();
            assert(0 <= n * value <= 64 * 900) by (nonlinear_arith)
                requires
                    0 <= n <= 64,
                    0 <= value <= 900,
            ;
            let v = n * value;
            assert(side_score + v <= 57600 * (j + 1));
            side_score = side_score + v;
            j += 1;
        }
        proof {
            reveal_with_fuel(partial_material, 6);
            assert(partial_material(*pos, side, 5) == side_material(*pos, side));
        }
        score = score + side_score * side.sign();
        i += 1;
    }
    score
}

/// Material of the first `j` piece kinds of side `c`, pawn first.
pub open spec fn partial_material(pos: Position, c: Side, j: int) -> int
    decreases j,
{
    if j <= 0 {
        0
    } else {
        let p = crate::piece_from_index(j - 1)->0;
        partial_material(pos, c, j - 1) + popcount(pos.bb(p, c)) * material(p)
    }
}

/// The material values: a pawn is worth 100, a knight 300, a bishop 350, a rook 500, a queen
/// 900, and the king nothing.
pub proof fn lemma_material_values()
    ensures
        material(Piece::Pawn) == 100,
        material(Piece::Knight) == 300,
        material(Piece::Bishop) == 350,
        material(Piece::Rook) == 500,
        material(Piece::Queen) == 900,
        material(Piece::King) == 0,
{
}

/// The static evaluation counts each piece of White at its value and each of Black against:
/// 100 per pawn, 300 per knight, 350 per bishop, 500 per rook, 900 per queen.
pub proof fn lemma_material_balance(pos: Position)
    ensures
        material_balance(pos) == 100 * (popcount(pos.bb(Piece::Pawn, Side::White)) - popcount(pos.bb(Piece::Pawn, Side::Black)))
            + 300 * (popcount(pos.bb(Piece::Knight, Side::White)) - popcount(pos.bb(Piece::Knight, Side::Black)))
            + 350 * (popcount(pos.bb(Piece::Bishop, Side::White)) - popcount(pos.bb(Piece::Bishop, Side::Black)))
            + 500 * (popcount(pos.bb(Piece::Rook, Side::White)) - popcount(pos.bb(Piece::Rook, Side::Black)))
            + 900 * (popcount(pos.bb(Piece::Queen, Side::White)) - popcount(pos.bb(Piece::Queen, Side::Black))),
{
    lemma_material_values();
    let wp = popcount(pos.bb(Piece::Pawn, Side::White)) as int;
    let wn = popcount(pos.bb(Piece::Knight, Side::White)) as int;
    let wb = popcount(pos.bb(Piece::Bishop, Side::White)) as int;
    let wr = popcount(pos.bb(Piece::Rook, Side::White)) as int;
    let wq = popcount(pos.bb(Piece::Queen, Side::White)) as int;
    let bp = popcount(pos.bb(Piece::Pawn, Side::Black)) as int;
    let bn = popcount(pos.bb(Piece::Knight, Side::Black)) as int;
    let bb = popcount(pos.bb(Piece::Bishop, Side::Black)) as int;
    let br = popcount(pos.bb(Piece::Rook, Side::Black)) as int;
    let bq = popcount(pos.bb(Piece::Queen, Side::Black)) as int;
    assert(side_material(pos, Side::White) == wp * 100 + wn * 300 + wb * 350 + wr * 500 + wq * 900);
    assert(side_material(pos, Side::Black) == bp * 100 + bn * 300 + bb * 350 + br * 500 + bq * 900);
    assert(wp * 100 + wn * 300 + wb * 350 + wr * 500 + wq * 900 - (bp * 100 + bn * 300 + bb * 350 + br * 500 + bq * 900)
        == 100 * (wp - bp) + 300 * (wn - bn) + 350 * (wb - bb) + 500 * (wr - br) + 900 * (wq - bq)) by (nonlinear_arith);
}

} // verus!
