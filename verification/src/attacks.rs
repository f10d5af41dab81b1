//! Attack and move sets of each piece kind, as bitboards.
use vstd::prelude::*;
use crate::bits::{in_bb, group_in_bb, lemma_shl_squares, lemma_shr_squares};
use crate::{Sq, Side, Piece, rank_of, file_of, mask_file, mask_rank, iter_bb, union_target};

verus! {

broadcast use group_in_bb;

/// Squares `s` and `t` are a king step apart.
pub open spec fn king_step(s: int, t: int) -> bool {
    &&& 0 <= s < 64
    &&& 0 <= t < 64
    &&& s != t
    &&& -1 <= rank_of(t) - rank_of(s) <= 1
    &&& -1 <= file_of(t) - file_of(s) <= 1
}

/// Squares `s` and `t` are a knight jump apart.
pub open spec fn knight_step(s: int, t: int) -> bool {
    let dr = rank_of(t) - rank_of(s);
    let df = file_of(t) - file_of(s);
    &&& 0 <= s < 64
    &&& 0 <= t < 64
    &&& ((dr == 1 || dr == -1) && (df == 2 || df == -2) || (dr == 2 || dr == -2) && (df == 1
        || df == -1))
}

/// Squares attacked by the pawns in `pawns` towards the a-file side (from White's view
/// "left"), for pawns of `side`.
pub open spec fn pawn_left_target(pawns: u64, side: Side, t: int) -> bool {
    0 <= t < 64 && file_of(t) != 7 && match side {
        Side::White => in_bb(pawns, t - 7),
        Side::Black => in_bb(pawns, t + 9),
    }
}

/// Squares attacked by the pawns in `pawns` towards the h-file side.
pub open spec fn pawn_right_target(pawns: u64, side: Side, t: int) -> bool {
    0 <= t < 64 && file_of(t) != 0 && match side {
        Side::White => in_bb(pawns, t - 9),
        Side::Black => in_bb(pawns, t + 7),
    }
}

/// The square one step forward from `t` for `side`, backwards: the origin of a push to `t`.
pub open spec fn push_origin(side: Side, t: int) -> int {
    match side {
        Side::White => t - 8,
        Side::Black => t + 8,
    }
}

/// Pawns of `side` in `pawns` can step forward onto the empty square `t`.
pub open spec fn pawn_push_target(pawns: u64, occ: u64, side: Side, t: int) -> bool {
    0 <= t < 64 && !in_bb(occ, t) && in_bb(pawns, push_origin(side, t))
}

/// The squares a slider on `s` reaches moving by (`dr`, `df`) over `occ`, at most `n` steps:
/// every square up to and including the first occupied one.
pub open spec fn on_ray(s: int, dr: int, df: int, occ: u64, n: nat, t: int) -> bool
    decreases n,
{
    let r2 = rank_of(s) + dr;
    let f2 = file_of(s) + df;
    let nx = r2 * 8 + f2;
    if n == 0 || !(0 <= r2 < 8 && 0 <= f2 < 8) {
        false
    } else {
        t == nx || (!in_bb(occ, nx) && on_ray(nx, dr, df, occ, (n - 1) as nat, t))
    }
}

/// The bitboard of `on_ray`.
pub open spec fn ray_bb(s: int, dr: int, df: int, occ: u64, n: nat) -> u64
    decreases n,
{
    let r2 = rank_of(s) + dr;
    let f2 = file_of(s) + df;
    let nx = r2 * 8 + f2;
    if n == 0 || !(0 <= r2 < 8 && 0 <= f2 < 8) {
        0
    } else if in_bb(occ, nx) {
        1u64 << (nx as u64)
    } else {
        (1u64 << (nx as u64)) | ray_bb(nx, dr, df, occ, (n - 1) as nat)
    }
}

pub proof fn lemma_ray_bb(s: int, dr: int, df: int, occ: u64, n: nat)
    ensures
        forall|t: int| #[trigger] in_bb(ray_bb(s, dr, df, occ, n), t) == on_ray(s, dr, df, occ, n, t),
    decreases n,
{
    let r2 = rank_of(s) + dr;
    let f2 = file_of(s) + df;
    let nx = r2 * 8 + f2;
    if n == 0 || !(0 <= r2 < 8 && 0 <= f2 < 8) {
    } else {
        lemma_ray_bb(nx, dr, df, occ, (n - 1) as nat);
        assert(0 <= nx < 64);
        assert forall|t: int| #[trigger] in_bb(ray_bb(s, dr, df, occ, n), t) == on_ray(s, dr, df, occ, n, t) by {
            crate::bits::lemma_in_bb_single(nx as u64, t);
            if in_bb(occ, nx) {
                assert(ray_bb(s, dr, df, occ, n) == 1u64 << (nx as u64));
            } else {
                assert(ray_bb(s, dr, df, occ, n) == (1u64 << (nx as u64)) | ray_bb(nx, dr, df, occ, (n - 1) as nat));
            }
        }
    }
}

/// Rook attacks as a bitboard.
pub open spec fn rook_bb(s: int, occ: u64) -> u64 {
    ray_bb(s, 1, 0, occ, 8) | ray_bb(s, -1, 0, occ, 8) | ray_bb(s, 0, 1, occ, 8) | ray_bb(s, 0, -1, occ, 8)
}

/// Bishop attacks as a bitboard.
pub open spec fn bishop_bb(s: int, occ: u64) -> u64 {
    ray_bb(s, 1, 1, occ, 8) | ray_bb(s, 1, -1, occ, 8) | ray_bb(s, -1, 1, occ, 8) | ray_bb(s, -1, -1, occ, 8)
}

/// Squares a rook on `s` attacks over the occupancy `occ`.
pub open spec fn rook_target(s: int, occ: u64, t: int) -> bool {
    on_ray(s, 1, 0, occ, 8, t) || on_ray(s, -1, 0, occ, 8, t) || on_ray(s, 0, 1, occ, 8, t)
        || on_ray(s, 0, -1, occ, 8, t)
}

/// Squares a bishop on `s` attacks over the occupancy `occ`.
pub open spec fn bishop_target(s: int, occ: u64, t: int) -> bool {
    on_ray(s, 1, 1, occ, 8, t) || on_ray(s, 1, -1, occ, 8, t) || on_ray(s, -1, 1, occ, 8, t)
        || on_ray(s, -1, -1, occ, 8, t)
}

pub fn pawn_pushes(pawns: u64, occ: u64, side: Side) -> (r: u64)
    ensures
        forall|t: int| #[trigger] in_bb(r, t) == pawn_push_target(pawns, occ, side, t),
{
    proof {
        lemma_shl_squares(pawns, 8);
        lemma_shr_squares(pawns, 8);
    }
    match side {
        Side::White => (pawns << 8) & !occ,
        Side::Black => (pawns >> 8) & !occ,
    }
}

/// The rank index on which pawns of `side` start.
pub open spec fn pawn_start_rank(side: Side) -> int {
    match side {
        Side::White => 1,
        Side::Black => 6,
    }
}

/// Pawns of `side` on their starting rank can advance two squares to `t`, both squares empty.
pub open spec fn pawn_double_target(pawns: u64, occ: u64, side: Side, t: int) -> bool {
    let mid = push_origin(side, t);
    let from = push_origin(side, mid);
    &&& 0 <= t < 64
    &&& !in_bb(occ, t)
    &&& 0 <= mid < 64
    &&& !in_bb(occ, mid)
    &&& in_bb(pawns, from)
    &&& rank_of(from) == pawn_start_rank(side)
}

pub fn pawn_double_pushes(pawns: u64, occ: u64, side: Side) -> (r: u64)
    ensures
        forall|t: int| #[trigger] in_bb(r, t) == pawn_double_target(pawns, occ, side, t),
{
    let start = pawns & mask_rank(side.pawn_rank());
    let single = pawn_pushes(start, occ, side);
    pawn_pushes(single, occ, side)
}

pub fn pawn_attacks_left(pawns: u64, side: Side) -> (r: (u64, i32))
    ensures
        forall|t: int| #[trigger] in_bb(r.0, t) == pawn_left_target(pawns, side, t),
        r.1 == (if side == Side::White { 7i32 } else { -9i32 }),
{
    let h = mask_file(7);
    proof {
        lemma_shl_squares(pawns, 7);
        lemma_shr_squares(pawns, 9);
    }
    match side {
        Side::White => ((pawns << 7) & !h, 7),
        Side::Black => ((pawns >> 9) & !h, -9),
    }
}

pub fn pawn_attacks_right(pawns: u64, side: Side) -> (r: (u64, i32))
    ensures
        forall|t: int| #[trigger] in_bb(r.0, t) == pawn_right_target(pawns, side, t),
        r.1 == (if side == Side::White { 9i32 } else { -7i32 }),
{
    let a = mask_file(0);
    proof {
        lemma_shl_squares(pawns, 9);
        lemma_shr_squares(pawns, 7);
    }
    match side {
        Side::White => ((pawns << 9) & !a, 9),
        Side::Black => ((pawns >> 7) & !a, -7),
    }
}

pub fn pawn_captures_left(pawns: u64, opp_occ: u64, side: Side) -> (r: (u64, i32))
    ensures
        forall|t: int| #[trigger]
            in_bb(r.0, t) == (pawn_left_target(pawns, side, t) && in_bb(opp_occ, t)),
        r.1 == (if side == Side::White { 7i32 } else { -9i32 }),
{
    let (bb, offset) = pawn_attacks_left(pawns, side);
    (bb & opp_occ, offset)
}

pub fn pawn_captures_right(pawns: u64, opp_occ: u64, side: Side) -> (r: (u64, i32))
    ensures
        forall|t: int| #[trigger]
            in_bb(r.0, t) == (pawn_right_target(pawns, side, t) && in_bb(opp_occ, t)),
        r.1 == (if side == Side::White { 9i32 } else { -7i32 }),
{
    let (bb, offset) = pawn_attacks_right(pawns, side);
    (bb & opp_occ, offset)
}

/// Squares attacked by the pawns `pawns` of `side`.
pub open spec fn pawn_target(pawns: u64, side: Side, t: int) -> bool {
    pawn_left_target(pawns, side, t) || pawn_right_target(pawns, side, t)
}

pub fn pawn_attacks(pawns: u64, side: Side) -> (r: u64)
    ensures
        forall|t: int| #[trigger] in_bb(r, t) == pawn_target(pawns, side, t),
{
    pawn_attacks_left(pawns, side).0 | pawn_attacks_right(pawns, side).0
}

pub fn king_attacks(sq: Sq) -> (r: u64)
    requires
        sq.valid(),
    ensures
        forall|t: int| #[trigger] in_bb(r, t) == king_step(sq.idx(), t),
{
    let base = sq.bb();
    let a = mask_file(0);
    let h = mask_file(7);
    proof {
        lemma_shl_squares(base, 1);
        lemma_shl_squares(base, 7);
        lemma_shl_squares(base, 8);
        lemma_shl_squares(base, 9);
        lemma_shr_squares(base, 1);
        lemma_shr_squares(base, 7);
        lemma_shr_squares(base, 8);
        lemma_shr_squares(base, 9);
    }
    let r = ((base >> 1) & !h) | ((base << 7) & !h) | (base << 8) | ((base << 9) & !a) | ((base
        << 1) & !a) | ((base >> 7) & !a) | (base >> 8) | ((base >> 9) & !h);
    r
}

pub fn king_moves(sq: Sq, allies: u64) -> (r: u64)
    requires
        sq.valid(),
    ensures
        forall|t: int| #[trigger] in_bb(r, t) == (king_step(sq.idx(), t) && !in_bb(allies, t)),
{
    king_attacks(sq) & !allies
}

pub fn knight_attacks(sq: Sq) -> (r: u64)
    requires
        sq.valid(),
    ensures
        forall|t: int| #[trigger] in_bb(r, t) == knight_step(sq.idx(), t),
{
    let base = sq.bb();
    let a = mask_file(0);
    let b = mask_file(1);
    let g = mask_file(6);
    let h = mask_file(7);
    proof {
        lemma_shl_squares(base, 6);
        lemma_shl_squares(base, 15);
        lemma_shl_squares(base, 17);
        lemma_shl_squares(base, 10);
        lemma_shr_squares(base, 6);
        lemma_shr_squares(base, 15);
        lemma_shr_squares(base, 17);
        lemma_shr_squares(base, 10);
    }
    ((base << 6) & !(g | h)) | ((base << 15) & !h) | ((base << 17) & !a) | ((base << 10) & !(a
        | b)) | ((base >> 6) & !(a | b)) | ((base >> 15) & !a) | ((base >> 17) & !h) | ((base
        >> 10) & !(g | h))
}

pub fn knight_moves(sq: Sq, allies: u64) -> (r: u64)
    requires
        sq.valid(),
    ensures
        forall|t: int| #[trigger] in_bb(r, t) == (knight_step(sq.idx(), t) && !in_bb(allies, t)),
{
    knight_attacks(sq) & !allies
}


/// Every square on a ray is on the board.
pub proof fn lemma_on_ray_board(s: int, dr: int, df: int, occ: u64, n: nat, t: int)
    requires
        on_ray(s, dr, df, occ, n, t),
    ensures
        0 <= t < 64,
    decreases n,
{
    let r2 = rank_of(s) + dr;
    let f2 = file_of(s) + df;
    let nx = r2 * 8 + f2;
    if t != nx {
        lemma_on_ray_board(nx, dr, df, occ, (n - 1) as nat, t);
    }
}

/// Rook and bishop targets are on the board.
pub proof fn lemma_slider_targets_board(s: int, occ: u64)
    ensures
        forall|t: int| #[trigger] rook_target(s, occ, t) ==> 0 <= t < 64,
        forall|t: int| #[trigger] bishop_target(s, occ, t) ==> 0 <= t < 64,
{
    assert forall|t: int| #[trigger] rook_target(s, occ, t) implies 0 <= t < 64 by {
        if on_ray(s, 1, 0, occ, 8, t) { lemma_on_ray_board(s, 1, 0, occ, 8, t); }
        if on_ray(s, -1, 0, occ, 8, t) { lemma_on_ray_board(s, -1, 0, occ, 8, t); }
        if on_ray(s, 0, 1, occ, 8, t) { lemma_on_ray_board(s, 0, 1, occ, 8, t); }
        if on_ray(s, 0, -1, occ, 8, t) { lemma_on_ray_board(s, 0, -1, occ, 8, t); }
    }
    assert forall|t: int| #[trigger] bishop_target(s, occ, t) implies 0 <= t < 64 by {
        if on_ray(s, 1, 1, occ, 8, t) { lemma_on_ray_board(s, 1, 1, occ, 8, t); }
        if on_ray(s, 1, -1, occ, 8, t) { lemma_on_ray_board(s, 1, -1, occ, 8, t); }
        if on_ray(s, -1, 1, occ, 8, t) { lemma_on_ray_board(s, -1, 1, occ, 8, t); }
        if on_ray(s, -1, -1, occ, 8, t) { lemma_on_ray_board(s, -1, -1, occ, 8, t); }
    }
}

/// Squares a slider on `sq` reaches along one direction over `occ`.
pub(crate) fn ray_attacks(sq: Sq, dr: i32, df: i32, occ: u64) -> (r: u64)
    requires
        sq.valid(),
        -1 <= dr <= 1,
        -1 <= df <= 1,
    ensures
        forall|t: int| #[trigger] in_bb(r, t) == on_ray(sq.idx(), dr as int, df as int, occ, 8, t),
        r == ray_bb(sq.idx(), dr as int, df as int, occ, 8),
{
    let r = ray_walk(sq, dr, df, occ);
    proof {
        lemma_ray_bb(sq.idx(), dr as int, df as int, occ, 8);
        crate::bits::lemma_same_squares_eq(r, ray_bb(sq.idx(), dr as int, df as int, occ, 8));
    }
    r
}

fn ray_walk(sq: Sq, dr: i32, df: i32, occ: u64) -> (r: u64)
    requires
        sq.valid(),
        -1 <= dr <= 1,
        -1 <= df <= 1,
    ensures
        forall|t: int| #[trigger] in_bb(r, t) == on_ray(sq.idx(), dr as int, df as int, occ, 8, t),
{
    let mut rk = sq.rank() as i32;
    let mut fl = sq.file() as i32;
    let mut acc: u64 = 0;
    let mut n: u32 = 8;
    loop
        invariant
            0 <= rk < 8,
            0 <= fl < 8,
            n <= 8,
            -1 <= dr <= 1,
            -1 <= df <= 1,
            forall|t: int|
                #![trigger on_ray(sq.idx(), dr as int, df as int, occ, 8, t)]
                #![trigger in_bb(acc, t)]
                on_ray(sq.idx(), dr as int, df as int, occ, 8, t) == (in_bb(acc, t) || on_ray(
                    rk * 8 + fl,
                    dr as int,
                    df as int,
                    occ,
                    n as nat,
                    t,
                )),
        decreases n,
    {
        if n == 0 {
            return acc;
        }
        let r2 = rk + dr;
        let f2 = fl + df;
        if r2 < 0 || r2 >= 8 || f2 < 0 || f2 >= 8 {
            return acc;
        }
        let t = Sq((r2 * 8 + f2) as u8);
        let b = t.bb();
        let ghost old_acc = acc;
        acc = acc | b;
        if occ & b != 0 {
            assert(in_bb(occ, t.idx()));
            return acc;
        }
        assert(!in_bb(occ, t.idx()));
        rk = r2;
        fl = f2;
        n = n - 1;
    }
}

/// Squares a rook on `sq` attacks: along ranks and files up to the first occupied square.
pub fn rook_attacks(sq: Sq, occ: u64) -> (r: u64)
    requires
        sq.valid(),
    ensures
        forall|t: int| #[trigger] in_bb(r, t) == rook_target(sq.idx(), occ, t),
        r == rook_bb(sq.idx(), occ),
{
    ray_attacks(sq, 1, 0, occ) | ray_attacks(sq, -1, 0, occ) | ray_attacks(sq, 0, 1, occ)
        | ray_attacks(sq, 0, -1, occ)
}

pub fn rook_moves(sq: Sq, occ: u64, allies: u64) -> (r: u64)
    requires
        sq.valid(),
    ensures
        forall|t: int| #[trigger] in_bb(r, t) == (rook_target(sq.idx(), occ, t) && !in_bb(allies, t)),
{
    proof { lemma_slider_targets_board(sq.idx(), occ); }
    rook_attacks(sq, occ) & !allies
}

/// Squares a bishop on `sq` attacks: along diagonals up to the first occupied square.
pub fn bishop_attacks(sq: Sq, occ: u64) -> (r: u64)
    requires
        sq.valid(),
    ensures
        forall|t: int| #[trigger] in_bb(r, t) == bishop_target(sq.idx(), occ, t),
        r == bishop_bb(sq.idx(), occ),
{
    ray_attacks(sq, 1, 1, occ) | ray_attacks(sq, 1, -1, occ) | ray_attacks(sq, -1, 1, occ)
        | ray_attacks(sq, -1, -1, occ)
}

pub fn bishop_moves(sq: Sq, occ: u64, allies: u64) -> (r: u64)
    requires
        sq.valid(),
    ensures
        forall|t: int| #[trigger] in_bb(r, t) == (bishop_target(sq.idx(), occ, t) && !in_bb(allies, t)),
{
    proof { lemma_slider_targets_board(sq.idx(), occ); }
    bishop_attacks(sq, occ) & !allies
}

pub fn queen_attacks(sq: Sq, occ: u64) -> (r: u64)
    requires
        sq.valid(),
    ensures
        forall|t: int| #[trigger] in_bb(r, t) == (bishop_target(sq.idx(), occ, t) || rook_target(sq.idx(), occ, t)),
        r == bishop_bb(sq.idx(), occ) | rook_bb(sq.idx(), occ),
{
    bishop_attacks(sq, occ) | rook_attacks(sq, occ)
}

pub fn queen_moves(sq: Sq, occ: u64, allies: u64) -> (r: u64)
    requires
        sq.valid(),
    ensures
        forall|t: int| #[trigger]
            in_bb(r, t) == ((bishop_target(sq.idx(), occ, t) || rook_target(sq.idx(), occ, t)) && !in_bb(allies, t)),
{
    proof { lemma_slider_targets_board(sq.idx(), occ); }
    queen_attacks(sq, occ) & !allies
}


/// Square `t` is attacked by a piece of kind `p` (not a pawn) on `s` over `occ`.
pub open spec fn piece_target(p: Piece, s: int, occ: u64, t: int) -> bool {
    match p {
        Piece::Knight => knight_step(s, t),
        Piece::Bishop => bishop_target(s, occ, t),
        Piece::Rook => rook_target(s, occ, t),
        Piece::Queen => bishop_target(s, occ, t) || rook_target(s, occ, t),
        Piece::King => king_step(s, t),
        Piece::Pawn => false,
    }
}

/// Squares attacked by a piece of kind `p` (not a pawn) on `sq`.
pub fn attacks_of(p: Piece, sq: Sq, occ: u64) -> (r: u64)
    requires
        sq.valid(),
        p != Piece::Pawn,
    ensures
        forall|t: int| #[trigger] in_bb(r, t) == piece_target(p, sq.idx(), occ, t),
{
    match p {
        Piece::Knight => knight_attacks(sq),
        Piece::Bishop => bishop_attacks(sq, occ),
        Piece::Rook => rook_attacks(sq, occ),
        Piece::Queen => queen_attacks(sq, occ),
        _ => king_attacks(sq),
    }
}

/// A piece of kind `p` among `pieces` but outside `rest` attacks `t`.
pub open spec fn visited_target(p: Piece, pieces: u64, rest: u64, occ: u64, s: int, t: int) -> bool {
    in_bb(pieces, s) && !in_bb(rest, s) && piece_target(p, s, occ, t)
}

/// Squares attacked by any piece of kind `p` (not a pawn) among `pieces`.
pub fn attacks_union(p: Piece, pieces: u64, occ: u64) -> (r: u64)
    requires
        p != Piece::Pawn,
    ensures
        forall|t: int| #[trigger] in_bb(r, t) == union_target(p, pieces, occ, t),
{
    let mut acc: u64 = 0;
    let mut it = iter_bb(pieces);
    loop
        invariant
            p != Piece::Pawn,
            forall|s: int| #[trigger] in_bb(it.rest(), s) ==> in_bb(pieces, s),
            forall|t: int| #[trigger] in_bb(acc, t) == exists|s: int| #[trigger] visited_target(p, pieces, it.rest(), occ, s, t),
        decreases it.rest(),
    {
        let ghost old_rest = it.rest();
        let ghost old_acc = acc;
        match it.next() {
            None => {
                assert forall|t: int| #[trigger] in_bb(acc, t) == union_target(p, pieces, occ, t) by {
                    if in_bb(acc, t) {
                        let s = choose|s: int| #[trigger] visited_target(p, pieces, it.rest(), occ, s, t);
                        assert(in_bb(pieces, s) && piece_target(p, s, occ, t));
                    }
                    if union_target(p, pieces, occ, t) {
                        let s = choose|s: int| #[trigger] in_bb(pieces, s) && piece_target(p, s, occ, t);
                        assert(visited_target(p, pieces, it.rest(), occ, s, t));
                    }
                }
                return acc;
            },
            Some(sq) => {
                let a = attacks_of(p, sq, occ);
                acc = acc | a;
                assert forall|t: int| #[trigger] in_bb(acc, t) == exists|s: int| #[trigger] visited_target(p, pieces, it.rest(), occ, s, t) by {
                    if in_bb(a, t) {
                        assert(visited_target(p, pieces, it.rest(), occ, sq.idx(), t));
                    }
                    if in_bb(old_acc, t) {
                        let s = choose|s: int| #[trigger] visited_target(p, pieces, old_rest, occ, s, t);
                        assert(visited_target(p, pieces, it.rest(), occ, s, t));
                    }
                    if exists|s: int| #[trigger] visited_target(p, pieces, it.rest(), occ, s, t) {
                        let s = choose|s: int| #[trigger] visited_target(p, pieces, it.rest(), occ, s, t);
                        if s != sq.idx() {
                            assert(visited_target(p, pieces, old_rest, occ, s, t));
                        }
                    }
                }
            },
        }
    }
}

} // verus!
