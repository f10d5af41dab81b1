//! King safety of the listed moves: what the position after a move shows of the king that moved.
use vstd::prelude::*;
use crate::bits::{in_bb, group_in_bb};
use crate::{Position, Piece, Side, Move, union_target};
use crate::lines::{segment, diagonal_dir, straight_dir, full_line, any_dir};
use crate::attacks::{on_ray, rook_target, bishop_target, piece_target, pawn_target, pawn_left_target, pawn_right_target, king_step, knight_step};

verus! {

broadcast use group_in_bb;

/// Whether a slider reaches `t` does not depend on whether `t` itself is occupied.
proof fn lemma_ray_ignores_target(s: int, dr: int, df: int, a: u64, b: u64, n: nat, t: int)
    requires
        forall|x: int| x != t ==> #[trigger] in_bb(a, x) == in_bb(b, x),
    ensures
        on_ray(s, dr, df, a, n, t) == on_ray(s, dr, df, b, n, t),
    decreases n,
{
    if n > 0 {
        let nx = (crate::rank_of(s) + dr) * 8 + crate::file_of(s) + df;
        lemma_ray_ignores_target(nx, dr, df, a, b, (n - 1) as nat, t);
        if nx != t {
            assert(in_bb(a, nx) == in_bb(b, nx));
        }
    }
}

/// Slider attacks on `t` over two occupancies that differ at most on `t` are the same.
proof fn lemma_sliders_ignore_target(s: int, a: u64, b: u64, t: int)
    requires
        forall|x: int| x != t ==> #[trigger] in_bb(a, x) == in_bb(b, x),
    ensures
        rook_target(s, a, t) == rook_target(s, b, t),
        bishop_target(s, a, t) == bishop_target(s, b, t),
{
    lemma_ray_ignores_target(s, 1, 0, a, b, 8, t);
    lemma_ray_ignores_target(s, -1, 0, a, b, 8, t);
    lemma_ray_ignores_target(s, 0, 1, a, b, 8, t);
    lemma_ray_ignores_target(s, 0, -1, a, b, 8, t);
    lemma_ray_ignores_target(s, 1, 1, a, b, 8, t);
    lemma_ray_ignores_target(s, 1, -1, a, b, 8, t);
    lemma_ray_ignores_target(s, -1, 1, a, b, 8, t);
    lemma_ray_ignores_target(s, -1, -1, a, b, 8, t);
}

/// A square is in the occupancy exactly when something stands on it.
proof fn lemma_occupied(p: Position, s: int)
    requires
        p.board_ok(),
    ensures
        in_bb(p.occ_bb(), s) == (0 <= s < 64 && p.occupants()[s] is Some),
{
    p.lemma_describes_occupants();
    let o = p.occupants();
    if 0 <= s < 64 && o[s] is Some {
        let (pc, c) = o[s]->0;
        assert(in_bb(p.bb(pc, c), s));
    }
}

/// A king step the moves list holds never leaves the king attacked: in the position after
/// it, no piece of the side to move attacks the square of the king that moved.
proof fn lemma_king_step_safe(p: Position, m: Move, q: Position)
    requires
        p.wf(),
        p.king_move(m),
        p.applicable(m),
        p.plays(m, q),
    ensures
        !q.attacked(q.side_to_move(), q.occ_bb(), q.king_square(q.side_to_move().other())),
{
    let c = p.side_to_move();
    let o = c.other();
    let k = p.king_square(c);
    let t = choose|t: int| #[trigger] p.king_evasion(t) && m == Move::spec_new(k, t, None);
    Move::lemma_spec_new(k, t, None);
    p.lemma_kings();
    p.lemma_describes_occupants();
    q.lemma_kings();
    q.lemma_describes_occupants();
    let po = p.occupants();
    let qo = q.occupants();
    assert(p.moved(m) == Piece::King) by {
        assert(p.piece_on(k, Piece::King, c));
    }
    assert(p.castle_of(m) is None);
    // What stands where after the step.
    assert forall|s: int| 0 <= s < 64 && s != k && s != t implies #[trigger] qo[s] == po[s] by {}
    assert(qo[t] == Some((Piece::King, c)));
    assert(qo[k] is None);
    assert(q.side_to_move() == o);
    // The king of `c` now stands on `t`, that of `o` where it stood.
    assert(q.piece_on(t, Piece::King, c));
    assert(q.king_square(c) == t);
    assert(q.piece_on(q.king_square(o), Piece::King, o));
    assert(p.piece_on(q.king_square(o), Piece::King, o));
    assert(q.king_square(o) == p.king_square(o));
    // Every piece of `o` after the step stood there before.
    assert forall|pc: Piece, s: int| #[trigger] in_bb(q.bb(pc, o), s) implies in_bb(p.bb(pc, o), s) && s != t by {
        assert(qo[s] == Some((pc, o)));
    }
    // The occupancy after the step and that of the threats agree but on `t`.
    let kingless = p.occ_bb() ^ (1u64 << (k as u64));
    assert forall|x: int| x != t implies #[trigger] in_bb(q.occ_bb(), x) == in_bb(kingless, x) by {
        lemma_occupied(q, x);
        lemma_occupied(p, x);
        crate::bits::lemma_in_bb_single(k as u64, x);
    }
    assert(!in_bb(p.threat_bb(), t));
    assert(!p.attacked(o, kingless, t));
    if q.attacked(o, q.occ_bb(), t) {
        let pawns_q = q.bb(Piece::Pawn, o);
        let pawns_p = p.bb(Piece::Pawn, o);
        if pawn_target(pawns_q, o, t) {
            if pawn_left_target(pawns_q, o, t) {
                assert(pawn_left_target(pawns_p, o, t));
            } else {
                assert(pawn_right_target(pawns_p, o, t));
            }
        } else if union_target(Piece::Knight, q.bb(Piece::Knight, o), q.occ_bb(), t) {
            let s = choose|s: int| #[trigger] in_bb(q.bb(Piece::Knight, o), s) && piece_target(Piece::Knight, s, q.occ_bb(), t);
            assert(in_bb(p.bb(Piece::Knight, o), s) && piece_target(Piece::Knight, s, kingless, t));
        } else if union_target(Piece::Bishop, q.bb(Piece::Bishop, o), q.occ_bb(), t) {
            let s = choose|s: int| #[trigger] in_bb(q.bb(Piece::Bishop, o), s) && piece_target(Piece::Bishop, s, q.occ_bb(), t);
            lemma_sliders_ignore_target(s, q.occ_bb(), kingless, t);
            assert(in_bb(p.bb(Piece::Bishop, o), s) && piece_target(Piece::Bishop, s, kingless, t));
        } else if union_target(Piece::Rook, q.bb(Piece::Rook, o), q.occ_bb(), t) {
            let s = choose|s: int| #[trigger] in_bb(q.bb(Piece::Rook, o), s) && piece_target(Piece::Rook, s, q.occ_bb(), t);
            lemma_sliders_ignore_target(s, q.occ_bb(), kingless, t);
            assert(in_bb(p.bb(Piece::Rook, o), s) && piece_target(Piece::Rook, s, kingless, t));
        } else if union_target(Piece::Queen, q.bb(Piece::Queen, o), q.occ_bb(), t) {
            let s = choose|s: int| #[trigger] in_bb(q.bb(Piece::Queen, o), s) && piece_target(Piece::Queen, s, q.occ_bb(), t);
            lemma_sliders_ignore_target(s, q.occ_bb(), kingless, t);
            assert(in_bb(p.bb(Piece::Queen, o), s) && piece_target(Piece::Queen, s, kingless, t));
        } else {
            assert(king_step(p.king_square(o), t));
        }
    }
}

/// A ray keeps going the way it steps: the rank and file of every square it reaches differ
/// from those of its start in the sign of the step.
proof fn lemma_ray_direction(s: int, dr: int, df: int, occ: u64, n: nat, t: int)
    requires
        on_ray(s, dr, df, occ, n, t),
        -1 <= dr <= 1,
        -1 <= df <= 1,
    ensures
        dr == 0 ==> crate::rank_of(t) == crate::rank_of(s),
        dr == 1 ==> crate::rank_of(t) > crate::rank_of(s),
        dr == -1 ==> crate::rank_of(t) < crate::rank_of(s),
        df == 0 ==> crate::file_of(t) == crate::file_of(s),
        df == 1 ==> crate::file_of(t) > crate::file_of(s),
        df == -1 ==> crate::file_of(t) < crate::file_of(s),
        dr == df ==> crate::rank_of(t) - crate::rank_of(s) == crate::file_of(t) - crate::file_of(s),
        dr == -df ==> crate::rank_of(t) - crate::rank_of(s) == crate::file_of(s) - crate::file_of(t),
        0 <= t < 64,
    decreases n,
{
    let r2 = crate::rank_of(s) + dr;
    let f2 = crate::file_of(s) + df;
    let nx = r2 * 8 + f2;
    assert(crate::rank_of(nx) == r2 && crate::file_of(nx) == f2);
    if t != nx {
        lemma_ray_direction(nx, dr, df, occ, (n - 1) as nat, t);
    }
}

/// A slider that reaches `t` over `a` reaches it over `b` when `b` blocks no square that `a`
/// leaves open, but for `t` itself and a square `y` at the edge of `t`'s rank beyond it.
proof fn lemma_ray_fewer_blockers(s: int, dr: int, df: int, a: u64, b: u64, n: nat, t: int, y: int)
    requires
        on_ray(s, dr, df, a, n, t),
        -1 <= dr <= 1,
        -1 <= df <= 1,
        forall|x: int| x != t && x != y && #[trigger] in_bb(b, x) ==> in_bb(a, x),
        crate::rank_of(y) == crate::rank_of(t),
        (crate::file_of(y) == 7 && crate::file_of(t) < 7) || (crate::file_of(y) == 0 && crate::file_of(t) > 0),
    ensures
        on_ray(s, dr, df, b, n, t),
    decreases n,
{
    let r2 = crate::rank_of(s) + dr;
    let f2 = crate::file_of(s) + df;
    let nx = r2 * 8 + f2;
    assert(crate::rank_of(nx) == r2 && crate::file_of(nx) == f2);
    if t != nx {
        if nx == y {
            lemma_ray_direction(nx, dr, df, a, (n - 1) as nat, t);
            assert(false);
        }
        assert(!in_bb(b, nx));
        lemma_ray_fewer_blockers(nx, dr, df, a, b, (n - 1) as nat, t, y);
    }
}

/// Slider attacks on `t` over `a` are attacks over `b` when `b` blocks no square that `a`
/// leaves open, but for `t` and a square `y` at the edge of `t`'s rank beyond it.
proof fn lemma_sliders_fewer_blockers(s: int, a: u64, b: u64, t: int, y: int)
    requires
        forall|x: int| x != t && x != y && #[trigger] in_bb(b, x) ==> in_bb(a, x),
        crate::rank_of(y) == crate::rank_of(t),
        (crate::file_of(y) == 7 && crate::file_of(t) < 7) || (crate::file_of(y) == 0 && crate::file_of(t) > 0),
    ensures
        rook_target(s, a, t) ==> rook_target(s, b, t),
        bishop_target(s, a, t) ==> bishop_target(s, b, t),
{
    if on_ray(s, 1, 0, a, 8, t) { lemma_ray_fewer_blockers(s, 1, 0, a, b, 8, t, y); }
    if on_ray(s, -1, 0, a, 8, t) { lemma_ray_fewer_blockers(s, -1, 0, a, b, 8, t, y); }
    if on_ray(s, 0, 1, a, 8, t) { lemma_ray_fewer_blockers(s, 0, 1, a, b, 8, t, y); }
    if on_ray(s, 0, -1, a, 8, t) { lemma_ray_fewer_blockers(s, 0, -1, a, b, 8, t, y); }
    if on_ray(s, 1, 1, a, 8, t) { lemma_ray_fewer_blockers(s, 1, 1, a, b, 8, t, y); }
    if on_ray(s, 1, -1, a, 8, t) { lemma_ray_fewer_blockers(s, 1, -1, a, b, 8, t, y); }
    if on_ray(s, -1, 1, a, 8, t) { lemma_ray_fewer_blockers(s, -1, 1, a, b, 8, t, y); }
    if on_ray(s, -1, -1, a, 8, t) { lemma_ray_fewer_blockers(s, -1, -1, a, b, 8, t, y); }
}

/// Castling as the moves list holds it never leaves the king attacked: in the position after
/// it, no piece of the side to move attacks the square the king went to.
#[verifier::spinoff_prover]
#[verifier::rlimit(30)]
proof fn lemma_castle_safe(p: Position, m: Move, q: Position)
    requires
        p.wf(),
        p.castle_to(true, m) || p.castle_to(false, m),
        p.applicable(m),
        p.plays(m, q),
    ensures
        !q.attacked(q.side_to_move(), q.occ_bb(), q.king_square(q.side_to_move().other())),
{
    let c = p.side_to_move();
    let o = c.other();
    let h = c.home();
    let ks = p.castle_to(true, m);
    crate::move_gen::lemma_castle_fits(p, ks);
    let k = p.king_square(c);
    assert(k == h * 8 + 4);
    let t = h * 8 + (if ks { 6int } else { 2int });
    let rf = if ks { h * 8 + 7 } else { h * 8 };
    let rt = if ks { h * 8 + 5 } else { h * 8 + 3 };
    Move::lemma_spec_new(k, t, None);
    assert(m == Move::spec_new(k, t, None));
    p.lemma_kings();
    p.lemma_describes_occupants();
    q.lemma_kings();
    q.lemma_describes_occupants();
    let po = p.occupants();
    let qo = q.occupants();
    assert(p.moved(m) == Piece::King) by {
        assert(p.piece_on(k, Piece::King, c));
    }
    p.lemma_empty(t);
    assert(p.capture_of(m) is None);
    assert(p.castle_of(m) == Some((rf, rt)));
    p.lemma_empty(rt);
    // What stands where after castling.
    assert forall|x: int| 0 <= x < 64 && x != k && x != t && x != rf && x != rt implies #[trigger] qo[x] == po[x] by {}
    assert(qo[t] == Some((Piece::King, c)));
    assert(qo[rt] == Some((Piece::Rook, c)));
    assert(qo[k] is None && qo[rf] is None);
    assert(po[rf] == Some((Piece::Rook, c)));
    assert(q.side_to_move() == o);
    // The king of `c` now stands on `t`, that of `o` where it stood.
    assert(q.piece_on(t, Piece::King, c));
    assert(q.king_square(c) == t);
    assert(q.piece_on(q.king_square(o), Piece::King, o));
    assert(p.piece_on(q.king_square(o), Piece::King, o));
    assert(q.king_square(o) == p.king_square(o));
    // Every piece of `o` after castling stood there before.
    assert forall|pc: Piece, x: int| #[trigger] in_bb(q.bb(pc, o), x) implies in_bb(p.bb(pc, o), x) && x != t by {
        assert(qo[x] == Some((pc, o)));
    }
    // Castling leaves open no square that was blocked, but for the rook's corner.
    let kingless = p.occ_bb() ^ (1u64 << (k as u64));
    assert forall|x: int| x != t && x != rf && #[trigger] in_bb(kingless, x) implies in_bb(q.occ_bb(), x) by {
        lemma_occupied(q, x);
        lemma_occupied(p, x);
        crate::bits::lemma_in_bb_single(k as u64, x);
    }
    assert(!in_bb(p.threat_bb(), t));
    assert(!p.attacked(o, kingless, t));
    if q.attacked(o, q.occ_bb(), t) {
        let pawns_q = q.bb(Piece::Pawn, o);
        let pawns_p = p.bb(Piece::Pawn, o);
        if pawn_target(pawns_q, o, t) {
            if pawn_left_target(pawns_q, o, t) {
                assert(pawn_left_target(pawns_p, o, t));
            } else {
                assert(pawn_right_target(pawns_p, o, t));
            }
        } else if union_target(Piece::Knight, q.bb(Piece::Knight, o), q.occ_bb(), t) {
            let s = choose|s: int| #[trigger] in_bb(q.bb(Piece::Knight, o), s) && piece_target(Piece::Knight, s, q.occ_bb(), t);
            assert(in_bb(p.bb(Piece::Knight, o), s) && piece_target(Piece::Knight, s, kingless, t));
        } else if union_target(Piece::Bishop, q.bb(Piece::Bishop, o), q.occ_bb(), t) {
            let s = choose|s: int| #[trigger] in_bb(q.bb(Piece::Bishop, o), s) && piece_target(Piece::Bishop, s, q.occ_bb(), t);
            lemma_sliders_fewer_blockers(s, q.occ_bb(), kingless, t, rf);
            assert(in_bb(p.bb(Piece::Bishop, o), s) && piece_target(Piece::Bishop, s, kingless, t));
        } else if union_target(Piece::Rook, q.bb(Piece::Rook, o), q.occ_bb(), t) {
            let s = choose|s: int| #[trigger] in_bb(q.bb(Piece::Rook, o), s) && piece_target(Piece::Rook, s, q.occ_bb(), t);
            lemma_sliders_fewer_blockers(s, q.occ_bb(), kingless, t, rf);
            assert(in_bb(p.bb(Piece::Rook, o), s) && piece_target(Piece::Rook, s, kingless, t));
        } else if union_target(Piece::Queen, q.bb(Piece::Queen, o), q.occ_bb(), t) {
            let s = choose|s: int| #[trigger] in_bb(q.bb(Piece::Queen, o), s) && piece_target(Piece::Queen, s, q.occ_bb(), t);
            lemma_sliders_fewer_blockers(s, q.occ_bb(), kingless, t, rf);
            assert(in_bb(p.bb(Piece::Queen, o), s) && piece_target(Piece::Queen, s, kingless, t));
        } else {
            assert(king_step(p.king_square(o), t));
        }
    }
}

/// A listed move that moves the king is a king step or castling.
proof fn lemma_listed_king_move(p: Position, m: Move)
    requires
        p.wf(),
        p.listed_move(m),
        p.moved(m) == Piece::King,
    ensures
        p.king_move(m) || p.castle_to(true, m) || p.castle_to(false, m),
{
    let c = p.side_to_move();
    let last = c.other().home();
    let n = crate::bits::popcount(p.checker_bb());
    let all = 0xffff_ffff_ffff_ffffu64;
    let mask = if n == 0 {
        all
    } else {
        p.check_mask(Some(crate::Sq(vstd::std_specs::bits::u64_trailing_zeros(p.checker_bb()) as u8)))
    };
    if !p.king_move(m) {
        assert(p.standard_move(mask, n == 0, m));
        if exists|t: int| #[trigger] p.push_to(mask, t, m) {
            let t = choose|t: int| #[trigger] p.push_to(mask, t, m);
            let f = crate::attacks::push_origin(c, t);
            let pr = choose|pr: Option<Piece>| #[trigger] crate::move_gen::pawn_move(last, f, t, pr, m);
            Move::lemma_spec_new(f, t, pr);
            p.lemma_occupant_of(Piece::Pawn, c, f);
        } else if exists|t: int| #[trigger] p.double_to(mask, t, m) {
            let t = choose|t: int| #[trigger] p.double_to(mask, t, m);
            let f = t - 2 * crate::position::forward(c);
            let pr = choose|pr: Option<Piece>| #[trigger] crate::move_gen::pawn_move(last, f, t, pr, m);
            Move::lemma_spec_new(f, t, pr);
            p.lemma_occupant_of(Piece::Pawn, c, f);
        } else if p.ep_capture(true, m) || p.ep_capture(false, m) {
            let left = p.ep_capture(true, m);
            let e = p.ep_square()->0;
            let f = if left { e.idx() - Position::left_offset(c) } else { e.idx() - Position::right_offset(c) };
            let pawns = p.bb(Piece::Pawn, c);
            assert(in_bb(pawns, f));
            Move::lemma_spec_new(f, e.idx(), None);
            p.lemma_occupant_of(Piece::Pawn, c, f);
        } else if exists|t: int| #[trigger] p.capture_to(mask, true, t, m) {
            let t = choose|t: int| #[trigger] p.capture_to(mask, true, t, m);
            let f = t - Position::left_offset(c);
            let pr = choose|pr: Option<Piece>| #[trigger] crate::move_gen::pawn_move(last, f, t, pr, m);
            Move::lemma_spec_new(f, t, pr);
            p.lemma_occupant_of(Piece::Pawn, c, f);
        } else if exists|t: int| #[trigger] p.capture_to(mask, false, t, m) {
            let t = choose|t: int| #[trigger] p.capture_to(mask, false, t, m);
            let f = t - Position::right_offset(c);
            let pr = choose|pr: Option<Piece>| #[trigger] crate::move_gen::pawn_move(last, f, t, pr, m);
            Move::lemma_spec_new(f, t, pr);
            p.lemma_occupant_of(Piece::Pawn, c, f);
        } else if exists|pc: Piece, f: int| pc != Piece::King && #[trigger] p.piece_from(mask, pc, f, m) {
            let (pc, f) = choose|pc: Piece, f: int| pc != Piece::King && #[trigger] p.piece_from(mask, pc, f, m);
            let t = choose|t: int| #[trigger] p.piece_to(mask, pc, f, t, m);
            crate::attacks::lemma_slider_targets_board(f, p.occ_bb());
            Move::lemma_spec_new(f, t, None);
            p.lemma_occupant_of(pc, c, f);
        } else {
            assert(n == 0 && (p.castle_to(true, m) || p.castle_to(false, m)));
        }
    }
}

/// A move of the king that the moves list holds never leaves the king attacked: after a step
/// or after castling, no piece of the side then to move attacks the square of the king that
/// moved.
pub proof fn lemma_king_moves_safe(p: Position, m: Move, q: Position)
    requires
        p.wf(),
        p.listed_move(m),
        p.moved(m) == Piece::King,
        p.applicable(m),
        p.plays(m, q),
    ensures
        !q.attacked(q.side_to_move(), q.occ_bb(), q.king_square(q.side_to_move().other())),
{
    lemma_listed_king_move(p, m);
    if p.king_move(m) {
        lemma_king_step_safe(p, m, q);
    } else {
        lemma_castle_safe(p, m, q);
    }
}

/// A square strictly before `k` on a ray from `y` that reaches `k` over `b` is empty in `b`.
proof fn lemma_clear_path(y: int, dr: int, df: int, b: u64, m: nat, k: int, x: int)
    requires
        0 <= k < 64,
        on_ray(y, dr, df, 1u64 << (k as u64), m, x),
        x != k,
        on_ray(y, dr, df, b, m, k),
    ensures
        !in_bb(b, x),
    decreases m,
{
    let nx = (crate::rank_of(y) + dr) * 8 + crate::file_of(y) + df;
    crate::bits::lemma_in_bb_single(k as u64, nx);
    if x != nx {
        lemma_clear_path(nx, dr, df, b, (m - 1) as nat, k, x);
    }
}

/// When a ray from `s` reaches `k` over `b` but not over `a`, and the two occupancies differ
/// only on `f` (held in `a` alone) and `t` (held in `b`), then `f` stands between `s` and `k`
/// and is the one square between them held in `a`.
proof fn lemma_discovery(s: int, dr: int, df: int, a: u64, b: u64, n: nat, k: int, f: int, t: int)
    requires
        0 <= k < 64,
        on_ray(s, dr, df, b, n, k),
        !on_ray(s, dr, df, a, n, k),
        forall|x: int| x != f && x != t ==> #[trigger] in_bb(a, x) == in_bb(b, x),
        in_bb(b, t),
        !in_bb(b, f),
    ensures
        on_ray(s, dr, df, 1u64 << (k as u64), n, f),
        f != k,
        in_bb(a, f),
        forall|x: int| on_ray(s, dr, df, 1u64 << (k as u64), n, x) && x != k && #[trigger] in_bb(a, x) ==> x == f,
    decreases n,
{
    let nx = (crate::rank_of(s) + dr) * 8 + crate::file_of(s) + df;
    crate::bits::lemma_in_bb_single(k as u64, nx);
    if in_bb(a, nx) {
        assert(nx == f);
        assert forall|x: int| on_ray(s, dr, df, 1u64 << (k as u64), n, x) && x != k && #[trigger] in_bb(a, x) implies x == f by {
            if x != nx {
                lemma_clear_path(nx, dr, df, b, (n - 1) as nat, k, x);
            }
        }
    } else {
        lemma_discovery(nx, dr, df, a, b, (n - 1) as nat, k, f, t);
    }
}

/// A bitboard of one square has one set bit.
proof fn lemma_popcount_single(f: u64)
    requires
        f < 64,
    ensures
        crate::bits::popcount(1u64 << f) == 1,
    decreases f,
{
    let b = 1u64 << f;
    let g: u64 = if f > 0 { (f - 1) as u64 } else { 0 };
    assert(b != 0 && (f == 0 ==> b == 1 && b & 1 == 1 && b / 2 == 0) && (f > 0 ==> b & 1 == 0 && b / 2 == 1u64 << g))
        by (bit_vector)
        requires
            b == 1u64 << f,
            f < 64,
            f > 0 ==> g == f - 1,
    ;
    if f == 0 {
        assert(crate::bits::popcount(0) == 0);
    } else {
        lemma_popcount_single(g);
    }
}

/// The step of a ray from `s` that reaches `k` is the step from `s` towards `k`: a diagonal
/// one when both its parts are non-zero, else a straight one.
proof fn lemma_ray_dir(s: int, dr: int, df: int, occ: u64, k: int)
    requires
        0 <= s < 64,
        on_ray(s, dr, df, occ, 8, k),
        -1 <= dr <= 1,
        -1 <= df <= 1,
        dr != 0 || df != 0,
    ensures
        dr != 0 && df != 0 ==> diagonal_dir(s, k) == Some((dr, df)) && straight_dir(s, k) is None,
        dr == 0 || df == 0 ==> straight_dir(s, k) == Some((dr, df)) && diagonal_dir(s, k) is None,
        k != s,
{
    lemma_ray_direction(s, dr, df, occ, 8, k);
}

/// The squares of the segment from `s` along a step towards `k`: `s` and the squares of the
/// ray from `s` up to `k`.
proof fn lemma_segment_squares(s: int, dr: int, df: int, k: int)
    requires
        0 <= s < 64,
        0 <= k < 64,
    ensures
        forall|x: int| #[trigger] in_bb(segment(s, k, Some((dr, df))), x) == (x == s || on_ray(s, dr, df, 1u64 << (k as u64), 8, x)),
{
    crate::attacks::lemma_ray_bb(s, dr, df, 1u64 << (k as u64), 8);
    assert forall|x: int| #[trigger] in_bb(segment(s, k, Some((dr, df))), x) == (x == s || on_ray(s, dr, df, 1u64 << (k as u64), 8, x)) by {
        crate::bits::lemma_in_bb_single(s as u64, x);
        if on_ray(s, dr, df, 1u64 << (k as u64), 8, x) {
            crate::attacks::lemma_on_ray_board(s, dr, df, 1u64 << (k as u64), 8, x);
        }
    }
}

/// A square that is the one occupied square between an opponent slider and the mover's king,
/// on a line the slider moves along, is pinned by it.
proof fn lemma_pin_found(p: Position, kind: Piece, s: int, dr: int, df: int, b: u64, f: int)
    requires
        p.board_ok(),
        kind == Piece::Bishop || kind == Piece::Rook || kind == Piece::Queen,
        kind == Piece::Bishop ==> dr != 0 && df != 0,
        kind == Piece::Rook ==> dr == 0 || df == 0,
        -1 <= dr <= 1,
        -1 <= df <= 1,
        dr != 0 || df != 0,
        p.piece_on(s, kind, p.side_to_move().other()),
        on_ray(s, dr, df, b, 8, p.king_square(p.side_to_move())),
        on_ray(s, dr, df, 1u64 << (p.king_square(p.side_to_move()) as u64), 8, f),
        f != p.king_square(p.side_to_move()),
        f != s,
        in_bb(p.occ_bb(), f),
        forall|x: int| on_ray(s, dr, df, 1u64 << (p.king_square(p.side_to_move()) as u64), 8, x)
            && x != p.king_square(p.side_to_move()) && #[trigger] in_bb(p.occ_bb(), x) ==> x == f,
    ensures
        p.pin_via(kind, s, f),
{
    let c = p.side_to_move();
    let k = p.king_square(c);
    p.lemma_kings();
    assert(0 <= s < 64) by {
        assert(in_bb(p.bb(kind, c.other()), s));
    }
    lemma_ray_dir(s, dr, df, b, k);
    lemma_segment_squares(s, dr, df, k);
    let ends = !((1u64 << (s as u64)) | (1u64 << (k as u64)));
    assert forall|x: int| #[trigger] in_bb(ends, x) == (0 <= x < 64 && x != s && x != k) by {
        crate::bits::lemma_in_bb_single(s as u64, x);
        crate::bits::lemma_in_bb_single(k as u64, x);
    }
    let between = p.between_king(kind, s);
    let seg = segment(s, k, Some((dr, df)));
    assert forall|x: int| #[trigger] in_bb(between, x) == (in_bb(seg, x) && in_bb(ends, x)) by {
        assert(segment(s, k, None) == 0u64);
    }
    let mask = p.occ_bb() & between;
    assert forall|x: int| 0 <= x < 64 implies #[trigger] in_bb(mask, x) == in_bb(1u64 << (f as u64), x) by {
        crate::bits::lemma_in_bb_single(f as u64, x);
        crate::attacks::lemma_on_ray_board(s, dr, df, 1u64 << (k as u64), 8, f);
        if in_bb(mask, x) {
            assert(on_ray(s, dr, df, 1u64 << (k as u64), 8, x) && x != k && in_bb(p.occ_bb(), x));
        }
    }
    crate::attacks::lemma_on_ray_board(s, dr, df, 1u64 << (k as u64), 8, f);
    crate::bits::lemma_same_squares_eq(mask, 1u64 << (f as u64));
    lemma_popcount_single(f as u64);
    crate::bits::lemma_in_bb_single(f as u64, f);
}

/// An opponent slider on `s` that does not attack the mover's king over the occupancy `a` of
/// the position does not attack it over `b` either, where `b` differs from `a` only on `f`
/// (held in `a` alone) and `t` (held in `b`), as after the move `f`-`t` of a piece that
/// reaches `t` by its own movement and, when pinned, stays on the line through it and the king.
proof fn lemma_slider_blocked(p: Position, kind: Piece, s: int, a: u64, b: u64, f: int, t: int, er: int, ef: int,
    knight: bool)
    requires
        p.board_ok(),
        p.pins_ok(),
        kind == Piece::Bishop || kind == Piece::Rook || kind == Piece::Queen,
        p.piece_on(s, kind, p.side_to_move().other()),
        a == p.occ_bb(),
        !piece_target(kind, s, a, p.king_square(p.side_to_move())),
        forall|x: int| x != f && x != t ==> #[trigger] in_bb(a, x) == in_bb(b, x),
        in_bb(b, t),
        !in_bb(b, f),
        in_bb(b, s),
        0 <= f < 64,
        0 <= t < 64,
        f != s,
        t != s,
        t != f,
        t != p.king_square(p.side_to_move()),
        in_bb(p.pin_bb(), f) ==> in_bb(full_line(f, any_dir(f, p.king_square(p.side_to_move()))), t),
        knight ==> knight_step(f, t),
        !knight ==> unit_step(er, ef) && on_ray(f, er, ef, a, 8, t),
    ensures
        !piece_target(kind, s, b, p.king_square(p.side_to_move())),
{
    let c = p.side_to_move();
    let k = p.king_square(c);
    p.lemma_kings();
    p.lemma_describes_occupants();
    assert(p.piece_on(k, Piece::King, c));
    assert(in_bb(a, k)) by {
        lemma_occupied(p, k);
    }
    assert(0 <= s < 64 && in_bb(a, s)) by {
        lemma_occupied(p, s);
    }
    if kind != Piece::Bishop && on_ray(s, 1, 0, b, 8, k) && !on_ray(s, 1, 0, a, 8, k) {
        lemma_discovery(s, 1, 0, a, b, 8, k, f, t);
        lemma_pin_found(p, kind, s, 1, 0, b, f);
        assert(p.pinned(f));
        lemma_uncovered_line(a, b, s, 1, 0, k, f, t, er, ef, knight);
    }
    if kind != Piece::Bishop && on_ray(s, -1, 0, b, 8, k) && !on_ray(s, -1, 0, a, 8, k) {
        lemma_discovery(s, -1, 0, a, b, 8, k, f, t);
        lemma_pin_found(p, kind, s, -1, 0, b, f);
        assert(p.pinned(f));
        lemma_uncovered_line(a, b, s, -1, 0, k, f, t, er, ef, knight);
    }
    if kind != Piece::Bishop && on_ray(s, 0, 1, b, 8, k) && !on_ray(s, 0, 1, a, 8, k) {
        lemma_discovery(s, 0, 1, a, b, 8, k, f, t);
        lemma_pin_found(p, kind, s, 0, 1, b, f);
        assert(p.pinned(f));
        lemma_uncovered_line(a, b, s, 0, 1, k, f, t, er, ef, knight);
    }
    if kind != Piece::Bishop && on_ray(s, 0, -1, b, 8, k) && !on_ray(s, 0, -1, a, 8, k) {
        lemma_discovery(s, 0, -1, a, b, 8, k, f, t);
        lemma_pin_found(p, kind, s, 0, -1, b, f);
        assert(p.pinned(f));
        lemma_uncovered_line(a, b, s, 0, -1, k, f, t, er, ef, knight);
    }
    if kind != Piece::Rook && on_ray(s, 1, 1, b, 8, k) && !on_ray(s, 1, 1, a, 8, k) {
        lemma_discovery(s, 1, 1, a, b, 8, k, f, t);
        lemma_pin_found(p, kind, s, 1, 1, b, f);
        assert(p.pinned(f));
        lemma_uncovered_line(a, b, s, 1, 1, k, f, t, er, ef, knight);
    }
    if kind != Piece::Rook && on_ray(s, 1, -1, b, 8, k) && !on_ray(s, 1, -1, a, 8, k) {
        lemma_discovery(s, 1, -1, a, b, 8, k, f, t);
        lemma_pin_found(p, kind, s, 1, -1, b, f);
        assert(p.pinned(f));
        lemma_uncovered_line(a, b, s, 1, -1, k, f, t, er, ef, knight);
    }
    if kind != Piece::Rook && on_ray(s, -1, 1, b, 8, k) && !on_ray(s, -1, 1, a, 8, k) {
        lemma_discovery(s, -1, 1, a, b, 8, k, f, t);
        lemma_pin_found(p, kind, s, -1, 1, b, f);
        assert(p.pinned(f));
        lemma_uncovered_line(a, b, s, -1, 1, k, f, t, er, ef, knight);
    }
    if kind != Piece::Rook && on_ray(s, -1, -1, b, 8, k) && !on_ray(s, -1, -1, a, 8, k) {
        lemma_discovery(s, -1, -1, a, b, 8, k, f, t);
        lemma_pin_found(p, kind, s, -1, -1, b, f);
        assert(p.pinned(f));
        lemma_uncovered_line(a, b, s, -1, -1, k, f, t, er, ef, knight);
    }
}

/// A move of a piece other than the king, en passant aside, made while the mover's king is not
/// attacked, never leaves the king attacked when the piece reaches its target by its own
/// movement (along the step (`er`, `ef`), or by a knight's jump) and, if pinned, stays on the
/// line through it and the king.
proof fn lemma_piece_move_safe(p: Position, m: Move, q: Position, er: int, ef: int, knight: bool)
    requires
        p.wf(),
        !in_bb(p.threat_bb(), p.king_square(p.side_to_move())),
        p.applicable(m),
        p.moved(m) != Piece::King,
        p.capture_of(m) matches Some((x, _)) ==> x == m.to_sq(),
        in_bb(p.pin_bb(), m.from_sq()) ==> in_bb(full_line(m.from_sq(), any_dir(m.from_sq(), p.king_square(p.side_to_move()))), m.to_sq()),
        knight ==> knight_step(m.from_sq(), m.to_sq()),
        !knight ==> unit_step(er, ef) && on_ray(m.from_sq(), er, ef, p.occ_bb(), 8, m.to_sq()),
        p.plays(m, q),
    ensures
        !q.attacked(q.side_to_move(), q.occ_bb(), q.king_square(q.side_to_move().other())),
{
    let c = p.side_to_move();
    let o = c.other();
    let k = p.king_square(c);
    let f = m.from_sq();
    let t = m.to_sq();
    Move::lemma_squares(m);
    p.lemma_kings();
    p.lemma_describes_occupants();
    q.lemma_kings();
    q.lemma_describes_occupants();
    let po = p.occupants();
    let qo = q.occupants();
    assert(p.castle_of(m) is None);
    // What stands where after the move.
    assert forall|x: int| 0 <= x < 64 && x != f && x != t implies #[trigger] qo[x] == po[x] by {}
    assert(qo[f] is None);
    assert(qo[t] == Some((p.end_piece(m), c)));
    assert(p.piece_on(k, Piece::King, c));
    assert(po[k] == Some((Piece::King, c)));
    assert(f != k && t != k);
    assert(q.side_to_move() == o);
    // The king of `c` stays on `k`, that of `o` where it stood.
    assert(q.piece_on(k, Piece::King, c));
    assert(q.king_square(c) == k);
    assert(q.piece_on(q.king_square(o), Piece::King, o));
    assert(p.piece_on(q.king_square(o), Piece::King, o));
    assert(q.king_square(o) == p.king_square(o));
    // Every piece of `o` after the move stood there before.
    assert forall|pc: Piece, x: int| #[trigger] in_bb(q.bb(pc, o), x) implies in_bb(p.bb(pc, o), x) && x != t && x != f by {
        assert(qo[x] == Some((pc, o)));
    }
    // The occupancies before and after differ only on `f` and `t`.
    assert forall|x: int| x != f && x != t implies #[trigger] in_bb(p.occ_bb(), x) == in_bb(q.occ_bb(), x) by {
        lemma_occupied(q, x);
        lemma_occupied(p, x);
    }
    lemma_occupied(q, t);
    lemma_occupied(q, f);
    let kingless = p.occ_bb() ^ (1u64 << (k as u64));
    assert forall|x: int| x != k implies #[trigger] in_bb(kingless, x) == in_bb(p.occ_bb(), x) by {
        crate::bits::lemma_in_bb_single(k as u64, x);
    }
    assert(!p.attacked(o, kingless, k));
    if q.attacked(o, q.occ_bb(), k) {
        let pawns_q = q.bb(Piece::Pawn, o);
        let pawns_p = p.bb(Piece::Pawn, o);
        if pawn_target(pawns_q, o, k) {
            if pawn_left_target(pawns_q, o, k) {
                assert(pawn_left_target(pawns_p, o, k));
            } else {
                assert(pawn_right_target(pawns_p, o, k));
            }
        } else if union_target(Piece::Knight, q.bb(Piece::Knight, o), q.occ_bb(), k) {
            let s = choose|s: int| #[trigger] in_bb(q.bb(Piece::Knight, o), s) && piece_target(Piece::Knight, s, q.occ_bb(), k);
            assert(in_bb(p.bb(Piece::Knight, o), s) && piece_target(Piece::Knight, s, kingless, k));
        } else if union_target(Piece::Bishop, q.bb(Piece::Bishop, o), q.occ_bb(), k) {
            let s = choose|s: int| #[trigger] in_bb(q.bb(Piece::Bishop, o), s) && piece_target(Piece::Bishop, s, q.occ_bb(), k);
            lemma_sliders_ignore_target(s, p.occ_bb(), kingless, k);
            if piece_target(Piece::Bishop, s, p.occ_bb(), k) {
                assert(in_bb(p.bb(Piece::Bishop, o), s) && piece_target(Piece::Bishop, s, kingless, k));
            } else {
                lemma_slider_blocked(p, Piece::Bishop, s, p.occ_bb(), q.occ_bb(), f, t, er, ef, knight);
            }
        } else if union_target(Piece::Rook, q.bb(Piece::Rook, o), q.occ_bb(), k) {
            let s = choose|s: int| #[trigger] in_bb(q.bb(Piece::Rook, o), s) && piece_target(Piece::Rook, s, q.occ_bb(), k);
            lemma_sliders_ignore_target(s, p.occ_bb(), kingless, k);
            if piece_target(Piece::Rook, s, p.occ_bb(), k) {
                assert(in_bb(p.bb(Piece::Rook, o), s) && piece_target(Piece::Rook, s, kingless, k));
            } else {
                lemma_slider_blocked(p, Piece::Rook, s, p.occ_bb(), q.occ_bb(), f, t, er, ef, knight);
            }
        } else if union_target(Piece::Queen, q.bb(Piece::Queen, o), q.occ_bb(), k) {
            let s = choose|s: int| #[trigger] in_bb(q.bb(Piece::Queen, o), s) && piece_target(Piece::Queen, s, q.occ_bb(), k);
            lemma_sliders_ignore_target(s, p.occ_bb(), kingless, k);
            if piece_target(Piece::Queen, s, p.occ_bb(), k) {
                assert(in_bb(p.bb(Piece::Queen, o), s) && piece_target(Piece::Queen, s, kingless, k));
            } else {
                lemma_slider_blocked(p, Piece::Queen, s, p.occ_bb(), q.occ_bb(), f, t, er, ef, knight);
            }
        } else {
            assert(king_step(p.king_square(o), k));
        }
    }
}

/// The square one step from `s` along (`dr`, `df`).
pub open spec fn next_sq(s: int, dr: int, df: int) -> int {
    (crate::rank_of(s) + dr) * 8 + crate::file_of(s) + df
}

/// A ray that reaches `t` within `n` steps reaches it within `n + 1`.
proof fn lemma_ray_more_steps(s: int, dr: int, df: int, occ: u64, n: nat, t: int)
    requires
        on_ray(s, dr, df, occ, n, t),
    ensures
        on_ray(s, dr, df, occ, n + 1, t),
    decreases n,
{
    let nx = next_sq(s, dr, df);
    if t != nx {
        lemma_ray_more_steps(nx, dr, df, occ, (n - 1) as nat, t);
    }
}

/// A ray that reaches `t` over `a` reaches it over `b` when `b` holds no square `a` does not.
proof fn lemma_ray_fewer(s: int, dr: int, df: int, a: u64, b: u64, n: nat, t: int)
    requires
        on_ray(s, dr, df, a, n, t),
        forall|x: int| #[trigger] in_bb(b, x) ==> in_bb(a, x),
    ensures
        on_ray(s, dr, df, b, n, t),
    decreases n,
{
    let nx = next_sq(s, dr, df);
    if t != nx {
        lemma_ray_fewer(nx, dr, df, a, b, (n - 1) as nat, t);
    }
}

/// The part of a ray from `s` to `k` that follows a square `f` before `k` is a ray from `f`.
proof fn lemma_ray_suffix(s: int, dr: int, df: int, b: u64, n: nat, k: int, f: int)
    requires
        0 <= k < 64,
        on_ray(s, dr, df, 1u64 << (k as u64), n, f),
        f != k,
        on_ray(s, dr, df, b, n, k),
    ensures
        on_ray(f, dr, df, b, n, k),
    decreases n,
{
    let nx = next_sq(s, dr, df);
    crate::bits::lemma_in_bb_single(k as u64, nx);
    if nx == f {
        lemma_ray_more_steps(f, dr, df, b, (n - 1) as nat, k);
    } else {
        lemma_ray_suffix(nx, dr, df, b, (n - 1) as nat, k, f);
        lemma_ray_more_steps(f, dr, df, b, (n - 1) as nat, k);
    }
}

/// Two rays from one square that reach one square have the same step.
proof fn lemma_ray_same_dir(f: int, dr: int, df: int, er: int, ef: int, a: u64, b: u64, n: nat, m: nat, t: int)
    requires
        on_ray(f, dr, df, a, n, t),
        on_ray(f, er, ef, b, m, t),
        -1 <= dr <= 1,
        -1 <= df <= 1,
        -1 <= er <= 1,
        -1 <= ef <= 1,
    ensures
        dr == er && df == ef,
{
    lemma_ray_direction(f, dr, df, a, n, t);
    lemma_ray_direction(f, er, ef, b, m, t);
}

/// Two squares reached by one unblocked ray come one after the other (or are the same).
proof fn lemma_ray_order(f: int, dr: int, df: int, n: nat, t: int, k: int)
    requires
        on_ray(f, dr, df, 0, n, t),
        on_ray(f, dr, df, 0, n, k),
        0 <= t < 64,
        0 <= k < 64,
    ensures
        t == k || on_ray(f, dr, df, 1u64 << (k as u64), n, t) || on_ray(f, dr, df, 1u64 << (t as u64), n, k),
    decreases n,
{
    let nx = next_sq(f, dr, df);
    crate::bits::lemma_in_bb_single(k as u64, nx);
    crate::bits::lemma_in_bb_single(t as u64, nx);
    if t != nx && k != nx {
        lemma_ray_order(nx, dr, df, (n - 1) as nat, t, k);
    }
}

/// A ray from `y` reaching `x` over a square `x` left open extends one step past `x`.
proof fn lemma_ray_append(y: int, dr: int, df: int, occ: u64, m: nat, x: int)
    requires
        on_ray(y, dr, df, occ, m, x),
        !in_bb(occ, x),
        0 <= crate::rank_of(x) + dr < 8,
        0 <= crate::file_of(x) + df < 8,
    ensures
        on_ray(y, dr, df, occ, m + 1, next_sq(x, dr, df)),
    decreases m,
{
    let ny = next_sq(y, dr, df);
    assert(crate::rank_of(ny) == crate::rank_of(y) + dr && crate::file_of(ny) == crate::file_of(y) + df);
    let z = next_sq(x, dr, df);
    if x != ny {
        lemma_ray_append(ny, dr, df, occ, (m - 1) as nat, x);
    } else {
        assert(m >= 1);
        assert(on_ray(x, dr, df, occ, m, z));
    }
}

/// A ray walked backwards: if a ray from `s` reaches `t`, the opposite ray from `t` reaches `s`.
proof fn lemma_ray_reverse(s: int, dr: int, df: int, occ: u64, n: nat, t: int)
    requires
        on_ray(s, dr, df, occ, n, t),
        0 <= s < 64,
    ensures
        on_ray(t, -dr, -df, occ, n, s),
    decreases n,
{
    let nx = next_sq(s, dr, df);
    assert(crate::rank_of(nx) == crate::rank_of(s) + dr && crate::file_of(nx) == crate::file_of(s) + df);
    assert(next_sq(nx, -dr, -df) == s);
    if t != nx {
        lemma_ray_reverse(nx, dr, df, occ, (n - 1) as nat, t);
        lemma_ray_append(t, -dr, -df, occ, (n - 1) as nat, nx);
    }
}

/// A step of length one along a rank, file or diagonal.
pub open spec fn unit_step(dr: int, df: int) -> bool {
    -1 <= dr <= 1 && -1 <= df <= 1 && (dr != 0 || df != 0)
}

/// A piece on `f` that moves to `t` on the line through `f` and the king on `k` cannot uncover
/// an attack on the king: a slider on `s` with `f` between it and `k` along (`dr`, `df`) does
/// not reach `k` over the occupancy `b` after the move.
proof fn lemma_uncovered_line(a: u64, b: u64, s: int, dr: int, df: int, k: int, f: int, t: int, er: int, ef: int,
    knight: bool)
    requires
        0 <= s < 64,
        0 <= k < 64,
        0 <= f < 64,
        0 <= t < 64,
        unit_step(dr, df),
        on_ray(s, dr, df, 1u64 << (k as u64), 8, f),
        f != k,
        f != s,
        in_bb(a, k),
        in_bb(a, s),
        in_bb(b, s),
        in_bb(b, t),
        t != s,
        t != k,
        t != f,
        in_bb(full_line(f, any_dir(f, k)), t),
        knight ==> knight_step(f, t),
        !knight ==> unit_step(er, ef) && on_ray(f, er, ef, a, 8, t),
    ensures
        !on_ray(s, dr, df, b, 8, k),
{
    if on_ray(s, dr, df, b, 8, k) {
        // The line through `f` and `k` is that of the ray.
        lemma_ray_suffix(s, dr, df, b, 8, k, f);
        lemma_ray_dir(f, dr, df, b, k);
        crate::attacks::lemma_ray_bb(f, dr, df, 0, 8);
        crate::attacks::lemma_ray_bb(f, -dr, -df, 0, 8);
        crate::bits::lemma_in_bb_single(f as u64, t);
        let toward_k = on_ray(f, dr, df, 0, 8, t);
        assert(toward_k || on_ray(f, -dr, -df, 0, 8, t));
        if knight {
            if toward_k {
                lemma_ray_direction(f, dr, df, 0, 8, t);
            } else {
                lemma_ray_direction(f, -dr, -df, 0, 8, t);
            }
            assert(false);
        } else {
            lemma_ray_fewer(f, er, ef, a, 0, 8, t);
            if toward_k {
                lemma_ray_same_dir(f, dr, df, er, ef, 0, a, 8, 8, t);
                // Both `t` and `k` lie on the ray from `f` towards the king.
                lemma_ray_fewer(f, dr, df, b, 0, 8, k);
                lemma_ray_order(f, dr, df, 8, t, k);
                if on_ray(f, dr, df, 1u64 << (k as u64), 8, t) {
                    lemma_clear_path(f, dr, df, b, 8, k, t);
                } else {
                    lemma_clear_path(f, dr, df, a, 8, t, k);
                }
            } else {
                lemma_ray_same_dir(f, -dr, -df, er, ef, 0, a, 8, 8, t);
                // From the king, `f` and then `s` lie on the ray the other way.
                lemma_ray_reverse(s, dr, df, b, 8, k);
                lemma_ray_reverse(f, dr, df, b, 8, k);
                lemma_ray_fewer(k, -dr, -df, b, 0, 8, s);
                lemma_ray_fewer(k, -dr, -df, b, 0, 8, f);
                lemma_ray_order(k, -dr, -df, 8, f, s);
                if on_ray(k, -dr, -df, 1u64 << (f as u64), 8, s) {
                    lemma_clear_path(k, -dr, -df, b, 8, f, s);
                } else {
                    lemma_ray_suffix(k, -dr, -df, b, 8, s, f);
                    // Both `t` and `s` lie on the ray from `f` towards the slider.
                    lemma_ray_fewer(f, -dr, -df, b, 0, 8, s);
                    lemma_ray_order(f, -dr, -df, 8, t, s);
                    if on_ray(f, -dr, -df, 1u64 << (s as u64), 8, t) {
                        lemma_clear_path(f, -dr, -df, b, 8, s, t);
                    } else {
                        lemma_clear_path(f, -dr, -df, a, 8, t, s);
                    }
                }
            }
        }
    }
}

/// A pawn of the mover steps from `f` onto `t`, one square forward (`fwd` is the rank step of
/// the mover) and `df` files aside, as an unblocked ray.
proof fn lemma_pawn_step(p: Position, f: int, t: int, fwd: int, df: int)
    requires
        0 <= f < 64,
        0 <= t < 64,
        t == f + fwd * 8 + df,
        fwd == 1 || fwd == -1,
        -1 <= df <= 1,
        0 <= crate::file_of(f) + df < 8,
    ensures
        on_ray(f, fwd, df, p.occ_bb(), 8, t),
        next_sq(f, fwd, df) == t,
{
    assert(next_sq(f, fwd, df) == t);
}

/// A pawn of the mover steps two squares forward from `f` over the empty `mid` onto `t`, as an
/// unblocked ray.
proof fn lemma_pawn_double_step(p: Position, f: int, mid: int, t: int, fwd: int)
    requires
        0 <= f < 64,
        0 <= mid < 64,
        0 <= t < 64,
        mid == f + fwd * 8,
        t == mid + fwd * 8,
        fwd == 1 || fwd == -1,
        !in_bb(p.occ_bb(), mid),
    ensures
        on_ray(f, fwd, 0, p.occ_bb(), 8, t),
{
    assert(next_sq(f, fwd, 0) == mid);
    assert(next_sq(mid, fwd, 0) == t);
    assert(on_ray(mid, fwd, 0, p.occ_bb(), 7, t));
}

/// A move of a piece other than the king, en passant aside, onto a square of the target mask of
/// the moves list leaves the king unattacked when the piece reaches it by its own movement and,
/// if pinned, stays on the line through it and the king.
proof fn lemma_guarded_move_safe(p: Position, m: Move, q: Position, mask: u64, er: int, ef: int, knight: bool)
    requires
        p.wf(),
        mask_of(p, mask),
        in_bb(mask, m.to_sq()),
        p.applicable(m),
        p.moved(m) != Piece::King,
        p.capture_of(m) matches Some((x, _)) ==> x == m.to_sq(),
        in_bb(p.pin_bb(), m.from_sq()) ==> in_bb(full_line(m.from_sq(), any_dir(m.from_sq(), p.king_square(p.side_to_move()))), m.to_sq()),
        knight ==> knight_step(m.from_sq(), m.to_sq()),
        !knight ==> unit_step(er, ef) && on_ray(m.from_sq(), er, ef, p.occ_bb(), 8, m.to_sq()),
        p.plays(m, q),
    ensures
        !q.attacked(q.side_to_move(), q.occ_bb(), q.king_square(q.side_to_move().other())),
{
    if p.checker_bb() == 0 {
        lemma_no_check_no_threat(p);
        lemma_piece_move_safe(p, m, q, er, ef, knight);
    } else {
        lemma_evasion_move_safe(p, m, q, er, ef, knight);
    }
}

/// A single push the moves list holds leaves the king unattacked.
proof fn lemma_push_safe(p: Position, m: Move, q: Position, mask: u64, t: int)
    requires
        p.wf(),
        mask_of(p, mask),
        p.push_to(mask, t, m),
        p.applicable(m),
        p.plays(m, q),
    ensures
        !q.attacked(q.side_to_move(), q.occ_bb(), q.king_square(q.side_to_move().other())),
{
    let c = p.side_to_move();
    let last = c.other().home();
    let fwd: int = if c == Side::White { 1 } else { -1 };
    let f = crate::attacks::push_origin(c, t);
    let pr = choose|pr: Option<Piece>| #[trigger] crate::move_gen::pawn_move(last, f, t, pr, m);
    Move::lemma_spec_new(f, t, pr);
    p.lemma_occupant_of(Piece::Pawn, c, f);
    p.lemma_empty(t);
    lemma_pawn_step(p, f, t, fwd, 0);
    lemma_guarded_move_safe(p, m, q, mask, fwd, 0, false);
}

/// A double push the moves list holds leaves the king unattacked.
proof fn lemma_double_safe(p: Position, m: Move, q: Position, mask: u64, t: int)
    requires
        p.wf(),
        mask_of(p, mask),
        p.double_to(mask, t, m),
        p.applicable(m),
        p.plays(m, q),
    ensures
        !q.attacked(q.side_to_move(), q.occ_bb(), q.king_square(q.side_to_move().other())),
{
    let c = p.side_to_move();
    let last = c.other().home();
    let fwd: int = if c == Side::White { 1 } else { -1 };
    let f = t - 2 * crate::position::forward(c);
    let mid = f + crate::position::forward(c);
    let pr = choose|pr: Option<Piece>| #[trigger] crate::move_gen::pawn_move(last, f, t, pr, m);
    Move::lemma_spec_new(f, t, pr);
    p.lemma_occupant_of(Piece::Pawn, c, f);
    p.lemma_empty(t);
    lemma_pawn_double_step(p, f, mid, t, fwd);
    lemma_guarded_move_safe(p, m, q, mask, fwd, 0, false);
}

/// A pawn capture the moves list holds leaves the king unattacked.
proof fn lemma_pawn_capture_safe(p: Position, m: Move, q: Position, mask: u64, left: bool, t: int)
    requires
        p.wf(),
        mask_of(p, mask),
        p.capture_to(mask, left, t, m),
        p.applicable(m),
        p.plays(m, q),
    ensures
        !q.attacked(q.side_to_move(), q.occ_bb(), q.king_square(q.side_to_move().other())),
{
    let c = p.side_to_move();
    let last = c.other().home();
    let fwd: int = if c == Side::White { 1 } else { -1 };
    let df: int = if left { -1 } else { 1 };
    let f = if left { t - Position::left_offset(c) } else { t - Position::right_offset(c) };
    let pr = choose|pr: Option<Piece>| #[trigger] crate::move_gen::pawn_move(last, f, t, pr, m);
    Move::lemma_spec_new(f, t, pr);
    p.lemma_occupant_of(Piece::Pawn, c, f);
    p.lemma_occupied_square(c.other(), t);
    lemma_pawn_step(p, f, t, fwd, df);
    lemma_guarded_move_safe(p, m, q, mask, fwd, df, false);
}

/// A knight, bishop, rook or queen move the moves list holds leaves the king unattacked.
proof fn lemma_piece_from_safe(p: Position, m: Move, q: Position, mask: u64, pc: Piece, f: int)
    requires
        p.wf(),
        mask_of(p, mask),
        pc != Piece::King,
        p.piece_from(mask, pc, f, m),
        p.applicable(m),
        p.plays(m, q),
    ensures
        !q.attacked(q.side_to_move(), q.occ_bb(), q.king_square(q.side_to_move().other())),
{
    let c = p.side_to_move();
    let t = choose|t: int| #[trigger] p.piece_to(mask, pc, f, t, m);
    crate::attacks::lemma_slider_targets_board(f, p.occ_bb());
    Move::lemma_spec_new(f, t, None);
    p.lemma_occupant_of(pc, c, f);
    let occ = p.occ_bb();
    if pc == Piece::Knight {
        lemma_guarded_move_safe(p, m, q, mask, 0, 0, true);
    } else if on_ray(f, 1, 0, occ, 8, t) && pc != Piece::Bishop {
        lemma_guarded_move_safe(p, m, q, mask, 1, 0, false);
    } else if on_ray(f, -1, 0, occ, 8, t) && pc != Piece::Bishop {
        lemma_guarded_move_safe(p, m, q, mask, -1, 0, false);
    } else if on_ray(f, 0, 1, occ, 8, t) && pc != Piece::Bishop {
        lemma_guarded_move_safe(p, m, q, mask, 0, 1, false);
    } else if on_ray(f, 0, -1, occ, 8, t) && pc != Piece::Bishop {
        lemma_guarded_move_safe(p, m, q, mask, 0, -1, false);
    } else if on_ray(f, 1, 1, occ, 8, t) {
        lemma_guarded_move_safe(p, m, q, mask, 1, 1, false);
    } else if on_ray(f, 1, -1, occ, 8, t) {
        lemma_guarded_move_safe(p, m, q, mask, 1, -1, false);
    } else if on_ray(f, -1, 1, occ, 8, t) {
        lemma_guarded_move_safe(p, m, q, mask, -1, 1, false);
    } else {
        lemma_guarded_move_safe(p, m, q, mask, -1, -1, false);
    }
}

/// A slider on `s` that attacks the king square `k` over `occ` is attacked by a slider of the
/// same kind from `k` over `occ`, whatever stands on `k`.
proof fn lemma_slider_seen_from_king(s: int, k: int, occ: u64)
    requires
        0 <= s < 64,
        0 <= k < 64,
    ensures
        rook_target(s, occ, k) ==> rook_target(k, occ, s),
        bishop_target(s, occ, k) ==> bishop_target(k, occ, s),
{
    let dirs = seq![(1int, 0int), (-1int, 0int), (0int, 1int), (0int, -1int), (1int, 1int), (1int, -1int), (-1int, 1int), (-1int, -1int)];
    assert forall|i: int| 0 <= i < 8 && #[trigger] on_ray(s, dirs[i].0, dirs[i].1, occ, 8, k) implies on_ray(k, -dirs[i].0,
        -dirs[i].1, occ, 8, s) by {
        lemma_ray_reverse(s, dirs[i].0, dirs[i].1, occ, 8, k);
    }
    if on_ray(s, 1, 0, occ, 8, k) { assert(on_ray(s, dirs[0].0, dirs[0].1, occ, 8, k)); }
    if on_ray(s, -1, 0, occ, 8, k) { assert(on_ray(s, dirs[1].0, dirs[1].1, occ, 8, k)); }
    if on_ray(s, 0, 1, occ, 8, k) { assert(on_ray(s, dirs[2].0, dirs[2].1, occ, 8, k)); }
    if on_ray(s, 0, -1, occ, 8, k) { assert(on_ray(s, dirs[3].0, dirs[3].1, occ, 8, k)); }
    if on_ray(s, 1, 1, occ, 8, k) { assert(on_ray(s, dirs[4].0, dirs[4].1, occ, 8, k)); }
    if on_ray(s, 1, -1, occ, 8, k) { assert(on_ray(s, dirs[5].0, dirs[5].1, occ, 8, k)); }
    if on_ray(s, -1, 1, occ, 8, k) { assert(on_ray(s, dirs[6].0, dirs[6].1, occ, 8, k)); }
    if on_ray(s, -1, -1, occ, 8, k) { assert(on_ray(s, dirs[7].0, dirs[7].1, occ, 8, k)); }
}

/// When no piece gives check, the opponent attacks no square of the mover's king.
proof fn lemma_no_check_no_threat(p: Position)
    requires
        p.wf(),
        p.checker_bb() == 0,
    ensures
        !in_bb(p.threat_bb(), p.king_square(p.side_to_move())),
{
    let c = p.side_to_move();
    let o = c.other();
    let k = p.king_square(c);
    p.lemma_kings();
    let occ = p.occ_bb();
    let kingless = occ ^ (1u64 << (k as u64));
    assert forall|x: int| x != k implies #[trigger] in_bb(kingless, x) == in_bb(occ, x) by {
        crate::bits::lemma_in_bb_single(k as u64, x);
    }
    assert forall|x: int| !#[trigger] p.gives_check(x) by {
        assert(!in_bb(p.checker_bb(), x));
    }
    if p.attacked(o, kingless, k) {
        let pawns = p.bb(Piece::Pawn, o);
        if pawn_target(pawns, o, k) {
            let kb = 1u64 << (k as u64);
            if c == Side::White {
                if pawn_left_target(pawns, o, k) {
                    crate::bits::lemma_in_bb_single(k as u64, k + 9 - 9);
                    assert(p.gives_check(k + 9));
                } else {
                    crate::bits::lemma_in_bb_single(k as u64, k + 7 - 7);
                    assert(p.gives_check(k + 7));
                }
            } else {
                if pawn_left_target(pawns, o, k) {
                    crate::bits::lemma_in_bb_single(k as u64, k - 7 + 7);
                    assert(p.gives_check(k - 7));
                } else {
                    crate::bits::lemma_in_bb_single(k as u64, k - 9 + 9);
                    assert(p.gives_check(k - 9));
                }
            }
        } else if union_target(Piece::Knight, p.bb(Piece::Knight, o), kingless, k) {
            let s = choose|s: int| #[trigger] in_bb(p.bb(Piece::Knight, o), s) && piece_target(Piece::Knight, s, kingless, k);
            assert(p.gives_check(s));
        } else if union_target(Piece::Bishop, p.bb(Piece::Bishop, o), kingless, k) {
            let s = choose|s: int| #[trigger] in_bb(p.bb(Piece::Bishop, o), s) && piece_target(Piece::Bishop, s, kingless, k);
            lemma_sliders_ignore_target(s, kingless, occ, k);
            lemma_slider_seen_from_king(s, k, occ);
            assert(p.gives_check(s));
        } else if union_target(Piece::Rook, p.bb(Piece::Rook, o), kingless, k) {
            let s = choose|s: int| #[trigger] in_bb(p.bb(Piece::Rook, o), s) && piece_target(Piece::Rook, s, kingless, k);
            lemma_sliders_ignore_target(s, kingless, occ, k);
            lemma_slider_seen_from_king(s, k, occ);
            assert(p.gives_check(s));
        } else if union_target(Piece::Queen, p.bb(Piece::Queen, o), kingless, k) {
            let s = choose|s: int| #[trigger] in_bb(p.bb(Piece::Queen, o), s) && piece_target(Piece::Queen, s, kingless, k);
            lemma_sliders_ignore_target(s, kingless, occ, k);
            lemma_slider_seen_from_king(s, k, occ);
            assert(p.gives_check(s));
        } else {
            let s = p.king_square(o);
            assert(p.piece_on(s, Piece::King, o));
            assert(p.gives_check(s));
        }
    }
}

/// The slider attack bitboards hold the squares the sliders attack.
proof fn lemma_slider_bbs(k: int, occ: u64)
    ensures
        forall|x: int| #[trigger] in_bb(crate::attacks::rook_bb(k, occ), x) == rook_target(k, occ, x),
        forall|x: int| #[trigger] in_bb(crate::attacks::bishop_bb(k, occ), x) == bishop_target(k, occ, x),
{
    crate::attacks::lemma_ray_bb(k, 1, 0, occ, 8);
    crate::attacks::lemma_ray_bb(k, -1, 0, occ, 8);
    crate::attacks::lemma_ray_bb(k, 0, 1, occ, 8);
    crate::attacks::lemma_ray_bb(k, 0, -1, occ, 8);
    crate::attacks::lemma_ray_bb(k, 1, 1, occ, 8);
    crate::attacks::lemma_ray_bb(k, 1, -1, occ, 8);
    crate::attacks::lemma_ray_bb(k, -1, 1, occ, 8);
    crate::attacks::lemma_ray_bb(k, -1, -1, occ, 8);
}

/// An en-passant capture the moves list holds, made when the mover is not in check or is in
/// check by the pawn it takes only, leaves the king unattacked.
#[verifier::spinoff_prover]
#[verifier::rlimit(40)]
proof fn lemma_ep_capture_safe(p: Position, m: Move, q: Position, left: bool)
    requires
        p.wf(),
        p.ep_capture(left, m),
        forall|s: int| #[trigger] in_bb(p.checker_bb(), s) ==> s == crate::position::xor8(m.to_sq()) || in_bb(
            p.check_mask(Some(crate::Sq(s as u8))),
            m.to_sq(),
        ),
        p.applicable(m),
        p.plays(m, q),
    ensures
        !q.attacked(q.side_to_move(), q.occ_bb(), q.king_square(q.side_to_move().other())),
{
    let c = p.side_to_move();
    let o = c.other();
    let k = p.king_square(c);
    let e = p.ep_square()->0;
    let t = e.idx();
    let off = if left { Position::left_offset(c) } else { Position::right_offset(c) };
    let f = t - off;
    let cap = (e.0 ^ 8u8) as int;
    reveal(crate::move_gen::ep_clear);
    assert(p.ep_safe(cap, f, t));
    crate::position::lemma_xor8(t);
    let pawns = p.bb(Piece::Pawn, c);
    assert(in_bb(pawns, f));
    Move::lemma_spec_new(f, t, None);
    p.lemma_kings();
    p.lemma_describes_occupants();
    q.lemma_kings();
    q.lemma_describes_occupants();
    p.lemma_occupant_of(Piece::Pawn, c, f);
    let po = p.occupants();
    let qo = q.occupants();
    assert(cap == crate::position::xor8(t));
    assert(p.piece_on(cap, Piece::Pawn, o));
    p.lemma_occupant_of(Piece::Pawn, o, cap);
    assert(p.square(t) is None);
    assert(p.capture_of(m) == Some((cap, Piece::Pawn)));
    assert(p.castle_of(m) is None);
    assert forall|x: int| 0 <= x < 64 && x != f && x != t && x != cap implies #[trigger] qo[x] == po[x] by {}
    assert(qo[f] is None && qo[cap] is None);
    assert(qo[t] == Some((Piece::Pawn, c)));
    assert(p.piece_on(k, Piece::King, c));
    assert(po[k] == Some((Piece::King, c)));
    assert(k != f && k != t && k != cap);
    assert(q.side_to_move() == o);
    assert(q.piece_on(k, Piece::King, c));
    assert(q.king_square(c) == k);
    assert(q.piece_on(q.king_square(o), Piece::King, o));
    assert(p.piece_on(q.king_square(o), Piece::King, o));
    assert(q.king_square(o) == p.king_square(o));
    assert forall|pc: Piece, x: int| #[trigger] in_bb(q.bb(pc, o), x) implies in_bb(p.bb(pc, o), x) && x != t && x != f && x != cap by {
        assert(qo[x] == Some((pc, o)));
    }
    // The occupancy after the capture is the one the en-passant test looked through.
    let occ = p.occ_bb();
    let upd = occ ^ ((1u64 << (cap as u64)) | (1u64 << (f as u64)) | (1u64 << (t as u64)));
    assert forall|x: int| 0 <= x < 64 implies #[trigger] in_bb(q.occ_bb(), x) == in_bb(upd, x) by {
        lemma_occupied(q, x);
        lemma_occupied(p, x);
        crate::bits::lemma_in_bb_single(cap as u64, x);
        crate::bits::lemma_in_bb_single(f as u64, x);
        crate::bits::lemma_in_bb_single(t as u64, x);
    }
    crate::bits::lemma_same_squares_eq(q.occ_bb(), upd);
    lemma_slider_bbs(k, upd);
    if q.attacked(o, q.occ_bb(), k) {
        let pawns_q = q.bb(Piece::Pawn, o);
        let pawns_p = p.bb(Piece::Pawn, o);
        if pawn_target(pawns_q, o, k) {
            let s = if c == Side::White {
                if pawn_left_target(pawns_q, o, k) { k + 9 } else { k + 7 }
            } else {
                if pawn_left_target(pawns_q, o, k) { k - 7 } else { k - 9 }
            };
            assert(in_bb(pawns_q, s));
            crate::bits::lemma_in_bb_single(k as u64, k);
            assert(p.gives_check(s));
            assert(in_bb(p.checker_bb(), s));
            assert(king_step(k, s));
            lemma_leaper_not_blocked(p, s, t);
        } else if union_target(Piece::Knight, q.bb(Piece::Knight, o), q.occ_bb(), k) {
            let s = choose|s: int| #[trigger] in_bb(q.bb(Piece::Knight, o), s) && piece_target(Piece::Knight, s, q.occ_bb(), k);
            assert(p.gives_check(s));
            assert(in_bb(p.checker_bb(), s));
            lemma_leaper_not_blocked(p, s, t);
        } else if union_target(Piece::Bishop, q.bb(Piece::Bishop, o), q.occ_bb(), k) {
            let s = choose|s: int| #[trigger] in_bb(q.bb(Piece::Bishop, o), s) && piece_target(Piece::Bishop, s, q.occ_bb(), k);
            lemma_slider_seen_from_king(s, k, upd);
            assert(in_bb(crate::attacks::bishop_bb(k, upd) & p.bb(Piece::Bishop, o), s));
        } else if union_target(Piece::Rook, q.bb(Piece::Rook, o), q.occ_bb(), k) {
            let s = choose|s: int| #[trigger] in_bb(q.bb(Piece::Rook, o), s) && piece_target(Piece::Rook, s, q.occ_bb(), k);
            lemma_slider_seen_from_king(s, k, upd);
            assert(in_bb(crate::attacks::rook_bb(k, upd) & p.bb(Piece::Rook, o), s));
        } else if union_target(Piece::Queen, q.bb(Piece::Queen, o), q.occ_bb(), k) {
            let s = choose|s: int| #[trigger] in_bb(q.bb(Piece::Queen, o), s) && piece_target(Piece::Queen, s, q.occ_bb(), k);
            lemma_slider_seen_from_king(s, k, upd);
            assert(in_bb((crate::attacks::rook_bb(k, upd) | crate::attacks::bishop_bb(k, upd)) & p.bb(Piece::Queen, o), s));
        } else {
            let ko = p.king_square(o);
            assert(king_step(ko, k));
            assert(p.gives_check(ko));
            assert(in_bb(p.checker_bb(), ko));
            assert(po[ko] == Some((Piece::King, o)));
            lemma_leaper_not_blocked(p, ko, t);
        }
    }
}

/// The check mask of a checker next to the king or a knight's jump away holds no empty square
/// but the king's.
proof fn lemma_leaper_not_blocked(p: Position, s: int, t: int)
    requires
        p.wf(),
        in_bb(p.checker_bb(), s),
        king_step(p.king_square(p.side_to_move()), s) || knight_step(p.king_square(p.side_to_move()), s),
        p.square(t) is None,
        0 <= t < 64,
    ensures
        !in_bb(p.check_mask(Some(crate::Sq(s as u8))), t),
{
    p.lemma_kings();
    let k = p.king_square(p.side_to_move());
    assert(p.piece_on(k, Piece::King, p.side_to_move()));
    p.lemma_occupant_of(Piece::King, p.side_to_move(), k);
    if in_bb(p.check_mask(Some(crate::Sq(s as u8))), t) {
        lemma_mask_member(p, s, t);
        assert(p.gives_check(s));
        lemma_occupied(p, s);
        p.lemma_describes_occupants();
    }
}

/// The squares of `b` are its lowest bit and the squares of `b / 2` one further up.
proof fn lemma_in_bb_half(b: u64, x: int)
    ensures
        in_bb(b, x) == ((x == 0 && b & 1 == 1) || (1 <= x < 64 && in_bb(b / 2, x - 1))),
{
    if 0 <= x < 64 {
        let m = x as u64;
        let m1: u64 = if m >= 1 { (m - 1) as u64 } else { 0 };
        assert(((b >> m) & 1 == 1) == ((m == 0 && b & 1 == 1) || (m >= 1 && ((b / 2) >> m1) & 1 == 1))) by (bit_vector)
            requires
                m < 64,
                m >= 1 ==> m1 == m - 1,
        ;
    }
}

/// A bitboard with one set bit holds one square.
proof fn lemma_popcount_one(b: u64, x: int, y: int)
    requires
        crate::bits::popcount(b) == 1,
        in_bb(b, x),
        in_bb(b, y),
    ensures
        x == y,
    decreases b,
{
    lemma_in_bb_half(b, x);
    lemma_in_bb_half(b, y);
    let h = b / 2;
    if b & 1 == 1 {
        assert(crate::bits::popcount(h) == 0);
        crate::movegen::lemma_popcount_zero(h);
        if x != 0 {
            assert(in_bb(0u64, x - 1));
        }
        if y != 0 {
            assert(in_bb(0u64, y - 1));
        }
    } else {
        assert(b & 1 == 0);
        assert(crate::bits::popcount(h) == 1);
        lemma_popcount_one(h, x - 1, y - 1);
    }
}

/// The square of the single checker.
pub open spec fn checker_square(p: Position) -> int {
    vstd::std_specs::bits::u64_trailing_zeros(p.checker_bb()) as int
}

/// The target mask of the moves list: every square out of check, the checker and the line to it
/// in single check.
pub open spec fn mask_of(p: Position, mask: u64) -> bool {
    ||| p.checker_bb() == 0 && mask == 0xffff_ffff_ffff_ffffu64
    ||| crate::bits::popcount(p.checker_bb()) == 1 && mask == p.check_mask(Some(crate::Sq(checker_square(p) as u8)))
}

/// In single check, the checker is on `checker_square` and nowhere else.
proof fn lemma_single_checker(p: Position)
    requires
        crate::bits::popcount(p.checker_bb()) == 1,
    ensures
        0 <= checker_square(p) < 64,
        in_bb(p.checker_bb(), checker_square(p)),
        forall|x: int| #[trigger] in_bb(p.checker_bb(), x) ==> x == checker_square(p),
        crate::Sq(checker_square(p) as u8).idx() == checker_square(p),
{
    if p.checker_bb() == 0 {
        assert(crate::bits::popcount(0u64) == 0);
    }
    crate::bits::lemma_nonzero_has(p.checker_bb());
    vstd::std_specs::bits::axiom_u64_trailing_zeros(p.checker_bb());
    assert forall|x: int| #[trigger] in_bb(p.checker_bb(), x) implies x == checker_square(p) by {
        lemma_popcount_one(p.checker_bb(), x, checker_square(p));
    }
}

/// The check mask around a checker next to the king holds the king and the checker only.
proof fn lemma_mask_near(p: Position, cs: int, t: int)
    requires
        king_step(p.king_square(p.side_to_move()), cs),
        crate::Sq(cs as u8).idx() == cs,
        in_bb(p.check_mask(Some(crate::Sq(cs as u8))), t),
    ensures
        t == cs || t == p.king_square(p.side_to_move()),
{
    let k = p.king_square(p.side_to_move());
    crate::bits::lemma_in_bb_single(cs as u64, t);
    let dr = crate::rank_of(cs) - crate::rank_of(k);
    let df = crate::file_of(cs) - crate::file_of(k);
    assert(next_sq(k, dr, df) == cs);
    if let Some((er, ef)) = diagonal_dir(k, cs) {
        lemma_segment_squares(k, er, ef, cs);
        crate::bits::lemma_in_bb_single(cs as u64, cs);
    }
    if let Some((er, ef)) = straight_dir(k, cs) {
        lemma_segment_squares(k, er, ef, cs);
        crate::bits::lemma_in_bb_single(cs as u64, cs);
    }
}

/// The check mask around a checking knight holds the knight only.
proof fn lemma_mask_knight(p: Position, cs: int, t: int)
    requires
        knight_step(p.king_square(p.side_to_move()), cs),
        crate::Sq(cs as u8).idx() == cs,
        in_bb(p.check_mask(Some(crate::Sq(cs as u8))), t),
    ensures
        t == cs,
{
    crate::bits::lemma_in_bb_single(cs as u64, t);
}

/// A move onto the check mask of a checking slider on `cs` that neither takes it nor lands on
/// the king blocks it: after the move it does not reach the king along (`dr`, `df`).
proof fn lemma_checker_blocked(p: Position, b: u64, cs: int, dr: int, df: int, t: int)
    requires
        0 <= cs < 64,
        0 <= p.king_square(p.side_to_move()) < 64,
        crate::Sq(cs as u8).idx() == cs,
        unit_step(dr, df),
        in_bb(p.check_mask(Some(crate::Sq(cs as u8))), t),
        t != cs,
        t != p.king_square(p.side_to_move()),
        in_bb(b, t),
    ensures
        !on_ray(cs, dr, df, b, 8, p.king_square(p.side_to_move())),
{
    let k = p.king_square(p.side_to_move());
    if on_ray(cs, dr, df, b, 8, k) {
        lemma_ray_reverse(cs, dr, df, b, 8, k);
        lemma_ray_dir(k, -dr, -df, b, cs);
        lemma_segment_squares(k, -dr, -df, cs);
        crate::bits::lemma_in_bb_single(cs as u64, t);
        assert(on_ray(k, -dr, -df, 1u64 << (cs as u64), 8, t));
        lemma_clear_path(k, -dr, -df, b, 8, cs, t);
    }
}

/// What a move of a piece other than the king, en passant aside, changes: the piece leaves `f`
/// for `t`, taking what stood there; the kings stay; the opponent only loses pieces.
#[verifier::spinoff_prover]
proof fn lemma_frame(p: Position, m: Move, q: Position)
    requires
        p.wf(),
        p.applicable(m),
        p.moved(m) != Piece::King,
        p.capture_of(m) matches Some((x, _)) ==> x == m.to_sq(),
        p.plays(m, q),
    ensures
        0 <= m.from_sq() < 64,
        0 <= m.to_sq() < 64,
        m.from_sq() != m.to_sq(),
        m.from_sq() != p.king_square(p.side_to_move()),
        m.to_sq() != p.king_square(p.side_to_move()),
        0 <= p.king_square(p.side_to_move()) < 64,
        q.side_to_move() == p.side_to_move().other(),
        q.king_square(p.side_to_move()) == p.king_square(p.side_to_move()),
        q.king_square(p.side_to_move().other()) == p.king_square(p.side_to_move().other()),
        forall|pc: Piece, x: int| #[trigger] in_bb(q.bb(pc, p.side_to_move().other()), x) ==> in_bb(
            p.bb(pc, p.side_to_move().other()),
            x,
        ) && x != m.to_sq() && x != m.from_sq(),
        forall|pc: Piece, x: int| x != m.to_sq() && #[trigger] in_bb(p.bb(pc, p.side_to_move().other()), x) ==> in_bb(
            q.bb(pc, p.side_to_move().other()),
            x,
        ),
        forall|x: int| x != m.from_sq() && x != m.to_sq() ==> #[trigger] in_bb(p.occ_bb(), x) == in_bb(q.occ_bb(), x),
        in_bb(q.occ_bb(), m.to_sq()),
        !in_bb(q.occ_bb(), m.from_sq()),
        in_bb(p.occ_bb(), m.from_sq()),
{
    let c = p.side_to_move();
    let o = c.other();
    let k = p.king_square(c);
    let f = m.from_sq();
    let t = m.to_sq();
    Move::lemma_squares(m);
    p.lemma_kings();
    p.lemma_describes_occupants();
    q.lemma_kings();
    q.lemma_describes_occupants();
    let po = p.occupants();
    let qo = q.occupants();
    assert(p.castle_of(m) is None);
    assert forall|x: int| 0 <= x < 64 && x != f && x != t implies #[trigger] qo[x] == po[x] by {}
    assert(qo[f] is None);
    assert(qo[t] == Some((p.end_piece(m), c)));
    assert(p.piece_on(k, Piece::King, c));
    assert(po[k] == Some((Piece::King, c)));
    assert(q.piece_on(k, Piece::King, c));
    assert(q.piece_on(q.king_square(o), Piece::King, o));
    assert(p.piece_on(q.king_square(o), Piece::King, o));
    assert forall|pc: Piece, x: int| #[trigger] in_bb(q.bb(pc, o), x) implies in_bb(p.bb(pc, o), x) && x != t && x != f by {
        assert(qo[x] == Some((pc, o)));
    }
    assert forall|pc: Piece, x: int| x != t && #[trigger] in_bb(p.bb(pc, o), x) implies in_bb(q.bb(pc, o), x) by {
        assert(po[x] == Some((pc, o)));
        assert(x != f);
    }
    assert forall|x: int| x != f && x != t implies #[trigger] in_bb(p.occ_bb(), x) == in_bb(q.occ_bb(), x) by {
        lemma_occupied(q, x);
        lemma_occupied(p, x);
    }
    lemma_occupied(q, t);
    lemma_occupied(q, f);
    lemma_occupied(p, f);
}

/// An opponent slider on `s` does not attack the king after a move onto the check mask of a
/// single check that keeps to the piece's pin and movement.
#[verifier::spinoff_prover]
proof fn lemma_evasion_slider(p: Position, kind: Piece, s: int, b: u64, f: int, t: int, er: int, ef: int, knight: bool)
    requires
        p.wf(),
        crate::bits::popcount(p.checker_bb()) == 1,
        kind == Piece::Bishop || kind == Piece::Rook || kind == Piece::Queen,
        p.piece_on(s, kind, p.side_to_move().other()),
        in_bb(b, s),
        forall|x: int| x != f && x != t ==> #[trigger] in_bb(p.occ_bb(), x) == in_bb(b, x),
        in_bb(b, t),
        !in_bb(b, f),
        0 <= f < 64,
        0 <= t < 64,
        f != s,
        t != s,
        t != f,
        t != p.king_square(p.side_to_move()),
        in_bb(p.check_mask(Some(crate::Sq(checker_square(p) as u8))), t),
        in_bb(p.pin_bb(), f) ==> in_bb(full_line(f, any_dir(f, p.king_square(p.side_to_move()))), t),
        knight ==> knight_step(f, t),
        !knight ==> unit_step(er, ef) && on_ray(f, er, ef, p.occ_bb(), 8, t),
    ensures
        !piece_target(kind, s, b, p.king_square(p.side_to_move())),
{
    let k = p.king_square(p.side_to_move());
    let occ = p.occ_bb();
    let cs = checker_square(p);
    lemma_single_checker(p);
    p.lemma_kings();
    assert(0 <= s < 64) by {
        lemma_occupied(p, s);
        p.lemma_describes_occupants();
    }
    lemma_slider_seen_from_king(s, k, occ);
    if piece_target(kind, s, occ, k) {
        assert(p.gives_check(s));
        assert(in_bb(p.checker_bb(), s));
        lemma_checker_blocked(p, b, cs, 1, 0, t);
        lemma_checker_blocked(p, b, cs, -1, 0, t);
        lemma_checker_blocked(p, b, cs, 0, 1, t);
        lemma_checker_blocked(p, b, cs, 0, -1, t);
        lemma_checker_blocked(p, b, cs, 1, 1, t);
        lemma_checker_blocked(p, b, cs, 1, -1, t);
        lemma_checker_blocked(p, b, cs, -1, 1, t);
        lemma_checker_blocked(p, b, cs, -1, -1, t);
    } else {
        lemma_slider_blocked(p, kind, s, occ, b, f, t, er, ef, knight);
    }
}

/// In single check, an opponent piece next to the king or a knight's jump away that gives check
/// stands on every square of the check mask that is not the king's.
proof fn lemma_leaper_checker(p: Position, s: int, t: int)
    requires
        p.wf(),
        crate::bits::popcount(p.checker_bb()) == 1,
        in_bb(p.check_mask(Some(crate::Sq(checker_square(p) as u8))), t),
        t != p.king_square(p.side_to_move()),
        p.gives_check(s),
        king_step(p.king_square(p.side_to_move()), s) || knight_step(p.king_square(p.side_to_move()), s),
    ensures
        s == t,
{
    lemma_single_checker(p);
    assert(in_bb(p.checker_bb(), s));
    if king_step(p.king_square(p.side_to_move()), s) {
        lemma_mask_near(p, checker_square(p), t);
    } else {
        lemma_mask_knight(p, checker_square(p), t);
    }
}

/// Pawns, knights and the king of the opponent that are left after a move onto the check mask
/// of a single check, the checker taken if it was one of them, do not attack the mover's king.
#[verifier::spinoff_prover]
proof fn lemma_evasion_leapers(p: Position, pawns: u64, knights: u64, ko: int, b: u64, t: int)
    requires
        p.wf(),
        crate::bits::popcount(p.checker_bb()) == 1,
        in_bb(p.check_mask(Some(crate::Sq(checker_square(p) as u8))), t),
        t != p.king_square(p.side_to_move()),
        0 <= p.king_square(p.side_to_move()) < 64,
        ko == p.king_square(p.side_to_move().other()),
        ko != t,
        forall|x: int| #[trigger] in_bb(pawns, x) ==> in_bb(p.bb(Piece::Pawn, p.side_to_move().other()), x) && x != t,
        forall|x: int| #[trigger] in_bb(knights, x) ==> in_bb(p.bb(Piece::Knight, p.side_to_move().other()), x) && x != t,
    ensures
        !pawn_target(pawns, p.side_to_move().other(), p.king_square(p.side_to_move())),
        !union_target(Piece::Knight, knights, b, p.king_square(p.side_to_move())),
        !king_step(ko, p.king_square(p.side_to_move())),
{
    let c = p.side_to_move();
    let o = c.other();
    let k = p.king_square(c);
    p.lemma_kings();
    if pawn_target(pawns, o, k) {
        let s = if c == Side::White {
            if pawn_left_target(pawns, o, k) { k + 9 } else { k + 7 }
        } else {
            if pawn_left_target(pawns, o, k) { k - 7 } else { k - 9 }
        };
        assert(in_bb(pawns, s));
        crate::bits::lemma_in_bb_single(k as u64, k);
        assert(p.gives_check(s));
        assert(king_step(k, s));
        lemma_leaper_checker(p, s, t);
    }
    if union_target(Piece::Knight, knights, b, k) {
        let s = choose|s: int| #[trigger] in_bb(knights, s) && piece_target(Piece::Knight, s, b, k);
        assert(p.gives_check(s));
        lemma_leaper_checker(p, s, t);
    }
    if king_step(ko, k) {
        assert(p.piece_on(ko, Piece::King, o));
        assert(p.gives_check(ko));
        lemma_leaper_checker(p, ko, t);
    }
}

/// A move of a piece other than the king, en passant aside, made in check by a single piece,
/// never leaves the king attacked when its target is on the check mask, the piece reaches it by
/// its own movement (along the step (`er`, `ef`), or by a knight's jump) and, if pinned, stays
/// on the line through it and the king.
#[verifier::spinoff_prover]
proof fn lemma_evasion_move_safe(p: Position, m: Move, q: Position, er: int, ef: int, knight: bool)
    requires
        p.wf(),
        crate::bits::popcount(p.checker_bb()) == 1,
        in_bb(p.check_mask(Some(crate::Sq(checker_square(p) as u8))), m.to_sq()),
        p.applicable(m),
        p.moved(m) != Piece::King,
        p.capture_of(m) matches Some((x, _)) ==> x == m.to_sq(),
        in_bb(p.pin_bb(), m.from_sq()) ==> in_bb(full_line(m.from_sq(), any_dir(m.from_sq(), p.king_square(p.side_to_move()))), m.to_sq()),
        knight ==> knight_step(m.from_sq(), m.to_sq()),
        !knight ==> unit_step(er, ef) && on_ray(m.from_sq(), er, ef, p.occ_bb(), 8, m.to_sq()),
        p.plays(m, q),
    ensures
        !q.attacked(q.side_to_move(), q.occ_bb(), q.king_square(q.side_to_move().other())),
{
    let c = p.side_to_move();
    let o = c.other();
    let k = p.king_square(c);
    let f = m.from_sq();
    let t = m.to_sq();
    lemma_frame(p, m, q);
    let b = q.occ_bb();
    q.lemma_kings();
    assert(q.piece_on(q.king_square(o), Piece::King, o));
    lemma_evasion_leapers(p, q.bb(Piece::Pawn, o), q.bb(Piece::Knight, o), q.king_square(o), b, t);
    q.lemma_describes_occupants();
    if union_target(Piece::Bishop, q.bb(Piece::Bishop, o), b, k) {
        let s = choose|s: int| #[trigger] in_bb(q.bb(Piece::Bishop, o), s) && piece_target(Piece::Bishop, s, b, k);
        lemma_occupied(q, s);
        lemma_evasion_slider(p, Piece::Bishop, s, b, f, t, er, ef, knight);
    }
    if union_target(Piece::Rook, q.bb(Piece::Rook, o), b, k) {
        let s = choose|s: int| #[trigger] in_bb(q.bb(Piece::Rook, o), s) && piece_target(Piece::Rook, s, b, k);
        lemma_occupied(q, s);
        lemma_evasion_slider(p, Piece::Rook, s, b, f, t, er, ef, knight);
    }
    if union_target(Piece::Queen, q.bb(Piece::Queen, o), b, k) {
        let s = choose|s: int| #[trigger] in_bb(q.bb(Piece::Queen, o), s) && piece_target(Piece::Queen, s, b, k);
        lemma_occupied(q, s);
        lemma_evasion_slider(p, Piece::Queen, s, b, f, t, er, ef, knight);
    }
}

/// A king step onto a square the opponent attacks, the king taken away, leaves the king
/// attacked there: in the position after it, some piece of the side to move attacks it.
#[verifier::spinoff_prover]
proof fn lemma_king_step_into_attack(p: Position, m: Move, q: Position, t: int)
    requires
        p.wf(),
        king_step(p.king_square(p.side_to_move()), t),
        !in_bb(p.side_bb(p.side_to_move()), t),
        m == Move::spec_new(p.king_square(p.side_to_move()), t, None),
        in_bb(p.threat_bb(), t),
        p.applicable(m),
        p.plays(m, q),
    ensures
        q.attacked(q.side_to_move(), q.occ_bb(), q.king_square(q.side_to_move().other())),
{
    let c = p.side_to_move();
    let o = c.other();
    let k = p.king_square(c);
    Move::lemma_spec_new(k, t, None);
    p.lemma_kings();
    p.lemma_describes_occupants();
    q.lemma_kings();
    q.lemma_describes_occupants();
    let po = p.occupants();
    let qo = q.occupants();
    assert(p.moved(m) == Piece::King) by {
        assert(p.piece_on(k, Piece::King, c));
    }
    assert(p.castle_of(m) is None);
    assert forall|s: int| 0 <= s < 64 && s != k && s != t implies #[trigger] qo[s] == po[s] by {}
    assert(qo[t] == Some((Piece::King, c)));
    assert(qo[k] is None);
    assert(q.side_to_move() == o);
    assert(q.piece_on(t, Piece::King, c));
    assert(q.king_square(c) == t);
    assert(q.piece_on(q.king_square(o), Piece::King, o));
    assert(p.piece_on(q.king_square(o), Piece::King, o));
    assert(q.king_square(o) == p.king_square(o));
    assert(p.piece_on(k, Piece::King, c));
    // Every piece of `o` off `t` stays where it stood.
    assert forall|pc: Piece, s: int| s != t && #[trigger] in_bb(p.bb(pc, o), s) implies in_bb(q.bb(pc, o), s) by {
        assert(po[s] == Some((pc, o)));
        assert(s != k);
    }
    let kingless = p.occ_bb() ^ (1u64 << (k as u64));
    assert forall|x: int| x != t implies #[trigger] in_bb(q.occ_bb(), x) == in_bb(kingless, x) by {
        lemma_occupied(q, x);
        lemma_occupied(p, x);
        crate::bits::lemma_in_bb_single(k as u64, x);
    }
    assert(p.attacked(o, kingless, t));
    lemma_attack_kept(p, q, o, kingless, t);
}

/// A slider never attacks its own square.
proof fn lemma_slider_not_self(s: int, occ: u64, t: int)
    requires
        crate::attacks::bishop_target(s, occ, t) || crate::attacks::rook_target(s, occ, t),
    ensures
        s != t,
{
    if on_ray(s, 1, 0, occ, 8, t) { lemma_ray_direction(s, 1, 0, occ, 8, t); }
    if on_ray(s, -1, 0, occ, 8, t) { lemma_ray_direction(s, -1, 0, occ, 8, t); }
    if on_ray(s, 0, 1, occ, 8, t) { lemma_ray_direction(s, 0, 1, occ, 8, t); }
    if on_ray(s, 0, -1, occ, 8, t) { lemma_ray_direction(s, 0, -1, occ, 8, t); }
    if on_ray(s, 1, 1, occ, 8, t) { lemma_ray_direction(s, 1, 1, occ, 8, t); }
    if on_ray(s, 1, -1, occ, 8, t) { lemma_ray_direction(s, 1, -1, occ, 8, t); }
    if on_ray(s, -1, 1, occ, 8, t) { lemma_ray_direction(s, -1, 1, occ, 8, t); }
    if on_ray(s, -1, -1, occ, 8, t) { lemma_ray_direction(s, -1, -1, occ, 8, t); }
}

/// Side `o` still attacks `t` in `q` over its occupancy when it attacked `t` in `p` over `a`,
/// its pieces off `t` stay, its king stays, and the two occupancies agree off `t`.
proof fn lemma_attack_kept(p: Position, q: Position, o: Side, a: u64, t: int)
    requires
        p.attacked(o, a, t),
        forall|pc: Piece, s: int| s != t && #[trigger] in_bb(p.bb(pc, o), s) ==> in_bb(q.bb(pc, o), s),
        forall|x: int| x != t ==> #[trigger] in_bb(q.occ_bb(), x) == in_bb(a, x),
        q.king_square(o) == p.king_square(o),
    ensures
        q.attacked(o, q.occ_bb(), t),
{
    let pawns_p = p.bb(Piece::Pawn, o);
    if pawn_target(pawns_p, o, t) {
        let pawns_q = q.bb(Piece::Pawn, o);
        if pawn_left_target(pawns_p, o, t) {
            assert(pawn_left_target(pawns_q, o, t));
        } else {
            assert(pawn_right_target(pawns_q, o, t));
        }
    } else if union_target(Piece::Knight, p.bb(Piece::Knight, o), a, t) {
        let s = choose|s: int| #[trigger] in_bb(p.bb(Piece::Knight, o), s) && piece_target(Piece::Knight, s, a, t);
        assert(in_bb(q.bb(Piece::Knight, o), s) && piece_target(Piece::Knight, s, q.occ_bb(), t));
    } else if union_target(Piece::Bishop, p.bb(Piece::Bishop, o), a, t) {
        let s = choose|s: int| #[trigger] in_bb(p.bb(Piece::Bishop, o), s) && piece_target(Piece::Bishop, s, a, t);
        lemma_sliders_ignore_target(s, q.occ_bb(), a, t);
        lemma_slider_not_self(s, a, t);
        assert(in_bb(q.bb(Piece::Bishop, o), s) && piece_target(Piece::Bishop, s, q.occ_bb(), t));
    } else if union_target(Piece::Rook, p.bb(Piece::Rook, o), a, t) {
        let s = choose|s: int| #[trigger] in_bb(p.bb(Piece::Rook, o), s) && piece_target(Piece::Rook, s, a, t);
        lemma_sliders_ignore_target(s, q.occ_bb(), a, t);
        lemma_slider_not_self(s, a, t);
        assert(in_bb(q.bb(Piece::Rook, o), s) && piece_target(Piece::Rook, s, q.occ_bb(), t));
    } else if union_target(Piece::Queen, p.bb(Piece::Queen, o), a, t) {
        let s = choose|s: int| #[trigger] in_bb(p.bb(Piece::Queen, o), s) && piece_target(Piece::Queen, s, a, t);
        lemma_sliders_ignore_target(s, q.occ_bb(), a, t);
        lemma_slider_not_self(s, a, t);
        assert(in_bb(q.bb(Piece::Queen, o), s) && piece_target(Piece::Queen, s, q.occ_bb(), t));
    } else {
        assert(king_step(p.king_square(o), t));
    }
}

/// The larger of the rank and file distances between two squares.
pub open spec fn sq_dist(s: int, k: int) -> int {
    let dr = crate::rank_of(k) - crate::rank_of(s);
    let df = crate::file_of(k) - crate::file_of(s);
    let ar = if dr >= 0 { dr } else { -dr };
    let af = if df >= 0 { df } else { -df };
    if ar >= af { ar } else { af }
}

/// Walking from `s` along the step towards `k` it shares a line with reaches `k`.
proof fn lemma_aligned_ray(s: int, dr: int, df: int, k: int, n: nat)
    requires
        0 <= s < 64,
        0 <= k < 64,
        diagonal_dir(s, k) == Some((dr, df)) || straight_dir(s, k) == Some((dr, df)),
        sq_dist(s, k) <= n,
    ensures
        on_ray(s, dr, df, 1u64 << (k as u64), n, k),
    decreases n,
{
    let r2 = crate::rank_of(s) + dr;
    let f2 = crate::file_of(s) + df;
    let nx = r2 * 8 + f2;
    assert(crate::rank_of(nx) == r2 && crate::file_of(nx) == f2);
    if nx != k {
        crate::bits::lemma_in_bb_single(k as u64, nx);
        assert(diagonal_dir(nx, k) == Some((dr, df)) || straight_dir(nx, k) == Some((dr, df)));
        lemma_aligned_ray(nx, dr, df, k, (n - 1) as nat);
    }
}

/// A ray walk that reaches `k` over the board with `k` alone reaches it over `b` when `b`
/// leaves every square before `k` empty.
proof fn lemma_ray_through_empty(s: int, dr: int, df: int, b: u64, n: nat, k: int)
    requires
        0 <= k < 64,
        on_ray(s, dr, df, 1u64 << (k as u64), n, k),
        forall|x: int| on_ray(s, dr, df, 1u64 << (k as u64), n, x) && x != k ==> !#[trigger] in_bb(b, x),
    ensures
        on_ray(s, dr, df, b, n, k),
    decreases n,
{
    let nx = next_sq(s, dr, df);
    if nx != k {
        crate::bits::lemma_in_bb_single(k as u64, nx);
        assert(on_ray(s, dr, df, 1u64 << (k as u64), n, nx));
        assert forall|x: int| on_ray(nx, dr, df, 1u64 << (k as u64), (n - 1) as nat, x) && x != k
            implies !#[trigger] in_bb(b, x) by {
            assert(on_ray(s, dr, df, 1u64 << (k as u64), n, x));
        }
        lemma_ray_through_empty(nx, dr, df, b, (n - 1) as nat, k);
    }
}

/// The squares from `s` up to `k` along a line through `f` lie on the whole line through `f`
/// and `k`.
proof fn lemma_on_full_line(s: int, dr: int, df: int, k: int, f: int, x: int)
    requires
        0 <= s < 64,
        0 <= k < 64,
        unit_step(dr, df),
        on_ray(s, dr, df, 1u64 << (k as u64), 8, f),
        on_ray(s, dr, df, 1u64 << (k as u64), 8, k),
        f != k,
        x == s || (on_ray(s, dr, df, 1u64 << (k as u64), 8, x) && x != k),
    ensures
        any_dir(f, k) == Some((dr, df)),
        in_bb(full_line(f, Some((dr, df))), x),
{
    lemma_ray_suffix(s, dr, df, 1u64 << (k as u64), 8, k, f);
    lemma_ray_direction(s, dr, df, 1u64 << (k as u64), 8, f);
    lemma_ray_dir(f, dr, df, 1u64 << (k as u64), k);
    crate::attacks::lemma_ray_bb(f, dr, df, 0, 8);
    crate::attacks::lemma_ray_bb(f, -dr, -df, 0, 8);
    crate::bits::lemma_in_bb_single(f as u64, x);
    if x == s {
        lemma_ray_reverse(s, dr, df, 1u64 << (k as u64), 8, f);
        lemma_ray_fewer(f, -dr, -df, 1u64 << (k as u64), 0, 8, x);
    } else if x != f {
        lemma_ray_fewer(s, dr, df, 1u64 << (k as u64), 0, 8, x);
        lemma_ray_fewer(s, dr, df, 1u64 << (k as u64), 0, 8, f);
        lemma_ray_direction(s, dr, df, 1u64 << (k as u64), 8, x);
        lemma_ray_order(s, dr, df, 8, x, f);
        if on_ray(s, dr, df, 1u64 << (f as u64), 8, x) {
            lemma_ray_ignores_target(s, dr, df, 0, 1u64 << (f as u64), 8, f);
            lemma_ray_suffix(s, dr, df, 1u64 << (f as u64), 8, f, x);
            lemma_ray_reverse(x, dr, df, 1u64 << (f as u64), 8, f);
            lemma_ray_fewer(f, -dr, -df, 1u64 << (f as u64), 0, 8, x);
        } else {
            lemma_ray_suffix(s, dr, df, 0, 8, x, f);
        }
    }
}

/// Moving a pinned piece off the line through it and the king, en passant aside, uncovers the
/// king: in the position after the move, the pinning slider attacks it.
#[verifier::spinoff_prover]
#[verifier::rlimit(30)]
proof fn lemma_pin_broken(p: Position, m: Move, q: Position, kind: Piece, s: int)
    requires
        p.wf(),
        p.pin_via(kind, s, m.from_sq()),
        p.applicable(m),
        p.moved(m) != Piece::King,
        p.capture_of(m) matches Some((x, _)) ==> x == m.to_sq(),
        !in_bb(full_line(m.from_sq(), any_dir(m.from_sq(), p.king_square(p.side_to_move()))), m.to_sq()),
        p.plays(m, q),
    ensures
        q.attacked(q.side_to_move(), q.occ_bb(), q.king_square(q.side_to_move().other())),
{
    let c = p.side_to_move();
    let o = c.other();
    let k = p.king_square(c);
    let f = m.from_sq();
    let t = m.to_sq();
    lemma_frame(p, m, q);
    p.lemma_kings();
    assert(0 <= s < 64) by {
        lemma_occupied(p, s);
        p.lemma_describes_occupants();
    }
    let occ = p.occ_bb();
    let mask = occ & p.between_king(kind, s);
    let ends = !((1u64 << (s as u64)) | (1u64 << (k as u64)));
    crate::bits::lemma_in_bb_single(s as u64, f);
    crate::bits::lemma_in_bb_single(k as u64, f);
    // The line from the slider to the king, and its squares in between.
    let d = if diagonal_dir(s, k) is Some && kind != Piece::Rook { diagonal_dir(s, k)->0 } else { straight_dir(s, k)->0 };
    let dr = d.0;
    let df = d.1;
    assert(in_bb(segment(s, k, Some((dr, df))), f) && f != s && f != k);
    assert(diagonal_dir(s, k) == Some((dr, df)) || straight_dir(s, k) == Some((dr, df)));
    assert(kind == Piece::Bishop ==> diagonal_dir(s, k) == Some((dr, df)));
    assert(kind == Piece::Rook ==> straight_dir(s, k) == Some((dr, df)));
    lemma_segment_squares(s, dr, df, k);
    assert(sq_dist(s, k) <= 8);
    lemma_aligned_ray(s, dr, df, k, 8);
    assert(unit_step(dr, df));
    // Every square before the king but the pinned piece's is empty, the target is off the line.
    assert forall|x: int| on_ray(s, dr, df, 1u64 << (k as u64), 8, x) && x != k implies !#[trigger] in_bb(q.occ_bb(), x) by {
        lemma_ray_direction(s, dr, df, 1u64 << (k as u64), 8, x);
        crate::bits::lemma_in_bb_single(s as u64, x);
        crate::bits::lemma_in_bb_single(k as u64, x);
        assert(in_bb(segment(s, k, Some((dr, df))), x));
        lemma_on_full_line(s, dr, df, k, f, x);
        if x != f {
            if in_bb(occ, x) {
                assert(in_bb(mask, x));
                lemma_popcount_one(mask, x, f);
            }
        }
    }
    lemma_ray_through_empty(s, dr, df, q.occ_bb(), 8, k);
    lemma_on_full_line(s, dr, df, k, f, s);
    assert(in_bb(q.bb(kind, o), s));
    assert(piece_target(kind, s, q.occ_bb(), k));
    assert(union_target(kind, q.bb(kind, o), q.occ_bb(), k));
}

/// An en-passant capture that the en-passant test refuses leaves the king attacked: in the
/// position after it, a slider of the side to move attacks the king.
#[verifier::spinoff_prover]
#[verifier::rlimit(40)]
proof fn lemma_ep_exposed(p: Position, m: Move, q: Position, left: bool)
    requires
        p.wf(),
        p.ep_square() is Some,
        left ==> pawn_left_target(p.bb(Piece::Pawn, p.side_to_move()), p.side_to_move(), p.ep_square()->0.idx()),
        !left ==> pawn_right_target(p.bb(Piece::Pawn, p.side_to_move()), p.side_to_move(), p.ep_square()->0.idx()),
        m == Move::spec_new(p.ep_square()->0.idx() - (if left { Position::left_offset(p.side_to_move()) } else {
            Position::right_offset(p.side_to_move()) }), p.ep_square()->0.idx(), None),
        !p.ep_safe(crate::position::xor8(m.to_sq()), m.from_sq(), m.to_sq()),
        p.applicable(m),
        p.plays(m, q),
    ensures
        q.attacked(q.side_to_move(), q.occ_bb(), q.king_square(q.side_to_move().other())),
{
    let c = p.side_to_move();
    let o = c.other();
    let k = p.king_square(c);
    let e = p.ep_square()->0;
    let t = e.idx();
    let off = if left { Position::left_offset(c) } else { Position::right_offset(c) };
    let f = t - off;
    let cap = (e.0 ^ 8u8) as int;
    crate::position::lemma_xor8(t);
    let pawns = p.bb(Piece::Pawn, c);
    assert(in_bb(pawns, f));
    Move::lemma_spec_new(f, t, None);
    p.lemma_kings();
    p.lemma_describes_occupants();
    q.lemma_kings();
    q.lemma_describes_occupants();
    p.lemma_occupant_of(Piece::Pawn, c, f);
    let po = p.occupants();
    let qo = q.occupants();
    assert(cap == crate::position::xor8(t));
    assert(p.piece_on(cap, Piece::Pawn, o));
    p.lemma_occupant_of(Piece::Pawn, o, cap);
    assert(p.square(t) is None);
    assert(p.capture_of(m) == Some((cap, Piece::Pawn)));
    assert(p.castle_of(m) is None);
    assert forall|x: int| 0 <= x < 64 && x != f && x != t && x != cap implies #[trigger] qo[x] == po[x] by {}
    assert(p.piece_on(k, Piece::King, c));
    assert(po[k] == Some((Piece::King, c)));
    assert(q.side_to_move() == o);
    assert(q.piece_on(k, Piece::King, c));
    assert(q.king_square(c) == k);
    let occ = p.occ_bb();
    let upd = occ ^ ((1u64 << (cap as u64)) | (1u64 << (f as u64)) | (1u64 << (t as u64)));
    assert forall|x: int| 0 <= x < 64 implies #[trigger] in_bb(q.occ_bb(), x) == in_bb(upd, x) by {
        lemma_occupied(q, x);
        lemma_occupied(p, x);
        crate::bits::lemma_in_bb_single(cap as u64, x);
        crate::bits::lemma_in_bb_single(f as u64, x);
        crate::bits::lemma_in_bb_single(t as u64, x);
    }
    crate::bits::lemma_same_squares_eq(q.occ_bb(), upd);
    lemma_slider_bbs(k, upd);
    let rooks = crate::attacks::rook_bb(k, upd) & p.bb(Piece::Rook, o);
    let bishops = crate::attacks::bishop_bb(k, upd) & p.bb(Piece::Bishop, o);
    let queens = (crate::attacks::rook_bb(k, upd) | crate::attacks::bishop_bb(k, upd)) & p.bb(Piece::Queen, o);
    let (kind, b) = if rooks != 0 { (Piece::Rook, rooks) } else if bishops != 0 { (Piece::Bishop, bishops) } else { (Piece::Queen, queens) };
    crate::bits::lemma_nonzero_has(b);
    let s = vstd::std_specs::bits::u64_trailing_zeros(b) as int;
    assert(in_bb(p.bb(kind, o), s));
    assert(po[s] == Some((kind, o)));
    assert(s != f && s != t && s != cap);
    assert(qo[s] == Some((kind, o)));
    assert(q.piece_on(s, kind, o));
    lemma_slider_seen_from_king(k, s, upd);
    assert(piece_target(kind, s, q.occ_bb(), k));
    assert(union_target(kind, q.bb(kind, o), q.occ_bb(), k));
}

/// A move of a piece other than the king, en passant aside, that leaves the king unattacked
/// keeps the piece on its pin line.
proof fn lemma_kept_on_pin_line(p: Position, m: Move, q: Position)
    requires
        p.wf(),
        p.applicable(m),
        p.moved(m) != Piece::King,
        p.capture_of(m) matches Some((x, _)) ==> x == m.to_sq(),
        p.plays(m, q),
        !q.attacked(q.side_to_move(), q.occ_bb(), q.king_square(q.side_to_move().other())),
    ensures
        in_bb(p.pin_line(m.from_sq()), m.to_sq()),
{
    Move::lemma_squares(m);
    let f = m.from_sq();
    if in_bb(p.pin_bb(), f) {
        assert(p.pinned(f));
        let (kind, s) = choose|kind: Piece, s: int| #[trigger] p.pin_via(kind, s, f);
        if !in_bb(full_line(f, any_dir(f, p.king_square(p.side_to_move()))), m.to_sq()) {
            lemma_pin_broken(p, m, q, kind, s);
        }
    }
}

/// A step of the king or castling moves the king.
proof fn lemma_king_kind(p: Position, m: Move)
    requires
        p.wf(),
        p.king_move(m) || p.castle_to(true, m) || p.castle_to(false, m),
    ensures
        p.moved(m) == Piece::King,
{
    let c = p.side_to_move();
    p.lemma_kings();
    let k = p.king_square(c);
    assert(p.piece_on(k, Piece::King, c));
    p.lemma_occupant_of(Piece::King, c, k);
    if p.king_move(m) {
        let t = choose|t: int| #[trigger] p.king_evasion(t) && m == Move::spec_new(k, t, None);
        Move::lemma_spec_new(k, t, None);
    } else {
        let ks = p.castle_to(true, m);
        crate::move_gen::lemma_castle_fits(p, ks);
        let t = c.home() * 8 + (if ks { 6int } else { 2int });
        Move::lemma_spec_new(k, t, None);
    }
}

/// Every move the moves list holds leaves the king unattacked: in the position after it, no
/// piece of the side then to move attacks the mover's king.
#[verifier::spinoff_prover]
pub proof fn lemma_listed_moves_safe(p: Position, m: Move, q: Position)
    requires
        p.wf(),
        p.listed_move(m),
        p.applicable(m),
        p.plays(m, q),
    ensures
        !q.attacked(q.side_to_move(), q.occ_bb(), q.king_square(q.side_to_move().other())),
{
    let n = crate::bits::popcount(p.checker_bb());
    let all = 0xffff_ffff_ffff_ffffu64;
    if n == 0 {
        crate::movegen::lemma_popcount_zero(p.checker_bb());
    } else if n == 1 {
        lemma_single_checker(p);
    }
    if n >= 2 {
        assert(p.king_move(m));
        lemma_king_kind(p, m);
        lemma_king_moves_safe(p, m, q);
    } else {
        let mask = if n == 0 { all } else { p.check_mask(Some(crate::Sq(checker_square(p) as u8))) };
        assert(mask_of(p, mask));
        assert(p.standard_move(mask, n == 0, m));
        if p.king_move(m) || p.castle_to(true, m) || p.castle_to(false, m) {
            lemma_king_kind(p, m);
            lemma_king_moves_safe(p, m, q);
        } else if p.ep_open(mask) && (p.ep_capture(true, m) || p.ep_capture(false, m)) {
            lemma_listed_ep_safe(p, m, q, mask);
        } else if exists|t: int| #[trigger] p.push_to(mask, t, m) {
            let t = choose|t: int| #[trigger] p.push_to(mask, t, m);
            lemma_push_safe(p, m, q, mask, t);
        } else if exists|t: int| #[trigger] p.double_to(mask, t, m) {
            let t = choose|t: int| #[trigger] p.double_to(mask, t, m);
            lemma_double_safe(p, m, q, mask, t);
        } else if exists|t: int| #[trigger] p.capture_to(mask, true, t, m) {
            let t = choose|t: int| #[trigger] p.capture_to(mask, true, t, m);
            lemma_pawn_capture_safe(p, m, q, mask, true, t);
        } else if exists|t: int| #[trigger] p.capture_to(mask, false, t, m) {
            let t = choose|t: int| #[trigger] p.capture_to(mask, false, t, m);
            lemma_pawn_capture_safe(p, m, q, mask, false, t);
        } else if exists|f: int| #[trigger] p.piece_from(mask, Piece::Knight, f, m) {
            let f = choose|f: int| #[trigger] p.piece_from(mask, Piece::Knight, f, m);
            lemma_piece_from_safe(p, m, q, mask, Piece::Knight, f);
        } else if exists|f: int| #[trigger] p.piece_from(mask, Piece::Bishop, f, m) {
            let f = choose|f: int| #[trigger] p.piece_from(mask, Piece::Bishop, f, m);
            lemma_piece_from_safe(p, m, q, mask, Piece::Bishop, f);
        } else if exists|f: int| #[trigger] p.piece_from(mask, Piece::Rook, f, m) {
            let f = choose|f: int| #[trigger] p.piece_from(mask, Piece::Rook, f, m);
            lemma_piece_from_safe(p, m, q, mask, Piece::Rook, f);
        } else {
            let f = choose|f: int| #[trigger] p.piece_from(mask, Piece::Queen, f, m);
            lemma_piece_from_safe(p, m, q, mask, Piece::Queen, f);
        }
    }
}

/// A move of a piece other than the king, en passant aside, that leaves the king unattacked
/// goes where its pin and the target mask of the moves list allow.
proof fn lemma_target_allowed(p: Position, m: Move, q: Position, mask: u64)
    requires
        p.wf(),
        mask_of(p, mask),
        p.applicable(m),
        p.moved(m) != Piece::King,
        p.capture_of(m) matches Some((x, _)) ==> x == m.to_sq(),
        p.plays(m, q),
        !q.attacked(q.side_to_move(), q.occ_bb(), q.king_square(q.side_to_move().other())),
    ensures
        p.allowed(mask, m.from_sq(), m.to_sq()),
{
    Move::lemma_squares(m);
    lemma_kept_on_pin_line(p, m, q);
    if p.checker_bb() != 0 && !in_bb(mask, m.to_sq()) {
        lemma_off_mask_exposed(p, m, q);
    }
}

/// A pawn push, double push or capture onto an occupied square of the pseudo-legal generator
/// that leaves the king unattacked goes where its pin and the target mask allow.
proof fn lemma_pawn_kept(p: Position, m: Move, q: Position, mask: u64, f: int, t: int, pr: Option<Piece>)
    requires
        p.wf(),
        mask_of(p, mask),
        in_bb(p.bb(Piece::Pawn, p.side_to_move()), f),
        0 <= t < 64,
        crate::promotion_ok(pr),
        m == Move::spec_new(f, t, pr),
        crate::file_of(t) == crate::file_of(f) ==> p.square(t) is None,
        crate::file_of(t) != crate::file_of(f) ==> p.square(t) is Some,
        p.applicable(m),
        p.plays(m, q),
        !q.attacked(q.side_to_move(), q.occ_bb(), q.king_square(q.side_to_move().other())),
    ensures
        p.allowed(mask, f, t),
{
    p.lemma_occupant_of(Piece::Pawn, p.side_to_move(), f);
    Move::lemma_spec_new(f, t, pr);
    lemma_target_allowed(p, m, q, mask);
}

/// A pawn push of the pseudo-legal generator that leaves the king unattacked is one the
/// moves list holds, not in check or in check by one piece.
#[verifier::spinoff_prover]
proof fn lemma_push_listed(p: Position, m: Move, q: Position, mask: u64, t: int)
    requires
        p.wf(),
        mask_of(p, mask),
        p.pseudo_push(t, m),
        p.applicable(m),
        p.plays(m, q),
        !q.attacked(q.side_to_move(), q.occ_bb(), q.king_square(q.side_to_move().other())),
    ensures
        p.push_to(mask, t, m),
{
    let c = p.side_to_move();
    let last = c.other().home();
    let f = crate::attacks::push_origin(c, t);
    let pr = choose|pr: Option<Piece>| #[trigger] crate::move_gen::pawn_move(last, f, t, pr, m);
    p.lemma_empty(t);
    lemma_pawn_kept(p, m, q, mask, f, t, pr);
}

/// A double pawn push of the pseudo-legal generator that leaves the king unattacked is one the
/// moves list holds, not in check or in check by one piece.
#[verifier::spinoff_prover]
proof fn lemma_double_listed(p: Position, m: Move, q: Position, mask: u64, t: int)
    requires
        p.wf(),
        mask_of(p, mask),
        p.pseudo_double(t, m),
        p.applicable(m),
        p.plays(m, q),
        !q.attacked(q.side_to_move(), q.occ_bb(), q.king_square(q.side_to_move().other())),
    ensures
        p.double_to(mask, t, m),
{
    let c = p.side_to_move();
    let last = c.other().home();
    let f = t - 2 * crate::position::forward(c);
    let pr = choose|pr: Option<Piece>| #[trigger] crate::move_gen::pawn_move(last, f, t, pr, m);
    p.lemma_empty(t);
    lemma_pawn_kept(p, m, q, mask, f, t, pr);
}

/// A king step of the pseudo-legal generator that leaves the king unattacked is a king step
/// the moves list holds.
proof fn lemma_king_listed(p: Position, m: Move, q: Position, f: int)
    requires
        p.wf(),
        p.pseudo_piece(0xffff_ffff_ffff_ffffu64, Piece::King, f, m),
        p.applicable(m),
        p.plays(m, q),
        !q.attacked(q.side_to_move(), q.occ_bb(), q.king_square(q.side_to_move().other())),
    ensures
        p.king_move(m),
{
    let c = p.side_to_move();
    let all = 0xffff_ffff_ffff_ffffu64;
    p.lemma_kings();
    let k = p.king_square(c);
    let t = choose|t: int| #[trigger] p.pseudo_piece_to(all, Piece::King, f, t, m);
    assert(p.piece_on(k, Piece::King, c));
    assert(p.piece_on(f, Piece::King, c));
    if in_bb(p.threat_bb(), t) {
        lemma_king_step_into_attack(p, m, q, t);
    }
    assert(p.king_evasion(t) && m == Move::spec_new(k, t, None));
}

/// A knight, bishop, rook or queen move of the pseudo-legal generator that leaves the king
/// unattacked goes where its pin and the target mask allow.
proof fn lemma_piece_kept(p: Position, m: Move, q: Position, mask: u64, kind: Piece, f: int, t: int)
    requires
        p.wf(),
        mask_of(p, mask),
        kind != Piece::King,
        p.pseudo_piece_to(0xffff_ffff_ffff_ffffu64, kind, f, t, m),
        p.applicable(m),
        p.plays(m, q),
        !q.attacked(q.side_to_move(), q.occ_bb(), q.king_square(q.side_to_move().other())),
    ensures
        p.allowed(mask, f, t),
        0 <= t < 64,
{
    crate::attacks::lemma_slider_targets_board(f, p.occ_bb());
    p.lemma_occupant_of(kind, p.side_to_move(), f);
    Move::lemma_spec_new(f, t, None);
    lemma_target_allowed(p, m, q, mask);
}

/// A pseudo-legal move that leaves the king unattacked is a standard move with the target mask
/// of the moves list, castling included out of check, when the mover is not in double check.
#[verifier::spinoff_prover]
proof fn lemma_standard_of_safe(p: Position, m: Move, q: Position, mask: u64)
    requires
        p.wf(),
        mask_of(p, mask),
        p.pseudo_move(m),
        p.applicable(m),
        p.plays(m, q),
        !q.attacked(q.side_to_move(), q.occ_bb(), q.king_square(q.side_to_move().other())),
    ensures
        p.standard_move(mask, p.checker_bb() == 0, m),
{
    let all = 0xffff_ffff_ffff_ffffu64;
    if exists|t: int| #[trigger] p.pseudo_push(t, m) {
        let t = choose|t: int| #[trigger] p.pseudo_push(t, m);
        lemma_push_listed(p, m, q, mask, t);
    } else if exists|t: int| #[trigger] p.pseudo_double(t, m) {
        let t = choose|t: int| #[trigger] p.pseudo_double(t, m);
        lemma_double_listed(p, m, q, mask, t);
    } else if exists|t: int| #[trigger] p.pseudo_capture(p.capture_mask(), true, t, m) {
        let t = choose|t: int| #[trigger] p.pseudo_capture(p.capture_mask(), true, t, m);
        lemma_capture_listed(p, m, q, mask, true, t);
    } else if exists|t: int| #[trigger] p.pseudo_capture(p.capture_mask(), false, t, m) {
        let t = choose|t: int| #[trigger] p.pseudo_capture(p.capture_mask(), false, t, m);
        lemma_capture_listed(p, m, q, mask, false, t);
    } else if exists|f: int| #[trigger] p.pseudo_piece(all, Piece::King, f, m) {
        let f = choose|f: int| #[trigger] p.pseudo_piece(all, Piece::King, f, m);
        lemma_king_listed(p, m, q, f);
    } else if p.checker_bb() == 0 && (p.castle_to(true, m) || p.castle_to(false, m)) {
    } else {
        let kind = if exists|f: int| #[trigger] p.pseudo_piece(all, Piece::Knight, f, m) {
            Piece::Knight
        } else if exists|f: int| #[trigger] p.pseudo_piece(all, Piece::Bishop, f, m) {
            Piece::Bishop
        } else if exists|f: int| #[trigger] p.pseudo_piece(all, Piece::Rook, f, m) {
            Piece::Rook
        } else {
            Piece::Queen
        };
        let f = choose|f: int| #[trigger] p.pseudo_piece(all, kind, f, m);
        let t = choose|t: int| #[trigger] p.pseudo_piece_to(all, kind, f, t, m);
        lemma_piece_kept(p, m, q, mask, kind, f, t);
        assert(p.piece_to(mask, kind, f, t, m));
        assert(p.piece_from(mask, kind, f, m));
    }
}

/// Every pseudo-legal move that leaves the mover's king unattacked is one the moves list holds.
pub proof fn lemma_safe_moves_listed(p: Position, m: Move, q: Position)
    requires
        p.wf(),
        p.pseudo_move(m),
        p.applicable(m),
        p.plays(m, q),
        !q.attacked(q.side_to_move(), q.occ_bb(), q.king_square(q.side_to_move().other())),
    ensures
        p.listed_move(m),
{
    let all = 0xffff_ffff_ffff_ffffu64;
    let n = crate::bits::popcount(p.checker_bb());
    if n >= 2 {
        lemma_double_check_listed(p, m, q);
    } else if n == 0 {
        crate::movegen::lemma_popcount_zero(p.checker_bb());
        assert(mask_of(p, all));
        lemma_standard_of_safe(p, m, q, all);
    } else {
        lemma_single_checker(p);
        let mask = p.check_mask(Some(crate::Sq(checker_square(p) as u8)));
        assert(mask_of(p, mask));
        lemma_standard_of_safe(p, m, q, mask);
    }
}

/// A pawn capture of the pseudo-legal generator that leaves the king unattacked is a capture
/// or an en-passant capture the moves list holds, not in check or in check by one piece.
proof fn lemma_capture_listed(p: Position, m: Move, q: Position, mask: u64, left: bool, t: int)
    requires
        p.wf(),
        mask_of(p, mask),
        p.pseudo_capture(p.capture_mask(), left, t, m),
        p.applicable(m),
        p.plays(m, q),
        !q.attacked(q.side_to_move(), q.occ_bb(), q.king_square(q.side_to_move().other())),
    ensures
        p.standard_move(mask, p.checker_bb() == 0, m),
{
    let c = p.side_to_move();
    let o = c.other();
    let last = o.home();
    let off = if left { Position::left_offset(c) } else { Position::right_offset(c) };
    let f = t - off;
    let pr = choose|pr: Option<Piece>| #[trigger] crate::move_gen::pawn_move(last, f, t, pr, m);
    Move::lemma_spec_new(f, t, pr);
    p.lemma_occupant_of(Piece::Pawn, c, f);
    if in_bb(p.side_bb(o), t) {
        p.lemma_occupied_square(o, t);
        lemma_pawn_kept(p, m, q, mask, f, t, pr);
        assert(p.capture_to(mask, left, t, m));
    } else {
        let e = p.ep_square()->0;
        assert(p.ep_square() is Some && t == e.idx());
        assert(p.square(t) is None);
        assert(pr is None);
        reveal(crate::move_gen::ep_clear);
        if !p.ep_safe(crate::position::xor8(t), f, t) {
            lemma_ep_exposed(p, m, q, left);
        }
        crate::position::lemma_xor8(t);
        assert(crate::move_gen::ep_clear(p, (e.0 ^ 8u8) as int, f, t));
        assert(p.ep_capture(left, m));
        if p.checker_bb() != 0 && !p.ep_open(mask) {
            lemma_ep_off_mask_exposed(p, m, q, left);
        }
        assert(p.ep_open(mask));
    }
}

/// In check by a single piece, a move of a piece other than the king, en passant aside, whose
/// target is off the check mask leaves the king attacked: the checker still attacks it.
proof fn lemma_off_mask_exposed(p: Position, m: Move, q: Position)
    requires
        p.wf(),
        crate::bits::popcount(p.checker_bb()) == 1,
        !in_bb(p.check_mask(Some(crate::Sq(checker_square(p) as u8))), m.to_sq()),
        p.applicable(m),
        p.moved(m) != Piece::King,
        p.capture_of(m) matches Some((x, _)) ==> x == m.to_sq(),
        p.plays(m, q),
    ensures
        q.attacked(q.side_to_move(), q.occ_bb(), q.king_square(q.side_to_move().other())),
{
    lemma_single_checker(p);
    lemma_checker_kept(p, m, q, checker_square(p));
}

/// A move of a piece other than the king, en passant aside, whose target is off the check mask
/// of a checking piece on `cs` leaves the king attacked: that piece still attacks it.
proof fn lemma_checker_kept(p: Position, m: Move, q: Position, cs: int)
    requires
        p.wf(),
        in_bb(p.checker_bb(), cs),
        crate::Sq(cs as u8).idx() == cs,
        !in_bb(p.check_mask(Some(crate::Sq(cs as u8))), m.to_sq()),
        p.applicable(m),
        p.moved(m) != Piece::King,
        p.capture_of(m) matches Some((x, _)) ==> x == m.to_sq(),
        p.plays(m, q),
    ensures
        q.attacked(q.side_to_move(), q.occ_bb(), q.king_square(q.side_to_move().other())),
{
    lemma_frame(p, m, q);
    crate::bits::lemma_in_bb_single(cs as u64, m.to_sq());
    lemma_check_survives(p, q, cs, m.to_sq());
}

/// A pawn of the side other than `c` on `cs` that attacks the king square `k` of `c` is among
/// the attackers of `k` of any pawn set that holds it.
proof fn lemma_pawn_check_kept(pawns: u64, c: Side, k: int, cs: int)
    requires
        0 <= k < 64,
        in_bb(pawns, cs),
        crate::attacks::pawn_target(1u64 << (k as u64), c, cs),
    ensures
        pawn_target(pawns, c.other(), k),
{
    crate::bits::lemma_in_bb_single(k as u64, cs - 7);
    crate::bits::lemma_in_bb_single(k as u64, cs - 9);
    crate::bits::lemma_in_bb_single(k as u64, cs + 7);
    crate::bits::lemma_in_bb_single(k as u64, cs + 9);
}

/// A checking piece on `cs` still attacks the king after a change of the board that keeps the
/// piece and both kings where they stand and newly fills only `t`, off the check mask of `cs`.
#[verifier::spinoff_prover]
#[verifier::rlimit(30)]
proof fn lemma_check_survives(p: Position, q: Position, cs: int, t: int)
    requires
        p.wf(),
        q.wf(),
        in_bb(p.checker_bb(), cs),
        crate::Sq(cs as u8).idx() == cs,
        !in_bb(p.check_mask(Some(crate::Sq(cs as u8))), t),
        t != cs,
        q.side_to_move() == p.side_to_move().other(),
        q.king_square(p.side_to_move()) == p.king_square(p.side_to_move()),
        q.king_square(p.side_to_move().other()) == p.king_square(p.side_to_move().other()),
        forall|pc: Piece| #[trigger] in_bb(p.bb(pc, p.side_to_move().other()), cs) ==> in_bb(
            q.bb(pc, p.side_to_move().other()),
            cs,
        ),
        forall|x: int| x != t && #[trigger] in_bb(q.occ_bb(), x) ==> in_bb(p.occ_bb(), x),
    ensures
        q.attacked(q.side_to_move(), q.occ_bb(), q.king_square(q.side_to_move().other())),
{
    let c = p.side_to_move();
    let o = c.other();
    let k = p.king_square(c);
    p.lemma_kings();
    assert(p.gives_check(cs));
    let occ = p.occ_bb();
    let b = q.occ_bb();
    if p.piece_on(cs, Piece::Pawn, o) && crate::attacks::pawn_target(1u64 << (k as u64), c, cs) {
        assert(in_bb(q.bb(Piece::Pawn, o), cs));
        lemma_pawn_check_kept(q.bb(Piece::Pawn, o), c, k, cs);
    } else if p.piece_on(cs, Piece::Knight, o) && knight_step(k, cs) {
        assert(in_bb(q.bb(Piece::Knight, o), cs) && piece_target(Piece::Knight, cs, b, k));
    } else if p.piece_on(cs, Piece::King, o) && king_step(k, cs) {
        q.lemma_kings();
        assert(q.piece_on(cs, Piece::King, o));
        assert(king_step(q.king_square(o), k));
    } else {
        lemma_slider_check_survives(p, q, cs, t);
    }
}

/// The slider part of `lemma_check_survives`: a checking bishop, rook or queen on `cs`.
#[verifier::spinoff_prover]
#[verifier::rlimit(30)]
proof fn lemma_slider_check_survives(p: Position, q: Position, cs: int, t: int)
    requires
        p.wf(),
        in_bb(p.checker_bb(), cs),
        crate::Sq(cs as u8).idx() == cs,
        !in_bb(p.check_mask(Some(crate::Sq(cs as u8))), t),
        t != cs,
        q.side_to_move() == p.side_to_move().other(),
        q.king_square(p.side_to_move()) == p.king_square(p.side_to_move()),
        q.king_square(p.side_to_move().other()) == p.king_square(p.side_to_move().other()),
        forall|pc: Piece| #[trigger] in_bb(p.bb(pc, p.side_to_move().other()), cs) ==> in_bb(
            q.bb(pc, p.side_to_move().other()),
            cs,
        ),
        forall|x: int| x != t && #[trigger] in_bb(q.occ_bb(), x) ==> in_bb(p.occ_bb(), x),
        !(p.piece_on(cs, Piece::Pawn, p.side_to_move().other()) && crate::attacks::pawn_target(1u64 << (p.king_square(p.side_to_move()) as u64), p.side_to_move(), cs)),
        !(p.piece_on(cs, Piece::Knight, p.side_to_move().other()) && knight_step(p.king_square(p.side_to_move()), cs)),
        !(p.piece_on(cs, Piece::King, p.side_to_move().other()) && king_step(p.king_square(p.side_to_move()), cs)),
    ensures
        q.attacked(q.side_to_move(), q.occ_bb(), q.king_square(q.side_to_move().other())),
{
    let c = p.side_to_move();
    let o = c.other();
    let k = p.king_square(c);
    p.lemma_kings();
    assert(p.gives_check(cs));
    let occ = p.occ_bb();
    let b = q.occ_bb();
    assert(!(p.piece_on(cs, Piece::Pawn, o) && crate::attacks::pawn_target(1u64 << (k as u64), c, cs)));
    assert(!(p.piece_on(cs, Piece::Knight, o) && knight_step(k, cs)));
    assert(!(p.piece_on(cs, Piece::King, o) && king_step(k, cs)));
    let kind = if p.piece_on(cs, Piece::Bishop, o) && bishop_target(k, occ, cs) {
        Piece::Bishop
    } else if p.piece_on(cs, Piece::Rook, o) && rook_target(k, occ, cs) {
        Piece::Rook
    } else {
        Piece::Queen
    };
    assert(p.piece_on(cs, kind, o));
    assert(kind == Piece::Bishop ==> bishop_target(k, occ, cs));
    assert(kind == Piece::Rook ==> rook_target(k, occ, cs));
    assert(kind == Piece::Queen ==> bishop_target(k, occ, cs) || rook_target(k, occ, cs));
    let (dr, df) = if on_ray(k, 1, 0, occ, 8, cs) && kind != Piece::Bishop { (1int, 0int) }
        else if on_ray(k, -1, 0, occ, 8, cs) && kind != Piece::Bishop { (-1int, 0int) }
        else if on_ray(k, 0, 1, occ, 8, cs) && kind != Piece::Bishop { (0int, 1int) }
        else if on_ray(k, 0, -1, occ, 8, cs) && kind != Piece::Bishop { (0int, -1int) }
        else if on_ray(k, 1, 1, occ, 8, cs) && kind != Piece::Rook { (1int, 1int) }
        else if on_ray(k, 1, -1, occ, 8, cs) && kind != Piece::Rook { (1int, -1int) }
        else if on_ray(k, -1, 1, occ, 8, cs) && kind != Piece::Rook { (-1int, 1int) }
        else { (-1int, -1int) };
    assert(on_ray(k, dr, df, occ, 8, cs));
    lemma_ray_dir(k, dr, df, occ, cs);
    lemma_segment_squares(k, dr, df, cs);
    lemma_occupied(p, cs);
    crate::bits::lemma_in_bb_single(cs as u64, cs);
    lemma_ray_fewer(k, dr, df, occ, 1u64 << (cs as u64), 8, cs);
    assert forall|x: int| on_ray(k, dr, df, 1u64 << (cs as u64), 8, x) && x != cs implies !#[trigger] in_bb(b, x) by {
        lemma_clear_path(k, dr, df, occ, 8, cs, x);
        assert(in_bb(segment(k, cs, Some((dr, df))), x));
        assert(in_bb(p.check_mask(Some(crate::Sq(cs as u8))), x));
    }
    lemma_ray_through_empty(k, dr, df, b, 8, cs);
    lemma_slider_seen_from_king(k, cs, b);
    assert(in_bb(q.bb(kind, o), cs) && piece_target(kind, cs, b, k));
}

/// A square of the check mask of a checking piece on `s` other than the king's is `s` itself,
/// or lies on the ray from the king to the slider on `s` before it, in the returned step.
proof fn lemma_mask_member(p: Position, s: int, t: int) -> (d: (int, int))
    requires
        p.wf(),
        in_bb(p.checker_bb(), s),
        crate::Sq(s as u8).idx() == s,
        in_bb(p.check_mask(Some(crate::Sq(s as u8))), t),
        t != p.king_square(p.side_to_move()),
    ensures
        t == s || (unit_step(d.0, d.1) && on_ray(p.king_square(p.side_to_move()), d.0, d.1, p.occ_bb(), 8, s)
            && on_ray(p.king_square(p.side_to_move()), d.0, d.1, 1u64 << (s as u64), 8, t) && t != s),
        king_step(p.king_square(p.side_to_move()), s) || knight_step(p.king_square(p.side_to_move()), s) ==> t == s,
{
    let c = p.side_to_move();
    let o = c.other();
    let k = p.king_square(c);
    let occ = p.occ_bb();
    p.lemma_kings();
    assert(p.gives_check(s));
    if king_step(k, s) {
        lemma_mask_near(p, s, t);
        (0, 0)
    } else if knight_step(k, s) {
        lemma_mask_knight(p, s, t);
        (0, 0)
    } else {
        assert(bishop_target(k, occ, s) || rook_target(k, occ, s)) by {
            if p.piece_on(s, Piece::Pawn, o) && crate::attacks::pawn_target(1u64 << (k as u64), c, s) {
                crate::bits::lemma_in_bb_single(k as u64, s - 7);
                crate::bits::lemma_in_bb_single(k as u64, s - 9);
                crate::bits::lemma_in_bb_single(k as u64, s + 7);
                crate::bits::lemma_in_bb_single(k as u64, s + 9);
                assert(false);
            }
        }
        let (dr, df) = if on_ray(k, 1, 0, occ, 8, s) { (1int, 0int) }
            else if on_ray(k, -1, 0, occ, 8, s) { (-1int, 0int) }
            else if on_ray(k, 0, 1, occ, 8, s) { (0int, 1int) }
            else if on_ray(k, 0, -1, occ, 8, s) { (0int, -1int) }
            else if on_ray(k, 1, 1, occ, 8, s) { (1int, 1int) }
            else if on_ray(k, 1, -1, occ, 8, s) { (1int, -1int) }
            else if on_ray(k, -1, 1, occ, 8, s) { (-1int, 1int) }
            else { (-1int, -1int) };
        lemma_ray_dir(k, dr, df, occ, s);
        lemma_segment_squares(k, dr, df, s);
        crate::bits::lemma_in_bb_single(s as u64, t);
        crate::bits::lemma_in_bb_single(s as u64, s);
        if t != s {
            lemma_occupied(p, s);
            lemma_ray_fewer(k, dr, df, occ, 1u64 << (s as u64), 8, s);
            assert(on_ray(k, dr, df, 1u64 << (s as u64), 8, t));
        }
        (dr, df)
    }
}

/// Two occupied squares that a walk from `k` over `occ` reaches along one step are the same.
proof fn lemma_first_blocker(k: int, dr: int, df: int, occ: u64, a: int, b: int)
    requires
        0 <= a < 64,
        0 <= b < 64,
        on_ray(k, dr, df, occ, 8, a),
        on_ray(k, dr, df, occ, 8, b),
        in_bb(occ, a),
        in_bb(occ, b),
    ensures
        a == b,
{
    lemma_ray_fewer(k, dr, df, occ, 0, 8, a);
    lemma_ray_fewer(k, dr, df, occ, 0, 8, b);
    lemma_ray_order(k, dr, df, 8, a, b);
    if a != b {
        if on_ray(k, dr, df, 1u64 << (b as u64), 8, a) {
            lemma_clear_path(k, dr, df, occ, 8, b, a);
        } else {
            lemma_clear_path(k, dr, df, occ, 8, a, b);
        }
    }
}

/// In double check, a move of a piece other than the king, en passant aside, leaves the king
/// attacked: its target cannot be on the check masks of both checkers.
#[verifier::spinoff_prover]
proof fn lemma_double_check_exposed(p: Position, m: Move, q: Position)
    requires
        p.wf(),
        crate::bits::popcount(p.checker_bb()) >= 2,
        p.applicable(m),
        p.moved(m) != Piece::King,
        p.capture_of(m) matches Some((x, _)) ==> x == m.to_sq(),
        p.plays(m, q),
    ensures
        q.attacked(q.side_to_move(), q.occ_bb(), q.king_square(q.side_to_move().other())),
{
    let b = p.checker_bb();
    let k = p.king_square(p.side_to_move());
    let t = m.to_sq();
    let occ = p.occ_bb();
    lemma_frame(p, m, q);
    if b == 0 {
        assert(crate::bits::popcount(0u64) == 0);
    }
    crate::bits::lemma_nonzero_has(b);
    let s1 = vstd::std_specs::bits::u64_trailing_zeros(b) as int;
    if forall|x: int| #[trigger] in_bb(b, x) ==> x == s1 {
        assert forall|x: int| 0 <= x < 64 implies #[trigger] in_bb(b, x) == in_bb(1u64 << (s1 as u64), x) by {
            crate::bits::lemma_in_bb_single(s1 as u64, x);
        }
        crate::bits::lemma_same_squares_eq(b, 1u64 << (s1 as u64));
        lemma_popcount_single(s1 as u64);
    }
    let s2 = choose|x: int| #[trigger] in_bb(b, x) && x != s1;
    assert(crate::Sq(s1 as u8).idx() == s1);
    assert(crate::Sq(s2 as u8).idx() == s2);
    if !in_bb(p.check_mask(Some(crate::Sq(s1 as u8))), t) {
        lemma_checker_kept(p, m, q, s1);
    } else if !in_bb(p.check_mask(Some(crate::Sq(s2 as u8))), t) {
        lemma_checker_kept(p, m, q, s2);
    } else {
        let d1 = lemma_mask_member(p, s1, t);
        let d2 = lemma_mask_member(p, s2, t);
        assert(p.gives_check(s1) && p.gives_check(s2));
        lemma_occupied(p, s1);
        lemma_occupied(p, s2);
        if t == s1 {
            lemma_clear_path(k, d2.0, d2.1, occ, 8, s2, t);
        } else if t == s2 {
            lemma_clear_path(k, d1.0, d1.1, occ, 8, s1, t);
        } else {
            lemma_ray_same_dir(k, d1.0, d1.1, d2.0, d2.1, 1u64 << (s1 as u64), 1u64 << (s2 as u64), 8, 8, t);
            lemma_first_blocker(k, d1.0, d1.1, occ, s1, s2);
        }
    }
}

/// In double check, a pseudo-legal en-passant capture leaves the king attacked.
#[verifier::spinoff_prover]
proof fn lemma_double_check_ep_case(p: Position, m: Move, q: Position, left: bool, t: int)
    requires
        p.wf(),
        crate::bits::popcount(p.checker_bb()) >= 2,
        p.pseudo_capture(p.capture_mask(), left, t, m),
        !in_bb(p.side_bb(p.side_to_move().other()), t),
        p.applicable(m),
        p.plays(m, q),
    ensures
        q.attacked(q.side_to_move(), q.occ_bb(), q.king_square(q.side_to_move().other())),
{
    let c = p.side_to_move();
    let last = c.other().home();
    let e = p.ep_square()->0;
    assert(p.ep_square() is Some);
    crate::bits::lemma_in_bb_single(e.0 as u64, t);
    assert(t == e.idx());
    let off = if left { Position::left_offset(c) } else { Position::right_offset(c) };
    let pr = choose|pr: Option<Piece>| #[trigger] crate::move_gen::pawn_move(last, t - off, t, pr, m);
    assert(pr is None);
    lemma_double_check_ep_exposed(p, m, q, left);
}

/// In double check, a pseudo-legal move other than a king step or an en-passant capture leaves
/// the king attacked.
#[verifier::spinoff_prover]
proof fn lemma_double_check_other(p: Position, m: Move, q: Position)
    requires
        p.wf(),
        crate::bits::popcount(p.checker_bb()) >= 2,
        p.pseudo_move(m),
        !exists|f: int| #[trigger] p.pseudo_piece(0xffff_ffff_ffff_ffffu64, Piece::King, f, m),
        !exists|left: bool, t: int| #[trigger] p.pseudo_capture(p.capture_mask(), left, t, m) && !in_bb(
            p.side_bb(p.side_to_move().other()), t),
        p.applicable(m),
        p.plays(m, q),
    ensures
        q.attacked(q.side_to_move(), q.occ_bb(), q.king_square(q.side_to_move().other())),
{
    let c = p.side_to_move();
    let o = c.other();
    let last = o.home();
    let all = 0xffff_ffff_ffff_ffffu64;
    assert(crate::bits::popcount(0u64) == 0);
    let (kind, f, t, pr) = if exists|t: int| #[trigger] p.pseudo_push(t, m) {
        let t = choose|t: int| #[trigger] p.pseudo_push(t, m);
        let f = crate::attacks::push_origin(c, t);
        p.lemma_empty(t);
        (Piece::Pawn, f, t, choose|pr: Option<Piece>| #[trigger] crate::move_gen::pawn_move(last, f, t, pr, m))
    } else if exists|t: int| #[trigger] p.pseudo_double(t, m) {
        let t = choose|t: int| #[trigger] p.pseudo_double(t, m);
        let f = t - 2 * crate::position::forward(c);
        p.lemma_empty(t);
        (Piece::Pawn, f, t, choose|pr: Option<Piece>| #[trigger] crate::move_gen::pawn_move(last, f, t, pr, m))
    } else if exists|t: int| #[trigger] p.pseudo_capture(p.capture_mask(), true, t, m) {
        let t = choose|t: int| #[trigger] p.pseudo_capture(p.capture_mask(), true, t, m);
        let f = t - Position::left_offset(c);
        p.lemma_occupied_square(o, t);
        (Piece::Pawn, f, t, choose|pr: Option<Piece>| #[trigger] crate::move_gen::pawn_move(last, f, t, pr, m))
    } else if exists|t: int| #[trigger] p.pseudo_capture(p.capture_mask(), false, t, m) {
        let t = choose|t: int| #[trigger] p.pseudo_capture(p.capture_mask(), false, t, m);
        let f = t - Position::right_offset(c);
        p.lemma_occupied_square(o, t);
        (Piece::Pawn, f, t, choose|pr: Option<Piece>| #[trigger] crate::move_gen::pawn_move(last, f, t, pr, m))
    } else {
        let kind = if exists|f: int| #[trigger] p.pseudo_piece(all, Piece::Knight, f, m) {
            Piece::Knight
        } else if exists|f: int| #[trigger] p.pseudo_piece(all, Piece::Bishop, f, m) {
            Piece::Bishop
        } else if exists|f: int| #[trigger] p.pseudo_piece(all, Piece::Rook, f, m) {
            Piece::Rook
        } else {
            Piece::Queen
        };
        let f = choose|f: int| #[trigger] p.pseudo_piece(all, kind, f, m);
        let t = choose|t: int| #[trigger] p.pseudo_piece_to(all, kind, f, t, m);
        crate::attacks::lemma_slider_targets_board(f, p.occ_bb());
        (kind, f, t, None)
    };
    assert(in_bb(p.bb(kind, c), f) && m == Move::spec_new(f, t, pr) && crate::promotion_ok(pr) && 0 <= t < 64);
    p.lemma_occupant_of(kind, c, f);
    Move::lemma_spec_new(f, t, pr);
    assert(p.capture_of(m) matches Some((x, _)) ==> x == m.to_sq());
    lemma_double_check_exposed(p, m, q);
}

/// In double check, a pseudo-legal move that leaves the king unattacked is a king step the moves
/// list holds.
proof fn lemma_double_check_listed(p: Position, m: Move, q: Position)
    requires
        p.wf(),
        crate::bits::popcount(p.checker_bb()) >= 2,
        p.pseudo_move(m),
        p.applicable(m),
        p.plays(m, q),
        !q.attacked(q.side_to_move(), q.occ_bb(), q.king_square(q.side_to_move().other())),
    ensures
        p.king_move(m),
{
    let o = p.side_to_move().other();
    let all = 0xffff_ffff_ffff_ffffu64;
    if exists|f: int| #[trigger] p.pseudo_piece(all, Piece::King, f, m) {
        let f = choose|f: int| #[trigger] p.pseudo_piece(all, Piece::King, f, m);
        lemma_king_listed(p, m, q, f);
    } else if exists|left: bool, t: int| #[trigger] p.pseudo_capture(p.capture_mask(), left, t, m) && !in_bb(p.side_bb(o), t) {
        let (left, t) = choose|left: bool, t: int| #[trigger] p.pseudo_capture(p.capture_mask(), left, t, m) && !in_bb(p.side_bb(o), t);
        lemma_double_check_ep_case(p, m, q, left, t);
    } else {
        lemma_double_check_other(p, m, q);
    }
}

/// The en-passant square is on no line from the mover's king when the pawn it lies behind gives
/// check: that pawn stands diagonally in front of the king, the square one step further.
proof fn lemma_ep_off_king_lines(p: Position, dr: int, df: int, a: u64)
    requires
        p.wf(),
        p.ep_square() is Some,
        in_bb(p.checker_bb(), crate::position::xor8(p.ep_square()->0.idx())),
        unit_step(dr, df),
    ensures
        !on_ray(p.king_square(p.side_to_move()), dr, df, a, 8, p.ep_square()->0.idx()),
{
    let c = p.side_to_move();
    let o = c.other();
    let k = p.king_square(c);
    let e = p.ep_square()->0;
    let t = e.idx();
    let cap = crate::position::xor8(t);
    crate::position::lemma_xor8(t);
    p.lemma_kings();
    assert(p.piece_on(cap, Piece::Pawn, o));
    p.lemma_occupant_of(Piece::Pawn, o, cap);
    assert(p.gives_check(cap));
    assert(crate::attacks::pawn_target(1u64 << (k as u64), c, cap)) by {
        if !crate::attacks::pawn_target(1u64 << (k as u64), c, cap) {
            assert(p.piece_on(cap, Piece::Knight, o) || p.piece_on(cap, Piece::Bishop, o) || p.piece_on(cap, Piece::Rook, o)
                || p.piece_on(cap, Piece::Queen, o) || p.piece_on(cap, Piece::King, o));
        }
    }
    crate::bits::lemma_in_bb_single(k as u64, cap - 7);
    crate::bits::lemma_in_bb_single(k as u64, cap - 9);
    crate::bits::lemma_in_bb_single(k as u64, cap + 7);
    crate::bits::lemma_in_bb_single(k as u64, cap + 9);
    if on_ray(k, dr, df, a, 8, t) {
        lemma_ray_direction(k, dr, df, a, 8, t);
    }
}

/// In double check, an en-passant capture leaves the king attacked: it takes at most one checker
/// and blocks the line of no other.
#[verifier::spinoff_prover]
#[verifier::rlimit(40)]
proof fn lemma_double_check_ep_exposed(p: Position, m: Move, q: Position, left: bool)
    requires
        p.wf(),
        crate::bits::popcount(p.checker_bb()) >= 2,
        p.ep_square() is Some,
        left ==> pawn_left_target(p.bb(Piece::Pawn, p.side_to_move()), p.side_to_move(), p.ep_square()->0.idx()),
        !left ==> pawn_right_target(p.bb(Piece::Pawn, p.side_to_move()), p.side_to_move(), p.ep_square()->0.idx()),
        m == Move::spec_new(p.ep_square()->0.idx() - (if left { Position::left_offset(p.side_to_move()) } else {
            Position::right_offset(p.side_to_move()) }), p.ep_square()->0.idx(), None),
        p.applicable(m),
        p.plays(m, q),
    ensures
        q.attacked(q.side_to_move(), q.occ_bb(), q.king_square(q.side_to_move().other())),
{
    let c = p.side_to_move();
    let o = c.other();
    let k = p.king_square(c);
    let e = p.ep_square()->0;
    let t = e.idx();
    let off = if left { Position::left_offset(c) } else { Position::right_offset(c) };
    let f = t - off;
    let cap = crate::position::xor8(t);
    crate::position::lemma_xor8(t);
    let pawns = p.bb(Piece::Pawn, c);
    assert(in_bb(pawns, f));
    Move::lemma_spec_new(f, t, None);
    p.lemma_kings();
    p.lemma_describes_occupants();
    q.lemma_kings();
    q.lemma_describes_occupants();
    p.lemma_occupant_of(Piece::Pawn, c, f);
    let po = p.occupants();
    let qo = q.occupants();
    assert(p.piece_on(cap, Piece::Pawn, o));
    p.lemma_occupant_of(Piece::Pawn, o, cap);
    assert(p.square(t) is None);
    assert(p.capture_of(m) == Some((cap, Piece::Pawn)));
    assert(p.castle_of(m) is None);
    assert forall|x: int| 0 <= x < 64 && x != f && x != t && x != cap implies #[trigger] qo[x] == po[x] by {}
    assert(p.piece_on(k, Piece::King, c));
    assert(po[k] == Some((Piece::King, c)));
    assert(q.side_to_move() == o);
    assert(q.piece_on(k, Piece::King, c));
    assert(q.king_square(c) == k);
    assert(q.piece_on(q.king_square(o), Piece::King, o));
    assert(p.piece_on(q.king_square(o), Piece::King, o));
    assert(q.king_square(o) == p.king_square(o));
    assert forall|x: int| x != t && #[trigger] in_bb(q.occ_bb(), x) implies in_bb(p.occ_bb(), x) by {
        lemma_occupied(q, x);
        lemma_occupied(p, x);
    }
    // Two checkers.
    let b = p.checker_bb();
    crate::bits::lemma_nonzero_has(b);
    let s1 = vstd::std_specs::bits::u64_trailing_zeros(b) as int;
    if forall|x: int| #[trigger] in_bb(b, x) ==> x == s1 {
        assert forall|x: int| 0 <= x < 64 implies #[trigger] in_bb(b, x) == in_bb(1u64 << (s1 as u64), x) by {
            crate::bits::lemma_in_bb_single(s1 as u64, x);
        }
        crate::bits::lemma_same_squares_eq(b, 1u64 << (s1 as u64));
        lemma_popcount_single(s1 as u64);
    }
    let s2 = choose|x: int| #[trigger] in_bb(b, x) && x != s1;
    assert(crate::Sq(s1 as u8).idx() == s1);
    assert(crate::Sq(s2 as u8).idx() == s2);
    assert(p.gives_check(s1) && p.gives_check(s2));
    lemma_occupied(p, s1);
    lemma_occupied(p, s2);
    lemma_occupied(p, t);
    assert(t != s1 && t != s2 && t != k);
    if s1 != cap && !in_bb(p.check_mask(Some(crate::Sq(s1 as u8))), t) {
        assert(qo[s1] == po[s1]);
        lemma_check_survives(p, q, s1, t);
    } else if s2 != cap && !in_bb(p.check_mask(Some(crate::Sq(s2 as u8))), t) {
        assert(qo[s2] == po[s2]);
        lemma_check_survives(p, q, s2, t);
    } else if s1 == cap {
        let d2 = lemma_mask_member(p, s2, t);
        lemma_ep_off_king_lines(p, d2.0, d2.1, 1u64 << (s2 as u64));
    } else if s2 == cap {
        let d1 = lemma_mask_member(p, s1, t);
        lemma_ep_off_king_lines(p, d1.0, d1.1, 1u64 << (s1 as u64));
    } else {
        let d1 = lemma_mask_member(p, s1, t);
        let d2 = lemma_mask_member(p, s2, t);
        lemma_ray_same_dir(k, d1.0, d1.1, d2.0, d2.1, 1u64 << (s1 as u64), 1u64 << (s2 as u64), 8, 8, t);
        lemma_first_blocker(k, d1.0, d1.1, p.occ_bb(), s1, s2);
    }
}

/// The moves list holds exactly the pseudo-legal moves that leave the mover's king unattacked.
pub proof fn lemma_listed_exactly_safe(p: Position, m: Move, q: Position)
    requires
        p.wf(),
        p.applicable(m),
        p.plays(m, q),
    ensures
        p.listed_move(m) <==> p.pseudo_move(m) && !q.attacked(q.side_to_move(), q.occ_bb(), q.king_square(
            q.side_to_move().other())),
{
    if p.listed_move(m) {
        crate::movegen::lemma_listed_are_pseudo_legal(p, m);
        lemma_listed_moves_safe(p, m, q);
    }
    if p.pseudo_move(m) && !q.attacked(q.side_to_move(), q.occ_bb(), q.king_square(q.side_to_move().other())) {
        lemma_safe_moves_listed(p, m, q);
    }
}

/// What an en-passant capture changes: the capturing pawn leaves its square for the
/// en-passant square and the pawn behind it is taken; the kings and every other piece stay.
#[verifier::spinoff_prover]
proof fn lemma_ep_frame(p: Position, m: Move, q: Position, left: bool)
    requires
        p.wf(),
        p.ep_square() is Some,
        left ==> pawn_left_target(p.bb(Piece::Pawn, p.side_to_move()), p.side_to_move(), p.ep_square()->0.idx()),
        !left ==> pawn_right_target(p.bb(Piece::Pawn, p.side_to_move()), p.side_to_move(), p.ep_square()->0.idx()),
        m == Move::spec_new(p.ep_square()->0.idx() - (if left { Position::left_offset(p.side_to_move()) } else {
            Position::right_offset(p.side_to_move()) }), p.ep_square()->0.idx(), None),
        p.applicable(m),
        p.plays(m, q),
    ensures
        q.wf(),
        q.side_to_move() == p.side_to_move().other(),
        q.king_square(p.side_to_move()) == p.king_square(p.side_to_move()),
        q.king_square(p.side_to_move().other()) == p.king_square(p.side_to_move().other()),
        forall|pc: Piece, x: int| x != crate::position::xor8(p.ep_square()->0.idx()) && #[trigger] in_bb(
            p.bb(pc, p.side_to_move().other()),
            x,
        ) ==> in_bb(q.bb(pc, p.side_to_move().other()), x),
        forall|x: int| x != p.ep_square()->0.idx() && #[trigger] in_bb(q.occ_bb(), x) ==> in_bb(p.occ_bb(), x),
        p.square(p.ep_square()->0.idx()) is None,
        p.piece_on(crate::position::xor8(p.ep_square()->0.idx()), Piece::Pawn, p.side_to_move().other()),
{
    let c = p.side_to_move();
    let o = c.other();
    let k = p.king_square(c);
    let e = p.ep_square()->0;
    let t = e.idx();
    let off = if left { Position::left_offset(c) } else { Position::right_offset(c) };
    let f = t - off;
    let cap = crate::position::xor8(t);
    crate::position::lemma_xor8(t);
    let pawns = p.bb(Piece::Pawn, c);
    assert(in_bb(pawns, f));
    Move::lemma_spec_new(f, t, None);
    p.lemma_kings();
    p.lemma_describes_occupants();
    q.lemma_kings();
    q.lemma_describes_occupants();
    p.lemma_occupant_of(Piece::Pawn, c, f);
    let po = p.occupants();
    let qo = q.occupants();
    assert(p.piece_on(cap, Piece::Pawn, o));
    p.lemma_occupant_of(Piece::Pawn, o, cap);
    assert(p.square(t) is None);
    assert(p.capture_of(m) == Some((cap, Piece::Pawn)));
    assert(p.castle_of(m) is None);
    assert forall|x: int| 0 <= x < 64 && x != f && x != t && x != cap implies #[trigger] qo[x] == po[x] by {}
    assert(p.piece_on(k, Piece::King, c));
    assert(po[k] == Some((Piece::King, c)));
    assert(q.piece_on(k, Piece::King, c));
    assert(q.piece_on(q.king_square(o), Piece::King, o));
    assert(p.piece_on(q.king_square(o), Piece::King, o));
    assert forall|pc: Piece, x: int| x != cap && #[trigger] in_bb(p.bb(pc, o), x) implies in_bb(q.bb(pc, o), x) by {
        assert(po[x] == Some((pc, o)));
        assert(x != f && x != t);
    }
    assert forall|x: int| x != t && #[trigger] in_bb(q.occ_bb(), x) implies in_bb(p.occ_bb(), x) by {
        lemma_occupied(q, x);
        lemma_occupied(p, x);
    }
}

/// In check by a single piece, an en-passant capture whose square and captured pawn are both off
/// the check mask leaves the king attacked: the checker still attacks it.
#[verifier::spinoff_prover]
proof fn lemma_ep_off_mask_exposed(p: Position, m: Move, q: Position, left: bool)
    requires
        p.wf(),
        crate::bits::popcount(p.checker_bb()) == 1,
        !p.ep_open(p.check_mask(Some(crate::Sq(checker_square(p) as u8)))),
        p.ep_square() is Some,
        left ==> pawn_left_target(p.bb(Piece::Pawn, p.side_to_move()), p.side_to_move(), p.ep_square()->0.idx()),
        !left ==> pawn_right_target(p.bb(Piece::Pawn, p.side_to_move()), p.side_to_move(), p.ep_square()->0.idx()),
        m == Move::spec_new(p.ep_square()->0.idx() - (if left { Position::left_offset(p.side_to_move()) } else {
            Position::right_offset(p.side_to_move()) }), p.ep_square()->0.idx(), None),
        p.applicable(m),
        p.plays(m, q),
    ensures
        q.attacked(q.side_to_move(), q.occ_bb(), q.king_square(q.side_to_move().other())),
{
    let cs = checker_square(p);
    let t = p.ep_square()->0.idx();
    lemma_single_checker(p);
    lemma_ep_frame(p, m, q, left);
    crate::bits::lemma_in_bb_single(cs as u64, crate::position::xor8(t));
    crate::bits::lemma_in_bb_single(cs as u64, t);
    lemma_check_survives(p, q, cs, t);
}

/// When an en-passant capture answers the target mask, every checker is the pawn it takes or
/// has the en-passant square on its check mask.
proof fn lemma_ep_open_checkers(p: Position, mask: u64)
    requires
        p.wf(),
        mask_of(p, mask),
        p.ep_open(mask),
    ensures
        forall|s: int| #[trigger] in_bb(p.checker_bb(), s) ==> s == crate::position::xor8(p.ep_square()->0.idx())
            || in_bb(p.check_mask(Some(crate::Sq(s as u8))), p.ep_square()->0.idx()),
{
    if p.checker_bb() != 0 {
        let cs = checker_square(p);
        let t = p.ep_square()->0.idx();
        let cap = crate::position::xor8(t);
        crate::position::lemma_xor8(t);
        lemma_single_checker(p);
        p.lemma_kings();
        assert(p.piece_on(p.king_square(p.side_to_move()), Piece::King, p.side_to_move()));
        assert(p.piece_on(cap, Piece::Pawn, p.side_to_move().other()));
        lemma_occupied(p, cap);
        if in_bb(mask, cap) && !in_bb(mask, t) && cap != cs {
            assert(cap != p.king_square(p.side_to_move())) by {
                p.lemma_describes_occupants();
            }
            let d = lemma_mask_member(p, cs, cap);
            lemma_clear_path(p.king_square(p.side_to_move()), d.0, d.1, p.occ_bb(), 8, cs, cap);
        }
    }
}

/// An en-passant capture that answers the target mask of the moves list leaves the king
/// unattacked.
proof fn lemma_listed_ep_safe(p: Position, m: Move, q: Position, mask: u64)
    requires
        p.wf(),
        mask_of(p, mask),
        p.ep_open(mask),
        p.ep_capture(true, m) || p.ep_capture(false, m),
        p.applicable(m),
        p.plays(m, q),
    ensures
        !q.attacked(q.side_to_move(), q.occ_bb(), q.king_square(q.side_to_move().other())),
{
    lemma_ep_open_checkers(p, mask);
    let left = p.ep_capture(true, m);
    let e = p.ep_square()->0;
    let off = if left { Position::left_offset(p.side_to_move()) } else { Position::right_offset(p.side_to_move()) };
    Move::lemma_spec_new(e.idx() - off, e.idx(), None);
    lemma_ep_capture_safe(p, m, q, left);
}

} // verus!
