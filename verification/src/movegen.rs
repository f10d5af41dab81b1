//! Pseudo-legal move generation: every move of the side to move that follows the pieces' rules,
//! without regard to pins or checks (castling excepted), and the captures among them.
use vstd::prelude::*;
use crate::bits::{in_bb, group_in_bb};
use crate::{Position, Piece, Side, Sq, Move, MoveList, iter_bb, promotion_ok, mask_file, mask_rank};
use crate::attacks::{king_step, piece_target, push_origin, pawn_pushes, pawn_double_pushes, pawn_captures_left, pawn_captures_right, pawn_left_target, pawn_right_target, pawn_push_target, pawn_double_target, king_moves, knight_moves, bishop_moves, rook_moves, queen_moves};
use crate::move_gen::{all_fit, lemma_push_nodup, push_targets, gen_pawn_side, side_target, lemma_promo_fits, lemma_visit, lemma_visit_done, pawn_move, lemma_push_contains, lemma_zero_iff, lemma_piece_fits, lemma_push_fits, lemma_double_fits, lemma_capture_fits, lemma_ep_fits, lemma_castle_fits, lemma_mover_kind};
use crate::position::forward;

verus! {

broadcast use group_in_bb;

/// Every move of `s` takes something.
pub open spec fn all_capture(pos: Position, s: Seq<Move>) -> bool {
    forall|i: int| 0 <= i < s.len() ==> (#[trigger] pos.capture_of(s[i])) is Some
}

impl Position {
    /// `m` is the pawn move `f`-`t` of the mover with a promotion as generated.
    pub open spec fn promoted_to(self, f: int, t: int, m: Move) -> bool {
        exists|pr: Option<Piece>| #[trigger] pawn_move(self.side_to_move().other().home(), f, t, pr, m)
    }

    /// `m` is a single push of a pawn of the mover onto `t`.
    pub open spec fn pseudo_push(self, t: int, m: Move) -> bool {
        let c = self.side_to_move();
        pawn_push_target(self.bb(Piece::Pawn, c), self.occ_bb(), c, t) && self.promoted_to(push_origin(c, t), t, m)
    }

    /// `m` is a double push of a pawn of the mover onto `t`.
    pub open spec fn pseudo_double(self, t: int, m: Move) -> bool {
        let c = self.side_to_move();
        pawn_double_target(self.bb(Piece::Pawn, c), self.occ_bb(), c, t) && self.promoted_to(t - 2 * forward(c), t, m)
    }

    /// `m` is a capture by a pawn of the mover onto the square `t` of `mask`, towards the
    /// a-file (`left`) or the h-file.
    pub open spec fn pseudo_capture(self, mask: u64, left: bool, t: int, m: Move) -> bool {
        let c = self.side_to_move();
        let pawns = self.bb(Piece::Pawn, c);
        &&& in_bb(mask, t)
        &&& if left {
            pawn_left_target(pawns, c, t) && self.promoted_to(t - Position::left_offset(c), t, m)
        } else {
            pawn_right_target(pawns, c, t) && self.promoted_to(t - Position::right_offset(c), t, m)
        }
    }

    /// `m` is the move `f`-`t` of a piece of kind `p` of the mover onto a square of `mask` it
    /// attacks that its side does not hold.
    pub open spec fn pseudo_piece_to(self, mask: u64, p: Piece, f: int, t: int, m: Move) -> bool {
        let c = self.side_to_move();
        &&& in_bb(self.bb(p, c), f)
        &&& piece_target(p, f, self.occ_bb(), t)
        &&& !in_bb(self.side_bb(c), t)
        &&& in_bb(mask, t)
        &&& m == Move::spec_new(f, t, None)
    }

    /// `m` is a move of the piece of kind `p` on `f`, as `pseudo_piece_to` has it.
    pub open spec fn pseudo_piece(self, mask: u64, p: Piece, f: int, m: Move) -> bool {
        exists|t: int| #[trigger] self.pseudo_piece_to(mask, p, f, t, m)
    }

    /// The squares a pawn of the mover may capture on: the opponent's pieces and the
    /// en-passant square.
    pub open spec fn capture_mask(self) -> u64 {
        self.side_bb(self.side_to_move().other()) | match self.ep_square() {
            Some(e) => 1u64 << (e.0 as u64),
            None => 0,
        }
    }

    /// `m` is one of the pseudo-legal moves: pawn pushes, double pushes, pawn captures (en
    /// passant included), knight, king, rook, bishop and queen moves, and castling when the
    /// king is not in check.
    pub open spec fn pseudo_move(self, m: Move) -> bool {
        let all = 0xffff_ffff_ffff_ffffu64;
        ||| (exists|t: int| #[trigger] self.pseudo_push(t, m))
        ||| (exists|t: int| #[trigger] self.pseudo_double(t, m))
        ||| (exists|t: int| #[trigger] self.pseudo_capture(self.capture_mask(), true, t, m))
        ||| (exists|t: int| #[trigger] self.pseudo_capture(self.capture_mask(), false, t, m))
        ||| (exists|f: int| #[trigger] self.pseudo_piece(all, Piece::Knight, f, m))
        ||| (exists|f: int| #[trigger] self.pseudo_piece(all, Piece::King, f, m))
        ||| (exists|f: int| #[trigger] self.pseudo_piece(all, Piece::Rook, f, m))
        ||| (exists|f: int| #[trigger] self.pseudo_piece(all, Piece::Bishop, f, m))
        ||| (exists|f: int| #[trigger] self.pseudo_piece(all, Piece::Queen, f, m))
        ||| self.checker_bb() == 0 && (self.castle_to(true, m) || self.castle_to(false, m))
    }

    /// `m` is one of the pseudo-legal captures: pawn captures (en passant included), then
    /// knight, king, rook, bishop and queen captures.
    pub open spec fn pseudo_capture_move(self, m: Move) -> bool {
        let enemies = self.side_bb(self.side_to_move().other());
        ||| (exists|t: int| #[trigger] self.pseudo_capture(self.capture_mask(), true, t, m))
        ||| (exists|t: int| #[trigger] self.pseudo_capture(self.capture_mask(), false, t, m))
        ||| enemies != 0xffff_ffff_ffff_ffffu64 && (exists|f: int| #[trigger] self.pseudo_piece(enemies, Piece::Knight, f, m))
        ||| enemies != 0xffff_ffff_ffff_ffffu64 && (exists|f: int| #[trigger] self.pseudo_piece(enemies, Piece::King, f, m))
        ||| enemies != 0xffff_ffff_ffff_ffffu64 && (exists|f: int| #[trigger] self.pseudo_piece(enemies, Piece::Rook, f, m))
        ||| enemies != 0xffff_ffff_ffff_ffffu64 && (exists|f: int| #[trigger] self.pseudo_piece(enemies, Piece::Bishop, f, m))
        ||| enemies != 0xffff_ffff_ffff_ffffu64 && (exists|f: int| #[trigger] self.pseudo_piece(enemies, Piece::Queen, f, m))
    }
}

/// Moves of the pieces of kind `p` of the side to move onto their targets within `mask`.
fn gen_non_batched_moves(pos: &Position, p: Piece, mask: u64, moves: &mut MoveList)
    requires
        pos.board_ok(),
        p != Piece::Pawn,
        all_fit(*pos, old(moves)@),
        forall|t: int| #[trigger] in_bb(mask, t) ==> in_bb(pos.side_bb(pos.side_to_move().other()), t)
            || mask == 0xffff_ffff_ffff_ffffu64,
    ensures
        all_fit(*pos, final(moves)@),
        mask != 0xffff_ffff_ffff_ffffu64 && all_capture(*pos, old(moves)@) ==> all_capture(*pos, final(moves)@),
        forall|m: Move| #[trigger] final(moves)@.contains(m) <==> (old(moves)@.contains(m) || exists|f: int|
            #[trigger] pos.pseudo_piece(mask, p, f, m)),
        old(moves)@.no_duplicates() && (forall|m: Move| #[trigger] old(moves)@.contains(m) ==> !exists|f: int|
            #[trigger] pos.pseudo_piece(mask, p, f, m)) ==> final(moves)@.no_duplicates(),
{
    let ghost gen = |f: int, m: Move| pos.pseudo_piece(mask, p, f, m);
    let ghost fresh = old(moves)@.no_duplicates() && (forall|m: Move| #[trigger] old(moves)@.contains(m) ==> !exists|f: int|
        #[trigger] pos.pseudo_piece(mask, p, f, m));
    let c = pos.stm;
    let occ = pos.occ();
    let allies = pos.side_occ(c);
    let pieces = pos.bb_get(p, c);
    let mut it = iter_bb(pieces);
    loop
        invariant
            pos.board_ok(),
            p != Piece::Pawn,
            c == pos.side_to_move(),
            allies == pos.side_bb(c),
            occ == pos.occ_bb(),
            pieces == pos.bb(p, c),
            gen == (|f: int, m: Move| pos.pseudo_piece(mask, p, f, m)),
            forall|t: int| #[trigger] in_bb(mask, t) ==> in_bb(pos.side_bb(pos.side_to_move().other()), t)
                || mask == 0xffff_ffff_ffff_ffffu64,
            fresh == (old(moves)@.no_duplicates() && (forall|m: Move| #[trigger] old(moves)@.contains(m) ==> !exists|f: int|
                #[trigger] pos.pseudo_piece(mask, p, f, m))),
            fresh ==> moves@.no_duplicates(),
            forall|t: int| #[trigger] in_bb(it.rest(), t) ==> in_bb(pieces, t),
            all_fit(*pos, moves@),
            mask != 0xffff_ffff_ffff_ffffu64 && all_capture(*pos, old(moves)@) ==> all_capture(*pos, moves@),
            forall|m: Move| #[trigger] moves@.contains(m) <==> (old(moves)@.contains(m) || exists|f: int|
                #[trigger] gen(f, m) && !in_bb(it.rest(), f)),
        decreases it.rest(),
    {
        let ghost rest0 = it.rest();
        match it.next() {
            None => {
                proof {
                    lemma_visit_done(old(moves)@, moves@, it.rest(), gen);
                    assert forall|m: Move| #[trigger] moves@.contains(m) <==> (old(moves)@.contains(m) || exists|f: int|
                        #[trigger] pos.pseudo_piece(mask, p, f, m)) by {
                        if exists|f: int| #[trigger] gen(f, m) {
                            let f = choose|f: int| #[trigger] gen(f, m);
                            assert(pos.pseudo_piece(mask, p, f, m));
                        }
                        if exists|f: int| #[trigger] pos.pseudo_piece(mask, p, f, m) {
                            let f = choose|f: int| #[trigger] pos.pseudo_piece(mask, p, f, m);
                            assert(gen(f, m));
                        }
                    }
                }
                return;
            },
            Some(from) => {
                let mv_bb = match p {
                    Piece::Knight => knight_moves(from, allies),
                    Piece::Bishop => bishop_moves(from, occ, allies),
                    Piece::Rook => rook_moves(from, occ, allies),
                    Piece::Queen => queen_moves(from, occ, allies),
                    _ => king_moves(from, allies),
                };
                let targets = mv_bb & mask;
                let ghost before = moves@;
                proof {
                    assert(in_bb(pieces, from.idx()));
                    assert forall|t: int| #[trigger] in_bb(targets, t) == (piece_target(p, from.idx(), occ, t)
                        && !in_bb(allies, t) && in_bb(mask, t)) by {
                        assert(in_bb(mv_bb, t) == (piece_target(p, from.idx(), occ, t) && !in_bb(allies, t)));
                    }
                    assert forall|t: int| #[trigger] in_bb(targets, t) implies pos.fits(Move::spec_new(from.idx(), t, None)) by {
                        assert(in_bb(mv_bb, t));
                        lemma_piece_fits(*pos, p, from.idx(), t);
                    }
                    if fresh {
                        assert forall|t: int| #[trigger] in_bb(targets, t) implies !before.contains(
                            Move::spec_new(from.idx(), t, None)) by {
                            let x = Move::spec_new(from.idx(), t, None);
                            Move::lemma_spec_new(from.idx(), t, None);
                            assert(pos.pseudo_piece_to(mask, p, from.idx(), t, x));
                            assert(pos.pseudo_piece(mask, p, from.idx(), x));
                            assert(in_bb(rest0, from.idx()));
                            if before.contains(x) && !old(moves)@.contains(x) {
                                let f2 = choose|f2: int| #[trigger] gen(f2, x) && !in_bb(rest0, f2);
                                let t2 = choose|t2: int| #[trigger] pos.pseudo_piece_to(mask, p, f2, t2, x);
                                Move::lemma_spec_new(f2, t2, None);
                            }
                        }
                    }
                }
                push_targets(Ghost(*pos), from, targets, moves);
                proof {
                    assert forall|m: Move| #[trigger] moves@.contains(m) <==> (before.contains(m) || gen(from.idx(), m)) by {
                        if exists|t: int| #[trigger] in_bb(targets, t) && m == Move::spec_new(from.idx(), t, None) {
                            let t = choose|t: int| #[trigger] in_bb(targets, t) && m == Move::spec_new(from.idx(), t, None);
                            assert(pos.pseudo_piece_to(mask, p, from.idx(), t, m));
                        }
                        if gen(from.idx(), m) {
                            let t = choose|t: int| #[trigger] pos.pseudo_piece_to(mask, p, from.idx(), t, m);
                            assert(in_bb(targets, t) && m == Move::spec_new(from.idx(), t, None));
                        }
                    }
                    lemma_visit(old(moves)@, before, moves@, rest0, it.rest(), from.idx(), gen);
                    if mask != 0xffff_ffff_ffff_ffffu64 && all_capture(*pos, old(moves)@) {
                        assert forall|i: int| 0 <= i < moves@.len() implies (#[trigger] pos.capture_of(moves@[i])) is Some by {
                            let mv = moves@[i];
                            assert(moves@.contains(mv));
                            if !before.contains(mv) {
                                let t = choose|t: int| #[trigger] in_bb(targets, t) && mv == Move::spec_new(from.idx(), t, None);
                                Move::lemma_spec_new(from.idx(), t, None);
                                assert(in_bb(pos.side_bb(c.other()), t));
                                pos.lemma_occupied_square(c.other(), t);
                            } else {
                                let j = choose|j: int| 0 <= j < before.len() && before[j] == mv;
                                assert(pos.capture_of(before[j]) is Some);
                            }
                        }
                    }
                }
            },
        }
    }
}

impl Position {
    /// A square in a side's bitboards is occupied on the board.
    pub proof fn lemma_occupied_square(self, c: Side, t: int)
        requires
            self.board_ok(),
            in_bb(self.side_bb(c), t),
        ensures
            self.square(t) is Some,
    {
        if in_bb(self.bb(Piece::Pawn, c), t) { self.lemma_occupant_of(Piece::Pawn, c, t); }
        if in_bb(self.bb(Piece::Knight, c), t) { self.lemma_occupant_of(Piece::Knight, c, t); }
        if in_bb(self.bb(Piece::Bishop, c), t) { self.lemma_occupant_of(Piece::Bishop, c, t); }
        if in_bb(self.bb(Piece::Rook, c), t) { self.lemma_occupant_of(Piece::Rook, c, t); }
        if in_bb(self.bb(Piece::Queen, c), t) { self.lemma_occupant_of(Piece::Queen, c, t); }
        if in_bb(self.bb(Piece::King, c), t) { self.lemma_occupant_of(Piece::King, c, t); }
    }
}

/// Pawn moves onto squares of the opponent or onto the en-passant square fit, and take something.
proof fn lemma_pawn_capture_targets(pos: Position, mask: u64, bb: u64, offset: i32, left: bool)
    requires
        pos.board_ok(),
        pos.ep_ok(),
        forall|t: int| #[trigger] in_bb(mask, t) ==> in_bb(pos.side_bb(pos.side_to_move().other()), t)
            || (pos.ep_square() matches Some(e) && e.idx() == t),
        left ==> forall|t: int| #[trigger] in_bb(bb, t) == (pawn_left_target(pos.bb(Piece::Pawn, pos.side_to_move()), pos.side_to_move(), t) && in_bb(mask, t)),
        !left ==> forall|t: int| #[trigger] in_bb(bb, t) == (pawn_right_target(pos.bb(Piece::Pawn, pos.side_to_move()), pos.side_to_move(), t) && in_bb(mask, t)),
        left ==> offset == (if pos.side_to_move() == Side::White { 7i32 } else { -9i32 }),
        !left ==> offset == (if pos.side_to_move() == Side::White { 9i32 } else { -7i32 }),
    ensures
        forall|t: int| #[trigger] in_bb(bb, t) ==> 0 <= t - offset < 64,
        forall|t: int, pr: Option<Piece>| #[trigger] in_bb(bb, t) && #[trigger] promotion_ok(pr)
            ==> pos.fits(Move::spec_new(t - offset, t, pr)) && pos.capture_of(Move::spec_new(t - offset, t, pr)) is Some,
{
    let c = pos.side_to_move();
    assert forall|t: int, pr: Option<Piece>| #[trigger] in_bb(bb, t) && #[trigger] promotion_ok(pr)
        implies pos.fits(Move::spec_new(t - offset, t, pr)) && pos.capture_of(Move::spec_new(t - offset, t, pr)) is Some by {
        Move::lemma_spec_new(t - offset, t, pr);
        if in_bb(pos.side_bb(c.other()), t) {
            lemma_capture_fits(pos, t - offset, t, pr);
            pos.lemma_occupied_square(c.other(), t);
        } else {
            lemma_ep_fits(pos, t - offset, t, pr);
        }
    }
}

/// Moves added after `before` that come from `bb` and take something keep every move a capture.
proof fn lemma_captures_kept(pos: Position, bb: u64, offset: i32, before: Seq<Move>, after: Seq<Move>)
    requires
        all_capture(pos, before),
        forall|m: Move| #[trigger] after.contains(m) <==> (before.contains(m) || exists|t: int|
            #[trigger] side_target(pos, bb, offset, 0, false, t, m)),
        forall|t: int, pr: Option<Piece>| #[trigger] in_bb(bb, t) && #[trigger] promotion_ok(pr)
            ==> pos.capture_of(Move::spec_new(t - offset, t, pr)) is Some,
    ensures
        all_capture(pos, after),
{
    assert forall|i: int| 0 <= i < after.len() implies (#[trigger] pos.capture_of(after[i])) is Some by {
        let m = after[i];
        assert(after.contains(m));
        if before.contains(m) {
            let j = choose|j: int| 0 <= j < before.len() && before[j] == m;
            assert(pos.capture_of(before[j]) is Some);
        } else {
            let t = choose|t: int| #[trigger] side_target(pos, bb, offset, 0, false, t, m);
            let pr = choose|pr: Option<Piece>| #[trigger] crate::move_gen::pawn_move(pos.side_to_move().other().home(), t - offset, t, pr, m);
            assert(in_bb(bb, t) && promotion_ok(pr));
        }
    }
}

/// Pawn moves onto `mask` along one capture direction; with `mask` the opponent's pieces and the
/// en-passant square.
fn gen_pawn_captures_to(pos: &Position, mask: u64, left: bool, moves: &mut MoveList)
    requires
        pos.board_ok(),
        pos.ep_ok(),
        forall|t: int| #[trigger] in_bb(mask, t) ==> in_bb(pos.side_bb(pos.side_to_move().other()), t)
            || (pos.ep_square() matches Some(e) && e.idx() == t),
        all_fit(*pos, old(moves)@),
    ensures
        all_fit(*pos, final(moves)@),
        all_capture(*pos, old(moves)@) ==> all_capture(*pos, final(moves)@),
        forall|m: Move| #[trigger] final(moves)@.contains(m) <==> (old(moves)@.contains(m) || exists|t: int|
            #[trigger] pos.pseudo_capture(mask, left, t, m)),
        old(moves)@.no_duplicates() && (forall|m: Move| #[trigger] old(moves)@.contains(m) ==> !exists|t: int|
            #[trigger] pos.pseudo_capture(mask, left, t, m)) ==> final(moves)@.no_duplicates(),
{
    let c = pos.stm;
    let pawns = pos.bb_get(Piece::Pawn, c);
    let (bb, offset) = if left {
        pawn_captures_left(pawns, mask, c)
    } else {
        pawn_captures_right(pawns, mask, c)
    };
    proof {
        lemma_pawn_capture_targets(*pos, mask, bb, offset, left);
    }
    let ghost before = moves@;
    proof {
        lemma_promo_fits(*pos, bb, offset);
        lemma_side_captures(*pos, mask, bb, offset, left);
    }
    gen_pawn_side(pos, bb, offset, 0, false, moves);
    proof {
        if all_capture(*pos, before) {
            lemma_captures_kept(*pos, bb, offset, before, moves@);
        }
    }
}

/// The pawn moves onto the squares of `bb` are the captures of `pseudo_capture`.
proof fn lemma_side_captures(pos: Position, mask: u64, bb: u64, offset: i32, left: bool)
    requires
        left ==> forall|t: int| #[trigger] in_bb(bb, t) == (pawn_left_target(pos.bb(Piece::Pawn, pos.side_to_move()), pos.side_to_move(), t) && in_bb(mask, t)),
        !left ==> forall|t: int| #[trigger] in_bb(bb, t) == (pawn_right_target(pos.bb(Piece::Pawn, pos.side_to_move()), pos.side_to_move(), t) && in_bb(mask, t)),
        offset == (if left { Position::left_offset(pos.side_to_move()) } else { Position::right_offset(pos.side_to_move()) }),
    ensures
        forall|t: int, m: Move| #![trigger side_target(pos, bb, offset, 0, false, t, m)]
            #![trigger pos.pseudo_capture(mask, left, t, m)] side_target(pos, bb, offset, 0, false, t, m)
            == pos.pseudo_capture(mask, left, t, m),
{
}

/// Pawn moves onto the squares of `bb` from `offset` squares back are those of `target`.
proof fn lemma_side_pushes(pos: Position, bb: u64, offset: i32, double: bool)
    requires
        !double ==> forall|t: int| #[trigger] in_bb(bb, t) == pawn_push_target(pos.bb(Piece::Pawn, pos.side_to_move()),
            pos.occ_bb(), pos.side_to_move(), t),
        double ==> forall|t: int| #[trigger] in_bb(bb, t) == pawn_double_target(pos.bb(Piece::Pawn, pos.side_to_move()),
            pos.occ_bb(), pos.side_to_move(), t),
        offset == (if double { 2 * forward(pos.side_to_move()) } else { forward(pos.side_to_move()) }),
    ensures
        !double ==> forall|t: int, m: Move| #![trigger side_target(pos, bb, offset, 0, false, t, m)]
            #![trigger pos.pseudo_push(t, m)] side_target(pos, bb, offset, 0, false, t, m) == pos.pseudo_push(t, m),
        double ==> forall|t: int, m: Move| #![trigger side_target(pos, bb, offset, 0, false, t, m)]
            #![trigger pos.pseudo_double(t, m)] side_target(pos, bb, offset, 0, false, t, m) == pos.pseudo_double(t, m),
{
}

/// The lists built step by step by `gen_pseudolegal_moves` end up holding its moves.
proof fn lemma_pseudo_chain(pos: Position, pushes: u64, push_offset: i32, doubles: u64, double_offset: i32,
    s0: Seq<Move>, s1: Seq<Move>, s2: Seq<Move>, s3: Seq<Move>, s4: Seq<Move>, s5: Seq<Move>, s6: Seq<Move>,
    s7: Seq<Move>, s8: Seq<Move>, s9: Seq<Move>, fin: Seq<Move>)
    requires
        s0 == Seq::<Move>::empty(),
        forall|t: int, m: Move| #![trigger side_target(pos, pushes, push_offset, 0, false, t, m)]
            #![trigger pos.pseudo_push(t, m)] side_target(pos, pushes, push_offset, 0, false, t, m) == pos.pseudo_push(t, m),
        forall|t: int, m: Move| #![trigger side_target(pos, doubles, double_offset, 0, false, t, m)]
            #![trigger pos.pseudo_double(t, m)] side_target(pos, doubles, double_offset, 0, false, t, m) == pos.pseudo_double(t, m),
        forall|m: Move| #[trigger] s1.contains(m) <==> (s0.contains(m) || exists|t: int|
            #[trigger] side_target(pos, pushes, push_offset, 0, false, t, m)),
        forall|m: Move| #[trigger] s2.contains(m) <==> (s1.contains(m) || exists|t: int|
            #[trigger] side_target(pos, doubles, double_offset, 0, false, t, m)),
        forall|m: Move| #[trigger] s3.contains(m) <==> (s2.contains(m) || exists|t: int|
            #[trigger] pos.pseudo_capture(pos.capture_mask(), true, t, m)),
        forall|m: Move| #[trigger] s4.contains(m) <==> (s3.contains(m) || exists|t: int|
            #[trigger] pos.pseudo_capture(pos.capture_mask(), false, t, m)),
        forall|m: Move| #[trigger] s5.contains(m) <==> (s4.contains(m) || exists|f: int|
            #[trigger] pos.pseudo_piece(0xffff_ffff_ffff_ffffu64, Piece::Knight, f, m)),
        forall|m: Move| #[trigger] s6.contains(m) <==> (s5.contains(m) || exists|f: int|
            #[trigger] pos.pseudo_piece(0xffff_ffff_ffff_ffffu64, Piece::King, f, m)),
        forall|m: Move| #[trigger] s7.contains(m) <==> (s6.contains(m) || exists|f: int|
            #[trigger] pos.pseudo_piece(0xffff_ffff_ffff_ffffu64, Piece::Rook, f, m)),
        forall|m: Move| #[trigger] s8.contains(m) <==> (s7.contains(m) || exists|f: int|
            #[trigger] pos.pseudo_piece(0xffff_ffff_ffff_ffffu64, Piece::Bishop, f, m)),
        forall|m: Move| #[trigger] s9.contains(m) <==> (s8.contains(m) || exists|f: int|
            #[trigger] pos.pseudo_piece(0xffff_ffff_ffff_ffffu64, Piece::Queen, f, m)),
        pos.checker_bb() == 0 ==> forall|m: Move| #[trigger] fin.contains(m) <==> (s9.contains(m) || pos.castle_to(true, m)
            || pos.castle_to(false, m)),
        pos.checker_bb() != 0 ==> fin == s9,
    ensures
        forall|m: Move| #[trigger] fin.contains(m) <==> pos.pseudo_move(m),
{
    assert forall|m: Move| #[trigger] fin.contains(m) <==> pos.pseudo_move(m) by {
        assert(!s0.contains(m));
        assert(s1.contains(m) == (exists|t: int| #[trigger] side_target(pos, pushes, push_offset, 0, false, t, m)));
        assert((exists|t: int| #[trigger] side_target(pos, pushes, push_offset, 0, false, t, m)) <==> (exists|t: int|
            #[trigger] pos.pseudo_push(t, m))) by {
            if exists|t: int| #[trigger] side_target(pos, pushes, push_offset, 0, false, t, m) {
                let t = choose|t: int| #[trigger] side_target(pos, pushes, push_offset, 0, false, t, m);
                assert(pos.pseudo_push(t, m));
            }
            if exists|t: int| #[trigger] pos.pseudo_push(t, m) {
                let t = choose|t: int| #[trigger] pos.pseudo_push(t, m);
                assert(side_target(pos, pushes, push_offset, 0, false, t, m));
            }
        }
        assert((exists|t: int| #[trigger] side_target(pos, doubles, double_offset, 0, false, t, m)) <==> (exists|t: int|
            #[trigger] pos.pseudo_double(t, m))) by {
            if exists|t: int| #[trigger] side_target(pos, doubles, double_offset, 0, false, t, m) {
                let t = choose|t: int| #[trigger] side_target(pos, doubles, double_offset, 0, false, t, m);
                assert(pos.pseudo_double(t, m));
            }
            if exists|t: int| #[trigger] pos.pseudo_double(t, m) {
                let t = choose|t: int| #[trigger] pos.pseudo_double(t, m);
                assert(side_target(pos, doubles, double_offset, 0, false, t, m));
            }
        }
        assert(s2.contains(m) <==> (s1.contains(m) || exists|t: int| #[trigger] side_target(pos, doubles, double_offset, 0, false, t, m)));
        assert(s3.contains(m) <==> (s2.contains(m) || exists|t: int| #[trigger] pos.pseudo_capture(pos.capture_mask(), true, t, m)));
        assert(s4.contains(m) <==> (s3.contains(m) || exists|t: int| #[trigger] pos.pseudo_capture(pos.capture_mask(), false, t, m)));
        assert(s5.contains(m) <==> (s4.contains(m) || exists|f: int| #[trigger] pos.pseudo_piece(0xffff_ffff_ffff_ffffu64, Piece::Knight, f, m)));
        assert(s6.contains(m) <==> (s5.contains(m) || exists|f: int| #[trigger] pos.pseudo_piece(0xffff_ffff_ffff_ffffu64, Piece::King, f, m)));
        assert(s7.contains(m) <==> (s6.contains(m) || exists|f: int| #[trigger] pos.pseudo_piece(0xffff_ffff_ffff_ffffu64, Piece::Rook, f, m)));
        assert(s8.contains(m) <==> (s7.contains(m) || exists|f: int| #[trigger] pos.pseudo_piece(0xffff_ffff_ffff_ffffu64, Piece::Bishop, f, m)));
        assert(s9.contains(m) <==> (s8.contains(m) || exists|f: int| #[trigger] pos.pseudo_piece(0xffff_ffff_ffff_ffffu64, Piece::Queen, f, m)));
        if pos.checker_bb() == 0 {
            assert(fin.contains(m) <==> (s9.contains(m) || pos.castle_to(true, m) || pos.castle_to(false, m)));
        }
    }
}

impl Position {
    /// The stage of the pseudo-legal generator a move of the side to move belongs to: pawn
    /// pushes, double pushes, pawn captures towards the a-file and towards the h-file, then
    /// knight moves, king steps, castling, rook, bishop and queen moves.
    pub open spec fn pseudo_group(self, m: Move) -> int {
        let c = self.side_to_move();
        let f = m.from_sq();
        let t = m.to_sq();
        match self.moved(m) {
            Piece::Pawn => if t - f == forward(c) {
                0
            } else if t - f == 2 * forward(c) {
                1
            } else if t - f == Position::left_offset(c) {
                2
            } else {
                3
            },
            Piece::Knight => 4,
            Piece::King => if king_step(f, t) { 5 } else { 6 },
            Piece::Rook => 7,
            Piece::Bishop => 8,
            Piece::Queen => 9,
        }
    }
}

/// The moves of a piece of kind `p` (not a pawn) onto `mask` move that kind.
proof fn lemma_pseudo_piece_kind(pos: Position, mask: u64, p: Piece, m: Move)
    requires
        pos.board_ok(),
        p != Piece::Pawn,
        exists|f: int| #[trigger] pos.pseudo_piece(mask, p, f, m),
    ensures
        pos.moved(m) == p,
        p == Piece::King ==> king_step(m.from_sq(), m.to_sq()),
{
    let f = choose|f: int| #[trigger] pos.pseudo_piece(mask, p, f, m);
    let t = choose|t: int| #[trigger] pos.pseudo_piece_to(mask, p, f, t, m);
    crate::attacks::lemma_slider_targets_board(f, pos.occ_bb());
    lemma_mover_kind(pos, p, f, t, None, m);
}

/// Each stage of the pseudo-legal generator lists moves of its own group.
proof fn lemma_pseudo_groups(pos: Position, mask: u64, m: Move)
    requires
        pos.wf(),
    ensures
        (exists|t: int| #[trigger] pos.pseudo_push(t, m)) ==> pos.pseudo_group(m) == 0,
        (exists|t: int| #[trigger] pos.pseudo_double(t, m)) ==> pos.pseudo_group(m) == 1,
        (exists|t: int| #[trigger] pos.pseudo_capture(mask, true, t, m)) ==> pos.pseudo_group(m) == 2,
        (exists|t: int| #[trigger] pos.pseudo_capture(mask, false, t, m)) ==> pos.pseudo_group(m) == 3,
        (exists|f: int| #[trigger] pos.pseudo_piece(mask, Piece::Knight, f, m)) ==> pos.pseudo_group(m) == 4,
        (exists|f: int| #[trigger] pos.pseudo_piece(mask, Piece::King, f, m)) ==> pos.pseudo_group(m) == 5,
        pos.castle_to(true, m) || pos.castle_to(false, m) ==> pos.pseudo_group(m) == 6,
        (exists|f: int| #[trigger] pos.pseudo_piece(mask, Piece::Rook, f, m)) ==> pos.pseudo_group(m) == 7,
        (exists|f: int| #[trigger] pos.pseudo_piece(mask, Piece::Bishop, f, m)) ==> pos.pseudo_group(m) == 8,
        (exists|f: int| #[trigger] pos.pseudo_piece(mask, Piece::Queen, f, m)) ==> pos.pseudo_group(m) == 9,
{
    let c = pos.side_to_move();
    let last = c.other().home();
    if exists|t: int| #[trigger] pos.pseudo_push(t, m) {
        let t = choose|t: int| #[trigger] pos.pseudo_push(t, m);
        let f = push_origin(c, t);
        let pr = choose|pr: Option<Piece>| #[trigger] pawn_move(last, f, t, pr, m);
        lemma_mover_kind(pos, Piece::Pawn, f, t, pr, m);
    }
    if exists|t: int| #[trigger] pos.pseudo_double(t, m) {
        let t = choose|t: int| #[trigger] pos.pseudo_double(t, m);
        let f = t - 2 * forward(c);
        let pr = choose|pr: Option<Piece>| #[trigger] pawn_move(last, f, t, pr, m);
        lemma_mover_kind(pos, Piece::Pawn, f, t, pr, m);
    }
    if exists|t: int| #[trigger] pos.pseudo_capture(mask, true, t, m) {
        let t = choose|t: int| #[trigger] pos.pseudo_capture(mask, true, t, m);
        let f = t - Position::left_offset(c);
        let pr = choose|pr: Option<Piece>| #[trigger] pawn_move(last, f, t, pr, m);
        lemma_mover_kind(pos, Piece::Pawn, f, t, pr, m);
    }
    if exists|t: int| #[trigger] pos.pseudo_capture(mask, false, t, m) {
        let t = choose|t: int| #[trigger] pos.pseudo_capture(mask, false, t, m);
        let f = t - Position::right_offset(c);
        let pr = choose|pr: Option<Piece>| #[trigger] pawn_move(last, f, t, pr, m);
        lemma_mover_kind(pos, Piece::Pawn, f, t, pr, m);
    }
    if exists|f: int| #[trigger] pos.pseudo_piece(mask, Piece::Knight, f, m) {
        lemma_pseudo_piece_kind(pos, mask, Piece::Knight, m);
    }
    if exists|f: int| #[trigger] pos.pseudo_piece(mask, Piece::King, f, m) {
        lemma_pseudo_piece_kind(pos, mask, Piece::King, m);
    }
    if exists|f: int| #[trigger] pos.pseudo_piece(mask, Piece::Rook, f, m) {
        lemma_pseudo_piece_kind(pos, mask, Piece::Rook, m);
    }
    if exists|f: int| #[trigger] pos.pseudo_piece(mask, Piece::Bishop, f, m) {
        lemma_pseudo_piece_kind(pos, mask, Piece::Bishop, m);
    }
    if exists|f: int| #[trigger] pos.pseudo_piece(mask, Piece::Queen, f, m) {
        lemma_pseudo_piece_kind(pos, mask, Piece::Queen, m);
    }
    if pos.castle_to(true, m) || pos.castle_to(false, m) {
        pos.lemma_kings();
        let ks = pos.castle_to(true, m);
        lemma_castle_fits(pos, ks);
        let k = pos.king_square(c);
        assert(pos.piece_on(k, Piece::King, c));
        let t = c.home() * 8 + (if ks { 6int } else { 2int });
        lemma_mover_kind(pos, Piece::King, k, t, None, m);
    }
}

/// Every pseudo-legal move of the side to move: pawn pushes, double pushes, pawn captures
/// (en passant included), knight, king, rook, bishop and queen moves, and castling when the
/// king is not in check and does not cross an attacked square.
pub fn gen_pseudolegal_moves(pos: &Position) -> (r: MoveList)
    requires
        pos.wf(),
    ensures
        all_fit(*pos, r@),
        forall|m: Move| #[trigger] r@.contains(m) <==> pos.pseudo_move(m),
        r@.no_duplicates(),
{
    let mut moves = MoveList::new();
    let c = pos.stm;
    let pawns = pos.bb_get(Piece::Pawn, c);
    let occ = pos.occ();
    let enemies = pos.side_occ(c.opp());
    let ep_mask = match pos.ep {
        Some(ep) => ep.bb(),
        None => 0,
    };
    assert(enemies | ep_mask == pos.capture_mask());
    let pushes = pawn_pushes(pawns, occ, c);
    let push_offset: i32 = if c == Side::White { 8 } else { -8 };
    proof {
        assert forall|t: int| #[trigger] in_bb(pushes, t) implies 0 <= t - push_offset < 64 by {
            assert(pawn_push_target(pawns, occ, c, t));
        }
        assert forall|t: int, pr: Option<Piece>| #[trigger] in_bb(pushes, t) && #[trigger] promotion_ok(pr)
            implies pos.fits(Move::spec_new(t - push_offset, t, pr)) by {
            assert(pawn_push_target(pawns, occ, c, t));
            lemma_push_fits(*pos, t - push_offset, t, pr);
        }
        lemma_promo_fits(*pos, pushes, push_offset);
        lemma_side_pushes(*pos, pushes, push_offset, false);
    }
    let ghost s0 = moves@;
    gen_pawn_side(pos, pushes, push_offset, 0, false, &mut moves);
    let ghost s1 = moves@;
    let doubles = pawn_double_pushes(pawns, occ, c);
    let double_offset: i32 = if c == Side::White { 16 } else { -16 };
    proof {
        assert forall|t: int| #[trigger] in_bb(doubles, t) implies 0 <= t - double_offset < 64 by {
            assert(pawn_double_target(pawns, occ, c, t));
        }
        assert forall|t: int, pr: Option<Piece>| #[trigger] in_bb(doubles, t) && #[trigger] crate::move_gen::promo_for(
            c.other().home(), t, pr) implies pos.fits(Move::spec_new(t - double_offset, t, pr)) by {
            assert(pawn_double_target(pawns, occ, c, t));
            lemma_double_fits(*pos, t - double_offset, t);
        }
        lemma_side_pushes(*pos, doubles, double_offset, true);
    }
    gen_pawn_side(pos, doubles, double_offset, 0, false, &mut moves);
    let ghost s2 = moves@;
    gen_pawn_captures_to(pos, enemies | ep_mask, true, &mut moves);
    let ghost s3 = moves@;
    gen_pawn_captures_to(pos, enemies | ep_mask, false, &mut moves);
    let ghost s4 = moves@;
    gen_non_batched_moves(pos, Piece::Knight, u64::MAX, &mut moves);
    let ghost s5 = moves@;
    gen_non_batched_moves(pos, Piece::King, u64::MAX, &mut moves);
    let ghost s6 = moves@;
    gen_non_batched_moves(pos, Piece::Rook, u64::MAX, &mut moves);
    let ghost s7 = moves@;
    gen_non_batched_moves(pos, Piece::Bishop, u64::MAX, &mut moves);
    let ghost s8 = moves@;
    gen_non_batched_moves(pos, Piece::Queen, u64::MAX, &mut moves);
    let ghost s9 = moves@;
    if pos.checkers == 0 {
        gen_quiet_castles(pos, &mut moves);
    }
    proof {
        lemma_pseudo_chain(*pos, pushes, push_offset, doubles, double_offset, s0, s1, s2, s3, s4, s5, s6, s7, s8, s9, moves@);
        let all = 0xffff_ffff_ffff_ffffu64;
        let cm = pos.capture_mask();
        assert(s0.no_duplicates());
        assert forall|m: Move| #[trigger] s1.contains(m) implies pos.pseudo_group(m) == 0 by {
            lemma_pseudo_groups(*pos, all, m);
            let t = choose|t: int| #[trigger] side_target(*pos, pushes, push_offset, 0, false, t, m);
            assert(pos.pseudo_push(t, m));
        }
        assert forall|m: Move| #[trigger] s1.contains(m) implies !exists|t: int|
            #[trigger] side_target(*pos, doubles, double_offset, 0, false, t, m) by {
            lemma_pseudo_groups(*pos, all, m);
            if exists|t: int| #[trigger] side_target(*pos, doubles, double_offset, 0, false, t, m) {
                let t = choose|t: int| #[trigger] side_target(*pos, doubles, double_offset, 0, false, t, m);
                assert(pos.pseudo_double(t, m));
            }
        }
        assert forall|m: Move| #[trigger] s2.contains(m) implies pos.pseudo_group(m) <= 1 by {
            lemma_pseudo_groups(*pos, all, m);
            if !s1.contains(m) {
                let t = choose|t: int| #[trigger] side_target(*pos, doubles, double_offset, 0, false, t, m);
                assert(pos.pseudo_double(t, m));
            }
        }
        assert forall|m: Move| #[trigger] s2.contains(m) implies !exists|t: int| #[trigger] pos.pseudo_capture(cm, true, t, m) by {
            lemma_pseudo_groups(*pos, cm, m);
        }
        assert forall|m: Move| #[trigger] s3.contains(m) implies pos.pseudo_group(m) <= 2 by {
            lemma_pseudo_groups(*pos, cm, m);
        }
        assert forall|m: Move| #[trigger] s3.contains(m) implies !exists|t: int| #[trigger] pos.pseudo_capture(cm, false, t, m) by {
            lemma_pseudo_groups(*pos, cm, m);
        }
        assert forall|m: Move| #[trigger] s4.contains(m) implies pos.pseudo_group(m) <= 3 by {
            lemma_pseudo_groups(*pos, cm, m);
        }
        assert forall|m: Move| #[trigger] s4.contains(m) implies !exists|f: int| #[trigger] pos.pseudo_piece(all, Piece::Knight, f, m) by {
            lemma_pseudo_groups(*pos, all, m);
        }
        assert forall|m: Move| #[trigger] s5.contains(m) implies pos.pseudo_group(m) <= 4 by {
            lemma_pseudo_groups(*pos, all, m);
        }
        assert forall|m: Move| #[trigger] s5.contains(m) implies !exists|f: int| #[trigger] pos.pseudo_piece(all, Piece::King, f, m) by {
            lemma_pseudo_groups(*pos, all, m);
        }
        assert forall|m: Move| #[trigger] s6.contains(m) implies pos.pseudo_group(m) <= 5 by {
            lemma_pseudo_groups(*pos, all, m);
        }
        assert forall|m: Move| #[trigger] s6.contains(m) implies !exists|f: int| #[trigger] pos.pseudo_piece(all, Piece::Rook, f, m) by {
            lemma_pseudo_groups(*pos, all, m);
        }
        assert forall|m: Move| #[trigger] s7.contains(m) implies pos.pseudo_group(m) <= 5 || pos.pseudo_group(m) == 7 by {
            lemma_pseudo_groups(*pos, all, m);
        }
        assert forall|m: Move| #[trigger] s7.contains(m) implies !exists|f: int| #[trigger] pos.pseudo_piece(all, Piece::Bishop, f, m) by {
            lemma_pseudo_groups(*pos, all, m);
        }
        assert forall|m: Move| #[trigger] s8.contains(m) implies pos.pseudo_group(m) <= 5 || pos.pseudo_group(m) == 7
            || pos.pseudo_group(m) == 8 by {
            lemma_pseudo_groups(*pos, all, m);
        }
        assert forall|m: Move| #[trigger] s8.contains(m) implies !exists|f: int| #[trigger] pos.pseudo_piece(all, Piece::Queen, f, m) by {
            lemma_pseudo_groups(*pos, all, m);
        }
        assert forall|m: Move| #[trigger] s9.contains(m) implies pos.pseudo_group(m) != 6 by {
            lemma_pseudo_groups(*pos, all, m);
        }
        assert forall|m: Move| #[trigger] s9.contains(m) implies !pos.castle_to(true, m) && !pos.castle_to(false, m) by {
            lemma_pseudo_groups(*pos, all, m);
        }
    }
    moves
}

/// Castling when the right is held, the squares between king and rook are empty and the
/// squares the king crosses are not attacked.
fn gen_quiet_castles(pos: &Position, moves: &mut MoveList)
    requires
        pos.board_ok(),
        pos.castle_ok(),
        all_fit(*pos, old(moves)@),
    ensures
        all_fit(*pos, final(moves)@),
        forall|m: Move| #[trigger] final(moves)@.contains(m) <==> (old(moves)@.contains(m) || pos.castle_to(true, m)
            || pos.castle_to(false, m)),
        old(moves)@.no_duplicates() && (forall|m: Move| #[trigger] old(moves)@.contains(m) ==> !pos.castle_to(true, m)
            && !pos.castle_to(false, m)) ==> final(moves)@.no_duplicates(),
{
    let c = pos.stm;
    let king_sq = pos.king_sq(c);
    let occ = pos.occ();
    let home = mask_rank(c.home_rank());
    let king_path = (mask_file(5) | mask_file(6)) & home;
    let queen_path = (mask_file(2) | mask_file(3)) & home;
    let queen_empty = queen_path | (mask_file(1) & home);
    let ghost h = c.home();
    let ghost thr = pos.threat_bb();
    proof {
        lemma_zero_iff(occ & king_path);
        lemma_zero_iff(king_path & pos.threats);
        lemma_zero_iff(occ & queen_empty);
        lemma_zero_iff(queen_path & pos.threats);
        assert(forall|i: int| #[trigger] in_bb(king_path, i) == (i == h * 8 + 5 || i == h * 8 + 6));
        assert(forall|i: int| #[trigger] in_bb(queen_path, i) == (i == h * 8 + 2 || i == h * 8 + 3));
        assert(forall|i: int| #[trigger] in_bb(queen_empty, i) == (i == h * 8 + 1 || i == h * 8 + 2 || i == h * 8 + 3));
        assert((occ & king_path == 0) == (!in_bb(occ, h * 8 + 5) && !in_bb(occ, h * 8 + 6))) by {
            assert(in_bb(occ & king_path, h * 8 + 5) == in_bb(occ, h * 8 + 5));
            assert(in_bb(occ & king_path, h * 8 + 6) == in_bb(occ, h * 8 + 6));
        }
        assert((king_path & pos.threats == 0) == (!in_bb(thr, h * 8 + 5) && !in_bb(thr, h * 8 + 6))) by {
            assert(in_bb(king_path & pos.threats, h * 8 + 5) == in_bb(thr, h * 8 + 5));
            assert(in_bb(king_path & pos.threats, h * 8 + 6) == in_bb(thr, h * 8 + 6));
        }
        assert((occ & queen_empty == 0) == (!in_bb(occ, h * 8 + 1) && !in_bb(occ, h * 8 + 2) && !in_bb(occ, h * 8 + 3))) by {
            assert(in_bb(occ & queen_empty, h * 8 + 1) == in_bb(occ, h * 8 + 1));
            assert(in_bb(occ & queen_empty, h * 8 + 2) == in_bb(occ, h * 8 + 2));
            assert(in_bb(occ & queen_empty, h * 8 + 3) == in_bb(occ, h * 8 + 3));
        }
        assert((queen_path & pos.threats == 0) == (!in_bb(thr, h * 8 + 2) && !in_bb(thr, h * 8 + 3))) by {
            assert(in_bb(queen_path & pos.threats, h * 8 + 2) == in_bb(thr, h * 8 + 2));
            assert(in_bb(queen_path & pos.threats, h * 8 + 3) == in_bb(thr, h * 8 + 3));
        }
    }
    let ghost before = moves@;
    if pos.has_king_castle_rights(c) && occ & king_path == 0 && king_path & pos.threats == 0 {
        proof {
            assert(in_bb(king_path, h * 8 + 5));
            assert(in_bb(king_path, h * 8 + 6));
            assert(!in_bb(occ & king_path, h * 8 + 5));
            assert(!in_bb(occ & king_path, h * 8 + 6));
            lemma_castle_fits(*pos, true);
        }
        let to = Sq::from_coords(king_sq.rank(), 6);
        moves.push(Move::new(king_sq, to, None));
        proof {
            lemma_push_contains(before, Move::spec_new(king_sq.idx(), to.idx(), None));
            assert(pos.castle_to(true, Move::spec_new(king_sq.idx(), to.idx(), None)));
            if before.no_duplicates() && !before.contains(Move::spec_new(king_sq.idx(), to.idx(), None)) {
                lemma_push_nodup(before, Move::spec_new(king_sq.idx(), to.idx(), None));
            }
        }
        assert forall|i: int| 0 <= i < moves@.len() implies #[trigger] pos.fits(moves@[i]) by {
            if i < before.len() {
                assert(before[i] == moves@[i]);
            }
        }
    }
    let ghost mid = moves@;
    if pos.has_queen_castle_rights(c) && occ & queen_empty == 0 && queen_path & pos.threats == 0 {
        proof {
            assert(in_bb(queen_empty, h * 8 + 2));
            assert(in_bb(queen_empty, h * 8 + 3));
            assert(!in_bb(occ & queen_empty, h * 8 + 2));
            assert(!in_bb(occ & queen_empty, h * 8 + 3));
            lemma_castle_fits(*pos, false);
        }
        let to = Sq::from_coords(king_sq.rank(), 2);
        moves.push(Move::new(king_sq, to, None));
        proof {
            let x = Move::spec_new(king_sq.idx(), to.idx(), None);
            lemma_push_contains(mid, x);
            assert(pos.castle_to(false, x));
            Move::lemma_spec_new(king_sq.idx(), to.idx(), None);
            if mid.contains(x) && !before.contains(x) {
                assert(pos.castle_to(true, x));
                let k = pos.king_square(c);
                Move::lemma_spec_new(k, crate::rank_of(k) * 8 + 6, None);
                Move::lemma_spec_new(k, crate::rank_of(k) * 8 + 2, None);
            }
            if mid.no_duplicates() && !mid.contains(x) {
                lemma_push_nodup(mid, x);
            }
        }
        assert forall|i: int| 0 <= i < moves@.len() implies #[trigger] pos.fits(moves@[i]) by {
            if i < mid.len() {
                assert(mid[i] == moves@[i]);
            }
        }
    }
}

/// The pseudo-legal captures of the side to move: pawn captures (en passant included), then
/// knight, king, rook, bishop and queen captures.
pub fn gen_pseudolegal_captures(pos: &Position) -> (r: MoveList)
    requires
        pos.wf(),
    ensures
        all_fit(*pos, r@),
        all_capture(*pos, r@),
        forall|m: Move| #[trigger] r@.contains(m) <==> pos.pseudo_capture_move(m),
        r@.no_duplicates(),
{
    let mut moves = MoveList::new();
    let c = pos.stm;
    let enemies = pos.side_occ(c.opp());
    let ep_mask = match pos.ep {
        Some(ep) => ep.bb(),
        None => 0,
    };
    assert(enemies | ep_mask == pos.capture_mask());
    let ghost s0 = moves@;
    gen_pawn_captures_to(pos, enemies | ep_mask, true, &mut moves);
    let ghost s1 = moves@;
    gen_pawn_captures_to(pos, enemies | ep_mask, false, &mut moves);
    let ghost s2 = moves@;
    proof {
        let cm = pos.capture_mask();
        assert(s0.no_duplicates());
        assert forall|m: Move| #[trigger] s1.contains(m) implies !exists|t: int| #[trigger] pos.pseudo_capture(cm, false, t, m) by {
            lemma_pseudo_groups(*pos, cm, m);
        }
        assert forall|m: Move| #[trigger] s2.contains(m) implies pos.pseudo_group(m) == 2 || pos.pseudo_group(m) == 3 by {
            lemma_pseudo_groups(*pos, cm, m);
        }
    }
    if enemies != u64::MAX {
        gen_non_batched_moves(pos, Piece::Knight, enemies, &mut moves);
        let ghost s3 = moves@;
        gen_non_batched_moves(pos, Piece::King, enemies, &mut moves);
        let ghost s4 = moves@;
        gen_non_batched_moves(pos, Piece::Rook, enemies, &mut moves);
        let ghost s5 = moves@;
        gen_non_batched_moves(pos, Piece::Bishop, enemies, &mut moves);
        let ghost s6 = moves@;
        gen_non_batched_moves(pos, Piece::Queen, enemies, &mut moves);
        proof {
            assert forall|m: Move| #[trigger] s2.contains(m) implies !exists|f: int| #[trigger] pos.pseudo_piece(enemies, Piece::Knight, f, m) by {
                lemma_pseudo_groups(*pos, enemies, m);
            }
            assert forall|m: Move| #[trigger] s3.contains(m) implies 2 <= pos.pseudo_group(m) <= 4 by {
                lemma_pseudo_groups(*pos, enemies, m);
            }
            assert forall|m: Move| #[trigger] s3.contains(m) implies !exists|f: int| #[trigger] pos.pseudo_piece(enemies, Piece::King, f, m) by {
                lemma_pseudo_groups(*pos, enemies, m);
            }
            assert forall|m: Move| #[trigger] s4.contains(m) implies 2 <= pos.pseudo_group(m) <= 5 by {
                lemma_pseudo_groups(*pos, enemies, m);
            }
            assert forall|m: Move| #[trigger] s4.contains(m) implies !exists|f: int| #[trigger] pos.pseudo_piece(enemies, Piece::Rook, f, m) by {
                lemma_pseudo_groups(*pos, enemies, m);
            }
            assert forall|m: Move| #[trigger] s5.contains(m) implies 2 <= pos.pseudo_group(m) <= 5 || pos.pseudo_group(m) == 7 by {
                lemma_pseudo_groups(*pos, enemies, m);
            }
            assert forall|m: Move| #[trigger] s5.contains(m) implies !exists|f: int| #[trigger] pos.pseudo_piece(enemies, Piece::Bishop, f, m) by {
                lemma_pseudo_groups(*pos, enemies, m);
            }
            assert forall|m: Move| #[trigger] s6.contains(m) implies 2 <= pos.pseudo_group(m) <= 5 || pos.pseudo_group(m) == 7
                || pos.pseudo_group(m) == 8 by {
                lemma_pseudo_groups(*pos, enemies, m);
            }
            assert forall|m: Move| #[trigger] s6.contains(m) implies !exists|f: int| #[trigger] pos.pseudo_piece(enemies, Piece::Queen, f, m) by {
                lemma_pseudo_groups(*pos, enemies, m);
            }
        }
        proof {
            assert forall|m: Move| #[trigger] moves@.contains(m) <==> pos.pseudo_capture_move(m) by {
                assert(!s0.contains(m));
                assert(s1.contains(m) <==> (s0.contains(m) || exists|t: int| #[trigger] pos.pseudo_capture(pos.capture_mask(), true, t, m)));
                assert(s2.contains(m) <==> (s1.contains(m) || exists|t: int| #[trigger] pos.pseudo_capture(pos.capture_mask(), false, t, m)));
                assert(s3.contains(m) <==> (s2.contains(m) || exists|f: int| #[trigger] pos.pseudo_piece(enemies, Piece::Knight, f, m)));
                assert(s4.contains(m) <==> (s3.contains(m) || exists|f: int| #[trigger] pos.pseudo_piece(enemies, Piece::King, f, m)));
                assert(s5.contains(m) <==> (s4.contains(m) || exists|f: int| #[trigger] pos.pseudo_piece(enemies, Piece::Rook, f, m)));
                assert(s6.contains(m) <==> (s5.contains(m) || exists|f: int| #[trigger] pos.pseudo_piece(enemies, Piece::Bishop, f, m)));
                assert(moves@.contains(m) <==> (s6.contains(m) || exists|f: int| #[trigger] pos.pseudo_piece(enemies, Piece::Queen, f, m)));
            }
        }
    } else {
        proof {
            assert forall|m: Move| #[trigger] moves@.contains(m) <==> pos.pseudo_capture_move(m) by {
                assert(!s0.contains(m));
                assert(s1.contains(m) <==> (s0.contains(m) || exists|t: int| #[trigger] pos.pseudo_capture(pos.capture_mask(), true, t, m)));
                assert(s2.contains(m) <==> (s1.contains(m) || exists|t: int| #[trigger] pos.pseudo_capture(pos.capture_mask(), false, t, m)));
            }
        }
    }
    moves
}

/// What a generated pawn or piece move takes, by its kind.
proof fn lemma_pseudo_captures(pos: Position, m: Move)
    requires
        pos.wf(),
    ensures
        forall|t: int| #[trigger] pos.pseudo_push(t, m) ==> pos.capture_of(m) is None,
        forall|t: int| #[trigger] pos.pseudo_double(t, m) ==> pos.capture_of(m) is None,
        forall|t: int, left: bool| #[trigger] pos.pseudo_capture(pos.capture_mask(), left, t, m) ==> pos.capture_of(m) is Some,
        forall|p: Piece, f: int, t: int| #[trigger] pos.pseudo_piece_to(0xffff_ffff_ffff_ffffu64, p, f, t, m)
            && p != Piece::Pawn ==> (pos.capture_of(m) is Some <==> in_bb(pos.side_bb(pos.side_to_move().other()), t)),
        pos.castle_to(true, m) || pos.castle_to(false, m) ==> pos.capture_of(m) is None,
{
    let c = pos.side_to_move();
    let o = c.other();
    let pawns = pos.bb(Piece::Pawn, c);
    let last = o.home();
    assert forall|t: int| #[trigger] pos.pseudo_push(t, m) implies pos.capture_of(m) is None by {
        let f = crate::attacks::push_origin(c, t);
        let pr = choose|pr: Option<Piece>| #[trigger] pawn_move(last, f, t, pr, m);
        Move::lemma_spec_new(f, t, pr);
        pos.lemma_occupant_of(Piece::Pawn, c, f);
        pos.lemma_empty(t);
    }
    assert forall|t: int| #[trigger] pos.pseudo_double(t, m) implies pos.capture_of(m) is None by {
        let f = t - 2 * forward(c);
        let pr = choose|pr: Option<Piece>| #[trigger] pawn_move(last, f, t, pr, m);
        Move::lemma_spec_new(f, t, pr);
        pos.lemma_occupant_of(Piece::Pawn, c, f);
        pos.lemma_empty(t);
    }
    assert forall|t: int, left: bool| #[trigger] pos.pseudo_capture(pos.capture_mask(), left, t, m) implies pos.capture_of(m) is Some by {
        let f = if left { t - Position::left_offset(c) } else { t - Position::right_offset(c) };
        let pr = choose|pr: Option<Piece>| #[trigger] pawn_move(last, f, t, pr, m);
        Move::lemma_spec_new(f, t, pr);
        pos.lemma_occupant_of(Piece::Pawn, c, f);
        if in_bb(pos.side_bb(o), t) {
            pos.lemma_occupied_square(o, t);
        }
    }
    assert forall|p: Piece, f: int, t: int| #[trigger] pos.pseudo_piece_to(0xffff_ffff_ffff_ffffu64, p, f, t, m)
        && p != Piece::Pawn implies (pos.capture_of(m) is Some <==> in_bb(pos.side_bb(o), t)) by {
        crate::attacks::lemma_slider_targets_board(f, pos.occ_bb());
        Move::lemma_spec_new(f, t, None);
        pos.lemma_occupant_of(p, c, f);
        if in_bb(pos.side_bb(o), t) {
            pos.lemma_occupied_square(o, t);
        } else {
            pos.lemma_not_ally(o, t);
            pos.lemma_not_ally(c, t);
        }
    }
    if pos.castle_to(true, m) || pos.castle_to(false, m) {
        let ks = pos.castle_to(true, m);
        lemma_castle_fits(pos, ks);
        let h = c.home();
        let t = h * 8 + (if ks { 6int } else { 2int });
        pos.lemma_empty(t);
        Move::lemma_spec_new(h * 8 + 4, t, None);
    }
}

/// The pseudo-legal captures are exactly the pseudo-legal moves that take something.
pub proof fn lemma_captures_are_capturing_moves(pos: Position, m: Move)
    requires
        pos.wf(),
    ensures
        pos.pseudo_capture_move(m) <==> (pos.pseudo_move(m) && pos.capture_of(m) is Some),
{
    let c = pos.side_to_move();
    let o = c.other();
    let all = 0xffff_ffff_ffff_ffffu64;
    let enemies = pos.side_bb(o);
    lemma_pseudo_captures(pos, m);
    pos.lemma_kings();
    pos.lemma_occupant_of(Piece::King, c, pos.king_square(c));
    assert(enemies != all) by {
        let k = pos.king_square(c);
        if in_bb(enemies, k) {
            pos.lemma_occupant_of(Piece::King, c, k);
            pos.lemma_not_ally(o, k);
            pos.lemma_occupied_square(o, k);
            assert(!in_bb(pos.side_bb(o), k)) by {
                if in_bb(pos.bb(Piece::Pawn, o), k) { pos.lemma_occupant_of(Piece::Pawn, o, k); }
                if in_bb(pos.bb(Piece::Knight, o), k) { pos.lemma_occupant_of(Piece::Knight, o, k); }
                if in_bb(pos.bb(Piece::Bishop, o), k) { pos.lemma_occupant_of(Piece::Bishop, o, k); }
                if in_bb(pos.bb(Piece::Rook, o), k) { pos.lemma_occupant_of(Piece::Rook, o, k); }
                if in_bb(pos.bb(Piece::Queen, o), k) { pos.lemma_occupant_of(Piece::Queen, o, k); }
                if in_bb(pos.bb(Piece::King, o), k) { pos.lemma_occupant_of(Piece::King, o, k); }
            }
        }
    }
    assert forall|p: Piece, f: int| p != Piece::Pawn implies (#[trigger] pos.pseudo_piece(enemies, p, f, m) <==> (
        pos.pseudo_piece(all, p, f, m) && pos.capture_of(m) is Some)) by {
        if pos.pseudo_piece(enemies, p, f, m) {
            let t = choose|t: int| #[trigger] pos.pseudo_piece_to(enemies, p, f, t, m);
            assert(pos.pseudo_piece_to(all, p, f, t, m));
        }
        if pos.pseudo_piece(all, p, f, m) && pos.capture_of(m) is Some {
            let t = choose|t: int| #[trigger] pos.pseudo_piece_to(all, p, f, t, m);
            assert(pos.pseudo_piece_to(enemies, p, f, t, m));
        }
    }
    if pos.pseudo_move(m) && pos.capture_of(m) is Some {
        if exists|t: int| #[trigger] pos.pseudo_push(t, m) {
            let t = choose|t: int| #[trigger] pos.pseudo_push(t, m);
        }
        if exists|t: int| #[trigger] pos.pseudo_double(t, m) {
            let t = choose|t: int| #[trigger] pos.pseudo_double(t, m);
        }
        if exists|f: int| #[trigger] pos.pseudo_piece(all, Piece::Knight, f, m) {
            let f = choose|f: int| #[trigger] pos.pseudo_piece(all, Piece::Knight, f, m);
            assert(pos.pseudo_piece(enemies, Piece::Knight, f, m));
        }
        if exists|f: int| #[trigger] pos.pseudo_piece(all, Piece::King, f, m) {
            let f = choose|f: int| #[trigger] pos.pseudo_piece(all, Piece::King, f, m);
            assert(pos.pseudo_piece(enemies, Piece::King, f, m));
        }
        if exists|f: int| #[trigger] pos.pseudo_piece(all, Piece::Rook, f, m) {
            let f = choose|f: int| #[trigger] pos.pseudo_piece(all, Piece::Rook, f, m);
            assert(pos.pseudo_piece(enemies, Piece::Rook, f, m));
        }
        if exists|f: int| #[trigger] pos.pseudo_piece(all, Piece::Bishop, f, m) {
            let f = choose|f: int| #[trigger] pos.pseudo_piece(all, Piece::Bishop, f, m);
            assert(pos.pseudo_piece(enemies, Piece::Bishop, f, m));
        }
        if exists|f: int| #[trigger] pos.pseudo_piece(all, Piece::Queen, f, m) {
            let f = choose|f: int| #[trigger] pos.pseudo_piece(all, Piece::Queen, f, m);
            assert(pos.pseudo_piece(enemies, Piece::Queen, f, m));
        }
    }
    if pos.pseudo_capture_move(m) {
        if exists|t: int| #[trigger] pos.pseudo_capture(pos.capture_mask(), true, t, m) {
            let t = choose|t: int| #[trigger] pos.pseudo_capture(pos.capture_mask(), true, t, m);
        }
        if exists|t: int| #[trigger] pos.pseudo_capture(pos.capture_mask(), false, t, m) {
            let t = choose|t: int| #[trigger] pos.pseudo_capture(pos.capture_mask(), false, t, m);
        }
    }
}

/// A bitboard with no set bit is zero.
pub(crate) proof fn lemma_popcount_zero(b: u64)
    requires
        crate::bits::popcount(b) == 0,
    ensures
        b == 0,
    decreases b,
{
    if b != 0 {
        let h = b / 2;
        assert(b & 1 == 0);
        assert(h != 0) by (bit_vector)
            requires
                b != 0,
                b & 1 == 0,
                h == b / 2,
        ;
        assert(crate::bits::popcount(h) == 0);
        lemma_popcount_zero(h);
    }
}

/// Every move the legal generator lists is one of the pseudo-legal moves.
pub proof fn lemma_listed_are_pseudo_legal(pos: Position, m: Move)
    requires
        pos.wf(),
        pos.listed_move(m),
    ensures
        pos.pseudo_move(m),
{
    let c = pos.side_to_move();
    let o = c.other();
    let all = 0xffff_ffff_ffff_ffffu64;
    let n = crate::bits::popcount(pos.checker_bb());
    let mask = if n == 0 {
        all
    } else {
        pos.check_mask(Some(crate::Sq(vstd::std_specs::bits::u64_trailing_zeros(pos.checker_bb()) as u8)))
    };
    pos.lemma_kings();
    let k = pos.king_square(c);
    if pos.king_move(m) {
        let t = choose|t: int| #[trigger] pos.king_evasion(t) && m == Move::spec_new(k, t, None);
        assert(pos.pseudo_piece_to(all, Piece::King, k, t, m));
        assert(pos.pseudo_piece(all, Piece::King, k, m));
        assert(pos.pseudo_move(m));
    } else {
        assert(n <= 1);
        assert(pos.standard_move(mask, n == 0, m));
        if exists|t: int| #[trigger] pos.push_to(mask, t, m) {
            let t = choose|t: int| #[trigger] pos.push_to(mask, t, m);
            assert(pos.pseudo_push(t, m));
            assert(pos.pseudo_move(m));
        } else if exists|t: int| #[trigger] pos.double_to(mask, t, m) {
            let t = choose|t: int| #[trigger] pos.double_to(mask, t, m);
            assert(pos.pseudo_double(t, m));
            assert(pos.pseudo_move(m));
        } else if pos.ep_capture(true, m) || pos.ep_capture(false, m) {
            let left = pos.ep_capture(true, m);
            let e = pos.ep_square()->0;
            let f = if left { e.idx() - Position::left_offset(c) } else { e.idx() - Position::right_offset(c) };
            assert(pawn_move(o.home(), f, e.idx(), None, m));
            assert(in_bb(pos.capture_mask(), e.idx()));
            assert(pos.pseudo_capture(pos.capture_mask(), left, e.idx(), m));
            assert(pos.pseudo_move(m));
        } else if exists|t: int| #[trigger] pos.capture_to(mask, true, t, m) {
            let t = choose|t: int| #[trigger] pos.capture_to(mask, true, t, m);
            assert(pos.pseudo_capture(pos.capture_mask(), true, t, m));
            assert(pos.pseudo_move(m));
        } else if exists|t: int| #[trigger] pos.capture_to(mask, false, t, m) {
            let t = choose|t: int| #[trigger] pos.capture_to(mask, false, t, m);
            assert(pos.pseudo_capture(pos.capture_mask(), false, t, m));
            assert(pos.pseudo_move(m));
        } else if exists|f: int| #[trigger] pos.piece_from(mask, Piece::Knight, f, m) {
            let f = choose|f: int| #[trigger] pos.piece_from(mask, Piece::Knight, f, m);
            let t = choose|t: int| #[trigger] pos.piece_to(mask, Piece::Knight, f, t, m);
            assert(pos.pseudo_piece_to(all, Piece::Knight, f, t, m));
            assert(pos.pseudo_piece(all, Piece::Knight, f, m));
            assert(pos.pseudo_move(m));
        } else if exists|f: int| #[trigger] pos.piece_from(mask, Piece::Bishop, f, m) {
            let f = choose|f: int| #[trigger] pos.piece_from(mask, Piece::Bishop, f, m);
            let t = choose|t: int| #[trigger] pos.piece_to(mask, Piece::Bishop, f, t, m);
            assert(pos.pseudo_piece_to(all, Piece::Bishop, f, t, m));
            assert(pos.pseudo_piece(all, Piece::Bishop, f, m));
            assert(pos.pseudo_move(m));
        } else if exists|f: int| #[trigger] pos.piece_from(mask, Piece::Rook, f, m) {
            let f = choose|f: int| #[trigger] pos.piece_from(mask, Piece::Rook, f, m);
            let t = choose|t: int| #[trigger] pos.piece_to(mask, Piece::Rook, f, t, m);
            assert(pos.pseudo_piece_to(all, Piece::Rook, f, t, m));
            assert(pos.pseudo_piece(all, Piece::Rook, f, m));
            assert(pos.pseudo_move(m));
        } else if exists|f: int| #[trigger] pos.piece_from(mask, Piece::Queen, f, m) {
            let f = choose|f: int| #[trigger] pos.piece_from(mask, Piece::Queen, f, m);
            let t = choose|t: int| #[trigger] pos.piece_to(mask, Piece::Queen, f, t, m);
            assert(pos.pseudo_piece_to(all, Piece::Queen, f, t, m));
            assert(pos.pseudo_piece(all, Piece::Queen, f, m));
            assert(pos.pseudo_move(m));
        } else {
            assert(n == 0);
            lemma_popcount_zero(pos.checker_bb());
            assert(pos.pseudo_move(m));
        }
    }
}

} // verus!
