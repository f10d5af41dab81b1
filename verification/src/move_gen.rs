//! Legal move generation: evasions under double check, and the standard generator that filters
//! pseudo-legal moves by pins, checks and attacked squares.
use vstd::prelude::*;
use vstd::std_specs::bits::u64_trailing_zeros;
use crate::bits::{in_bb, group_in_bb, lemma_nonzero_has, lemma_test_square, lemma_empty_is_zero};
use crate::{Position, Piece, Side, Sq, Move, MoveList, Check, iter_bb, rank_of, file_of, promotion_ok, mask_file, mask_rank};
use crate::attacks::{pawn_pushes, pawn_double_pushes, pawn_captures_left, pawn_captures_right, pawn_left_target, pawn_right_target, king_moves, knight_moves, bishop_moves, rook_moves, queen_moves, pawn_start_rank, push_origin, king_step, pawn_push_target, pawn_double_target, piece_target};
use crate::lines::{line_between_diagonal, line_between_straight, full_line, any_dir, segment, diagonal_dir, straight_dir};
use crate::position::{xor8, forward, lemma_xor8};

verus! {

broadcast use group_in_bb;

/// Every move of `s` fits the position.
pub open spec fn all_fit(pos: Position, s: Seq<Move>) -> bool {
    forall|i: int| 0 <= i < s.len() ==> #[trigger] pos.fits(s[i])
}

/// Appending a move the list does not hold keeps it free of repeats.
pub proof fn lemma_push_nodup(s: Seq<Move>, x: Move)
    requires
        s.no_duplicates(),
        !s.contains(x),
    ensures
        s.push(x).no_duplicates(),
{
    let t = s.push(x);
    assert forall|i: int, j: int| 0 <= i < t.len() && 0 <= j < t.len() && i != j implies t[i] != t[j] by {
        if i < s.len() && j < s.len() {
            assert(t[i] == s[i] && t[j] == s[j]);
        } else if i < s.len() {
            assert(t[i] == s[i]);
            assert(s.contains(s[i]));
        } else {
            assert(t[j] == s[j]);
            assert(s.contains(s[j]));
        }
    }
}

/// Appending `x` adds exactly `x` to what a list contains.
pub proof fn lemma_push_contains(s: Seq<Move>, x: Move)
    ensures
        forall|m: Move| #[trigger] s.push(x).contains(m) <==> (s.contains(m) || m == x),
{
    assert forall|m: Move| #[trigger] s.push(x).contains(m) <==> (s.contains(m) || m == x) by {
        if s.push(x).contains(m) {
            let i = choose|i: int| 0 <= i < s.push(x).len() && s.push(x)[i] == m;
            if i < s.len() {
                assert(s[i] == m);
            }
        }
        if s.contains(m) {
            let i = choose|i: int| 0 <= i < s.len() && s[i] == m;
            assert(s.push(x)[i] == m);
        }
        if m == x {
            assert(s.push(x)[s.len() as int] == x);
        }
    }
}

/// One step of a walk over the squares of a bitboard: once square `to` has been visited, the
/// list holds what it held at the start and the moves generated for every visited square.
pub proof fn lemma_visit(start: Seq<Move>, before: Seq<Move>, after: Seq<Move>, rest0: u64, rest1: u64, to: int,
    gen: spec_fn(int, Move) -> bool)
    requires
        forall|m: Move| #[trigger] before.contains(m) <==> (start.contains(m) || exists|t: int|
            #[trigger] gen(t, m) && !in_bb(rest0, t)),
        forall|i: int| #[trigger] in_bb(rest1, i) == (in_bb(rest0, i) && i != to),
        forall|m: Move| #[trigger] after.contains(m) <==> (before.contains(m) || gen(to, m)),
    ensures
        forall|m: Move| #[trigger] after.contains(m) <==> (start.contains(m) || exists|t: int|
            #[trigger] gen(t, m) && !in_bb(rest1, t)),
{
    assert forall|m: Move| #[trigger] after.contains(m) <==> (start.contains(m) || exists|t: int|
        #[trigger] gen(t, m) && !in_bb(rest1, t)) by {
        if after.contains(m) {
            if before.contains(m) {
                if !start.contains(m) {
                    let t = choose|t: int| #[trigger] gen(t, m) && !in_bb(rest0, t);
                    assert(gen(t, m) && !in_bb(rest1, t));
                }
            } else {
                assert(gen(to, m) && !in_bb(rest1, to));
            }
        }
        if start.contains(m) {
            assert(before.contains(m));
        }
        if exists|t: int| #[trigger] gen(t, m) && !in_bb(rest1, t) {
            let t = choose|t: int| #[trigger] gen(t, m) && !in_bb(rest1, t);
            if t != to {
                assert(gen(t, m) && !in_bb(rest0, t));
                assert(before.contains(m));
            }
        }
    }
}

/// The end of a walk over the squares of a bitboard: every square has been visited.
pub proof fn lemma_visit_done(start: Seq<Move>, now: Seq<Move>, rest: u64, gen: spec_fn(int, Move) -> bool)
    requires
        forall|m: Move| #[trigger] now.contains(m) <==> (start.contains(m) || exists|t: int|
            #[trigger] gen(t, m) && !in_bb(rest, t)),
        rest == 0,
    ensures
        forall|m: Move| #[trigger] now.contains(m) <==> (start.contains(m) || exists|t: int| #[trigger] gen(t, m)),
{
    assert forall|m: Move| #[trigger] now.contains(m) <==> (start.contains(m) || exists|t: int| #[trigger] gen(t, m)) by {
        if exists|t: int| #[trigger] gen(t, m) {
            let t = choose|t: int| #[trigger] gen(t, m);
            assert(!in_bb(rest, t));
        }
    }
}

/// The promotion `pr` a pawn move onto `t` carries when `last` is the last rank: one of the
/// four pieces there, none elsewhere.
pub open spec fn promo_for(last: int, t: int, pr: Option<Piece>) -> bool {
    if rank_of(t) == last {
        pr is Some && promotion_ok(pr)
    } else {
        pr is None
    }
}

/// Moves onto the squares of `bb` that fit with any promotion fit with the promotions generated.
pub proof fn lemma_promo_fits(pos: Position, bb: u64, offset: i32)
    requires
        forall|t: int, pr: Option<Piece>| #[trigger] in_bb(bb, t) && #[trigger] promotion_ok(pr)
            ==> pos.fits(Move::spec_new(t - offset, t, pr)),
    ensures
        forall|t: int, pr: Option<Piece>| #[trigger] in_bb(bb, t) && #[trigger] promo_for(
            pos.side_to_move().other().home(), t, pr) ==> pos.fits(Move::spec_new(t - offset, t, pr)),
{
    assert forall|t: int, pr: Option<Piece>| #[trigger] in_bb(bb, t) && #[trigger] promo_for(
        pos.side_to_move().other().home(), t, pr) implies pos.fits(Move::spec_new(t - offset, t, pr)) by {
        assert(promotion_ok(pr));
    }
}

/// `m` is the pawn move `f`-`t` with the promotion `pr`, as generated when `last` is the
/// last rank.
pub open spec fn pawn_move(last: int, f: int, t: int, pr: Option<Piece>, m: Move) -> bool {
    promo_for(last, t, pr) && m == Move::spec_new(f, t, pr)
}

impl Position {
    /// A piece standing in its own bitboard is the occupant of its square.
    pub proof fn lemma_occupant_of(self, p: Piece, c: Side, s: int)
        requires
            self.board_ok(),
            in_bb(self.bb(p, c), s),
        ensures
            self.occupant(s) == Some((p, c)),
            self.square(s) == Some(p),
            in_bb(self.side_bb(c), s),
            in_bb(self.occ_bb(), s),
            0 <= s < 64,
    {
        assert(self.square(s) is Some);
    }

    /// A square outside the side's bitboards holds none of its pieces.
    pub proof fn lemma_not_ally(self, c: Side, t: int)
        requires
            self.board_ok(),
            0 <= t < 64,
            !in_bb(self.side_bb(c), t),
        ensures
            !(self.occupant(t) matches Some((_, cc)) && cc == c),
    {
        if let Some((q, cc)) = self.occupant(t) {
            if cc == c {
                assert(self.square(t) is Some);
                assert(in_bb(self.bb(q, c), t));
            }
        }
    }

    /// An empty square of the occupancy holds nothing.
    pub proof fn lemma_empty(self, t: int)
        requires
            self.board_ok(),
            0 <= t < 64,
            !in_bb(self.occ_bb(), t),
        ensures
            self.square(t) is None,
            self.occupant(t) is None,
    {
        if self.square(t) is Some {
            let q = self.square(t)->0;
            assert(in_bb(self.bb(q, Side::White), t) || in_bb(self.bb(q, Side::Black), t));
        }
    }
}

/// A step of a non-pawn piece of the side to move onto a square it does not hold fits; for a
/// king the step is one square.
pub(crate) proof fn lemma_piece_fits(pos: Position, p: Piece, s: int, t: int)
    requires
        pos.board_ok(),
        p != Piece::Pawn,
        in_bb(pos.bb(p, pos.side_to_move()), s),
        0 <= t < 64,
        !in_bb(pos.side_bb(pos.side_to_move()), t),
        p == Piece::King ==> king_step(s, t),
    ensures
        pos.fits(Move::spec_new(s, t, None)),
{
    let c = pos.side_to_move();
    pos.lemma_occupant_of(p, c, s);
    pos.lemma_not_ally(c, t);
    Move::lemma_spec_new(s, t, None);
}

/// A pawn step straight ahead onto an empty square fits, with any promotion.
pub(crate) proof fn lemma_push_fits(pos: Position, s: int, t: int, pr: Option<Piece>)
    requires
        pos.board_ok(),
        in_bb(pos.bb(Piece::Pawn, pos.side_to_move()), s),
        t == s + forward(pos.side_to_move()),
        0 <= t < 64,
        !in_bb(pos.occ_bb(), t),
        promotion_ok(pr),
    ensures
        pos.fits(Move::spec_new(s, t, pr)),
{
    let c = pos.side_to_move();
    pos.lemma_occupant_of(Piece::Pawn, c, s);
    pos.lemma_empty(t);
    Move::lemma_spec_new(s, t, pr);
}

/// A pawn's double step from its starting rank over two empty squares fits.
pub(crate) proof fn lemma_double_fits(pos: Position, s: int, t: int)
    requires
        pos.board_ok(),
        in_bb(pos.bb(Piece::Pawn, pos.side_to_move()), s),
        rank_of(s) == pawn_start_rank(pos.side_to_move()),
        t == s + 2 * forward(pos.side_to_move()),
        0 <= t < 64,
        !in_bb(pos.occ_bb(), t),
        !in_bb(pos.occ_bb(), s + forward(pos.side_to_move())),
    ensures
        pos.fits(Move::spec_new(s, t, None)),
{
    let c = pos.side_to_move();
    pos.lemma_occupant_of(Piece::Pawn, c, s);
    pos.lemma_empty(t);
    pos.lemma_empty(s + forward(c));
    Move::lemma_spec_new(s, t, None);
}

/// A pawn's diagonal capture of an opponent piece fits, with any promotion.
pub(crate) proof fn lemma_capture_fits(pos: Position, s: int, t: int, pr: Option<Piece>)
    requires
        pos.board_ok(),
        in_bb(pos.bb(Piece::Pawn, pos.side_to_move()), s),
        t == s + forward(pos.side_to_move()) + 1 || t == s + forward(pos.side_to_move()) - 1,
        file_of(t) - file_of(s) == 1 || file_of(t) - file_of(s) == -1,
        0 <= t < 64,
        in_bb(pos.side_bb(pos.side_to_move().other()), t),
        promotion_ok(pr),
    ensures
        pos.fits(Move::spec_new(s, t, pr)),
{
    let c = pos.side_to_move();
    pos.lemma_occupant_of(Piece::Pawn, c, s);
    Move::lemma_spec_new(s, t, pr);
    let o = c.other();
    assert(pos.square(t) is Some) by {
        if in_bb(pos.bb(Piece::Pawn, o), t) { pos.lemma_occupant_of(Piece::Pawn, o, t); }
        if in_bb(pos.bb(Piece::Knight, o), t) { pos.lemma_occupant_of(Piece::Knight, o, t); }
        if in_bb(pos.bb(Piece::Bishop, o), t) { pos.lemma_occupant_of(Piece::Bishop, o, t); }
        if in_bb(pos.bb(Piece::Rook, o), t) { pos.lemma_occupant_of(Piece::Rook, o, t); }
        if in_bb(pos.bb(Piece::Queen, o), t) { pos.lemma_occupant_of(Piece::Queen, o, t); }
        if in_bb(pos.bb(Piece::King, o), t) { pos.lemma_occupant_of(Piece::King, o, t); }
    }
    assert(!(pos.occupant(t) matches Some((_, cc)) && cc == c)) by {
        let q = pos.square(t)->0;
        assert(in_bb(pos.bb(q, o), t) ==> !in_bb(pos.bb(q, c), t));
        if in_bb(pos.bb(q, c), t) {
            assert(!in_bb(pos.bb(q, o), t));
            assert(in_bb(pos.bb(Piece::Pawn, o), t) ==> q == Piece::Pawn);
            assert(in_bb(pos.bb(Piece::Knight, o), t) ==> q == Piece::Knight);
            assert(in_bb(pos.bb(Piece::Bishop, o), t) ==> q == Piece::Bishop);
            assert(in_bb(pos.bb(Piece::Rook, o), t) ==> q == Piece::Rook);
            assert(in_bb(pos.bb(Piece::Queen, o), t) ==> q == Piece::Queen);
            assert(in_bb(pos.bb(Piece::King, o), t) ==> q == Piece::King);
        }
    }
}

/// An en-passant capture onto the en-passant square fits.
pub(crate) proof fn lemma_ep_fits(pos: Position, s: int, t: int, pr: Option<Piece>)
    requires
        promotion_ok(pr),
        pos.board_ok(),
        pos.ep_ok(),
        pos.ep_square() matches Some(e) && e.idx() == t,
        in_bb(pos.bb(Piece::Pawn, pos.side_to_move()), s),
        t == s + forward(pos.side_to_move()) + 1 || t == s + forward(pos.side_to_move()) - 1,
        file_of(t) - file_of(s) == 1 || file_of(t) - file_of(s) == -1,
        0 <= t < 64,
    ensures
        pos.fits(Move::spec_new(s, t, pr)),
{
    let c = pos.side_to_move();
    pos.lemma_occupant_of(Piece::Pawn, c, s);
    Move::lemma_spec_new(s, t, pr);
    lemma_xor8(t);
    if c == Side::White {
        pos.lemma_occupant_of(Piece::Pawn, Side::Black, t - 8);
    } else {
        pos.lemma_occupant_of(Piece::Pawn, Side::White, t + 8);
    }
}

/// Castling fits when the right is held and the squares between king and rook are empty.
pub(crate) proof fn lemma_castle_fits(pos: Position, king_side: bool)
    requires
        pos.board_ok(),
        pos.castle_ok(),
        king_side ==> pos.rights() & pos.side_to_move().k_flag() != 0,
        !king_side ==> pos.rights() & pos.side_to_move().q_flag() != 0,
        king_side ==> !in_bb(pos.occ_bb(), pos.side_to_move().home() * 8 + 5),
        !king_side ==> !in_bb(pos.occ_bb(), pos.side_to_move().home() * 8 + 3),
        !in_bb(pos.occ_bb(), pos.side_to_move().home() * 8 + (if king_side { 6int } else { 2int })),
    ensures
        pos.king_square(pos.side_to_move()) == pos.side_to_move().home() * 8 + 4,
        pos.fits(Move::spec_new(pos.side_to_move().home() * 8 + 4, pos.side_to_move().home() * 8 + (if king_side { 6int } else { 2int }), None)),
{
    let c = pos.side_to_move();
    let h = c.home();
    let t = h * 8 + (if king_side { 6int } else { 2int });
    pos.lemma_kings();
    pos.lemma_occupant_of(Piece::King, c, h * 8 + 4);
    let rf = if king_side { h * 8 + 7 } else { h * 8 };
    pos.lemma_occupant_of(Piece::Rook, c, rf);
    pos.lemma_empty(t);
    if king_side {
        pos.lemma_empty(h * 8 + 5);
    } else {
        pos.lemma_empty(h * 8 + 3);
    }
    Move::lemma_spec_new(h * 8 + 4, t, None);
}

/// Pushes a move from `from` to each square of `targets`, lowest first.
pub(crate) fn push_targets(Ghost(pos): Ghost<Position>, from: Sq, targets: u64, moves: &mut MoveList)
    requires
        from.valid(),
        forall|t: int| #[trigger] in_bb(targets, t) ==> pos.fits(Move::spec_new(from.idx(), t, None)),
        all_fit(pos, old(moves)@),
    ensures
        all_fit(pos, final(moves)@),
        forall|mv: Move| #[trigger] final(moves)@.contains(mv) <==> (old(moves)@.contains(mv) || exists|t: int|
            #[trigger] in_bb(targets, t) && mv == Move::spec_new(from.idx(), t, None)),
        old(moves)@.no_duplicates() && (forall|t: int| #[trigger] in_bb(targets, t) ==> !old(moves)@.contains(
            Move::spec_new(from.idx(), t, None))) ==> final(moves)@.no_duplicates(),
{
    let ghost start = moves@;
    let ghost fresh = start.no_duplicates() && (forall|t: int| #[trigger] in_bb(targets, t) ==> !start.contains(
        Move::spec_new(from.idx(), t, None)));
    let mut it = iter_bb(targets);
    loop
        invariant
            from.valid(),
            start == old(moves)@,
            fresh == (start.no_duplicates() && (forall|t: int| #[trigger] in_bb(targets, t) ==> !start.contains(
                Move::spec_new(from.idx(), t, None)))),
            fresh ==> moves@.no_duplicates(),
            forall|t: int| #[trigger] in_bb(targets, t) ==> pos.fits(Move::spec_new(from.idx(), t, None)),
            forall|t: int| #[trigger] in_bb(it.rest(), t) ==> in_bb(targets, t),
            all_fit(pos, moves@),
            forall|mv: Move| #[trigger] moves@.contains(mv) <==> (start.contains(mv) || exists|t: int|
                #[trigger] in_bb(targets, t) && !in_bb(it.rest(), t) && mv == Move::spec_new(from.idx(), t, None)),
        decreases it.rest(),
    {
        let ghost old_rest = it.rest();
        let ghost before = moves@;
        match it.next() {
            None => {
                assert forall|mv: Move| #[trigger] moves@.contains(mv) <==> (start.contains(mv) || exists|t: int|
                    #[trigger] in_bb(targets, t) && mv == Move::spec_new(from.idx(), t, None)) by {
                    if exists|t: int| #[trigger] in_bb(targets, t) && mv == Move::spec_new(from.idx(), t, None) {
                        let t = choose|t: int| #[trigger] in_bb(targets, t) && mv == Move::spec_new(from.idx(), t, None);
                        assert(in_bb(targets, t) && !in_bb(it.rest(), t) && mv == Move::spec_new(from.idx(), t, None));
                    }
                    if moves@.contains(mv) && !start.contains(mv) {
                        let t = choose|t: int| #[trigger] in_bb(targets, t) && !in_bb(it.rest(), t) && mv == Move::spec_new(from.idx(), t, None);
                        assert(in_bb(targets, t) && mv == Move::spec_new(from.idx(), t, None));
                    }
                }
                return;
            },
            Some(to) => {
                let mv = Move::new(from, to, None);
                proof {
                    if fresh {
                        let x = Move::spec_new(from.idx(), to.idx(), None);
                        if before.contains(x) && !start.contains(x) {
                            let t = choose|t: int| #[trigger] in_bb(targets, t) && !in_bb(old_rest, t) && x == Move::spec_new(from.idx(), t, None);
                            Move::lemma_spec_new(from.idx(), t, None);
                            Move::lemma_spec_new(from.idx(), to.idx(), None);
                        }
                        lemma_push_nodup(before, x);
                    }
                }
                moves.push(mv);
                assert forall|i: int| 0 <= i < moves@.len() implies #[trigger] pos.fits(moves@[i]) by {
                    if i < before.len() {
                        assert(before[i] == moves@[i]);
                    }
                }
                assert forall|m: Move| #[trigger] moves@.contains(m) <==> (start.contains(m) || exists|t: int|
                    #[trigger] in_bb(targets, t) && !in_bb(it.rest(), t) && m == Move::spec_new(from.idx(), t, None)) by {
                    if moves@.contains(m) {
                        let i = choose|i: int| 0 <= i < moves@.len() && moves@[i] == m;
                        if i < before.len() {
                            assert(before[i] == m);
                            assert(before.contains(m));
                            if !start.contains(m) {
                                let t = choose|t: int| #[trigger] in_bb(targets, t) && !in_bb(old_rest, t) && m == Move::spec_new(from.idx(), t, None);
                                assert(in_bb(targets, t) && !in_bb(it.rest(), t) && m == Move::spec_new(from.idx(), t, None));
                            }
                        } else {
                            assert(in_bb(targets, to.idx()) && !in_bb(it.rest(), to.idx()) && m == Move::spec_new(from.idx(), to.idx(), None));
                        }
                    }
                    if start.contains(m) {
                        assert(before.contains(m));
                        let i = choose|i: int| 0 <= i < before.len() && before[i] == m;
                        assert(moves@[i] == m);
                    }
                    if exists|t: int| #[trigger] in_bb(targets, t) && !in_bb(it.rest(), t) && m == Move::spec_new(from.idx(), t, None) {
                        let t = choose|t: int| #[trigger] in_bb(targets, t) && !in_bb(it.rest(), t) && m == Move::spec_new(from.idx(), t, None);
                        if t == to.idx() {
                            assert(moves@[before.len() as int] == m);
                        } else {
                            assert(in_bb(targets, t) && !in_bb(old_rest, t) && m == Move::spec_new(from.idx(), t, None));
                            assert(before.contains(m));
                            let i = choose|i: int| 0 <= i < before.len() && before[i] == m;
                            assert(moves@[i] == m);
                        }
                    }
                }
            },
        }
    }
}

/// Pushes the pawn move `from`-`to`: the four promotions on the last rank, else the plain move.
pub(crate) fn add_pawn_move(Ghost(pos): Ghost<Position>, from: Sq, to: Sq, promotion_rank: usize, moves: &mut MoveList)
    requires
        from.valid(),
        to.valid(),
        forall|pr: Option<Piece>| promo_for(promotion_rank as int, to.idx(), pr) ==> #[trigger] pos.fits(
            Move::spec_new(from.idx(), to.idx(), pr)),
        all_fit(pos, old(moves)@),
    ensures
        all_fit(pos, final(moves)@),
        forall|m: Move| #[trigger] final(moves)@.contains(m) <==> (old(moves)@.contains(m) || exists|pr: Option<Piece>|
            #[trigger] pawn_move(promotion_rank as int, from.idx(), to.idx(), pr, m)),
        old(moves)@.no_duplicates() && (forall|pr: Option<Piece>| #[trigger] promo_for(promotion_rank as int, to.idx(), pr)
            ==> !old(moves)@.contains(Move::spec_new(from.idx(), to.idx(), pr))) ==> final(moves)@.no_duplicates(),
{
    let ghost n = moves@.len();
    let ghost f = from.idx();
    let ghost t = to.idx();
    let ghost last = promotion_rank as int;
    if to.rank() == promotion_rank {
        let ghost s0 = moves@;
        moves.push(Move::new(from, to, Some(Piece::Knight)));
        let ghost s1 = moves@;
        moves.push(Move::new(from, to, Some(Piece::Bishop)));
        let ghost s2 = moves@;
        moves.push(Move::new(from, to, Some(Piece::Rook)));
        let ghost s3 = moves@;
        moves.push(Move::new(from, to, Some(Piece::Queen)));
        proof {
            lemma_push_contains(s0, Move::spec_new(f, t, Some(Piece::Knight)));
            lemma_push_contains(s1, Move::spec_new(f, t, Some(Piece::Bishop)));
            lemma_push_contains(s2, Move::spec_new(f, t, Some(Piece::Rook)));
            lemma_push_contains(s3, Move::spec_new(f, t, Some(Piece::Queen)));
            if s0.no_duplicates() && (forall|pr: Option<Piece>| #[trigger] promo_for(last, t, pr) ==> !s0.contains(
                Move::spec_new(f, t, pr))) {
                let n = Move::spec_new(f, t, Some(Piece::Knight));
                let b = Move::spec_new(f, t, Some(Piece::Bishop));
                let r = Move::spec_new(f, t, Some(Piece::Rook));
                let q = Move::spec_new(f, t, Some(Piece::Queen));
                Move::lemma_spec_new(f, t, Some(Piece::Knight));
                Move::lemma_spec_new(f, t, Some(Piece::Bishop));
                Move::lemma_spec_new(f, t, Some(Piece::Rook));
                Move::lemma_spec_new(f, t, Some(Piece::Queen));
                assert(promo_for(last, t, Some(Piece::Knight)) && promo_for(last, t, Some(Piece::Bishop)));
                assert(promo_for(last, t, Some(Piece::Rook)) && promo_for(last, t, Some(Piece::Queen)));
                lemma_push_nodup(s0, n);
                lemma_push_nodup(s1, b);
                lemma_push_nodup(s2, r);
                lemma_push_nodup(s3, q);
            }
            assert(pawn_move(last, f, t, Some(Piece::Knight), Move::spec_new(f, t, Some(Piece::Knight))));
            assert(pawn_move(last, f, t, Some(Piece::Bishop), Move::spec_new(f, t, Some(Piece::Bishop))));
            assert(pawn_move(last, f, t, Some(Piece::Rook), Move::spec_new(f, t, Some(Piece::Rook))));
            assert(pawn_move(last, f, t, Some(Piece::Queen), Move::spec_new(f, t, Some(Piece::Queen))));
        }
        assert(promo_for(last, t, Some(Piece::Knight)) && promo_for(last, t, Some(Piece::Bishop)));
        assert(promo_for(last, t, Some(Piece::Rook)) && promo_for(last, t, Some(Piece::Queen)));
        assert(pos.fits(Move::spec_new(from.idx(), to.idx(), Some(Piece::Knight))));
        assert(pos.fits(Move::spec_new(from.idx(), to.idx(), Some(Piece::Bishop))));
        assert(pos.fits(Move::spec_new(from.idx(), to.idx(), Some(Piece::Rook))));
        assert(pos.fits(Move::spec_new(from.idx(), to.idx(), Some(Piece::Queen))));
        assert forall|i: int| 0 <= i < moves@.len() implies #[trigger] pos.fits(moves@[i]) by {
            if i < n {
                assert(old(moves)@[i] == moves@[i]);
            }
        }
    } else {
        let ghost s0 = moves@;
        moves.push(Move::new(from, to, None));
        proof {
            lemma_push_contains(s0, Move::spec_new(f, t, None));
            assert(pawn_move(last, f, t, None, Move::spec_new(f, t, None)));
            assert(promo_for(last, t, None));
            if s0.no_duplicates() && (forall|pr: Option<Piece>| #[trigger] promo_for(last, t, pr) ==> !s0.contains(
                Move::spec_new(f, t, pr))) {
                lemma_push_nodup(s0, Move::spec_new(f, t, None));
            }
        }
        assert(promo_for(last, t, None));
        assert(pos.fits(Move::spec_new(from.idx(), to.idx(), None)));
        assert forall|i: int| 0 <= i < moves@.len() implies #[trigger] pos.fits(moves@[i]) by {
            if i < n {
                assert(old(moves)@[i] == moves@[i]);
            }
        }
    }
}

impl Position {
    /// The squares a piece of the mover on `s` may go to without leaving its pin: the line
    /// through `s` and the mover's king when `s` is pinned, else every square.
    pub open spec fn pin_line(self, s: int) -> u64 {
        if in_bb(self.pin_bb(), s) {
            full_line(s, any_dir(s, self.king_square(self.side_to_move())))
        } else {
            0xffff_ffff_ffff_ffffu64
        }
    }

    /// A piece of the mover on `f` may go to `t` as far as its pin and `mask` allow.
    pub open spec fn allowed(self, mask: u64, f: int, t: int) -> bool {
        in_bb(self.pin_line(f), t) && in_bb(mask, t)
    }
}

/// Whether the pin of the piece on `from` and `mask` allow it to go to `to`.
fn target_allowed(pos: &Position, from: Sq, to: Sq, mask: u64) -> (r: bool)
    requires
        pos.board_ok(),
        from.valid(),
        to.valid(),
    ensures
        r == pos.allowed(mask, from.idx(), to.idx()),
{
    let x = pos.pin_ray(from) & mask;
    proof {
        lemma_test_square(x, to.0 as u64);
    }
    x & to.bb() != 0
}

impl Position {
    /// `m` is a single push of a pawn of the mover onto `t`, allowed by its pin and `mask`.
    pub open spec fn push_to(self, mask: u64, t: int, m: Move) -> bool {
        let c = self.side_to_move();
        &&& pawn_push_target(self.bb(Piece::Pawn, c), self.occ_bb(), c, t)
        &&& self.pawn_to(mask, push_origin(c, t), t, m)
    }

    /// `m` is a double push of a pawn of the mover onto `t`, allowed by its pin and `mask`.
    pub open spec fn double_to(self, mask: u64, t: int, m: Move) -> bool {
        let c = self.side_to_move();
        &&& pawn_double_target(self.bb(Piece::Pawn, c), self.occ_bb(), c, t)
        &&& self.pawn_to(mask, t - 2 * forward(c), t, m)
    }
}

/// Single pawn pushes whose target is allowed by the pawn's pin ray and `legality_mask`.
fn gen_pawn_pushes(pos: &Position, legality_mask: u64, moves: &mut MoveList)
    requires
        pos.board_ok(),
        all_fit(*pos, old(moves)@),
    ensures
        all_fit(*pos, final(moves)@),
        forall|m: Move| #[trigger] final(moves)@.contains(m) <==> (old(moves)@.contains(m) || exists|t: int|
            #[trigger] pos.push_to(legality_mask, t, m)),
        old(moves)@.no_duplicates() && (forall|m: Move| #[trigger] old(moves)@.contains(m) ==> !exists|t: int|
            #[trigger] pos.push_to(legality_mask, t, m)) ==> final(moves)@.no_duplicates(),
{
    let c = pos.stm;
    let pawns = pos.bb_get(Piece::Pawn, c);
    let occ = pos.occ();
    let pushes = pawn_pushes(pawns, occ, c);
    let offset: i32 = if c == Side::White { 8 } else { -8 };
    proof {
        assert forall|t: int| #[trigger] in_bb(pushes, t) implies 0 <= t - offset < 64 by {
            assert(pawn_push_target(pawns, occ, c, t));
        }
        assert forall|t: int, pr: Option<Piece>| #[trigger] in_bb(pushes, t) && #[trigger] promotion_ok(pr)
            implies pos.fits(Move::spec_new(t - offset, t, pr)) by {
            assert(pawn_push_target(pawns, occ, c, t));
            lemma_push_fits(*pos, t - offset, t, pr);
        }
        lemma_promo_fits(*pos, pushes, offset);
    }
    proof {
        lemma_push_targets(*pos, pushes, offset, legality_mask);
    }
    gen_pawn_side(pos, pushes, offset, legality_mask, true, moves);
}

proof fn lemma_push_targets(pos: Position, pushes: u64, offset: i32, mask: u64)
    requires
        forall|t: int| #[trigger] in_bb(pushes, t) == pawn_push_target(pos.bb(Piece::Pawn, pos.side_to_move()),
            pos.occ_bb(), pos.side_to_move(), t),
        offset == (if pos.side_to_move() == Side::White { 8i32 } else { -8i32 }),
    ensures
        forall|t: int, m: Move| #![trigger side_target(pos, pushes, offset, mask, true, t, m)]
            #![trigger pos.push_to(mask, t, m)] side_target(pos, pushes, offset, mask, true, t, m) == pos.push_to(mask, t, m),
{
}

/// Double pawn pushes whose target is allowed by the pawn's pin ray and `legality_mask`.
fn gen_double_pushes(pos: &Position, legality_mask: u64, moves: &mut MoveList)
    requires
        pos.board_ok(),
        all_fit(*pos, old(moves)@),
    ensures
        all_fit(*pos, final(moves)@),
        forall|m: Move| #[trigger] final(moves)@.contains(m) <==> (old(moves)@.contains(m) || exists|t: int|
            #[trigger] pos.double_to(legality_mask, t, m)),
        old(moves)@.no_duplicates() && (forall|m: Move| #[trigger] old(moves)@.contains(m) ==> !exists|t: int|
            #[trigger] pos.double_to(legality_mask, t, m)) ==> final(moves)@.no_duplicates(),
{
    let c = pos.stm;
    let pawns = pos.bb_get(Piece::Pawn, c);
    let occ = pos.occ();
    let pushes = pawn_double_pushes(pawns, occ, c);
    let offset: i32 = if c == Side::White { 16 } else { -16 };
    proof {
        assert forall|t: int| #[trigger] in_bb(pushes, t) implies 0 <= t - offset < 64 by {
            assert(pawn_double_target(pawns, occ, c, t));
        }
        assert forall|t: int, pr: Option<Piece>| #[trigger] in_bb(pushes, t) && #[trigger] promo_for(
            c.other().home(), t, pr) implies pos.fits(Move::spec_new(t - offset, t, pr)) by {
            assert(pawn_double_target(pawns, occ, c, t));
            lemma_double_fits(*pos, t - offset, t);
        }
    }
    proof {
        lemma_double_targets(*pos, pushes, offset, legality_mask);
    }
    gen_pawn_side(pos, pushes, offset, legality_mask, true, moves);
}

proof fn lemma_double_targets(pos: Position, pushes: u64, offset: i32, mask: u64)
    requires
        forall|t: int| #[trigger] in_bb(pushes, t) == pawn_double_target(pos.bb(Piece::Pawn, pos.side_to_move()),
            pos.occ_bb(), pos.side_to_move(), t),
        offset == (if pos.side_to_move() == Side::White { 16i32 } else { -16i32 }),
    ensures
        forall|t: int, m: Move| #![trigger side_target(pos, pushes, offset, mask, true, t, m)]
            #![trigger pos.double_to(mask, t, m)] side_target(pos, pushes, offset, mask, true, t, m) == pos.double_to(mask, t, m),
{
}

impl Position {
    /// `m` is the pawn move `f`-`t` of the mover, allowed by the pawn's pin and `mask`, with
    /// a promotion as generated.
    pub open spec fn pawn_to(self, mask: u64, f: int, t: int, m: Move) -> bool {
        &&& self.allowed(mask, f, t)
        &&& exists|pr: Option<Piece>| #[trigger] pawn_move(self.side_to_move().other().home(), f, t, pr, m)
    }
}

/// `m` is a pawn move onto the square `t` of `bb` from `offset` squares back, with a
/// promotion as generated; with `use_pins`, one that the pawn's pin and `mask` allow.
pub open spec fn side_target(pos: Position, bb: u64, offset: i32, mask: u64, use_pins: bool, t: int, m: Move) -> bool {
    &&& in_bb(bb, t)
    &&& (use_pins ==> pos.allowed(mask, t - offset, t))
    &&& exists|pr: Option<Piece>| #[trigger] pawn_move(pos.side_to_move().other().home(), t - offset, t, pr, m)
}

/// Pawn moves onto the squares of `bb`, each from `offset` squares back; with `use_pins`, only
/// those whose target is allowed by the pawn's pin ray and `legality_mask`.
pub(crate) fn gen_pawn_side(pos: &Position, bb: u64, offset: i32, legality_mask: u64, use_pins: bool, moves: &mut MoveList)
    requires
        pos.board_ok(),
        forall|t: int| #[trigger] in_bb(bb, t) ==> 0 <= t - offset < 64,
        forall|t: int, pr: Option<Piece>| #[trigger] in_bb(bb, t) && #[trigger] promo_for(
            pos.side_to_move().other().home(), t, pr) ==> pos.fits(Move::spec_new(t - offset, t, pr)),
        all_fit(*pos, old(moves)@),
    ensures
        all_fit(*pos, final(moves)@),
        forall|m: Move| #[trigger] final(moves)@.contains(m) <==> (old(moves)@.contains(m) || exists|t: int|
            #[trigger] side_target(*pos, bb, offset, legality_mask, use_pins, t, m)),
        old(moves)@.no_duplicates() && (forall|m: Move| #[trigger] old(moves)@.contains(m) ==> !exists|t: int|
            #[trigger] side_target(*pos, bb, offset, legality_mask, use_pins, t, m)) ==> final(moves)@.no_duplicates(),
{
    let ghost gen = |t: int, m: Move| side_target(*pos, bb, offset, legality_mask, use_pins, t, m);
    let ghost fresh = old(moves)@.no_duplicates() && (forall|m: Move| #[trigger] old(moves)@.contains(m) ==> !exists|t: int|
        #[trigger] side_target(*pos, bb, offset, legality_mask, use_pins, t, m));
    let promo = pos.stm.promotion_rank();
    let mut it = iter_bb(bb);
    loop
        invariant
            fresh == (old(moves)@.no_duplicates() && (forall|m: Move| #[trigger] old(moves)@.contains(m) ==> !exists|t: int|
                #[trigger] side_target(*pos, bb, offset, legality_mask, use_pins, t, m))),
            fresh ==> moves@.no_duplicates(),
            pos.board_ok(),
            promo == pos.side_to_move().other().home(),
            gen == (|t: int, m: Move| side_target(*pos, bb, offset, legality_mask, use_pins, t, m)),
            forall|t: int| #[trigger] in_bb(bb, t) ==> 0 <= t - offset < 64,
            forall|t: int, pr: Option<Piece>| #[trigger] in_bb(bb, t) && #[trigger] promo_for(
                pos.side_to_move().other().home(), t, pr) ==> pos.fits(Move::spec_new(t - offset, t, pr)),
            forall|t: int| #[trigger] in_bb(it.rest(), t) ==> in_bb(bb, t),
            all_fit(*pos, moves@),
            forall|m: Move| #[trigger] moves@.contains(m) <==> (old(moves)@.contains(m) || exists|t: int|
                #[trigger] gen(t, m) && !in_bb(it.rest(), t)),
        decreases it.rest(),
    {
        let ghost before = moves@;
        let ghost rest0 = it.rest();
        match it.next() {
            None => {
                proof {
                    lemma_visit_done(old(moves)@, moves@, it.rest(), gen);
                    assert forall|m: Move| #[trigger] moves@.contains(m) <==> (old(moves)@.contains(m) || exists|t: int|
                        #[trigger] side_target(*pos, bb, offset, legality_mask, use_pins, t, m)) by {
                        if exists|t: int| #[trigger] gen(t, m) {
                            let t = choose|t: int| #[trigger] gen(t, m);
                            assert(side_target(*pos, bb, offset, legality_mask, use_pins, t, m));
                        }
                        if exists|t: int| #[trigger] side_target(*pos, bb, offset, legality_mask, use_pins, t, m) {
                            let t = choose|t: int| #[trigger] side_target(*pos, bb, offset, legality_mask, use_pins, t, m);
                            assert(gen(t, m));
                        }
                    }
                }
                return;
            },
            Some(to) => {
                assert(in_bb(bb, to.idx()));
                let f = to.0 as i32 - offset;
                let from = Sq(f as u8);
                let ghost last = promo as int;
                if !use_pins || target_allowed(pos, from, to, legality_mask) {
                    proof {
                        assert forall|pr: Option<Piece>| promo_for(last, to.idx(), pr) implies #[trigger] pos.fits(
                            Move::spec_new(from.idx(), to.idx(), pr)) by {
                            assert(in_bb(bb, to.idx()) && promo_for(last, to.idx(), pr));
                        }
                        if fresh {
                            assert forall|pr: Option<Piece>| #[trigger] promo_for(last, to.idx(), pr) implies !before.contains(
                                Move::spec_new(from.idx(), to.idx(), pr)) by {
                                let x = Move::spec_new(from.idx(), to.idx(), pr);
                                Move::lemma_spec_new(from.idx(), to.idx(), pr);
                                assert(pawn_move(last, to.idx() - offset, to.idx(), pr, x));
                                assert(side_target(*pos, bb, offset, legality_mask, use_pins, to.idx(), x));
                                if before.contains(x) && !old(moves)@.contains(x) {
                                    let t = choose|t: int| #[trigger] gen(t, x) && !in_bb(rest0, t);
                                    let pr2 = choose|pr2: Option<Piece>| #[trigger] pawn_move(last, t - offset, t, pr2, x);
                                    Move::lemma_spec_new(t - offset, t, pr2);
                                }
                            }
                        }
                    }
                    add_pawn_move(Ghost(*pos), from, to, promo, moves);
                    proof {
                        assert forall|m: Move| #[trigger] moves@.contains(m) <==> (before.contains(m) || gen(to.idx(), m)) by {
                            assert(from.idx() == to.idx() - offset);
                        }
                        lemma_visit(old(moves)@, before, moves@, rest0, it.rest(), to.idx(), gen);
                    }
                } else {
                    proof {
                        assert forall|m: Move| #[trigger] moves@.contains(m) <==> (before.contains(m) || gen(to.idx(), m)) by {
                            assert(from.idx() == to.idx() - offset);
                        }
                        lemma_visit(old(moves)@, before, moves@, rest0, it.rest(), to.idx(), gen);
                    }
                }
            },
        }
    }
}

impl Position {
    /// `m` is a capture by a pawn of the mover onto the opponent's piece on `t`, towards the
    /// a-file (`left`) or the h-file, allowed by the pawn's pin and `mask`.
    pub open spec fn capture_to(self, mask: u64, left: bool, t: int, m: Move) -> bool {
        let c = self.side_to_move();
        let pawns = self.bb(Piece::Pawn, c);
        &&& in_bb(self.side_bb(c.other()), t)
        &&& if left {
            pawn_left_target(pawns, c, t) && self.pawn_to(mask, t - Position::left_offset(c), t, m)
        } else {
            pawn_right_target(pawns, c, t) && self.pawn_to(mask, t - Position::right_offset(c), t, m)
        }
    }
}

/// The pawn captures onto the squares of `bb`, `offset` squares from their origin, fit and are
/// the captures of `capture_to`.
proof fn lemma_capture_targets(pos: Position, bb: u64, offset: i32, mask: u64, left: bool)
    requires
        pos.board_ok(),
        left ==> forall|t: int| #[trigger] in_bb(bb, t) == (pawn_left_target(pos.bb(Piece::Pawn, pos.side_to_move()),
            pos.side_to_move(), t) && in_bb(pos.side_bb(pos.side_to_move().other()), t)),
        !left ==> forall|t: int| #[trigger] in_bb(bb, t) == (pawn_right_target(pos.bb(Piece::Pawn, pos.side_to_move()),
            pos.side_to_move(), t) && in_bb(pos.side_bb(pos.side_to_move().other()), t)),
        offset == (if left { Position::left_offset(pos.side_to_move()) } else { Position::right_offset(pos.side_to_move()) }),
    ensures
        forall|t: int| #[trigger] in_bb(bb, t) ==> 0 <= t - offset < 64,
        forall|t: int, pr: Option<Piece>| #[trigger] in_bb(bb, t) && #[trigger] promo_for(
            pos.side_to_move().other().home(), t, pr) ==> pos.fits(Move::spec_new(t - offset, t, pr)),
        forall|t: int, m: Move| #![trigger side_target(pos, bb, offset, mask, true, t, m)]
            #![trigger pos.capture_to(mask, left, t, m)] side_target(pos, bb, offset, mask, true, t, m)
            == pos.capture_to(mask, left, t, m),
{
    let c = pos.side_to_move();
    let pawns = pos.bb(Piece::Pawn, c);
    assert forall|t: int| #[trigger] in_bb(bb, t) implies 0 <= t - offset < 64 by {
        if left {
            assert(pawn_left_target(pawns, c, t));
        } else {
            assert(pawn_right_target(pawns, c, t));
        }
    }
    assert forall|t: int, pr: Option<Piece>| #[trigger] in_bb(bb, t) && #[trigger] promo_for(c.other().home(), t, pr)
        implies pos.fits(Move::spec_new(t - offset, t, pr)) by {
        assert(promotion_ok(pr));
        if left {
            assert(pawn_left_target(pawns, c, t));
        } else {
            assert(pawn_right_target(pawns, c, t));
        }
        lemma_capture_fits(pos, t - offset, t, pr);
    }
}

/// Pawn captures of opponent pieces whose target is allowed by the pawn's pin ray and
/// `legality_mask`; towards the a-file first, then towards the h-file.
fn gen_pawn_captures(pos: &Position, legality_mask: u64, moves: &mut MoveList)
    requires
        pos.board_ok(),
        all_fit(*pos, old(moves)@),
    ensures
        all_fit(*pos, final(moves)@),
        forall|m: Move| #[trigger] final(moves)@.contains(m) <==> (old(moves)@.contains(m) || (exists|t: int|
            #[trigger] pos.capture_to(legality_mask, true, t, m)) || (exists|t: int|
            #[trigger] pos.capture_to(legality_mask, false, t, m))),
        old(moves)@.no_duplicates() && (forall|m: Move| #[trigger] old(moves)@.contains(m) ==> !(exists|t: int|
            #[trigger] pos.capture_to(legality_mask, true, t, m)) && !(exists|t: int|
            #[trigger] pos.capture_to(legality_mask, false, t, m))) ==> final(moves)@.no_duplicates(),
{
    let c = pos.stm;
    let pawns = pos.bb_get(Piece::Pawn, c);
    let opp = pos.side_occ(c.opp());
    let left = pawn_captures_left(pawns, opp, c);
    let right = pawn_captures_right(pawns, opp, c);
    proof {
        lemma_capture_targets(*pos, left.0, left.1, legality_mask, true);
        lemma_capture_targets(*pos, right.0, right.1, legality_mask, false);
    }
    let ghost start = moves@;
    gen_pawn_side(pos, left.0, left.1, legality_mask, true, moves);
    let ghost mid = moves@;
    proof {
        let last = c.other().home();
        if start.no_duplicates() && (forall|m: Move| #[trigger] start.contains(m) ==> !(exists|t: int|
            #[trigger] pos.capture_to(legality_mask, true, t, m)) && !(exists|t: int|
            #[trigger] pos.capture_to(legality_mask, false, t, m))) {
            assert forall|m: Move| #[trigger] mid.contains(m) implies !exists|t: int|
                #[trigger] side_target(*pos, right.0, right.1, legality_mask, true, t, m) by {
                if exists|t: int| #[trigger] side_target(*pos, right.0, right.1, legality_mask, true, t, m) {
                    let t = choose|t: int| #[trigger] side_target(*pos, right.0, right.1, legality_mask, true, t, m);
                    let pr = choose|pr: Option<Piece>| #[trigger] pawn_move(last, t - right.1, t, pr, m);
                    Move::lemma_spec_new(t - right.1, t, pr);
                    if start.contains(m) {
                        assert(pos.capture_to(legality_mask, false, t, m));
                    } else {
                        let t2 = choose|t2: int| #[trigger] side_target(*pos, left.0, left.1, legality_mask, true, t2, m);
                        let pr2 = choose|pr2: Option<Piece>| #[trigger] pawn_move(last, t2 - left.1, t2, pr2, m);
                        Move::lemma_spec_new(t2 - left.1, t2, pr2);
                    }
                }
            }
            assert forall|m: Move| #[trigger] start.contains(m) implies !exists|t: int|
                #[trigger] side_target(*pos, left.0, left.1, legality_mask, true, t, m) by {
                if exists|t: int| #[trigger] side_target(*pos, left.0, left.1, legality_mask, true, t, m) {
                    let t = choose|t: int| #[trigger] side_target(*pos, left.0, left.1, legality_mask, true, t, m);
                    assert(pos.capture_to(legality_mask, true, t, m));
                }
            }
        }
    }
    gen_pawn_side(pos, right.0, right.1, legality_mask, true, moves);
    proof {
        assert forall|m: Move| #[trigger] moves@.contains(m) <==> (start.contains(m) || (exists|t: int|
            #[trigger] pos.capture_to(legality_mask, true, t, m)) || (exists|t: int|
            #[trigger] pos.capture_to(legality_mask, false, t, m))) by {
            assert(mid.contains(m) <==> (start.contains(m) || exists|t: int|
                #[trigger] side_target(*pos, left.0, left.1, legality_mask, true, t, m)));
            assert(moves@.contains(m) <==> (mid.contains(m) || exists|t: int|
                #[trigger] side_target(*pos, right.0, right.1, legality_mask, true, t, m)));
            if exists|t: int| #[trigger] side_target(*pos, left.0, left.1, legality_mask, true, t, m) {
                let t = choose|t: int| #[trigger] side_target(*pos, left.0, left.1, legality_mask, true, t, m);
                assert(pos.capture_to(legality_mask, true, t, m));
            }
            if exists|t: int| #[trigger] side_target(*pos, right.0, right.1, legality_mask, true, t, m) {
                let t = choose|t: int| #[trigger] side_target(*pos, right.0, right.1, legality_mask, true, t, m);
                assert(pos.capture_to(legality_mask, false, t, m));
            }
            if exists|t: int| #[trigger] pos.capture_to(legality_mask, true, t, m) {
                let t = choose|t: int| #[trigger] pos.capture_to(legality_mask, true, t, m);
                assert(side_target(*pos, left.0, left.1, legality_mask, true, t, m));
            }
            if exists|t: int| #[trigger] pos.capture_to(legality_mask, false, t, m) {
                let t = choose|t: int| #[trigger] pos.capture_to(legality_mask, false, t, m);
                assert(side_target(*pos, right.0, right.1, legality_mask, true, t, m));
            }
        }
    }
}

/// After the en-passant capture `from`x`to` taking the pawn on `cap`, no opponent slider
/// attacks the mover's king.
#[verifier::opaque]
pub open spec fn ep_clear(pos: Position, cap: int, from: int, to: int) -> bool {
    pos.ep_safe(cap, from, to)
}

impl Position {
    /// `m` is an en-passant capture by a pawn of the mover, towards the a-file (`left`) or the
    /// h-file, that does not expose the mover's king to a slider.
    pub open spec fn ep_capture(self, left: bool, m: Move) -> bool {
        match self.ep_square() {
            Some(e) => {
                let c = self.side_to_move();
                let pawns = self.bb(Piece::Pawn, c);
                let cap = (e.0 ^ 8u8) as int;
                let off = if left { Position::left_offset(c) } else { Position::right_offset(c) };
                &&& if left { pawn_left_target(pawns, c, e.idx()) } else { pawn_right_target(pawns, c, e.idx()) }
                &&& ep_clear(self, cap, e.idx() - off, e.idx())
                &&& m == Move::spec_new(e.idx() - off, e.idx(), None)
            },
            None => false,
        }
    }
}

impl Position {
    /// An en-passant capture can answer the target mask: its square, or that of the pawn it
    /// takes, is on the mask.
    pub open spec fn ep_open(self, mask: u64) -> bool {
        match self.ep_square() {
            Some(e) => in_bb(mask, e.idx()) || in_bb(mask, xor8(e.idx())),
            None => false,
        }
    }
}

/// Whether the en-passant square or the square of the pawn an en-passant capture takes is on
/// `mask`.
fn ep_on_mask(pos: &Position, mask: u64) -> (r: bool)
    requires
        pos.ep_ok(),
    ensures
        r == pos.ep_open(mask),
{
    match pos.ep {
        Some(e) => {
            let x = e.0;
            assert(x ^ 8u8 < 64) by (bit_vector)
                requires
                    x < 64,
            ;
            let cap = Sq(e.0 ^ 8);
            proof {
                lemma_test_square(mask, e.0 as u64);
                lemma_test_square(mask, cap.0 as u64);
            }
            mask & e.bb() != 0 || mask & cap.bb() != 0
        },
        None => false,
    }
}

/// En-passant captures that do not expose the mover's king to a slider.
fn gen_ep(pos: &Position, moves: &mut MoveList)
    requires
        pos.board_ok(),
        pos.ep_ok(),
        all_fit(*pos, old(moves)@),
    ensures
        all_fit(*pos, final(moves)@),
        forall|m: Move| #[trigger] final(moves)@.contains(m) <==> (old(moves)@.contains(m) || pos.ep_capture(true, m)
            || pos.ep_capture(false, m)),
        old(moves)@.no_duplicates() && (forall|m: Move| #[trigger] old(moves)@.contains(m) ==> !pos.ep_capture(true, m)
            && !pos.ep_capture(false, m)) ==> final(moves)@.no_duplicates(),
{
    let ghost fresh = old(moves)@.no_duplicates() && (forall|m: Move| #[trigger] old(moves)@.contains(m)
        ==> !pos.ep_capture(true, m) && !pos.ep_capture(false, m));
    if let Some(ep_sq) = pos.ep {
        let c = pos.stm;
        let pawns = pos.bb_get(Piece::Pawn, c);
        let ep_mask = ep_sq.bb();
        let left_ep = pawn_captures_left(pawns, ep_mask, c);
        let right_ep = pawn_captures_right(pawns, ep_mask, c);
        let x = ep_sq.0;
        assert(x ^ 8u8 < 64) by (bit_vector)
            requires
                x < 64,
        ;
        let cap_sq = Sq(ep_sq.0 ^ 8);
        let ghost e = ep_sq.idx();
        let ghost before = moves@;
        proof {
            assert(in_bb(left_ep.0, e) == pawn_left_target(pawns, c, e));
            assert(in_bb(right_ep.0, e) == pawn_right_target(pawns, c, e));
            if left_ep.0 == 0 {
                assert(!in_bb(left_ep.0, e));
            }
            if right_ep.0 == 0 {
                assert(!in_bb(right_ep.0, e));
            }
        }
        if left_ep.0 != 0 {
            proof { lemma_nonzero_has(left_ep.0); }
            let from = Sq((ep_sq.0 as i32 - left_ep.1) as u8);
            let safe = pos.ep_legal(cap_sq, from, ep_sq);
            proof {
                assert(safe == ep_clear(*pos, cap_sq.idx(), from.idx(), e)) by {
                    reveal(ep_clear);
                }
            }
            if safe {
                proof { lemma_ep_fits(*pos, from.idx(), ep_sq.idx(), None); }
                proof {
                    if fresh {
                        assert(pos.ep_capture(true, Move::spec_new(from.idx(), e, None)));
                        lemma_push_nodup(before, Move::spec_new(from.idx(), e, None));
                    }
                }
                moves.push(Move::new(from, ep_sq, None));
                proof { lemma_push_contains(before, Move::spec_new(from.idx(), e, None)); }
                assert forall|i: int| 0 <= i < moves@.len() implies #[trigger] pos.fits(moves@[i]) by {
                    if i < before.len() {
                        assert(before[i] == moves@[i]);
                    }
                }
            }
        }
        let ghost mid = moves@;
        if right_ep.0 != 0 {
            proof { lemma_nonzero_has(right_ep.0); }
            let from = Sq((ep_sq.0 as i32 - right_ep.1) as u8);
            let safe = pos.ep_legal(cap_sq, from, ep_sq);
            proof {
                assert(safe == ep_clear(*pos, cap_sq.idx(), from.idx(), e)) by {
                    reveal(ep_clear);
                }
            }
            if safe {
                proof { lemma_ep_fits(*pos, from.idx(), ep_sq.idx(), None); }
                proof {
                    if fresh {
                        let x = Move::spec_new(from.idx(), e, None);
                        assert(pos.ep_capture(false, x));
                        if mid.contains(x) && !before.contains(x) {
                            Move::lemma_spec_new(from.idx(), e, None);
                            Move::lemma_spec_new(e - Position::left_offset(c), e, None);
                        }
                        lemma_push_nodup(mid, x);
                    }
                }
                moves.push(Move::new(from, ep_sq, None));
                proof { lemma_push_contains(mid, Move::spec_new(from.idx(), e, None)); }
                assert forall|i: int| 0 <= i < moves@.len() implies #[trigger] pos.fits(moves@[i]) by {
                    if i < mid.len() {
                        assert(mid[i] == moves@[i]);
                    }
                }
            }
        }
    }
}

impl Position {
    /// `m` is the move `f`-`t` of a piece of kind `p` of the mover onto a square it attacks
    /// that its side does not hold, allowed by its pin and `mask`.
    pub open spec fn piece_to(self, mask: u64, p: Piece, f: int, t: int, m: Move) -> bool {
        let c = self.side_to_move();
        &&& in_bb(self.bb(p, c), f)
        &&& piece_target(p, f, self.occ_bb(), t)
        &&& !in_bb(self.side_bb(c), t)
        &&& self.allowed(mask, f, t)
        &&& m == Move::spec_new(f, t, None)
    }

    /// `m` is a move of the piece of kind `p` on `f`, as `piece_to` has it.
    pub open spec fn piece_from(self, mask: u64, p: Piece, f: int, m: Move) -> bool {
        exists|t: int| #[trigger] self.piece_to(mask, p, f, t, m)
    }
}

/// Moves of the knights, bishops, rooks or queens of the side to move whose target is allowed
/// by the piece's pin ray and `legality_mask`.
fn gen_piece_moves(pos: &Position, p: Piece, legality_mask: u64, moves: &mut MoveList)
    requires
        pos.board_ok(),
        p == Piece::Knight || p == Piece::Bishop || p == Piece::Rook || p == Piece::Queen,
        all_fit(*pos, old(moves)@),
    ensures
        all_fit(*pos, final(moves)@),
        forall|m: Move| #[trigger] final(moves)@.contains(m) <==> (old(moves)@.contains(m) || exists|f: int|
            #[trigger] pos.piece_from(legality_mask, p, f, m)),
        old(moves)@.no_duplicates() && (forall|m: Move| #[trigger] old(moves)@.contains(m) ==> !exists|f: int|
            #[trigger] pos.piece_from(legality_mask, p, f, m)) ==> final(moves)@.no_duplicates(),
{
    let ghost gen = |f: int, m: Move| pos.piece_from(legality_mask, p, f, m);
    let ghost fresh = old(moves)@.no_duplicates() && (forall|m: Move| #[trigger] old(moves)@.contains(m) ==> !exists|f: int|
        #[trigger] pos.piece_from(legality_mask, p, f, m));
    let c = pos.stm;
    let occ = pos.occ();
    let allies = pos.side_occ(c);
    let pieces = pos.bb_get(p, c);
    let mut it = iter_bb(pieces);
    loop
        invariant
            pos.board_ok(),
            p == Piece::Knight || p == Piece::Bishop || p == Piece::Rook || p == Piece::Queen,
            c == pos.side_to_move(),
            allies == pos.side_bb(c),
            occ == pos.occ_bb(),
            pieces == pos.bb(p, c),
            gen == (|f: int, m: Move| pos.piece_from(legality_mask, p, f, m)),
            fresh == (old(moves)@.no_duplicates() && (forall|m: Move| #[trigger] old(moves)@.contains(m) ==> !exists|f: int|
                #[trigger] pos.piece_from(legality_mask, p, f, m))),
            fresh ==> moves@.no_duplicates(),
            forall|t: int| #[trigger] in_bb(it.rest(), t) ==> in_bb(pieces, t),
            all_fit(*pos, moves@),
            forall|m: Move| #[trigger] moves@.contains(m) <==> (old(moves)@.contains(m) || exists|f: int|
                #[trigger] gen(f, m) && !in_bb(it.rest(), f)),
        decreases it.rest(),
    {
        let ghost before = moves@;
        let ghost rest0 = it.rest();
        match it.next() {
            None => {
                proof {
                    lemma_visit_done(old(moves)@, moves@, it.rest(), gen);
                    assert forall|m: Move| #[trigger] moves@.contains(m) <==> (old(moves)@.contains(m) || exists|f: int|
                        #[trigger] pos.piece_from(legality_mask, p, f, m)) by {
                        if exists|f: int| #[trigger] gen(f, m) {
                            let f = choose|f: int| #[trigger] gen(f, m);
                            assert(pos.piece_from(legality_mask, p, f, m));
                        }
                        if exists|f: int| #[trigger] pos.piece_from(legality_mask, p, f, m) {
                            let f = choose|f: int| #[trigger] pos.piece_from(legality_mask, p, f, m);
                            assert(gen(f, m));
                        }
                    }
                }
                return;
            },
            Some(from) => {
                let mv_bb = match p {
                    Piece::Knight => knight_moves(from, allies),
                    Piece::Bishop => bishop_moves(from, occ, allies),
                    Piece::Rook => rook_moves(from, occ, allies),
                    _ => queen_moves(from, occ, allies),
                };
                let targets = mv_bb & pos.pin_ray(from) & legality_mask;
                proof {
                    assert(in_bb(pieces, from.idx()));
                    assert forall|t: int| #[trigger] in_bb(targets, t) == (piece_target(p, from.idx(), occ, t)
                        && !in_bb(allies, t) && pos.allowed(legality_mask, from.idx(), t)) by {
                        assert(in_bb(mv_bb, t) == (piece_target(p, from.idx(), occ, t) && !in_bb(allies, t)));
                    }
                    assert forall|t: int| #[trigger] in_bb(targets, t) implies pos.fits(Move::spec_new(from.idx(), t, None)) by {
                        assert(in_bb(mv_bb, t));
                        lemma_piece_fits(*pos, p, from.idx(), t);
                    }
                    if fresh {
                        assert forall|t: int| #[trigger] in_bb(targets, t) implies !before.contains(
                            Move::spec_new(from.idx(), t, None)) by {
                            let x = Move::spec_new(from.idx(), t, None);
                            Move::lemma_spec_new(from.idx(), t, None);
                            assert(pos.piece_to(legality_mask, p, from.idx(), t, x));
                            assert(pos.piece_from(legality_mask, p, from.idx(), x));
                            assert(in_bb(rest0, from.idx()));
                            if before.contains(x) && !old(moves)@.contains(x) {
                                let f2 = choose|f2: int| #[trigger] gen(f2, x) && !in_bb(rest0, f2);
                                let t2 = choose|t2: int| #[trigger] pos.piece_to(legality_mask, p, f2, t2, x);
                                Move::lemma_spec_new(f2, t2, None);
                            }
                        }
                    }
                }
                push_targets(Ghost(*pos), from, targets, moves);
                proof {
                    assert forall|m: Move| #[trigger] moves@.contains(m) <==> (before.contains(m) || gen(from.idx(), m)) by {
                        if exists|t: int| #[trigger] in_bb(targets, t) && m == Move::spec_new(from.idx(), t, None) {
                            let t = choose|t: int| #[trigger] in_bb(targets, t) && m == Move::spec_new(from.idx(), t, None);
                            assert(pos.piece_to(legality_mask, p, from.idx(), t, m));
                        }
                        if gen(from.idx(), m) {
                            let t = choose|t: int| #[trigger] pos.piece_to(legality_mask, p, from.idx(), t, m);
                            assert(in_bb(targets, t) && m == Move::spec_new(from.idx(), t, None));
                        }
                    }
                    lemma_visit(old(moves)@, before, moves@, rest0, it.rest(), from.idx(), gen);
                }
            },
        }
    }
}

/// The king's steps onto squares that are neither its own side's nor attacked.
fn gen_king_steps(pos: &Position, moves: &mut MoveList)
    requires
        pos.board_ok(),
        all_fit(*pos, old(moves)@),
    ensures
        all_fit(*pos, final(moves)@),
        forall|mv: Move| #[trigger] final(moves)@.contains(mv) <==> (old(moves)@.contains(mv) || exists|t: int|
            #[trigger] pos.king_evasion(t) && mv == Move::spec_new(pos.king_square(pos.side_to_move()), t, None)),
        old(moves)@.no_duplicates() && (forall|mv: Move| #[trigger] old(moves)@.contains(mv) ==> !exists|t: int|
            #[trigger] pos.king_evasion(t) && mv == Move::spec_new(pos.king_square(pos.side_to_move()), t, None))
            ==> final(moves)@.no_duplicates(),
{
    let c = pos.stm;
    let king = pos.king_sq(c);
    let allies = pos.side_occ(c);
    let targets = king_moves(king, allies) & !pos.threats;
    proof {
        pos.lemma_kings();
        assert forall|t: int| #[trigger] in_bb(targets, t) implies pos.fits(Move::spec_new(king.idx(), t, None)) by {
            lemma_piece_fits(*pos, Piece::King, king.idx(), t);
        }
        assert forall|t: int| #[trigger] in_bb(targets, t) == pos.king_evasion(t) by {}
        assert forall|t: int| #[trigger] in_bb(targets, t) && old(moves)@.contains(Move::spec_new(king.idx(), t, None))
            implies exists|u: int| #[trigger] pos.king_evasion(u) && Move::spec_new(king.idx(), t, None) == Move::spec_new(
            pos.king_square(pos.side_to_move()), u, None) by {
            assert(pos.king_evasion(t));
        }
    }
    push_targets(Ghost(*pos), king, targets, moves);
    proof {
        let k = pos.king_square(pos.side_to_move());
        assert forall|mv: Move| #[trigger] moves@.contains(mv) <==> (old(moves)@.contains(mv) || exists|t: int|
            #[trigger] pos.king_evasion(t) && mv == Move::spec_new(k, t, None)) by {
            if exists|t: int| #[trigger] in_bb(targets, t) && mv == Move::spec_new(king.idx(), t, None) {
                let t = choose|t: int| #[trigger] in_bb(targets, t) && mv == Move::spec_new(king.idx(), t, None);
                assert(pos.king_evasion(t) && mv == Move::spec_new(k, t, None));
            }
            if exists|t: int| #[trigger] pos.king_evasion(t) && mv == Move::spec_new(k, t, None) {
                let t = choose|t: int| #[trigger] pos.king_evasion(t) && mv == Move::spec_new(k, t, None);
                assert(in_bb(targets, t) && mv == Move::spec_new(king.idx(), t, None));
            }
        }
    }
}

impl Position {
    /// The mover's king may step to `t`: one square away, not held by its side, not attacked.
    pub open spec fn king_evasion(self, t: int) -> bool {
        let c = self.side_to_move();
        &&& king_step(self.king_square(c), t)
        &&& !in_bb(self.side_bb(c), t)
        &&& !in_bb(self.threat_bb(), t)
    }
}

impl Position {
    /// `m` is castling of the mover on the king side (`king_side`) or the queen side: the
    /// right is held, the squares between king and rook are empty, and the squares the king
    /// crosses are not attacked.
    pub open spec fn castle_to(self, king_side: bool, m: Move) -> bool {
        let c = self.side_to_move();
        let h = c.home();
        let k = self.king_square(c);
        let occ = self.occ_bb();
        let thr = self.threat_bb();
        if king_side {
            &&& self.rights() & c.k_flag() != 0
            &&& !in_bb(occ, h * 8 + 5) && !in_bb(occ, h * 8 + 6)
            &&& !in_bb(thr, h * 8 + 5) && !in_bb(thr, h * 8 + 6)
            &&& m == Move::spec_new(k, rank_of(k) * 8 + 6, None)
        } else {
            &&& self.rights() & c.q_flag() != 0
            &&& !in_bb(occ, h * 8 + 1) && !in_bb(occ, h * 8 + 2) && !in_bb(occ, h * 8 + 3)
            &&& !in_bb(thr, h * 8 + 2) && !in_bb(thr, h * 8 + 3)
            &&& m == Move::spec_new(k, rank_of(k) * 8 + 2, None)
        }
    }
}

/// A bitboard is zero exactly when it holds no square.
pub(crate) proof fn lemma_zero_iff(x: u64)
    ensures
        (x == 0) <==> forall|i: int| 0 <= i < 64 ==> !#[trigger] in_bb(x, i),
{
    if forall|i: int| 0 <= i < 64 ==> !#[trigger] in_bb(x, i) {
        lemma_empty_is_zero(x);
    }
}

/// Castling moves: the right is held, the squares between king and rook are empty, and the
/// squares the king crosses are not attacked.
fn gen_castles(pos: &Position, moves: &mut MoveList)
    requires
        pos.board_ok(),
        pos.castle_ok(),
        all_fit(*pos, old(moves)@),
    ensures
        all_fit(*pos, final(moves)@),
        forall|m: Move| #[trigger] final(moves)@.contains(m) <==> (old(moves)@.contains(m) || pos.castle_to(true, m)
            || pos.castle_to(false, m)),
        old(moves)@.no_duplicates() && (forall|m: Move| #[trigger] old(moves)@.contains(m) ==> !pos.castle_to(true, m)
            && !pos.castle_to(false, m)) ==> final(moves)@.no_duplicates(),
{
    let ghost fresh = old(moves)@.no_duplicates() && (forall|m: Move| #[trigger] old(moves)@.contains(m)
        ==> !pos.castle_to(true, m) && !pos.castle_to(false, m));
    let c = pos.stm;
    let king_sq = pos.king_sq(c);
    let occ = pos.occ();
    let home = mask_rank(c.home_rank());
    let king_path = (mask_file(5) | mask_file(6)) & home;
    let queen_path = (mask_file(2) | mask_file(3)) & home;
    let queen_empty = (mask_file(1) | mask_file(2) | mask_file(3)) & home;
    let ghost h = c.home();
    let ghost thr = pos.threat_bb();
    proof {
        lemma_zero_iff(occ & king_path);
        lemma_zero_iff(king_path & pos.threats);
        lemma_zero_iff(occ & queen_empty);
        lemma_zero_iff(queen_path & pos.threats);
        assert(forall|i: int| #[trigger] in_bb(king_path, i) == (i == h * 8 + 5 || i == h * 8 + 6));
        assert(forall|i: int| #[trigger] in_bb(queen_path, i) == (i == h * 8 + 2 || i == h * 8 + 3));
        assert(forall|i: int| #[trigger] in_bb(queen_empty, i) == (i == h * 8 + 1 || i == h * 8 + 2 || i == h * 8 + 3));
        assert((occ & king_path == 0) == (!in_bb(occ, h * 8 + 5) && !in_bb(occ, h * 8 + 6))) by {
            assert(in_bb(occ & king_path, h * 8 + 5) == in_bb(occ, h * 8 + 5));
            assert(in_bb(occ & king_path, h * 8 + 6) == in_bb(occ, h * 8 + 6));
        }
        assert((king_path & pos.threats == 0) == (!in_bb(thr, h * 8 + 5) && !in_bb(thr, h * 8 + 6))) by {
            assert(in_bb(king_path & pos.threats, h * 8 + 5) == in_bb(thr, h * 8 + 5));
            assert(in_bb(king_path & pos.threats, h * 8 + 6) == in_bb(thr, h * 8 + 6));
        }
        assert((occ & queen_empty == 0) == (!in_bb(occ, h * 8 + 1) && !in_bb(occ, h * 8 + 2) && !in_bb(occ, h * 8 + 3))) by {
            assert(in_bb(occ & queen_empty, h * 8 + 1) == in_bb(occ, h * 8 + 1));
            assert(in_bb(occ & queen_empty, h * 8 + 2) == in_bb(occ, h * 8 + 2));
            assert(in_bb(occ & queen_empty, h * 8 + 3) == in_bb(occ, h * 8 + 3));
        }
        assert((queen_path & pos.threats == 0) == (!in_bb(thr, h * 8 + 2) && !in_bb(thr, h * 8 + 3))) by {
            assert(in_bb(queen_path & pos.threats, h * 8 + 2) == in_bb(thr, h * 8 + 2));
            assert(in_bb(queen_path & pos.threats, h * 8 + 3) == in_bb(thr, h * 8 + 3));
        }
    }
    let ghost before = moves@;
    if pos.has_king_castle_rights(c) && occ & king_path == 0 && king_path & pos.threats == 0 {
        proof {
            assert(in_bb(king_path, h * 8 + 5));
            assert(in_bb(king_path, h * 8 + 6));
            assert(!in_bb(occ & king_path, h * 8 + 5));
            assert(!in_bb(occ & king_path, h * 8 + 6));
            lemma_castle_fits(*pos, true);
        }
        let to = Sq::from_coords(king_sq.rank(), 6);
        proof {
            if fresh {
                assert(pos.castle_to(true, Move::spec_new(king_sq.idx(), to.idx(), None)));
                lemma_push_nodup(before, Move::spec_new(king_sq.idx(), to.idx(), None));
            }
        }
        moves.push(Move::new(king_sq, to, None));
        proof { lemma_push_contains(before, Move::spec_new(king_sq.idx(), to.idx(), None)); }
        assert forall|i: int| 0 <= i < moves@.len() implies #[trigger] pos.fits(moves@[i]) by {
            if i < before.len() {
                assert(before[i] == moves@[i]);
            }
        }
    }
    let ghost mid = moves@;
    if pos.has_queen_castle_rights(c) && occ & queen_empty == 0 && queen_path & pos.threats == 0 {
        proof {
            assert(in_bb(queen_empty, h * 8 + 2));
            assert(in_bb(queen_empty, h * 8 + 3));
            assert(!in_bb(occ & queen_empty, h * 8 + 2));
            assert(!in_bb(occ & queen_empty, h * 8 + 3));
            lemma_castle_fits(*pos, false);
        }
        let to = Sq::from_coords(king_sq.rank(), 2);
        proof {
            if fresh {
                let x = Move::spec_new(king_sq.idx(), to.idx(), None);
                assert(pos.castle_to(false, x));
                if mid.contains(x) && !before.contains(x) {
                    Move::lemma_spec_new(king_sq.idx(), to.idx(), None);
                    Move::lemma_spec_new(king_sq.idx(), king_sq.idx() / 8 * 8 + 6, None);
                }
                lemma_push_nodup(mid, x);
            }
        }
        moves.push(Move::new(king_sq, to, None));
        proof { lemma_push_contains(mid, Move::spec_new(king_sq.idx(), to.idx(), None)); }
        assert forall|i: int| 0 <= i < moves@.len() implies #[trigger] pos.fits(moves@[i]) by {
            if i < mid.len() {
                assert(mid[i] == moves@[i]);
            }
        }
    }
}

/// Under double check only the king can move.
pub fn gen_evasions(pos: &Position) -> (r: MoveList)
    requires
        pos.wf(),
    ensures
        all_fit(*pos, r@),
        forall|mv: Move| #[trigger] r@.contains(mv) <==> pos.king_move(mv),
        r@.no_duplicates(),
{
    let mut moves = MoveList::new();
    gen_king_steps(pos, &mut moves);
    moves
}

impl Position {
    /// The squares a move of a piece other than the king must reach: every square when the
    /// mover is not in check, else the square of the single checker `s` and the squares of
    /// the line between it and the king.
    pub open spec fn check_mask(self, checker: Option<Sq>) -> u64 {
        match checker {
            Some(s) => {
                let k = self.king_square(self.side_to_move());
                (1u64 << (s.0 as u64)) | segment(k, s.idx(), diagonal_dir(k, s.idx())) | segment(k, s.idx(), straight_dir(
                    k,
                    s.idx(),
                ))
            },
            None => 0xffff_ffff_ffff_ffffu64,
        }
    }

    /// `m` is a step of the mover's king onto a square that is neither its side's nor attacked.
    pub open spec fn king_move(self, m: Move) -> bool {
        exists|t: int| #[trigger] self.king_evasion(t) && m == Move::spec_new(self.king_square(self.side_to_move()), t, None)
    }

    /// `m` is one of the moves the standard generator makes with the target mask `mask`,
    /// castling included when `castling`: pawn pushes, double pushes, en-passant captures,
    /// pawn captures, knight, bishop, rook and queen moves, king steps and castling.
    pub open spec fn standard_move(self, mask: u64, castling: bool, m: Move) -> bool {
        ||| (exists|t: int| #[trigger] self.push_to(mask, t, m))
        ||| (exists|t: int| #[trigger] self.double_to(mask, t, m))
        ||| self.ep_open(mask) && self.ep_capture(true, m)
        ||| self.ep_open(mask) && self.ep_capture(false, m)
        ||| (exists|t: int| #[trigger] self.capture_to(mask, true, t, m))
        ||| (exists|t: int| #[trigger] self.capture_to(mask, false, t, m))
        ||| (exists|f: int| #[trigger] self.piece_from(mask, Piece::Knight, f, m))
        ||| (exists|f: int| #[trigger] self.piece_from(mask, Piece::Bishop, f, m))
        ||| (exists|f: int| #[trigger] self.piece_from(mask, Piece::Rook, f, m))
        ||| (exists|f: int| #[trigger] self.piece_from(mask, Piece::Queen, f, m))
        ||| self.king_move(m)
        ||| castling && (self.castle_to(true, m) || self.castle_to(false, m))
    }
}

/// The moves of the side to move, not in check or in check by the single piece `checker`:
/// pawn pushes, double pushes, en-passant captures, pawn captures, knight, bishop, rook and
/// queen moves kept on their pin rays and, in check, on the checking line; king steps to
/// unattacked squares; and castling when not in check.
pub fn gen_standard(pos: &Position, checker: Option<Sq>) -> (r: MoveList)
    requires
        pos.wf(),
        checker matches Some(s) ==> s.valid(),
    ensures
        all_fit(*pos, r@),
        forall|m: Move| #[trigger] r@.contains(m) <==> pos.standard_move(pos.check_mask(checker), checker is None, m),
        r@.no_duplicates(),
{
    let mut moves = MoveList::new();
    let king_sq = pos.king_sq(pos.stm);
    let legality_mask = match checker {
        Some(sq) => sq.bb() | line_between_diagonal(king_sq, sq).0 | line_between_straight(king_sq, sq).0,
        None => u64::MAX,
    };
    assert(legality_mask == pos.check_mask(checker));
    let ghost s0 = moves@;
    gen_pawn_pushes(pos, legality_mask, &mut moves);
    let ghost s1 = moves@;
    gen_double_pushes(pos, legality_mask, &mut moves);
    let ghost s2 = moves@;
    if ep_on_mask(pos, legality_mask) {
        gen_ep(pos, &mut moves);
    }
    let ghost s3 = moves@;
    gen_pawn_captures(pos, legality_mask, &mut moves);
    let ghost s4 = moves@;
    gen_piece_moves(pos, Piece::Knight, legality_mask, &mut moves);
    let ghost s5 = moves@;
    gen_piece_moves(pos, Piece::Bishop, legality_mask, &mut moves);
    let ghost s6 = moves@;
    gen_piece_moves(pos, Piece::Rook, legality_mask, &mut moves);
    let ghost s7 = moves@;
    gen_piece_moves(pos, Piece::Queen, legality_mask, &mut moves);
    let ghost s8 = moves@;
    gen_king_steps(pos, &mut moves);
    let ghost s9 = moves@;
    proof {
        assert(s0.no_duplicates());
        assert forall|m: Move| #[trigger] s1.contains(m) implies pos.move_group(m) < 1 && !(exists|t: int| #[trigger] pos.double_to(legality_mask, t, m)) by {
            lemma_pawn_groups(*pos, legality_mask, m);
            lemma_piece_groups(*pos, legality_mask, m);
        }
        assert forall|m: Move| #[trigger] s2.contains(m) implies pos.move_group(m) < 2 && !(pos.ep_open(legality_mask) && (pos.ep_capture(true, m) || pos.ep_capture(false, m))) by {
            lemma_pawn_groups(*pos, legality_mask, m);
            lemma_piece_groups(*pos, legality_mask, m);
        }
        assert forall|m: Move| #[trigger] s3.contains(m) implies pos.move_group(m) < 3 && !((exists|t: int| #[trigger] pos.capture_to(legality_mask, true, t, m)) || (exists|t: int| #[trigger] pos.capture_to(legality_mask, false, t, m))) by {
            lemma_pawn_groups(*pos, legality_mask, m);
            lemma_piece_groups(*pos, legality_mask, m);
        }
        assert forall|m: Move| #[trigger] s4.contains(m) implies pos.move_group(m) < 5 && !(exists|f: int| #[trigger] pos.piece_from(legality_mask, Piece::Knight, f, m)) by {
            lemma_pawn_groups(*pos, legality_mask, m);
            lemma_piece_groups(*pos, legality_mask, m);
        }
        assert forall|m: Move| #[trigger] s5.contains(m) implies pos.move_group(m) < 6 && !(exists|f: int| #[trigger] pos.piece_from(legality_mask, Piece::Bishop, f, m)) by {
            lemma_pawn_groups(*pos, legality_mask, m);
            lemma_piece_groups(*pos, legality_mask, m);
        }
        assert forall|m: Move| #[trigger] s6.contains(m) implies pos.move_group(m) < 7 && !(exists|f: int| #[trigger] pos.piece_from(legality_mask, Piece::Rook, f, m)) by {
            lemma_pawn_groups(*pos, legality_mask, m);
            lemma_piece_groups(*pos, legality_mask, m);
        }
        assert forall|m: Move| #[trigger] s7.contains(m) implies pos.move_group(m) < 8 && !(exists|f: int| #[trigger] pos.piece_from(legality_mask, Piece::Queen, f, m)) by {
            lemma_pawn_groups(*pos, legality_mask, m);
            lemma_piece_groups(*pos, legality_mask, m);
        }
        assert forall|m: Move| #[trigger] s8.contains(m) implies pos.move_group(m) < 9 && !pos.king_move(m) by {
            lemma_pawn_groups(*pos, legality_mask, m);
            lemma_piece_groups(*pos, legality_mask, m);
        }
        assert forall|m: Move| #[trigger] s9.contains(m) implies pos.move_group(m) < 10 && !(pos.castle_to(true, m) || pos.castle_to(false, m)) by {
            lemma_pawn_groups(*pos, legality_mask, m);
            lemma_piece_groups(*pos, legality_mask, m);
        }
    }
    if checker.is_none() {
        gen_castles(pos, &mut moves);
    }
    proof {
        let k = pos.king_square(pos.side_to_move());
        assert forall|m: Move| #[trigger] moves@.contains(m) <==> pos.standard_move(legality_mask, checker is None, m) by {
            assert(!s0.contains(m));
            assert(s1.contains(m) <==> (s0.contains(m) || exists|t: int| #[trigger] pos.push_to(legality_mask, t, m)));
            assert(s2.contains(m) <==> (s1.contains(m) || exists|t: int| #[trigger] pos.double_to(legality_mask, t, m)));
            assert(s3.contains(m) <==> (s2.contains(m) || pos.ep_open(legality_mask) && (pos.ep_capture(true, m) || pos.ep_capture(false, m))));
            assert(s4.contains(m) <==> (s3.contains(m) || (exists|t: int| #[trigger] pos.capture_to(legality_mask, true, t, m))
                || (exists|t: int| #[trigger] pos.capture_to(legality_mask, false, t, m))));
            assert(s5.contains(m) <==> (s4.contains(m) || exists|f: int| #[trigger] pos.piece_from(legality_mask, Piece::Knight, f, m)));
            assert(s6.contains(m) <==> (s5.contains(m) || exists|f: int| #[trigger] pos.piece_from(legality_mask, Piece::Bishop, f, m)));
            assert(s7.contains(m) <==> (s6.contains(m) || exists|f: int| #[trigger] pos.piece_from(legality_mask, Piece::Rook, f, m)));
            assert(s8.contains(m) <==> (s7.contains(m) || exists|f: int| #[trigger] pos.piece_from(legality_mask, Piece::Queen, f, m)));
            assert(s9.contains(m) <==> (s8.contains(m) || pos.king_move(m)));
            if checker is None {
                assert(moves@.contains(m) <==> (s9.contains(m) || pos.castle_to(true, m) || pos.castle_to(false, m)));
            } else {
                assert(moves@ == s9);
            }
        }
    }
    moves
}

impl Position {
    /// `m` is among the moves listed for the position: under double check the king's steps,
    /// under single check the standard moves that reach the checker or the line to it, else
    /// all standard moves with castling.
    pub open spec fn listed_move(self, m: Move) -> bool {
        let n = crate::bits::popcount(self.checker_bb());
        if n == 0 {
            self.standard_move(0xffff_ffff_ffff_ffffu64, true, m)
        } else if n == 1 {
            self.standard_move(self.check_mask(Some(Sq(u64_trailing_zeros(self.checker_bb()) as u8))), false, m)
        } else {
            self.king_move(m)
        }
    }
}

impl Position {
    /// Which part of the standard generator makes a move of the mover, told by the piece it
    /// moves, how far, and onto what: 0 single pushes, 1 double pushes, 2 en-passant captures,
    /// 3 and 4 pawn captures towards the a-file and the h-file, 5 to 8 knight, bishop, rook
    /// and queen moves, 9 king steps, 10 castling.
    pub open spec fn move_group(self, m: Move) -> int {
        let c = self.side_to_move();
        let f = m.from_sq();
        let t = m.to_sq();
        match self.moved(m) {
            Piece::Pawn => if t - f == forward(c) {
                0
            } else if t - f == 2 * forward(c) {
                1
            } else if self.square(t) is None {
                2
            } else if t - f == Position::left_offset(c) {
                3
            } else {
                4
            },
            Piece::Knight => 5,
            Piece::Bishop => 6,
            Piece::Rook => 7,
            Piece::Queen => 8,
            Piece::King => if king_step(f, t) { 9 } else { 10 },
        }
    }
}

/// A move from a square of the mover's pieces of kind `p` moves that kind.
pub(crate) proof fn lemma_mover_kind(pos: Position, p: Piece, f: int, t: int, pr: Option<Piece>, m: Move)
    requires
        pos.board_ok(),
        in_bb(pos.bb(p, pos.side_to_move()), f),
        0 <= t < 64,
        promotion_ok(pr),
        m == Move::spec_new(f, t, pr),
    ensures
        pos.moved(m) == p,
        m.from_sq() == f,
        m.to_sq() == t,
{
    pos.lemma_occupant_of(p, pos.side_to_move(), f);
    Move::lemma_spec_new(f, t, pr);
}

/// The pawn moves of the standard generator fall in its groups 0 to 4.
proof fn lemma_pawn_groups(pos: Position, mask: u64, m: Move)
    requires
        pos.wf(),
    ensures
        (exists|t: int| #[trigger] pos.push_to(mask, t, m)) ==> pos.move_group(m) == 0,
        (exists|t: int| #[trigger] pos.double_to(mask, t, m)) ==> pos.move_group(m) == 1,
        pos.ep_capture(true, m) || pos.ep_capture(false, m) ==> pos.move_group(m) == 2,
        (exists|t: int| #[trigger] pos.capture_to(mask, true, t, m)) ==> pos.move_group(m) == 3,
        (exists|t: int| #[trigger] pos.capture_to(mask, false, t, m)) ==> pos.move_group(m) == 4,
{
    let c = pos.side_to_move();
    let last = c.other().home();
    if exists|t: int| #[trigger] pos.push_to(mask, t, m) {
        let t = choose|t: int| #[trigger] pos.push_to(mask, t, m);
        let f = push_origin(c, t);
        let pr = choose|pr: Option<Piece>| #[trigger] pawn_move(last, f, t, pr, m);
        lemma_mover_kind(pos, Piece::Pawn, f, t, pr, m);
    }
    if exists|t: int| #[trigger] pos.double_to(mask, t, m) {
        let t = choose|t: int| #[trigger] pos.double_to(mask, t, m);
        let f = t - 2 * forward(c);
        let pr = choose|pr: Option<Piece>| #[trigger] pawn_move(last, f, t, pr, m);
        lemma_mover_kind(pos, Piece::Pawn, f, t, pr, m);
    }
    if pos.ep_capture(true, m) || pos.ep_capture(false, m) {
        let left = pos.ep_capture(true, m);
        let e = pos.ep_square()->0;
        let f = if left { e.idx() - Position::left_offset(c) } else { e.idx() - Position::right_offset(c) };
        lemma_mover_kind(pos, Piece::Pawn, f, e.idx(), None, m);
    }
    if exists|t: int| #[trigger] pos.capture_to(mask, true, t, m) {
        let t = choose|t: int| #[trigger] pos.capture_to(mask, true, t, m);
        let f = t - Position::left_offset(c);
        let pr = choose|pr: Option<Piece>| #[trigger] pawn_move(last, f, t, pr, m);
        lemma_mover_kind(pos, Piece::Pawn, f, t, pr, m);
        pos.lemma_occupied_square(c.other(), t);
    }
    if exists|t: int| #[trigger] pos.capture_to(mask, false, t, m) {
        let t = choose|t: int| #[trigger] pos.capture_to(mask, false, t, m);
        let f = t - Position::right_offset(c);
        let pr = choose|pr: Option<Piece>| #[trigger] pawn_move(last, f, t, pr, m);
        lemma_mover_kind(pos, Piece::Pawn, f, t, pr, m);
        pos.lemma_occupied_square(c.other(), t);
    }
}

/// The moves of a knight, bishop, rook or queen of the standard generator move that piece.
proof fn lemma_piece_group(pos: Position, mask: u64, p: Piece, m: Move)
    requires
        pos.wf(),
        exists|f: int| #[trigger] pos.piece_from(mask, p, f, m),
    ensures
        pos.moved(m) == p,
{
    let f = choose|f: int| #[trigger] pos.piece_from(mask, p, f, m);
    let t = choose|t: int| #[trigger] pos.piece_to(mask, p, f, t, m);
    crate::attacks::lemma_slider_targets_board(f, pos.occ_bb());
    lemma_mover_kind(pos, p, f, t, None, m);
}

/// The piece and king moves of the standard generator fall in its groups 5 to 10.
proof fn lemma_piece_groups(pos: Position, mask: u64, m: Move)
    requires
        pos.wf(),
    ensures
        (exists|f: int| #[trigger] pos.piece_from(mask, Piece::Knight, f, m)) ==> pos.move_group(m) == 5,
        (exists|f: int| #[trigger] pos.piece_from(mask, Piece::Bishop, f, m)) ==> pos.move_group(m) == 6,
        (exists|f: int| #[trigger] pos.piece_from(mask, Piece::Rook, f, m)) ==> pos.move_group(m) == 7,
        (exists|f: int| #[trigger] pos.piece_from(mask, Piece::Queen, f, m)) ==> pos.move_group(m) == 8,
        pos.king_move(m) ==> pos.move_group(m) == 9,
        pos.castle_to(true, m) || pos.castle_to(false, m) ==> pos.move_group(m) == 10,
{
    let c = pos.side_to_move();
    if exists|f: int| #[trigger] pos.piece_from(mask, Piece::Knight, f, m) {
        lemma_piece_group(pos, mask, Piece::Knight, m);
    }
    if exists|f: int| #[trigger] pos.piece_from(mask, Piece::Bishop, f, m) {
        lemma_piece_group(pos, mask, Piece::Bishop, m);
    }
    if exists|f: int| #[trigger] pos.piece_from(mask, Piece::Rook, f, m) {
        lemma_piece_group(pos, mask, Piece::Rook, m);
    }
    if exists|f: int| #[trigger] pos.piece_from(mask, Piece::Queen, f, m) {
        lemma_piece_group(pos, mask, Piece::Queen, m);
    }
    pos.lemma_kings();
    let k = pos.king_square(c);
    assert(pos.piece_on(k, Piece::King, c));
    if pos.king_move(m) {
        let t = choose|t: int| #[trigger] pos.king_evasion(t) && m == Move::spec_new(k, t, None);
        lemma_mover_kind(pos, Piece::King, k, t, None, m);
    }
    if pos.castle_to(true, m) || pos.castle_to(false, m) {
        let ks = pos.castle_to(true, m);
        lemma_castle_fits(pos, ks);
        let t = c.home() * 8 + (if ks { 6int } else { 2int });
        lemma_mover_kind(pos, Piece::King, k, t, None, m);
    }
}

/// One more move of the list adds the leaves below it.
proof fn lemma_leaves_step(p: Position, l: Seq<Move>, i: int, d: int)
    requires
        0 <= i < l.len(),
    ensures
        leaves_along(p, l.take(i + 1), d) == leaves_along(p, l.take(i), d) + leaves_below(p, l[i], d),
{
    assert(l.take(i + 1).drop_last() =~= l.take(i));
    assert(l.take(i + 1).last() == l[i]);
}

/// Two well-formed positions with the same occupants, side to move, castling rights and clocks,
/// whose en-passant squares both keep a candidate `ep` exactly when a pawn can take there,
/// are the same position.
pub proof fn lemma_same_state(q: Position, r: Position, ep: Option<Sq>)
    requires
        q.wf(),
        r.wf(),
        q.occupants() == r.occupants(),
        q.side_to_move() == r.side_to_move(),
        q.rights() == r.rights(),
        q.halfmoves() == r.halfmoves(),
        q.fullmove_number() == r.fullmove_number(),
        q.ep_square() == (match ep {
            Some(e) => if q.with_ep_hash(Some(e), 0).ep_kept() { Some(e) } else { None },
            None => None,
        }),
        r.ep_square() == (match ep {
            Some(e) => if r.with_ep_hash(Some(e), 0).ep_kept() { Some(e) } else { None },
            None => None,
        }),
    ensures
        q == r,
{
    crate::fen_laws::lemma_same_occupants(q, r);
    if let Some(e) = ep {
        let wq = q.with_ep_hash(Some(e), 0);
        let wr = r.with_ep_hash(Some(e), 0);
        assert forall|pc: Piece, c: Side| #[trigger] wq.bb(pc, c) == wr.bb(pc, c) by {
            assert(wq.bb(pc, c) == q.bb(pc, c));
            assert(wr.bb(pc, c) == r.bb(pc, c));
        }
        assert(wq.side_to_move() == wr.side_to_move());
        assert(wq.ep_square() == wr.ep_square());
        assert(wq.side_bb(Side::White) == wr.side_bb(Side::White));
        assert(wq.side_bb(Side::Black) == wr.side_bb(Side::Black));
        assert(wq.occ_bb() == wr.occ_bb());
        assert(wq.king_square(Side::White) == wr.king_square(Side::White));
        assert(wq.king_square(Side::Black) == wr.king_square(Side::Black));
        assert(wq.ep_kept() == wr.ep_kept());
    }
    q.lemma_determined(r);
}

/// A move leads to one position only.
pub proof fn lemma_plays_unique(p: Position, m: Move, q: Position, r: Position)
    requires
        p.plays(m, q),
        p.plays(m, r),
    ensures
        q == r,
{
    lemma_same_state(q, r, p.ep_candidate(m));
}

/// The position a move leads to is the one `make_move` gives.
pub(crate) proof fn lemma_after_move(p: Position, m: Move, q: Position)
    requires
        p.plays(m, q),
    ensures
        after_move(p, m) == q,
{
    let r = after_move(p, m);
    assert(p.plays(m, r));
    lemma_plays_unique(p, m, q, r);
}

/// Below a move that does not take a king lie the leaves of the position it leads to.
proof fn lemma_leaves_child(p: Position, m: Move, d: int, q: Position)
    requires
        d >= 2,
        p.occupant(m.to_sq()) != Some((Piece::King, p.side_to_move().other())),
        p.plays(m, q),
    ensures
        leaves_below(p, m, d) == leaf_count(q, d - 1),
{
    lemma_after_move(p, m, q);
}

/// Adding two counts kept modulo the size of `usize` with wrap-around keeps their sum modulo it.
proof fn lemma_wrapping_sum(a: int, b: int, x: usize, y: usize)
    requires
        a >= 0,
        b >= 0,
        x as int == a % (usize::MAX as int + 1),
        y as int == b % (usize::MAX as int + 1),
    ensures
        vstd::wrapping::usize_specs::wrapping_add(x, y) as int == (a + b) % (usize::MAX as int + 1),
{
    let big = usize::MAX as int + 1;
    vstd::arithmetic::div_mod::lemma_add_mod_noop(a, b, big);
    let s = x as int + y as int;
    if s >= big {
        assert(s % big == s - big) by (nonlinear_arith)
            requires
                big <= s < 2 * big,
        ;
    } else {
        assert(s % big == s) by (nonlinear_arith)
            requires
                0 <= s < big,
        ;
    }
}

impl Position {
    /// The moves the moves list holds.
    pub open spec fn listed_set(self) -> Set<Move> {
        Set::new(|m: Move| self.listed_move(m))
    }
}

/// The position playing `m` leads to from `p`.
pub open spec fn after_move(p: Position, m: Move) -> Position {
    choose|q: Position| p.plays(m, q)
}

/// The number of leaf positions `d` plies below `p`: one at depth 0 or below, the number of
/// listed moves at depth 1, and deeper the sum over the listed moves of the leaves below the
/// position each leads to, none below a move that takes a king.
pub open spec fn leaf_count(p: Position, d: int) -> nat
    decreases d, 2int, 0nat,
{
    if d <= 0 {
        1
    } else if d == 1 {
        p.listed_set().len()
    } else {
        leaves_through(p, p.listed_set(), d)
    }
}

/// The leaves `d` plies below `p` through the moves of the finite set `s`.
pub open spec fn leaves_through(p: Position, s: Set<Move>, d: int) -> nat
    decreases d, 1int, s.len(),
{
    if d < 2 || !s.finite() || s.len() == 0 {
        0
    } else {
        let m = s.choose();
        leaves_below(p, m, d) + leaves_through(p, s.remove(m), d)
    }
}

/// The leaves `d` plies below `p` through `m`: none when `m` takes a king.
pub open spec fn leaves_below(p: Position, m: Move, d: int) -> nat
    decreases d, 0int, 0nat,
{
    if d < 2 || p.occupant(m.to_sq()) == Some((Piece::King, p.side_to_move().other())) {
        0
    } else {
        leaf_count(after_move(p, m), d - 1)
    }
}

/// The leaves below the moves of `l`, in turn.
pub open spec fn leaves_along(p: Position, l: Seq<Move>, d: int) -> nat
    decreases l.len(),
{
    if l.len() == 0 {
        0
    } else {
        leaves_along(p, l.drop_last(), d) + leaves_below(p, l.last(), d)
    }
}

/// Taking any move `x` of `s` first gives the same sum.
proof fn lemma_leaves_remove(p: Position, s: Set<Move>, d: int, x: Move)
    requires
        d >= 2,
        s.finite(),
        s.contains(x),
    ensures
        leaves_through(p, s, d) == leaves_below(p, x, d) + leaves_through(p, s.remove(x), d),
    decreases s.len(),
{
    let y = s.choose();
    if y != x {
        lemma_leaves_remove(p, s.remove(y), d, x);
        lemma_leaves_remove(p, s.remove(x), d, y);
        assert(s.remove(y).remove(x) =~= s.remove(x).remove(y));
    }
}

/// Summing along a list free of repeats is summing over its set.
proof fn lemma_leaves_along(p: Position, l: Seq<Move>, d: int)
    requires
        d >= 2,
        l.no_duplicates(),
    ensures
        leaves_along(p, l, d) == leaves_through(p, l.to_set(), d),
    decreases l.len(),
{
    if l.len() == 0 {
        assert(l.to_set() =~= Set::<Move>::empty());
    } else {
        let x = l.last();
        let rest = l.drop_last();
        assert(rest.no_duplicates()) by {
            assert forall|i: int, j: int| 0 <= i < rest.len() && 0 <= j < rest.len() && i != j implies rest[i] != rest[j] by {
                assert(rest[i] == l[i] && rest[j] == l[j]);
            }
        }
        lemma_leaves_along(p, rest, d);
        assert(!rest.contains(x)) by {
            if rest.contains(x) {
                let i = choose|i: int| 0 <= i < rest.len() && rest[i] == x;
                assert(l[i] == l[l.len() - 1]);
            }
        }
        assert(l.to_set().remove(x) =~= rest.to_set()) by {
            assert forall|m: Move| #[trigger] l.to_set().remove(x).contains(m) == rest.to_set().contains(m) by {
                if rest.contains(m) {
                    let i = choose|i: int| 0 <= i < rest.len() && rest[i] == m;
                    assert(l[i] == m);
                }
                if l.contains(m) && m != x {
                    let i = choose|i: int| 0 <= i < l.len() && l[i] == m;
                    assert(rest[i] == m);
                }
            }
        }
        assert(l.to_set().contains(x)) by {
            assert(l[l.len() - 1] == x);
        }
        vstd::seq_lib::seq_to_set_is_finite(l);
        lemma_leaves_remove(p, l.to_set(), d, x);
    }
}

/// The legal moves of the position, by how the king is checked.
pub fn gen_legal(pos: &Position) -> (r: MoveList)
    requires
        pos.wf(),
    ensures
        all_fit(*pos, r@),
        forall|mv: Move| #[trigger] r@.contains(mv) <==> pos.listed_move(mv),
        r@.no_duplicates(),
{
    match pos.checked() {
        Check::Clear => gen_standard(pos, None),
        Check::Single(sq) => gen_standard(pos, Some(sq)),
        Check::Double => gen_evasions(pos),
    }
}

impl Position {
    /// The legal moves of the position.
    pub fn gen_legal_moves(&self) -> (r: MoveList)
        requires
            self.wf(),
        ensures
            all_fit(*self, r@),
            forall|mv: Move| #[trigger] r@.contains(mv) <==> self.listed_move(mv),
            r@.no_duplicates(),
    {
        gen_legal(self)
    }

    /// Whether `mv` would take the opponent's king.
    pub fn takes_king(&self, mv: Move) -> (r: bool)
        requires
            self.board_ok(),
        ensures
            r == (self.occupant(mv.to_sq()) == Some((Piece::King, self.side_to_move().other()))),
    {
        proof { Move::lemma_squares(mv); }
        let to = mv.to();
        match self.board[to.id()] {
            Some(Piece::King) => self.bb_get(Piece::King, self.stm.opp()) & to.bb() != 0,
            _ => false,
        }
    }

    /// Whether `mv` is among the legal moves of the position.
    pub fn is_legal(&self, mv: Move) -> (r: bool)
        requires
            self.wf(),
        ensures
            r == self.listed_move(mv),
            r ==> self.fits(mv),
    {
        let moves = self.gen_legal_moves();
        let mut i: usize = 0;
        while i < moves.len()
            invariant
                i <= moves@.len(),
                all_fit(*self, moves@),
                forall|m: Move| #[trigger] moves@.contains(m) <==> self.listed_move(m),
                forall|j: int| 0 <= j < i ==> moves@[j] != mv,
            decreases moves@.len() - i,
        {
            if moves.get(i) == mv {
                assert(self.fits(moves@[i as int]));
                assert(moves@.contains(mv));
                return true;
            }
            i += 1;
        }
        assert(!moves@.contains(mv));
        false
    }

    /// Number of leaf positions `depth` plies down; 1 at depth 0 or below. The count wraps
    /// around past the largest `usize`.
    pub fn perft(&self, depth: i32) -> (r: usize)
        requires
            self.wf(),
        ensures
            r as int == (leaf_count(*self, depth as int) as int) % (usize::MAX as int + 1),
        decreases depth,
    {
        if depth <= 0 {
            return 1;
        }
        let moves = self.gen_legal_moves();
        proof {
            moves@.unique_seq_to_set();
            assert(moves@.to_set() =~= self.listed_set());
        }
        if depth == 1 {
            return moves.len();
        }
        let ghost big = usize::MAX as int + 1;
        let mut count: usize = 0;
        let mut i: usize = 0;
        while i < moves.len()
            invariant
                self.wf(),
                depth > 1,
                big == usize::MAX as int + 1,
                i <= moves@.len(),
                all_fit(*self, moves@),
                moves@.no_duplicates(),
                count as int == (leaves_along(*self, moves@.take(i as int), depth as int) as int) % big,
            decreases moves@.len() - i,
        {
            let mv = moves.get(i);
            assert(self.fits(moves@[i as int]));
            let ghost before = leaves_along(*self, moves@.take(i as int), depth as int);
            proof {
                lemma_leaves_step(*self, moves@, i as int, depth as int);
            }
            if !self.takes_king(mv) {
                let child = self.make_move(mv);
                let sub = child.perft(depth - 1);
                proof {
                    lemma_leaves_child(*self, mv, depth as int, child);
                    lemma_wrapping_sum(before as int, leaf_count(child, depth - 1) as int, count, sub);
                }
                count = count.wrapping_add(sub);
            }
            i += 1;
        }
        proof {
            assert(moves@.take(moves@.len() as int) =~= moves@);
            lemma_leaves_along(*self, moves@, depth as int);
        }
        count
    }
}

/// A listed move of `p` that `split_perft` counts below: one that neither takes a king nor
/// leaves the opponent in check.
pub open spec fn split_counted(p: Position, m: Move) -> bool {
    &&& p.listed_move(m)
    &&& p.occupant(m.to_sq()) != Some((Piece::King, p.side_to_move().other()))
    &&& after_move(p, m).checker_bb() == 0
}

impl Position {
    /// For each listed move that neither takes a king nor leaves the opponent in check, in the
    /// order of the move list, the move and the number of leaves `depth - 1` plies below the
    /// position it leads to (wrapping around past the largest `usize`).
    pub fn split_perft(&self, depth: i32) -> (r: Vec<(Move, usize)>)
        requires
            self.wf(),
            depth > i32::MIN,
        ensures
            forall|m: Move| (exists|i: int| 0 <= i < r@.len() && #[trigger] r@[i].0 == m) <==> split_counted(*self, m),
            forall|i: int, j: int| 0 <= i < j < r@.len() ==> #[trigger] r@[i].0 != #[trigger] r@[j].0,
            forall|i: int| 0 <= i < r@.len() ==> #[trigger] r@[i].1 as int == (leaf_count(after_move(*self, r@[i].0),
                depth - 1) as int) % (usize::MAX as int + 1),
    {
        let moves = self.gen_legal_moves();
        let mut r: Vec<(Move, usize)> = Vec::new();
        let mut i: usize = 0;
        while i < moves.len()
            invariant
                self.wf(),
                depth > i32::MIN,
                i <= moves@.len(),
                all_fit(*self, moves@),
                moves@.no_duplicates(),
                forall|mv: Move| #[trigger] moves@.contains(mv) <==> self.listed_move(mv),
                forall|k: int| 0 <= k < r@.len() ==> exists|j: int| 0 <= j < i && moves@[j] == #[trigger] r@[k].0,
                forall|j: int| 0 <= j < i && split_counted(*self, #[trigger] moves@[j]) ==> exists|k: int| 0 <= k < r@.len()
                    && r@[k].0 == moves@[j],
                forall|k: int| 0 <= k < r@.len() ==> split_counted(*self, #[trigger] r@[k].0),
                forall|a: int, b: int| 0 <= a < b < r@.len() ==> #[trigger] r@[a].0 != #[trigger] r@[b].0,
                forall|k: int| 0 <= k < r@.len() ==> #[trigger] r@[k].1 as int == (leaf_count(after_move(*self, r@[k].0),
                    depth - 1) as int) % (usize::MAX as int + 1),
            decreases moves@.len() - i,
        {
            let mv = moves.get(i);
            assert(self.fits(moves@[i as int]));
            assert(moves@.contains(mv));
            let ghost r0 = r@;
            if !self.takes_king(mv) {
                let child = self.make_move(mv);
                proof {
                    assert(self.plays(mv, child));
                    lemma_after_move(*self, mv, child);
                }
                if child.checkers == 0 {
                    let n = child.perft(depth - 1);
                    r.push((mv, n));
                    proof {
                        assert forall|k: int| 0 <= k < r0.len() implies #[trigger] r0[k].0 != mv by {
                            let j = choose|j: int| 0 <= j < i && moves@[j] == r0[k].0;
                            assert(moves@[j] != moves@[i as int]);
                        }
                        assert(r@[r0.len() as int] == (mv, n));
                        assert forall|k: int| 0 <= k < r@.len() implies exists|j: int| 0 <= j < i + 1 && moves@[j] == #[trigger] r@[k].0 by {
                            if k < r0.len() {
                                assert(r@[k] == r0[k]);
                                let j = choose|j: int| 0 <= j < i && moves@[j] == r0[k].0;
                            } else {
                                assert(moves@[i as int] == r@[k].0);
                            }
                        }
                        assert forall|j: int| 0 <= j < i + 1 && split_counted(*self, #[trigger] moves@[j]) implies exists|k: int| 0 <= k < r@.len()
                            && r@[k].0 == moves@[j] by {
                            if j < i {
                                let k = choose|k: int| 0 <= k < r0.len() && r0[k].0 == moves@[j];
                                assert(r@[k] == r0[k]);
                            } else {
                                assert(r@[r0.len() as int].0 == moves@[j]);
                            }
                        }
                    }
                }
            }
            proof {
                if r@ == r0 {
                    assert forall|j: int| 0 <= j < i + 1 && split_counted(*self, #[trigger] moves@[j]) implies exists|k: int| 0 <= k < r@.len()
                        && r@[k].0 == moves@[j] by {
                        if j == i {
                            assert(!split_counted(*self, moves@[j]));
                        }
                    }
                    assert forall|k: int| 0 <= k < r@.len() implies exists|j: int| 0 <= j < i + 1 && moves@[j] == #[trigger] r@[k].0 by {
                        let j = choose|j: int| 0 <= j < i && moves@[j] == r@[k].0;
                    }
                }
            }
            i += 1;
        }
        proof {
            assert forall|m: Move| (exists|k: int| 0 <= k < r@.len() && #[trigger] r@[k].0 == m) <==> split_counted(*self, m) by {
                if split_counted(*self, m) {
                    assert(moves@.contains(m));
                    let j = choose|j: int| 0 <= j < moves@.len() && moves@[j] == m;
                    assert(split_counted(*self, moves@[j]));
                }
            }
        }
        r
    }
}

/// The moves searched by quiescence: every legal move when in check, else the legal moves
/// that take something.
pub fn gen_legal_qsearch(pos: &Position) -> (r: MoveList)
    requires
        pos.wf(),
    ensures
        all_fit(*pos, r@),
        pos.checker_bb() != 0 ==> forall|mv: Move| #[trigger] r@.contains(mv) <==> pos.listed_move(mv),
        pos.checker_bb() == 0 ==> forall|mv: Move| #[trigger] r@.contains(mv) <==> (pos.listed_move(mv)
            && pos.capture_of(mv) is Some),
        pos.checker_bb() == 0 ==> forall|i: int| 0 <= i < r@.len() ==> (#[trigger] pos.capture_of(r@[i])) is Some,
        r@.no_duplicates(),
{
    let all = gen_legal(pos);
    if pos.checkers != 0 {
        return all;
    }
    let mut moves = MoveList::new();
    let mut i: usize = 0;
    while i < all.len()
        invariant
            pos.wf(),
            i <= all@.len(),
            all_fit(*pos, all@),
            all_fit(*pos, moves@),
            forall|k: int| 0 <= k < moves@.len() ==> (#[trigger] pos.capture_of(moves@[k])) is Some,
            forall|m: Move| #[trigger] moves@.contains(m) <==> (all@.subrange(0, i as int).contains(m)
                && pos.capture_of(m) is Some),
            all@.no_duplicates(),
            moves@.no_duplicates(),
        decreases all@.len() - i,
    {
        let mv = all.get(i);
        assert(pos.fits(all@[i as int]));
        let ghost before = moves@;
        proof {
            assert(all@.subrange(0, i + 1) =~= all@.subrange(0, i as int).push(mv));
            lemma_push_contains(all@.subrange(0, i as int), mv);
        }
        if pos.capture(mv).is_some() {
            proof {
                if all@.subrange(0, i as int).contains(mv) {
                    let j = choose|j: int| 0 <= j < i && all@.subrange(0, i as int)[j] == mv;
                    assert(all@[j] == all@[i as int]);
                }
                lemma_push_nodup(before, mv);
            }
            moves.push(mv);
            proof { lemma_push_contains(before, mv); }
            assert forall|k: int| 0 <= k < moves@.len() implies #[trigger] pos.fits(moves@[k]) && pos.capture_of(moves@[k]) is Some by {
                if k < before.len() {
                    assert(moves@[k] == before[k]);
                }
            }
        }
        i += 1;
    }
    assert(all@.subrange(0, all@.len() as int) =~= all@);
    moves
}

} // verus!
