//! Queries and moves on a position.
use vstd::prelude::*;
use vstd::std_specs::bits::u64_trailing_zeros;
use crate::bits::{in_bb, group_in_bb, lemma_nonzero_has, lemma_clear_lowest, popcount, count_ones};
use crate::{Position, Piece, Side, Sq, Check, Move, bb_idx, bb_owner, single_square, occupants_hash, rank_of, file_of, promotion_ok};
use crate::attacks::pawn_start_rank;
use crate::lines::{line_along, full_line, any_dir, line_between_diagonal, line_between_straight};
use crate::attacks::{pawn_attacks, attacks_union, king_attacks, knight_attacks, bishop_attacks, rook_attacks, queen_attacks, pawn_captures_left, pawn_captures_right, rook_bb, bishop_bb, pawn_left_target, pawn_right_target};
use crate::iter_bb;

verus! {

broadcast use group_in_bb;

/// A single-square bitboard holds exactly its lowest square.
pub proof fn lemma_single_square(b: u64)
    requires
        single_square(b),
    ensures
        0 <= u64_trailing_zeros(b) < 64,
        forall|s: int| #[trigger] in_bb(b, s) == (s == u64_trailing_zeros(b)),
{
    lemma_nonzero_has(b);
    lemma_clear_lowest(b);
    assert forall|s: int| #[trigger] in_bb(b, s) == (s == u64_trailing_zeros(b)) by {
        assert(!in_bb(b & ((b - 1) as u64), s));
    }
}

/// Index of the bitboard of (piece, side).
pub fn bb_index(piece: Piece, side: Side) -> (r: usize)
    ensures
        r == bb_idx(piece, side),
        r < 12,
{
    piece.id() + side.id() * 6
}

/// The piece and side whose bitboard has index `i`.
fn bb_owner_of(i: usize) -> (r: (Piece, Side))
    requires
        i < 12,
    ensures
        r == bb_owner(i as int),
{
    let c = if i < 6 { Side::White } else { Side::Black };
    let k = if i < 6 { i } else { i - 6 };
    let p = if k == 0 {
        Piece::Pawn
    } else if k == 1 {
        Piece::Knight
    } else if k == 2 {
        Piece::Bishop
    } else if k == 3 {
        Piece::Rook
    } else if k == 4 {
        Piece::Queen
    } else {
        Piece::King
    };
    (p, c)
}

impl Position {
    /// The king of each side stands on its king square, and nowhere else.
    pub proof fn lemma_kings(self)
        requires
            self.board_ok(),
        ensures
            0 <= self.king_square(Side::White) < 64,
            0 <= self.king_square(Side::Black) < 64,
            forall|s: int| #[trigger] self.piece_on(s, Piece::King, Side::White) == (s == self.king_square(Side::White)),
            forall|s: int| #[trigger] self.piece_on(s, Piece::King, Side::Black) == (s == self.king_square(Side::Black)),
    {
        lemma_single_square(self.bb(Piece::King, Side::White));
        lemma_single_square(self.bb(Piece::King, Side::Black));
    }

    pub(crate) fn bb_get(&self, piece: Piece, side: Side) -> (r: u64)
        ensures
            r == self.bb(piece, side),
    {
        self.bbs[bb_index(piece, side)]
    }

    pub fn stm(&self) -> (r: Side)
        ensures
            r == self.side_to_move(),
    {
        self.stm
    }

    pub fn side_occ(&self, side: Side) -> (r: u64)
        ensures
            r == self.side_bb(side),
    {
        self.bb_get(Piece::Pawn, side) | self.bb_get(Piece::Knight, side) | self.bb_get(Piece::Bishop, side)
            | self.bb_get(Piece::Rook, side) | self.bb_get(Piece::Queen, side) | self.bb_get(Piece::King, side)
    }

    pub fn occ(&self) -> (r: u64)
        ensures
            r == self.occ_bb(),
    {
        self.side_occ(Side::White) | self.side_occ(Side::Black)
    }

    pub fn king_sq(&self, side: Side) -> (r: Sq)
        requires
            self.board_ok(),
        ensures
            r.valid(),
            r.idx() == self.king_square(side),
    {
        proof { self.lemma_kings(); }
        Sq(self.bb_get(Piece::King, side).trailing_zeros() as u8)
    }

    pub(crate) fn has_king_castle_rights(&self, side: Side) -> (r: bool)
        ensures
            r == (self.rights() & side.k_flag() != 0),
    {
        self.castle_rights & side.king_castle_rights_flag() != 0
    }

    pub(crate) fn has_queen_castle_rights(&self, side: Side) -> (r: bool)
        ensures
            r == (self.rights() & side.q_flag() != 0),
    {
        self.castle_rights & side.queen_castle_rights_flag() != 0
    }

    /// Whether the mover's king is attacked, and by which square when by exactly one.
    pub fn checked(&self) -> (r: Check)
        ensures
            popcount(self.checker_bb()) == 0 ==> r matches Check::Clear,
            popcount(self.checker_bb()) == 1 ==> r == Check::Single(Sq(u64_trailing_zeros(self.checker_bb()) as u8)),
            popcount(self.checker_bb()) > 1 ==> r matches Check::Double,
            r matches Check::Single(s) ==> s.valid(),
    {
        if self.checkers != 0 {
            proof { lemma_nonzero_has(self.checkers); }
        }
        match count_ones(self.checkers) {
            0 => Check::Clear,
            1 => Check::Single(Sq(self.checkers.trailing_zeros() as u8)),
            _ => Check::Double,
        }
    }

    /// The line a piece on `sq` may move along: the line through it and the king when it is
    /// pinned, every square otherwise.
    pub fn pin_ray(&self, sq: Sq) -> (r: u64)
        requires
            self.board_ok(),
            sq.valid(),
        ensures
            r == (if in_bb(self.pin_bb(), sq.idx()) {
                full_line(sq.idx(), any_dir(sq.idx(), self.king_square(self.side_to_move())))
            } else {
                0xffff_ffff_ffff_ffffu64
            }),
    {
        if self.pins & sq.bb() != 0 {
            line_along(sq, self.king_sq(self.stm))
        } else {
            u64::MAX
        }
    }


    pub(crate) fn update_threats(&mut self)
        requires
            old(self).board_ok(),
        ensures
            *final(self) == old(self).with_threats(final(self).threat_bb()),
            final(self).threats_ok(),
            final(self).same_pieces(*old(self)),
            final(self).board_ok(),
    {
        proof { old(self).lemma_same_pieces(old(self).with_threats(0)); }
        proof { self.lemma_kings(); }
        let attacker = self.stm.opp();
        let kingless_occ = self.occ() ^ self.king_sq(self.stm).bb();
        let t = pawn_attacks(self.bb_get(Piece::Pawn, attacker), attacker)
            | attacks_union(Piece::Knight, self.bb_get(Piece::Knight, attacker), kingless_occ)
            | attacks_union(Piece::Bishop, self.bb_get(Piece::Bishop, attacker), kingless_occ)
            | attacks_union(Piece::Rook, self.bb_get(Piece::Rook, attacker), kingless_occ)
            | attacks_union(Piece::Queen, self.bb_get(Piece::Queen, attacker), kingless_occ)
            | king_attacks(self.king_sq(attacker));
        self.threats = t;
        proof { old(self).lemma_same_pieces(*self); }
    }

    pub(crate) fn update_checkers(&mut self)
        requires
            old(self).board_ok(),
        ensures
            *final(self) == old(self).with_checkers(final(self).checker_bb()),
            final(self).checkers_ok(),
            final(self).same_pieces(*old(self)),
            final(self).board_ok(),
    {
        proof { old(self).lemma_same_pieces(old(self).with_checkers(0)); }
        let sq = self.king_sq(self.stm);
        let attacker = self.stm.opp();
        let occ = self.occ();
        let c = (self.bb_get(Piece::Pawn, attacker) & pawn_attacks(sq.bb(), self.stm))
            | (self.bb_get(Piece::Knight, attacker) & knight_attacks(sq))
            | (self.bb_get(Piece::Bishop, attacker) & bishop_attacks(sq, occ))
            | (self.bb_get(Piece::Rook, attacker) & rook_attacks(sq, occ))
            | (self.bb_get(Piece::Queen, attacker) & queen_attacks(sq, occ))
            | (self.bb_get(Piece::King, attacker) & king_attacks(sq));
        self.checkers = c;
        proof { old(self).lemma_same_pieces(*self); }
    }

    /// The squares pinned by the opponent's sliders of kind `p`.
    fn pins_by(&self, p: Piece) -> (r: u64)
        requires
            self.board_ok(),
            p == Piece::Bishop || p == Piece::Rook || p == Piece::Queen,
        ensures
            forall|s: int| #[trigger] in_bb(r, s) == exists|q: int| #[trigger] self.pin_via(p, q, s),
    {
        let king_sq = self.king_sq(self.stm);
        let occ = self.occ();
        let pieces = self.bb_get(p, self.stm.opp());
        let mut acc: u64 = 0;
        let mut it = iter_bb(pieces);
        loop
            invariant
                self.board_ok(),
                p == Piece::Bishop || p == Piece::Rook || p == Piece::Queen,
                king_sq.valid(),
                king_sq.idx() == self.king_square(self.side_to_move()),
                occ == self.occ_bb(),
                pieces == self.bb(p, self.side_to_move().other()),
                forall|q: int| #[trigger] in_bb(it.rest(), q) ==> in_bb(pieces, q),
                forall|s: int| #[trigger] in_bb(acc, s) == exists|q: int| #[trigger] self.pin_via(p, q, s) && !in_bb(it.rest(), q),
            decreases it.rest(),
        {
            let ghost old_rest = it.rest();
            let ghost old_acc = acc;
            match it.next() {
                None => {
                    return acc;
                },
                Some(from) => {
                    let between = if p == Piece::Bishop {
                        line_between_diagonal(from, king_sq).1
                    } else if p == Piece::Rook {
                        line_between_straight(from, king_sq).1
                    } else {
                        line_between_diagonal(from, king_sq).1 | line_between_straight(from, king_sq).1
                    };
                    assert(between == self.between_king(p, from.idx()));
                    let mask = occ & between;
                    if count_ones(mask) == 1 {
                        acc = acc | mask;
                    }
                    assert forall|s: int| #[trigger] in_bb(acc, s) == exists|q: int| #[trigger] self.pin_via(p, q, s) && !in_bb(it.rest(), q) by {
                        if in_bb(old_acc, s) {
                            let q = choose|q: int| #[trigger] self.pin_via(p, q, s) && !in_bb(old_rest, q);
                            assert(self.pin_via(p, q, s) && !in_bb(it.rest(), q));
                        }
                        if popcount(mask) == 1 && in_bb(mask, s) {
                            assert(self.pin_via(p, from.idx(), s) && !in_bb(it.rest(), from.idx()));
                        }
                        if exists|q: int| #[trigger] self.pin_via(p, q, s) && !in_bb(it.rest(), q) {
                            let q = choose|q: int| #[trigger] self.pin_via(p, q, s) && !in_bb(it.rest(), q);
                            if q != from.idx() {
                                assert(self.pin_via(p, q, s) && !in_bb(old_rest, q));
                            }
                        }
                    }
                },
            }
        }
    }

    pub(crate) fn update_pins(&mut self)
        requires
            old(self).board_ok(),
        ensures
            *final(self) == old(self).with_pins(final(self).pin_bb()),
            final(self).pins_ok(),
            final(self).same_pieces(*old(self)),
            final(self).board_ok(),
    {
        proof { old(self).lemma_same_pieces(old(self).with_pins(0)); }
        let ghost o = *self;
        let b = self.pins_by(Piece::Bishop);
        let r = self.pins_by(Piece::Rook);
        let qn = self.pins_by(Piece::Queen);
        self.pins = b | r | qn;
        proof { old(self).lemma_same_pieces(*self); }
        assert forall|p: Piece, q: int, s: int| #[trigger] self.pin_via(p, q, s) == o.pin_via(p, q, s) by {
            assert(self.occ_bb() == o.occ_bb());
            assert(self.between_king(p, q) == o.between_king(p, q));
        }
        assert forall|s: int| #[trigger] in_bb(self.pin_bb(), s) == self.pinned(s) by {
            if self.pinned(s) {
                let (p, q) = choose|p: Piece, q: int| #[trigger] self.pin_via(p, q, s);
                assert(o.pin_via(p, q, s));
                if p == Piece::Bishop {
                    assert(in_bb(b, s));
                } else if p == Piece::Rook {
                    assert(in_bb(r, s));
                } else {
                    assert(in_bb(qn, s));
                }
            }
            if in_bb(b, s) {
                let x = choose|x: int| #[trigger] o.pin_via(Piece::Bishop, x, s);
                assert(self.pin_via(Piece::Bishop, x, s));
            }
            if in_bb(r, s) {
                let x = choose|x: int| #[trigger] o.pin_via(Piece::Rook, x, s);
                assert(self.pin_via(Piece::Rook, x, s));
            }
            if in_bb(qn, s) {
                let x = choose|x: int| #[trigger] o.pin_via(Piece::Queen, x, s);
                assert(self.pin_via(Piece::Queen, x, s));
            }
        }
    }


    /// After the en-passant capture `from`x`to` removing the pawn on `cap`, no opponent
    /// slider attacks the mover's king.
    pub open spec fn ep_safe(self, cap: int, from: int, to: int) -> bool {
        let upd = self.occ_bb() ^ ((1u64 << (cap as u64)) | (1u64 << (from as u64)) | (1u64 << (to as u64)));
        let k = self.king_square(self.side_to_move());
        let o = self.side_to_move().other();
        &&& rook_bb(k, upd) & self.bb(Piece::Rook, o) == 0
        &&& bishop_bb(k, upd) & self.bb(Piece::Bishop, o) == 0
        &&& (rook_bb(k, upd) | bishop_bb(k, upd)) & self.bb(Piece::Queen, o) == 0
    }

    /// Offset from origin to target of a pawn capture towards the a-file and the h-file.
    pub open spec fn left_offset(c: Side) -> int {
        if c == Side::White { 7 } else { -9 }
    }

    pub open spec fn right_offset(c: Side) -> int {
        if c == Side::White { 9 } else { -7 }
    }

    /// Some pawn of the mover can capture en passant without exposing its king.
    pub open spec fn ep_kept(self) -> bool {
        match self.ep_square() {
            Some(e) => {
                let c = self.side_to_move();
                let pawns = self.bb(Piece::Pawn, c);
                let cap = (e.0 ^ 8u8) as int;
                ||| pawn_left_target(pawns, c, e.idx()) && self.ep_safe(cap, e.idx() - Position::left_offset(c), e.idx())
                ||| pawn_right_target(pawns, c, e.idx()) && self.ep_safe(cap, e.idx() - Position::right_offset(c), e.idx())
            },
            None => false,
        }
    }

    pub(crate) fn ep_legal(&self, cap_sq: Sq, from: Sq, to: Sq) -> (r: bool)
        requires
            self.board_ok(),
            cap_sq.valid(),
            from.valid(),
            to.valid(),
        ensures
            r == self.ep_safe(cap_sq.idx(), from.idx(), to.idx()),
    {
        let updated_occ = self.occ() ^ (cap_sq.bb() | from.bb() | to.bb());
        let king_sq = self.king_sq(self.stm);
        let rook_attacks = rook_attacks(king_sq, updated_occ);
        let bishop_attacks = bishop_attacks(king_sq, updated_occ);
        let queen_attacks = rook_attacks | bishop_attacks;
        rook_attacks & self.bb_get(Piece::Rook, self.stm.opp()) == 0
            && bishop_attacks & self.bb_get(Piece::Bishop, self.stm.opp()) == 0
            && queen_attacks & self.bb_get(Piece::Queen, self.stm.opp()) == 0
    }

    /// Drops the en-passant square when no pawn can use it.
    pub(crate) fn update_ep(&mut self)
        requires
            old(self).board_ok(),
            old(self).ep_square() matches Some(e) ==> e.valid(),
        ensures
            *final(self) == old(self).with_ep_hash(
                if old(self).ep_kept() { old(self).ep_square() } else { None },
                match old(self).ep_square() {
                    Some(e) => if old(self).ep_kept() { old(self).hash_value() } else { old(self).hash_value() ^ crate::zobrist::ep_key(e.idx()) },
                    None => old(self).hash_value(),
                },
            ),
    {
        if let Some(ep_sq) = self.ep {
            let ep_mask = ep_sq.bb();
            let pawns = self.bb_get(Piece::Pawn, self.stm);
            let left_ep = pawn_captures_left(pawns, ep_mask, self.stm);
            let right_ep = pawn_captures_right(pawns, ep_mask, self.stm);
            let x = ep_sq.0;
            assert(x ^ 8u8 < 64) by (bit_vector)
                requires
                    x < 64,
            ;
            let cap_sq = Sq(ep_sq.0 ^ 8);
            if left_ep.0 != 0 {
                proof { lemma_nonzero_has(left_ep.0); }
                let from = Sq((ep_sq.0 as i32 - left_ep.1) as u8);
                if self.ep_legal(cap_sq, from, ep_sq) {
                    return;
                }
            }
            if right_ep.0 != 0 {
                proof { lemma_nonzero_has(right_ep.0); }
                let from = Sq((ep_sq.0 as i32 - right_ep.1) as u8);
                if self.ep_legal(cap_sq, from, ep_sq) {
                    return;
                }
            }
            proof {
                if pawn_left_target(pawns, self.stm, ep_sq.idx()) {
                    assert(in_bb(left_ep.0, ep_sq.idx()));
                }
                if pawn_right_target(pawns, self.stm, ep_sq.idx()) {
                    assert(in_bb(right_ep.0, ep_sq.idx()));
                }
            }
            self.hash = self.hash ^ crate::zobrist::ep_sq(ep_sq.id());
            self.ep = None;
        }
    }


    fn toggle(&mut self, p: Piece, c: Side, sq: Sq)
        requires
            sq.valid(),
        ensures
            final(self).same_but_pieces(*old(self)),
            forall|s: int| 0 <= s < 64 ==> #[trigger] final(self).square(s) == old(self).square(s),
            final(self).bb(p, c) == old(self).bb(p, c) ^ (1u64 << (sq.0 as u64)),
            forall|p2: Piece, c2: Side| (p2 != p || c2 != c) ==> #[trigger] final(self).bb(p2, c2) == old(self).bb(p2, c2),
    {
        let i = bb_index(p, c);
        self.bbs[i] = self.bbs[i] ^ sq.bb();
    }

    fn set_square(&mut self, sq: Sq, v: Option<Piece>)
        requires
            sq.valid(),
        ensures
            final(self).same_but_pieces(*old(self)),
            forall|s: int| 0 <= s < 64 ==> #[trigger] final(self).square(s) == (if s == sq.idx() { v } else { old(self).square(s) }),
            forall|p2: Piece, c2: Side| #[trigger] final(self).bb(p2, c2) == old(self).bb(p2, c2),
    {
        self.board[sq.0 as usize] = v;
    }

    /// The hash of the position, computed from scratch from its bitboards, side to move,
    /// castling rights and en-passant square.
    pub fn compute_hash(&self) -> (r: u64)
        requires
            self.ep_square() is Some ==> self.ep_square()->0.valid(),
        ensures
            r == self.bitboard_hash(),
            self.board_ok() ==> r == self.expected_hash(),
    {
        let mut h: u64 = 0;
        let mut s: usize = 0;
        while s < 64
            invariant
                s <= 64,
                h == self.bits_hash(s as nat),
            decreases 64 - s,
        {
            let mask = Sq(s as u8).bb();
            let mut k: u64 = 0;
            let mut i: usize = 0;
            while i < 12
                invariant
                    s < 64,
                    i <= 12,
                    mask == 1u64 << (s as u64),
                    k == self.square_bits_hash(s as int, i as nat),
                decreases 12 - i,
            {
                let (p, c) = bb_owner_of(i);
                let b = self.bb_get(p, c);
                proof {
                    crate::bits::lemma_test_square(b, s as u64);
                    lemma_xor_slots(0, k, 0, 0, 0, 0, 0);
                }
                if b & mask != 0 {
                    k = k ^ crate::zobrist::piece_sq(c, p, s);
                }
                i += 1;
            }
            h = h ^ k;
            s += 1;
        }
        let b = if self.stm == Side::Black {
            crate::zobrist::black_to_move()
        } else {
            0
        };
        let e = match self.ep {
            Some(ep) => crate::zobrist::ep_sq(ep.id()),
            None => 0,
        };
        proof {
            if self.board_ok() {
                self.lemma_bits_hash(64);
            }
        }
        crate::zobrist::base() ^ h ^ b ^ crate::zobrist::castling(self.castle_rights) ^ e
    }

    /// On a board that agrees with its bitboards, the keys that square `s` adds through the
    /// first `i` bitboards are the key of its occupant when the occupant's bitboard is among
    /// them.
    proof fn lemma_square_bits_hash(self, s: int, i: nat)
        requires
            self.board_ok(),
            0 <= s < 64,
            i <= 12,
        ensures
            self.square_bits_hash(s, i) == match self.occupant(s) {
                Some((p, c)) => if bb_idx(p, c) < i { crate::zobrist::piece_key(c, p, s) } else { 0 },
                None => 0,
            },
        decreases i,
    {
        if i > 0 {
            self.lemma_square_bits_hash(s, (i - 1) as nat);
            let (p, c) = bb_owner(i - 1);
            assert(bb_idx(p, c) == i - 1);
            let prev = self.square_bits_hash(s, (i - 1) as nat);
            let key = crate::zobrist::piece_key(c, p, s);
            lemma_xor_slots(0, prev, 0, 0, 0, 0, 0);
            lemma_xor_slots(0, key, 0, 0, 0, 0, 0);
            if in_bb(self.bb(p, c), s) {
                assert(self.square(s) == Some(p));
                if c == Side::Black {
                    assert(in_bb(self.bb(p, Side::White), s) != in_bb(self.bb(p, Side::Black), s));
                }
                assert(self.occupant(s) == Some((p, c)));
            } else {
                if self.occupant(s) == Some((p, c)) {
                    if c == Side::Black {
                        assert(in_bb(self.bb(p, Side::White), s) != in_bb(self.bb(p, Side::Black), s));
                    }
                }
                assert(self.occupant(s) != Some((p, c)));
            }
        }
    }

    /// On a board that agrees with its bitboards, hashing the set squares of the bitboards
    /// gives the hash of the occupants.
    proof fn lemma_bits_hash(self, n: nat)
        requires
            self.board_ok(),
            n <= 64,
        ensures
            self.bits_hash(n) == occupants_hash(self.occupants(), n),
        decreases n,
    {
        if n > 0 {
            self.lemma_bits_hash((n - 1) as nat);
            self.lemma_square_bits_hash(n - 1, 12);
            assert(self.occupants()[n - 1] == self.occupant(n - 1));
        }
    }

    /// Positions with the same bitboards hash their set squares alike.
    proof fn lemma_bits_hash_same(self, other: Position, n: nat)
        requires
            forall|p: Piece, c: Side| #[trigger] self.bb(p, c) == other.bb(p, c),
        ensures
            self.bits_hash(n) == other.bits_hash(n),
        decreases n,
    {
        if n > 0 {
            self.lemma_bits_hash_same(other, (n - 1) as nat);
            self.lemma_square_bits_hash_same(other, n - 1, 12);
        }
    }

    proof fn lemma_square_bits_hash_same(self, other: Position, s: int, i: nat)
        requires
            forall|p: Piece, c: Side| #[trigger] self.bb(p, c) == other.bb(p, c),
        ensures
            self.square_bits_hash(s, i) == other.square_bits_hash(s, i),
        decreases i,
    {
        if i > 0 {
            self.lemma_square_bits_hash_same(other, s, (i - 1) as nat);
            let (p, c) = bb_owner(i - 1);
            assert(self.bb(p, c) == other.bb(p, c));
        }
    }

    /// The hash computed from scratch depends on the bitboards, the side to move, the castling
    /// rights and the en-passant square alone: positions that agree on all of them hash alike,
    /// and positions that differ only in the side to move differ by the black-to-move key.
    pub proof fn lemma_hash_from_bitboards(self, other: Position)
        requires
            forall|p: Piece, c: Side| #[trigger] self.bb(p, c) == other.bb(p, c),
            self.rights() == other.rights(),
            self.ep_square() == other.ep_square(),
        ensures
            self.side_to_move() == other.side_to_move() ==> self.bitboard_hash() == other.bitboard_hash(),
            self.side_to_move() != other.side_to_move() ==> self.bitboard_hash() == other.bitboard_hash()
                ^ crate::zobrist::black_to_move_key(),
    {
        self.lemma_bits_hash_same(other, 64);
        let a = crate::zobrist::base_key();
        let b = self.bits_hash(64);
        let k = crate::zobrist::black_to_move_key();
        let d = crate::zobrist::castling_key(self.rights());
        let e = match self.ep_square() {
            Some(x) => crate::zobrist::ep_key(x.idx()),
            None => 0,
        };
        lemma_xor_slots(a, b, k, d, e, 0, k);
    }

    /// Piece and side on square `s`.
    pub(crate) fn occupant_at(&self, s: usize) -> (r: Option<(Piece, Side)>)
        requires
            s < 64,
        ensures
            r == self.occupant(s as int),
    {
        match self.board[s] {
            Some(p) => {
                let w = self.bb_get(p, Side::White);
                let b = Sq(s as u8).bb();
                Some((p, if w & b != 0 { Side::White } else { Side::Black }))
            },
            None => None,
        }
    }
}


/// The square across the rank pair from `t`: one step back towards the mover for an
/// en-passant capture.
pub open spec fn xor8(t: int) -> int {
    ((t as u8) ^ 8u8) as int
}

pub open spec fn abs_diff(a: int, b: int) -> int {
    if a >= b { a - b } else { b - a }
}

/// Single steps forward for `c`.
pub open spec fn forward(c: Side) -> int {
    if c == Side::White { 8 } else { -8 }
}

impl Position {
    /// Bitboards and board describe exactly the occupants `o`.
    pub open spec fn describes(self, o: Seq<Option<(Piece, Side)>>) -> bool {
        &&& o.len() == 64
        &&& forall|p: Piece, c: Side, s: int| #[trigger] in_bb(self.bb(p, c), s) == (0 <= s < 64 && o[s] == Some((p, c)))
        &&& forall|s: int| 0 <= s < 64 ==> #[trigger] self.square(s) == match o[s] {
            Some((p, _)) => Some(p),
            None => None,
        }
    }

    pub proof fn lemma_describes_occupants(self)
        requires
            self.board_ok(),
        ensures
            self.describes(self.occupants()),
    {
        assert forall|p: Piece, c: Side, s: int| #[trigger] in_bb(self.bb(p, c), s) == (0 <= s < 64 && self.occupants()[s] == Some((p, c))) by {
            if 0 <= s < 64 {
                if self.square(s) == Some(p) {
                    assert(self.square(s) is Some);
                }
            }
        }
    }

    pub proof fn lemma_described(self, o: Seq<Option<(Piece, Side)>>)
        requires
            self.describes(o),
            single_square(self.bb(Piece::King, Side::White)),
            single_square(self.bb(Piece::King, Side::Black)),
        ensures
            self.board_ok(),
            self.occupants() == o,
    {
        assert forall|s: int| 0 <= s < 64 && #[trigger] self.square(s) is Some implies (in_bb(self.bb(self.square(s)->0, Side::White), s) != in_bb(self.bb(self.square(s)->0, Side::Black), s)) by {
            let p = self.square(s)->0;
            assert(o[s] is Some);
            let (p2, c2) = o[s]->0;
            assert(p2 == p);
            assert(in_bb(self.bb(p, Side::White), s) == (o[s] == Some((p, Side::White))));
            assert(in_bb(self.bb(p, Side::Black), s) == (o[s] == Some((p, Side::Black))));
        }
        assert forall|p: Piece, c: Side, s: int| #[trigger] in_bb(self.bb(p, c), s) implies self.square(s) == Some(p) by {
        }
        assert(self.occupants() =~= o) by {
            assert forall|s: int| 0 <= s < 64 implies #[trigger] self.occupants()[s] == o[s] by {
                if o[s] is Some {
                    let (p, c) = o[s]->0;
                    assert(in_bb(self.bb(p, c), s));
                }
            }
        }
    }

    /// The occupants a placement describes are the position's occupants.
    pub proof fn lemma_described_occupants(self, o: Seq<Option<(Piece, Side)>>)
        requires
            self.describes(o),
        ensures
            self.occupants() == o,
    {
        assert(self.occupants() =~= o) by {
            assert forall|s: int| 0 <= s < 64 implies #[trigger] self.occupants()[s] == o[s] by {
                if o[s] is Some {
                    let (p, c) = o[s]->0;
                    assert(in_bb(self.bb(p, c), s));
                    if c == Side::Black {
                        assert(in_bb(self.bb(p, Side::White), s) == (o[s] == Some((p, Side::White))));
                    }
                } else {
                    if self.square(s) is Some {
                        assert(false);
                    }
                }
            }
        }
    }

    /// The kind of the piece moved by `mv`.
    pub open spec fn moved(self, mv: Move) -> Piece {
        self.square(mv.from_sq())->0
    }

    /// The kind standing on the target square afterwards.
    pub open spec fn end_piece(self, mv: Move) -> Piece {
        match mv.promo() {
            Some(p) => p,
            None => self.moved(mv),
        }
    }

    /// The square and kind of the piece `mv` captures.
    pub open spec fn capture_of(self, mv: Move) -> Option<(int, Piece)> {
        let f = mv.from_sq();
        let t = mv.to_sq();
        if self.square(t) is Some {
            Some((t, self.square(t)->0))
        } else if self.moved(mv) == Piece::Pawn && file_of(t) != file_of(f) {
            Some((xor8(t), self.square(xor8(t))->0))
        } else {
            None
        }
    }

    /// The rook's origin and target when `mv` castles.
    pub open spec fn castle_of(self, mv: Move) -> Option<(int, int)> {
        let f = mv.from_sq();
        let t = mv.to_sq();
        if self.moved(mv) == Piece::King && abs_diff(file_of(f), file_of(t)) > 1 {
            if file_of(t) == 6 {
                Some((rank_of(t) * 8 + 7, rank_of(t) * 8 + 5))
            } else {
                Some((rank_of(t) * 8, rank_of(t) * 8 + 3))
            }
        } else {
            None
        }
    }

    /// `mv` is a double step of a pawn.
    pub open spec fn double_step(self, mv: Move) -> bool {
        self.moved(mv) == Piece::Pawn && abs_diff(rank_of(mv.from_sq()), rank_of(mv.to_sq())) > 1
    }

    /// `mv` fits this board: it moves a piece of the side to move onto a square not held by
    /// that side; promotions are by pawns; a pawn's diagonal step onto an empty square removes
    /// an opponent piece (not the king) behind it; a pawn's double step starts on its rank and
    /// crosses an empty square; and a king's castling step has its rook in the corner and the
    /// rook's target free.
    pub open spec fn fits(self, mv: Move) -> bool {
        let f = mv.from_sq();
        let t = mv.to_sq();
        let c = self.side_to_move();
        let o = c.other();
        let ps = self.moved(mv);
        &&& mv.word() < 0x6000
        &&& f != t
        &&& self.occupant(f) matches Some((_, cc)) && cc == c
        &&& !(self.occupant(t) matches Some((_, cc)) && cc == c)
        &&& promotion_ok(mv.promo())
        &&& mv.promo() is Some ==> ps == Piece::Pawn
        &&& (ps == Piece::Pawn && file_of(t) != file_of(f) && self.square(t) is None) ==> {
            &&& xor8(t) != f
            &&& self.occupant(xor8(t)) matches Some((q, cc)) && cc == o && q != Piece::King
        }
        &&& self.double_step(mv) ==> {
            &&& rank_of(f) == pawn_start_rank(c)
            &&& t == f + 2 * forward(c)
            &&& self.square(f + forward(c)) is None
            &&& self.square(t) is None
            &&& mv.promo() is None
        }
        &&& self.castle_of(mv) matches Some((rf, rt)) ==> {
            &&& (file_of(t) == 6 || file_of(t) == 2)
            &&& self.occupant(rf) == Some((Piece::Rook, c))
            &&& self.square(rt) is None
        }
    }

    /// `mv` can be played on this board: it fits, and it does not take the opponent's king.
    pub open spec fn applicable(self, mv: Move) -> bool {
        &&& self.fits(mv)
        &&& self.occupant(mv.to_sq()) != Some((Piece::King, self.side_to_move().other()))
    }

    /// Occupants after `mv`.
    pub open spec fn after_occupants(self, mv: Move) -> Seq<Option<(Piece, Side)>> {
        let c = self.side_to_move();
        let s1 = self.occupants().update(mv.from_sq(), None);
        let s2 = match self.capture_of(mv) {
            Some((x, _)) => s1.update(x, None),
            None => s1,
        };
        let s3 = s2.update(mv.to_sq(), Some((self.end_piece(mv), c)));
        match self.castle_of(mv) {
            Some((rf, rt)) => s3.update(rf, None).update(rt, Some((Piece::Rook, c))),
            None => s3,
        }
    }

    /// Castling rights after `mv`: a king move drops both of its side's rights, a rook
    /// leaving its corner or captured there drops that corner's right.
    pub open spec fn after_rights(self, mv: Move) -> u8 {
        let c = self.side_to_move();
        let o = c.other();
        let f = mv.from_sq();
        let r = self.rights();
        let r1 = if self.moved(mv) == Piece::King {
            r & !(c.k_flag() | c.q_flag())
        } else if self.moved(mv) == Piece::Rook && file_of(f) == 7 && r & c.k_flag() != 0 && rank_of(f) == c.home() {
            r & !c.k_flag()
        } else if self.moved(mv) == Piece::Rook && file_of(f) == 0 && r & c.q_flag() != 0 && rank_of(f) == c.home() {
            r & !c.q_flag()
        } else {
            r
        };
        match self.capture_of(mv) {
            Some((x, q)) => if q == Piece::Rook && r & o.k_flag() != 0 && file_of(x) == 7 && rank_of(x) == o.home() {
                r1 & !o.k_flag()
            } else if q == Piece::Rook && r & o.q_flag() != 0 && file_of(x) == 0 && rank_of(x) == o.home() {
                r1 & !o.q_flag()
            } else {
                r1
            },
            None => r1,
        }
    }
}


/// The hash made of its parts: piece keys `hp`, side to move, castling rights, en passant.
pub open spec fn hash_parts(hp: u64, black: bool, rights: u8, ep: Option<Sq>) -> u64 {
    crate::zobrist::base_key() ^ hp ^ (if black { crate::zobrist::black_to_move_key() } else { 0 })
        ^ crate::zobrist::castling_key(rights) ^ match ep {
        Some(e) => crate::zobrist::ep_key(e.idx()),
        None => 0,
    }
}

proof fn lemma_xor_slots(a: u64, b: u64, c: u64, d: u64, e: u64, k: u64, k2: u64)
    by (bit_vector)
    ensures
        (a ^ b ^ c ^ d ^ e) ^ k == a ^ (b ^ k) ^ c ^ d ^ e,
        (a ^ b ^ c ^ d ^ e) ^ k == a ^ b ^ (c ^ k) ^ d ^ e,
        (a ^ b ^ c ^ d ^ e) ^ k == a ^ b ^ c ^ (d ^ k) ^ e,
        (a ^ b ^ c ^ d ^ e) ^ k == a ^ b ^ c ^ d ^ (e ^ k),
        (a ^ b ^ c ^ d ^ e) ^ d ^ k2 == a ^ b ^ c ^ k2 ^ e,
        (a ^ b ^ c ^ d ^ e) ^ e ^ k2 == a ^ b ^ c ^ d ^ k2,
        (a ^ b ^ c ^ d ^ e) ^ e == a ^ b ^ c ^ d ^ 0,
        (a ^ b ^ c ^ d ^ 0) ^ k2 == a ^ b ^ c ^ d ^ k2,
        (a ^ b ^ c ^ d ^ e) ^ c ^ k2 == a ^ b ^ k2 ^ d ^ e,
        (a ^ b ^ 0 ^ d ^ e) ^ k2 == a ^ b ^ k2 ^ d ^ e,
        (a ^ b ^ c ^ d ^ e) ^ c == a ^ b ^ 0 ^ d ^ e,
        b ^ 0 == b,
        0 ^ b == b,
        (b ^ k) ^ (k ^ k2) == b ^ k2,
        (b ^ 0) ^ k2 == b ^ k2,
{
}

/// Changing the occupant of one square changes the piece hash by the two keys there.
pub proof fn lemma_hash_update(o: Seq<Option<(Piece, Side)>>, x: int, v: Option<(Piece, Side)>, n: nat)
    requires
        0 <= x < 64,
        o.len() == 64,
        n <= 64,
    ensures
        occupants_hash(o.update(x, v), n) == occupants_hash(o, n) ^ (if x < n {
            Position::square_key(o[x], x) ^ Position::square_key(v, x)
        } else {
            0
        }),
    decreases n,
{
    let h = occupants_hash(o, n);
    if n == 0 {
        assert(h ^ 0 == h) by (bit_vector);
    } else {
        lemma_hash_update(o, x, v, (n - 1) as nat);
        let a = occupants_hash(o, (n - 1) as nat);
        let ko = Position::square_key(o[x], x);
        let kv = Position::square_key(v, x);
        let kn = Position::square_key(o[n - 1], n - 1);
        if x == n - 1 {
            assert((a ^ 0) ^ kv == (a ^ ko) ^ (ko ^ kv)) by (bit_vector);
        } else if x < n - 1 {
            assert((a ^ (ko ^ kv)) ^ kn == (a ^ kn) ^ (ko ^ kv)) by (bit_vector);
        } else {
            assert((a ^ 0) ^ kn == (a ^ kn) ^ 0) by (bit_vector);
        }
    }
}

impl Position {
    /// Takes the piece (`p`, `c`) off `sq`.
    fn remove_piece(&mut self, p: Piece, c: Side, sq: Sq, Ghost(o): Ghost<Seq<Option<(Piece, Side)>>>)
        requires
            sq.valid(),
            old(self).describes(o),
            o[sq.idx()] == Some((p, c)),
        ensures
            final(self).same_but_pieces(*old(self)),
            final(self).describes(o.update(sq.idx(), None)),
    {
        self.toggle(p, c, sq);
        self.set_square(sq, None);
        proof {
            let o2 = o.update(sq.idx(), None);
            assert forall|p2: Piece, c2: Side, s: int| #[trigger] in_bb(self.bb(p2, c2), s) == (0 <= s < 64 && o2[s] == Some((p2, c2))) by {
                crate::bits::lemma_in_bb_single(sq.0 as u64, s);
            }
        }
    }

    /// Puts the piece (`p`, `c`) on the empty square `sq`.
    fn put_piece(&mut self, p: Piece, c: Side, sq: Sq, Ghost(o): Ghost<Seq<Option<(Piece, Side)>>>)
        requires
            sq.valid(),
            old(self).describes(o),
            o[sq.idx()] is None,
        ensures
            final(self).same_but_pieces(*old(self)),
            final(self).describes(o.update(sq.idx(), Some((p, c)))),
    {
        self.toggle(p, c, sq);
        self.set_square(sq, Some(p));
        proof {
            let o2 = o.update(sq.idx(), Some((p, c)));
            assert forall|p2: Piece, c2: Side, s: int| #[trigger] in_bb(self.bb(p2, c2), s) == (0 <= s < 64 && o2[s] == Some((p2, c2))) by {
                crate::bits::lemma_in_bb_single(sq.0 as u64, s);
            }
        }
    }
}


impl Position {
    /// The hash agrees with the occupants `o` and the other fields.
    pub open spec fn hash_matches(self, o: Seq<Option<(Piece, Side)>>) -> bool {
        self.hash_value() == hash_parts(occupants_hash(o, 64), self.side_to_move() == Side::Black, self.rights(), self.ep_square())
    }

    /// Takes (`p`, `c`) off `sq`, keeping the hash in step.
    fn lift_piece(&mut self, p: Piece, c: Side, sq: Sq, Ghost(o): Ghost<Seq<Option<(Piece, Side)>>>)
        requires
            sq.valid(),
            old(self).describes(o),
            old(self).hash_matches(o),
            o[sq.idx()] == Some((p, c)),
        ensures
            final(self).same_but_hash(*old(self)),
            final(self).describes(o.update(sq.idx(), None)),
            final(self).hash_matches(o.update(sq.idx(), None)),
    {
        let k = crate::zobrist::piece_sq(c, p, sq.id());
        let ghost before = *self;
        self.remove_piece(p, c, sq, Ghost(o));
        let ghost mid = *self;
        self.hash = self.hash ^ k;
        proof {
            assert(self.same_board(mid));
            self.lemma_same_board(mid);
            assert(self.describes(o.update(sq.idx(), None)));
            lemma_hash_update(o, sq.idx(), None, 64);
            lemma_xor_slots(0, k, 0, 0, 0, 0, 0);
            let bk = if before.side_to_move() == Side::Black { crate::zobrist::black_to_move_key() } else { 0 };
            let ek = match before.ep_square() { Some(e) => crate::zobrist::ep_key(e.idx()), None => 0 };
            lemma_xor_slots(crate::zobrist::base_key(), occupants_hash(o, 64), bk, crate::zobrist::castling_key(before.rights()), ek, k, 0);
        }
    }

    /// Puts (`p`, `c`) on the empty square `sq`, keeping the hash in step.
    fn drop_piece(&mut self, p: Piece, c: Side, sq: Sq, Ghost(o): Ghost<Seq<Option<(Piece, Side)>>>)
        requires
            sq.valid(),
            old(self).describes(o),
            old(self).hash_matches(o),
            o[sq.idx()] is None,
        ensures
            final(self).same_but_hash(*old(self)),
            final(self).describes(o.update(sq.idx(), Some((p, c)))),
            final(self).hash_matches(o.update(sq.idx(), Some((p, c)))),
    {
        let k = crate::zobrist::piece_sq(c, p, sq.id());
        let ghost before = *self;
        self.put_piece(p, c, sq, Ghost(o));
        let ghost mid = *self;
        self.hash = self.hash ^ k;
        proof {
            assert(self.same_board(mid));
            self.lemma_same_board(mid);
            assert(self.describes(o.update(sq.idx(), Some((p, c)))));
            lemma_hash_update(o, sq.idx(), Some((p, c)), 64);
            let bk = if before.side_to_move() == Side::Black { crate::zobrist::black_to_move_key() } else { 0 };
            let ek = match before.ep_square() { Some(e) => crate::zobrist::ep_key(e.idx()), None => 0 };
            lemma_xor_slots(crate::zobrist::base_key(), occupants_hash(o, 64), bk, crate::zobrist::castling_key(before.rights()), ek, k, 0);
            lemma_xor_slots(0, occupants_hash(o, 64), 0, 0, 0, k, 0);
        }
    }
}

/// A bitboard whose only square is `k` holds a single square.
pub proof fn lemma_single_from_squares(b: u64, k: int)
    requires
        0 <= k < 64,
        forall|s: int| #[trigger] in_bb(b, s) == (s == k),
    ensures
        single_square(b),
{
    let m = 1u64 << (k as u64);
    assert forall|s: int| #[trigger] in_bb(b, s) == in_bb(m, s) by {
        crate::bits::lemma_in_bb_single(k as u64, s);
    }
    crate::bits::lemma_same_squares_eq(b, m);
    let kk = k as u64;
    assert(m != 0 && m & ((m - 1) as u64) == 0) by (bit_vector)
        requires
            kk < 64,
            m == 1u64 << kk,
    ;
}


impl Position {
    /// The square and kind of the piece `mv` captures, if any.
    pub(crate) fn capture(&self, mv: Move) -> (r: Option<(Sq, Piece)>)
        requires
            self.board_ok(),
            self.fits(mv),
        ensures
            match self.capture_of(mv) {
                Some((x, q)) => r matches Some((sq, p)) && sq.valid() && sq.idx() == x && p == q,
                None => r is None,
            },
    {
        let to = mv.to();
        let from = mv.from();
        if let Some(p) = self.board[to.id()] {
            Some((to, p))
        } else {
            let ps = match self.board[from.id()] {
                Some(p) => p,
                None => {
                    proof { assert(false); }
                    Piece::Pawn
                },
            };
            if ps == Piece::Pawn && to.file() != from.file() {
                let x = to.0;
                assert(x ^ 8u8 < 64) by (bit_vector)
                    requires
                        x < 64,
                ;
                let sq = Sq(to.0 ^ 8);
                match self.board[sq.id()] {
                    Some(p) => Some((sq, p)),
                    None => {
                        proof { assert(false); }
                        None
                    },
                }
            } else {
                None
            }
        }
    }

    /// The rook's origin and target when `mv` castles.
    pub(crate) fn castle(&self, mv: Move) -> (r: Option<(Sq, Sq)>)
        requires
            self.board_ok(),
            self.fits(mv),
        ensures
            match self.castle_of(mv) {
                Some((rf, rt)) => r matches Some((a, b)) && a.valid() && b.valid() && a.idx() == rf && b.idx() == rt,
                None => r is None,
            },
    {
        let from = mv.from();
        let to = mv.to();
        let ps = match self.board[from.id()] {
            Some(p) => p,
            None => {
                proof { assert(false); }
                Piece::Pawn
            },
        };
        if ps != Piece::King {
            return None;
        }
        let ff = from.file();
        let tf = to.file();
        let d = if ff >= tf { ff - tf } else { tf - ff };
        if d <= 1 {
            return None;
        }
        let (rook_from_file, rook_to_file) = if tf == 6 {
            (7usize, 5usize)
        } else {
            (0usize, 3usize)
        };
        let rank = to.rank();
        Some((Sq::from_coords(rank, rook_from_file), Sq::from_coords(rank, rook_to_file)))
    }

    /// Recomputes threats, pins and checkers, and drops an unusable en-passant square.
    pub fn update_threats_checkers_ep_and_pins(&mut self)
        requires
            old(self).board_ok(),
            old(self).ep_square() matches Some(e) ==> e.valid(),
        ensures
            final(self).threats_ok(),
            final(self).pins_ok(),
            final(self).checkers_ok(),
            final(self).board_ok(),
            forall|p: Piece, c: Side| #[trigger] final(self).bb(p, c) == old(self).bb(p, c),
            forall|s: int| #[trigger] final(self).square(s) == old(self).square(s),
            final(self).side_to_move() == old(self).side_to_move(),
            final(self).rights() == old(self).rights(),
            final(self).halfmoves() == old(self).halfmoves(),
            final(self).fullmove_number() == old(self).fullmove_number(),
            final(self).ep_square() == (if old(self).ep_kept() { old(self).ep_square() } else { None }),
            final(self).hash_value() == match old(self).ep_square() {
                Some(e) => if old(self).ep_kept() { old(self).hash_value() } else { old(self).hash_value() ^ crate::zobrist::ep_key(e.idx()) },
                None => old(self).hash_value(),
            },
    {
        self.update_threats();
        let ghost a = *self;
        self.update_pins();
        let ghost b = *self;
        self.update_checkers();
        let ghost c = *self;
        self.update_ep();
        proof {
            a.lemma_same_pieces(b);
            a.lemma_same_pieces(c);
            b.lemma_same_pieces(c);
            assert(self.same_pieces(c));
            c.lemma_same_pieces(*self);
            a.lemma_same_pieces(*self);
            b.lemma_same_pieces(*self);
        }
    }
}


/// Clearing the bits `m` of castling rights `r` keeps exactly the other set bits.
pub proof fn lemma_clear_bits(r: u8, m: u8, b: u8)
    ensures
        ((r & !m) & b != 0) == (r & b != 0 && m & b == 0) || (b != 1 && b != 2 && b != 4 && b != 8),
        r < 16 ==> (r & !m) < 16,
{
    assert((b == 1 || b == 2 || b == 4 || b == 8 ==> (((r & !m) & b != 0) == (r & b != 0 && m & b == 0)))
        && (r < 16 ==> (r & !m) < 16)) by (bit_vector);
}


/// Clearing the flags `m` (one flag, or both flags of a side) keeps flag `b` exactly when `b`
/// is not among them.
pub proof fn lemma_clear_flag(r: u8, m: u8, b: u8)
    requires
        b == 1 || b == 2 || b == 4 || b == 8,
        m == 1 || m == 2 || m == 4 || m == 8 || m == 3 || m == 12,
    ensures
        ((r & !m) & b != 0) == (r & b != 0 && !(m == b || (m == 3 && (b == 1 || b == 2)) || (m == 12 && (b == 4 || b == 8)))),
{
    assert(((r & !m) & b != 0) == (r & b != 0 && !(m == b || (m == 3 && (b == 1 || b == 2)) || (m == 12 && (b == 4 || b == 8)))))
        by (bit_vector)
        requires
            b == 1 || b == 2 || b == 4 || b == 8,
            m == 1 || m == 2 || m == 4 || m == 8 || m == 3 || m == 12,
    ;
}

/// The king of side `k` stands on `a` and on no other square (nowhere, for `None`).
pub open spec fn king_at(o: Seq<Option<(Piece, Side)>>, k: Side, a: Option<int>) -> bool {
    forall|s: int| 0 <= s < 64 ==> (#[trigger] o[s] == Some((Piece::King, k))) == (a == Some(s))
}

pub proof fn lemma_king_update(o: Seq<Option<(Piece, Side)>>, k: Side, a: Option<int>, x: int, v: Option<(Piece, Side)>)
    requires
        o.len() == 64,
        0 <= x < 64,
        king_at(o, k, a),
        v == Some((Piece::King, k)) ==> a is None || a == Some(x),
    ensures
        king_at(o.update(x, v), k, if v == Some((Piece::King, k)) {
            Some(x)
        } else if a == Some(x) {
            None
        } else {
            a
        }),
{
}

impl Position {
    /// The square of the king of `k` after `mv`.
    pub open spec fn after_king(self, mv: Move, k: Side) -> int {
        if k == self.side_to_move() && self.moved(mv) == Piece::King {
            mv.to_sq()
        } else {
            self.king_square(k)
        }
    }

    pub(crate) proof fn lemma_kings_at(self)
        requires
            self.board_ok(),
        ensures
            king_at(self.occupants(), Side::White, Some(self.king_square(Side::White))),
            king_at(self.occupants(), Side::Black, Some(self.king_square(Side::Black))),
    {
        self.lemma_describes_occupants();
        self.lemma_kings();
        let o = self.occupants();
        assert forall|s: int| 0 <= s < 64 implies (#[trigger] o[s] == Some((Piece::King, Side::White))) == (Some(self.king_square(Side::White)) == Some(s)) by {
            assert(in_bb(self.bb(Piece::King, Side::White), s) == (o[s] == Some((Piece::King, Side::White))));
        }
        assert forall|s: int| 0 <= s < 64 implies (#[trigger] o[s] == Some((Piece::King, Side::Black))) == (Some(self.king_square(Side::Black)) == Some(s)) by {
            assert(in_bb(self.bb(Piece::King, Side::Black), s) == (o[s] == Some((Piece::King, Side::Black))));
            assert(self.piece_on(s, Piece::King, Side::Black) == (s == self.king_square(Side::Black)));
        }
    }

    /// Moves the pieces of `mv` on a copy of the position, updating the piece part of the hash.
    fn move_pieces(&self, mv: Move) -> (r: Position)
        requires
            self.wf(),
            self.applicable(mv),
        ensures
            r.same_but_hash(*self),
            r.describes(self.after_occupants(mv)),
            r.hash_matches(self.after_occupants(mv)),
            king_at(self.after_occupants(mv), Side::White, Some(self.after_king(mv, Side::White))),
            king_at(self.after_occupants(mv), Side::Black, Some(self.after_king(mv, Side::Black))),
    {
        proof {
            self.lemma_describes_occupants();
            self.lemma_kings_at();
            Move::lemma_squares(mv);
        }
        let c = self.stm;
        let o = c.opp();
        let from = mv.from();
        let to = mv.to();
        let ghost o0 = self.occupants();
        let piece_start = match self.board[from.id()] {
            Some(p) => p,
            None => {
                proof { assert(false); }
                Piece::Pawn
            },
        };
        let piece_end = match mv.promotion() {
            Some(p) => p,
            None => piece_start,
        };
        let capture = self.capture(mv);
        let castle = self.castle(mv);
        let mut result = *self;
        let ghost mut cur = o0;
        let ghost mut kw = Some(self.king_square(Side::White));
        let ghost mut kb = Some(self.king_square(Side::Black));

        result.lift_piece(piece_start, c, from, Ghost(cur));
        proof {
            lemma_king_update(cur, Side::White, kw, from.idx(), None);
            lemma_king_update(cur, Side::Black, kb, from.idx(), None);
            kw = if kw == Some(from.idx()) { None } else { kw };
            kb = if kb == Some(from.idx()) { None } else { kb };
            cur = cur.update(from.idx(), None);
        }
        if let Some((cap_sq, cap_piece)) = capture {
            result.lift_piece(cap_piece, o, cap_sq, Ghost(cur));
            proof {
                lemma_king_update(cur, Side::White, kw, cap_sq.idx(), None);
                lemma_king_update(cur, Side::Black, kb, cap_sq.idx(), None);
                kw = if kw == Some(cap_sq.idx()) { None } else { kw };
                kb = if kb == Some(cap_sq.idx()) { None } else { kb };
                cur = cur.update(cap_sq.idx(), None);
            }
        }
        result.drop_piece(piece_end, c, to, Ghost(cur));
        proof {
            lemma_king_update(cur, Side::White, kw, to.idx(), Some((piece_end, c)));
            lemma_king_update(cur, Side::Black, kb, to.idx(), Some((piece_end, c)));
            kw = if Some((piece_end, c)) == Some((Piece::King, Side::White)) { Some(to.idx()) } else if kw == Some(to.idx()) { None } else { kw };
            kb = if Some((piece_end, c)) == Some((Piece::King, Side::Black)) { Some(to.idx()) } else if kb == Some(to.idx()) { None } else { kb };
            cur = cur.update(to.idx(), Some((piece_end, c)));
        }
        if let Some((rook_from, rook_to)) = castle {
            result.lift_piece(Piece::Rook, c, rook_from, Ghost(cur));
            proof {
                lemma_king_update(cur, Side::White, kw, rook_from.idx(), None);
                lemma_king_update(cur, Side::Black, kb, rook_from.idx(), None);
                cur = cur.update(rook_from.idx(), None);
            }
            result.drop_piece(Piece::Rook, c, rook_to, Ghost(cur));
            proof {
                lemma_king_update(cur, Side::White, kw, rook_to.idx(), Some((Piece::Rook, c)));
                lemma_king_update(cur, Side::Black, kb, rook_to.idx(), Some((Piece::Rook, c)));
                cur = cur.update(rook_to.idx(), Some((Piece::Rook, c)));
            }
        }
        proof {
            assert(cur == self.after_occupants(mv));
        }
        result
    }
}


/// Flipping bit 3 of a square index steps one rank towards the centre pair: down from an odd
/// rank, up from an even one.
pub proof fn lemma_xor8(s: int)
    requires
        0 <= s < 64,
    ensures
        xor8(s) == if rank_of(s) % 2 == 1 { s - 8 } else { s + 8 },
        0 <= xor8(s) < 64,
{
    let x = s as u8;
    assert((x ^ 8u8) as int == if (x / 8) % 2 == 1 { x - 8 } else { x + 8 }) by (bit_vector)
        requires
            x < 64,
    ;
}

impl Position {
    /// A square that `mv` neither empties nor fills keeps its occupant.
    proof fn lemma_untouched(self, mv: Move, q: int)
        requires
            self.board_ok(),
            self.applicable(mv),
            0 <= q < 64,
            q != mv.from_sq(),
            q != mv.to_sq(),
            self.capture_of(mv) matches Some((x, _)) ==> q != x,
            self.castle_of(mv) matches Some((rf, rt)) ==> q != rf && q != rt,
        ensures
            self.after_occupants(mv)[q] == self.occupants()[q],
    {
        Move::lemma_squares(mv);
        lemma_xor8(mv.to_sq());
    }

    /// The rights left after `mv` are among those before it, minus the mover's when its king
    /// moves, minus a corner's when its rook leaves or is captured there.
    proof fn lemma_rights_kept(self, mv: Move, b: u8)
        requires
            self.rights() < 16,
            b == 1 || b == 2 || b == 4 || b == 8,
            self.after_rights(mv) & b != 0,
        ensures
            self.rights() & b != 0,
            self.moved(mv) == Piece::King ==> self.side_to_move().k_flag() != b && self.side_to_move().q_flag() != b,
            (self.moved(mv) == Piece::Rook && rank_of(mv.from_sq()) == self.side_to_move().home() && file_of(mv.from_sq()) == 7)
                ==> self.side_to_move().k_flag() != b,
            (self.moved(mv) == Piece::Rook && rank_of(mv.from_sq()) == self.side_to_move().home() && file_of(mv.from_sq()) == 0)
                ==> self.side_to_move().q_flag() != b,
            self.capture_of(mv) matches Some((x, q)) ==> (q == Piece::Rook && rank_of(x) == self.side_to_move().other().home()
                && file_of(x) == 7 ==> self.side_to_move().other().k_flag() != b),
            self.capture_of(mv) matches Some((x, q)) ==> (q == Piece::Rook && rank_of(x) == self.side_to_move().other().home()
                && file_of(x) == 0 ==> self.side_to_move().other().q_flag() != b),
    {
        let r = self.rights();
        let c = self.side_to_move();
        let o = c.other();
        let f = mv.from_sq();
        let both = c.k_flag() | c.q_flag();
        assert(1u8 | 2u8 == 3u8 && 4u8 | 8u8 == 12u8) by (bit_vector);
        assert(c == Side::White ==> both == 3);
        assert(c == Side::Black ==> both == 12);
        lemma_clear_flag(r, both, b);
        lemma_clear_flag(r, c.k_flag(), b);
        lemma_clear_flag(r, c.q_flag(), b);
        let r1 = if self.moved(mv) == Piece::King {
            r & !both
        } else if self.moved(mv) == Piece::Rook && file_of(f) == 7 && r & c.k_flag() != 0 && rank_of(f) == c.home() {
            r & !c.k_flag()
        } else if self.moved(mv) == Piece::Rook && file_of(f) == 0 && r & c.q_flag() != 0 && rank_of(f) == c.home() {
            r & !c.q_flag()
        } else {
            r
        };
        lemma_clear_flag(r1, o.k_flag(), b);
        lemma_clear_flag(r1, o.q_flag(), b);
        assert(r1 & b != 0);
    }

    /// A castling right survives `mv` only with its king and rook still in place.
    #[verifier::spinoff_prover]
    proof fn lemma_corner(self, mv: Move, k: Side, b: u8, ks: int, rs: int)
        requires
            self.board_ok(),
            self.castle_ok(),
            self.applicable(mv),
            (k == Side::White && b == 1 && ks == 4 && rs == 7) || (k == Side::White && b == 2 && ks == 4 && rs == 0)
                || (k == Side::Black && b == 4 && ks == 60 && rs == 63) || (k == Side::Black && b == 8 && ks == 60 && rs == 56),
        ensures
            self.after_rights(mv) & b != 0 ==> self.after_occupants(mv)[ks] == Some((Piece::King, k)) && self.after_occupants(mv)[rs] == Some((Piece::Rook, k)),
    {
        if self.after_rights(mv) & b != 0 {
            self.lemma_describes_occupants();
            Move::lemma_squares(mv);
            lemma_xor8(mv.to_sq());
            self.lemma_rights_kept(mv, b);
            let o0 = self.occupants();
            let c = self.side_to_move();
            let f = mv.from_sq();
            let t = mv.to_sq();
            assert(o0[ks] == Some((Piece::King, k)));
            assert(o0[rs] == Some((Piece::Rook, k)));
            assert(k.k_flag() == b || k.q_flag() == b);
            assert(k == c ==> c.k_flag() == b || c.q_flag() == b);
            assert(k != c ==> c.other().k_flag() == b || c.other().q_flag() == b);
            assert(f != ks && f != rs) by {
                if f == ks || f == rs {
                    assert(self.occupant(f) == o0[f]);
                }
            }
            assert(t != ks && t != rs) by {
                if t == ks || t == rs {
                    assert(self.occupant(t) == o0[t]);
                    assert(self.capture_of(mv) == Some((t, self.square(t)->0)));
                }
            }
            assert(self.capture_of(mv) matches Some((x, _)) ==> x != ks && x != rs) by {
                if let Some((x, q)) = self.capture_of(mv) {
                    if x != t {
                        assert(self.occupant(x) == o0[x]);
                    }
                }
            }
            assert(self.castle_of(mv) matches Some((rf, rt)) ==> rf != ks && rf != rs && rt != ks && rt != rs) by {
                if let Some((rf, rt)) = self.castle_of(mv) {
                    assert(self.occupant(rf) == o0[rf]);
                    assert(self.occupant(ks) == o0[ks]);
                    assert(self.occupant(rs) == o0[rs]);
                }
            }
            self.lemma_untouched(mv, ks);
            self.lemma_untouched(mv, rs);
        }
    }
}

impl Position {
    /// The kind of the piece `mv` moves.
    fn moved_piece(&self, mv: Move) -> (r: Piece)
        requires
            self.applicable(mv),
        ensures
            r == self.moved(mv),
    {
        proof { Move::lemma_squares(mv); }
        match self.board[mv.from().id()] {
            Some(p) => p,
            None => {
                proof { assert(false); }
                Piece::Pawn
            },
        }
    }

    /// Castling rights after `mv`.
    fn next_rights(&self, mv: Move) -> (r: u8)
        requires
            self.board_ok(),
            self.applicable(mv),
        ensures
            r == self.after_rights(mv),
    {
        let c = self.stm;
        let o = c.opp();
        let from = mv.from();
        let ps = self.moved_piece(mv);
        let mut rights = self.castle_rights;
        if ps == Piece::King {
            rights = rights & !(c.king_castle_rights_flag() | c.queen_castle_rights_flag());
        } else if ps == Piece::Rook {
            if from.file() == 7 && self.has_king_castle_rights(c) && from.rank() == c.home_rank() {
                rights = rights & !c.king_castle_rights_flag();
            } else if from.file() == 0 && self.has_queen_castle_rights(c) && from.rank() == c.home_rank() {
                rights = rights & !c.queen_castle_rights_flag();
            }
        }
        match self.capture(mv) {
            Some((sq, q)) => {
                if q == Piece::Rook && self.has_king_castle_rights(o) && sq.file() == 7 && sq.rank() == o.home_rank() {
                    rights = rights & !o.king_castle_rights_flag();
                } else if q == Piece::Rook && self.has_queen_castle_rights(o) && sq.file() == 0 && sq.rank() == o.home_rank() {
                    rights = rights & !o.queen_castle_rights_flag();
                }
            },
            None => {},
        }
        rights
    }

    /// The en-passant square `mv` leaves behind before checking that it can be used.
    pub open spec fn ep_candidate(self, mv: Move) -> Option<Sq> {
        if self.double_step(mv) {
            Some(Sq(xor8(mv.to_sq()) as u8))
        } else {
            None
        }
    }

    /// The halfmove clock after `mv`: reset by pawn moves and captures, else one more (wrapping).
    pub open spec fn after_halfmoves(self, mv: Move) -> i16 {
        if self.moved(mv) == Piece::Pawn || self.capture_of(mv) is Some {
            0
        } else {
            vstd::wrapping::i16_specs::wrapping_add(self.halfmoves(), 1)
        }
    }
}

impl Position {
    /// The fullmove number after `mv`: one more (wrapping) after Black moves.
    pub open spec fn after_fullmoves(self) -> i16 {
        if self.side_to_move() == Side::Black {
            vstd::wrapping::i16_specs::wrapping_add(self.fullmove_number(), 1)
        } else {
            self.fullmove_number()
        }
    }

    /// `r` is the position after `mv`: well formed, with the pieces moved, the other side to
    /// move, the rights, clocks and en-passant square that the move leaves.
    pub open spec fn plays(self, mv: Move, r: Position) -> bool {
        &&& r.wf()
        &&& r.occupants() == self.after_occupants(mv)
        &&& r.side_to_move() == self.side_to_move().other()
        &&& r.rights() == self.after_rights(mv)
        &&& r.halfmoves() == self.after_halfmoves(mv)
        &&& r.fullmove_number() == self.after_fullmoves()
        &&& r.ep_square() == (match self.ep_candidate(mv) {
            Some(e) => if r.with_ep_hash(Some(e), 0).ep_kept() { Some(e) } else { None },
            None => None,
        })
    }

    /// Plays `mv`, returning the new position; `self` is left as it was.
    pub fn make_move(&self, mv: Move) -> (r: Position)
        requires
            self.wf(),
            self.applicable(mv),
        ensures
            r.wf(),
            r.occupants() == self.after_occupants(mv),
            r.side_to_move() == self.side_to_move().other(),
            r.rights() == self.after_rights(mv),
            r.halfmoves() == self.after_halfmoves(mv),
            r.fullmove_number() == self.after_fullmoves(),
            r.ep_square() == (match self.ep_candidate(mv) {
                Some(e) => if r.with_ep_hash(Some(e), 0).ep_kept() { Some(e) } else { None },
                None => None,
            }),
    {
        proof {
            self.lemma_describes_occupants();
            Move::lemma_squares(mv);
        }
        let c = self.stm;
        let from = mv.from();
        let to = mv.to();
        let ps = self.moved_piece(mv);
        let capture = self.capture(mv);
        let rights = self.next_rights(mv);
        let mut result = self.move_pieces(mv);
        let ghost placed = result;
        let ghost o1 = self.after_occupants(mv);
        let ghost hp = occupants_hash(o1, 64);
        let ghost bk = if c == Side::Black { crate::zobrist::black_to_move_key() } else { 0 };
        let ghost ek = match self.ep { Some(e) => crate::zobrist::ep_key(e.idx()), None => 0 };
        let ghost base = crate::zobrist::base_key();
        assert(result.hash == base ^ hp ^ bk ^ crate::zobrist::castling_key(self.castle_rights) ^ ek);

        let k_old = crate::zobrist::castling(self.castle_rights);
        let k_new = crate::zobrist::castling(rights);
        result.castle_rights = rights;
        result.hash = result.hash ^ k_old ^ k_new;
        proof { lemma_xor_slots(base, hp, bk, k_old, ek, 0, k_new); }

        if let Some(e) = self.ep {
            result.hash = result.hash ^ crate::zobrist::ep_sq(e.id());
            proof { lemma_xor_slots(base, hp, bk, k_new, ek, 0, 0); }
        }
        assert(result.hash == base ^ hp ^ bk ^ k_new ^ 0);

        let fr = from.rank();
        let tr = to.rank();
        let rank_gap = if fr >= tr { fr - tr } else { tr - fr };
        let double = ps == Piece::Pawn && rank_gap > 1;
        let ghost mut ek2: u64 = 0;
        if double {
            let x = to.0;
            assert(x ^ 8u8 < 64) by (bit_vector)
                requires
                    x < 64,
            ;
            let sq = Sq(to.0 ^ 8);
            let k = crate::zobrist::ep_sq(sq.id());
            result.hash = result.hash ^ k;
            result.ep = Some(sq);
            proof {
                lemma_xor_slots(base, hp, bk, k_new, 0, 0, k);
                ek2 = k;
            }
        } else {
            result.ep = None;
        }
        assert(result.hash == base ^ hp ^ bk ^ k_new ^ ek2);

        if ps == Piece::Pawn || capture.is_some() {
            result.halfmove_clock = 0;
        } else {
            result.halfmove_clock = self.halfmove_clock.wrapping_add(1);
        }
        if c == Side::Black {
            result.fullmoves = self.fullmoves.wrapping_add(1);
        }
        result.stm = c.opp();
        let btm = crate::zobrist::black_to_move();
        result.hash = result.hash ^ btm;
        proof {
            if c == Side::Black {
                lemma_xor_slots(base, hp, bk, k_new, ek2, 0, 0);
            } else {
                lemma_xor_slots(base, hp, 0, k_new, ek2, btm, btm);
            }
        }
        assert(result.hash == hash_parts(hp, result.stm == Side::Black, rights, result.ep));
        proof {
            assert(result.same_board(placed));
            result.lemma_same_board(placed);
            self.lemma_after_wf(mv, result);
        }
        let ghost mid = result;
        result.update_threats_checkers_ep_and_pins();
        proof {
            mid.lemma_after_update(result);
        }
        result
    }
}

impl Position {
    /// After the pieces of `mv` have moved and the side, rights, en-passant square and hash
    /// have been set, the board, castling rights, en-passant square and hash are consistent.
    proof fn lemma_after_wf(self, mv: Move, r: Position)
        requires
            self.wf(),
            self.applicable(mv),
            r.describes(self.after_occupants(mv)),
            king_at(self.after_occupants(mv), Side::White, Some(self.after_king(mv, Side::White))),
            king_at(self.after_occupants(mv), Side::Black, Some(self.after_king(mv, Side::Black))),
            r.side_to_move() == self.side_to_move().other(),
            r.rights() == self.after_rights(mv),
            r.ep_square() == self.ep_candidate(mv),
            r.hash_value() == hash_parts(occupants_hash(self.after_occupants(mv), 64), r.side_to_move() == Side::Black, r.rights(), r.ep_square()),
        ensures
            r.board_ok(),
            r.castle_ok(),
            r.ep_ok(),
            r.occupants() == self.after_occupants(mv),
            r.hash_value() == r.expected_hash(),
            r.ep_square() matches Some(e) ==> e.valid(),
    {
        let o1 = self.after_occupants(mv);
        Move::lemma_squares(mv);
        self.lemma_kings();
        self.lemma_describes_occupants();
        assert forall|s: int| #[trigger] in_bb(r.bb(Piece::King, Side::White), s) == (s == self.after_king(mv, Side::White)) by {
            assert(in_bb(r.bb(Piece::King, Side::White), s) == (0 <= s < 64 && o1[s] == Some((Piece::King, Side::White))));
        }
        assert forall|s: int| #[trigger] in_bb(r.bb(Piece::King, Side::Black), s) == (s == self.after_king(mv, Side::Black)) by {
            assert(in_bb(r.bb(Piece::King, Side::Black), s) == (0 <= s < 64 && o1[s] == Some((Piece::King, Side::Black))));
        }
        lemma_single_from_squares(r.bb(Piece::King, Side::White), self.after_king(mv, Side::White));
        lemma_single_from_squares(r.bb(Piece::King, Side::Black), self.after_king(mv, Side::Black));
        r.lemma_described(o1);
        self.lemma_castle_after(mv, r);
        self.lemma_ep_after(mv, r);
    }

    proof fn lemma_castle_after(self, mv: Move, r: Position)
        requires
            self.board_ok(),
            self.castle_ok(),
            self.applicable(mv),
            r.describes(self.after_occupants(mv)),
            r.rights() == self.after_rights(mv),
        ensures
            r.castle_ok(),
    {
        let o1 = self.after_occupants(mv);
        self.lemma_corner(mv, Side::White, 1, 4, 7);
        self.lemma_corner(mv, Side::White, 2, 4, 0);
        self.lemma_corner(mv, Side::Black, 4, 60, 63);
        self.lemma_corner(mv, Side::Black, 8, 60, 56);
        let x = self.rights();
        let c = self.side_to_move();
        let o = c.other();
        lemma_clear_bits(x, c.k_flag() | c.q_flag(), 1);
        lemma_clear_bits(x, c.k_flag(), 1);
        lemma_clear_bits(x, c.q_flag(), 1);
        let f = mv.from_sq();
        let r1 = if self.moved(mv) == Piece::King {
            x & !(c.k_flag() | c.q_flag())
        } else if self.moved(mv) == Piece::Rook && file_of(f) == 7 && x & c.k_flag() != 0 && rank_of(f) == c.home() {
            x & !c.k_flag()
        } else if self.moved(mv) == Piece::Rook && file_of(f) == 0 && x & c.q_flag() != 0 && rank_of(f) == c.home() {
            x & !c.q_flag()
        } else {
            x
        };
        lemma_clear_bits(r1, o.k_flag(), 1);
        lemma_clear_bits(r1, o.q_flag(), 1);
        assert(r.piece_on(4, Piece::King, Side::White) == (o1[4] == Some((Piece::King, Side::White))));
        assert(r.piece_on(7, Piece::Rook, Side::White) == (o1[7] == Some((Piece::Rook, Side::White))));
        assert(r.piece_on(0, Piece::Rook, Side::White) == (o1[0] == Some((Piece::Rook, Side::White))));
        assert(r.piece_on(60, Piece::King, Side::Black) == (o1[60] == Some((Piece::King, Side::Black))));
        assert(r.piece_on(63, Piece::Rook, Side::Black) == (o1[63] == Some((Piece::Rook, Side::Black))));
        assert(r.piece_on(56, Piece::Rook, Side::Black) == (o1[56] == Some((Piece::Rook, Side::Black))));
    }

    proof fn lemma_ep_after(self, mv: Move, r: Position)
        requires
            self.board_ok(),
            self.applicable(mv),
            r.describes(self.after_occupants(mv)),
            r.side_to_move() == self.side_to_move().other(),
            r.ep_square() == self.ep_candidate(mv),
        ensures
            r.ep_ok(),
            r.ep_square() matches Some(e) ==> e.valid(),
    {
        if self.double_step(mv) {
            let o1 = self.after_occupants(mv);
            let c = self.side_to_move();
            let f = mv.from_sq();
            let t = mv.to_sq();
            Move::lemma_squares(mv);
            lemma_xor8(t);
            let e = xor8(t);
            assert(e == f + forward(c));
            assert(file_of(t) == file_of(f));
            assert(self.capture_of(mv) is None);
            assert(self.castle_of(mv) is None);
            self.lemma_untouched(mv, e);
            self.lemma_describes_occupants();
            assert(o1[e] is None);
            assert(o1[t] == Some((Piece::Pawn, c)));
            assert(r.square(e) is None);
            assert(c == Side::White ==> r.piece_on(e + 8, Piece::Pawn, Side::White));
            assert(c == Side::Black ==> r.piece_on(e - 8, Piece::Pawn, Side::Black));
        }
    }
}

impl Position {
    /// Recomputing the cached attack data of a consistent position gives a well-formed one.
    #[verifier::spinoff_prover]
    pub(crate) proof fn lemma_after_update(self, r: Position)
        requires
            self.board_ok(),
            self.castle_ok(),
            self.ep_ok(),
            self.hash_value() == self.expected_hash(),
            r.threats_ok(),
            r.pins_ok(),
            r.checkers_ok(),
            r.board_ok(),
            forall|p: Piece, c: Side| #[trigger] r.bb(p, c) == self.bb(p, c),
            forall|s: int| #[trigger] r.square(s) == self.square(s),
            r.side_to_move() == self.side_to_move(),
            r.rights() == self.rights(),
            r.ep_square() == (if self.ep_kept() { self.ep_square() } else { None }),
            r.hash_value() == match self.ep_square() {
                Some(e) => if self.ep_kept() { self.hash_value() } else { self.hash_value() ^ crate::zobrist::ep_key(e.idx()) },
                None => self.hash_value(),
            },
        ensures
            r.wf(),
            r.occupants() == self.occupants(),
            r.ep_square() == (match self.ep_square() {
                Some(e) => if r.with_ep_hash(Some(e), 0).ep_kept() { Some(e) } else { None },
                None => None,
            }),
    {
        assert(r.occupants() =~= self.occupants()) by {
            assert forall|s: int| 0 <= s < 64 implies #[trigger] r.occupants()[s] == self.occupants()[s] by {
                assert(r.square(s) == self.square(s));
            }
        }
        let hp = occupants_hash(self.occupants(), 64);
        let bk = if self.side_to_move() == Side::Black { crate::zobrist::black_to_move_key() } else { 0 };
        let ck = crate::zobrist::castling_key(self.rights());
        let base = crate::zobrist::base_key();
        if let Some(e) = self.ep_square() {
            let w = r.with_ep_hash(Some(e), 0);
            assert forall|p: Piece, c: Side| #[trigger] w.bb(p, c) == self.bb(p, c) by {
                assert(w.bb(p, c) == r.bb(p, c));
            }
            assert(w.side_to_move() == self.side_to_move());
            assert(w.ep_square() == self.ep_square());
            assert(w.side_bb(Side::White) == self.side_bb(Side::White));
            assert(w.side_bb(Side::Black) == self.side_bb(Side::Black));
            assert(w.occ_bb() == self.occ_bb());
            assert(w.king_square(Side::White) == self.king_square(Side::White));
            assert(w.king_square(Side::Black) == self.king_square(Side::Black));
            assert(w.ep_kept() == self.ep_kept());
            if !self.ep_kept() {
                lemma_xor_slots(base, hp, bk, ck, crate::zobrist::ep_key(e.idx()), 0, 0);
            }
        }
    }
}

/// Occupants `o` have exactly one king of each side.
pub open spec fn kings_ok(o: Seq<Option<(Piece, Side)>>) -> bool {
    &&& exists|k: int| 0 <= k < 64 && #[trigger] king_at(o, Side::White, Some(k))
    &&& exists|k: int| 0 <= k < 64 && #[trigger] king_at(o, Side::Black, Some(k))
}

/// Each castling right of `rights` comes with its king and rook on their starting squares in `o`.
pub open spec fn rights_ok(o: Seq<Option<(Piece, Side)>>, rights: u8) -> bool {
    &&& rights < 16
    &&& rights & 1 != 0 ==> o[4] == Some((Piece::King, Side::White)) && o[7] == Some((Piece::Rook, Side::White))
    &&& rights & 2 != 0 ==> o[4] == Some((Piece::King, Side::White)) && o[0] == Some((Piece::Rook, Side::White))
    &&& rights & 4 != 0 ==> o[60] == Some((Piece::King, Side::Black)) && o[63] == Some((Piece::Rook, Side::Black))
    &&& rights & 8 != 0 ==> o[60] == Some((Piece::King, Side::Black)) && o[56] == Some((Piece::Rook, Side::Black))
}

/// An en-passant square is empty in `o`, on the third rank from the side not to move, with
/// that side's pawn just beyond it.
pub open spec fn ep_square_ok(o: Seq<Option<(Piece, Side)>>, stm: Side, ep: Option<Sq>) -> bool {
    match ep {
        Some(e) => {
            &&& e.valid()
            &&& o[e.idx()] is None
            &&& stm == Side::White ==> rank_of(e.idx()) == 5 && o[e.idx() - 8] == Some((Piece::Pawn, Side::Black))
            &&& stm == Side::Black ==> rank_of(e.idx()) == 2 && o[e.idx() + 8] == Some((Piece::Pawn, Side::White))
        },
        None => true,
    }
}

impl Position {
    /// The position with occupants `o`, side to move, castling rights, en-passant square and
    /// clocks, with its attack data and hash computed; `None` unless each side has one king,
    /// the castling rights have their kings and rooks in place, and the en-passant square is
    /// plausible. An en-passant square no pawn can use is dropped.
    /// The position with occupants `o`, side to move, castling rights, en-passant square and
    /// clocks, with no attack data and no hash yet.
    fn place(o: &[Option<(Piece, Side)>; 64], stm: Side, rights: u8, ep: Option<Sq>, halfmoves: i16, fullmoves: i16) -> (pos: Position)
        ensures
            pos.describes(o@),
            pos.side_to_move() == stm,
            pos.rights() == rights,
            pos.ep_square() == ep,
            pos.halfmoves() == halfmoves,
            pos.fullmove_number() == fullmoves,
            pos.threat_bb() == 0,
            pos.pin_bb() == 0,
            pos.checker_bb() == 0,
    {
        let mut pos = Position {
            bbs: [0u64; 12],
            board: [None; 64],
            stm: stm,
            castle_rights: rights,
            ep: ep,
            halfmove_clock: halfmoves,
            fullmoves: fullmoves,
            threats: 0,
            pins: 0,
            checkers: 0,
            hash: 0,
        };
        let mut s: usize = 0;
        while s < 64
            invariant
                s <= 64,
                o@.len() == 64,
                pos.side_to_move() == stm,
                pos.rights() == rights,
                pos.ep_square() == ep,
                pos.halfmoves() == halfmoves,
                pos.fullmove_number() == fullmoves,
                pos.threats == 0,
                pos.pins == 0,
                pos.checkers == 0,
                pos.describes(o@.subrange(0, s as int) + Seq::new((64 - s) as nat, |i: int| None::<(Piece, Side)>)),
            decreases 64 - s,
        {
            let ghost cur = o@.subrange(0, s as int) + Seq::new((64 - s) as nat, |i: int| None::<(Piece, Side)>);
            let sq = Sq(s as u8);
            match o[s] {
                Some((p, c)) => {
                    pos.put_piece(p, c, sq, Ghost(cur));
                },
                None => {},
            }
            proof {
                let nxt = o@.subrange(0, s + 1) + Seq::new((64 - (s + 1)) as nat, |i: int| None::<(Piece, Side)>);
                assert(cur.update(s as int, o@[s as int]) =~= nxt);
                if o@[s as int] is None {
                    assert(cur =~= nxt);
                }
            }
            s += 1;
        }
        proof {
            assert(o@.subrange(0, 64) + Seq::new(0, |i: int| None::<(Piece, Side)>) =~= o@);
        }
        pos
    }

    /// The position with occupants `o`, side to move, castling rights, en-passant square and
    /// clocks as given, whether or not it can be played: its hash is computed from its
    /// bitboards, and it has no attack data.
    pub fn set_up(o: &[Option<(Piece, Side)>; 64], stm: Side, rights: u8, ep: Option<Sq>, halfmoves: i16, fullmoves: i16) -> (r: Position)
        requires
            ep is Some ==> ep->0.valid(),
        ensures
            r.occupants() == o@,
            r.side_to_move() == stm,
            r.rights() == rights,
            r.ep_square() == ep,
            r.halfmoves() == halfmoves,
            r.fullmove_number() == fullmoves,
            r.threat_bb() == 0,
            r.pin_bb() == 0,
            r.checker_bb() == 0,
            r.hash_value() == r.bitboard_hash(),
    {
        let mut pos = Position::place(o, stm, rights, ep, halfmoves, fullmoves);
        proof {
            pos.lemma_described_occupants(o@);
        }
        let ghost before = pos;
        pos.hash = pos.compute_hash();
        proof {
            assert(pos.same_pieces(before));
            before.lemma_same_pieces(pos);
            pos.lemma_described_occupants(o@);
            before.lemma_hash_from_bitboards(pos);
        }
        pos
    }

    pub fn from_parts(o: &[Option<(Piece, Side)>; 64], stm: Side, rights: u8, ep: Option<Sq>, halfmoves: i16, fullmoves: i16) -> (r: Option<Position>)
        ensures
            r is Some <==> (kings_ok(o@) && rights_ok(o@, rights) && ep_square_ok(o@, stm, ep)),
            r matches Some(p) ==> {
                &&& p.wf()
                &&& p.occupants() == o@
                &&& p.side_to_move() == stm
                &&& p.rights() == rights
                &&& p.halfmoves() == halfmoves
                &&& p.fullmove_number() == fullmoves
                &&& p.ep_square() == (match ep {
                    Some(e) => if p.with_ep_hash(Some(e), 0).ep_kept() { Some(e) } else { None },
                    None => None,
                })
            },
    {
        let mut pos = Position::place(o, stm, rights, ep, halfmoves, fullmoves);
        let wk = pos.bb_get(Piece::King, Side::White);
        let bk = pos.bb_get(Piece::King, Side::Black);
        let kings = wk != 0 && wk & (wk - 1) == 0 && bk != 0 && bk & (bk - 1) == 0;
        proof {
            if kings {
                pos.lemma_described(o@);
                pos.lemma_kings_at();
            }
            if kings_ok(o@) {
                let a = choose|k: int| 0 <= k < 64 && #[trigger] king_at(o@, Side::White, Some(k));
                let b = choose|k: int| 0 <= k < 64 && #[trigger] king_at(o@, Side::Black, Some(k));
                assert forall|x: int| #[trigger] in_bb(wk, x) == (x == a) by {}
                assert forall|x: int| #[trigger] in_bb(bk, x) == (x == b) by {}
                lemma_single_from_squares(wk, a);
                lemma_single_from_squares(bk, b);
            }
        }
        if !kings {
            return None;
        }
        if !pos.castle_ok_exec() || !pos.ep_ok_exec() {
            return None;
        }
        proof {
            pos.lemma_described(o@);
        }
        let ghost built = pos;
        pos.hash = pos.compute_hash();
        proof {
            assert(pos.same_pieces(built));
            built.lemma_same_pieces(pos);
            pos.lemma_described(o@);
        }
        let ghost mid = pos;
        pos.update_threats_checkers_ep_and_pins();
        proof {
            mid.lemma_after_update(pos);
        }
        Some(pos)
    }

    fn castle_ok_exec(&self) -> (r: bool)
        requires
            self.board_ok(),
        ensures
            r == self.castle_ok(),
            r == rights_ok(self.occupants(), self.rights()),
    {
        proof { self.lemma_describes_occupants(); }
        let r = self.castle_rights;
        let wk = self.bb_get(Piece::King, Side::White);
        let wr = self.bb_get(Piece::Rook, Side::White);
        let bk = self.bb_get(Piece::King, Side::Black);
        let br = self.bb_get(Piece::Rook, Side::Black);
        let e1 = Sq(4).bb();
        let h1 = Sq(7).bb();
        let a1 = Sq(0).bb();
        let e8 = Sq(60).bb();
        let h8 = Sq(63).bb();
        let a8 = Sq(56).bb();
        let ok = r < 16
            && (r & 1 == 0 || (wk & e1 != 0 && wr & h1 != 0))
            && (r & 2 == 0 || (wk & e1 != 0 && wr & a1 != 0))
            && (r & 4 == 0 || (bk & e8 != 0 && br & h8 != 0))
            && (r & 8 == 0 || (bk & e8 != 0 && br & a8 != 0));
        proof {
            let o = self.occupants();
            assert(self.piece_on(4, Piece::King, Side::White) == (o[4] == Some((Piece::King, Side::White))));
            assert(self.piece_on(7, Piece::Rook, Side::White) == (o[7] == Some((Piece::Rook, Side::White))));
            assert(self.piece_on(0, Piece::Rook, Side::White) == (o[0] == Some((Piece::Rook, Side::White))));
            assert(self.piece_on(60, Piece::King, Side::Black) == (o[60] == Some((Piece::King, Side::Black))));
            assert(self.piece_on(63, Piece::Rook, Side::Black) == (o[63] == Some((Piece::Rook, Side::Black))));
            assert(self.piece_on(56, Piece::Rook, Side::Black) == (o[56] == Some((Piece::Rook, Side::Black))));
            assert((wk & e1 != 0) == in_bb(wk, 4)) by { crate::bits::lemma_test_square(wk, 4); }
            assert((wr & h1 != 0) == in_bb(wr, 7)) by { crate::bits::lemma_test_square(wr, 7); }
            assert((wr & a1 != 0) == in_bb(wr, 0)) by { crate::bits::lemma_test_square(wr, 0); }
            assert((bk & e8 != 0) == in_bb(bk, 60)) by { crate::bits::lemma_test_square(bk, 60); }
            assert((br & h8 != 0) == in_bb(br, 63)) by { crate::bits::lemma_test_square(br, 63); }
            assert((br & a8 != 0) == in_bb(br, 56)) by { crate::bits::lemma_test_square(br, 56); }
        }
        ok
    }

    fn ep_ok_exec(&self) -> (r: bool)
        requires
            self.board_ok(),
        ensures
            r == self.ep_ok(),
            r == ep_square_ok(self.occupants(), self.side_to_move(), self.ep_square()),
    {
        proof { self.lemma_describes_occupants(); }
        match self.ep {
            None => true,
            Some(e) => {
                if e.0 >= 64 {
                    return false;
                }
                if self.board[e.0 as usize].is_some() {
                    return false;
                }
                if self.stm == Side::White {
                    if e.rank() != 5 {
                        return false;
                    }
                    let b = Sq(e.0 - 8).bb();
                    let ok = self.bb_get(Piece::Pawn, Side::Black) & b != 0;
                    proof {
                        crate::bits::lemma_test_square(self.bb(Piece::Pawn, Side::Black), (e.idx() - 8) as u64);
                    }
                    ok
                } else {
                    if e.rank() != 2 {
                        return false;
                    }
                    let b = Sq(e.0 + 8).bb();
                    let ok = self.bb_get(Piece::Pawn, Side::White) & b != 0;
                    proof {
                        crate::bits::lemma_test_square(self.bb(Piece::Pawn, Side::White), (e.idx() + 8) as u64);
                    }
                    ok
                }
            },
        }
    }
}

impl Position {
    /// The square and kind of the piece `mv` takes, if any: the piece on its target, or the
    /// pawn behind the target of a pawn's diagonal step onto an empty square.
    pub fn is_capture(&self, mv: Move) -> (r: Option<(Sq, Piece)>)
        requires
            self.board_ok(),
            self.fits(mv),
        ensures
            match self.capture_of(mv) {
                Some((x, q)) => r matches Some((sq, p)) && sq.valid() && sq.idx() == x && p == q,
                None => r is None,
            },
    {
        self.capture(mv)
    }
}

impl Position {
    /// The Zobrist hash the position carries, kept up to date move by move.
    pub fn hash(&self) -> (r: u64)
        ensures
            r == self.hash_value(),
    {
        self.hash
    }
}

} // verus!
