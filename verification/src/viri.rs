//! Packed training records: a compressed board with score and result, followed by the moves
//! of the game with their scores, in a little-endian binary layout.
use vstd::prelude::*;
use crate::{Position, Piece, Side, promotion_ok};
use crate::eval::{evaluate, material_balance};

verus! {

/// Nibble `k` (0..32) of a 128-bit value kept as two 64-bit words, low word first.
pub open spec fn nibble(w: Seq<u64>, k: int) -> u64 {
    (w[k / 16] >> (4 * (k % 16)) as u64) & 15
}

/// Setting nibble `j` of a word whose nibble `j` is clear puts `c` there and leaves the others.
proof fn lemma_set_nibble(w: u64, c: u64, j: u64, k: u64)
    by (bit_vector)
    requires
        c < 16,
        j < 16,
        k < 16,
    ensures
        (w >> (4 * j)) & 15 == 0 ==> ((w | (c << (4 * j))) >> (4 * k)) & 15 == if k == j { c } else { (w >> (4 * k)) & 15 },
        (0u64 >> (4 * k)) & 15 == 0,
{
}

/// The packed code of a piece of kind `p` and side `c` on square `s`: the kind (a rook that
/// can still castle counts as 6), plus 8 for Black.
pub open spec fn piece_code(p: Piece, c: Side, s: int, rights: u8) -> u64 {
    let kind: u64 = match p {
        Piece::Pawn => 0,
        Piece::Knight => 1,
        Piece::Bishop => 2,
        Piece::Rook => if (c == Side::White && s == 0 && rights & 2 != 0) || (c == Side::White && s == 7 && rights
            & 1 != 0) || (c == Side::Black && s == 56 && rights & 8 != 0) || (c == Side::Black && s == 63
            && rights & 4 != 0) {
            6
        } else {
            3
        },
        Piece::Queen => 4,
        Piece::King => 5,
    };
    (kind + if c == Side::Black { 8u64 } else { 0u64 }) as u64
}

/// The codes of the pieces on the squares below `s`, lowest square first.
pub open spec fn codes_below(pos: Position, s: int) -> Seq<u64>
    decreases s,
{
    if s <= 0 {
        Seq::<u64>::empty()
    } else {
        codes_below(pos, s - 1) + match pos.occupant(s - 1) {
            Some((p, c)) => seq![piece_code(p, c, s - 1, pos.rights())],
            None => Seq::<u64>::empty(),
        }
    }
}

proof fn lemma_codes_small(pos: Position, s: int)
    ensures
        forall|k: int| 0 <= k < codes_below(pos, s).len() ==> #[trigger] codes_below(pos, s)[k] < 16,
        s >= 0 ==> codes_below(pos, s).len() <= s,
    decreases s,
{
    if s > 0 {
        lemma_codes_small(pos, s - 1);
    }
}

/// A board packed for training data: occupancy, the occupied squares' codes four bits each,
/// the en-passant square (64 for none) with the side to move in the top bit, the clocks, the
/// evaluation and the game result.
pub struct PackedBoard {
    occ: u64,
    pieces: [u64; 2],
    stm_ep: u8,
    halfmove_clock: u8,
    fullmoves: u16,
    score: i16,
    result: u8,
}

impl PackedBoard {
    pub closed spec fn occupancy(self) -> u64 {
        self.occ
    }

    pub closed spec fn piece_words(self) -> Seq<u64> {
        self.pieces@
    }

    pub closed spec fn stm_ep_byte(self) -> u8 {
        self.stm_ep
    }

    pub closed spec fn halfmove_byte(self) -> u8 {
        self.halfmove_clock
    }

    pub closed spec fn fullmove_word(self) -> u16 {
        self.fullmoves
    }

    pub closed spec fn score_word(self) -> i16 {
        self.score
    }

    pub closed spec fn result_byte(self) -> u8 {
        self.result
    }

    /// Packs `pos`, which has at most 32 pieces, with the game result `result`.
    pub fn from_position(pos: &Position, result: u8) -> (r: Self)
        requires
            pos.wf(),
            codes_below(*pos, 64).len() <= 32,
        ensures
            r.occupancy() == pos.occ_bb(),
            r.piece_words().len() == 2,
            forall|k: int| 0 <= k < 32 ==> #[trigger] nibble(r.piece_words(), k) == if k < codes_below(*pos, 64).len() {
                codes_below(*pos, 64)[k]
            } else {
                0
            },
            r.stm_ep_byte() == (match pos.ep_square() {
                Some(e) => e.0,
                None => 64u8,
            }) + if pos.side_to_move() == Side::Black { 128u8 } else { 0u8 },
            r.halfmove_byte() == pos.halfmoves() as u8,
            r.fullmove_word() == pos.fullmove_number() as u16,
            r.score_word() == material_balance(*pos) as i16,
            r.result_byte() == result,
    {
        let mut packed: [u64; 2] = [0u64; 2];
        let mut n: usize = 0;
        let mut s: usize = 0;
        proof {
            lemma_codes_small(*pos, 64);
            assert forall|k: int| 0 <= k < 32 implies #[trigger] nibble(packed@, k) == 0 by {
                lemma_set_nibble(0, 0, 0, (k % 16) as u64);
                assert(packed@[k / 16] == 0);
            }
        }
        while s < 64
            invariant
                pos.wf(),
                s <= 64,
                n == codes_below(*pos, s as int).len(),
                codes_below(*pos, 64).len() <= 32,
                n <= 32,
                packed@.len() == 2,
                forall|k: int| 0 <= k < 32 ==> #[trigger] nibble(packed@, k) == if k < n {
                    codes_below(*pos, s as int)[k]
                } else {
                    0
                },
            decreases 64 - s,
        {
            proof {
                lemma_codes_small(*pos, s + 1);
                lemma_codes_prefix(*pos, s as int + 1, 64);
            }
            match pos.occupant_at(s) {
                Some((p, c)) => {
                    let kind: u64 = match p {
                        Piece::Pawn => 0,
                        Piece::Knight => 1,
                        Piece::Bishop => 2,
                        Piece::Rook => {
                            let rights = pos.castle_rights;
                            if (c == Side::White && s == 0 && rights & 2 != 0) || (c == Side::White && s == 7
                                && rights & 1 != 0) || (c == Side::Black && s == 56 && rights & 8 != 0) || (c
                                == Side::Black && s == 63 && rights & 4 != 0) {
                                6
                            } else {
                                3
                            }
                        },
                        Piece::Queen => 4,
                        Piece::King => 5,
                    };
                    let code = kind + if c == Side::Black { 8u64 } else { 0u64 };
                    assert(codes_below(*pos, s + 1) == codes_below(*pos, s as int).push(code));
                    let word = n / 16;
                    let j = (n % 16) as u64;
                    let ghost before = packed@;
                    let w = packed[word];
                    proof {
                        assert(nibble(before, n as int) == 0);
                        assert((w >> (4 * j)) & 15 == 0);
                    }
                    packed[word] = w | (code << (4 * j));
                    proof {
                        assert forall|k: int| 0 <= k < 32 implies #[trigger] nibble(packed@, k) == if k < n + 1 {
                            codes_below(*pos, s + 1)[k]
                        } else {
                            0
                        } by {
                            let kk = (k % 16) as u64;
                            if k / 16 == word as int {
                                lemma_set_nibble(w, code, j, kk);
                                assert(packed@[k / 16] == w | (code << (4 * j)));
                                assert(nibble(packed@, k) == ((w | (code << (4 * j))) >> (4 * kk)) & 15);
                                assert((k == n) == (kk == j));
                                assert(nibble(before, k) == (w >> (4 * kk)) & 15);
                                if k == n {
                                    assert(codes_below(*pos, s + 1)[k] == code);
                                    assert(nibble(packed@, k) == code);
                                } else {
                                    assert(nibble(packed@, k) == nibble(before, k));
                                }
                                if k < n {
                                    assert(codes_below(*pos, s + 1)[k] == codes_below(*pos, s as int)[k]);
                                }
                            } else {
                                assert(packed@[k / 16] == before[k / 16]);
                                assert(nibble(packed@, k) == nibble(before, k));
                                assert(k != n);
                                if k < n {
                                    assert(codes_below(*pos, s + 1)[k] == codes_below(*pos, s as int)[k]);
                                }
                            }
                        }
                    }
                    n += 1;
                },
                None => {
                    assert(codes_below(*pos, s + 1) == codes_below(*pos, s as int));
                },
            }
            s += 1;
        }
        let ep: u8 = match pos.ep {
            Some(sq) => sq.0,
            None => 64,
        };
        let stm_bit: u8 = if pos.stm == Side::Black { 128 } else { 0 };
        PackedBoard {
            occ: pos.occ(),
            pieces: packed,
            stm_ep: ep + stm_bit,
            halfmove_clock: pos.halfmove_clock as u8,
            fullmoves: pos.fullmoves as u16,
            score: evaluate(pos) as i16,
            result,
        }
    }
}

proof fn lemma_codes_prefix(pos: Position, s: int, t: int)
    requires
        0 <= s <= t,
    ensures
        codes_below(pos, s).len() <= codes_below(pos, t).len(),
    decreases t - s,
{
    if s < t {
        lemma_codes_prefix(pos, s, t - 1);
    }
}

/// A move of a training record: origin, target (the rook's square for castling), promotion
/// kind and move type, in 6, 6, 2 and 2 bits.
#[derive(Copy, Clone)]
pub struct Move(u16);

/// The word of a record move with the given fields, each cut to its width.
pub open spec fn record_word(from: u16, to: u16, prom: u16, ty: u16) -> u16 {
    ((from % 64) + (to % 64) * 64 + (prom % 4) * 4096 + (ty % 4) * 16384) as u16
}

/// The record fields of `mv` played in `pos`: origin, target (the rook's square when
/// castling), promotion kind (knight 0, bishop 1, rook 2, queen 3), and type (1 en passant,
/// 2 castling, 3 promotion, 0 otherwise).
pub open spec fn record_fields(pos: Position, mv: crate::Move) -> (u16, u16, u16, u16) {
    let prom: u16 = match mv.promo() {
        Some(Piece::Bishop) => 1,
        Some(Piece::Rook) => 2,
        Some(Piece::Queen) => 3,
        _ => 0,
    };
    let p = pos.moved(mv);
    if p == Piece::Pawn {
        let ty: u16 = if pos.capture_of(mv) is Some && pos.square(mv.to_sq()) is None {
            1
        } else if mv.promo() is Some {
            3
        } else {
            0
        };
        (mv.from_sq() as u16, mv.to_sq() as u16, prom, ty)
    } else if p == Piece::King && pos.castle_of(mv) is Some {
        let rook_from = match pos.castle_of(mv) {
            Some((rf, _)) => rf,
            None => 0,
        };
        (mv.from_sq() as u16, rook_from as u16, prom, 2)
    } else {
        (mv.from_sq() as u16, mv.to_sq() as u16, prom, 0)
    }
}

impl Move {
    pub closed spec fn word(self) -> u16 {
        self.0
    }

    /// The record move with the given fields.
    pub fn new(from: u16, to: u16, prom: u16, ty: u16) -> (r: Self)
        ensures
            r.word() == record_word(from, to, prom, ty),
    {
        let w = (from & 63) | ((to & 63) << 6) | ((prom & 3) << 12) | ((ty & 3) << 14);
        assert(w == ((from % 64) + (to % 64) * 64 + (prom % 4) * 4096 + (ty % 4) * 16384) as u16) by (bit_vector)
            requires
                w == (from & 63) | ((to & 63) << 6) | ((prom & 3) << 12) | ((ty & 3) << 14),
        ;
        Move(w)
    }

    /// The record move of `mv` played in `pos`.
    pub fn from_native(pos: &Position, mv: crate::Move) -> (r: Self)
        requires
            pos.board_ok(),
            pos.fits(mv),
        ensures
            ({
                let (f, t, p, ty) = record_fields(*pos, mv);
                r.word() == record_word(f, t, p, ty)
            }),
    {
        proof { crate::Move::lemma_squares(mv); }
        let piece = match pos.board[mv.from().id()] {
            Some(p) => p,
            None => {
                proof { assert(false); }
                Piece::Pawn
            },
        };
        let from = mv.from().0 as u16;
        let mut to = mv.to().0 as u16;
        let prom: u16 = match mv.promotion() {
            Some(Piece::Knight) => 0,
            Some(Piece::Bishop) => 1,
            Some(Piece::Rook) => 2,
            Some(Piece::Queen) => 3,
            _ => 0,
        };
        let ty: u16 = match piece {
            Piece::Pawn => {
                if pos.capture(mv).is_some() && pos.board[mv.to().id()].is_none() {
                    1
                } else if mv.promotion().is_some() {
                    3
                } else {
                    0
                }
            },
            Piece::King => {
                if let Some((rook_from, _)) = pos.castle(mv) {
                    to = rook_from.0 as u16;
                    2
                } else {
                    0
                }
            },
            _ => 0,
        };
        Self::new(from, to, prom, ty)
    }
}

/// The `n` little-endian bytes of `x`.
pub open spec fn le_bytes(x: nat, n: nat) -> Seq<u8>
    decreases n,
{
    if n == 0 {
        Seq::<u8>::empty()
    } else {
        seq![(x % 256) as u8] + le_bytes(x / 256, (n - 1) as nat)
    }
}

/// Appends the `n` little-endian bytes of `x`.
fn push_le(out: &mut Vec<u8>, x: u64, n: usize)
    requires
        n <= 8,
    ensures
        final(out)@ == old(out)@ + le_bytes(x as nat, n as nat),
{
    let mut y = x;
    let mut i: usize = 0;
    while i < n
        invariant
            i <= n,
            out@ + le_bytes(y as nat, (n - i) as nat) == old(out)@ + le_bytes(x as nat, n as nat),
        decreases n - i,
    {
        let ghost before = out@;
        out.push((y % 256) as u8);
        proof {
            assert(le_bytes(y as nat, (n - i) as nat) =~= seq![(y % 256) as u8] + le_bytes((y / 256) as nat, (n - i - 1) as nat));
            assert(before + le_bytes(y as nat, (n - i) as nat) =~= out@ + le_bytes((y / 256) as nat, (n - i - 1) as nat));
        }
        y = y / 256;
        i += 1;
    }
    assert(le_bytes(y as nat, 0) =~= Seq::<u8>::empty());
    assert(out@ =~= out@ + le_bytes(y as nat, 0));
}

/// A game for training: the packed starting board and each move with its score.
pub struct Game {
    pub board: PackedBoard,
    pub seq: Vec<(Move, i16)>,
}

/// The bytes of a packed board: occupancy, the two piece words, side and en passant, halfmove
/// clock, fullmove number, score, result and a zero byte, all little-endian.
pub open spec fn board_bytes(b: PackedBoard) -> Seq<u8> {
    le_bytes(b.occupancy() as nat, 8) + le_bytes(b.piece_words()[0] as nat, 8) + le_bytes(b.piece_words()[1] as nat, 8)
        + seq![b.stm_ep_byte(), b.halfmove_byte()] + le_bytes(b.fullmove_word() as nat, 2) + le_bytes(
        (b.score_word() as u16) as nat,
        2,
    ) + seq![b.result_byte(), 0u8]
}

/// The bytes of the moves from `i` on: each move's word, then its score, little-endian.
pub open spec fn moves_bytes(s: Seq<(Move, i16)>, i: int) -> Seq<u8>
    decreases s.len() - i,
{
    if i < 0 || i >= s.len() {
        Seq::<u8>::empty()
    } else {
        le_bytes(s[i].0.word() as nat, 2) + le_bytes((s[i].1 as u16) as nat, 2) + moves_bytes(s, i + 1)
    }
}

impl Game {
    /// The record of the game as bytes: the board, the moves, then four zero bytes.
    pub fn to_bytes(&self) -> (r: Vec<u8>)
        requires
            self.board.piece_words().len() == 2,
        ensures
            r@ == board_bytes(self.board) + moves_bytes(self.seq@, 0) + le_bytes(0, 4),
    {
        let mut out: Vec<u8> = Vec::new();
        let b = &self.board;
        push_le(&mut out, b.occ, 8);
        push_le(&mut out, b.pieces[0], 8);
        push_le(&mut out, b.pieces[1], 8);
        out.push(b.stm_ep);
        out.push(b.halfmove_clock);
        push_le(&mut out, b.fullmoves as u64, 2);
        push_le(&mut out, (b.score as u16) as u64, 2);
        out.push(b.result);
        out.push(0);
        let ghost head = out@;
        assert(head =~= board_bytes(self.board));
        let mut i: usize = 0;
        while i < self.seq.len()
            invariant
                i <= self.seq@.len(),
                out@ + moves_bytes(self.seq@, i as int) == head + moves_bytes(self.seq@, 0),
            decreases self.seq@.len() - i,
        {
            let (mv, score) = self.seq[i];
            let ghost before = out@;
            push_le(&mut out, mv.0 as u64, 2);
            push_le(&mut out, (score as u16) as u64, 2);
            proof {
                assert(moves_bytes(self.seq@, i as int) =~= le_bytes(mv.0 as nat, 2) + le_bytes((score as u16) as nat, 2)
                    + moves_bytes(self.seq@, i + 1));
                assert(before + moves_bytes(self.seq@, i as int) =~= out@ + moves_bytes(self.seq@, i + 1));
            }
            i += 1;
        }
        assert(moves_bytes(self.seq@, self.seq@.len() as int) =~= Seq::<u8>::empty());
        push_le(&mut out, 0, 4);
        assert(out@ =~= board_bytes(self.board) + moves_bytes(self.seq@, 0) + le_bytes(0, 4));
        out
    }
}

/// A castling move is recorded from the king's square to the castling rook's corner on the
/// king's rank (the h-file when the king goes to the g-file, else the a-file), with type 2.
pub proof fn lemma_castle_record(pos: Position, mv: crate::Move)
    requires
        pos.board_ok(),
        pos.fits(mv),
        pos.moved(mv) == Piece::King,
        crate::file_of(mv.from_sq()) - crate::file_of(mv.to_sq()) > 1 || crate::file_of(mv.to_sq()) - crate::file_of(mv.from_sq()) > 1,
    ensures
        ({
            let (f, t, p, ty) = record_fields(pos, mv);
            let w = record_word(f, t, p, ty) as int;
            let corner = crate::rank_of(mv.to_sq()) * 8 + (if crate::file_of(mv.to_sq()) == 6 { 7int } else { 0int });
            &&& w % 64 == mv.from_sq()
            &&& (w / 64) % 64 == corner
            &&& w / 16384 == 2
        }),
{
    crate::Move::lemma_squares(mv);
    let (f, t, p, ty) = record_fields(pos, mv);
    assert(ty == 2);
    assert(p < 4);
    let w = record_word(f, t, p, ty) as int;
    assert(w == f + t * 64 + p * 4096 + 2 * 16384);
}

/// Any move but a castling one is recorded from its origin to its target square; a quiet move
/// of a piece other than a pawn has type 0.
pub proof fn lemma_plain_record(pos: Position, mv: crate::Move)
    requires
        pos.board_ok(),
        pos.fits(mv),
        !(pos.moved(mv) == Piece::King && (crate::file_of(mv.from_sq()) - crate::file_of(mv.to_sq()) > 1
            || crate::file_of(mv.to_sq()) - crate::file_of(mv.from_sq()) > 1)),
    ensures
        ({
            let (f, t, p, ty) = record_fields(pos, mv);
            let w = record_word(f, t, p, ty) as int;
            &&& w % 64 == mv.from_sq()
            &&& (w / 64) % 64 == mv.to_sq()
            &&& pos.moved(mv) != Piece::Pawn ==> w / 16384 == 0
        }),
{
    crate::Move::lemma_squares(mv);
    let (f, t, p, ty) = record_fields(pos, mv);
    assert(p < 4);
    assert(ty < 4);
    assert(pos.moved(mv) != Piece::Pawn ==> ty == 0);
    let w = record_word(f, t, p, ty) as int;
    assert(w == f + t * 64 + p * 4096 + ty * 16384);
}

} // verus!
