//! A chess engine core: bitboards, move generation, FEN, hashing and search helpers.
pub mod bits;
pub mod text;
pub mod attacks;
pub mod lines;
pub mod zobrist;
pub mod position;
pub mod move_gen;
pub mod fen;
pub mod fen_laws;
pub mod safety;
pub mod eval;
pub mod pcg;
pub mod movegen;
pub mod search;
pub mod viri;
pub mod uci;

use vstd::prelude::*;
use crate::bits::{in_bb, group_in_bb, lemma_nonzero_has, lemma_clear_lowest};
use crate::attacks::{pawn_target, king_step, knight_step, bishop_target, rook_target, piece_target};
use crate::lines::{segment, straight_dir, diagonal_dir};
use vstd::std_specs::bits::u64_trailing_zeros;

verus! {

broadcast use group_in_bb;

pub type Score = i32;

pub const MATE_SCORE: Score = 30_000;

pub const INF_SCORE: Score = 1_000_000;

pub const STARTPOS_FEN: &'static str = "rnbqkbnr/pppppppp/8/8/8/8/PPPPPPPP/RNBQKBNR w KQkq - 0 1";

pub const KIWIPETE_FEN: &'static str =
    "r3k2r/p1ppqpb1/bn2pnp1/3PN3/1p2P3/2N2Q1p/PPPBBPPP/R3K2R w KQkq - 0 1";

pub const MASK_RANK_1: u64 = 0x00000000000000ff;
pub const MASK_RANK_2: u64 = 0x000000000000ff00;
pub const MASK_RANK_3: u64 = 0x0000000000ff0000;
pub const MASK_RANK_4: u64 = 0x00000000ff000000;
pub const MASK_RANK_5: u64 = 0x000000ff00000000;
pub const MASK_RANK_6: u64 = 0x0000ff0000000000;
pub const MASK_RANK_7: u64 = 0x00ff000000000000;
pub const MASK_RANK_8: u64 = 0xff00000000000000;

pub const MASK_FILE_A: u64 = 0x0101010101010101;
pub const MASK_FILE_B: u64 = 0x0202020202020202;
pub const MASK_FILE_C: u64 = 0x0404040404040404;
pub const MASK_FILE_D: u64 = 0x0808080808080808;
pub const MASK_FILE_E: u64 = 0x1010101010101010;
pub const MASK_FILE_F: u64 = 0x2020202020202020;
pub const MASK_FILE_G: u64 = 0x4040404040404040;
pub const MASK_FILE_H: u64 = 0x8080808080808080;

/// Rank of a square index.
pub open spec fn rank_of(s: int) -> int {
    s / 8
}

/// File of a square index.
pub open spec fn file_of(s: int) -> int {
    s % 8
}

/// The mask of all squares on rank `r` (0..8).
pub open spec fn rank_mask(r: int) -> u64 {
    (0xffu64 << ((8 * r) as u64)) as u64
}

/// The mask of all squares on file `f` (0..8).
pub open spec fn file_mask(f: int) -> u64 {
    (0x0101010101010101u64 << (f as u64)) as u64
}

proof fn lemma_rank_mask_squares(r: int)
    requires
        0 <= r < 8,
    ensures
        forall|i: int| #[trigger] in_bb(rank_mask(r), i) == (0 <= i < 64 && rank_of(i) == r),
{
    assert forall|i: int| #[trigger] in_bb(rank_mask(r), i) == (0 <= i < 64 && rank_of(i) == r) by {
        if 0 <= i < 64 {
            let n = (8 * r) as u64;
            let m = i as u64;
            assert(((0xffu64 << n) >> m) & 1 == 1 <==> (n <= m && m < n + 8)) by (bit_vector)
                requires
                    n < 64,
                    m < 64,
            ;
        }
    }
}

/// Mask of rank `r`, for `r` in `0..8`.
pub fn mask_rank(r: usize) -> (m: u64)
    requires
        r < 8,
    ensures
        m == rank_mask(r as int),
        forall|i: int| #[trigger] in_bb(m, i) == (0 <= i < 64 && rank_of(i) == r),
{
    proof { lemma_rank_mask_squares(r as int); }
    0xffu64 << (8 * r as u64)
}

proof fn lemma_file_mask_squares(f: int)
    requires
        0 <= f < 8,
    ensures
        forall|i: int| #[trigger] in_bb(file_mask(f), i) == (0 <= i < 64 && file_of(i) == f),
{
    assert forall|i: int| #[trigger] in_bb(file_mask(f), i) == (0 <= i < 64 && file_of(i) == f) by {
        if 0 <= i < 64 {
            let n = f as u64;
            let m = i as u64;
            assert(((0x0101010101010101u64 << n) >> m) & 1 == 1 <==> (n <= m && (m - n) % 8 == 0))
                by (bit_vector)
                requires
                    n < 8,
                    m < 64,
            ;
            assert((m - n) % 8 == 0 <==> m % 8 == n);
        }
    }
}

/// Mask of file `f`, for `f` in `0..8`.
pub fn mask_file(f: usize) -> (m: u64)
    requires
        f < 8,
    ensures
        m == file_mask(f as int),
        forall|i: int| #[trigger] in_bb(m, i) == (0 <= i < 64 && file_of(i) == f),
{
    let m = 0x0101010101010101u64 << (f as u64);
    proof {
        lemma_file_mask_squares(f as int);
        assert(m == file_mask(f as int));
    }
    m
}


#[derive(Copy, Clone, PartialEq, Eq, Structural, Debug, Hash)]
pub enum Piece {
    Pawn,
    Knight,
    Bishop,
    Rook,
    Queen,
    King,
}

#[derive(Copy, Clone, PartialEq, Eq, Structural, Debug, Hash)]
pub enum Side {
    White,
    Black,
}

pub type CastleRights = u8;

pub const CASTLE_RIGHT_K_WHITE: CastleRights = 1;
pub const CASTLE_RIGHT_Q_WHITE: CastleRights = 2;
pub const CASTLE_RIGHT_K_BLACK: CastleRights = 4;
pub const CASTLE_RIGHT_Q_BLACK: CastleRights = 8;

/// A square of the board, `rank * 8 + file`; a valid square is below 64.
#[derive(Copy, Clone, PartialEq, Eq, Structural, Debug, Hash)]
pub struct Sq(pub u8);

/// The material value of each piece kind, king last.
pub open spec fn material(p: Piece) -> Score {
    match p {
        Piece::Pawn => 100,
        Piece::Knight => 300,
        Piece::Bishop => 350,
        Piece::Rook => 500,
        Piece::Queen => 900,
        Piece::King => 0,
    }
}

/// Lower-case letter of a piece kind.
pub open spec fn piece_letter(p: Piece) -> char {
    match p {
        Piece::Pawn => 'p',
        Piece::Knight => 'n',
        Piece::Bishop => 'b',
        Piece::Rook => 'r',
        Piece::Queen => 'q',
        Piece::King => 'k',
    }
}

/// The piece kind with index `i` (0..6), pawn first.
pub open spec fn piece_from_index(i: int) -> Option<Piece> {
    if i == 0 {
        Some(Piece::Pawn)
    } else if i == 1 {
        Some(Piece::Knight)
    } else if i == 2 {
        Some(Piece::Bishop)
    } else if i == 3 {
        Some(Piece::Rook)
    } else if i == 4 {
        Some(Piece::Queen)
    } else if i == 5 {
        Some(Piece::King)
    } else {
        None
    }
}

impl Piece {
    /// Index of the piece kind, pawn 0 up to king 5.
    pub open spec fn index(self) -> int {
        match self {
            Piece::Pawn => 0,
            Piece::Knight => 1,
            Piece::Bishop => 2,
            Piece::Rook => 3,
            Piece::Queen => 4,
            Piece::King => 5,
        }
    }

    pub(crate) fn id(&self) -> (r: usize)
        ensures
            r == self.index(),
    {
        match self {
            Piece::Pawn => 0,
            Piece::Knight => 1,
            Piece::Bishop => 2,
            Piece::Rook => 3,
            Piece::Queen => 4,
            Piece::King => 5,
        }
    }

    pub fn material_value(&self) -> (r: Score)
        ensures
            r == material(*self),
    {
        match self {
            Piece::Pawn => 100,
            Piece::Knight => 300,
            Piece::Bishop => 350,
            Piece::Rook => 500,
            Piece::Queen => 900,
            Piece::King => 0,
        }
    }

    fn from_id(id: usize) -> (r: Option<Self>)
        ensures
            r == piece_from_index(id as int),
    {
        match id {
            0 => Some(Piece::Pawn),
            1 => Some(Piece::Knight),
            2 => Some(Piece::Bishop),
            3 => Some(Piece::Rook),
            4 => Some(Piece::Queen),
            5 => Some(Piece::King),
            _ => None,
        }
    }

    fn san_lowercase(&self) -> (r: char)
        ensures
            r == piece_letter(*self),
    {
        match self {
            Piece::Pawn => 'p',
            Piece::Knight => 'n',
            Piece::Bishop => 'b',
            Piece::Rook => 'r',
            Piece::Queen => 'q',
            Piece::King => 'k',
        }
    }
}

/// Index of the piece kind, as a proof-side fact about `piece_from_index`.
pub proof fn lemma_piece_index(p: Piece)
    ensures
        0 <= p.index() < 6,
        piece_from_index(p.index()) == Some(p),
{
}

impl Side {
    pub open spec fn index(self) -> int {
        match self {
            Side::White => 0,
            Side::Black => 1,
        }
    }

    pub open spec fn other(self) -> Side {
        match self {
            Side::White => Side::Black,
            Side::Black => Side::White,
        }
    }

    /// The rank on which the side's king and rooks start.
    pub open spec fn home(self) -> int {
        match self {
            Side::White => 0,
            Side::Black => 7,
        }
    }

    /// The king-side castling flag of the side.
    pub open spec fn k_flag(self) -> u8 {
        match self {
            Side::White => CASTLE_RIGHT_K_WHITE,
            Side::Black => CASTLE_RIGHT_K_BLACK,
        }
    }

    /// The queen-side castling flag of the side.
    pub open spec fn q_flag(self) -> u8 {
        match self {
            Side::White => CASTLE_RIGHT_Q_WHITE,
            Side::Black => CASTLE_RIGHT_Q_BLACK,
        }
    }

    pub fn id(&self) -> (r: usize)
        ensures
            r == self.index(),
    {
        match self {
            Side::White => 0,
            Side::Black => 1,
        }
    }

    pub fn king_castle_rights_flag(&self) -> (r: CastleRights)
        ensures
            r == self.k_flag(),
    {
        match self {
            Side::White => CASTLE_RIGHT_K_WHITE,
            Side::Black => CASTLE_RIGHT_K_BLACK,
        }
    }

    pub fn queen_castle_rights_flag(&self) -> (r: CastleRights)
        ensures
            r == self.q_flag(),
    {
        match self {
            Side::White => CASTLE_RIGHT_Q_WHITE,
            Side::Black => CASTLE_RIGHT_Q_BLACK,
        }
    }

    pub fn char(&self) -> (r: char)
        ensures
            r == (if *self == Side::White { 'w' } else { 'b' }),
    {
        match self {
            Side::White => 'w',
            Side::Black => 'b',
        }
    }

    pub fn sign(&self) -> (r: i32)
        ensures
            r == (if *self == Side::White { 1i32 } else { -1i32 }),
    {
        match self {
            Side::White => 1,
            Side::Black => -1,
        }
    }

    pub fn home_rank(&self) -> (r: usize)
        ensures
            r == self.home(),
    {
        match self {
            Side::White => 0,
            Side::Black => 7,
        }
    }

    pub fn pawn_rank(&self) -> (r: usize)
        ensures
            r == (if *self == Side::White { 1usize } else { 6usize }),
    {
        match self {
            Side::White => 1,
            Side::Black => 6,
        }
    }

    pub fn opp(&self) -> (r: Side)
        ensures
            r == self.other(),
    {
        match self {
            Side::White => Side::Black,
            Side::Black => Side::White,
        }
    }

    pub fn promotion_rank(&self) -> (r: usize)
        ensures
            r == self.other().home(),
    {
        self.opp().home_rank()
    }
}

/// The character naming file `f` (0..8), 'a' to 'h'.
pub open spec fn file_char(f: int) -> char {
    (97 + f) as char
}

/// The character naming rank `r` (0..8), '1' to '8'.
pub open spec fn rank_char(r: int) -> char {
    (49 + r) as char
}

/// The square named by two characters, file letter then rank digit.
pub open spec fn square_named(f: char, r: char) -> Option<int> {
    let fi = f as int - 97;
    let ri = r as int - 49;
    if 0 <= fi < 8 && 0 <= ri < 8 {
        Some(ri * 8 + fi)
    } else {
        None
    }
}

impl Sq {
    pub open spec fn idx(self) -> int {
        self.0 as int
    }

    /// The square is on the board.
    pub open spec fn valid(self) -> bool {
        self.0 < 64
    }

    pub fn from_coords(rank: usize, file: usize) -> (r: Self)
        requires
            rank < 8,
            file < 8,
        ensures
            r.idx() == rank * 8 + file,
            r.valid(),
    {
        Sq((rank * 8 + file) as u8)
    }

    /// Square from a two-character name such as "e4".
    pub fn from_san(san: &str) -> (r: Option<Self>)
        ensures
            r == (if san@.len() == 2 {
                match square_named(san@[0], san@[1]) {
                    Some(i) => Some(Sq(i as u8)),
                    None => None,
                }
            } else {
                None
            }),
    {
        let chars = crate::text::chars_of(san);
        if chars.len() != 2 {
            return None;
        }
        Self::from_chars(chars[0], chars[1])
    }

    fn from_chars(f: char, r: char) -> (res: Option<Self>)
        ensures
            res == (match square_named(f, r) {
                Some(i) => Some(Sq(i as u8)),
                None => None,
            }),
            res matches Some(s) ==> s.valid(),
    {
        let file = f as u32 as i64 - 97;
        let rank = r as u32 as i64 - 49;
        if file < 0 || file >= 8 || rank < 0 || rank >= 8 {
            return None;
        }
        Some(Self::from_coords(rank as usize, file as usize))
    }

    pub fn id(&self) -> (r: usize)
        ensures
            r == self.idx(),
    {
        self.0 as usize
    }

    /// The rank of the square, from its bits 3 to 5.
    pub fn rank(&self) -> (r: usize)
        ensures
            r == (self.idx() / 8) % 8,
            self.valid() ==> r == rank_of(self.idx()),
            r < 8,
    {
        let x = self.0;
        assert((x >> 3u8) & 7 == (x / 8) % 8) by (bit_vector);
        ((self.0 >> 3) & 7) as usize
    }

    /// The file of the square, from its low three bits.
    pub fn file(&self) -> (r: usize)
        ensures
            r == file_of(self.idx()),
            r < 8,
    {
        let x = self.0;
        assert(x & 7 == x % 8) by (bit_vector);
        (self.0 & 7) as usize
    }

    /// The square's name: its file letter and rank digit (read from its low six bits).
    pub fn san(&self) -> (r: String)
        ensures
            r@ == seq![file_char(file_of(self.idx())), rank_char((self.idx() / 8) % 8)],
            self.valid() ==> r@ == seq![file_char(file_of(self.idx())), rank_char(rank_of(self.idx()))],
    {
        let f = self.file() as u8;
        let rk = self.rank() as u8;
        let mut s = String::new();
        s.push((97 + f) as char);
        s.push((49 + rk) as char);
        s
    }

    pub fn bb(&self) -> (r: u64)
        requires
            self.valid(),
        ensures
            r == 1u64 << (self.0 as u64),
            forall|i: int| #[trigger] in_bb(r, i) == (i == self.idx()),
    {
        proof {
            assert forall|i: int| #[trigger] in_bb(1u64 << (self.0 as u64), i) == (i == self.idx()) by {
                crate::bits::lemma_in_bb_single(self.0 as u64, i);
            }
        }
        1u64 << (self.0 as u64)
    }
}


/// Number stored in the promotion field of an encoded move.
pub open spec fn promo_code(p: Option<Piece>) -> int {
    match p {
        None => 0,
        Some(q) => q.index() + 1,
    }
}

/// A piece a pawn may promote to (or no promotion).
pub open spec fn promotion_ok(p: Option<Piece>) -> bool {
    match p {
        None => true,
        Some(q) => q == Piece::Knight || q == Piece::Bishop || q == Piece::Rook || q == Piece::Queen,
    }
}

/// The 16-bit word of a move: origin in bits 0..6, target in bits 6..12, promotion code above.
pub open spec fn encode_move(from: int, to: int, promo: Option<Piece>) -> u16 {
    (from + to * 64 + promo_code(promo) * 4096) as u16
}

/// A move, packed into 16 bits.
#[derive(Copy, Clone, PartialEq, Eq, Structural, Debug, Hash)]
pub struct Move(u16);

impl Move {
    #[verifier::type_invariant]
    spec fn inv(self) -> bool {
        self.0 < 0x6000
    }

    /// The 16-bit word.
    pub closed spec fn word(self) -> u16 {
        self.0
    }

    /// The move with the given fields.
    pub closed spec fn spec_new(from: int, to: int, promo: Option<Piece>) -> Move {
        Move(encode_move(from, to, promo))
    }

    pub open spec fn from_sq(self) -> int {
        (self.word() & 63) as int
    }

    pub open spec fn to_sq(self) -> int {
        ((self.word() >> 6) & 63) as int
    }

    pub open spec fn promo(self) -> Option<Piece> {
        piece_from_index(((self.word() >> 12) & 7) as int - 1)
    }

    /// Origin and target of any move are on the board.
    pub proof fn lemma_squares(m: Move)
        ensures
            0 <= m.from_sq() < 64,
            0 <= m.to_sq() < 64,
    {
        let w = m.0;
        assert(w & 63 < 64 && (w >> 6) & 63 < 64) by (bit_vector);
    }

    /// Moves are equal exactly when their words are.
    pub proof fn lemma_word_eq(a: Move, b: Move)
        ensures
            (a == b) == (a.word() == b.word()),
    {
    }

    /// Decoding a move built from valid fields gives the fields back, and
    /// moves built from different fields differ.
    pub proof fn lemma_spec_new(from: int, to: int, promo: Option<Piece>)
        requires
            0 <= from < 64,
            0 <= to < 64,
            promotion_ok(promo),
        ensures
            Move::spec_new(from, to, promo).from_sq() == from,
            Move::spec_new(from, to, promo).to_sq() == to,
            Move::spec_new(from, to, promo).promo() == promo,
            Move::spec_new(from, to, promo).word() < 0x6000,
            Move::spec_new(from, to, promo).word() == encode_move(from, to, promo),
    {
        let f = from as u16;
        let t = to as u16;
        let c = promo_code(promo) as u16;
        let w = encode_move(from, to, promo);
        assert(w == f | (t << 6) | (c << 12)) by (bit_vector)
            requires
                f < 64,
                t < 64,
                c <= 5,
                w == f + t * 64 + c * 4096,
        ;
        assert((w & 63) == f && ((w >> 6) & 63) == t && ((w >> 12) & 7) == c && w < 0x6000)
            by (bit_vector)
            requires
                f < 64,
                t < 64,
                c <= 5,
                w == f | (t << 6) | (c << 12),
        ;
    }

    /// Two moves with the same fields are the same move.
    pub proof fn lemma_fields_eq(a: Move, b: Move)
        requires
            a.word() < 0x6000,
            b.word() < 0x6000,
            a.from_sq() == b.from_sq(),
            a.to_sq() == b.to_sq(),
            a.promo() == b.promo(),
        ensures
            a == b,
    {
        let x = a.0;
        let y = b.0;
        let cx = (x >> 12) & 7;
        let cy = (y >> 12) & 7;
        assert(cx <= 5 && cy <= 5) by (bit_vector)
            requires
                x < 0x6000,
                y < 0x6000,
                cx == (x >> 12) & 7,
                cy == (y >> 12) & 7,
        ;
        assert(cx == cy);
        assert(x == y) by (bit_vector)
            requires
                x < 0x6000,
                y < 0x6000,
                x & 63 == y & 63,
                (x >> 6) & 63 == (y >> 6) & 63,
                (x >> 12) & 7 == (y >> 12) & 7,
        ;
    }

    /// The move that stands for no move.
    pub fn null() -> (r: Move)
        ensures
            r.word() == 0,
    {
        Move(0)
    }

    pub fn new(from: Sq, to: Sq, promotion: Option<Piece>) -> (r: Self)
        requires
            from.valid(),
            to.valid(),
            promotion_ok(promotion),
        ensures
            r == Move::spec_new(from.idx(), to.idx(), promotion),
            r.from_sq() == from.idx(),
            r.to_sq() == to.idx(),
            r.promo() == promotion,
    {
        let code: u16 = match promotion {
            None => 0,
            Some(p) => p.id() as u16 + 1,
        };
        proof { Move::lemma_spec_new(from.idx(), to.idx(), promotion); }
        let w = (from.0 as u16) + (to.0 as u16) * 64 + code * 4096;
        Move(w)
    }

    pub fn from(&self) -> (r: Sq)
        ensures
            r.idx() == self.from_sq(),
            r.valid(),
    {
        let x = self.0;
        assert(x & 63 < 64) by (bit_vector);
        Sq((self.0 & 63) as u8)
    }

    pub fn to(&self) -> (r: Sq)
        ensures
            r.idx() == self.to_sq(),
            r.valid(),
    {
        let x = self.0;
        assert((x >> 6) & 63 < 64) by (bit_vector);
        Sq(((self.0 >> 6) & 63) as u8)
    }

    pub fn promotion(&self) -> (r: Option<Piece>)
        ensures
            r == self.promo(),
            promotion_ok(r) || r == Some(Piece::Pawn) || r == Some(Piece::King),
    {
        proof { use_type_invariant(self); }
        let x = self.0;
        let field = (self.0 >> 12) & 7;
        assert((x >> 12) & 7 <= 5) by (bit_vector)
            requires
                x < 0x6000,
        ;
        if field == 0 {
            None
        } else {
            Piece::from_id(field as usize - 1)
        }
    }

    /// The move written as in UCI, such as "e7e8q".
    pub fn uci(&self) -> (r: String)
        ensures
            r@ == uci_text(*self),
    {
        let mut s = self.from().san();
        let t = self.to().san();
        let tv = crate::text::chars_of(t.as_str());
        s.push(tv[0]);
        s.push(tv[1]);
        match self.promotion() {
            Some(p) => {
                s.push(p.san_lowercase());
            },
            None => {},
        }
        s
    }

    /// Move from its UCI text, such as "e2e4" or "e7e8q".
    pub fn from_uci(uci: &str) -> (r: Option<Self>)
        ensures
            r == uci_move(uci@),
    {
        let c = crate::text::chars_of(uci);
        if c.len() != 4 && c.len() != 5 {
            return None;
        }
        let from = match Sq::from_chars(c[0], c[1]) {
            Some(s) => s,
            None => {
                return None;
            },
        };
        let to = match Sq::from_chars(c[2], c[3]) {
            Some(s) => s,
            None => {
                return None;
            },
        };
        let prom = if c.len() == 5 {
            match c[4] {
                'n' => Some(Piece::Knight),
                'b' => Some(Piece::Bishop),
                'r' => Some(Piece::Rook),
                'q' => Some(Piece::Queen),
                _ => {
                    return None;
                },
            }
        } else {
            None
        };
        Some(Self::new(from, to, prom))
    }
}

/// The square name of square index `s`.
pub open spec fn square_text(s: int) -> Seq<char> {
    seq![file_char(file_of(s)), rank_char(rank_of(s))]
}

/// The UCI text of a move.
pub open spec fn uci_text(m: Move) -> Seq<char> {
    square_text(m.from_sq()) + square_text(m.to_sq()) + match m.promo() {
        Some(p) => seq![piece_letter(p)],
        None => Seq::<char>::empty(),
    }
}

/// The promotion piece named by a letter of a UCI move.
pub open spec fn promo_letter(c: char) -> Option<Piece> {
    if c == 'n' {
        Some(Piece::Knight)
    } else if c == 'b' {
        Some(Piece::Bishop)
    } else if c == 'r' {
        Some(Piece::Rook)
    } else if c == 'q' {
        Some(Piece::Queen)
    } else {
        None
    }
}

/// The move a UCI text stands for.
pub open spec fn uci_move(s: Seq<char>) -> Option<Move> {
    if (s.len() == 4 || s.len() == 5) && square_named(s[0], s[1]) is Some && square_named(
        s[2],
        s[3],
    ) is Some && (s.len() == 4 || promo_letter(s[4]) is Some) {
        Some(
            Move::spec_new(
                square_named(s[0], s[1])->0,
                square_named(s[2], s[3])->0,
                if s.len() == 5 {
                    promo_letter(s[4])
                } else {
                    None
                },
            ),
        )
    } else {
        None
    }
}


/// A list of moves, in the order they were generated.
pub struct MoveList {
    moves: Vec<Move>,
}

impl View for MoveList {
    type V = Seq<Move>;

    closed spec fn view(&self) -> Seq<Move> {
        self.moves@
    }
}

impl MoveList {
    pub fn new() -> (r: Self)
        ensures
            r@ == Seq::<Move>::empty(),
    {
        MoveList { moves: Vec::with_capacity(256) }
    }

    pub fn len(&self) -> (r: usize)
        ensures
            r == self@.len(),
    {
        self.moves.len()
    }

    pub fn push(&mut self, mv: Move)
        ensures
            final(self)@ == old(self)@.push(mv),
    {
        self.moves.push(mv);
    }

    /// Exchanges the moves at positions `a` and `b`.
    pub fn swap(&mut self, a: usize, b: usize)
        requires
            a < old(self)@.len(),
            b < old(self)@.len(),
        ensures
            final(self)@ == old(self)@.update(a as int, old(self)@[b as int]).update(
                b as int,
                old(self)@[a as int],
            ),
    {
        let x = self.moves[a];
        let y = self.moves[b];
        self.moves.set(a, y);
        self.moves.set(b, x);
    }

    /// The move at position `i`.
    pub fn get(&self, i: usize) -> (r: Move)
        requires
            i < self@.len(),
        ensures
            r == self@[i as int],
    {
        self.moves[i]
    }

    /// The moves, in order.
    pub fn as_slice(&self) -> (r: &[Move])
        ensures
            r@ == self@,
    {
        self.moves.as_slice()
    }

    /// An iterator over the moves, in order.
    pub fn iter(&self) -> (r: std::slice::Iter<'_, Move>)
        ensures
            vstd::std_specs::iter::IteratorSpec::remaining(&r) == self@.as_ref(),
    {
        let sl = self.moves.as_slice();
        proof {
            vstd::std_specs::slice::axiom_spec_slice_iter(sl);
        }
        sl.iter()
    }

    /// Whether the list holds `mv`.
    pub fn contains(&self, mv: Move) -> (r: bool)
        ensures
            r == self@.contains(mv),
    {
        let mut i: usize = 0;
        while i < self.moves.len()
            invariant
                i <= self.moves@.len(),
                forall|j: int| 0 <= j < i ==> self.moves@[j] != mv,
            decreases self.moves@.len() - i,
        {
            if self.moves[i] == mv {
                return true;
            }
            i += 1;
        }
        false
    }
}

/// Whether the king of the side to move is attacked, and by what.
#[derive(Copy, Clone, Debug)]
pub enum Check {
    Clear,
    Single(Sq),
    Double,
}

impl Check {
    pub fn is_none(&self) -> (r: bool)
        ensures
            r == (match *self {
                Check::Clear => true,
                _ => false,
            }),
    {
        match self {
            Check::Clear => true,
            _ => false,
        }
    }

    pub fn is_some(&self) -> (r: bool)
        ensures
            r == (match *self {
                Check::Clear => false,
                _ => true,
            }),
    {
        !self.is_none()
    }

    pub fn is_single(&self) -> (r: bool)
        ensures
            r == (match *self {
                Check::Single(_) => true,
                _ => false,
            }),
    {
        match self {
            Check::Single(_) => true,
            _ => false,
        }
    }

    pub fn is_double(&self) -> (r: bool)
        ensures
            r == (match *self {
                Check::Double => true,
                _ => false,
            }),
    {
        match self {
            Check::Double => true,
            _ => false,
        }
    }
}

/// Walks the squares of a bitboard from the lowest up.
#[derive(Copy, Clone)]
pub struct BitboardIterator(u64);

impl BitboardIterator {
    /// The squares not yet visited.
    pub closed spec fn rest(self) -> u64 {
        self.0
    }

    /// The lowest square not yet visited, which is then removed.
    pub fn next(&mut self) -> (r: Option<Sq>)
        ensures
            old(self).rest() == 0 ==> r is None && final(self).rest() == 0,
            old(self).rest() != 0 ==> {
                let t = u64_trailing_zeros(old(self).rest()) as int;
                &&& r == Some(Sq(t as u8))
                &&& 0 <= t < 64
                &&& in_bb(old(self).rest(), t)
                &&& forall|i: int| 0 <= i < t ==> !#[trigger] in_bb(old(self).rest(), i)
                &&& forall|i: int| #[trigger]
                    in_bb(final(self).rest(), i) == (in_bb(old(self).rest(), i) && i != t)
                &&& final(self).rest() < old(self).rest()
            },
    {
        if self.0 != 0 {
            let x = self.0;
            proof {
                lemma_nonzero_has(x);
                lemma_clear_lowest(x);
            }
            let t = self.0.trailing_zeros();
            let sq = Sq(t as u8);
            let y = x & (x - 1);
            assert(y < x) by (bit_vector)
                requires
                    x != 0,
                    y == x & ((x - 1) as u64),
            ;
            self.0 = y;
            Some(sq)
        } else {
            None
        }
    }
}

/// The squares of `bb`, lowest first.
pub fn iter_bb(bb: u64) -> (r: BitboardIterator)
    ensures
        r.rest() == bb,
{
    BitboardIterator(bb)
}


/// What stands on each square, indexed by square.
pub type Board = [Option<Piece>; 64];

/// A chess position with the bitboards of each (side, piece) pair, the board, the side to
/// move, castling rights, the en-passant square, the move clocks, and cached attack data.
#[derive(Copy, Clone, PartialEq, Debug)]
pub struct Position {
    bbs: [u64; 12],
    board: Board,
    stm: Side,
    castle_rights: CastleRights,
    ep: Option<Sq>,
    halfmove_clock: i16,
    fullmoves: i16,
    threats: u64,
    pins: u64,
    checkers: u64,
    hash: u64,
}

/// Index of the bitboard of (piece, side).
pub open spec fn bb_idx(p: Piece, c: Side) -> int {
    p.index() + 6 * c.index()
}

/// The piece and side whose bitboard has index `i` of twelve: the six kinds of white, then those
/// of black.
pub open spec fn bb_owner(i: int) -> (Piece, Side) {
    let c = if i < 6 { Side::White } else { Side::Black };
    let k = if i < 6 { i } else { i - 6 };
    let p = if k == 0 {
        Piece::Pawn
    } else if k == 1 {
        Piece::Knight
    } else if k == 2 {
        Piece::Bishop
    } else if k == 3 {
        Piece::Rook
    } else if k == 4 {
        Piece::Queen
    } else {
        Piece::King
    };
    (p, c)
}

/// Some piece of kind `p` among `pieces` attacks `t` over the occupancy `occ`.
pub open spec fn union_target(p: Piece, pieces: u64, occ: u64, t: int) -> bool {
    exists|s: int| #[trigger] in_bb(pieces, s) && piece_target(p, s, occ, t)
}

/// The bitboard holds exactly one square.
pub open spec fn single_square(b: u64) -> bool {
    b != 0 && b & ((b - 1) as u64) == 0
}

impl Position {
    /// The bitboard of the pieces of kind `p` and side `c`.
    pub closed spec fn bb(self, p: Piece, c: Side) -> u64 {
        self.bbs[bb_idx(p, c)]
    }

    /// The piece kind on square `s` (0..64).
    pub closed spec fn square(self, s: int) -> Option<Piece> {
        self.board[s]
    }

    pub closed spec fn side_to_move(self) -> Side {
        self.stm
    }

    pub closed spec fn rights(self) -> u8 {
        self.castle_rights
    }

    pub closed spec fn ep_square(self) -> Option<Sq> {
        self.ep
    }

    pub closed spec fn halfmoves(self) -> i16 {
        self.halfmove_clock
    }

    pub closed spec fn fullmove_number(self) -> i16 {
        self.fullmoves
    }

    pub closed spec fn threat_bb(self) -> u64 {
        self.threats
    }

    pub closed spec fn pin_bb(self) -> u64 {
        self.pins
    }

    pub closed spec fn checker_bb(self) -> u64 {
        self.checkers
    }

    pub closed spec fn hash_value(self) -> u64 {
        self.hash
    }

    /// The positions have the same bitboards, board and side to move.
    pub closed spec fn same_pieces(self, other: Position) -> bool {
        &&& self.bbs == other.bbs
        &&& self.board == other.board
        &&& self.stm == other.stm
    }

    pub proof fn lemma_same_pieces(self, other: Position)
        requires
            self.same_pieces(other),
        ensures
            self.board_ok() == other.board_ok(),
            forall|p: Piece, c: Side| #[trigger] self.bb(p, c) == other.bb(p, c),
            forall|s: int| #[trigger] self.square(s) == other.square(s),
            self.side_to_move() == other.side_to_move(),
            self.occ_bb() == other.occ_bb(),
            self.king_square(Side::White) == other.king_square(Side::White),
            self.king_square(Side::Black) == other.king_square(Side::Black),
            self.threat_bb() == other.threat_bb() ==> self.threats_ok() == other.threats_ok(),
            self.checker_bb() == other.checker_bb() ==> self.checkers_ok() == other.checkers_ok(),
            self.pin_bb() == other.pin_bb() ==> self.pins_ok() == other.pins_ok(),
            forall|c: Side, o: u64, t: int| #[trigger] self.attacked(c, o, t) == other.attacked(c, o, t),
            forall|s: int| #[trigger] self.gives_check(s) == other.gives_check(s),
            forall|s: int| #[trigger] self.pinned(s) == other.pinned(s),
    {
        assert forall|p: Piece, q: int, s: int| #[trigger] self.pin_via(p, q, s) == other.pin_via(p, q, s) by {
            assert(self.between_king(p, q) == other.between_king(p, q));
        }
        assert forall|c: Side, o: u64, t: int| #[trigger] self.attacked(c, o, t) == other.attacked(c, o, t) by {
        }
        assert forall|s: int| #[trigger] self.gives_check(s) == other.gives_check(s) by {
        }
        assert forall|s: int| #[trigger] self.pinned(s) == other.pinned(s) by {
            if self.pinned(s) {
                let (p, q) = choose|p: Piece, q: int| #[trigger] self.pin_via(p, q, s);
                assert(other.pin_via(p, q, s));
            }
            if other.pinned(s) {
                let (p, q) = choose|p: Piece, q: int| #[trigger] other.pin_via(p, q, s);
                assert(self.pin_via(p, q, s));
            }
        }
        assert forall|p: Piece, c: Side| #[trigger] self.bb(p, c) == other.bb(p, c) by {}
        assert forall|s: int| #[trigger] self.square(s) == other.square(s) by {}
        assert(self.board_ok() ==> other.board_ok()) by {
            if self.board_ok() {
                assert forall|p: Piece, c: Side, s: int| #[trigger] in_bb(other.bb(p, c), s) implies other.square(s) == Some(p) by {
                    assert(in_bb(self.bb(p, c), s));
                }
                assert forall|s: int| 0 <= s < 64 && #[trigger] other.square(s) is Some implies (in_bb(other.bb(other.square(s)->0, Side::White), s) != in_bb(other.bb(other.square(s)->0, Side::Black), s)) by {
                    assert(self.square(s) is Some);
                }
            }
        }
        assert(other.board_ok() ==> self.board_ok()) by {
            if other.board_ok() {
                assert forall|p: Piece, c: Side, s: int| #[trigger] in_bb(self.bb(p, c), s) implies self.square(s) == Some(p) by {
                    assert(in_bb(other.bb(p, c), s));
                }
                assert forall|s: int| 0 <= s < 64 && #[trigger] self.square(s) is Some implies (in_bb(self.bb(self.square(s)->0, Side::White), s) != in_bb(self.bb(self.square(s)->0, Side::Black), s)) by {
                    assert(other.square(s) is Some);
                }
            }
        }
    }

    /// Two well-formed positions with the same occupants, side to move, castling rights,
    /// en-passant square and clocks are the same position.
    pub proof fn lemma_determined(self, other: Position)
        requires
            self.wf(),
            other.wf(),
            self.occupants() == other.occupants(),
            self.side_to_move() == other.side_to_move(),
            self.rights() == other.rights(),
            self.ep_square() == other.ep_square(),
            self.halfmoves() == other.halfmoves(),
            self.fullmove_number() == other.fullmove_number(),
        ensures
            self == other,
    {
        self.lemma_describes_occupants();
        other.lemma_describes_occupants();
        let o = self.occupants();
        assert forall|p: Piece, c: Side| #[trigger] self.bb(p, c) == other.bb(p, c) by {
            assert forall|i: int| 0 <= i < 64 implies #[trigger] in_bb(self.bb(p, c), i) == in_bb(other.bb(p, c), i) by {}
            crate::bits::lemma_same_squares_eq(self.bb(p, c), other.bb(p, c));
        }
        assert forall|i: int| 0 <= i < 12 implies self.bbs[i] == other.bbs[i] by {
            let c = if i < 6 { Side::White } else { Side::Black };
            let k = if i < 6 { i } else { i - 6 };
            let p = if k == 0 { Piece::Pawn } else if k == 1 { Piece::Knight } else if k == 2 { Piece::Bishop }
                else if k == 3 { Piece::Rook } else if k == 4 { Piece::Queen } else { Piece::King };
            assert(self.bb(p, c) == other.bb(p, c));
        }
        assert(self.bbs =~= other.bbs);
        assert forall|i: int| 0 <= i < 64 implies self.board[i] == other.board[i] by {
            assert(self.square(i) == other.square(i));
        }
        assert(self.board =~= other.board);
        assert(self.same_pieces(other));
        self.lemma_same_pieces(other);
        let c = self.side_to_move();
        let kl = self.occ_bb() ^ (1u64 << (self.king_square(c) as u64));
        assert forall|i: int| 0 <= i < 64 implies #[trigger] in_bb(self.threat_bb(), i) == in_bb(other.threat_bb(), i) by {
            assert(self.attacked(c.other(), kl, i) == other.attacked(c.other(), kl, i));
        }
        crate::bits::lemma_same_squares_eq(self.threat_bb(), other.threat_bb());
        assert forall|i: int| 0 <= i < 64 implies #[trigger] in_bb(self.checker_bb(), i) == in_bb(other.checker_bb(), i) by {
            assert(self.gives_check(i) == other.gives_check(i));
        }
        crate::bits::lemma_same_squares_eq(self.checker_bb(), other.checker_bb());
        assert forall|i: int| 0 <= i < 64 implies #[trigger] in_bb(self.pin_bb(), i) == in_bb(other.pin_bb(), i) by {
            assert(self.pinned(i) == other.pinned(i));
        }
        crate::bits::lemma_same_squares_eq(self.pin_bb(), other.pin_bb());
        assert(self.expected_hash() == other.expected_hash());
    }

    /// The positions have the same bitboards and board.
    pub closed spec fn same_board(self, other: Position) -> bool {
        &&& self.bbs == other.bbs
        &&& self.board == other.board
    }

    pub proof fn lemma_same_board(self, other: Position)
        requires
            self.same_board(other),
        ensures
            forall|p: Piece, c: Side| #[trigger] self.bb(p, c) == other.bb(p, c),
            forall|s: int| #[trigger] self.square(s) == other.square(s),
    {
    }

    /// The positions differ at most in their bitboards, board and hash.
    pub closed spec fn same_but_hash(self, other: Position) -> bool {
        &&& self.stm == other.stm
        &&& self.castle_rights == other.castle_rights
        &&& self.ep == other.ep
        &&& self.halfmove_clock == other.halfmove_clock
        &&& self.fullmoves == other.fullmoves
        &&& self.threats == other.threats
        &&& self.pins == other.pins
        &&& self.checkers == other.checkers
    }

    /// The positions differ at most in their bitboards and board.
    pub closed spec fn same_but_pieces(self, other: Position) -> bool {
        &&& self.stm == other.stm
        &&& self.castle_rights == other.castle_rights
        &&& self.ep == other.ep
        &&& self.halfmove_clock == other.halfmove_clock
        &&& self.fullmoves == other.fullmoves
        &&& self.threats == other.threats
        &&& self.pins == other.pins
        &&& self.checkers == other.checkers
        &&& self.hash == other.hash
    }

    pub closed spec fn with_threats(self, t: u64) -> Position {
        Position { threats: t, ..self }
    }

    pub closed spec fn with_pins(self, t: u64) -> Position {
        Position { pins: t, ..self }
    }

    pub closed spec fn with_checkers(self, t: u64) -> Position {
        Position { checkers: t, ..self }
    }

    pub closed spec fn with_ep_hash(self, ep: Option<Sq>, hash: u64) -> Position {
        Position { ep: ep, hash: hash, ..self }
    }

    /// A piece of kind `p` and side `c` stands on `s`.
    pub open spec fn piece_on(self, s: int, p: Piece, c: Side) -> bool {
        in_bb(self.bb(p, c), s)
    }

    /// All squares of side `c`.
    pub open spec fn side_bb(self, c: Side) -> u64 {
        self.bb(Piece::Pawn, c) | self.bb(Piece::Knight, c) | self.bb(Piece::Bishop, c) | self.bb(
            Piece::Rook,
            c,
        ) | self.bb(Piece::Queen, c) | self.bb(Piece::King, c)
    }

    /// All occupied squares.
    pub open spec fn occ_bb(self) -> u64 {
        self.side_bb(Side::White) | self.side_bb(Side::Black)
    }

    /// Piece and side on square `s`.
    pub open spec fn occupant(self, s: int) -> Option<(Piece, Side)> {
        match self.square(s) {
            Some(p) => Some((p, if self.piece_on(s, p, Side::White) { Side::White } else { Side::Black })),
            None => None,
        }
    }

    /// The square of the king of side `c`.
    pub open spec fn king_square(self, c: Side) -> int {
        vstd::std_specs::bits::u64_trailing_zeros(self.bb(Piece::King, c)) as int
    }

    /// The bitboards agree with the board: every bitboard square holds that piece, and each
    /// occupied square is in exactly one of the two sides' bitboards of its kind.
    pub open spec fn board_ok(self) -> bool {
        &&& forall|p: Piece, c: Side, s: int| #[trigger] in_bb(self.bb(p, c), s) ==> self.square(s) == Some(p)
        &&& forall|s: int| 0 <= s < 64 && #[trigger] self.square(s) is Some ==> (in_bb(self.bb(self.square(s)->0, Side::White), s) != in_bb(self.bb(self.square(s)->0, Side::Black), s))
        &&& single_square(self.bb(Piece::King, Side::White))
        &&& single_square(self.bb(Piece::King, Side::Black))
    }

    /// Each castling right comes with the king and the rook on their starting squares.
    pub open spec fn castle_ok(self) -> bool {
        &&& self.rights() < 16
        &&& self.rights() & 1 != 0 ==> self.piece_on(4, Piece::King, Side::White) && self.piece_on(7, Piece::Rook, Side::White)
        &&& self.rights() & 2 != 0 ==> self.piece_on(4, Piece::King, Side::White) && self.piece_on(0, Piece::Rook, Side::White)
        &&& self.rights() & 4 != 0 ==> self.piece_on(60, Piece::King, Side::Black) && self.piece_on(63, Piece::Rook, Side::Black)
        &&& self.rights() & 8 != 0 ==> self.piece_on(60, Piece::King, Side::Black) && self.piece_on(56, Piece::Rook, Side::Black)
    }

    /// An en-passant square is empty, on the third rank from the mover's opponent, with the
    /// opponent's pawn just beyond it.
    pub open spec fn ep_ok(self) -> bool {
        match self.ep_square() {
            Some(e) => {
                &&& e.valid()
                &&& self.square(e.idx()) is None
                &&& self.side_to_move() == Side::White ==> rank_of(e.idx()) == 5 && self.piece_on(e.idx() - 8, Piece::Pawn, Side::Black)
                &&& self.side_to_move() == Side::Black ==> rank_of(e.idx()) == 2 && self.piece_on(e.idx() + 8, Piece::Pawn, Side::White)
            },
            None => true,
        }
    }

    /// Square `t` is attacked by side `c` over the occupancy `occ`.
    pub open spec fn attacked(self, c: Side, occ: u64, t: int) -> bool {
        ||| pawn_target(self.bb(Piece::Pawn, c), c, t)
        ||| union_target(Piece::Knight, self.bb(Piece::Knight, c), occ, t)
        ||| union_target(Piece::Bishop, self.bb(Piece::Bishop, c), occ, t)
        ||| union_target(Piece::Rook, self.bb(Piece::Rook, c), occ, t)
        ||| union_target(Piece::Queen, self.bb(Piece::Queen, c), occ, t)
        ||| king_step(self.king_square(c), t)
    }

    /// The squares the opponent attacks, looking through the mover's king.
    pub open spec fn threats_ok(self) -> bool {
        let c = self.side_to_move();
        let kingless = self.occ_bb() ^ (1u64 << (self.king_square(c) as u64));
        forall|t: int| #[trigger] in_bb(self.threat_bb(), t) == self.attacked(c.other(), kingless, t)
    }

    /// Opponent piece on `s` attacks the mover's king.
    pub open spec fn gives_check(self, s: int) -> bool {
        let c = self.side_to_move();
        let o = c.other();
        let k = self.king_square(c);
        let occ = self.occ_bb();
        ||| self.piece_on(s, Piece::Pawn, o) && pawn_target(1u64 << (k as u64), c, s)
        ||| self.piece_on(s, Piece::Knight, o) && knight_step(k, s)
        ||| self.piece_on(s, Piece::Bishop, o) && bishop_target(k, occ, s)
        ||| self.piece_on(s, Piece::Rook, o) && rook_target(k, occ, s)
        ||| self.piece_on(s, Piece::Queen, o) && (bishop_target(k, occ, s) || rook_target(k, occ, s))
        ||| self.piece_on(s, Piece::King, o) && king_step(k, s)
    }

    pub open spec fn checkers_ok(self) -> bool {
        forall|s: int| #[trigger] in_bb(self.checker_bb(), s) == self.gives_check(s)
    }

    /// The squares strictly between an opponent slider of kind `p` on `q` and the mover's
    /// king, along the lines that kind moves on.
    pub open spec fn between_king(self, p: Piece, q: int) -> u64 {
        let k = self.king_square(self.side_to_move());
        let ends = !((1u64 << (q as u64)) | (1u64 << (k as u64)));
        let diag = segment(q, k, diagonal_dir(q, k)) & ends;
        let straight = segment(q, k, straight_dir(q, k)) & ends;
        if p == Piece::Bishop {
            diag
        } else if p == Piece::Rook {
            straight
        } else {
            diag | straight
        }
    }

    /// The only occupied square between an opponent slider on `q` and the mover's king.
    pub open spec fn pin_via(self, p: Piece, q: int, s: int) -> bool {
        let mask = self.occ_bb() & self.between_king(p, q);
        &&& (p == Piece::Bishop || p == Piece::Rook || p == Piece::Queen)
        &&& self.piece_on(q, p, self.side_to_move().other())
        &&& crate::bits::popcount(mask) == 1
        &&& in_bb(mask, s)
    }

    /// Square `s` is the only occupied square between an opponent slider and the mover's king.
    pub open spec fn pinned(self, s: int) -> bool {
        exists|p: Piece, q: int| #[trigger] self.pin_via(p, q, s)
    }

    pub open spec fn pins_ok(self) -> bool {
        forall|s: int| #[trigger] in_bb(self.pin_bb(), s) == self.pinned(s)
    }

    /// Zobrist key of what stands on square `s`.
    pub open spec fn square_key(o: Option<(Piece, Side)>, s: int) -> u64 {
        match o {
            Some((p, c)) => crate::zobrist::piece_key(c, p, s),
            None => 0,
        }
    }

    /// The occupants of all squares.
    pub open spec fn occupants(self) -> Seq<Option<(Piece, Side)>> {
        Seq::new(64, |s: int| self.occupant(s))
    }

    /// The key that square `s` adds through bitboard `i`: its piece key when the square is set.
    pub open spec fn bit_key(self, i: int, s: int) -> u64 {
        let (p, c) = bb_owner(i);
        if in_bb(self.bb(p, c), s) {
            crate::zobrist::piece_key(c, p, s)
        } else {
            0
        }
    }

    /// The keys that square `s` adds through the first `i` bitboards.
    pub open spec fn square_bits_hash(self, s: int, i: nat) -> u64
        decreases i,
    {
        if i == 0 {
            0
        } else {
            self.square_bits_hash(s, (i - 1) as nat) ^ self.bit_key(i - 1, s)
        }
    }

    /// The keys of the set squares of all twelve bitboards, over the first `n` squares.
    pub open spec fn bits_hash(self, n: nat) -> u64
        decreases n,
    {
        if n == 0 {
            0
        } else {
            self.bits_hash((n - 1) as nat) ^ self.square_bits_hash(n - 1, 12)
        }
    }

    /// The hash computed from the bitboards, the side to move, the castling rights and the
    /// en-passant square.
    pub open spec fn bitboard_hash(self) -> u64 {
        crate::zobrist::base_key() ^ self.bits_hash(64) ^ (if self.side_to_move() == Side::Black {
            crate::zobrist::black_to_move_key()
        } else {
            0
        }) ^ crate::zobrist::castling_key(self.rights()) ^ match self.ep_square() {
            Some(e) => crate::zobrist::ep_key(e.idx()),
            None => 0,
        }
    }

    /// The hash the position should carry.
    pub open spec fn expected_hash(self) -> u64 {
        crate::zobrist::base_key() ^ occupants_hash(self.occupants(), 64) ^ (if self.side_to_move() == Side::Black {
            crate::zobrist::black_to_move_key()
        } else {
            0
        }) ^ crate::zobrist::castling_key(self.rights()) ^ match self.ep_square() {
            Some(e) => crate::zobrist::ep_key(e.idx()),
            None => 0,
        }
    }

    /// The position is well formed: board and bitboards agree, each side has one king,
    /// castling rights and the en-passant square are consistent, and the cached threats,
    /// checkers, pins and hash are those of the position.
    pub open spec fn wf(self) -> bool {
        &&& self.board_ok()
        &&& self.castle_ok()
        &&& self.ep_ok()
        &&& self.threats_ok()
        &&& self.checkers_ok()
        &&& self.pins_ok()
        &&& self.hash_value() == self.expected_hash()
    }
}

/// XOR of the keys of the occupants of the first `n` squares.
pub open spec fn occupants_hash(o: Seq<Option<(Piece, Side)>>, n: nat) -> u64
    decreases n,
{
    if n == 0 {
        0
    } else {
        occupants_hash(o, (n - 1) as nat) ^ Position::square_key(o[n - 1], n - 1)
    }
}

/// Naming a square and reading the name back gives the square.
pub proof fn lemma_square_name_round_trip(i: int)
    requires
        0 <= i < 64,
    ensures
        square_named(file_char(file_of(i)), rank_char(rank_of(i))) == Some(i),
{
    assert(file_char(file_of(i)) as int == 97 + file_of(i));
    assert(rank_char(rank_of(i)) as int == 49 + rank_of(i));
}

/// Writing a move in UCI notation and reading it back gives the move.
pub proof fn lemma_uci_round_trip(m: Move)
    requires
        m.word() < 0x6000,
        promotion_ok(m.promo()),
    ensures
        uci_move(uci_text(m)) == Some(m),
{
    Move::lemma_squares(m);
    lemma_square_name_round_trip(m.from_sq());
    lemma_square_name_round_trip(m.to_sq());
    let s = uci_text(m);
    let p = m.promo();
    assert(s[0] == file_char(file_of(m.from_sq())) && s[1] == rank_char(rank_of(m.from_sq())));
    assert(s[2] == file_char(file_of(m.to_sq())) && s[3] == rank_char(rank_of(m.to_sq())));
    let from = square_named(s[0], s[1])->0;
    let to = square_named(s[2], s[3])->0;
    let pr = if s.len() == 5 { promo_letter(s[4]) } else { None };
    if let Some(q) = p {
        assert(s.len() == 5 && s[4] == piece_letter(q));
        assert(promo_letter(piece_letter(q)) == Some(q));
    } else {
        assert(s.len() == 4);
    }
    assert(pr == p);
    Move::lemma_spec_new(from, to, pr);
    Move::lemma_fields_eq(Move::spec_new(from, to, pr), m);
}

} // verus!
