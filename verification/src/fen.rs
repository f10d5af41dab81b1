//! Forsyth-Edwards Notation: reading and writing positions as text.
use vstd::prelude::*;
use crate::{Position, Piece, Side, Sq, square_named, rank_of, file_of, piece_letter, file_char, rank_char};
use crate::position::{kings_ok, rights_ok, ep_square_ok};
use crate::text::chars_of;

verus! {

/// Unicode white space, as `char::is_whitespace` classifies it.
pub open spec fn is_space(c: char) -> bool {
    let x = c as u32;
    ||| 9 <= x <= 13
    ||| x == 32
    ||| x == 0x85
    ||| x == 0xa0
    ||| x == 0x1680
    ||| 0x2000 <= x <= 0x200a
    ||| x == 0x2028
    ||| x == 0x2029
    ||| x == 0x202f
    ||| x == 0x205f
    ||| x == 0x3000
}

/// Whether `c` is white space.
pub fn is_whitespace(c: char) -> (r: bool)
    ensures
        r == is_space(c),
{
    let x = c as u32;
    (9 <= x && x <= 13) || x == 32 || x == 0x85 || x == 0xa0 || x == 0x1680 || (0x2000 <= x && x
        <= 0x200a) || x == 0x2028 || x == 0x2029 || x == 0x202f || x == 0x205f || x == 0x3000
}

/// The first index from `i` on that is not white space (or the end).
pub open spec fn skip_space(s: Seq<char>, i: int) -> int
    decreases s.len() - i,
{
    if i < 0 || i >= s.len() || !is_space(s[i]) {
        i
    } else {
        skip_space(s, i + 1)
    }
}

/// The first index from `i` on that is white space (or the end).
pub open spec fn skip_word(s: Seq<char>, i: int) -> int
    decreases s.len() - i,
{
    if i < 0 || i >= s.len() || is_space(s[i]) {
        i
    } else {
        skip_word(s, i + 1)
    }
}

/// Start and end of the `k`-th white-space separated field of `s`, searching from `from`.
pub open spec fn field_span(s: Seq<char>, from: int, k: nat) -> (int, int)
    decreases k,
{
    let a = skip_space(s, from);
    let b = skip_word(s, a);
    if k == 0 {
        (a, b)
    } else {
        field_span(s, b, (k - 1) as nat)
    }
}

/// The `k`-th field of `s`, if there are that many.
pub open spec fn field(s: Seq<char>, k: nat) -> Option<Seq<char>> {
    let (a, b) = field_span(s, 0, k);
    if a < s.len() {
        Some(s.subrange(a, b))
    } else {
        None
    }
}

proof fn lemma_skip_space(s: Seq<char>, i: int)
    requires
        0 <= i <= s.len(),
    ensures
        i <= skip_space(s, i) <= s.len(),
        skip_space(s, i) < s.len() ==> !is_space(s[skip_space(s, i)]),
    decreases s.len() - i,
{
    if i < s.len() && is_space(s[i]) {
        lemma_skip_space(s, i + 1);
    }
}

proof fn lemma_skip_word(s: Seq<char>, i: int)
    requires
        0 <= i <= s.len(),
    ensures
        i <= skip_word(s, i) <= s.len(),
        i < s.len() && !is_space(s[i]) ==> i < skip_word(s, i),
    decreases s.len() - i,
{
    if i < s.len() && !is_space(s[i]) {
        lemma_skip_word(s, i + 1);
    }
}

/// The next field of `c` at or after `from`: its start and end.
fn next_field(c: &Vec<char>, from: usize) -> (r: (usize, usize))
    requires
        from <= c@.len(),
    ensures
        r.0 == skip_space(c@, from as int),
        r.1 == skip_word(c@, r.0 as int),
        from <= r.0 <= r.1 <= c@.len(),
{
    let mut a = from;
    while a < c.len() && is_whitespace(c[a])
        invariant
            from <= a <= c@.len(),
            skip_space(c@, a as int) == skip_space(c@, from as int),
        decreases c@.len() - a,
    {
        a += 1;
    }
    let mut b = a;
    while b < c.len() && !is_whitespace(c[b])
        invariant
            a <= b <= c@.len(),
            skip_word(c@, b as int) == skip_word(c@, a as int),
        decreases c@.len() - b,
    {
        b += 1;
    }
    (a, b)
}

/// The first `n` fields of `c`: for each, its start and end, the start past the end of `c`
/// when the field is missing.
#[verifier::spinoff_prover]
fn fields(c: &Vec<char>, n: usize) -> (r: Vec<(usize, usize)>)
    ensures
        r@.len() == n,
        forall|k: int| 0 <= k < n ==> #[trigger] r@[k].0 == field_span(c@, 0, k as nat).0 && r@[k].1
            == field_span(c@, 0, k as nat).1,
        forall|k: int| 0 <= k < n ==> #[trigger] r@[k].0 <= r@[k].1 <= c@.len(),
{
    let mut r: Vec<(usize, usize)> = Vec::new();
    let mut from: usize = 0;
    let mut k: usize = 0;
    while k < n
        invariant
            k <= n,
            r@.len() == k,
            from <= c@.len(),
            forall|j: int| 0 <= j < k ==> #[trigger] r@[j].0 == field_span(c@, 0, j as nat).0 && r@[j].1
                == field_span(c@, 0, j as nat).1,
            forall|j: int| 0 <= j < k ==> #[trigger] r@[j].0 <= r@[j].1 <= c@.len(),
            forall|m: nat| #[trigger] field_span(c@, from as int, m) == field_span(c@, 0, (m + k) as nat),
        decreases n - k,
    {
        let span = next_field(c, from);
        proof {
            assert(span.0 == field_span(c@, from as int, 0).0);
            assert(field_span(c@, from as int, 0) == field_span(c@, 0, k as nat));
            assert forall|m: nat| #[trigger] field_span(c@, span.1 as int, m) == field_span(c@, 0, (m + k + 1) as nat) by {
                assert(field_span(c@, from as int, m + 1) == field_span(c@, span.1 as int, m));
                assert(field_span(c@, from as int, (m + 1) as nat) == field_span(c@, 0, (m + 1 + k) as nat));
            }
        }
        r.push(span);
        from = span.1;
        k += 1;
    }
    r
}

/// The piece and side a placement letter stands for: upper case White, lower case Black.
pub open spec fn letter_occupant(c: char) -> Option<(Piece, Side)> {
    if c == 'P' {
        Some((Piece::Pawn, Side::White))
    } else if c == 'N' {
        Some((Piece::Knight, Side::White))
    } else if c == 'B' {
        Some((Piece::Bishop, Side::White))
    } else if c == 'R' {
        Some((Piece::Rook, Side::White))
    } else if c == 'Q' {
        Some((Piece::Queen, Side::White))
    } else if c == 'K' {
        Some((Piece::King, Side::White))
    } else if c == 'p' {
        Some((Piece::Pawn, Side::Black))
    } else if c == 'n' {
        Some((Piece::Knight, Side::Black))
    } else if c == 'b' {
        Some((Piece::Bishop, Side::Black))
    } else if c == 'r' {
        Some((Piece::Rook, Side::Black))
    } else if c == 'q' {
        Some((Piece::Queen, Side::Black))
    } else if c == 'k' {
        Some((Piece::King, Side::Black))
    } else {
        None
    }
}

/// Reading piece placement text `s` from index `i`, with rank `r` filled up to file `f` and
/// the board so far `b`: ranks run from the eighth down to the first, separated by '/'; within
/// a rank a digit 1-8 skips that many files and a letter places a piece; a rank must end on
/// exactly its eighth file. Text after the first rank is not read.
pub open spec fn place(s: Seq<char>, i: int, r: int, f: int, b: Seq<Option<(Piece, Side)>>) -> Option<Seq<Option<(Piece, Side)>>>
    decreases r, 8 - f,
{
    if r < 0 || f < 0 || f > 8 || i < 0 {
        None
    } else if f == 8 {
        if r == 0 {
            Some(b)
        } else if i < s.len() && s[i] == '/' {
            place(s, i + 1, r - 1, 0, b)
        } else {
            None
        }
    } else if i >= s.len() {
        None
    } else if '1' <= s[i] <= '8' {
        let d = s[i] as int - 48;
        if f + d > 8 {
            None
        } else {
            place(s, i + 1, r, f + d, b)
        }
    } else {
        match letter_occupant(s[i]) {
            Some(o) => place(s, i + 1, r, f + 1, b.update(r * 8 + f, Some(o))),
            None => None,
        }
    }
}

/// The board a piece placement field describes, square by square.
pub open spec fn placement(s: Seq<char>) -> Option<Seq<Option<(Piece, Side)>>> {
    place(s, 0, 7, 0, Seq::new(64, |i: int| None::<(Piece, Side)>))
}

fn letter_to_occupant(c: char) -> (r: Option<(Piece, Side)>)
    ensures
        r == letter_occupant(c),
{
    match c {
        'P' => Some((Piece::Pawn, Side::White)),
        'N' => Some((Piece::Knight, Side::White)),
        'B' => Some((Piece::Bishop, Side::White)),
        'R' => Some((Piece::Rook, Side::White)),
        'Q' => Some((Piece::Queen, Side::White)),
        'K' => Some((Piece::King, Side::White)),
        'p' => Some((Piece::Pawn, Side::Black)),
        'n' => Some((Piece::Knight, Side::Black)),
        'b' => Some((Piece::Bishop, Side::Black)),
        'r' => Some((Piece::Rook, Side::Black)),
        'q' => Some((Piece::Queen, Side::Black)),
        'k' => Some((Piece::King, Side::Black)),
        _ => None,
    }
}

/// Appends the characters of `src` to `dst`.
pub fn append(dst: &mut String, src: &str)
    ensures
        final(dst)@ == old(dst)@ + src@,
{
    let c = chars_of(src);
    let mut i: usize = 0;
    while i < c.len()
        invariant
            i <= c@.len(),
            c@ == src@,
            dst@ == old(dst)@ + src@.subrange(0, i as int),
        decreases c@.len() - i,
    {
        dst.push(c[i]);
        proof {
            assert(src@.subrange(0, i + 1) =~= src@.subrange(0, i as int).push(c@[i as int]));
        }
        i += 1;
    }
    proof {
        assert(src@.subrange(0, c@.len() as int) =~= src@);
    }
}

/// A string holding `s`.
pub fn text_of(s: &str) -> (r: String)
    ensures
        r@ == s@,
{
    let mut r = String::new();
    append(&mut r, s);
    r
}

/// The digit character of `d` (0..10).
pub open spec fn digit_char(d: int) -> char {
    (48 + d) as char
}

/// Reads the piece placement field `c[start..end]`.
fn parse_piece_placement(c: &Vec<char>, start: usize, end: usize) -> (r: Result<[Option<(Piece, Side)>; 64], String>)
    requires
        start <= end <= c@.len(),
    ensures
        r is Ok <==> placement(c@.subrange(start as int, end as int)) is Some,
        r matches Ok(b) ==> placement(c@.subrange(start as int, end as int)) == Some(b@),
{
    let ghost s = c@.subrange(start as int, end as int);
    let mut b: [Option<(Piece, Side)>; 64] = [None; 64];
    let mut r: usize = 7;
    let mut f: usize = 0;
    let mut i: usize = start;
    proof {
        assert(b@ =~= Seq::new(64, |i: int| None::<(Piece, Side)>));
    }
    loop
        invariant
            start <= i <= end,
            end <= c@.len(),
            s == c@.subrange(start as int, end as int),
            r < 8,
            f <= 8,
            b@.len() == 64,
            place(s, i - start, r as int, f as int, b@) == placement(s),
        decreases r * 9 + 8 - f,
    {
        if f == 8 {
            if r == 0 {
                return Ok(b);
            }
            if i < end && c[i] == '/' {
                i += 1;
                r -= 1;
                f = 0;
            } else {
                return Err(text_of("expected a '/'"));
            }
        } else {
            if i >= end {
                return Err(text_of("unexpected end of piece placement"));
            }
            let ch = c[i];
            assert(s[i - start] == ch);
            if '1' <= ch && ch <= '8' {
                let x = (ch as u32 - 48) as usize;
                if f + x > 8 {
                    let mut m = text_of("rank ");
                    m.push(((r + 1) as u8 + 48) as char);
                    append(&mut m, " has too many pieces");
                    return Err(m);
                }
                f += x;
                i += 1;
            } else {
                match letter_to_occupant(ch) {
                    Some(o) => {
                        b[r * 8 + f] = Some(o);
                        f += 1;
                        i += 1;
                    },
                    None => {
                        let mut m = text_of("unexpected character '");
                        m.push(ch);
                        m.push('\'');
                        return Err(m);
                    },
                }
            }
        }
    }
}

/// The side a side-to-move field names.
pub open spec fn side_field(s: Seq<char>) -> Option<Side> {
    if s == seq!['w'] {
        Some(Side::White)
    } else if s == seq!['b'] {
        Some(Side::Black)
    } else {
        None
    }
}

/// The castling flag a letter names.
pub open spec fn right_flag(c: char) -> Option<u8> {
    if c == 'K' {
        Some(1u8)
    } else if c == 'Q' {
        Some(2u8)
    } else if c == 'k' {
        Some(4u8)
    } else if c == 'q' {
        Some(8u8)
    } else {
        None
    }
}

/// The castling rights named by the first `n` letters of `s`, if all are castling letters.
pub open spec fn rights_letters(s: Seq<char>, n: int) -> Option<u8>
    decreases n,
{
    if n <= 0 {
        Some(0u8)
    } else {
        match (rights_letters(s, n - 1), right_flag(s[n - 1])) {
            (Some(r), Some(x)) => Some(r | x),
            _ => None,
        }
    }
}

/// The castling rights a castling field names: none for "-", else one flag per letter.
pub open spec fn rights_field(s: Seq<char>) -> Option<u8> {
    if s == seq!['-'] {
        Some(0u8)
    } else {
        rights_letters(s, s.len() as int)
    }
}

/// The en-passant square an en-passant field names: none for "-", else a square name.
pub open spec fn ep_field(s: Seq<char>) -> Option<Option<Sq>> {
    if s == seq!['-'] {
        Some(None)
    } else if s.len() == 2 && square_named(s[0], s[1]) is Some {
        Some(Some(Sq(square_named(s[0], s[1])->0 as u8)))
    } else {
        None
    }
}

/// The number the decimal digits of the first `n` characters of `s` spell, if all are digits.
pub open spec fn digits_value(s: Seq<char>, n: int) -> Option<nat>
    decreases n,
{
    if n <= 0 {
        Some(0nat)
    } else {
        match digits_value(s, n - 1) {
            Some(v) => if '0' <= s[n - 1] <= '9' {
                Some((v * 10 + (s[n - 1] as int - 48)) as nat)
            } else {
                None
            },
            None => None,
        }
    }
}

/// The count a clock field spells: an optional '+' then at least one digit, no more than
/// `usize::MAX`.
pub open spec fn count_field(s: Seq<char>) -> Option<nat> {
    let t = if s.len() > 0 && s[0] == '+' { s.drop_first() } else { s };
    if t.len() == 0 {
        None
    } else {
        match digits_value(t, t.len() as int) {
            Some(v) => if v <= usize::MAX { Some(v) } else { None },
            None => None,
        }
    }
}

proof fn lemma_digits_grow(s: Seq<char>, k: int, n: int)
    requires
        0 <= k <= n <= s.len(),
        digits_value(s, n) is Some,
    ensures
        digits_value(s, k) is Some,
        digits_value(s, k)->0 <= digits_value(s, n)->0,
    decreases n - k,
{
    if k < n {
        lemma_digits_grow(s, k, n - 1);
    }
}

fn parse_side(c: &Vec<char>, a: usize, b: usize) -> (r: Option<Side>)
    requires
        a <= b <= c@.len(),
    ensures
        r == side_field(c@.subrange(a as int, b as int)),
{
    let ghost s = c@.subrange(a as int, b as int);
    if b - a != 1 {
        assert(seq!['w'].len() == 1 && seq!['b'].len() == 1);
        assert(s != seq!['w'] && s != seq!['b']);
        return None;
    }
    assert(s[0] == c@[a as int]);
    assert(seq!['w'][0] == 'w' && seq!['b'][0] == 'b');
    if c[a] == 'w' {
        assert(s =~= seq!['w']);
        Some(Side::White)
    } else if c[a] == 'b' {
        assert(s =~= seq!['b']);
        Some(Side::Black)
    } else {
        None
    }
}

fn parse_rights(c: &Vec<char>, a: usize, b: usize) -> (r: Option<u8>)
    requires
        a <= b <= c@.len(),
    ensures
        r == rights_field(c@.subrange(a as int, b as int)),
{
    let ghost s = c@.subrange(a as int, b as int);
    if b - a == 1 && c[a] == '-' {
        assert(s =~= seq!['-']);
        return Some(0);
    }
    assert(s != seq!['-']) by {
        if s.len() == 1 {
            assert(s[0] == c@[a as int]);
        }
    }
    let mut rights: u8 = 0;
    let mut i = a;
    while i < b
        invariant
            a <= i <= b,
            b <= c@.len(),
            s == c@.subrange(a as int, b as int),
            s != seq!['-'],
            rights_letters(s, i - a) == Some(rights),
        decreases b - i,
    {
        let flag: u8 = match c[i] {
            'K' => 1,
            'Q' => 2,
            'k' => 4,
            'q' => 8,
            _ => {
                assert(s[i - a] == c@[i as int]);
                assert(rights_letters(s, i - a + 1) is None);
                proof {
                    lemma_rights_stop(s, i - a + 1, s.len() as int);
                }
                return None;
            },
        };
        assert(s[i - a] == c@[i as int]);
        rights = rights | flag;
        i += 1;
    }
    Some(rights)
}

proof fn lemma_rights_stop(s: Seq<char>, k: int, n: int)
    requires
        0 <= k <= n,
        rights_letters(s, k) is None,
    ensures
        rights_letters(s, n) is None,
    decreases n - k,
{
    if k < n {
        lemma_rights_stop(s, k, n - 1);
    }
}

fn parse_ep(c: &Vec<char>, a: usize, b: usize) -> (r: Option<Option<Sq>>)
    requires
        a <= b <= c@.len(),
    ensures
        r == ep_field(c@.subrange(a as int, b as int)),
{
    let ghost s = c@.subrange(a as int, b as int);
    if b - a == 1 && c[a] == '-' {
        assert(s =~= seq!['-']);
        return Some(None);
    }
    assert(s != seq!['-']) by {
        if s.len() == 1 {
            assert(s[0] == c@[a as int]);
        }
    }
    if b - a != 2 {
        return None;
    }
    assert(s[0] == c@[a as int] && s[1] == c@[a + 1]);
    match Sq::from_chars(c[a], c[a + 1]) {
        Some(sq) => Some(Some(sq)),
        None => None,
    }
}

pub(crate) fn parse_count(c: &Vec<char>, a: usize, b: usize) -> (r: Option<usize>)
    requires
        a <= b <= c@.len(),
    ensures
        match count_field(c@.subrange(a as int, b as int)) {
            Some(v) => r == Some(v as usize),
            None => r is None,
        },
{
    let ghost s = c@.subrange(a as int, b as int);
    let start = if a < b && c[a] == '+' { a + 1 } else { a };
    let ghost t = c@.subrange(start as int, b as int);
    assert(t == (if s.len() > 0 && s[0] == '+' { s.drop_first() } else { s }));
    if start == b {
        return None;
    }
    let mut v: usize = 0;
    let mut i = start;
    while i < b
        invariant
            start <= i <= b,
            b <= c@.len(),
            t == c@.subrange(start as int, b as int),
            s == c@.subrange(a as int, b as int),
            t == (if s.len() > 0 && s[0] == '+' { s.drop_first() } else { s }),
            t.len() > 0,
            digits_value(t, i - start) == Some(v as nat),
        decreases b - i,
    {
        let ch = c[i];
        assert(t[i - start] == ch);
        if !('0' <= ch && ch <= '9') {
            proof {
                assert(digits_value(t, i - start + 1) is None);
                if digits_value(t, t.len() as int) is Some {
                    lemma_digits_grow(t, i - start + 1, t.len() as int);
                }
            }
            return None;
        }
        let d = (ch as u32 - 48) as usize;
        let next = match v.checked_mul(10) {
            Some(x) => x.checked_add(d),
            None => None,
        };
        match next {
            Some(x) => {
                v = x;
            },
            None => {
                proof {
                    assert(digits_value(t, i - start + 1) == Some((v * 10 + d) as nat));
                    if digits_value(t, t.len() as int) is Some {
                        lemma_digits_grow(t, i - start + 1, t.len() as int);
                    }
                }
                return None;
            },
        }
        i += 1;
    }
    Some(v)
}

/// The contents of the six fields of a FEN text: board, side to move, castling rights,
/// en-passant square, halfmove clock and fullmove number; further fields are not read.
pub open spec fn fen_fields(s: Seq<char>) -> Option<(Seq<Option<(Piece, Side)>>, Side, u8, Option<Sq>, nat, nat)> {
    if field(s, 0) is Some && field(s, 1) is Some && field(s, 2) is Some && field(s, 3) is Some
        && field(s, 4) is Some && field(s, 5) is Some && placement(field(s, 0)->0) is Some
        && side_field(field(s, 1)->0) is Some && rights_field(field(s, 2)->0) is Some
        && ep_field(field(s, 3)->0) is Some && count_field(field(s, 4)->0) is Some
        && count_field(field(s, 5)->0) is Some {
        Some((
            placement(field(s, 0)->0)->0,
            side_field(field(s, 1)->0)->0,
            rights_field(field(s, 2)->0)->0,
            ep_field(field(s, 3)->0)->0,
            count_field(field(s, 4)->0)->0,
            count_field(field(s, 5)->0)->0,
        ))
    } else {
        None
    }
}

/// The FEN text is readable and describes a position: one king per side, castling rights with
/// their king and rook in place, and a plausible en-passant square.
pub open spec fn fen_ok(s: Seq<char>) -> bool {
    match fen_fields(s) {
        Some((o, c, r, e, _, _)) => kings_ok(o) && rights_ok(o, r) && ep_square_ok(o, c, e),
        None => false,
    }
}

/// `p` is the position the FEN text `s` describes; an en-passant square that no pawn can use
/// is dropped, and the clocks are kept modulo 2^16.
pub open spec fn fen_describes(s: Seq<char>, p: Position) -> bool {
    match fen_fields(s) {
        Some((o, c, r, e, h, m)) => {
            &&& p.wf()
            &&& p.occupants() == o
            &&& p.side_to_move() == c
            &&& p.rights() == r
            &&& p.halfmoves() == h as i16
            &&& p.fullmove_number() == m as i16
            &&& p.ep_square() == (match e {
                Some(x) => if p.with_ep_hash(Some(x), 0).ep_kept() { Some(x) } else { None },
                None => None,
            })
        },
        None => false,
    }
}

/// Appends `c[a..b]` to `dst`.
fn append_chars(dst: &mut String, c: &Vec<char>, a: usize, b: usize)
    requires
        a <= b <= c@.len(),
    ensures
        final(dst)@ == old(dst)@ + c@.subrange(a as int, b as int),
{
    let mut i = a;
    while i < b
        invariant
            a <= i <= b,
            b <= c@.len(),
            dst@ == old(dst)@ + c@.subrange(a as int, i as int),
        decreases b - i,
    {
        dst.push(c[i]);
        proof {
            assert(c@.subrange(a as int, i + 1) =~= c@.subrange(a as int, i as int).push(c@[i as int]));
        }
        i += 1;
    }
}

/// The message for a field whose text is invalid: `before`, the field, `after`.
fn field_message(before: &str, c: &Vec<char>, a: usize, b: usize, after: &str) -> (r: String)
    requires
        a <= b <= c@.len(),
    ensures
        r@ == before@ + c@.subrange(a as int, b as int) + after@,
{
    let mut m = text_of(before);
    append_chars(&mut m, c, a, b);
    append(&mut m, after);
    m
}

/// `p` is set up as the FEN text `s` says, whether or not it can be played: its occupants, side
/// to move, castling rights and en-passant square as written, its clocks modulo 2^16, and its
/// hash computed from its bitboards.
pub open spec fn fen_sets_up(s: Seq<char>, p: Position) -> bool {
    match fen_fields(s) {
        Some((o, c, r, e, h, m)) => {
            &&& p.occupants() == o
            &&& p.side_to_move() == c
            &&& p.rights() == r
            &&& p.ep_square() == e
            &&& p.halfmoves() == h as i16
            &&& p.fullmove_number() == m as i16
            &&& p.hash_value() == p.bitboard_hash()
        },
        None => false,
    }
}

/// Reads a position from FEN text: an error exactly when one of its first six fields is missing
/// or unreadable. A position that can be played (one king per side, castling rights with their
/// king and rook in place, a plausible en-passant square) comes with its attack data; any other
/// comes as written.
pub fn parse(fen: &str) -> (r: Result<Position, String>)
    ensures
        r is Ok <==> fen_fields(fen@) is Some,
        r matches Ok(p) ==> (fen_ok(fen@) ==> fen_describes(fen@, p)),
        r matches Ok(p) ==> (!fen_ok(fen@) ==> fen_sets_up(fen@, p)),
{
    match parse_checked(fen) {
        Ok((p, _)) => Ok(p),
        Err(e) => Err(e),
    }
}

/// Reads a position that can be played from FEN text: an error when a field is missing or
/// unreadable, or when the position has no single king per side, castling rights without their
/// king and rook, or an en-passant square it cannot have.
pub fn parse_playable(fen: &str) -> (r: Result<Position, String>)
    ensures
        r is Ok <==> fen_ok(fen@),
        r matches Ok(p) ==> fen_describes(fen@, p),
{
    match parse_checked(fen) {
        Ok((p, playable)) => {
            if playable {
                Ok(p)
            } else {
                Err(text_of("the position has no single king per side, or castle rights or an en passant square it cannot have"))
            }
        },
        Err(e) => Err(e),
    }
}

/// Reads FEN text, telling whether the position can be played.
fn parse_checked(fen: &str) -> (r: Result<(Position, bool), String>)
    ensures
        r is Ok <==> fen_fields(fen@) is Some,
        r matches Ok((p, b)) ==> b == fen_ok(fen@),
        r matches Ok((p, b)) ==> (b ==> fen_describes(fen@, p)),
        r matches Ok((p, b)) ==> (!b ==> fen_sets_up(fen@, p)),
{
    let c = chars_of(fen);
    let sp = fields(&c, 6);
    let ghost s = fen@;
    proof {
        assert forall|k: int| 0 <= k < 6 implies (#[trigger] field(s, k as nat) is Some) == (sp@[k].0 < c@.len())
            && (sp@[k].0 < c@.len() ==> field(s, k as nat) == Some(c@.subrange(sp@[k].0 as int, sp@[k].1 as int))) by {
            assert(sp@[k].0 <= sp@[k].1 <= c@.len());
        }
    }
    if sp[0].0 >= c.len() {
        return Err(text_of("no piece placement field"));
    }
    let board = match parse_piece_placement(&c, sp[0].0, sp[0].1) {
        Ok(b) => b,
        Err(e) => {
            return Err(e);
        },
    };
    if sp[1].0 >= c.len() {
        return Err(text_of("no side-to-move field"));
    }
    let stm = match parse_side(&c, sp[1].0, sp[1].1) {
        Some(x) => x,
        None => {
            return Err(field_message("side-to-move field ", &c, sp[1].0, sp[1].1, " is invalid"));
        },
    };
    if sp[2].0 >= c.len() {
        return Err(text_of("no castle rights field"));
    }
    let rights = match parse_rights(&c, sp[2].0, sp[2].1) {
        Some(x) => x,
        None => {
            return Err(field_message("invalid castle rights '", &c, sp[2].0, sp[2].1, "'"));
        },
    };
    if sp[3].0 >= c.len() {
        return Err(text_of("no en passant square field"));
    }
    let ep = match parse_ep(&c, sp[3].0, sp[3].1) {
        Some(x) => x,
        None => {
            return Err(field_message("square '", &c, sp[3].0, sp[3].1, "' is invalid"));
        },
    };
    if sp[4].0 >= c.len() {
        return Err(text_of("no halfmove clock field"));
    }
    let halfmoves = match parse_count(&c, sp[4].0, sp[4].1) {
        Some(x) => x,
        None => {
            return Err(field_message("halfmove clock field '", &c, sp[4].0, sp[4].1, "' is invalid"));
        },
    };
    if sp[5].0 >= c.len() {
        return Err(text_of("no fullmoves field"));
    }
    let fullmoves = match parse_count(&c, sp[5].0, sp[5].1) {
        Some(x) => x,
        None => {
            return Err(field_message("fullmoves field '", &c, sp[5].0, sp[5].1, "' is invalid"));
        },
    };
    match Position::from_parts(&board, stm, rights, ep, halfmoves as i16, fullmoves as i16) {
        Some(p) => Ok((p, true)),
        None => Ok((Position::set_up(&board, stm, rights, ep, halfmoves as i16, fullmoves as i16), false)),
    }
}

/// The upper-case letter of a piece kind.
pub open spec fn upper_letter(p: Piece) -> char {
    match p {
        Piece::Pawn => 'P',
        Piece::Knight => 'N',
        Piece::Bishop => 'B',
        Piece::Rook => 'R',
        Piece::Queen => 'Q',
        Piece::King => 'K',
    }
}

/// The placement letter of a piece: upper case for White, lower case for Black.
pub open spec fn occupant_letter(p: Piece, c: Side) -> char {
    if c == Side::White {
        upper_letter(p)
    } else {
        piece_letter(p)
    }
}

/// Text of rank `r` from file `f` on, after a run of `run` empty squares: each piece by its
/// letter, each run of empty squares by its length.
pub open spec fn row_text(o: Seq<Option<(Piece, Side)>>, r: int, f: int, run: int) -> Seq<char>
    decreases 8 - f,
{
    let flush = if run > 0 { seq![digit_char(run)] } else { Seq::<char>::empty() };
    if f >= 8 {
        flush
    } else {
        match o[r * 8 + f] {
            Some((p, c)) => flush + seq![occupant_letter(p, c)] + row_text(o, r, f + 1, 0),
            None => row_text(o, r, f + 1, run + 1),
        }
    }
}

/// Text of ranks `r` down to the first, separated by '/'.
pub open spec fn rows_text(o: Seq<Option<(Piece, Side)>>, r: int) -> Seq<char>
    decreases r,
{
    if r <= 0 {
        row_text(o, 0, 0, 0)
    } else {
        row_text(o, r, 0, 0) + seq!['/'] + rows_text(o, r - 1)
    }
}

/// Decimal digits of `n`.
pub open spec fn nat_text(n: nat) -> Seq<char>
    decreases n,
{
    if n < 10 {
        seq![digit_char(n as int)]
    } else {
        nat_text(n / 10) + seq![digit_char((n % 10) as int)]
    }
}

/// Decimal text of `n`, with a '-' when negative.
pub open spec fn int_text(n: int) -> Seq<char> {
    if n < 0 {
        seq!['-'] + nat_text((-n) as nat)
    } else {
        nat_text(n as nat)
    }
}

/// Text of castling rights: the letters of the rights held, in the order KQkq, or "-" for none.
pub open spec fn rights_text(r: u8) -> Seq<char> {
    if r == 0 {
        seq!['-']
    } else {
        (if r & 1 != 0 { seq!['K'] } else { Seq::<char>::empty() }) + (if r & 2 != 0 { seq!['Q'] } else {
            Seq::<char>::empty()
        }) + (if r & 4 != 0 { seq!['k'] } else { Seq::<char>::empty() }) + (if r & 8 != 0 { seq!['q'] } else {
            Seq::<char>::empty()
        })
    }
}

/// The FEN text of a position.
pub open spec fn fen_text(p: Position) -> Seq<char> {
    rows_text(p.occupants(), 7) + seq![' ', if p.side_to_move() == Side::White { 'w' } else { 'b' }, ' ']
        + rights_text(p.rights()) + match p.ep_square() {
        Some(e) => seq![' '] + crate::square_text(e.idx()) + seq![' '],
        None => seq![' ', '-', ' '],
    } + int_text(p.halfmoves() as int) + seq![' '] + int_text(p.fullmove_number() as int)
}

/// Appends the decimal text of `v`.
pub fn push_int(dst: &mut String, v: i16)
    ensures
        final(dst)@ == old(dst)@ + int_text(v as int),
{
    let mut x: i32 = v as i32;
    if x < 0 {
        dst.push('-');
        x = -x;
    }
    let ghost n = x as nat;
    let mut digits: Vec<char> = Vec::new();
    let mut q: i32 = x;
    while q >= 10
        invariant
            0 <= q <= n,
            nat_text(n) == nat_text(q as nat) + digits@,
        decreases q,
    {
        let d = (q % 10) as u8;
        digits.insert(0, (48 + d) as char);
        proof {
            assert(nat_text(q as nat) == nat_text((q / 10) as nat) + seq![digit_char((q % 10) as int)]);
            assert(nat_text((q / 10) as nat) + seq![digit_char((q % 10) as int)] + digits@.subrange(1, digits@.len() as int)
                =~= nat_text((q / 10) as nat) + digits@);
        }
        q = q / 10;
    }
    digits.insert(0, (48 + q as u8) as char);
    let ghost before = dst@;
    let mut i: usize = 0;
    while i < digits.len()
        invariant
            i <= digits@.len(),
            dst@ == before + digits@.subrange(0, i as int),
        decreases digits@.len() - i,
    {
        dst.push(digits[i]);
        proof {
            assert(digits@.subrange(0, i + 1) =~= digits@.subrange(0, i as int).push(digits@[i as int]));
        }
        i += 1;
    }
    proof {
        assert(digits@.subrange(0, digits@.len() as int) =~= digits@);
        assert(digits@ =~= nat_text(n));
        if v < 0 {
            assert(before =~= old(dst)@ + seq!['-']);
        }
    }
}

proof fn lemma_row_flush(o: Seq<Option<(Piece, Side)>>, r: int, f: int, run: int)
    requires
        run > 0,
        f >= 8 || o[r * 8 + f] is Some,
    ensures
        row_text(o, r, f, run) == seq![digit_char(run)] + row_text(o, r, f, 0),
{
    if f < 8 {
        let (p, c) = o[r * 8 + f]->0;
        assert(row_text(o, r, f, 0) =~= seq![occupant_letter(p, c)] + row_text(o, r, f + 1, 0));
        assert(row_text(o, r, f, run) =~= seq![digit_char(run)] + seq![occupant_letter(p, c)] + row_text(o, r, f + 1, 0));
    }
}

impl Position {
    /// The placement letter of what stands on `s`, if anything.
    fn letter_at(&self, s: usize) -> (r: Option<char>)
        requires
            self.board_ok(),
            s < 64,
        ensures
            r == match self.occupants()[s as int] {
                Some((p, c)) => Some(occupant_letter(p, c)),
                None => None,
            },
    {
        match self.occupant_at(s) {
            Some((p, c)) => {
                let l = match p {
                    Piece::Pawn => 'p',
                    Piece::Knight => 'n',
                    Piece::Bishop => 'b',
                    Piece::Rook => 'r',
                    Piece::Queen => 'q',
                    Piece::King => 'k',
                };
                let u = match p {
                    Piece::Pawn => 'P',
                    Piece::Knight => 'N',
                    Piece::Bishop => 'B',
                    Piece::Rook => 'R',
                    Piece::Queen => 'Q',
                    Piece::King => 'K',
                };
                Some(if c == Side::White { u } else { l })
            },
            None => None,
        }
    }
}

/// Appends the text of rank `r`.
fn push_row(dst: &mut String, pos: &Position, r: usize)
    requires
        pos.board_ok(),
        r < 8,
    ensures
        final(dst)@ == old(dst)@ + row_text(pos.occupants(), r as int, 0, 0),
{
    let ghost o = pos.occupants();
    let ghost start = dst@;
    let mut f: usize = 0;
    while f < 8
        invariant
            pos.board_ok(),
            r < 8,
            f <= 8,
            o == pos.occupants(),
            dst@ + row_text(o, r as int, f as int, 0) == start + row_text(o, r as int, 0, 0),
        decreases 8 - f,
    {
        let ghost before = dst@;
        match pos.letter_at(r * 8 + f) {
            Some(l) => {
                dst.push(l);
                proof {
                    let (p, c) = o[r * 8 + f]->0;
                    assert(row_text(o, r as int, f as int, 0) =~= seq![l] + row_text(o, r as int, f + 1, 0));
                    assert(before + row_text(o, r as int, f as int, 0) =~= dst@ + row_text(o, r as int, f + 1, 0));
                }
                f += 1;
            },
            None => {
                let ghost f0 = f;
                let mut count: usize = 1;
                f += 1;
                while f < 8 && pos.letter_at(r * 8 + f).is_none()
                    invariant
                        pos.board_ok(),
                        r < 8,
                        f0 < f,
                        1 <= count <= f <= 8,
                        o == pos.occupants(),
                        dst@ == before,
                        before + row_text(o, r as int, f as int, count as int) == start + row_text(o, r as int, 0, 0),
                    decreases 8 - f,
                {
                    count += 1;
                    f += 1;
                }
                dst.push((48 + count as u8) as char);
                proof {
                    lemma_row_flush(o, r as int, f as int, count as int);
                    assert(before + row_text(o, r as int, f as int, count as int) =~= dst@ + row_text(o, r as int, f as int, 0));
                }
            },
        }
    }
    proof {
        assert(row_text(o, r as int, 8, 0) =~= Seq::<char>::empty());
        assert(dst@ =~= dst@ + row_text(o, r as int, 8, 0));
    }
}

/// Appends the castling rights text.
pub fn push_rights(dst: &mut String, rights: u8)
    ensures
        final(dst)@ == old(dst)@ + rights_text(rights),
{
    let ghost start = dst@;
    if rights == 0 {
        dst.push('-');
        assert(dst@ =~= start + rights_text(rights));
    } else {
        if rights & 1 != 0 {
            dst.push('K');
        }
        let ghost a = dst@;
        if rights & 2 != 0 {
            dst.push('Q');
        }
        let ghost b = dst@;
        if rights & 4 != 0 {
            dst.push('k');
        }
        let ghost c = dst@;
        if rights & 8 != 0 {
            dst.push('q');
        }
        assert(dst@ =~= start + rights_text(rights));
    }
}

/// The FEN text of a position.
pub fn to_fen(pos: &Position) -> (r: String)
    requires
        pos.board_ok(),
        pos.ep_ok(),
    ensures
        r@ == fen_text(*pos),
{
    let ghost o = pos.occupants();
    let mut result = String::new();
    let mut r: usize = 8;
    while r > 0
        invariant
            pos.board_ok(),
            r <= 8,
            o == pos.occupants(),
            0 < r < 8 ==> result@ + rows_text(o, r - 1) == rows_text(o, 7),
            r == 0 ==> result@ == rows_text(o, 7),
            r == 8 ==> result@.len() == 0,
        decreases r,
    {
        r -= 1;
        let ghost before = result@;
        push_row(&mut result, pos, r);
        if r > 0 {
            result.push('/');
        }
        proof {
            if r == 7 {
                assert(before =~= Seq::<char>::empty());
            }
            assert(before + rows_text(o, r as int) == rows_text(o, 7));
            if r > 0 {
                assert(rows_text(o, r as int) =~= row_text(o, r as int, 0, 0) + seq!['/'] + rows_text(o, r - 1));
                assert(before + rows_text(o, r as int) =~= result@ + rows_text(o, r - 1));
            } else {
                assert(rows_text(o, 0) == row_text(o, 0, 0, 0));
                assert(result@ =~= before + rows_text(o, 0));
            }
        }
    }
    let ghost placed = result@;
    result.push(' ');
    result.push(pos.stm.char());
    result.push(' ');
    push_rights(&mut result, pos.castle_rights);
    let ghost with_rights = result@;
    match pos.ep {
        Some(sq) => {
            result.push(' ');
            let t = sq.san();
            append(&mut result, t.as_str());
            result.push(' ');
        },
        None => {
            result.push(' ');
            result.push('-');
            result.push(' ');
        },
    }
    push_int(&mut result, pos.halfmove_clock);
    result.push(' ');
    push_int(&mut result, pos.fullmoves);
    proof {
        assert(result@ =~= fen_text(*pos));
    }
    result
}

impl Position {
    /// Reads a position from FEN text: an error exactly when one of its first six fields is
    /// missing or unreadable; a position that cannot be played comes as written.
    pub fn from_fen(fen: &str) -> (r: Result<Self, String>)
        ensures
            r is Ok <==> fen_fields(fen@) is Some,
            r matches Ok(p) ==> (fen_ok(fen@) ==> fen_describes(fen@, p)),
            r matches Ok(p) ==> (!fen_ok(fen@) ==> fen_sets_up(fen@, p)),
    {
        parse(fen)
    }

    /// The FEN text of the position.
    pub fn fen(&self) -> (r: String)
        requires
            self.wf(),
        ensures
            r@ == fen_text(*self),
    {
        to_fen(self)
    }
}

/// The character drawn for what stands on a square: its letter, or '.' when empty.
pub open spec fn cell_char(x: Option<(Piece, Side)>) -> char {
    match x {
        Some((p, c)) => occupant_letter(p, c),
        None => '.',
    }
}

/// The drawn squares of rank `r` from file `f` on, each followed by a space.
pub open spec fn drawn_cells(o: Seq<Option<(Piece, Side)>>, r: int, f: int) -> Seq<char>
    decreases 8 - f,
{
    if f >= 8 {
        Seq::<char>::empty()
    } else {
        seq![cell_char(o[r * 8 + f]), ' '] + drawn_cells(o, r, f + 1)
    }
}

/// The drawn ranks from `r` down to the first: rank number, a bar, then the squares.
pub open spec fn drawn_rows(o: Seq<Option<(Piece, Side)>>, r: int) -> Seq<char>
    decreases r,
{
    let row = seq![rank_char(r), ' ', '|', ' '] + drawn_cells(o, r, 0) + seq!['\n'];
    if r <= 0 {
        row
    } else {
        row + drawn_rows(o, r - 1)
    }
}

/// Castling rights as letters in the order KQkq, or "-" for none.
pub open spec fn rights_letters_text(r: u8) -> Seq<char> {
    if r == 0 {
        seq!['-']
    } else {
        (if r & 1 != 0 { seq!['K'] } else { Seq::<char>::empty() }) + (if r & 2 != 0 { seq!['Q'] } else {
            Seq::<char>::empty()
        }) + (if r & 4 != 0 { seq!['k'] } else { Seq::<char>::empty() }) + (if r & 8 != 0 { seq!['q'] } else {
            Seq::<char>::empty()
        })
    }
}

/// A drawing of the board followed by the other fields of the position and its FEN.
pub open spec fn debug_text(p: Position) -> Seq<char> {
    drawn_rows(p.occupants(), 7) + "    ----------------\n    a b c d e f g h\n\n"@ + "Side-to-move: "@
        + seq![if p.side_to_move() == Side::White { 'w' } else { 'b' }, '\n'] + "Castle rights: "@
        + rights_letters_text(p.rights()) + seq!['\n'] + "En-passant: "@ + match p.ep_square() {
        Some(e) => crate::square_text(e.idx()),
        None => seq!['-'],
    } + seq!['\n'] + "Halfmove clock: "@ + int_text(p.halfmoves() as int) + seq!['\n'] + "Fullmoves: "@
        + int_text(p.fullmove_number() as int) + seq!['\n'] + "FEN: "@ + fen_text(p) + seq!['\n']
}

/// Appends the drawing of the ranks, eighth first.
fn push_drawing(dst: &mut String, pos: &Position)
    requires
        pos.board_ok(),
    ensures
        final(dst)@ == old(dst)@ + drawn_rows(pos.occupants(), 7),
{
    let ghost o = pos.occupants();
    let ghost start = dst@;
    let mut r: usize = 8;
    while r > 0
        invariant
            pos.board_ok(),
            r <= 8,
            o == pos.occupants(),
            0 < r < 8 ==> dst@ + drawn_rows(o, r - 1) == start + drawn_rows(o, 7),
            r == 0 ==> dst@ == start + drawn_rows(o, 7),
            r == 8 ==> dst@ == start,
        decreases r,
    {
        r -= 1;
        let ghost before = dst@;
        dst.push((49 + r as u8) as char);
        dst.push(' ');
        dst.push('|');
        dst.push(' ');
        let ghost head = dst@;
        let mut f: usize = 0;
        while f < 8
            invariant
                pos.board_ok(),
                r < 8,
                f <= 8,
                o == pos.occupants(),
                dst@ + drawn_cells(o, r as int, f as int) == head + drawn_cells(o, r as int, 0),
            decreases 8 - f,
        {
            let c = match pos.letter_at(r * 8 + f) {
                Some(l) => l,
                None => '.',
            };
            let ghost b = dst@;
            dst.push(c);
            dst.push(' ');
            proof {
                assert(drawn_cells(o, r as int, f as int) =~= seq![c, ' '] + drawn_cells(o, r as int, f + 1));
                assert(b + drawn_cells(o, r as int, f as int) =~= dst@ + drawn_cells(o, r as int, f + 1));
            }
            f += 1;
        }
        dst.push('\n');
        proof {
            assert(drawn_cells(o, r as int, 8) =~= Seq::<char>::empty());
            let row = seq![rank_char(r as int), ' ', '|', ' '] + drawn_cells(o, r as int, 0) + seq!['\n'];
            assert(dst@ =~= before + row);
            if r > 0 {
                assert(drawn_rows(o, r as int) =~= row + drawn_rows(o, r - 1));
            } else {
                assert(drawn_rows(o, 0) =~= row);
            }
        }
    }
}

/// Appends castling rights as letters, or "-" for none.
fn push_rights_letters(dst: &mut String, rights: u8)
    ensures
        final(dst)@ == old(dst)@ + rights_letters_text(rights),
{
    let ghost start = dst@;
    if rights == 0 {
        dst.push('-');
    } else {
        if rights & 1 != 0 {
            dst.push('K');
        }
        if rights & 2 != 0 {
            dst.push('Q');
        }
        if rights & 4 != 0 {
            dst.push('k');
        }
        if rights & 8 != 0 {
            dst.push('q');
        }
    }
    assert(dst@ =~= start + rights_letters_text(rights));
}

impl Position {
    /// A drawing of the board with the side to move, castling rights, en-passant square,
    /// clocks and FEN, for reading by people.
    pub fn debug_str(&self) -> (r: String)
        requires
            self.wf(),
        ensures
            r@ == debug_text(*self),
    {
        debug_string(self)
    }
}

#[verifier::spinoff_prover]
#[verifier::rlimit(40)]
fn debug_string(pos: &Position) -> (r: String)
    requires
        pos.board_ok(),
        pos.ep_ok(),
    ensures
        r@ == debug_text(*pos),
{
    let mut result = String::new();
    push_drawing(&mut result, pos);
    append(&mut result, "    ----------------\n    a b c d e f g h\n\n");
    append(&mut result, "Side-to-move: ");
    result.push(pos.stm.char());
    result.push('\n');
    append(&mut result, "Castle rights: ");
    push_rights_letters(&mut result, pos.castle_rights);
    result.push('\n');
    let ghost a = result@;
    append(&mut result, "En-passant: ");
    match pos.ep {
        Some(sq) => {
            let t = sq.san();
            append(&mut result, t.as_str());
        },
        None => {
            result.push('-');
        },
    }
    result.push('\n');
    let ghost b = result@;
    append(&mut result, "Halfmove clock: ");
    push_int(&mut result, pos.halfmove_clock);
    result.push('\n');
    append(&mut result, "Fullmoves: ");
    push_int(&mut result, pos.fullmoves);
    result.push('\n');
    let ghost c = result@;
    append(&mut result, "FEN: ");
    let f = to_fen(pos);
    append(&mut result, f.as_str());
    result.push('\n');
    proof {
        assert(result@ =~= debug_text(*pos));
    }
    result
}

/// A run of `run` empty squares ends in its digit before the next piece or the rank's end.
pub proof fn lemma_row_flush_pub(o: Seq<Option<(Piece, Side)>>, r: int, f: int, run: int)
    requires
        run > 0,
        f >= 8 || o[r * 8 + f] is Some,
    ensures
        row_text(o, r, f, run) == seq![digit_char(run)] + row_text(o, r, f, 0),
{
    lemma_row_flush(o, r, f, run);
}

} // verus!
