//! Reading back what was written: the FEN text of a well-formed position reads as that position.
use vstd::prelude::*;
use crate::bits::{in_bb, lemma_same_squares_eq};
use crate::{Position, Piece, Side, Sq, rank_of, file_of, piece_letter, file_char, rank_char, square_text};
use crate::fen::{row_text, rows_text, place, placement, occupant_letter, letter_occupant, digit_char, lemma_row_flush_pub, fen_text, fen_ok, fen_describes, fen_fields, field, field_span, skip_space, skip_word, is_space, side_field, rights_field, rights_letters, right_flag, rights_text, ep_field, count_field, digits_value, nat_text, int_text};

verus! {

/// Number of empty squares on rank `r` from file `f` up to the first piece.
pub open spec fn empty_run(o: Seq<Option<(Piece, Side)>>, r: int, f: int) -> nat
    decreases 8 - f,
{
    if f >= 8 || o[r * 8 + f] is Some {
        0
    } else {
        1 + empty_run(o, r, f + 1)
    }
}

proof fn lemma_run(o: Seq<Option<(Piece, Side)>>, r: int, f: int, run: int)
    requires
        0 <= f <= 8,
    ensures
        row_text(o, r, f, run) == row_text(o, r, f + empty_run(o, r, f), run + empty_run(o, r, f)),
        f + empty_run(o, r, f) <= 8,
        f + empty_run(o, r, f) >= 8 || o[r * 8 + f + empty_run(o, r, f)] is Some,
        forall|g: int| f <= g < f + empty_run(o, r, f) ==> #[trigger] o[r * 8 + g] is None,
    decreases 8 - f,
{
    if f < 8 && o[r * 8 + f] is None {
        lemma_run(o, r, f + 1, run + 1);
    }
}

/// `b` with the squares of rank `r` from file `f` on set to the pieces `o` has there.
pub open spec fn fill_rank(b: Seq<Option<(Piece, Side)>>, o: Seq<Option<(Piece, Side)>>, r: int, f: int) -> Seq<Option<(Piece, Side)>> {
    Seq::new(b.len(), |s: int| if rank_of(s) == r && file_of(s) >= f && o[s] is Some { o[s] } else { b[s] })
}

/// Letters and digits of placement text are no digits '1'..'8' and no letters respectively.
proof fn lemma_letter_not_digit(p: Piece, c: Side)
    ensures
        !('1' <= occupant_letter(p, c) <= '8'),
        letter_occupant(occupant_letter(p, c)) == Some((p, c)),
{
}

/// Reading a rank's text fills that rank of the board.
proof fn lemma_place_row(s: Seq<char>, i: int, r: int, f: int, b: Seq<Option<(Piece, Side)>>, o: Seq<Option<(Piece, Side)>>)
    requires
        0 <= r < 8,
        0 <= f <= 8,
        0 <= i,
        i + row_text(o, r, f, 0).len() <= s.len(),
        s.subrange(i, i + row_text(o, r, f, 0).len()) == row_text(o, r, f, 0),
        b.len() == 64,
        o.len() == 64,
    ensures
        place(s, i, r, f, b) == place(s, i + row_text(o, r, f, 0).len(), r, 8, fill_rank(b, o, r, f)),
    decreases 8 - f,
{
    let t = row_text(o, r, f, 0);
    if f == 8 {
        assert(fill_rank(b, o, r, f) =~= b);
    } else {
        match o[r * 8 + f] {
            Some((p, c)) => {
                lemma_letter_not_digit(p, c);
                let rest = row_text(o, r, f + 1, 0);
                assert(t =~= seq![occupant_letter(p, c)] + rest);
                assert(s[i] == t[0]);
                assert(s.subrange(i + 1, i + 1 + rest.len()) =~= rest) by {
                    assert forall|k: int| 0 <= k < rest.len() implies s.subrange(i + 1, i + 1 + rest.len())[k] == rest[k] by {
                        assert(s.subrange(i, i + t.len())[k + 1] == t[k + 1]);
                    }
                }
                let b2 = b.update(r * 8 + f, Some((p, c)));
                lemma_place_row(s, i + 1, r, f + 1, b2, o);
                assert(fill_rank(b2, o, r, f + 1) =~= fill_rank(b, o, r, f)) by {
                    assert forall|q: int| 0 <= q < 64 implies fill_rank(b2, o, r, f + 1)[q] == fill_rank(b, o, r, f)[q] by {
                        if q == r * 8 + f {
                            assert(rank_of(q) == r && file_of(q) == f);
                        }
                    }
                }
            },
            None => {
                lemma_run(o, r, f, 0);
                let n = empty_run(o, r, f);
                let g = f + n;
                assert(n >= 1);
                lemma_row_flush_pub(o, r, g, n as int);
                let rest = row_text(o, r, g, 0);
                assert(t =~= seq![digit_char(n as int)] + rest);
                assert(s.subrange(i, i + t.len())[0] == s[i]);
                assert(s[i] == t[0]);
                assert(s[i] == digit_char(n as int));
                assert(s.subrange(i + 1, i + 1 + rest.len()) =~= rest) by {
                    assert forall|k: int| 0 <= k < rest.len() implies s.subrange(i + 1, i + 1 + rest.len())[k] == rest[k] by {
                        assert(s.subrange(i, i + t.len())[k + 1] == t[k + 1]);
                    }
                }
                lemma_place_row(s, i + 1, r, g, b, o);
                assert(fill_rank(b, o, r, g) =~= fill_rank(b, o, r, f)) by {
                    assert forall|q: int| 0 <= q < 64 implies fill_rank(b, o, r, g)[q] == fill_rank(b, o, r, f)[q] by {
                        if rank_of(q) == r && f <= file_of(q) < g {
                            assert(o[r * 8 + file_of(q)] is None);
                            assert(q == r * 8 + file_of(q));
                        }
                    }
                }
            },
        }
    }
}

/// `b` with the ranks up to `r` set to the pieces `o` has there.
pub open spec fn fill_ranks(b: Seq<Option<(Piece, Side)>>, o: Seq<Option<(Piece, Side)>>, r: int) -> Seq<Option<(Piece, Side)>> {
    Seq::new(b.len(), |s: int| if rank_of(s) <= r && o[s] is Some { o[s] } else { b[s] })
}

proof fn lemma_subrange_shift(s: Seq<char>, i: int, t: Seq<char>, k: int)
    requires
        0 <= i,
        0 <= k <= t.len(),
        i + t.len() <= s.len(),
        s.subrange(i, i + t.len()) == t,
    ensures
        s.subrange(i + k, i + t.len()) == t.subrange(k, t.len() as int),
{
    assert(s.subrange(i + k, i + t.len()) =~= t.subrange(k, t.len() as int)) by {
        assert forall|m: int| 0 <= m < t.len() - k implies s.subrange(i + k, i + t.len())[m] == t.subrange(k, t.len() as int)[m] by {
            assert(s.subrange(i, i + t.len())[k + m] == t[k + m]);
        }
    }
}

/// Reading the text of ranks `r` down to the first fills those ranks.
proof fn lemma_place_rows(s: Seq<char>, i: int, r: int, b: Seq<Option<(Piece, Side)>>, o: Seq<Option<(Piece, Side)>>)
    requires
        0 <= r < 8,
        0 <= i,
        i + rows_text(o, r).len() <= s.len(),
        s.subrange(i, i + rows_text(o, r).len()) == rows_text(o, r),
        b.len() == 64,
        o.len() == 64,
    ensures
        place(s, i, r, 0, b) == Some(fill_ranks(b, o, r)),
    decreases r,
{
    let row = row_text(o, r, 0, 0);
    let t = rows_text(o, r);
    assert(s.subrange(i, i + row.len()) =~= row) by {
        if r > 0 {
            assert(t =~= row + seq!['/'] + rows_text(o, r - 1));
        }
        assert forall|m: int| 0 <= m < row.len() implies s.subrange(i, i + row.len())[m] == row[m] by {
            assert(s.subrange(i, i + t.len())[m] == t[m]);
        }
    }
    lemma_place_row(s, i, r, 0, b, o);
    let b2 = fill_rank(b, o, r, 0);
    if r == 0 {
        assert(fill_ranks(b, o, 0) =~= b2);
    } else {
        let rest = rows_text(o, r - 1);
        assert(t =~= row + seq!['/'] + rest);
        assert(s.subrange(i, i + t.len())[row.len() as int] == '/');
        lemma_subrange_shift(s, i, t, row.len() as int + 1);
        assert(t.subrange(row.len() as int + 1, t.len() as int) =~= rest);
        lemma_place_rows(s, i + row.len() + 1, r - 1, b2, o);
        assert(fill_ranks(b2, o, r - 1) =~= fill_ranks(b, o, r));
    }
}

/// Piece placement text reads back as the board it was written from.
pub proof fn lemma_placement_round_trip(o: Seq<Option<(Piece, Side)>>)
    requires
        o.len() == 64,
    ensures
        placement(rows_text(o, 7)) == Some(o),
{
    let t = rows_text(o, 7);
    assert(t.subrange(0, t.len() as int) =~= t);
    let e = Seq::new(64, |i: int| None::<(Piece, Side)>);
    lemma_place_rows(t, 0, 7, e, o);
    assert(fill_ranks(e, o, 7) =~= o);
}

proof fn lemma_digits_prefix(a: Seq<char>, b: Seq<char>, k: int)
    requires
        0 <= k <= a.len(),
    ensures
        digits_value(a + b, k) == digits_value(a, k),
    decreases k,
{
    if k > 0 {
        lemma_digits_prefix(a, b, k - 1);
        assert((a + b)[k - 1] == a[k - 1]);
    }
}

/// The decimal text of `n` is non-empty digits and reads back as `n`.
pub proof fn lemma_nat_text(n: nat)
    ensures
        nat_text(n).len() > 0,
        forall|i: int| 0 <= i < nat_text(n).len() ==> '0' <= #[trigger] nat_text(n)[i] <= '9',
        digits_value(nat_text(n), nat_text(n).len() as int) == Some(n),
    decreases n,
{
    if n < 10 {
        let t = nat_text(n);
        assert(t[0] == digit_char(n as int));
        assert(digits_value(t, 0) == Some(0nat));
        assert(digits_value(t, 1) == Some(n));
    } else {
        lemma_nat_text(n / 10);
        let a = nat_text(n / 10);
        let d = seq![digit_char((n % 10) as int)];
        let t = nat_text(n);
        assert(t == a + d);
        lemma_digits_prefix(a, d, a.len() as int);
        assert(t[a.len() as int] == digit_char((n % 10) as int));
        assert forall|i: int| 0 <= i < t.len() implies '0' <= #[trigger] t[i] <= '9' by {
            if i < a.len() {
                assert(t[i] == a[i]);
            }
        }
        assert(digits_value(t, t.len() as int) == Some(((n / 10) * 10 + n % 10) as nat));
    }
}

/// A count written in decimal reads back.
pub proof fn lemma_count_round_trip(n: nat)
    requires
        n <= usize::MAX,
    ensures
        count_field(nat_text(n)) == Some(n),
{
    lemma_nat_text(n);
    assert(nat_text(n)[0] != '+');
}

/// Castling rights written as letters read back.
pub proof fn lemma_rights_round_trip(r: u8)
    requires
        r < 16,
    ensures
        r == 0 ==> rights_text(r) == seq!['-'],
        r != 0 ==> rights_field(rights_text(r)) == Some(r),
        r != 0 ==> rights_text(r).len() > 0,
        r != 0 ==> forall|i: int| 0 <= i < rights_text(r).len() ==> !is_space(#[trigger] rights_text(r)[i]),
{
    if r != 0 {
        let b1 = r & 1 != 0;
        let b2 = r & 2 != 0;
        let b4 = r & 4 != 0;
        let b8 = r & 8 != 0;
        let a1: u8 = if b1 { 0u8 | 1u8 } else { 0u8 };
        let a2: u8 = if b2 { a1 | 2u8 } else { a1 };
        let a4: u8 = if b4 { a2 | 4u8 } else { a2 };
        let a8: u8 = if b8 { a4 | 8u8 } else { a4 };
        assert(a8 == r && (b1 || b2 || b4 || b8)) by (bit_vector)
            requires
                r < 16,
                r != 0,
                b1 == (r & 1 != 0),
                b2 == (r & 2 != 0),
                b4 == (r & 4 != 0),
                b8 == (r & 8 != 0),
                a1 == (if b1 { 0u8 | 1u8 } else { 0u8 }),
                a2 == (if b2 { a1 | 2u8 } else { a1 }),
                a4 == (if b4 { a2 | 4u8 } else { a2 }),
                a8 == (if b8 { a4 | 8u8 } else { a4 }),
        ;
        let t = rights_text(r);
        let l1 = if b1 { seq!['K'] } else { Seq::<char>::empty() };
        let l2 = l1 + if b2 { seq!['Q'] } else { Seq::<char>::empty() };
        let l4 = l2 + if b4 { seq!['k'] } else { Seq::<char>::empty() };
        let l8 = l4 + if b8 { seq!['q'] } else { Seq::<char>::empty() };
        assert(t == l8);
        lemma_rights_step(Seq::<char>::empty(), 'K', b1);
        lemma_rights_step(l1, 'Q', b2);
        lemma_rights_step(l2, 'k', b4);
        lemma_rights_step(l4, 'q', b8);
        assert(t != seq!['-']) by {
            assert(t.len() > 0);
            assert(t[0] == 'K' || t[0] == 'Q' || t[0] == 'k' || t[0] == 'q');
        }
        assert forall|i: int| 0 <= i < t.len() implies !is_space(#[trigger] t[i]) by {
            assert(t[i] == 'K' || t[i] == 'Q' || t[i] == 'k' || t[i] == 'q');
        }
    }
}

proof fn lemma_rights_prefix(a: Seq<char>, b: Seq<char>, k: int)
    requires
        0 <= k <= a.len(),
    ensures
        rights_letters(a + b, k) == rights_letters(a, k),
    decreases k,
{
    if k > 0 {
        lemma_rights_prefix(a, b, k - 1);
        assert((a + b)[k - 1] == a[k - 1]);
    }
}

/// Appending a castling letter, or nothing, to letters that read as some rights.
proof fn lemma_rights_step(a: Seq<char>, c: char, add: bool)
    requires
        c == 'K' || c == 'Q' || c == 'k' || c == 'q',
    ensures
        rights_letters(a + if add { seq![c] } else { Seq::<char>::empty() }, (a + if add { seq![c] } else {
            Seq::<char>::empty()
        }).len() as int) == if add {
            match rights_letters(a, a.len() as int) {
                Some(x) => Some(x | right_flag(c)->0),
                None => None,
            }
        } else {
            rights_letters(a, a.len() as int)
        },
{
    if add {
        lemma_rights_prefix(a, seq![c], a.len() as int);
        assert((a + seq![c])[a.len() as int] == c);
    } else {
        assert(a + Seq::<char>::empty() =~= a);
    }
}

/// All characters of `x` are white space.
pub open spec fn all_space(x: Seq<char>) -> bool {
    forall|i: int| 0 <= i < x.len() ==> is_space(#[trigger] x[i])
}

/// No character of `x` is white space.
pub open spec fn no_space(x: Seq<char>) -> bool {
    forall|i: int| 0 <= i < x.len() ==> !is_space(#[trigger] x[i])
}

proof fn lemma_skip_space_shift(x: Seq<char>, y: Seq<char>, i: int)
    requires
        0 <= i,
    ensures
        skip_space(x + y, x.len() + i) == x.len() + skip_space(y, i),
    decreases y.len() - i,
{
    if i < y.len() {
        assert((x + y)[x.len() + i] == y[i]);
        if is_space(y[i]) {
            lemma_skip_space_shift(x, y, i + 1);
        }
    }
}

proof fn lemma_skip_word_shift(x: Seq<char>, y: Seq<char>, i: int)
    requires
        0 <= i,
    ensures
        skip_word(x + y, x.len() + i) == x.len() + skip_word(y, i),
    decreases y.len() - i,
{
    if i < y.len() {
        assert((x + y)[x.len() + i] == y[i]);
        if !is_space(y[i]) {
            lemma_skip_word_shift(x, y, i + 1);
        }
    }
}

proof fn lemma_field_span_shift(x: Seq<char>, y: Seq<char>, i: int, k: nat)
    requires
        0 <= i,
    ensures
        field_span(x + y, x.len() + i, k) == (x.len() + field_span(y, i, k).0, x.len() + field_span(y, i, k).1),
    decreases k,
{
    lemma_skip_space_shift(x, y, i);
    let a = skip_space(y, i);
    assert(a >= i) by {
        lemma_skip_space_ge(y, i);
    }
    lemma_skip_word_shift(x, y, a);
    if k > 0 {
        let b = skip_word(y, a);
        assert(b >= a) by {
            lemma_skip_word_ge(y, a);
        }
        lemma_field_span_shift(x, y, b, (k - 1) as nat);
    }
}

proof fn lemma_skip_space_ge(s: Seq<char>, i: int)
    requires
        0 <= i,
    ensures
        skip_space(s, i) >= i,
    decreases s.len() - i,
{
    if i < s.len() && is_space(s[i]) {
        lemma_skip_space_ge(s, i + 1);
    }
}

proof fn lemma_skip_word_ge(s: Seq<char>, i: int)
    requires
        0 <= i,
    ensures
        skip_word(s, i) >= i,
    decreases s.len() - i,
{
    if i < s.len() && !is_space(s[i]) {
        lemma_skip_word_ge(s, i + 1);
    }
}

proof fn lemma_skip_leading(x: Seq<char>, y: Seq<char>, i: int)
    requires
        0 <= i <= x.len(),
        all_space(x),
    ensures
        skip_space(x + y, i) == skip_space(x + y, x.len() as int),
    decreases x.len() - i,
{
    if i < x.len() {
        assert((x + y)[i] == x[i]);
        lemma_skip_leading(x, y, i + 1);
    }
}

proof fn lemma_skip_over_word(x: Seq<char>, y: Seq<char>, i: int)
    requires
        0 <= i <= x.len(),
        no_space(x),
        y.len() == 0 || is_space(y[0]),
    ensures
        skip_word(x + y, i) == x.len(),
    decreases x.len() - i,
{
    if i < x.len() {
        assert((x + y)[i] == x[i]);
        lemma_skip_over_word(x, y, i + 1);
    } else if y.len() > 0 {
        assert((x + y)[i] == y[0]);
    }
}

proof fn lemma_field_of_shift(x: Seq<char>, y: Seq<char>, k: nat)
    ensures
        ({
            let (a, b) = field_span(x + y, x.len() as int, k);
            let (a2, b2) = field_span(y, 0, k);
            (a < (x + y).len()) == (a2 < y.len()) && (a < (x + y).len() ==> (x + y).subrange(a, b) == y.subrange(a2, b2))
        }),
{
    lemma_field_span_shift(x, y, 0, k);
    let (a2, b2) = field_span(y, 0, k);
    if a2 < y.len() {
        lemma_field_span_bounds(y, 0, k);
        assert((x + y).subrange(x.len() + a2, x.len() + b2) =~= y.subrange(a2, b2));
    }
}

proof fn lemma_field_span_bounds(s: Seq<char>, from: int, k: nat)
    requires
        0 <= from <= s.len(),
    ensures
        from <= field_span(s, from, k).0 <= field_span(s, from, k).1 <= s.len(),
    decreases k,
{
    let a = skip_space(s, from);
    lemma_skip_bounds(s, from);
    let b = skip_word(s, a);
    lemma_skip_word_bounds(s, a);
    if k > 0 {
        lemma_field_span_bounds(s, b, (k - 1) as nat);
    }
}

proof fn lemma_skip_bounds(s: Seq<char>, i: int)
    requires
        0 <= i <= s.len(),
    ensures
        i <= skip_space(s, i) <= s.len(),
    decreases s.len() - i,
{
    if i < s.len() && is_space(s[i]) {
        lemma_skip_bounds(s, i + 1);
    }
}

proof fn lemma_skip_word_bounds(s: Seq<char>, i: int)
    requires
        0 <= i <= s.len(),
    ensures
        i <= skip_word(s, i) <= s.len(),
    decreases s.len() - i,
{
    if i < s.len() && !is_space(s[i]) {
        lemma_skip_word_bounds(s, i + 1);
    }
}

/// Leading white space does not change the fields.
pub proof fn lemma_fields_after_space(x: Seq<char>, y: Seq<char>, k: nat)
    requires
        all_space(x),
    ensures
        field(x + y, k) == field(y, k),
{
    lemma_skip_leading(x, y, 0);
    assert(field_span(x + y, 0, k) == field_span(x + y, x.len() as int, k)) by {
        reveal_with_fuel(field_span, 2);
        lemma_skip_leading(x, y, 0);
        if k > 0 {
        }
    }
    lemma_field_of_shift(x, y, k);
}

/// A word followed by white space (or nothing) is the first field, and the rest are those
/// after it.
pub proof fn lemma_fields_after_word(x: Seq<char>, y: Seq<char>, k: nat)
    requires
        x.len() > 0,
        no_space(x),
        y.len() == 0 || is_space(y[0]),
    ensures
        field(x + y, 0) == Some(x),
        field(x + y, k + 1) == field(y, k),
{
    assert((x + y)[0] == x[0]);
    assert(skip_space(x + y, 0) == 0);
    lemma_skip_over_word(x, y, 0);
    assert((x + y).subrange(0, x.len() as int) =~= x);
    assert(field_span(x + y, 0, k + 1) == field_span(x + y, x.len() as int, k));
    lemma_field_of_shift(x, y, k);
}

proof fn lemma_row_chars(o: Seq<Option<(Piece, Side)>>, r: int, f: int, run: int)
    requires
        0 <= f <= 8,
        0 <= run <= f,
    ensures
        no_space(row_text(o, r, f, run)),
        run > 0 || f < 8 ==> row_text(o, r, f, run).len() > 0,
    decreases 8 - f,
{
    let flush = if run > 0 { seq![digit_char(run)] } else { Seq::<char>::empty() };
    assert(no_space(flush));
    if f < 8 {
        match o[r * 8 + f] {
            Some((p, c)) => {
                lemma_row_chars(o, r, f + 1, 0);
                let rest = row_text(o, r, f + 1, 0);
                let t = flush + seq![occupant_letter(p, c)] + rest;
                assert(row_text(o, r, f, run) == t);
                assert forall|i: int| 0 <= i < t.len() implies !is_space(#[trigger] t[i]) by {
                    if i < flush.len() {
                        assert(t[i] == flush[i]);
                    } else if i == flush.len() {
                        assert(t[i] == occupant_letter(p, c));
                    } else {
                        assert(t[i] == rest[i - flush.len() - 1]);
                    }
                }
            },
            None => {
                lemma_row_chars(o, r, f + 1, run + 1);
            },
        }
    }
}

/// Piece placement text is a non-empty word.
pub proof fn lemma_rows_no_space(o: Seq<Option<(Piece, Side)>>, r: int)
    requires
        0 <= r < 8,
    ensures
        no_space(rows_text(o, r)),
        rows_text(o, r).len() > 0,
    decreases r,
{
    lemma_row_chars(o, r, 0, 0);
    if r > 0 {
        lemma_rows_no_space(o, r - 1);
        let row = row_text(o, r, 0, 0);
        let rest = rows_text(o, r - 1);
        let t = row + seq!['/'] + rest;
        assert(rows_text(o, r) == t);
        assert forall|i: int| 0 <= i < t.len() implies !is_space(#[trigger] t[i]) by {
            if i < row.len() {
                assert(t[i] == row[i]);
            } else if i == row.len() {
                assert(t[i] == '/');
            } else {
                assert(t[i] == rest[i - row.len() - 1]);
            }
        }
    }
}

proof fn lemma_digits_no_space(n: nat)
    ensures
        no_space(nat_text(n)),
        nat_text(n).len() > 0,
{
    lemma_nat_text(n);
    assert forall|i: int| 0 <= i < nat_text(n).len() implies !is_space(#[trigger] nat_text(n)[i]) by {
        assert('0' <= nat_text(n)[i] <= '9');
    }
}

/// A word, then white space, then the rest: the word is the first field and the fields of
/// the rest follow it.
proof fn lemma_word_then(x: Seq<char>, sp: Seq<char>, y: Seq<char>)
    requires
        x.len() > 0,
        no_space(x),
        sp.len() > 0,
        all_space(sp),
    ensures
        field(x + sp + y, 0) == Some(x),
        forall|k: nat| field(x + sp + y, k + 1) == #[trigger] field(y, k),
{
    assert((x + sp) + y =~= x + (sp + y));
    assert((sp + y)[0] == sp[0]);
    lemma_fields_after_word(x, sp + y, 0);
    assert forall|k: nat| field(x + sp + y, k + 1) == #[trigger] field(y, k) by {
        lemma_fields_after_word(x, sp + y, k);
        lemma_fields_after_space(sp, y, k);
    }
}

/// A single word is its own first field.
proof fn lemma_single_word(x: Seq<char>)
    requires
        x.len() > 0,
        no_space(x),
    ensures
        field(x, 0) == Some(x),
{
    assert(x + Seq::<char>::empty() =~= x);
    lemma_fields_after_word(x, Seq::<char>::empty(), 0);
}

/// The castling field as written: "-" for no rights, else the letters.
pub open spec fn rights_word(r: u8) -> Seq<char> {
    if r == 0 { seq!['-'] } else { rights_text(r) }
}

/// The white space written after the castling field.
pub open spec fn rights_gap(r: u8) -> Seq<char> {
    seq![' ']
}

/// The en-passant field as written.
pub open spec fn ep_word(e: Option<Sq>) -> Seq<char> {
    match e {
        Some(x) => square_text(x.idx()),
        None => seq!['-'],
    }
}

/// The side-to-move field as written.
pub open spec fn side_word(c: Side) -> Seq<char> {
    seq![if c == Side::White { 'w' } else { 'b' }]
}

proof fn lemma_assoc(a: Seq<char>, b: Seq<char>, c: Seq<char>)
    ensures
        a + b + c == a + (b + c),
{
    assert(a + b + c =~= a + (b + c));
}

/// Regrouping the pieces of a FEN text word by word.
proof fn lemma_regroup(t0: Seq<char>, x: Seq<char>, rr: Seq<char>, e: Seq<char>, i4: Seq<char>, i5: Seq<char>,
    c: Seq<char>, r1: Seq<char>, g: Seq<char>, t3: Seq<char>)
    requires
        x == seq![' '] + c + seq![' '],
        rr + e == r1 + g + t3 + seq![' '],
    ensures
        t0 + x + rr + e + i4 + seq![' '] + i5 == t0 + seq![' '] + (c + seq![' '] + (r1 + g + (t3 + seq![' '] + (
        i4 + seq![' '] + i5)))),
{
    let sp = seq![' '];
    let tail = i4 + sp + i5;
    assert(i4 + sp + i5 == tail);
    lemma_assoc(t0 + x + rr + e, i4, sp);
    lemma_assoc(t0 + x + rr + e, i4 + sp, i5);
    lemma_assoc(t0 + x, rr, e);
    lemma_assoc(t0 + x, rr + e, tail);
    // t0 + x + (r1 + g + t3 + sp) + tail
    let y3 = t3 + sp + tail;
    lemma_assoc(r1 + g + t3, sp, tail);
    lemma_assoc(r1 + g, t3, sp + tail);
    lemma_assoc(t3, sp, tail);
    lemma_assoc(r1, g, y3);
    let y2 = r1 + g + y3;
    assert(r1 + g + t3 + sp + tail == y2);
    lemma_assoc(t0, x, y2);
    lemma_assoc(sp + c, sp, y2);
    lemma_assoc(sp, c, sp + y2);
    lemma_assoc(c, sp, y2);
    lemma_assoc(t0, sp, c + sp + y2);
}

/// The FEN text of a position is its six words with white space between them.
proof fn lemma_fen_shape(p: Position)
    requires
        p.halfmoves() >= 0,
        p.fullmove_number() >= 0,
    ensures
        fen_text(p) == rows_text(p.occupants(), 7) + seq![' '] + (side_word(p.side_to_move()) + seq![' '] + (
        rights_word(p.rights()) + rights_gap(p.rights()) + (ep_word(p.ep_square()) + seq![' '] + (nat_text(
        p.halfmoves() as nat) + seq![' '] + nat_text(p.fullmove_number() as nat))))),
{
    let sp = seq![' '];
    let r = p.rights();
    let t3 = ep_word(p.ep_square());
    let e = match p.ep_square() {
        Some(x) => seq![' '] + square_text(x.idx()) + seq![' '],
        None => seq![' ', '-', ' '],
    };
    let c = side_word(p.side_to_move());
    let x = seq![' ', if p.side_to_move() == Side::White { 'w' } else { 'b' }, ' '];
    assert(x =~= sp + c + sp);
    assert(e =~= sp + t3 + sp);
    assert(rights_text(r) + e =~= rights_word(r) + rights_gap(r) + t3 + sp);
    let i4 = nat_text(p.halfmoves() as nat);
    let i5 = nat_text(p.fullmove_number() as nat);
    assert(i4 == int_text(p.halfmoves() as int));
    assert(i5 == int_text(p.fullmove_number() as int));
    let t0 = rows_text(p.occupants(), 7);
    assert(fen_text(p) == t0 + x + rights_text(r) + e + i4 + sp + i5);
    lemma_regroup(t0, x, rights_text(r), e, i4, i5, c, rights_word(r), rights_gap(r), t3);
}

/// The six fields of the FEN text of a position are its six words.
proof fn lemma_fen_text_fields(p: Position)
    requires
        p.rights() < 16,
        p.halfmoves() >= 0,
        p.fullmove_number() >= 0,
    ensures
        field(fen_text(p), 0) == Some(rows_text(p.occupants(), 7)),
        field(fen_text(p), 1) == Some(side_word(p.side_to_move())),
        field(fen_text(p), 2) == Some(rights_word(p.rights())),
        field(fen_text(p), 3) == Some(ep_word(p.ep_square())),
        field(fen_text(p), 4) == Some(nat_text(p.halfmoves() as nat)),
        field(fen_text(p), 5) == Some(nat_text(p.fullmove_number() as nat)),
{
    let sp = seq![' '];
    let r = p.rights();
    let t0 = rows_text(p.occupants(), 7);
    let c = side_word(p.side_to_move());
    let r1 = rights_word(r);
    let g = rights_gap(r);
    let t3 = ep_word(p.ep_square());
    let i4 = nat_text(p.halfmoves() as nat);
    let i5 = nat_text(p.fullmove_number() as nat);
    let y4 = i4 + sp + i5;
    let y3 = t3 + sp + y4;
    let y2 = r1 + g + y3;
    let y1 = c + sp + y2;
    lemma_fen_shape(p);
    assert(fen_text(p) == t0 + sp + y1);
    assert(all_space(sp));
    assert(all_space(g));
    lemma_rows_no_space(p.occupants(), 7);
    lemma_rights_round_trip(r);
    lemma_digits_no_space(p.halfmoves() as nat);
    lemma_digits_no_space(p.fullmove_number() as nat);
    assert(no_space(c));
    assert(no_space(r1));
    assert(no_space(t3)) by {
        if let Some(x) = p.ep_square() {
            assert(t3[0] as int == 97 + file_of(x.idx()));
            assert(t3[1] as int == 49 + rank_of(x.idx()));
        }
    }
    lemma_word_then(t0, sp, y1);
    lemma_word_then(c, sp, y2);
    lemma_word_then(r1, g, y3);
    lemma_word_then(t3, sp, y4);
    lemma_word_then(i4, sp, i5);
    lemma_single_word(i5);
    assert(field(fen_text(p), 1) == field(y1, 0));
    assert(field(fen_text(p), 2) == field(y1, 1));
    assert(field(y1, 1) == field(y2, 0));
    assert(field(fen_text(p), 3) == field(y1, 2));
    assert(field(y1, 2) == field(y2, 1));
    assert(field(y2, 1) == field(y3, 0));
    assert(field(fen_text(p), 4) == field(y1, 3));
    assert(field(y1, 3) == field(y2, 2));
    assert(field(y2, 2) == field(y3, 1));
    assert(field(y3, 1) == field(y4, 0));
    assert(field(fen_text(p), 5) == field(y1, 4));
    assert(field(y1, 4) == field(y2, 3));
    assert(field(y2, 3) == field(y3, 2));
    assert(field(y3, 2) == field(y4, 1));
    assert(field(y4, 1) == field(i5, 0));
}

/// The fields of the FEN text of a well-formed position read back as the position's pieces,
/// side to move, castling rights, en-passant square and clocks, and describe a position.
pub proof fn lemma_fen_text_reads_back(p: Position)
    requires
        p.wf(),
        p.halfmoves() >= 0,
        p.fullmove_number() >= 0,
    ensures
        fen_fields(fen_text(p)) == Some((p.occupants(), p.side_to_move(), p.rights(), p.ep_square(),
            p.halfmoves() as nat, p.fullmove_number() as nat)),
        fen_ok(fen_text(p)),
{
    let s = fen_text(p);
    let o = p.occupants();
    lemma_fen_text_fields(p);
    lemma_placement_round_trip(o);
    lemma_rights_round_trip(p.rights());
    lemma_count_round_trip(p.halfmoves() as nat);
    lemma_count_round_trip(p.fullmove_number() as nat);
    assert(side_field(side_word(p.side_to_move())) == Some(p.side_to_move())) by {
        if p.side_to_move() == Side::Black {
            assert(side_word(p.side_to_move()) != seq!['w']) by {
                assert(side_word(p.side_to_move())[0] == 'b');
            }
        }
    }
    assert(ep_field(ep_word(p.ep_square())) == Some(p.ep_square())) by {
        if let Some(x) = p.ep_square() {
            crate::lemma_square_name_round_trip(x.idx());
            let t = ep_word(p.ep_square());
            assert(t.len() == 2);
            assert(t != seq!['-']);
        }
    }
    p.lemma_describes_occupants();
    p.lemma_kings();
    p.lemma_kings_at();
    assert(crate::position::kings_ok(o)) by {
        let kw = p.king_square(Side::White);
        let kb = p.king_square(Side::Black);
        assert(crate::position::king_at(o, Side::White, Some(kw)));
        assert(crate::position::king_at(o, Side::Black, Some(kb)));
    }
    assert(crate::position::rights_ok(o, p.rights()));
    assert(crate::position::ep_square_ok(o, p.side_to_move(), p.ep_square())) by {
        if let Some(e) = p.ep_square() {
            assert(o[e.idx()] is None);
        }
    }
}

/// Two well-formed positions with the same occupants have the same bitboards.
pub(crate) proof fn lemma_same_occupants(p: Position, q: Position)
    requires
        p.board_ok(),
        q.board_ok(),
        p.occupants() == q.occupants(),
    ensures
        forall|pc: Piece, c: Side| #[trigger] p.bb(pc, c) == q.bb(pc, c),
{
    p.lemma_describes_occupants();
    q.lemma_describes_occupants();
    assert forall|pc: Piece, c: Side| #[trigger] p.bb(pc, c) == q.bb(pc, c) by {
        assert forall|i: int| 0 <= i < 64 implies #[trigger] in_bb(p.bb(pc, c), i) == in_bb(q.bb(pc, c), i) by {
        }
        lemma_same_squares_eq(p.bb(pc, c), q.bb(pc, c));
    }
}

/// Writing a well-formed position as FEN text and reading the text back gives the same
/// position: the text is accepted, and what it reads as has the same pieces, side to move,
/// castling rights, en-passant square and clocks. The en-passant square is kept only where a
/// pawn can take en passant, as every move and every read leaves it; the clocks are those
/// that the text can hold, which are not negative.
pub proof fn lemma_fen_round_trip(p: Position, q: Position)
    requires
        p.wf(),
        p.halfmoves() >= 0,
        p.fullmove_number() >= 0,
        p.ep_square() is Some ==> p.ep_kept(),
        fen_describes(fen_text(p), q),
    ensures
        fen_ok(fen_text(p)),
        q.occupants() == p.occupants(),
        q.side_to_move() == p.side_to_move(),
        q.rights() == p.rights(),
        q.ep_square() == p.ep_square(),
        q.halfmoves() == p.halfmoves(),
        q.fullmove_number() == p.fullmove_number(),
{
    lemma_fen_text_reads_back(p);
    if let Some(x) = p.ep_square() {
        let w = q.with_ep_hash(Some(x), 0);
        lemma_same_occupants(p, q);
        assert forall|pc: Piece, c: Side| #[trigger] w.bb(pc, c) == p.bb(pc, c) by {
            assert(w.bb(pc, c) == q.bb(pc, c));
        }
        assert(w.side_to_move() == p.side_to_move());
        assert(w.ep_square() == p.ep_square());
        assert(w.side_bb(Side::White) == p.side_bb(Side::White));
        assert(w.side_bb(Side::Black) == p.side_bb(Side::Black));
        assert(w.occ_bb() == p.occ_bb());
        assert(w.king_square(Side::White) == p.king_square(Side::White));
        assert(w.king_square(Side::Black) == p.king_square(Side::Black));
        assert(w.ep_kept() == p.ep_kept());
    }
}

} // verus!
