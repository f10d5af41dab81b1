//! Bitboards: a `u64` whose bit `i` stands for square `i` of the board.
use vstd::prelude::*;
use vstd::std_specs::bits::{u64_trailing_zeros, axiom_u64_trailing_zeros};

verus! {

/// Bit `n` of `b` is set.
pub open spec fn bit(b: u64, n: u64) -> bool {
    (b >> n) & 1 == 1
}

/// Square `i` (0..64) is a member of bitboard `b`.
pub open spec fn in_bb(b: u64, i: int) -> bool {
    0 <= i < 64 && bit(b, i as u64)
}

/// The bitboard holding exactly the squares in `0..64` for which `p` holds.
pub open spec fn same_squares(a: u64, b: u64) -> bool {
    forall|i: int| 0 <= i < 64 ==> #[trigger] in_bb(a, i) == in_bb(b, i)
}

pub broadcast proof fn lemma_in_bb_or(a: u64, b: u64, i: int)
    ensures
        #[trigger] in_bb(a | b, i) == (in_bb(a, i) || in_bb(b, i)),
{
    if 0 <= i < 64 {
        let n = i as u64;
        assert(((a | b) >> n) & 1 == 1 <==> ((a >> n) & 1 == 1 || (b >> n) & 1 == 1))
            by (bit_vector)
            requires
                n < 64,
        ;
    }
}

pub broadcast proof fn lemma_in_bb_and(a: u64, b: u64, i: int)
    ensures
        #[trigger] in_bb(a & b, i) == (in_bb(a, i) && in_bb(b, i)),
{
    if 0 <= i < 64 {
        let n = i as u64;
        assert(((a & b) >> n) & 1 == 1 <==> ((a >> n) & 1 == 1 && (b >> n) & 1 == 1))
            by (bit_vector)
            requires
                n < 64,
        ;
    }
}

pub broadcast proof fn lemma_in_bb_xor(a: u64, b: u64, i: int)
    ensures
        #[trigger] in_bb(a ^ b, i) == (0 <= i < 64 && in_bb(a, i) != in_bb(b, i)),
{
    if 0 <= i < 64 {
        let n = i as u64;
        assert(((a ^ b) >> n) & 1 == 1 <==> ((a >> n) & 1 == 1) != ((b >> n) & 1 == 1))
            by (bit_vector)
            requires
                n < 64,
        ;
    }
}

pub broadcast proof fn lemma_in_bb_not(a: u64, i: int)
    ensures
        #[trigger] in_bb(!a, i) == (0 <= i < 64 && !in_bb(a, i)),
{
    if 0 <= i < 64 {
        let n = i as u64;
        assert(((!a) >> n) & 1 == 1 <==> !((a >> n) & 1 == 1)) by (bit_vector)
            requires
                n < 64,
        ;
    }
}

pub broadcast proof fn lemma_in_bb_zero(i: int)
    ensures
        !#[trigger] in_bb(0u64, i),
{
    if 0 <= i < 64 {
        let n = i as u64;
        assert((0u64 >> n) & 1 != 1) by (bit_vector);
    }
}

pub broadcast proof fn lemma_in_bb_max(i: int)
    ensures
        #[trigger] in_bb(0xffff_ffff_ffff_ffffu64, i) == (0 <= i < 64),
{
    if 0 <= i < 64 {
        let n = i as u64;
        assert((0xffff_ffff_ffff_ffffu64 >> n) & 1 == 1) by (bit_vector)
            requires
                n < 64,
        ;
    }
}

pub broadcast proof fn lemma_in_bb_single(n: u64, i: int)
    requires
        n < 64,
    ensures
        #[trigger] in_bb(1u64 << n, i) == (i == n),
{
    if 0 <= i < 64 {
        let m = i as u64;
        assert(((1u64 << n) >> m) & 1 == 1 <==> m == n) by (bit_vector)
            requires
                n < 64,
                m < 64,
        ;
    }
}

pub broadcast proof fn lemma_in_bb_shl(a: u64, n: u64, i: int)
    requires
        n < 64,
    ensures
        #[trigger] in_bb(a << n, i) == (0 <= i < 64 && i >= n && in_bb(a, i - n)),
{
    if 0 <= i < 64 {
        let m = i as u64;
        let k: u64 = if m >= n { (m - n) as u64 } else { 0 };
        assert((m >= n ==> (((a << n) >> m) & 1 == 1 <==> (a >> k) & 1 == 1)) && (m < n ==> ((a << n) >> m)
            & 1 != 1)) by (bit_vector)
            requires
                n < 64,
                m < 64,
                m >= n ==> k == m - n,
        ;
    }
}

pub broadcast proof fn lemma_in_bb_shr(a: u64, n: u64, i: int)
    requires
        n < 64,
    ensures
        #[trigger] in_bb(a >> n, i) == (0 <= i < 64 && i + n < 64 && in_bb(a, i + n)),
{
    if 0 <= i < 64 {
        let m = i as u64;
        let k: u64 = if m + n < 64 { (m + n) as u64 } else { 0 };
        assert((m + n < 64 ==> (((a >> n) >> m) & 1 == 1 <==> (a >> k) & 1 == 1)) && (m + n >= 64 ==> ((a >> n)
            >> m) & 1 != 1)) by (bit_vector)
            requires
                n < 64,
                m < 64,
                m + n < 64 ==> k == m + n,
        ;
    }
}

pub broadcast group group_in_bb {
    lemma_in_bb_or,
    lemma_in_bb_and,
    lemma_in_bb_xor,
    lemma_in_bb_not,
    lemma_in_bb_zero,
    lemma_in_bb_max,
    lemma_in_bb_single,
    lemma_test_square,
}


pub proof fn lemma_shl_squares(a: u64, n: u64)
    requires
        n < 64,
    ensures
        forall|t: int| #[trigger] in_bb(a << n, t) == (0 <= t < 64 && t >= n && in_bb(a, t - n)),
{
    assert forall|t: int| #[trigger] in_bb(a << n, t) == (0 <= t < 64 && t >= n && in_bb(a, t - n)) by {
        lemma_in_bb_shl(a, n, t);
    }
}

pub proof fn lemma_shr_squares(a: u64, n: u64)
    requires
        n < 64,
    ensures
        forall|t: int| #[trigger] in_bb(a >> n, t) == (0 <= t < 64 && t + n < 64 && in_bb(a, t + n)),
{
    assert forall|t: int| #[trigger] in_bb(a >> n, t) == (0 <= t < 64 && t + n < 64 && in_bb(a, t + n)) by {
        lemma_in_bb_shr(a, n, t);
    }
}


/// Testing a single-square mask against a bitboard tells whether the square is in it.
pub broadcast proof fn lemma_test_square(a: u64, n: u64)
    requires
        n < 64,
    ensures
        #[trigger] (a & (1u64 << n)) != 0 <==> in_bb(a, n as int),
{
    assert((a & (1u64 << n)) != 0 <==> (a >> n) & 1 == 1) by (bit_vector)
        requires
            n < 64,
    ;
}

/// Two bitboards with the same squares are equal.
pub proof fn lemma_same_squares_eq(a: u64, b: u64)
    requires
        same_squares(a, b),
    ensures
        a == b,
{
    if a != b {
        let x = a ^ b;
        assert(x != 0) by (bit_vector)
            requires
                a != b,
                x == a ^ b,
        ;
        axiom_u64_trailing_zeros(x);
        let t = u64_trailing_zeros(x) as u64;
        assert(t < 64);
        assert((x >> t) & 1 == 1);
        assert(((a >> t) & 1 == 1) != ((b >> t) & 1 == 1)) by (bit_vector)
            requires
                x == a ^ b,
                (x >> t) & 1 == 1,
                t < 64,
        ;
        assert(in_bb(a, t as int) != in_bb(b, t as int));
    }
}

/// A bitboard with no square is zero.
pub proof fn lemma_empty_is_zero(a: u64)
    requires
        forall|i: int| 0 <= i < 64 ==> !#[trigger] in_bb(a, i),
    ensures
        a == 0,
{
    broadcast use lemma_in_bb_zero;
    lemma_same_squares_eq(a, 0);
}

/// Zero has no square; a non-zero bitboard has some square.
pub proof fn lemma_nonzero_has(a: u64)
    requires
        a != 0,
    ensures
        in_bb(a, u64_trailing_zeros(a) as int),
        forall|i: int| 0 <= i < u64_trailing_zeros(a) ==> !#[trigger] in_bb(a, i),
{
    axiom_u64_trailing_zeros(a);
    let t = u64_trailing_zeros(a);
    assert forall|i: int| 0 <= i < t implies !#[trigger] in_bb(a, i) by {
        let j = i as u64;
        assert((a >> j) & 1u64 == 0u64);
    }
}

/// `a & (a - 1)` clears the lowest set square of a non-zero `a`.
pub proof fn lemma_clear_lowest(a: u64)
    requires
        a != 0,
    ensures
        forall|i: int| #[trigger]
            in_bb(a & ((a - 1) as u64), i) == (in_bb(a, i) && i != u64_trailing_zeros(a)),
{
    axiom_u64_trailing_zeros(a);
    let t = u64_trailing_zeros(a) as u64;
    let s = (64 - t) as u64;
    assert(a << s == 0);
    let am1 = (a - 1) as u64;
    assert forall|i: int| #[trigger] in_bb(a & am1, i) == (in_bb(a, i) && i != t) by {
        if 0 <= i < 64 {
            let m = i as u64;
            assert(((a & am1) >> m) & 1 == 1 <==> (((a >> m) & 1 == 1) && m != t))
                by (bit_vector)
                requires
                    a != 0,
                    am1 == (a - 1) as u64,
                    t < 64,
                    m < 64,
                    s == 64 - t,
                    (a >> t) & 1 == 1,
                    a << s == 0,
            ;
        }
    }
}

/// Number of squares of a bitboard.
pub open spec fn popcount(b: u64) -> nat
    decreases b,
{
    if b == 0 {
        0
    } else {
        (b & 1) as nat + popcount(b / 2)
    }
}

/// The number of ones in the binary representation of `b`, at most 64.
pub fn count_ones(b: u64) -> (r: u32)
    ensures
        r as nat == popcount(b),
        r <= 64,
{
    let mut x = b;
    let mut n: u32 = 0;
    let mut i: u64 = 0;
    while x != 0
        invariant
            i <= 64,
            n <= i,
            i == 0 || x <= (0xffff_ffff_ffff_ffffu64 >> i),
            n as nat + popcount(x) == popcount(b),
        decreases x,
    {
        assert(x != 0 && (i == 0 || x <= (0xffff_ffff_ffff_ffffu64 >> i)) ==> i < 64 && x / 2 <= (0xffff_ffff_ffff_ffffu64 >> (
            i + 1) as u64) && x & 1 <= 1) by (bit_vector)
            requires
                i <= 64,
        ;
        n = n + (x & 1) as u32;
        x = x / 2;
        i = i + 1;
    }
    n
}

} // verus!
