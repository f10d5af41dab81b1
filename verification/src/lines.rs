//! Lines through two squares: the segment joining them and the whole line along them.
use vstd::prelude::*;
use crate::bits::{in_bb, group_in_bb};
use crate::attacks::{ray_bb, ray_attacks};
use crate::{Sq, rank_of, file_of};

verus! {

broadcast use group_in_bb;

pub open spec fn sign(x: int) -> int {
    if x > 0 {
        1
    } else if x < 0 {
        -1
    } else {
        0
    }
}

/// The step from `a` towards `b` when they share a rank or a file.
pub open spec fn straight_dir(a: int, b: int) -> Option<(int, int)> {
    if a != b && rank_of(a) == rank_of(b) {
        Some((0, sign(file_of(b) - file_of(a))))
    } else if a != b && file_of(a) == file_of(b) {
        Some((sign(rank_of(b) - rank_of(a)), 0))
    } else {
        None
    }
}

/// The step from `a` towards `b` when they share a diagonal.
pub open spec fn diagonal_dir(a: int, b: int) -> Option<(int, int)> {
    let dr = rank_of(b) - rank_of(a);
    let df = file_of(b) - file_of(a);
    if a != b && (dr == df || dr == -df) {
        Some((sign(dr), sign(df)))
    } else {
        None
    }
}

/// The squares from `a` to `b`, both included, walking the step `d`; empty without a step.
pub open spec fn segment(a: int, b: int, d: Option<(int, int)>) -> u64 {
    match d {
        Some((dr, df)) => (1u64 << (a as u64)) | ray_bb(a, dr, df, 1u64 << (b as u64), 8),
        None => 0,
    }
}

/// The whole line through `a` along the step `d`, edge to edge; empty without a step.
pub open spec fn full_line(a: int, d: Option<(int, int)>) -> u64 {
    match d {
        Some((dr, df)) => (1u64 << (a as u64)) | ray_bb(a, dr, df, 0, 8) | ray_bb(a, -dr, -df, 0, 8),
        None => 0,
    }
}

/// The step to use along `a`..`b`: straight if they share a rank or file, else diagonal.
pub open spec fn any_dir(a: int, b: int) -> Option<(int, int)> {
    match straight_dir(a, b) {
        Some(d) => Some(d),
        None => diagonal_dir(a, b),
    }
}

fn sign_of(x: i32) -> (r: i32)
    ensures
        r == sign(x as int),
{
    if x > 0 {
        1
    } else if x < 0 {
        -1
    } else {
        0
    }
}

fn straight_step(a: Sq, b: Sq) -> (r: Option<(i32, i32)>)
    requires
        a.valid(),
        b.valid(),
    ensures
        r matches Some((dr, df)) ==> straight_dir(a.idx(), b.idx()) == Some((dr as int, df as int))
            && -1 <= dr <= 1 && -1 <= df <= 1,
        r is None ==> straight_dir(a.idx(), b.idx()) is None,
{
    let ra = a.rank() as i32;
    let fa = a.file() as i32;
    let rb = b.rank() as i32;
    let fb = b.file() as i32;
    if a.0 != b.0 && ra == rb {
        Some((0, sign_of(fb - fa)))
    } else if a.0 != b.0 && fa == fb {
        Some((sign_of(rb - ra), 0))
    } else {
        None
    }
}

fn diagonal_step(a: Sq, b: Sq) -> (r: Option<(i32, i32)>)
    requires
        a.valid(),
        b.valid(),
    ensures
        r matches Some((dr, df)) ==> diagonal_dir(a.idx(), b.idx()) == Some((dr as int, df as int))
            && -1 <= dr <= 1 && -1 <= df <= 1,
        r is None ==> diagonal_dir(a.idx(), b.idx()) is None,
{
    let dr = b.rank() as i32 - a.rank() as i32;
    let df = b.file() as i32 - a.file() as i32;
    if a.0 != b.0 && (dr == df || dr == -df) {
        Some((sign_of(dr), sign_of(df)))
    } else {
        None
    }
}

fn segment_of(a: Sq, b: Sq, d: Option<(i32, i32)>) -> (r: u64)
    requires
        a.valid(),
        b.valid(),
        d matches Some((dr, df)) ==> -1 <= dr <= 1 && -1 <= df <= 1,
    ensures
        r == segment(a.idx(), b.idx(), match d {
            Some((dr, df)) => Some((dr as int, df as int)),
            None => None,
        }),
{
    match d {
        Some((dr, df)) => a.bb() | ray_attacks(a, dr, df, b.bb()),
        None => 0,
    }
}

/// The squares between `a` and `b` on a shared diagonal: with both ends, and without them.
pub fn line_between_diagonal(a: Sq, b: Sq) -> (r: (u64, u64))
    requires
        a.valid(),
        b.valid(),
    ensures
        r.0 == segment(a.idx(), b.idx(), diagonal_dir(a.idx(), b.idx())),
        r.1 == r.0 & !((1u64 << (a.0 as u64)) | (1u64 << (b.0 as u64))),
{
    let l = segment_of(a, b, diagonal_step(a, b));
    (l, l & !(a.bb() | b.bb()))
}

/// The squares between `a` and `b` on a shared rank or file: with both ends, and without them.
pub fn line_between_straight(a: Sq, b: Sq) -> (r: (u64, u64))
    requires
        a.valid(),
        b.valid(),
    ensures
        r.0 == segment(a.idx(), b.idx(), straight_dir(a.idx(), b.idx())),
        r.1 == r.0 & !((1u64 << (a.0 as u64)) | (1u64 << (b.0 as u64))),
{
    let l = segment_of(a, b, straight_step(a, b));
    (l, l & !(a.bb() | b.bb()))
}

/// The whole line through `a` and `b`, or nothing if they share no line.
pub fn line_along(a: Sq, b: Sq) -> (r: u64)
    requires
        a.valid(),
        b.valid(),
    ensures
        r == full_line(a.idx(), any_dir(a.idx(), b.idx())),
{
    let d = match straight_step(a, b) {
        Some(d) => Some(d),
        None => diagonal_step(a, b),
    };
    match d {
        Some((dr, df)) => a.bb() | ray_attacks(a, dr, df, 0) | ray_attacks(a, -dr, -df, 0),
        None => 0,
    }
}

} // verus!
