//! Zobrist keys: one pseudo-random 64-bit key per (side, piece, square), per en-passant
//! square, per castling-rights value, for Black to move, and a base key.
use vstd::prelude::*;
use crate::{Piece, Side};

verus! {

/// The mixing function that turns a key index into its key.
pub open spec fn mix(x: u64) -> u64 {
    let z0 = x.wrapping_add(0x9E3779B97F4A7C15);
    let z1 = (z0 ^ (z0 >> 30)).wrapping_mul(0xBF58476D1CE4E5B9);
    let z2 = (z1 ^ (z1 >> 27)).wrapping_mul(0x94D049BB133111EB);
    z2 ^ (z2 >> 31)
}

/// Index of the key of a piece of `side` and kind `piece` on square `sq`.
pub open spec fn piece_index(side: Side, piece: Piece, sq: int) -> int {
    side.index() * 384 + piece.index() * 64 + sq
}

pub open spec fn piece_key(side: Side, piece: Piece, sq: int) -> u64 {
    mix(piece_index(side, piece, sq) as u64)
}

pub open spec fn ep_key(sq: int) -> u64 {
    mix((768 + sq) as u64)
}

pub open spec fn castling_key(rights: u8) -> u64 {
    mix((832 + rights) as u64)
}

pub open spec fn black_to_move_key() -> u64 {
    mix(848)
}

pub open spec fn base_key() -> u64 {
    mix(849)
}

/// The key with index `i`.
pub fn key(i: u64) -> (r: u64)
    ensures
        r == mix(i),
{
    let z0 = i.wrapping_add(0x9E3779B97F4A7C15);
    let z1 = (z0 ^ (z0 >> 30)).wrapping_mul(0xBF58476D1CE4E5B9);
    let z2 = (z1 ^ (z1 >> 27)).wrapping_mul(0x94D049BB133111EB);
    z2 ^ (z2 >> 31)
}

pub fn piece_sq(side: Side, piece: Piece, sq: usize) -> (r: u64)
    requires
        sq < 64,
    ensures
        r == piece_key(side, piece, sq as int),
{
    key((side.id() * 384 + piece.id() * 64 + sq) as u64)
}

pub fn ep_sq(sq: usize) -> (r: u64)
    requires
        sq < 64,
    ensures
        r == ep_key(sq as int),
{
    key((768 + sq) as u64)
}

pub fn castling(rights: u8) -> (r: u64)
    ensures
        r == castling_key(rights),
{
    key(832 + rights as u64)
}

pub fn black_to_move() -> (r: u64)
    ensures
        r == black_to_move_key(),
{
    key(848)
}

pub fn base() -> (r: u64)
    ensures
        r == base_key(),
{
    key(849)
}

} // verus!
