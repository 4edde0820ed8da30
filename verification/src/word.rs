//! Signed integers in 64-bit words.

use vstd::prelude::*;

verus! {

/// The two's-complement word of a signed integer.
pub open spec fn signed_word(n: i64) -> u64 {
    if n >= 0 {
        n as u64
    } else {
        (n + 0x1_0000_0000_0000_0000) as u64
    }
}

/// The signed integer that a word holds.
pub open spec fn word_signed(w: u64) -> i64 {
    if w <= i64::MAX {
        w as i64
    } else {
        (w - 0x1_0000_0000_0000_0000) as i64
    }
}

pub fn word_of(n: i64) -> (w: u64)
    ensures
        w == signed_word(n),
{
    if n >= 0 {
        n as u64
    } else {
        0xFFFF_FFFF_FFFF_FFFF - ((-(n + 1)) as u64)
    }
}

pub fn signed_of(w: u64) -> (n: i64)
    ensures
        n == word_signed(w),
{
    if w <= 0x7FFF_FFFF_FFFF_FFFF {
        w as i64
    } else {
        -((0xFFFF_FFFF_FFFF_FFFF - w) as i64) - 1
    }
}

/// The word by which signed integers sort.
pub open spec fn signed_rank(w: u64) -> u64 {
    if w <= i64::MAX {
        (w + 0x8000_0000_0000_0000) as u64
    } else {
        (w - 0x8000_0000_0000_0000) as u64
    }
}

pub fn rank_signed(w: u64) -> (r: u64)
    ensures
        r == signed_rank(w),
{
    if w <= 0x7FFF_FFFF_FFFF_FFFF {
        w + 0x8000_0000_0000_0000
    } else {
        w - 0x8000_0000_0000_0000
    }
}

/// Words sort by rank as the signed integers that they hold.
pub proof fn signed_rank_orders(a: u64, b: u64)
    ensures
        signed_rank(a) < signed_rank(b) <==> word_signed(a) < word_signed(b),
{
}

/// A signed integer survives being stored in a word.
pub proof fn word_round_trip(n: i64, w: u64)
    ensures
        word_signed(signed_word(n)) == n,
        signed_word(word_signed(w)) == w,
{
}

} // verus!
