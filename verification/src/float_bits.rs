//! Doubles as 64-bit patterns.
//!
//! Order, equality and sign of a double are properties of its bit pattern and
//! are decided here on integers. Arithmetic is supplied by the caller as a
//! function on bit patterns ([`is_arith`]).

use vstd::prelude::*;

verus! {

/// The sign bit.
pub const SIGN: u64 = 0x8000_0000_0000_0000;

/// The bit pattern of positive infinity; larger magnitudes are NaNs.
pub const INFINITY_BITS: u64 = 0x7FF0_0000_0000_0000;

/// The bit pattern of negative infinity.
pub const NEG_INFINITY_BITS: u64 = 0xFFF0_0000_0000_0000;

/// The bit pattern of `1`.
pub const ONE_BITS: u64 = 0x3FF0_0000_0000_0000;

/// The largest word.
pub const ALL_ONES: u64 = 0xFFFF_FFFF_FFFF_FFFF;

/// The operations on doubles that the engine asks its caller for. Operands and
/// results are bit patterns, except where noted.
#[derive(Clone, Copy, Debug, PartialEq, Eq, Structural)]
pub enum FloatOp {
    /// `a + b`.
    Add,
    /// `a - b`.
    Sub,
    /// `a * b`.
    Mul,
    /// `a / b`.
    Div,
    /// The lesser of `a` and `b`; where one is a NaN, the other.
    Min,
    /// The greater of `a` and `b`; where one is a NaN, the other.
    Max,
    /// The double nearest to the unsigned integer `a`; `b` is not read.
    FromU64,
    /// The double nearest to `a` read as a signed integer; `b` is not read.
    FromI64,
    /// `a` cut to a signed integer, saturating, returned as its word; `b` is not read.
    ToI64,
    /// `a` cut to an unsigned integer, saturating; `b` is not read.
    ToU64,
    /// `a * (1 - b)`, rounded once.
    FusedDiscount,
    /// `a` to the power `b`.
    Pow,
    /// Not zero where `a` and `b` are equal up to rounding.
    Near,
    /// The number of distinct values, as an integer, where hashing them fills
    /// `a` of 256 buckets; `b` is not read.
    LinearCount,
}

/// What the caller's arithmetic `f` gives for `op` on `a` and `b`.
pub open spec fn arith<F: Fn(FloatOp, u64, u64) -> u64>(f: F, op: FloatOp, a: u64, b: u64) -> u64 {
    choose|r: u64| call_ensures(f, (op, a, b), r)
}

/// `f` is a total function of its arguments.
pub open spec fn is_arith<F: Fn(FloatOp, u64, u64) -> u64>(f: F) -> bool {
    &&& forall|op: FloatOp, a: u64, b: u64| #[trigger] call_requires(f, (op, a, b))
    &&& forall|op: FloatOp, a: u64, b: u64, r: u64|
        #[trigger] call_ensures(f, (op, a, b), r) ==> r == arith(f, op, a, b)
}

/// The caller's reader `p` may give `r` for a text.
pub open spec fn may_read<P: Fn(&str) -> Option<u64>>(p: P, text: Seq<char>, r: Option<u64>) -> bool {
    exists|s: &str| s@ == text && #[trigger] call_ensures(p, (s,), r)
}

/// The pattern that the caller's reader `p` gives for a text, if it reads it as a double.
pub open spec fn reads_as<P: Fn(&str) -> Option<u64>>(p: P, text: Seq<char>) -> Option<u64> {
    choose|r: Option<u64>| may_read(p, text, r)
}

/// `p` is a total function of the text it is given.
pub open spec fn is_reader<P: Fn(&str) -> Option<u64>>(p: P) -> bool {
    &&& forall|s: &str| #[trigger] call_requires(p, (s,))
    &&& forall|s: &str, r: Option<u64>| #[trigger] call_ensures(p, (s,), r) ==> r == reads_as(p, s@)
}

/// The pattern without its sign bit.
pub open spec fn magnitude(bits: u64) -> int {
    if bits >= SIGN {
        bits - SIGN
    } else {
        bits as int
    }
}

pub open spec fn is_nan(bits: u64) -> bool {
    magnitude(bits) > INFINITY_BITS
}

/// A number that orders the patterns that are not NaNs as their doubles are
/// ordered; both zeros have rank zero.
pub open spec fn rank(bits: u64) -> int {
    if bits >= SIGN {
        -magnitude(bits)
    } else {
        magnitude(bits)
    }
}

/// `a < b` on doubles.
pub open spec fn float_lt(a: u64, b: u64) -> bool {
    !is_nan(a) && !is_nan(b) && rank(a) < rank(b)
}

/// `a == b` on doubles.
pub open spec fn float_eq(a: u64, b: u64) -> bool {
    !is_nan(a) && !is_nan(b) && rank(a) == rank(b)
}

/// `a <= b` on doubles.
pub open spec fn float_le(a: u64, b: u64) -> bool {
    float_lt(a, b) || float_eq(a, b)
}

/// The place of a pattern in the total order of doubles: negative NaNs first,
/// then the numbers from least to greatest with `-0` before `+0`, then
/// positive NaNs.
pub open spec fn total_rank(bits: u64) -> u64 {
    if bits >= SIGN {
        (ALL_ONES - bits) as u64
    } else {
        (bits + SIGN) as u64
    }
}

/// `-a` on doubles.
pub open spec fn float_neg(bits: u64) -> u64 {
    if bits >= SIGN {
        (bits - SIGN) as u64
    } else {
        (bits + SIGN) as u64
    }
}

fn magnitude_of(bits: u64) -> (m: u64)
    ensures
        m == magnitude(bits),
{
    if bits >= SIGN {
        bits - SIGN
    } else {
        bits
    }
}

/// Whether the pattern is a NaN.
pub fn nan(bits: u64) -> (b: bool)
    ensures
        b == is_nan(bits),
{
    magnitude_of(bits) > INFINITY_BITS
}

/// Whether double `a` is less than double `b`.
pub fn less(a: u64, b: u64) -> (r: bool)
    ensures
        r == float_lt(a, b),
{
    let ma: u64 = magnitude_of(a);
    let mb: u64 = magnitude_of(b);
    if ma > INFINITY_BITS || mb > INFINITY_BITS {
        false
    } else if a >= SIGN {
        if b >= SIGN {
            mb < ma
        } else {
            ma != 0 || mb != 0
        }
    } else {
        b < SIGN && ma < mb
    }
}

/// Whether double `a` equals double `b`.
pub fn same(a: u64, b: u64) -> (r: bool)
    ensures
        r == float_eq(a, b),
{
    let ma: u64 = magnitude_of(a);
    let mb: u64 = magnitude_of(b);
    ma <= INFINITY_BITS && mb <= INFINITY_BITS && (a == b || (ma == 0 && mb == 0))
}

/// Whether double `a` is at most double `b`.
pub fn at_most(a: u64, b: u64) -> (r: bool)
    ensures
        r == float_le(a, b),
{
    less(a, b) || same(a, b)
}

/// The word by which patterns sort in the total order of doubles.
pub fn sort_rank(bits: u64) -> (r: u64)
    ensures
        r == total_rank(bits),
{
    if bits >= SIGN {
        ALL_ONES - bits
    } else {
        bits + SIGN
    }
}

/// The pattern of the negated double.
pub fn negate(bits: u64) -> (r: u64)
    ensures
        r == float_neg(bits),
{
    if bits >= SIGN {
        bits - SIGN
    } else {
        bits + SIGN
    }
}

/// The word that sorts in the opposite direction.
pub open spec fn descending(word: u64) -> u64 {
    (ALL_ONES - word) as u64
}

pub fn reversed(word: u64) -> (r: u64)
    ensures
        r == descending(word),
{
    ALL_ONES - word
}

/// `a * (1 - b)`: the price left after a discount.
pub open spec fn discounted<F: Fn(FloatOp, u64, u64) -> u64>(f: F, price: u64, discount: u64) -> u64 {
    arith(f, FloatOp::Mul, price, arith(f, FloatOp::Sub, ONE_BITS, discount))
}

pub fn discount_price<F: Fn(FloatOp, u64, u64) -> u64>(f: &F, price: u64, discount: u64) -> (r: u64)
    requires
        is_arith(*f),
    ensures
        r == discounted(*f, price, discount),
{
    let kept: u64 = f(FloatOp::Sub, ONE_BITS, discount);
    f(FloatOp::Mul, price, kept)
}

/// Distinct patterns have distinct places in the total order.
pub proof fn total_rank_is_injective(a: u64, b: u64)
    ensures
        total_rank(a) == total_rank(b) <==> a == b,
{
}

/// The total order extends the order of doubles.
pub proof fn total_rank_extends_less(a: u64, b: u64)
    requires
        float_lt(a, b),
    ensures
        total_rank(a) < total_rank(b),
{
}

/// Two doubles that are not NaNs are ordered one way or the other, or equal.
pub proof fn less_is_trichotomous(a: u64, b: u64)
    requires
        !is_nan(a),
        !is_nan(b),
    ensures
        float_lt(a, b) || float_eq(a, b) || float_lt(b, a),
        !(float_lt(a, b) && float_lt(b, a)),
        !(float_lt(a, b) && float_eq(a, b)),
{
}

/// Negation reverses the order.
pub proof fn negation_reverses_order(a: u64, b: u64)
    ensures
        float_lt(a, b) <==> float_lt(float_neg(b), float_neg(a)),
        float_neg(float_neg(a)) == a,
{
}

} // verus!
