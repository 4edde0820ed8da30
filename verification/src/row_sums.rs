//! Sums of doubles over listed rows, carried out by the caller.

use vstd::prelude::*;

verus! {

/// What is added up for each row.
#[derive(Clone, Copy, Debug, PartialEq, Eq, Structural)]
pub enum RowSum {
    /// `a`.
    Plain,
    /// `a * b`.
    Product,
    /// `a * (1 - b)`.
    Discounted,
    /// `a * (1 - b) * (1 + c)`.
    Charged,
}

/// The listed rows exist in a column.
pub open spec fn rows_exist(rows: Seq<usize>, column: Seq<u64>) -> bool {
    forall|i: int| 0 <= i < rows.len() ==> #[trigger] rows[i] < column.len()
}

/// The caller's `s` may give `r` for columns and rows.
pub open spec fn may_total<S: Fn(RowSum, &Vec<u64>, &Vec<u64>, &Vec<u64>, &Vec<usize>) -> u64>(
    s: S,
    what: RowSum,
    a: Seq<u64>,
    b: Seq<u64>,
    c: Seq<u64>,
    rows: Seq<usize>,
    r: u64,
) -> bool {
    exists|x: &Vec<u64>, y: &Vec<u64>, z: &Vec<u64>, q: &Vec<usize>|
        x@ == a && y@ == b && z@ == c && q@ == rows && #[trigger] call_ensures(s, (what, x, y, z, q), r)
}

/// The sum over the listed rows that the caller's `s` gives, as a bit pattern.
pub open spec fn total_of<S: Fn(RowSum, &Vec<u64>, &Vec<u64>, &Vec<u64>, &Vec<usize>) -> u64>(
    s: S,
    what: RowSum,
    a: Seq<u64>,
    b: Seq<u64>,
    c: Seq<u64>,
    rows: Seq<usize>,
) -> u64 {
    choose|r: u64| may_total(s, what, a, b, c, rows, r)
}

/// `s` is a function of the columns and rows it is given, defined where the
/// rows exist.
pub open spec fn is_summer<S: Fn(RowSum, &Vec<u64>, &Vec<u64>, &Vec<u64>, &Vec<usize>) -> u64>(s: S) -> bool {
    &&& forall|what: RowSum, x: &Vec<u64>, y: &Vec<u64>, z: &Vec<u64>, q: &Vec<usize>|
        rows_exist(q@, x@) && rows_exist(q@, y@) && rows_exist(q@, z@) ==> #[trigger] call_requires(
            s,
            (what, x, y, z, q),
        )
    &&& forall|what: RowSum, x: &Vec<u64>, y: &Vec<u64>, z: &Vec<u64>, q: &Vec<usize>, r: u64| #[trigger]
        call_ensures(s, (what, x, y, z, q), r) ==> r == total_of(s, what, x@, y@, z@, q@)
}

} // verus!
