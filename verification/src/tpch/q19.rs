//! Revenue of small parts of three brands, each with its own containers, sizes
//! and quantities.

use crate::error::Error;
use crate::float_bits::{arith, float_lt, is_arith, less, FloatOp};
use crate::group_index::{row_of_key, RowIndex};
use crate::hashing::{hash_text, text_hash};
use crate::row_sums::{is_summer, rows_exist, total_of, RowSum};
use crate::table::{column_view, Catalog, QueryResult, ResultColumn, Table};
use crate::tpch::support::{
    answers, col, column, found, has_columns, has_part, list_marked, marked_rows, need, no_table_text, not_found,
    result, table_of, table_ok, text_has,
};
use crate::word::{signed_of, word_signed};
use vstd::prelude::*;

verus! {

/// Whether a query text is this query.
pub open spec fn q19_text(sql: Seq<char>) -> bool {
    has_part(sql, "Brand#12"@) && has_part(sql, "Brand#23"@) && has_part(sql, "Brand#34"@) && has_part(sql, "DELIVER IN PERSON"@) && has_part(sql, "l_extendedprice * (1 - l_discount)"@)
}

pub fn is_q19(sql: &str) -> (b: bool)
    ensures
        b == q19_text(sql@),
{
    text_has(sql, "Brand#12") && text_has(sql, "Brand#23") && text_has(sql, "Brand#34") && text_has(sql, "DELIVER IN PERSON") && text_has(sql, "l_extendedprice * (1 - l_discount)")
}

/// One of the three ways in which a line may count.
#[derive(Clone, Copy, Debug)]
pub struct Q19Branch {
    pub brand: u64,
    pub containers: (u64, u64, u64, u64),
    pub size_hi: i64,
    pub qty_lo: u64,
    pub qty_hi: u64,
}

/// The least size in every branch.
pub const LEAST_SIZE: i64 = 1;

/// The three branches. Quantities are bit patterns: from 1 to 11, from 10 to 20
/// and from 20 to 30.
pub open spec fn q19_branch(k: int) -> Q19Branch {
    if k == 0 {
        Q19Branch {
            brand: text_hash("Brand#12"@),
            containers: (text_hash("SM CASE"@), text_hash("SM BOX"@), text_hash("SM PACK"@), text_hash("SM PKG"@)),
            size_hi: 5,
            qty_lo: 0x3FF0_0000_0000_0000,
            qty_hi: 0x4026_0000_0000_0000,
        }
    } else if k == 1 {
        Q19Branch {
            brand: text_hash("Brand#23"@),
            containers: (text_hash("MED BAG"@), text_hash("MED BOX"@), text_hash("MED PKG"@), text_hash("MED PACK"@)),
            size_hi: 10,
            qty_lo: 0x4024_0000_0000_0000,
            qty_hi: 0x4034_0000_0000_0000,
        }
    } else {
        Q19Branch {
            brand: text_hash("Brand#34"@),
            containers: (text_hash("LG CASE"@), text_hash("LG BOX"@), text_hash("LG PACK"@), text_hash("LG PKG"@)),
            size_hi: 15,
            qty_lo: 0x4034_0000_0000_0000,
            qty_hi: 0x403E_0000_0000_0000,
        }
    }
}

/// A part belongs to a branch by its brand, container and size.
pub open spec fn part_in_branch(part: Table, b: Q19Branch, i: int) -> bool {
    let container = col(part, 6)[i];
    &&& col(part, 3)[i] == b.brand
    &&& (container == b.containers.0 || container == b.containers.1 || container == b.containers.2 || container
        == b.containers.3)
    &&& LEAST_SIZE <= word_signed(col(part, 5)[i]) <= b.size_hi
}

pub open spec fn branch_parts(part: Table, b: Q19Branch) -> Seq<bool> {
    Seq::new(part.row_count as nat, |i: int| part_in_branch(part, b, i))
}

/// Marks of the lines that count in a branch: delivered in person by air, in a
/// quantity of the branch, of a part of the branch.
pub open spec fn branch_lines(lineitem: Table, part: Table, b: Q19Branch) -> Seq<bool> {
    Seq::new(
        lineitem.row_count as nat,
        |i: int|
            (col(lineitem, 14)[i] == text_hash("AIR"@) || col(lineitem, 14)[i] == text_hash("AIR REG"@)) && col(
                lineitem,
                13,
            )[i] == text_hash("DELIVER IN PERSON"@) && !float_lt(col(lineitem, 4)[i], b.qty_lo) && !float_lt(
                b.qty_hi,
                col(lineitem, 4)[i],
            ) && row_of_key(col(part, 0), branch_parts(part, b), col(lineitem, 1)[i]) is Some,
    )
}

/// The revenue of a branch.
pub open spec fn branch_revenue<S: Fn(RowSum, &Vec<u64>, &Vec<u64>, &Vec<u64>, &Vec<usize>) -> u64>(
    s: S,
    lineitem: Table,
    part: Table,
    k: int,
) -> u64 {
    let marks = branch_lines(lineitem, part, q19_branch(k));
    total_of(
        s,
        RowSum::Discounted,
        col(lineitem, 5),
        col(lineitem, 6),
        col(lineitem, 6),
        marked_rows(marks, marks.len() as int),
    )
}

/// The revenue of the first `n` branches.
pub open spec fn q19_revenue<F: Fn(FloatOp, u64, u64) -> u64, S: Fn(RowSum, &Vec<u64>, &Vec<u64>, &Vec<u64>, &Vec<usize>) -> u64>(
    f: F,
    s: S,
    lineitem: Table,
    part: Table,
    n: int,
) -> u64
    decreases n,
{
    if n <= 0 {
        0
    } else {
        arith(f, FloatOp::Add, q19_revenue(f, s, lineitem, part, n - 1), branch_revenue(s, lineitem, part, n - 1))
    }
}

/// The answer.
pub open spec fn q19_outcome<F: Fn(FloatOp, u64, u64) -> u64, S: Fn(RowSum, &Vec<u64>, &Vec<u64>, &Vec<u64>, &Vec<usize>) -> u64>(
    f: F,
    s: S,
    lineitem: Table,
    part: Table,
    r: Result<QueryResult, Error>,
) -> bool {
    answers(r, seq![("revenue"@, seq![q19_revenue(f, s, lineitem, part, 3)])], 1)
}

fn make_branch(k: usize) -> (b: Q19Branch)
    ensures
        b == q19_branch(k as int),
{
    if k == 0 {
        Q19Branch {
            brand: hash_text("Brand#12"),
            containers: (hash_text("SM CASE"), hash_text("SM BOX"), hash_text("SM PACK"), hash_text("SM PKG")),
            size_hi: 5,
            qty_lo: 0x3FF0_0000_0000_0000,
            qty_hi: 0x4026_0000_0000_0000,
        }
    } else if k == 1 {
        Q19Branch {
            brand: hash_text("Brand#23"),
            containers: (hash_text("MED BAG"), hash_text("MED BOX"), hash_text("MED PKG"), hash_text("MED PACK")),
            size_hi: 10,
            qty_lo: 0x4024_0000_0000_0000,
            qty_hi: 0x4034_0000_0000_0000,
        }
    } else {
        Q19Branch {
            brand: hash_text("Brand#34"),
            containers: (hash_text("LG CASE"), hash_text("LG BOX"), hash_text("LG PACK"), hash_text("LG PKG")),
            size_hi: 15,
            qty_lo: 0x4034_0000_0000_0000,
            qty_hi: 0x403E_0000_0000_0000,
        }
    }
}

fn mark_branch_parts(part: &Table, b: &Q19Branch) -> (m: Vec<bool>)
    requires
        has_columns(*part, 7),
    ensures
        m@ == branch_parts(*part, *b),
{
    let mut m: Vec<bool> = Vec::new();
    let mut i: usize = 0;
    while i < part.row_count
        invariant
            has_columns(*part, 7),
            i <= part.row_count,
            m.len() == i,
            forall|k: int| 0 <= k < i ==> #[trigger] m@[k] == part_in_branch(*part, *b, k),
        decreases part.row_count - i,
    {
        let container: u64 = part.columns[6][i];
        let size: i64 = signed_of(part.columns[5][i]);
        let belongs: bool = part.columns[3][i] == b.brand && (container == b.containers.0 || container
            == b.containers.1 || container == b.containers.2 || container == b.containers.3) && LEAST_SIZE <= size
            && size <= b.size_hi;
        m.push(belongs);
        i = i + 1;
    }
    proof {
        assert(m@ =~= branch_parts(*part, *b));
    }
    m
}

fn mark_branch_lines(lineitem: &Table, part: &Table, b: &Q19Branch) -> (m: Vec<bool>)
    requires
        has_columns(*lineitem, 15),
        has_columns(*part, 7),
    ensures
        m@ == branch_lines(*lineitem, *part, *b),
{
    let air: u64 = hash_text("AIR");
    let air_reg: u64 = hash_text("AIR REG");
    let deliver: u64 = hash_text("DELIVER IN PERSON");
    let parts: RowIndex = RowIndex::build(&part.columns[0], &mark_branch_parts(part, b));
    let mut m: Vec<bool> = Vec::new();
    let mut i: usize = 0;
    while i < lineitem.row_count
        invariant
            has_columns(*lineitem, 15),
            parts.wf(),
            parts.keys() == col(*part, 0),
            parts.marks() == branch_parts(*part, *b),
            air == text_hash("AIR"@),
            air_reg == text_hash("AIR REG"@),
            deliver == text_hash("DELIVER IN PERSON"@),
            i <= lineitem.row_count,
            m.len() == i,
            forall|k: int| 0 <= k < i ==> #[trigger] m@[k] == branch_lines(*lineitem, *part, *b)[k],
        decreases lineitem.row_count - i,
    {
        let mode: u64 = lineitem.columns[14][i];
        let quantity: u64 = lineitem.columns[4][i];
        let counts: bool = (mode == air || mode == air_reg) && lineitem.columns[13][i] == deliver && !less(
            quantity,
            b.qty_lo,
        ) && !less(b.qty_hi, quantity) && parts.holds(lineitem.columns[1][i]);
        m.push(counts);
        i = i + 1;
    }
    proof {
        assert(m@ =~= branch_lines(*lineitem, *part, *b));
    }
    m
}

/// What the query comes to on the tables of a catalog.
pub open spec fn q19_result<
    F: Fn(FloatOp, u64, u64) -> u64,
    S: Fn(RowSum, &Vec<u64>, &Vec<u64>, &Vec<u64>, &Vec<usize>) -> u64,
>(f: F, s: S, catalog: Catalog, r: Result<QueryResult, Error>) -> bool {
    if !found(catalog, "lineitem"@) {
        not_found(r, no_table_text("lineitem"@))
    } else if !found(catalog, "part"@) {
        not_found(r, no_table_text("part"@))
    } else {
        q19_outcome(
            f,
            s,
            table_of(catalog, "lineitem"@),
            table_of(catalog, "part"@),
            r,
        )
    }
}

/// Evaluates the query.
pub fn execute_q19_comult<F: Fn(FloatOp, u64, u64) -> u64, S: Fn(RowSum, &Vec<u64>, &Vec<u64>, &Vec<u64>, &Vec<usize>) -> u64>(catalog: &Catalog, fpu: &F, summer: &S) -> (r: Result<QueryResult, Error>)
    requires
        is_arith(*fpu),
        is_summer(*summer),
        table_ok(*catalog, "lineitem"@, 15),
        table_ok(*catalog, "part"@, 7),
    ensures
        q19_result(*fpu, *summer, *catalog, r),
{
    let lineitem: &Table = match need(catalog, "lineitem") {
        Ok(t) => t,
        Err(e) => {
            return Err(e);
        },
    };
    let part: &Table = match need(catalog, "part") {
        Ok(t) => t,
        Err(e) => {
            return Err(e);
        },
    };
    q19_answer(lineitem, part, fpu, summer)
}

/// Evaluates the query on its tables.
pub fn q19_answer<F: Fn(FloatOp, u64, u64) -> u64, S: Fn(RowSum, &Vec<u64>, &Vec<u64>, &Vec<u64>, &Vec<usize>) -> u64>(
    lineitem: &Table,
    part: &Table,
    fpu: &F,
    summer: &S,
) -> (r: Result<QueryResult, Error>)
    requires
        is_arith(*fpu),
        is_summer(*summer),
        has_columns(*lineitem, 15),
        has_columns(*part, 7),
    ensures
        q19_outcome(*fpu, *summer, *lineitem, *part, r),
{
    let mut revenue: u64 = 0;
    let mut k: usize = 0;
    while k < 3
        invariant
            is_arith(*fpu),
            is_summer(*summer),
            has_columns(*lineitem, 15),
            has_columns(*part, 7),
            k <= 3,
            revenue == q19_revenue(*fpu, *summer, *lineitem, *part, k as int),
        decreases 3 - k,
    {
        let branch: Q19Branch = make_branch(k);
        let marks: Vec<bool> = mark_branch_lines(lineitem, part, &branch);
        let listed: Vec<usize> = list_marked(&marks);
        proof {
            assert(rows_exist(listed@, lineitem.columns@[5]@));
            assert(rows_exist(listed@, lineitem.columns@[6]@));
        }
        let partial: u64 = summer(
            RowSum::Discounted,
            &lineitem.columns[5],
            &lineitem.columns[6],
            &lineitem.columns[6],
            &listed,
        );
        revenue = fpu(FloatOp::Add, revenue, partial);
        k = k + 1;
    }
    let mut values: Vec<u64> = Vec::new();
    values.push(revenue);
    proof {
        assert(values@ =~= seq![revenue]);
    }
    let mut columns: Vec<ResultColumn> = Vec::new();
    columns.push(column("revenue", values));
    proof {
        assert(columns@.map_values(|c: ResultColumn| column_view(c)) =~= seq![
            ("revenue"@, values@),
        ]);
    }
    result(columns, 1)
}

/// Where the hashes of the three brands differ, no part belongs to two branches.
pub proof fn branches_are_disjoint(part: Table, i: int, j: int, k: int)
    requires
        0 <= j < k < 3,
        text_hash("Brand#12"@) != text_hash("Brand#23"@),
        text_hash("Brand#12"@) != text_hash("Brand#34"@),
        text_hash("Brand#23"@) != text_hash("Brand#34"@),
    ensures
        !(part_in_branch(part, q19_branch(j), i) && part_in_branch(part, q19_branch(k), i)),
{
}

} // verus!
