//! Yearly revenue lost if small orders of one kind of part were not taken.

use crate::error::Error;
use crate::float_bits::{arith, float_lt, is_arith, less, FloatOp};
use crate::group_index::{row_of_key, GroupIndex, Key, RowIndex};
use crate::hashing::{hash_text, text_hash};
use crate::table::{column_view, Catalog, QueryResult, ResultColumn, Table};
use crate::tpch::sums::{block_sum, count_at, group_keys, index_counts, key_count, or_zero, sum_block, Term};
use crate::tpch::support::{
    answers, col, column, found, has_columns, has_part, need, no_table_text, not_found, result, table_of, table_ok,
    text_has,
};
use vstd::prelude::*;

verus! {

/// Whether a query text is this query.
pub open spec fn q17_text(sql: Seq<char>) -> bool {
    has_part(sql, "avg_yearly"@) && has_part(sql, "0.2 * avg(l_quantity)"@) && has_part(sql, "Brand#23"@) && has_part(sql, "MED BOX"@)
}

pub fn is_q17(sql: &str) -> (b: bool)
    ensures
        b == q17_text(sql@),
{
    text_has(sql, "avg_yearly") && text_has(sql, "0.2 * avg(l_quantity)") && text_has(sql, "Brand#23") && text_has(sql, "MED BOX")
}

/// The bit pattern of `0.2`.
pub const FIFTH_BITS: u64 = 0x3FC9_9999_9999_999A;

/// The bit pattern of `7`.
pub const SEVEN_BITS: u64 = 0x401C_0000_0000_0000;

/// Marks of the parts of the brand and container.
pub open spec fn boxed_parts(part: Table) -> Seq<bool> {
    Seq::new(
        part.row_count as nat,
        |i: int| col(part, 3)[i] == text_hash("Brand#23"@) && col(part, 6)[i] == text_hash("MED BOX"@),
    )
}

/// A line of such a part, with its quantity.
pub open spec fn q17_line(part: Table, lineitem: Table, i: int) -> Term {
    if row_of_key(col(part, 0), boxed_parts(part), col(lineitem, 1)[i]) is Some {
        Some(((col(lineitem, 1)[i], 0u64, 0u64), col(lineitem, 4)[i]))
    } else {
        None
    }
}

pub open spec fn q17_lines(part: Table, lineitem: Table) -> Seq<Term> {
    Seq::new(lineitem.row_count as nat, |i: int| q17_line(part, lineitem, i))
}

/// A fifth of the average quantity of a part.
pub open spec fn small_quantity<F: Fn(FloatOp, u64, u64) -> u64>(f: F, lines: Seq<Term>, k: Key) -> u64 {
    let n = lines.len() as int;
    arith(
        f,
        FloatOp::Div,
        arith(f, FloatOp::Mul, FIFTH_BITS, or_zero(block_sum(f, lines, k, 0, n))),
        arith(f, FloatOp::FromU64, key_count(lines, k, n) as u64, 0),
    )
}

/// A line of small quantity, with its price.
pub open spec fn q17_small_line<F: Fn(FloatOp, u64, u64) -> u64>(
    f: F,
    lines: Seq<Term>,
    lineitem: Table,
    i: int,
) -> Term {
    match lines[i] {
        Some((k, quantity)) => if float_lt(quantity, small_quantity(f, lines, k)) {
            Some((k, col(lineitem, 5)[i]))
        } else {
            None
        },
        None => None,
    }
}

pub open spec fn q17_small_lines<F: Fn(FloatOp, u64, u64) -> u64>(f: F, lines: Seq<Term>, lineitem: Table) -> Seq<Term> {
    Seq::new(lines.len(), |i: int| q17_small_line(f, lines, lineitem, i))
}

/// The revenue of small lines, part after part as the parts come.
pub open spec fn small_revenue<F: Fn(FloatOp, u64, u64) -> u64>(
    f: F,
    small: Seq<Term>,
    parts: Seq<Key>,
    n: int,
) -> u64
    decreases n,
{
    if n <= 0 {
        0
    } else {
        arith(
            f,
            FloatOp::Add,
            small_revenue(f, small, parts, n - 1),
            or_zero(block_sum(f, small, parts[n - 1], 0, small.len() as int)),
        )
    }
}

/// The answer.
pub open spec fn q17_outcome<F: Fn(FloatOp, u64, u64) -> u64>(
    f: F,
    part: Table,
    lineitem: Table,
    r: Result<QueryResult, Error>,
) -> bool {
    let lines = q17_lines(part, lineitem);
    let parts = group_keys(lines);
    let small = q17_small_lines(f, lines, lineitem);
    answers(
        r,
        seq![
            (
                "avg_yearly"@,
                seq![arith(f, FloatOp::Div, small_revenue(f, small, parts, parts.len() as int), SEVEN_BITS)],
            ),
        ],
        1,
    )
}

/// The sum of a key in a run that was added up.
fn run_sum_at<F: Fn(FloatOp, u64, u64) -> u64>(
    groups: &GroupIndex,
    sums: &Vec<u64>,
    key: Key,
    fpu: &F,
    Ghost(rows): Ghost<Seq<Term>>,
) -> (s: u64)
    requires
        groups.wf(),
        sums.len() == groups@.len(),
        forall|k: Key| #[trigger] groups@.contains(k) <==> block_sum(*fpu, rows, k, 0, rows.len() as int) is Some,
        forall|g: int|
            0 <= g < sums.len() ==> block_sum(*fpu, rows, #[trigger] groups@[g], 0, rows.len() as int) == Some(sums@[g]),
    ensures
        s == or_zero(block_sum(*fpu, rows, key, 0, rows.len() as int)),
{
    match groups.find(key) {
        Some(q) => {
            assert(block_sum(*fpu, rows, groups@[q as int], 0, rows.len() as int) == Some(sums@[q as int]));
            sums[q]
        },
        None => {
            assert(!groups@.contains(key));
            0
        },
    }
}

/// What the query comes to on the tables of a catalog.
pub open spec fn q17_result<F: Fn(FloatOp, u64, u64) -> u64>(f: F, catalog: Catalog, r: Result<QueryResult, Error>) -> bool {
    if !found(catalog, "part"@) {
        not_found(r, no_table_text("part"@))
    } else if !found(catalog, "lineitem"@) {
        not_found(r, no_table_text("lineitem"@))
    } else {
        q17_outcome(
            f,
            table_of(catalog, "part"@),
            table_of(catalog, "lineitem"@),
            r,
        )
    }
}

/// Evaluates the query.
pub fn execute_q17_reformulated<F: Fn(FloatOp, u64, u64) -> u64>(catalog: &Catalog, fpu: &F) -> (r: Result<QueryResult, Error>)
    requires
        is_arith(*fpu),
        table_ok(*catalog, "part"@, 7),
        table_ok(*catalog, "lineitem"@, 6),
    ensures
        q17_result(*fpu, *catalog, r),
{
    let part: &Table = match need(catalog, "part") {
        Ok(t) => t,
        Err(e) => {
            return Err(e);
        },
    };
    let lineitem: &Table = match need(catalog, "lineitem") {
        Ok(t) => t,
        Err(e) => {
            return Err(e);
        },
    };
    q17_answer(part, lineitem, fpu)
}

/// Evaluates the query on its tables.
pub fn q17_answer<F: Fn(FloatOp, u64, u64) -> u64>(
    part: &Table,
    lineitem: &Table,
    fpu: &F,
) -> (r: Result<QueryResult, Error>)
    requires
        is_arith(*fpu),
        has_columns(*part, 7),
        has_columns(*lineitem, 6),
    ensures
        q17_outcome(*fpu, *part, *lineitem, r),
{
    let brand: u64 = hash_text("Brand#23");
    let container: u64 = hash_text("MED BOX");
    let mut part_marks: Vec<bool> = Vec::new();
    let mut j: usize = 0;
    while j < part.row_count
        invariant
            has_columns(*part, 7),
            brand == text_hash("Brand#23"@),
            container == text_hash("MED BOX"@),
            j <= part.row_count,
            part_marks.len() == j,
            forall|k: int| 0 <= k < j ==> #[trigger] part_marks@[k] == boxed_parts(*part)[k],
        decreases part.row_count - j,
    {
        part_marks.push(part.columns[3][j] == brand && part.columns[6][j] == container);
        j = j + 1;
    }
    proof {
        assert(part_marks@ =~= boxed_parts(*part));
    }
    let parts: RowIndex = RowIndex::build(&part.columns[0], &part_marks);
    let mut lines: Vec<Term> = Vec::new();
    let n: usize = lineitem.row_count;
    let mut i: usize = 0;
    while i < n
        invariant
            has_columns(*lineitem, 6),
            n == lineitem.row_count,
            i <= n,
            parts.wf(),
            parts.keys() == col(*part, 0),
            parts.marks() == boxed_parts(*part),
            lines.len() == i,
            forall|k: int| 0 <= k < i ==> #[trigger] lines@[k] == q17_line(*part, *lineitem, k),
        decreases n - i,
    {
        let pk: u64 = lineitem.columns[1][i];
        if parts.holds(pk) {
            lines.push(Some(((pk, 0, 0), lineitem.columns[4][i])));
        } else {
            lines.push(None);
        }
        i = i + 1;
    }
    proof {
        assert(lines@ =~= q17_lines(*part, *lineitem));
    }
    let (groups, counts): (GroupIndex, Vec<u64>) = index_counts(&lines);
    let (quantity_groups, quantities): (GroupIndex, Vec<u64>) = sum_block(&lines, 0, n, fpu);
    let mut small: Vec<Term> = Vec::new();
    let mut q: usize = 0;
    while q < n
        invariant
            is_arith(*fpu),
            has_columns(*lineitem, 6),
            n == lineitem.row_count,
            lines.len() == n,
            groups.wf(),
            counts.len() == groups@.len(),
            forall|k: Key| !#[trigger] groups@.contains(k) ==> key_count(lines@, k, lines@.len() as int) == 0,
            forall|g: int|
                0 <= g < groups@.len() ==> counts@[g] == key_count(lines@, #[trigger] groups@[g], lines@.len() as int),
            quantity_groups.wf(),
            quantities.len() == quantity_groups@.len(),
            forall|k: Key| #[trigger]
                quantity_groups@.contains(k) <==> block_sum(*fpu, lines@, k, 0, lines@.len() as int) is Some,
            forall|g: int|
                0 <= g < quantities.len() ==> block_sum(
                    *fpu,
                    lines@,
                    #[trigger] quantity_groups@[g],
                    0,
                    lines@.len() as int,
                ) == Some(quantities@[g]),
            q <= n,
            small.len() == q,
            forall|k: int| 0 <= k < q ==> #[trigger] small@[k] == q17_small_line(*fpu, lines@, *lineitem, k),
        decreases n - q,
    {
        match lines[q] {
            Some((key, quantity)) => {
                let sum: u64 = run_sum_at(&quantity_groups, &quantities, key, fpu, Ghost(lines@));
                let count: u64 = count_at(&groups, &counts, key, Ghost(lines@));
                let fifth: u64 = fpu(FloatOp::Mul, FIFTH_BITS, sum);
                let number: u64 = fpu(FloatOp::FromU64, count, 0);
                let limit: u64 = fpu(FloatOp::Div, fifth, number);
                if less(quantity, limit) {
                    small.push(Some((key, lineitem.columns[5][q])));
                } else {
                    small.push(None);
                }
            },
            None => {
                small.push(None);
            },
        }
        q = q + 1;
    }
    proof {
        assert(small@ =~= q17_small_lines(*fpu, lines@, *lineitem));
    }
    let (small_groups, small_sums): (GroupIndex, Vec<u64>) = sum_block(&small, 0, n, fpu);
    let mut total: u64 = 0;
    let mut g: usize = 0;
    while g < groups.len()
        invariant
            is_arith(*fpu),
            small.len() == n,
            small_groups.wf(),
            small_sums.len() == small_groups@.len(),
            forall|k: Key| #[trigger]
                small_groups@.contains(k) <==> block_sum(*fpu, small@, k, 0, small@.len() as int) is Some,
            forall|h: int|
                0 <= h < small_sums.len() ==> block_sum(
                    *fpu,
                    small@,
                    #[trigger] small_groups@[h],
                    0,
                    small@.len() as int,
                ) == Some(small_sums@[h]),
            g <= groups@.len(),
            total == small_revenue(*fpu, small@, groups@, g as int),
        decreases groups@.len() - g,
    {
        let part_sum: u64 = run_sum_at(&small_groups, &small_sums, groups.key(g), fpu, Ghost(small@));
        total = fpu(FloatOp::Add, total, part_sum);
        g = g + 1;
    }
    let mut values: Vec<u64> = Vec::new();
    values.push(fpu(FloatOp::Div, total, SEVEN_BITS));
    proof {
        assert(values@ =~= seq![arith(*fpu, FloatOp::Div, total, SEVEN_BITS)]);
    }
    let mut columns: Vec<ResultColumn> = Vec::new();
    columns.push(column("avg_yearly", values));
    proof {
        assert(columns@.map_values(|c: ResultColumn| column_view(c)) =~= seq![
            ("avg_yearly"@, values@),
        ]);
    }
    result(columns, 1)
}

} // verus!
