//! What the values of queries inside expressions say of their answers.

use crate::cell_index::{cells_seen, cells_seen_are_row_cells, numbered, numbered_key};
use crate::error::Fail;
use crate::float_bits::FloatOp;
use crate::row_sums::RowSum;
use crate::sql::agg::group_value;
use crate::sql::ast::{ColType, Expr2, SelectQuery2};
use crate::sql::correl::{exists_key, exists_pairs};
use crate::sql::engine::{answered_at, env_at, nested_at, Engine};
use crate::sql::eval::{value_of, Env};
use crate::sql::exec_table::Held;
use crate::sql::group::members;
use crate::sql::nested::{
    existence_by_key_is_that_of_a_row, existence_by_pair_is_that_of_a_row, inner_base, inner_fit,
    inner_of, local_rows, outer_of, own_rows, tie_cells, tie_rows, tie_values, tied,
};
use crate::sql::source::result_type;
use crate::sql::value::{is_true, to_cell, vals_eq, Val};
use crate::word::word_signed;
use vstd::prelude::*;

verus! {

/// A truth value as a query gives it.
pub open spec fn yes_or_no(b: bool) -> Val {
    if b {
        Val::Int(1)
    } else {
        Val::Int(0)
    }
}

/// A word is among the cells.
pub open spec fn is_among(x: u64, cells: Seq<u64>) -> bool {
    exists|i: int| 0 <= i < cells.len() && #[trigger] cells[i] == x
}

/// `x IN (query)` is true on a row exactly if the cell of `x` is among the cells of the
/// first column of the answer to the query, and `x NOT IN (query)` exactly if it is not,
/// where the query has an answer of its own.
pub proof fn in_query_means_among_its_cells<
    F: Fn(FloatOp, u64, u64) -> u64,
    P: Fn(&str) -> Option<u64>,
    T: Fn(RowSum, &Vec<u64>, &Vec<u64>, &Vec<u64>, &Vec<usize>) -> u64,
    D: Fn(u64) -> String,
>(
    m: Engine<'_, F, P, T, D>,
    depth: nat,
    outer: Option<(Held, usize)>,
    x: Expr2,
    q: SelectQuery2,
    negated: bool,
    t: Held,
    row: usize,
)
    requires
        depth > 0,
        answered_at(m, (depth - 1) as nat, None, q) matches Ok(a) && a.columns.len() > 0 && (outer is None
            || a.columns[0].1.len() > 0),
        value_of(env_at(m, (depth - 1) as nat, outer), x, t, row) is Ok,
    ensures
        nested_at(
            m,
            depth,
            outer,
            Expr2::InSubquery { expr: Box::new(x), query: Box::new(q), negated },
            t,
            row,
        ) == Ok::<Val, Fail>(
            yes_or_no(
                negated != is_among(
                    to_cell(value_of(env_at(m, (depth - 1) as nat, outer), x, t, row)->Ok_0),
                    answered_at(m, (depth - 1) as nat, None, q)->Ok_0.columns[0].1,
                ),
            ),
        ),
{
    let e = Expr2::InSubquery { expr: Box::new(x), query: Box::new(q), negated };
    let cells = answered_at(m, (depth - 1) as nat, None, q)->Ok_0.columns[0].1;
    let w = to_cell(value_of(env_at(m, (depth - 1) as nat, outer), x, t, row)->Ok_0);
    reveal_with_fuel(nested_at, 1);
    assert(is_among(w, cells) == cells.contains(w));
}

/// A query that refers to a row round it is answered for that row, and `x IN (query)` is
/// true exactly if a cell of the first column of that answer equals `x`; with `NOT`
/// exactly if none does.
pub proof fn in_query_by_row_means_an_equal_cell<
    F: Fn(FloatOp, u64, u64) -> u64,
    P: Fn(&str) -> Option<u64>,
    T: Fn(RowSum, &Vec<u64>, &Vec<u64>, &Vec<u64>, &Vec<usize>) -> u64,
    D: Fn(u64) -> String,
>(
    m: Engine<'_, F, P, T, D>,
    depth: nat,
    outer: (Held, usize),
    x: Expr2,
    q: SelectQuery2,
    negated: bool,
    t: Held,
    row: usize,
)
    requires
        depth > 0,
        match answered_at(m, (depth - 1) as nat, None, q) {
            Ok(a) => a.columns.len() == 0 || a.columns[0].1.len() == 0,
            Err(_) => true,
        },
        answered_at(m, (depth - 1) as nat, Some((t, row)), q) matches Ok(a) && a.columns.len() > 0,
        value_of(env_at(m, (depth - 1) as nat, Some(outer)), x, t, row) is Ok,
    ensures
        nested_at(
            m,
            depth,
            Some(outer),
            Expr2::InSubquery { expr: Box::new(x), query: Box::new(q), negated },
            t,
            row,
        ) == Ok::<Val, Fail>(
            yes_or_no(
                negated != (exists|i: int|
                    0 <= i < answered_at(m, (depth - 1) as nat, Some((t, row)), q)->Ok_0.columns[0].1.len() && vals_eq(
                        *m.fpu,
                        *m.reader,
                        value_of(env_at(m, (depth - 1) as nat, Some(outer)), x, t, row)->Ok_0,
                        Val::Int(
                            word_signed(
                                #[trigger] answered_at(
                                    m,
                                    (depth - 1) as nat,
                                    Some((t, row)),
                                    q,
                                )->Ok_0.columns[0].1[i],
                            ),
                        ),
                    )),
            ),
        ),
{
}

/// The expression asks whether there is a row, or whether a value is among those of a query.
pub open spec fn with_negation(e: Expr2, negated: bool) -> Expr2 {
    match e {
        Expr2::Exists { query, negated: _ } => Expr2::Exists { query, negated },
        Expr2::InSubquery { expr, query, negated: _ } => Expr2::InSubquery { expr, query, negated },
        other => other,
    }
}

/// `NOT EXISTS` and `NOT IN` are the opposite of `EXISTS` and `IN`, on every row and however
/// the query is answered.
pub proof fn negation_is_the_opposite<
    F: Fn(FloatOp, u64, u64) -> u64,
    P: Fn(&str) -> Option<u64>,
    T: Fn(RowSum, &Vec<u64>, &Vec<u64>, &Vec<u64>, &Vec<usize>) -> u64,
    D: Fn(u64) -> String,
>(m: Engine<'_, F, P, T, D>, depth: nat, outer: Option<(Held, usize)>, e: Expr2, t: Held, row: usize)
    requires
        e is Exists || e is InSubquery,
    ensures
        match nested_at(m, depth, outer, with_negation(e, false), t, row) {
            Ok(v) => nested_at(m, depth, outer, with_negation(e, true), t, row) == Ok::<Val, Fail>(
                yes_or_no(!is_true(v)),
            ) && v == yes_or_no(is_true(v)),
            Err(f) => nested_at(m, depth, outer, with_negation(e, true), t, row) == Err::<Val, Fail>(f),
        },
{
}

/// `EXISTS (query)` on a query that has to be answered for each row is true exactly if that
/// answer has a row.
pub proof fn existence_by_row_means_an_answer_with_rows<
    F: Fn(FloatOp, u64, u64) -> u64,
    P: Fn(&str) -> Option<u64>,
    T: Fn(RowSum, &Vec<u64>, &Vec<u64>, &Vec<u64>, &Vec<usize>) -> u64,
    D: Fn(u64) -> String,
>(
    m: Engine<'_, F, P, T, D>,
    depth: nat,
    outer: Option<(Held, usize)>,
    q: SelectQuery2,
    negated: bool,
    t: Held,
    row: usize,
)
    requires
        depth > 0,
        exists_key(*m.catalog, q, t) is None,
        exists_pairs(*m.catalog, q, t) is None,
        answered_at(m, (depth - 1) as nat, Some((t, row)), q) is Ok,
    ensures
        nested_at(m, depth, outer, Expr2::Exists { query: Box::new(q), negated }, t, row) == Ok::<Val, Fail>(
            yes_or_no(negated != (answered_at(m, (depth - 1) as nat, Some((t, row)), q)->Ok_0.row_count > 0)),
        ),
{
}

/// `EXISTS (query)` on a query that is tied to the row by a key is true exactly if a row of
/// the query's own table meets its own conditions and has the key.
pub proof fn existence_by_key_means_a_row_with_it<
    F: Fn(FloatOp, u64, u64) -> u64,
    P: Fn(&str) -> Option<u64>,
    T: Fn(RowSum, &Vec<u64>, &Vec<u64>, &Vec<u64>, &Vec<usize>) -> u64,
    D: Fn(u64) -> String,
>(
    m: Engine<'_, F, P, T, D>,
    depth: nat,
    outer: Option<(Held, usize)>,
    q: SelectQuery2,
    negated: bool,
    t: Held,
    row: usize,
    u: Held,
    mask: Seq<bool>,
    key: (usize, usize),
)
    requires
        depth > 0,
        exists_key(*m.catalog, q, t) == Some(key),
        inner_base(
            env_at(m, (depth - 1) as nat, outer),
            *m.catalog,
            crate::sql::engine::answers_at(m, (depth - 1) as nat),
            q,
        ) == Ok::<Held, Fail>(u),
        own_rows(env_at(m, (depth - 1) as nat, outer), q, u) == Ok::<Seq<bool>, Fail>(mask),
        0 <= u.row_count <= usize::MAX,
        key.1 < u.columns.len(),
    ensures
        nested_at(m, depth, outer, Expr2::Exists { query: Box::new(q), negated }, t, row) == Ok::<Val, Fail>(
            yes_or_no(
                negated != (exists|i: int|
                    0 <= i < u.row_count && mask[i] && #[trigger] u.columns[key.1 as int][i] == t.cell(
                        key.0 as int,
                        row as int,
                    )),
            ),
        ),
{
    existence_by_key_is_that_of_a_row(
        env_at(m, (depth - 1) as nat, outer),
        q,
        key.0,
        key.1,
        u,
        mask,
        negated,
        t,
        row,
    );
}

/// `EXISTS (query)` on a query that is tied to the row by a key and by a column that must
/// differ is true exactly if a row of the query's own table meets its own conditions, has
/// the key and differs.
pub proof fn existence_by_pair_means_a_row_that_differs<
    F: Fn(FloatOp, u64, u64) -> u64,
    P: Fn(&str) -> Option<u64>,
    T: Fn(RowSum, &Vec<u64>, &Vec<u64>, &Vec<u64>, &Vec<usize>) -> u64,
    D: Fn(u64) -> String,
>(
    m: Engine<'_, F, P, T, D>,
    depth: nat,
    outer: Option<(Held, usize)>,
    q: SelectQuery2,
    negated: bool,
    t: Held,
    row: usize,
    u: Held,
    mask: Seq<bool>,
    by: (usize, usize, usize, usize),
)
    requires
        depth > 0,
        exists_key(*m.catalog, q, t) is None,
        exists_pairs(*m.catalog, q, t) == Some(by),
        inner_base(
            env_at(m, (depth - 1) as nat, outer),
            *m.catalog,
            crate::sql::engine::answers_at(m, (depth - 1) as nat),
            q,
        ) == Ok::<Held, Fail>(u),
        own_rows(env_at(m, (depth - 1) as nat, outer), q, u) == Ok::<Seq<bool>, Fail>(mask),
        0 <= u.row_count <= usize::MAX,
        by.1 < u.columns.len(),
        by.3 < u.columns.len(),
    ensures
        nested_at(m, depth, outer, Expr2::Exists { query: Box::new(q), negated }, t, row) == Ok::<Val, Fail>(
            yes_or_no(
                negated != (exists|i: usize|
                    i < u.row_count && mask[i as int] && #[trigger] u.columns[by.1 as int][i as int] == t.cell(
                        by.0 as int,
                        row as int,
                    ) && u.columns[by.3 as int][i as int] != t.cell(by.2 as int, row as int)),
            ),
        ),
{
    existence_by_pair_is_that_of_a_row(env_at(m, (depth - 1) as nat, outer), q, by, u, mask, negated, t, row);
}

/// A query that is one value, and has an answer of its own, is the first cell of its first
/// column on every row: a double or a signed integer, as the column is read.
pub proof fn value_of_query_is_its_first_cell<
    F: Fn(FloatOp, u64, u64) -> u64,
    P: Fn(&str) -> Option<u64>,
    T: Fn(RowSum, &Vec<u64>, &Vec<u64>, &Vec<u64>, &Vec<usize>) -> u64,
    D: Fn(u64) -> String,
>(
    m: Engine<'_, F, P, T, D>,
    depth: nat,
    outer: Option<(Held, usize)>,
    q: SelectQuery2,
    t: Held,
    row: usize,
)
    requires
        depth > 0,
        answered_at(m, (depth - 1) as nat, None, q) matches Ok(a) && a.columns.len() > 0 && a.columns[0].1.len() > 0,
    ensures
        ({
            let first = answered_at(m, (depth - 1) as nat, None, q)->Ok_0.columns[0];
            nested_at(m, depth, outer, Expr2::Subquery(Box::new(q)), t, row) == Ok::<Val, Fail>(
                if result_type(first.0, first.1) == ColType::Float {
                    Val::Float(first.1[0])
                } else {
                    Val::Int(word_signed(first.1[0]))
                },
            )
        }),
{
}

/// The first `n` rows of a table that count and agree with a row of another table in every
/// pair of columns.
pub open spec fn tied_rows(
    u: Held,
    mask: Seq<bool>,
    pairs: Seq<(usize, usize)>,
    t: Held,
    row: int,
    n: nat,
) -> Seq<usize>
    decreases n,
{
    if n == 0 {
        Seq::empty()
    } else {
        let before = tied_rows(u, mask, pairs, t, row, (n - 1) as nat);
        if mask[n - 1] && ties_agree(u, n - 1, pairs, t, row) {
            before.push((n - 1) as usize)
        } else {
            before
        }
    }
}

/// A row of one table agrees with a row of another in every pair of columns.
pub open spec fn ties_agree(u: Held, i: int, pairs: Seq<(usize, usize)>, t: Held, row: int) -> bool {
    forall|k: int|
        0 <= k < pairs.len() ==> u.cell((#[trigger] pairs[k]).1 as int, i) == t.cell(pairs[k].0 as int, row)
}

proof fn lemma_ties_agree(u: Held, i: int, pairs: Seq<(usize, usize)>, t: Held, row: int)
    ensures
        ties_agree(u, i, pairs, t, row) <==> tie_cells(u, inner_of(pairs), i) == tie_cells(t, outer_of(pairs), row),
{
    let x = tie_cells(u, inner_of(pairs), i);
    let y = tie_cells(t, outer_of(pairs), row);
    if ties_agree(u, i, pairs, t, row) {
        assert forall|k: int| 0 <= k < x.len() implies x[k] == y[k] by {
            assert(u.cell(pairs[k].1 as int, i) == t.cell(pairs[k].0 as int, row));
        }
        assert(x =~= y);
    }
    if x == y {
        assert forall|k: int| 0 <= k < pairs.len() implies u.cell((#[trigger] pairs[k]).1 as int, i) == t.cell(
            pairs[k].0 as int,
            row,
        ) by {
            assert(x[k] == y[k]);
        }
    }
}

proof fn lemma_tied_members(
    u: Held,
    mask: Seq<bool>,
    pairs: Seq<(usize, usize)>,
    t: Held,
    row: int,
    n: nat,
)
    requires
        n <= u.row_count <= usize::MAX,
        cells_seen(tie_rows(u, mask, inner_of(pairs)), u.row_count).contains(tie_cells(t, outer_of(pairs), row)),
    ensures
        ({
            let rows = tie_rows(u, mask, inner_of(pairs));
            let seen = cells_seen(rows, u.row_count);
            let g = seen.index_of(tie_cells(t, outer_of(pairs), row));
            members(numbered(rows), numbered_key(g), n as int) == tied_rows(u, mask, pairs, t, row, n)
        }),
    decreases n,
{
    let rows = tie_rows(u, mask, inner_of(pairs));
    let seen = cells_seen(rows, u.row_count);
    let cells = tie_cells(t, outer_of(pairs), row);
    let g = seen.index_of(cells);
    assert(rows.len() == u.row_count);
    if n > 0 {
        lemma_tied_members(u, mask, pairs, t, row, (n - 1) as nat);
        lemma_ties_agree(u, n - 1, pairs, t, row);
        cells_seen_are_row_cells(rows, u.row_count, cells);
        if mask[n - 1] {
            let here = tie_cells(u, inner_of(pairs), n - 1);
            assert(rows[n - 1] == Some(here));
            cells_seen_are_row_cells(rows, u.row_count, here);
            assert(seen.contains(here));
            assert(seen[seen.index_of(here)] == here);
            assert(seen[g] == cells);
            assert(seen.len() <= usize::MAX);
        }
    }
}

proof fn lemma_tie_values<F: Fn(FloatOp, u64, u64) -> u64, P: Fn(&str) -> Option<u64>>(
    c: Env<F, P>,
    e: Expr2,
    u: Held,
    rows: Seq<Option<Seq<u64>>>,
    n: nat,
    g: int,
)
    requires
        0 <= g < n,
        tie_values(c, e, u, rows, n) is Ok,
    ensures
        tie_values(c, e, u, rows, n)->Ok_0.len() == n,
        group_value(c, e, u, members(numbered(rows), numbered_key(g), rows.len() as int)) == Ok::<Val, Fail>(
            tie_values(c, e, u, rows, n)->Ok_0[g],
        ),
    decreases n,
{
    if n == 1 {
        assert(tie_values(c, e, u, rows, 0) == Ok::<Seq<Val>, Fail>(Seq::empty()));
    } else if g < n - 1 {
        lemma_tie_values(c, e, u, rows, (n - 1) as nat, g);
    } else {
        lemma_tie_values(c, e, u, rows, (n - 1) as nat, 0);
    }
}

/// A query that is one value for the rows tied to a row has the value of its item over
/// exactly those rows of its own table that meet its own conditions and agree with the row
/// in every tie; it is nothing where there is none.
pub proof fn tied_value_is_that_of_the_rows_that_agree<
    F: Fn(FloatOp, u64, u64) -> u64,
    P: Fn(&str) -> Option<u64>,
    T: Fn(RowSum, &Vec<u64>, &Vec<u64>, &Vec<u64>, &Vec<usize>) -> u64,
    D: Fn(u64) -> String,
>(
    m: Engine<'_, F, P, T, D>,
    depth: nat,
    outer: Option<(Held, usize)>,
    q: SelectQuery2,
    t: Held,
    row: usize,
    u: Held,
    mask: Seq<bool>,
    pairs: Seq<(usize, usize)>,
)
    requires
        depth > 0,
        answered_at(m, (depth - 1) as nat, None, q) is Err,
        tied(*m.catalog, q, t) == Some(pairs),
        inner_base(
            env_at(m, (depth - 1) as nat, outer),
            *m.catalog,
            crate::sql::engine::answers_at(m, (depth - 1) as nat),
            q,
        ) == Ok::<Held, Fail>(u),
        inner_fit(pairs, u),
        local_rows(env_at(m, (depth - 1) as nat, outer), *m.catalog, q, u) == Ok::<Seq<bool>, Fail>(mask),
        0 <= u.row_count <= usize::MAX,
    ensures
        nested_at(m, depth, outer, Expr2::Subquery(Box::new(q)), t, row) matches Ok(v) ==> {
            let rows = tied_rows(u, mask, pairs, t, row as int, u.row_count as nat);
            if rows.len() == 0 {
                v == Val::Null
            } else {
                group_value(env_at(m, (depth - 1) as nat, outer), q.select@[0].expr, u, rows) == Ok::<Val, Fail>(v)
            }
        },
{
    let c = env_at(m, (depth - 1) as nat, outer);
    let rows = tie_rows(u, mask, inner_of(pairs));
    let seen = cells_seen(rows, rows.len() as int);
    let cells = tie_cells(t, outer_of(pairs), row as int);
    assert(rows.len() == u.row_count);
    cells_seen_are_row_cells(rows, u.row_count, cells);
    match tie_values(c, q.select@[0].expr, u, rows, seen.len()) {
        Ok(values) => {
            if seen.contains(cells) {
                let g = seen.index_of(cells);
                lemma_tie_values(c, q.select@[0].expr, u, rows, seen.len(), g);
                lemma_tied_members(u, mask, pairs, t, row as int, u.row_count as nat);
                let i = choose|i: int| 0 <= i < u.row_count && #[trigger] rows[i] == Some(cells);
                lemma_ties_agree(u, i, pairs, t, row as int);
                lemma_tied_has(u, mask, pairs, t, row as int, u.row_count as nat, i);
            } else {
                lemma_tied_none(u, mask, pairs, t, row as int, u.row_count as nat);
            }
        },
        Err(_) => {},
    }
}

proof fn lemma_tied_has(u: Held, mask: Seq<bool>, pairs: Seq<(usize, usize)>, t: Held, row: int, n: nat, i: int)
    requires
        0 <= i < n,
        mask[i],
        ties_agree(u, i, pairs, t, row),
    ensures
        tied_rows(u, mask, pairs, t, row, n).len() > 0,
    decreases n,
{
    if i < n - 1 {
        lemma_tied_has(u, mask, pairs, t, row, (n - 1) as nat, i);
    }
}

proof fn lemma_tied_none(u: Held, mask: Seq<bool>, pairs: Seq<(usize, usize)>, t: Held, row: int, n: nat)
    requires
        n <= u.row_count <= usize::MAX,
        !cells_seen(tie_rows(u, mask, inner_of(pairs)), u.row_count).contains(tie_cells(t, outer_of(pairs), row)),
    ensures
        tied_rows(u, mask, pairs, t, row, n).len() == 0,
    decreases n,
{
    if n > 0 {
        lemma_tied_none(u, mask, pairs, t, row, (n - 1) as nat);
        lemma_ties_agree(u, n - 1, pairs, t, row);
        let rows = tie_rows(u, mask, inner_of(pairs));
        let cells = tie_cells(t, outer_of(pairs), row);
        assert(rows.len() == u.row_count);
        cells_seen_are_row_cells(rows, u.row_count, cells);
        if mask[n - 1] && ties_agree(u, n - 1, pairs, t, row) {
            assert(rows[n - 1] == Some(cells));
        }
    }
}

} // verus!
