//! Values of queries inside expressions. Most are found once for all rows: the
//! query is answered alone, or its rows are listed by the columns that tie it to
//! the query round it.

use crate::cell_index::{cells_seen, number_rows, numbered, numbered_key, row_cells, CellIndex};
use crate::error::{Error, Fail};
use crate::float_bits::FloatOp;
use crate::group_index::{GroupIndex, Key};
use crate::sql::agg::{eval_agg_expr, group_value, vals_of};
use crate::sql::ast::{BinOp2, Expr2, SelectQuery2};
use crate::sql::correl::{
    correlation_columns, cross_pair, exists_key, exists_pairs, find_correlation_cols, find_cross_pair,
    find_exists_equi_join, find_exists_multi_col, inner_columns, inner_names, is_conjunct_correlated,
    is_conjunct_correlated_wrt_inner, list_inner_columns, list_inner_names, reaches_out, reaches_outside, texts_of,
};
use crate::sql::dp::{join_plan, plan_join_dp};
use crate::sql::eval::{ctx_ok, eval, flipped, outcome, outer_held, value_of, Ctx, Env};
use crate::sql::exec_table::{all_held, copy_cells, table_outcome, ExecTable, Held};
use crate::sql::group::{groups_partition_rows, index_rows, lemma_members_exist, members};
use crate::sql::masks::mask_outcome;
use crate::sql::planning::{conjuncts, split_conjuncts};
use crate::sql::query::{answerer_ok, catalog_ok, mask_by, narrowed_by, resolve_all, sources, Answerer, Answers};
use crate::sql::shape::{expr_has_agg, has_aggregate, referents};
use crate::sql::source::{answer_outcome, scalar_of, scalar_value, Rows};
use crate::sql::totals::rows_in;
use crate::sql::value::{equal_values, to_cell, truth_value, vals_eq, Val, Value2};
use crate::table::{Catalog, QueryResult};
use crate::tpch::support::take_rows;
use crate::tpch::sums::{group_keys, keys_seen_are_row_keys, row_has, Term};
use crate::word::{signed_of, word_signed};
use vstd::prelude::*;

verus! {

/// The table that the tables of a query inside an expression make, with all its
/// rows.
pub open spec fn inner_base<F: Fn(FloatOp, u64, u64) -> u64, P: Fn(&str) -> Option<u64>>(
    c: Env<F, P>,
    catalog: Catalog,
    g: Answers,
    q: SelectQuery2,
) -> Result<Held, Fail> {
    match sources(catalog, g, c.outer, q.from@, q.from@.len()) {
        Err(f) => Err(f),
        Ok(ts) => if ts.len() == 1 {
            Ok(ts[0])
        } else {
            join_plan(c, ts, conjuncts(q.where_clause))
        },
    }
}

fn find_inner_base<
    F: Fn(FloatOp, u64, u64) -> u64,
    P: Fn(&str) -> Option<u64>,
    S: Fn(&Expr2, &ExecTable, usize) -> Result<Value2, Error>,
    N: Fn(&SelectQuery2, Option<(&ExecTable, usize)>) -> Result<QueryResult, Error>,
>(c: &Ctx<'_, F, P, S>, catalog: &Catalog, answerer: &Answerer<'_, N>, q: &SelectQuery2) -> (r: Result<
    ExecTable,
    Error,
>)
    requires
        ctx_ok(*c),
        catalog_ok(*catalog),
        answerer_ok(*answerer),
    ensures
        table_outcome(r) == inner_base(c@, *catalog, answerer@, *q),
        r matches Ok(t) ==> t.wf(),
{
    match resolve_all(catalog, answerer, c.outer, &q.from) {
        Ok(ts) => {
            let mut tables: Vec<ExecTable> = ts;
            if tables.len() == 1 {
                proof {
                    assert(all_held(tables@)[0] == tables@[0]@);
                }
                Ok(tables.remove(0))
            } else {
                plan_join_dp(c, tables, &q.where_clause)
            }
        },
        Err(e) => Err(e),
    }
}

/// The conditions among the first `n` that need no more than a table.
pub open spec fn own_conditions(es: Seq<Expr2>, t: Held, n: nat) -> Seq<Expr2>
    decreases n,
{
    if n == 0 {
        Seq::empty()
    } else {
        let before = own_conditions(es, t, (n - 1) as nat);
        if reaches_outside(es[n - 1], t) {
            before
        } else {
            before.push(es[n - 1])
        }
    }
}

fn pick_own<'a>(es: &Vec<&'a Expr2>, t: &ExecTable) -> (out: Vec<&'a Expr2>)
    ensures
        referents(out@) == own_conditions(referents(es@), t@, es@.len()),
{
    let mut out: Vec<&'a Expr2> = Vec::new();
    let mut n: usize = 0;
    proof {
        assert(referents(out@) =~= own_conditions(referents(es@), t@, 0));
    }
    while n < es.len()
        invariant
            n <= es@.len(),
            referents(out@) == own_conditions(referents(es@), t@, n as nat),
        decreases es.len() - n,
    {
        proof {
            assert(referents(es@)[n as int] == *es@[n as int]);
        }
        let ghost before = out@;
        if !is_conjunct_correlated(es[n], t) {
            out.push(es[n]);
            proof {
                assert(referents(out@) =~= referents(before).push(*es@[n as int]));
            }
        }
        n = n + 1;
    }
    out
}

/// The rows of a table that pass the conditions of a query which need no more.
pub open spec fn own_rows<
    F: Fn(FloatOp, u64, u64) -> u64,
    P: Fn(&str) -> Option<u64>,
>(c: Env<F, P>, q: SelectQuery2, t: Held) -> Result<Seq<bool>, Fail> {
    let es = conjuncts(q.where_clause);
    let own = own_conditions(es, t, es.len());
    narrowed_by(c, own, t, own.len())
}

fn mask_own<
    F: Fn(FloatOp, u64, u64) -> u64,
    P: Fn(&str) -> Option<u64>,
    S: Fn(&Expr2, &ExecTable, usize) -> Result<Value2, Error>,
>(c: &Ctx<'_, F, P, S>, q: &SelectQuery2, t: &ExecTable) -> (r: Result<Vec<bool>, Error>)
    requires
        ctx_ok(*c),
        t.wf(),
    ensures
        mask_outcome(r) == own_rows(c@, *q, t@),
        r matches Ok(m) ==> m@.len() == t.row_count,
{
    let es: Vec<&Expr2> = split_conjuncts(&q.where_clause);
    proof {
        assert(es@.len() == referents(es@).len());
    }
    let own: Vec<&Expr2> = pick_own(&es, t);
    proof {
        assert(own@.len() == referents(own@).len());
    }
    mask_by(c, &own, t)
}

/// The marked rows of a table by the cells of a column.
pub open spec fn lines_by_cell(t: Held, mask: Seq<bool>, col: int) -> Seq<Term> {
    Seq::new(
        t.row_count as nat,
        |i: int|
            if mask[i] {
                Some(((t.columns[col][i], 0u64, 0u64), 0u64))
            } else {
                None
            },
    )
}

fn list_by_cell(t: &ExecTable, mask: &Vec<bool>, col: usize) -> (lines: Vec<Term>)
    requires
        t.wf(),
        mask@.len() == t.row_count,
        col < t.columns.len(),
    ensures
        lines@ == lines_by_cell(t@, mask@, col as int),
{
    let mut lines: Vec<Term> = Vec::new();
    let mut i: usize = 0;
    while i < t.row_count
        invariant
            t.wf(),
            mask@.len() == t.row_count,
            col < t.columns.len(),
            i <= t.row_count,
            lines@.len() == i,
            forall|k: int| 0 <= k < i ==> #[trigger] lines@[k] == lines_by_cell(t@, mask@, col as int)[k],
        decreases t.row_count - i,
    {
        proof {
            assert(t.columns@[col as int].len() == t.row_count);
        }
        if mask[i] {
            lines.push(Some(((t.columns[col][i], 0, 0), 0)));
        } else {
            lines.push(None);
        }
        i = i + 1;
    }
    proof {
        assert(lines@ =~= lines_by_cell(t@, mask@, col as int));
    }
    lines
}

/// The cells of a row in the columns that tie two queries.
pub open spec fn tie_cells(t: Held, cols: Seq<usize>, row: int) -> Seq<u64> {
    Seq::new(cols.len(), |k: int| t.cell(cols[k] as int, row))
}

fn list_tie(t: &ExecTable, cols: &Vec<usize>, row: usize) -> (cells: Vec<u64>)
    requires
        forall|i: int| 0 <= i < cols@.len() ==> #[trigger] cols@[i] < t.columns.len(),
    ensures
        cells@ == tie_cells(t@, cols@, row as int),
{
    let mut cells: Vec<u64> = Vec::new();
    let mut n: usize = 0;
    while n < cols.len()
        invariant
            forall|i: int| 0 <= i < cols@.len() ==> #[trigger] cols@[i] < t.columns.len(),
            n <= cols@.len(),
            cells@.len() == n,
            forall|k: int| 0 <= k < n ==> #[trigger] cells@[k] == t@.cell(cols@[k] as int, row as int),
        decreases cols.len() - n,
    {
        cells.push(cell_at(t, cols[n], row));
        n = n + 1;
    }
    proof {
        assert(cells@ =~= tie_cells(t@, cols@, row as int));
    }
    cells
}

fn cell_at(t: &ExecTable, col: usize, row: usize) -> (v: u64)
    requires
        col < t.columns.len(),
    ensures
        v == t@.cell(col as int, row as int),
{
    if row < t.columns[col].len() {
        t.columns[col][row]
    } else {
        0
    }
}

/// The marked rows of a table by the cells of the columns that tie two queries.
pub open spec fn tie_rows(t: Held, mask: Seq<bool>, cols: Seq<usize>) -> Seq<Option<Seq<u64>>> {
    Seq::new(
        t.row_count as nat,
        |i: int|
            if mask[i] {
                Some(tie_cells(t, cols, i))
            } else {
                None
            },
    )
}

fn list_by_tie(t: &ExecTable, mask: &Vec<bool>, cols: &Vec<usize>) -> (rows: Vec<Option<Vec<u64>>>)
    requires
        t.wf(),
        mask@.len() == t.row_count,
        forall|i: int| 0 <= i < cols@.len() ==> #[trigger] cols@[i] < t.columns.len(),
    ensures
        row_cells(rows@) == tie_rows(t@, mask@, cols@),
{
    let ghost want = tie_rows(t@, mask@, cols@);
    let mut rows: Vec<Option<Vec<u64>>> = Vec::new();
    let mut i: usize = 0;
    while i < t.row_count
        invariant
            t.wf(),
            mask@.len() == t.row_count,
            forall|i: int| 0 <= i < cols@.len() ==> #[trigger] cols@[i] < t.columns.len(),
            want == tie_rows(t@, mask@, cols@),
            i <= t.row_count,
            rows@.len() == i,
            forall|k: int| 0 <= k < i ==> #[trigger] row_cells(rows@)[k] == want[k],
        decreases t.row_count - i,
    {
        let ghost before = rows@;
        if mask[i] {
            rows.push(Some(list_tie(t, cols, i)));
        } else {
            rows.push(None);
        }
        proof {
            assert forall|k: int| 0 <= k < i + 1 implies #[trigger] row_cells(rows@)[k] == want[k] by {
                if k < i {
                    assert(row_cells(rows@)[k] == row_cells(before)[k]);
                }
            }
        }
        i = i + 1;
    }
    proof {
        assert(row_cells(rows@) =~= want);
    }
    rows
}

/// The pairs of an outer and an inner column that the first `n` conditions equate,
/// each outer column once.
pub open spec fn ties(
    catalog: Catalog,
    q: SelectQuery2,
    es: Seq<Expr2>,
    t: Held,
    n: nat,
) -> Seq<(usize, usize)>
    decreases n,
{
    if n == 0 {
        Seq::empty()
    } else {
        let before = ties(catalog, q, es, t, (n - 1) as nat);
        match cross_pair(
            catalog,
            q.from@,
            es[n - 1],
            BinOp2::Eq,
            t,
            inner_names(q.from@, q.from@.len()),
            inner_columns(catalog, q.from@, q.from@.len()),
        ) {
            Some(Some(p)) => if has_outer(before, p.0) {
                before
            } else {
                before.push(p)
            },
            _ => before,
        }
    }
}

pub open spec fn has_outer(pairs: Seq<(usize, usize)>, x: usize) -> bool {
    exists|i: int| 0 <= i < pairs.len() && (#[trigger] pairs[i]).0 == x
}

fn find_outer_in(pairs: &Vec<(usize, usize)>, x: usize) -> (b: bool)
    ensures
        b == has_outer(pairs@, x),
{
    let mut i: usize = 0;
    while i < pairs.len()
        invariant
            i <= pairs@.len(),
            forall|k: int| 0 <= k < i ==> (#[trigger] pairs@[k]).0 != x,
        decreases pairs.len() - i,
    {
        if pairs[i].0 == x {
            return true;
        }
        i = i + 1;
    }
    false
}

/// The outer columns of the pairs are the listed columns.
pub open spec fn same_columns(cols: Seq<usize>, pairs: Seq<(usize, usize)>) -> bool {
    &&& forall|i: int| 0 <= i < cols.len() ==> has_outer(pairs, #[trigger] cols[i])
    &&& forall|i: int| 0 <= i < pairs.len() ==> cols.contains((#[trigger] pairs[i]).0)
}

fn check_columns(cols: &Vec<usize>, pairs: &Vec<(usize, usize)>) -> (b: bool)
    ensures
        b == same_columns(cols@, pairs@),
{
    let mut i: usize = 0;
    while i < cols.len()
        invariant
            i <= cols@.len(),
            forall|k: int| 0 <= k < i ==> has_outer(pairs@, #[trigger] cols@[k]),
        decreases cols.len() - i,
    {
        if !find_outer_in(pairs, cols[i]) {
            return false;
        }
        i = i + 1;
    }
    let mut j: usize = 0;
    while j < pairs.len()
        invariant
            j <= pairs@.len(),
            forall|k: int| 0 <= k < cols@.len() ==> has_outer(pairs@, #[trigger] cols@[k]),
            forall|k: int| 0 <= k < j ==> cols@.contains((#[trigger] pairs@[k]).0),
        decreases pairs.len() - j,
    {
        let mut found: bool = false;
        let mut k: usize = 0;
        while k < cols.len()
            invariant
                k <= cols@.len(),
                j < pairs@.len(),
                found == exists|w: int| 0 <= w < k && #[trigger] cols@[w] == pairs@[j as int].0,
            decreases cols.len() - k,
        {
            if cols[k] == pairs[j].0 {
                found = true;
            }
            k = k + 1;
        }
        if !found {
            proof {
                assert(!cols@.contains(pairs@[j as int].0));
            }
            return false;
        }
        j = j + 1;
    }
    true
}

/// The ties of a query that gives one aggregate over one table, if all that it
/// uses of the outer table is equated with columns of its own.
pub open spec fn tied(catalog: Catalog, q: SelectQuery2, t: Held) -> Option<Seq<(usize, usize)>> {
    let cols = correlation_columns(catalog, q, t);
    let es = conjuncts(q.where_clause);
    let pairs = ties(catalog, q, es, t, es.len());
    if q.select@.len() == 1 && has_aggregate(q.select@[0].expr) && q.having is None && q.group_by@.len() == 0
        && q.from@.len() == 1 && q.where_clause is Some && cols.len() > 0 && same_columns(cols, pairs) {
        Some(pairs)
    } else {
        None
    }
}

fn find_ties(catalog: &Catalog, q: &SelectQuery2, t: &ExecTable) -> (r: Option<Vec<(usize, usize)>>)
    requires
        catalog_ok(*catalog),
        t.wf(),
    ensures
        match r {
            Some(pairs) => tied(*catalog, *q, t@) == Some(pairs@) && forall|i: int|
                0 <= i < pairs@.len() ==> (#[trigger] pairs@[i]).0 < t.columns.len(),
            None => tied(*catalog, *q, t@) is None,
        },
{
    if q.select.len() != 1 || !expr_has_agg(&q.select[0].expr) || q.having.is_some() || q.group_by.len() != 0
        || q.from.len() != 1 || q.where_clause.is_none() {
        return None;
    }
    let cols: Vec<usize> = find_correlation_cols(catalog, q, t);
    if cols.len() == 0 {
        return None;
    }
    let columns: Vec<String> = list_inner_columns(catalog, &q.from);
    let names: Vec<String> = list_inner_names(&q.from);
    let es: Vec<&Expr2> = split_conjuncts(&q.where_clause);
    let ghost parts = conjuncts(q.where_clause);
    proof {
        assert(es@.len() == parts.len());
    }
    let mut pairs: Vec<(usize, usize)> = Vec::new();
    let mut n: usize = 0;
    while n < es.len()
        invariant
            catalog_ok(*catalog),
            t.wf(),
            parts == referents(es@),
            texts_of(columns@) == inner_columns(*catalog, q.from@, q.from@.len()),
            texts_of(names@) == inner_names(q.from@, q.from@.len()),
            n <= es@.len(),
            pairs@ == ties(*catalog, *q, parts, t@, n as nat),
            forall|i: int| 0 <= i < pairs@.len() ==> (#[trigger] pairs@[i]).0 < t.columns.len(),
        decreases es.len() - n,
    {
        proof {
            assert(parts[n as int] == *es@[n as int]);
        }
        match find_cross_pair(catalog, &q.from, es[n], BinOp2::Eq, t, &names, &columns) {
            Some(Some(p)) => {
                if !find_outer_in(&pairs, p.0) {
                    pairs.push(p);
                }
            },
            _ => {},
        }
        n = n + 1;
    }
    if check_columns(&cols, &pairs) {
        Some(pairs)
    } else {
        None
    }
}

/// The conditions among the first `n` that need no more than the inner query.
pub open spec fn local_conditions(
    es: Seq<Expr2>,
    names: Seq<Seq<char>>,
    columns: Seq<Seq<char>>,
    n: nat,
) -> Seq<Expr2>
    decreases n,
{
    if n == 0 {
        Seq::empty()
    } else {
        let before = local_conditions(es, names, columns, (n - 1) as nat);
        if reaches_out(es[n - 1], names, columns) {
            before
        } else {
            before.push(es[n - 1])
        }
    }
}

fn pick_local<'a>(es: &Vec<&'a Expr2>, names: &Vec<String>, columns: &Vec<String>) -> (out: Vec<&'a Expr2>)
    ensures
        referents(out@) == local_conditions(referents(es@), texts_of(names@), texts_of(columns@), es@.len()),
{
    let mut out: Vec<&'a Expr2> = Vec::new();
    let mut n: usize = 0;
    proof {
        assert(referents(out@) =~= local_conditions(referents(es@), texts_of(names@), texts_of(columns@), 0));
    }
    while n < es.len()
        invariant
            n <= es@.len(),
            referents(out@) == local_conditions(referents(es@), texts_of(names@), texts_of(columns@), n as nat),
        decreases es.len() - n,
    {
        proof {
            assert(referents(es@)[n as int] == *es@[n as int]);
        }
        let ghost before = out@;
        if !is_conjunct_correlated_wrt_inner(es[n], names, columns) {
            out.push(es[n]);
            proof {
                assert(referents(out@) =~= referents(before).push(*es@[n as int]));
            }
        }
        n = n + 1;
    }
    out
}

pub open spec fn local_rows<
    F: Fn(FloatOp, u64, u64) -> u64,
    P: Fn(&str) -> Option<u64>,
>(
    c: Env<F, P>,
    catalog: Catalog,
    q: SelectQuery2,
    t: Held,
) -> Result<Seq<bool>, Fail> {
    let es = conjuncts(q.where_clause);
    let own = local_conditions(
        es,
        inner_names(q.from@, q.from@.len()),
        inner_columns(catalog, q.from@, q.from@.len()),
        es.len(),
    );
    narrowed_by(c, own, t, own.len())
}

fn mask_local<
    F: Fn(FloatOp, u64, u64) -> u64,
    P: Fn(&str) -> Option<u64>,
    S: Fn(&Expr2, &ExecTable, usize) -> Result<Value2, Error>,
>(c: &Ctx<'_, F, P, S>, catalog: &Catalog, q: &SelectQuery2, t: &ExecTable) -> (r: Result<
    Vec<bool>,
    Error,
>)
    requires
        ctx_ok(*c),
        t.wf(),
    ensures
        mask_outcome(r) == local_rows(c@, *catalog, *q, t@),
        r matches Ok(m) ==> m@.len() == t.row_count,
{
    let es: Vec<&Expr2> = split_conjuncts(&q.where_clause);
    let columns: Vec<String> = list_inner_columns(catalog, &q.from);
    let names: Vec<String> = list_inner_names(&q.from);
    proof {
        assert(es@.len() == referents(es@).len());
    }
    let own: Vec<&Expr2> = pick_local(&es, &names, &columns);
    proof {
        assert(own@.len() == referents(own@).len());
    }
    mask_by(c, &own, t)
}

/// The values of an aggregate on the first `n` groups of rows.
pub open spec fn tie_values<F: Fn(FloatOp, u64, u64) -> u64, P: Fn(&str) -> Option<u64>>(
    c: Env<F, P>,
    e: Expr2,
    t: Held,
    rows: Seq<Option<Seq<u64>>>,
    n: nat,
) -> Result<Seq<Val>, Fail>
    decreases n,
{
    if n == 0 {
        Ok(Seq::empty())
    } else {
        match tie_values(c, e, t, rows, (n - 1) as nat) {
            Err(f) => Err(f),
            Ok(before) => match group_value(
                c,
                e,
                t,
                members(numbered(rows), numbered_key(n - 1), rows.len() as int),
            ) {
                Ok(v) => Ok(before.push(v)),
                Err(f) => Err(f),
            },
        }
    }
}

proof fn lemma_tie_values_fail<F: Fn(FloatOp, u64, u64) -> u64, P: Fn(&str) -> Option<u64>>(c: Env<F, P>, e: Expr2, t: Held, rows: Seq<Option<Seq<u64>>>, n: nat, m: nat)
    requires
        n <= m,
        tie_values(c, e, t, rows, n) is Err,
    ensures
        tie_values(c, e, t, rows, m) == tie_values(c, e, t, rows, n),
    decreases m - n,
{
    if n < m {
        lemma_tie_values_fail(c, e, t, rows, n + 1, m);
    }
}

/// How the values of a query inside an expression are found.
pub enum NestedPlan {
    /// It is the same on every row.
    Value(Value2),
    /// It is a value by the cells of columns.
    ByCells { cols: Vec<usize>, keys: CellIndex, values: Vec<Value2> },
    /// Rows exist if the cell of a column is a key.
    ByKey { col: usize, keys: GroupIndex },
    /// Rows exist if the cell of a column is a key with a cell that differs from
    /// another column.
    ByPair { col: usize, other: usize, keys: GroupIndex, cells: Vec<Vec<u64>> },
    /// The values are these.
    Cells(Vec<u64>),
    /// It has to be answered for each row.
    PerRow,
}

pub open spec fn cell_lists(lists: Seq<Vec<u64>>) -> Seq<Seq<u64>> {
    lists.map_values(|x: Vec<u64>| x@)
}

/// What a plan says.
pub enum Way {
    Value(Val),
    ByCells { cols: Seq<usize>, keys: Seq<Seq<u64>>, values: Seq<Val> },
    ByKey { col: usize, keys: Seq<Key> },
    ByPair { col: usize, other: usize, keys: Seq<Key>, cells: Seq<Seq<u64>> },
    Cells(Seq<u64>),
    PerRow,
}

impl View for NestedPlan {
    type V = Way;

    open spec fn view(&self) -> Way {
        match self {
            NestedPlan::Value(v) => Way::Value(v@),
            NestedPlan::ByCells { cols, keys, values } => Way::ByCells {
                cols: cols@,
                keys: keys@,
                values: vals_of(values@),
            },
            NestedPlan::ByKey { col, keys } => Way::ByKey { col: *col, keys: keys@ },
            NestedPlan::ByPair { col, other, keys, cells } => Way::ByPair {
                col: *col,
                other: *other,
                keys: keys@,
                cells: cell_lists(cells@),
            },
            NestedPlan::Cells(cells) => Way::Cells(cells@),
            NestedPlan::PerRow => Way::PerRow,
        }
    }
}

impl NestedPlan {
    /// The columns exist, and every key has what is kept for it.
    pub open spec fn wf(&self, t: Held) -> bool {
        match self {
            NestedPlan::ByCells { cols, keys, values } => keys.wf() && values@.len() == keys@.len() && forall|i: int|
                0 <= i < cols@.len() ==> #[trigger] cols@[i] < t.columns.len(),
            NestedPlan::ByKey { col, keys } => keys.wf() && *col < t.columns.len(),
            NestedPlan::ByPair { col, other, keys, cells } => keys.wf() && cells@.len() == keys@.len() && *col
                < t.columns.len() && *other < t.columns.len(),
            _ => true,
        }
    }
}

/// What planning came to.
pub open spec fn plan_outcome(r: Result<NestedPlan, Error>) -> Result<Way, Fail> {
    match r {
        Ok(p) => Ok(p@),
        Err(e) => Err(e@),
    }
}

/// What is said of an inner column that is missing.
pub open spec fn no_inner_column() -> Seq<char> {
    "inner column"@
}

pub open spec fn inner_of(pairs: Seq<(usize, usize)>) -> Seq<usize> {
    Seq::new(pairs.len(), |i: int| pairs[i].1)
}

pub open spec fn outer_of(pairs: Seq<(usize, usize)>) -> Seq<usize> {
    Seq::new(pairs.len(), |i: int| pairs[i].0)
}

/// The inner columns are columns of a table.
pub open spec fn inner_fit(pairs: Seq<(usize, usize)>, t: Held) -> bool {
    forall|i: int| 0 <= i < pairs.len() ==> (#[trigger] pairs[i]).1 < t.columns.len()
}

/// What a query with ties comes to over the table that its tables make: a value
/// for the cells of the tied columns.
pub open spec fn tied_plan<F: Fn(FloatOp, u64, u64) -> u64, P: Fn(&str) -> Option<u64>>(
    c: Env<F, P>,
    catalog: Catalog,
    q: SelectQuery2,
    pairs: Seq<(usize, usize)>,
    t: Held,
) -> Result<Way, Fail> {
    if !inner_fit(pairs, t) {
        Err(Fail::Other(no_inner_column()))
    } else {
        match local_rows(c, catalog, q, t) {
            Err(f) => Err(f),
            Ok(m) => {
                let rows = tie_rows(t, m, inner_of(pairs));
                let keys = cells_seen(rows, rows.len() as int);
                match tie_values(c, q.select@[0].expr, t, rows, keys.len()) {
                    Err(f) => Err(f),
                    Ok(values) => Ok(Way::ByCells { cols: outer_of(pairs), keys, values }),
                }
            },
        }
    }
}

/// What an `EXISTS` by a key comes to.
pub open spec fn key_plan<F: Fn(FloatOp, u64, u64) -> u64, P: Fn(&str) -> Option<u64>>(
    c: Env<F, P>,
    q: SelectQuery2,
    outer: usize,
    inner: usize,
    t: Held,
) -> Result<Way, Fail> {
    if inner >= t.columns.len() {
        Err(Fail::Other(no_inner_column()))
    } else {
        match own_rows(c, q, t) {
            Err(f) => Err(f),
            Ok(m) => Ok(Way::ByKey { col: outer, keys: group_keys(lines_by_cell(t, m, inner as int)) }),
        }
    }
}

/// The cells of a column in rows.
pub open spec fn cells_at(cells: Seq<u64>, rows: Seq<usize>) -> Seq<u64> {
    Seq::new(rows.len(), |i: int| cells[rows[i] as int])
}

/// What an `EXISTS` by a pair of columns comes to.
pub open spec fn pair_plan<F: Fn(FloatOp, u64, u64) -> u64, P: Fn(&str) -> Option<u64>>(
    c: Env<F, P>,
    q: SelectQuery2,
    by: (usize, usize, usize, usize),
    t: Held,
) -> Result<Way, Fail> {
    if by.1 >= t.columns.len() || by.3 >= t.columns.len() {
        Err(Fail::Other(no_inner_column()))
    } else {
        match own_rows(c, q, t) {
            Err(f) => Err(f),
            Ok(m) => {
                let lines = lines_by_cell(t, m, by.1 as int);
                let keys = group_keys(lines);
                Ok(
                    Way::ByPair {
                        col: by.0,
                        other: by.2,
                        keys,
                        cells: Seq::new(
                            keys.len(),
                            |g: int| cells_at(t.columns[by.3 as int], members(lines, keys[g], lines.len() as int)),
                        ),
                    },
                )
            },
        }
    }
}

fn split_ties(pairs: &Vec<(usize, usize)>) -> (r: (Vec<usize>, Vec<usize>))
    ensures
        r.0@ == outer_of(pairs@),
        r.1@ == inner_of(pairs@),
{
    let mut outer: Vec<usize> = Vec::new();
    let mut inner: Vec<usize> = Vec::new();
    let mut i: usize = 0;
    while i < pairs.len()
        invariant
            i <= pairs@.len(),
            outer@.len() == i,
            inner@.len() == i,
            forall|k: int| 0 <= k < i ==> #[trigger] outer@[k] == pairs@[k].0,
            forall|k: int| 0 <= k < i ==> #[trigger] inner@[k] == pairs@[k].1,
        decreases pairs.len() - i,
    {
        outer.push(pairs[i].0);
        inner.push(pairs[i].1);
        i = i + 1;
    }
    proof {
        assert(outer@ =~= outer_of(pairs@));
        assert(inner@ =~= inner_of(pairs@));
    }
    (outer, inner)
}

fn check_inner(pairs: &Vec<(usize, usize)>, t: &ExecTable) -> (b: bool)
    ensures
        b == inner_fit(pairs@, t@),
{
    let mut i: usize = 0;
    while i < pairs.len()
        invariant
            i <= pairs@.len(),
            forall|k: int| 0 <= k < i ==> (#[trigger] pairs@[k]).1 < t.columns.len(),
        decreases pairs.len() - i,
    {
        if pairs[i].1 >= t.columns.len() {
            return false;
        }
        i = i + 1;
    }
    true
}

fn list_tie_values<
    F: Fn(FloatOp, u64, u64) -> u64,
    P: Fn(&str) -> Option<u64>,
    S: Fn(&Expr2, &ExecTable, usize) -> Result<Value2, Error>,
>(
    c: &Ctx<'_, F, P, S>,
    e: &Expr2,
    t: &ExecTable,
    rows: Ghost<Seq<Option<Seq<u64>>>>,
    lines: &Vec<Term>,
    count: usize,
) -> (r: Result<Vec<Value2>, Error>)
    requires
        ctx_ok(*c),
        t.wf(),
        lines@ == numbered(rows@),
        rows@.len() == t.row_count,
    ensures
        match r {
            Ok(values) => values@.len() == count && tie_values(c@, *e, t@, rows@, count as nat) == Ok::<Seq<Val>, Fail>(
                vals_of(values@),
            ),
            Err(f) => tie_values(c@, *e, t@, rows@, count as nat) == Err::<Seq<Val>, Fail>(f@),
        },
{
    let (groups, lists): (GroupIndex, Vec<Vec<usize>>) = index_rows(lines);
    let mut values: Vec<Value2> = Vec::new();
    let mut n: usize = 0;
    proof {
        assert(vals_of(values@) =~= Seq::empty());
    }
    while n < count
        invariant
            ctx_ok(*c),
            t.wf(),
            lines@ == numbered(rows@),
            rows@.len() == t.row_count,
            groups.wf(),
            lists@.len() == groups@.len(),
            forall|g: int|
                0 <= g < groups@.len() ==> (#[trigger] lists@[g])@ == members(lines@, groups@[g], lines@.len() as int),
            forall|k: Key| !#[trigger] groups@.contains(k) ==> members(lines@, k, lines@.len() as int).len() == 0,
            n <= count,
            values@.len() == n,
            tie_values(c@, *e, t@, rows@, n as nat) == Ok::<Seq<Val>, Fail>(vals_of(values@)),
        decreases count - n,
    {
        let none: Vec<usize> = Vec::new();
        let list: &Vec<usize> = match groups.find((n as u64, 0, 0)) {
            Some(g) => &lists[g],
            None => &none,
        };
        proof {
            let k = numbered_key(n as int);
            assert(list@ =~= members(lines@, k, lines@.len() as int));
            lemma_members_exist(lines@, k, lines@.len() as int);
            assert(rows_in(list@, t@));
        }
        match eval_agg_expr(c, e, t, list) {
            Ok(v) => {
                let ghost before = vals_of(values@);
                values.push(v);
                proof {
                    assert(vals_of(values@) =~= before.push(v@));
                }
            },
            Err(f) => {
                proof {
                    assert(tie_values(c@, *e, t@, rows@, (n + 1) as nat) == Err::<Seq<Val>, Fail>(f@));
                    lemma_tie_values_fail(c@, *e, t@, rows@, (n + 1) as nat, count as nat);
                }
                return Err(f);
            },
        }
        n = n + 1;
    }
    Ok(values)
}

/// Lists the values of a query by the cells of the columns that tie it to the
/// query round it.
pub fn decorrelate<
    F: Fn(FloatOp, u64, u64) -> u64,
    P: Fn(&str) -> Option<u64>,
    S: Fn(&Expr2, &ExecTable, usize) -> Result<Value2, Error>,
>(
    c: &Ctx<'_, F, P, S>,
    catalog: &Catalog,
    q: &SelectQuery2,
    pairs: &Vec<(usize, usize)>,
    t: &ExecTable,
) -> (r: Result<NestedPlan, Error>)
    requires
        ctx_ok(*c),
        t.wf(),
        q.select@.len() == 1,
    ensures
        plan_outcome(r) == tied_plan(c@, *catalog, *q, pairs@, t@),
        r matches Ok(p) ==> (p matches NestedPlan::ByCells { cols, keys, values } && cols@ == outer_of(pairs@) && keys.wf()
            && values@.len() == keys@.len()),
{
    if !check_inner(pairs, t) {
        return Err(Error::Other("inner column".to_owned()));
    }
    let mask: Vec<bool> = match mask_local(c, catalog, q, t) {
        Ok(m) => m,
        Err(e) => {
            return Err(e);
        },
    };
    let (outer, inner): (Vec<usize>, Vec<usize>) = split_ties(pairs);
    let rows: Vec<Option<Vec<u64>>> = list_by_tie(t, &mask, &inner);
    let (keys, lines): (CellIndex, Vec<Term>) = number_rows(&rows);
    proof {
        assert(row_cells(rows@).len() == rows@.len());
    }
    let values: Vec<Value2> = match list_tie_values(
        c,
        &q.select[0].expr,
        t,
        Ghost(tie_rows(t@, mask@, inner@)),
        &lines,
        keys.len(),
    ) {
        Ok(v) => v,
        Err(e) => {
            return Err(e);
        },
    };
    Ok(NestedPlan::ByCells { cols: outer, keys, values })
}

/// Lists the keys of the rows that an `EXISTS` asks for.
pub fn build_exists_hashset<
    F: Fn(FloatOp, u64, u64) -> u64,
    P: Fn(&str) -> Option<u64>,
    S: Fn(&Expr2, &ExecTable, usize) -> Result<Value2, Error>,
>(
    c: &Ctx<'_, F, P, S>,
    q: &SelectQuery2,
    outer: usize,
    inner: usize,
    t: &ExecTable,
) -> (r: Result<NestedPlan, Error>)
    requires
        ctx_ok(*c),
        t.wf(),
    ensures
        plan_outcome(r) == key_plan(c@, *q, outer, inner, t@),
        r matches Ok(p) ==> (p matches NestedPlan::ByKey { col, keys } && col == outer && keys.wf()),
{
    if inner >= t.columns.len() {
        return Err(Error::Other("inner column".to_owned()));
    }
    match mask_own(c, q, t) {
        Ok(m) => {
            let lines: Vec<Term> = list_by_cell(t, &m, inner);
            let (keys, _): (GroupIndex, Vec<Vec<usize>>) = index_rows(&lines);
            Ok(NestedPlan::ByKey { col: outer, keys })
        },
        Err(e) => Err(e),
    }
}

/// Lists, for each key of the rows that an `EXISTS` asks for, the cells that have
/// to differ.
pub fn build_exists_multi_map<
    F: Fn(FloatOp, u64, u64) -> u64,
    P: Fn(&str) -> Option<u64>,
    S: Fn(&Expr2, &ExecTable, usize) -> Result<Value2, Error>,
>(
    c: &Ctx<'_, F, P, S>,
    q: &SelectQuery2,
    by: (usize, usize, usize, usize),
    t: &ExecTable,
) -> (r: Result<NestedPlan, Error>)
    requires
        ctx_ok(*c),
        t.wf(),
    ensures
        plan_outcome(r) == pair_plan(c@, *q, by, t@),
        r matches Ok(p) ==> (p matches NestedPlan::ByPair { col, other, keys, cells } && col == by.0 && other == by.2
            && keys.wf() && cells@.len() == keys@.len()),
{
    if by.1 >= t.columns.len() || by.3 >= t.columns.len() {
        return Err(Error::Other("inner column".to_owned()));
    }
    let mask: Vec<bool> = match mask_own(c, q, t) {
        Ok(m) => m,
        Err(e) => {
            return Err(e);
        },
    };
    let lines: Vec<Term> = list_by_cell(t, &mask, by.1);
    let (keys, lists): (GroupIndex, Vec<Vec<usize>>) = index_rows(&lines);
    let mut cells: Vec<Vec<u64>> = Vec::new();
    let mut g: usize = 0;
    while g < lists.len()
        invariant
            t.wf(),
            by.3 < t.columns.len(),
            lines@.len() == t.row_count,
            lists@.len() == keys@.len(),
            forall|k: int|
                0 <= k < keys@.len() ==> (#[trigger] lists@[k])@ == members(lines@, keys@[k], lines@.len() as int),
            g <= lists@.len(),
            cells@.len() == g,
            forall|k: int|
                0 <= k < g ==> (#[trigger] cells@[k])@ == cells_at(
                    t@.columns[by.3 as int],
                    members(lines@, keys@[k], lines@.len() as int),
                ),
        decreases lists.len() - g,
    {
        proof {
            lemma_members_exist(lines@, keys@[g as int], lines@.len() as int);
            assert(rows_in(lists@[g as int]@, t@));
            assert(t.columns@[by.3 as int].len() == t.row_count);
        }
        let part: Vec<u64> = take_rows(&t.columns[by.3], &lists[g]);
        proof {
            assert(t@.columns[by.3 as int] == t.columns@[by.3 as int]@);
            assert(part@ =~= cells_at(t@.columns[by.3 as int], lists@[g as int]@));
        }
        cells.push(part);
        g = g + 1;
    }
    proof {
        assert(cell_lists(cells@) =~= Seq::new(
            keys@.len(),
            |g: int| cells_at(t@.columns[by.3 as int], members(lines@, keys@[g], lines@.len() as int)),
        ));
    }
    Ok(NestedPlan::ByPair { col: by.0, other: by.2, keys, cells })
}

/// The values that an `IN` compares with, if answering its query alone tells them:
/// where that fails or gives none, it tells only if there is no query round it.
pub open spec fn cells_alone(first: Result<Rows, Fail>, outermost: bool) -> Option<Seq<u64>> {
    let cells = match first {
        Ok(rows) => if rows.columns.len() > 0 {
            Some(rows.columns[0].1)
        } else {
            None
        },
        Err(_) => Some(Seq::empty()),
    };
    match cells {
        Some(s) => if s.len() > 0 || outermost {
            Some(s)
        } else {
            None
        },
        None => None,
    }
}

/// How the value of a query that is one value is found, by what answering it alone
/// gave.
pub open spec fn scalar_plan<F: Fn(FloatOp, u64, u64) -> u64, P: Fn(&str) -> Option<u64>>(
    c: Env<F, P>,
    catalog: Catalog,
    g: Answers,
    q: SelectQuery2,
    t: Held,
    first: Result<Rows, Fail>,
) -> Result<Way, Fail> {
    if first matches Ok(a) && a.columns.len() > 0 {
        Ok(Way::Value(scalar_of(first->Ok_0.columns)))
    } else {
        match tied(catalog, q, t) {
            Some(pairs) => match inner_base(c, catalog, g, q) {
                Ok(base) => tied_plan(c, catalog, q, pairs, base),
                Err(f) => Err(f),
            },
            None => Ok(Way::PerRow),
        }
    }
}

/// How an `EXISTS` is found.
pub open spec fn exists_plan<F: Fn(FloatOp, u64, u64) -> u64, P: Fn(&str) -> Option<u64>>(
    c: Env<F, P>,
    catalog: Catalog,
    g: Answers,
    q: SelectQuery2,
    t: Held,
) -> Result<Way, Fail> {
    match exists_key(catalog, q, t) {
        Some((o, i)) => match inner_base(c, catalog, g, q) {
            Ok(base) => key_plan(c, q, o, i, base),
            Err(f) => Err(f),
        },
        None => match exists_pairs(catalog, q, t) {
            Some(by) => match inner_base(c, catalog, g, q) {
                Ok(base) => pair_plan(c, q, by, base),
                Err(f) => Err(f),
            },
            None => Ok(Way::PerRow),
        },
    }
}

/// How the values of a query inside an expression are found.
pub open spec fn nested_plan<F: Fn(FloatOp, u64, u64) -> u64, P: Fn(&str) -> Option<u64>>(
    c: Env<F, P>,
    catalog: Catalog,
    g: Answers,
    e: Expr2,
    t: Held,
) -> Result<Way, Fail> {
    match e {
        Expr2::Subquery(q) => scalar_plan(c, catalog, g, *q, t, g(*q, None)),
        Expr2::Exists { query, negated: _ } => exists_plan(c, catalog, g, *query, t),
        Expr2::InSubquery { expr: _, query, negated: _ } => match cells_alone(g(*query, None), c.outer is None) {
            Some(cells) => Ok(Way::Cells(cells)),
            None => Ok(Way::PerRow),
        },
        _ => Ok(Way::PerRow),
    }
}

fn plan_scalar<
    F: Fn(FloatOp, u64, u64) -> u64,
    P: Fn(&str) -> Option<u64>,
    S: Fn(&Expr2, &ExecTable, usize) -> Result<Value2, Error>,
    N: Fn(&SelectQuery2, Option<(&ExecTable, usize)>) -> Result<QueryResult, Error>,
>(
    c: &Ctx<'_, F, P, S>,
    catalog: &Catalog,
    answerer: &Answerer<'_, N>,
    q: &SelectQuery2,
    t: &ExecTable,
    first: Result<QueryResult, Error>,
) -> (r: Result<NestedPlan, Error>)
    requires
        ctx_ok(*c),
        catalog_ok(*catalog),
        answerer_ok(*answerer),
        t.wf(),
    ensures
        plan_outcome(r) == scalar_plan(c@, *catalog, answerer@, *q, t@, answer_outcome(first)),
        r matches Ok(p) ==> p.wf(t@),
{
    match &first {
        Ok(a) => {
            proof {
                assert(a@.len() == a.columns@.len());
            }
            if a.columns.len() > 0 {
                return Ok(NestedPlan::Value(scalar_value(a)));
            }
        },
        Err(_) => {},
    }
    match find_ties(catalog, q, t) {
        None => Ok(NestedPlan::PerRow),
        Some(pairs) => match find_inner_base(c, catalog, answerer, q) {
            Ok(base) => {
                let r: Result<NestedPlan, Error> = decorrelate(c, catalog, q, &pairs, &base);
                proof {
                    assert forall|i: int| 0 <= i < outer_of(pairs@).len() implies #[trigger] outer_of(pairs@)[i]
                        < t.columns.len() by {
                        assert(pairs@[i].0 < t.columns.len());
                    }
                }
                r
            },
            Err(e) => Err(e),
        },
    }
}

fn plan_exists<
    F: Fn(FloatOp, u64, u64) -> u64,
    P: Fn(&str) -> Option<u64>,
    S: Fn(&Expr2, &ExecTable, usize) -> Result<Value2, Error>,
    N: Fn(&SelectQuery2, Option<(&ExecTable, usize)>) -> Result<QueryResult, Error>,
>(
    c: &Ctx<'_, F, P, S>,
    catalog: &Catalog,
    answerer: &Answerer<'_, N>,
    q: &SelectQuery2,
    t: &ExecTable,
) -> (r: Result<NestedPlan, Error>)
    requires
        ctx_ok(*c),
        catalog_ok(*catalog),
        answerer_ok(*answerer),
        t.wf(),
    ensures
        plan_outcome(r) == exists_plan(c@, *catalog, answerer@, *q, t@),
        r matches Ok(p) ==> p.wf(t@),
{
    match find_exists_equi_join(catalog, q, t) {
        Some((o, i)) => match find_inner_base(c, catalog, answerer, q) {
            Ok(base) => build_exists_hashset(c, q, o, i, &base),
            Err(f) => Err(f),
        },
        None => match find_exists_multi_col(catalog, q, t) {
            Some(by) => match find_inner_base(c, catalog, answerer, q) {
                Ok(base) => build_exists_multi_map(c, q, by, &base),
                Err(f) => Err(f),
            },
            None => Ok(NestedPlan::PerRow),
        },
    }
}

/// Decides how the values of a query inside an expression are found. `answerer`
/// answers the query and the queries among its tables.
pub fn plan_nested<
    F: Fn(FloatOp, u64, u64) -> u64,
    P: Fn(&str) -> Option<u64>,
    S: Fn(&Expr2, &ExecTable, usize) -> Result<Value2, Error>,
    N: Fn(&SelectQuery2, Option<(&ExecTable, usize)>) -> Result<QueryResult, Error>,
>(
    c: &Ctx<'_, F, P, S>,
    catalog: &Catalog,
    answerer: &Answerer<'_, N>,
    e: &Expr2,
    t: &ExecTable,
) -> (r: Result<NestedPlan, Error>)
    requires
        ctx_ok(*c),
        catalog_ok(*catalog),
        answerer_ok(*answerer),
        t.wf(),
    ensures
        plan_outcome(r) == nested_plan(c@, *catalog, answerer@, *e, t@),
        r matches Ok(p) ==> p.wf(t@),
{
    match e {
        Expr2::Subquery(q) => {
            let first: Result<QueryResult, Error> = (answerer.answer)(&**q, None);
            plan_scalar(c, catalog, answerer, q, t, first)
        },
        Expr2::Exists { query, negated: _ } => plan_exists(c, catalog, answerer, query, t),
        Expr2::InSubquery { expr: _, query, negated: _ } => {
            let first: Result<QueryResult, Error> = (answerer.answer)(&**query, None);
            let outermost: bool = c.outer.is_none();
            match &first {
                Ok(a) => {
                    proof {
                        assert(a@.len() == a.columns@.len());
                        if a.columns.len() > 0 {
                            assert(a@[0].1 == a.columns@[0].values@);
                        }
                    }
                    if a.columns.len() > 0 && (a.columns[0].values.len() > 0 || outermost) {
                        Ok(NestedPlan::Cells(copy_cells(&a.columns[0].values)))
                    } else {
                        Ok(NestedPlan::PerRow)
                    }
                },
                Err(_) => {
                    if outermost {
                        let none: Vec<u64> = Vec::new();
                        proof {
                            assert(none@ =~= Seq::empty());
                        }
                        Ok(NestedPlan::Cells(none))
                    } else {
                        Ok(NestedPlan::PerRow)
                    }
                },
            }
        },
        _ => Ok(NestedPlan::PerRow),
    }
}

/// A value occurs in a column of a result, its cells read as integers.
pub open spec fn occurs_in<F: Fn(FloatOp, u64, u64) -> u64, P: Fn(&str) -> Option<u64>>(f: F, p: P, v: Val, cells: Seq<u64>) -> bool {
    exists|i: int| 0 <= i < cells.len() && vals_eq(f, p, v, Val::Int(word_signed(#[trigger] cells[i])))
}

pub open spec fn first_cells(columns: Seq<(Seq<char>, Seq<u64>)>) -> Seq<u64> {
    if columns.len() > 0 {
        columns[0].1
    } else {
        Seq::empty()
    }
}

/// What a query inside an expression comes to that was answered for a row.
pub open spec fn row_value<F: Fn(FloatOp, u64, u64) -> u64, P: Fn(&str) -> Option<u64>>(
    c: Env<F, P>,
    e: Expr2,
    t: Held,
    row: usize,
    a: Result<Rows, Fail>,
) -> Result<Val, Fail> {
    match e {
        Expr2::Subquery(_) => match a {
            Ok(rows) => Ok(scalar_of(rows.columns)),
            Err(f) => Err(f),
        },
        Expr2::Exists { query: _, negated } => match a {
            Ok(rows) => Ok(flipped(rows.row_count > 0, negated)),
            Err(f) => Err(f),
        },
        Expr2::InSubquery { expr, query: _, negated } => match value_of(c, *expr, t, row) {
            Err(f) => Err(f),
            Ok(v) => match a {
                Ok(rows) => Ok(flipped(occurs_in(c.fpu, c.reader, v, first_cells(rows.columns)), negated)),
                Err(f) => Err(f),
            },
        },
        _ => Ok(Val::Null),
    }
}

/// One of the cells differs from a word.
pub open spec fn has_differing(cells: Seq<u64>, x: u64) -> bool {
    exists|i: int| 0 <= i < cells.len() && #[trigger] cells[i] != x
}

/// What a query inside an expression comes to on a row, by its plan.
pub open spec fn planned_value<F: Fn(FloatOp, u64, u64) -> u64, P: Fn(&str) -> Option<u64>>(
    c: Env<F, P>,
    way: Way,
    e: Expr2,
    t: Held,
    row: usize,
) -> Result<Val, Fail> {
    match e {
        Expr2::Subquery(_) => match way {
            Way::Value(v) => Ok(v),
            Way::ByCells { cols, keys, values } => {
                let k = tie_cells(t, cols, row as int);
                if keys.contains(k) {
                    Ok(values[keys.index_of(k)])
                } else {
                    Ok(Val::Null)
                }
            },
            _ => Ok(Val::Null),
        },
        Expr2::Exists { query: _, negated } => match way {
            Way::ByKey { col, keys } => Ok(flipped(keys.contains((t.cell(col as int, row as int), 0, 0)), negated)),
            Way::ByPair { col, other, keys, cells } => {
                let k: Key = (t.cell(col as int, row as int), 0, 0);
                let v = t.cell(other as int, row as int);
                Ok(
                    flipped(
                        keys.contains(k) && has_differing(cells[keys.index_of(k)], v),
                        negated,
                    ),
                )
            },
            _ => Ok(Val::Null),
        },
        Expr2::InSubquery { expr, query: _, negated } => match value_of(c, *expr, t, row) {
            Err(f) => Err(f),
            Ok(v) => match way {
                Way::Cells(cells) => Ok(flipped(cells.contains(to_cell(v)), negated)),
                _ => Ok(Val::Null),
            },
        },
        _ => Ok(Val::Null),
    }
}

/// The query in an expression.
pub open spec fn query_in(e: Expr2) -> Option<SelectQuery2> {
    match e {
        Expr2::Subquery(q) => Some(*q),
        Expr2::Exists { query, negated: _ } => Some(*query),
        Expr2::InSubquery { expr: _, query, negated: _ } => Some(*query),
        _ => None,
    }
}

/// What a query inside an expression comes to on a row: by its plan, or by
/// answering it for the row.
pub open spec fn nested_outcome<F: Fn(FloatOp, u64, u64) -> u64, P: Fn(&str) -> Option<u64>>(
    c: Env<F, P>,
    g: Answers,
    way: Way,
    e: Expr2,
    t: Held,
    row: usize,
) -> Result<Val, Fail> {
    match query_in(e) {
        Some(q) => if way is PerRow {
            row_value(c, e, t, row, g(q, Some((t, row))))
        } else {
            planned_value(c, way, e, t, row)
        },
        None => Ok(Val::Null),
    }
}

fn flip(found: bool, negated: bool) -> (v: Value2)
    ensures
        v@ == flipped(found, negated),
{
    truth_value(found != negated)
}

fn has_cell(cells: &Vec<u64>, x: u64) -> (b: bool)
    ensures
        b == cells@.contains(x),
{
    let mut i: usize = 0;
    while i < cells.len()
        invariant
            i <= cells@.len(),
            forall|k: int| 0 <= k < i ==> #[trigger] cells@[k] != x,
        decreases cells.len() - i,
    {
        if cells[i] == x {
            return true;
        }
        i = i + 1;
    }
    false
}

fn has_other(cells: &Vec<u64>, x: u64) -> (b: bool)
    ensures
        b == has_differing(cells@, x),
{
    let mut i: usize = 0;
    while i < cells.len()
        invariant
            i <= cells@.len(),
            forall|k: int| 0 <= k < i ==> #[trigger] cells@[k] == x,
        decreases cells.len() - i,
    {
        if cells[i] != x {
            return true;
        }
        i = i + 1;
    }
    false
}

fn occurs<F: Fn(FloatOp, u64, u64) -> u64, P: Fn(&str) -> Option<u64>>(v: &Value2, cells: &Vec<u64>, fpu: &F, reader: &P) -> (b: bool)
    requires
        crate::float_bits::is_arith(*fpu),
        crate::float_bits::is_reader(*reader),
    ensures
        b == occurs_in(*fpu, *reader, v@, cells@),
{
    let mut i: usize = 0;
    while i < cells.len()
        invariant
            crate::float_bits::is_arith(*fpu),
            crate::float_bits::is_reader(*reader),
            i <= cells@.len(),
            forall|k: int|
                0 <= k < i ==> !vals_eq(*fpu, *reader, v@, Val::Int(word_signed(#[trigger] cells@[k]))),
        decreases cells.len() - i,
    {
        let x: Value2 = Value2::Int(signed_of(cells[i]));
        if equal_values(v, &x, fpu, reader) {
            return true;
        }
        i = i + 1;
    }
    false
}

fn find_slot(keys: &GroupIndex, k: Key) -> (r: Option<usize>)
    requires
        keys.wf(),
    ensures
        match r {
            Some(s) => s < keys@.len() && keys@.contains(k) && s == keys@.index_of(k),
            None => !keys@.contains(k),
        },
{
    let r: Option<usize> = keys.find(k);
    proof {
        keys.keys_are_distinct();
        match r {
            Some(s) => {
                assert(keys@[s as int] == k);
                let w = keys@.index_of(k);
                assert(keys@[w] == k);
            },
            None => {},
        }
    }
    r
}

fn find_cells(keys: &CellIndex, k: &Vec<u64>) -> (r: Option<usize>)
    requires
        keys.wf(),
    ensures
        match r {
            Some(s) => s < keys@.len() && keys@.contains(k@) && s == keys@.index_of(k@),
            None => !keys@.contains(k@),
        },
{
    let r: Option<usize> = keys.find(k);
    proof {
        keys.lists_are_distinct();
        match r {
            Some(s) => {
                assert(keys@[s as int] == k@);
                let w = keys@.index_of(k@);
                assert(keys@[w] == k@);
            },
            None => {},
        }
    }
    r
}

fn planned<
    F: Fn(FloatOp, u64, u64) -> u64,
    P: Fn(&str) -> Option<u64>,
    S: Fn(&Expr2, &ExecTable, usize) -> Result<Value2, Error>,
>(c: &Ctx<'_, F, P, S>, plan: &NestedPlan, e: &Expr2, t: &ExecTable, row: usize) -> (r: Result<
    Value2,
    Error,
>)
    requires
        ctx_ok(*c),
        t.wf(),
        plan.wf(t@),
    ensures
        outcome(r) == planned_value(c@, plan@, *e, t@, row),
{
    match e {
        Expr2::Subquery(_) => match plan {
            NestedPlan::Value(v) => Ok(v.duplicate()),
            NestedPlan::ByCells { cols, keys, values } => {
                let k: Vec<u64> = list_tie(t, cols, row);
                match find_cells(keys, &k) {
                    Some(s) => {
                        proof {
                            assert(vals_of(values@)[s as int] == values@[s as int]@);
                        }
                        Ok(values[s].duplicate())
                    },
                    None => Ok(Value2::Null),
                }
            },
            _ => Ok(Value2::Null),
        },
        Expr2::Exists { query: _, negated } => match plan {
            NestedPlan::ByKey { col, keys } => {
                let found: Option<usize> = find_slot(keys, (cell_at(t, *col, row), 0, 0));
                Ok(flip(found.is_some(), *negated))
            },
            NestedPlan::ByPair { col, other, keys, cells } => {
                let v: u64 = cell_at(t, *other, row);
                let found: bool = match find_slot(keys, (cell_at(t, *col, row), 0, 0)) {
                    Some(s) => {
                        proof {
                            assert(cell_lists(cells@)[s as int] == cells@[s as int]@);
                        }
                        has_other(&cells[s], v)
                    },
                    None => false,
                };
                Ok(flip(found, *negated))
            },
            _ => Ok(Value2::Null),
        },
        Expr2::InSubquery { expr, query: _, negated } => match eval(c, expr, t, row) {
            Err(f) => Err(f),
            Ok(v) => match plan {
                NestedPlan::Cells(cells) => Ok(flip(has_cell(cells, v.to_u64()), *negated)),
                _ => Ok(Value2::Null),
            },
        },
        _ => Ok(Value2::Null),
    }
}

/// The value of a query inside an expression on a row.
pub fn nested_value<
    F: Fn(FloatOp, u64, u64) -> u64,
    P: Fn(&str) -> Option<u64>,
    S: Fn(&Expr2, &ExecTable, usize) -> Result<Value2, Error>,
    N: Fn(&SelectQuery2, Option<(&ExecTable, usize)>) -> Result<QueryResult, Error>,
>(
    c: &Ctx<'_, F, P, S>,
    answerer: &Answerer<'_, N>,
    plan: &NestedPlan,
    e: &Expr2,
    t: &ExecTable,
    row: usize,
) -> (r: Result<Value2, Error>)
    requires
        ctx_ok(*c),
        answerer_ok(*answerer),
        t.wf(),
        plan.wf(t@),
    ensures
        outcome(r) == nested_outcome(c@, answerer@, plan@, *e, t@, row),
{
    let per_row: bool = match plan {
        NestedPlan::PerRow => true,
        _ => false,
    };
    if !per_row {
        return planned(c, plan, e, t, row);
    }
    proof {
        assert(outer_held(Some((t, row))) == Some((t@, row)));
    }
    match e {
        Expr2::Subquery(q) => match (answerer.answer)(&**q, Some((t, row))) {
            Ok(x) => Ok(scalar_value(&x)),
            Err(f) => Err(f),
        },
        Expr2::Exists { query, negated } => match (answerer.answer)(&**query, Some((t, row))) {
            Ok(x) => Ok(flip(x.row_count > 0, *negated)),
            Err(f) => Err(f),
        },
        Expr2::InSubquery { expr, query, negated } => match eval(c, expr, t, row) {
            Err(f) => Err(f),
            Ok(v) => match (answerer.answer)(&**query, Some((t, row))) {
                Ok(x) => {
                    proof {
                        assert(x@.len() == x.columns@.len());
                    }
                    let found: bool = if x.columns.len() > 0 {
                        proof {
                            assert(x@[0].1 == x.columns@[0].values@);
                        }
                        occurs(&v, &x.columns[0].values, c.fpu, c.reader)
                    } else {
                        proof {
                            assert(!occurs_in(*c.fpu, *c.reader, v@, first_cells(x@)));
                        }
                        false
                    };
                    Ok(flip(found, *negated))
                },
                Err(f) => Err(f),
            },
        },
        _ => Ok(Value2::Null),
    }
}

/// A row that counts has the key in the column.
pub open spec fn has_key(u: Held, mask: Seq<bool>, col: int, x: u64) -> bool {
    exists|i: int| 0 <= i < u.row_count && mask[i] && #[trigger] u.columns[col][i] == x
}

/// A row that counts has the key in the one column and not the word in the other.
pub open spec fn has_key_apart(u: Held, mask: Seq<bool>, col: int, other: int, x: u64, w: u64) -> bool {
    exists|r: usize|
        r < u.row_count && mask[r as int] && #[trigger] u.columns[col][r as int] == x && u.columns[other][r as int] != w
}

/// A key finds something exactly if a row that counts has it in its column.
pub proof fn keys_are_those_of_rows(t: Held, mask: Seq<bool>, col: int, x: u64)
    requires
        0 <= t.row_count <= usize::MAX,
    ensures
        group_keys(lines_by_cell(t, mask, col)).contains((x, 0, 0)) <==> has_key(t, mask, col, x),
{
    let lines = lines_by_cell(t, mask, col);
    keys_seen_are_row_keys(lines, lines.len() as int, (x, 0, 0));
    if exists|i: int| 0 <= i < t.row_count && mask[i] && #[trigger] t.columns[col][i] == x {
        let i = choose|i: int| 0 <= i < t.row_count && mask[i] && #[trigger] t.columns[col][i] == x;
        assert(row_has(lines, i, (x, 0, 0)));
    }
    if exists|i: int| 0 <= i < lines.len() && #[trigger] row_has(lines, i, (x, 0, 0)) {
        let i = choose|i: int| 0 <= i < lines.len() && #[trigger] row_has(lines, i, (x, 0, 0));
        assert(t.columns[col][i] == x);
    }
}

/// The cells kept for a key differ from a word exactly if a row that counts has the
/// key in the one column and differs in the other.
pub proof fn cells_are_those_of_rows(t: Held, mask: Seq<bool>, col: int, other: int, x: u64, w: u64)
    requires
        0 <= t.row_count <= usize::MAX,
    ensures
        has_differing(
            cells_at(t.columns[other], members(lines_by_cell(t, mask, col), (x, 0, 0), t.row_count as int)),
            w,
        ) <==> has_key_apart(t, mask, col, other, x, w),
{
    let lines = lines_by_cell(t, mask, col);
    let n = t.row_count as int;
    let k: Key = (x, 0, 0);
    let rows = members(lines, k, n);
    let cells = cells_at(t.columns[other], rows);
    lemma_members_exist(lines, k, n);
    if exists|i: int| 0 <= i < cells.len() && #[trigger] cells[i] != w {
        let i = choose|i: int| 0 <= i < cells.len() && #[trigger] cells[i] != w;
        let r = rows[i];
        assert(rows.contains(r));
        groups_partition_rows(lines, k, n, r);
        assert(row_has(lines, r as int, k));
        assert(t.columns[col][r as int] == x);
    }
    if exists|r: usize|
        r < n && mask[r as int] && #[trigger] t.columns[col][r as int] == x && t.columns[other][r as int] != w {
        let r = choose|r: usize|
            r < n && mask[r as int] && #[trigger] t.columns[col][r as int] == x && t.columns[other][r as int] != w;
        groups_partition_rows(lines, k, n, r);
        assert(row_has(lines, r as int, k));
        let i = choose|i: int| 0 <= i < rows.len() && rows[i] == r;
        assert(cells[i] != w);
    }
}

/// An `EXISTS` by a key holds on a row exactly if a row of the query's own table
/// that counts has its key.
pub proof fn existence_by_key_is_that_of_a_row<F: Fn(FloatOp, u64, u64) -> u64, P: Fn(&str) -> Option<u64>>(
    c: Env<F, P>,
    q: SelectQuery2,
    outer: usize,
    inner: usize,
    u: Held,
    mask: Seq<bool>,
    negated: bool,
    t: Held,
    row: usize,
)
    requires
        0 <= u.row_count <= usize::MAX,
        inner < u.columns.len(),
        own_rows(c, q, u) == Ok::<Seq<bool>, Fail>(mask),
    ensures
        key_plan(c, q, outer, inner, u) matches Ok(way) && planned_value(
            c,
            way,
            Expr2::Exists { query: Box::new(q), negated },
            t,
            row,
        ) == Ok::<Val, Fail>(flipped(has_key(u, mask, inner as int, t.cell(outer as int, row as int)), negated)),
{
    keys_are_those_of_rows(u, mask, inner as int, t.cell(outer as int, row as int));
}

/// An `EXISTS` by a pair of columns holds on a row exactly if a row of the query's
/// own table that counts has its key and differs in the other column.
pub proof fn existence_by_pair_is_that_of_a_row<F: Fn(FloatOp, u64, u64) -> u64, P: Fn(&str) -> Option<u64>>(
    c: Env<F, P>,
    q: SelectQuery2,
    by: (usize, usize, usize, usize),
    u: Held,
    mask: Seq<bool>,
    negated: bool,
    t: Held,
    row: usize,
)
    requires
        0 <= u.row_count <= usize::MAX,
        by.1 < u.columns.len(),
        by.3 < u.columns.len(),
        own_rows(c, q, u) == Ok::<Seq<bool>, Fail>(mask),
    ensures
        pair_plan(c, q, by, u) matches Ok(way) && planned_value(
            c,
            way,
            Expr2::Exists { query: Box::new(q), negated },
            t,
            row,
        ) == Ok::<Val, Fail>(
            flipped(
                has_key_apart(
                    u,
                    mask,
                    by.1 as int,
                    by.3 as int,
                    t.cell(by.0 as int, row as int),
                    t.cell(by.2 as int, row as int),
                ),
                negated,
            ),
        ),
{
    let x = t.cell(by.0 as int, row as int);
    let w = t.cell(by.2 as int, row as int);
    let lines = lines_by_cell(u, mask, by.1 as int);
    let keys = group_keys(lines);
    let k: Key = (x, 0, 0);
    keys_are_those_of_rows(u, mask, by.1 as int, x);
    cells_are_those_of_rows(u, mask, by.1 as int, by.3 as int, x, w);
    assert(lines.len() == u.row_count);
    if keys.contains(k) {
        assert(keys[keys.index_of(k)] == k);
    } else {
        assert(!has_key(u, mask, by.1 as int, x));
        if has_key_apart(u, mask, by.1 as int, by.3 as int, x, w) {
            let r = choose|r: usize|
                r < u.row_count && mask[r as int] && #[trigger] u.columns[by.1 as int][r as int] == x
                    && u.columns[by.3 as int][r as int] != w;
            assert(u.columns[by.1 as int][r as int] == x);
        }
    }
}

} // verus!
