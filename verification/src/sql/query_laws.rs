//! What whole queries list, and where their tables come from.

use crate::error::Fail;
use crate::float_bits::FloatOp;
use crate::row_sums::RowSum;
use crate::sql::ast::{Expr2, FromItem, SelectQuery2};
use crate::sql::eval::Env;
use crate::sql::exec_table::Held;
use crate::sql::mask_laws::passes;
use crate::sql::masks::{all_in, conditions_only_narrow};
use crate::sql::planning::on_one_table;
use crate::sql::query::{
    base_of, is_grouped, joined_on, plain_outcome, query_outcome, shared_conditions, source,
    sources, tables_of, Answers,
};
use crate::sql::shape::has_aggregate;
use crate::table::{Catalog, Table};
use crate::tpch::support::{marked_rows, marked_rows_are_marked};
use vstd::prelude::*;

verus! {

/// The listed tables come each from its own item, in their order.
pub proof fn listed_tables_come_in_their_order(
    catalog: Catalog,
    g: Answers,
    outer: Option<(Held, usize)>,
    from: Seq<FromItem>,
    n: nat,
    i: int,
)
    requires
        n <= from.len(),
        0 <= i < n,
        sources(catalog, g, outer, from, n) is Ok,
    ensures
        sources(catalog, g, outer, from, n)->Ok_0.len() == n,
        source(catalog, g, outer, from[i]) == Ok::<Held, Fail>(sources(catalog, g, outer, from, n)->Ok_0[i]),
    decreases n,
{
    lemma_source_count(catalog, g, outer, from, (n - 1) as nat);
    if i < n - 1 {
        listed_tables_come_in_their_order(catalog, g, outer, from, (n - 1) as nat, i);
    }
}

proof fn lemma_source_count(catalog: Catalog, g: Answers, outer: Option<(Held, usize)>, from: Seq<FromItem>, n: nat)
    ensures
        sources(catalog, g, outer, from, n) matches Ok(ts) ==> ts.len() == n,
    decreases n,
{
    if n > 0 {
        lemma_source_count(catalog, g, outer, from, (n - 1) as nat);
    }
}

/// A table by name is that of the catalog, with its rows and cells; without such a table the query fails.
pub proof fn named_tables_are_those_of_the_catalog(
    catalog: Catalog,
    g: Answers,
    outer: Option<(Held, usize)>,
    item: FromItem,
)
    requires
        item is Table,
    ensures
        catalog.lookup(item->Table_0.name@) is None ==> source(catalog, g, outer, item) is Err,
        catalog.lookup(item->Table_0.name@) matches Some(s) ==> (source(catalog, g, outer, item) matches Ok(t)
            && shows_table(t, s)),
{
    match catalog.lookup(item->Table_0.name@) {
        Some(s) => {
            let t = source(catalog, g, outer, item)->Ok_0;
            assert(shows_table(t, s));
        },
        None => {},
    }
}

/// A table shows the rows and cells of one of the catalog.
pub open spec fn shows_table(t: Held, s: Table) -> bool {
    &&& t.row_count == s.row_count
    &&& t.columns.len() == s.columns.len()
    &&& forall|k: int| 0 <= k < t.columns.len() ==> #[trigger] t.columns[k] == s.columns@[k]@
    &&& t.column_names.len() == s.column_names.len()
    &&& forall|k: int| 0 <= k < t.column_names.len() ==> #[trigger] t.column_names[k] == s.column_names@[k]@
}

/// The rows are those that pass the condition of a query, in their order.
pub open spec fn are_rows_that_pass<F: Fn(FloatOp, u64, u64) -> u64, P: Fn(&str) -> Option<u64>>(c: Env<F, P>, query: SelectQuery2, t: Held, rows: Seq<usize>) -> bool {
    &&& forall|i: int, j: int| 0 <= i < j < rows.len() ==> #[trigger] rows[i] < #[trigger] rows[j]
    &&& forall|r: usize| #[trigger]
        rows.contains(r) <==> r < t.row_count && (query.where_clause matches Some(e) ==> passes(c, e, t, r as int))
}

/// A query on one table without groups, aggregates or joins shows its items on exactly the rows that pass its
/// condition.
pub proof fn plain_queries_show_the_rows_that_pass<
    F: Fn(FloatOp, u64, u64) -> u64,
    P: Fn(&str) -> Option<u64>,
    T: Fn(RowSum, &Vec<u64>, &Vec<u64>, &Vec<u64>, &Vec<usize>) -> u64,
    D: Fn(u64) -> String,
>(c: Env<F, P>, catalog: Catalog, g: Answers, s: T, d: D, query: SelectQuery2, t: Held)
    requires
        query.from@.len() == 1,
        query.joins@.len() == 0,
        query.group_by@.len() == 0,
        forall|i: int| 0 <= i < query.select@.len() ==> !has_aggregate((#[trigger] query.select@[i]).expr),
        source(catalog, g, c.outer, query.from@[0]) == Ok::<Held, Fail>(t),
        0 <= t.row_count <= usize::MAX,
        query_outcome(c, catalog, g, s, d, query) is Ok,
    ensures
        exists|rows: Seq<usize>| #[trigger]
            are_rows_that_pass(c, query, t, rows) && query_outcome(c, catalog, g, s, d, query)->Ok_0 == plain_outcome(
                c,
                d,
                query,
                t,
                rows,
            ),
{
    reveal_with_fuel(sources, 2);
    reveal_with_fuel(joined_on, 1);
    let ts = sources(catalog, g, c.outer, query.from@, 1)->Ok_0;
    assert(ts =~= seq![t]);
    assert(ts.drop_last().push(t) =~= seq![t]);
    assert(tables_of(c, catalog, g, query) == Ok::<Seq<Held>, Fail>(seq![t]));
    let (u, m) = base_of(c, query, seq![t])->Ok_0;
    assert(u == t);
    let all = all_in(t.row_count as nat);
    match query.where_clause {
        Some(e) => {
            conditions_only_narrow(c, e, t, all);
        },
        None => {},
    }
    let rows = marked_rows(m, m.len() as int);
    marked_rows_are_marked(m, m.len() as int);
    assert(m.len() == t.row_count);
    assert forall|r: usize| #[trigger] rows.contains(r) <==> r < t.row_count && (query.where_clause matches Some(e)
        ==> passes(c, e, t, r as int)) by {
        if rows.contains(r) {
            let w = choose|w: int| 0 <= w < rows.len() && rows[w] == r;
            assert(rows[w] < m.len());
        }
        if r < t.row_count && m[r as int] {
            assert(rows.contains(r));
        }
    }
    assert(!is_grouped(query));
    assert(are_rows_that_pass(c, query, t, rows));
    assert(query_outcome(c, catalog, g, s, d, query)->Ok_0 == plain_outcome(c, d, query, t, rows));
}

/// The conditions that are left for the joined table are exactly those that do not need one table only.
pub proof fn conditions_are_shared_or_of_one_table(es: Seq<Expr2>, tables: Seq<Held>, n: nat, e: Expr2)
    requires
        n <= es.len(),
    ensures
        shared_conditions(es, tables, n).contains(e) <==> !on_one_table(e, tables) && exists|k: int|
            0 <= k < n && #[trigger] es[k] == e,
    decreases n,
{
    if n > 0 {
        let m = n - 1;
        conditions_are_shared_or_of_one_table(es, tables, m as nat, e);
        let before = shared_conditions(es, tables, m as nat);
        let now = shared_conditions(es, tables, n);
        if before.contains(e) {
            let i = choose|i: int| 0 <= i < before.len() && before[i] == e;
            assert(now[i] == e);
        }
        if now.contains(e) {
            let i = choose|i: int| 0 <= i < now.len() && now[i] == e;
            if i < before.len() {
                assert(before[i] == e);
                assert(before.contains(e));
            } else {
                assert(es[m] == e);
            }
        }
        if !on_one_table(e, tables) && es[m] == e {
            assert(now[before.len() as int] == e);
        }
    }
}

} // verus!
