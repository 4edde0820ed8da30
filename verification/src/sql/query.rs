//! Answering a query: its tables are found and joined, rows are kept, and these
//! are grouped or projected.

use crate::error::{Error, Fail};
use crate::float_bits::FloatOp;
use crate::row_sums::{is_summer, RowSum};
use crate::sql::ast::{Expr2, FromItem, JoinClause2, SelectQuery2};
use crate::sql::dp::{join_plan, plan_join_dp};
use crate::sql::eval::{ctx_ok, outer_held, Ctx, Env};
use crate::sql::exec_table::{all_held, table_outcome, ExecTable, Held};
use crate::sql::group::{execute_grouped, grouped_outcome};
use crate::sql::joins::{hash_join, join_outcome};
use crate::sql::masks::{all_in, build_mask, eval_bool_mask_vec, mask_outcome, narrowed};
use crate::sql::output::{apply_limit, apply_order_by, is_shower, limited, project, projection, sort_rows, sorted_by};
use crate::sql::planning::{conjuncts, find_only_table, on_one_table, split_conjuncts};
use crate::sql::shape::{has_agg, has_aggregate, referents};
use crate::sql::source::{answer_outcome, resolve_table, resolved, result_table, result_to_exec_table, Rows};
use crate::sql::value::Value2;
use crate::table::{Catalog, QueryResult};
use crate::tpch::support::{list_marked, mark_all, marked_rows};
use vstd::prelude::*;

verus! {

/// What is answered to queries, with a row of the query round them or without.
pub type Answers = spec_fn(SelectQuery2, Option<(Held, usize)>) -> Result<Rows, Fail>;

/// One that answers queries inside a query.
pub struct Answerer<'a, N> {
    pub answer: &'a N,
    /// The answers that `answer` gives.
    pub answers: Ghost<Answers>,
}

impl<'a, N> View for Answerer<'a, N> {
    type V = Answers;

    open spec fn view(&self) -> Answers {
        self.answers@
    }
}

/// `n` answers every query: as `answers` tells.
pub open spec fn replies<N: Fn(&SelectQuery2, Option<(&ExecTable, usize)>) -> Result<QueryResult, Error>>(
    n: N,
    answers: Answers,
) -> bool {
    &&& forall|q: &SelectQuery2, o: Option<(&ExecTable, usize)>|
        (o matches Some((t, _)) ==> t.wf()) ==> #[trigger] call_requires(n, (q, o))
    &&& forall|q: &SelectQuery2, o: Option<(&ExecTable, usize)>, r: Result<QueryResult, Error>| #[trigger]
        call_ensures(n, (q, o), r) ==> answer_outcome(r) == answers(*q, outer_held(o)) && (r matches Ok(a) ==> a.wf())
}

/// The caller's `n` may answer this.
pub open spec fn may_reply<N: Fn(&SelectQuery2, Option<(&ExecTable, usize)>) -> Result<QueryResult, Error>>(
    n: N,
    q: SelectQuery2,
    outer: Option<(Held, usize)>,
    a: Result<Rows, Fail>,
) -> bool {
    exists|o: Option<(&ExecTable, usize)>, r: Result<QueryResult, Error>|
        outer_held(o) == outer && answer_outcome(r) == a && #[trigger] call_ensures(n, (&q, o), r)
}

/// The answers that the caller's `n` gives.
pub open spec fn replies_of<N: Fn(&SelectQuery2, Option<(&ExecTable, usize)>) -> Result<QueryResult, Error>>(n: N) -> Answers {
    |q: SelectQuery2, outer: Option<(Held, usize)>| choose|a: Result<Rows, Fail>| may_reply(n, q, outer, a)
}

pub open spec fn answerer_ok<N: Fn(&SelectQuery2, Option<(&ExecTable, usize)>) -> Result<QueryResult, Error>>(
    a: Answerer<'_, N>,
) -> bool {
    replies(*a.answer, a@)
}

impl<'a, N: Fn(&SelectQuery2, Option<(&ExecTable, usize)>) -> Result<QueryResult, Error>> Answerer<'a, N> {
    /// A caller who answers queries.
    pub fn new(answer: &'a N) -> (a: Self)
        requires
            replies(*answer, replies_of(*answer)),
        ensures
            answerer_ok(a),
            a@ == replies_of(*answer),
    {
        Answerer { answer, answers: Ghost(replies_of(*answer)) }
    }
}

/// Every table of the catalog has cells for all its rows.
pub open spec fn catalog_ok(catalog: Catalog) -> bool {
    forall|name: Seq<char>| (#[trigger] catalog.lookup(name)) matches Some(s) ==> s.wf()
}

/// The name that a table of a query goes by.
pub open spec fn alias_or(alias: Option<String>, name: Seq<char>) -> Seq<char> {
    match alias {
        Some(a) => a@,
        None => name,
    }
}

/// What an answer gives as a table.
pub open spec fn derived(a: Result<Rows, Fail>, alias: Option<String>) -> Result<Held, Fail> {
    match a {
        Ok(rows) => Ok(result_table(rows, alias_or(alias, "derived"@))),
        Err(f) => Err(f),
    }
}

/// What a table of a query comes to.
pub open spec fn source(catalog: Catalog, g: Answers, outer: Option<(Held, usize)>, item: FromItem) -> Result<Held, Fail> {
    match item {
        FromItem::Table(t) => resolved(catalog, t.name@, alias_or(t.alias, t.name@)),
        FromItem::Derived(q, alias) => derived(g(*q, outer), alias),
    }
}

/// Finds a table of a query.
pub fn resolve_from_item<N: Fn(&SelectQuery2, Option<(&ExecTable, usize)>) -> Result<QueryResult, Error>>(
    catalog: &Catalog,
    answerer: &Answerer<'_, N>,
    outer: Option<(&ExecTable, usize)>,
    item: &FromItem,
) -> (r: Result<ExecTable, Error>)
    requires
        catalog_ok(*catalog),
        answerer_ok(*answerer),
        outer matches Some((t, _)) ==> t.wf(),
    ensures
        table_outcome(r) == source(*catalog, answerer@, outer_held(outer), *item),
        r matches Ok(t) ==> t.wf(),
{
    match item {
        FromItem::Table(t) => {
            let alias: &str = match &t.alias {
                Some(a) => a.as_str(),
                None => t.name.as_str(),
            };
            resolve_table(catalog, t.name.as_str(), alias)
        },
        FromItem::Derived(q, alias) => {
            let name: &str = match alias {
                Some(a) => a.as_str(),
                None => "derived",
            };
            match (answerer.answer)(&**q, outer) {
                Ok(res) => Ok(result_to_exec_table(&res, name)),
                Err(e) => Err(e),
            }
        },
    }
}

/// What the first `n` listed tables of a query come to. The first failure counts.
pub open spec fn sources(
    catalog: Catalog,
    g: Answers,
    outer: Option<(Held, usize)>,
    from: Seq<FromItem>,
    n: nat,
) -> Result<Seq<Held>, Fail>
    decreases n,
{
    if n == 0 {
        Ok(Seq::empty())
    } else {
        match sources(catalog, g, outer, from, (n - 1) as nat) {
            Err(f) => Err(f),
            Ok(before) => match source(catalog, g, outer, from[n - 1]) {
                Err(f) => Err(f),
                Ok(t) => Ok(before.push(t)),
            },
        }
    }
}

proof fn lemma_sources_fail(
    catalog: Catalog,
    g: Answers,
    outer: Option<(Held, usize)>,
    from: Seq<FromItem>,
    n: nat,
    m: nat,
)
    requires
        n <= m,
        sources(catalog, g, outer, from, n) is Err,
    ensures
        sources(catalog, g, outer, from, m) == sources(catalog, g, outer, from, n),
    decreases m - n,
{
    if n < m {
        lemma_sources_fail(catalog, g, outer, from, n + 1, m);
    }
}

/// What finding or making tables came to.
pub open spec fn tables_outcome(r: Result<Vec<ExecTable>, Error>) -> Result<Seq<Held>, Fail> {
    match r {
        Ok(ts) => Ok(all_held(ts@)),
        Err(e) => Err(e@),
    }
}

pub fn resolve_all<N: Fn(&SelectQuery2, Option<(&ExecTable, usize)>) -> Result<QueryResult, Error>>(
    catalog: &Catalog,
    answerer: &Answerer<'_, N>,
    outer: Option<(&ExecTable, usize)>,
    from: &Vec<FromItem>,
) -> (r: Result<Vec<ExecTable>, Error>)
    requires
        catalog_ok(*catalog),
        answerer_ok(*answerer),
        outer matches Some((t, _)) ==> t.wf(),
    ensures
        tables_outcome(r) == sources(*catalog, answerer@, outer_held(outer), from@, from@.len()),
        r matches Ok(ts) ==> ts@.len() == from@.len() && forall|i: int| 0 <= i < ts@.len() ==> (#[trigger] ts@[i]).wf(),
{
    let mut ts: Vec<ExecTable> = Vec::new();
    let mut i: usize = 0;
    proof {
        assert(all_held(ts@) =~= Seq::<Held>::empty());
    }
    while i < from.len()
        invariant
            catalog_ok(*catalog),
            answerer_ok(*answerer),
            outer matches Some((t, _)) ==> t.wf(),
            i <= from@.len(),
            ts@.len() == i,
            forall|k: int| 0 <= k < i ==> (#[trigger] ts@[k]).wf(),
            sources(*catalog, answerer@, outer_held(outer), from@, i as nat) == Ok::<Seq<Held>, Fail>(all_held(ts@)),
        decreases from.len() - i,
    {
        let ghost before = all_held(ts@);
        match resolve_from_item(catalog, answerer, outer, &from[i]) {
            Ok(t) => {
                ts.push(t);
                proof {
                    assert(all_held(ts@) =~= before.push(t@));
                }
            },
            Err(e) => {
                proof {
                    let n = (i + 1) as nat;
                    assert(sources(*catalog, answerer@, outer_held(outer), from@, n) == Err::<Seq<Held>, Fail>(e@));
                    lemma_sources_fail(*catalog, answerer@, outer_held(outer), from@, n, from@.len());
                }
                return Err(e);
            },
        }
        i = i + 1;
    }
    Ok(ts)
}

/// What one join clause makes of a table.
pub open spec fn joined_once<F: Fn(FloatOp, u64, u64) -> u64, P: Fn(&str) -> Option<u64>>(
    c: Env<F, P>,
    catalog: Catalog,
    g: Answers,
    join: JoinClause2,
    l: Held,
) -> Result<Held, Fail> {
    match source(catalog, g, c.outer, join.table) {
        Err(f) => Err(f),
        Ok(t) => join_outcome(c, l, t, join.on, join.join_type),
    }
}

fn join_one<
    F: Fn(FloatOp, u64, u64) -> u64,
    P: Fn(&str) -> Option<u64>,
    S: Fn(&Expr2, &ExecTable, usize) -> Result<Value2, Error>,
    N: Fn(&SelectQuery2, Option<(&ExecTable, usize)>) -> Result<QueryResult, Error>,
>(
    c: &Ctx<'_, F, P, S>,
    catalog: &Catalog,
    answerer: &Answerer<'_, N>,
    join: &JoinClause2,
    l: &ExecTable,
) -> (r: Result<ExecTable, Error>)
    requires
        ctx_ok(*c),
        catalog_ok(*catalog),
        answerer_ok(*answerer),
        l.wf(),
    ensures
        table_outcome(r) == joined_once(c@, *catalog, answerer@, *join, l@),
        r matches Ok(t) ==> t.wf(),
{
    match resolve_from_item(catalog, answerer, c.outer, &join.table) {
        Err(e) => Err(e),
        Ok(t) => hash_join(c, l, &t, &join.on, join.join_type),
    }
}

/// What the first `n` join clauses make of a table.
pub open spec fn joined_on<F: Fn(FloatOp, u64, u64) -> u64, P: Fn(&str) -> Option<u64>>(
    c: Env<F, P>,
    catalog: Catalog,
    g: Answers,
    joins: Seq<JoinClause2>,
    n: nat,
    start: Held,
) -> Result<Held, Fail>
    decreases n,
{
    if n == 0 {
        Ok(start)
    } else {
        match joined_on(c, catalog, g, joins, (n - 1) as nat, start) {
            Err(f) => Err(f),
            Ok(l) => joined_once(c, catalog, g, joins[n - 1], l),
        }
    }
}

proof fn lemma_join_fails<F: Fn(FloatOp, u64, u64) -> u64, P: Fn(&str) -> Option<u64>>(
    c: Env<F, P>,
    catalog: Catalog,
    g: Answers,
    joins: Seq<JoinClause2>,
    n: nat,
    m: nat,
    start: Held,
)
    requires
        n <= m,
        joined_on(c, catalog, g, joins, n, start) is Err,
    ensures
        joined_on(c, catalog, g, joins, m, start) == joined_on(c, catalog, g, joins, n, start),
    decreases m - n,
{
    if n < m {
        lemma_join_fails(c, catalog, g, joins, n + 1, m, start);
    }
}

fn join_all<
    F: Fn(FloatOp, u64, u64) -> u64,
    P: Fn(&str) -> Option<u64>,
    S: Fn(&Expr2, &ExecTable, usize) -> Result<Value2, Error>,
    N: Fn(&SelectQuery2, Option<(&ExecTable, usize)>) -> Result<QueryResult, Error>,
>(
    c: &Ctx<'_, F, P, S>,
    catalog: &Catalog,
    answerer: &Answerer<'_, N>,
    joins: &Vec<JoinClause2>,
    start: ExecTable,
) -> (r: Result<ExecTable, Error>)
    requires
        ctx_ok(*c),
        catalog_ok(*catalog),
        answerer_ok(*answerer),
        start.wf(),
    ensures
        table_outcome(r) == joined_on(c@, *catalog, answerer@, joins@, joins@.len(), start@),
        r matches Ok(t) ==> t.wf(),
{
    let ghost first = start@;
    let mut cur: ExecTable = start;
    let mut n: usize = 0;
    while n < joins.len()
        invariant
            ctx_ok(*c),
            catalog_ok(*catalog),
            answerer_ok(*answerer),
            cur.wf(),
            first == start@,
            n <= joins@.len(),
            joined_on(c@, *catalog, answerer@, joins@, n as nat, first) == Ok::<Held, Fail>(cur@),
        decreases joins.len() - n,
    {
        let o: Result<ExecTable, Error> = join_one(c, catalog, answerer, &joins[n], &cur);
        proof {
            assert(joined_on(c@, *catalog, answerer@, joins@, (n + 1) as nat, first) == table_outcome(o));
        }
        match o {
            Ok(next) => {
                cur = next;
            },
            Err(e) => {
                proof {
                    lemma_join_fails(c@, *catalog, answerer@, joins@, (n + 1) as nat, joins@.len(), first);
                }
                return Err(e);
            },
        }
        n = n + 1;
    }
    Ok(cur)
}

/// The tables of a query: those listed, with the join clauses on the last one.
pub open spec fn tables_of<F: Fn(FloatOp, u64, u64) -> u64, P: Fn(&str) -> Option<u64>>(
    c: Env<F, P>,
    catalog: Catalog,
    g: Answers,
    query: SelectQuery2,
) -> Result<Seq<Held>, Fail> {
    match sources(catalog, g, c.outer, query.from@, query.from@.len()) {
        Err(f) => Err(f),
        Ok(ts) => if ts.len() == 0 {
            Ok(ts)
        } else {
            match joined_on(c, catalog, g, query.joins@, query.joins@.len(), ts.last()) {
                Ok(t) => Ok(ts.drop_last().push(t)),
                Err(f) => Err(f),
            }
        },
    }
}

/// The conditions that are left when tables are joined: those that need no table
/// or more than one.
pub open spec fn shared_conditions(es: Seq<Expr2>, tables: Seq<Held>, n: nat) -> Seq<Expr2>
    decreases n,
{
    if n == 0 {
        Seq::empty()
    } else {
        let before = shared_conditions(es, tables, (n - 1) as nat);
        if on_one_table(es[n - 1], tables) {
            before
        } else {
            before.push(es[n - 1])
        }
    }
}

fn pick_shared<'a>(es: &Vec<&'a Expr2>, tables: &Vec<ExecTable>) -> (out: Vec<&'a Expr2>)
    ensures
        referents(out@) == shared_conditions(referents(es@), all_held(tables@), es@.len()),
{
    let mut out: Vec<&'a Expr2> = Vec::new();
    let mut n: usize = 0;
    proof {
        assert(referents(out@) =~= shared_conditions(referents(es@), all_held(tables@), 0));
    }
    while n < es.len()
        invariant
            n <= es@.len(),
            referents(out@) == shared_conditions(referents(es@), all_held(tables@), n as nat),
        decreases es.len() - n,
    {
        proof {
            assert(referents(es@)[n as int] == *es@[n as int]);
        }
        let only: Option<usize> = find_only_table(es[n], tables);
        let ghost before = out@;
        if only.is_none() {
            out.push(es[n]);
            proof {
                assert(referents(out@) =~= referents(before).push(*es@[n as int]));
            }
        } else {
            proof {
                assert(on_one_table(*es@[n as int], all_held(tables@)));
            }
        }
        n = n + 1;
    }
    out
}

/// The rows that the first `n` conditions leave.
pub open spec fn narrowed_by<
    F: Fn(FloatOp, u64, u64) -> u64,
    P: Fn(&str) -> Option<u64>,
>(c: Env<F, P>, es: Seq<Expr2>, t: Held, n: nat) -> Result<Seq<bool>, Fail>
    decreases n,
{
    if n == 0 {
        Ok(all_in(t.row_count as nat))
    } else {
        match narrowed_by(c, es, t, (n - 1) as nat) {
            Ok(m) => narrowed(c, es[n - 1], t, m),
            Err(f) => Err(f),
        }
    }
}

proof fn lemma_narrowed_by_fails<
    F: Fn(FloatOp, u64, u64) -> u64,
    P: Fn(&str) -> Option<u64>,
>(c: Env<F, P>, es: Seq<Expr2>, t: Held, n: nat)
    requires
        n <= es.len(),
        narrowed_by(c, es, t, n) is Err,
    ensures
        narrowed_by(c, es, t, es.len()) == narrowed_by(c, es, t, n),
    decreases es.len() - n,
{
    if n < es.len() {
        lemma_narrowed_by_fails(c, es, t, n + 1);
    }
}

/// Marks the rows on which all conditions are true.
pub fn mask_by<
    F: Fn(FloatOp, u64, u64) -> u64,
    P: Fn(&str) -> Option<u64>,
    S: Fn(&Expr2, &ExecTable, usize) -> Result<Value2, Error>,
>(c: &Ctx<'_, F, P, S>, es: &Vec<&Expr2>, t: &ExecTable) -> (r: Result<Vec<bool>, Error>)
    requires
        ctx_ok(*c),
        t.wf(),
    ensures
        mask_outcome(r) == narrowed_by(c@, referents(es@), t@, es@.len()),
        r matches Ok(m) ==> m@.len() == t.row_count,
{
    let ghost parts = referents(es@);
    let mut mask: Vec<bool> = mark_all(t.row_count);
    proof {
        assert(mask@ =~= all_in(t.row_count as nat));
        assert(parts.len() == es@.len());
    }
    let mut n: usize = 0;
    while n < es.len()
        invariant
            ctx_ok(*c),
            t.wf(),
            parts == referents(es@),
            parts.len() == es@.len(),
            n <= es@.len(),
            mask@.len() == t.row_count,
            narrowed_by(c@, parts, t@, n as nat) == Ok::<Seq<bool>, Fail>(mask@),
        decreases es.len() - n,
    {
        proof {
            assert(parts[n as int] == *es@[n as int]);
        }
        match eval_bool_mask_vec(c, es[n], t, &mask) {
            Ok(m) => {
                mask = m;
            },
            Err(e) => {
                proof {
                    assert(narrowed_by(c@, parts, t@, (n + 1) as nat) == Err::<Seq<bool>, Fail>(e@));
                    lemma_narrowed_by_fails(c@, parts, t@, (n + 1) as nat);
                }
                return Err(e);
            },
        }
        n = n + 1;
    }
    Ok(mask)
}

/// The table that a query is answered from, and its rows that count.
pub open spec fn base_of<F: Fn(FloatOp, u64, u64) -> u64, P: Fn(&str) -> Option<u64>>(
    c: Env<F, P>,
    query: SelectQuery2,
    ts: Seq<Held>,
) -> Result<(Held, Seq<bool>), Fail> {
    if ts.len() == 1 {
        match query.where_clause {
            None => Ok((ts[0], all_in(ts[0].row_count as nat))),
            Some(e) => match narrowed(c, e, ts[0], all_in(ts[0].row_count as nat)) {
                Ok(m) => Ok((ts[0], m)),
                Err(f) => Err(f),
            },
        }
    } else {
        let es = conjuncts(query.where_clause);
        let shared = shared_conditions(es, ts, es.len());
        match join_plan(c, ts, es) {
            Err(f) => Err(f),
            Ok(t) => match narrowed_by(c, shared, t, shared.len()) {
                Ok(m) => Ok((t, m)),
                Err(f) => Err(f),
            },
        }
    }
}

pub open spec fn base_outcome(r: Result<(ExecTable, Vec<bool>), Error>) -> Result<(Held, Seq<bool>), Fail> {
    match r {
        Ok((t, m)) => Ok((t@, m@)),
        Err(e) => Err(e@),
    }
}

fn find_base<
    F: Fn(FloatOp, u64, u64) -> u64,
    P: Fn(&str) -> Option<u64>,
    S: Fn(&Expr2, &ExecTable, usize) -> Result<Value2, Error>,
>(c: &Ctx<'_, F, P, S>, query: &SelectQuery2, tables: Vec<ExecTable>) -> (r: Result<
    (ExecTable, Vec<bool>),
    Error,
>)
    requires
        ctx_ok(*c),
        forall|i: int| 0 <= i < tables@.len() ==> (#[trigger] tables@[i]).wf(),
    ensures
        base_outcome(r) == base_of(c@, *query, all_held(tables@)),
        r matches Ok((t, m)) ==> t.wf() && m@.len() == t.row_count,
{
    let mut tables: Vec<ExecTable> = tables;
    if tables.len() == 1 {
        proof {
            assert(all_held(tables@)[0] == tables@[0]@);
        }
        let base: ExecTable = tables.remove(0);
        return match &query.where_clause {
            None => {
                let mask: Vec<bool> = mark_all(base.row_count);
                proof {
                    assert(mask@ =~= all_in(base.row_count as nat));
                }
                Ok((base, mask))
            },
            Some(e) => match build_mask(c, e, &base) {
                Ok(mask) => Ok((base, mask)),
                Err(f) => Err(f),
            },
        };
    }
    let es: Vec<&Expr2> = split_conjuncts(&query.where_clause);
    proof {
        assert(es@.len() == referents(es@).len());
    }
    let shared: Vec<&Expr2> = pick_shared(&es, &tables);
    proof {
        assert(shared@.len() == referents(shared@).len());
    }
    match plan_join_dp(c, tables, &query.where_clause) {
        Ok(base) => match mask_by(c, &shared, &base) {
            Ok(mask) => Ok((base, mask)),
            Err(e) => Err(e),
        },
        Err(e) => Err(e),
    }
}

/// What a query without groups comes to on rows of a table: its items, sorted and
/// cut as it asks.
pub open spec fn plain_outcome<F: Fn(FloatOp, u64, u64) -> u64, P: Fn(&str) -> Option<u64>, D: Fn(u64) -> String>(
    c: Env<F, P>,
    d: D,
    query: SelectQuery2,
    t: Held,
    rows: Seq<usize>,
) -> Rows {
    let p = Rows { columns: projection(c, d, query.select@, t, rows), row_count: rows.len() as int };
    let o = if query.order_by@.len() == 0 {
        p
    } else {
        sorted_by(p, sort_rows(c, d, p.columns, query.order_by@, t, rows, p.row_count))
    };
    limited(o, query.limit)
}

/// Whether a query is answered by groups of rows.
pub open spec fn is_grouped(query: SelectQuery2) -> bool {
    query.group_by@.len() > 0 || exists|i: int|
        0 <= i < query.select@.len() && has_aggregate((#[trigger] query.select@[i]).expr)
}

/// What a query comes to on the marked rows of a table.
pub open spec fn answer_of<
    F: Fn(FloatOp, u64, u64) -> u64,
    P: Fn(&str) -> Option<u64>,
    T: Fn(RowSum, &Vec<u64>, &Vec<u64>, &Vec<u64>, &Vec<usize>) -> u64,
    D: Fn(u64) -> String,
>(c: Env<F, P>, s: T, d: D, query: SelectQuery2, t: Held, m: Seq<bool>) -> Result<Rows, Fail> {
    if is_grouped(query) {
        grouped_outcome(c, s, d, query, t, m)
    } else {
        Ok(plain_outcome(c, d, query, t, marked_rows(m, m.len() as int)))
    }
}

/// Answers a query on the marked rows of a table.
pub fn answer<
    F: Fn(FloatOp, u64, u64) -> u64,
    P: Fn(&str) -> Option<u64>,
    S: Fn(&Expr2, &ExecTable, usize) -> Result<Value2, Error>,
    T: Fn(RowSum, &Vec<u64>, &Vec<u64>, &Vec<u64>, &Vec<usize>) -> u64,
    D: Fn(u64) -> String,
>(
    c: &Ctx<'_, F, P, S>,
    summer: &T,
    show: &D,
    query: &SelectQuery2,
    base: &ExecTable,
    mask: &Vec<bool>,
) -> (r: Result<QueryResult, Error>)
    requires
        ctx_ok(*c),
        is_summer(*summer),
        is_shower(*show),
        base.wf(),
        mask@.len() == base.row_count,
    ensures
        answer_outcome(r) == answer_of(c@, *summer, *show, *query, base@, mask@),
        r matches Ok(q) ==> q.wf() && q.bare(),
{
    if query.group_by.len() > 0 || has_agg(&query.select) {
        return execute_grouped(c, summer, show, query, base, mask);
    }
    let rows: Vec<usize> = list_marked(mask);
    let plain: QueryResult = project(c, &query.select, base, &rows, show);
    let sorted: QueryResult = if query.order_by.len() > 0 {
        apply_order_by(c, &plain, &query.order_by, base, &rows, show)
    } else {
        plain
    };
    Ok(apply_limit(sorted, query.limit))
}

/// What a query comes to.
pub open spec fn query_outcome<
    F: Fn(FloatOp, u64, u64) -> u64,
    P: Fn(&str) -> Option<u64>,
    T: Fn(RowSum, &Vec<u64>, &Vec<u64>, &Vec<u64>, &Vec<usize>) -> u64,
    D: Fn(u64) -> String,
>(c: Env<F, P>, catalog: Catalog, g: Answers, s: T, d: D, query: SelectQuery2) -> Result<Rows, Fail> {
    match tables_of(c, catalog, g, query) {
        Err(f) => Err(f),
        Ok(ts) => match base_of(c, query, ts) {
            Err(f) => Err(f),
            Ok((t, m)) => answer_of(c, s, d, query, t, m),
        },
    }
}

/// Answers a query. `answerer` answers the queries among its tables.
pub fn execute<
    F: Fn(FloatOp, u64, u64) -> u64,
    P: Fn(&str) -> Option<u64>,
    S: Fn(&Expr2, &ExecTable, usize) -> Result<Value2, Error>,
    T: Fn(RowSum, &Vec<u64>, &Vec<u64>, &Vec<u64>, &Vec<usize>) -> u64,
    D: Fn(u64) -> String,
    N: Fn(&SelectQuery2, Option<(&ExecTable, usize)>) -> Result<QueryResult, Error>,
>(
    c: &Ctx<'_, F, P, S>,
    catalog: &Catalog,
    answerer: &Answerer<'_, N>,
    summer: &T,
    show: &D,
    query: &SelectQuery2,
) -> (r: Result<QueryResult, Error>)
    requires
        ctx_ok(*c),
        catalog_ok(*catalog),
        answerer_ok(*answerer),
        is_summer(*summer),
        is_shower(*show),
        query.from@.len() > 0 || query.joins@.len() == 0,
    ensures
        answer_outcome(r) == query_outcome(c@, *catalog, answerer@, *summer, *show, *query),
        r matches Ok(q) ==> q.wf() && q.bare(),
{
    let mut tables: Vec<ExecTable> = match resolve_all(catalog, answerer, c.outer, &query.from) {
        Ok(ts) => ts,
        Err(e) => {
            return Err(e);
        },
    };
    let ghost listed = tables@;
    let ghost found = all_held(listed);
    match tables.pop() {
        Some(last) => {
            proof {
                assert(found.last() == last@);
            }
            match join_all(c, catalog, answerer, &query.joins, last) {
                Ok(t) => {
                    tables.push(t);
                    proof {
                        assert(all_held(tables@) =~= found.drop_last().push(t@));
                    }
                },
                Err(e) => {
                    return Err(e);
                },
            }
        },
        None => {
            proof {
                assert(all_held(tables@) =~= found);
            }
        },
    }
    proof {
        assert(tables_of(c@, *catalog, answerer@, *query) == Ok::<Seq<Held>, Fail>(all_held(tables@)));
    }
    match find_base(c, query, tables) {
        Ok((base, mask)) => answer(c, summer, show, query, &base, &mask),
        Err(e) => Err(e),
    }
}

} // verus!
