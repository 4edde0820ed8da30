//! The engine: queries, the queries that stand for their tables, and the queries
//! inside their expressions.

use crate::error::{Error, Fail};
use crate::float_bits::{is_arith, is_reader, FloatOp};
use crate::row_sums::{is_summer, RowSum};
use crate::sql::ast::{Expr2, SelectQuery2};
use crate::sql::eval::{outcome, outer_held, Ctx, Env};
use crate::sql::exec_table::{ExecTable, Held};
use crate::sql::nested::{nested_outcome, nested_plan, nested_value, plan_nested};
use crate::sql::output::is_shower;
use crate::sql::query::{catalog_ok, execute, query_outcome, Answerer, Answers};
use crate::sql::source::{answer_outcome, Rows};
use crate::sql::value::{Val, Value2};
use crate::table::{Catalog, QueryResult};
use vstd::prelude::*;

verus! {

/// What queries are answered with: the tables, and what computes, reads, adds up
/// and writes doubles.
pub struct Engine<'a, F, P, T, D> {
    pub catalog: &'a Catalog,
    pub fpu: &'a F,
    pub reader: &'a P,
    pub summer: &'a T,
    pub show: &'a D,
}

pub open spec fn engine_ok<
    F: Fn(FloatOp, u64, u64) -> u64,
    P: Fn(&str) -> Option<u64>,
    T: Fn(RowSum, &Vec<u64>, &Vec<u64>, &Vec<u64>, &Vec<usize>) -> u64,
    D: Fn(u64) -> String,
>(m: Engine<'_, F, P, T, D>) -> bool {
    &&& is_arith(*m.fpu)
    &&& is_reader(*m.reader)
    &&& is_summer(*m.summer)
    &&& is_shower(*m.show)
    &&& catalog_ok(*m.catalog)
}

/// What is said of queries that stand one in the other deeper than is allowed.
pub open spec fn too_deep() -> Fail {
    Fail::Unsupported("queries too deep"@)
}

/// What is said of a join clause behind no table.
pub open spec fn no_table_to_join() -> Fail {
    Fail::Unsupported("join without a table"@)
}

/// What is answered to a query in which queries stand at most `depth` one in the
/// other, on a row of the query round it if there is one. The queries among its
/// tables and in its expressions are answered in the same way, one level less
/// deep.
pub open spec fn answered_at<
    F: Fn(FloatOp, u64, u64) -> u64,
    P: Fn(&str) -> Option<u64>,
    T: Fn(RowSum, &Vec<u64>, &Vec<u64>, &Vec<u64>, &Vec<usize>) -> u64,
    D: Fn(u64) -> String,
>(m: Engine<'_, F, P, T, D>, depth: nat, outer: Option<(Held, usize)>, q: SelectQuery2) -> Result<Rows, Fail>
    decreases depth, 0int,
{
    if depth == 0 {
        Err(too_deep())
    } else if q.from@.len() == 0 && q.joins@.len() > 0 {
        Err(no_table_to_join())
    } else {
        let less = (depth - 1) as nat;
        query_outcome(env_at(m, less, outer), *m.catalog, answers_at(m, less), *m.summer, *m.show, q)
    }
}

/// The value of a query inside an expression on a row of a table: what its plan
/// gives, the plan being found by answers one level less deep.
pub open spec fn nested_at<
    F: Fn(FloatOp, u64, u64) -> u64,
    P: Fn(&str) -> Option<u64>,
    T: Fn(RowSum, &Vec<u64>, &Vec<u64>, &Vec<u64>, &Vec<usize>) -> u64,
    D: Fn(u64) -> String,
>(
    m: Engine<'_, F, P, T, D>,
    depth: nat,
    outer: Option<(Held, usize)>,
    e: Expr2,
    t: Held,
    row: usize,
) -> Result<Val, Fail>
    decreases depth, 0int,
{
    if depth == 0 {
        Err(too_deep())
    } else {
        let less = (depth - 1) as nat;
        let c = env_at(m, less, outer);
        let g = answers_at(m, less);
        match nested_plan(c, *m.catalog, g, e, t) {
            Ok(way) => nested_outcome(c, g, way, e, t, row),
            Err(f) => Err(f),
        }
    }
}

/// The answers to queries that stand at most `depth` one in the other.
pub open spec fn answers_at<
    F: Fn(FloatOp, u64, u64) -> u64,
    P: Fn(&str) -> Option<u64>,
    T: Fn(RowSum, &Vec<u64>, &Vec<u64>, &Vec<u64>, &Vec<usize>) -> u64,
    D: Fn(u64) -> String,
>(m: Engine<'_, F, P, T, D>, depth: nat) -> Answers
    decreases depth, 1int,
{
    |q: SelectQuery2, outer: Option<(Held, usize)>| answered_at(m, depth, outer, q)
}

/// What the values of expressions depend on where queries stand at most `depth`
/// one in the other.
pub open spec fn env_at<
    F: Fn(FloatOp, u64, u64) -> u64,
    P: Fn(&str) -> Option<u64>,
    T: Fn(RowSum, &Vec<u64>, &Vec<u64>, &Vec<u64>, &Vec<usize>) -> u64,
    D: Fn(u64) -> String,
>(m: Engine<'_, F, P, T, D>, depth: nat, outer: Option<(Held, usize)>) -> Env<F, P>
    decreases depth, 1int,
{
    Env {
        fpu: *m.fpu,
        reader: *m.reader,
        nest: |e: Expr2, t: Held, row: usize| nested_at(m, depth, outer, e, t, row),
        outer,
    }
}

/// Answers a query, on a row of the query round it if there is one.
pub fn answer_at<
    F: Fn(FloatOp, u64, u64) -> u64,
    P: Fn(&str) -> Option<u64>,
    T: Fn(RowSum, &Vec<u64>, &Vec<u64>, &Vec<u64>, &Vec<usize>) -> u64,
    D: Fn(u64) -> String,
>(m: &Engine<'_, F, P, T, D>, depth: usize, outer: Option<(&ExecTable, usize)>, q: &SelectQuery2) -> (r: Result<
    QueryResult,
    Error,
>)
    requires
        engine_ok(*m),
        outer matches Some((t, _)) ==> t.wf(),
    ensures
        answer_outcome(r) == answered_at(*m, depth as nat, outer_held(outer), *q),
        r matches Ok(x) ==> x.wf() && x.bare(),
    decreases depth, 0int,
{
    if depth == 0 {
        return Err(Error::Unsupported("queries too deep".to_owned()));
    }
    if q.from.len() == 0 && q.joins.len() > 0 {
        return Err(Error::Unsupported("join without a table".to_owned()));
    }
    let less: usize = depth - 1;
    let sub = |e: &Expr2, t: &ExecTable, row: usize| -> (v: Result<Value2, Error>)
        requires
            t.wf(),
        ensures
            outcome(v) == nested_at(*m, less as nat, outer_held(outer), *e, t@, row),
        { value_of_nested(m, less, outer, e, t, row) };
    let reply = |x: &SelectQuery2, o: Option<(&ExecTable, usize)>| -> (a: Result<QueryResult, Error>)
        requires
            o matches Some((t, _)) ==> t.wf(),
        ensures
            answer_outcome(a) == answered_at(*m, less as nat, outer_held(o), *x),
            a matches Ok(y) ==> y.wf(),
        { answer_at(m, less, o, x) };
    let ghost env = env_at(*m, less as nat, outer_held(outer));
    let c = Ctx { fpu: m.fpu, reader: m.reader, sub: &sub, outer, nest: Ghost(env.nest) };
    let answerer = Answerer { answer: &reply, answers: Ghost(answers_at(*m, less as nat)) };
    execute(&c, m.catalog, &answerer, m.summer, m.show, q)
}

/// The value of a query inside an expression on a row of a table.
pub fn value_of_nested<
    F: Fn(FloatOp, u64, u64) -> u64,
    P: Fn(&str) -> Option<u64>,
    T: Fn(RowSum, &Vec<u64>, &Vec<u64>, &Vec<u64>, &Vec<usize>) -> u64,
    D: Fn(u64) -> String,
>(
    m: &Engine<'_, F, P, T, D>,
    depth: usize,
    outer: Option<(&ExecTable, usize)>,
    e: &Expr2,
    t: &ExecTable,
    row: usize,
) -> (r: Result<Value2, Error>)
    requires
        engine_ok(*m),
        outer matches Some((u, _)) ==> u.wf(),
        t.wf(),
    ensures
        outcome(r) == nested_at(*m, depth as nat, outer_held(outer), *e, t@, row),
    decreases depth, 0int,
{
    if depth == 0 {
        return Err(Error::Unsupported("queries too deep".to_owned()));
    }
    let less: usize = depth - 1;
    let sub = |x: &Expr2, u: &ExecTable, i: usize| -> (v: Result<Value2, Error>)
        requires
            u.wf(),
        ensures
            outcome(v) == nested_at(*m, less as nat, outer_held(outer), *x, u@, i),
        { value_of_nested(m, less, outer, x, u, i) };
    let reply = |x: &SelectQuery2, o: Option<(&ExecTable, usize)>| -> (a: Result<QueryResult, Error>)
        requires
            o matches Some((u, _)) ==> u.wf(),
        ensures
            answer_outcome(a) == answered_at(*m, less as nat, outer_held(o), *x),
            a matches Ok(y) ==> y.wf(),
        { answer_at(m, less, o, x) };
    let ghost env = env_at(*m, less as nat, outer_held(outer));
    let c = Ctx { fpu: m.fpu, reader: m.reader, sub: &sub, outer, nest: Ghost(env.nest) };
    let answerer = Answerer { answer: &reply, answers: Ghost(answers_at(*m, less as nat)) };
    match plan_nested(&c, m.catalog, &answerer, e, t) {
        Ok(plan) => nested_value(&c, &answerer, &plan, e, t, row),
        Err(f) => Err(f),
    }
}

} // verus!
