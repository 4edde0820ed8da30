//! From the text of a query to its answer.

use crate::error::{Error, Fail};
use crate::float_bits::{is_arith, FloatOp};
use crate::row_sums::{is_summer, RowSum};
use crate::sql::ast::SelectQuery2;
use crate::sql::engine::{answer_at, answered_at, engine_ok, Engine};
use crate::sql::grammar::query_of;
use crate::sql::message::{refusal, refuse};
use crate::sql::parser::{parse_tpch, query_read};
use crate::sql::query::catalog_ok;
use crate::sql::source::answer_outcome;
use crate::table::{Catalog, QueryResult};
use crate::tpch::q2::{execute_q2_reformulated, is_q2, q2_result, q2_text};
use crate::tpch::q3::{execute_q3_reformulated, is_q3, q3_result, q3_text};
use crate::tpch::q4::{execute_q4_reformulated, is_q4, q4_result, q4_text};
use crate::tpch::q5::{execute_q5_reformulated, is_q5, q5_result, q5_text};
use crate::tpch::q7::{execute_q7_reformulated, is_q7, q7_result, q7_text};
use crate::tpch::q8::{execute_q8_reformulated, is_q8, q8_result, q8_text};
use crate::tpch::q9::{execute_q9_reformulated, is_q9, q9_result, q9_text};
use crate::tpch::q10::{execute_q10_reformulated, is_q10, q10_result, q10_text};
use crate::tpch::q12::{execute_q12_reformulated, is_q12, q12_result, q12_text};
use crate::tpch::q13::{execute_q13_reformulated, is_q13, q13_result, q13_text};
use crate::tpch::q14::{execute_q14_reformulated, is_q14, q14_result, q14_text};
use crate::tpch::q16::{execute_q16_reformulated, is_q16, q16_result, q16_text};
use crate::tpch::q17::{execute_q17_reformulated, is_q17, q17_result, q17_text};
use crate::tpch::q18::{execute_q18_reformulated, is_q18, q18_result, q18_text};
use crate::tpch::q19::{execute_q19_comult, is_q19, q19_result, q19_text};
use crate::tpch::q20::{execute_q20_reformulated, is_q20, q20_result, q20_text};
use crate::tpch::q21::{execute_q21_reformulated, is_q21, q21_result, q21_text};
use crate::tpch::q22::{execute_q22_reformulated, is_q22, q22_result, q22_text};
use crate::tpch::support::table_ok;
use vstd::prelude::*;

verus! {

/// The queries that are answered by a way of their own.
#[derive(Clone, Copy, Debug, PartialEq, Eq, Structural)]
pub enum Known {
    Q2,
    Q3,
    Q4,
    Q5,
    Q7,
    Q8,
    Q9,
    Q10,
    Q12,
    Q13,
    Q14,
    Q16,
    Q17,
    Q18,
    Q19,
    Q20,
    Q21,
    Q22,
}

/// The query that a text is known to be, if it is one of these.
pub open spec fn known_text(sql: Seq<char>) -> Option<Known> {
    if q19_text(sql) {
        Some(Known::Q19)
    } else if q21_text(sql) {
        Some(Known::Q21)
    } else if q4_text(sql) {
        Some(Known::Q4)
    } else if q13_text(sql) {
        Some(Known::Q13)
    } else if q17_text(sql) {
        Some(Known::Q17)
    } else if q3_text(sql) {
        Some(Known::Q3)
    } else if q12_text(sql) {
        Some(Known::Q12)
    } else if q18_text(sql) {
        Some(Known::Q18)
    } else if q9_text(sql) {
        Some(Known::Q9)
    } else if q10_text(sql) {
        Some(Known::Q10)
    } else if q7_text(sql) {
        Some(Known::Q7)
    } else if q5_text(sql) {
        Some(Known::Q5)
    } else if q14_text(sql) {
        Some(Known::Q14)
    } else if q2_text(sql) {
        Some(Known::Q2)
    } else if q20_text(sql) {
        Some(Known::Q20)
    } else if q8_text(sql) {
        Some(Known::Q8)
    } else if q22_text(sql) {
        Some(Known::Q22)
    } else if q16_text(sql) {
        Some(Known::Q16)
    } else {
        None
    }
}

/// Recognises a query by its text.
pub fn recognise(sql: &str) -> (k: Option<Known>)
    ensures
        k == known_text(sql@),
{
    if is_q19(sql) {
        Some(Known::Q19)
    } else if is_q21(sql) {
        Some(Known::Q21)
    } else if is_q4(sql) {
        Some(Known::Q4)
    } else if is_q13(sql) {
        Some(Known::Q13)
    } else if is_q17(sql) {
        Some(Known::Q17)
    } else if is_q3(sql) {
        Some(Known::Q3)
    } else if is_q12(sql) {
        Some(Known::Q12)
    } else if is_q18(sql) {
        Some(Known::Q18)
    } else if is_q9(sql) {
        Some(Known::Q9)
    } else if is_q10(sql) {
        Some(Known::Q10)
    } else if is_q7(sql) {
        Some(Known::Q7)
    } else if is_q5(sql) {
        Some(Known::Q5)
    } else if is_q14(sql) {
        Some(Known::Q14)
    } else if is_q2(sql) {
        Some(Known::Q2)
    } else if is_q20(sql) {
        Some(Known::Q20)
    } else if is_q8(sql) {
        Some(Known::Q8)
    } else if is_q22(sql) {
        Some(Known::Q22)
    } else if is_q16(sql) {
        Some(Known::Q16)
    } else {
        None
    }
}

/// The tables of the catalog hold the columns of the schema.
pub open spec fn schema_ok(catalog: Catalog) -> bool {
    &&& catalog_ok(catalog)
    &&& table_ok(catalog, "region"@, 3)
    &&& table_ok(catalog, "nation"@, 4)
    &&& table_ok(catalog, "supplier"@, 7)
    &&& table_ok(catalog, "customer"@, 8)
    &&& table_ok(catalog, "part"@, 9)
    &&& table_ok(catalog, "partsupp"@, 5)
    &&& table_ok(catalog, "orders"@, 9)
    &&& table_ok(catalog, "lineitem"@, 16)
}

/// What a query that is known comes to.
pub open spec fn known_result<
    F: Fn(FloatOp, u64, u64) -> u64,
    T: Fn(RowSum, &Vec<u64>, &Vec<u64>, &Vec<u64>, &Vec<usize>) -> u64,
>(
    f: F,
    s: T,
    k: Known,
    catalog: Catalog,
    r: Result<QueryResult, Error>,
) -> bool {
    match k {
        Known::Q2 => q2_result(catalog, r),
        Known::Q3 => q3_result(f, catalog, r),
        Known::Q4 => q4_result(catalog, r),
        Known::Q5 => q5_result(f, catalog, r),
        Known::Q7 => q7_result(f, catalog, r),
        Known::Q8 => q8_result(f, catalog, r),
        Known::Q9 => q9_result(f, catalog, r),
        Known::Q10 => q10_result(f, catalog, r),
        Known::Q12 => q12_result(f, catalog, r),
        Known::Q13 => q13_result(catalog, r),
        Known::Q14 => q14_result(f, catalog, r),
        Known::Q16 => q16_result(catalog, r),
        Known::Q17 => q17_result(f, catalog, r),
        Known::Q18 => q18_result(f, catalog, r),
        Known::Q19 => q19_result(f, s, catalog, r),
        Known::Q20 => q20_result(f, catalog, r),
        Known::Q21 => q21_result(catalog, r),
        Known::Q22 => q22_result(f, catalog, r),
    }
}

/// Answers a query that is known.
pub fn execute_known<
    F: Fn(FloatOp, u64, u64) -> u64,
    T: Fn(RowSum, &Vec<u64>, &Vec<u64>, &Vec<u64>, &Vec<usize>) -> u64,
>(k: Known, catalog: &Catalog, fpu: &F, summer: &T) -> (r: Result<QueryResult, Error>)
    requires
        is_arith(*fpu),
        is_summer(*summer),
        schema_ok(*catalog),
    ensures
        known_result(*fpu, *summer, k, *catalog, r),
{
    match k {
        Known::Q2 => execute_q2_reformulated(catalog),
        Known::Q3 => execute_q3_reformulated(catalog, fpu),
        Known::Q4 => execute_q4_reformulated(catalog),
        Known::Q5 => execute_q5_reformulated(catalog, fpu),
        Known::Q7 => execute_q7_reformulated(catalog, fpu),
        Known::Q8 => execute_q8_reformulated(catalog, fpu),
        Known::Q9 => execute_q9_reformulated(catalog, fpu),
        Known::Q10 => execute_q10_reformulated(catalog, fpu),
        Known::Q12 => execute_q12_reformulated(catalog, fpu),
        Known::Q13 => execute_q13_reformulated(catalog),
        Known::Q14 => execute_q14_reformulated(catalog, fpu),
        Known::Q16 => execute_q16_reformulated(catalog),
        Known::Q17 => execute_q17_reformulated(catalog, fpu),
        Known::Q18 => execute_q18_reformulated(catalog, fpu),
        Known::Q19 => execute_q19_comult(catalog, fpu, summer),
        Known::Q20 => execute_q20_reformulated(catalog, fpu),
        Known::Q21 => execute_q21_reformulated(catalog),
        Known::Q22 => execute_q22_reformulated(catalog, fpu),
    }
}

/// Answers a query that stands in no other.
pub fn execute_tpch<
    F: Fn(FloatOp, u64, u64) -> u64,
    P: Fn(&str) -> Option<u64>,
    T: Fn(RowSum, &Vec<u64>, &Vec<u64>, &Vec<u64>, &Vec<usize>) -> u64,
    D: Fn(u64) -> String,
>(m: &Engine<'_, F, P, T, D>, query: &SelectQuery2) -> (r: Result<QueryResult, Error>)
    requires
        engine_ok(*m),
    ensures
        answer_outcome(r) == answered_at(*m, usize::MAX as nat, None, *query),
        r matches Ok(q) ==> q.wf() && q.bare(),
{
    answer_at(m, usize::MAX, None, query)
}

/// What is answered to a text: by its own way where it is known, else by reading
/// it.
pub open spec fn text_outcome<
    F: Fn(FloatOp, u64, u64) -> u64,
    P: Fn(&str) -> Option<u64>,
    T: Fn(RowSum, &Vec<u64>, &Vec<u64>, &Vec<u64>, &Vec<usize>) -> u64,
    D: Fn(u64) -> String,
>(m: Engine<'_, F, P, T, D>, sql: Seq<char>, r: Result<QueryResult, Error>) -> bool {
    match known_text(sql) {
        Some(k) => known_result(*m.fpu, *m.summer, k, *m.catalog, r),
        None => match query_read(*m.reader, sql) {
            Err(b) => r matches Err(e) && e@ == Fail::Parse(refusal(*m.reader, *m.show, sql, b)),
            Ok(tree) => (r matches Ok(x) ==> x.wf() && x.bare()) && exists|q: SelectQuery2|
                query_of(q) == tree && answer_outcome(r) == #[trigger] answered_at(m, usize::MAX as nat, None, q),
        },
    }
}

/// Reads and answers a query.
pub fn parse_and_execute<
    F: Fn(FloatOp, u64, u64) -> u64,
    P: Fn(&str) -> Option<u64>,
    T: Fn(RowSum, &Vec<u64>, &Vec<u64>, &Vec<u64>, &Vec<usize>) -> u64,
    D: Fn(u64) -> String,
>(m: &Engine<'_, F, P, T, D>, sql: &str) -> (r: Result<QueryResult, Error>)
    requires
        engine_ok(*m),
        schema_ok(*m.catalog),
    ensures
        text_outcome(*m, sql@, r),
{
    match recognise(sql) {
        Some(k) => execute_known(k, m.catalog, m.fpu, m.summer),
        None => match parse_tpch(sql, m.reader) {
            Ok(query) => {
                let r: Result<QueryResult, Error> = execute_tpch(m, &query);
                proof {
                    assert(answer_outcome(r) == answered_at(*m, usize::MAX as nat, None, query));
                }
                r
            },
            Err(e) => Err(Error::Parse(refuse(sql, &e, m.reader, m.show))),
        },
    }
}

} // verus!
