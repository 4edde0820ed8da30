//! From selected expressions to result columns: names, projection, order and
//! limit.

use crate::error::Error;
use crate::float_bits::{descending, reversed, sort_rank, total_rank, FloatOp};
use crate::order::{key_rows, stable_order, stably_ordered};
use crate::sql::ast::{AggFunc, Expr2, SelectItem2};
use crate::sql::eval::{ctx_ok, eval, value_of, Ctx, Env};
use crate::sql::exec_table::{ExecTable, Held};
use crate::sql::value::{as_double, to_cell, Value2};
use crate::table::{column_view, QueryResult, ResultColumn};
use crate::text::{chars_of, decimal_chars, lower_ascii, lower_char, same_ignoring_case, signed_decimal, string_of, to_lower};
use crate::tpch::support::{pick, picked};
use crate::sql::source::{rows_of, Rows};
use vstd::prelude::*;

verus! {

/// The caller's `d` may write a double as this text.
pub open spec fn may_show<D: Fn(u64) -> String>(d: D, bits: u64, text: Seq<char>) -> bool {
    exists|s: String| #[trigger] call_ensures(d, (bits,), s) && s@ == text
}

/// The text that the caller's `d` writes for a double.
pub open spec fn shown<D: Fn(u64) -> String>(d: D, bits: u64) -> Seq<char> {
    choose|text: Seq<char>| may_show(d, bits, text)
}

/// `d` writes every double, always as the same text.
pub open spec fn is_shower<D: Fn(u64) -> String>(d: D) -> bool {
    &&& forall|bits: u64| #[trigger] call_requires(d, (bits,))
    &&& forall|bits: u64, s: String| #[trigger] call_ensures(d, (bits,), s) ==> s@ == shown(d, bits)
}

pub open spec fn func_name(func: AggFunc) -> Seq<char> {
    match func {
        AggFunc::Sum => "sum"@,
        AggFunc::Avg => "avg"@,
        AggFunc::Count => "count"@,
        AggFunc::Min => "min"@,
        AggFunc::Max => "max"@,
        AggFunc::CountDistinct => "countdistinct"@,
    }
}

/// The name of a column that holds an expression.
pub open spec fn name_of<D: Fn(u64) -> String>(d: D, e: Expr2) -> Seq<char> {
    match e {
        Expr2::Col(n) => n@,
        Expr2::CountStar => "count"@,
        Expr2::Agg { func, arg, distinct } => func_name(func),
        Expr2::Int(i) => signed_decimal(i as int),
        Expr2::Float(b) => shown(d, b),
        Expr2::Str(s) => s@,
        Expr2::Date(x) => signed_decimal(x as int),
        _ => "expr"@,
    }
}

/// The name of a selected item: its alias, else after its expression.
pub open spec fn item_name<D: Fn(u64) -> String>(d: D, item: SelectItem2) -> Seq<char> {
    match item.alias {
        Some(a) => a@,
        None => name_of(d, item.expr),
    }
}

/// A signed number in decimal.
pub fn signed_text(n: i64) -> (s: String)
    ensures
        s@ == signed_decimal(n as int),
{
    if n >= 0 {
        let v: Vec<char> = decimal_chars(n as u64);
        string_of(&v)
    } else {
        let size: u64 = (-((n + 1) as i128) + 1) as u64;
        let digits: Vec<char> = decimal_chars(size);
        let mut v: Vec<char> = Vec::new();
        v.push('-');
        let mut i: usize = 0;
        while i < digits.len()
            invariant
                i <= digits@.len(),
                v@ == seq!['-'] + digits@.take(i as int),
            decreases digits.len() - i,
        {
            v.push(digits[i]);
            i = i + 1;
            proof {
                assert(digits@.take(i as int) =~= digits@.take(i - 1).push(digits@[i - 1]));
                assert(v@ =~= seq!['-'] + digits@.take(i as int));
            }
        }
        proof {
            assert(digits@.take(i as int) =~= digits@);
        }
        string_of(&v)
    }
}

/// The name of a column that holds an expression.
pub fn expr_name<D: Fn(u64) -> String>(e: &Expr2, show: &D) -> (s: String)
    requires
        is_shower(*show),
    ensures
        s@ == name_of(*show, *e),
{
    match e {
        Expr2::Col(n) => n.clone(),
        Expr2::CountStar => "count".to_owned(),
        Expr2::Agg { func, .. } => match func {
            AggFunc::Sum => "sum".to_owned(),
            AggFunc::Avg => "avg".to_owned(),
            AggFunc::Count => "count".to_owned(),
            AggFunc::Min => "min".to_owned(),
            AggFunc::Max => "max".to_owned(),
            AggFunc::CountDistinct => "countdistinct".to_owned(),
        },
        Expr2::Int(i) => signed_text(*i),
        Expr2::Float(b) => show(*b),
        Expr2::Str(s) => s.clone(),
        Expr2::Date(x) => signed_text(*x as i64),
        _ => "expr".to_owned(),
    }
}

pub fn name_item<D: Fn(u64) -> String>(item: &SelectItem2, show: &D) -> (s: String)
    requires
        is_shower(*show),
    ensures
        s@ == item_name(*show, *item),
{
    match &item.alias {
        Some(a) => a.clone(),
        None => expr_name(&item.expr, show),
    }
}

/// The cell for an expression on a row; zero where evaluation fails.
pub open spec fn cell_of<
    F: Fn(FloatOp, u64, u64) -> u64,
    P: Fn(&str) -> Option<u64>,
>(c: Env<F, P>, e: Expr2, t: Held, row: usize) -> u64 {
    match value_of(c, e, t, row) {
        Ok(v) => to_cell(v),
        Err(_) => 0,
    }
}

/// The result column for a selected item on listed rows.
pub open spec fn projected<
    F: Fn(FloatOp, u64, u64) -> u64,
    P: Fn(&str) -> Option<u64>,
    D: Fn(u64) -> String,
>(c: Env<F, P>, d: D, item: SelectItem2, t: Held, rows: Seq<usize>) -> (
    Seq<char>,
    Seq<u64>,
) {
    (item_name(d, item), Seq::new(rows.len(), |i: int| cell_of(c, item.expr, t, rows[i])))
}

pub open spec fn projection<
    F: Fn(FloatOp, u64, u64) -> u64,
    P: Fn(&str) -> Option<u64>,
    D: Fn(u64) -> String,
>(c: Env<F, P>, d: D, select: Seq<SelectItem2>, t: Held, rows: Seq<usize>) -> Seq<
    (Seq<char>, Seq<u64>),
> {
    Seq::new(select.len(), |k: int| projected(c, d, select[k], t, rows))
}

/// Projects listed rows on the selected items.
pub fn project<
    F: Fn(FloatOp, u64, u64) -> u64,
    P: Fn(&str) -> Option<u64>,
    S: Fn(&Expr2, &ExecTable, usize) -> Result<Value2, Error>,
    D: Fn(u64) -> String,
>(c: &Ctx<'_, F, P, S>, select: &Vec<SelectItem2>, t: &ExecTable, rows: &Vec<usize>, show: &D) -> (r: QueryResult)
    requires
        ctx_ok(*c),
        t.wf(),
        is_shower(*show),
    ensures
        rows_of(r) == (Rows { columns: projection(c@, *show, select@, t@, rows@), row_count: rows@.len() as int }),
        r.bare(),
        r.wf(),
{
    let mut columns: Vec<ResultColumn> = Vec::new();
    let mut k: usize = 0;
    while k < select.len()
        invariant
            ctx_ok(*c),
            t.wf(),
            is_shower(*show),
            k <= select@.len(),
            columns@.len() == k,
            forall|j: int|
                0 <= j < k ==> column_view(#[trigger] columns@[j]) == projected(c@, *show, select@[j], t@, rows@),
            forall|j: int| 0 <= j < k ==> (#[trigger] columns@[j]).string_values is None,
        decreases select.len() - k,
    {
        let name: String = name_item(&select[k], show);
        let mut values: Vec<u64> = Vec::new();
        let mut i: usize = 0;
        while i < rows.len()
            invariant
                ctx_ok(*c),
                t.wf(),
                k < select@.len(),
                i <= rows@.len(),
                values@.len() == i,
                forall|j: int| 0 <= j < i ==> #[trigger] values@[j] == cell_of(c@, select@[k as int].expr, t@, rows@[j]),
            decreases rows.len() - i,
        {
            let cell: u64 = match eval(c, &select[k].expr, t, rows[i]) {
                Ok(v) => v.to_u64(),
                Err(_) => 0,
            };
            values.push(cell);
            i = i + 1;
        }
        let column: ResultColumn = ResultColumn { name, values, string_values: None };
        proof {
            assert(column.values@ =~= projected(c@, *show, select@[k as int], t@, rows@).1);
        }
        columns.push(column);
        k = k + 1;
    }
    let r: QueryResult = QueryResult { columns, row_count: rows.len(), elapsed_us: 0 };
    proof {
        assert(r@ =~= projection(c@, *show, select@, t@, rows@));
        assert forall|j: int| 0 <= j < r.columns.len() implies (#[trigger] r.columns@[j]).values.len() == r.row_count by {
            assert(column_view(r.columns@[j]) == projected(c@, *show, select@[j], t@, rows@));
        }
    }
    r
}

/// The first column that goes by a name, whatever the case of its letters.
pub open spec fn column_named(columns: Seq<(Seq<char>, Seq<u64>)>, name: Seq<char>, i: nat) -> Option<int>
    decreases columns.len() - i,
{
    if i >= columns.len() {
        None
    } else if same_ignoring_case(columns[i as int].0, name) {
        Some(i as int)
    } else {
        column_named(columns, name, i + 1)
    }
}

pub open spec fn by_direction(rank: u64, ascending: bool) -> u64 {
    if ascending {
        rank
    } else {
        descending(rank)
    }
}

/// The double by which a row sorts where no column has the name: the value on
/// the row it came from; zero for what is no number.
pub open spec fn source_double<
    F: Fn(FloatOp, u64, u64) -> u64,
    P: Fn(&str) -> Option<u64>,
>(c: Env<F, P>, e: Expr2, t: Held, rows: Seq<usize>, row: int) -> u64 {
    let source = if row < rows.len() {
        rows[row]
    } else {
        0
    };
    match value_of(c, e, t, source) {
        Ok(v) => match as_double(c.fpu, c.reader, v) {
            Some(b) => b,
            None => 0,
        },
        Err(_) => 0,
    }
}

/// The word by which a row of a result sorts under one criterion.
pub open spec fn sort_word<
    F: Fn(FloatOp, u64, u64) -> u64,
    P: Fn(&str) -> Option<u64>,
    D: Fn(u64) -> String,
>(
    c: Env<F, P>,
    d: D,
    columns: Seq<(Seq<char>, Seq<u64>)>,
    by: (Expr2, bool),
    t: Held,
    rows: Seq<usize>,
    row: int,
) -> u64 {
    let bits = match column_named(columns, name_of(d, by.0), 0) {
        Some(k) => columns[k].1[row],
        None => source_double(c, by.0, t, rows, row),
    };
    by_direction(total_rank(bits), by.1)
}

/// The keys by which the rows of a result sort.
pub open spec fn sort_rows<
    F: Fn(FloatOp, u64, u64) -> u64,
    P: Fn(&str) -> Option<u64>,
    D: Fn(u64) -> String,
>(
    c: Env<F, P>,
    d: D,
    columns: Seq<(Seq<char>, Seq<u64>)>,
    order_by: Seq<(Expr2, bool)>,
    t: Held,
    rows: Seq<usize>,
    n: int,
) -> Seq<Seq<u64>> {
    Seq::new(
        n as nat,
        |row: int| Seq::new(order_by.len(), |k: int| sort_word(c, d, columns, order_by[k], t, rows, row)),
    )
}

/// The word by which a row of a grouped result sorts under one criterion: zero
/// where no column has the name.
pub open spec fn group_sort_word<D: Fn(u64) -> String>(
    d: D,
    columns: Seq<(Seq<char>, Seq<u64>)>,
    by: (Expr2, bool),
    row: int,
) -> u64 {
    let bits = match column_named(columns, name_of(d, by.0), 0) {
        Some(k) => columns[k].1[row],
        None => 0,
    };
    by_direction(total_rank(bits), by.1)
}

pub open spec fn group_sort_rows<D: Fn(u64) -> String>(
    d: D,
    columns: Seq<(Seq<char>, Seq<u64>)>,
    order_by: Seq<(Expr2, bool)>,
    n: int,
) -> Seq<Seq<u64>> {
    Seq::new(n as nat, |row: int| Seq::new(order_by.len(), |k: int| group_sort_word(d, columns, order_by[k], row)))
}

/// The columns with their cells in the given order.
pub open spec fn reordered(columns: Seq<(Seq<char>, Seq<u64>)>, order: Seq<usize>) -> Seq<(Seq<char>, Seq<u64>)> {
    Seq::new(columns.len(), |k: int| (columns[k].0, picked(columns[k].1, order, order.len() as int)))
}

/// An answer sorted stably by keys.
pub open spec fn sorted_by(s: Rows, keys: Seq<Seq<u64>>) -> Rows {
    Rows { columns: reordered(s.columns, stably_ordered(keys)), row_count: s.row_count }
}

fn equal_names(a: &str, b: &str) -> (r: bool)
    ensures
        r == same_ignoring_case(a@, b@),
{
    let x: Vec<char> = chars_of(a);
    let y: Vec<char> = chars_of(b);
    if x.len() != y.len() {
        proof {
            assert(lower_ascii(x@).len() != lower_ascii(y@).len());
        }
        return false;
    }
    let mut i: usize = 0;
    while i < x.len()
        invariant
            x@ == a@,
            y@ == b@,
            i <= x@.len() == y@.len(),
            forall|k: int| 0 <= k < i ==> lower_char(#[trigger] x@[k]) == lower_char(y@[k]),
        decreases x.len() - i,
    {
        if to_lower(x[i]) != to_lower(y[i]) {
            proof {
                assert(lower_ascii(x@)[i as int] != lower_ascii(y@)[i as int]);
            }
            return false;
        }
        i = i + 1;
    }
    proof {
        assert(lower_ascii(x@) =~= lower_ascii(y@));
    }
    true
}

fn find_column(r: &QueryResult, name: &str) -> (k: Option<usize>)
    ensures
        match k {
            Some(i) => i < r.columns@.len() && column_named(r@, name@, 0) == Some(i as int),
            None => column_named(r@, name@, 0) is None,
        },
{
    let mut i: usize = 0;
    while i < r.columns.len()
        invariant
            i <= r.columns@.len(),
            column_named(r@, name@, 0) == column_named(r@, name@, i as nat),
        decreases r.columns.len() - i,
    {
        proof {
            assert(r@[i as int] == column_view(r.columns@[i as int]));
        }
        if equal_names(r.columns[i].name.as_str(), name) {
            return Some(i);
        }
        i = i + 1;
    }
    None
}

fn direct(rank: u64, ascending: bool) -> (r: u64)
    ensures
        r == by_direction(rank, ascending),
{
    if ascending {
        rank
    } else {
        reversed(rank)
    }
}

fn reorder(s: &QueryResult, order: &Vec<usize>) -> (r: QueryResult)
    requires
        s.wf(),
        order@.len() == s.row_count,
        forall|i: int| 0 <= i < order@.len() ==> #[trigger] order@[i] < s.row_count,
    ensures
        r@ == reordered(s@, order@),
        r.row_count == s.row_count,
        r.bare(),
        r.wf(),
{
    let mut columns: Vec<ResultColumn> = Vec::new();
    let mut k: usize = 0;
    while k < s.columns.len()
        invariant
            s.wf(),
            order@.len() == s.row_count,
            forall|i: int| 0 <= i < order@.len() ==> #[trigger] order@[i] < s.row_count,
            k <= s.columns@.len(),
            columns@.len() == k,
            forall|j: int| 0 <= j < k ==> column_view(#[trigger] columns@[j]) == reordered(s@, order@)[j],
            forall|j: int| 0 <= j < k ==> (#[trigger] columns@[j]).values.len() == s.row_count,
            forall|j: int| 0 <= j < k ==> (#[trigger] columns@[j]).string_values is None,
        decreases s.columns.len() - k,
    {
        let values: Vec<u64> = pick(&s.columns[k].values, order, order.len());
        columns.push(ResultColumn { name: s.columns[k].name.clone(), values, string_values: None });
        k = k + 1;
    }
    let r: QueryResult = QueryResult { columns, row_count: s.row_count, elapsed_us: 0 };
    proof {
        assert(r@ =~= reordered(s@, order@));
    }
    r
}

fn sort_result(s: &QueryResult, keys: &Vec<Vec<u64>>) -> (r: QueryResult)
    requires
        s.wf(),
        keys@.len() == s.row_count,
    ensures
        rows_of(r) == sorted_by(rows_of(*s), key_rows(keys@)),
        r.bare(),
        r.wf(),
{
    let order: Vec<usize> = stable_order(keys);
    proof {
        assert forall|i: int| 0 <= i < order@.len() implies #[trigger] order@[i] < s.row_count by {
            assert(order@.contains(order@[i]));
        }
    }
    reorder(s, &order)
}

/// Sorts a result by expressions over the rows it came from.
pub fn apply_order_by<
    F: Fn(FloatOp, u64, u64) -> u64,
    P: Fn(&str) -> Option<u64>,
    S: Fn(&Expr2, &ExecTable, usize) -> Result<Value2, Error>,
    D: Fn(u64) -> String,
>(
    c: &Ctx<'_, F, P, S>,
    s: &QueryResult,
    order_by: &Vec<(Expr2, bool)>,
    t: &ExecTable,
    rows: &Vec<usize>,
    show: &D,
) -> (r: QueryResult)
    requires
        ctx_ok(*c),
        t.wf(),
        is_shower(*show),
        s.wf(),
    ensures
        rows_of(r) == sorted_by(
            rows_of(*s),
            sort_rows(c@, *show, s@, order_by@, t@, rows@, s.row_count as int),
        ),
        r.bare(),
        r.wf(),
{
    let ghost want = sort_rows(c@, *show, s@, order_by@, t@, rows@, s.row_count as int);
    let mut keys: Vec<Vec<u64>> = Vec::new();
    let mut row: usize = 0;
    while row < s.row_count
        invariant
            ctx_ok(*c),
            t.wf(),
            is_shower(*show),
            s.wf(),
            want == sort_rows(c@, *show, s@, order_by@, t@, rows@, s.row_count as int),
            row <= s.row_count,
            keys@.len() == row,
            forall|i: int| 0 <= i < row ==> (#[trigger] keys@[i])@ == want[i],
        decreases s.row_count - row,
    {
        let mut key: Vec<u64> = Vec::new();
        let mut k: usize = 0;
        while k < order_by.len()
            invariant
                ctx_ok(*c),
                t.wf(),
                is_shower(*show),
                s.wf(),
                row < s.row_count,
                k <= order_by@.len(),
                key@.len() == k,
                forall|j: int|
                    0 <= j < k ==> #[trigger] key@[j] == sort_word(c@, *show, s@, order_by@[j], t@, rows@, row as int),
            decreases order_by.len() - k,
        {
            let name: String = expr_name(&order_by[k].0, show);
            let bits: u64 = match find_column(s, name.as_str()) {
                Some(i) => {
                    proof {
                        assert(s@[i as int] == column_view(s.columns@[i as int]));
                    }
                    s.columns[i].values[row]
                },
                None => {
                    let source: usize = if row < rows.len() {
                        rows[row]
                    } else {
                        0
                    };
                    match eval(c, &order_by[k].0, t, source) {
                        Ok(v) => match v.as_f64(c.fpu, c.reader) {
                            Some(b) => b,
                            None => 0,
                        },
                        Err(_) => 0,
                    }
                },
            };
            key.push(direct(sort_rank(bits), order_by[k].1));
            k = k + 1;
        }
        proof {
            assert(key@ =~= want[row as int]);
        }
        keys.push(key);
        row = row + 1;
    }
    proof {
        assert(key_rows(keys@) =~= want);
    }
    sort_result(s, &keys)
}

/// Sorts a grouped result by its columns.
pub fn apply_order_by_grouped<D: Fn(u64) -> String>(s: &QueryResult, order_by: &Vec<(Expr2, bool)>, show: &D) -> (r: QueryResult)
    requires
        is_shower(*show),
        s.wf(),
    ensures
        rows_of(r) == sorted_by(rows_of(*s), group_sort_rows(*show, s@, order_by@, s.row_count as int)),
        r.bare(),
        r.wf(),
{
    let ghost want = group_sort_rows(*show, s@, order_by@, s.row_count as int);
    let mut keys: Vec<Vec<u64>> = Vec::new();
    let mut row: usize = 0;
    while row < s.row_count
        invariant
            is_shower(*show),
            s.wf(),
            want == group_sort_rows(*show, s@, order_by@, s.row_count as int),
            row <= s.row_count,
            keys@.len() == row,
            forall|i: int| 0 <= i < row ==> (#[trigger] keys@[i])@ == want[i],
        decreases s.row_count - row,
    {
        let mut key: Vec<u64> = Vec::new();
        let mut k: usize = 0;
        while k < order_by.len()
            invariant
                is_shower(*show),
                s.wf(),
                row < s.row_count,
                k <= order_by@.len(),
                key@.len() == k,
                forall|j: int|
                    0 <= j < k ==> #[trigger] key@[j] == group_sort_word(*show, s@, order_by@[j], row as int),
            decreases order_by.len() - k,
        {
            let name: String = expr_name(&order_by[k].0, show);
            let bits: u64 = match find_column(s, name.as_str()) {
                Some(i) => {
                    proof {
                        assert(s@[i as int] == column_view(s.columns@[i as int]));
                    }
                    s.columns[i].values[row]
                },
                None => 0,
            };
            key.push(direct(sort_rank(bits), order_by[k].1));
            k = k + 1;
        }
        proof {
            assert(key@ =~= want[row as int]);
        }
        keys.push(key);
        row = row + 1;
    }
    proof {
        assert(key_rows(keys@) =~= want);
    }
    sort_result(s, &keys)
}

/// The rows that a limit leaves.
pub open spec fn rows_left(n: int, limit: Option<usize>) -> int {
    match limit {
        Some(k) => if n > k {
            k as int
        } else {
            n
        },
        None => n,
    }
}

/// The columns with only their first `n` cells.
pub open spec fn first_rows(columns: Seq<(Seq<char>, Seq<u64>)>, n: int) -> Seq<(Seq<char>, Seq<u64>)> {
    Seq::new(columns.len(), |k: int| (columns[k].0, columns[k].1.take(n)))
}

/// An answer cut down to the first rows.
pub open spec fn limited(s: Rows, limit: Option<usize>) -> Rows {
    Rows { columns: first_rows(s.columns, rows_left(s.row_count, limit)), row_count: rows_left(s.row_count, limit) }
}

/// Cuts a result down to the first rows.
pub fn apply_limit(s: QueryResult, limit: Option<usize>) -> (r: QueryResult)
    requires
        s.wf(),
    ensures
        rows_of(r) == limited(rows_of(s), limit),
        r.elapsed_us == s.elapsed_us,
        r.only_cells(),
        r.wf(),
{
    let n: usize = match limit {
        Some(k) => if s.row_count > k {
            k
        } else {
            s.row_count
        },
        None => s.row_count,
    };
    let mut columns: Vec<ResultColumn> = Vec::new();
    let mut k: usize = 0;
    while k < s.columns.len()
        invariant
            s.wf(),
            n <= s.row_count,
            k <= s.columns@.len(),
            columns@.len() == k,
            forall|j: int| 0 <= j < k ==> column_view(#[trigger] columns@[j]) == first_rows(s@, n as int)[j],
            forall|j: int| 0 <= j < k ==> (#[trigger] columns@[j]).values.len() == n,
            forall|j: int| 0 <= j < k ==> (#[trigger] columns@[j]).string_values is None,
        decreases s.columns.len() - k,
    {
        let mut values: Vec<u64> = s.columns[k].values.clone();
        values.truncate(n);
        proof {
            assert(values@ =~= s.columns@[k as int].values@.take(n as int));
        }
        columns.push(ResultColumn { name: s.columns[k].name.clone(), values, string_values: None });
        k = k + 1;
    }
    let r: QueryResult = QueryResult { columns, row_count: n, elapsed_us: s.elapsed_us };
    proof {
        assert(r@ =~= first_rows(s@, n as int));
    }
    r
}

} // verus!
