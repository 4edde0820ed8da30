//! How many customers have how many orders.

use crate::error::Error;
use crate::float_bits::{descending, reversed};
use crate::group_index::{GroupIndex, Key};
use crate::order::{is_stable_order, key_rows, stable_order};
use crate::table::{column_view, Catalog, QueryResult, ResultColumn, StringSearchColumn, Table};
use crate::text::chars_of;
use crate::tpch::sums::{count_at, index_counts, key_count, Term};
use crate::tpch::support::{
    answers, col, column, find_text, found, has_columns, has_part, is_first_place, lemma_order_bounds, missing,
    need, no_table_text, not_found, pick, picked, result, table_of, table_ok, text_has,
};
use vstd::prelude::*;

verus! {

/// Whether a query text is this query.
pub open spec fn q13_text(sql: Seq<char>) -> bool {
    has_part(sql, "custdist"@) && has_part(sql, "c_count"@) && has_part(sql, "LEFT OUTER JOIN orders"@) && has_part(sql, "special%requests"@)
}

pub fn is_q13(sql: &str) -> (b: bool)
    ensures
        b == q13_text(sql@),
{
    text_has(sql, "custdist") && text_has(sql, "c_count") && text_has(sql, "LEFT OUTER JOIN orders") && text_has(sql, "special%requests")
}

/// The text has the one word and, behind its first place, the other.
pub open spec fn has_then(text: Seq<char>, first: Seq<char>, then_part: Seq<char>) -> bool {
    exists|p: usize| #[trigger]
        is_first_place(text, first, 0, Some(p)) && has_part(text.skip(p + first.len()), then_part)
}

/// An order that counts for its customer: its comment does not complain.
pub open spec fn q13_order(orders: Table, comments: StringSearchColumn, i: int) -> Term {
    if has_then(comments.strings@[i]@, "special"@, "requests"@) {
        None
    } else {
        Some(((col(orders, 1)[i], 0u64, 0u64), 0u64))
    }
}

pub open spec fn q13_orders(orders: Table, comments: StringSearchColumn) -> Seq<Term> {
    Seq::new(orders.row_count as nat, |i: int| q13_order(orders, comments, i))
}

/// How many orders a customer has.
pub open spec fn orders_of(counted: Seq<Term>, customer: u64) -> int {
    key_count(counted, (customer, 0u64, 0u64), counted.len() as int)
}

/// How many of the first `n` customers have `c` orders.
pub open spec fn customers_with(counted: Seq<Term>, customer: Table, c: int, n: int) -> int
    decreases n,
{
    if n <= 0 {
        0
    } else {
        customers_with(counted, customer, c, n - 1) + (if orders_of(counted, col(customer, 0)[n - 1]) == c {
            1int
        } else {
            0
        })
    }
}

/// The numbers of orders, below `c`, that some customer has.
pub open spec fn order_counts(counted: Seq<Term>, customer: Table, c: int) -> Seq<u64>
    decreases c,
{
    if c <= 0 {
        Seq::empty()
    } else if customers_with(counted, customer, c - 1, customer.row_count as int) > 0 {
        order_counts(counted, customer, c - 1).push((c - 1) as u64)
    } else {
        order_counts(counted, customer, c - 1)
    }
}

/// How many customers have each of these numbers of orders.
pub open spec fn customer_counts(counted: Seq<Term>, customer: Table, numbers: Seq<u64>) -> Seq<u64> {
    Seq::new(
        numbers.len(),
        |i: int| customers_with(counted, customer, numbers[i] as int, customer.row_count as int) as u64,
    )
}

/// Sorting by the number of customers and then by the number of orders, the
/// greatest first.
pub open spec fn q13_order_keys(numbers: Seq<u64>, customers: Seq<u64>) -> Seq<Seq<u64>> {
    Seq::new(numbers.len(), |i: int| seq![descending(customers[i]), descending(numbers[i])])
}

/// The answer.
pub open spec fn q13_outcome(customer: Table, orders: Table, r: Result<QueryResult, Error>) -> bool {
    match orders.string_columns@[8] {
        None => not_found(r, "string column 'o_comment'"@),
        Some(comments) => {
            let counted = q13_orders(orders, comments);
            let numbers = order_counts(counted, customer, counted.len() as int + 1);
            let customers = customer_counts(counted, customer, numbers);
            let n = numbers.len() as int;
            exists|order: Seq<usize>| #[trigger]
                is_stable_order(q13_order_keys(numbers, customers), order) && answers(
                    r,
                    seq![("c_count"@, picked(numbers, order, n)), ("custdist"@, picked(customers, order, n))],
                    n,
                )
        },
    }
}

/// Whether a comment complains.
pub fn complains(comment: &str) -> (b: bool)
    ensures
        b == has_then(comment@, "special"@, "requests"@),
{
    let text: Vec<char> = chars_of(comment);
    let first: Vec<char> = chars_of("special");
    let second: Vec<char> = chars_of("requests");
    match find_text(&text, &first, 0) {
        Some(p) => {
            assert(p + first@.len() <= text@.len() == text.len());
            let from: usize = p + first.len();
            let ghost rest = text@.skip(from as int);
            let r: Option<usize> = find_text(&text, &second, from);
            proof {
                match r {
                    Some(q) => {
                        assert(text@.subrange(q as int, q + second@.len()) =~= rest.subrange(
                            q - from,
                            q - from + second@.len(),
                        ));
                        assert(has_part(rest, second@));
                    },
                    None => {
                        if has_part(rest, second@) {
                            let q = choose|q: int|
                                #![trigger rest.subrange(q, q + second@.len())]
                                0 <= q && q + second@.len() <= rest.len() && rest.subrange(q, q + second@.len())
                                    == second@;
                            assert(text@.subrange(from + q, from + q + second@.len()) =~= rest.subrange(
                                q,
                                q + second@.len(),
                            ));
                        }
                    },
                }
                assert(is_first_place(text@, first@, 0, Some(p)));
                assert forall|o: usize| #[trigger] is_first_place(text@, first@, 0, Some(o)) implies o == p by {
                    if o < p {
                        assert(text@.subrange(o as int, o + first@.len()) == first@);
                    }
                    if p < o {
                        assert(text@.subrange(p as int, p + first@.len()) == first@);
                    }
                }
            }
            r.is_some()
        },
        None => {
            proof {
                assert forall|o: usize| !(#[trigger] is_first_place(text@, first@, 0, Some(o))) by {
                    if is_first_place(text@, first@, 0, Some(o)) {
                        assert(text@.subrange(o as int, o + first@.len()) == first@);
                    }
                }
            }
            false
        },
    }
}

/// How many customers have each number of orders.
fn tally(customer: &Table, counted: &Vec<Term>) -> (hist: Vec<u64>)
    requires
        has_columns(*customer, 1),
    ensures
        hist.len() == counted@.len() + 1,
        forall|c: int|
            0 <= c <= counted@.len() ==> #[trigger] hist@[c] == customers_with(
                counted@,
                *customer,
                c,
                customer.row_count as int,
            ),
{
    let (groups, counts): (GroupIndex, Vec<u64>) = index_counts(counted);
    let mut hist: Vec<u64> = Vec::new();
    while hist.len() <= counted.len()
        invariant
            hist.len() <= counted@.len() + 1,
            forall|c: int| 0 <= c < hist.len() ==> #[trigger] hist@[c] == 0,
        decreases counted@.len() + 1 - hist.len(),
    {
        hist.push(0);
    }
    let mut i: usize = 0;
    while i < customer.row_count
        invariant
            has_columns(*customer, 1),
            groups.wf(),
            counts.len() == groups@.len(),
            forall|k: Key| !#[trigger] groups@.contains(k) ==> key_count(counted@, k, counted@.len() as int) == 0,
            forall|g: int|
                0 <= g < groups@.len() ==> counts@[g] == key_count(
                    counted@,
                    #[trigger] groups@[g],
                    counted@.len() as int,
                ),
            i <= customer.row_count,
            hist.len() == counted@.len() + 1,
            forall|c: int|
                0 <= c <= counted@.len() ==> #[trigger] hist@[c] == customers_with(counted@, *customer, c, i as int)
                    && hist@[c] <= i,
        decreases customer.row_count - i,
    {
        let n: u64 = count_at(&groups, &counts, (customer.columns[0][i], 0, 0), Ghost(counted@));
        proof {
            lemma_orders_within(counted@, (customer.columns@[0]@[i as int], 0u64, 0u64), counted@.len() as int);
        }
        let slot: usize = n as usize;
        let more: u64 = hist[slot] + 1;
        hist.set(slot, more);
        i = i + 1;
    }
    hist
}

/// What the query comes to on the tables of a catalog.
pub open spec fn q13_result(catalog: Catalog, r: Result<QueryResult, Error>) -> bool {
    if !found(catalog, "customer"@) {
        not_found(r, no_table_text("customer"@))
    } else if !found(catalog, "orders"@) {
        not_found(r, no_table_text("orders"@))
    } else {
        q13_outcome(
            table_of(catalog, "customer"@),
            table_of(catalog, "orders"@),
            r,
        )
    }
}

/// Evaluates the query.
pub fn execute_q13_reformulated(catalog: &Catalog) -> (r: Result<QueryResult, Error>)
    requires
        table_ok(*catalog, "customer"@, 1),
        table_ok(*catalog, "orders"@, 9),
    ensures
        q13_result(*catalog, r),
{
    let customer: &Table = match need(catalog, "customer") {
        Ok(t) => t,
        Err(e) => {
            return Err(e);
        },
    };
    let orders: &Table = match need(catalog, "orders") {
        Ok(t) => t,
        Err(e) => {
            return Err(e);
        },
    };
    q13_answer(customer, orders)
}

/// Evaluates the query on its tables.
pub fn q13_answer(
    customer: &Table,
    orders: &Table,
) -> (r: Result<QueryResult, Error>)
    requires
        has_columns(*customer, 1),
        has_columns(*orders, 9),
    ensures
        q13_outcome(*customer, *orders, r),
{
    let comments: &StringSearchColumn = match &orders.string_columns[8] {
        Some(s) => s,
        None => {
            return Err(missing("string column 'o_comment'"));
        },
    };
    let mut counted: Vec<Term> = Vec::new();
    let mut i: usize = 0;
    while i < orders.row_count
        invariant
            has_columns(*orders, 9),
            orders.string_columns@[8] == Some(*comments),
            i <= orders.row_count,
            counted.len() == i,
            forall|k: int| 0 <= k < i ==> #[trigger] counted@[k] == q13_order(*orders, *comments, k),
        decreases orders.row_count - i,
    {
        if complains(comments.get(i)) {
            counted.push(None);
        } else {
            counted.push(Some(((orders.columns[1][i], 0, 0), 0)));
        }
        i = i + 1;
    }
    proof {
        assert(counted@ =~= q13_orders(*orders, *comments));
    }
    let hist: Vec<u64> = tally(customer, &counted);
    let mut numbers: Vec<u64> = Vec::new();
    let mut customers: Vec<u64> = Vec::new();
    let mut keys: Vec<Vec<u64>> = Vec::new();
    let mut c: usize = 0;
    while c < hist.len()
        invariant
            hist.len() == counted@.len() + 1,
            forall|k: int|
                0 <= k <= counted@.len() ==> #[trigger] hist@[k] == customers_with(
                    counted@,
                    *customer,
                    k,
                    customer.row_count as int,
                ),
            c <= hist.len(),
            numbers@ == order_counts(counted@, *customer, c as int),
            customers.len() == numbers.len(),
            keys.len() == numbers.len(),
            forall|k: int|
                0 <= k < numbers.len() ==> #[trigger] customers@[k] == customers_with(
                    counted@,
                    *customer,
                    numbers@[k] as int,
                    customer.row_count as int,
                ),
            forall|k: int|
                0 <= k < numbers.len() ==> (#[trigger] keys@[k])@ == seq![
                    descending(customers@[k]),
                    descending(numbers@[k]),
                ],
        decreases hist.len() - c,
    {
        if hist[c] > 0 {
            numbers.push(c as u64);
            customers.push(hist[c]);
            let mut key: Vec<u64> = Vec::new();
            key.push(reversed(hist[c]));
            key.push(reversed(c as u64));
            proof {
                assert(key@ =~= seq![descending(hist@[c as int]), descending(c as u64)]);
            }
            keys.push(key);
        }
        c = c + 1;
    }
    proof {
        assert(customers@ =~= customer_counts(counted@, *customer, numbers@));
        assert(key_rows(keys@) =~= q13_order_keys(numbers@, customers@));
    }
    let order: Vec<usize> = stable_order(&keys);
    proof {
        lemma_order_bounds(key_rows(keys@), order@);
    }
    let rows: usize = order.len();
    let mut columns: Vec<ResultColumn> = Vec::new();
    columns.push(column("c_count", pick(&numbers, &order, rows)));
    columns.push(column("custdist", pick(&customers, &order, rows)));
    proof {
        assert(columns@.map_values(|c: ResultColumn| column_view(c)) =~= seq![
            ("c_count"@, picked(numbers@, order@, rows as int)),
            ("custdist"@, picked(customers@, order@, rows as int)),
        ]);
    }
    result(columns, rows)
}

/// How many of the first `n` customers have fewer than `c` orders.
pub open spec fn customers_below(counted: Seq<Term>, customer: Table, c: int, n: int) -> int
    decreases c,
{
    if c <= 0 {
        0
    } else {
        customers_below(counted, customer, c - 1, n) + customers_with(counted, customer, c - 1, n)
    }
}

proof fn lemma_one_more_customer(counted: Seq<Term>, customer: Table, c: int, n: int)
    requires
        n > 0,
        c >= 0,
    ensures
        customers_below(counted, customer, c, n) == customers_below(counted, customer, c, n - 1) + (if orders_of(
            counted,
            col(customer, 0)[n - 1],
        ) < c {
            1int
        } else {
            0
        }),
    decreases c,
{
    lemma_orders_within(counted, (col(customer, 0)[n - 1], 0u64, 0u64), counted.len() as int);
    if c > 0 {
        lemma_one_more_customer(counted, customer, c - 1, n);
    }
}

proof fn lemma_orders_within(counted: Seq<Term>, k: Key, n: int)
    requires
        n >= 0,
    ensures
        0 <= key_count(counted, k, n) <= n,
    decreases n,
{
    if n > 0 {
        lemma_orders_within(counted, k, n - 1);
    }
}

proof fn lemma_no_customers(counted: Seq<Term>, customer: Table, c: int)
    ensures
        customers_below(counted, customer, c, 0) == 0,
    decreases c,
{
    if c > 0 {
        lemma_no_customers(counted, customer, c - 1);
    }
}

/// Every customer is counted under one number of orders.
pub proof fn every_customer_is_counted(counted: Seq<Term>, customer: Table, n: int)
    requires
        n >= 0,
    ensures
        customers_below(counted, customer, counted.len() as int + 1, n) == n,
    decreases n,
{
    if n > 0 {
        every_customer_is_counted(counted, customer, n - 1);
        lemma_one_more_customer(counted, customer, counted.len() as int + 1, n);
        lemma_orders_within(counted, (col(customer, 0)[n - 1], 0u64, 0u64), counted.len() as int);
    } else {
        lemma_no_customers(counted, customer, counted.len() as int + 1);
    }
}

} // verus!
