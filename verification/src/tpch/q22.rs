//! Customers of seven country codes with more than an average balance.

use crate::error::Error;
use crate::float_bits::{arith, float_lt, is_arith, less, FloatOp};
use crate::hashing::{hash_text, text_hash};
use crate::order::{is_stable_order, key_rows, stable_order};
use crate::table::{column_view, Catalog, QueryResult, ResultColumn, StringSearchColumn, Table};
use crate::text::chars_of;
use crate::tpch::sums::{count_at, index_counts, key_count, row_has, slot_key, slot_sum, sum_slots, Term};
use crate::group_index::{GroupIndex, Key};
use crate::tpch::support::{
    answers, col, column, found, has_columns, has_part, keys_least_first, least_first, lemma_order_bounds, missing,
    need, no_table_text, not_found, result, string_at, table_of, table_ok, text_has,
};
use vstd::prelude::*;

verus! {

/// Whether a query text is this query.
pub open spec fn q22_text(sql: Seq<char>) -> bool {
    has_part(sql, "cntrycode"@) && has_part(sql, "numcust"@) && has_part(sql, "totacctbal"@) && has_part(sql, "substr(c_phone, 1, 2)"@)
}

pub fn is_q22(sql: &str) -> (b: bool)
    ensures
        b == q22_text(sql@),
{
    text_has(sql, "cntrycode") && text_has(sql, "numcust") && text_has(sql, "totacctbal") && text_has(sql, "substr(c_phone, 1, 2)")
}

/// The rows of a block.
pub const Q22_BLOCK: usize = 16384;

/// How many country codes there are.
pub const CODES: usize = 7;

/// The country codes, by number.
pub open spec fn code_text(b: int) -> Seq<char> {
    if b == 0 {
        "13"@
    } else if b == 1 {
        "31"@
    } else if b == 2 {
        "23"@
    } else if b == 3 {
        "29"@
    } else if b == 4 {
        "30"@
    } else if b == 5 {
        "18"@
    } else {
        "17"@
    }
}

/// The number of the country code that a phone number begins with.
pub open spec fn phone_code(phone: Seq<char>) -> Option<u64> {
    if phone.len() < 2 {
        None
    } else if phone[0] == '1' && phone[1] == '3' {
        Some(0)
    } else if phone[0] == '3' && phone[1] == '1' {
        Some(1)
    } else if phone[0] == '2' && phone[1] == '3' {
        Some(2)
    } else if phone[0] == '2' && phone[1] == '9' {
        Some(3)
    } else if phone[0] == '3' && phone[1] == '0' {
        Some(4)
    } else if phone[0] == '1' && phone[1] == '8' {
        Some(5)
    } else if phone[0] == '1' && phone[1] == '7' {
        Some(6)
    } else {
        None
    }
}

/// The code and balance of a customer whose balance exceeds a limit.
pub open spec fn rich_customer(customer: Table, limit: u64, i: int) -> Term {
    match phone_code(string_at(customer, 4, i)) {
        Some(b) => if float_lt(limit, col(customer, 5)[i]) {
            Some((slot_key(b as int), col(customer, 5)[i]))
        } else {
            None
        },
        None => None,
    }
}

pub open spec fn rich_customers(customer: Table, limit: u64) -> Seq<Term> {
    Seq::new(customer.row_count as nat, |i: int| rich_customer(customer, limit, i))
}

/// How many customers of a code are listed.
pub open spec fn code_count(rows: Seq<Term>, b: int) -> int {
    key_count(rows, slot_key(b), rows.len() as int)
}

/// How many customers of the first `n` codes are listed.
pub open spec fn codes_count(rows: Seq<Term>, n: int) -> int
    decreases n,
{
    if n <= 0 {
        0
    } else {
        codes_count(rows, n - 1) + code_count(rows, n - 1)
    }
}

/// The balances of the first `n` codes.
pub open spec fn codes_sum<F: Fn(FloatOp, u64, u64) -> u64>(f: F, rows: Seq<Term>, n: int) -> u64
    decreases n,
{
    if n <= 0 {
        0
    } else {
        arith(f, FloatOp::Add, codes_sum(f, rows, n - 1), slot_sum(f, rows, n - 1, Q22_BLOCK as int))
    }
}

/// The average of the positive balances.
pub open spec fn average_balance<F: Fn(FloatOp, u64, u64) -> u64>(f: F, positive: Seq<Term>) -> u64 {
    arith(
        f,
        FloatOp::Div,
        codes_sum(f, positive, CODES as int),
        arith(f, FloatOp::FromU64, codes_count(positive, CODES as int) as u64, 0),
    )
}

/// The hashes of the codes.
pub open spec fn code_hashes() -> Seq<u64> {
    Seq::new(CODES as nat, |b: int| text_hash(code_text(b)))
}

/// The codes among the first `n` of an order that have a customer.
pub open spec fn codes_in_use(rows: Seq<Term>, order: Seq<usize>, n: int) -> Seq<usize>
    decreases n,
{
    if n <= 0 {
        Seq::empty()
    } else if code_count(rows, order[n - 1] as int) == 0 {
        codes_in_use(rows, order, n - 1)
    } else {
        codes_in_use(rows, order, n - 1).push(order[n - 1])
    }
}

/// The answer.
pub open spec fn q22_outcome<F: Fn(FloatOp, u64, u64) -> u64>(
    f: F,
    customer: Table,
    r: Result<QueryResult, Error>,
) -> bool {
    if customer.string_columns@[4] is None {
        not_found(r, "c_phone StringSearchColumn"@)
    } else {
        let positive = rich_customers(customer, 0);
        if codes_count(positive, CODES as int) == 0 {
            answers(
                r,
                seq![("cntrycode"@, Seq::empty()), ("numcust"@, Seq::empty()), ("totacctbal"@, Seq::empty())],
                0,
            )
        } else {
            let rich = rich_customers(customer, average_balance(f, positive));
            exists|order: Seq<usize>| #[trigger]
                is_stable_order(least_first(code_hashes()), order) && ({
                    let used = codes_in_use(rich, order, CODES as int);
                    answers(
                        r,
                        seq![
                            ("cntrycode"@, Seq::new(used.len(), |i: int| code_hashes()[used[i] as int])),
                            ("numcust"@, Seq::new(used.len(), |i: int| code_count(rich, used[i] as int) as u64)),
                            (
                                "totacctbal"@,
                                Seq::new(used.len(), |i: int| slot_sum(f, rich, used[i] as int, Q22_BLOCK as int)),
                            ),
                        ],
                        used.len() as int,
                    )
                })
        }
    }
}

/// The number of the country code that a phone number begins with.
pub fn code_of_phone(phone: &str) -> (b: Option<u64>)
    ensures
        b == phone_code(phone@),
{
    let p: Vec<char> = chars_of(phone);
    if p.len() < 2 {
        None
    } else if p[0] == '1' && p[1] == '3' {
        Some(0)
    } else if p[0] == '3' && p[1] == '1' {
        Some(1)
    } else if p[0] == '2' && p[1] == '3' {
        Some(2)
    } else if p[0] == '2' && p[1] == '9' {
        Some(3)
    } else if p[0] == '3' && p[1] == '0' {
        Some(4)
    } else if p[0] == '1' && p[1] == '8' {
        Some(5)
    } else if p[0] == '1' && p[1] == '7' {
        Some(6)
    } else {
        None
    }
}

fn hash_code(b: usize) -> (h: u64)
    ensures
        h == text_hash(code_text(b as int)),
{
    if b == 0 {
        hash_text("13")
    } else if b == 1 {
        hash_text("31")
    } else if b == 2 {
        hash_text("23")
    } else if b == 3 {
        hash_text("29")
    } else if b == 4 {
        hash_text("30")
    } else if b == 5 {
        hash_text("18")
    } else {
        hash_text("17")
    }
}

fn list_rich(customer: &Table, phones: &StringSearchColumn, limit: u64) -> (rows: Vec<Term>)
    requires
        has_columns(*customer, 6),
        customer.string_columns@[4] == Some(*phones),
    ensures
        rows@ == rich_customers(*customer, limit),
{
    let mut rows: Vec<Term> = Vec::new();
    let mut i: usize = 0;
    while i < customer.row_count
        invariant
            has_columns(*customer, 6),
            customer.string_columns@[4] == Some(*phones),
            i <= customer.row_count,
            rows.len() == i,
            forall|k: int| 0 <= k < i ==> #[trigger] rows@[k] == rich_customer(*customer, limit, k),
        decreases customer.row_count - i,
    {
        let balance: u64 = customer.columns[5][i];
        let row: Term = match code_of_phone(phones.get(i)) {
            Some(b) => if less(limit, balance) {
                Some(((b, 0, 0), balance))
            } else {
                None
            },
            None => None,
        };
        rows.push(row);
        i = i + 1;
    }
    proof {
        assert(rows@ =~= rich_customers(*customer, limit));
    }
    rows
}

/// The counts and the sums of the codes.
fn tally_codes<F: Fn(FloatOp, u64, u64) -> u64>(rows: &Vec<Term>, fpu: &F) -> (r: (Vec<u64>, Vec<u64>))
    requires
        is_arith(*fpu),
    ensures
        r.0.len() == CODES,
        r.1.len() == CODES,
        forall|b: int| 0 <= b < CODES ==> #[trigger] r.0@[b] == code_count(rows@, b),
        forall|b: int| 0 <= b < CODES ==> #[trigger] r.1@[b] == slot_sum(*fpu, rows@, b, Q22_BLOCK as int),
{
    let (groups, counts): (GroupIndex, Vec<u64>) = index_counts(rows);
    let sums: Vec<u64> = sum_slots(rows, CODES, Q22_BLOCK, fpu);
    let mut by_code: Vec<u64> = Vec::new();
    while by_code.len() < CODES
        invariant
            groups.wf(),
            counts.len() == groups@.len(),
            forall|k: Key| !#[trigger] groups@.contains(k) ==> key_count(rows@, k, rows@.len() as int) == 0,
            forall|g: int|
                0 <= g < groups@.len() ==> counts@[g] == key_count(rows@, #[trigger] groups@[g], rows@.len() as int),
            by_code.len() <= CODES,
            forall|b: int| 0 <= b < by_code.len() ==> #[trigger] by_code@[b] == code_count(rows@, b),
        decreases CODES - by_code.len(),
    {
        let b: u64 = by_code.len() as u64;
        by_code.push(count_at(&groups, &counts, (b, 0, 0), Ghost(rows@)));
    }
    (by_code, sums)
}

/// Every counted row counts for one code at most.
proof fn lemma_codes_count_bound(rows: Seq<Term>, n: int, m: int)
    requires
        0 <= n <= CODES,
        0 <= m <= rows.len(),
    ensures
        0 <= codes_count_upto(rows, n, m) <= m,
    decreases m,
{
    if m > 0 {
        lemma_codes_count_bound(rows, n, m - 1);
        lemma_codes_count_step(rows, n, m);
    } else {
        lemma_codes_count_zero(rows, n);
    }
}

/// How many of the first `m` rows are of the first `n` codes.
spec fn codes_count_upto(rows: Seq<Term>, n: int, m: int) -> int
    decreases n,
{
    if n <= 0 {
        0
    } else {
        codes_count_upto(rows, n - 1, m) + key_count(rows, slot_key(n - 1), m)
    }
}

proof fn lemma_codes_count_zero(rows: Seq<Term>, n: int)
    ensures
        codes_count_upto(rows, n, 0) == 0,
    decreases n,
{
    if n > 0 {
        lemma_codes_count_zero(rows, n - 1);
    }
}

proof fn lemma_codes_count_step(rows: Seq<Term>, n: int, m: int)
    requires
        0 < m <= rows.len(),
        n <= CODES,
    ensures
        codes_count_upto(rows, n, m - 1) <= codes_count_upto(rows, n, m) <= codes_count_upto(rows, n, m - 1) + 1,
        codes_count_upto(rows, n, m) == codes_count_upto(rows, n, m - 1) + 1 ==> exists|b: int|
            0 <= b < n && row_has(rows, m - 1, #[trigger] slot_key(b)),
    decreases n,
{
    if n > 0 {
        lemma_codes_count_step(rows, n - 1, m);
    }
}

proof fn lemma_codes_count_is_upto(rows: Seq<Term>, n: int)
    ensures
        codes_count(rows, n) == codes_count_upto(rows, n, rows.len() as int),
    decreases n,
{
    if n > 0 {
        lemma_codes_count_is_upto(rows, n - 1);
    }
}

/// What the query comes to on the tables of a catalog.
pub open spec fn q22_result<F: Fn(FloatOp, u64, u64) -> u64>(f: F, catalog: Catalog, r: Result<QueryResult, Error>) -> bool {
    if !found(catalog, "customer"@) {
        not_found(r, no_table_text("customer"@))
    } else {
        q22_outcome(
            f,
            table_of(catalog, "customer"@),
            r,
        )
    }
}

/// Evaluates the query.
pub fn execute_q22_reformulated<F: Fn(FloatOp, u64, u64) -> u64>(catalog: &Catalog, fpu: &F) -> (r: Result<QueryResult, Error>)
    requires
        is_arith(*fpu),
        table_ok(*catalog, "customer"@, 6),
    ensures
        q22_result(*fpu, *catalog, r),
{
    let customer: &Table = match need(catalog, "customer") {
        Ok(t) => t,
        Err(e) => {
            return Err(e);
        },
    };
    q22_answer(customer, fpu)
}

/// Evaluates the query on its tables.
pub fn q22_answer<F: Fn(FloatOp, u64, u64) -> u64>(
    customer: &Table,
    fpu: &F,
) -> (r: Result<QueryResult, Error>)
    requires
        is_arith(*fpu),
        has_columns(*customer, 6),
    ensures
        q22_outcome(*fpu, *customer, r),
{
    let phones: &StringSearchColumn = match &customer.string_columns[4] {
        Some(s) => s,
        None => {
            return Err(missing("c_phone StringSearchColumn"));
        },
    };
    let positive: Vec<Term> = list_rich(customer, phones, 0);
    let (counts, sums): (Vec<u64>, Vec<u64>) = tally_codes(&positive, fpu);
    let mut total: u64 = 0;
    let mut number: u64 = 0;
    let mut b: usize = 0;
    while b < CODES
        invariant
            is_arith(*fpu),
            counts.len() == CODES,
            sums.len() == CODES,
            forall|k: int| 0 <= k < CODES ==> #[trigger] counts@[k] == code_count(positive@, k),
            forall|k: int| 0 <= k < CODES ==> #[trigger] sums@[k] == slot_sum(*fpu, positive@, k, Q22_BLOCK as int),
            b <= CODES,
            total == codes_sum(*fpu, positive@, b as int),
            number == codes_count(positive@, b as int),
        decreases CODES - b,
    {
        total = fpu(FloatOp::Add, total, sums[b]);
        proof {
            lemma_codes_count_is_upto(positive@, b + 1);
            lemma_codes_count_bound(positive@, b + 1, positive@.len() as int);
            assert(codes_count(positive@, b + 1) == number + counts@[b as int]);
            assert(positive@.len() == positive.len());
        }
        number = number + counts[b];
        b = b + 1;
    }
    if number == 0 {
        let mut none: Vec<ResultColumn> = Vec::new();
        none.push(column("cntrycode", Vec::new()));
        none.push(column("numcust", Vec::new()));
        none.push(column("totacctbal", Vec::new()));
        proof {
            assert(none@.map_values(|c: ResultColumn| column_view(c)) =~= seq![
                ("cntrycode"@, Seq::empty()),
                ("numcust"@, Seq::empty()),
                ("totacctbal"@, Seq::empty()),
            ]);
        }
        return result(none, 0);
    }
    let divisor: u64 = fpu(FloatOp::FromU64, number, 0);
    let average: u64 = fpu(FloatOp::Div, total, divisor);
    let rich: Vec<Term> = list_rich(customer, phones, average);
    let (rich_counts, rich_sums): (Vec<u64>, Vec<u64>) = tally_codes(&rich, fpu);
    let mut hashes: Vec<u64> = Vec::new();
    while hashes.len() < CODES
        invariant
            hashes.len() <= CODES,
            forall|k: int| 0 <= k < hashes.len() ==> #[trigger] hashes@[k] == text_hash(code_text(k)),
        decreases CODES - hashes.len(),
    {
        let c: usize = hashes.len();
        hashes.push(hash_code(c));
    }
    proof {
        assert(hashes@ =~= code_hashes());
    }
    let keys: Vec<Vec<u64>> = keys_least_first(&hashes);
    let order: Vec<usize> = stable_order(&keys);
    proof {
        lemma_order_bounds(key_rows(keys@), order@);
    }
    let mut used: Vec<usize> = Vec::new();
    let mut codes: Vec<u64> = Vec::new();
    let mut customers: Vec<u64> = Vec::new();
    let mut balances: Vec<u64> = Vec::new();
    let mut q: usize = 0;
    while q < CODES
        invariant
            order.len() == CODES,
            hashes@ == code_hashes(),
            forall|k: int| 0 <= k < order.len() ==> #[trigger] order@[k] < CODES,
            rich_counts.len() == CODES,
            rich_sums.len() == CODES,
            forall|k: int| 0 <= k < CODES ==> #[trigger] rich_counts@[k] == code_count(rich@, k),
            forall|k: int| 0 <= k < CODES ==> #[trigger] rich_sums@[k] == slot_sum(*fpu, rich@, k, Q22_BLOCK as int),
            q <= CODES,
            used@ == codes_in_use(rich@, order@, q as int),
            codes.len() == used.len(),
            customers.len() == used.len(),
            balances.len() == used.len(),
            forall|k: int| 0 <= k < used.len() ==> #[trigger] codes@[k] == code_hashes()[used@[k] as int],
            forall|k: int| 0 <= k < used.len() ==> #[trigger] customers@[k] == code_count(rich@, used@[k] as int),
            forall|k: int|
                0 <= k < used.len() ==> #[trigger] balances@[k] == slot_sum(
                    *fpu,
                    rich@,
                    used@[k] as int,
                    Q22_BLOCK as int,
                ),
        decreases CODES - q,
    {
        let c: usize = order[q];
        if rich_counts[c] != 0 {
            used.push(c);
            codes.push(hashes[c]);
            customers.push(rich_counts[c]);
            balances.push(rich_sums[c]);
        }
        q = q + 1;
    }
    let rows: usize = used.len();
    proof {
        assert(codes@ =~= Seq::new(used@.len(), |i: int| code_hashes()[used@[i] as int]));
        assert(customers@ =~= Seq::new(used@.len(), |i: int| code_count(rich@, used@[i] as int) as u64));
        assert(balances@ =~= Seq::new(used@.len(), |i: int| slot_sum(*fpu, rich@, used@[i] as int, Q22_BLOCK as int)));
    }
    let mut columns: Vec<ResultColumn> = Vec::new();
    columns.push(column("cntrycode", codes));
    columns.push(column("numcust", customers));
    columns.push(column("totacctbal", balances));
    proof {
        assert(columns@.map_values(|c: ResultColumn| column_view(c)) =~= seq![
            ("cntrycode"@, codes@),
            ("numcust"@, customers@),
            ("totacctbal"@, balances@),
        ]);
    }
    result(columns, rows)
}

/// A customer who is listed has more than the limit, so at a limit of zero a
/// positive balance.
pub proof fn listed_customers_exceed_limit(customer: Table, limit: u64, i: int)
    ensures
        rich_customer(customer, limit, i) matches Some((_, balance)) ==> float_lt(limit, balance) && balance == col(
            customer,
            5,
        )[i],
{
}

} // verus!
