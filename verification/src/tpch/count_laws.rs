//! What the counts and sums of the decision-support queries come to.

use crate::dates::date_cell;
use crate::error::Error;
use crate::float_bits::{arith, float_lt, FloatOp};
use crate::group_index::{row_of_key, Key};
use crate::hashing::text_hash;
use crate::table::{QueryResult, Table};
use crate::tpch::part_laws::some_with;
use crate::tpch::q12::{high_orders, q12_cell, q12_count, q12_outcome};
use crate::tpch::q13::{customers_with, has_then, orders_of, q13_orders};
use crate::tpch::q17::{q17_lines, q17_outcome, q17_small_lines, small_revenue};
use crate::tpch::q18::{great_orders, q18_line, q18_lines, q18_quantities, run_begins, run_sum};
use crate::tpch::q21::{alone_late, q21_lines};
use crate::tpch::q22::{code_count, rich_customers};
use crate::tpch::q4::late_lines;
use crate::tpch::row_laws::{last_with, lemma_found, lemma_found_with};
use crate::tpch::sums::{
    block_start, block_sum, blocks_sum, dense_blocks_sum, group_keys, group_sum, key_count, lemma_block_start,
    lemma_last_block, or_zero, row_has, slot_key, slot_sum, Term, BLOCK,
};
use crate::tpch::support::{col, has_columns, has_part, is_first_place, string_at};
use vstd::prelude::*;

verus! {

/// Adding is associative, and zero adds nothing.
pub open spec fn adds_exactly<F: Fn(FloatOp, u64, u64) -> u64>(f: F) -> bool {
    &&& forall|a: u64, b: u64, c: u64|
        #![trigger arith(f, FloatOp::Add, arith(f, FloatOp::Add, a, b), c)]
        #![trigger arith(f, FloatOp::Add, a, arith(f, FloatOp::Add, b, c))]
        arith(f, FloatOp::Add, arith(f, FloatOp::Add, a, b), c) == arith(
            f,
            FloatOp::Add,
            a,
            arith(f, FloatOp::Add, b, c),
        )
    &&& forall|a: u64| #[trigger] arith(f, FloatOp::Add, a, 0) == a
    &&& forall|a: u64| #[trigger] arith(f, FloatOp::Add, 0, a) == a
}

/// The terms of a key among the first `n` rows, added one after another.
pub open spec fn plain_sum<F: Fn(FloatOp, u64, u64) -> u64>(f: F, rows: Seq<Term>, k: Key, n: int) -> u64
    decreases n,
{
    if n <= 0 {
        0
    } else if rows[n - 1] is Some && (rows[n - 1]->Some_0).0 == k {
        arith(f, FloatOp::Add, plain_sum(f, rows, k, n - 1), (rows[n - 1]->Some_0).1)
    } else {
        plain_sum(f, rows, k, n - 1)
    }
}

proof fn lemma_first_block<F: Fn(FloatOp, u64, u64) -> u64>(f: F, rows: Seq<Term>, k: Key, n: int)
    requires
        0 <= n <= rows.len(),
    ensures
        or_zero(block_sum(f, rows, k, 0, n)) == plain_sum(f, rows, k, n),
        block_sum(f, rows, k, 0, n) is Some <==> exists|i: int| 0 <= i < n && #[trigger] row_has(rows, i, k),
    decreases n,
{
    if n > 0 {
        lemma_first_block(f, rows, k, n - 1);
        if row_has(rows, n - 1, k) {
        }
    }
}

/// Within one block of rows the sum of a key is that of its terms one after another, added to zero; there is none
/// without a row of the key.
pub proof fn sums_within_a_block<F: Fn(FloatOp, u64, u64) -> u64>(f: F, rows: Seq<Term>, k: Key)
    requires
        rows.len() <= 65536,
    ensures
        group_sum(f, rows, k) is Some <==> exists|i: int| 0 <= i < rows.len() && #[trigger] row_has(rows, i, k),
        group_sum(f, rows, k) matches Some(sum) ==> sum == arith(
            f,
            FloatOp::Add,
            0,
            plain_sum(f, rows, k, rows.len() as int),
        ),
{
    let n = rows.len() as int;
    lemma_first_block(f, rows, k, n);
    reveal_with_fuel(blocks_sum, 3);
    if n > 0 {
        assert((n - 1) / 65536 == 0);
        lemma_block_start(n, BLOCK as int, 0);
        lemma_last_block(n, BLOCK as int);
        assert(group_sum(f, rows, k) == blocks_sum(f, rows, k, BLOCK as int, 1));
    }
}

proof fn lemma_from<F: Fn(FloatOp, u64, u64) -> u64>(f: F, rows: Seq<Term>, k: Key, lo: int, hi: int)
    requires
        adds_exactly(f),
        0 <= lo <= hi <= rows.len(),
    ensures
        plain_sum(f, rows, k, hi) == arith(
            f,
            FloatOp::Add,
            plain_sum(f, rows, k, lo),
            or_zero(block_sum(f, rows, k, lo, hi)),
        ),
    decreases hi - lo,
{
    if lo < hi {
        lemma_from(f, rows, k, lo, hi - 1);
        let p = plain_sum(f, rows, k, lo);
        let s = or_zero(block_sum(f, rows, k, lo, hi - 1));
        if row_has(rows, hi - 1, k) {
            let t = (rows[hi - 1]->Some_0).1;
            assert(arith(f, FloatOp::Add, arith(f, FloatOp::Add, p, s), t) == arith(
                f,
                FloatOp::Add,
                p,
                arith(f, FloatOp::Add, s, t),
            ));
        }
    }
}

proof fn lemma_blocks<F: Fn(FloatOp, u64, u64) -> u64>(f: F, rows: Seq<Term>, k: Key, size: int, b: nat)
    requires
        adds_exactly(f),
        size > 0,
    ensures
        or_zero(blocks_sum(f, rows, k, size, b)) == plain_sum(f, rows, k, block_start(rows.len() as int, size, b as int)),
        dense_blocks_sum(f, rows, k, size, b) == plain_sum(f, rows, k, block_start(rows.len() as int, size, b as int)),
    decreases b,
{
    let n = rows.len() as int;
    lemma_block_start(n, size, b as int);
    if b > 0 {
        lemma_blocks(f, rows, k, size, (b - 1) as nat);
        lemma_block_start(n, size, b - 1);
        lemma_from(f, rows, k, block_start(n, size, b - 1), block_start(n, size, b as int));
    }
}

/// Where adding is exact, the sum of a key is that of its terms one after another, whatever the blocks.
pub proof fn sums_do_not_depend_on_blocks<F: Fn(FloatOp, u64, u64) -> u64>(f: F, rows: Seq<Term>, k: Key, slot: int, size: int)
    requires
        adds_exactly(f),
        size > 0,
        0 <= slot <= u64::MAX,
    ensures
        or_zero(group_sum(f, rows, k)) == plain_sum(f, rows, k, rows.len() as int),
        slot_sum(f, rows, slot, size) == plain_sum(f, rows, (slot as u64, 0u64, 0u64), rows.len() as int),
{
    let n = rows.len() as int;
    lemma_last_block(n, BLOCK as int);
    lemma_last_block(n, size);
    lemma_blocks(f, rows, k, BLOCK as int, crate::tpch::sums::block_count(n, BLOCK as int));
    lemma_blocks(f, rows, slot_key(slot), size, crate::tpch::sums::block_count(n, size));
}

/// How many of the first `n` numbers have a property.
pub open spec fn how_many(n: int, p: spec_fn(int) -> bool) -> int
    decreases n,
{
    if n <= 0 {
        0
    } else if p(n - 1) {
        how_many(n - 1, p) + 1
    } else {
        how_many(n - 1, p)
    }
}

/// The counts of keys are the numbers of their rows.
pub proof fn key_counts_are_numbers_of_rows(rows: Seq<Term>, k: Key, n: int)
    requires
        0 <= n <= rows.len(),
    ensures
        key_count(rows, k, n) == how_many(n, |i: int| rows[i] is Some && (rows[i]->Some_0).0 == k),
        0 <= key_count(rows, k, n) <= n,
    decreases n,
{
    if n > 0 {
        key_counts_are_numbers_of_rows(rows, k, n - 1);
    }
}

proof fn lemma_same_number(n: int, p: spec_fn(int) -> bool, q: spec_fn(int) -> bool)
    requires
        forall|i: int| 0 <= i < n ==> #[trigger] p(i) == q(i),
    ensures
        how_many(n, p) == how_many(n, q),
        0 <= how_many(n, p) <= (if n > 0 { n } else { 0 }),
    decreases n,
{
    if n > 0 {
        lemma_same_number(n - 1, p, q);
    }
}

/// A line was shipped before the day it was committed for and received after it, in the year, by a ship mode.
pub open spec fn shipped_late(lineitem: Table, i: int, mode: u64) -> bool {
    &&& col(lineitem, 14)[i] == mode
    &&& col(lineitem, 10)[i] < col(lineitem, 11)[i] < col(lineitem, 12)[i]
    &&& date_cell(1994, 1, 1) <= col(lineitem, 12)[i] < date_cell(1995, 1, 1)
}

/// Some order with the key is of one of the two high priorities.
pub open spec fn urgent(orders: Table, key: u64) -> bool {
    some_with(orders, 0, key, 5, text_hash("1-URGENT"@)) || some_with(orders, 0, key, 5, text_hash("2-HIGH"@))
}

proof fn lemma_mode_count(orders: Table, lineitem: Table, mode: int, word: u64, high: bool, n: int)
    requires
        has_columns(orders, 6),
        has_columns(lineitem, 15),
        0 <= n <= lineitem.row_count,
        text_hash("MAIL"@) != text_hash("SHIP"@),
        mode == 0 && word == text_hash("MAIL"@) || mode == 1 && word == text_hash("SHIP"@),
    ensures
        q12_count(orders, lineitem, mode, high, n) == how_many(
            n,
            |i: int| shipped_late(lineitem, i, word) && high == urgent(orders, col(lineitem, 0)[i]),
        ),
        0 <= q12_count(orders, lineitem, mode, high, n) <= n,
    decreases n,
{
    if n > 0 {
        lemma_mode_count(orders, lineitem, mode, word, high, n - 1);
        let key = col(lineitem, 0)[n - 1];
        lemma_found(orders, 0, high_orders(orders), key);
        if row_of_key(col(orders, 0), high_orders(orders), key) is None {
            assert(!urgent(orders, key));
        } else {
            assert(urgent(orders, key));
        }
    }
}

/// Each row of the answer has the numbers, as doubles, of the late lines of its ship mode whose orders are urgent
/// and of those whose orders are not.
pub proof fn late_lines_are_counted_by_mode_and_class<F: Fn(FloatOp, u64, u64) -> u64>(
    f: F,
    orders: Table,
    lineitem: Table,
    q: QueryResult,
    m: int,
)
    requires
        has_columns(orders, 6),
        has_columns(lineitem, 15),
        text_hash("MAIL"@) != text_hash("SHIP"@),
        q12_outcome(f, orders, lineitem, Ok::<QueryResult, Error>(q)),
        0 <= m < 2,
    ensures
        q.row_count == 2,
        q@[0] == ("l_shipmode"@, seq![text_hash("MAIL"@), text_hash("SHIP"@)]),
        q@[1].0 == "high_line_count"@,
        q@[2].0 == "low_line_count"@,
        q@[1].1[m] == arith(
            f,
            FloatOp::FromU64,
            how_many(
                lineitem.row_count as int,
                |i: int| shipped_late(lineitem, i, q@[0].1[m]) && urgent(orders, col(lineitem, 0)[i]),
            ) as u64,
            0,
        ),
        q@[2].1[m] == arith(
            f,
            FloatOp::FromU64,
            how_many(
                lineitem.row_count as int,
                |i: int| shipped_late(lineitem, i, q@[0].1[m]) && !urgent(orders, col(lineitem, 0)[i]),
            ) as u64,
            0,
        ),
{
    let n = lineitem.row_count as int;
    let word = q@[0].1[m];
    lemma_mode_count(orders, lineitem, m, word, true, n);
    lemma_mode_count(orders, lineitem, m, word, false, n);
    lemma_same_number(
        n,
        |i: int| shipped_late(lineitem, i, word) && true == urgent(orders, col(lineitem, 0)[i]),
        |i: int| shipped_late(lineitem, i, q@[0].1[m]) && urgent(orders, col(lineitem, 0)[i]),
    );
    lemma_same_number(
        n,
        |i: int| shipped_late(lineitem, i, word) && false == urgent(orders, col(lineitem, 0)[i]),
        |i: int| shipped_late(lineitem, i, q@[0].1[m]) && !urgent(orders, col(lineitem, 0)[i]),
    );
    assert(q@[1].1[m] == q12_cell(f, orders, lineitem, m, true));
    assert(q@[2].1[m] == q12_cell(f, orders, lineitem, m, false));
}

/// A part stands at a place of a text.
pub open spec fn stands_at(text: Seq<char>, part: Seq<char>, p: int) -> bool {
    0 <= p && p + part.len() <= text.len() && text.subrange(p, p + part.len()) == part
}

/// One part stands in a text, and another one somewhere behind it.
pub open spec fn in_turn(text: Seq<char>, first: Seq<char>, second: Seq<char>) -> bool {
    exists|p: int, q: int| #[trigger]
        stands_at(text, first, p) && #[trigger] stands_at(text, second, q) && p + first.len() <= q
}

/// The first place of a part suffices to tell whether another one stands behind one of its places.
pub proof fn first_place_tells_what_follows(text: Seq<char>, first: Seq<char>, second: Seq<char>)
    requires
        text.len() <= usize::MAX,
    ensures
        has_then(text, first, second) <==> in_turn(text, first, second),
{
    if has_then(text, first, second) {
        let p = choose|p: usize| #[trigger]
            is_first_place(text, first, 0, Some(p)) && has_part(text.skip(p + first.len()), second);
        let rest = text.skip(p + first.len());
        let q = choose|q: int|
            #![trigger rest.subrange(q, q + second.len())]
            0 <= q && q + second.len() <= rest.len() && rest.subrange(q, q + second.len()) == second;
        let at = p + first.len() + q;
        assert(rest.subrange(q, q + second.len()) =~= text.subrange(at, at + second.len()));
        assert(stands_at(text, first, p as int));
        assert(stands_at(text, second, at));
    }
    if in_turn(text, first, second) {
        let (p, q) = choose|p: int, q: int| #[trigger]
            stands_at(text, first, p) && #[trigger] stands_at(text, second, q) && p + first.len() <= q;
        lemma_least_place(text, first, p);
        let least = choose|least: int| #[trigger]
            stands_at(text, first, least) && least <= p && (forall|z: int|
                0 <= z < least ==> !#[trigger] stands_at(text, first, z));
        assert(is_first_place(text, first, 0, Some(least as usize))) by {
            assert forall|z: int|
                #![trigger text.subrange(z, z + first.len())]
                0 <= z < least implies text.subrange(z, z + first.len()) != first by {
                assert(!stands_at(text, first, z));
            }
        }
        let rest = text.skip(least + first.len());
        let at = q - least - first.len();
        assert(rest.subrange(at, at + second.len()) =~= text.subrange(q, q + second.len()));
        assert(has_part(rest, second));
        assert(rest == text.skip((least as usize) + first.len()));
    }
}

proof fn lemma_least_place(text: Seq<char>, part: Seq<char>, p: int)
    requires
        stands_at(text, part, p),
    ensures
        exists|least: int| #[trigger]
            stands_at(text, part, least) && least <= p && (forall|z: int|
                0 <= z < least ==> !#[trigger] stands_at(text, part, z)),
    decreases p,
{
    if exists|z: int| 0 <= z < p && #[trigger] stands_at(text, part, z) {
        let z = choose|z: int| 0 <= z < p && #[trigger] stands_at(text, part, z);
        lemma_least_place(text, part, z);
    } else {
        assert(stands_at(text, part, p) && p <= p);
    }
}

/// An order of a customer that does not complain.
pub open spec fn is_quiet(orders: Table, customer: u64, o: int) -> bool {
    col(orders, 1)[o] == customer && !in_turn(string_at(orders, 8, o), "special"@, "requests"@)
}

/// The number of orders of a customer that do not complain.
pub open spec fn quiet_orders(orders: Table, customer: u64) -> int {
    how_many(orders.row_count as int, |o: int| is_quiet(orders, customer, o))
}

/// The customers with a number of orders are those with so many that do not complain.
pub proof fn customers_are_counted_by_quiet_orders(customer: Table, orders: Table, c: int, n: int)
    requires
        has_columns(customer, 1),
        has_columns(orders, 9),
        orders.string_columns@[8] is Some,
        forall|o: int| 0 <= o < orders.row_count ==> (#[trigger] string_at(orders, 8, o)).len() <= usize::MAX,
        0 <= n <= customer.row_count,
    ensures
        customers_with(q13_orders(orders, orders.string_columns@[8]->0), customer, c, n) == how_many(
            n,
            |i: int| quiet_orders(orders, col(customer, 0)[i]) == c,
        ),
    decreases n,
{
    if n > 0 {
        customers_are_counted_by_quiet_orders(customer, orders, c, n - 1);
        let key = col(customer, 0)[n - 1];
        let comments = orders.string_columns@[8]->0;
        let counted = q13_orders(orders, comments);
        let k: Key = (key, 0u64, 0u64);
        key_counts_are_numbers_of_rows(counted, k, counted.len() as int);
        let p = |i: int| counted[i] is Some && (counted[i]->Some_0).0 == k;
        let q = |o: int| is_quiet(orders, key, o);
        assert forall|i: int| 0 <= i < orders.row_count implies #[trigger] p(i) == q(i) by {
            let text = string_at(orders, 8, i);
            assert(text == comments.strings@[i]@);
            first_place_tells_what_follows(text, "special"@, "requests"@);
        }
        lemma_same_number(orders.row_count as int, p, q);
        assert(orders_of(counted, key) == quiet_orders(orders, key));
    }
}

/// The yearly average is the revenue of the small lines over seven. (The word is that of seven.)
pub proof fn small_revenue_is_averaged_over_seven_years<F: Fn(FloatOp, u64, u64) -> u64>(
    f: F,
    part: Table,
    lineitem: Table,
    q: QueryResult,
)
    requires
        q17_outcome(f, part, lineitem, Ok::<QueryResult, Error>(q)),
    ensures
        q.row_count == 1,
        ({
            let lines = q17_lines(part, lineitem);
            let parts = group_keys(lines);
            q@ == seq![
                (
                    "avg_yearly"@,
                    seq![
                        arith(
                            f,
                            FloatOp::Div,
                            small_revenue(f, q17_small_lines(f, lines, lineitem), parts, parts.len() as int),
                            0x401C_0000_0000_0000,
                        ),
                    ],
                ),
            ]
        }),
{
}

/// The quantities of the lines of an order among the first `n`, added one after another.
pub open spec fn quantity_of<F: Fn(FloatOp, u64, u64) -> u64>(f: F, lineitem: Table, key: u64, n: int) -> u64
    decreases n,
{
    if n <= 0 {
        0
    } else if col(lineitem, 0)[n - 1] == key {
        arith(f, FloatOp::Add, quantity_of(f, lineitem, key, n - 1), col(lineitem, 4)[n - 1])
    } else {
        quantity_of(f, lineitem, key, n - 1)
    }
}

spec fn run_ends(lineitem: Table, i: int) -> bool {
    i + 1 >= lineitem.row_count || run_begins(col(lineitem, 0), i + 1)
}

proof fn lemma_runs<F: Fn(FloatOp, u64, u64) -> u64>(f: F, lineitem: Table, key: u64, n: int)
    requires
        has_columns(lineitem, 5),
        adds_exactly(f),
        key != u64::MAX,
        0 <= n <= lineitem.row_count,
    ensures
        ({
            let plain = plain_sum(f, q18_lines(f, lineitem), (key, 0u64, 0u64), n);
            let all = quantity_of(f, lineitem, key, n);
            if n == 0 || run_ends(lineitem, n - 1) || col(lineitem, 0)[n - 1] != key {
                plain == all
            } else {
                all == arith(f, FloatOp::Add, plain, run_sum(f, col(lineitem, 0), col(lineitem, 4), n - 1))
            }
        }),
    decreases n,
{
    if n > 0 {
        lemma_runs(f, lineitem, key, n - 1);
        let i = n - 1;
        let keys = col(lineitem, 0);
        let amounts = col(lineitem, 4);
        let lines = q18_lines(f, lineitem);
        let k: Key = (key, 0u64, 0u64);
        let plain = plain_sum(f, lines, k, i);
        let q = amounts[i];
        assert(lines[i] == q18_line(f, lineitem, i));
        if keys[i] == key {
            if run_begins(keys, i) {
                assert(i == 0 || run_ends(lineitem, i - 1));
                assert(run_sum(f, keys, amounts, i) == q);
            } else {
                assert(keys[i - 1] == key);
                let r = run_sum(f, keys, amounts, i - 1);
                assert(run_sum(f, keys, amounts, i) == arith(f, FloatOp::Add, r, q));
                assert(arith(f, FloatOp::Add, arith(f, FloatOp::Add, plain, r), q) == arith(
                    f,
                    FloatOp::Add,
                    plain,
                    arith(f, FloatOp::Add, r, q),
                ));
            }
        } else {
            assert(plain_sum(f, lines, k, n) == plain);
            if i > 0 && !run_ends(lineitem, i - 1) {
                assert(keys[i - 1] == keys[i]);
            }
        }
    }
}

/// Where adding is exact, the quantity of an order is that of all its lines. An order is large if its quantity
/// exceeds three hundred. (The word is that of three hundred; the greatest word is no order.)
pub proof fn order_quantities_are_those_of_all_lines<F: Fn(FloatOp, u64, u64) -> u64>(f: F, orders: Table, lineitem: Table, i: int)
    requires
        has_columns(orders, 1),
        has_columns(lineitem, 5),
        adds_exactly(f),
        0 <= i < orders.row_count,
        col(orders, 0)[i] != u64::MAX,
    ensures
        q18_quantities(f, orders, lineitem).len() == orders.row_count,
        q18_quantities(f, orders, lineitem)[i] == quantity_of(
            f,
            lineitem,
            col(orders, 0)[i],
            lineitem.row_count as int,
        ),
        great_orders(q18_quantities(f, orders, lineitem))[i] <==> float_lt(
            0x4072_C000_0000_0000,
            quantity_of(f, lineitem, col(orders, 0)[i], lineitem.row_count as int),
        ),
{
    let key = col(orders, 0)[i];
    let lines = q18_lines(f, lineitem);
    sums_do_not_depend_on_blocks(f, lines, (key, 0u64, 0u64), 0, 1);
    lemma_runs(f, lineitem, key, lineitem.row_count as int);
}

/// A line counts against its supplier if it alone is late, the order has the status, and the supplier is of the
/// country; it counts by the supplier's name.
pub proof fn lines_that_keep_orders_waiting_count(
    lineitem: Table,
    orders: Table,
    supplier: Table,
    country: u64,
    i: int,
)
    requires
        has_columns(lineitem, 13),
        has_columns(orders, 3),
        has_columns(supplier, 4),
        0 <= i < lineitem.row_count,
    ensures
        q21_lines(lineitem, orders, supplier, country).len() == lineitem.row_count,
        q21_lines(lineitem, orders, supplier, country)[i] is Some <==> alone_late(lineitem, i) && some_with(
            orders,
            0,
            col(lineitem, 0)[i],
            2,
            text_hash("F"@),
        ) && some_with(supplier, 0, col(lineitem, 2)[i], 3, country),
        forall|s: int| #[trigger]
            last_with(supplier, 0, col(lineitem, 2)[i], 3, country, s) ==> (q21_lines(
                lineitem,
                orders,
                supplier,
                country,
            )[i] matches Some((k, _)) ==> k == (col(supplier, 1)[s], 0u64, 0u64)),
        late_lines(lineitem)[i] <==> col(lineitem, 12)[i] > col(lineitem, 11)[i],
{
    lemma_found_with(orders, 0, col(lineitem, 0)[i], 2, text_hash("F"@));
    lemma_found_with(supplier, 0, col(lineitem, 2)[i], 3, country);
}

/// The country codes that are asked for, in the order of their numbers.
pub open spec fn wanted_codes() -> Seq<Seq<char>> {
    seq![
        seq!['1', '3'],
        seq!['3', '1'],
        seq!['2', '3'],
        seq!['2', '9'],
        seq!['3', '0'],
        seq!['1', '8'],
        seq!['1', '7'],
    ]
}

/// The phone number of a customer begins with a code.
pub open spec fn calls_from(customer: Table, i: int, code: Seq<char>) -> bool {
    string_at(customer, 4, i).len() >= 2 && string_at(customer, 4, i).take(2) == code
}

/// A customer counts for the code that the phone number begins with, with the balance, if it exceeds the limit.
pub proof fn rich_customers_count_by_code(customer: Table, limit: u64, i: int, b: int)
    requires
        has_columns(customer, 6),
        0 <= i < customer.row_count,
        0 <= b < 7,
    ensures
        wanted_codes()[b] == crate::tpch::q22::code_text(b),
        rich_customers(customer, limit).len() == customer.row_count,
        rich_customers(customer, limit)[i] == Some(((b as u64, 0u64, 0u64), col(customer, 5)[i])) <==> calls_from(
            customer,
            i,
            wanted_codes()[b],
        ) && float_lt(limit, col(customer, 5)[i]),
        rich_customers(customer, limit)[i] matches Some((k, _)) ==> k.0 < 7 && calls_from(
            customer,
            i,
            wanted_codes()[k.0 as int],
        ),
{
    reveal_strlit("13");
    reveal_strlit("31");
    reveal_strlit("23");
    reveal_strlit("29");
    reveal_strlit("30");
    reveal_strlit("18");
    reveal_strlit("17");
    let phone = string_at(customer, 4, i);
    let codes = wanted_codes();
    assert(codes[b] =~= crate::tpch::q22::code_text(b));
    if phone.len() >= 2 {
        assert forall|z: int| 0 <= z < 7 implies (phone.take(2) == #[trigger] codes[z] <==> phone[0] == codes[z][0]
            && phone[1] == codes[z][1]) by {
            assert(codes[z].len() == 2);
            if phone[0] == codes[z][0] && phone[1] == codes[z][1] {
                assert(phone.take(2) =~= codes[z]);
            }
            if phone.take(2) == codes[z] {
                assert(phone[0] == phone.take(2)[0] && phone[1] == phone.take(2)[1]);
            }
        }
        assert(phone.take(2) == codes[b] <==> phone[0] == codes[b][0] && phone[1] == codes[b][1]);
        match rich_customers(customer, limit)[i] {
            Some((k, _)) => {
                assert(phone.take(2) == codes[k.0 as int] <==> phone[0] == codes[k.0 as int][0] && phone[1]
                    == codes[k.0 as int][1]);
            },
            None => {},
        }
    }
}

/// A code's number of customers is that of the customers with the code whose balance exceeds the limit.
pub proof fn codes_count_their_customers(customer: Table, limit: u64, b: int)
    requires
        has_columns(customer, 6),
        0 <= b < 7,
    ensures
        code_count(rich_customers(customer, limit), b) == how_many(
            customer.row_count as int,
            |i: int| calls_from(customer, i, wanted_codes()[b]) && float_lt(limit, col(customer, 5)[i]),
        ),
{
    let rows = rich_customers(customer, limit);
    let k: Key = (b as u64, 0u64, 0u64);
    let n = customer.row_count as int;
    key_counts_are_numbers_of_rows(rows, k, n);
    let p = |i: int| rows[i] is Some && (rows[i]->Some_0).0 == k;
    let q = |i: int| calls_from(customer, i, wanted_codes()[b]) && float_lt(limit, col(customer, 5)[i]);
    assert forall|i: int| 0 <= i < n implies #[trigger] p(i) == q(i) by {
        rich_customers_count_by_code(customer, limit, i, b);
    }
    lemma_same_number(n, p, q);
}

} // verus!
