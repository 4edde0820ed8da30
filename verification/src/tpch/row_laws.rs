//! Which rows count in the decision-support queries, and for what.

use crate::dates::{date_cell, year_cell};
use crate::float_bits::{discounted, FloatOp};
use crate::group_index::{row_of_key, row_of_key_is_last};
use crate::hashing::text_hash;
use crate::table::Table;
use crate::tpch::laws::holds_last;
use crate::tpch::q10::{q10_lines, q10_orders};
use crate::tpch::q4::{late_lines, q4_orders};
use crate::tpch::q5::{nation_slot, nations_of, order_slot, party_slot, q5_lines, q5_orders};
use crate::tpch::q7::{last_first_named, last_named, nation_pair, of_pair, order_customer, q7_lines, NationPair};
use crate::tpch::support::{all_marked, col, has_columns, marked_before, marked_cells, marks_between, marks_equal};
use vstd::prelude::*;

verus! {

/// A row of a table holds a key in a column.
pub open spec fn held_by(t: Table, c: int, key: u64, i: int) -> bool {
    0 <= i < t.row_count && col(t, c)[i] == key
}

/// The last row that holds a key in one column and a word in another.
pub open spec fn last_with(t: Table, c: int, key: u64, d: int, word: u64, i: int) -> bool {
    &&& held_by(t, c, key, i) && col(t, d)[i] == word
    &&& forall|j: int| j > i && #[trigger] held_by(t, c, key, j) ==> col(t, d)[j] != word
}

/// The last row that holds a key in one column and a word from `lo` up to `hi` in another.
pub open spec fn last_between(t: Table, c: int, key: u64, d: int, lo: u64, hi: u64, i: int) -> bool {
    &&& held_by(t, c, key, i) && lo <= col(t, d)[i] < hi
    &&& forall|j: int| j > i && #[trigger] held_by(t, c, key, j) ==> !(lo <= col(t, d)[j] < hi)
}

pub proof fn lemma_found(t: Table, c: int, marks: Seq<bool>, key: u64)
    requires
        t.wf(),
        0 <= c < t.columns.len(),
        marks.len() == t.row_count,
    ensures
        match row_of_key(col(t, c), marks, key) {
            Some(i) => held_by(t, c, key, i as int) && marks[i as int] && forall|j: int|
                j > i && #[trigger] held_by(t, c, key, j) ==> !marks[j],
            None => forall|j: int| #[trigger] held_by(t, c, key, j) ==> !marks[j],
        },
{
    row_of_key_is_last(col(t, c), marks, t.row_count as int, key);
}

pub proof fn lemma_found_last(t: Table, c: int, key: u64)
    requires
        t.wf(),
        0 <= c < t.columns.len(),
    ensures
        match row_of_key(col(t, c), all_marked(t.row_count as nat), key) {
            Some(i) => holds_last(t, c, key, i as int),
            None => forall|i: int| !held_by(t, c, key, i),
        },
        forall|i: int, j: int| #[trigger] holds_last(t, c, key, i) && #[trigger] holds_last(t, c, key, j) ==> i == j,
{
    lemma_found(t, c, all_marked(t.row_count as nat), key);
    match row_of_key(col(t, c), all_marked(t.row_count as nat), key) {
        Some(i) => {
            assert forall|j: int| i < j < t.row_count implies #[trigger] col(t, c)[j] != key by {
                assert(held_by(t, c, key, j) ==> !all_marked(t.row_count as nat)[j]);
            }
        },
        None => {
            assert forall|i: int| !held_by(t, c, key, i) by {
                if held_by(t, c, key, i) {
                    assert(!all_marked(t.row_count as nat)[i]);
                }
            }
        },
    }
}

pub proof fn lemma_found_with(t: Table, c: int, key: u64, d: int, word: u64)
    requires
        t.wf(),
        0 <= c < t.columns.len(),
        0 <= d < t.columns.len(),
    ensures
        match row_of_key(col(t, c), marks_equal(col(t, d), word), key) {
            Some(i) => last_with(t, c, key, d, word, i as int),
            None => forall|i: int| #[trigger] held_by(t, c, key, i) ==> col(t, d)[i] != word,
        },
        forall|i: int, j: int|
            #[trigger] last_with(t, c, key, d, word, i) && #[trigger] last_with(t, c, key, d, word, j) ==> i == j,
{
    lemma_found(t, c, marks_equal(col(t, d), word), key);
}

pub proof fn lemma_found_between(t: Table, c: int, key: u64, d: int, lo: u64, hi: u64)
    requires
        t.wf(),
        0 <= c < t.columns.len(),
        0 <= d < t.columns.len(),
    ensures
        match row_of_key(col(t, c), marks_between(col(t, d), lo, hi), key) {
            Some(i) => last_between(t, c, key, d, lo, hi, i as int),
            None => forall|i: int| #[trigger] held_by(t, c, key, i) ==> !(lo <= col(t, d)[i] < hi),
        },
        forall|i: int, j: int|
            #[trigger] last_between(t, c, key, d, lo, hi, i) && #[trigger] last_between(t, c, key, d, lo, hi, j) ==> i
                == j,
{
    lemma_found(t, c, marks_between(col(t, d), lo, hi), key);
}

/// An order counts by its priority if it was placed in the quarter and one of its lines was received after the
/// day that it was committed for.
pub proof fn late_orders_count(lineitem: Table, orders: Table, i: int)
    requires
        has_columns(lineitem, 13),
        has_columns(orders, 6),
        0 <= i < orders.row_count,
    ensures
        q4_orders(lineitem, orders).len() == orders.row_count,
        q4_orders(lineitem, orders)[i] is Some <==> date_cell(1993, 7, 1) <= col(orders, 4)[i] < date_cell(1993, 10, 1)
            && exists|l: int| #[trigger]
            held_by(lineitem, 0, col(orders, 0)[i], l) && col(lineitem, 12)[l] > col(lineitem, 11)[l],
        q4_orders(lineitem, orders)[i] matches Some((k, _)) ==> k == (col(orders, 5)[i], 0u64, 0u64),
{
    lemma_found(lineitem, 0, late_lines(lineitem), col(orders, 0)[i]);
}

proof fn lemma_marked_place(cells: Seq<u64>, marks: Seq<bool>, r: int, n: int)
    requires
        0 <= r < n <= marks.len(),
        marks[r],
    ensures
        0 <= marked_before(marks, r) < marked_before(marks, n) <= n,
        marked_cells(cells, marks, n).len() == marked_before(marks, n),
        marked_cells(cells, marks, n)[marked_before(marks, r)] == cells[r],
    decreases n,
{
    lemma_before_bounds(cells, marks, n);
    lemma_before_bounds(cells, marks, r);
    if r < n - 1 {
        lemma_marked_place(cells, marks, r, n - 1);
    } else {
        lemma_before_bounds(cells, marks, n - 1);
    }
}

proof fn lemma_before_bounds(cells: Seq<u64>, marks: Seq<bool>, n: int)
    requires
        0 <= n <= marks.len(),
    ensures
        0 <= marked_before(marks, n) <= n,
        marked_cells(cells, marks, n).len() == marked_before(marks, n),
    decreases n,
{
    if n > 0 {
        lemma_before_bounds(cells, marks, n - 1);
    }
}

proof fn lemma_places_differ(marks: Seq<bool>, r: int, s: int)
    requires
        0 <= r < s < marks.len(),
        marks[r],
    ensures
        marked_before(marks, r) < marked_before(marks, s),
{
    lemma_marked_place(Seq::new(marks.len(), |i: int| 0u64), marks, r, s);
}

/// A line counts for the revenue of a nation: the last order of its key that was placed in the year is that of a
/// customer of the nation, the line's supplier is of the same nation, and the nation is of the region.
pub open spec fn is_local(
    nation: Table,
    supplier: Table,
    customer: Table,
    orders: Table,
    lineitem: Table,
    region: u64,
    i: int,
    n: int,
) -> bool {
    exists|o: int, c: int, s: int| #[trigger]
        last_between(orders, 0, col(lineitem, 0)[i], 4, date_cell(1994, 1, 1), date_cell(1995, 1, 1), o) && #[trigger]
        holds_last(customer, 0, col(orders, 1)[o], c) && #[trigger] holds_last(supplier, 0, col(lineitem, 2)[i], s)
            && last_with(nation, 0, col(customer, 3)[c], 2, region, n) && last_with(
            nation,
            0,
            col(supplier, 3)[s],
            2,
            region,
            n,
        )
}

/// The lines that count for the revenue of a nation of the region are those of orders of the year whose customer
/// and whose supplier are of that nation, each with its discounted price, under the place of the nation's name.
pub proof fn local_lines_count<F: Fn(FloatOp, u64, u64) -> u64>(
    f: F,
    nation: Table,
    supplier: Table,
    customer: Table,
    orders: Table,
    lineitem: Table,
    region: u64,
    i: int,
)
    requires
        has_columns(nation, 3),
        has_columns(supplier, 4),
        has_columns(customer, 4),
        has_columns(orders, 5),
        has_columns(lineitem, 7),
        0 <= i < lineitem.row_count,
    ensures
        q5_lines(f, nation, supplier, customer, orders, lineitem, region).len() == lineitem.row_count,
        q5_lines(f, nation, supplier, customer, orders, lineitem, region)[i] is Some <==> exists|n: int| #[trigger]
            is_local(nation, supplier, customer, orders, lineitem, region, i, n),
        q5_lines(f, nation, supplier, customer, orders, lineitem, region)[i] matches Some((k, term)) ==> term
            == discounted(f, col(lineitem, 5)[i], col(lineitem, 6)[i]) && exists|n: int| #[trigger]
            is_local(nation, supplier, customer, orders, lineitem, region, i, n) && (k.0 as int) < marked_cells(
                col(nation, 1),
                nations_of(nation, region),
                nation.row_count as int,
            ).len() && marked_cells(col(nation, 1), nations_of(nation, region), nation.row_count as int)[k.0 as int]
                == col(nation, 1)[n],
{
    let lo = date_cell(1994, 1, 1);
    let hi = date_cell(1995, 1, 1);
    let lk = col(lineitem, 0)[i];
    let sk = col(lineitem, 2)[i];
    let marks = nations_of(nation, region);
    let t = q5_lines(f, nation, supplier, customer, orders, lineitem, region)[i];
    lemma_found_between(orders, 0, lk, 4, lo, hi);
    assert(q5_orders(orders) == marks_between(col(orders, 4), lo, hi));
    lemma_found_last(supplier, 0, sk);
    match row_of_key(col(orders, 0), q5_orders(orders), lk) {
        None => {
            assert(t is None);
            assert forall|n: int| !is_local(nation, supplier, customer, orders, lineitem, region, i, n) by {}
        },
        Some(o) => {
            lemma_found_last(customer, 0, col(orders, 1)[o as int]);
            let rc = row_of_key(col(customer, 0), all_marked(customer.row_count as nat), col(orders, 1)[o as int]);
            let rs = row_of_key(col(supplier, 0), all_marked(supplier.row_count as nat), sk);
            if rc is None || rs is None {
                assert(t is None);
                assert forall|n: int| !is_local(nation, supplier, customer, orders, lineitem, region, i, n) by {
                    if is_local(nation, supplier, customer, orders, lineitem, region, i, n) {
                        let (o2, c2, s2) = choose|o2: int, c2: int, s2: int| #[trigger]
                            last_between(orders, 0, lk, 4, lo, hi, o2) && #[trigger] holds_last(
                                customer,
                                0,
                                col(orders, 1)[o2],
                                c2,
                            ) && #[trigger] holds_last(supplier, 0, sk, s2);
                        assert(o2 == o);
                        assert(held_by(customer, 0, col(orders, 1)[o as int], c2));
                        assert(held_by(supplier, 0, sk, s2));
                    }
                }
            } else {
                let c = rc->0 as int;
                let s = rs->0 as int;
                let cn = col(customer, 3)[c];
                let sn = col(supplier, 3)[s];
                lemma_found_with(nation, 0, cn, 2, region);
                lemma_found_with(nation, 0, sn, 2, region);
                let rn = row_of_key(col(nation, 0), marks, cn);
                let rm = row_of_key(col(nation, 0), marks, sn);
                assert forall|n: int| #[trigger]
                    is_local(nation, supplier, customer, orders, lineitem, region, i, n) <==> last_with(
                        nation,
                        0,
                        cn,
                        2,
                        region,
                        n,
                    ) && last_with(nation, 0, sn, 2, region, n) by {
                    if is_local(nation, supplier, customer, orders, lineitem, region, i, n) {
                        let (o2, c2, s2) = choose|o2: int, c2: int, s2: int| #[trigger]
                            last_between(orders, 0, lk, 4, lo, hi, o2) && #[trigger] holds_last(
                                customer,
                                0,
                                col(orders, 1)[o2],
                                c2,
                            ) && #[trigger] holds_last(supplier, 0, sk, s2) && last_with(
                                nation,
                                0,
                                col(customer, 3)[c2],
                                2,
                                region,
                                n,
                            ) && last_with(nation, 0, col(supplier, 3)[s2], 2, region, n);
                        assert(o2 == o && c2 == c && s2 == s);
                    }
                    if last_with(nation, 0, cn, 2, region, n) && last_with(nation, 0, sn, 2, region, n) {
                        assert(last_between(orders, 0, lk, 4, lo, hi, o as int));
                        assert(holds_last(customer, 0, col(orders, 1)[o as int], c));
                        assert(holds_last(supplier, 0, sk, s));
                    }
                }
                assert(order_slot(orders, customer, nation, region, lk) == nation_slot(nation, region, cn));
                assert(party_slot(supplier, nation, region, sk) == nation_slot(nation, region, sn));
                if rn is Some {
                    let n = rn->0 as int;
                    lemma_marked_place(col(nation, 1), marks, n, nation.row_count as int);
                    if rm is Some {
                        let m = rm->0 as int;
                        lemma_marked_place(col(nation, 1), marks, m, nation.row_count as int);
                        if n < m {
                            lemma_places_differ(marks, n, m);
                        }
                        if m < n {
                            lemma_places_differ(marks, m, n);
                        }
                        if n == m {
                            assert(is_local(nation, supplier, customer, orders, lineitem, region, i, n));
                        } else {
                            assert forall|x: int| !is_local(nation, supplier, customer, orders, lineitem, region, i, x) by {
                                assert(last_with(nation, 0, cn, 2, region, n));
                                assert(last_with(nation, 0, sn, 2, region, m));
                            }
                        }
                    }
                }
            }
        },
    }
}

/// The keys of the two nations are those of the last rows that name them.
pub proof fn nations_are_found_by_name(nation: Table, m: int, w: int)
    requires
        has_columns(nation, 2),
        text_hash("FRANCE"@) != text_hash("GERMANY"@),
        holds_last(nation, 1, text_hash("FRANCE"@), m),
        holds_last(nation, 1, text_hash("GERMANY"@), w),
    ensures
        nation_pair(nation).france == text_hash("FRANCE"@),
        nation_pair(nation).germany == text_hash("GERMANY"@),
        nation_pair(nation).france_key == col(nation, 0)[m],
        nation_pair(nation).germany_key == col(nation, 0)[w],
{
    lemma_named(nation, text_hash("FRANCE"@), m, nation.row_count as int);
    lemma_other_named(nation, text_hash("GERMANY"@), text_hash("FRANCE"@), w, nation.row_count as int);
}

proof fn lemma_named(nation: Table, name: u64, m: int, n: int)
    requires
        has_columns(nation, 2),
        holds_last(nation, 1, name, m),
        m < n <= nation.row_count,
    ensures
        last_first_named(col(nation, 1), col(nation, 0), n, name) == col(nation, 0)[m],
    decreases n,
{
    if n - 1 > m {
        assert(col(nation, 1)[n - 1] != name);
        lemma_named(nation, name, m, n - 1);
    }
}

proof fn lemma_other_named(nation: Table, name: u64, other: u64, m: int, n: int)
    requires
        has_columns(nation, 2),
        name != other,
        holds_last(nation, 1, name, m),
        m < n <= nation.row_count,
    ensures
        last_named(col(nation, 1), col(nation, 0), n, name, other) == col(nation, 0)[m],
    decreases n,
{
    if n - 1 > m {
        assert(col(nation, 1)[n - 1] != name);
        lemma_other_named(nation, name, other, m, n - 1);
    }
}

/// The last row of a key whose nation is one of two.
pub open spec fn last_of_two(t: Table, key: u64, a: u64, b: u64, i: int) -> bool {
    &&& held_by(t, 0, key, i) && (col(t, 3)[i] == a || col(t, 3)[i] == b)
    &&& forall|j: int| j > i && #[trigger] held_by(t, 0, key, j) ==> col(t, 3)[j] != a && col(t, 3)[j] != b
}

/// A line of the two years goes from a supplier of one of the two nations to a customer of the other one.
pub open spec fn goes_between(
    supplier: Table,
    lineitem: Table,
    orders: Table,
    customer: Table,
    p: NationPair,
    i: int,
    s: int,
    c: int,
) -> bool {
    &&& date_cell(1995, 1, 1) <= col(lineitem, 10)[i] <= date_cell(1996, 12, 31)
    &&& last_of_two(supplier, col(lineitem, 2)[i], p.france_key, p.germany_key, s)
    &&& last_of_two(customer, order_customer(orders, col(lineitem, 0)[i]), p.france_key, p.germany_key, c)
    &&& col(supplier, 3)[s] != col(customer, 3)[c]
}

/// The name of the nation with a key.
pub open spec fn name_of_two(p: NationPair, key: u64) -> u64 {
    if key == p.france_key {
        p.france
    } else {
        p.germany
    }
}

/// The customer of an order is that of the last row with its key.
pub proof fn order_has_the_customer_of_its_last_row(orders: Table, key: u64, o: int)
    requires
        has_columns(orders, 2),
        holds_last(orders, 0, key, o),
    ensures
        order_customer(orders, key) == col(orders, 1)[o],
{
    lemma_found_last(orders, 0, key);
    assert(held_by(orders, 0, key, o));
}

/// The lines that count are those of the two years between the two nations, by the names of the seller's and the
/// buyer's nation and the year of shipping, each with its discounted price.
pub proof fn lines_between_two_nations_count<F: Fn(FloatOp, u64, u64) -> u64>(
    f: F,
    supplier: Table,
    lineitem: Table,
    orders: Table,
    customer: Table,
    p: NationPair,
    i: int,
)
    requires
        has_columns(supplier, 4),
        has_columns(lineitem, 11),
        has_columns(orders, 2),
        has_columns(customer, 4),
        0 <= i < lineitem.row_count,
        p.france != 0,
        p.germany != 0,
        p.france != p.germany,
        p.france_key != p.germany_key,
    ensures
        q7_lines(f, supplier, lineitem, orders, customer, p).len() == lineitem.row_count,
        q7_lines(f, supplier, lineitem, orders, customer, p)[i] is Some <==> exists|s: int, c: int| #[trigger]
            goes_between(supplier, lineitem, orders, customer, p, i, s, c),
        forall|s: int, c: int| #[trigger]
            goes_between(supplier, lineitem, orders, customer, p, i, s, c) ==> q7_lines(
                f,
                supplier,
                lineitem,
                orders,
                customer,
                p,
            )[i] == Some(
                (
                    (
                        name_of_two(p, col(supplier, 3)[s]),
                        name_of_two(p, col(customer, 3)[c]),
                        year_cell(col(lineitem, 10)[i]),
                    ),
                    discounted(f, col(lineitem, 5)[i], col(lineitem, 6)[i]),
                ),
            ),
{
    let sk = col(lineitem, 2)[i];
    let ck = order_customer(orders, col(lineitem, 0)[i]);
    lemma_two(supplier, p, sk);
    lemma_two(customer, p, ck);
    let rs = row_of_key(col(supplier, 0), of_pair(supplier, p), sk);
    let rc = row_of_key(col(customer, 0), of_pair(customer, p), ck);
    let t = q7_lines(f, supplier, lineitem, orders, customer, p)[i];
    if t is Some {
        assert(goes_between(supplier, lineitem, orders, customer, p, i, rs->0 as int, rc->0 as int));
    }
    assert forall|s: int, c: int| #[trigger] goes_between(supplier, lineitem, orders, customer, p, i, s, c) implies t == Some(
        (
            (
                name_of_two(p, col(supplier, 3)[s]),
                name_of_two(p, col(customer, 3)[c]),
                year_cell(col(lineitem, 10)[i]),
            ),
            discounted(f, col(lineitem, 5)[i], col(lineitem, 6)[i]),
        ),
    ) by {
        assert(rs == Some(s as usize));
        assert(rc == Some(c as usize));
    }
}

proof fn lemma_two(t: Table, p: NationPair, key: u64)
    requires
        has_columns(t, 4),
    ensures
        match row_of_key(col(t, 0), of_pair(t, p), key) {
            Some(r) => last_of_two(t, key, p.france_key, p.germany_key, r as int),
            None => true,
        },
        forall|i: int| #[trigger]
            last_of_two(t, key, p.france_key, p.germany_key, i) ==> row_of_key(col(t, 0), of_pair(t, p), key) == Some(
                i as usize,
            ),
{
    lemma_found(t, 0, of_pair(t, p), key);
    assert forall|i: int| #[trigger] last_of_two(t, key, p.france_key, p.germany_key, i) implies row_of_key(
        col(t, 0),
        of_pair(t, p),
        key,
    ) == Some(i as usize) by {
        assert(held_by(t, 0, key, i));
        assert(of_pair(t, p)[i]);
    }
}

/// A returned line counts for the customer of the last order of its key that was placed in the quarter, with its
/// discounted price.
pub proof fn returned_lines_count<F: Fn(FloatOp, u64, u64) -> u64>(f: F, orders: Table, lineitem: Table, i: int)
    requires
        has_columns(orders, 5),
        has_columns(lineitem, 9),
        0 <= i < lineitem.row_count,
    ensures
        q10_lines(f, orders, lineitem).len() == lineitem.row_count,
        q10_lines(f, orders, lineitem)[i] is Some <==> col(lineitem, 8)[i] == text_hash("R"@) && exists|o: int| #[trigger]
            last_between(orders, 0, col(lineitem, 0)[i], 4, date_cell(1993, 10, 1), date_cell(1994, 1, 1), o),
        forall|o: int| #[trigger]
            last_between(orders, 0, col(lineitem, 0)[i], 4, date_cell(1993, 10, 1), date_cell(1994, 1, 1), o) && col(
                lineitem,
                8,
            )[i] == text_hash("R"@) ==> q10_lines(f, orders, lineitem)[i] == Some(
                ((col(orders, 1)[o], 0u64, 0u64), discounted(f, col(lineitem, 5)[i], col(lineitem, 6)[i])),
            ),
{
    lemma_found_between(orders, 0, col(lineitem, 0)[i], 4, date_cell(1993, 10, 1), date_cell(1994, 1, 1));
    assert(q10_orders(orders) == marks_between(col(orders, 4), date_cell(1993, 10, 1), date_cell(1994, 1, 1)));
}

} // verus!
