//! Which lines and supplies of parts count in the decision-support queries.

use crate::dates::{date_cell, year_cell};
use crate::float_bits::{arith, discounted, float_lt, FloatOp, INFINITY_BITS};
use crate::group_index::{row_of_key, row_of_key_is_last};
use crate::hashing::text_hash;
use crate::table::Table;
use crate::tpch::laws::holds_last;
use crate::tpch::q14::{promo_share, promoted_parts, q14_lines, q14_promoted_lines};
use crate::tpch::q16::{supply_groups, wanted_parts};
use crate::tpch::q17::{boxed_parts, q17_lines, q17_small_lines};
use crate::tpch::q19::{branch_lines, branch_parts, part_in_branch, q19_branch};
use crate::tpch::q2::{best_supply, brass_parts, least_cost, region_suppliers, sells_from};
use crate::tpch::q20::{forest_parts, is_forest, q20_lines, stocked_suppliers, stocked_supply};
use crate::tpch::q8::{q8_lines, q8_nation_lines, q8_orders, region_customers, share};
use crate::tpch::q9::{green_parts, green_supply, is_green, q9_line, supply_pairs};
use crate::tpch::row_laws::{held_by, lemma_found, lemma_found_last, lemma_found_with};
use crate::tpch::sums::{block_sum, group_sum, key_count, or_zero};
use crate::tpch::support::{begins_with, col, ends_with, has_columns, has_part, marks_equal, string_at};
use crate::word::word_signed;
use vstd::prelude::*;

verus! {

/// Some row with the key has the word in another column.
pub open spec fn some_with(t: Table, c: int, key: u64, d: int, word: u64) -> bool {
    exists|i: int| #[trigger] held_by(t, c, key, i) && col(t, d)[i] == word
}

pub proof fn lemma_some_with(t: Table, c: int, key: u64, d: int, word: u64)
    requires
        t.wf(),
        0 <= c < t.columns.len(),
        0 <= d < t.columns.len(),
    ensures
        row_of_key(col(t, c), marks_equal(col(t, d), word), key) is Some <==> some_with(t, c, key, d, word),
{
    lemma_found_with(t, c, key, d, word);
}

/// A supplier's nation is one of the region.
pub open spec fn supplies_region(nation: Table, supplier: Table, region: u64, key: u64) -> bool {
    exists|s: int| #[trigger] held_by(supplier, 0, key, s) && some_with(nation, 0, col(supplier, 3)[s], 2, region)
}

pub proof fn lemma_sells(nation: Table, supplier: Table, region: u64, key: u64)
    requires
        has_columns(nation, 3),
        has_columns(supplier, 4),
    ensures
        sells_from(nation, supplier, region, key) <==> supplies_region(nation, supplier, region, key),
{
    let marks = region_suppliers(nation, supplier, region);
    lemma_found(supplier, 0, marks, key);
    assert forall|s: int| #[trigger] held_by(supplier, 0, key, s) implies marks[s] == some_with(
        nation,
        0,
        col(supplier, 3)[s],
        2,
        region,
    ) by {
        lemma_some_with(nation, 0, col(supplier, 3)[s], 2, region);
    }
}

/// A part of size fifteen whose type ends so is wanted.
pub open spec fn is_brass(part: Table, key: u64) -> bool {
    exists|p: int| #[trigger]
        held_by(part, 0, key, p) && col(part, 5)[p] == 15 && ends_with(string_at(part, 4, p), "BRASS"@)
}

/// A supply row offers a part that is wanted from a supplier of the region.
pub open spec fn is_offer(nation: Table, supplier: Table, part: Table, partsupp: Table, region: u64, j: int) -> bool {
    &&& 0 <= j < partsupp.row_count
    &&& is_brass(part, col(partsupp, 0)[j])
    &&& supplies_region(nation, supplier, region, col(partsupp, 1)[j])
}

proof fn lemma_least(nation: Table, supplier: Table, partsupp: Table, region: u64, key: u64, n: int)
    requires
        has_columns(nation, 3),
        has_columns(supplier, 4),
        has_columns(partsupp, 4),
        0 <= n <= partsupp.row_count,
    ensures
        ({
            let least = least_cost(nation, supplier, partsupp, region, key, n);
            &&& least == INFINITY_BITS || exists|j: int|
                0 <= j < n && #[trigger] held_by(partsupp, 0, key, j) && supplies_region(
                    nation,
                    supplier,
                    region,
                    col(partsupp, 1)[j],
                ) && col(partsupp, 3)[j] == least
            &&& forall|j: int|
                0 <= j < n && #[trigger] held_by(partsupp, 0, key, j) && supplies_region(
                    nation,
                    supplier,
                    region,
                    col(partsupp, 1)[j],
                ) ==> !float_lt(col(partsupp, 3)[j], least)
        }),
    decreases n,
{
    if n > 0 {
        lemma_least(nation, supplier, partsupp, region, key, n - 1);
        lemma_sells(nation, supplier, region, col(partsupp, 1)[n - 1]);
        if col(partsupp, 0)[n - 1] == key {
            assert(held_by(partsupp, 0, key, n - 1));
        }
    }
}

/// A supply row is listed only if it is an offer and no offer of the same part costs less. An offer that costs
/// less than all others of the part that differ in cost is listed.
pub proof fn cheapest_offers_are_listed(nation: Table, supplier: Table, part: Table, partsupp: Table, region: u64, j: int)
    requires
        has_columns(nation, 3),
        has_columns(supplier, 4),
        has_columns(part, 6),
        has_columns(partsupp, 4),
        0 <= j < partsupp.row_count,
    ensures
        best_supply(nation, supplier, part, partsupp, region).len() == partsupp.row_count,
        best_supply(nation, supplier, part, partsupp, region)[j] ==> is_offer(
            nation,
            supplier,
            part,
            partsupp,
            region,
            j,
        ) && forall|k: int| #[trigger]
            is_offer(nation, supplier, part, partsupp, region, k) && col(partsupp, 0)[k] == col(partsupp, 0)[j]
                ==> !float_lt(col(partsupp, 3)[k], col(partsupp, 3)[j]),
        is_offer(nation, supplier, part, partsupp, region, j) && float_lt(col(partsupp, 3)[j], INFINITY_BITS) && (
        forall|k: int| #[trigger]
            is_offer(nation, supplier, part, partsupp, region, k) && col(partsupp, 0)[k] == col(partsupp, 0)[j]
                ==> col(partsupp, 3)[k] == col(partsupp, 3)[j] || float_lt(col(partsupp, 3)[j], col(partsupp, 3)[k]))
            ==> best_supply(nation, supplier, part, partsupp, region)[j],
{
    let key = col(partsupp, 0)[j];
    let n = partsupp.row_count as int;
    let least = least_cost(nation, supplier, partsupp, region, key, n);
    lemma_found(part, 0, brass_parts(part), key);
    lemma_sells(nation, supplier, region, col(partsupp, 1)[j]);
    lemma_least(nation, supplier, partsupp, region, key, n);
    assert(held_by(partsupp, 0, key, j));
    assert forall|k: int| #[trigger]
        is_offer(nation, supplier, part, partsupp, region, k) && col(partsupp, 0)[k] == key implies !float_lt(
        col(partsupp, 3)[k],
        least,
    ) by {
        assert(held_by(partsupp, 0, key, k));
    }
    if is_offer(nation, supplier, part, partsupp, region, j) && least != INFINITY_BITS {
        let k = choose|k: int|
            0 <= k < n && #[trigger] held_by(partsupp, 0, key, k) && supplies_region(
                nation,
                supplier,
                region,
                col(partsupp, 1)[k],
            ) && col(partsupp, 3)[k] == least;
        assert(is_offer(nation, supplier, part, partsupp, region, k));
    }
}

/// An order of the two years placed by a customer of the region.
pub open spec fn is_regional(nation: Table, customer: Table, orders: Table, region: u64, o: int) -> bool {
    &&& date_cell(1995, 1, 1) <= col(orders, 4)[o] <= date_cell(1996, 12, 31)
    &&& exists|c: int| #[trigger]
        held_by(customer, 0, col(orders, 1)[o], c) && some_with(nation, 0, col(customer, 3)[c], 2, region)
}

/// The last such order with a key.
pub open spec fn last_regional(nation: Table, customer: Table, orders: Table, region: u64, key: u64, o: int) -> bool {
    &&& held_by(orders, 0, key, o) && is_regional(nation, customer, orders, region, o)
    &&& forall|p: int| p > o && #[trigger] held_by(orders, 0, key, p) ==> !is_regional(
        nation,
        customer,
        orders,
        region,
        p,
    )
}

proof fn lemma_regional(nation: Table, customer: Table, orders: Table, region: u64, key: u64)
    requires
        has_columns(nation, 3),
        has_columns(customer, 4),
        has_columns(orders, 5),
    ensures
        match row_of_key(col(orders, 0), q8_orders(nation, customer, orders, region), key) {
            Some(o) => last_regional(nation, customer, orders, region, key, o as int),
            None => forall|o: int| !last_regional(nation, customer, orders, region, key, o),
        },
        forall|o: int, p: int| #[trigger]
            last_regional(nation, customer, orders, region, key, o) && #[trigger] last_regional(
                nation,
                customer,
                orders,
                region,
                key,
                p,
            ) ==> o == p,
{
    let marks = q8_orders(nation, customer, orders, region);
    assert forall|o: int| 0 <= o < orders.row_count implies #[trigger] marks[o] == is_regional(
        nation,
        customer,
        orders,
        region,
        o,
    ) by {
        let ck = col(orders, 1)[o];
        let mine = region_customers(nation, customer, region);
        lemma_found(customer, 0, mine, ck);
        assert forall|c: int| #[trigger] held_by(customer, 0, ck, c) implies mine[c] == some_with(
            nation,
            0,
            col(customer, 3)[c],
            2,
            region,
        ) by {
            lemma_some_with(nation, 0, col(customer, 3)[c], 2, region);
        }
    }
    lemma_found(orders, 0, marks, key);
    match row_of_key(col(orders, 0), marks, key) {
        Some(o) => {
            assert forall|p: int| p > o && #[trigger] held_by(orders, 0, key, p) implies !is_regional(
                nation,
                customer,
                orders,
                region,
                p,
            ) by {
                assert(!marks[p]);
            }
        },
        None => {
            assert forall|o: int| !last_regional(nation, customer, orders, region, key, o) by {
                if held_by(orders, 0, key, o) {
                    assert(!marks[o]);
                }
            }
        },
    }
}

/// A line counts for the trade of a year if it is of the kind of part that is asked for and the last regional
/// order of its key is of that year. It counts for the nation's trade, too, if its supplier is of the nation.
pub proof fn trade_lines_count<F: Fn(FloatOp, u64, u64) -> u64>(
    f: F,
    nation: Table,
    part: Table,
    supplier: Table,
    customer: Table,
    orders: Table,
    lineitem: Table,
    region: u64,
    seller: u64,
    i: int,
)
    requires
        has_columns(nation, 3),
        has_columns(part, 5),
        has_columns(supplier, 4),
        has_columns(customer, 4),
        has_columns(orders, 5),
        has_columns(lineitem, 7),
        0 <= i < lineitem.row_count,
    ensures
        q8_lines(f, nation, part, customer, orders, lineitem, region).len() == lineitem.row_count,
        q8_lines(f, nation, part, customer, orders, lineitem, region)[i] is Some <==> some_with(
            part,
            0,
            col(lineitem, 1)[i],
            4,
            text_hash("ECONOMY ANODIZED STEEL"@),
        ) && exists|o: int| #[trigger] last_regional(nation, customer, orders, region, col(lineitem, 0)[i], o),
        forall|o: int| #[trigger]
            last_regional(nation, customer, orders, region, col(lineitem, 0)[i], o) ==> (q8_lines(
                f,
                nation,
                part,
                customer,
                orders,
                lineitem,
                region,
            )[i] matches Some((k, term)) ==> k.0 == (if col(orders, 4)[o] < date_cell(1996, 1, 1) {
                0u64
            } else {
                1u64
            }) && k.1 == 0 && k.2 == 0 && term == arith(
                f,
                FloatOp::FusedDiscount,
                col(lineitem, 5)[i],
                col(lineitem, 6)[i],
            )),
        q8_nation_lines(f, nation, part, supplier, customer, orders, lineitem, region, seller).len()
            == lineitem.row_count,
        q8_nation_lines(f, nation, part, supplier, customer, orders, lineitem, region, seller)[i] == (if some_with(
            supplier,
            0,
            col(lineitem, 2)[i],
            3,
            seller,
        ) {
            q8_lines(f, nation, part, customer, orders, lineitem, region)[i]
        } else {
            None
        }),
{
    lemma_regional(nation, customer, orders, region, col(lineitem, 0)[i]);
    lemma_some_with(part, 0, col(lineitem, 1)[i], 4, text_hash("ECONOMY ANODIZED STEEL"@));
    lemma_some_with(supplier, 0, col(lineitem, 2)[i], 3, seller);
}

/// A share is that of the whole where there is a positive whole, and none otherwise.
pub proof fn shares_are_quotients<F: Fn(FloatOp, u64, u64) -> u64>(f: F, some: u64, total: u64)
    ensures
        float_lt(0, total) ==> share(f, some, total) == arith(f, FloatOp::Div, some, total),
        !float_lt(0, total) ==> share(f, some, total) == 0,
{
}

/// The name of some part with the key has the colour in it.
pub open spec fn green_part(part: Table, key: u64) -> bool {
    exists|p: int| #[trigger]
        held_by(part, 0, key, p) && part.string_columns@[1] is Some && has_part(string_at(part, 1, p), "green"@)
}

/// The last supply row of a part by a supplier.
pub open spec fn last_supply(partsupp: Table, part: u64, supplier: u64, j: int) -> bool {
    &&& held_by(partsupp, 0, part, j) && col(partsupp, 1)[j] == supplier
    &&& forall|k: int| k > j && #[trigger] held_by(partsupp, 0, part, k) ==> col(partsupp, 1)[k] != supplier
}

proof fn lemma_green(part: Table, key: u64)
    requires
        has_columns(part, 2),
    ensures
        is_green(part, key) <==> green_part(part, key),
{
    lemma_found(part, 0, green_parts(part), key);
}

/// A line of a part of the colour counts by its supplier's nation and the year of its order, with its discounted
/// price and the cost of its goods: the supply cost times the quantity.
pub proof fn coloured_lines_count<F: Fn(FloatOp, u64, u64) -> u64>(
    f: F,
    part: Table,
    partsupp: Table,
    lineitem: Table,
    orders: Table,
    supplier: Table,
    i: int,
    j: int,
    s: int,
    o: int,
)
    requires
        has_columns(part, 2),
        has_columns(partsupp, 4),
        has_columns(lineitem, 7),
        has_columns(orders, 5),
        has_columns(supplier, 4),
        0 <= i < lineitem.row_count,
        last_supply(partsupp, col(lineitem, 1)[i], col(lineitem, 2)[i], j),
        holds_last(supplier, 0, col(lineitem, 2)[i], s),
        holds_last(orders, 0, col(lineitem, 0)[i], o),
        col(supplier, 3)[s] != u64::MAX,
    ensures
        q9_line(f, part, partsupp, lineitem, orders, supplier, i) == (if green_part(part, col(lineitem, 1)[i]) {
            Some(
                (
                    (col(supplier, 3)[s], year_cell(col(orders, 4)[o]), 0u64),
                    discounted(f, col(lineitem, 5)[i], col(lineitem, 6)[i]),
                    arith(f, FloatOp::Mul, col(partsupp, 3)[j], col(lineitem, 4)[i]),
                ),
            )
        } else {
            None
        }),
{
    let pk = col(lineitem, 1)[i];
    let sk = col(lineitem, 2)[i];
    lemma_green(part, pk);
    lemma_found_last(supplier, 0, sk);
    lemma_found_last(orders, 0, col(lineitem, 0)[i]);
    assert(held_by(supplier, 0, sk, s));
    assert(held_by(orders, 0, col(lineitem, 0)[i], o));
    let pairs = supply_pairs(partsupp);
    let marks = green_supply(part, partsupp);
    row_of_key_is_last(pairs, marks, partsupp.row_count as int, (pk, sk));
    if green_part(part, pk) {
        assert(held_by(partsupp, 0, pk, j));
        assert(marks[j] && pairs[j] == (pk, sk));
        match row_of_key(pairs, marks, (pk, sk)) {
            Some(k) => {
                if k > j {
                    assert(held_by(partsupp, 0, pk, k as int));
                }
                assert(k == j);
            },
            None => {},
        }
    }
}

/// A line of a part whose colour is not asked for, or that no supply row backs, does not count.
pub proof fn other_lines_do_not_count<F: Fn(FloatOp, u64, u64) -> u64>(
    f: F,
    part: Table,
    partsupp: Table,
    lineitem: Table,
    orders: Table,
    supplier: Table,
    i: int,
)
    requires
        has_columns(part, 2),
        has_columns(partsupp, 4),
        has_columns(lineitem, 7),
        has_columns(supplier, 4),
        0 <= i < lineitem.row_count,
        !green_part(part, col(lineitem, 1)[i]) || (forall|j: int| #[trigger]
            held_by(partsupp, 0, col(lineitem, 1)[i], j) ==> col(partsupp, 1)[j] != col(lineitem, 2)[i]),
    ensures
        q9_line(f, part, partsupp, lineitem, orders, supplier, i) is None,
{
    let pk = col(lineitem, 1)[i];
    let sk = col(lineitem, 2)[i];
    lemma_green(part, pk);
    let pairs = supply_pairs(partsupp);
    let marks = green_supply(part, partsupp);
    row_of_key_is_last(pairs, marks, partsupp.row_count as int, (pk, sk));
    match row_of_key(pairs, marks, (pk, sk)) {
        Some(k) => {
            assert(held_by(partsupp, 0, pk, k as int));
        },
        None => {},
    }
}

/// A line of the month counts with its discounted price, and among the promoted ones if the type of some part of
/// its key begins so.
pub proof fn promoted_lines_count<F: Fn(FloatOp, u64, u64) -> u64>(f: F, part: Table, lineitem: Table, i: int)
    requires
        has_columns(part, 5),
        has_columns(lineitem, 11),
        0 <= i < lineitem.row_count,
    ensures
        q14_lines(f, lineitem).len() == lineitem.row_count,
        q14_lines(f, lineitem)[i] == (if date_cell(1995, 9, 1) <= col(lineitem, 10)[i] < date_cell(1995, 10, 1) {
            Some(((0u64, 0u64, 0u64), discounted(f, col(lineitem, 5)[i], col(lineitem, 6)[i])))
        } else {
            None
        }),
        q14_promoted_lines(f, part, lineitem).len() == lineitem.row_count,
        q14_promoted_lines(f, part, lineitem)[i] == (if exists|p: int| #[trigger]
            held_by(part, 0, col(lineitem, 1)[i], p) && begins_with(string_at(part, 4, p), "PROMO"@) {
            q14_lines(f, lineitem)[i]
        } else {
            None
        }),
{
    lemma_found(part, 0, promoted_parts(part), col(lineitem, 1)[i]);
}

/// The share of promoted revenue is a hundred times it over the revenue. (The word is that of a hundred.)
pub proof fn promoted_share_is_in_percent<F: Fn(FloatOp, u64, u64) -> u64>(f: F, promoted: u64, total: u64)
    ensures
        promo_share(f, promoted, total) == arith(
            f,
            FloatOp::Div,
            arith(f, FloatOp::Mul, 0x4059_0000_0000_0000, promoted),
            total,
        ),
{
}

/// A part is wanted: not of the one brand, of none of the types that begin so, of one of eight sizes.
pub open spec fn is_wanted(part: Table, p: int) -> bool {
    &&& col(part, 3)[p] != text_hash("Brand#45"@)
    &&& !begins_with(string_at(part, 4, p), "MEDIUM POLISHED"@)
    &&& seq![3u64, 9, 14, 19, 23, 36, 45, 49].contains(col(part, 5)[p])
}

/// A supply row counts for the brand, type and size of the last part with its key that is wanted.
pub proof fn wanted_supplies_count(part: Table, partsupp: Table, j: int)
    requires
        has_columns(part, 6),
        has_columns(partsupp, 2),
        0 <= j < partsupp.row_count,
    ensures
        supply_groups(part, partsupp).len() == partsupp.row_count,
        supply_groups(part, partsupp)[j] is Some <==> exists|p: int| #[trigger]
            held_by(part, 0, col(partsupp, 0)[j], p) && is_wanted(part, p),
        forall|p: int| #[trigger]
            held_by(part, 0, col(partsupp, 0)[j], p) && is_wanted(part, p) && (forall|q: int|
                q > p && #[trigger] held_by(part, 0, col(partsupp, 0)[j], q) ==> !is_wanted(part, q)) ==> supply_groups(
                part,
                partsupp,
            )[j] == Some(((col(part, 3)[p], col(part, 4)[p], col(part, 5)[p]), 0u64)),
{
    let key = col(partsupp, 0)[j];
    let marks = wanted_parts(part);
    let sizes = seq![3u64, 9, 14, 19, 23, 36, 45, 49];
    lemma_found(part, 0, marks, key);
    assert forall|p: int| #[trigger] held_by(part, 0, key, p) implies marks[p] == is_wanted(part, p) by {
        let z = col(part, 5)[p];
        assert(sizes[0] == 3 && sizes[1] == 9 && sizes[2] == 14 && sizes[3] == 19 && sizes[4] == 23 && sizes[5] == 36
            && sizes[6] == 45 && sizes[7] == 49);
        if sizes.contains(z) {
            let w = choose|w: int| 0 <= w < sizes.len() && sizes[w] == z;
        }
    }
}

/// A part of the brand and the container.
pub open spec fn boxed_part(part: Table, key: u64) -> bool {
    exists|p: int| #[trigger]
        held_by(part, 0, key, p) && col(part, 3)[p] == text_hash("Brand#23"@) && col(part, 6)[p] == text_hash(
            "MED BOX"@,
        )
}

/// A line of a part of the brand and the container counts by its part, with its quantity. It is a small one,
/// with its price, if its quantity is below a fifth of the part's quantity over its number of lines. (The word is
/// that of a fifth.)
pub proof fn small_lines_count<F: Fn(FloatOp, u64, u64) -> u64>(f: F, part: Table, lineitem: Table, i: int)
    requires
        has_columns(part, 7),
        has_columns(lineitem, 6),
        0 <= i < lineitem.row_count,
    ensures
        q17_lines(part, lineitem).len() == lineitem.row_count,
        q17_lines(part, lineitem)[i] == (if boxed_part(part, col(lineitem, 1)[i]) {
            Some(((col(lineitem, 1)[i], 0u64, 0u64), col(lineitem, 4)[i]))
        } else {
            None
        }),
        ({
            let lines = q17_lines(part, lineitem);
            let k = (col(lineitem, 1)[i], 0u64, 0u64);
            let n = lineitem.row_count as int;
            let limit = arith(
                f,
                FloatOp::Div,
                arith(f, FloatOp::Mul, 0x3FC9_9999_9999_999A, or_zero(block_sum(f, lines, k, 0, n))),
                arith(f, FloatOp::FromU64, key_count(lines, k, n) as u64, 0),
            );
            q17_small_lines(f, lines, lineitem)[i] == (if boxed_part(part, col(lineitem, 1)[i]) && float_lt(
                col(lineitem, 4)[i],
                limit,
            ) {
                Some((k, col(lineitem, 5)[i]))
            } else {
                None
            })
        }),
{
    lemma_found(part, 0, boxed_parts(part), col(lineitem, 1)[i]);
}

/// A part of one of four containers of a brand, of a size from one up to a greatest.
pub open spec fn fits_branch(part: Table, p: int, brand: Seq<char>, boxes: Seq<Seq<char>>, size: i64) -> bool {
    &&& col(part, 3)[p] == text_hash(brand)
    &&& exists|b: int| 0 <= b < boxes.len() && col(part, 6)[p] == text_hash(#[trigger] boxes[b])
    &&& 1 <= word_signed(col(part, 5)[p]) <= size
}

/// A line delivered in person by air, in a quantity from `lo` to `hi`.
pub open spec fn delivered(lineitem: Table, i: int, lo: u64, hi: u64) -> bool {
    &&& col(lineitem, 14)[i] == text_hash("AIR"@) || col(lineitem, 14)[i] == text_hash("AIR REG"@)
    &&& col(lineitem, 13)[i] == text_hash("DELIVER IN PERSON"@)
    &&& !float_lt(col(lineitem, 4)[i], lo)
    &&& !float_lt(hi, col(lineitem, 4)[i])
}

proof fn lemma_branch(
    lineitem: Table,
    part: Table,
    k: int,
    i: int,
    brand: Seq<char>,
    boxes: Seq<Seq<char>>,
    size: i64,
    lo: u64,
    hi: u64,
)
    requires
        has_columns(lineitem, 15),
        has_columns(part, 7),
        0 <= i < lineitem.row_count,
        boxes.len() == 4,
        ({
            let b = q19_branch(k);
            &&& b.brand == text_hash(brand)
            &&& (b.containers.0 == text_hash(boxes[0]) && b.containers.1 == text_hash(boxes[1]) && b.containers.2
                == text_hash(boxes[2]) && b.containers.3 == text_hash(boxes[3]))
            &&& b.size_hi == size && b.qty_lo == lo && b.qty_hi == hi
        }),
    ensures
        branch_lines(lineitem, part, q19_branch(k)).len() == lineitem.row_count,
        branch_lines(lineitem, part, q19_branch(k))[i] <==> delivered(lineitem, i, lo, hi) && exists|p: int| #[trigger]
            held_by(part, 0, col(lineitem, 1)[i], p) && fits_branch(part, p, brand, boxes, size),
{
    let b = q19_branch(k);
    let marks = branch_parts(part, b);
    lemma_found(part, 0, marks, col(lineitem, 1)[i]);
    assert forall|p: int| #[trigger] held_by(part, 0, col(lineitem, 1)[i], p) implies marks[p] == fits_branch(
        part,
        p,
        brand,
        boxes,
        size,
    ) by {
        let c = col(part, 6)[p];
        if part_in_branch(part, b, p) {
            if c == b.containers.0 {
                assert(c == text_hash(boxes[0]));
            } else if c == b.containers.1 {
                assert(c == text_hash(boxes[1]));
            } else if c == b.containers.2 {
                assert(c == text_hash(boxes[2]));
            } else {
                assert(c == text_hash(boxes[3]));
            }
        }
        if fits_branch(part, p, brand, boxes, size) {
            let w = choose|w: int| 0 <= w < boxes.len() && c == text_hash(#[trigger] boxes[w]);
            assert(w == 0 || w == 1 || w == 2 || w == 3);
        }
    }
}

/// In each of three branches the lines count that were delivered in person by air, in a quantity of ten more than
/// the least, of a part of the brand, in one of its containers and of a fitting size. (The words are those of 1,
/// 10, 11, 20 and 30.)
pub proof fn branches_are_told_by_part_and_quantity(lineitem: Table, part: Table, i: int)
    requires
        has_columns(lineitem, 15),
        has_columns(part, 7),
        0 <= i < lineitem.row_count,
    ensures
        branch_lines(lineitem, part, q19_branch(0))[i] <==> delivered(
            lineitem,
            i,
            0x3FF0_0000_0000_0000,
            0x4026_0000_0000_0000,
        ) && exists|p: int| #[trigger]
            held_by(part, 0, col(lineitem, 1)[i], p) && fits_branch(
                part,
                p,
                "Brand#12"@,
                seq!["SM CASE"@, "SM BOX"@, "SM PACK"@, "SM PKG"@],
                5,
            ),
        branch_lines(lineitem, part, q19_branch(1))[i] <==> delivered(
            lineitem,
            i,
            0x4024_0000_0000_0000,
            0x4034_0000_0000_0000,
        ) && exists|p: int| #[trigger]
            held_by(part, 0, col(lineitem, 1)[i], p) && fits_branch(
                part,
                p,
                "Brand#23"@,
                seq!["MED BAG"@, "MED BOX"@, "MED PKG"@, "MED PACK"@],
                10,
            ),
        branch_lines(lineitem, part, q19_branch(2))[i] <==> delivered(
            lineitem,
            i,
            0x4034_0000_0000_0000,
            0x403E_0000_0000_0000,
        ) && exists|p: int| #[trigger]
            held_by(part, 0, col(lineitem, 1)[i], p) && fits_branch(
                part,
                p,
                "Brand#34"@,
                seq!["LG CASE"@, "LG BOX"@, "LG PACK"@, "LG PKG"@],
                15,
            ),
{
    lemma_branch(
        lineitem,
        part,
        0,
        i,
        "Brand#12"@,
        seq!["SM CASE"@, "SM BOX"@, "SM PACK"@, "SM PKG"@],
        5,
        0x3FF0_0000_0000_0000,
        0x4026_0000_0000_0000,
    );
    lemma_branch(
        lineitem,
        part,
        1,
        i,
        "Brand#23"@,
        seq!["MED BAG"@, "MED BOX"@, "MED PKG"@, "MED PACK"@],
        10,
        0x4024_0000_0000_0000,
        0x4034_0000_0000_0000,
    );
    lemma_branch(
        lineitem,
        part,
        2,
        i,
        "Brand#34"@,
        seq!["LG CASE"@, "LG BOX"@, "LG PACK"@, "LG PKG"@],
        15,
        0x4034_0000_0000_0000,
        0x403E_0000_0000_0000,
    );
}

/// The name of some part with the key begins so.
pub open spec fn forest_part(part: Table, key: u64) -> bool {
    exists|p: int| #[trigger] held_by(part, 0, key, p) && begins_with(string_at(part, 1, p), "forest"@)
}

proof fn lemma_forest(part: Table, key: u64)
    requires
        has_columns(part, 2),
    ensures
        is_forest(part, key) <==> forest_part(part, key),
{
    lemma_found(part, 0, forest_parts(part), key);
}

/// A line of the year of a part of the family adds its quantity to the sales of its part by its supplier.
pub proof fn forest_sales_count(part: Table, lineitem: Table, i: int)
    requires
        has_columns(part, 2),
        has_columns(lineitem, 11),
        0 <= i < lineitem.row_count,
    ensures
        q20_lines(part, lineitem).len() == lineitem.row_count,
        q20_lines(part, lineitem)[i] == (if date_cell(1994, 1, 1) <= col(lineitem, 10)[i] < date_cell(1995, 1, 1)
            && forest_part(part, col(lineitem, 1)[i]) {
            Some(((col(lineitem, 1)[i], col(lineitem, 2)[i], 0u64), col(lineitem, 4)[i]))
        } else {
            None
        }),
{
    lemma_forest(part, col(lineitem, 1)[i]);
}

/// A supply row of a part of the family, with more in stock than half of what was sold of the part by the
/// supplier. (The word is that of a half.)
pub open spec fn overstocked<F: Fn(FloatOp, u64, u64) -> u64>(f: F, part: Table, lineitem: Table, partsupp: Table, j: int) -> bool {
    &&& forest_part(part, col(partsupp, 0)[j])
    &&& group_sum(f, q20_lines(part, lineitem), (col(partsupp, 0)[j], col(partsupp, 1)[j], 0u64)) matches Some(sold)
        && float_lt(
        arith(f, FloatOp::Mul, 0x3FE0_0000_0000_0000, sold),
        arith(f, FloatOp::FromU64, col(partsupp, 2)[j], 0),
    )
}

/// The suppliers of a country that are listed are those with a supply row that is overstocked.
pub proof fn overstocked_suppliers_are_listed<F: Fn(FloatOp, u64, u64) -> u64>(
    f: F,
    part: Table,
    lineitem: Table,
    partsupp: Table,
    supplier: Table,
    country: u64,
    i: int,
)
    requires
        has_columns(part, 2),
        has_columns(lineitem, 11),
        has_columns(partsupp, 3),
        has_columns(supplier, 4),
        0 <= i < supplier.row_count,
    ensures
        stocked_suppliers(f, part, lineitem, partsupp, supplier, country).len() == supplier.row_count,
        stocked_suppliers(f, part, lineitem, partsupp, supplier, country)[i] <==> col(supplier, 3)[i] == country
            && exists|j: int| #[trigger]
            held_by(partsupp, 1, col(supplier, 0)[i], j) && overstocked(f, part, lineitem, partsupp, j),
{
    let key = col(supplier, 0)[i];
    let marks = stocked_supply(f, part, lineitem, partsupp);
    lemma_found(partsupp, 1, marks, key);
    assert forall|j: int| #[trigger] held_by(partsupp, 1, key, j) implies marks[j] == overstocked(
        f,
        part,
        lineitem,
        partsupp,
        j,
    ) by {
        lemma_forest(part, col(partsupp, 0)[j]);
    }
}

} // verus!
