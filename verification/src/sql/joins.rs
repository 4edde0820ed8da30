//! Joins of two tables.

use crate::error::{Error, Fail};
use crate::float_bits::FloatOp;
use crate::group_index::{GroupIndex, Key};
use crate::hashing::{hash_bytes, xxh3};
use crate::sql::ast::{BinOp2, ColType, Expr2, JoinType2};
use crate::sql::eval::{ctx_ok, eval, value_of, Ctx, Env};
use crate::sql::exec_table::{behind_dot, short_name, strings_of, table_outcome, ExecTable, Held};
use crate::sql::group::{groups_partition_rows, index_rows, lemma_members_exist, members, members_ascend};
use crate::sql::masks::{flat, flat_parts_are_flat, flatten};
use crate::sql::names::{shifted_numbers, NameMap};
use crate::sql::shape::{col_in, column_of, leaves, list_leaves, referents};
use crate::sql::value::{is_true, Val, Value2};
use crate::table::StringSearchColumn;
use crate::text::{lowercase, to_lowercase};
use crate::tpch::sums::{row_has, Term};
use vstd::bytes::{spec_u64_to_le_bytes, u64_to_le_bytes};
use vstd::prelude::*;

verus! {

/// A column of the left table and one of the right that must be equal.
#[derive(Clone, Copy, Debug, PartialEq, Eq, Structural)]
pub struct JoinKey2 {
    pub left: usize,
    pub right: usize,
}

/// The key that a condition gives, if it equates a column of each table.
pub open spec fn direct_key(e: Expr2, l: Held, r: Held) -> Option<JoinKey2> {
    match e {
        Expr2::BinOp { op, left, right } => if op == BinOp2::Eq {
            match (column_of(*left, l), column_of(*right, r)) {
                (Some(a), Some(b)) => Some(JoinKey2 { left: a, right: b }),
                _ => match (column_of(*left, r), column_of(*right, l)) {
                    (Some(b), Some(a)) => Some(JoinKey2 { left: a, right: b }),
                    _ => None,
                },
            }
        } else {
            None
        },
        _ => None,
    }
}

/// The keys that the first `n` conditions give.
pub open spec fn direct_keys(es: Seq<Expr2>, l: Held, r: Held, n: nat) -> Seq<JoinKey2>
    decreases n,
{
    if n == 0 {
        Seq::empty()
    } else {
        let before = direct_keys(es, l, r, (n - 1) as nat);
        match direct_key(es[n - 1], l, r) {
            Some(k) => before.push(k),
            None => before,
        }
    }
}

/// The keys that a branch gives.
pub open spec fn branch_keys(e: Expr2, l: Held, r: Held) -> Seq<JoinKey2> {
    let parts = flat(e, BinOp2::And);
    direct_keys(parts, l, r, parts.len())
}

/// Every branch gives the key.
pub open spec fn in_all_branches(branches: Seq<Expr2>, l: Held, r: Held, k: JoinKey2) -> bool {
    forall|i: int| 0 <= i < branches.len() ==> branch_keys(#[trigger] branches[i], l, r).contains(k)
}

/// Those of the first `n` keys that every branch gives.
pub open spec fn shared_keys(keys: Seq<JoinKey2>, branches: Seq<Expr2>, l: Held, r: Held, n: nat) -> Seq<
    JoinKey2,
>
    decreases n,
{
    if n == 0 {
        Seq::empty()
    } else {
        let before = shared_keys(keys, branches, l, r, (n - 1) as nat);
        if in_all_branches(branches, l, r, keys[n - 1]) {
            before.push(keys[n - 1])
        } else {
            before
        }
    }
}

/// The keys that all branches of a choice give.
pub open spec fn or_keys(e: Expr2, l: Held, r: Held) -> Seq<JoinKey2> {
    let branches = flat(e, BinOp2::Or);
    let keys = branch_keys(branches[0], l, r);
    shared_keys(keys, branches, l, r, keys.len())
}

/// The keys that a condition gives: its own, or those of all its branches.
pub open spec fn condition_keys(e: Expr2, l: Held, r: Held) -> Seq<JoinKey2> {
    match direct_key(e, l, r) {
        Some(k) => seq![k],
        None => if e matches Expr2::BinOp { op, .. } && op == BinOp2::Or {
            or_keys(e, l, r)
        } else {
            Seq::empty()
        },
    }
}

/// The keys that the first `n` conditions give, each with those of its branches.
pub open spec fn join_keys(es: Seq<Expr2>, l: Held, r: Held, n: nat) -> Seq<JoinKey2>
    decreases n,
{
    if n == 0 {
        Seq::empty()
    } else {
        join_keys(es, l, r, (n - 1) as nat) + condition_keys(es[n - 1], l, r)
    }
}

/// The columns of the keys exist.
pub open spec fn keys_ok(keys: Seq<JoinKey2>, l: Held, r: Held) -> bool {
    forall|i: int|
        0 <= i < keys.len() ==> (#[trigger] keys[i]).left < l.columns.len() && keys[i].right < r.columns.len()
}

fn find_direct_key(e: &Expr2, l: &ExecTable, r: &ExecTable) -> (k: Option<JoinKey2>)
    requires
        l.wf(),
        r.wf(),
    ensures
        k == direct_key(*e, l@, r@),
        k matches Some(j) ==> j.left < l.columns.len() && j.right < r.columns.len(),
{
    match e {
        Expr2::BinOp { op, left, right } => if *op == BinOp2::Eq {
            match (col_in(left, l), col_in(right, r)) {
                (Some(a), Some(b)) => Some(JoinKey2 { left: a, right: b }),
                _ => match (col_in(left, r), col_in(right, l)) {
                    (Some(b), Some(a)) => Some(JoinKey2 { left: a, right: b }),
                    _ => None,
                },
            }
        } else {
            None
        },
        _ => None,
    }
}

/// Finds the keys that conditions give by themselves.
pub fn find_join_keys_direct(l: &ExecTable, r: &ExecTable, es: &Vec<&Expr2>) -> (keys: Vec<JoinKey2>)
    requires
        l.wf(),
        r.wf(),
    ensures
        keys@ == direct_keys(referents(es@), l@, r@, es@.len()),
        keys_ok(keys@, l@, r@),
{
    let ghost parts = referents(es@);
    let mut keys: Vec<JoinKey2> = Vec::new();
    let mut i: usize = 0;
    while i < es.len()
        invariant
            l.wf(),
            r.wf(),
            parts == referents(es@),
            i <= es@.len(),
            keys@ == direct_keys(parts, l@, r@, i as nat),
            keys_ok(keys@, l@, r@),
        decreases es.len() - i,
    {
        proof {
            assert(parts[i as int] == *es@[i as int]);
        }
        match find_direct_key(es[i], l, r) {
            Some(k) => {
                keys.push(k);
            },
            None => {},
        }
        i = i + 1;
    }
    keys
}

fn has_key(keys: &Vec<JoinKey2>, k: JoinKey2) -> (b: bool)
    ensures
        b == keys@.contains(k),
{
    let mut i: usize = 0;
    while i < keys.len()
        invariant
            i <= keys@.len(),
            forall|j: int| 0 <= j < i ==> #[trigger] keys@[j] != k,
        decreases keys.len() - i,
    {
        if keys[i] == k {
            proof {
                assert(keys@[i as int] == k);
            }
            return true;
        }
        i = i + 1;
    }
    false
}

/// Finds the keys that all branches of a choice give.
pub fn find_or_common_keys(e: &Expr2, l: &ExecTable, r: &ExecTable) -> (keys: Vec<JoinKey2>)
    requires
        l.wf(),
        r.wf(),
    ensures
        keys@ == or_keys(*e, l@, r@),
        keys_ok(keys@, l@, r@),
{
    let branches: Vec<&Expr2> = flatten(e, BinOp2::Or);
    let ghost parts = flat(*e, BinOp2::Or);
    proof {
        flat_parts_are_flat(*e, BinOp2::Or);
        assert(branches@.len() == referents(branches@).len());
    }
    let mut lists: Vec<Vec<JoinKey2>> = Vec::new();
    let mut i: usize = 0;
    while i < branches.len()
        invariant
            l.wf(),
            r.wf(),
            referents(branches@) == parts,
            branches@.len() == parts.len(),
            i <= branches@.len(),
            lists@.len() == i,
            forall|j: int| 0 <= j < i ==> (#[trigger] lists@[j])@ == branch_keys(parts[j], l@, r@),
            forall|j: int| 0 <= j < i ==> keys_ok((#[trigger] lists@[j])@, l@, r@),
        decreases branches.len() - i,
    {
        let conds: Vec<&Expr2> = flatten(branches[i], BinOp2::And);
        proof {
            assert(referents(branches@)[i as int] == parts[i as int]);
            assert(conds@.len() == referents(conds@).len());
        }
        lists.push(find_join_keys_direct(l, r, &conds));
        i = i + 1;
    }
    let first: &Vec<JoinKey2> = &lists[0];
    let mut keys: Vec<JoinKey2> = Vec::new();
    let mut k: usize = 0;
    while k < first.len()
        invariant
            lists@.len() == parts.len(),
            parts.len() >= 1,
            *first == lists@[0],
            forall|j: int| 0 <= j < parts.len() ==> (#[trigger] lists@[j])@ == branch_keys(parts[j], l@, r@),
            keys_ok(first@, l@, r@),
            k <= first@.len(),
            keys@ == shared_keys(first@, parts, l@, r@, k as nat),
            keys_ok(keys@, l@, r@),
        decreases first.len() - k,
    {
        let key: JoinKey2 = first[k];
        let mut shared: bool = true;
        let mut j: usize = 0;
        while j < lists.len()
            invariant
                lists@.len() == parts.len(),
                forall|m: int| 0 <= m < parts.len() ==> (#[trigger] lists@[m])@ == branch_keys(parts[m], l@, r@),
                j <= lists@.len(),
                shared == forall|m: int| 0 <= m < j ==> branch_keys(#[trigger] parts[m], l@, r@).contains(key),
            decreases lists.len() - j,
        {
            let here: bool = has_key(&lists[j], key);
            proof {
                assert(here == branch_keys(parts[j as int], l@, r@).contains(key));
            }
            shared = shared && here;
            j = j + 1;
        }
        proof {
            assert(shared == in_all_branches(parts, l@, r@, key));
        }
        if shared {
            keys.push(key);
        }
        k = k + 1;
    }
    keys
}

/// Finds the keys on which conditions join two tables.
pub fn find_join_keys(l: &ExecTable, r: &ExecTable, es: &Vec<&Expr2>) -> (keys: Vec<JoinKey2>)
    requires
        l.wf(),
        r.wf(),
    ensures
        keys@ == join_keys(referents(es@), l@, r@, es@.len()),
        keys_ok(keys@, l@, r@),
{
    let ghost parts = referents(es@);
    let mut keys: Vec<JoinKey2> = Vec::new();
    let mut i: usize = 0;
    while i < es.len()
        invariant
            l.wf(),
            r.wf(),
            parts == referents(es@),
            i <= es@.len(),
            keys@ == join_keys(parts, l@, r@, i as nat),
            keys_ok(keys@, l@, r@),
        decreases es.len() - i,
    {
        proof {
            assert(parts[i as int] == *es@[i as int]);
        }
        let ghost before = keys@;
        match find_direct_key(es[i], l, r) {
            Some(k) => {
                keys.push(k);
                proof {
                    assert(keys@ =~= before + condition_keys(parts[i as int], l@, r@));
                }
            },
            None => {
                let choice: bool = match es[i] {
                    Expr2::BinOp { op, .. } => *op == BinOp2::Or,
                    _ => false,
                };
                if choice {
                    let mut more: Vec<JoinKey2> = find_or_common_keys(es[i], l, r);
                    let ghost list = more@;
                    keys.append(&mut more);
                    proof {
                        assert(keys@ =~= before + list);
                        assert forall|j: int| 0 <= j < keys@.len() implies (#[trigger] keys@[j]).left < l.columns.len()
                            && keys@[j].right < r.columns.len() by {
                            if j < before.len() {
                                assert(keys@[j] == before[j]);
                            } else {
                                assert(keys@[j] == list[j - before.len()]);
                            }
                        }
                    }
                } else {
                    proof {
                        assert(keys@ =~= before + condition_keys(parts[i as int], l@, r@));
                    }
                }
            },
        }
        i = i + 1;
    }
    keys
}

/// The name of a column of the joined table.
pub open spec fn joined_name(l: Held, r: Held, i: int) -> Seq<char> {
    if i < l.column_names.len() {
        l.column_names[i]
    } else {
        r.column_names[i - l.column_names.len()]
    }
}

/// The numbers of the first `n` columns of the joined table by their plain names;
/// the first column of a name has it.
pub open spec fn plain_numbers(l: Held, r: Held, n: nat) -> Map<Seq<char>, usize>
    decreases n,
{
    if n == 0 {
        Map::empty()
    } else {
        let before = plain_numbers(l, r, (n - 1) as nat);
        let name = lowercase(joined_name(l, r, n - 1));
        if before.dom().contains(name) {
            before
        } else {
            before.insert(name, (n - 1) as usize)
        }
    }
}

/// The numbers of columns of the joined table by name: names of the right table
/// go before those of the left, and these before plain names.
pub open spec fn joined_numbers(l: Held, r: Held) -> Map<Seq<char>, usize> {
    plain_numbers(l, r, l.columns.len() as nat + r.columns.len() as nat).union_prefer_right(
        l.numbers,
    ).union_prefer_right(shifted_numbers(r.numbers, l.columns.len() as int))
}

/// The column of the left table over pairs of rows.
pub open spec fn left_cells(cells: Seq<u64>, pairs: Seq<(usize, Option<usize>)>) -> Seq<u64> {
    Seq::new(pairs.len(), |i: int| cells[pairs[i].0 as int])
}

/// The column of the right table over pairs of rows; zero where there is no row.
pub open spec fn right_cells(cells: Seq<u64>, pairs: Seq<(usize, Option<usize>)>) -> Seq<u64> {
    Seq::new(
        pairs.len(),
        |i: int|
            match pairs[i].1 {
                Some(k) => cells[k as int],
                None => 0,
            },
    )
}

/// The columns of the two tables over pairs of rows.
pub open spec fn joined_columns(l: Held, r: Held, pairs: Seq<(usize, Option<usize>)>) -> Seq<Seq<u64>> {
    Seq::new(
        l.columns.len() + r.columns.len(),
        |c: int|
            if c < l.columns.len() {
                left_cells(l.columns[c], pairs)
            } else {
                right_cells(r.columns[c - l.columns.len()], pairs)
            },
    )
}

pub open spec fn joined_names(l: Held, r: Held) -> Seq<Seq<char>> {
    Seq::new(l.columns.len() + r.columns.len(), |c: int| joined_name(l, r, c))
}

/// The rows of two tables that are paired. Texts are not kept.
pub open spec fn joined(l: Held, r: Held, pairs: Seq<(usize, Option<usize>)>) -> Held {
    Held {
        row_count: pairs.len() as int,
        columns: joined_columns(l, r, pairs),
        column_names: joined_names(l, r),
        col_types: l.col_types + r.col_types,
        strings: Seq::new(l.columns.len() + r.columns.len(), |c: int| None),
        numbers: joined_numbers(l, r),
    }
}

pub open spec fn pairs_ok(pairs: Seq<(usize, Option<usize>)>, l: Held, r: Held) -> bool {
    forall|i: int|
        0 <= i < pairs.len() ==> (#[trigger] pairs[i]).0 < l.row_count && (pairs[i].1 matches Some(k) ==> k
            < r.row_count)
}

proof fn lemma_plain_numbers(l: Held, r: Held, n: nat)
    requires
        n <= usize::MAX,
    ensures
        forall|k: Seq<char>| #[trigger]
            plain_numbers(l, r, n).dom().contains(k) ==> plain_numbers(l, r, n)[k] < n,
    decreases n,
{
    if n > 0 {
        lemma_plain_numbers(l, r, (n - 1) as nat);
        let before = plain_numbers(l, r, (n - 1) as nat);
        let now = plain_numbers(l, r, n);
        assert forall|k: Seq<char>| #[trigger] now.dom().contains(k) implies now[k] < n by {
            if before.dom().contains(k) {
                assert(before[k] < n - 1);
            }
        }
    }
}

fn join_names(l: &ExecTable, r: &ExecTable, names: &Vec<String>) -> (m: NameMap)
    requires
        l.wf(),
        r.wf(),
        names@.len() == l.columns.len() + r.columns.len(),
        forall|c: int| 0 <= c < names@.len() ==> (#[trigger] names@[c])@ == joined_name(l@, r@, c),
    ensures
        m@ == joined_numbers(l@, r@),
        forall|k: Seq<char>| #[trigger] m@.dom().contains(k) ==> m@[k] < names@.len(),
{
    let mut m: NameMap = NameMap::new();
    let mut i: usize = 0;
    while i < names.len()
        invariant
            i <= names@.len(),
            forall|c: int| 0 <= c < names@.len() ==> (#[trigger] names@[c])@ == joined_name(l@, r@, c),
            m@ == plain_numbers(l@, r@, i as nat),
        decreases names.len() - i,
    {
        let name: String = to_lowercase(names[i].as_str());
        m.insert_new(name, i);
        i = i + 1;
    }
    proof {
        lemma_plain_numbers(l@, r@, names@.len());
    }
    let ghost plain = m@;
    m.insert_all(&l.col_map, 0);
    let ghost mid = m@;
    proof {
        assert(shifted_numbers(l.col_map@, 0) =~= l.col_map@);
        assert(mid == plain.union_prefer_right(l.col_map@));
    }
    m.insert_all(&r.col_map, l.columns.len());
    proof {
        assert(m@ == joined_numbers(l@, r@));
        let shifted = shifted_numbers(r.col_map@, l.columns.len() as int);
        assert forall|k: Seq<char>| #[trigger] m@.dom().contains(k) implies m@[k] < names@.len() by {
            if shifted.dom().contains(k) {
                assert(r.col_map@.dom().contains(k));
                assert(m@[k] == shifted[k]);
            } else {
                assert(mid.dom().contains(k));
                if l.col_map@.dom().contains(k) {
                    assert(mid[k] == l.col_map@[k]);
                } else {
                    assert(plain.dom().contains(k));
                    assert(mid[k] == plain[k]);
                }
            }
        }
    }
    m
}

fn take_left(cells: &Vec<u64>, pairs: &Vec<(usize, Option<usize>)>) -> (out: Vec<u64>)
    requires
        forall|i: int| 0 <= i < pairs@.len() ==> (#[trigger] pairs@[i]).0 < cells@.len(),
    ensures
        out@ == left_cells(cells@, pairs@),
{
    let mut out: Vec<u64> = Vec::new();
    let mut i: usize = 0;
    while i < pairs.len()
        invariant
            forall|k: int| 0 <= k < pairs@.len() ==> (#[trigger] pairs@[k]).0 < cells@.len(),
            i <= pairs@.len(),
            out@.len() == i,
            forall|k: int| 0 <= k < i ==> #[trigger] out@[k] == cells@[pairs@[k].0 as int],
        decreases pairs.len() - i,
    {
        out.push(cells[pairs[i].0]);
        i = i + 1;
    }
    proof {
        assert(out@ =~= left_cells(cells@, pairs@));
    }
    out
}

fn take_right(cells: &Vec<u64>, pairs: &Vec<(usize, Option<usize>)>) -> (out: Vec<u64>)
    requires
        forall|i: int| 0 <= i < pairs@.len() ==> ((#[trigger] pairs@[i]).1 matches Some(k) ==> k < cells@.len()),
    ensures
        out@ == right_cells(cells@, pairs@),
{
    let mut out: Vec<u64> = Vec::new();
    let mut i: usize = 0;
    while i < pairs.len()
        invariant
            forall|k: int| 0 <= k < pairs@.len() ==> ((#[trigger] pairs@[k]).1 matches Some(j) ==> j < cells@.len()),
            i <= pairs@.len(),
            out@.len() == i,
            forall|k: int| 0 <= k < i ==> #[trigger] out@[k] == right_cells(cells@, pairs@)[k],
        decreases pairs.len() - i,
    {
        match pairs[i].1 {
            Some(k) => {
                out.push(cells[k]);
            },
            None => {
                out.push(0);
            },
        }
        i = i + 1;
    }
    proof {
        assert(out@ =~= right_cells(cells@, pairs@));
    }
    out
}

/// The names of the columns of two tables.
fn list_names(l: &ExecTable, r: &ExecTable) -> (names: Vec<String>)
    requires
        l.wf(),
        r.wf(),
    ensures
        names@.len() == l.columns.len() + r.columns.len(),
        forall|c: int| 0 <= c < names@.len() ==> (#[trigger] names@[c])@ == joined_name(l@, r@, c),
{
    let mut names: Vec<String> = Vec::new();
    let mut i: usize = 0;
    while i < l.column_names.len()
        invariant
            i <= l.column_names@.len(),
            names@.len() == i,
            forall|c: int| 0 <= c < i ==> (#[trigger] names@[c])@ == joined_name(l@, r@, c),
        decreases l.column_names.len() - i,
    {
        names.push(l.column_names[i].clone());
        i = i + 1;
    }
    let mut j: usize = 0;
    while j < r.column_names.len()
        invariant
            j <= r.column_names@.len(),
            names@.len() == l.column_names@.len() + j,
            forall|c: int| 0 <= c < names@.len() ==> (#[trigger] names@[c])@ == joined_name(l@, r@, c),
        decreases r.column_names.len() - j,
    {
        names.push(r.column_names[j].clone());
        j = j + 1;
    }
    names
}

fn list_types(l: &ExecTable, r: &ExecTable) -> (types: Vec<ColType>)
    ensures
        types@ == l.col_types@ + r.col_types@,
{
    let mut types: Vec<ColType> = Vec::new();
    let mut i: usize = 0;
    while i < l.col_types.len()
        invariant
            i <= l.col_types@.len(),
            types@ == l.col_types@.take(i as int),
        decreases l.col_types.len() - i,
    {
        types.push(l.col_types[i]);
        i = i + 1;
        proof {
            assert(types@ =~= l.col_types@.take(i as int));
        }
    }
    let mut j: usize = 0;
    proof {
        assert(types@ =~= l.col_types@ + r.col_types@.take(0));
    }
    while j < r.col_types.len()
        invariant
            j <= r.col_types@.len(),
            types@ == l.col_types@ + r.col_types@.take(j as int),
        decreases r.col_types.len() - j,
    {
        types.push(r.col_types[j]);
        j = j + 1;
        proof {
            assert(types@ =~= l.col_types@ + r.col_types@.take(j as int));
        }
    }
    proof {
        assert(types@ =~= l.col_types@ + r.col_types@);
    }
    types
}

/// Puts together the paired rows of two tables.
pub fn join_rows(l: &ExecTable, r: &ExecTable, pairs: &Vec<(usize, Option<usize>)>) -> (t: ExecTable)
    requires
        l.wf(),
        r.wf(),
        pairs_ok(pairs@, l@, r@),
    ensures
        t@ == joined(l@, r@, pairs@),
        t.wf(),
{
    let mut columns: Vec<Vec<u64>> = Vec::new();
    let mut string_columns: Vec<Option<StringSearchColumn>> = Vec::new();
    let mut c: usize = 0;
    while c < l.columns.len()
        invariant
            l.wf(),
            pairs_ok(pairs@, l@, r@),
            c <= l.columns@.len(),
            columns@.len() == c,
            string_columns@.len() == c,
            forall|k: int| 0 <= k < c ==> (#[trigger] columns@[k])@ == left_cells(l.columns@[k]@, pairs@),
            forall|k: int| 0 <= k < c ==> #[trigger] string_columns@[k] is None,
        decreases l.columns.len() - c,
    {
        columns.push(take_left(&l.columns[c], pairs));
        string_columns.push(None);
        c = c + 1;
    }
    let mut d: usize = 0;
    while d < r.columns.len()
        invariant
            r.wf(),
            pairs_ok(pairs@, l@, r@),
            d <= r.columns@.len(),
            columns@.len() == l.columns@.len() + d,
            string_columns@.len() == columns@.len(),
            forall|k: int| 0 <= k < l.columns@.len() ==> (#[trigger] columns@[k])@ == left_cells(l.columns@[k]@, pairs@),
            forall|k: int|
                l.columns@.len() <= k < columns@.len() ==> (#[trigger] columns@[k])@ == right_cells(
                    r.columns@[k - l.columns@.len()]@,
                    pairs@,
                ),
            forall|k: int| 0 <= k < columns@.len() ==> #[trigger] string_columns@[k] is None,
        decreases r.columns.len() - d,
    {
        columns.push(take_right(&r.columns[d], pairs));
        string_columns.push(None);
        d = d + 1;
    }
    let column_names: Vec<String> = list_names(l, r);
    let col_types: Vec<ColType> = list_types(l, r);
    let col_map: NameMap = join_names(l, r, &column_names);
    let t: ExecTable = ExecTable { columns, column_names, col_types, string_columns, row_count: pairs.len(), col_map };
    proof {
        let u = joined(l@, r@, pairs@);
        assert(t@.columns =~= u.columns);
        assert(t@.column_names =~= u.column_names);
        assert(t@.strings =~= u.strings);
    }
    t
}

/// All pairs of rows, by the left row and then by the right.
pub open spec fn all_pairs(n: int, m: int) -> Seq<(usize, Option<usize>)> {
    Seq::new((n * m) as nat, |i: int| ((i / m) as usize, Some((i % m) as usize)))
}

/// The product of two tables. Without rows it has no names left.
pub open spec fn product(l: Held, r: Held) -> Held {
    if l.row_count == 0 || r.row_count == 0 {
        Held {
            row_count: 0,
            columns: Seq::new(l.columns.len() + r.columns.len(), |c: int| Seq::empty()),
            column_names: joined_names(l, r),
            col_types: l.col_types + r.col_types,
            strings: Seq::new(l.columns.len() + r.columns.len(), |c: int| None),
            numbers: Map::empty(),
        }
    } else {
        joined(l, r, all_pairs(l.row_count, r.row_count))
    }
}

/// The product of two tables has a row for each pair of their rows.
pub proof fn product_has_all_pairs(l: Held, r: Held)
    requires
        l.row_count >= 0,
        r.row_count >= 0,
    ensures
        product(l, r).row_count == l.row_count * r.row_count,
{
    let n = l.row_count;
    let m = r.row_count;
    assert(n * m >= 0) by (nonlinear_arith)
        requires
            n >= 0,
            m >= 0,
    ;
    assert(n == 0 || m == 0 ==> n * m == 0) by (nonlinear_arith);
}

/// What pairing all rows of two tables comes to.
pub open spec fn crossed(l: Held, r: Held) -> Result<Held, Fail> {
    if l.row_count * r.row_count <= usize::MAX {
        Ok(product(l, r))
    } else {
        Err(Fail::Other(too_large()))
    }
}

proof fn lemma_pair_at(m: int, a: int, b: int)
    requires
        0 <= b < m,
        a >= 0,
    ensures
        (a * m + b) / m == a,
        (a * m + b) % m == b,
{
    vstd::arithmetic::div_mod::lemma_fundamental_div_mod_converse(a * m + b, m, a, b);
}

/// The message on a product that is too large to hold.
pub open spec fn too_large() -> Seq<char> {
    "product of tables too large"@
}

/// Pairs every row of one table with every row of the other. Fails only where
/// the number of pairs is too large for the machine.
pub fn cross_join(l: &ExecTable, r: &ExecTable) -> (res: Result<ExecTable, Error>)
    requires
        l.wf(),
        r.wf(),
    ensures
        table_outcome(res) == crossed(l@, r@),
        res matches Ok(t) ==> t.wf(),
{
    let n: usize = l.row_count;
    let m: usize = r.row_count;
    if n == 0 || m == 0 {
        proof {
            assert(n * m == 0) by (nonlinear_arith)
                requires
                    n == 0 || m == 0,
            ;
        }
        let mut columns: Vec<Vec<u64>> = Vec::new();
        let mut string_columns: Vec<Option<StringSearchColumn>> = Vec::new();
        let column_names: Vec<String> = list_names(l, r);
        let mut c: usize = 0;
        while c < column_names.len()
            invariant
                c <= column_names@.len(),
                columns@.len() == c,
                string_columns@.len() == c,
                forall|k: int| 0 <= k < c ==> (#[trigger] columns@[k])@.len() == 0,
                forall|k: int| 0 <= k < c ==> #[trigger] string_columns@[k] is None,
            decreases column_names.len() - c,
        {
            let none: Vec<u64> = Vec::new();
            columns.push(none);
            string_columns.push(None);
            c = c + 1;
        }
        let col_types: Vec<ColType> = list_types(l, r);
        let t: ExecTable = ExecTable {
            columns,
            column_names,
            col_types,
            string_columns,
            row_count: 0,
            col_map: NameMap::new(),
        };
        proof {
            let u = product(l@, r@);
            assert forall|k: int| 0 <= k < t@.columns.len() implies #[trigger] t@.columns[k] == u.columns[k] by {
                assert(t.columns@[k]@ =~= Seq::<u64>::empty());
            }
            assert(t@.columns =~= u.columns);
            assert(t@.column_names =~= u.column_names);
            assert(t@.strings =~= u.strings);
        }
        return Ok(t);
    }
    match n.checked_mul(m) {
        None => Err(Error::Other("product of tables too large".to_owned())),
        Some(total) => {
            let ghost want = all_pairs(n as int, m as int);
            let mut pairs: Vec<(usize, Option<usize>)> = Vec::new();
            let mut a: usize = 0;
            while a < n
                invariant
                    m > 0,
                    total == n * m,
                    want == all_pairs(n as int, m as int),
                    a <= n,
                    pairs@.len() == a * m,
                    forall|i: int| 0 <= i < pairs@.len() ==> #[trigger] pairs@[i] == want[i],
                decreases n - a,
            {
                let mut b: usize = 0;
                proof {
                    assert((a + 1) * m <= n * m) by (nonlinear_arith)
                        requires
                            a < n,
                            m > 0,
                    ;
                    assert((a + 1) * m == a * m + m) by (nonlinear_arith);
                }
                while b < m
                    invariant
                        m > 0,
                        a < n,
                        want == all_pairs(n as int, m as int),
                        (a + 1) * m <= n * m,
                        (a + 1) * m == a * m + m,
                        b <= m,
                        pairs@.len() == a * m + b,
                        forall|i: int| 0 <= i < pairs@.len() ==> #[trigger] pairs@[i] == want[i],
                    decreases m - b,
                {
                    proof {
                        lemma_pair_at(m as int, a as int, b as int);
                    }
                    pairs.push((a, Some(b)));
                    b = b + 1;
                }
                a = a + 1;
            }
            proof {
                assert(pairs@ =~= want);
                assert forall|i: int| 0 <= i < pairs@.len() implies (#[trigger] pairs@[i]).0 < l.row_count && (pairs@[i].1 matches Some(
                    k,
                ) ==> k < r.row_count) by {
                    assert(0 <= i / (m as int) < n && 0 <= i % (m as int) < m) by (nonlinear_arith)
                        requires
                            0 <= i < n * m,
                            m > 0,
                    ;
                    assert(pairs@[i] == want[i]);
                }
            }
            Ok(join_rows(l, r, &pairs))
        },
    }
}

/// The cells of a row in key columns.
pub open spec fn key_cells(t: Held, cols: Seq<usize>, row: int) -> Seq<u64> {
    Seq::new(cols.len(), |k: int| t.columns[cols[k] as int][row])
}

/// The bytes of the first `n` words, low bytes first.
pub open spec fn packed(words: Seq<u64>, n: nat) -> Seq<u8>
    decreases n,
{
    if n == 0 {
        Seq::empty()
    } else {
        packed(words, (n - 1) as nat) + spec_u64_to_le_bytes(words[n - 1])
    }
}

/// The greatest number of words that are packed.
pub const PACKED_WORDS: usize = 8;

/// The word by which rows are indexed: the cell itself under one key, else the
/// hash of the packed cells.
pub open spec fn match_word(words: Seq<u64>) -> u64 {
    if words.len() == 1 {
        words[0]
    } else {
        xxh3(
            packed(
                words,
                if words.len() <= PACKED_WORDS {
                    words.len()
                } else {
                    PACKED_WORDS as nat
                },
            ),
        )
    }
}

/// The rows of a table by the words by which they are indexed.
pub open spec fn match_lines(t: Held, cols: Seq<usize>) -> Seq<Term> {
    Seq::new(t.row_count as nat, |i: int| Some(((match_word(key_cells(t, cols, i)), 0u64, 0u64), 0u64)))
}

/// Those of the first `n` rows of a table that hold the cells in key columns, in
/// order.
pub open spec fn rows_with(t: Held, cols: Seq<usize>, cells: Seq<u64>, n: nat) -> Seq<usize>
    decreases n,
{
    if n == 0 {
        Seq::empty()
    } else if key_cells(t, cols, n - 1) == cells {
        rows_with(t, cols, cells, (n - 1) as nat).push((n - 1) as usize)
    } else {
        rows_with(t, cols, cells, (n - 1) as nat)
    }
}

/// Those of the listed rows that hold the cells in key columns.
pub open spec fn agreeing(list: Seq<usize>, t: Held, cols: Seq<usize>, cells: Seq<u64>) -> Seq<usize>
    decreases list.len(),
{
    if list.len() == 0 {
        Seq::empty()
    } else if key_cells(t, cols, list.last() as int) == cells {
        agreeing(list.drop_last(), t, cols, cells).push(list.last())
    } else {
        agreeing(list.drop_last(), t, cols, cells)
    }
}

/// Rows with the cells are among the rows with their word.
proof fn lemma_agreeing(t: Held, cols: Seq<usize>, cells: Seq<u64>, n: nat)
    requires
        n <= t.row_count <= usize::MAX,
    ensures
        agreeing(members(match_lines(t, cols), (match_word(cells), 0, 0), n as int), t, cols, cells) == rows_with(
            t,
            cols,
            cells,
            n,
        ),
    decreases n,
{
    if n > 0 {
        lemma_agreeing(t, cols, cells, (n - 1) as nat);
        let lines = match_lines(t, cols);
        let k: Key = (match_word(cells), 0, 0);
        let before = members(lines, k, n - 1);
        let now = members(lines, k, n as int);
        if row_has(lines, n - 1, k) {
            assert(now.drop_last() =~= before);
        }
    }
}

/// The rows found hold the cells, and no other row does.
pub proof fn lemma_rows_with(t: Held, cols: Seq<usize>, cells: Seq<u64>, n: nat, row: usize)
    requires
        n <= usize::MAX,
    ensures
        rows_with(t, cols, cells, n).contains(row) <==> row < n && key_cells(t, cols, row as int) == cells,
        forall|i: int| 0 <= i < rows_with(t, cols, cells, n).len() ==> #[trigger] rows_with(t, cols, cells, n)[i] < n,
    decreases n,
{
    if n > 0 {
        lemma_rows_with(t, cols, cells, (n - 1) as nat, row);
        let before = rows_with(t, cols, cells, (n - 1) as nat);
        let now = rows_with(t, cols, cells, n);
        if key_cells(t, cols, n - 1) == cells {
            assert(now == before.push((n - 1) as usize));
            if row == n - 1 {
                assert(now[before.len() as int] == row);
            }
            if before.contains(row) {
                let i = choose|i: int| 0 <= i < before.len() && before[i] == row;
                assert(now[i] == row);
            }
            if now.contains(row) && row != n - 1 {
                let i = choose|i: int| 0 <= i < now.len() && now[i] == row;
                assert(before[i] == row);
            }
        }
    }
}

pub open spec fn left_columns(keys: Seq<JoinKey2>) -> Seq<usize> {
    Seq::new(keys.len(), |i: int| keys[i].left)
}

pub open spec fn right_columns(keys: Seq<JoinKey2>) -> Seq<usize> {
    Seq::new(keys.len(), |i: int| keys[i].right)
}

/// The pairs of one left row. Without a match a left join keeps the row alone.
pub open spec fn pairs_of_left(l: Held, r: Held, keys: Seq<JoinKey2>, jt: JoinType2, row: int) -> Seq<
    (usize, Option<usize>),
> {
    let found = rows_with(r, right_columns(keys), key_cells(l, left_columns(keys), row), r.row_count as nat);
    if found.len() == 0 && jt == JoinType2::Left {
        seq![(row as usize, None)]
    } else {
        Seq::new(found.len(), |i: int| (row as usize, Some(found[i])))
    }
}

/// The pairs of one right row.
pub open spec fn pairs_of_right(l: Held, r: Held, keys: Seq<JoinKey2>, row: int) -> Seq<
    (usize, Option<usize>),
> {
    let found = rows_with(l, left_columns(keys), key_cells(r, right_columns(keys), row), l.row_count as nat);
    Seq::new(found.len(), |i: int| (found[i], Some(row as usize)))
}

/// The pairs of the first `n` left rows.
pub open spec fn pairs_by_left(l: Held, r: Held, keys: Seq<JoinKey2>, jt: JoinType2, n: nat) -> Seq<
    (usize, Option<usize>),
>
    decreases n,
{
    if n == 0 {
        Seq::empty()
    } else {
        pairs_by_left(l, r, keys, jt, (n - 1) as nat) + pairs_of_left(l, r, keys, jt, n - 1)
    }
}

/// The pairs of the first `n` right rows.
pub open spec fn pairs_by_right(l: Held, r: Held, keys: Seq<JoinKey2>, n: nat) -> Seq<(usize, Option<usize>)>
    decreases n,
{
    if n == 0 {
        Seq::empty()
    } else {
        pairs_by_right(l, r, keys, (n - 1) as nat) + pairs_of_right(l, r, keys, n - 1)
    }
}

/// The pairs of a join on keys: by the rows of the larger table if neither side
/// has to be kept, else by the left rows.
pub open spec fn key_pairs(l: Held, r: Held, keys: Seq<JoinKey2>, jt: JoinType2) -> Seq<
    (usize, Option<usize>),
> {
    if jt == JoinType2::Inner && l.row_count < r.row_count {
        pairs_by_right(l, r, keys, r.row_count as nat)
    } else {
        pairs_by_left(l, r, keys, jt, l.row_count as nat)
    }
}

fn word_of_row(t: &ExecTable, cols: &Vec<usize>, row: usize) -> (w: u64)
    requires
        t.wf(),
        row < t.row_count,
        forall|i: int| 0 <= i < cols@.len() ==> #[trigger] cols@[i] < t.columns.len(),
    ensures
        w == match_word(key_cells(t@, cols@, row as int)),
{
    if cols.len() == 1 {
        return t.columns[cols[0]][row];
    }
    let ghost words = key_cells(t@, cols@, row as int);
    let mut bytes: Vec<u8> = Vec::new();
    let mut k: usize = 0;
    proof {
        assert(bytes@ =~= packed(words, 0));
    }
    while k < cols.len() && k < PACKED_WORDS
        invariant
            t.wf(),
            row < t.row_count,
            forall|i: int| 0 <= i < cols@.len() ==> #[trigger] cols@[i] < t.columns.len(),
            words == key_cells(t@, cols@, row as int),
            k <= cols@.len(),
            k <= PACKED_WORDS,
            bytes@ == packed(words, k as nat),
        decreases cols.len() - k,
    {
        let mut part: Vec<u8> = u64_to_le_bytes(t.columns[cols[k]][row]);
        bytes.append(&mut part);
        k = k + 1;
    }
    hash_bytes(&bytes)
}

fn lines_of(t: &ExecTable, cols: &Vec<usize>) -> (lines: Vec<Term>)
    requires
        t.wf(),
        forall|i: int| 0 <= i < cols@.len() ==> #[trigger] cols@[i] < t.columns.len(),
    ensures
        lines@ == match_lines(t@, cols@),
{
    let mut lines: Vec<Term> = Vec::new();
    let mut i: usize = 0;
    while i < t.row_count
        invariant
            t.wf(),
            forall|k: int| 0 <= k < cols@.len() ==> #[trigger] cols@[k] < t.columns.len(),
            i <= t.row_count,
            lines@.len() == i,
            forall|k: int| 0 <= k < i ==> #[trigger] lines@[k] == match_lines(t@, cols@)[k],
        decreases t.row_count - i,
    {
        lines.push(Some(((word_of_row(t, cols, i), 0, 0), 0)));
        i = i + 1;
    }
    proof {
        assert(lines@ =~= match_lines(t@, cols@));
    }
    lines
}

fn split_left(keys: &Vec<JoinKey2>) -> (cols: Vec<usize>)
    ensures
        cols@ == left_columns(keys@),
{
    let mut cols: Vec<usize> = Vec::new();
    let mut i: usize = 0;
    while i < keys.len()
        invariant
            i <= keys@.len(),
            cols@.len() == i,
            forall|k: int| 0 <= k < i ==> #[trigger] cols@[k] == keys@[k].left,
        decreases keys.len() - i,
    {
        cols.push(keys[i].left);
        i = i + 1;
    }
    proof {
        assert(cols@ =~= left_columns(keys@));
    }
    cols
}

fn split_right(keys: &Vec<JoinKey2>) -> (cols: Vec<usize>)
    ensures
        cols@ == right_columns(keys@),
{
    let mut cols: Vec<usize> = Vec::new();
    let mut i: usize = 0;
    while i < keys.len()
        invariant
            i <= keys@.len(),
            cols@.len() == i,
            forall|k: int| 0 <= k < i ==> #[trigger] cols@[k] == keys@[k].right,
        decreases keys.len() - i,
    {
        cols.push(keys[i].right);
        i = i + 1;
    }
    proof {
        assert(cols@ =~= right_columns(keys@));
    }
    cols
}

/// Whether two rows agree in their key columns.
fn rows_agree(t: &ExecTable, cols: &Vec<usize>, row: usize, u: &ExecTable, others: &Vec<usize>, other: usize) -> (b: bool)
    requires
        t.wf(),
        u.wf(),
        row < t.row_count,
        other < u.row_count,
        cols@.len() == others@.len(),
        forall|i: int| 0 <= i < cols@.len() ==> #[trigger] cols@[i] < t.columns.len(),
        forall|i: int| 0 <= i < others@.len() ==> #[trigger] others@[i] < u.columns.len(),
    ensures
        b == (key_cells(t@, cols@, row as int) == key_cells(u@, others@, other as int)),
{
    let ghost x = key_cells(t@, cols@, row as int);
    let ghost y = key_cells(u@, others@, other as int);
    let mut i: usize = 0;
    while i < cols.len()
        invariant
            t.wf(),
            u.wf(),
            row < t.row_count,
            other < u.row_count,
            cols@.len() == others@.len(),
            forall|k: int| 0 <= k < cols@.len() ==> #[trigger] cols@[k] < t.columns.len(),
            forall|k: int| 0 <= k < others@.len() ==> #[trigger] others@[k] < u.columns.len(),
            x == key_cells(t@, cols@, row as int),
            y == key_cells(u@, others@, other as int),
            i <= cols@.len(),
            forall|k: int| 0 <= k < i ==> #[trigger] x[k] == y[k],
        decreases cols.len() - i,
    {
        proof {
            assert(t.columns@[cols@[i as int] as int].len() == t.row_count);
            assert(u.columns@[others@[i as int] as int].len() == u.row_count);
            assert(x[i as int] == t.columns@[cols@[i as int] as int]@[row as int]);
            assert(y[i as int] == u.columns@[others@[i as int] as int]@[other as int]);
        }
        if t.columns[cols[i]][row] != u.columns[others[i]][other] {
            return false;
        }
        i = i + 1;
    }
    proof {
        assert(x =~= y);
    }
    true
}

/// Keeps the listed rows that agree with a row of another table.
fn pick_agreeing(
    list: &Vec<usize>,
    t: &ExecTable,
    cols: &Vec<usize>,
    u: &ExecTable,
    others: &Vec<usize>,
    other: usize,
) -> (out: Vec<usize>)
    requires
        t.wf(),
        u.wf(),
        other < u.row_count,
        cols@.len() == others@.len(),
        forall|i: int| 0 <= i < cols@.len() ==> #[trigger] cols@[i] < t.columns.len(),
        forall|i: int| 0 <= i < others@.len() ==> #[trigger] others@[i] < u.columns.len(),
        forall|i: int| 0 <= i < list@.len() ==> #[trigger] list@[i] < t.row_count,
    ensures
        out@ == agreeing(list@, t@, cols@, key_cells(u@, others@, other as int)),
{
    let ghost cells = key_cells(u@, others@, other as int);
    let mut out: Vec<usize> = Vec::new();
    let mut i: usize = 0;
    proof {
        assert(list@.take(0) =~= Seq::<usize>::empty());
        assert(out@ =~= agreeing(list@.take(0), t@, cols@, cells));
    }
    while i < list.len()
        invariant
            t.wf(),
            u.wf(),
            other < u.row_count,
            cols@.len() == others@.len(),
            forall|k: int| 0 <= k < cols@.len() ==> #[trigger] cols@[k] < t.columns.len(),
            forall|k: int| 0 <= k < others@.len() ==> #[trigger] others@[k] < u.columns.len(),
            forall|k: int| 0 <= k < list@.len() ==> #[trigger] list@[k] < t.row_count,
            cells == key_cells(u@, others@, other as int),
            i <= list@.len(),
            out@ == agreeing(list@.take(i as int), t@, cols@, cells),
        decreases list.len() - i,
    {
        proof {
            assert(list@.take(i + 1).drop_last() =~= list@.take(i as int));
            assert(list@.take(i + 1).last() == list@[i as int]);
        }
        if rows_agree(t, cols, list[i], u, others, other) {
            out.push(list[i]);
        }
        i = i + 1;
    }
    proof {
        assert(list@.take(i as int) =~= list@);
    }
    out
}

/// The rows of a table that agree with a row of another one, by an index of the
/// words of the table's rows.
fn find_agreeing(
    groups: &GroupIndex,
    lists: &Vec<Vec<usize>>,
    t: &ExecTable,
    cols: &Vec<usize>,
    u: &ExecTable,
    others: &Vec<usize>,
    other: usize,
) -> (found: Vec<usize>)
    requires
        t.wf(),
        u.wf(),
        other < u.row_count,
        cols@.len() == others@.len(),
        forall|i: int| 0 <= i < cols@.len() ==> #[trigger] cols@[i] < t.columns.len(),
        forall|i: int| 0 <= i < others@.len() ==> #[trigger] others@[i] < u.columns.len(),
        groups.wf(),
        lists@.len() == groups@.len(),
        forall|g: int|
            0 <= g < groups@.len() ==> (#[trigger] lists@[g])@ == members(
                match_lines(t@, cols@),
                groups@[g],
                t.row_count as int,
            ),
        forall|k: Key| !#[trigger] groups@.contains(k) ==> members(match_lines(t@, cols@), k, t.row_count as int).len() == 0,
    ensures
        found@ == rows_with(t@, cols@, key_cells(u@, others@, other as int), t.row_count as nat),
        forall|i: int| 0 <= i < found@.len() ==> #[trigger] found@[i] < t.row_count,
{
    let ghost cells = key_cells(u@, others@, other as int);
    let word: u64 = word_of_row(u, others, other);
    let ghost k: Key = (word, 0, 0);
    proof {
        lemma_agreeing(t@, cols@, cells, t.row_count as nat);
        lemma_rows_with(t@, cols@, cells, t.row_count as nat, 0);
        lemma_members_exist(match_lines(t@, cols@), k, t.row_count as int);
    }
    match groups.find((word, 0, 0)) {
        Some(g) => {
            proof {
                assert(groups@[g as int] == k);
                assert(lists@[g as int]@ == members(match_lines(t@, cols@), k, t.row_count as int));
            }
            pick_agreeing(&lists[g], t, cols, u, others, other)
        },
        None => {
            let none: Vec<usize> = Vec::new();
            proof {
                assert(members(match_lines(t@, cols@), k, t.row_count as int) =~= none@);
                assert(agreeing(none@, t@, cols@, cells) =~= none@);
            }
            none
        },
    }
}

/// Joins two tables on keys.
pub fn hash_join_with_keys(l: &ExecTable, r: &ExecTable, keys: &Vec<JoinKey2>, jt: JoinType2) -> (t: ExecTable)
    requires
        l.wf(),
        r.wf(),
        keys_ok(keys@, l@, r@),
    ensures
        t@ == joined(l@, r@, key_pairs(l@, r@, keys@, jt)),
        t.wf(),
{
    let lc: Vec<usize> = split_left(keys);
    let rc: Vec<usize> = split_right(keys);
    let mut pairs: Vec<(usize, Option<usize>)> = Vec::new();
    if jt == JoinType2::Inner && l.row_count < r.row_count {
        let lines: Vec<Term> = lines_of(l, &lc);
        let (groups, lists): (GroupIndex, Vec<Vec<usize>>) = index_rows(&lines);
        let mut p: usize = 0;
        while p < r.row_count
            invariant
                l.wf(),
                r.wf(),
                keys_ok(keys@, l@, r@),
                lc@ == left_columns(keys@),
                rc@ == right_columns(keys@),
                lines@ == match_lines(l@, lc@),
                groups.wf(),
                lists@.len() == groups@.len(),
                forall|g: int|
                    0 <= g < groups@.len() ==> (#[trigger] lists@[g])@ == members(lines@, groups@[g], lines@.len() as int),
                forall|k: Key| !#[trigger] groups@.contains(k) ==> members(lines@, k, lines@.len() as int).len() == 0,
                p <= r.row_count,
                pairs@ == pairs_by_right(l@, r@, keys@, p as nat),
                pairs_ok(pairs@, l@, r@),
            decreases r.row_count - p,
        {
            let ghost before = pairs@;
            let ghost here = pairs_of_right(l@, r@, keys@, p as int);
            let list: Vec<usize> = find_agreeing(&groups, &lists, l, &lc, r, &rc, p);
            let mut i: usize = 0;
            proof {
                assert(pairs@ =~= before + here.take(0));
            }
            while i < list.len()
                invariant
                    p < r.row_count,
                    here == pairs_of_right(l@, r@, keys@, p as int),
                    here.len() == list@.len(),
                    forall|k: int| 0 <= k < list@.len() ==> #[trigger] here[k] == (list@[k], Some(p)),
                    forall|k: int| 0 <= k < list@.len() ==> #[trigger] list@[k] < l.row_count,
                    i <= list@.len(),
                    pairs@ == before + here.take(i as int),
                    pairs_ok(pairs@, l@, r@),
                decreases list.len() - i,
            {
                pairs.push((list[i], Some(p)));
                i = i + 1;
                proof {
                    assert(pairs@ =~= before + here.take(i as int));
                }
            }
            proof {
                assert(here.take(i as int) =~= here);
            }
            p = p + 1;
        }
    } else {
        let lines: Vec<Term> = lines_of(r, &rc);
        let (groups, lists): (GroupIndex, Vec<Vec<usize>>) = index_rows(&lines);
        let mut p: usize = 0;
        while p < l.row_count
            invariant
                l.wf(),
                r.wf(),
                keys_ok(keys@, l@, r@),
                lc@ == left_columns(keys@),
                rc@ == right_columns(keys@),
                lines@ == match_lines(r@, rc@),
                groups.wf(),
                lists@.len() == groups@.len(),
                forall|g: int|
                    0 <= g < groups@.len() ==> (#[trigger] lists@[g])@ == members(lines@, groups@[g], lines@.len() as int),
                forall|k: Key| !#[trigger] groups@.contains(k) ==> members(lines@, k, lines@.len() as int).len() == 0,
                p <= l.row_count,
                pairs@ == pairs_by_left(l@, r@, keys@, jt, p as nat),
                pairs_ok(pairs@, l@, r@),
            decreases l.row_count - p,
        {
            let ghost before = pairs@;
            let ghost here = pairs_of_left(l@, r@, keys@, jt, p as int);
            let list: Vec<usize> = find_agreeing(&groups, &lists, r, &rc, l, &lc, p);
            if list.len() == 0 && jt == JoinType2::Left {
                pairs.push((p, None));
                proof {
                    assert(pairs@ =~= before + here);
                }
            } else {
                let mut i: usize = 0;
                proof {
                    assert(pairs@ =~= before + here.take(0));
                }
                while i < list.len()
                    invariant
                        p < l.row_count,
                        here.len() == list@.len(),
                        forall|k: int| 0 <= k < list@.len() ==> #[trigger] here[k] == (p, Some(list@[k])),
                        forall|k: int| 0 <= k < list@.len() ==> #[trigger] list@[k] < r.row_count,
                        i <= list@.len(),
                        pairs@ == before + here.take(i as int),
                        pairs_ok(pairs@, l@, r@),
                    decreases list.len() - i,
                {
                    pairs.push((p, Some(list[i])));
                    i = i + 1;
                    proof {
                        assert(pairs@ =~= before + here.take(i as int));
                    }
                }
                proof {
                    assert(here.take(i as int) =~= here);
                }
            }
            p = p + 1;
        }
    }
    join_rows(l, r, &pairs)
}

/// A join on keys pairs the rows that agree in all keys, and no others. A left join
/// also keeps, alone, each left row without a match.
pub proof fn key_pairs_match(l: Held, r: Held, keys: Seq<JoinKey2>, jt: JoinType2, a: usize, b: usize)
    requires
        a < l.row_count <= usize::MAX,
        b < r.row_count <= usize::MAX,
    ensures
        key_pairs(l, r, keys, jt).contains((a, Some(b))) <==> key_cells(l, left_columns(keys), a as int) == key_cells(
            r,
            right_columns(keys),
            b as int,
        ),
{
    if jt == JoinType2::Inner && l.row_count < r.row_count {
        lemma_by_right(l, r, keys, a, b, r.row_count as nat);
    } else {
        lemma_by_left(l, r, keys, jt, a, b, l.row_count as nat);
    }
}

proof fn lemma_concat_contains(s: Seq<(usize, Option<usize>)>, t: Seq<(usize, Option<usize>)>, x: (usize, Option<usize>))
    ensures
        (s + t).contains(x) <==> s.contains(x) || t.contains(x),
{
    let u = s + t;
    if s.contains(x) {
        let i = choose|i: int| 0 <= i < s.len() && s[i] == x;
        assert(u[i] == x);
    }
    if t.contains(x) {
        let i = choose|i: int| 0 <= i < t.len() && t[i] == x;
        assert(u[s.len() + i] == x);
    }
    if u.contains(x) {
        let i = choose|i: int| 0 <= i < u.len() && u[i] == x;
        if i < s.len() {
            assert(s[i] == x);
        } else {
            assert(t[i - s.len()] == x);
        }
    }
}

proof fn lemma_by_left(l: Held, r: Held, keys: Seq<JoinKey2>, jt: JoinType2, a: usize, b: usize, n: nat)
    requires
        n <= l.row_count <= usize::MAX,
        b < r.row_count <= usize::MAX,
    ensures
        pairs_by_left(l, r, keys, jt, n).contains((a, Some(b))) <==> a < n && key_cells(
            l,
            left_columns(keys),
            a as int,
        ) == key_cells(r, right_columns(keys), b as int),
    decreases n,
{
    let x = (a, Some(b));
    if n > 0 {
        lemma_by_left(l, r, keys, jt, a, b, (n - 1) as nat);
        let here = pairs_of_left(l, r, keys, jt, n - 1);
        lemma_concat_contains(pairs_by_left(l, r, keys, jt, (n - 1) as nat), here, x);
        let cells = key_cells(l, left_columns(keys), n - 1);
        let found = rows_with(r, right_columns(keys), cells, r.row_count as nat);
        lemma_rows_with(r, right_columns(keys), cells, r.row_count as nat, b);
        if a == n - 1 {
            if found.contains(b) {
                let i = choose|i: int| 0 <= i < found.len() && found[i] == b;
                assert(here[i] == x);
            }
            if here.contains(x) {
                let i = choose|i: int| 0 <= i < here.len() && here[i] == x;
                assert(found[i] == b);
            }
        } else {
            if here.contains(x) {
                let i = choose|i: int| 0 <= i < here.len() && here[i] == x;
                assert(here[i].0 == (n - 1) as usize);
            }
        }
    }
}

proof fn lemma_by_right(l: Held, r: Held, keys: Seq<JoinKey2>, a: usize, b: usize, n: nat)
    requires
        n <= r.row_count <= usize::MAX,
        a < l.row_count <= usize::MAX,
    ensures
        pairs_by_right(l, r, keys, n).contains((a, Some(b))) <==> b < n && key_cells(
            l,
            left_columns(keys),
            a as int,
        ) == key_cells(r, right_columns(keys), b as int),
    decreases n,
{
    let x = (a, Some(b));
    if n > 0 {
        lemma_by_right(l, r, keys, a, b, (n - 1) as nat);
        let here = pairs_of_right(l, r, keys, n - 1);
        lemma_concat_contains(pairs_by_right(l, r, keys, (n - 1) as nat), here, x);
        let cells = key_cells(r, right_columns(keys), n - 1);
        let found = rows_with(l, left_columns(keys), cells, l.row_count as nat);
        lemma_rows_with(l, left_columns(keys), cells, l.row_count as nat, a);
        if b == n - 1 {
            if found.contains(a) {
                let i = choose|i: int| 0 <= i < found.len() && found[i] == a;
                assert(here[i] == x);
            }
            if here.contains(x) {
                let i = choose|i: int| 0 <= i < here.len() && here[i] == x;
                assert(found[i] == a);
            }
        } else {
            if here.contains(x) {
                let i = choose|i: int| 0 <= i < here.len() && here[i] == x;
                assert(here[i].1 == Some((n - 1) as usize));
            }
        }
    }
}

/// A condition is the equality of two columns.
pub open spec fn equates_columns(e: Expr2) -> bool {
    e matches Expr2::BinOp { op, left, right } && op == BinOp2::Eq && *left is Col && *right is Col
}

/// Those of the first `n` conditions that are not the equality of two columns.
pub open spec fn other_conditions(es: Seq<Expr2>, n: nat) -> Seq<Expr2>
    decreases n,
{
    if n == 0 {
        Seq::empty()
    } else if equates_columns(es[n - 1]) {
        other_conditions(es, (n - 1) as nat)
    } else {
        other_conditions(es, (n - 1) as nat).push(es[n - 1])
    }
}

/// A column that the expression is stands in the table, by its name or by what
/// is behind its last dot.
pub open spec fn leaf_in_table(e: Expr2, t: Held) -> bool {
    e matches Expr2::Col(name) && (t.number(name@) is Some || t.number(short_name(name@)) is Some)
}

/// An expression refers to a column of the table.
pub open spec fn refers_to(e: Expr2, t: Held) -> bool {
    exists|i: int| 0 <= i < leaves(e).len() && leaf_in_table(#[trigger] leaves(e)[i], t)
}

/// The text of a row of a column, as a column of one row.
pub open spec fn one_text(texts: Option<Seq<Seq<char>>>, row: int) -> Option<Seq<Seq<char>>> {
    match texts {
        Some(s) => if row < s.len() {
            Some(seq![s[row]])
        } else {
            None
        },
        None => None,
    }
}

/// A left row and a right row side by side, as a table of one row. Of texts, those
/// of the right row are kept.
pub open spec fn side_by_side(l: Held, a: int, r: Held, b: int) -> Held {
    let n = l.columns.len() + r.columns.len();
    Held {
        row_count: 1,
        columns: Seq::new(
            n,
            |c: int|
                seq![
                    if c < l.columns.len() {
                        l.columns[c][a]
                    } else {
                        r.columns[c - l.columns.len()][b]
                    },
                ],
        ),
        column_names: joined_names(l, r),
        col_types: l.col_types + r.col_types,
        strings: Seq::new(
            n,
            |c: int|
                if c < l.columns.len() {
                    None
                } else {
                    one_text(r.strings[c - l.columns.len()], b)
                },
        ),
        numbers: joined_numbers(l, r),
    }
}

/// The value of a condition on a pair of rows: on the one row that it refers to,
/// else on both side by side.
pub open spec fn pair_value<
    F: Fn(FloatOp, u64, u64) -> u64,
    P: Fn(&str) -> Option<u64>,
>(c: Env<F, P>, e: Expr2, l: Held, a: usize, r: Held, b: usize) -> Result<Val, Fail> {
    if refers_to(e, r) && !refers_to(e, l) {
        value_of(c, e, r, b)
    } else if refers_to(e, l) && !refers_to(e, r) {
        value_of(c, e, l, a)
    } else {
        value_of(c, e, side_by_side(l, a as int, r, b as int), 0)
    }
}

/// Whether conditions, from place `k` on, are true of a pair of rows. Conditions
/// behind the first that is not are not looked at.
pub open spec fn pair_passes<
    F: Fn(FloatOp, u64, u64) -> u64,
    P: Fn(&str) -> Option<u64>,
>(c: Env<F, P>, es: Seq<Expr2>, k: nat, l: Held, a: usize, r: Held, b: usize) -> Result<
    bool,
    Fail,
>
    decreases es.len() - k,
{
    if k >= es.len() {
        Ok(true)
    } else {
        match pair_value(c, es[k as int], l, a, r, b) {
            Ok(v) => if is_true(v) {
                pair_passes(c, es, k + 1, l, a, r, b)
            } else {
                Ok(false)
            },
            Err(f) => Err(f),
        }
    }
}

/// The rows are equal under every key.
pub open spec fn keys_equal(keys: Seq<JoinKey2>, l: Held, a: int, r: Held, b: int) -> bool {
    forall|i: int|
        0 <= i < keys.len() ==> l.columns[(#[trigger] keys[i]).left as int][a] == r.columns[keys[i].right as int][b]
}

/// The pairs of a left row with the first `n` right rows.
pub open spec fn on_pairs_of<
    F: Fn(FloatOp, u64, u64) -> u64,
    P: Fn(&str) -> Option<u64>,
>(
    c: Env<F, P>,
    keys: Seq<JoinKey2>,
    es: Seq<Expr2>,
    l: Held,
    a: usize,
    r: Held,
    n: nat,
) -> Result<Seq<(usize, Option<usize>)>, Fail>
    decreases n,
{
    if n == 0 {
        Ok(Seq::empty())
    } else {
        match on_pairs_of(c, keys, es, l, a, r, (n - 1) as nat) {
            Ok(before) => if keys_equal(keys, l, a as int, r, n - 1) {
                match pair_passes(c, es, 0, l, a, r, (n - 1) as usize) {
                    Ok(true) => Ok(before.push((a, Some((n - 1) as usize)))),
                    Ok(false) => Ok(before),
                    Err(f) => Err(f),
                }
            } else {
                Ok(before)
            },
            Err(f) => Err(f),
        }
    }
}

/// The pairs of the first `n` left rows.
pub open spec fn on_pairs<
    F: Fn(FloatOp, u64, u64) -> u64,
    P: Fn(&str) -> Option<u64>,
>(
    c: Env<F, P>,
    keys: Seq<JoinKey2>,
    es: Seq<Expr2>,
    l: Held,
    r: Held,
    jt: JoinType2,
    n: nat,
) -> Result<Seq<(usize, Option<usize>)>, Fail>
    decreases n,
{
    if n == 0 {
        Ok(Seq::empty())
    } else {
        match on_pairs(c, keys, es, l, r, jt, (n - 1) as nat) {
            Ok(before) => match on_pairs_of(c, keys, es, l, (n - 1) as usize, r, r.row_count as nat) {
                Ok(here) => if here.len() == 0 && jt == JoinType2::Left {
                    Ok(before.push(((n - 1) as usize, None)))
                } else {
                    Ok(before + here)
                },
                Err(f) => Err(f),
            },
            Err(f) => Err(f),
        }
    }
}

/// The keys of a join condition.
pub open spec fn on_keys(on: Expr2, l: Held, r: Held) -> Seq<JoinKey2> {
    branch_keys(on, l, r)
}

pub open spec fn on_others(on: Expr2) -> Seq<Expr2> {
    other_conditions(flat(on, BinOp2::And), flat(on, BinOp2::And).len())
}

/// What a join on a condition comes to.
pub open spec fn join_outcome<F: Fn(FloatOp, u64, u64) -> u64, P: Fn(&str) -> Option<u64>>(
    c: Env<F, P>,
    l: Held,
    r: Held,
    on: Expr2,
    jt: JoinType2,
) -> Result<Held, Fail> {
    let keys = on_keys(on, l, r);
    if keys.len() == 0 {
        crossed(l, r)
    } else {
        match on_pairs(c, keys, on_others(on), l, r, jt, l.row_count as nat) {
            Ok(pairs) => Ok(joined(l, r, pairs)),
            Err(f) => Err(f),
        }
    }
}

/// Whether an expression refers to a column of the table.
pub fn expr_refs_table(e: &Expr2, t: &ExecTable) -> (b: bool)
    ensures
        b == refers_to(*e, t@),
{
    let v: Vec<&Expr2> = list_leaves(e);
    let mut i: usize = 0;
    while i < v.len()
        invariant
            i <= v@.len(),
            referents(v@) == leaves(*e),
            forall|k: int| 0 <= k < i ==> !leaf_in_table(#[trigger] leaves(*e)[k], t@),
        decreases v.len() - i,
    {
        proof {
            assert(referents(v@)[i as int] == leaves(*e)[i as int]);
        }
        match v[i] {
            Expr2::Col(name) => {
                if t.lookup_col(name.as_str()).is_some() {
                    return true;
                }
                match behind_dot(name.as_str()) {
                    Some(short) => {
                        if t.lookup_col(short.as_str()).is_some() {
                            return true;
                        }
                    },
                    None => {},
                }
            },
            _ => {},
        }
        i = i + 1;
    }
    proof {
        assert(v@.len() == referents(v@).len());
    }
    false
}

/// Puts two rows side by side.
fn put_side_by_side(l: &ExecTable, a: usize, r: &ExecTable, b: usize) -> (t: ExecTable)
    requires
        l.wf(),
        r.wf(),
        a < l.row_count,
        b < r.row_count,
    ensures
        t@ == side_by_side(l@, a as int, r@, b as int),
        t.wf(),
{
    let mut columns: Vec<Vec<u64>> = Vec::new();
    let mut string_columns: Vec<Option<StringSearchColumn>> = Vec::new();
    let mut c: usize = 0;
    while c < l.columns.len()
        invariant
            l.wf(),
            a < l.row_count,
            c <= l.columns@.len(),
            columns@.len() == c,
            string_columns@.len() == c,
            forall|k: int| 0 <= k < c ==> (#[trigger] columns@[k])@ == seq![l.columns@[k]@[a as int]],
            forall|k: int| 0 <= k < c ==> #[trigger] string_columns@[k] is None,
        decreases l.columns.len() - c,
    {
        let mut cells: Vec<u64> = Vec::new();
        cells.push(l.columns[c][a]);
        proof {
            assert(cells@ =~= seq![l.columns@[c as int]@[a as int]]);
        }
        columns.push(cells);
        string_columns.push(None);
        c = c + 1;
    }
    let mut d: usize = 0;
    while d < r.columns.len()
        invariant
            r.wf(),
            b < r.row_count,
            d <= r.columns@.len(),
            columns@.len() == l.columns@.len() + d,
            string_columns@.len() == columns@.len(),
            forall|k: int| 0 <= k < l.columns@.len() ==> (#[trigger] columns@[k])@ == seq![l.columns@[k]@[a as int]],
            forall|k: int| 0 <= k < l.columns@.len() ==> #[trigger] string_columns@[k] is None,
            forall|k: int|
                l.columns@.len() <= k < columns@.len() ==> (#[trigger] columns@[k])@ == seq![
                    r.columns@[k - l.columns@.len()]@[b as int],
                ],
            forall|k: int|
                l.columns@.len() <= k < columns@.len() ==> strings_of(#[trigger] string_columns@[k]) == one_text(
                    strings_of(r.string_columns@[k - l.columns@.len()]),
                    b as int,
                ),
        decreases r.columns.len() - d,
    {
        let mut cells: Vec<u64> = Vec::new();
        cells.push(r.columns[d][b]);
        proof {
            assert(cells@ =~= seq![r.columns@[d as int]@[b as int]]);
        }
        columns.push(cells);
        let text: Option<StringSearchColumn> = match &r.string_columns[d] {
            Some(s) => if b < s.strings.len() {
                let mut one: Vec<String> = Vec::new();
                one.push(s.strings[b].clone());
                let x: Option<StringSearchColumn> = Some(StringSearchColumn::new(one));
                proof {
                    let texts = s.strings@.map_values(|z: String| z@);
                    assert(texts[b as int] == s.strings@[b as int]@);
                    assert(strings_of(x)->0 =~= seq![texts[b as int]]);
                }
                x
            } else {
                None
            },
            None => None,
        };
        string_columns.push(text);
        d = d + 1;
    }
    let column_names: Vec<String> = list_names(l, r);
    let col_types: Vec<ColType> = list_types(l, r);
    let col_map: NameMap = join_names(l, r, &column_names);
    let t: ExecTable = ExecTable { columns, column_names, col_types, string_columns, row_count: 1, col_map };
    proof {
        let u = side_by_side(l@, a as int, r@, b as int);
        assert forall|k: int| 0 <= k < t@.columns.len() implies #[trigger] t@.columns[k] == u.columns[k] by {
            assert(t@.columns[k] == t.columns@[k]@);
        }
        assert(t@.columns =~= u.columns);
        assert(t@.column_names =~= u.column_names);
        assert(t@.strings =~= u.strings);
    }
    t
}

/// Evaluates conditions on a pair of rows.
pub fn eval_non_equi_match<
    F: Fn(FloatOp, u64, u64) -> u64,
    P: Fn(&str) -> Option<u64>,
    S: Fn(&Expr2, &ExecTable, usize) -> Result<Value2, Error>,
>(c: &Ctx<'_, F, P, S>, es: &Vec<&Expr2>, l: &ExecTable, a: usize, r: &ExecTable, b: usize) -> (res: Result<
    bool,
    Error,
>)
    requires
        ctx_ok(*c),
        l.wf(),
        r.wf(),
        a < l.row_count,
        b < r.row_count,
    ensures
        match res {
            Ok(x) => pair_passes(c@, referents(es@), 0, l@, a, r@, b) == Ok::<bool, Fail>(x),
            Err(e) => pair_passes(c@, referents(es@), 0, l@, a, r@, b) == Err::<bool, Fail>(e@),
        },
{
    let ghost parts = referents(es@);
    let mut k: usize = 0;
    while k < es.len()
        invariant
            ctx_ok(*c),
            l.wf(),
            r.wf(),
            a < l.row_count,
            b < r.row_count,
            parts == referents(es@),
            k <= es@.len(),
            pair_passes(c@, parts, 0, l@, a, r@, b) == pair_passes(c@, parts, k as nat, l@, a, r@, b),
        decreases es.len() - k,
    {
        let e: &Expr2 = es[k];
        proof {
            assert(parts[k as int] == *e);
        }
        let in_left: bool = expr_refs_table(e, l);
        let in_right: bool = expr_refs_table(e, r);
        let v: Result<Value2, Error> = if in_right && !in_left {
            eval(c, e, r, b)
        } else if in_left && !in_right {
            eval(c, e, l, a)
        } else {
            let t: ExecTable = put_side_by_side(l, a, r, b);
            eval(c, e, &t, 0)
        };
        match v {
            Ok(x) => {
                if !x.truthy() {
                    return Ok(false);
                }
            },
            Err(f) => {
                return Err(f);
            },
        }
        k = k + 1;
    }
    Ok(true)
}

fn pick_others<'a>(es: &Vec<&'a Expr2>) -> (out: Vec<&'a Expr2>)
    ensures
        referents(out@) == other_conditions(referents(es@), es@.len()),
{
    let ghost parts = referents(es@);
    let mut out: Vec<&'a Expr2> = Vec::new();
    let mut i: usize = 0;
    proof {
        assert(referents(out@) =~= Seq::<Expr2>::empty());
    }
    while i < es.len()
        invariant
            parts == referents(es@),
            i <= es@.len(),
            referents(out@) == other_conditions(parts, i as nat),
        decreases es.len() - i,
    {
        let ghost before = referents(out@);
        proof {
            assert(parts[i as int] == *es@[i as int]);
        }
        let equates: bool = match es[i] {
            Expr2::BinOp { op, left, right } => *op == BinOp2::Eq && (match &**left {
                Expr2::Col(_) => true,
                _ => false,
            }) && (match &**right {
                Expr2::Col(_) => true,
                _ => false,
            }),
            _ => false,
        };
        if !equates {
            out.push(es[i]);
            proof {
                assert(referents(out@) =~= before.push(parts[i as int]));
            }
        }
        i = i + 1;
    }
    out
}

fn check_keys(keys: &Vec<JoinKey2>, l: &ExecTable, a: usize, r: &ExecTable, b: usize) -> (e: bool)
    requires
        l.wf(),
        r.wf(),
        keys_ok(keys@, l@, r@),
        a < l.row_count,
        b < r.row_count,
    ensures
        e == keys_equal(keys@, l@, a as int, r@, b as int),
{
    let mut i: usize = 0;
    while i < keys.len()
        invariant
            l.wf(),
            r.wf(),
            keys_ok(keys@, l@, r@),
            a < l.row_count,
            b < r.row_count,
            i <= keys@.len(),
            forall|k: int|
                0 <= k < i ==> l.columns@[(#[trigger] keys@[k]).left as int]@[a as int]
                    == r.columns@[keys@[k].right as int]@[b as int],
        decreases keys.len() - i,
    {
        if l.columns[keys[i].left][a] != r.columns[keys[i].right][b] {
            proof {
                let k = keys@[i as int];
                assert(l.columns@[k.left as int]@[a as int] != r.columns@[k.right as int]@[b as int]);
            }
            return false;
        }
        i = i + 1;
    }
    true
}

proof fn lemma_no_keys_between<
    F: Fn(FloatOp, u64, u64) -> u64,
    P: Fn(&str) -> Option<u64>,
>(
    c: Env<F, P>,
    keys: Seq<JoinKey2>,
    es: Seq<Expr2>,
    l: Held,
    a: usize,
    r: Held,
    from: nat,
    to: nat,
)
    requires
        from <= to,
        forall|b: int| from <= b < to ==> !#[trigger] keys_equal(keys, l, a as int, r, b),
    ensures
        on_pairs_of(c, keys, es, l, a, r, to) == on_pairs_of(c, keys, es, l, a, r, from),
    decreases to,
{
    if from < to {
        lemma_no_keys_between(c, keys, es, l, a, r, from, (to - 1) as nat);
        assert(!keys_equal(keys, l, a as int, r, to - 1));
    }
}

proof fn lemma_pairs_of_fail<
    F: Fn(FloatOp, u64, u64) -> u64,
    P: Fn(&str) -> Option<u64>,
>(
    c: Env<F, P>,
    keys: Seq<JoinKey2>,
    es: Seq<Expr2>,
    l: Held,
    a: usize,
    r: Held,
    i: nat,
    n: nat,
)
    requires
        i <= n,
        on_pairs_of(c, keys, es, l, a, r, i) is Err,
    ensures
        on_pairs_of(c, keys, es, l, a, r, n) == on_pairs_of(c, keys, es, l, a, r, i),
    decreases n,
{
    if i < n {
        lemma_pairs_of_fail(c, keys, es, l, a, r, i, (n - 1) as nat);
    }
}

proof fn lemma_pairs_fail<
    F: Fn(FloatOp, u64, u64) -> u64,
    P: Fn(&str) -> Option<u64>,
>(
    c: Env<F, P>,
    keys: Seq<JoinKey2>,
    es: Seq<Expr2>,
    l: Held,
    r: Held,
    jt: JoinType2,
    i: nat,
    n: nat,
)
    requires
        i <= n,
        on_pairs(c, keys, es, l, r, jt, i) is Err,
    ensures
        on_pairs(c, keys, es, l, r, jt, n) == on_pairs(c, keys, es, l, r, jt, i),
    decreases n,
{
    if i < n {
        lemma_pairs_fail(c, keys, es, l, r, jt, i, (n - 1) as nat);
    }
}

/// The pairs of one left row, given the right rows that agree with it on the
/// first key.
fn pair_row<
    F: Fn(FloatOp, u64, u64) -> u64,
    P: Fn(&str) -> Option<u64>,
    S: Fn(&Expr2, &ExecTable, usize) -> Result<Value2, Error>,
>(
    c: &Ctx<'_, F, P, S>,
    keys: &Vec<JoinKey2>,
    es: &Vec<&Expr2>,
    l: &ExecTable,
    a: usize,
    r: &ExecTable,
    list: &Vec<usize>,
) -> (res: Result<Vec<(usize, Option<usize>)>, Error>)
    requires
        ctx_ok(*c),
        l.wf(),
        r.wf(),
        keys@.len() > 0,
        keys_ok(keys@, l@, r@),
        a < l.row_count,
        forall|i: int, j: int| 0 <= i < j < list@.len() ==> #[trigger] list@[i] < #[trigger] list@[j],
        forall|i: int| 0 <= i < list@.len() ==> #[trigger] list@[i] < r.row_count,
        forall|b: usize|
            b < r.row_count && !list@.contains(b) ==> !#[trigger] keys_equal(keys@, l@, a as int, r@, b as int),
    ensures
        match res {
            Ok(pairs) => on_pairs_of(c@, keys@, referents(es@), l@, a, r@, r.row_count as nat) == Ok::<
                Seq<(usize, Option<usize>)>,
                Fail,
            >(pairs@) && pairs_ok(pairs@, l@, r@),
            Err(e) => on_pairs_of(c@, keys@, referents(es@), l@, a, r@, r.row_count as nat) == Err::<
                Seq<(usize, Option<usize>)>,
                Fail,
            >(e@),
        },
{
    let ghost parts = referents(es@);
    let mut pairs: Vec<(usize, Option<usize>)> = Vec::new();
    let ghost mut done: nat = 0;
    let mut i: usize = 0;
    while i < list.len()
        invariant
            ctx_ok(*c),
            l.wf(),
            r.wf(),
            keys_ok(keys@, l@, r@),
            a < l.row_count,
            parts == referents(es@),
            forall|k: int, j: int| 0 <= k < j < list@.len() ==> #[trigger] list@[k] < #[trigger] list@[j],
            forall|k: int| 0 <= k < list@.len() ==> #[trigger] list@[k] < r.row_count,
            forall|b: usize|
                b < r.row_count && !list@.contains(b) ==> !#[trigger] keys_equal(keys@, l@, a as int, r@, b as int),
            i <= list@.len(),
            done <= r.row_count,
            done == (if i == 0 {
                0
            } else {
                list@[i - 1] + 1
            }),
            on_pairs_of(c@, keys@, parts, l@, a, r@, done) == Ok::<Seq<(usize, Option<usize>)>, Fail>(pairs@),
            pairs_ok(pairs@, l@, r@),
        decreases list.len() - i,
    {
        let b: usize = list[i];
        proof {
            assert forall|k: int| done <= k < b implies !#[trigger] keys_equal(keys@, l@, a as int, r@, k) by {
                assert(!list@.contains(k as usize)) by {
                    if list@.contains(k as usize) {
                        let j = choose|j: int| 0 <= j < list@.len() && list@[j] == k as usize;
                        if j < i {
                            if j < i - 1 {
                                assert(list@[j] < list@[i - 1]);
                            }
                        } else if j > i {
                            assert(list@[i as int] < list@[j]);
                        }
                    }
                }
                assert(!keys_equal(keys@, l@, a as int, r@, (k as usize) as int));
            }
            lemma_no_keys_between(c@, keys@, parts, l@, a, r@, done, b as nat);
        }
        if check_keys(keys, l, a, r, b) {
            match eval_non_equi_match(c, es, l, a, r, b) {
                Ok(true) => {
                    pairs.push((a, Some(b)));
                },
                Ok(false) => {},
                Err(f) => {
                    proof {
                        assert(on_pairs_of(c@, keys@, parts, l@, a, r@, (b + 1) as nat) is Err);
                        lemma_pairs_of_fail(c@, keys@, parts, l@, a, r@, (b + 1) as nat, r.row_count as nat);
                    }
                    return Err(f);
                },
            }
        }
        i = i + 1;
        proof {
            done = (b + 1) as nat;
        }
    }
    proof {
        assert forall|k: int| done <= k < r.row_count implies !#[trigger] keys_equal(keys@, l@, a as int, r@, k) by {
            assert(!list@.contains(k as usize)) by {
                if list@.contains(k as usize) {
                    let j = choose|j: int| 0 <= j < list@.len() && list@[j] == k as usize;
                    if j < list@.len() - 1 {
                        assert(list@[j] < list@[list@.len() - 1]);
                    }
                }
            }
            assert(!keys_equal(keys@, l@, a as int, r@, (k as usize) as int));
        }
        lemma_no_keys_between(c@, keys@, parts, l@, a, r@, done, r.row_count as nat);
    }
    Ok(pairs)
}

/// Joins two tables on a condition. What is not the equality of two columns is
/// held against each pair that the keys give.
pub fn hash_join<
    F: Fn(FloatOp, u64, u64) -> u64,
    P: Fn(&str) -> Option<u64>,
    S: Fn(&Expr2, &ExecTable, usize) -> Result<Value2, Error>,
>(c: &Ctx<'_, F, P, S>, l: &ExecTable, r: &ExecTable, on: &Expr2, jt: JoinType2) -> (res: Result<
    ExecTable,
    Error,
>)
    requires
        ctx_ok(*c),
        l.wf(),
        r.wf(),
    ensures
        table_outcome(res) == join_outcome(c@, l@, r@, *on, jt),
        res matches Ok(t) ==> t.wf(),
{
    let conds: Vec<&Expr2> = flatten(on, BinOp2::And);
    proof {
        assert(conds@.len() == referents(conds@).len());
    }
    let keys: Vec<JoinKey2> = find_join_keys_direct(l, r, &conds);
    if keys.len() == 0 {
        return cross_join(l, r);
    }
    let others: Vec<&Expr2> = pick_others(&conds);
    let ghost es = on_others(*on);
    let mut first: Vec<usize> = Vec::new();
    first.push(keys[0].right);
    let lines: Vec<Term> = lines_of(r, &first);
    let (groups, lists): (GroupIndex, Vec<Vec<usize>>) = index_rows(&lines);
    let none: Vec<usize> = Vec::new();
    let mut pairs: Vec<(usize, Option<usize>)> = Vec::new();
    let mut a: usize = 0;
    while a < l.row_count
        invariant
            ctx_ok(*c),
            l.wf(),
            r.wf(),
            keys@.len() > 0,
            keys_ok(keys@, l@, r@),
            keys@ == on_keys(*on, l@, r@),
            es == on_others(*on),
            referents(others@) == es,
            first@ == seq![keys@[0].right],
            lines@ == match_lines(r@, first@),
            groups.wf(),
            lists@.len() == groups@.len(),
            forall|g: int|
                0 <= g < groups@.len() ==> (#[trigger] lists@[g])@ == members(lines@, groups@[g], lines@.len() as int),
            forall|k: Key| !#[trigger] groups@.contains(k) ==> members(lines@, k, lines@.len() as int).len() == 0,
            none@.len() == 0,
            a <= l.row_count,
            on_pairs(c@, keys@, es, l@, r@, jt, a as nat) == Ok::<Seq<(usize, Option<usize>)>, Fail>(pairs@),
            pairs_ok(pairs@, l@, r@),
        decreases l.row_count - a,
    {
        let word: u64 = l.columns[keys[0].left][a];
        let list: &Vec<usize> = match groups.find((word, 0, 0)) {
            Some(g) => &lists[g],
            None => &none,
        };
        proof {
            let key: Key = (word, 0, 0);
            let found = members(lines@, key, lines@.len() as int);
            assert(list@ =~= found);
            members_ascend(lines@, key, lines@.len() as int);
            assert forall|b: usize| b < r.row_count && !list@.contains(b) implies !#[trigger] keys_equal(
                keys@,
                l@,
                a as int,
                r@,
                b as int,
            ) by {
                groups_partition_rows(lines@, key, lines@.len() as int, b);
                assert(!row_has(lines@, b as int, key));
                let cells = key_cells(r@, first@, b as int);
                assert(cells.len() == 1);
                assert(cells[0] == r.columns@[keys@[0].right as int]@[b as int]);
                assert(lines@[b as int] == Some(((match_word(cells), 0u64, 0u64), 0u64)));
                assert(r.columns@[keys@[0].right as int]@[b as int] != word);
                assert(l.columns@[keys@[0].left as int]@[a as int] != r.columns@[keys@[0].right as int]@[b as int]);
            }
        }
        match pair_row(c, &keys, &others, l, a, r, list) {
            Ok(here) => {
                let ghost before = pairs@;
                if here.len() == 0 && jt == JoinType2::Left {
                    pairs.push((a, None));
                } else {
                    let mut more: Vec<(usize, Option<usize>)> = here;
                    let ghost list2 = more@;
                    pairs.append(&mut more);
                    proof {
                        assert(pairs@ =~= before + list2);
                        assert forall|i: int| 0 <= i < pairs@.len() implies (#[trigger] pairs@[i]).0 < l.row_count && (pairs@[i].1 matches Some(
                            k,
                        ) ==> k < r.row_count) by {
                            if i < before.len() {
                                assert(pairs@[i] == before[i]);
                            } else {
                                assert(pairs@[i] == list2[i - before.len()]);
                            }
                        }
                    }
                }
            },
            Err(f) => {
                proof {
                    assert(on_pairs(c@, keys@, es, l@, r@, jt, (a + 1) as nat) is Err);
                    lemma_pairs_fail(c@, keys@, es, l@, r@, jt, (a + 1) as nat, l.row_count as nat);
                }
                return Err(f);
            },
        }
        a = a + 1;
    }
    Ok(join_rows(l, r, &pairs))
}

} // verus!
