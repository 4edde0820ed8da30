//! Which columns of a query inside another belong to that other query.

use crate::sql::ast::{BinOp2, Expr2, FromItem, SelectItem2, SelectQuery2};
use crate::sql::exec_table::{behind_dot, catalog_numbers, short_name, ExecTable, Held};
use crate::sql::masks::{flat, flatten};
use crate::sql::query::{alias_or, catalog_ok};
use crate::sql::shape::{leaves, list_leaves, referents};
use crate::table::{Catalog, Table};
use crate::text::{
    append_text, chars_of, is_digit, lower_ascii, lowercase, same_chars, same_ignoring_case, same_text, slice_chars,
    string_of, to_lower, to_lowercase,
};
use crate::tpch::support::begins_with;
use vstd::prelude::*;

verus! {

/// The texts in a list.
pub open spec fn texts_of(names: Seq<String>) -> Seq<Seq<char>> {
    Seq::new(names.len(), |i: int| names[i]@)
}

fn has_text(names: &Vec<String>, name: &str) -> (b: bool)
    ensures
        b == texts_of(names@).contains(name@),
{
    let mut i: usize = 0;
    while i < names.len()
        invariant
            i <= names@.len(),
            forall|k: int| 0 <= k < i ==> (#[trigger] names@[k])@ != name@,
        decreases names.len() - i,
    {
        if same_text(names[i].as_str(), name) {
            proof {
                assert(texts_of(names@)[i as int] == name@);
            }
            return true;
        }
        i = i + 1;
    }
    proof {
        assert forall|k: int| 0 <= k < texts_of(names@).len() implies #[trigger] texts_of(names@)[k] != name@ by {
            assert(names@[k]@ != name@);
        }
    }
    false
}

/// The first `n` names in lower case.
pub open spec fn lowered(names: Seq<String>, n: int) -> Seq<Seq<char>> {
    Seq::new(n as nat, |i: int| lowercase(names[i]@))
}

/// The columns of the first `n` tables of a query, as far as the catalog has
/// these; in lower case.
pub open spec fn inner_columns(catalog: Catalog, from: Seq<FromItem>, n: nat) -> Seq<Seq<char>>
    decreases n,
{
    if n == 0 {
        Seq::empty()
    } else {
        let before = inner_columns(catalog, from, (n - 1) as nat);
        match from[n - 1] {
            FromItem::Table(t) => match catalog.lookup(t.name@) {
                Some(s) => before + lowered(s.column_names@, s.column_names@.len() as int),
                None => before,
            },
            FromItem::Derived(_, _) => before,
        }
    }
}

pub fn list_inner_columns(catalog: &Catalog, from: &Vec<FromItem>) -> (out: Vec<String>)
    ensures
        texts_of(out@) == inner_columns(*catalog, from@, from@.len()),
{
    let mut out: Vec<String> = Vec::new();
    let mut n: usize = 0;
    proof {
        assert(texts_of(out@) =~= inner_columns(*catalog, from@, 0));
    }
    while n < from.len()
        invariant
            n <= from@.len(),
            texts_of(out@) == inner_columns(*catalog, from@, n as nat),
        decreases from.len() - n,
    {
        match &from[n] {
            FromItem::Table(t) => match catalog.get(t.name.as_str()) {
                Some(s) => {
                    let ghost start = texts_of(out@);
                    let mut k: usize = 0;
                    proof {
                        assert(texts_of(out@) =~= start + lowered(s.column_names@, 0));
                    }
                    while k < s.column_names.len()
                        invariant
                            k <= s.column_names@.len(),
                            texts_of(out@) == start + lowered(s.column_names@, k as int),
                        decreases s.column_names.len() - k,
                    {
                        let ghost before = texts_of(out@);
                        let name: String = to_lowercase(s.column_names[k].as_str());
                        out.push(name);
                        k = k + 1;
                        proof {
                            assert(texts_of(out@) =~= before.push(name@));
                            assert(texts_of(out@) =~= start + lowered(s.column_names@, k as int));
                        }
                    }
                },
                None => {},
            },
            FromItem::Derived(_, _) => {},
        }
        n = n + 1;
    }
    out
}

/// The names that the first `n` tables of a query go by; in lower case.
pub open spec fn inner_names(from: Seq<FromItem>, n: nat) -> Seq<Seq<char>>
    decreases n,
{
    if n == 0 {
        Seq::empty()
    } else {
        let before = inner_names(from, (n - 1) as nat);
        match from[n - 1] {
            FromItem::Table(t) => match t.alias {
                Some(a) => before.push(lowercase(t.name@)).push(lowercase(a@)),
                None => before.push(lowercase(t.name@)),
            },
            FromItem::Derived(_, _) => before,
        }
    }
}

pub fn list_inner_names(from: &Vec<FromItem>) -> (out: Vec<String>)
    ensures
        texts_of(out@) == inner_names(from@, from@.len()),
{
    let mut out: Vec<String> = Vec::new();
    let mut n: usize = 0;
    proof {
        assert(texts_of(out@) =~= inner_names(from@, 0));
    }
    while n < from.len()
        invariant
            n <= from@.len(),
            texts_of(out@) == inner_names(from@, n as nat),
        decreases from.len() - n,
    {
        let ghost before = texts_of(out@);
        match &from[n] {
            FromItem::Table(t) => {
                let name: String = to_lowercase(t.name.as_str());
                out.push(name);
                proof {
                    assert(texts_of(out@) =~= before.push(name@));
                }
                match &t.alias {
                    Some(a) => {
                        let alias: String = to_lowercase(a.as_str());
                        out.push(alias);
                        proof {
                            assert(texts_of(out@) =~= before.push(name@).push(alias@));
                        }
                    },
                    None => {},
                }
            },
            FromItem::Derived(_, _) => {},
        }
        n = n + 1;
    }
    out
}

/// The place of the first dot of a name, from `i` on.
pub open spec fn first_dot(name: Seq<char>, i: int) -> Option<int>
    decreases name.len() - i,
{
    if i < 0 || i >= name.len() {
        None
    } else if name[i] == '.' {
        Some(i)
    } else {
        first_dot(name, i + 1)
    }
}

/// What stands before the first dot of a name, in lower case.
pub open spec fn qualifier(name: Seq<char>) -> Option<Seq<char>> {
    match first_dot(name, 0) {
        Some(i) => Some(lowercase(name.take(i))),
        None => None,
    }
}

fn find_qualifier(name: &str) -> (r: Option<String>)
    ensures
        match r {
            Some(q) => qualifier(name@) == Some(q@),
            None => qualifier(name@) is None,
        },
{
    let v: Vec<char> = chars_of(name);
    let mut i: usize = 0;
    while i < v.len()
        invariant
            v@ == name@,
            i <= v@.len(),
            first_dot(v@, 0) == first_dot(v@, i as int),
        decreases v.len() - i,
    {
        if v[i] == '.' {
            let part: Vec<char> = slice_chars(&v, 0, i);
            proof {
                assert(part@ =~= name@.take(i as int));
            }
            let text: String = string_of(&part);
            return Some(to_lowercase(text.as_str()));
        }
        i = i + 1;
    }
    None
}

/// A column belongs to the inner query: by its qualifier if it has one, else by
/// its name.
pub open spec fn is_inner(name: Seq<char>, names: Seq<Seq<char>>, columns: Seq<Seq<char>>) -> bool {
    match qualifier(name) {
        Some(q) => names.contains(q),
        None => columns.contains(lowercase(name)),
    }
}

/// Whether a column belongs to the inner query.
pub fn col_is_inner(name: &str, names: &Vec<String>, columns: &Vec<String>) -> (b: bool)
    ensures
        b == is_inner(name@, texts_of(names@), texts_of(columns@)),
{
    match find_qualifier(name) {
        Some(q) => has_text(names, q.as_str()),
        None => {
            let lower: String = to_lowercase(name);
            has_text(columns, lower.as_str())
        },
    }
}

/// An innermost part of a condition that needs more than the inner query: another
/// column, or a query.
pub open spec fn leaf_reaches_out(e: Expr2, names: Seq<Seq<char>>, columns: Seq<Seq<char>>) -> bool {
    match e {
        Expr2::Col(name) => !is_inner(name@, names, columns),
        Expr2::Subquery(_) => true,
        Expr2::Exists { .. } => true,
        Expr2::InSubquery { .. } => true,
        _ => false,
    }
}

/// A condition needs more than the inner query.
pub open spec fn reaches_out(e: Expr2, names: Seq<Seq<char>>, columns: Seq<Seq<char>>) -> bool {
    exists|i: int| 0 <= i < leaves(e).len() && leaf_reaches_out(#[trigger] leaves(e)[i], names, columns)
}

/// Whether a condition needs more than the inner query.
pub fn is_conjunct_correlated_wrt_inner(e: &Expr2, names: &Vec<String>, columns: &Vec<String>) -> (b: bool)
    ensures
        b == reaches_out(*e, texts_of(names@), texts_of(columns@)),
{
    let v: Vec<&Expr2> = list_leaves(e);
    let mut i: usize = 0;
    while i < v.len()
        invariant
            i <= v@.len(),
            referents(v@) == leaves(*e),
            forall|k: int|
                0 <= k < i ==> !leaf_reaches_out(#[trigger] leaves(*e)[k], texts_of(names@), texts_of(columns@)),
        decreases v.len() - i,
    {
        proof {
            assert(referents(v@)[i as int] == leaves(*e)[i as int]);
        }
        let out: bool = match v[i] {
            Expr2::Col(name) => !col_is_inner(name.as_str(), names, columns),
            Expr2::Subquery(_) => true,
            Expr2::Exists { .. } => true,
            Expr2::InSubquery { .. } => true,
            _ => false,
        };
        if out {
            proof {
                assert(leaf_reaches_out(leaves(*e)[i as int], texts_of(names@), texts_of(columns@)));
            }
            return true;
        }
        i = i + 1;
    }
    proof {
        assert(v@.len() == referents(v@).len());
    }
    false
}

/// A table has names behind a qualifier.
pub open spec fn has_qualifier(t: Held, q: Seq<char>) -> bool {
    exists|k: Seq<char>| #[trigger] t.numbers.dom().contains(k) && begins_with(k, q + "."@)
}

/// Whether a table has names behind a qualifier.
pub fn qualifier_matches_base(q: &str, t: &ExecTable) -> (b: bool)
    ensures
        b == has_qualifier(t@, q@),
{
    let mut text: Vec<char> = Vec::new();
    append_text(&mut text, q);
    append_text(&mut text, ".");
    proof {
        assert(text@ =~= q@ + "."@);
    }
    let prefix: String = string_of(&text);
    proof {
        assert(t@.numbers == t.col_map@);
        assert(has_qualifier(t@, q@) == exists|k: Seq<char>| #[trigger]
            t.col_map@.dom().contains(k) && begins_with(k, prefix@));
    }
    t.col_map.has_prefix(prefix.as_str())
}

/// An innermost part of a condition that needs more than a table: a column that
/// this does not have, or a query.
pub open spec fn leaf_outside(e: Expr2, t: Held) -> bool {
    match e {
        Expr2::Col(name) => t.number(name@) is None && match qualifier(name@) {
            Some(q) => !has_qualifier(t, q),
            None => true,
        },
        Expr2::Subquery(_) => true,
        Expr2::Exists { .. } => true,
        Expr2::InSubquery { .. } => true,
        _ => false,
    }
}

/// A condition needs more than a table.
pub open spec fn reaches_outside(e: Expr2, t: Held) -> bool {
    exists|i: int| 0 <= i < leaves(e).len() && leaf_outside(#[trigger] leaves(e)[i], t)
}

/// Whether a condition needs more than a table.
pub fn is_conjunct_correlated(e: &Expr2, t: &ExecTable) -> (b: bool)
    ensures
        b == reaches_outside(*e, t@),
{
    let v: Vec<&Expr2> = list_leaves(e);
    let mut i: usize = 0;
    while i < v.len()
        invariant
            i <= v@.len(),
            referents(v@) == leaves(*e),
            forall|k: int| 0 <= k < i ==> !leaf_outside(#[trigger] leaves(*e)[k], t@),
        decreases v.len() - i,
    {
        proof {
            assert(referents(v@)[i as int] == leaves(*e)[i as int]);
        }
        let out: bool = match v[i] {
            Expr2::Col(name) => t.lookup_col(name.as_str()).is_none() && (match find_qualifier(name.as_str()) {
                Some(q) => !qualifier_matches_base(q.as_str(), t),
                None => true,
            }),
            Expr2::Subquery(_) => true,
            Expr2::Exists { .. } => true,
            Expr2::InSubquery { .. } => true,
            _ => false,
        };
        if out {
            proof {
                assert(leaf_outside(leaves(*e)[i as int], t@));
            }
            return true;
        }
        i = i + 1;
    }
    proof {
        assert(v@.len() == referents(v@).len());
    }
    false
}

fn cut_name(name: &str) -> (s: String)
    ensures
        s@ == short_name(name@),
{
    match behind_dot(name) {
        Some(x) => x,
        None => name.to_owned(),
    }
}

/// The column of a table that a name stands for, as it is or cut behind its last
/// dot.
pub open spec fn outer_number(t: Held, name: Seq<char>) -> Option<usize> {
    match t.number(name) {
        Some(i) => Some(i),
        None => t.number(short_name(name)),
    }
}

fn find_outer(t: &ExecTable, name: &str) -> (r: Option<usize>)
    ensures
        r == outer_number(t@, name@),
        t.wf() ==> (r matches Some(i) ==> i < t.columns.len()),
{
    match t.lookup_col(name) {
        Some(i) => Some(i),
        None => {
            let short: String = cut_name(name);
            t.lookup_col(short.as_str())
        },
    }
}

/// The innermost parts of the first `n` selected items.
pub open spec fn select_leaves(select: Seq<SelectItem2>, n: nat) -> Seq<Expr2>
    decreases n,
{
    if n == 0 {
        Seq::empty()
    } else {
        select_leaves(select, (n - 1) as nat) + leaves(select[n - 1].expr)
    }
}

pub open spec fn clause_leaves(e: Option<Expr2>) -> Seq<Expr2> {
    match e {
        Some(x) => leaves(x),
        None => Seq::empty(),
    }
}

/// The innermost parts of a query: of its conditions, of those on groups, and of
/// what it selects.
pub open spec fn query_leaves(q: SelectQuery2) -> Seq<Expr2> {
    clause_leaves(q.where_clause) + clause_leaves(q.having) + select_leaves(q.select@, q.select@.len())
}

fn list_clause<'a>(e: &'a Option<Expr2>, out: &mut Vec<&'a Expr2>)
    ensures
        referents(final(out)@) == referents(old(out)@) + clause_leaves(*e),
{
    match e {
        Some(x) => {
            let ghost start = out@;
            let mut more: Vec<&'a Expr2> = list_leaves(x);
            let ghost added = more@;
            out.append(&mut more);
            proof {
                assert(referents(out@) =~= referents(start) + referents(added));
            }
        },
        None => {
            proof {
                assert(referents(out@) =~= referents(out@) + clause_leaves(*e));
            }
        },
    }
}

fn list_query_leaves<'a>(q: &'a SelectQuery2) -> (out: Vec<&'a Expr2>)
    ensures
        referents(out@) == query_leaves(*q),
{
    let mut out: Vec<&'a Expr2> = Vec::new();
    list_clause(&q.where_clause, &mut out);
    list_clause(&q.having, &mut out);
    let ghost start = clause_leaves(q.where_clause) + clause_leaves(q.having);
    proof {
        assert(referents(out@) =~= start);
        assert(start =~= start + select_leaves(q.select@, 0));
    }
    let mut n: usize = 0;
    while n < q.select.len()
        invariant
            n <= q.select@.len(),
            referents(out@) == start + select_leaves(q.select@, n as nat),
        decreases q.select.len() - n,
    {
        let ghost before = out@;
        let mut more: Vec<&'a Expr2> = list_leaves(&q.select[n].expr);
        let ghost added = more@;
        out.append(&mut more);
        n = n + 1;
        proof {
            assert(referents(out@) =~= referents(before) + referents(added));
            assert(referents(out@) =~= start + select_leaves(q.select@, n as nat));
        }
    }
    out
}

/// The columns of the outer table that the first `n` parts name and that the
/// tables of the query do not have, each once.
pub open spec fn outer_columns(es: Seq<Expr2>, t: Held, columns: Seq<Seq<char>>, n: nat) -> Seq<usize>
    decreases n,
{
    if n == 0 {
        Seq::empty()
    } else {
        let before = outer_columns(es, t, columns, (n - 1) as nat);
        match es[n - 1] {
            Expr2::Col(name) => if columns.contains(lowercase(short_name(name@))) {
                before
            } else {
                match outer_number(t, name@) {
                    Some(i) => if before.contains(i) {
                        before
                    } else {
                        before.push(i)
                    },
                    None => before,
                }
            },
            _ => before,
        }
    }
}

fn has_number(v: &Vec<usize>, x: usize) -> (b: bool)
    ensures
        b == v@.contains(x),
{
    let mut i: usize = 0;
    while i < v.len()
        invariant
            i <= v@.len(),
            forall|k: int| 0 <= k < i ==> #[trigger] v@[k] != x,
        decreases v.len() - i,
    {
        if v[i] == x {
            return true;
        }
        i = i + 1;
    }
    false
}

/// The columns of the outer table that a query uses.
pub open spec fn correlation_columns(catalog: Catalog, q: SelectQuery2, t: Held) -> Seq<usize> {
    outer_columns(query_leaves(q), t, inner_columns(catalog, q.from@, q.from@.len()), query_leaves(q).len())
}

/// Finds the columns of the outer table that a query uses.
pub fn find_correlation_cols(catalog: &Catalog, q: &SelectQuery2, t: &ExecTable) -> (cols: Vec<usize>)
    ensures
        cols@ == correlation_columns(*catalog, *q, t@),
        t.wf() ==> forall|i: int| 0 <= i < cols@.len() ==> #[trigger] cols@[i] < t.columns.len(),
{
    let columns: Vec<String> = list_inner_columns(catalog, &q.from);
    let v: Vec<&Expr2> = list_query_leaves(q);
    let ghost es = query_leaves(*q);
    let mut cols: Vec<usize> = Vec::new();
    let mut n: usize = 0;
    while n < v.len()
        invariant
            es == referents(v@),
            n <= v@.len(),
            cols@ == outer_columns(es, t@, texts_of(columns@), n as nat),
            t.wf() ==> forall|i: int| 0 <= i < cols@.len() ==> #[trigger] cols@[i] < t.columns.len(),
        decreases v.len() - n,
    {
        proof {
            assert(es[n as int] == *v@[n as int]);
        }
        match v[n] {
            Expr2::Col(name) => {
                let short: String = cut_name(name.as_str());
                let lower: String = to_lowercase(short.as_str());
                if !has_text(&columns, lower.as_str()) {
                    match find_outer(t, name.as_str()) {
                        Some(i) => {
                            if !has_number(&cols, i) {
                                cols.push(i);
                            }
                        },
                        None => {},
                    }
                }
            },
            _ => {},
        }
        n = n + 1;
    }
    proof {
        assert(v@.len() == es.len());
    }
    cols
}

/// Texts of which one is the same in lower case.
pub open spec fn has_lowered(names: Seq<Seq<char>>, name: Seq<char>) -> bool {
    exists|i: int| 0 <= i < names.len() && lowercase(#[trigger] names[i]) == lowercase(name)
}

/// A column that belongs to the outer table: one that the tables of the query do
/// not have. By qualifier where `by_names` is set, else by the name behind the
/// last dot.
pub open spec fn is_outer_name(
    name: Seq<char>,
    t: Held,
    names: Seq<Seq<char>>,
    columns: Seq<Seq<char>>,
    by_names: bool,
) -> bool {
    let inner = if by_names {
        is_inner(name, names, columns)
    } else {
        columns.contains(lowercase(short_name(name)))
    };
    !inner && outer_number(t, name) is Some
}

/// The names of columns of the outer table among the first `n` parts, each once,
/// whatever its case.
pub open spec fn outer_names(
    es: Seq<Expr2>,
    t: Held,
    names: Seq<Seq<char>>,
    columns: Seq<Seq<char>>,
    by_names: bool,
    n: nat,
) -> Seq<Seq<char>>
    decreases n,
{
    if n == 0 {
        Seq::empty()
    } else {
        let before = outer_names(es, t, names, columns, by_names, (n - 1) as nat);
        match es[n - 1] {
            Expr2::Col(name) => if is_outer_name(name@, t, names, columns, by_names) && !has_lowered(before, name@) {
                before.push(name@)
            } else {
                before
            },
            _ => before,
        }
    }
}

fn has_lower(names: &Vec<String>, name: &str) -> (b: bool)
    ensures
        b == has_lowered(texts_of(names@), name@),
{
    let lower: String = to_lowercase(name);
    let mut i: usize = 0;
    while i < names.len()
        invariant
            lower@ == lowercase(name@),
            i <= names@.len(),
            forall|k: int| 0 <= k < i ==> lowercase(#[trigger] texts_of(names@)[k]) != lowercase(name@),
        decreases names.len() - i,
    {
        let other: String = to_lowercase(names[i].as_str());
        if same_text(other.as_str(), lower.as_str()) {
            proof {
                assert(texts_of(names@)[i as int] == names@[i as int]@);
            }
            return true;
        }
        i = i + 1;
    }
    false
}

/// Lists the names of columns of the outer table.
pub fn collect_corr_names(
    v: &Vec<&Expr2>,
    t: &ExecTable,
    names: &Vec<String>,
    columns: &Vec<String>,
    by_names: bool,
) -> (out: Vec<String>)
    ensures
        texts_of(out@) == outer_names(
            referents(v@),
            t@,
            texts_of(names@),
            texts_of(columns@),
            by_names,
            v@.len(),
        ),
{
    let ghost es = referents(v@);
    let mut out: Vec<String> = Vec::new();
    let mut n: usize = 0;
    proof {
        assert(texts_of(out@) =~= Seq::empty());
    }
    while n < v.len()
        invariant
            es == referents(v@),
            n <= v@.len(),
            texts_of(out@) == outer_names(es, t@, texts_of(names@), texts_of(columns@), by_names, n as nat),
        decreases v.len() - n,
    {
        proof {
            assert(es[n as int] == *v@[n as int]);
        }
        match v[n] {
            Expr2::Col(name) => {
                let inner: bool = if by_names {
                    col_is_inner(name.as_str(), names, columns)
                } else {
                    let short: String = cut_name(name.as_str());
                    let lower: String = to_lowercase(short.as_str());
                    has_text(columns, lower.as_str())
                };
                if !inner && find_outer(t, name.as_str()).is_some() && !has_lower(&out, name.as_str()) {
                    let ghost before = texts_of(out@);
                    out.push(name.clone());
                    proof {
                        assert(texts_of(out@) =~= before.push(name@));
                    }
                }
            },
            _ => {},
        }
        n = n + 1;
    }
    out
}

/// The number that a name has in a table of the catalog under an alias.
pub open spec fn catalog_number(s: Table, alias: Seq<char>, name: Seq<char>) -> Option<usize> {
    let m = catalog_numbers(s.column_names@, alias, s.name@, s.column_names@.len() as int);
    if m.dom().contains(name) {
        Some(m[name])
    } else if m.dom().contains(lowercase(name)) {
        Some(m[lowercase(name)])
    } else {
        None
    }
}

/// The number of a column in the first of the first `n` tables that has it.
pub open spec fn inner_number(catalog: Catalog, from: Seq<FromItem>, name: Seq<char>, n: nat) -> Option<usize>
    decreases n,
{
    if n == 0 {
        None
    } else {
        match inner_number(catalog, from, name, (n - 1) as nat) {
            Some(i) => Some(i),
            None => match from[n - 1] {
                FromItem::Table(t) => match catalog.lookup(t.name@) {
                    Some(s) => catalog_number(s, alias_or(t.alias, t.name@), name),
                    None => None,
                },
                FromItem::Derived(_, _) => None,
            },
        }
    }
}

/// Finds the number of a column in the first table of a query that has it.
pub fn resolve_inner_col_idx(catalog: &Catalog, from: &Vec<FromItem>, name: &str) -> (r: Option<usize>)
    requires
        catalog_ok(*catalog),
    ensures
        r == inner_number(*catalog, from@, name@, from@.len()),
{
    let mut found: Option<usize> = None;
    let mut n: usize = 0;
    while n < from.len()
        invariant
            catalog_ok(*catalog),
            n <= from@.len(),
            found == inner_number(*catalog, from@, name@, n as nat),
        decreases from.len() - n,
    {
        if found.is_none() {
            match &from[n] {
                FromItem::Table(t) => match catalog.get(t.name.as_str()) {
                    Some(s) => {
                        let alias: &str = match &t.alias {
                            Some(a) => a.as_str(),
                            None => t.name.as_str(),
                        };
                        let table: ExecTable = ExecTable::from_catalog(s, alias);
                        found = table.lookup_col(name);
                    },
                    None => {},
                },
                FromItem::Derived(_, _) => {},
            }
        }
        n = n + 1;
    }
    found
}

/// An ASCII letter or digit, or a character beyond ASCII.
pub open spec fn is_name_char(c: char) -> bool {
    'a' <= c <= 'z' || 'A' <= c <= 'Z' || is_digit(c) || c >= '\u{80}'
}

/// A name from its first letter or digit on.
pub open spec fn from_letter(name: Seq<char>) -> Seq<char>
    decreases name.len(),
{
    if name.len() > 0 && !is_name_char(name[0]) {
        from_letter(name.skip(1))
    } else {
        name
    }
}

fn cut_to_letter(name: &str) -> (r: Vec<char>)
    ensures
        r@ == from_letter(name@),
{
    let v: Vec<char> = chars_of(name);
    let mut i: usize = 0;
    proof {
        assert(v@.skip(0) =~= v@);
    }
    while i < v.len() && !(('a' <= v[i] && v[i] <= 'z') || ('A' <= v[i] && v[i] <= 'Z') || crate::text::digit(v[i]) || v[i]
        >= '\u{80}')
        invariant
            v@ == name@,
            i <= v@.len(),
            from_letter(v@) == from_letter(v@.skip(i as int)),
        decreases v.len() - i,
    {
        proof {
            assert(v@.skip(i as int)[0] == v@[i as int]);
            assert(v@.skip(i as int).skip(1) =~= v@.skip(i + 1));
        }
        i = i + 1;
    }
    let r: Vec<char> = slice_chars(&v, i, v.len());
    proof {
        assert(r@ =~= v@.skip(i as int));
        if i < v@.len() {
            assert(v@.skip(i as int)[0] == v@[i as int]);
        }
    }
    r
}

/// The column of the inner query that a condition equates with a column of the
/// outer one.
pub open spec fn equated_inner(
    catalog: Catalog,
    from: Seq<FromItem>,
    e: Expr2,
    outer: Seq<char>,
    columns: Seq<Seq<char>>,
) -> Option<usize> {
    match e {
        Expr2::BinOp { op: BinOp2::Eq, left, right } => match (*left, *right) {
            (Expr2::Col(l), Expr2::Col(r)) => {
                let ls = short_name(l@);
                let rs = short_name(r@);
                let name = from_letter(outer);
                if columns.contains(lowercase(ls)) && same_ignoring_case(rs, name) {
                    inner_number(catalog, from, l@, from.len())
                } else if columns.contains(lowercase(rs)) && same_ignoring_case(ls, name) {
                    inner_number(catalog, from, r@, from.len())
                } else {
                    None
                }
            },
            _ => None,
        },
        _ => None,
    }
}

fn lower_of(v: &Vec<char>) -> (r: Vec<char>)
    ensures
        r@ == lower_ascii(v@),
{
    let mut out: Vec<char> = Vec::new();
    let mut i: usize = 0;
    while i < v.len()
        invariant
            i <= v@.len(),
            out@.len() == i,
            forall|k: int| 0 <= k < i ==> #[trigger] out@[k] == lower_ascii(v@)[k],
        decreases v.len() - i,
    {
        out.push(to_lower(v[i]));
        i = i + 1;
    }
    proof {
        assert(out@ =~= lower_ascii(v@));
    }
    out
}

fn same_word(a: &str, b: &Vec<char>) -> (r: bool)
    ensures
        r == same_ignoring_case(a@, b@),
{
    let v: Vec<char> = chars_of(a);
    let x: Vec<char> = lower_of(&v);
    let y: Vec<char> = lower_of(b);
    same_chars(&x, &y)
}

fn find_equated(catalog: &Catalog, from: &Vec<FromItem>, e: &Expr2, outer: &str, columns: &Vec<String>) -> (r: Option<
    usize,
>)
    requires
        catalog_ok(*catalog),
    ensures
        r == equated_inner(*catalog, from@, *e, outer@, texts_of(columns@)),
{
    match e {
        Expr2::BinOp { op: BinOp2::Eq, left, right } => match (&**left, &**right) {
            (Expr2::Col(l), Expr2::Col(r)) => {
                let ls: String = cut_name(l.as_str());
                let rs: String = cut_name(r.as_str());
                let name: Vec<char> = cut_to_letter(outer);
                let ll: String = to_lowercase(ls.as_str());
                let rl: String = to_lowercase(rs.as_str());
                if has_text(columns, ll.as_str()) && same_word(rs.as_str(), &name) {
                    resolve_inner_col_idx(catalog, from, l.as_str())
                } else if has_text(columns, rl.as_str()) && same_word(ls.as_str(), &name) {
                    resolve_inner_col_idx(catalog, from, r.as_str())
                } else {
                    None
                }
            },
            _ => None,
        },
        _ => None,
    }
}

/// The first column of the inner query that one of the first `n` conditions
/// equates with a column of the outer one.
pub open spec fn first_equated(
    catalog: Catalog,
    from: Seq<FromItem>,
    es: Seq<Expr2>,
    outer: Seq<char>,
    columns: Seq<Seq<char>>,
    n: nat,
) -> Option<usize>
    decreases n,
{
    if n == 0 {
        None
    } else {
        match first_equated(catalog, from, es, outer, columns, (n - 1) as nat) {
            Some(i) => Some(i),
            None => equated_inner(catalog, from, es[n - 1], outer, columns),
        }
    }
}

/// Finds the column of the inner query that is equated with a column of the outer
/// one.
pub fn find_equi_join_inner(
    catalog: &Catalog,
    from: &Vec<FromItem>,
    e: &Expr2,
    outer: &str,
    columns: &Vec<String>,
) -> (r: Option<usize>)
    requires
        catalog_ok(*catalog),
    ensures
        r == first_equated(
            *catalog,
            from@,
            flat(*e, BinOp2::And),
            outer@,
            texts_of(columns@),
            flat(*e, BinOp2::And).len(),
        ),
{
    let v: Vec<&Expr2> = flatten(e, BinOp2::And);
    let ghost es = flat(*e, BinOp2::And);
    let mut found: Option<usize> = None;
    let mut n: usize = 0;
    while n < v.len()
        invariant
            catalog_ok(*catalog),
            es == referents(v@),
            n <= v@.len(),
            found == first_equated(*catalog, from@, es, outer@, texts_of(columns@), n as nat),
        decreases v.len() - n,
    {
        proof {
            assert(es[n as int] == *v@[n as int]);
        }
        if found.is_none() {
            found = find_equated(catalog, from, v[n], outer, columns);
        }
        n = n + 1;
    }
    proof {
        assert(v@.len() == es.len());
    }
    found
}

/// The outer and the inner column by which an `EXISTS` is a look-up: its only
/// column of the outer table, equated with a column of its own.
pub open spec fn exists_key(catalog: Catalog, q: SelectQuery2, t: Held) -> Option<(usize, usize)> {
    let columns = inner_columns(catalog, q.from@, q.from@.len());
    match q.where_clause {
        None => None,
        Some(e) => {
            let names = outer_names(leaves(e), t, Seq::empty(), columns, false, leaves(e).len());
            if names.len() != 1 {
                None
            } else {
                match outer_number(t, names[0]) {
                    None => None,
                    Some(o) => match first_equated(
                        catalog,
                        q.from@,
                        flat(e, BinOp2::And),
                        names[0],
                        columns,
                        flat(e, BinOp2::And).len(),
                    ) {
                        None => None,
                        Some(i) => Some((o, i)),
                    },
                }
            }
        },
    }
}

/// Finds the columns by which an `EXISTS` is a look-up.
pub fn find_exists_equi_join(catalog: &Catalog, q: &SelectQuery2, t: &ExecTable) -> (r: Option<(usize, usize)>)
    requires
        catalog_ok(*catalog),
    ensures
        r == exists_key(*catalog, *q, t@),
        t.wf() ==> (r matches Some((o, _)) ==> o < t.columns.len()),
{
    let columns: Vec<String> = list_inner_columns(catalog, &q.from);
    match &q.where_clause {
        None => None,
        Some(e) => {
            let v: Vec<&Expr2> = list_leaves(e);
            let none: Vec<String> = Vec::new();
            proof {
                assert(texts_of(none@) =~= Seq::empty());
                assert(v@.len() == leaves(*e).len());
            }
            let names: Vec<String> = collect_corr_names(&v, t, &none, &columns, false);
            proof {
                assert(texts_of(names@).len() == names@.len());
            }
            if names.len() != 1 {
                return None;
            }
            proof {
                assert(texts_of(names@)[0] == names@[0]@);
            }
            let name: &str = names[0].as_str();
            match find_outer(t, name) {
                None => None,
                Some(o) => match find_equi_join_inner(catalog, &q.from, e, name, &columns) {
                    None => None,
                    Some(i) => Some((o, i)),
                },
            }
        },
    }
}

/// A condition of the given operation between a column of the outer table and one
/// of the inner query: its two columns, or nothing where one is not found.
pub open spec fn cross_pair(
    catalog: Catalog,
    from: Seq<FromItem>,
    e: Expr2,
    op: BinOp2,
    t: Held,
    names: Seq<Seq<char>>,
    columns: Seq<Seq<char>>,
) -> Option<Option<(usize, usize)>> {
    match e {
        Expr2::BinOp { op: o, left, right } => match (*left, *right) {
            (Expr2::Col(l), Expr2::Col(r)) => {
                let li = is_inner(l@, names, columns);
                let ri = is_inner(r@, names, columns);
                if o == op && li != ri {
                    let (inner, outer) = if li {
                        (l@, r@)
                    } else {
                        (r@, l@)
                    };
                    let number = match t.number(outer) {
                        Some(i) => Some(i),
                        None => t.number(lowercase(short_name(outer))),
                    };
                    match (number, inner_number(catalog, from, inner, from.len())) {
                        (Some(a), Some(b)) => Some(Some((a, b))),
                        _ => Some(None),
                    }
                } else {
                    None
                }
            },
            _ => None,
        },
        _ => None,
    }
}

pub fn find_cross_pair(
    catalog: &Catalog,
    from: &Vec<FromItem>,
    e: &Expr2,
    op: BinOp2,
    t: &ExecTable,
    names: &Vec<String>,
    columns: &Vec<String>,
) -> (r: Option<Option<(usize, usize)>>)
    requires
        catalog_ok(*catalog),
    ensures
        r == cross_pair(*catalog, from@, *e, op, t@, texts_of(names@), texts_of(columns@)),
        t.wf() ==> (r matches Some(Some((a, _))) ==> a < t.columns.len()),
{
    match e {
        Expr2::BinOp { op: o, left, right } => match (&**left, &**right) {
            (Expr2::Col(l), Expr2::Col(r)) => {
                let li: bool = col_is_inner(l.as_str(), names, columns);
                let ri: bool = col_is_inner(r.as_str(), names, columns);
                if *o == op && li != ri {
                    let inner: &str = if li {
                        l.as_str()
                    } else {
                        r.as_str()
                    };
                    let outer: &str = if li {
                        r.as_str()
                    } else {
                        l.as_str()
                    };
                    let number: Option<usize> = match t.lookup_col(outer) {
                        Some(i) => Some(i),
                        None => {
                            let short: String = cut_name(outer);
                            let lower: String = to_lowercase(short.as_str());
                            t.lookup_col(lower.as_str())
                        },
                    };
                    match (number, resolve_inner_col_idx(catalog, from, inner)) {
                        (Some(a), Some(b)) => Some(Some((a, b))),
                        _ => Some(None),
                    }
                } else {
                    None
                }
            },
            _ => None,
        },
        _ => None,
    }
}

/// The first such pair among the first `n` conditions.
pub open spec fn first_pair(
    catalog: Catalog,
    from: Seq<FromItem>,
    es: Seq<Expr2>,
    op: BinOp2,
    t: Held,
    names: Seq<Seq<char>>,
    columns: Seq<Seq<char>>,
    n: nat,
) -> Option<(usize, usize)>
    decreases n,
{
    if n == 0 {
        None
    } else {
        match first_pair(catalog, from, es, op, t, names, columns, (n - 1) as nat) {
            Some(p) => Some(p),
            None => match cross_pair(catalog, from, es[n - 1], op, t, names, columns) {
                Some(p) => p,
                None => None,
            },
        }
    }
}

/// Every such condition among the first `n` has both its columns.
pub open spec fn pairs_found(
    catalog: Catalog,
    from: Seq<FromItem>,
    es: Seq<Expr2>,
    t: Held,
    names: Seq<Seq<char>>,
    columns: Seq<Seq<char>>,
    n: int,
) -> bool {
    forall|i: int|
        0 <= i < n ==> cross_pair(catalog, from, #[trigger] es[i], BinOp2::Eq, t, names, columns) != Some(
            None::<(usize, usize)>,
        ) && cross_pair(catalog, from, es[i], BinOp2::Ne, t, names, columns) != Some(None::<(usize, usize)>)
}

/// The columns by which an `EXISTS` with two columns of the outer table is a
/// look-up: one pair that is equated, and one that differs.
pub open spec fn exists_pairs(catalog: Catalog, q: SelectQuery2, t: Held) -> Option<
    (usize, usize, usize, usize),
> {
    let columns = inner_columns(catalog, q.from@, q.from@.len());
    let own = inner_names(q.from@, q.from@.len());
    match q.where_clause {
        None => None,
        Some(e) => {
            let es = flat(e, BinOp2::And);
            if outer_names(leaves(e), t, own, columns, true, leaves(e).len()).len() != 2 {
                None
            } else if !pairs_found(catalog, q.from@, es, t, own, columns, es.len() as int) {
                None
            } else {
                match (
                    first_pair(catalog, q.from@, es, BinOp2::Eq, t, own, columns, es.len()),
                    first_pair(catalog, q.from@, es, BinOp2::Ne, t, own, columns, es.len()),
                ) {
                    (Some((a, b)), Some((c, d))) => Some((a, b, c, d)),
                    _ => None,
                }
            }
        },
    }
}

/// Finds the columns by which an `EXISTS` with two columns of the outer table is a
/// look-up.
pub fn find_exists_multi_col(catalog: &Catalog, q: &SelectQuery2, t: &ExecTable) -> (r: Option<
    (usize, usize, usize, usize),
>)
    requires
        catalog_ok(*catalog),
    ensures
        r == exists_pairs(*catalog, *q, t@),
        t.wf() ==> (r matches Some((a, _, c, _)) ==> a < t.columns.len() && c < t.columns.len()),
{
    let columns: Vec<String> = list_inner_columns(catalog, &q.from);
    let own: Vec<String> = list_inner_names(&q.from);
    let e: &Expr2 = match &q.where_clause {
        None => {
            return None;
        },
        Some(e) => e,
    };
    let v: Vec<&Expr2> = list_leaves(e);
    proof {
        assert(v@.len() == leaves(*e).len());
    }
    let names: Vec<String> = collect_corr_names(&v, t, &own, &columns, true);
    proof {
        assert(texts_of(names@).len() == names@.len());
    }
    if names.len() != 2 {
        return None;
    }
    let conds: Vec<&Expr2> = flatten(e, BinOp2::And);
    let ghost es = flat(*e, BinOp2::And);
    proof {
        assert(conds@.len() == es.len());
    }
    let mut eq: Option<(usize, usize)> = None;
    let mut ne: Option<(usize, usize)> = None;
    let mut n: usize = 0;
    while n < conds.len()
        invariant
            catalog_ok(*catalog),
            es == referents(conds@),
            n <= conds@.len(),
            conds@.len() == es.len(),
            q.where_clause == Some(*e),
            es == flat(*e, BinOp2::And),
            texts_of(columns@) == inner_columns(*catalog, q.from@, q.from@.len()),
            texts_of(own@) == inner_names(q.from@, q.from@.len()),
            outer_names(leaves(*e), t@, texts_of(own@), texts_of(columns@), true, leaves(*e).len()).len() == 2,
            pairs_found(*catalog, q.from@, es, t@, texts_of(own@), texts_of(columns@), n as int),
            eq == first_pair(
                *catalog,
                q.from@,
                es,
                BinOp2::Eq,
                t@,
                texts_of(own@),
                texts_of(columns@),
                n as nat,
            ),
            ne == first_pair(
                *catalog,
                q.from@,
                es,
                BinOp2::Ne,
                t@,
                texts_of(own@),
                texts_of(columns@),
                n as nat,
            ),
            t.wf() ==> (eq matches Some((a, _)) ==> a < t.columns.len()),
            t.wf() ==> (ne matches Some((a, _)) ==> a < t.columns.len()),
        decreases conds.len() - n,
    {
        proof {
            assert(es[n as int] == *conds@[n as int]);
        }
        let a: Option<Option<(usize, usize)>> = find_cross_pair(
            catalog,
            &q.from,
            conds[n],
            BinOp2::Eq,
            t,
            &own,
            &columns,
        );
        let b: Option<Option<(usize, usize)>> = find_cross_pair(
            catalog,
            &q.from,
            conds[n],
            BinOp2::Ne,
            t,
            &own,
            &columns,
        );
        match a {
            Some(None) => {
                return None;
            },
            Some(Some(p)) => {
                if eq.is_none() {
                    eq = Some(p);
                }
            },
            None => {},
        }
        match b {
            Some(None) => {
                return None;
            },
            Some(Some(p)) => {
                if ne.is_none() {
                    ne = Some(p);
                }
            },
            None => {},
        }
        n = n + 1;
    }
    match (eq, ne) {
        (Some((a, b)), Some((c, d))) => Some((a, b, c, d)),
        _ => None,
    }
}

} // verus!
