//! The clauses of queries written out as tokens, and read back.

use crate::sql::ast::JoinType2;
use crate::sql::grammar::{
    alias_at, clause_at, clauses_at, endings_at, from_at, froms_at, group_at, ident_at, is_kw,
    is_op, is_word, item_at, items_at, join_at, join_words, joins_at, keyword_is, limit_at, op_is,
    order_at, orders_at, select_at, sorting_at, tok, Bad, FromTree, ItemTree, JoinTree, QueryTree,
    Tok, Tree,
};
use crate::sql::grammar_laws::{is_writable, lemma_single, lemma_split, stand_at, written};
use crate::sql::query_grammar_laws::{
    is_stop, lemma_clause_word_stops, lemma_differ, lemma_expr, lemma_first, lemma_keyword, lemma_lengths,
    lemma_marks_stop, lemma_no_keyword,
};
use crate::text::same_ignoring_case;
use vstd::prelude::*;

verus! {

/// The word for a direction of sorting.
pub open spec fn direction(ascending: bool) -> Tok {
    if ascending {
        Tok::Keyword("ASC"@)
    } else {
        Tok::Keyword("DESC"@)
    }
}

proof fn lemma_direction(ts: Seq<Tok>, q: int, ascending: bool)
    requires
        0 <= q < ts.len(),
        ts[q] == direction(ascending),
    ensures
        is_word(ts, q, "DESC"@) == !ascending,
        is_word(ts, q, "ASC"@) == ascending,
        is_stop(direction(ascending)),
{
    lemma_lengths();
    lemma_differ("ASC"@, "DESC"@);
    lemma_differ("DESC"@, "ASC"@);
    lemma_clause_word_stops("ASC"@);
    lemma_clause_word_stops("DESC"@);
    if ascending {
        lemma_keyword(ts, q, "ASC"@);
    } else {
        lemma_keyword(ts, q, "DESC"@);
    }
}

/// What to sort by, from place `k` on, each with its direction.
pub open spec fn written_orders(list: Seq<(Tree, bool)>, k: nat) -> Seq<Tok>
    decreases list.len() - k,
{
    if k >= list.len() {
        Seq::empty()
    } else if k + 1 == list.len() {
        written(list[k as int].0, 0) + seq![direction(list[k as int].1)]
    } else {
        written(list[k as int].0, 0) + seq![direction(list[k as int].1), Tok::Comma] + written_orders(list, k + 1)
    }
}

/// What to sort by is read back, in its order and with its directions.
#[verifier::rlimit(40)]
pub proof fn sort_keys_are_read_back(ts: Seq<Tok>, p: int, list: Seq<(Tree, bool)>, k: nat, before: Seq<(Tree, bool)>)
    requires
        k < list.len(),
        forall|i: int| 0 <= i < list.len() ==> is_writable((#[trigger] list[i]).0),
        stand_at(ts, p, written_orders(list, k)),
        !(tok(ts, p + written_orders(list, k).len()) is Comma),
    ensures
        orders_at(ts, before, p) == Ok::<(Seq<(Tree, bool)>, int), Bad>(
            (before + list.skip(k as int), p + written_orders(list, k).len()),
        ),
    decreases list.len() - k,
{
    let (x, ascending) = list[k as int];
    let a = written(x, 0);
    let q = p + a.len();
    if k + 1 == list.len() {
        lemma_split(ts, p, a, seq![direction(ascending)]);
        lemma_single(ts, q, direction(ascending));
        lemma_direction(ts, q, ascending);
        lemma_expr(ts, p, x);
        assert(before.push((x, ascending)) =~= before + list.skip(k as int));
    } else {
        let d = seq![direction(ascending), Tok::Comma];
        let b = written_orders(list, k + 1);
        lemma_split(ts, p, a + d, b);
        lemma_split(ts, p, a, d);
        assert(ts[q + 0] == d[0] && ts[q + 1] == d[1]);
        lemma_direction(ts, q, ascending);
        lemma_expr(ts, p, x);
        sort_keys_are_read_back(ts, q + 2, list, k + 1, before.push((x, ascending)));
        assert(before.push((x, ascending)) + list.skip((k + 1) as int) =~= before + list.skip(k as int));
    }
}

/// Without a word for the direction the least comes first.
pub proof fn sorting_ascends_by_default(ts: Seq<Tok>, p: int, x: Tree)
    requires
        is_writable(x),
        stand_at(ts, p, written(x, 0)),
        tok(ts, p + written(x, 0).len()) is RParen || tok(ts, p + written(x, 0).len()) is End,
    ensures
        orders_at(ts, Seq::empty(), p) == Ok::<(Seq<(Tree, bool)>, int), Bad>(
            (seq![(x, true)], p + written(x, 0).len()),
        ),
{
    lemma_marks_stop();
    lemma_no_keyword(ts, p + written(x, 0).len());
    lemma_expr(ts, p, x);
    assert(Seq::<(Tree, bool)>::empty().push((x, true)) =~= seq![(x, true)]);
}

/// A limit is the number behind its word.
pub proof fn limits_are_read_back(ts: Seq<Tok>, p: int, n: usize)
    requires
        n <= i64::MAX,
        stand_at(ts, p, seq![Tok::Keyword("LIMIT"@), Tok::Int(n as i64)]),
    ensures
        limit_at(ts, p) == Ok::<(Option<usize>, int), Bad>((Some(n), p + 2)),
{
    let s = seq![Tok::Keyword("LIMIT"@), Tok::Int(n as i64)];
    assert(ts[p + 0] == s[0] && ts[p + 1] == s[1]);
    lemma_keyword(ts, p, "LIMIT"@);
    assert(same_ignoring_case("LIMIT"@, "LIMIT"@));
    assert(is_word(ts, p, "LIMIT"@));
    reveal(limit_at);
}

/// A name behind `AS`, if there is one.
pub open spec fn written_alias(alias: Option<Seq<char>>) -> Seq<Tok> {
    match alias {
        Some(name) => seq![Tok::Keyword("AS"@), Tok::Ident(name)],
        None => Seq::empty(),
    }
}

/// A token that does not begin an alias, behind an expression or a table.
pub open spec fn no_alias(k: Tok) -> bool {
    is_stop(k) && !(k is Ident) && !keyword_is(k, "AS"@)
}

proof fn lemma_alias(ts: Seq<Tok>, q: int, alias: Option<Seq<char>>)
    requires
        stand_at(ts, q, written_alias(alias)),
        no_alias(tok(ts, q + written_alias(alias).len())),
    ensures
        alias_at(ts, q) == Ok::<(Option<Seq<char>>, int), Bad>((alias, q + written_alias(alias).len())),
        is_stop(tok(ts, q)),
{
    match alias {
        Some(name) => {
            let s = seq![Tok::Keyword("AS"@), Tok::Ident(name)];
            assert(ts[q + 0] == s[0] && ts[q + 1] == s[1]);
            lemma_keyword(ts, q, "AS"@);
            assert(is_kw(ts, q, "AS"@));
            lemma_clause_word_stops("AS"@);
        },
        None => {
            reveal(keyword_is);
        },
    }
}

/// The items that are selected, from place `k` on.
pub open spec fn written_items(list: Seq<ItemTree>, k: nat) -> Seq<Tok>
    decreases list.len() - k,
{
    if k >= list.len() {
        Seq::empty()
    } else if k + 1 == list.len() {
        written(list[k as int].expr, 0) + written_alias(list[k as int].alias)
    } else {
        written(list[k as int].expr, 0) + written_alias(list[k as int].alias) + seq![Tok::Comma] + written_items(
            list,
            k + 1,
        )
    }
}

proof fn lemma_item(ts: Seq<Tok>, p: int, x: ItemTree)
    requires
        is_writable(x.expr),
        stand_at(ts, p, written(x.expr, 0) + written_alias(x.alias)),
        no_alias(tok(ts, p + written(x.expr, 0).len() + written_alias(x.alias).len())),
    ensures
        item_at(ts, p) == Ok::<(ItemTree, int), Bad>(
            (x, p + written(x.expr, 0).len() + written_alias(x.alias).len()),
        ),
        written(x.expr, 0).len() > 0,
{
    let a = written(x.expr, 0);
    lemma_split(ts, p, a, written_alias(x.alias));
    lemma_alias(ts, p + a.len(), x.alias);
    lemma_expr(ts, p, x.expr);
    lemma_first(x.expr, 0);
    assert(ts[p + 0] == a[0]);
    assert(!is_op(ts, p, "*"@)) by {
        reveal(op_is);
        reveal_strlit("*");
        reveal_strlit("-");
        assert("*"@[0] != "-"@[0]);
    }
}

/// The items that are selected are read back, each with its name.
#[verifier::rlimit(40)]
pub proof fn items_are_read_back(ts: Seq<Tok>, p: int, list: Seq<ItemTree>, k: nat, before: Seq<ItemTree>)
    requires
        k < list.len(),
        forall|i: int| 0 <= i < list.len() ==> is_writable((#[trigger] list[i]).expr),
        stand_at(ts, p, written_items(list, k)),
        no_alias(tok(ts, p + written_items(list, k).len())),
        !(tok(ts, p + written_items(list, k).len()) is Comma),
    ensures
        items_at(ts, before, p) == Ok::<(Seq<ItemTree>, int), Bad>(
            (before + list.skip(k as int), p + written_items(list, k).len()),
        ),
    decreases list.len() - k,
{
    let x = list[k as int];
    let a = written(x.expr, 0) + written_alias(x.alias);
    if k + 1 == list.len() {
        lemma_item(ts, p, x);
        assert(before.push(x) =~= before + list.skip(k as int));
    } else {
        let b = written_items(list, k + 1);
        lemma_split(ts, p, a + seq![Tok::Comma], b);
        lemma_split(ts, p, a, seq![Tok::Comma]);
        lemma_single(ts, p + a.len(), Tok::Comma);
        lemma_marks_stop();
        assert(no_alias(Tok::Comma)) by {
            reveal(keyword_is);
        }
        lemma_item(ts, p, x);
        items_are_read_back(ts, p + a.len() + 1, list, k + 1, before.push(x));
        assert(before.push(x) + list.skip((k + 1) as int) =~= before + list.skip(k as int));
    }
}

/// A table by its name and alias.
pub open spec fn written_table(name: Seq<char>, alias: Option<Seq<char>>) -> Seq<Tok> {
    seq![Tok::Ident(name)] + written_alias(alias)
}

/// A table is read back by its name and alias.
pub proof fn tables_are_read_back(ts: Seq<Tok>, p: int, name: Seq<char>, alias: Option<Seq<char>>)
    requires
        stand_at(ts, p, written_table(name, alias)),
        no_alias(tok(ts, p + written_table(name, alias).len())),
    ensures
        from_at(ts, p) == Ok::<(FromTree, int), Bad>(
            (FromTree::Table(name, alias), p + written_table(name, alias).len()),
        ),
{
    lemma_split(ts, p, seq![Tok::Ident(name)], written_alias(alias));
    lemma_single(ts, p, Tok::Ident(name));
    lemma_alias(ts, p + 1, alias);
    assert(ident_at(ts, p) == Ok::<(Seq<char>, int), Bad>((name, p + 1)));
}

/// The words of a join.
pub open spec fn written_join(join_type: JoinType2) -> Seq<Tok> {
    match join_type {
        JoinType2::Inner => seq![Tok::Keyword("JOIN"@)],
        JoinType2::Left => seq![Tok::Keyword("LEFT"@), Tok::Keyword("JOIN"@)],
    }
}

/// The words of a join tell whether rows without a partner stay.
pub proof fn join_words_are_read_back(ts: Seq<Tok>, p: int, join_type: JoinType2)
    requires
        stand_at(ts, p, written_join(join_type)),
    ensures
        join_words(ts, p) == Ok::<(Option<JoinType2>, int), Bad>((Some(join_type), p + written_join(join_type).len())),
{
    let s = written_join(join_type);
    assert(ts[p + 0] == s[0]);
    lemma_lengths();
    match join_type {
        JoinType2::Inner => {
            lemma_keyword(ts, p, "JOIN"@);
            lemma_differ("JOIN"@, "LEFT"@);
            lemma_differ("JOIN"@, "INNER"@);
            assert(!is_word(ts, p, "LEFT"@) && !is_word(ts, p, "INNER"@) && is_kw(ts, p, "JOIN"@));
        },
        JoinType2::Left => {
            assert(ts[p + 1] == s[1]);
            lemma_keyword(ts, p, "LEFT"@);
            lemma_keyword(ts, p + 1, "JOIN"@);
            lemma_differ("LEFT"@, "INNER"@);
            lemma_differ("JOIN"@, "OUTER"@);
            assert(same_ignoring_case("LEFT"@, "LEFT"@));
            assert(is_word(ts, p, "LEFT"@) && !is_word(ts, p, "INNER"@) && !is_word(ts, p + 1, "OUTER"@) && is_kw(
                ts,
                p + 1,
                "JOIN"@,
            ));
        },
    }
}

/// A join is read back: its table, and the condition behind `ON`.
pub proof fn joins_are_read_back(
    ts: Seq<Tok>,
    p: int,
    join_type: JoinType2,
    name: Seq<char>,
    alias: Option<Seq<char>>,
    on: Tree,
)
    requires
        is_writable(on),
        stand_at(ts, p, written_table(name, alias) + seq![Tok::Keyword("ON"@)] + written(on, 0)),
        is_stop(tok(ts, p + written_table(name, alias).len() + 1 + written(on, 0).len())),
    ensures
        join_at(ts, join_type, p) == Ok::<(JoinTree, int), Bad>(
            (
                (JoinTree { join_type, table: FromTree::Table(name, alias), on }),
                p + written_table(name, alias).len() + 1 + written(on, 0).len(),
            ),
        ),
{
    let t = written_table(name, alias);
    let w = seq![Tok::Keyword("ON"@)];
    let c = written(on, 0);
    lemma_split(ts, p, t + w, c);
    lemma_split(ts, p, t, w);
    let q = p + t.len();
    lemma_single(ts, q, Tok::Keyword("ON"@));
    lemma_keyword(ts, q, "ON"@);
    lemma_clause_word_stops("ON"@);
    lemma_lengths();
    assert(no_alias(Tok::Keyword("ON"@))) by {
        reveal(keyword_is);
    }
    tables_are_read_back(ts, p, name, alias);
    lemma_expr(ts, q + 1, on);
    assert(is_kw(ts, q, "ON"@));
}

/// A condition stands behind its keyword; without the keyword there is none.
pub proof fn conditions_are_read_back(ts: Seq<Tok>, p: int, kw: Seq<char>, x: Tree)
    requires
        is_writable(x),
        stand_at(ts, p, seq![Tok::Keyword(kw)] + written(x, 0)),
        is_stop(tok(ts, p + 1 + written(x, 0).len())),
    ensures
        clause_at(ts, kw, p) == Ok::<(Option<Tree>, int), Bad>((Some(x), p + 1 + written(x, 0).len())),
        forall|other: Seq<char>| other != kw ==> #[trigger] clause_at(ts, other, p) == Ok::<(Option<Tree>, int), Bad>(
            (None, p),
        ),
{
    lemma_split(ts, p, seq![Tok::Keyword(kw)], written(x, 0));
    lemma_single(ts, p, Tok::Keyword(kw));
    lemma_keyword(ts, p, kw);
    lemma_expr(ts, p + 1, x);
    assert(is_kw(ts, p, kw));
    assert forall|other: Seq<char>| other != kw implies #[trigger] clause_at(ts, other, p) == Ok::<
        (Option<Tree>, int),
        Bad,
    >((None, p)) by {
        assert(!is_kw(ts, p, other));
    }
}

/// The parts of a query, each where it stands.
pub open spec fn parts_stand(ts: Seq<Tok>, p: int, q: QueryTree, at: Seq<int>) -> bool {
    &&& at.len() == 8
    &&& p < at[0] <= ts.len()
    &&& items_at(ts, Seq::empty(), p) == Ok::<(Seq<ItemTree>, int), Bad>((q.select, at[0]))
    &&& is_kw(ts, at[0], "FROM"@)
    &&& at[0] + 1 < at[1] <= ts.len()
    &&& froms_at(ts, Seq::empty(), at[0] + 1) == Ok::<(Seq<FromTree>, int), Bad>((q.from, at[1]))
    &&& at[1] <= at[2] <= at[3] <= at[4] <= at[5] <= at[6] <= ts.len()
    &&& joins_at(ts, Seq::empty(), at[1]) == Ok::<(Seq<JoinTree>, int), Bad>((q.joins, at[2]))
    &&& clause_at(ts, "WHERE"@, at[2]) == Ok::<(Option<Tree>, int), Bad>((q.where_clause, at[3]))
    &&& group_at(ts, at[3]) == Ok::<(Seq<Tree>, int), Bad>((q.group_by, at[4]))
    &&& clause_at(ts, "HAVING"@, at[4]) == Ok::<(Option<Tree>, int), Bad>((q.having, at[5]))
    &&& order_at(ts, at[5]) == Ok::<(Seq<(Tree, bool)>, int), Bad>((q.order_by, at[6]))
    &&& limit_at(ts, at[6]) == Ok::<(Option<usize>, int), Bad>((q.limit, at[7]))
}

/// A query is made of its parts in their order: the selected items, the tables behind `FROM`, the joins, the
/// condition behind `WHERE`, the groups, the condition behind `HAVING`, the order and the limit. `DISTINCT` may
/// stand in front of the items.
pub proof fn queries_are_put_together(ts: Seq<Tok>, p: int, q: QueryTree, at: Seq<int>)
    requires
        0 <= p,
        is_kw(ts, p, "SELECT"@),
        parts_stand(
            ts,
            if is_kw(ts, p + 1, "DISTINCT"@) {
                p + 2
            } else {
                p + 1
            },
            q,
            at,
        ),
    ensures
        select_at(ts, p) == Ok::<(QueryTree, int), Bad>((q, at[7])),
{
    let whole = QueryTree {
        select: q.select,
        from: q.from,
        joins: q.joins,
        where_clause: q.where_clause,
        group_by: q.group_by,
        having: None,
        order_by: Seq::empty(),
        limit: None,
    };
    let with = QueryTree { having: q.having, ..whole };
    lemma_sorting(ts, with, q, at);
    lemma_endings(ts, whole, q, at);
    lemma_clauses(ts, whole, q, at);
    lemma_select(ts, p, q, at);
}

proof fn lemma_sorting(ts: Seq<Tok>, with: QueryTree, q: QueryTree, at: Seq<int>)
    requires
        at.len() == 8,
        at[5] <= at[6] <= ts.len(),
        order_at(ts, at[5]) == Ok::<(Seq<(Tree, bool)>, int), Bad>((q.order_by, at[6])),
        limit_at(ts, at[6]) == Ok::<(Option<usize>, int), Bad>((q.limit, at[7])),
        q == (QueryTree { order_by: q.order_by, limit: q.limit, ..with }),
    ensures
        sorting_at(ts, with, at[5]) == Ok::<(QueryTree, int), Bad>((q, at[7])),
{
}

proof fn lemma_endings(ts: Seq<Tok>, whole: QueryTree, q: QueryTree, at: Seq<int>)
    requires
        at.len() == 8,
        at[4] <= at[5] <= ts.len(),
        clause_at(ts, "HAVING"@, at[4]) == Ok::<(Option<Tree>, int), Bad>((q.having, at[5])),
        sorting_at(ts, (QueryTree { having: q.having, ..whole }), at[5]) == Ok::<(QueryTree, int), Bad>((q, at[7])),
    ensures
        endings_at(ts, whole, at[4]) == Ok::<(QueryTree, int), Bad>((q, at[7])),
{
}

proof fn lemma_clauses(ts: Seq<Tok>, whole: QueryTree, q: QueryTree, at: Seq<int>)
    requires
        at.len() == 8,
        at[2] <= at[3] <= at[4] <= ts.len(),
        clause_at(ts, "WHERE"@, at[2]) == Ok::<(Option<Tree>, int), Bad>((q.where_clause, at[3])),
        group_at(ts, at[3]) == Ok::<(Seq<Tree>, int), Bad>((q.group_by, at[4])),
        whole == (QueryTree {
            select: q.select,
            from: q.from,
            joins: q.joins,
            where_clause: q.where_clause,
            group_by: q.group_by,
            having: None,
            order_by: Seq::empty(),
            limit: None,
        }),
        endings_at(ts, whole, at[4]) == Ok::<(QueryTree, int), Bad>((q, at[7])),
    ensures
        clauses_at(ts, q.select, q.from, q.joins, at[2]) == Ok::<(QueryTree, int), Bad>((q, at[7])),
{
}

proof fn lemma_select(ts: Seq<Tok>, p: int, q: QueryTree, at: Seq<int>)
    requires
        0 <= p,
        is_kw(ts, p, "SELECT"@),
        parts_stand(
            ts,
            if is_kw(ts, p + 1, "DISTINCT"@) {
                p + 2
            } else {
                p + 1
            },
            q,
            at,
        ),
        clauses_at(ts, q.select, q.from, q.joins, at[2]) == Ok::<(QueryTree, int), Bad>((q, at[7])),
    ensures
        select_at(ts, p) == Ok::<(QueryTree, int), Bad>((q, at[7])),
{
}

} // verus!
