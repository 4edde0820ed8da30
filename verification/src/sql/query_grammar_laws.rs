//! Queries written out as tokens, and read back.

use crate::sql::ast::AggFunc;
use crate::sql::grammar::{
    argument_at, bounds_at, call_at, called, case_at, clause_at, date_in, exists_at, expr_at,
    extract_at, func_of, ident_at, in_rest, is_kw, is_op, is_word, keyword_at, keyword_is, more_at,
    nested_at, onward, op_is, primary_at, select_at, substr_at, tok, whens_at, word_is, Bad,
    QueryTree, Tok, Tree,
};
use crate::sql::grammar_laws::{
    ends_before, expressions_are_read_back, is_writable, lemma_begins, lemma_single, lemma_split, stand_at, written,
};
use crate::text::{lower_ascii, lower_char, same_ignoring_case};
use vstd::prelude::*;

verus! {

/// A keyword that no operation is written with.
pub open spec fn is_clause_word(w: Seq<char>) -> bool {
    w == "FROM"@ || w == "AS"@ || w == "ON"@ || w == "JOIN"@ || w == "LEFT"@
        || w == "INNER"@ || w == "OUTER"@ || w == "WHERE"@ || w == "GROUP"@ || w == "HAVING"@
        || w == "ORDER"@ || w == "LIMIT"@ || w == "ASC"@ || w == "DESC"@ || w == "BY"@
        || w == "SELECT"@ || w == "DISTINCT"@ || w == "WHEN"@ || w == "THEN"@ || w == "ELSE"@
        || w == "END"@
}

pub proof fn lemma_lengths()
    ensures
        "FROM"@.len() == 4,
        "FROM"@[0] == 'F',
        "FROM"@[1] == 'R',
        "AS"@.len() == 2,
        "AS"@[0] == 'A',
        "AS"@[1] == 'S',
        "ON"@.len() == 2,
        "ON"@[0] == 'O',
        "ON"@[1] == 'N',
        "JOIN"@.len() == 4,
        "JOIN"@[0] == 'J',
        "JOIN"@[1] == 'O',
        "LEFT"@.len() == 4,
        "LEFT"@[0] == 'L',
        "LEFT"@[1] == 'E',
        "INNER"@.len() == 5,
        "INNER"@[0] == 'I',
        "INNER"@[1] == 'N',
        "OUTER"@.len() == 5,
        "OUTER"@[0] == 'O',
        "OUTER"@[1] == 'U',
        "WHERE"@.len() == 5,
        "WHERE"@[0] == 'W',
        "WHERE"@[1] == 'H',
        "GROUP"@.len() == 5,
        "GROUP"@[0] == 'G',
        "GROUP"@[1] == 'R',
        "HAVING"@.len() == 6,
        "HAVING"@[0] == 'H',
        "HAVING"@[1] == 'A',
        "ORDER"@.len() == 5,
        "ORDER"@[0] == 'O',
        "ORDER"@[1] == 'R',
        "LIMIT"@.len() == 5,
        "LIMIT"@[0] == 'L',
        "LIMIT"@[1] == 'I',
        "ASC"@.len() == 3,
        "ASC"@[0] == 'A',
        "ASC"@[1] == 'S',
        "DESC"@.len() == 4,
        "DESC"@[0] == 'D',
        "DESC"@[1] == 'E',
        "BY"@.len() == 2,
        "BY"@[0] == 'B',
        "BY"@[1] == 'Y',
        "SELECT"@.len() == 6,
        "SELECT"@[0] == 'S',
        "SELECT"@[1] == 'E',
        "DISTINCT"@.len() == 8,
        "DISTINCT"@[0] == 'D',
        "DISTINCT"@[1] == 'I',
        "WHEN"@.len() == 4,
        "WHEN"@[0] == 'W',
        "WHEN"@[1] == 'H',
        "THEN"@.len() == 4,
        "THEN"@[0] == 'T',
        "THEN"@[1] == 'H',
        "ELSE"@.len() == 4,
        "ELSE"@[0] == 'E',
        "ELSE"@[1] == 'L',
        "END"@.len() == 3,
        "END"@[0] == 'E',
        "END"@[1] == 'N',
        "LIKE"@.len() == 4,
        "LIKE"@[0] == 'L',
        "LIKE"@[1] == 'I',
        "IN"@.len() == 2,
        "IN"@[0] == 'I',
        "IN"@[1] == 'N',
        "BETWEEN"@.len() == 7,
        "BETWEEN"@[0] == 'B',
        "BETWEEN"@[1] == 'E',
        "NOT"@.len() == 3,
        "NOT"@[0] == 'N',
        "NOT"@[1] == 'O',
        "AND"@.len() == 3,
        "AND"@[0] == 'A',
        "AND"@[1] == 'N',
        "OR"@.len() == 2,
        "OR"@[0] == 'O',
        "OR"@[1] == 'R',
        "EXISTS"@.len() == 6,
        "EXISTS"@[0] == 'E',
        "EXISTS"@[1] == 'X',
{
    reveal_strlit("FROM");
    reveal_strlit("AS");
    reveal_strlit("ON");
    reveal_strlit("JOIN");
    reveal_strlit("LEFT");
    reveal_strlit("INNER");
    reveal_strlit("OUTER");
    reveal_strlit("WHERE");
    reveal_strlit("GROUP");
    reveal_strlit("HAVING");
    reveal_strlit("ORDER");
    reveal_strlit("LIMIT");
    reveal_strlit("ASC");
    reveal_strlit("DESC");
    reveal_strlit("BY");
    reveal_strlit("SELECT");
    reveal_strlit("DISTINCT");
    reveal_strlit("WHEN");
    reveal_strlit("THEN");
    reveal_strlit("ELSE");
    reveal_strlit("END");
    reveal_strlit("LIKE");
    reveal_strlit("IN");
    reveal_strlit("BETWEEN");
    reveal_strlit("NOT");
    reveal_strlit("AND");
    reveal_strlit("OR");
    reveal_strlit("EXISTS");
}

/// Words that differ in their length or in one of their first two letters differ whatever their case.
pub proof fn lemma_differ(a: Seq<char>, b: Seq<char>)
    requires
        a.len() != b.len() || (a.len() > 1 && ('A' <= a[0] <= 'Z' && 'A' <= b[0] <= 'Z' && a[0] != b[0] || 'A' <= a[1]
            <= 'Z' && 'A' <= b[1] <= 'Z' && a[1] != b[1])),
    ensures
        !same_ignoring_case(a, b),
        a != b,
{
    assert(lower_ascii(a).len() == a.len() && lower_ascii(b).len() == b.len());
    if a.len() == b.len() {
        assert(lower_ascii(a)[0] == lower_char(a[0]) && lower_ascii(b)[0] == lower_char(b[0]));
        assert(lower_ascii(a)[1] == lower_char(a[1]) && lower_ascii(b)[1] == lower_char(b[1]));
        lemma_letter(a[0], b[0]);
        lemma_letter(a[1], b[1]);
    }
}

proof fn lemma_letter(a: char, b: char)
    ensures
        'A' <= a <= 'Z' && 'A' <= b <= 'Z' && a != b ==> lower_char(a) != lower_char(b),
{
}

/// A token that ends an expression and is not taken for a name or a comma.
pub open spec fn is_stop(k: Tok) -> bool {
    &&& ends_before(k, 0)
    &&& !keyword_is(k, "OR"@)
}

pub proof fn lemma_clause_word_stops(w: Seq<char>)
    requires
        is_clause_word(w),
    ensures
        is_stop(Tok::Keyword(w)),
{
    reveal(op_is);
    reveal(word_is);
    reveal(keyword_is);
    lemma_lengths();
    lemma_differ(w, "LIKE"@);
    lemma_differ(w, "IN"@);
    lemma_differ(w, "BETWEEN"@);
    lemma_differ(w, "NOT"@);
    lemma_differ(w, "AND"@);
    lemma_differ(w, "OR"@);
}

pub proof fn lemma_marks_stop()
    ensures
        is_stop(Tok::RParen),
        is_stop(Tok::Comma),
        is_stop(Tok::End),
        is_stop(Tok::Semicolon),
{
    reveal(op_is);
    reveal(word_is);
    reveal(keyword_is);
}

/// An expression that is written out is read back where a token stops it.
pub proof fn lemma_expr(ts: Seq<Tok>, p: int, t: Tree)
    requires
        is_writable(t),
        stand_at(ts, p, written(t, 0)),
        is_stop(tok(ts, p + written(t, 0).len())),
    ensures
        expr_at(ts, p) == Ok::<(Tree, int), Bad>((t, p + written(t, 0).len())),
        written(t, 0).len() > 0,
{
    lemma_begins(t, 0);
    expressions_are_read_back(ts, p, t);
}

/// The keyword at a place is this one and no other.
pub proof fn lemma_keyword(ts: Seq<Tok>, p: int, w: Seq<char>)
    requires
        0 <= p < ts.len(),
        ts[p] == Tok::Keyword(w),
    ensures
        forall|v: Seq<char>| #[trigger] is_kw(ts, p, v) <==> v == w,
        forall|v: Seq<char>| #[trigger] is_word(ts, p, v) <==> same_ignoring_case(w, v),
{
    reveal(keyword_is);
    reveal(word_is);
}

pub proof fn lemma_no_keyword(ts: Seq<Tok>, p: int)
    requires
        !(tok(ts, p) is Keyword) && !(tok(ts, p) is Ident),
    ensures
        forall|v: Seq<char>| !#[trigger] is_kw(ts, p, v),
        forall|v: Seq<char>| !#[trigger] is_word(ts, p, v),
{
    reveal(keyword_is);
    reveal(word_is);
}

/// The names of the aggregates.
pub open spec fn func_name(f: AggFunc) -> Seq<char> {
    match f {
        AggFunc::Sum => "SUM"@,
        AggFunc::Avg => "AVG"@,
        AggFunc::Count => "COUNT"@,
        AggFunc::CountDistinct => "COUNT"@,
        AggFunc::Min => "MIN"@,
        AggFunc::Max => "MAX"@,
    }
}

proof fn lemma_func_names()
    ensures
        "SUM"@.len() == 3 && "SUM"@[0] == 'S' && "SUM"@[1] == 'U',
        "AVG"@.len() == 3 && "AVG"@[0] == 'A',
        "COUNT"@.len() == 5 && "COUNT"@[0] == 'C' && "COUNT"@[1] == 'O',
        "MIN"@.len() == 3 && "MIN"@[0] == 'M' && "MIN"@[1] == 'I',
        "MAX"@.len() == 3 && "MAX"@[0] == 'M' && "MAX"@[1] == 'A',
        "DATE"@.len() == 4,
        "CASE"@.len() == 4 && "CASE"@[0] == 'C',
        "DATE"@[0] == 'D',
        "EXTRACT"@.len() == 7,
        "DISTINCT"@.len() == 8,
{
    reveal_strlit("SUM");
    reveal_strlit("AVG");
    reveal_strlit("COUNT");
    reveal_strlit("MIN");
    reveal_strlit("MAX");
    reveal_strlit("DATE");
    reveal_strlit("CASE");
    reveal_strlit("EXTRACT");
    reveal_strlit("DISTINCT");
}

/// The name of an aggregate stands for the aggregate.
pub proof fn aggregates_are_told_by_name(f: AggFunc)
    ensures
        f != AggFunc::CountDistinct ==> func_of(func_name(f)) == Some(f),
{
    lemma_func_names();
}

/// The tokens of a call of an aggregate, plain or of different values.
pub open spec fn written_call(f: AggFunc, x: Tree, distinct: bool) -> Seq<Tok> {
    if distinct {
        seq![Tok::Keyword(func_name(f)), Tok::LParen, Tok::Keyword("DISTINCT"@)] + written(x, 0) + seq![Tok::RParen]
    } else {
        seq![Tok::Keyword(func_name(f)), Tok::LParen] + written(x, 0) + seq![Tok::RParen]
    }
}

/// A call of an aggregate, plain or of different values, is read as that aggregate of its argument.
pub proof fn aggregate_calls_are_read_back(ts: Seq<Tok>, p: int, f: AggFunc, x: Tree, distinct: bool)
    requires
        is_writable(x),
        f == AggFunc::CountDistinct ==> distinct,
        f == AggFunc::Count ==> !distinct,
        stand_at(ts, p, written_call(f, x, distinct)),
    ensures
        primary_at(ts, p) == Ok::<(Tree, int), Bad>(
            ((Tree::Agg { func: f, arg: Box::new(x), distinct }), p + written_call(f, x, distinct).len()),
        ),
{
    let at = p + 2 + (if distinct {
        1int
    } else {
        0
    });
    let e = at + written(x, 0).len();
    lemma_call_tokens(ts, p, f, x, distinct);
    lemma_call_argument(ts, at, x);
    lemma_func_word(f);
    lemma_called(ts, f, x, distinct, e);
    lemma_call_at(ts, p + 1, func_name(f), x, distinct, at, e);
    lemma_call_keyword(ts, p, func_name(f));
}

proof fn lemma_call_tokens(ts: Seq<Tok>, p: int, f: AggFunc, x: Tree, distinct: bool)
    requires
        is_writable(x),
        stand_at(ts, p, written_call(f, x, distinct)),
    ensures
        ({
            let at = p + 2 + (if distinct {
                1int
            } else {
                0
            });
            let e = at + written(x, 0).len();
            &&& 0 <= p && at < e < ts.len()
            &&& ts[p] == Tok::Keyword(func_name(f))
            &&& ts[p + 1] is LParen
            &&& is_kw(ts, p + 2, "DISTINCT"@) == distinct
            &&& stand_at(ts, at, written(x, 0))
            &&& ts[e] is RParen
            &&& e + 1 == p + written_call(f, x, distinct).len()
        }),
{
    let w = written(x, 0);
    lemma_begins(x, 0);
    if distinct {
        let head = seq![Tok::Keyword(func_name(f)), Tok::LParen, Tok::Keyword("DISTINCT"@)];
        lemma_split(ts, p, head + w, seq![Tok::RParen]);
        lemma_split(ts, p, head, w);
        assert(ts[p + 0] == head[0] && ts[p + 1] == head[1] && ts[p + 2] == head[2]);
        lemma_single(ts, p + 3 + w.len(), Tok::RParen);
        lemma_keyword(ts, p + 2, "DISTINCT"@);
        assert(is_kw(ts, p + 2, "DISTINCT"@));
    } else {
        let head = seq![Tok::Keyword(func_name(f)), Tok::LParen];
        lemma_split(ts, p, head + w, seq![Tok::RParen]);
        lemma_split(ts, p, head, w);
        assert(ts[p + 0] == head[0] && ts[p + 1] == head[1]);
        lemma_single(ts, p + 2 + w.len(), Tok::RParen);
        assert(ts[p + 2 + 0] == w[0]);
        assert(!is_kw(ts, p + 2, "DISTINCT"@)) by {
            reveal(keyword_is);
            lemma_not_distinct(x);
        }
    }
}

proof fn lemma_call_argument(ts: Seq<Tok>, at: int, x: Tree)
    requires
        is_writable(x),
        stand_at(ts, at, written(x, 0)),
        tok(ts, at + written(x, 0).len()) is RParen,
    ensures
        argument_at(ts, at) == Ok::<(Tree, int), Bad>((x, at + written(x, 0).len())),
{
    lemma_marks_stop();
    lemma_expr(ts, at, x);
    assert(ts[at + 0] == written(x, 0)[0]);
    assert(!is_op(ts, at, "*"@)) by {
        reveal(op_is);
        lemma_not_star(x);
    }
}

proof fn lemma_called(ts: Seq<Tok>, f: AggFunc, x: Tree, distinct: bool, e: int)
    requires
        f == AggFunc::CountDistinct ==> distinct,
        f == AggFunc::Count ==> !distinct,
        tok(ts, e) is RParen,
    ensures
        called(ts, func_name(f), distinct, x, e) == Ok::<(Tree, int), Bad>(
            ((Tree::Agg { func: f, arg: Box::new(x), distinct }), e + 1),
        ),
{
    reveal(called);
    lemma_func_word(f);
}

proof fn lemma_func_word(f: AggFunc)
    ensures
        func_name(f) != "DATE"@,
        func_name(f) != "CASE"@,
        func_name(f) != "EXTRACT"@,
        func_of(func_name(f)) == Some(
            if f == AggFunc::CountDistinct {
                AggFunc::Count
            } else {
                f
            },
        ),
{
    lemma_func_names();
}

proof fn lemma_call_at(ts: Seq<Tok>, p: int, name: Seq<char>, x: Tree, distinct: bool, at: int, e: int)
    requires
        at == p + 1 + (if distinct {
            1int
        } else {
            0
        }),
        at < e < ts.len(),
        0 <= p,
        ts[p] is LParen,
        is_kw(ts, p + 1, "DISTINCT"@) == distinct,
        argument_at(ts, at) == Ok::<(Tree, int), Bad>((x, e)),
    ensures
        call_at(ts, name, p) == called(ts, name, distinct, x, e),
{
    assert(onward(argument_at(ts, at), ts, at) == Ok::<(Tree, int), Bad>((x, e)));
}

proof fn lemma_call_keyword(ts: Seq<Tok>, p: int, name: Seq<char>)
    requires
        0 <= p,
        p + 1 < ts.len(),
        ts[p] == Tok::Keyword(name),
        ts[p + 1] is LParen,
        name != "DATE"@,
        name != "CASE"@,
        name != "EXTRACT"@,
    ensures
        primary_at(ts, p) == call_at(ts, name, p + 1),
{
    assert(keyword_at(ts, name, p) == call_at(ts, name, p + 1));
}

proof fn lemma_not_distinct(x: Tree)
    requires
        is_writable(x),
    ensures
        written(x, 0)[0] != Tok::Keyword("DISTINCT"@),
    decreases x,
{
    reveal_strlit("DISTINCT");
    reveal_strlit("NOT");
    assert("DISTINCT"@.len() != "NOT"@.len());
    lemma_first(x, 0);
}

proof fn lemma_not_star(x: Tree)
    requires
        is_writable(x),
    ensures
        written(x, 0)[0] != Tok::Op("*"@),
    decreases x,
{
    reveal_strlit("*");
    reveal_strlit("-");
    assert("*"@[0] != "-"@[0]);
    lemma_first(x, 0);
}

/// What an expression begins with: a bracket, a value, a name, a minus or `NOT`.
pub proof fn lemma_first(x: Tree, level: int)
    requires
        is_writable(x),
        0 <= level <= 6,
    ensures
        written(x, level).len() > 0,
        ({
            let k = written(x, level)[0];
            ||| k is LParen
            ||| k is Int
            ||| k is Float
            ||| k is Str
            ||| k is Ident
            ||| k == Tok::Op("-"@)
            ||| k == Tok::Keyword("NOT"@)
        }),
    decreases x,
{
    lemma_begins(x, level);
    match x {
        Tree::BinOp { op, left, right } => {
            lemma_begins(*left, 0);
            lemma_begins(*left, 1);
            lemma_begins(*left, 4);
            lemma_begins(*left, 5);
            lemma_first(*left, 0);
            lemma_first(*left, 1);
            lemma_first(*left, 4);
            lemma_first(*left, 5);
        },
        Tree::Like { expr, pattern, negated } => {
            lemma_first(*expr, 4);
        },
        Tree::Between { expr, low, high, negated } => {
            lemma_first(*expr, 4);
        },
        Tree::InList { expr, list, negated } => {
            lemma_first(*expr, 4);
        },
        _ => {},
    }
}

/// Counting rows: a star in the brackets.
pub proof fn count_of_rows_is_read_back(ts: Seq<Tok>, p: int)
    requires
        stand_at(ts, p, seq![Tok::Keyword("COUNT"@), Tok::LParen, Tok::Op("*"@), Tok::RParen]),
    ensures
        primary_at(ts, p) == Ok::<(Tree, int), Bad>(
            ((Tree::Agg { func: AggFunc::Count, arg: Box::new(Tree::CountStar), distinct: false }), p + 4),
        ),
{
    let s = seq![Tok::Keyword("COUNT"@), Tok::LParen, Tok::Op("*"@), Tok::RParen];
    assert(ts[p + 0] == s[0] && ts[p + 1] == s[1] && ts[p + 2] == s[2] && ts[p + 3] == s[3]);
    reveal(op_is);
    reveal(keyword_is);
    assert(argument_at(ts, p + 2) == Ok::<(Tree, int), Bad>((Tree::CountStar, p + 3)));
    lemma_func_word(AggFunc::Count);
    lemma_called(ts, AggFunc::Count, Tree::CountStar, false, p + 3);
    lemma_call_at(ts, p + 1, "COUNT"@, Tree::CountStar, false, p + 2, p + 3);
    lemma_call_keyword(ts, p, "COUNT"@);
}

/// A day behind `DATE` is read as that day.
pub proof fn dates_are_read_back(ts: Seq<Tok>, p: int, s: Seq<char>)
    requires
        stand_at(ts, p, seq![Tok::Keyword("DATE"@), Tok::Str(s)]),
    ensures
        date_in(s) matches Some(d) ==> primary_at(ts, p) == Ok::<(Tree, int), Bad>((Tree::Date(d), p + 2)),
{
    let w = seq![Tok::Keyword("DATE"@), Tok::Str(s)];
    assert(ts[p + 0] == w[0] && ts[p + 1] == w[1]);
}

/// A column of a named table is read as the name, a dot and the column.
pub proof fn qualified_names_are_read_back(ts: Seq<Tok>, p: int, table: Seq<char>, column: Seq<char>)
    requires
        stand_at(ts, p, seq![Tok::Ident(table), Tok::Op("."@), Tok::Ident(column)]),
    ensures
        primary_at(ts, p) == Ok::<(Tree, int), Bad>((Tree::Col(table + "."@ + column), p + 3)),
{
    let w = seq![Tok::Ident(table), Tok::Op("."@), Tok::Ident(column)];
    assert(ts[p + 0] == w[0] && ts[p + 1] == w[1] && ts[p + 2] == w[2]);
    reveal(op_is);
}

/// A part of a date is read back.
#[verifier::rlimit(40)]
pub proof fn parts_of_dates_are_read_back(ts: Seq<Tok>, p: int, field: Seq<char>, x: Tree)
    requires
        is_writable(x),
        stand_at(
            ts,
            p,
            seq![Tok::Keyword("EXTRACT"@), Tok::LParen, Tok::Ident(field), Tok::Keyword("FROM"@)] + written(x, 0) + seq![
                Tok::RParen,
            ],
        ),
    ensures
        primary_at(ts, p) == Ok::<(Tree, int), Bad>(
            ((Tree::Extract { field, expr: Box::new(x) }), p + 5 + written(x, 0).len()),
        ),
{
    lemma_marks_stop();
    let w = written(x, 0);
    let head = seq![Tok::Keyword("EXTRACT"@), Tok::LParen, Tok::Ident(field), Tok::Keyword("FROM"@)];
    lemma_split(ts, p, head + w, seq![Tok::RParen]);
    lemma_split(ts, p, head, w);
    assert(ts[p + 0] == head[0] && ts[p + 1] == head[1] && ts[p + 2] == head[2] && ts[p + 3] == head[3]);
    lemma_single(ts, p + 4 + w.len(), Tok::RParen);
    lemma_expr(ts, p + 4, x);
    lemma_keyword(ts, p + 3, "FROM"@);
    assert(is_kw(ts, p + 3, "FROM"@));
    assert(ident_at(ts, p + 2) == Ok::<(Seq<char>, int), Bad>((field, p + 3)));
    assert(extract_at(ts, p + 1) == Ok::<(Tree, int), Bad>(
        ((Tree::Extract { field, expr: Box::new(x) }), p + 5 + w.len()),
    ));
    lemma_extract_keyword(ts, p);
}

proof fn lemma_extract_keyword(ts: Seq<Tok>, p: int)
    requires
        0 <= p < ts.len(),
        ts[p] == Tok::Keyword("EXTRACT"@),
    ensures
        primary_at(ts, p) == extract_at(ts, p + 1),
{
    lemma_func_names();
    assert(keyword_at(ts, "EXTRACT"@, p) == extract_at(ts, p + 1));
}

/// A part of a text, with its start and length, is read back.
#[verifier::rlimit(60)]
#[verifier::spinoff_prover]
pub proof fn parts_of_texts_are_read_back(ts: Seq<Tok>, p: int, x: Tree, start: Tree, len: Tree)
    requires
        is_writable(x),
        is_writable(start),
        is_writable(len),
        stand_at(
            ts,
            p,
            seq![Tok::LParen] + written(x, 0) + seq![Tok::Comma] + written(start, 0) + seq![Tok::Comma] + written(
                len,
                0,
            ) + seq![Tok::RParen],
        ),
    ensures
        substr_at(ts, p) == Ok::<(Tree, int), Bad>(
            (
                (Tree::Substr { expr: Box::new(x), start: Box::new(start), len: Box::new(len) }),
                p + 4 + written(x, 0).len() + written(start, 0).len() + written(len, 0).len(),
            ),
        ),
{
    lemma_marks_stop();
    let w = written(x, 0);
    let a = written(start, 0);
    let b = written(len, 0);
    let l = seq![Tok::LParen];
    let c = seq![Tok::Comma];
    lemma_split(ts, p, l + w + c + a + c + b, seq![Tok::RParen]);
    lemma_split(ts, p, l + w + c + a + c, b);
    lemma_split(ts, p, l + w + c + a, c);
    lemma_split(ts, p, l + w + c, a);
    lemma_split(ts, p, l + w, c);
    lemma_split(ts, p, l, w);
    lemma_single(ts, p, Tok::LParen);
    let p1 = p + 1 + w.len();
    let p2 = p1 + 1 + a.len();
    let p3 = p2 + 1 + b.len();
    lemma_single(ts, p1, Tok::Comma);
    lemma_single(ts, p2, Tok::Comma);
    lemma_single(ts, p3, Tok::RParen);
    lemma_expr(ts, p + 1, x);
    lemma_expr(ts, p1 + 1, start);
    lemma_expr(ts, p2 + 1, len);
    assert(more_at(ts, p1) == Ok::<(Tree, int), Bad>((start, p2)));
    assert(more_at(ts, p2) == Ok::<(Tree, int), Bad>((len, p3)));
    assert(bounds_at(ts, x, p1) == Ok::<(Tree, int), Bad>(
        ((Tree::Substr { expr: Box::new(x), start: Box::new(start), len: Box::new(len) }), p3 + 1),
    ));
}

/// The branches from place `k` on, each `WHEN` a condition `THEN` a value.
pub open spec fn written_branches(whens: Seq<(Tree, Tree)>, k: nat) -> Seq<Tok>
    decreases whens.len() - k,
{
    if k >= whens.len() {
        Seq::empty()
    } else {
        seq![Tok::Keyword("WHEN"@)] + written(whens[k as int].0, 0) + seq![Tok::Keyword("THEN"@)] + written(
            whens[k as int].1,
            0,
        ) + written_branches(whens, k + 1)
    }
}

/// The value of no branch, if there is one, and the end.
pub open spec fn written_else(last: Option<Tree>) -> Seq<Tok> {
    match last {
        Some(x) => seq![Tok::Keyword("ELSE"@)] + written(x, 0) + seq![Tok::Keyword("END"@)],
        None => seq![Tok::Keyword("END"@)],
    }
}

/// All conditions and values are writable.
pub open spec fn branches_writable(whens: Seq<(Tree, Tree)>) -> bool {
    forall|k: int| 0 <= k < whens.len() ==> is_writable((#[trigger] whens[k]).0) && is_writable(whens[k].1)
}

proof fn lemma_case_words()
    ensures
        "ELSE"@ != "WHEN"@,
        "END"@ != "WHEN"@,
        "END"@ != "ELSE"@,
        is_stop(Tok::Keyword("THEN"@)),
        is_stop(Tok::Keyword("WHEN"@)),
        is_stop(Tok::Keyword("ELSE"@)),
        is_stop(Tok::Keyword("END"@)),
{
    lemma_lengths();
    lemma_clause_word_stops("THEN"@);
    lemma_clause_word_stops("WHEN"@);
    lemma_clause_word_stops("ELSE"@);
    lemma_clause_word_stops("END"@);
}

/// The branches of a choice are read back, each condition with its value, in their order.
#[verifier::rlimit(60)]
#[verifier::spinoff_prover]
pub proof fn branches_are_read_back(ts: Seq<Tok>, p: int, whens: Seq<(Tree, Tree)>, k: nat, before: Seq<(Tree, Tree)>)
    requires
        branches_writable(whens),
        k <= whens.len(),
        stand_at(ts, p, written_branches(whens, k)),
        ({
            let e = tok(ts, p + written_branches(whens, k).len());
            e == Tok::Keyword("ELSE"@) || e == Tok::Keyword("END"@)
        }),
    ensures
        whens_at(ts, before, p) == Ok::<(Seq<(Tree, Tree)>, int), Bad>(
            (before + whens.skip(k as int), p + written_branches(whens, k).len()),
        ),
    decreases whens.len() - k,
{
    let all = written_branches(whens, k);
    let end = p + all.len();
    lemma_case_words();
    if k == whens.len() {
        assert(ts[p] == Tok::Keyword("ELSE"@) || ts[p] == Tok::Keyword("END"@));
        if ts[p] == Tok::Keyword("ELSE"@) {
            lemma_keyword(ts, p, "ELSE"@);
        } else {
            lemma_keyword(ts, p, "END"@);
        }
        assert(!is_kw(ts, p, "WHEN"@));
        assert(before + whens.skip(k as int) =~= before);
    } else {
        let (c, x) = whens[k as int];
        let a = written(c, 0);
        let b = written(x, 0);
        let rest = written_branches(whens, k + 1);
        let w = seq![Tok::Keyword("WHEN"@)];
        let t = seq![Tok::Keyword("THEN"@)];
        lemma_split(ts, p, w + a + t + b, rest);
        lemma_split(ts, p, w + a + t, b);
        lemma_split(ts, p, w + a, t);
        lemma_split(ts, p, w, a);
        lemma_single(ts, p, Tok::Keyword("WHEN"@));
        lemma_keyword(ts, p, "WHEN"@);
        let q = p + 1 + a.len();
        lemma_single(ts, q, Tok::Keyword("THEN"@));
        lemma_keyword(ts, q, "THEN"@);
        lemma_expr(ts, p + 1, c);
        let s = q + 1 + b.len();
        if k + 1 < whens.len() {
            assert(rest[0] == Tok::Keyword("WHEN"@));
            assert(ts[s + 0] == rest[0]);
        }
        lemma_expr(ts, q + 1, x);
        branches_are_read_back(ts, s, whens, k + 1, before.push((c, x)));
        assert(before.push((c, x)) + whens.skip((k + 1) as int) =~= before + whens.skip(k as int));
        assert(is_kw(ts, p, "WHEN"@) && is_kw(ts, q, "THEN"@));
    }
}

/// The last value of a choice is read back, if there is one.
pub proof fn last_values_are_read_back(ts: Seq<Tok>, q: int, last: Option<Tree>)
    requires
        last matches Some(x) ==> is_writable(x),
        stand_at(ts, q, written_else(last)),
    ensures
        clause_at(ts, "ELSE"@, q) == Ok::<(Option<Tree>, int), Bad>((last, q + written_else(last).len() - 1)),
        is_kw(ts, q + written_else(last).len() - 1, "END"@),
        written_else(last).len() > 0,
        q < ts.len(),
        ts[q] == Tok::Keyword("ELSE"@) || ts[q] == Tok::Keyword("END"@),
{
    let e = written_else(last);
    assert(ts[q + 0] == e[0]);
    lemma_case_words();
    match last {
        Some(x) => {
            let w = written(x, 0);
            lemma_split(ts, q, seq![Tok::Keyword("ELSE"@)] + w, seq![Tok::Keyword("END"@)]);
            lemma_split(ts, q, seq![Tok::Keyword("ELSE"@)], w);
            lemma_single(ts, q + 1 + w.len(), Tok::Keyword("END"@));
            lemma_keyword(ts, q, "ELSE"@);
            lemma_keyword(ts, q + 1 + w.len(), "END"@);
            lemma_expr(ts, q + 1, x);
            assert(is_kw(ts, q, "ELSE"@) && is_kw(ts, q + 1 + w.len(), "END"@));
            assert(clause_at(ts, "ELSE"@, q) == Ok::<(Option<Tree>, int), Bad>((Some(x), q + 1 + w.len())));
        },
        None => {
            lemma_keyword(ts, q, "END"@);
            assert(!is_kw(ts, q, "ELSE"@) && is_kw(ts, q, "END"@));
            assert(clause_at(ts, "ELSE"@, q) == Ok::<(Option<Tree>, int), Bad>((None, q)));
        },
    }
}

/// A choice begins with `CASE`.
pub proof fn choices_begin_with_their_keyword(ts: Seq<Tok>, p: int)
    requires
        0 <= p < ts.len(),
        ts[p] == Tok::Keyword("CASE"@),
    ensures
        primary_at(ts, p) == case_at(ts, p + 1),
{
    lemma_func_names();
    assert(keyword_at(ts, "CASE"@, p) == case_at(ts, p + 1));
}

/// The branches of a choice, with or without a last value, as a tree.
pub open spec fn choice(whens: Seq<(Tree, Tree)>, last: Option<Tree>) -> Tree {
    Tree::Case {
        whens,
        else_: match last {
            Some(x) => Some(Box::new(x)),
            None => None,
        },
    }
}

/// A choice is made of its branches and its last value, if there is one, up to `END`.
pub proof fn choices_are_put_together(ts: Seq<Tok>, p: int, whens: Seq<(Tree, Tree)>, q: int, last: Option<Tree>, r: int)
    requires
        whens_at(ts, Seq::empty(), p) == Ok::<(Seq<(Tree, Tree)>, int), Bad>((whens, q)),
        clause_at(ts, "ELSE"@, q) == Ok::<(Option<Tree>, int), Bad>((last, r)),
        is_kw(ts, r, "END"@),
        p <= q <= r < ts.len(),
    ensures
        case_at(ts, p) == Ok::<(Tree, int), Bad>((choice(whens, last), r + 1)),
{
}

/// A query in brackets is a value of its own, a list to test for membership, or to test for rows.
pub proof fn nested_queries_are_read_back(ts: Seq<Tok>, p: int, x: Tree, negated: bool, sub: QueryTree, q: int)
    requires
        0 <= p < ts.len(),
        ts[p] is LParen,
        p + 1 < q < ts.len(),
        select_at(ts, p + 1) == Ok::<(QueryTree, int), Bad>((sub, q)),
        ts[q] is RParen,
    ensures
        primary_at(ts, p) == Ok::<(Tree, int), Bad>((Tree::Subquery(Box::new(sub)), q + 1)),
        in_rest(ts, x, negated, p) == Ok::<(Tree, int), Bad>(
            ((Tree::InSubquery { expr: Box::new(x), query: Box::new(sub), negated }), q + 1),
        ),
        exists_at(ts, p, negated) == Ok::<(Tree, int), Bad>(
            ((Tree::Exists { query: Box::new(sub), negated }), q + 1),
        ),
{
    assert(is_kw(ts, p + 1, "SELECT"@));
    assert(nested_at(ts, p) == Ok::<(QueryTree, int), Bad>((sub, q + 1)));
}

} // verus!
