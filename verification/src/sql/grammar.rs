//! The grammar of queries: what a sequence of tokens means.

use crate::dates::day_number;
use crate::sql::ast::{
    AggFunc, BinOp2, Expr2, FromItem, JoinClause2, JoinType2, SelectItem2, SelectQuery2,
};
use crate::text::{all_digits, digits_value, lower_ascii, same_ignoring_case};
use vstd::prelude::*;

verus! {

/// A token.
pub enum Tok {
    Keyword(Seq<char>),
    Ident(Seq<char>),
    Int(i64),
    Float(u64),
    Str(Seq<char>),
    Op(Seq<char>),
    LParen,
    RParen,
    Comma,
    Semicolon,
    End,
}

/// What an expression is.
pub enum Tree {
    Col(Seq<char>),
    Int(i64),
    Float(u64),
    Str(Seq<char>),
    Date(i32),
    BinOp { op: BinOp2, left: Box<Tree>, right: Box<Tree> },
    Like { expr: Box<Tree>, pattern: Box<Tree>, negated: bool },
    Between { expr: Box<Tree>, low: Box<Tree>, high: Box<Tree>, negated: bool },
    InList { expr: Box<Tree>, list: Seq<Tree>, negated: bool },
    InSubquery { expr: Box<Tree>, query: Box<QueryTree>, negated: bool },
    Exists { query: Box<QueryTree>, negated: bool },
    Case { whens: Seq<(Tree, Tree)>, else_: Option<Box<Tree>> },
    Extract { field: Seq<char>, expr: Box<Tree> },
    Substr { expr: Box<Tree>, start: Box<Tree>, len: Box<Tree> },
    Agg { func: AggFunc, arg: Box<Tree>, distinct: bool },
    CountStar,
    Subquery(Box<QueryTree>),
    Not(Box<Tree>),
    Neg(Box<Tree>),
}

pub struct ItemTree {
    pub expr: Tree,
    pub alias: Option<Seq<char>>,
}

pub enum FromTree {
    Table(Seq<char>, Option<Seq<char>>),
    Derived(Box<QueryTree>, Option<Seq<char>>),
}

pub struct JoinTree {
    pub join_type: JoinType2,
    pub table: FromTree,
    pub on: Tree,
}

/// What a query is.
pub struct QueryTree {
    pub select: Seq<ItemTree>,
    pub from: Seq<FromTree>,
    pub joins: Seq<JoinTree>,
    pub where_clause: Option<Tree>,
    pub group_by: Seq<Tree>,
    pub having: Option<Tree>,
    pub order_by: Seq<(Tree, bool)>,
    pub limit: Option<usize>,
}

pub open spec fn text_of(s: Option<String>) -> Option<Seq<char>> {
    match s {
        Some(t) => Some(t@),
        None => None,
    }
}

pub open spec fn tree_of(e: Expr2) -> Tree
    decreases e,
{
    match e {
        Expr2::Col(n) => Tree::Col(n@),
        Expr2::Int(i) => Tree::Int(i),
        Expr2::Float(b) => Tree::Float(b),
        Expr2::Str(s) => Tree::Str(s@),
        Expr2::Date(d) => Tree::Date(d),
        Expr2::BinOp { op, left, right } => Tree::BinOp {
            op,
            left: Box::new(tree_of(*left)),
            right: Box::new(tree_of(*right)),
        },
        Expr2::Like { expr, pattern, negated } => Tree::Like {
            expr: Box::new(tree_of(*expr)),
            pattern: Box::new(tree_of(*pattern)),
            negated,
        },
        Expr2::Between { expr, low, high, negated } => Tree::Between {
            expr: Box::new(tree_of(*expr)),
            low: Box::new(tree_of(*low)),
            high: Box::new(tree_of(*high)),
            negated,
        },
        Expr2::InList { expr, list, negated } => Tree::InList {
            expr: Box::new(tree_of(*expr)),
            list: trees_of(list@),
            negated,
        },
        Expr2::InSubquery { expr, query, negated } => Tree::InSubquery {
            expr: Box::new(tree_of(*expr)),
            query: Box::new(query_of(*query)),
            negated,
        },
        Expr2::Exists { query, negated } => Tree::Exists { query: Box::new(query_of(*query)), negated },
        Expr2::Case { whens, else_ } => Tree::Case {
            whens: branches_of(whens@),
            else_: match else_ {
                Some(x) => Some(Box::new(tree_of(*x))),
                None => None,
            },
        },
        Expr2::Extract { field, expr } => Tree::Extract { field: field@, expr: Box::new(tree_of(*expr)) },
        Expr2::Substr { expr, start, len } => Tree::Substr {
            expr: Box::new(tree_of(*expr)),
            start: Box::new(tree_of(*start)),
            len: Box::new(tree_of(*len)),
        },
        Expr2::Agg { func, arg, distinct } => Tree::Agg { func, arg: Box::new(tree_of(*arg)), distinct },
        Expr2::CountStar => Tree::CountStar,
        Expr2::Subquery(q) => Tree::Subquery(Box::new(query_of(*q))),
        Expr2::Not(x) => Tree::Not(Box::new(tree_of(*x))),
        Expr2::Neg(x) => Tree::Neg(Box::new(tree_of(*x))),
    }
}

pub open spec fn trees_of(es: Seq<Expr2>) -> Seq<Tree>
    decreases es,
{
    if es.len() == 0 {
        Seq::empty()
    } else {
        trees_of(es.drop_last()).push(tree_of(es.last()))
    }
}

pub open spec fn branches_of(es: Seq<(Expr2, Expr2)>) -> Seq<(Tree, Tree)>
    decreases es,
{
    if es.len() == 0 {
        Seq::empty()
    } else {
        branches_of(es.drop_last()).push((tree_of(es.last().0), tree_of(es.last().1)))
    }
}

pub open spec fn item_of(i: SelectItem2) -> ItemTree
    decreases i,
{
    ItemTree { expr: tree_of(i.expr), alias: text_of(i.alias) }
}

pub open spec fn items_of(es: Seq<SelectItem2>) -> Seq<ItemTree>
    decreases es,
{
    if es.len() == 0 {
        Seq::empty()
    } else {
        items_of(es.drop_last()).push(item_of(es.last()))
    }
}

pub open spec fn from_of(f: FromItem) -> FromTree
    decreases f,
{
    match f {
        FromItem::Table(t) => FromTree::Table(t.name@, text_of(t.alias)),
        FromItem::Derived(q, alias) => FromTree::Derived(Box::new(query_of(*q)), text_of(alias)),
    }
}

pub open spec fn froms_of(es: Seq<FromItem>) -> Seq<FromTree>
    decreases es,
{
    if es.len() == 0 {
        Seq::empty()
    } else {
        froms_of(es.drop_last()).push(from_of(es.last()))
    }
}

pub open spec fn join_of(j: JoinClause2) -> JoinTree
    decreases j,
{
    JoinTree { join_type: j.join_type, table: from_of(j.table), on: tree_of(j.on) }
}

pub open spec fn joins_of(es: Seq<JoinClause2>) -> Seq<JoinTree>
    decreases es,
{
    if es.len() == 0 {
        Seq::empty()
    } else {
        joins_of(es.drop_last()).push(join_of(es.last()))
    }
}

pub open spec fn orders_of(es: Seq<(Expr2, bool)>) -> Seq<(Tree, bool)>
    decreases es,
{
    if es.len() == 0 {
        Seq::empty()
    } else {
        orders_of(es.drop_last()).push((tree_of(es.last().0), es.last().1))
    }
}

pub open spec fn option_of(e: Option<Expr2>) -> Option<Tree>
    decreases e,
{
    match e {
        Some(x) => Some(tree_of(x)),
        None => None,
    }
}

pub open spec fn query_of(q: SelectQuery2) -> QueryTree
    decreases q,
{
    QueryTree {
        select: items_of(q.select@),
        from: froms_of(q.from@),
        joins: joins_of(q.joins@),
        where_clause: option_of(q.where_clause),
        group_by: trees_of(q.group_by@),
        having: option_of(q.having),
        order_by: orders_of(q.order_by@),
        limit: q.limit,
    }
}

#[verifier::opaque]
pub open spec fn expr_tree(e: Expr2) -> Tree {
    tree_of(e)
}

#[verifier::opaque]
pub open spec fn expr_trees(e: Seq<Expr2>) -> Seq<Tree> {
    trees_of(e)
}

#[verifier::opaque]
pub open spec fn branch_trees(e: Seq<(Expr2, Expr2)>) -> Seq<(Tree, Tree)> {
    branches_of(e)
}

#[verifier::opaque]
pub open spec fn item_tree(e: SelectItem2) -> ItemTree {
    item_of(e)
}

#[verifier::opaque]
pub open spec fn item_trees(e: Seq<SelectItem2>) -> Seq<ItemTree> {
    items_of(e)
}

#[verifier::opaque]
pub open spec fn from_tree(e: FromItem) -> FromTree {
    from_of(e)
}

#[verifier::opaque]
pub open spec fn from_trees(e: Seq<FromItem>) -> Seq<FromTree> {
    froms_of(e)
}

#[verifier::opaque]
pub open spec fn join_tree(e: JoinClause2) -> JoinTree {
    join_of(e)
}

#[verifier::opaque]
pub open spec fn join_trees(e: Seq<JoinClause2>) -> Seq<JoinTree> {
    joins_of(e)
}

#[verifier::opaque]
pub open spec fn order_trees(e: Seq<(Expr2, bool)>) -> Seq<(Tree, bool)> {
    orders_of(e)
}

#[verifier::opaque]
pub open spec fn option_tree(e: Option<Expr2>) -> Option<Tree> {
    option_of(e)
}

#[verifier::opaque]
pub open spec fn query_tree(e: SelectQuery2) -> QueryTree {
    query_of(e)
}

/// Why tokens are no query, and where.
pub struct Bad {
    pub what: Seq<char>,
    pub at: int,
}

/// A phrase that begins at a token, and the token behind it.
pub type Found<T> = Result<(T, int), Bad>;

pub open spec fn bad<T>(what: Seq<char>, at: int) -> Found<T> {
    Err(Bad { what, at })
}

/// The token at a place; behind the last one is the end.
pub open spec fn tok(ts: Seq<Tok>, p: int) -> Tok {
    if 0 <= p < ts.len() {
        ts[p]
    } else {
        Tok::End
    }
}

pub open spec fn is_kw(ts: Seq<Tok>, p: int, kw: Seq<char>) -> bool {
    0 <= p < ts.len() && keyword_is(ts[p], kw)
}

#[verifier::opaque]
pub open spec fn keyword_is(t: Tok, kw: Seq<char>) -> bool {
    t matches Tok::Keyword(k) && k == kw
}

/// A word that is written as a name or as a keyword, whatever its case.
pub open spec fn is_word(ts: Seq<Tok>, p: int, word: Seq<char>) -> bool {
    0 <= p < ts.len() && word_is(ts[p], word)
}

#[verifier::opaque]
pub open spec fn word_is(t: Tok, word: Seq<char>) -> bool {
    match t {
        Tok::Ident(s) => same_ignoring_case(s, word),
        Tok::Keyword(k) => same_ignoring_case(k, word),
        _ => false,
    }
}

pub open spec fn is_op(ts: Seq<Tok>, p: int, op: Seq<char>) -> bool {
    0 <= p < ts.len() && op_is(ts[p], op)
}

#[verifier::opaque]
pub open spec fn op_is(t: Tok, op: Seq<char>) -> bool {
    t matches Tok::Op(o) && o == op
}

/// A phrase takes at least one token.
pub open spec fn onward<T>(r: Found<T>, ts: Seq<Tok>, p: int) -> Found<T> {
    match r {
        Ok((x, q)) => if p < q <= ts.len() {
            Ok((x, q))
        } else {
            bad("no phrase"@, p)
        },
        Err(e) => Err(e),
    }
}

/// A part that may be missing does not go back.
pub open spec fn not_back<T>(r: Found<T>, ts: Seq<Tok>, p: int) -> Found<T> {
    match r {
        Ok((x, q)) => if p <= q <= ts.len() {
            Ok((x, q))
        } else {
            bad("no phrase"@, p)
        },
        Err(e) => Err(e),
    }
}

pub open spec fn upper_char(c: char) -> char {
    if 'a' <= c <= 'z' {
        (c as u32 - 32) as u32 as char
    } else {
        c
    }
}

/// The text with its ASCII letters in upper case.
pub open spec fn upper_ascii(text: Seq<char>) -> Seq<char> {
    text.map_values(|c: char| upper_char(c))
}

/// The day that a text like `1994-01-31` stands for, if there is such a day.
#[verifier::opaque]
pub open spec fn date_in(s: Seq<char>) -> Option<i32> {
    if s.len() == 10 && s[4] == '-' && s[7] == '-' && all_digits(s.subrange(0, 4)) && all_digits(s.subrange(5, 7))
        && all_digits(s.subrange(8, 10)) {
        let y = digits_value(s.subrange(0, 4));
        let m = digits_value(s.subrange(5, 7));
        let d = digits_value(s.subrange(8, 10));
        if 1 <= m <= 12 && 1 <= d && day_number(y, m, d) < (if m == 12 {
            day_number(y + 1, 1, 1)
        } else {
            day_number(y, m + 1, 1)
        }) {
            Some(day_number(y, m, d) as i32)
        } else {
            None
        }
    } else {
        None
    }
}

/// A name.
pub open spec fn ident_at(ts: Seq<Tok>, p: int) -> Found<Seq<char>> {
    match tok(ts, p) {
        Tok::Ident(s) => Ok((s, p + 1)),
        Tok::Keyword(k) => Ok((lower_ascii(k), p + 1)),
        _ => bad("expected identifier"@, p),
    }
}

/// A name behind `AS`, or a plain name, if there is one.
pub open spec fn alias_at(ts: Seq<Tok>, p: int) -> Found<Option<Seq<char>>> {
    if is_kw(ts, p, "AS"@) {
        match ident_at(ts, p + 1) {
            Ok((s, q)) => Ok((Some(s), q)),
            Err(e) => Err(e),
        }
    } else if tok(ts, p) is Ident {
        match ident_at(ts, p) {
            Ok((s, q)) => Ok((Some(s), q)),
            Err(e) => Err(e),
        }
    } else {
        Ok((None, p))
    }
}

pub open spec fn node(op: BinOp2, left: Tree, right: Tree) -> Tree {
    Tree::BinOp { op, left: Box::new(left), right: Box::new(right) }
}

pub open spec fn expr_at(ts: Seq<Tok>, p: int) -> Found<Tree>
    decreases ts.len() - p, 21int,
{
    match onward(and_at(ts, p), ts, p) {
        Ok((l, q)) => or_rest(ts, l, q),
        Err(e) => Err(e),
    }
}

pub open spec fn or_rest(ts: Seq<Tok>, left: Tree, p: int) -> Found<Tree>
    decreases ts.len() - p, 22int,
{
    if is_kw(ts, p, "OR"@) {
        match onward(and_at(ts, p + 1), ts, p + 1) {
            Ok((r, q)) => or_rest(ts, node(BinOp2::Or, left, r), q),
            Err(e) => Err(e),
        }
    } else {
        Ok((left, p))
    }
}

pub open spec fn and_at(ts: Seq<Tok>, p: int) -> Found<Tree>
    decreases ts.len() - p, 20int,
{
    match onward(not_at(ts, p), ts, p) {
        Ok((l, q)) => and_rest(ts, l, q),
        Err(e) => Err(e),
    }
}

pub open spec fn and_rest(ts: Seq<Tok>, left: Tree, p: int) -> Found<Tree>
    decreases ts.len() - p, 22int,
{
    if is_kw(ts, p, "AND"@) {
        match onward(not_at(ts, p + 1), ts, p + 1) {
            Ok((r, q)) => and_rest(ts, node(BinOp2::And, left, r), q),
            Err(e) => Err(e),
        }
    } else {
        Ok((left, p))
    }
}

pub open spec fn not_at(ts: Seq<Tok>, p: int) -> Found<Tree>
    decreases ts.len() - p, 19int,
{
    if is_kw(ts, p, "NOT"@) {
        if is_word(ts, p + 1, "EXISTS"@) {
            exists_at(ts, p + 2, true)
        } else {
            match onward(not_at(ts, p + 1), ts, p + 1) {
                Ok((x, q)) => Ok((Tree::Not(Box::new(x)), q)),
                Err(e) => Err(e),
            }
        }
    } else if is_word(ts, p, "EXISTS"@) {
        exists_at(ts, p + 1, false)
    } else {
        comparison_at(ts, p)
    }
}

/// A query in brackets.
pub open spec fn nested_at(ts: Seq<Tok>, p: int) -> Found<QueryTree>
    decreases ts.len() - p, 12int,
{
    if !(tok(ts, p) is LParen) {
        bad("expected '('"@, p)
    } else {
        match onward(select_at(ts, p + 1), ts, p + 1) {
            Ok((sub, q)) => if tok(ts, q) is RParen {
                Ok((sub, q + 1))
            } else {
                bad("expected ')'"@, q)
            },
            Err(e) => Err(e),
        }
    }
}

pub open spec fn exists_at(ts: Seq<Tok>, p: int, negated: bool) -> Found<Tree>
    decreases ts.len() - p, 13int,
{
    match nested_at(ts, p) {
        Ok((sub, q)) => Ok((Tree::Exists { query: Box::new(sub), negated }, q)),
        Err(e) => Err(e),
    }
}

/// The comparison that a token stands for.
pub open spec fn comparison_op(t: Tok) -> Option<BinOp2> {
    match t {
        Tok::Op(o) => if o == "="@ {
            Some(BinOp2::Eq)
        } else if o == "!="@ || o == "<>"@ {
            Some(BinOp2::Ne)
        } else if o == "<"@ {
            Some(BinOp2::Lt)
        } else if o == ">"@ {
            Some(BinOp2::Gt)
        } else if o == "<="@ {
            Some(BinOp2::Le)
        } else if o == ">="@ {
            Some(BinOp2::Ge)
        } else {
            None
        },
        _ => None,
    }
}

pub open spec fn comparison_at(ts: Seq<Tok>, p: int) -> Found<Tree>
    decreases ts.len() - p, 18int,
{
    match onward(sum_at(ts, p), ts, p) {
        Ok((l, q)) => comparison_rest(ts, l, q),
        Err(e) => Err(e),
    }
}

pub open spec fn comparison_rest(ts: Seq<Tok>, l: Tree, q: int) -> Found<Tree>
    decreases ts.len() - q, 22int,
{
    match comparison_op(tok(ts, q)) {
        Some(op) => match onward(sum_at(ts, q + 1), ts, q + 1) {
            Ok((r, s)) => Ok((node(op, l, r), s)),
            Err(e) => Err(e),
        },
        None => if is_word(ts, q, "LIKE"@) {
            like_rest(ts, l, false, q + 1)
        } else if is_kw(ts, q, "NOT"@) {
            if is_word(ts, q + 1, "LIKE"@) {
                like_rest(ts, l, true, q + 2)
            } else if is_word(ts, q + 1, "IN"@) {
                in_rest(ts, l, true, q + 2)
            } else if is_word(ts, q + 1, "BETWEEN"@) {
                between_rest(ts, l, true, q + 2)
            } else {
                Ok((l, q))
            }
        } else if is_word(ts, q, "IN"@) {
            in_rest(ts, l, false, q + 1)
        } else if is_word(ts, q, "BETWEEN"@) {
            between_rest(ts, l, false, q + 1)
        } else {
            Ok((l, q))
        },
    }
}

pub open spec fn like_rest(ts: Seq<Tok>, l: Tree, negated: bool, p: int) -> Found<Tree>
    decreases ts.len() - p, 18int,
{
    match onward(sum_at(ts, p), ts, p) {
        Ok((r, s)) => Ok((Tree::Like { expr: Box::new(l), pattern: Box::new(r), negated }, s)),
        Err(e) => Err(e),
    }
}

pub open spec fn in_rest(ts: Seq<Tok>, l: Tree, negated: bool, p: int) -> Found<Tree>
    decreases ts.len() - p, 18int,
{
    if !(tok(ts, p) is LParen) {
        bad("expected '('"@, p)
    } else if is_kw(ts, p + 1, "SELECT"@) {
        match nested_at(ts, p) {
            Ok((sub, q)) => Ok((Tree::InSubquery { expr: Box::new(l), query: Box::new(sub), negated }, q)),
            Err(e) => Err(e),
        }
    } else {
        match onward(list_at(ts, Seq::empty(), p + 1), ts, p + 1) {
            Ok((list, q)) => if tok(ts, q) is RParen {
                Ok((Tree::InList { expr: Box::new(l), list, negated }, q + 1))
            } else {
                bad("expected ')'"@, q)
            },
            Err(e) => Err(e),
        }
    }
}

/// Expressions with commas between them.
pub open spec fn list_at(ts: Seq<Tok>, before: Seq<Tree>, p: int) -> Found<Seq<Tree>>
    decreases ts.len() - p, 23int,
{
    match onward(expr_at(ts, p), ts, p) {
        Ok((x, q)) => if tok(ts, q) is Comma {
            list_at(ts, before.push(x), q + 1)
        } else {
            Ok((before.push(x), q))
        },
        Err(e) => Err(e),
    }
}

pub open spec fn between_rest(ts: Seq<Tok>, l: Tree, negated: bool, p: int) -> Found<Tree>
    decreases ts.len() - p, 18int,
{
    match onward(sum_at(ts, p), ts, p) {
        Ok((low, q)) => if is_kw(ts, q, "AND"@) {
            match onward(sum_at(ts, q + 1), ts, q + 1) {
                Ok((high, s)) => Ok(
                    (
                        Tree::Between { expr: Box::new(l), low: Box::new(low), high: Box::new(high), negated },
                        s,
                    ),
                ),
                Err(e) => Err(e),
            }
        } else {
            bad("expected keyword AND"@, q)
        },
        Err(e) => Err(e),
    }
}

pub open spec fn sum_at(ts: Seq<Tok>, p: int) -> Found<Tree>
    decreases ts.len() - p, 17int,
{
    match onward(product_at(ts, p), ts, p) {
        Ok((l, q)) => sum_rest(ts, l, q),
        Err(e) => Err(e),
    }
}

pub open spec fn sum_rest(ts: Seq<Tok>, left: Tree, p: int) -> Found<Tree>
    decreases ts.len() - p, 22int,
{
    if is_op(ts, p, "+"@) || is_op(ts, p, "-"@) {
        let op = if is_op(ts, p, "+"@) {
            BinOp2::Add
        } else {
            BinOp2::Sub
        };
        match onward(product_at(ts, p + 1), ts, p + 1) {
            Ok((r, q)) => sum_rest(ts, node(op, left, r), q),
            Err(e) => Err(e),
        }
    } else {
        Ok((left, p))
    }
}

pub open spec fn product_at(ts: Seq<Tok>, p: int) -> Found<Tree>
    decreases ts.len() - p, 16int,
{
    match onward(unary_at(ts, p), ts, p) {
        Ok((l, q)) => product_rest(ts, l, q),
        Err(e) => Err(e),
    }
}

pub open spec fn product_rest(ts: Seq<Tok>, left: Tree, p: int) -> Found<Tree>
    decreases ts.len() - p, 22int,
{
    if is_op(ts, p, "*"@) || is_op(ts, p, "/"@) {
        let op = if is_op(ts, p, "*"@) {
            BinOp2::Mul
        } else {
            BinOp2::Div
        };
        match onward(unary_at(ts, p + 1), ts, p + 1) {
            Ok((r, q)) => product_rest(ts, node(op, left, r), q),
            Err(e) => Err(e),
        }
    } else {
        Ok((left, p))
    }
}

pub open spec fn unary_at(ts: Seq<Tok>, p: int) -> Found<Tree>
    decreases ts.len() - p, 15int,
{
    if is_op(ts, p, "-"@) {
        match onward(unary_at(ts, p + 1), ts, p + 1) {
            Ok((x, q)) => Ok((Tree::Neg(Box::new(x)), q)),
            Err(e) => Err(e),
        }
    } else if is_op(ts, p, "+"@) {
        unary_at(ts, p + 1)
    } else {
        primary_at(ts, p)
    }
}

pub open spec fn primary_at(ts: Seq<Tok>, p: int) -> Found<Tree>
    decreases ts.len() - p, 14int,
{
    match tok(ts, p) {
        Tok::Int(i) => Ok((Tree::Int(i), p + 1)),
        Tok::Float(b) => Ok((Tree::Float(b), p + 1)),
        Tok::Str(s) => Ok((Tree::Str(s), p + 1)),
        Tok::Keyword(kw) => keyword_at(ts, kw, p),
        Tok::Ident(name) => name_at(ts, name, p),
        Tok::LParen => if is_kw(ts, p + 1, "SELECT"@) {
            match nested_at(ts, p) {
                Ok((sub, q)) => Ok((Tree::Subquery(Box::new(sub)), q)),
                Err(e) => Err(e),
            }
        } else {
            match onward(expr_at(ts, p + 1), ts, p + 1) {
                Ok((x, q)) => if tok(ts, q) is RParen {
                    Ok((x, q + 1))
                } else {
                    bad("expected ')'"@, q)
                },
                Err(e) => Err(e),
            }
        },
        _ => bad("expected expression"@, p),
    }
}

/// An expression that begins with a keyword.
pub open spec fn keyword_at(ts: Seq<Tok>, kw: Seq<char>, p: int) -> Found<Tree>
    decreases ts.len() - p, 13int,
{
    if p >= ts.len() {
        bad("expected expression"@, p)
    } else if kw == "DATE"@ {
        match tok(ts, p + 1) {
            Tok::Str(s) => match date_in(s) {
                Some(d) => Ok((Tree::Date(d), p + 2)),
                None => Ok((Tree::Str(s), p + 2)),
            },
            _ => bad("expected string after DATE"@, p + 1),
        }
    } else if kw == "CASE"@ {
        case_at(ts, p + 1)
    } else if kw == "EXTRACT"@ {
        extract_at(ts, p + 1)
    } else if tok(ts, p + 1) is LParen || func_of(kw) is Some {
        call_at(ts, kw, p + 1)
    } else {
        Ok((Tree::Col(lower_ascii(kw)), p + 1))
    }
}

/// An expression that begins with a name.
pub open spec fn name_at(ts: Seq<Tok>, name: Seq<char>, p: int) -> Found<Tree>
    decreases ts.len() - p, 13int,
{
    let lower = lower_ascii(name);
    if p >= ts.len() {
        bad("expected expression"@, p)
    } else if tok(ts, p + 1) is LParen {
        if lower == "substr"@ || lower == "substring"@ {
            substr_at(ts, p + 1)
        } else if lower == "extract"@ {
            extract_at(ts, p + 1)
        } else if lower == "exists"@ {
            exists_at(ts, p + 1, false)
        } else {
            call_at(ts, upper_ascii(name), p + 1)
        }
    } else if is_op(ts, p + 1, "."@) {
        match ident_at(ts, p + 2) {
            Ok((col, q)) => Ok((Tree::Col(name + "."@ + col), q)),
            Err(e) => Err(e),
        }
    } else {
        Ok((Tree::Col(name), p + 1))
    }
}

/// Branches behind `CASE`.
pub open spec fn case_at(ts: Seq<Tok>, p: int) -> Found<Tree>
    decreases ts.len() - p, 25int,
{
    match not_back(whens_at(ts, Seq::empty(), p), ts, p) {
        Ok((whens, q)) => match not_back(clause_at(ts, "ELSE"@, q), ts, q) {
            Ok((last, s)) => if is_kw(ts, s, "END"@) {
                Ok(
                    (
                        Tree::Case {
                            whens,
                            else_: match last {
                                Some(x) => Some(Box::new(x)),
                                None => None,
                            },
                        },
                        s + 1,
                    ),
                )
            } else {
                bad("expected keyword END"@, s)
            },
            Err(e) => Err(e),
        },
        Err(e) => Err(e),
    }
}

pub open spec fn whens_at(ts: Seq<Tok>, before: Seq<(Tree, Tree)>, p: int) -> Found<Seq<(Tree, Tree)>>
    decreases ts.len() - p, 23int,
{
    if is_kw(ts, p, "WHEN"@) {
        match onward(expr_at(ts, p + 1), ts, p + 1) {
            Ok((cond, q)) => if is_kw(ts, q, "THEN"@) {
                match onward(expr_at(ts, q + 1), ts, q + 1) {
                    Ok((x, s)) => whens_at(ts, before.push((cond, x)), s),
                    Err(e) => Err(e),
                }
            } else {
                bad("expected keyword THEN"@, q)
            },
            Err(e) => Err(e),
        }
    } else {
        Ok((before, p))
    }
}

pub open spec fn extract_at(ts: Seq<Tok>, p: int) -> Found<Tree>
    decreases ts.len() - p, 12int,
{
    if !(tok(ts, p) is LParen) {
        bad("expected '('"@, p)
    } else {
        match onward(ident_at(ts, p + 1), ts, p + 1) {
            Ok((field, q)) => if is_kw(ts, q, "FROM"@) {
                match onward(expr_at(ts, q + 1), ts, q + 1) {
                    Ok((x, s)) => if tok(ts, s) is RParen {
                        Ok((Tree::Extract { field, expr: Box::new(x) }, s + 1))
                    } else {
                        bad("expected ')'"@, s)
                    },
                    Err(e) => Err(e),
                }
            } else {
                bad("expected keyword FROM"@, q)
            },
            Err(e) => Err(e),
        }
    }
}

pub open spec fn substr_at(ts: Seq<Tok>, p: int) -> Found<Tree>
    decreases ts.len() - p, 12int,
{
    if !(tok(ts, p) is LParen) {
        bad("expected '('"@, p)
    } else {
        match onward(expr_at(ts, p + 1), ts, p + 1) {
            Ok((x, q)) => bounds_at(ts, x, q),
            Err(e) => Err(e),
        }
    }
}

/// The bounds of a part of a text, up to the bracket behind them.
pub open spec fn bounds_at(ts: Seq<Tok>, x: Tree, p: int) -> Found<Tree>
    decreases ts.len() - p, 23int,
{
    match onward(more_at(ts, p), ts, p) {
        Ok((from, q)) => match onward(more_at(ts, q), ts, q) {
            Ok((len, s)) => if tok(ts, s) is RParen {
                Ok((Tree::Substr { expr: Box::new(x), start: Box::new(from), len: Box::new(len) }, s + 1))
            } else {
                bad("expected ')'"@, s)
            },
            Err(e) => Err(e),
        },
        Err(e) => Err(e),
    }
}

/// A comma and an expression.
pub open spec fn more_at(ts: Seq<Tok>, p: int) -> Found<Tree>
    decreases ts.len() - p, 22int,
{
    if tok(ts, p) is Comma {
        expr_at(ts, p + 1)
    } else {
        bad("expected ',' in substr"@, p)
    }
}

/// The aggregate of a name in upper case.
pub open spec fn func_of(name: Seq<char>) -> Option<AggFunc> {
    if name == "SUM"@ {
        Some(AggFunc::Sum)
    } else if name == "AVG"@ {
        Some(AggFunc::Avg)
    } else if name == "COUNT"@ {
        Some(AggFunc::Count)
    } else if name == "MIN"@ {
        Some(AggFunc::Min)
    } else if name == "MAX"@ {
        Some(AggFunc::Max)
    } else {
        None
    }
}

/// What is in the brackets of a call: a star, or an expression.
pub open spec fn argument_at(ts: Seq<Tok>, p: int) -> Found<Tree>
    decreases ts.len() - p, 23int,
{
    if is_op(ts, p, "*"@) {
        Ok((Tree::CountStar, p + 1))
    } else {
        expr_at(ts, p)
    }
}

pub open spec fn call_at(ts: Seq<Tok>, func: Seq<char>, p: int) -> Found<Tree>
    decreases ts.len() - p, 12int,
{
    if !(tok(ts, p) is LParen) {
        bad("expected '('"@, p)
    } else {
        let distinct = is_kw(ts, p + 1, "DISTINCT"@);
        let from = if distinct {
            p + 2
        } else {
            p + 1
        };
        match onward(argument_at(ts, from), ts, from) {
            Ok((x, q)) => called(ts, func, distinct, x, q),
            Err(e) => Err(e),
        }
    }
}

/// The end of a call.
#[verifier::opaque]
pub open spec fn called(ts: Seq<Tok>, func: Seq<char>, distinct: bool, x: Tree, q: int) -> Found<Tree> {
    if !(tok(ts, q) is RParen) {
        bad("expected ')'"@, q)
    } else {
        match func_of(func) {
            Some(f) => {
                let g = if f == AggFunc::Count && distinct {
                    AggFunc::CountDistinct
                } else {
                    f
                };
                Ok((Tree::Agg { func: g, arg: Box::new(x), distinct }, q + 1))
            },
            None => bad("unsupported aggregate: "@ + func, q),
        }
    }
}

/// A query.
pub open spec fn select_at(ts: Seq<Tok>, p: int) -> Found<QueryTree>
    decreases ts.len() - p, 28int,
{
    if !is_kw(ts, p, "SELECT"@) {
        bad("expected keyword SELECT"@, p)
    } else {
        let p1 = if is_kw(ts, p + 1, "DISTINCT"@) {
            p + 2
        } else {
            p + 1
        };
        match onward(items_at(ts, Seq::empty(), p1), ts, p1) {
            Ok((select, p2)) => if !is_kw(ts, p2, "FROM"@) {
                bad("expected keyword FROM"@, p2)
            } else {
                match onward(froms_at(ts, Seq::empty(), p2 + 1), ts, p2 + 1) {
                    Ok((from, p3)) => match not_back(joins_at(ts, Seq::empty(), p3), ts, p3) {
                        Ok((joins, p4)) => clauses_at(ts, select, from, joins, p4),
                        Err(e) => Err(e),
                    },
                    Err(e) => Err(e),
                }
            },
            Err(e) => Err(e),
        }
    }
}

/// What follows the tables of a query.
pub open spec fn clauses_at(
    ts: Seq<Tok>,
    select: Seq<ItemTree>,
    from: Seq<FromTree>,
    joins: Seq<JoinTree>,
    p: int,
) -> Found<QueryTree>
    decreases ts.len() - p, 27int,
{
    match not_back(clause_at(ts, "WHERE"@, p), ts, p) {
        Ok((where_clause, q)) => match not_back(group_at(ts, q), ts, q) {
            Ok((group_by, s)) => endings_at(
                ts,
                QueryTree {
                    select,
                    from,
                    joins,
                    where_clause,
                    group_by,
                    having: None,
                    order_by: Seq::empty(),
                    limit: None,
                },
                s,
            ),
            Err(e) => Err(e),
        },
        Err(e) => Err(e),
    }
}

/// What follows the groups of a query.
pub open spec fn endings_at(ts: Seq<Tok>, query: QueryTree, p: int) -> Found<QueryTree>
    decreases ts.len() - p, 26int,
{
    match not_back(clause_at(ts, "HAVING"@, p), ts, p) {
        Ok((having, q)) => sorting_at(ts, QueryTree { having, ..query }, q),
        Err(e) => Err(e),
    }
}

/// The order and the limit of a query.
pub open spec fn sorting_at(ts: Seq<Tok>, query: QueryTree, p: int) -> Found<QueryTree>
    decreases ts.len() - p, 25int,
{
    match not_back(order_at(ts, p), ts, p) {
        Ok((order_by, q)) => match limit_at(ts, q) {
            Ok((limit, s)) => Ok((QueryTree { order_by, limit, ..query }, s)),
            Err(e) => Err(e),
        },
        Err(e) => Err(e),
    }
}

/// An expression behind a keyword, if that is there.
pub open spec fn clause_at(ts: Seq<Tok>, kw: Seq<char>, p: int) -> Found<Option<Tree>>
    decreases ts.len() - p, 24int,
{
    if is_kw(ts, p, kw) {
        match onward(expr_at(ts, p + 1), ts, p + 1) {
            Ok((x, q)) => Ok((Some(x), q)),
            Err(e) => Err(e),
        }
    } else {
        Ok((None, p))
    }
}

pub open spec fn group_at(ts: Seq<Tok>, p: int) -> Found<Seq<Tree>>
    decreases ts.len() - p, 24int,
{
    if is_kw(ts, p, "GROUP"@) {
        if is_kw(ts, p + 1, "BY"@) {
            keys_at(ts, Seq::empty(), p + 2)
        } else {
            bad("expected keyword BY"@, p + 1)
        }
    } else {
        Ok((Seq::empty(), p))
    }
}

/// Expressions to group by, with commas between them. A number stands for
/// nothing.
pub open spec fn keys_at(ts: Seq<Tok>, before: Seq<Tree>, p: int) -> Found<Seq<Tree>>
    decreases ts.len() - p, 24int,
{
    if tok(ts, p) is Int {
        if tok(ts, p + 1) is Comma {
            keys_at(ts, before, p + 2)
        } else {
            Ok((before, p + 1))
        }
    } else {
        match onward(expr_at(ts, p), ts, p) {
            Ok((x, q)) => if tok(ts, q) is Comma {
                keys_at(ts, before.push(x), q + 1)
            } else {
                Ok((before.push(x), q))
            },
            Err(e) => Err(e),
        }
    }
}

pub open spec fn order_at(ts: Seq<Tok>, p: int) -> Found<Seq<(Tree, bool)>>
    decreases ts.len() - p, 24int,
{
    if is_kw(ts, p, "ORDER"@) {
        if is_kw(ts, p + 1, "BY"@) {
            orders_at(ts, Seq::empty(), p + 2)
        } else {
            bad("expected keyword BY"@, p + 1)
        }
    } else {
        Ok((Seq::empty(), p))
    }
}

/// Expressions to sort by, with commas between them.
pub open spec fn orders_at(ts: Seq<Tok>, before: Seq<(Tree, bool)>, p: int) -> Found<Seq<(Tree, bool)>>
    decreases ts.len() - p, 24int,
{
    match onward(expr_at(ts, p), ts, p) {
        Ok((x, q)) => {
            let ascending = !is_word(ts, q, "DESC"@);
            let s = if !ascending || is_word(ts, q, "ASC"@) {
                q + 1
            } else {
                q
            };
            if tok(ts, s) is Comma {
                orders_at(ts, before.push((x, ascending)), s + 1)
            } else {
                Ok((before.push((x, ascending)), s))
            }
        },
        Err(e) => Err(e),
    }
}

#[verifier::opaque]
pub open spec fn limit_at(ts: Seq<Tok>, p: int) -> Found<Option<usize>> {
    if is_word(ts, p, "LIMIT"@) {
        match tok(ts, p + 1) {
            Tok::Int(i) => if 0 <= i <= usize::MAX {
                Ok((Some(i as usize), p + 2))
            } else {
                bad("expected non-negative"@, p + 1)
            },
            _ => bad("expected integer"@, p + 1),
        }
    } else {
        Ok((None, p))
    }
}

/// Selected items, with commas between them.
pub open spec fn items_at(ts: Seq<Tok>, before: Seq<ItemTree>, p: int) -> Found<Seq<ItemTree>>
    decreases ts.len() - p, 24int,
{
    match onward(item_at(ts, p), ts, p) {
        Ok((x, q)) => if tok(ts, q) is Comma {
            items_at(ts, before.push(x), q + 1)
        } else {
            Ok((before.push(x), q))
        },
        Err(e) => Err(e),
    }
}

/// A selected item. A star stands for the number one.
pub open spec fn item_at(ts: Seq<Tok>, p: int) -> Found<ItemTree>
    decreases ts.len() - p, 23int,
{
    if is_op(ts, p, "*"@) {
        Ok((ItemTree { expr: Tree::Int(1), alias: None }, p + 1))
    } else {
        match onward(expr_at(ts, p), ts, p) {
            Ok((expr, q)) => match alias_at(ts, q) {
                Ok((alias, s)) => Ok((ItemTree { expr, alias }, s)),
                Err(e) => Err(e),
            },
            Err(e) => Err(e),
        }
    }
}

/// Tables, with commas between them.
pub open spec fn froms_at(ts: Seq<Tok>, before: Seq<FromTree>, p: int) -> Found<Seq<FromTree>>
    decreases ts.len() - p, 24int,
{
    match onward(from_at(ts, p), ts, p) {
        Ok((x, q)) => if tok(ts, q) is Comma {
            froms_at(ts, before.push(x), q + 1)
        } else {
            Ok((before.push(x), q))
        },
        Err(e) => Err(e),
    }
}

/// A table by name, or a query in brackets.
pub open spec fn from_at(ts: Seq<Tok>, p: int) -> Found<FromTree>
    decreases ts.len() - p, 23int,
{
    if tok(ts, p) is LParen && is_kw(ts, p + 1, "SELECT"@) {
        match onward(nested_at(ts, p), ts, p) {
            Ok((sub, q)) => match alias_at(ts, q) {
                Ok((alias, s)) => Ok((FromTree::Derived(Box::new(sub), alias), s)),
                Err(e) => Err(e),
            },
            Err(e) => Err(e),
        }
    } else {
        match onward(ident_at(ts, p), ts, p) {
            Ok((name, q)) => match alias_at(ts, q) {
                Ok((alias, s)) => Ok((FromTree::Table(name, alias), s)),
                Err(e) => Err(e),
            },
            Err(e) => Err(e),
        }
    }
}

/// The words that a join begins with: what kind of join it is, and the place of
/// its table.
pub open spec fn join_words(ts: Seq<Tok>, p: int) -> Found<Option<JoinType2>> {
    let left = is_word(ts, p, "LEFT"@);
    let inner = is_word(ts, p, "INNER"@);
    let at = if left && is_word(ts, p + 1, "OUTER"@) {
        p + 2
    } else if left || inner {
        p + 1
    } else {
        p
    };
    if is_kw(ts, at, "JOIN"@) {
        Ok(
            (
                Some(
                    if left {
                        JoinType2::Left
                    } else {
                        JoinType2::Inner
                    },
                ),
                at + 1,
            ),
        )
    } else if left || inner {
        bad("expected keyword JOIN"@, at)
    } else {
        Ok((None, p))
    }
}

/// Joins behind the tables.
pub open spec fn joins_at(ts: Seq<Tok>, before: Seq<JoinTree>, p: int) -> Found<Seq<JoinTree>>
    decreases ts.len() - p, 25int,
{
    match join_words(ts, p) {
        Ok((Some(join_type), q)) => match onward(join_at(ts, join_type, q), ts, q) {
            Ok((j, s)) => joins_at(ts, before.push(j), s),
            Err(e) => Err(e),
        },
        Ok((None, q)) => Ok((before, q)),
        Err(e) => Err(e),
    }
}

/// A table and the condition it is joined on.
pub open spec fn join_at(ts: Seq<Tok>, join_type: JoinType2, p: int) -> Found<JoinTree>
    decreases ts.len() - p, 24int,
{
    match onward(from_at(ts, p), ts, p) {
        Ok((table, q)) => if is_kw(ts, q, "ON"@) {
            match onward(expr_at(ts, q + 1), ts, q + 1) {
                Ok((on, s)) => Ok((JoinTree { join_type, table, on }, s)),
                Err(e) => Err(e),
            }
        } else {
            bad("expected keyword ON"@, q)
        },
        Err(e) => Err(e),
    }
}

/// The query that tokens are, up to a semicolon or the end.
pub open spec fn query_in(ts: Seq<Tok>) -> Result<QueryTree, Bad> {
    match select_at(ts, 0) {
        Ok((q, p)) => if tok(ts, p) is Semicolon || tok(ts, p) is End {
            Ok(q)
        } else {
            Err(Bad { what: "unexpected trailing token"@, at: p })
        },
        Err(e) => Err(e),
    }
}

proof fn lemma_froms_grow(ts: Seq<Tok>, before: Seq<FromTree>, p: int)
    ensures
        froms_at(ts, before, p) matches Ok((from, _)) ==> from.len() > before.len(),
    decreases ts.len() - p,
{
    match onward(from_at(ts, p), ts, p) {
        Ok((x, q)) => {
            if tok(ts, q) is Comma {
                lemma_froms_grow(ts, before.push(x), q + 1);
            }
        },
        Err(_) => {},
    }
}

proof fn lemma_endings_keep_tables(ts: Seq<Tok>, query: QueryTree, p: int)
    ensures
        endings_at(ts, query, p) matches Ok((q, _)) ==> q.from == query.from,
{
    match not_back(clause_at(ts, "HAVING"@, p), ts, p) {
        Ok((having, q)) => {
            let next = QueryTree { having, ..query };
            assert(sorting_at(ts, next, q) matches Ok((r, _)) ==> r.from == next.from);
        },
        Err(_) => {},
    }
}

proof fn lemma_clauses_keep_tables(
    ts: Seq<Tok>,
    select: Seq<ItemTree>,
    from: Seq<FromTree>,
    joins: Seq<JoinTree>,
    p: int,
)
    ensures
        clauses_at(ts, select, from, joins, p) matches Ok((q, _)) ==> q.from == from,
{
    match not_back(clause_at(ts, "WHERE"@, p), ts, p) {
        Ok((where_clause, q)) => match not_back(group_at(ts, q), ts, q) {
            Ok((group_by, s)) => {
                lemma_endings_keep_tables(
                    ts,
                    QueryTree {
                        select,
                        from,
                        joins,
                        where_clause,
                        group_by,
                        having: None,
                        order_by: Seq::empty(),
                        limit: None,
                    },
                    s,
                );
            },
            Err(_) => {},
        },
        Err(_) => {},
    }
}

/// A query has a table.
pub proof fn queries_have_tables(ts: Seq<Tok>)
    ensures
        query_in(ts) matches Ok(q) ==> q.from.len() > 0,
{
    if is_kw(ts, 0, "SELECT"@) {
        let p1: int = if is_kw(ts, 1, "DISTINCT"@) {
            2
        } else {
            1
        };
        match onward(items_at(ts, Seq::empty(), p1), ts, p1) {
            Ok((select, p2)) => {
                lemma_froms_grow(ts, Seq::empty(), p2 + 1);
                match onward(froms_at(ts, Seq::empty(), p2 + 1), ts, p2 + 1) {
                    Ok((from, p3)) => match not_back(joins_at(ts, Seq::empty(), p3), ts, p3) {
                        Ok((joins, p4)) => {
                            lemma_clauses_keep_tables(ts, select, from, joins, p4);
                        },
                        Err(_) => {},
                    },
                    Err(_) => {},
                }
            },
            Err(_) => {},
        }
    }
}

/// The tables of a query are as many as those of its tree.
pub proof fn froms_keep_their_number(es: Seq<FromItem>)
    ensures
        froms_of(es).len() == es.len(),
    decreases es.len(),
{
    if es.len() > 0 {
        froms_keep_their_number(es.drop_last());
    }
}

} // verus!
