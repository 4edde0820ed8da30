//! Trees have the shape of the expressions and queries that they stand for.

use crate::sql::ast::{Expr2, FromItem, JoinClause2, SelectItem2, SelectQuery2};
use crate::sql::grammar::{
    branches_of, from_of, froms_of, item_of, items_of, join_of, joins_of, orders_of, query_of,
    tree_of, trees_of, FromTree, Tree,
};
use vstd::prelude::*;

verus! {

/// The tree of an operation, a negation, a test or a call is that of its parts.
pub proof fn trees_mirror_expressions(e: Expr2)
    ensures
        match e {
            Expr2::Col(n) => tree_of(e) == Tree::Col(n@),
            Expr2::Int(i) => tree_of(e) == Tree::Int(i),
            Expr2::Float(b) => tree_of(e) == Tree::Float(b),
            Expr2::Str(s) => tree_of(e) == Tree::Str(s@),
            Expr2::Date(d) => tree_of(e) == Tree::Date(d),
            Expr2::BinOp { op, left, right } => tree_of(e) is BinOp && tree_of(e)->op == op && *tree_of(e)->left
                == tree_of(*left) && *tree_of(e)->right == tree_of(*right),
            Expr2::Like { expr, pattern, negated } => tree_of(e) is Like && *tree_of(e)->Like_expr == tree_of(*expr)
                && *tree_of(e)->pattern == tree_of(*pattern) && tree_of(e)->Like_negated == negated,
            Expr2::Between { expr, low, high, negated } => tree_of(e) is Between && *tree_of(e)->Between_expr == tree_of(
                *expr,
            ) && *tree_of(e)->low == tree_of(*low) && *tree_of(e)->high == tree_of(*high) && tree_of(e)->Between_negated
                == negated,
            Expr2::InList { expr, list, negated } => tree_of(e) is InList && *tree_of(e)->InList_expr == tree_of(*expr)
                && tree_of(e)->list == trees_of(list@) && tree_of(e)->InList_negated == negated,
            Expr2::InSubquery { expr, query, negated } => tree_of(e) is InSubquery && *tree_of(e)->InSubquery_expr
                == tree_of(*expr) && *tree_of(e)->InSubquery_query == query_of(*query) && tree_of(e)->InSubquery_negated
                == negated,
            Expr2::Exists { query, negated } => tree_of(e) is Exists && *tree_of(e)->Exists_query == query_of(*query)
                && tree_of(e)->Exists_negated == negated,
            Expr2::Case { whens, else_ } => tree_of(e) is Case && tree_of(e)->whens == branches_of(whens@) && (tree_of(
                e,
            )->else_ is Some <==> else_ is Some) && (else_ matches Some(x) ==> *tree_of(e)->else_->0 == tree_of(*x)),
            Expr2::Extract { field, expr } => tree_of(e) is Extract && tree_of(e)->field == field@ && *tree_of(
                e,
            )->Extract_expr == tree_of(*expr),
            Expr2::Substr { expr, start, len } => tree_of(e) is Substr && *tree_of(e)->Substr_expr == tree_of(*expr)
                && *tree_of(e)->start == tree_of(*start) && *tree_of(e)->len == tree_of(*len),
            Expr2::Agg { func, arg, distinct } => tree_of(e) is Agg && tree_of(e)->func == func && *tree_of(e)->arg
                == tree_of(*arg) && tree_of(e)->distinct == distinct,
            Expr2::CountStar => tree_of(e) == Tree::CountStar,
            Expr2::Subquery(q) => tree_of(e) is Subquery && *tree_of(e)->Subquery_0 == query_of(*q),
            Expr2::Not(x) => tree_of(e) is Not && *tree_of(e)->Not_0 == tree_of(*x),
            Expr2::Neg(x) => tree_of(e) is Neg && *tree_of(e)->Neg_0 == tree_of(*x),
        },
{
}

/// The tree of a query has its parts where the query has them.
pub proof fn query_trees_mirror_queries(q: SelectQuery2)
    ensures
        query_of(q).select == items_of(q.select@),
        query_of(q).from == froms_of(q.from@),
        query_of(q).joins == joins_of(q.joins@),
        query_of(q).where_clause is Some <==> q.where_clause is Some,
        q.where_clause matches Some(e) ==> query_of(q).where_clause == Some(tree_of(e)),
        query_of(q).group_by == trees_of(q.group_by@),
        query_of(q).having is Some <==> q.having is Some,
        q.having matches Some(e) ==> query_of(q).having == Some(tree_of(e)),
        query_of(q).order_by == orders_of(q.order_by@),
        query_of(q).limit == q.limit,
{
}

/// The tree of an item has its expression and its alias, that of a table its name and alias, and that of a join
/// its table, condition and type.
pub proof fn part_trees_mirror_parts(i: SelectItem2, t: FromItem, j: JoinClause2)
    ensures
        item_of(i).expr == tree_of(i.expr),
        i.alias matches Some(a) ==> item_of(i).alias == Some(a@),
        i.alias is None ==> item_of(i).alias is None,
        t matches FromItem::Table(x) ==> (from_of(t) matches FromTree::Table(name, alias) && name == x.name@ && (
        x.alias matches Some(a) ==> alias == Some(a@)) && (x.alias is None ==> alias is None)),
        t matches FromItem::Derived(q, a) ==> (from_of(t) matches FromTree::Derived(s, alias) && *s == query_of(*q) && (
        a matches Some(b) ==> alias == Some(b@)) && (a is None ==> alias is None)),
        join_of(j).join_type == j.join_type,
        join_of(j).table == from_of(j.table),
        join_of(j).on == tree_of(j.on),
{
}

/// The trees of lists of expressions are those of their entries, in their order.
pub proof fn trees_of_entries(es: Seq<Expr2>, i: int)
    requires
        0 <= i < es.len(),
    ensures
        trees_of(es).len() == es.len(),
        trees_of(es)[i] == tree_of(es[i]),
    decreases es.len(),
{
    if es.len() > 1 {
        trees_of_entries(es.drop_last(), if i < es.len() - 1 {
            i
        } else {
            0
        });
    } else {
        assert(trees_of(es.drop_last()).len() == 0);
    }
}

/// The trees of branches are those of their entries, in their order.
pub proof fn branches_of_entries(es: Seq<(Expr2, Expr2)>, i: int)
    requires
        0 <= i < es.len(),
    ensures
        branches_of(es).len() == es.len(),
        branches_of(es)[i] == (tree_of(es[i].0), tree_of(es[i].1)),
    decreases es.len(),
{
    if es.len() > 1 {
        branches_of_entries(es.drop_last(), if i < es.len() - 1 {
            i
        } else {
            0
        });
    } else {
        assert(branches_of(es.drop_last()).len() == 0);
    }
}

/// The trees of selected items are those of their entries, in their order.
pub proof fn items_of_entries(es: Seq<SelectItem2>, i: int)
    requires
        0 <= i < es.len(),
    ensures
        items_of(es).len() == es.len(),
        items_of(es)[i] == item_of(es[i]),
    decreases es.len(),
{
    if es.len() > 1 {
        items_of_entries(es.drop_last(), if i < es.len() - 1 {
            i
        } else {
            0
        });
    } else {
        assert(items_of(es.drop_last()).len() == 0);
    }
}

/// The trees of listed tables are those of their entries, in their order.
pub proof fn froms_of_entries(es: Seq<FromItem>, i: int)
    requires
        0 <= i < es.len(),
    ensures
        froms_of(es).len() == es.len(),
        froms_of(es)[i] == from_of(es[i]),
    decreases es.len(),
{
    if es.len() > 1 {
        froms_of_entries(es.drop_last(), if i < es.len() - 1 {
            i
        } else {
            0
        });
    } else {
        assert(froms_of(es.drop_last()).len() == 0);
    }
}

/// The trees of joins are those of their entries, in their order.
pub proof fn joins_of_entries(es: Seq<JoinClause2>, i: int)
    requires
        0 <= i < es.len(),
    ensures
        joins_of(es).len() == es.len(),
        joins_of(es)[i] == join_of(es[i]),
    decreases es.len(),
{
    if es.len() > 1 {
        joins_of_entries(es.drop_last(), if i < es.len() - 1 {
            i
        } else {
            0
        });
    } else {
        assert(joins_of(es.drop_last()).len() == 0);
    }
}

/// The trees of sort keys are those of their entries, in their order.
pub proof fn orders_of_entries(es: Seq<(Expr2, bool)>, i: int)
    requires
        0 <= i < es.len(),
    ensures
        orders_of(es).len() == es.len(),
        orders_of(es)[i] == (tree_of(es[i].0), es[i].1),
    decreases es.len(),
{
    if es.len() > 1 {
        orders_of_entries(es.drop_last(), if i < es.len() - 1 {
            i
        } else {
            0
        });
    } else {
        assert(orders_of(es.drop_last()).len() == 0);
    }
}

} // verus!
