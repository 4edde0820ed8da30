//! Queries as trees.

use vstd::prelude::*;

verus! {

/// What the cells of a column mean.
#[derive(Clone, Copy, Debug, PartialEq, Eq, Structural)]
pub enum ColType {
    Int,
    Float,
    Date,
    String,
}

#[derive(Clone, Copy, Debug, PartialEq, Eq, Structural)]
pub enum BinOp2 {
    Add,
    Sub,
    Mul,
    Div,
    Eq,
    Ne,
    Lt,
    Gt,
    Le,
    Ge,
    And,
    Or,
}

#[derive(Clone, Copy, Debug, PartialEq, Eq, Structural)]
pub enum AggFunc {
    Sum,
    Avg,
    Count,
    Min,
    Max,
    CountDistinct,
}

#[derive(Clone, Copy, Debug, PartialEq, Eq, Structural)]
pub enum JoinType2 {
    Inner,
    Left,
}

/// An expression. A double is held as its bit pattern.
#[derive(Debug)]
pub enum Expr2 {
    Col(String),
    Int(i64),
    Float(u64),
    Str(String),
    Date(i32),
    BinOp { op: BinOp2, left: Box<Expr2>, right: Box<Expr2> },
    Like { expr: Box<Expr2>, pattern: Box<Expr2>, negated: bool },
    Between { expr: Box<Expr2>, low: Box<Expr2>, high: Box<Expr2>, negated: bool },
    InList { expr: Box<Expr2>, list: Vec<Expr2>, negated: bool },
    InSubquery { expr: Box<Expr2>, query: Box<SelectQuery2>, negated: bool },
    Exists { query: Box<SelectQuery2>, negated: bool },
    Case { whens: Vec<(Expr2, Expr2)>, else_: Option<Box<Expr2>> },
    Extract { field: String, expr: Box<Expr2> },
    Substr { expr: Box<Expr2>, start: Box<Expr2>, len: Box<Expr2> },
    Agg { func: AggFunc, arg: Box<Expr2>, distinct: bool },
    CountStar,
    Subquery(Box<SelectQuery2>),
    Not(Box<Expr2>),
    Neg(Box<Expr2>),
}

/// A table by name, and the name it goes by in the query.
#[derive(Debug)]
pub struct TableRef {
    pub name: String,
    pub alias: Option<String>,
}

/// Where rows come from.
#[derive(Debug)]
pub enum FromItem {
    Table(TableRef),
    Derived(Box<SelectQuery2>, Option<String>),
}

#[derive(Debug)]
pub struct JoinClause2 {
    pub join_type: JoinType2,
    pub table: FromItem,
    pub on: Expr2,
}

#[derive(Debug)]
pub struct SelectItem2 {
    pub expr: Expr2,
    pub alias: Option<String>,
}

/// A query.
#[derive(Debug)]
pub struct SelectQuery2 {
    pub select: Vec<SelectItem2>,
    pub from: Vec<FromItem>,
    pub joins: Vec<JoinClause2>,
    pub where_clause: Option<Expr2>,
    pub group_by: Vec<Expr2>,
    pub having: Option<Expr2>,
    pub order_by: Vec<(Expr2, bool)>,
    pub limit: Option<usize>,
}

/// The comparison that holds with its sides exchanged.
pub open spec fn swapped(op: BinOp2) -> BinOp2 {
    match op {
        BinOp2::Lt => BinOp2::Gt,
        BinOp2::Le => BinOp2::Ge,
        BinOp2::Gt => BinOp2::Lt,
        BinOp2::Ge => BinOp2::Le,
        other => other,
    }
}

pub fn swap_op(op: BinOp2) -> (r: BinOp2)
    ensures
        r == swapped(op),
{
    match op {
        BinOp2::Lt => BinOp2::Gt,
        BinOp2::Le => BinOp2::Ge,
        BinOp2::Gt => BinOp2::Lt,
        BinOp2::Ge => BinOp2::Le,
        other => other,
    }
}

/// Exchanging the sides twice changes nothing.
pub proof fn swap_is_an_involution(op: BinOp2)
    ensures
        swapped(swapped(op)) == op,
{
}

} // verus!
