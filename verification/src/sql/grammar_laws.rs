//! Expressions written out as tokens, and read back.

use crate::sql::ast::BinOp2;
use crate::sql::grammar::{
    and_at, and_rest, between_rest, comparison_at, comparison_op, comparison_rest, expr_at, in_rest,
    is_kw, is_op, keyword_is, like_rest, list_at, node, not_at, op_is, or_rest, primary_at,
    product_at, product_rest, sum_at, sum_rest, tok, unary_at, word_is, Bad, Tok, Tree,
};
use crate::text::{lower_ascii, lower_char, same_ignoring_case};
use vstd::prelude::*;

verus! {

/// The token of an operation.
pub open spec fn op_token(op: BinOp2) -> Tok {
    match op {
        BinOp2::Add => Tok::Op("+"@),
        BinOp2::Sub => Tok::Op("-"@),
        BinOp2::Mul => Tok::Op("*"@),
        BinOp2::Div => Tok::Op("/"@),
        BinOp2::Eq => Tok::Op("="@),
        BinOp2::Ne => Tok::Op("<>"@),
        BinOp2::Lt => Tok::Op("<"@),
        BinOp2::Gt => Tok::Op(">"@),
        BinOp2::Le => Tok::Op("<="@),
        BinOp2::Ge => Tok::Op(">="@),
        BinOp2::And => Tok::Keyword("AND"@),
        BinOp2::Or => Tok::Keyword("OR"@),
    }
}

/// How tightly an operation binds: the more, the tighter.
pub open spec fn op_level(op: BinOp2) -> int {
    match op {
        BinOp2::Or => 0,
        BinOp2::And => 1,
        BinOp2::Add | BinOp2::Sub => 4,
        BinOp2::Mul | BinOp2::Div => 5,
        _ => 3,
    }
}

/// How tightly an expression holds together.
pub open spec fn tree_level(t: Tree) -> int {
    match t {
        Tree::BinOp { op, left, right } => op_level(op),
        Tree::Not(x) => 2,
        Tree::Like { expr, pattern, negated } => 3,
        Tree::Between { expr, low, high, negated } => 3,
        Tree::InList { expr, list, negated } => 3,
        Tree::Neg(x) => 6,
        _ => 7,
    }
}

/// A token that may stand for `NOT`.
pub open spec fn maybe_not(negated: bool) -> Seq<Tok> {
    if negated {
        seq![Tok::Keyword("NOT"@)]
    } else {
        Seq::empty()
    }
}

/// An expression as tokens, in brackets where it holds together less tightly than its place asks for.
pub open spec fn written(t: Tree, level: int) -> Seq<Tok>
    decreases t, 1int,
{
    if tree_level(t) < level {
        seq![Tok::LParen] + plainly(t) + seq![Tok::RParen]
    } else {
        plainly(t)
    }
}

/// An expression as tokens. Operations of one level are read from the left, and comparisons stand alone.
pub open spec fn plainly(t: Tree) -> Seq<Tok>
    decreases t, 0int,
{
    match t {
        Tree::Int(i) => seq![Tok::Int(i)],
        Tree::Float(b) => seq![Tok::Float(b)],
        Tree::Str(s) => seq![Tok::Str(s)],
        Tree::Col(name) => seq![Tok::Ident(name)],
        Tree::BinOp { op, left, right } => {
            let level = op_level(op);
            let on_left = if level == 3 {
                4
            } else {
                level
            };
            written(*left, on_left) + seq![op_token(op)] + written(*right, level + 1)
        },
        Tree::Not(x) => seq![Tok::Keyword("NOT"@)] + written(*x, 2),
        Tree::Neg(x) => seq![Tok::Op("-"@)] + written(*x, 6),
        Tree::Like { expr, pattern, negated } => written(*expr, 4) + maybe_not(negated) + seq![Tok::Keyword("LIKE"@)]
            + written(*pattern, 4),
        Tree::Between { expr, low, high, negated } => written(*expr, 4) + maybe_not(negated) + seq![
            Tok::Keyword("BETWEEN"@),
        ] + written(*low, 4) + seq![Tok::Keyword("AND"@)] + written(*high, 4),
        Tree::InList { expr, list, negated } => written(*expr, 4) + maybe_not(negated) + seq![
            Tok::Keyword("IN"@),
            Tok::LParen,
        ] + written_list(list, 0) + seq![Tok::RParen],
        _ => Seq::empty(),
    }
}

/// Expressions, from place `k` on, as tokens with commas between them.
pub open spec fn written_list(list: Seq<Tree>, k: nat) -> Seq<Tok>
    decreases list, list.len() - k,
{
    if k >= list.len() {
        Seq::empty()
    } else if k + 1 == list.len() {
        written(list[k as int], 0)
    } else {
        written(list[k as int], 0) + seq![Tok::Comma] + written_list(list, k + 1)
    }
}

/// The expression is made of numbers, texts, names, operations, and tests by pattern, range or list.
pub open spec fn is_writable(t: Tree) -> bool
    decreases t,
{
    match t {
        Tree::Int(_) => true,
        Tree::Float(_) => true,
        Tree::Str(_) => true,
        Tree::Col(name) => !same_ignoring_case(name, "EXISTS"@),
        Tree::BinOp { op, left, right } => is_writable(*left) && is_writable(*right),
        Tree::Not(x) => is_writable(*x),
        Tree::Neg(x) => is_writable(*x),
        Tree::Like { expr, pattern, negated } => is_writable(*expr) && is_writable(*pattern),
        Tree::Between { expr, low, high, negated } => is_writable(*expr) && is_writable(*low) && is_writable(*high),
        Tree::InList { expr, list, negated } => is_writable(*expr) && list.len() > 0 && (forall|k: int|
            0 <= k < list.len() ==> is_writable(#[trigger] list[k])),
        _ => false,
    }
}

/// The tokens stand at a place.
pub open spec fn stand_at(ts: Seq<Tok>, p: int, s: Seq<Tok>) -> bool {
    &&& 0 <= p
    &&& p + s.len() <= ts.len()
    &&& forall|i: int| 0 <= i < s.len() ==> ts[p + i] == #[trigger] s[i]
}

pub proof fn lemma_split(ts: Seq<Tok>, p: int, a: Seq<Tok>, b: Seq<Tok>)
    requires
        stand_at(ts, p, a + b),
    ensures
        stand_at(ts, p, a),
        stand_at(ts, p + a.len(), b),
{
    let s = a + b;
    assert forall|i: int| 0 <= i < a.len() implies ts[p + i] == #[trigger] a[i] by {
        assert(ts[p + i] == s[i]);
    }
    assert forall|i: int| 0 <= i < b.len() implies ts[p + a.len() + i] == #[trigger] b[i] by {
        assert(ts[p + (a.len() + i)] == s[a.len() + i]);
    }
}

pub proof fn lemma_single(ts: Seq<Tok>, p: int, k: Tok)
    requires
        stand_at(ts, p, seq![k]),
    ensures
        0 <= p < ts.len(),
        ts[p] == k,
{
    assert(seq![k][0] == k);
    assert(ts[p + 0] == k);
}

/// The token behind an expression does not go on with it: a name is not called or cut by a dot, and no
/// operation that binds more tightly than the level follows.
pub open spec fn ends_before(k: Tok, level: int) -> bool {
    &&& !(k is LParen)
    &&& !op_is(k, "."@)
    &&& level <= 4 ==> !op_is(k, "*"@) && !op_is(k, "/"@)
    &&& level <= 3 ==> !op_is(k, "+"@) && !op_is(k, "-"@) && comparison_op(k) is None && !word_is(k, "LIKE"@)
        && !word_is(k, "IN"@) && !word_is(k, "BETWEEN"@) && !keyword_is(k, "NOT"@)
    &&& level <= 0 ==> !keyword_is(k, "AND"@)
}

/// What reading at a level gives, where an expression ends at `q`: the expression, or what goes on from it.
spec fn reads(ts: Seq<Tok>, p: int, t: Tree, q: int, level: int) -> bool {
    if level == 0 {
        expr_at(ts, p) == or_rest(ts, t, q)
    } else if level == 1 {
        and_at(ts, p) == and_rest(ts, t, q)
    } else if level == 2 {
        not_at(ts, p) == Ok::<(Tree, int), Bad>((t, q))
    } else if level == 3 {
        comparison_at(ts, p) == Ok::<(Tree, int), Bad>((t, q))
    } else if level == 4 {
        sum_at(ts, p) == sum_rest(ts, t, q)
    } else if level == 5 {
        product_at(ts, p) == product_rest(ts, t, q)
    } else if level == 6 {
        unary_at(ts, p) == Ok::<(Tree, int), Bad>((t, q))
    } else {
        primary_at(ts, p) == Ok::<(Tree, int), Bad>((t, q))
    }
}

/// A token that no expression but `NOT` or `EXISTS` begins with.
pub open spec fn begins_test(k: Tok) -> bool {
    keyword_is(k, "NOT"@) || word_is(k, "EXISTS"@)
}

pub open spec fn begins_sign(k: Tok) -> bool {
    op_is(k, "-"@) || op_is(k, "+"@)
}

/// Going one level up where no operation of that level follows.
proof fn lemma_up(ts: Seq<Tok>, p: int, t: Tree, q: int, level: int)
    requires
        0 <= level <= 6,
        0 <= p < q <= ts.len(),
        reads(ts, p, t, q, level + 1),
        ends_before(tok(ts, q), level),
        level == 2 ==> !begins_test(ts[p]),
        level == 6 ==> !begins_sign(ts[p]),
    ensures
        reads(ts, p, t, q, level),
{
    let k = tok(ts, q);
    if level == 0 {
        assert(and_rest(ts, t, q) == Ok::<(Tree, int), Bad>((t, q)));
    } else if level == 3 {
        assert(sum_rest(ts, t, q) == Ok::<(Tree, int), Bad>((t, q)));
        assert(comparison_rest(ts, t, q) == Ok::<(Tree, int), Bad>((t, q)));
    } else if level == 4 {
        assert(product_rest(ts, t, q) == Ok::<(Tree, int), Bad>((t, q)));
    }
}

proof fn lemma_words()
    ensures
        !same_ignoring_case("AND"@, "LIKE"@),
        !same_ignoring_case("AND"@, "IN"@),
        !same_ignoring_case("AND"@, "BETWEEN"@),
        !same_ignoring_case("OR"@, "LIKE"@),
        !same_ignoring_case("OR"@, "IN"@),
        !same_ignoring_case("OR"@, "BETWEEN"@),
        !same_ignoring_case("LIKE"@, "IN"@),
        !same_ignoring_case("LIKE"@, "BETWEEN"@),
        !same_ignoring_case("BETWEEN"@, "LIKE"@),
        !same_ignoring_case("BETWEEN"@, "IN"@),
        !same_ignoring_case("IN"@, "LIKE"@),
        !same_ignoring_case("IN"@, "BETWEEN"@),
        !same_ignoring_case("NOT"@, "LIKE"@),
        !same_ignoring_case("NOT"@, "IN"@),
        !same_ignoring_case("NOT"@, "BETWEEN"@),
        !same_ignoring_case("NOT"@, "EXISTS"@),
        "AND"@ != "NOT"@,
        "OR"@ != "NOT"@,
        "OR"@ != "AND"@,
        "LIKE"@ != "NOT"@,
        "IN"@ != "NOT"@,
        "BETWEEN"@ != "NOT"@,
{
    reveal_strlit("AND");
    reveal_strlit("OR");
    reveal_strlit("LIKE");
    reveal_strlit("IN");
    reveal_strlit("BETWEEN");
    reveal_strlit("NOT");
    reveal_strlit("EXISTS");
    assert(lower_ascii("AND"@).len() == 3);
    assert(lower_ascii("OR"@).len() == 2);
    assert(lower_ascii("LIKE"@).len() == 4);
    assert(lower_ascii("IN"@).len() == 2);
    assert(lower_ascii("BETWEEN"@).len() == 7);
    assert(lower_ascii("NOT"@).len() == 3);
    assert(lower_ascii("EXISTS"@).len() == 6);
    assert(lower_ascii("OR"@)[0] == lower_char('O'));
    assert(lower_ascii("IN"@)[0] == lower_char('I'));
    assert("AND"@[0] == 'A' && "NOT"@[0] == 'N');
}

spec fn is_sign(s: Seq<char>) -> bool {
    s == "+"@ || s == "-"@ || s == "*"@ || s == "/"@ || s == "."@
}

proof fn lemma_ops()
    ensures
        "+"@ != "-"@,
        "+"@ != "*"@,
        "+"@ != "/"@,
        "+"@ != "."@,
        "-"@ != "*"@,
        "-"@ != "/"@,
        "-"@ != "."@,
        "*"@ != "/"@,
        "*"@ != "."@,
        "/"@ != "."@,
        forall|s: Seq<char>|
            (s == "+"@ || s == "-"@ || s == "*"@ || s == "/"@ || s == "."@) ==> #[trigger] comparison_op(Tok::Op(s)) is None,
        comparison_op(Tok::Op("="@)) == Some(BinOp2::Eq),
        comparison_op(Tok::Op("<>"@)) == Some(BinOp2::Ne),
        comparison_op(Tok::Op("<"@)) == Some(BinOp2::Lt),
        comparison_op(Tok::Op(">"@)) == Some(BinOp2::Gt),
        comparison_op(Tok::Op("<="@)) == Some(BinOp2::Le),
        comparison_op(Tok::Op(">="@)) == Some(BinOp2::Ge),
        !is_sign("="@),
        !is_sign("<>"@),
        !is_sign("<"@),
        !is_sign(">"@),
        !is_sign("<="@),
        !is_sign(">="@),
{
    reveal_strlit("+");
    reveal_strlit("-");
    reveal_strlit("*");
    reveal_strlit("/");
    reveal_strlit(".");
    reveal_strlit("=");
    reveal_strlit("!=");
    reveal_strlit("<>");
    reveal_strlit("<");
    reveal_strlit(">");
    reveal_strlit("<=");
    reveal_strlit(">=");
    assert("+"@[0] == '+' && "-"@[0] == '-' && "*"@[0] == '*' && "/"@[0] == '/' && "."@[0] == '.');
    assert("="@[0] == '=' && "!="@[0] == '!' && "<>"@[0] == '<' && "<>"@[1] == '>' && "<"@[0] == '<' && ">"@[0] == '>');
    assert("<="@[0] == '<' && "<="@[1] == '=' && ">="@[0] == '>' && ">="@[1] == '=' && "!="@[1] == '=');
    assert("="@.len() == 1 && "<"@.len() == 1 && ">"@.len() == 1 && "<>"@.len() == 2 && "<="@.len() == 2 && ">="@.len() == 2
        && "!="@.len() == 2);
}

/// The token of an operation ends what stands to its left.
proof fn lemma_op_ends(op: BinOp2)
    ensures
        op_level(op) == 5 ==> ends_before(op_token(op), 5),
        op_level(op) == 4 ==> ends_before(op_token(op), 4),
        op_level(op) == 3 ==> ends_before(op_token(op), 4) && !op_is(op_token(op), "+"@) && !op_is(op_token(op), "-"@)
            && comparison_op(op_token(op)) == Some(op),
        op_level(op) == 1 ==> ends_before(op_token(op), 1),
        op_level(op) == 0 ==> ends_before(op_token(op), 0),
{
    reveal(op_is);
    reveal(word_is);
    reveal(keyword_is);
    lemma_ops();
    lemma_words();
    match op {
        BinOp2::Add => {
            assert(comparison_op(Tok::Op("+"@)) is None);
        },
        BinOp2::Sub => {
            assert(comparison_op(Tok::Op("-"@)) is None);
        },
        BinOp2::Mul => {},
        BinOp2::Div => {},
        BinOp2::And => {},
        BinOp2::Or => {},
        BinOp2::Eq => {},
        BinOp2::Ne => {},
        BinOp2::Lt => {},
        BinOp2::Gt => {},
        BinOp2::Le => {},
        BinOp2::Ge => {},
    }
}

/// What an expression begins with.
pub proof fn lemma_begins(t: Tree, level: int)
    requires
        is_writable(t),
        0 <= level <= 6,
    ensures
        written(t, level).len() > 0,
        plainly(t).len() > 0,
        !keyword_is(written(t, level)[0], "SELECT"@),
        !keyword_is(plainly(t)[0], "SELECT"@),
        level >= 3 || tree_level(t) >= 3 ==> !begins_test(written(t, level)[0]),
        tree_level(t) >= 3 ==> !begins_test(plainly(t)[0]),
        tree_level(t) == 7 ==> !begins_sign(plainly(t)[0]),
    decreases t,
{
    reveal(op_is);
    reveal(word_is);
    reveal(keyword_is);
    reveal_strlit("SELECT");
    reveal_strlit("NOT");
    assert("SELECT"@.len() == 6 && "NOT"@.len() == 3);
    match t {
        Tree::BinOp { op, left, right } => {
            let l: int = if op_level(op) == 3 {
                4
            } else {
                op_level(op)
            };
            lemma_begins(*left, l);
            assert(plainly(t)[0] == written(*left, l)[0]);
        },
        Tree::Like { expr, pattern, negated } => {
            lemma_begins(*expr, 4);
            assert(plainly(t)[0] == written(*expr, 4)[0]);
        },
        Tree::Between { expr, low, high, negated } => {
            lemma_begins(*expr, 4);
            assert(plainly(t)[0] == written(*expr, 4)[0]);
        },
        Tree::InList { expr, list, negated } => {
            lemma_begins(*expr, 4);
            assert(plainly(t)[0] == written(*expr, 4)[0]);
        },
        Tree::Not(x) => {
            assert(plainly(t)[0] == Tok::Keyword("NOT"@));
        },
        Tree::Neg(x) => {
            assert(plainly(t)[0] == Tok::Op("-"@));
        },
        _ => {},
    }
    if tree_level(t) < level {
        assert(written(t, level)[0] == Tok::LParen);
    }
}

/// An expression in brackets is read as what stands in them, at every level.
proof fn lemma_bracketed(ts: Seq<Tok>, p: int, t: Tree, q: int, level: int)
    requires
        0 <= level <= 7,
        0 <= p < q <= ts.len(),
        ts[p] is LParen,
        primary_at(ts, p) == Ok::<(Tree, int), Bad>((t, q)),
        ends_before(tok(ts, q), level),
    ensures
        reads(ts, p, t, q, level),
    decreases 7 - level,
{
    if level < 7 {
        lemma_bracketed(ts, p, t, q, level + 1);
        assert(!begins_test(ts[p]) && !begins_sign(ts[p])) by {
            reveal(op_is);
            reveal(word_is);
            reveal(keyword_is);
        }
        lemma_up(ts, p, t, q, level);
    }
}

proof fn lemma_bracket_ends()
    ensures
        ends_before(Tok::RParen, 0),
        ends_before(Tok::Comma, 0),
        ends_before(Tok::End, 0),
        !keyword_is(Tok::RParen, "OR"@),
        !keyword_is(Tok::Comma, "OR"@),
        !keyword_is(Tok::End, "OR"@),
{
    reveal(op_is);
    reveal(word_is);
    reveal(keyword_is);
}

proof fn lemma_written_reads(ts: Seq<Tok>, p: int, t: Tree, level: int)
    requires
        is_writable(t),
        0 <= level <= 6,
        stand_at(ts, p, written(t, level)),
        ends_before(tok(ts, p + written(t, level).len()), level),
    ensures
        reads(ts, p, t, p + written(t, level).len(), level),
        written(t, level).len() > 0,
    decreases t, 20int,
{
    lemma_begins(t, level);
    let s = plainly(t);
    if tree_level(t) < level {
        lemma_split(ts, p, seq![Tok::LParen] + s, seq![Tok::RParen]);
        lemma_split(ts, p, seq![Tok::LParen], s);
        lemma_single(ts, p, Tok::LParen);
        lemma_single(ts, p + 1 + s.len(), Tok::RParen);
        lemma_bracket_ends();
        let e = p + 1 + s.len();
        assert(tok(ts, e) is RParen);
        lemma_plainly_reads(ts, p + 1, t, 0);
        assert(ts[p + 1] == s[0]) by {
            assert(ts[p + 1 + 0] == s[0]);
        }
        assert(expr_at(ts, p + 1) == Ok::<(Tree, int), Bad>((t, e)));
        assert(primary_at(ts, p) == Ok::<(Tree, int), Bad>((t, e + 1)));
        lemma_bracketed(ts, p, t, e + 1, level);
    } else {
        lemma_plainly_reads(ts, p, t, level);
    }
}

proof fn lemma_plainly_reads(ts: Seq<Tok>, p: int, t: Tree, level: int)
    requires
        is_writable(t),
        0 <= level <= tree_level(t),
        stand_at(ts, p, plainly(t)),
        ends_before(tok(ts, p + plainly(t).len()), level),
    ensures
        reads(ts, p, t, p + plainly(t).len(), level),
    decreases t, 10 - level,
{
    lemma_begins(t, 0);
    let s = plainly(t);
    let q = p + s.len();
    assert(ts[p] == s[0]) by {
        assert(ts[p + 0] == s[0]);
    }
    if level < tree_level(t) {
        lemma_plainly_reads(ts, p, t, level + 1);
        lemma_up(ts, p, t, q, level);
    } else {
        match t {
            Tree::BinOp { op, left, right } => {
                lemma_operation_reads(ts, p, op, *left, *right);
            },
            Tree::Not(x) => {
                lemma_split(ts, p, seq![Tok::Keyword("NOT"@)], written(*x, 2));
                lemma_written_reads(ts, p + 1, *x, 2);
                lemma_begins(*x, 2);
                assert(ts[p + 1] == written(*x, 2)[0]) by {
                    assert(ts[p + 1 + 0] == written(*x, 2)[0]);
                }
                lemma_not_exists(*x);
                assert(is_kw(ts, p, "NOT"@)) by {
                    reveal(keyword_is);
                }
            },
            Tree::Neg(x) => {
                lemma_split(ts, p, seq![Tok::Op("-"@)], written(*x, 6));
                lemma_written_reads(ts, p + 1, *x, 6);
                assert(is_op(ts, p, "-"@)) by {
                    reveal(op_is);
                }
            },
            Tree::Like { expr, pattern, negated } => {
                lemma_like_reads(ts, p, t);
            },
            Tree::Between { expr, low, high, negated } => {
                lemma_between_reads(ts, p, t);
            },
            Tree::InList { expr, list, negated } => {
                lemma_in_reads(ts, p, t);
            },
            _ => {},
        }
    }
}

/// No expression begins with `EXISTS`.
proof fn lemma_not_exists(t: Tree)
    requires
        is_writable(t),
    ensures
        !word_is(written(t, 2)[0], "EXISTS"@),
    decreases t,
{
    reveal(word_is);
    lemma_words();
    lemma_begins(t, 2);
    if tree_level(t) < 2 {
        assert(written(t, 2)[0] == Tok::LParen);
    } else if tree_level(t) == 2 {
        assert(plainly(t)[0] == Tok::Keyword("NOT"@));
    }
}

proof fn lemma_operation_reads(ts: Seq<Tok>, p: int, op: BinOp2, left: Tree, right: Tree)
    requires
        is_writable(left),
        is_writable(right),
        stand_at(ts, p, plainly(node(op, left, right))),
        ends_before(tok(ts, p + plainly(node(op, left, right)).len()), op_level(op)),
    ensures
        reads(ts, p, node(op, left, right), p + plainly(node(op, left, right)).len(), op_level(op)),
    decreases node(op, left, right), 2int,
{
    let level = op_level(op);
    let l: int = if level == 3 {
        4
    } else {
        level
    };
    let t = node(op, left, right);
    let a = written(left, l);
    let b = written(right, level + 1);
    assert(plainly(t) == a + seq![op_token(op)] + b);
    let q1 = p + a.len();
    let q = p + plainly(t).len();
    lemma_split(ts, p, a + seq![op_token(op)], b);
    lemma_split(ts, p, a, seq![op_token(op)]);
    lemma_single(ts, q1, op_token(op));
    lemma_op_ends(op);
    assert(tok(ts, q1) == op_token(op));
    assert(q == q1 + 1 + b.len());
    lemma_written_reads(ts, p, left, l);
    lemma_written_reads(ts, q1 + 1, right, level + 1);
    reveal(op_is);
    reveal(keyword_is);
    lemma_ops();
    if level == 5 {
        assert(product_rest(ts, left, q1) == product_rest(ts, t, q));
    } else if level == 4 {
        assert(product_rest(ts, right, q) == Ok::<(Tree, int), Bad>((right, q)));
        assert(sum_rest(ts, left, q1) == sum_rest(ts, t, q));
    } else if level == 3 {
        assert(sum_rest(ts, left, q1) == Ok::<(Tree, int), Bad>((left, q1)));
        assert(sum_rest(ts, right, q) == Ok::<(Tree, int), Bad>((right, q)));
        assert(comparison_rest(ts, left, q1) == Ok::<(Tree, int), Bad>((t, q)));
    } else if level == 1 {
        assert(and_rest(ts, left, q1) == and_rest(ts, t, q));
    } else {
        assert(and_rest(ts, right, q) == Ok::<(Tree, int), Bad>((right, q)));
        assert(or_rest(ts, left, q1) == or_rest(ts, t, q));
    }
}

/// A word behind an expression ends it.
proof fn lemma_word_ends(word: Seq<char>)
    requires
        word == "LIKE"@ || word == "BETWEEN"@ || word == "IN"@ || word == "NOT"@ || word == "AND"@,
    ensures
        ends_before(Tok::Keyword(word), 4),
        !op_is(Tok::Keyword(word), "+"@),
        !op_is(Tok::Keyword(word), "-"@),
        comparison_op(Tok::Keyword(word)) is None,
{
    reveal(op_is);
}

/// The expression to the left of a test, and what comes behind it.
proof fn lemma_tested(ts: Seq<Tok>, p: int, x: Tree, negated: bool, word: Seq<char>)
    requires
        is_writable(x),
        word == "LIKE"@ || word == "BETWEEN"@ || word == "IN"@,
        stand_at(ts, p, written(x, 4) + maybe_not(negated) + seq![Tok::Keyword(word)]),
    ensures
        ({
            let q = p + written(x, 4).len();
            let r = q + maybe_not(negated).len();
            &&& comparison_at(ts, p) == comparison_rest(ts, x, q)
            &&& 0 <= p < q <= r < ts.len()
            &&& ts[r] == Tok::Keyword(word)
            &&& negated ==> r == q + 1 && ts[q] == Tok::Keyword("NOT"@)
            &&& !negated ==> r == q
        }),
    decreases x, 30int,
{
    let a = written(x, 4);
    let m = maybe_not(negated);
    let q = p + a.len();
    lemma_split(ts, p, a + m, seq![Tok::Keyword(word)]);
    lemma_split(ts, p, a, m);
    lemma_single(ts, q + m.len(), Tok::Keyword(word));
    if negated {
        lemma_single(ts, q, Tok::Keyword("NOT"@));
    }
    lemma_word_ends(word);
    lemma_word_ends("NOT"@);
    lemma_written_reads(ts, p, x, 4);
    assert(sum_rest(ts, x, q) == Ok::<(Tree, int), Bad>((x, q)));
}

proof fn lemma_rest_by_word(ts: Seq<Tok>, x: Tree, q: int, r: int, negated: bool, word: Seq<char>)
    requires
        0 <= q <= r < ts.len(),
        word == "LIKE"@ || word == "BETWEEN"@ || word == "IN"@,
        ts[r] == Tok::Keyword(word),
        negated ==> r == q + 1 && ts[q] == Tok::Keyword("NOT"@),
        !negated ==> r == q,
    ensures
        word == "LIKE"@ ==> comparison_rest(ts, x, q) == like_rest(ts, x, negated, r + 1),
        word == "BETWEEN"@ ==> comparison_rest(ts, x, q) == between_rest(ts, x, negated, r + 1),
        word == "IN"@ ==> comparison_rest(ts, x, q) == in_rest(ts, x, negated, r + 1),
{
    reveal(word_is);
    reveal(keyword_is);
    lemma_words();
    lemma_word_ends(word);
    lemma_word_ends("NOT"@);
}

proof fn lemma_like_reads(ts: Seq<Tok>, p: int, t: Tree)
    requires
        t is Like,
        is_writable(t),
        stand_at(ts, p, plainly(t)),
        ends_before(tok(ts, p + plainly(t).len()), 3),
    ensures
        reads(ts, p, t, p + plainly(t).len(), 3),
    decreases t, 2int,
{
    let x = *t->Like_expr;
    let pattern = *t->pattern;
    let negated = t->Like_negated;
    let a = written(x, 4) + maybe_not(negated) + seq![Tok::Keyword("LIKE"@)];
    let b = written(pattern, 4);
    assert(plainly(t) == a + b);
    lemma_split(ts, p, a, b);
    lemma_tested(ts, p, x, negated, "LIKE"@);
    let q = p + written(x, 4).len();
    let r = q + maybe_not(negated).len();
    lemma_rest_by_word(ts, x, q, r, negated, "LIKE"@);
    lemma_written_reads(ts, r + 1, pattern, 4);
    let e = r + 1 + b.len();
    assert(sum_rest(ts, pattern, e) == Ok::<(Tree, int), Bad>((pattern, e)));
}

#[verifier::rlimit(60)]
#[verifier::spinoff_prover]
proof fn lemma_between_reads(ts: Seq<Tok>, p: int, t: Tree)
    requires
        t is Between,
        is_writable(t),
        stand_at(ts, p, plainly(t)),
        ends_before(tok(ts, p + plainly(t).len()), 3),
    ensures
        reads(ts, p, t, p + plainly(t).len(), 3),
    decreases t, 2int,
{
    let x = *t->Between_expr;
    let low = *t->low;
    let high = *t->high;
    let negated = t->Between_negated;
    let a = written(x, 4) + maybe_not(negated) + seq![Tok::Keyword("BETWEEN"@)];
    let b = written(low, 4);
    let d = written(high, 4);
    assert(plainly(t) == a + b + seq![Tok::Keyword("AND"@)] + d);
    lemma_split(ts, p, a + b + seq![Tok::Keyword("AND"@)], d);
    lemma_split(ts, p, a + b, seq![Tok::Keyword("AND"@)]);
    lemma_split(ts, p, a, b);
    lemma_tested(ts, p, x, negated, "BETWEEN"@);
    let q = p + written(x, 4).len();
    let r = q + maybe_not(negated).len();
    lemma_rest_by_word(ts, x, q, r, negated, "BETWEEN"@);
    let m = r + 1 + b.len();
    lemma_single(ts, m, Tok::Keyword("AND"@));
    lemma_word_ends("AND"@);
    lemma_written_reads(ts, r + 1, low, 4);
    assert(sum_rest(ts, low, m) == Ok::<(Tree, int), Bad>((low, m)));
    lemma_written_reads(ts, m + 1, high, 4);
    let e = m + 1 + d.len();
    assert(sum_rest(ts, high, e) == Ok::<(Tree, int), Bad>((high, e)));
    assert(is_kw(ts, m, "AND"@)) by {
        reveal(keyword_is);
    }
    assert(between_rest(ts, x, negated, r + 1) == Ok::<(Tree, int), Bad>((t, e)));
}

#[verifier::rlimit(60)]
#[verifier::spinoff_prover]
proof fn lemma_in_reads(ts: Seq<Tok>, p: int, t: Tree)
    requires
        t is InList,
        is_writable(t),
        stand_at(ts, p, plainly(t)),
    ensures
        reads(ts, p, t, p + plainly(t).len(), 3),
    decreases t, 2int,
{
    let x = *t->InList_expr;
    let list = t->list;
    let negated = t->InList_negated;
    let a = written(x, 4) + maybe_not(negated) + seq![Tok::Keyword("IN"@)];
    let b = written_list(list, 0);
    assert(plainly(t) =~= a + seq![Tok::LParen] + b + seq![Tok::RParen]);
    lemma_split(ts, p, a + seq![Tok::LParen] + b, seq![Tok::RParen]);
    lemma_split(ts, p, a + seq![Tok::LParen], b);
    lemma_split(ts, p, a, seq![Tok::LParen]);
    lemma_tested(ts, p, x, negated, "IN"@);
    let q = p + written(x, 4).len();
    let r = q + maybe_not(negated).len();
    lemma_rest_by_word(ts, x, q, r, negated, "IN"@);
    lemma_single(ts, r + 1, Tok::LParen);
    let e = r + 2 + b.len();
    lemma_single(ts, e, Tok::RParen);
    lemma_list_reads(ts, r + 2, list, 0, Seq::empty());
    lemma_begins(list[0], 0);
    assert(b[0] == written(list[0], 0)[0]);
    assert(ts[r + 2] == b[0]) by {
        assert(ts[r + 2 + 0] == b[0]);
    }
    assert(Seq::<Tree>::empty() + list.skip(0) =~= list);
    assert(!is_kw(ts, r + 2, "SELECT"@));
    assert(in_rest(ts, x, negated, r + 1) == Ok::<(Tree, int), Bad>((t, e + 1)));
}

proof fn lemma_list_reads(ts: Seq<Tok>, p: int, list: Seq<Tree>, k: nat, before: Seq<Tree>)
    requires
        k < list.len(),
        forall|i: int| 0 <= i < list.len() ==> is_writable(#[trigger] list[i]),
        stand_at(ts, p, written_list(list, k)),
        tok(ts, p + written_list(list, k).len()) is RParen,
    ensures
        list_at(ts, before, p) == Ok::<(Seq<Tree>, int), Bad>(
            (before + list.skip(k as int), p + written_list(list, k).len()),
        ),
        written_list(list, k).len() > 0,
    decreases list, list.len() - k,
{
    let x = list[k as int];
    let a = written(x, 0);
    lemma_bracket_ends();
    if k + 1 == list.len() {
        lemma_written_reads(ts, p, x, 0);
        assert(before.push(x) =~= before + list.skip(k as int));
        assert(expr_at(ts, p) == Ok::<(Tree, int), Bad>((x, p + a.len())));
    } else {
        let b = written_list(list, k + 1);
        lemma_split(ts, p, a + seq![Tok::Comma], b);
        lemma_split(ts, p, a, seq![Tok::Comma]);
        lemma_single(ts, p + a.len(), Tok::Comma);
        lemma_written_reads(ts, p, x, 0);
        assert(expr_at(ts, p) == Ok::<(Tree, int), Bad>((x, p + a.len())));
        lemma_list_reads(ts, p + a.len() + 1, list, k + 1, before.push(x));
        assert(before.push(x) + list.skip((k + 1) as int) =~= before + list.skip(k as int));
    }
}

/// An expression that is written out as tokens is read back as itself, whatever stands behind it, if that
/// does not go on with it. No brackets are needed but those round operations that hold together less
/// tightly than their place asks for.
pub proof fn expressions_are_read_back(ts: Seq<Tok>, p: int, t: Tree)
    requires
        is_writable(t),
        stand_at(ts, p, written(t, 0)),
        ends_before(tok(ts, p + written(t, 0).len()), 0),
        !keyword_is(tok(ts, p + written(t, 0).len()), "OR"@),
    ensures
        expr_at(ts, p) == Ok::<(Tree, int), Bad>((t, p + written(t, 0).len())),
{
    lemma_written_reads(ts, p, t, 0);
}

} // verus!
