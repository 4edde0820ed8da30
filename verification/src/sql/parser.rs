//! Reading queries from tokens.

use crate::dates::date_to_days;
use crate::sql::ast::{
    AggFunc, BinOp2, Expr2, FromItem, JoinClause2, JoinType2, SelectItem2, SelectQuery2, TableRef,
};
use crate::sql::grammar::{
    alias_at, and_at, and_rest, argument_at, between_rest, bounds_at, called, endings_at,
    sorting_at, item_at, join_words, more_at, branch_trees, call_at, case_at, clause_at, clauses_at,
    comparison_at, comparison_op, date_in, exists_at, expr_at, extract_at, from_at, from_tree,
    froms_at, from_trees, func_of, group_at, ident_at, in_rest, is_kw, is_op, is_word, item_tree,
    keyword_is, op_is, word_is, items_at, item_trees, join_at, join_tree, joins_at, join_trees,
    keys_at, keyword_at, like_rest, limit_at, list_at, name_at, nested_at, not_at, option_tree,
    or_rest, order_at, orders_at, order_trees, primary_at, product_at, product_rest, query_in,
    query_of, query_tree, select_at, substr_at, sum_at, sum_rest, text_of, tok, expr_tree,
    expr_trees, unary_at, upper_ascii, upper_char, whens_at, Bad, Found, FromTree, ItemTree,
    JoinTree, QueryTree, Tok, Tree,
};
use crate::sql::lexer::{tokenize, tokens_in, Token};
use crate::float_bits::is_reader;
use crate::text::{
    all_digits, append_text, chars_of, digits_value, lower_ascii, parse_u64, same_chars,
    same_ignoring_case, same_text, slice_chars, string_of, to_lower,
};
use crate::word::signed_of;
use vstd::prelude::*;

verus! {

/// Why a text is no query, and at which token.
#[derive(Debug)]
pub struct ParseError {
    pub what: String,
    pub at: usize,
}

impl ParseError {
    pub open spec fn view(&self) -> Bad {
        Bad { what: self.what@, at: self.at as int }
    }
}

fn fail(what: &str, at: usize) -> (e: ParseError)
    ensures
        e@ == (Bad { what: what@, at: at as int }),
{
    ParseError { what: what.to_owned(), at }
}

fn no_phrase(at: usize) -> (e: ParseError)
    ensures
        e@ == (Bad { what: "no phrase"@, at: at as int }),
{
    fail("no phrase", at)
}

/// What tokens are.
pub open spec fn tokens_of(tokens: Seq<Token>) -> Seq<Tok> {
    Seq::new(tokens.len(), |i: int| tokens[i]@)
}

/// A reader of tokens.
pub struct TpchParser {
    pub tokens: Vec<Token>,
    pub pos: usize,
}

pub open spec fn got_tree(r: Result<Expr2, ParseError>, f: Found<Tree>, pos: usize) -> bool {
    match r {
        Ok(e) => f == Ok::<(Tree, int), Bad>((expr_tree(e), pos as int)),
        Err(b) => f == Err::<(Tree, int), Bad>(b@),
    }
}

pub open spec fn got_query(r: Result<SelectQuery2, ParseError>, f: Found<QueryTree>, pos: usize) -> bool {
    match r {
        Ok(q) => f == Ok::<(QueryTree, int), Bad>((query_tree(q), pos as int)),
        Err(b) => f == Err::<(QueryTree, int), Bad>(b@),
    }
}

pub open spec fn got_trees(r: Result<Vec<Expr2>, ParseError>, f: Found<Seq<Tree>>, pos: usize) -> bool {
    match r {
        Ok(es) => f == Ok::<(Seq<Tree>, int), Bad>((expr_trees(es@), pos as int)),
        Err(b) => f == Err::<(Seq<Tree>, int), Bad>(b@),
    }
}

pub open spec fn got_name(r: Result<String, ParseError>, f: Found<Seq<char>>, pos: usize) -> bool {
    match r {
        Ok(s) => f == Ok::<(Seq<char>, int), Bad>((s@, pos as int)),
        Err(b) => f == Err::<(Seq<char>, int), Bad>(b@),
    }
}

pub open spec fn got_alias(r: Result<Option<String>, ParseError>, f: Found<Option<Seq<char>>>, pos: usize) -> bool {
    match r {
        Ok(s) => f == Ok::<(Option<Seq<char>>, int), Bad>((text_of(s), pos as int)),
        Err(b) => f == Err::<(Option<Seq<char>>, int), Bad>(b@),
    }
}

pub open spec fn got_branches(
    r: Result<Vec<(Expr2, Expr2)>, ParseError>,
    f: Found<Seq<(Tree, Tree)>>,
    pos: usize,
) -> bool {
    match r {
        Ok(s) => f == Ok::<(Seq<(Tree, Tree)>, int), Bad>((branch_trees(s@), pos as int)),
        Err(b) => f == Err::<(Seq<(Tree, Tree)>, int), Bad>(b@),
    }
}

pub open spec fn got_orders(r: Result<Vec<(Expr2, bool)>, ParseError>, f: Found<Seq<(Tree, bool)>>, pos: usize) -> bool {
    match r {
        Ok(s) => f == Ok::<(Seq<(Tree, bool)>, int), Bad>((order_trees(s@), pos as int)),
        Err(b) => f == Err::<(Seq<(Tree, bool)>, int), Bad>(b@),
    }
}

pub open spec fn got_items(r: Result<Vec<SelectItem2>, ParseError>, f: Found<Seq<ItemTree>>, pos: usize) -> bool {
    match r {
        Ok(s) => f == Ok::<(Seq<ItemTree>, int), Bad>((item_trees(s@), pos as int)),
        Err(b) => f == Err::<(Seq<ItemTree>, int), Bad>(b@),
    }
}

pub open spec fn got_item(r: Result<SelectItem2, ParseError>, f: Found<ItemTree>, pos: usize) -> bool {
    match r {
        Ok(s) => f == Ok::<(ItemTree, int), Bad>((item_tree(s), pos as int)),
        Err(b) => f == Err::<(ItemTree, int), Bad>(b@),
    }
}

pub open spec fn got_words(r: Result<Option<JoinType2>, ParseError>, f: Found<Option<JoinType2>>, pos: usize) -> bool {
    match r {
        Ok(s) => f == Ok::<(Option<JoinType2>, int), Bad>((s, pos as int)),
        Err(b) => f == Err::<(Option<JoinType2>, int), Bad>(b@),
    }
}

pub open spec fn got_from(r: Result<FromItem, ParseError>, f: Found<FromTree>, pos: usize) -> bool {
    match r {
        Ok(s) => f == Ok::<(FromTree, int), Bad>((from_tree(s), pos as int)),
        Err(b) => f == Err::<(FromTree, int), Bad>(b@),
    }
}

pub open spec fn got_froms(r: Result<Vec<FromItem>, ParseError>, f: Found<Seq<FromTree>>, pos: usize) -> bool {
    match r {
        Ok(s) => f == Ok::<(Seq<FromTree>, int), Bad>((from_trees(s@), pos as int)),
        Err(b) => f == Err::<(Seq<FromTree>, int), Bad>(b@),
    }
}

pub open spec fn got_join(r: Result<JoinClause2, ParseError>, f: Found<JoinTree>, pos: usize) -> bool {
    match r {
        Ok(s) => f == Ok::<(JoinTree, int), Bad>((join_tree(s), pos as int)),
        Err(b) => f == Err::<(JoinTree, int), Bad>(b@),
    }
}

pub open spec fn got_joins(r: Result<Vec<JoinClause2>, ParseError>, f: Found<Seq<JoinTree>>, pos: usize) -> bool {
    match r {
        Ok(s) => f == Ok::<(Seq<JoinTree>, int), Bad>((join_trees(s@), pos as int)),
        Err(b) => f == Err::<(Seq<JoinTree>, int), Bad>(b@),
    }
}

pub open spec fn got_clause(r: Result<Option<Expr2>, ParseError>, f: Found<Option<Tree>>, pos: usize) -> bool {
    match r {
        Ok(s) => f == Ok::<(Option<Tree>, int), Bad>((option_tree(s), pos as int)),
        Err(b) => f == Err::<(Option<Tree>, int), Bad>(b@),
    }
}

pub open spec fn got_limit(r: Result<Option<usize>, ParseError>, f: Found<Option<usize>>, pos: usize) -> bool {
    match r {
        Ok(s) => f == Ok::<(Option<usize>, int), Bad>((s, pos as int)),
        Err(b) => f == Err::<(Option<usize>, int), Bad>(b@),
    }
}

fn equal_words(a: &str, b: &str) -> (r: bool)
    ensures
        r == same_ignoring_case(a@, b@),
{
    let x: Vec<char> = lower_chars(a);
    let y: Vec<char> = lower_chars(b);
    same_chars(&x, &y)
}

fn lower_chars(s: &str) -> (r: Vec<char>)
    ensures
        r@ == lower_ascii(s@),
{
    let v: Vec<char> = chars_of(s);
    let mut out: Vec<char> = Vec::new();
    let mut i: usize = 0;
    while i < v.len()
        invariant
            v@ == s@,
            i <= v@.len(),
            out@.len() == i,
            forall|k: int| 0 <= k < i ==> #[trigger] out@[k] == lower_ascii(s@)[k],
        decreases v.len() - i,
    {
        out.push(to_lower(v[i]));
        i = i + 1;
    }
    proof {
        assert(out@ =~= lower_ascii(s@));
    }
    out
}

fn to_upper(c: char) -> (r: char)
    ensures
        r == upper_char(c),
{
    if 'a' <= c && c <= 'z' {
        ((c as u32) as u8 - 32) as char
    } else {
        c
    }
}

/// A text with its ASCII letters in upper case.
pub fn upper_text(s: &str) -> (r: String)
    ensures
        r@ == upper_ascii(s@),
{
    let v: Vec<char> = chars_of(s);
    let mut out: Vec<char> = Vec::new();
    let mut i: usize = 0;
    while i < v.len()
        invariant
            v@ == s@,
            i <= v@.len(),
            out@.len() == i,
            forall|k: int| 0 <= k < i ==> #[trigger] out@[k] == upper_ascii(s@)[k],
        decreases v.len() - i,
    {
        out.push(to_upper(v[i]));
        i = i + 1;
    }
    proof {
        assert(out@ =~= upper_ascii(s@));
    }
    string_of(&out)
}

fn lower_text(s: &str) -> (r: String)
    ensures
        r@ == lower_ascii(s@),
{
    let v: Vec<char> = lower_chars(s);
    string_of(&v)
}

proof fn lemma_four_digits(s: Seq<char>)
    requires
        all_digits(s),
        1 <= s.len() <= 4,
    ensures
        0 <= digits_value(s) < 10_000,
        s.len() == 2 ==> digits_value(s) < 100,
{
    reveal_with_fuel(digits_value, 5);
    assert forall|i: int| 0 <= i < s.len() implies crate::text::is_digit(#[trigger] s[i]) by {}
    if s.len() >= 2 {
        assert(s.drop_last()[s.len() - 2] == s[s.len() - 2]);
    }
    if s.len() >= 3 {
        assert(s.drop_last().drop_last()[s.len() - 3] == s[s.len() - 3]);
    }
    if s.len() >= 4 {
        assert(s.drop_last().drop_last().drop_last()[s.len() - 4] == s[s.len() - 4]);
    }
}

/// Reads digits as a number.
fn read_digits(v: &Vec<char>, from: usize, to: usize) -> (r: Option<u64>)
    requires
        from < to <= v@.len(),
        to - from <= 4,
    ensures
        match r {
            Some(n) => all_digits(v@.subrange(from as int, to as int)) && n == digits_value(
                v@.subrange(from as int, to as int),
            ) && n < 10_000 && (to - from == 2 ==> n < 100),
            None => !all_digits(v@.subrange(from as int, to as int)),
        },
{
    let part: Vec<char> = slice_chars(v, from, to);
    if !crate::text::digit(part[0]) {
        proof {
            assert(!crate::text::is_digit(part@[0]));
        }
        return None;
    }
    proof {
        if all_digits(part@) {
            lemma_four_digits(part@);
        }
    }
    parse_u64(&part)
}

/// The day that a text stands for.
pub fn parse_date(s: &str) -> (r: Option<i32>)
    ensures
        r == date_in(s@),
{
    proof {
        reveal(date_in);
    }
    let v: Vec<char> = chars_of(s);
    if v.len() != 10 || v[4] != '-' || v[7] != '-' {
        return None;
    }
    let y: u64 = match read_digits(&v, 0, 4) {
        Some(n) => n,
        None => {
            return None;
        },
    };
    let m: u64 = match read_digits(&v, 5, 7) {
        Some(n) => n,
        None => {
            return None;
        },
    };
    let d: u64 = match read_digits(&v, 8, 10) {
        Some(n) => n,
        None => {
            return None;
        },
    };
    if m < 1 || m > 12 || d < 1 {
        return None;
    }
    proof {
        reveal(crate::dates::days_before_march);
    }
    if d > 31 {
        return None;
    }
    let day: i64 = signed_of(date_to_days(y as i32, m as u32, d as u32));
    let next: i64 = if m == 12 {
        signed_of(date_to_days(y as i32 + 1, 1, 1))
    } else {
        signed_of(date_to_days(y as i32, m as u32 + 1, 1))
    };
    if day < next {
        Some(day as i32)
    } else {
        None
    }
}

impl TpchParser {
    pub open spec fn toks(&self) -> Seq<Tok> {
        tokens_of(self.tokens@)
    }

    fn kw(&self, p: usize, kw: &str) -> (b: bool)
        ensures
            b == is_kw(self.toks(), p as int, kw@),
            b ==> p < self.tokens@.len() && p < usize::MAX,
    {
        proof {
            reveal(keyword_is);
        }
        if p < self.tokens.len() {
            match &self.tokens[p] {
                Token::Keyword(k) => same_text(k.as_str(), kw),
                _ => false,
            }
        } else {
            false
        }
    }

    fn word(&self, p: usize, word: &str) -> (b: bool)
        ensures
            b == is_word(self.toks(), p as int, word@),
            b ==> p < self.tokens@.len() && p < usize::MAX,
    {
        proof {
            reveal(word_is);
        }
        if p < self.tokens.len() {
            match &self.tokens[p] {
                Token::Keyword(k) => equal_words(k.as_str(), word),
                Token::Ident(k) => equal_words(k.as_str(), word),
                _ => false,
            }
        } else {
            false
        }
    }

    fn op(&self, p: usize, op: &str) -> (b: bool)
        ensures
            b == is_op(self.toks(), p as int, op@),
            b ==> p < self.tokens@.len() && p < usize::MAX,
    {
        proof {
            reveal(op_is);
        }
        if p < self.tokens.len() {
            match &self.tokens[p] {
                Token::Op(k) => same_text(k.as_str(), op),
                _ => false,
            }
        } else {
            false
        }
    }

    fn lp(&self, p: usize) -> (b: bool)
        ensures
            b == (tok(self.toks(), p as int) is LParen),
            b ==> p < self.tokens@.len() && p < usize::MAX,
    {
        if p < self.tokens.len() {
            match &self.tokens[p] {
                Token::LParen => true,
                _ => false,
            }
        } else {
            false
        }
    }

    fn rp(&self, p: usize) -> (b: bool)
        ensures
            b == (tok(self.toks(), p as int) is RParen),
            b ==> p < self.tokens@.len() && p < usize::MAX,
    {
        if p < self.tokens.len() {
            match &self.tokens[p] {
                Token::RParen => true,
                _ => false,
            }
        } else {
            false
        }
    }

    fn comma(&self, p: usize) -> (b: bool)
        ensures
            b == (tok(self.toks(), p as int) is Comma),
            b ==> p < self.tokens@.len() && p < usize::MAX,
    {
        if p < self.tokens.len() {
            match &self.tokens[p] {
                Token::Comma => true,
                _ => false,
            }
        } else {
            false
        }
    }

    fn comparison(&self, p: usize) -> (r: Option<BinOp2>)
        ensures
            r == comparison_op(tok(self.toks(), p as int)),
            r is Some ==> p < self.tokens@.len() && p < usize::MAX,
    {
        if p < self.tokens.len() {
            match &self.tokens[p] {
                Token::Op(o) => if same_text(o.as_str(), "=") {
                    Some(BinOp2::Eq)
                } else if same_text(o.as_str(), "!=") || same_text(o.as_str(), "<>") {
                    Some(BinOp2::Ne)
                } else if same_text(o.as_str(), "<") {
                    Some(BinOp2::Lt)
                } else if same_text(o.as_str(), ">") {
                    Some(BinOp2::Gt)
                } else if same_text(o.as_str(), "<=") {
                    Some(BinOp2::Le)
                } else if same_text(o.as_str(), ">=") {
                    Some(BinOp2::Ge)
                } else {
                    None
                },
                _ => None,
            }
        } else {
            None
        }
    }

    fn parse_ident_name(&mut self) -> (r: Result<String, ParseError>)
        ensures
            final(self).tokens == old(self).tokens,
            got_name(r, ident_at(old(self).toks(), old(self).pos as int), final(self).pos),
        decreases old(self).tokens@.len() - old(self).pos, 0int,
    {
        let ghost ts = self.toks();
        if self.pos < self.tokens.len() {
            match &self.tokens[self.pos] {
                Token::Ident(s) => {
                    let name: String = s.clone();
                    self.pos = self.pos + 1;
                    Ok(name)
                },
                Token::Keyword(k) => {
                    let name: String = lower_text(k.as_str());
                    self.pos = self.pos + 1;
                    Ok(name)
                },
                _ => Err(fail("expected identifier", self.pos)),
            }
        } else {
            Err(fail("expected identifier", self.pos))
        }
    }

    fn parse_alias(&mut self) -> (r: Result<Option<String>, ParseError>)
        ensures
            final(self).tokens == old(self).tokens,
            got_alias(r, alias_at(old(self).toks(), old(self).pos as int), final(self).pos),
        decreases old(self).tokens@.len() - old(self).pos, 1int,
    {
        let ghost ts = self.toks();
        if self.kw(self.pos, "AS") {
            self.pos = self.pos + 1;
            return match self.parse_ident_name() {
                Ok(s) => Ok(Some(s)),
                Err(e) => Err(e),
            };
        }
        let named: bool = self.pos < self.tokens.len() && (match &self.tokens[self.pos] {
            Token::Ident(_) => true,
            _ => false,
        });
        if named {
            match self.parse_ident_name() {
                Ok(s) => Ok(Some(s)),
                Err(e) => Err(e),
            }
        } else {
            Ok(None)
        }
    }

    /// An expression.
    fn parse_expr(&mut self) -> (r: Result<Expr2, ParseError>)
        ensures
            final(self).tokens == old(self).tokens,
            got_tree(r, expr_at(old(self).toks(), old(self).pos as int), final(self).pos),
        decreases old(self).tokens@.len() - old(self).pos, 21int,
    {
        let ghost ts = self.toks();
        let s1: usize = self.pos;
        let first: Expr2 = match self.parse_and() {
            Ok(x) => x,
            Err(e) => {
                return Err(e);
            },
        };
        if self.pos <= s1 || self.pos > self.tokens.len() {
            return Err(no_phrase(s1));
        }
        let mut left: Expr2 = first;
        let ghost goal = or_rest(ts, expr_tree(left), self.pos as int);
        while self.kw(self.pos, "OR")
            invariant
                self.tokens == old(self).tokens,
                ts == self.toks(),
                old(self).pos < self.pos <= self.tokens@.len(),
                goal == or_rest(ts, expr_tree(left), self.pos as int),
                goal == expr_at(ts, old(self).pos as int),
            decreases self.tokens@.len() - self.pos,
        {
            self.pos = self.pos + 1;
            let s2: usize = self.pos;
            let right: Expr2 = match self.parse_and() {
                Ok(x) => x,
                Err(e) => {
                    return Err(e);
                },
            };
            if self.pos <= s2 || self.pos > self.tokens.len() {
                return Err(no_phrase(s2));
            }
            let ghost l = left;
            left = Expr2::BinOp { op: BinOp2::Or, left: Box::new(left), right: Box::new(right) };
            proof {
                assert(expr_tree(left) == (Tree::BinOp { op: BinOp2::Or, left: Box::new(expr_tree(l)), right: Box::new(expr_tree(right)) })) by {
                    reveal(expr_tree);
                }
            }
        }
        Ok(left)
    }

    fn parse_and(&mut self) -> (r: Result<Expr2, ParseError>)
        ensures
            final(self).tokens == old(self).tokens,
            got_tree(r, and_at(old(self).toks(), old(self).pos as int), final(self).pos),
        decreases old(self).tokens@.len() - old(self).pos, 20int,
    {
        let ghost ts = self.toks();
        let s3: usize = self.pos;
        let first: Expr2 = match self.parse_not() {
            Ok(x) => x,
            Err(e) => {
                return Err(e);
            },
        };
        if self.pos <= s3 || self.pos > self.tokens.len() {
            return Err(no_phrase(s3));
        }
        let mut left: Expr2 = first;
        let ghost goal = and_rest(ts, expr_tree(left), self.pos as int);
        while self.kw(self.pos, "AND")
            invariant
                self.tokens == old(self).tokens,
                ts == self.toks(),
                old(self).pos < self.pos <= self.tokens@.len(),
                goal == and_rest(ts, expr_tree(left), self.pos as int),
                goal == and_at(ts, old(self).pos as int),
            decreases self.tokens@.len() - self.pos,
        {
            self.pos = self.pos + 1;
            let s4: usize = self.pos;
            let right: Expr2 = match self.parse_not() {
                Ok(x) => x,
                Err(e) => {
                    return Err(e);
                },
            };
            if self.pos <= s4 || self.pos > self.tokens.len() {
                return Err(no_phrase(s4));
            }
            let ghost l = left;
            left = Expr2::BinOp { op: BinOp2::And, left: Box::new(left), right: Box::new(right) };
            proof {
                assert(expr_tree(left) == (Tree::BinOp { op: BinOp2::And, left: Box::new(expr_tree(l)), right: Box::new(expr_tree(right)) })) by {
                    reveal(expr_tree);
                }
            }
        }
        Ok(left)
    }

    fn parse_not(&mut self) -> (r: Result<Expr2, ParseError>)
        ensures
            final(self).tokens == old(self).tokens,
            got_tree(r, not_at(old(self).toks(), old(self).pos as int), final(self).pos),
        decreases old(self).tokens@.len() - old(self).pos, 19int,
    {
        let ghost ts = self.toks();
        if self.kw(self.pos, "NOT") {
            self.pos = self.pos + 1;
            if self.word(self.pos, "EXISTS") {
                self.pos = self.pos + 1;
                return self.parse_exists(true);
            }
            let s5: usize = self.pos;
            let inner: Expr2 = match self.parse_not() {
                Ok(x) => x,
                Err(e) => {
                    return Err(e);
                },
            };
            if self.pos <= s5 || self.pos > self.tokens.len() {
                return Err(no_phrase(s5));
            }
            return {
                let made: Expr2 = Expr2::Not(Box::new(inner));
                proof {
                    assert(expr_tree(made) == (Tree::Not(Box::new(expr_tree(inner))))) by {
                        reveal(expr_tree);
                    }
                }
                Ok(made)
            };
        }
        if self.word(self.pos, "EXISTS") {
            self.pos = self.pos + 1;
            return self.parse_exists(false);
        }
        self.parse_comparison()
    }

    /// A query in brackets.
    fn parse_nested(&mut self) -> (r: Result<SelectQuery2, ParseError>)
        ensures
            final(self).tokens == old(self).tokens,
            got_query(r, nested_at(old(self).toks(), old(self).pos as int), final(self).pos),
        decreases old(self).tokens@.len() - old(self).pos, 12int,
    {
        let ghost ts = self.toks();
        if !self.lp(self.pos) {
            return Err(fail("expected '('", self.pos));
        }
        self.pos = self.pos + 1;
        let s6: usize = self.pos;
        let q: SelectQuery2 = match self.parse_select() {
            Ok(x) => x,
            Err(e) => {
                return Err(e);
            },
        };
        if self.pos <= s6 || self.pos > self.tokens.len() {
            return Err(no_phrase(s6));
        }
        if !self.rp(self.pos) {
            return Err(fail("expected ')'", self.pos));
        }
        self.pos = self.pos + 1;
        Ok(q)
    }

    fn parse_exists(&mut self, negated: bool) -> (r: Result<Expr2, ParseError>)
        ensures
            final(self).tokens == old(self).tokens,
            got_tree(r, exists_at(old(self).toks(), old(self).pos as int, negated), final(self).pos),
        decreases old(self).tokens@.len() - old(self).pos, 13int,
    {
        let ghost ts = self.toks();
        match self.parse_nested() {
            Ok(q) => {
                let made: Expr2 = Expr2::Exists { query: Box::new(q), negated };
                proof {
                    assert(expr_tree(made) == (Tree::Exists { query: Box::new(query_tree(q)), negated })) by {
                        reveal(expr_tree);
                        reveal(query_tree);
                    }
                }
                Ok(made)
            },
            Err(e) => Err(e),
        }
    }

    fn parse_comparison(&mut self) -> (r: Result<Expr2, ParseError>)
        ensures
            final(self).tokens == old(self).tokens,
            got_tree(r, comparison_at(old(self).toks(), old(self).pos as int), final(self).pos),
        decreases old(self).tokens@.len() - old(self).pos, 18int,
    {
        let ghost ts = self.toks();
        let s7: usize = self.pos;
        let left: Expr2 = match self.parse_additive() {
            Ok(x) => x,
            Err(e) => {
                return Err(e);
            },
        };
        if self.pos <= s7 || self.pos > self.tokens.len() {
            return Err(no_phrase(s7));
        }
        match self.comparison(self.pos) {
            Some(op) => {
                self.pos = self.pos + 1;
                let s8: usize = self.pos;
                let right: Expr2 = match self.parse_additive() {
                    Ok(x) => x,
                    Err(e) => {
                        return Err(e);
                    },
                };
                if self.pos <= s8 || self.pos > self.tokens.len() {
                    return Err(no_phrase(s8));
                }
                return {
                    let made: Expr2 = Expr2::BinOp { op, left: Box::new(left), right: Box::new(right) };
                    proof {
                        assert(expr_tree(made) == (Tree::BinOp { op, left: Box::new(expr_tree(left)), right: Box::new(expr_tree(right)) })) by {
                            reveal(expr_tree);
                        }
                    }
                    Ok(made)
                };
            },
            None => {},
        }
        if self.word(self.pos, "LIKE") {
            self.pos = self.pos + 1;
            return self.parse_like_rest(left, false);
        }
        if self.kw(self.pos, "NOT") {
            if self.word(self.pos + 1, "LIKE") {
                self.pos = self.pos + 2;
                return self.parse_like_rest(left, true);
            }
            if self.word(self.pos + 1, "IN") {
                self.pos = self.pos + 2;
                return self.parse_in_rest(left, true);
            }
            if self.word(self.pos + 1, "BETWEEN") {
                self.pos = self.pos + 2;
                return self.parse_between_rest(left, true);
            }
            return Ok(left);
        }
        if self.word(self.pos, "IN") {
            self.pos = self.pos + 1;
            return self.parse_in_rest(left, false);
        }
        if self.word(self.pos, "BETWEEN") {
            self.pos = self.pos + 1;
            return self.parse_between_rest(left, false);
        }
        Ok(left)
    }

    fn parse_like_rest(&mut self, left: Expr2, negated: bool) -> (r: Result<Expr2, ParseError>)
        ensures
            final(self).tokens == old(self).tokens,
            got_tree(r, like_rest(old(self).toks(), expr_tree(left), negated, old(self).pos as int), final(self).pos),
        decreases old(self).tokens@.len() - old(self).pos, 18int,
    {
        let ghost ts = self.toks();
        let s9: usize = self.pos;
        let right: Expr2 = match self.parse_additive() {
            Ok(x) => x,
            Err(e) => {
                return Err(e);
            },
        };
        if self.pos <= s9 || self.pos > self.tokens.len() {
            return Err(no_phrase(s9));
        }
        {
            let made: Expr2 = Expr2::Like { expr: Box::new(left), pattern: Box::new(right), negated };
            proof {
                assert(expr_tree(made) == (Tree::Like { expr: Box::new(expr_tree(left)), pattern: Box::new(expr_tree(right)), negated })) by {
                    reveal(expr_tree);
                }
            }
            Ok(made)
        }
    }

    fn parse_in_rest(&mut self, left: Expr2, negated: bool) -> (r: Result<Expr2, ParseError>)
        ensures
            final(self).tokens == old(self).tokens,
            got_tree(r, in_rest(old(self).toks(), expr_tree(left), negated, old(self).pos as int), final(self).pos),
        decreases old(self).tokens@.len() - old(self).pos, 18int,
    {
        let ghost ts = self.toks();
        if !self.lp(self.pos) {
            return Err(fail("expected '('", self.pos));
        }
        if self.kw(self.pos + 1, "SELECT") {
            return match self.parse_nested() {
                Ok(q) => {
                    let made: Expr2 = Expr2::InSubquery { expr: Box::new(left), query: Box::new(q), negated };
                    proof {
                        assert(expr_tree(made) == (Tree::InSubquery { expr: Box::new(expr_tree(left)), query: Box::new(query_tree(q)), negated })) by {
                            reveal(expr_tree);
                            reveal(query_tree);
                        }
                    }
                    Ok(made)
                },
                Err(e) => Err(e),
            };
        }
        self.pos = self.pos + 1;
        let s10: usize = self.pos;
        let list: Vec<Expr2> = match self.parse_list() {
            Ok(x) => x,
            Err(e) => {
                return Err(e);
            },
        };
        if self.pos <= s10 || self.pos > self.tokens.len() {
            return Err(no_phrase(s10));
        }
        if !self.rp(self.pos) {
            return Err(fail("expected ')'", self.pos));
        }
        self.pos = self.pos + 1;
        {
            let made: Expr2 = Expr2::InList { expr: Box::new(left), list, negated };
            proof {
                assert(expr_tree(made) == (Tree::InList { expr: Box::new(expr_tree(left)), list: expr_trees(list@), negated })) by {
                    reveal(expr_tree);
                    reveal(expr_trees);
                }
            }
            Ok(made)
        }
    }

    fn parse_list(&mut self) -> (r: Result<Vec<Expr2>, ParseError>)
        ensures
            final(self).tokens == old(self).tokens,
            got_trees(r, list_at(old(self).toks(), Seq::empty(), old(self).pos as int), final(self).pos),
        decreases old(self).tokens@.len() - old(self).pos, 23int,
    {
        let ghost ts = self.toks();
        let mut list: Vec<Expr2> = Vec::new();
        let ghost goal = list_at(ts, Seq::empty(), self.pos as int);
        proof {
            assert(expr_trees(list@) == Seq::<Tree>::empty()) by {
                reveal(expr_trees);
            }
        }
        loop
            invariant
                self.tokens == old(self).tokens,
                ts == self.toks(),
                old(self).pos <= self.pos,
                old(self).pos < self.pos ==> self.pos <= self.tokens@.len(),
                goal == list_at(ts, Seq::empty(), old(self).pos as int),
                goal == list_at(ts, expr_trees(list@), self.pos as int),
            decreases self.tokens@.len() - self.pos,
        {
            let s11: usize = self.pos;
            let x: Expr2 = match self.parse_expr() {
                Ok(x) => x,
                Err(e) => {
                    return Err(e);
                },
            };
            if self.pos <= s11 || self.pos > self.tokens.len() {
                return Err(no_phrase(s11));
            }
            let ghost before = list@;
            list.push(x);
            proof {
                assert(expr_trees(list@) == expr_trees(before).push(expr_tree(x))) by {
                    reveal(expr_trees);
                    reveal(expr_tree);
                    assert(list@.drop_last() =~= before);
                }
            }
            if !self.comma(self.pos) {
                return Ok(list);
            }
            self.pos = self.pos + 1;
        }
    }

    fn parse_between_rest(&mut self, left: Expr2, negated: bool) -> (r: Result<Expr2, ParseError>)
        ensures
            final(self).tokens == old(self).tokens,
            got_tree(r, between_rest(old(self).toks(), expr_tree(left), negated, old(self).pos as int), final(self).pos),
        decreases old(self).tokens@.len() - old(self).pos, 18int,
    {
        let ghost ts = self.toks();
        let s12: usize = self.pos;
        let low: Expr2 = match self.parse_additive() {
            Ok(x) => x,
            Err(e) => {
                return Err(e);
            },
        };
        if self.pos <= s12 || self.pos > self.tokens.len() {
            return Err(no_phrase(s12));
        }
        if !self.kw(self.pos, "AND") {
            return Err(fail("expected keyword AND", self.pos));
        }
        self.pos = self.pos + 1;
        let s13: usize = self.pos;
        let high: Expr2 = match self.parse_additive() {
            Ok(x) => x,
            Err(e) => {
                return Err(e);
            },
        };
        if self.pos <= s13 || self.pos > self.tokens.len() {
            return Err(no_phrase(s13));
        }
        {
            let made: Expr2 = Expr2::Between { expr: Box::new(left), low: Box::new(low), high: Box::new(high), negated };
            proof {
                assert(expr_tree(made) == (Tree::Between { expr: Box::new(expr_tree(left)), low: Box::new(expr_tree(low)), high: Box::new(expr_tree(high)), negated })) by {
                    reveal(expr_tree);
                }
            }
            Ok(made)
        }
    }

    fn parse_additive(&mut self) -> (r: Result<Expr2, ParseError>)
        ensures
            final(self).tokens == old(self).tokens,
            got_tree(r, sum_at(old(self).toks(), old(self).pos as int), final(self).pos),
        decreases old(self).tokens@.len() - old(self).pos, 17int,
    {
        let ghost ts = self.toks();
        let s14: usize = self.pos;
        let first: Expr2 = match self.parse_multiplicative() {
            Ok(x) => x,
            Err(e) => {
                return Err(e);
            },
        };
        if self.pos <= s14 || self.pos > self.tokens.len() {
            return Err(no_phrase(s14));
        }
        let mut left: Expr2 = first;
        let ghost goal = sum_rest(ts, expr_tree(left), self.pos as int);
        while self.op(self.pos, "+") || self.op(self.pos, "-")
            invariant
                self.tokens == old(self).tokens,
                ts == self.toks(),
                old(self).pos < self.pos <= self.tokens@.len(),
                goal == sum_rest(ts, expr_tree(left), self.pos as int),
                goal == sum_at(ts, old(self).pos as int),
            decreases self.tokens@.len() - self.pos,
        {
            let op: BinOp2 = if self.op(self.pos, "+") {
                BinOp2::Add
            } else {
                BinOp2::Sub
            };
            self.pos = self.pos + 1;
            let s15: usize = self.pos;
            let right: Expr2 = match self.parse_multiplicative() {
                Ok(x) => x,
                Err(e) => {
                    return Err(e);
                },
            };
            if self.pos <= s15 || self.pos > self.tokens.len() {
                return Err(no_phrase(s15));
            }
            let ghost l = left;
            left = Expr2::BinOp { op, left: Box::new(left), right: Box::new(right) };
            proof {
                assert(expr_tree(left) == (Tree::BinOp { op, left: Box::new(expr_tree(l)), right: Box::new(expr_tree(right)) })) by {
                    reveal(expr_tree);
                }
            }
        }
        Ok(left)
    }

    fn parse_multiplicative(&mut self) -> (r: Result<Expr2, ParseError>)
        ensures
            final(self).tokens == old(self).tokens,
            got_tree(r, product_at(old(self).toks(), old(self).pos as int), final(self).pos),
        decreases old(self).tokens@.len() - old(self).pos, 16int,
    {
        let ghost ts = self.toks();
        let s16: usize = self.pos;
        let first: Expr2 = match self.parse_unary() {
            Ok(x) => x,
            Err(e) => {
                return Err(e);
            },
        };
        if self.pos <= s16 || self.pos > self.tokens.len() {
            return Err(no_phrase(s16));
        }
        let mut left: Expr2 = first;
        let ghost goal = product_rest(ts, expr_tree(left), self.pos as int);
        while self.op(self.pos, "*") || self.op(self.pos, "/")
            invariant
                self.tokens == old(self).tokens,
                ts == self.toks(),
                old(self).pos < self.pos <= self.tokens@.len(),
                goal == product_rest(ts, expr_tree(left), self.pos as int),
                goal == product_at(ts, old(self).pos as int),
            decreases self.tokens@.len() - self.pos,
        {
            let op: BinOp2 = if self.op(self.pos, "*") {
                BinOp2::Mul
            } else {
                BinOp2::Div
            };
            self.pos = self.pos + 1;
            let s17: usize = self.pos;
            let right: Expr2 = match self.parse_unary() {
                Ok(x) => x,
                Err(e) => {
                    return Err(e);
                },
            };
            if self.pos <= s17 || self.pos > self.tokens.len() {
                return Err(no_phrase(s17));
            }
            let ghost l = left;
            left = Expr2::BinOp { op, left: Box::new(left), right: Box::new(right) };
            proof {
                assert(expr_tree(left) == (Tree::BinOp { op, left: Box::new(expr_tree(l)), right: Box::new(expr_tree(right)) })) by {
                    reveal(expr_tree);
                }
            }
        }
        Ok(left)
    }

    fn parse_unary(&mut self) -> (r: Result<Expr2, ParseError>)
        ensures
            final(self).tokens == old(self).tokens,
            got_tree(r, unary_at(old(self).toks(), old(self).pos as int), final(self).pos),
        decreases old(self).tokens@.len() - old(self).pos, 15int,
    {
        let ghost ts = self.toks();
        if self.op(self.pos, "-") {
            self.pos = self.pos + 1;
            let s18: usize = self.pos;
            let x: Expr2 = match self.parse_unary() {
                Ok(x) => x,
                Err(e) => {
                    return Err(e);
                },
            };
            if self.pos <= s18 || self.pos > self.tokens.len() {
                return Err(no_phrase(s18));
            }
            return {
                let made: Expr2 = Expr2::Neg(Box::new(x));
                proof {
                    assert(expr_tree(made) == (Tree::Neg(Box::new(expr_tree(x))))) by {
                        reveal(expr_tree);
                    }
                }
                Ok(made)
            };
        }
        if self.op(self.pos, "+") {
            self.pos = self.pos + 1;
            return self.parse_unary();
        }
        self.parse_primary()
    }

    fn parse_primary(&mut self) -> (r: Result<Expr2, ParseError>)
        ensures
            final(self).tokens == old(self).tokens,
            got_tree(r, primary_at(old(self).toks(), old(self).pos as int), final(self).pos),
        decreases old(self).tokens@.len() - old(self).pos, 14int,
    {
        let ghost ts = self.toks();
        if self.pos >= self.tokens.len() {
            return Err(fail("expected expression", self.pos));
        }
        match &self.tokens[self.pos] {
            Token::Int(i) => {
                let e: Expr2 = Expr2::Int(*i);
                proof {
                    assert(expr_tree(e) == (Tree::Int(*i))) by {
                        reveal(expr_tree);
                    }
                }
                self.pos = self.pos + 1;
                Ok(e)
            },
            Token::Float(b) => {
                let e: Expr2 = Expr2::Float(*b);
                proof {
                    assert(expr_tree(e) == (Tree::Float(*b))) by {
                        reveal(expr_tree);
                    }
                }
                self.pos = self.pos + 1;
                Ok(e)
            },
            Token::Str(s) => {
                let e: Expr2 = Expr2::Str(s.clone());
                proof {
                    assert(expr_tree(e) == (Tree::Str(s@))) by {
                        reveal(expr_tree);
                    }
                }
                self.pos = self.pos + 1;
                Ok(e)
            },
            Token::Keyword(k) => {
                let word: String = k.clone();
                self.parse_keyword(word)
            },
            Token::Ident(n) => {
                let name: String = n.clone();
                self.parse_name(name)
            },
            Token::LParen => {
                if self.kw(self.pos + 1, "SELECT") {
                    return match self.parse_nested() {
                        Ok(q) => {
                            let made: Expr2 = Expr2::Subquery(Box::new(q));
                            proof {
                                assert(expr_tree(made) == (Tree::Subquery(Box::new(query_tree(q))))) by {
                                    reveal(expr_tree);
                                    reveal(query_tree);
                                }
                            }
                            Ok(made)
                        },
                        Err(e) => Err(e),
                    };
                }
                self.pos = self.pos + 1;
                let s19: usize = self.pos;
                let x: Expr2 = match self.parse_expr() {
                    Ok(x) => x,
                    Err(e) => {
                        return Err(e);
                    },
                };
                if self.pos <= s19 || self.pos > self.tokens.len() {
                    return Err(no_phrase(s19));
                }
                if !self.rp(self.pos) {
                    return Err(fail("expected ')'", self.pos));
                }
                self.pos = self.pos + 1;
                Ok(x)
            },
            _ => Err(fail("expected expression", self.pos)),
        }
    }

    /// An expression that begins with a keyword.
    fn parse_keyword(&mut self, word: String) -> (r: Result<Expr2, ParseError>)
        ensures
            final(self).tokens == old(self).tokens,
            got_tree(r, keyword_at(old(self).toks(), word@, old(self).pos as int), final(self).pos),
        decreases old(self).tokens@.len() - old(self).pos, 13int,
    {
        let ghost ts = self.toks();
        if self.pos >= self.tokens.len() {
            return Err(fail("expected expression", self.pos));
        }
        self.pos = self.pos + 1;
        if same_text(word.as_str(), "DATE") {
            if self.pos < self.tokens.len() {
                match &self.tokens[self.pos] {
                    Token::Str(s) => {
                        let e: Expr2 = match parse_date(s.as_str()) {
                            Some(d) => Expr2::Date(d),
                            None => Expr2::Str(s.clone()),
                        };
                        proof {
                            assert(expr_tree(e) == (match date_in(s@) {
                                Some(d) => Tree::Date(d),
                                None => Tree::Str(s@),
                            })) by {
                                reveal(expr_tree);
                            }
                        }
                        self.pos = self.pos + 1;
                        return Ok(e);
                    },
                    _ => {},
                }
            }
            return Err(fail("expected string after DATE", self.pos));
        }
        if same_text(word.as_str(), "CASE") {
            return self.parse_case();
        }
        if same_text(word.as_str(), "EXTRACT") {
            return self.parse_extract();
        }
        if self.lp(self.pos) || find_func(word.as_str()).is_some() {
            return self.parse_agg_call(word);
        }
        {
            let made: Expr2 = Expr2::Col(lower_text(word.as_str()));
            proof {
                assert(expr_tree(made) == (Tree::Col(lower_ascii(word@)))) by {
                    reveal(expr_tree);
                }
            }
            Ok(made)
        }
    }

    /// An expression that begins with a name.
    fn parse_name(&mut self, name: String) -> (r: Result<Expr2, ParseError>)
        ensures
            final(self).tokens == old(self).tokens,
            got_tree(r, name_at(old(self).toks(), name@, old(self).pos as int), final(self).pos),
        decreases old(self).tokens@.len() - old(self).pos, 13int,
    {
        let ghost ts = self.toks();
        if self.pos >= self.tokens.len() {
            return Err(fail("expected expression", self.pos));
        }
        self.pos = self.pos + 1;
        let lower: String = lower_text(name.as_str());
        if self.lp(self.pos) {
            if same_text(lower.as_str(), "substr") || same_text(lower.as_str(), "substring") {
                return self.parse_substr();
            }
            if same_text(lower.as_str(), "extract") {
                return self.parse_extract();
            }
            if same_text(lower.as_str(), "exists") {
                return self.parse_exists(false);
            }
            let upper: String = upper_text(name.as_str());
            return self.parse_agg_call(upper);
        }
        if self.op(self.pos, ".") {
            self.pos = self.pos + 1;
            return match self.parse_ident_name() {
                Ok(col) => {
                    let mut text: Vec<char> = Vec::new();
                    append_text(&mut text, name.as_str());
                    append_text(&mut text, ".");
                    append_text(&mut text, col.as_str());
                    proof {
                        assert(text@ =~= name@ + "."@ + col@);
                    }
                    {
                        let made: Expr2 = Expr2::Col(string_of(&text));
                        proof {
                            assert(expr_tree(made) == (Tree::Col(text@))) by {
                                reveal(expr_tree);
                            }
                        }
                        Ok(made)
                    }
                },
                Err(e) => Err(e),
            };
        }
        {
            let made: Expr2 = Expr2::Col(name);
            proof {
                assert(expr_tree(made) == (Tree::Col(name@))) by {
                    reveal(expr_tree);
                }
            }
            Ok(made)
        }
    }

    #[verifier::spinoff_prover]
    #[verifier::rlimit(30)]
    fn parse_case(&mut self) -> (r: Result<Expr2, ParseError>)
        ensures
            final(self).tokens == old(self).tokens,
            got_tree(r, case_at(old(self).toks(), old(self).pos as int), final(self).pos),
        decreases old(self).tokens@.len() - old(self).pos, 25int,
    {
        let ghost ts = self.toks();
        let s41: usize = self.pos;
        let whens: Vec<(Expr2, Expr2)> = match self.parse_whens() {
            Ok(x) => x,
            Err(e) => {
                return Err(e);
            },
        };
        if self.pos < s41 || self.pos > self.tokens.len() {
            return Err(no_phrase(s41));
        }
        let s42: usize = self.pos;
        let last: Option<Expr2> = match self.parse_clause("ELSE") {
            Ok(x) => x,
            Err(e) => {
                return Err(e);
            },
        };
        if self.pos < s42 || self.pos > self.tokens.len() {
            return Err(no_phrase(s42));
        }
        if !self.kw(self.pos, "END") {
            return Err(fail("expected keyword END", self.pos));
        }
        self.pos = self.pos + 1;
        Ok(case_of(whens, last))
    }

    fn parse_whens(&mut self) -> (r: Result<Vec<(Expr2, Expr2)>, ParseError>)
        ensures
            final(self).tokens == old(self).tokens,
            got_branches(r, whens_at(old(self).toks(), Seq::empty(), old(self).pos as int), final(self).pos),
        decreases old(self).tokens@.len() - old(self).pos, 23int,
    {
        let ghost ts = self.toks();
        let mut whens: Vec<(Expr2, Expr2)> = Vec::new();
        let ghost goal = whens_at(ts, Seq::empty(), self.pos as int);
        proof {
            assert(branch_trees(whens@) == Seq::<(Tree, Tree)>::empty()) by {
                reveal(branch_trees);
            }
        }
        while self.kw(self.pos, "WHEN")
            invariant
                self.tokens == old(self).tokens,
                ts == self.toks(),
                old(self).pos <= self.pos,
                old(self).pos < self.pos ==> self.pos <= self.tokens@.len(),
                goal == whens_at(ts, Seq::empty(), old(self).pos as int),
                goal == whens_at(ts, branch_trees(whens@), self.pos as int),
            decreases self.tokens@.len() - self.pos,
        {
            self.pos = self.pos + 1;
            let s20: usize = self.pos;
            let cond: Expr2 = match self.parse_expr() {
                Ok(x) => x,
                Err(e) => {
                    return Err(e);
                },
            };
            if self.pos <= s20 || self.pos > self.tokens.len() {
                return Err(no_phrase(s20));
            }
            if !self.kw(self.pos, "THEN") {
                return Err(fail("expected keyword THEN", self.pos));
            }
            self.pos = self.pos + 1;
            let s21: usize = self.pos;
            let x: Expr2 = match self.parse_expr() {
                Ok(x) => x,
                Err(e) => {
                    return Err(e);
                },
            };
            if self.pos <= s21 || self.pos > self.tokens.len() {
                return Err(no_phrase(s21));
            }
            let ghost before = whens@;
            whens.push((cond, x));
            proof {
                assert(branch_trees(whens@) == branch_trees(before).push((expr_tree(cond), expr_tree(x)))) by {
                    reveal(branch_trees);
                    reveal(expr_tree);
                    assert(whens@.drop_last() =~= before);
                }
            }
        }
        Ok(whens)
    }

    fn parse_extract(&mut self) -> (r: Result<Expr2, ParseError>)
        ensures
            final(self).tokens == old(self).tokens,
            got_tree(r, extract_at(old(self).toks(), old(self).pos as int), final(self).pos),
        decreases old(self).tokens@.len() - old(self).pos, 12int,
    {
        let ghost ts = self.toks();
        if !self.lp(self.pos) {
            return Err(fail("expected '('", self.pos));
        }
        self.pos = self.pos + 1;
        let s22: usize = self.pos;
        let field: String = match self.parse_ident_name() {
            Ok(x) => x,
            Err(e) => {
                return Err(e);
            },
        };
        if self.pos <= s22 || self.pos > self.tokens.len() {
            return Err(no_phrase(s22));
        }
        if !self.kw(self.pos, "FROM") {
            return Err(fail("expected keyword FROM", self.pos));
        }
        self.pos = self.pos + 1;
        let s23: usize = self.pos;
        let x: Expr2 = match self.parse_expr() {
            Ok(x) => x,
            Err(e) => {
                return Err(e);
            },
        };
        if self.pos <= s23 || self.pos > self.tokens.len() {
            return Err(no_phrase(s23));
        }
        if !self.rp(self.pos) {
            return Err(fail("expected ')'", self.pos));
        }
        self.pos = self.pos + 1;
        {
            let made: Expr2 = Expr2::Extract { field, expr: Box::new(x) };
            proof {
                assert(expr_tree(made) == (Tree::Extract { field: field@, expr: Box::new(expr_tree(x)) })) by {
                    reveal(expr_tree);
                }
            }
            Ok(made)
        }
    }

    fn parse_substr(&mut self) -> (r: Result<Expr2, ParseError>)
        ensures
            final(self).tokens == old(self).tokens,
            got_tree(r, substr_at(old(self).toks(), old(self).pos as int), final(self).pos),
        decreases old(self).tokens@.len() - old(self).pos, 12int,
    {
        let ghost ts = self.toks();
        if !self.lp(self.pos) {
            return Err(fail("expected '('", self.pos));
        }
        self.pos = self.pos + 1;
        let s24: usize = self.pos;
        let x: Expr2 = match self.parse_expr() {
            Ok(x) => x,
            Err(e) => {
                return Err(e);
            },
        };
        if self.pos <= s24 || self.pos > self.tokens.len() {
            return Err(no_phrase(s24));
        }
        self.parse_bounds(x)
    }

    /// The bounds of a part of a text.
    #[verifier::spinoff_prover]
    #[verifier::rlimit(30)]
    fn parse_bounds(&mut self, x: Expr2) -> (r: Result<Expr2, ParseError>)
        ensures
            final(self).tokens == old(self).tokens,
            got_tree(r, bounds_at(old(self).toks(), expr_tree(x), old(self).pos as int), final(self).pos),
        decreases old(self).tokens@.len() - old(self).pos, 23int,
    {
        let ghost ts = self.toks();
        let s25: usize = self.pos;
        let start: Expr2 = match self.parse_more() {
            Ok(x) => x,
            Err(e) => {
                return Err(e);
            },
        };
        if self.pos <= s25 || self.pos > self.tokens.len() {
            return Err(no_phrase(s25));
        }
        let s26: usize = self.pos;
        let len: Expr2 = match self.parse_more() {
            Ok(x) => x,
            Err(e) => {
                return Err(e);
            },
        };
        if self.pos <= s26 || self.pos > self.tokens.len() {
            return Err(no_phrase(s26));
        }
        if !self.rp(self.pos) {
            return Err(fail("expected ')'", self.pos));
        }
        self.pos = self.pos + 1;
        {
            let made: Expr2 = Expr2::Substr { expr: Box::new(x), start: Box::new(start), len: Box::new(len) };
            proof {
                assert(expr_tree(made) == (Tree::Substr { expr: Box::new(expr_tree(x)), start: Box::new(expr_tree(start)), len: Box::new(expr_tree(len)) })) by {
                    reveal(expr_tree);
                }
            }
            Ok(made)
        }
    }

    /// A comma and an expression.
    fn parse_more(&mut self) -> (r: Result<Expr2, ParseError>)
        ensures
            final(self).tokens == old(self).tokens,
            got_tree(r, more_at(old(self).toks(), old(self).pos as int), final(self).pos),
        decreases old(self).tokens@.len() - old(self).pos, 22int,
    {
        let ghost ts = self.toks();
        if !self.comma(self.pos) {
            return Err(fail("expected ',' in substr", self.pos));
        }
        self.pos = self.pos + 1;
        self.parse_expr()
    }

    fn parse_argument(&mut self) -> (r: Result<Expr2, ParseError>)
        ensures
            final(self).tokens == old(self).tokens,
            got_tree(r, argument_at(old(self).toks(), old(self).pos as int), final(self).pos),
        decreases old(self).tokens@.len() - old(self).pos, 23int,
    {
        let ghost ts = self.toks();
        if self.op(self.pos, "*") {
            self.pos = self.pos + 1;
            return {
                let made: Expr2 = Expr2::CountStar;
                proof {
                    assert(expr_tree(made) == (Tree::CountStar)) by {
                        reveal(expr_tree);
                    }
                }
                Ok(made)
            };
        }
        self.parse_expr()
    }

    #[verifier::spinoff_prover]
    #[verifier::rlimit(30)]
    fn parse_agg_call(&mut self, func: String) -> (r: Result<Expr2, ParseError>)
        ensures
            final(self).tokens == old(self).tokens,
            got_tree(r, call_at(old(self).toks(), func@, old(self).pos as int), final(self).pos),
        decreases old(self).tokens@.len() - old(self).pos, 12int,
    {
        let ghost ts = self.toks();
        if !self.lp(self.pos) {
            return Err(fail("expected '('", self.pos));
        }
        self.pos = self.pos + 1;
        let distinct: bool = self.kw(self.pos, "DISTINCT");
        if distinct {
            self.pos = self.pos + 1;
        }
        let s27: usize = self.pos;
        let x: Expr2 = match self.parse_argument() {
            Ok(x) => x,
            Err(e) => {
                return Err(e);
            },
        };
        if self.pos <= s27 || self.pos > self.tokens.len() {
            return Err(no_phrase(s27));
        }
        self.parse_call_end(func, distinct, x)
    }

    /// The end of a call.
    fn parse_call_end(&mut self, func: String, distinct: bool, x: Expr2) -> (r: Result<Expr2, ParseError>)
        ensures
            final(self).tokens == old(self).tokens,
            got_tree(r, called(old(self).toks(), func@, distinct, expr_tree(x), old(self).pos as int), final(self).pos),
        decreases old(self).tokens@.len() - old(self).pos, 0int,
    {
        let ghost ts = self.toks();
        proof {
            reveal(called);
        }
        if !self.rp(self.pos) {
            return Err(fail("expected ')'", self.pos));
        }
        match find_func(func.as_str()) {
            Some(f) => {
                self.pos = self.pos + 1;
                let g: AggFunc = if f == AggFunc::Count && distinct {
                    AggFunc::CountDistinct
                } else {
                    f
                };
                let made: Expr2 = Expr2::Agg { func: g, arg: Box::new(x), distinct };
                proof {
                    assert(expr_tree(made) == (Tree::Agg { func: g, arg: Box::new(expr_tree(x)), distinct })) by {
                        reveal(expr_tree);
                    }
                }
                Ok(made)
            },
            None => {
                let mut what: Vec<char> = Vec::new();
                append_text(&mut what, "unsupported aggregate: ");
                append_text(&mut what, func.as_str());
                proof {
                    assert(what@ =~= "unsupported aggregate: "@ + func@);
                }
                Err(ParseError { what: string_of(&what), at: self.pos })
            },
        }
    }

    /// A query.
    fn parse_select(&mut self) -> (r: Result<SelectQuery2, ParseError>)
        ensures
            final(self).tokens == old(self).tokens,
            got_query(r, select_at(old(self).toks(), old(self).pos as int), final(self).pos),
        decreases old(self).tokens@.len() - old(self).pos, 29int,
    {
        let ghost ts = self.toks();
        if !self.kw(self.pos, "SELECT") {
            return Err(fail("expected keyword SELECT", self.pos));
        }
        self.pos = self.pos + 1;
        if self.kw(self.pos, "DISTINCT") {
            self.pos = self.pos + 1;
        }
        let s28: usize = self.pos;
        let select: Vec<SelectItem2> = match self.parse_select_list() {
            Ok(x) => x,
            Err(e) => {
                return Err(e);
            },
        };
        if self.pos <= s28 || self.pos > self.tokens.len() {
            return Err(no_phrase(s28));
        }
        if !self.kw(self.pos, "FROM") {
            return Err(fail("expected keyword FROM", self.pos));
        }
        self.pos = self.pos + 1;
        let s29: usize = self.pos;
        let from: Vec<FromItem> = match self.parse_from_list() {
            Ok(x) => x,
            Err(e) => {
                return Err(e);
            },
        };
        if self.pos <= s29 || self.pos > self.tokens.len() {
            return Err(no_phrase(s29));
        }
        let s43: usize = self.pos;
        let joins: Vec<JoinClause2> = match self.parse_joins() {
            Ok(x) => x,
            Err(e) => {
                return Err(e);
            },
        };
        if self.pos < s43 || self.pos > self.tokens.len() {
            return Err(no_phrase(s43));
        }
        self.parse_clauses(select, from, joins)
    }

    /// What follows the tables of a query.
    fn parse_clauses(&mut self, select: Vec<SelectItem2>, from: Vec<FromItem>, joins: Vec<JoinClause2>) -> (r: Result<SelectQuery2, ParseError>)
        ensures
            final(self).tokens == old(self).tokens,
            got_query(r, clauses_at(old(self).toks(), item_trees(select@), from_trees(from@), join_trees(joins@), old(self).pos as int), final(self).pos),
        decreases old(self).tokens@.len() - old(self).pos, 28int,
    {
        let ghost ts = self.toks();
        let s44: usize = self.pos;
        let where_clause: Option<Expr2> = match self.parse_clause("WHERE") {
            Ok(x) => x,
            Err(e) => {
                return Err(e);
            },
        };
        if self.pos < s44 || self.pos > self.tokens.len() {
            return Err(no_phrase(s44));
        }
        let s45: usize = self.pos;
        let group_by: Vec<Expr2> = match self.parse_group_by() {
            Ok(x) => x,
            Err(e) => {
                return Err(e);
            },
        };
        if self.pos < s45 || self.pos > self.tokens.len() {
            return Err(no_phrase(s45));
        }
        let none: Vec<(Expr2, bool)> = Vec::new();
        let query: SelectQuery2 = SelectQuery2 {
            select,
            from,
            joins,
            where_clause,
            group_by,
            having: None,
            order_by: none,
            limit: None,
        };
        proof {
            assert(query_tree(query) == (QueryTree {
                select: item_trees(select@),
                from: from_trees(from@),
                joins: join_trees(joins@),
                where_clause: option_tree(where_clause),
                group_by: expr_trees(group_by@),
                having: None,
                order_by: Seq::empty(),
                limit: None,
            })) by {
                reveal(query_tree);
                reveal(item_trees);
                reveal(from_trees);
                reveal(join_trees);
                reveal(option_tree);
                reveal(expr_trees);
                reveal(order_trees);
            }
        }
        self.parse_endings(query)
    }

    /// What follows the groups of a query.
    fn parse_endings(&mut self, query: SelectQuery2) -> (r: Result<SelectQuery2, ParseError>)
        ensures
            final(self).tokens == old(self).tokens,
            got_query(r, endings_at(old(self).toks(), query_tree(query), old(self).pos as int), final(self).pos),
        decreases old(self).tokens@.len() - old(self).pos, 27int,
    {
        let ghost ts = self.toks();
        let s46: usize = self.pos;
        let having: Option<Expr2> = match self.parse_clause("HAVING") {
            Ok(x) => x,
            Err(e) => {
                return Err(e);
            },
        };
        if self.pos < s46 || self.pos > self.tokens.len() {
            return Err(no_phrase(s46));
        }
        self.parse_sorting(having_of(query, having))
    }

    /// The order and the limit of a query.
    #[verifier::spinoff_prover]
    #[verifier::rlimit(30)]
    fn parse_sorting(&mut self, query: SelectQuery2) -> (r: Result<SelectQuery2, ParseError>)
        ensures
            final(self).tokens == old(self).tokens,
            got_query(r, sorting_at(old(self).toks(), query_tree(query), old(self).pos as int), final(self).pos),
        decreases old(self).tokens@.len() - old(self).pos, 26int,
    {
        let ghost ts = self.toks();
        let s47: usize = self.pos;
        let order_by: Vec<(Expr2, bool)> = match self.parse_order_by() {
            Ok(x) => x,
            Err(e) => {
                return Err(e);
            },
        };
        if self.pos < s47 || self.pos > self.tokens.len() {
            return Err(no_phrase(s47));
        }
        match self.parse_limit() {
            Ok(limit) => Ok(sorted_of(query, order_by, limit)),
            Err(e) => Err(e),
        }
    }

    fn parse_clause(&mut self, kw: &str) -> (r: Result<Option<Expr2>, ParseError>)
        ensures
            final(self).tokens == old(self).tokens,
            got_clause(r, clause_at(old(self).toks(), kw@, old(self).pos as int), final(self).pos),
        decreases old(self).tokens@.len() - old(self).pos, 24int,
    {
        let ghost ts = self.toks();
        if self.kw(self.pos, kw) {
            self.pos = self.pos + 1;
            let s30: usize = self.pos;
            let x: Expr2 = match self.parse_expr() {
                Ok(x) => x,
                Err(e) => {
                    return Err(e);
                },
            };
            if self.pos <= s30 || self.pos > self.tokens.len() {
                return Err(no_phrase(s30));
            }
            proof {
                assert(option_tree(Some(x)) == Some(expr_tree(x))) by {
                    reveal(option_tree);
                    reveal(expr_tree);
                }
            }
            return Ok(Some(x));
        }
        proof {
            assert(option_tree(None) == None::<Tree>) by {
                reveal(option_tree);
            }
        }
        Ok(None)
    }

    fn parse_group_by(&mut self) -> (r: Result<Vec<Expr2>, ParseError>)
        ensures
            final(self).tokens == old(self).tokens,
            got_trees(r, group_at(old(self).toks(), old(self).pos as int), final(self).pos),
        decreases old(self).tokens@.len() - old(self).pos, 25int,
    {
        let ghost ts = self.toks();
        if !self.kw(self.pos, "GROUP") {
            proof {
                assert(expr_trees(Seq::empty()) == Seq::<Tree>::empty()) by {
                    reveal(expr_trees);
                }
            }
            return Ok(Vec::new());
        }
        self.pos = self.pos + 1;
        if !self.kw(self.pos, "BY") {
            return Err(fail("expected keyword BY", self.pos));
        }
        self.pos = self.pos + 1;
        self.parse_expr_list()
    }

    /// Expressions to group by.
    fn parse_expr_list(&mut self) -> (r: Result<Vec<Expr2>, ParseError>)
        ensures
            final(self).tokens == old(self).tokens,
            got_trees(r, keys_at(old(self).toks(), Seq::empty(), old(self).pos as int), final(self).pos),
        decreases old(self).tokens@.len() - old(self).pos, 24int,
    {
        let ghost ts = self.toks();
        let mut list: Vec<Expr2> = Vec::new();
        let ghost goal = keys_at(ts, Seq::empty(), self.pos as int);
        proof {
            assert(expr_trees(list@) == Seq::<Tree>::empty()) by {
                reveal(expr_trees);
            }
        }
        loop
            invariant
                self.tokens == old(self).tokens,
                ts == self.toks(),
                old(self).pos <= self.pos,
                old(self).pos < self.pos ==> self.pos <= self.tokens@.len(),
                goal == keys_at(ts, Seq::empty(), old(self).pos as int),
                goal == keys_at(ts, expr_trees(list@), self.pos as int),
            decreases self.tokens@.len() - self.pos,
        {
            let number: bool = self.pos < self.tokens.len() && (match &self.tokens[self.pos] {
                Token::Int(_) => true,
                _ => false,
            });
            if number {
                self.pos = self.pos + 1;
            } else {
                let s31: usize = self.pos;
                let x: Expr2 = match self.parse_expr() {
                    Ok(x) => x,
                    Err(e) => {
                        return Err(e);
                    },
                };
                if self.pos <= s31 || self.pos > self.tokens.len() {
                    return Err(no_phrase(s31));
                }
                let ghost before = list@;
                list.push(x);
                proof {
                    assert(expr_trees(list@) == expr_trees(before).push(expr_tree(x))) by {
                        reveal(expr_trees);
                        reveal(expr_tree);
                        assert(list@.drop_last() =~= before);
                    }
                }
            }
            if !self.comma(self.pos) {
                return Ok(list);
            }
            self.pos = self.pos + 1;
        }
    }

    fn parse_order_by(&mut self) -> (r: Result<Vec<(Expr2, bool)>, ParseError>)
        ensures
            final(self).tokens == old(self).tokens,
            got_orders(r, order_at(old(self).toks(), old(self).pos as int), final(self).pos),
        decreases old(self).tokens@.len() - old(self).pos, 25int,
    {
        let ghost ts = self.toks();
        if !self.kw(self.pos, "ORDER") {
            proof {
                assert(order_trees(Seq::empty()) == Seq::<(Tree, bool)>::empty()) by {
                    reveal(order_trees);
                }
            }
            return Ok(Vec::new());
        }
        self.pos = self.pos + 1;
        if !self.kw(self.pos, "BY") {
            return Err(fail("expected keyword BY", self.pos));
        }
        self.pos = self.pos + 1;
        self.parse_order_list()
    }

    /// Expressions to sort by.
    fn parse_order_list(&mut self) -> (r: Result<Vec<(Expr2, bool)>, ParseError>)
        ensures
            final(self).tokens == old(self).tokens,
            got_orders(r, orders_at(old(self).toks(), Seq::empty(), old(self).pos as int), final(self).pos),
        decreases old(self).tokens@.len() - old(self).pos, 24int,
    {
        let ghost ts = self.toks();
        let mut list: Vec<(Expr2, bool)> = Vec::new();
        let ghost goal = orders_at(ts, Seq::empty(), self.pos as int);
        proof {
            assert(order_trees(list@) == Seq::<(Tree, bool)>::empty()) by {
                reveal(order_trees);
            }
        }
        loop
            invariant
                self.tokens == old(self).tokens,
                ts == self.toks(),
                old(self).pos <= self.pos,
                old(self).pos < self.pos ==> self.pos <= self.tokens@.len(),
                goal == orders_at(ts, Seq::empty(), old(self).pos as int),
                goal == orders_at(ts, order_trees(list@), self.pos as int),
            decreases self.tokens@.len() - self.pos,
        {
            let s32: usize = self.pos;
            let x: Expr2 = match self.parse_expr() {
                Ok(x) => x,
                Err(e) => {
                    return Err(e);
                },
            };
            if self.pos <= s32 || self.pos > self.tokens.len() {
                return Err(no_phrase(s32));
            }
            let ascending: bool = !self.word(self.pos, "DESC");
            if !ascending || self.word(self.pos, "ASC") {
                self.pos = self.pos + 1;
            }
            let ghost before = list@;
            list.push((x, ascending));
            proof {
                assert(order_trees(list@) == order_trees(before).push((expr_tree(x), ascending))) by {
                    reveal(order_trees);
                    reveal(expr_tree);
                    assert(list@.drop_last() =~= before);
                }
            }
            if !self.comma(self.pos) {
                return Ok(list);
            }
            self.pos = self.pos + 1;
        }
    }

    fn parse_limit(&mut self) -> (r: Result<Option<usize>, ParseError>)
        ensures
            final(self).tokens == old(self).tokens,
            got_limit(r, limit_at(old(self).toks(), old(self).pos as int), final(self).pos),
        decreases old(self).tokens@.len() - old(self).pos, 0int,
    {
        let ghost ts = self.toks();
        proof {
            reveal(limit_at);
        }
        if !self.word(self.pos, "LIMIT") {
            return Ok(None);
        }
        self.pos = self.pos + 1;
        if self.pos < self.tokens.len() {
            match &self.tokens[self.pos] {
                Token::Int(i) => {
                    if *i < 0 || *i as u128 > usize::MAX as u128 {
                        return Err(fail("expected non-negative", self.pos));
                    }
                    let n: usize = *i as usize;
                    self.pos = self.pos + 1;
                    return Ok(Some(n));
                },
                _ => {},
            }
        }
        Err(fail("expected integer", self.pos))
    }

    /// Selected items.
    fn parse_select_list(&mut self) -> (r: Result<Vec<SelectItem2>, ParseError>)
        ensures
            final(self).tokens == old(self).tokens,
            got_items(r, items_at(old(self).toks(), Seq::empty(), old(self).pos as int), final(self).pos),
        decreases old(self).tokens@.len() - old(self).pos, 24int,
    {
        let ghost ts = self.toks();
        let mut list: Vec<SelectItem2> = Vec::new();
        let ghost goal = items_at(ts, Seq::empty(), self.pos as int);
        proof {
            assert(item_trees(list@) == Seq::<ItemTree>::empty()) by {
                reveal(item_trees);
            }
        }
        loop
            invariant
                self.tokens == old(self).tokens,
                ts == self.toks(),
                old(self).pos <= self.pos,
                old(self).pos < self.pos ==> self.pos <= self.tokens@.len(),
                goal == items_at(ts, Seq::empty(), old(self).pos as int),
                goal == items_at(ts, item_trees(list@), self.pos as int),
            decreases self.tokens@.len() - self.pos,
        {
            let s33: usize = self.pos;
            let x: SelectItem2 = match self.parse_item() {
                Ok(x) => x,
                Err(e) => {
                    return Err(e);
                },
            };
            if self.pos <= s33 || self.pos > self.tokens.len() {
                return Err(no_phrase(s33));
            }
            let ghost before = list@;
            list.push(x);
            proof {
                assert(item_trees(list@) == item_trees(before).push(item_tree(x))) by {
                    reveal(item_trees);
                    reveal(item_tree);
                    assert(list@.drop_last() =~= before);
                }
            }
            if !self.comma(self.pos) {
                return Ok(list);
            }
            self.pos = self.pos + 1;
        }
    }

    /// A selected item.
    fn parse_item(&mut self) -> (r: Result<SelectItem2, ParseError>)
        ensures
            final(self).tokens == old(self).tokens,
            got_item(r, item_at(old(self).toks(), old(self).pos as int), final(self).pos),
        decreases old(self).tokens@.len() - old(self).pos, 23int,
    {
        let ghost ts = self.toks();
        if self.op(self.pos, "*") {
            self.pos = self.pos + 1;
            let one: Expr2 = Expr2::Int(1);
            proof {
                assert(expr_tree(one) == Tree::Int(1)) by {
                    reveal(expr_tree);
                }
            }
            let item: SelectItem2 = SelectItem2 { expr: one, alias: None };
            proof {
                assert(item_tree(item) == (ItemTree { expr: expr_tree(one), alias: None })) by {
                    reveal(item_tree);
                    reveal(expr_tree);
                }
            }
            return Ok(item);
        }
        let s34: usize = self.pos;
        let expr: Expr2 = match self.parse_expr() {
            Ok(x) => x,
            Err(e) => {
                return Err(e);
            },
        };
        if self.pos <= s34 || self.pos > self.tokens.len() {
            return Err(no_phrase(s34));
        }
        match self.parse_alias() {
            Ok(alias) => {
                let item: SelectItem2 = SelectItem2 { expr, alias };
                proof {
                    assert(item_tree(item) == (ItemTree { expr: expr_tree(expr), alias: text_of(alias) })) by {
                        reveal(item_tree);
                        reveal(expr_tree);
                    }
                }
                Ok(item)
            },
            Err(e) => Err(e),
        }
    }

    /// Tables.
    fn parse_from_list(&mut self) -> (r: Result<Vec<FromItem>, ParseError>)
        ensures
            final(self).tokens == old(self).tokens,
            got_froms(r, froms_at(old(self).toks(), Seq::empty(), old(self).pos as int), final(self).pos),
        decreases old(self).tokens@.len() - old(self).pos, 24int,
    {
        let ghost ts = self.toks();
        let mut list: Vec<FromItem> = Vec::new();
        let ghost goal = froms_at(ts, Seq::empty(), self.pos as int);
        proof {
            assert(from_trees(list@) == Seq::<FromTree>::empty()) by {
                reveal(from_trees);
            }
        }
        loop
            invariant
                self.tokens == old(self).tokens,
                ts == self.toks(),
                old(self).pos <= self.pos,
                old(self).pos < self.pos ==> self.pos <= self.tokens@.len(),
                goal == froms_at(ts, Seq::empty(), old(self).pos as int),
                goal == froms_at(ts, from_trees(list@), self.pos as int),
            decreases self.tokens@.len() - self.pos,
        {
            let s35: usize = self.pos;
            let x: FromItem = match self.parse_from_item() {
                Ok(x) => x,
                Err(e) => {
                    return Err(e);
                },
            };
            if self.pos <= s35 || self.pos > self.tokens.len() {
                return Err(no_phrase(s35));
            }
            let ghost before = list@;
            list.push(x);
            proof {
                assert(from_trees(list@) == from_trees(before).push(from_tree(x))) by {
                    reveal(from_trees);
                    reveal(from_tree);
                    assert(list@.drop_last() =~= before);
                }
            }
            if !self.comma(self.pos) {
                return Ok(list);
            }
            self.pos = self.pos + 1;
        }
    }

    fn parse_from_item(&mut self) -> (r: Result<FromItem, ParseError>)
        ensures
            final(self).tokens == old(self).tokens,
            got_from(r, from_at(old(self).toks(), old(self).pos as int), final(self).pos),
        decreases old(self).tokens@.len() - old(self).pos, 23int,
    {
        let ghost ts = self.toks();
        if self.lp(self.pos) && self.kw(self.pos + 1, "SELECT") {
            let s36: usize = self.pos;
            let q: SelectQuery2 = match self.parse_nested() {
                Ok(x) => x,
                Err(e) => {
                    return Err(e);
                },
            };
            if self.pos <= s36 || self.pos > self.tokens.len() {
                return Err(no_phrase(s36));
            }
            return match self.parse_alias() {
                Ok(alias) => {
                    let item: FromItem = FromItem::Derived(Box::new(q), alias);
                    proof {
                        assert(from_tree(item) == FromTree::Derived(Box::new(query_tree(q)), text_of(alias))) by {
                            reveal(from_tree);
                            reveal(query_tree);
                        }
                    }
                    Ok(item)
                },
                Err(e) => Err(e),
            };
        }
        let s37: usize = self.pos;
        let name: String = match self.parse_ident_name() {
            Ok(x) => x,
            Err(e) => {
                return Err(e);
            },
        };
        if self.pos <= s37 || self.pos > self.tokens.len() {
            return Err(no_phrase(s37));
        }
        match self.parse_alias() {
            Ok(alias) => {
                let item: FromItem = FromItem::Table(TableRef { name, alias });
                proof {
                    assert(from_tree(item) == FromTree::Table(name@, text_of(alias))) by {
                        reveal(from_tree);
                    }
                }
                Ok(item)
            },
            Err(e) => Err(e),
        }
    }

    /// Joins behind the tables.
    fn parse_joins(&mut self) -> (r: Result<Vec<JoinClause2>, ParseError>)
        ensures
            final(self).tokens == old(self).tokens,
            got_joins(r, joins_at(old(self).toks(), Seq::empty(), old(self).pos as int), final(self).pos),
        decreases old(self).tokens@.len() - old(self).pos, 25int,
    {
        let ghost ts = self.toks();
        let mut list: Vec<JoinClause2> = Vec::new();
        let ghost goal = joins_at(ts, Seq::empty(), self.pos as int);
        proof {
            assert(join_trees(list@) == Seq::<JoinTree>::empty()) by {
                reveal(join_trees);
            }
        }
        loop
            invariant
                self.tokens == old(self).tokens,
                ts == self.toks(),
                old(self).pos <= self.pos,
                old(self).pos < self.pos ==> self.pos <= self.tokens@.len(),
                goal == joins_at(ts, Seq::empty(), old(self).pos as int),
                goal == joins_at(ts, join_trees(list@), self.pos as int),
            decreases self.tokens@.len() - self.pos,
        {
            let join_type: JoinType2 = match self.parse_join_words() {
                Ok(Some(t)) => t,
                Ok(None) => {
                    return Ok(list);
                },
                Err(e) => {
                    return Err(e);
                },
            };
            let s38: usize = self.pos;
            let j: JoinClause2 = match self.parse_join(join_type) {
                Ok(x) => x,
                Err(e) => {
                    return Err(e);
                },
            };
            if self.pos <= s38 || self.pos > self.tokens.len() {
                return Err(no_phrase(s38));
            }
            let ghost before = list@;
            list.push(j);
            proof {
                assert(join_trees(list@) == join_trees(before).push(join_tree(j))) by {
                    reveal(join_trees);
                    reveal(join_tree);
                    assert(list@.drop_last() =~= before);
                }
            }
        }
    }

    /// The words that a join begins with.
    fn parse_join_words(&mut self) -> (r: Result<Option<JoinType2>, ParseError>)
        ensures
            final(self).tokens == old(self).tokens,
            got_words(r, join_words(old(self).toks(), old(self).pos as int), final(self).pos),
        decreases old(self).tokens@.len() - old(self).pos, 0int,
    {
        let ghost ts = self.toks();
        let left: bool = self.word(self.pos, "LEFT");
        let inner: bool = self.word(self.pos, "INNER");
        if left {
            self.pos = self.pos + 1;
            if self.word(self.pos, "OUTER") {
                self.pos = self.pos + 1;
            }
        } else if inner {
            self.pos = self.pos + 1;
        }
        if self.kw(self.pos, "JOIN") {
            self.pos = self.pos + 1;
            return if left {
                Ok(Some(JoinType2::Left))
            } else {
                Ok(Some(JoinType2::Inner))
            };
        }
        if left || inner {
            return Err(fail("expected keyword JOIN", self.pos));
        }
        Ok(None)
    }

    fn parse_join(&mut self, join_type: JoinType2) -> (r: Result<JoinClause2, ParseError>)
        ensures
            final(self).tokens == old(self).tokens,
            got_join(r, join_at(old(self).toks(), join_type, old(self).pos as int), final(self).pos),
        decreases old(self).tokens@.len() - old(self).pos, 24int,
    {
        let ghost ts = self.toks();
        let s39: usize = self.pos;
        let table: FromItem = match self.parse_from_item() {
            Ok(x) => x,
            Err(e) => {
                return Err(e);
            },
        };
        if self.pos <= s39 || self.pos > self.tokens.len() {
            return Err(no_phrase(s39));
        }
        if !self.kw(self.pos, "ON") {
            return Err(fail("expected keyword ON", self.pos));
        }
        self.pos = self.pos + 1;
        let s40: usize = self.pos;
        let on: Expr2 = match self.parse_expr() {
            Ok(x) => x,
            Err(e) => {
                return Err(e);
            },
        };
        if self.pos <= s40 || self.pos > self.tokens.len() {
            return Err(no_phrase(s40));
        }
        let join: JoinClause2 = JoinClause2 { join_type, table, on };
        proof {
            assert(join_tree(join) == (JoinTree { join_type, table: from_tree(table), on: expr_tree(on) })) by {
                reveal(join_tree);
                reveal(from_tree);
                reveal(expr_tree);
            }
        }
        Ok(join)
    }
}

fn case_of(whens: Vec<(Expr2, Expr2)>, last: Option<Expr2>) -> (e: Expr2)
    ensures
        expr_tree(e) == (Tree::Case {
            whens: branch_trees(whens@),
            else_: match option_tree(last) {
                Some(x) => Some(Box::new(x)),
                None => None,
            },
        }),
{
    proof {
        reveal(expr_tree);
        reveal(branch_trees);
        reveal(option_tree);
    }
    match last {
        Some(x) => Expr2::Case { whens, else_: Some(Box::new(x)) },
        None => Expr2::Case { whens, else_: None },
    }
}

fn having_of(query: SelectQuery2, having: Option<Expr2>) -> (q: SelectQuery2)
    ensures
        query_tree(q) == (QueryTree { having: option_tree(having), ..query_tree(query) }),
{
    proof {
        reveal(query_tree);
        reveal(option_tree);
    }
    SelectQuery2 {
        select: query.select,
        from: query.from,
        joins: query.joins,
        where_clause: query.where_clause,
        group_by: query.group_by,
        having,
        order_by: query.order_by,
        limit: query.limit,
    }
}

fn sorted_of(query: SelectQuery2, order_by: Vec<(Expr2, bool)>, limit: Option<usize>) -> (q: SelectQuery2)
    ensures
        query_tree(q) == (QueryTree { order_by: order_trees(order_by@), limit, ..query_tree(query) }),
{
    proof {
        reveal(query_tree);
        reveal(order_trees);
    }
    SelectQuery2 {
        select: query.select,
        from: query.from,
        joins: query.joins,
        where_clause: query.where_clause,
        group_by: query.group_by,
        having: query.having,
        order_by,
        limit,
    }
}

fn find_func(name: &str) -> (r: Option<AggFunc>)
    ensures
        r == func_of(name@),
{
    if same_text(name, "SUM") {
        Some(AggFunc::Sum)
    } else if same_text(name, "AVG") {
        Some(AggFunc::Avg)
    } else if same_text(name, "COUNT") {
        Some(AggFunc::Count)
    } else if same_text(name, "MIN") {
        Some(AggFunc::Min)
    } else if same_text(name, "MAX") {
        Some(AggFunc::Max)
    } else {
        None
    }
}

/// The query that a text is.
pub open spec fn query_read<P: Fn(&str) -> Option<u64>>(p: P, sql: Seq<char>) -> Result<QueryTree, Bad> {
    match tokens_in(p, sql, 0) {
        Ok(ts) => query_in(ts),
        Err(e) => Err(e),
    }
}

/// Reads a query. `reader` reads doubles.
pub fn parse_tpch<P: Fn(&str) -> Option<u64>>(sql: &str, reader: &P) -> (r: Result<SelectQuery2, ParseError>)
    requires
        is_reader(*reader),
    ensures
        match r {
            Ok(q) => query_read(*reader, sql@) == Ok::<QueryTree, Bad>(query_of(q)),
            Err(e) => query_read(*reader, sql@) == Err::<QueryTree, Bad>(e@),
        },
{
    let tokens: Vec<Token> = match tokenize(sql, reader) {
        Ok(tokens) => tokens,
        Err(e) => {
            return Err(e);
        },
    };
    proof {
        reveal(query_tree);
    }
    let mut p: TpchParser = TpchParser { tokens, pos: 0 };
    let q: SelectQuery2 = match p.parse_select() {
        Ok(q) => q,
        Err(e) => {
            return Err(e);
        },
    };
    if p.pos >= p.tokens.len() {
        return Ok(q);
    }
    match &p.tokens[p.pos] {
        Token::Semicolon => Ok(q),
        Token::End => Ok(q),
        _ => Err(fail("unexpected trailing token", p.pos)),
    }
}

} // verus!
