//! Arithmetic expressions over the cells of a table row.
//!
//! An expression is a list of words separated by white space: column names,
//! numbers, `+ - * /` and parentheses.

use crate::float_bits::{arith, float_eq, is_arith, is_reader, reads_as, same, FloatOp};
use crate::table::{name_index, Table};
use crate::text::{
    is_space, parse_i64, parse_u64, read_i64, read_u64, split_words, string_of, word_len, word_rows, words,
};
use crate::word::{signed_word, word_of};
use vstd::prelude::*;

verus! {

/// Words from here on are taken for doubles.
pub const INTEGER_LIMIT: u64 = 0x1000_0000_0000_0000;

/// The word is one character.
pub open spec fn is_mark(token: Seq<char>, c: char) -> bool {
    token.len() == 1 && token[0] == c
}

/// The value of a single word: an integer, a double, or a cell of the row; zero
/// where it is none of these.
pub open spec fn token_value<P: Fn(&str) -> Option<u64>>(p: P, token: Seq<char>, table: Table, row: int) -> u64 {
    match read_i64(token) {
        Some(n) => signed_word(n),
        None => match read_u64(token) {
            Some(n) => n,
            None => match reads_as(p, token) {
                Some(bits) => bits,
                None => match name_index(table.column_names@, token) {
                    Some(c) => if row < table.columns@[c as int].len() {
                        table.cell(c as int, row)
                    } else {
                        0
                    },
                    None => 0,
                },
            },
        },
    }
}

/// The double that a cell holds: a small one is an integer and is converted.
pub open spec fn as_double<F: Fn(FloatOp, u64, u64) -> u64>(f: F, cell: u64) -> u64 {
    if cell < INTEGER_LIMIT {
        arith(f, FloatOp::FromU64, cell, 0)
    } else {
        cell
    }
}

/// An operation on two cells: on integers where both are small, else on doubles.
/// Division by zero gives zero, and so does an unknown operation.
pub open spec fn binop_value<F: Fn(FloatOp, u64, u64) -> u64>(f: F, op: Seq<char>, left: u64, right: u64) -> u64 {
    if left < INTEGER_LIMIT && right < INTEGER_LIMIT {
        if is_mark(op, '+') {
            left.wrapping_add(right)
        } else if is_mark(op, '-') {
            left.wrapping_sub(right)
        } else if is_mark(op, '*') {
            left.wrapping_mul(right)
        } else if is_mark(op, '/') && right != 0 {
            left / right
        } else {
            0
        }
    } else {
        let l = as_double(f, left);
        let r = as_double(f, right);
        if is_mark(op, '+') {
            arith(f, FloatOp::Add, l, r)
        } else if is_mark(op, '-') {
            arith(f, FloatOp::Sub, l, r)
        } else if is_mark(op, '*') {
            arith(f, FloatOp::Mul, l, r)
        } else if is_mark(op, '/') && !float_eq(r, 0) {
            arith(f, FloatOp::Div, l, r)
        } else {
            0
        }
    }
}

/// The greater of two places.
pub open spec fn onward(from: int, to: int) -> int {
    if to < from {
        from
    } else {
        to
    }
}

/// How many words stand from `pos` on.
pub open spec fn words_left(tokens: Seq<Seq<char>>, pos: int) -> nat {
    if pos < tokens.len() {
        (tokens.len() - pos) as nat
    } else {
        0
    }
}

/// The value of the operand at `pos`, and the place behind it. A parenthesis
/// that is not closed ends with the expression; a missing operand is zero.
pub open spec fn primary_value<F: Fn(FloatOp, u64, u64) -> u64, P: Fn(&str) -> Option<u64>>(
    f: F,
    p: P,
    tokens: Seq<Seq<char>>,
    pos: int,
    table: Table,
    row: int,
) -> (u64, int)
    decreases words_left(tokens, pos), 0int,
{
    if pos >= tokens.len() {
        (0, pos)
    } else if is_mark(tokens[pos], '(') {
        let (v, q) = sum_value(f, p, tokens, pos + 1, table, row);
        if q < tokens.len() && is_mark(tokens[q], ')') {
            (v, q + 1)
        } else {
            (v, q)
        }
    } else {
        (token_value(p, tokens[pos], table, row), pos + 1)
    }
}

/// The value of a product that begins at `pos`, and the place behind it.
pub open spec fn product_value<F: Fn(FloatOp, u64, u64) -> u64, P: Fn(&str) -> Option<u64>>(
    f: F,
    p: P,
    tokens: Seq<Seq<char>>,
    pos: int,
    table: Table,
    row: int,
) -> (u64, int)
    decreases words_left(tokens, pos), 2int,
{
    let (v, q) = primary_value(f, p, tokens, pos, table, row);
    product_rest(f, p, tokens, onward(pos, q), v, table, row)
}

/// Goes on with a product whose value up to `pos` is `left`.
pub open spec fn product_rest<F: Fn(FloatOp, u64, u64) -> u64, P: Fn(&str) -> Option<u64>>(
    f: F,
    p: P,
    tokens: Seq<Seq<char>>,
    pos: int,
    left: u64,
    table: Table,
    row: int,
) -> (u64, int)
    decreases words_left(tokens, pos), 1int,
{
    if 0 <= pos < tokens.len() && (is_mark(tokens[pos], '*') || is_mark(tokens[pos], '/')) {
        let (v, q) = primary_value(f, p, tokens, pos + 1, table, row);
        product_rest(f, p, tokens, onward(pos + 1, q), binop_value(f, tokens[pos], left, v), table, row)
    } else {
        (left, pos)
    }
}

/// The value of a sum that begins at `pos`, and the place behind it.
pub open spec fn sum_value<F: Fn(FloatOp, u64, u64) -> u64, P: Fn(&str) -> Option<u64>>(
    f: F,
    p: P,
    tokens: Seq<Seq<char>>,
    pos: int,
    table: Table,
    row: int,
) -> (u64, int)
    decreases words_left(tokens, pos), 4int,
{
    let (v, q) = product_value(f, p, tokens, pos, table, row);
    sum_rest(f, p, tokens, onward(pos, q), v, table, row)
}

/// Goes on with a sum whose value up to `pos` is `left`.
pub open spec fn sum_rest<F: Fn(FloatOp, u64, u64) -> u64, P: Fn(&str) -> Option<u64>>(
    f: F,
    p: P,
    tokens: Seq<Seq<char>>,
    pos: int,
    left: u64,
    table: Table,
    row: int,
) -> (u64, int)
    decreases words_left(tokens, pos), 3int,
{
    if 0 <= pos < tokens.len() && (is_mark(tokens[pos], '+') || is_mark(tokens[pos], '-')) {
        let (v, q) = product_value(f, p, tokens, pos + 1, table, row);
        sum_rest(f, p, tokens, onward(pos + 1, q), binop_value(f, tokens[pos], left, v), table, row)
    } else {
        (left, pos)
    }
}

/// The value of an expression: nothing is zero, a single word is its own value.
pub open spec fn expr_value<F: Fn(FloatOp, u64, u64) -> u64, P: Fn(&str) -> Option<u64>>(
    f: F,
    p: P,
    tokens: Seq<Seq<char>>,
    table: Table,
    row: int,
) -> u64 {
    if tokens.len() == 0 {
        0
    } else if tokens.len() == 1 {
        token_value(p, tokens[0], table, row)
    } else {
        sum_value(f, p, tokens, 0, table, row).0
    }
}

fn mark(token: &Vec<char>, c: char) -> (b: bool)
    ensures
        b == is_mark(token@, c),
{
    token.len() == 1 && token[0] == c
}

/// The table has a column of cells behind every column name.
pub open spec fn columns_named(table: Table) -> bool {
    table.column_names.len() <= table.columns.len()
}

fn eval_token<P: Fn(&str) -> Option<u64>>(token: &Vec<char>, table: &Table, row_idx: usize, reader: &P) -> (v: u64)
    requires
        is_reader(*reader),
        columns_named(*table),
    ensures
        v == token_value(*reader, token@, *table, row_idx as int),
{
    match parse_i64(token) {
        Some(n) => {
            return word_of(n);
        },
        None => {},
    }
    match parse_u64(token) {
        Some(n) => {
            return n;
        },
        None => {},
    }
    let text: String = string_of(token);
    match reader(text.as_str()) {
        Some(bits) => {
            return bits;
        },
        None => {},
    }
    match table.column_idx(text.as_str()) {
        Some(c) => {
            let column: &Vec<u64> = &table.columns[c];
            if row_idx < column.len() {
                column[row_idx]
            } else {
                0
            }
        },
        None => 0,
    }
}

fn double_of<F: Fn(FloatOp, u64, u64) -> u64>(cell: u64, fpu: &F) -> (d: u64)
    requires
        is_arith(*fpu),
    ensures
        d == as_double(*fpu, cell),
{
    if cell < INTEGER_LIMIT {
        fpu(FloatOp::FromU64, cell, 0)
    } else {
        cell
    }
}

fn eval_binop<F: Fn(FloatOp, u64, u64) -> u64>(op: &Vec<char>, left: u64, right: u64, fpu: &F) -> (v: u64)
    requires
        is_arith(*fpu),
    ensures
        v == binop_value(*fpu, op@, left, right),
{
    if left < INTEGER_LIMIT && right < INTEGER_LIMIT {
        if mark(op, '+') {
            left.wrapping_add(right)
        } else if mark(op, '-') {
            left.wrapping_sub(right)
        } else if mark(op, '*') {
            left.wrapping_mul(right)
        } else if mark(op, '/') && right != 0 {
            left / right
        } else {
            0
        }
    } else {
        let l: u64 = double_of(left, fpu);
        let r: u64 = double_of(right, fpu);
        if mark(op, '+') {
            fpu(FloatOp::Add, l, r)
        } else if mark(op, '-') {
            fpu(FloatOp::Sub, l, r)
        } else if mark(op, '*') {
            fpu(FloatOp::Mul, l, r)
        } else if mark(op, '/') && !same(r, 0) {
            fpu(FloatOp::Div, l, r)
        } else {
            0
        }
    }
}

/// A reader of arithmetic expressions: the words and the place it has reached.
pub struct ExprParser<'a> {
    pub tokens: &'a Vec<Vec<char>>,
    pub pos: usize,
}

impl<'a> ExprParser<'a> {
    pub open spec fn wf(&self) -> bool {
        self.pos <= self.tokens.len()
    }

    /// Evaluates from the present place on.
    pub fn parse_expr<F: Fn(FloatOp, u64, u64) -> u64, P: Fn(&str) -> Option<u64>>(
        &mut self,
        table: &Table,
        row_idx: usize,
        fpu: &F,
        reader: &P,
    ) -> (v: u64)
        requires
            old(self).wf(),
            is_arith(*fpu),
            is_reader(*reader),
            columns_named(*table),
        ensures
            final(self).wf(),
            final(self).tokens == old(self).tokens,
            final(self).pos >= old(self).pos,
            (v, final(self).pos as int) == sum_value(
                *fpu,
                *reader,
                word_rows(old(self).tokens@),
                old(self).pos as int,
                *table,
                row_idx as int,
            ),
        decreases old(self).tokens.len() - old(self).pos, 5int,
    {
        self.parse_additive(table, row_idx, fpu, reader)
    }

    fn parse_additive<F: Fn(FloatOp, u64, u64) -> u64, P: Fn(&str) -> Option<u64>>(
        &mut self,
        table: &Table,
        row_idx: usize,
        fpu: &F,
        reader: &P,
    ) -> (v: u64)
        requires
            old(self).wf(),
            is_arith(*fpu),
            is_reader(*reader),
            columns_named(*table),
        ensures
            final(self).wf(),
            final(self).tokens == old(self).tokens,
            final(self).pos >= old(self).pos,
            (v, final(self).pos as int) == sum_value(
                *fpu,
                *reader,
                word_rows(old(self).tokens@),
                old(self).pos as int,
                *table,
                row_idx as int,
            ),
        decreases old(self).tokens.len() - old(self).pos, 4int,
    {
        let ghost toks = word_rows(self.tokens@);
        let ghost start = self.pos as int;
        let mut left: u64 = self.parse_multiplicative(table, row_idx, fpu, reader);
        let ghost goal = sum_value(*fpu, *reader, toks, start, *table, row_idx as int);
        while self.pos < self.tokens.len() && (mark(&self.tokens[self.pos], '+') || mark(&self.tokens[self.pos], '-'))
            invariant
                self.wf(),
                is_arith(*fpu),
                is_reader(*reader),
                columns_named(*table),
                self.tokens == old(self).tokens,
                toks == word_rows(self.tokens@),
                start == old(self).pos,
                start <= self.pos,
                sum_rest(*fpu, *reader, toks, self.pos as int, left, *table, row_idx as int) == goal,
            decreases self.tokens.len() - self.pos,
        {
            let at: usize = self.pos;
            self.pos = self.pos + 1;
            let right: u64 = self.parse_multiplicative(table, row_idx, fpu, reader);
            left = eval_binop(&self.tokens[at], left, right, fpu);
        }
        left
    }

    fn parse_multiplicative<F: Fn(FloatOp, u64, u64) -> u64, P: Fn(&str) -> Option<u64>>(
        &mut self,
        table: &Table,
        row_idx: usize,
        fpu: &F,
        reader: &P,
    ) -> (v: u64)
        requires
            old(self).wf(),
            is_arith(*fpu),
            is_reader(*reader),
            columns_named(*table),
        ensures
            final(self).wf(),
            final(self).tokens == old(self).tokens,
            final(self).pos >= old(self).pos,
            (v, final(self).pos as int) == product_value(
                *fpu,
                *reader,
                word_rows(old(self).tokens@),
                old(self).pos as int,
                *table,
                row_idx as int,
            ),
        decreases old(self).tokens.len() - old(self).pos, 2int,
    {
        let ghost toks = word_rows(self.tokens@);
        let ghost start = self.pos as int;
        let mut left: u64 = self.parse_primary(table, row_idx, fpu, reader);
        let ghost goal = product_value(*fpu, *reader, toks, start, *table, row_idx as int);
        while self.pos < self.tokens.len() && (mark(&self.tokens[self.pos], '*') || mark(&self.tokens[self.pos], '/'))
            invariant
                self.wf(),
                is_arith(*fpu),
                is_reader(*reader),
                columns_named(*table),
                self.tokens == old(self).tokens,
                toks == word_rows(self.tokens@),
                start == old(self).pos,
                start <= self.pos,
                product_rest(*fpu, *reader, toks, self.pos as int, left, *table, row_idx as int) == goal,
            decreases self.tokens.len() - self.pos,
        {
            let at: usize = self.pos;
            self.pos = self.pos + 1;
            let right: u64 = self.parse_primary(table, row_idx, fpu, reader);
            left = eval_binop(&self.tokens[at], left, right, fpu);
        }
        left
    }

    fn parse_primary<F: Fn(FloatOp, u64, u64) -> u64, P: Fn(&str) -> Option<u64>>(
        &mut self,
        table: &Table,
        row_idx: usize,
        fpu: &F,
        reader: &P,
    ) -> (v: u64)
        requires
            old(self).wf(),
            is_arith(*fpu),
            is_reader(*reader),
            columns_named(*table),
        ensures
            final(self).wf(),
            final(self).tokens == old(self).tokens,
            final(self).pos >= old(self).pos,
            (v, final(self).pos as int) == primary_value(
                *fpu,
                *reader,
                word_rows(old(self).tokens@),
                old(self).pos as int,
                *table,
                row_idx as int,
            ),
        decreases old(self).tokens.len() - old(self).pos, 1int,
    {
        if self.pos >= self.tokens.len() {
            return 0;
        }
        let at: usize = self.pos;
        self.pos = self.pos + 1;
        if mark(&self.tokens[at], '(') {
            let value: u64 = self.parse_expr(table, row_idx, fpu, reader);
            if self.pos < self.tokens.len() && mark(&self.tokens[self.pos], ')') {
                self.pos = self.pos + 1;
            }
            return value;
        }
        eval_token(&self.tokens[at], table, row_idx, reader)
    }
}

/// Evaluates an expression for a row.
pub fn eval_expr<F: Fn(FloatOp, u64, u64) -> u64, P: Fn(&str) -> Option<u64>>(
    expr: &str,
    table: &Table,
    row_idx: usize,
    fpu: &F,
    reader: &P,
) -> (v: u64)
    requires
        is_arith(*fpu),
        is_reader(*reader),
        columns_named(*table),
    ensures
        v == expr_value(*fpu, *reader, words(expr@), *table, row_idx as int),
{
    let tokens: Vec<Vec<char>> = split_words(expr);
    proof {
        assert(word_rows(tokens@).len() == tokens.len());
    }
    if tokens.len() == 0 {
        return 0;
    }
    if tokens.len() == 1 {
        return eval_token(&tokens[0], table, row_idx, reader);
    }
    let mut parser: ExprParser = ExprParser { tokens: &tokens, pos: 0 };
    parser.parse_expr(table, row_idx, fpu, reader)
}

pub open spec fn is_operator_char(c: char) -> bool {
    c == '+' || c == '-' || c == '*' || c == '/' || c == '(' || c == ')'
}

/// Whether an expression is one word without operator characters.
pub fn is_simple_column(expr: &str) -> (b: bool)
    ensures
        b == (words(expr@).len() == 1 && forall|i: int|
            0 <= i < words(expr@)[0].len() ==> !is_operator_char(#[trigger] words(expr@)[0][i])),
{
    let tokens: Vec<Vec<char>> = split_words(expr);
    proof {
        assert(word_rows(tokens@).len() == tokens.len());
    }
    if tokens.len() != 1 {
        return false;
    }
    let word: &Vec<char> = &tokens[0];
    assert(words(expr@)[0] == word@);
    let mut i: usize = 0;
    while i < word.len()
        invariant
            i <= word.len(),
            words(expr@).len() == 1,
            words(expr@)[0] == word@,
            forall|k: int| 0 <= k < i ==> !is_operator_char(#[trigger] word@[k]),
        decreases word.len() - i,
    {
        let c: char = word[i];
        if c == '+' || c == '-' || c == '*' || c == '/' || c == '(' || c == ')' {
            assert(is_operator_char(words(expr@)[0][i as int]));
            return false;
        }
        i = i + 1;
    }
    true
}

/// The word is an operator or a parenthesis.
pub open spec fn is_operator(token: Seq<char>) -> bool {
    token.len() == 1 && is_operator_char(token[0])
}

/// Whether an operator or a parenthesis stands among the words of an expression.
pub fn is_arithmetic_expr(expr: &str) -> (b: bool)
    ensures
        b == exists|i: int| 0 <= i < words(expr@).len() && is_operator(#[trigger] words(expr@)[i]),
{
    let tokens: Vec<Vec<char>> = split_words(expr);
    let ghost toks = word_rows(tokens@);
    let mut i: usize = 0;
    while i < tokens.len()
        invariant
            i <= tokens.len(),
            toks == word_rows(tokens@),
            toks == words(expr@),
            forall|k: int| 0 <= k < i ==> !is_operator(#[trigger] toks[k]),
        decreases tokens.len() - i,
    {
        let t: &Vec<char> = &tokens[i];
        assert(toks[i as int] == t@);
        if mark(t, '+') || mark(t, '-') || mark(t, '*') || mark(t, '/') || mark(t, '(') || mark(t, ')') {
            return true;
        }
        i = i + 1;
    }
    false
}

/// The word is `+`, `-`, `*` or `/`.
pub open spec fn is_infix(token: Seq<char>) -> bool {
    is_mark(token, '+') || is_mark(token, '-') || is_mark(token, '*') || is_mark(token, '/')
}

/// Where the operand that begins at `pos` ends: a single word that is no mark, or
/// a chain in parentheses. Nothing where no operand stands.
pub open spec fn operand_end(tokens: Seq<Seq<char>>, pos: int) -> Option<int>
    decreases words_left(tokens, pos), 0int,
{
    if pos < 0 || pos >= tokens.len() {
        None
    } else if is_mark(tokens[pos], '(') {
        match operand_end(tokens, pos + 1) {
            Some(q) => if q > pos {
                match chain_end(tokens, q) {
                    Some(r) => if 0 <= r < tokens.len() && is_mark(tokens[r], ')') {
                        Some(r + 1)
                    } else {
                        None
                    },
                    None => None,
                }
            } else {
                None
            },
            None => None,
        }
    } else if is_operator(tokens[pos]) {
        None
    } else {
        Some(pos + 1)
    }
}

/// Where the operators and operands that go on at `pos` end. Nothing where an
/// operator has no operand behind it.
pub open spec fn chain_end(tokens: Seq<Seq<char>>, pos: int) -> Option<int>
    decreases words_left(tokens, pos), 1int,
{
    if 0 <= pos < tokens.len() && is_infix(tokens[pos]) {
        match operand_end(tokens, pos + 1) {
            Some(q) => if q > pos {
                chain_end(tokens, q)
            } else {
                None
            },
            None => None,
        }
    } else {
        Some(pos)
    }
}

/// Operands and operators alternate, and every parenthesis is closed.
pub open spec fn well_formed(tokens: Seq<Seq<char>>) -> bool {
    operand_end(tokens, 0) matches Some(q) && chain_end(tokens, q) == Some(tokens.len() as int)
}

/// Words in parentheses.
pub open spec fn bracketed(tokens: Seq<Seq<char>>) -> Seq<Seq<char>> {
    seq![seq!['(']] + tokens + seq![seq![')']]
}

proof fn lemma_operand_inside<F: Fn(FloatOp, u64, u64) -> u64, P: Fn(&str) -> Option<u64>>(
    f: F,
    p: P,
    tokens: Seq<Seq<char>>,
    pos: int,
    table: Table,
    row: int,
)
    requires
        operand_end(tokens, pos) is Some,
    ensures
        pos < operand_end(tokens, pos)->0 <= tokens.len(),
        primary_value(f, p, tokens, pos, table, row).1 == operand_end(tokens, pos)->0,
        primary_value(f, p, bracketed(tokens), pos + 1, table, row) == (
            primary_value(f, p, tokens, pos, table, row).0,
            operand_end(tokens, pos)->0 + 1,
        ),
    decreases words_left(tokens, pos), 0int,
{
    let b = bracketed(tokens);
    assert(b[pos + 1] == tokens[pos]);
    if is_mark(tokens[pos], '(') {
        let q = operand_end(tokens, pos + 1)->0;
        lemma_operand_inside(f, p, tokens, pos + 1, table, row);
        let v = primary_value(f, p, tokens, pos + 1, table, row).0;
        lemma_product_inside(f, p, tokens, q, v, table, row);
        let (w, m) = product_rest(f, p, tokens, q, v, table, row);
        lemma_sum_inside(f, p, tokens, m, w, table, row);
        let r = chain_end(tokens, q)->0;
        assert(b[r + 1] == tokens[r]);
    }
}

proof fn lemma_product_inside<F: Fn(FloatOp, u64, u64) -> u64, P: Fn(&str) -> Option<u64>>(
    f: F,
    p: P,
    tokens: Seq<Seq<char>>,
    pos: int,
    left: u64,
    table: Table,
    row: int,
)
    requires
        0 <= pos <= tokens.len(),
        chain_end(tokens, pos) is Some,
    ensures
        ({
            let (v, q) = product_rest(f, p, tokens, pos, left, table, row);
            &&& pos <= q <= tokens.len()
            &&& chain_end(tokens, q) == chain_end(tokens, pos)
            &&& q < tokens.len() ==> !is_mark(tokens[q], '*') && !is_mark(tokens[q], '/')
            &&& product_rest(f, p, bracketed(tokens), pos + 1, left, table, row) == (v, q + 1)
        }),
    decreases words_left(tokens, pos), 1int,
{
    let b = bracketed(tokens);
    if pos < tokens.len() {
        assert(b[pos + 1] == tokens[pos]);
    } else {
        assert(b[pos + 1] == seq![')']);
    }
    if pos < tokens.len() && (is_mark(tokens[pos], '*') || is_mark(tokens[pos], '/')) {
        let q = operand_end(tokens, pos + 1)->0;
        lemma_operand_inside(f, p, tokens, pos + 1, table, row);
        let v = primary_value(f, p, tokens, pos + 1, table, row).0;
        lemma_product_inside(f, p, tokens, q, binop_value(f, tokens[pos], left, v), table, row);
    }
}

proof fn lemma_sum_inside<F: Fn(FloatOp, u64, u64) -> u64, P: Fn(&str) -> Option<u64>>(
    f: F,
    p: P,
    tokens: Seq<Seq<char>>,
    pos: int,
    left: u64,
    table: Table,
    row: int,
)
    requires
        0 <= pos <= tokens.len(),
        chain_end(tokens, pos) is Some,
        pos < tokens.len() ==> !is_mark(tokens[pos], '*') && !is_mark(tokens[pos], '/'),
    ensures
        pos <= chain_end(tokens, pos)->0 <= tokens.len(),
        sum_rest(f, p, tokens, pos, left, table, row).1 == chain_end(tokens, pos)->0,
        sum_rest(f, p, bracketed(tokens), pos + 1, left, table, row) == (
            sum_rest(f, p, tokens, pos, left, table, row).0,
            chain_end(tokens, pos)->0 + 1,
        ),
    decreases words_left(tokens, pos), 1int,
{
    let b = bracketed(tokens);
    if pos < tokens.len() {
        assert(b[pos + 1] == tokens[pos]);
    } else {
        assert(b[pos + 1] == seq![')']);
    }
    if pos < tokens.len() && (is_mark(tokens[pos], '+') || is_mark(tokens[pos], '-')) {
        let q = operand_end(tokens, pos + 1)->0;
        lemma_operand_inside(f, p, tokens, pos + 1, table, row);
        let v = primary_value(f, p, tokens, pos + 1, table, row).0;
        lemma_product_inside(f, p, tokens, q, v, table, row);
        let (w, m) = product_rest(f, p, tokens, q, v, table, row);
        assert(product_value(f, p, tokens, pos + 1, table, row) == (w, m));
        assert(product_value(f, p, b, pos + 2, table, row) == (w, m + 1));
        assert(chain_end(tokens, pos) == chain_end(tokens, m));
        let next = binop_value(f, tokens[pos], left, w);
        lemma_sum_inside(f, p, tokens, m, next, table, row);
        assert(sum_rest(f, p, tokens, pos, left, table, row) == sum_rest(f, p, tokens, m, next, table, row));
        assert(sum_rest(f, p, b, pos + 1, left, table, row) == sum_rest(f, p, b, m + 1, next, table, row));
    }
}

proof fn lemma_bracketed_value<F: Fn(FloatOp, u64, u64) -> u64, P: Fn(&str) -> Option<u64>>(
    f: F,
    p: P,
    tokens: Seq<Seq<char>>,
    table: Table,
    row: int,
)
    requires
        well_formed(tokens),
    ensures
        expr_value(f, p, bracketed(tokens), table, row) == expr_value(f, p, tokens, table, row),
{
    let b = bracketed(tokens);
    let n = tokens.len() as int;
    let q = operand_end(tokens, 0)->0;
    lemma_operand_inside(f, p, tokens, 0, table, row);
    let v = primary_value(f, p, tokens, 0, table, row).0;
    lemma_product_inside(f, p, tokens, q, v, table, row);
    let (w, m) = product_rest(f, p, tokens, q, v, table, row);
    lemma_sum_inside(f, p, tokens, m, w, table, row);
    assert(b[0] == seq!['(']);
    assert(b[n + 1] == seq![')']);
    assert(sum_value(f, p, b, 1, table, row) == (sum_value(f, p, tokens, 0, table, row).0, n + 1));
    assert(primary_value(f, p, b, 0, table, row) == (sum_value(f, p, tokens, 0, table, row).0, n + 2));
    assert(product_rest(f, p, b, n + 2, sum_value(f, p, tokens, 0, table, row).0, table, row).1 == n + 2);
}

proof fn lemma_words_before_bracket(text: Seq<char>)
    ensures
        words(text + seq![' ', ')']) == words(text).push(seq![')']),
    decreases text.len(),
{
    let tail = seq![' ', ')'];
    let all = text + tail;
    if text.len() == 0 {
        assert(all =~= tail);
        assert(tail.skip(1) =~= seq![')']);
        assert(seq![')'].skip(1) =~= Seq::<char>::empty());
        assert(seq![')'].take(1) =~= seq![')']);
        lemma_word_len_stops(Seq::<char>::empty(), seq![')'].skip(1));
        assert(word_len(seq![')']) == 1) by {
            assert(word_len(seq![')'].skip(1)) == 0);
        }
        assert(words(seq![')'].skip(1)) =~= Seq::<Seq<char>>::empty());
        assert(words(seq![')']) == seq![seq![')'].take(1)] + words(seq![')'].skip(1)));
        assert(words(seq![')']) =~= seq![seq![')']]);
        assert(words(all) =~= words(text).push(seq![')']));
    } else if is_space(text[0]) {
        assert(all.skip(1) =~= text.skip(1) + tail);
        lemma_words_before_bracket(text.skip(1));
    } else {
        let n = word_len(text) as int;
        lemma_word_len_stops(text, tail);
        assert(word_len(all) == n);
        assert(all.take(n) =~= text.take(n));
        assert(all.skip(n) =~= text.skip(n) + tail);
        lemma_words_before_bracket(text.skip(n));
        assert(words(all) =~= words(text).push(seq![')']));
    }
}

/// A word goes no further than the blank behind a text.
proof fn lemma_word_len_stops(text: Seq<char>, tail: Seq<char>)
    requires
        tail.len() == 0 || is_space(tail[0]),
    ensures
        word_len(text + tail) == word_len(text),
        word_len(text) <= text.len(),
        text.len() > 0 && !is_space(text[0]) ==> word_len(text) > 0,
    decreases text.len(),
{
    if text.len() == 0 {
        assert(text + tail =~= tail);
    } else if !is_space(text[0]) {
        assert((text + tail).skip(1) =~= text.skip(1) + tail);
        lemma_word_len_stops(text.skip(1), tail);
    }
}

/// Parentheses round a whole expression change nothing.
pub proof fn outer_parentheses_change_nothing<F: Fn(FloatOp, u64, u64) -> u64, P: Fn(&str) -> Option<u64>>(
    f: F,
    p: P,
    expr: Seq<char>,
    table: Table,
    row: int,
)
    requires
        well_formed(words(expr)),
    ensures
        expr_value(f, p, words(seq!['(', ' '] + expr + seq![' ', ')']), table, row) == expr_value(
            f,
            p,
            words(expr),
            table,
            row,
        ),
{
    let rest = expr + seq![' ', ')'];
    let all = seq!['(', ' '] + expr + seq![' ', ')'];
    assert(all =~= seq!['('] + (seq![' '] + rest));
    lemma_word_len_stops(seq!['('], seq![' '] + rest);
    assert(word_len(seq!['(']) == 1) by {
        assert(seq!['('].skip(1) =~= Seq::<char>::empty());
        assert(word_len(seq!['('].skip(1)) == 0);
    }
    assert(all.take(1) =~= seq!['(']);
    assert(all.skip(1) =~= seq![' '] + rest);
    assert((seq![' '] + rest).skip(1) =~= rest);
    assert(words(seq![' '] + rest) == words(rest));
    assert(word_len(all) == 1);
    assert(words(all) == seq![all.take(1)] + words(all.skip(1)));
    lemma_words_before_bracket(expr);
    assert(words(all) =~= bracketed(words(expr)));
    lemma_bracketed_value(f, p, words(expr), table, row);
}

} // verus!
