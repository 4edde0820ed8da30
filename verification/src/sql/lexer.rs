//! Splitting query texts into tokens.

use crate::float_bits::{is_reader, reads_as};
use crate::sql::grammar::{upper_ascii, Bad, Tok};
use crate::sql::parser::{tokens_of, upper_text, ParseError};
use crate::text::{
    chars_of, digit, is_digit, is_space, parse_i64, read_i64, same_text, slice_chars, space, string_of,
};
use vstd::prelude::*;

verus! {

/// A token. A double is held as its bit pattern.
#[derive(Debug)]
pub enum Token {
    Keyword(String),
    Ident(String),
    Int(i64),
    Float(u64),
    Str(String),
    Op(String),
    LParen,
    RParen,
    Comma,
    Semicolon,
    End,
}

impl Token {
    pub open spec fn view(&self) -> Tok {
        match self {
            Token::Keyword(s) => Tok::Keyword(s@),
            Token::Ident(s) => Tok::Ident(s@),
            Token::Int(i) => Tok::Int(*i),
            Token::Float(b) => Tok::Float(*b),
            Token::Str(s) => Tok::Str(s@),
            Token::Op(s) => Tok::Op(s@),
            Token::LParen => Tok::LParen,
            Token::RParen => Tok::RParen,
            Token::Comma => Tok::Comma,
            Token::Semicolon => Tok::Semicolon,
            Token::End => Tok::End,
        }
    }
}

pub open spec fn is_letter(c: char) -> bool {
    'a' <= c <= 'z' || 'A' <= c <= 'Z' || c == '_'
}

/// The first place, from `i` on, whose character is no letter and no digit.
pub open spec fn word_end(s: Seq<char>, i: int) -> int
    decreases s.len() - i,
{
    if 0 <= i < s.len() && (is_letter(s[i]) || is_digit(s[i])) {
        word_end(s, i + 1)
    } else {
        i
    }
}

/// The first place, from `i` on, whose character is no digit.
pub open spec fn digits_end(s: Seq<char>, i: int) -> int
    decreases s.len() - i,
{
    if 0 <= i < s.len() && is_digit(s[i]) {
        digits_end(s, i + 1)
    } else {
        i
    }
}

/// The end of a number: digits and, if a dot and a digit follow, these too.
pub open spec fn number_end(s: Seq<char>, i: int) -> int {
    let e = digits_end(s, i);
    if e + 1 < s.len() && s[e] == '.' && is_digit(s[e + 1]) {
        digits_end(s, e + 1)
    } else {
        e
    }
}

/// A text in quotes, from behind the first quote on, and the place behind it. Two
/// quotes stand for one.
pub open spec fn quoted(s: Seq<char>, i: int, before: Seq<char>) -> Option<(Seq<char>, int)>
    decreases s.len() - i,
{
    if i < 0 || i >= s.len() {
        None
    } else if s[i] == '\'' {
        if i + 1 < s.len() && s[i + 1] == '\'' {
            quoted(s, i + 2, before.push('\''))
        } else {
            Some((before, i + 1))
        }
    } else {
        quoted(s, i + 1, before.push(s[i]))
    }
}

/// The words that are keywords.
pub open spec fn is_keyword(w: Seq<char>) -> bool {
    ||| w == "SELECT"@
    ||| w == "DISTINCT"@
    ||| w == "FROM"@
    ||| w == "WHERE"@
    ||| w == "GROUP"@
    ||| w == "BY"@
    ||| w == "HAVING"@
    ||| w == "ORDER"@
    ||| w == "LIMIT"@
    ||| w == "AS"@
    ||| w == "AND"@
    ||| w == "OR"@
    ||| w == "NOT"@
    ||| w == "JOIN"@
    ||| w == "LEFT"@
    ||| w == "INNER"@
    ||| w == "OUTER"@
    ||| w == "ON"@
    ||| w == "CASE"@
    ||| w == "WHEN"@
    ||| w == "THEN"@
    ||| w == "ELSE"@
    ||| w == "END"@
    ||| w == "DATE"@
    ||| w == "EXTRACT"@
    ||| w == "COUNT"@
    ||| w == "SUM"@
    ||| w == "AVG"@
    ||| w == "MIN"@
    ||| w == "MAX"@
    ||| w == "IN"@
    ||| w == "LIKE"@
    ||| w == "BETWEEN"@
    ||| w == "EXISTS"@
    ||| w == "ASC"@
    ||| w == "DESC"@
}

/// A word: a keyword in upper case, or a name as it is written.
pub open spec fn word_token(w: Seq<char>) -> Tok {
    if is_keyword(upper_ascii(w)) {
        Tok::Keyword(upper_ascii(w))
    } else {
        Tok::Ident(w)
    }
}

/// A number: an integer if it is one and fits, else a double, if the caller reads
/// one.
pub open spec fn number_token<P: Fn(&str) -> Option<u64>>(p: P, w: Seq<char>) -> Option<Tok> {
    match read_i64(w) {
        Some(i) => Some(Tok::Int(i)),
        None => match reads_as(p, w) {
            Some(b) => Some(Tok::Float(b)),
            None => None,
        },
    }
}

/// An operator of two characters.
pub open spec fn is_wide_op(a: char, b: char) -> bool {
    (a == '<' && (b == '=' || b == '>')) || (a == '>' && b == '=') || (a == '!' && b == '=')
}

pub open spec fn is_plain_op(c: char) -> bool {
    c == '=' || c == '<' || c == '>' || c == '+' || c == '-' || c == '*' || c == '/' || c == '.'
}

/// A mark that stands for itself.
pub open spec fn mark(c: char) -> Option<Tok> {
    if c == '(' {
        Some(Tok::LParen)
    } else if c == ')' {
        Some(Tok::RParen)
    } else if c == ',' {
        Some(Tok::Comma)
    } else if c == ';' {
        Some(Tok::Semicolon)
    } else {
        None
    }
}

/// The token that begins at a place where no space is, and the place behind it.
pub open spec fn token_at<P: Fn(&str) -> Option<u64>>(p: P, s: Seq<char>, i: int) -> Result<(Tok, int), Bad> {
    let c = s[i];
    if is_letter(c) {
        Ok((word_token(s.subrange(i, word_end(s, i))), word_end(s, i)))
    } else if is_digit(c) {
        match number_token(p, s.subrange(i, number_end(s, i))) {
            Some(t) => Ok((t, number_end(s, i))),
            None => Err(Bad { what: "invalid number"@, at: i }),
        }
    } else if c == '\'' {
        match quoted(s, i + 1, Seq::empty()) {
            Some((t, e)) => Ok((Tok::Str(t), e)),
            None => Err(Bad { what: "unterminated string"@, at: i }),
        }
    } else if i + 1 < s.len() && is_wide_op(c, s[i + 1]) {
        Ok((Tok::Op(s.subrange(i, i + 2)), i + 2))
    } else if is_plain_op(c) {
        Ok((Tok::Op(s.subrange(i, i + 1)), i + 1))
    } else {
        match mark(c) {
            Some(t) => Ok((t, i + 1)),
            None => Err(Bad { what: "unexpected character"@, at: i }),
        }
    }
}

/// The tokens from place `i` on, with the end behind them.
pub open spec fn tokens_in<P: Fn(&str) -> Option<u64>>(p: P, s: Seq<char>, i: int) -> Result<Seq<Tok>, Bad>
    decreases s.len() - i,
{
    if i < 0 || i >= s.len() {
        Ok(seq![Tok::End])
    } else if is_space(s[i]) {
        tokens_in(p, s, i + 1)
    } else {
        match token_at(p, s, i) {
            Ok((t, e)) => if i < e <= s.len() {
                match tokens_in(p, s, e) {
                    Ok(rest) => Ok(seq![t] + rest),
                    Err(b) => Err(b),
                }
            } else {
                Err(Bad { what: "unexpected character"@, at: i })
            },
            Err(b) => Err(b),
        }
    }
}

fn letter(c: char) -> (b: bool)
    ensures
        b == is_letter(c),
{
    ('a' <= c && c <= 'z') || ('A' <= c && c <= 'Z') || c == '_'
}

fn find_word_end(s: &Vec<char>, i: usize) -> (e: usize)
    requires
        i <= s@.len(),
    ensures
        e == word_end(s@, i as int),
        i <= e <= s@.len(),
{
    let mut k: usize = i;
    while k < s.len() && (letter(s[k]) || digit(s[k]))
        invariant
            i <= k <= s@.len(),
            word_end(s@, i as int) == word_end(s@, k as int),
        decreases s.len() - k,
    {
        k = k + 1;
    }
    k
}

fn find_digits_end(s: &Vec<char>, i: usize) -> (e: usize)
    requires
        i <= s@.len(),
    ensures
        e == digits_end(s@, i as int),
        i <= e <= s@.len(),
{
    let mut k: usize = i;
    while k < s.len() && digit(s[k])
        invariant
            i <= k <= s@.len(),
            digits_end(s@, i as int) == digits_end(s@, k as int),
        decreases s.len() - k,
    {
        k = k + 1;
    }
    k
}

fn find_number_end(s: &Vec<char>, i: usize) -> (e: usize)
    requires
        i <= s@.len(),
    ensures
        e == number_end(s@, i as int),
        i <= e <= s@.len(),
{
    let e: usize = find_digits_end(s, i);
    if e < s.len() && s.len() - e > 1 && s[e] == '.' && digit(s[e + 1]) {
        find_digits_end(s, e + 1)
    } else {
        e
    }
}

fn read_quoted(s: &Vec<char>, i: usize) -> (r: Option<(Vec<char>, usize)>)
    requires
        i <= s@.len(),
    ensures
        match r {
            Some((t, e)) => quoted(s@, i as int, Seq::empty()) == Some((t@, e as int)) && i <= e <= s@.len(),
            None => quoted(s@, i as int, Seq::empty()) is None,
        },
{
    let mut out: Vec<char> = Vec::new();
    let mut k: usize = i;
    while k < s.len()
        invariant
            i <= k <= s@.len(),
            quoted(s@, i as int, Seq::empty()) == quoted(s@, k as int, out@),
        decreases s.len() - k,
    {
        if s[k] == '\'' {
            if s.len() - k > 1 && s[k + 1] == '\'' {
                out.push('\'');
                k = k + 2;
            } else {
                return Some((out, k + 1));
            }
        } else {
            out.push(s[k]);
            k = k + 1;
        }
    }
    None
}

fn keyword(w: &str) -> (b: bool)
    ensures
        b == is_keyword(w@),
{
    same_text(w, "SELECT") || same_text(w, "DISTINCT") || same_text(w, "FROM") || same_text(w, "WHERE") || same_text(
        w,
        "GROUP",
    ) || same_text(w, "BY") || same_text(w, "HAVING") || same_text(w, "ORDER") || same_text(w, "LIMIT") || same_text(
        w,
        "AS",
    ) || same_text(w, "AND") || same_text(w, "OR") || same_text(w, "NOT") || same_text(w, "JOIN") || same_text(
        w,
        "LEFT",
    ) || same_text(w, "INNER") || same_text(w, "OUTER") || same_text(w, "ON") || same_text(w, "CASE") || same_text(
        w,
        "WHEN",
    ) || same_text(w, "THEN") || same_text(w, "ELSE") || same_text(w, "END") || same_text(w, "DATE") || same_text(
        w,
        "EXTRACT",
    ) || same_text(w, "COUNT") || same_text(w, "SUM") || same_text(w, "AVG") || same_text(w, "MIN") || same_text(
        w,
        "MAX",
    ) || same_text(w, "IN") || same_text(w, "LIKE") || same_text(w, "BETWEEN") || same_text(w, "EXISTS") || same_text(
        w,
        "ASC",
    ) || same_text(w, "DESC")
}

fn refuse(what: &str, at: usize) -> (e: ParseError)
    ensures
        e@ == (Bad { what: what@, at: at as int }),
{
    ParseError { what: what.to_owned(), at }
}

fn read_token<P: Fn(&str) -> Option<u64>>(s: &Vec<char>, i: usize, reader: &P) -> (r: Result<(Token, usize), ParseError>)
    requires
        is_reader(*reader),
        i < s@.len(),
    ensures
        match r {
            Ok((t, e)) => token_at(*reader, s@, i as int) == Ok::<(Tok, int), Bad>((t@, e as int)),
            Err(b) => token_at(*reader, s@, i as int) == Err::<(Tok, int), Bad>(b@),
        },
{
    let c: char = s[i];
    if letter(c) {
        let e: usize = find_word_end(s, i);
        let part: Vec<char> = slice_chars(s, i, e);
        let w: String = string_of(&part);
        let upper: String = upper_text(w.as_str());
        if keyword(upper.as_str()) {
            return Ok((Token::Keyword(upper), e));
        }
        return Ok((Token::Ident(w), e));
    }
    if digit(c) {
        let e: usize = find_number_end(s, i);
        let part: Vec<char> = slice_chars(s, i, e);
        match parse_i64(&part) {
            Some(n) => {
                return Ok((Token::Int(n), e));
            },
            None => {},
        }
        let w: String = string_of(&part);
        return match reader(w.as_str()) {
            Some(b) => Ok((Token::Float(b), e)),
            None => Err(refuse("invalid number", i)),
        };
    }
    if c == '\'' {
        let n: usize = s.len();
        return match read_quoted(s, i + 1) {
            Some((t, e)) => Ok((Token::Str(string_of(&t)), e)),
            None => Err(refuse("unterminated string", i)),
        };
    }
    if s.len() - i > 1 {
        let d: char = s[i + 1];
        if (c == '<' && (d == '=' || d == '>')) || (c == '>' && d == '=') || (c == '!' && d == '=') {
            let part: Vec<char> = slice_chars(s, i, i + 2);
            return Ok((Token::Op(string_of(&part)), i + 2));
        }
    }
    if c == '=' || c == '<' || c == '>' || c == '+' || c == '-' || c == '*' || c == '/' || c == '.' {
        let part: Vec<char> = slice_chars(s, i, i + 1);
        return Ok((Token::Op(string_of(&part)), i + 1));
    }
    if c == '(' {
        Ok((Token::LParen, i + 1))
    } else if c == ')' {
        Ok((Token::RParen, i + 1))
    } else if c == ',' {
        Ok((Token::Comma, i + 1))
    } else if c == ';' {
        Ok((Token::Semicolon, i + 1))
    } else {
        Err(refuse("unexpected character", i))
    }
}

/// What the tokens read so far leave of the result for the whole text.
pub open spec fn prefixed(before: Seq<Tok>, rest: Result<Seq<Tok>, Bad>) -> Result<Seq<Tok>, Bad> {
    match rest {
        Ok(ts) => Ok(before + ts),
        Err(b) => Err(b),
    }
}

/// Splits a text into tokens.
pub fn tokenize<P: Fn(&str) -> Option<u64>>(sql: &str, reader: &P) -> (r: Result<Vec<Token>, ParseError>)
    requires
        is_reader(*reader),
    ensures
        match r {
            Ok(tokens) => tokens_in(*reader, sql@, 0) == Ok::<Seq<Tok>, Bad>(tokens_of(tokens@)),
            Err(b) => tokens_in(*reader, sql@, 0) == Err::<Seq<Tok>, Bad>(b@),
        },
{
    let s: Vec<char> = chars_of(sql);
    let mut tokens: Vec<Token> = Vec::new();
    let mut i: usize = 0;
    proof {
        let whole = tokens_in(*reader, s@, 0);
        match whole {
            Ok(ts) => {
                assert(tokens_of(tokens@) + ts =~= ts);
            },
            Err(_) => {},
        }
    }
    while i < s.len()
        invariant
            is_reader(*reader),
            s@ == sql@,
            i <= s@.len(),
            tokens_in(*reader, sql@, 0) == prefixed(tokens_of(tokens@), tokens_in(*reader, s@, i as int)),
        decreases s.len() - i,
    {
        if space(s[i]) {
            i = i + 1;
        } else {
            match read_token(&s, i, reader) {
                Ok((t, e)) => {
                    if e <= i || e > s.len() {
                        return Err(refuse("unexpected character", i));
                    }
                    let ghost before = tokens_of(tokens@);
                    let ghost rest = tokens_in(*reader, s@, e as int);
                    tokens.push(t);
                    proof {
                        assert(tokens_of(tokens@) =~= before.push(t@));
                        match rest {
                            Ok(ts) => {
                                assert(before + (seq![t@] + ts) =~= before.push(t@) + ts);
                            },
                            Err(_) => {},
                        }
                    }
                    i = e;
                },
                Err(b) => {
                    return Err(b);
                },
            }
        }
    }
    let ghost before = tokens_of(tokens@);
    tokens.push(Token::End);
    proof {
        assert(tokens_of(tokens@) =~= before + seq![Tok::End]);
    }
    Ok(tokens)
}

/// The last token is the end, and only the last.
pub proof fn tokens_end_once<P: Fn(&str) -> Option<u64>>(p: P, s: Seq<char>, i: int)
    ensures
        tokens_in(p, s, i) matches Ok(ts) ==> ts.len() > 0 && forall|k: int|
            0 <= k < ts.len() ==> ((#[trigger] ts[k] is End) <==> k == ts.len() - 1),
    decreases s.len() - i,
{
    if 0 <= i < s.len() {
        if is_space(s[i]) {
            tokens_end_once(p, s, i + 1);
        } else {
            match token_at(p, s, i) {
                Ok((t, e)) => {
                    if i < e <= s.len() {
                        tokens_end_once(p, s, e);
                        match tokens_in(p, s, e) {
                            Ok(rest) => {
                                let ts = seq![t] + rest;
                                assert(!(t is End));
                                assert forall|k: int| 0 <= k < ts.len() implies ((#[trigger] ts[k] is End) <==> k
                                    == ts.len() - 1) by {
                                    if k > 0 {
                                        assert(ts[k] == rest[k - 1]);
                                    }
                                }
                            },
                            Err(_) => {},
                        }
                    }
                },
                Err(_) => {},
            }
        }
    }
}

} // verus!
