//! What a refused query is answered.

use crate::float_bits::is_reader;
use crate::sql::grammar::{tok, Bad, Tok};
use crate::sql::lexer::{tokenize, tokens_in, Token};
use crate::sql::output::{is_shower, shown, signed_text};
use crate::sql::parser::{tokens_of, ParseError};
use crate::text::{append_text, chars_of, same_text, signed_decimal, string_of};
use crate::tpch::support::{begins_with, text_begins_with};
use vstd::prelude::*;

verus! {

/// A character between double quotes.
pub open spec fn escaped(c: char) -> Seq<char> {
    if c == '"' {
        seq!['\\', '"']
    } else if c == '\\' {
        seq!['\\', '\\']
    } else if c == '\t' {
        seq!['\\', 't']
    } else if c == '\r' {
        seq!['\\', 'r']
    } else if c == '\n' {
        seq!['\\', 'n']
    } else if c == '\0' {
        seq!['\\', '0']
    } else {
        seq![c]
    }
}

/// The first `n` characters of a text between double quotes.
pub open spec fn escaped_text(text: Seq<char>, n: int) -> Seq<char>
    decreases n,
{
    if n <= 0 {
        Seq::empty()
    } else {
        escaped_text(text, n - 1) + escaped(text[n - 1])
    }
}

/// A kind of token with what it holds.
pub open spec fn holding(kind: Seq<char>, what: Seq<char>) -> Seq<char> {
    kind + "("@ + what + ")"@
}

pub open spec fn quoted(text: Seq<char>) -> Seq<char> {
    seq!['"'] + escaped_text(text, text.len() as int) + seq!['"']
}

/// A token, for people to read.
pub open spec fn token_text<D: Fn(u64) -> String>(d: D, t: Tok) -> Seq<char> {
    match t {
        Tok::Keyword(s) => holding("Keyword"@, quoted(s)),
        Tok::Ident(s) => holding("Ident"@, quoted(s)),
        Tok::Int(i) => holding("Int"@, signed_decimal(i as int)),
        Tok::Float(b) => holding("Float"@, shown(d, b)),
        Tok::Str(s) => holding("String"@, quoted(s)),
        Tok::Op(s) => holding("Op"@, quoted(s)),
        Tok::LParen => "LParen"@,
        Tok::RParen => "RParen"@,
        Tok::Comma => "Comma"@,
        Tok::Semicolon => "Semicolon"@,
        Tok::End => "EOF"@,
    }
}

/// The complaint says all that there is to say.
pub open spec fn is_complete(what: Seq<char>) -> bool {
    ||| what == "expected string after DATE"@
    ||| what == "expected ',' in substr"@
    ||| what == "no phrase"@
    ||| begins_with(what, "unsupported aggregate: "@)
}

/// A complaint about a token, with the token that was found.
pub open spec fn complaint<D: Fn(u64) -> String>(d: D, what: Seq<char>, found: Tok) -> Seq<char> {
    if is_complete(what) {
        what
    } else if what == "unexpected trailing token"@ {
        what + ": "@ + token_text(d, found)
    } else if what == "expected non-negative"@ && found is Int {
        what + ", got "@ + signed_decimal(found->Int_0 as int)
    } else {
        what + ", got "@ + token_text(d, found)
    }
}

/// What is answered to a text that is no query: what was expected, and the token
/// that was found. Where the text has no tokens it is the complaint alone.
pub open spec fn refusal<P: Fn(&str) -> Option<u64>, D: Fn(u64) -> String>(p: P, d: D, sql: Seq<char>, b: Bad) -> Seq<char> {
    match tokens_in(p, sql, 0) {
        Ok(ts) => complaint(d, b.what, tok(ts, b.at)),
        Err(_) => b.what,
    }
}

fn append_quoted(v: &mut Vec<char>, s: &str)
    ensures
        final(v)@ == old(v)@ + quoted(s@),
{
    let ghost start = v@;
    v.push('"');
    let text: Vec<char> = chars_of(s);
    let mut i: usize = 0;
    proof {
        assert(v@ =~= start + seq!['"'] + escaped_text(s@, 0));
    }
    while i < text.len()
        invariant
            text@ == s@,
            i <= text.len(),
            v@ == start + seq!['"'] + escaped_text(s@, i as int),
        decreases text.len() - i,
    {
        let c: char = text[i];
        let ghost before = v@;
        if c == '"' {
            v.push('\\');
            v.push('"');
        } else if c == '\\' {
            v.push('\\');
            v.push('\\');
        } else if c == '\t' {
            v.push('\\');
            v.push('t');
        } else if c == '\r' {
            v.push('\\');
            v.push('r');
        } else if c == '\n' {
            v.push('\\');
            v.push('n');
        } else if c == '\0' {
            v.push('\\');
            v.push('0');
        } else {
            v.push(c);
        }
        proof {
            assert(v@ =~= before + escaped(c));
            assert(v@ =~= start + seq!['"'] + escaped_text(s@, i + 1));
        }
        i = i + 1;
    }
    v.push('"');
    proof {
        assert(v@ =~= start + quoted(s@));
    }
}

fn append_word(v: &mut Vec<char>, kind: &str, s: &str)
    ensures
        final(v)@ == old(v)@ + holding(kind@, quoted(s@)),
{
    let ghost start = v@;
    append_text(v, kind);
    append_text(v, "(");
    append_quoted(v, s);
    append_text(v, ")");
    proof {
        assert(v@ =~= start + holding(kind@, quoted(s@)));
    }
}

fn append_number(v: &mut Vec<char>, kind: &str, s: &str)
    ensures
        final(v)@ == old(v)@ + holding(kind@, s@),
{
    let ghost start = v@;
    append_text(v, kind);
    append_text(v, "(");
    append_text(v, s);
    append_text(v, ")");
    proof {
        assert(v@ =~= start + holding(kind@, s@));
    }
}

/// Writes a token behind a text.
pub fn append_token<D: Fn(u64) -> String>(v: &mut Vec<char>, t: &Token, show: &D)
    requires
        is_shower(*show),
    ensures
        final(v)@ == old(v)@ + token_text(*show, t@),
{
    match t {
        Token::Keyword(s) => append_word(v, "Keyword", s.as_str()),
        Token::Ident(s) => append_word(v, "Ident", s.as_str()),
        Token::Int(i) => {
            let s: String = signed_text(*i);
            append_number(v, "Int", s.as_str());
        },
        Token::Float(b) => {
            let s: String = show(*b);
            append_number(v, "Float", s.as_str());
        },
        Token::Str(s) => append_word(v, "String", s.as_str()),
        Token::Op(s) => append_word(v, "Op", s.as_str()),
        Token::LParen => append_text(v, "LParen"),
        Token::RParen => append_text(v, "RParen"),
        Token::Comma => append_text(v, "Comma"),
        Token::Semicolon => append_text(v, "Semicolon"),
        Token::End => append_text(v, "EOF"),
    }
}

fn complete(what: &str) -> (b: bool)
    ensures
        b == is_complete(what@),
{
    same_text(what, "expected string after DATE") || same_text(what, "expected ',' in substr") || same_text(
        what,
        "no phrase",
    ) || text_begins_with(what, "unsupported aggregate: ")
}

fn complain<D: Fn(u64) -> String>(what: &str, found: &Token, show: &D) -> (s: String)
    requires
        is_shower(*show),
    ensures
        s@ == complaint(*show, what@, found@),
{
    let mut v: Vec<char> = Vec::new();
    append_text(&mut v, what);
    proof {
        assert(v@ =~= what@);
    }
    if complete(what) {
        return string_of(&v);
    }
    if same_text(what, "unexpected trailing token") {
        append_text(&mut v, ": ");
        append_token(&mut v, found, show);
        return string_of(&v);
    }
    append_text(&mut v, ", got ");
    if same_text(what, "expected non-negative") {
        if let Token::Int(i) = found {
            let s: String = signed_text(*i);
            append_text(&mut v, s.as_str());
            return string_of(&v);
        }
    }
    append_token(&mut v, found, show);
    string_of(&v)
}

/// Says why a text is no query: what was expected, and the token that was found.
pub fn refuse<P: Fn(&str) -> Option<u64>, D: Fn(u64) -> String>(sql: &str, e: &ParseError, reader: &P, show: &D) -> (s: String)
    requires
        is_reader(*reader),
        is_shower(*show),
    ensures
        s@ == refusal(*reader, *show, sql@, e@),
{
    match tokenize(sql, reader) {
        Ok(tokens) => {
            proof {
                assert(tokens_in(*reader, sql@, 0) == Ok::<Seq<Tok>, Bad>(tokens_of(tokens@)));
            }
            if e.at < tokens.len() {
                complain(e.what.as_str(), &tokens[e.at], show)
            } else {
                complain(e.what.as_str(), &Token::End, show)
            }
        },
        Err(_) => e.what.clone(),
    }
}

} // verus!
