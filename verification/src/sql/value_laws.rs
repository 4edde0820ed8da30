//! Parts of dates and texts, patterns, and the tokens that texts are cut into.

use crate::date_laws::{dates_are_read_back_from_days, month_length};
use crate::dates::day_number;
use crate::float_bits::FloatOp;
use crate::sql::eval::{char_at_byte, part_of_date, part_of_text, width};
use crate::sql::grammar::{upper_ascii, Bad, Tok};
use crate::sql::lexer::{
    digits_end, is_keyword, is_letter, number_end, quoted, token_at, tokens_in, word_end,
    word_token,
};
use crate::sql::like::{fits, like_bytes, like_means_fits};
use crate::sql::value::Val;
use crate::text::{is_digit, is_space, lowercase};
use vstd::prelude::*;

verus! {

/// The year, the month and the day of a date are those that it was made of.
pub proof fn parts_of_dates_are_those_of_the_calendar<F: Fn(FloatOp, u64, u64) -> u64>(f: F, field: Seq<char>, y: int, m: int, d: int)
    requires
        1 <= m <= 12,
        1 <= d <= month_length(y, m),
        i32::MIN <= day_number(y, m, d) <= i32::MAX,
        i64::MIN <= y <= i64::MAX,
    ensures
        lowercase(field) == "year"@ ==> part_of_date(f, field, Val::Date(day_number(y, m, d) as i32)) == Val::Int(y as i64),
        lowercase(field) == "month"@ ==> part_of_date(f, field, Val::Date(day_number(y, m, d) as i32)) == Val::Int(m as i64),
        lowercase(field) == "day"@ ==> part_of_date(f, field, Val::Date(day_number(y, m, d) as i32)) == Val::Int(d as i64),
{
    dates_are_read_back_from_days(y, m, d);
    reveal_strlit("year");
    reveal_strlit("month");
    reveal_strlit("day");
    assert("year"@.len() == 4 && "month"@.len() == 5 && "day"@.len() == 3);
}

/// The text holds characters of one byte only.
pub open spec fn is_narrow(s: Seq<char>) -> bool {
    forall|i: int| 0 <= i < s.len() ==> (#[trigger] s[i] as u32) < 0x80
}

proof fn lemma_narrow(s: Seq<char>, n: int)
    requires
        is_narrow(s),
        0 <= n <= s.len(),
    ensures
        width(s, n) == n,
    decreases n,
{
    if n > 0 {
        lemma_narrow(s, n - 1);
        assert((s[n - 1] as u32) < 0x80);
    }
}

proof fn lemma_narrow_char(s: Seq<char>, b: int, i: int)
    requires
        is_narrow(s),
        0 <= i <= b <= s.len(),
    ensures
        char_at_byte(s, b, i) == Some(b),
    decreases b - i,
{
    lemma_narrow(s, i);
    if i < b {
        lemma_narrow_char(s, b, i + 1);
    }
}

/// Of a text of characters of one byte the part is the one that begins at the start, counted from one on, and is
/// as long as asked for, or up to the end.
pub proof fn parts_of_texts_are_cut_out(s: Seq<char>, start: i64, len: i64)
    requires
        is_narrow(s),
        1 <= start,
        0 <= len,
    ensures
        start - 1 + len <= s.len() ==> part_of_text(s, start, len) == Some(s.subrange(start - 1, start - 1 + len)),
        start - 1 <= s.len() < start - 1 + len ==> part_of_text(s, start, len) == Some(s.skip(start - 1)),
        start > s.len() ==> part_of_text(s, start, len) == Some(Seq::<char>::empty()),
{
    let n = s.len() as int;
    lemma_narrow(s, n);
    if start - 1 < n {
        lemma_narrow_char(s, start - 1, 0);
        let to = if start - 1 + len < n {
            start - 1 + len
        } else {
            n
        };
        lemma_narrow_char(s, to, 0);
        assert(s.subrange(start - 1, n) =~= s.skip(start - 1));
    } else {
        if start - 1 == n {
            assert(s.skip(start - 1) =~= Seq::<char>::empty());
            assert(len == 0 ==> s.subrange(start - 1, start - 1 + len) =~= Seq::<char>::empty());
        }
    }
}

/// The pattern from a place on fits the text from some place on that is not before `si`.
pub open spec fn fits_later(s: Seq<u8>, p: Seq<u8>, si: int, pi: int) -> bool {
    exists|k: int| si <= k <= s.len() && #[trigger] fits(s, p, k, pi)
}

/// A percent sign stands for any bytes, an underscore for one, and another byte for itself.
pub proof fn wild_cards_stand_for_bytes(s: Seq<u8>, p: Seq<u8>, si: int, pi: int)
    requires
        0 <= si <= s.len(),
        0 <= pi < p.len(),
    ensures
        p[pi] == 37 ==> (fits(s, p, si, pi) <==> fits_later(s, p, si, pi + 1)),
        p[pi] == 95 ==> (fits(s, p, si, pi) <==> si < s.len() && fits(s, p, si + 1, pi + 1)),
        p[pi] != 37 && p[pi] != 95 ==> (fits(s, p, si, pi) <==> si < s.len() && s[si] == p[pi] && fits(
            s,
            p,
            si + 1,
            pi + 1,
        )),
        fits(s, p, si, p.len() as int) <==> si == s.len(),
        (forall|i: int| 0 <= i < s.len() ==> #[trigger] s[i] != 37) ==> (like_bytes(s, p) <==> fits(s, p, 0, 0)),
    decreases s.len() - si,
{
    if forall|i: int| 0 <= i < s.len() ==> #[trigger] s[i] != 37 {
        like_means_fits(s, p);
    }
    if p[pi] == 37 {
        let next = pi + 1;
        if si < s.len() {
            wild_cards_stand_for_bytes(s, p, si + 1, pi);
        }
        if fits_later(s, p, si, next) {
            let k = choose|k: int| si <= k <= s.len() && #[trigger] fits(s, p, k, next);
            if k > si {
                assert(fits_later(s, p, si + 1, next));
                assert(fits(s, p, si + 1, pi));
            }
        }
        if fits(s, p, si, pi) {
            if fits(s, p, si, next) {
                assert(fits_later(s, p, si, next));
            } else {
                assert(fits_later(s, p, si + 1, next));
                let k = choose|k: int| si + 1 <= k <= s.len() && #[trigger] fits(s, p, k, next);
                assert(fits(s, p, k, next));
            }
        }
    }
}

/// Keywords are told in any case of their letters; other words are names as they are written.
pub proof fn keywords_are_told_in_any_case(v: Seq<char>, w: Seq<char>)
    requires
        upper_ascii(v) == upper_ascii(w),
    ensures
        is_keyword(upper_ascii(v)) ==> word_token(v) == word_token(w) && word_token(v) == Tok::Keyword(upper_ascii(w)),
        !is_keyword(upper_ascii(v)) ==> word_token(v) == Tok::Ident(v),
{
}

/// A text with every quote doubled.
pub open spec fn doubled(t: Seq<char>) -> Seq<char>
    decreases t.len(),
{
    if t.len() == 0 {
        Seq::empty()
    } else if t[0] == '\'' {
        seq!['\'', '\''] + doubled(t.skip(1))
    } else {
        seq![t[0]] + doubled(t.skip(1))
    }
}

/// The characters stand at a place of a text.
pub open spec fn reads_at(s: Seq<char>, i: int, t: Seq<char>) -> bool {
    0 <= i && i + t.len() <= s.len() && s.subrange(i, i + t.len()) == t
}

proof fn lemma_reads_on(s: Seq<char>, i: int, a: Seq<char>, b: Seq<char>)
    requires
        reads_at(s, i, a + b),
    ensures
        reads_at(s, i, a),
        reads_at(s, i + a.len(), b),
        forall|k: int| 0 <= k < a.len() ==> s[i + k] == #[trigger] a[k],
{
    let all = s.subrange(i, i + (a + b).len());
    assert(s.subrange(i, i + a.len()) =~= a) by {
        assert forall|k: int| 0 <= k < a.len() implies s[i + k] == a[k] by {
            assert(all[k] == (a + b)[k]);
        }
    }
    assert(s.subrange(i + a.len(), i + a.len() + b.len()) =~= b) by {
        assert forall|k: int| 0 <= k < b.len() implies s[i + a.len() + k] == b[k] by {
            assert(all[a.len() + k] == (a + b)[a.len() + k]);
        }
    }
    assert forall|k: int| 0 <= k < a.len() implies s[i + k] == #[trigger] a[k] by {
        assert(all[k] == (a + b)[k]);
    }
}

/// A text in quotes, its own quotes doubled, is read back, up to the quote that no other one follows.
pub proof fn quoted_texts_are_read_back(s: Seq<char>, i: int, t: Seq<char>, before: Seq<char>)
    requires
        reads_at(s, i, doubled(t) + seq!['\'']),
        i + doubled(t).len() + 1 < s.len() ==> s[i + doubled(t).len() + 1] != '\'',
    ensures
        quoted(s, i, before) == Some((before + t, i + doubled(t).len() + 1)),
    decreases t.len(),
{
    if t.len() == 0 {
        lemma_reads_on(s, i, seq!['\''], Seq::empty());
        assert(s[i + 0] == seq!['\''][0]);
        assert(before + t =~= before);
    } else {
        let rest = t.skip(1);
        let c = t[0];
        if c == '\'' {
            assert(doubled(t) + seq!['\''] =~= seq!['\'', '\''] + (doubled(rest) + seq!['\'']));
            lemma_reads_on(s, i, seq!['\'', '\''], doubled(rest) + seq!['\'']);
            assert(s[i + 0] == seq!['\'', '\''][0] && s[i + 1] == seq!['\'', '\''][1]);
            quoted_texts_are_read_back(s, i + 2, rest, before.push('\''));
            assert(before.push('\'') + rest =~= before + t);
        } else {
            assert(doubled(t) + seq!['\''] =~= seq![c] + (doubled(rest) + seq!['\'']));
            lemma_reads_on(s, i, seq![c], doubled(rest) + seq!['\'']);
            assert(s[i + 0] == seq![c][0]);
            quoted_texts_are_read_back(s, i + 1, rest, before.push(c));
            assert(before.push(c) + rest =~= before + t);
        }
    }
}

proof fn lemma_word_run(s: Seq<char>, i: int)
    requires
        0 <= i <= s.len(),
    ensures
        i <= word_end(s, i) <= s.len(),
        forall|k: int| i <= k < word_end(s, i) ==> is_letter(#[trigger] s[k]) || is_digit(s[k]),
        word_end(s, i) < s.len() ==> !is_letter(s[word_end(s, i)]) && !is_digit(s[word_end(s, i)]),
    decreases s.len() - i,
{
    if i < s.len() && (is_letter(s[i]) || is_digit(s[i])) {
        lemma_word_run(s, i + 1);
    }
}

proof fn lemma_digit_run(s: Seq<char>, i: int)
    requires
        0 <= i <= s.len(),
    ensures
        i <= digits_end(s, i) <= s.len(),
        forall|k: int| i <= k < digits_end(s, i) ==> is_digit(#[trigger] s[k]),
        digits_end(s, i) < s.len() ==> !is_digit(s[digits_end(s, i)]),
    decreases s.len() - i,
{
    if i < s.len() && is_digit(s[i]) {
        lemma_digit_run(s, i + 1);
    }
}

/// A word that begins with a letter goes on over letters and digits, as far as they go.
pub proof fn words_go_on_over_letters_and_digits<P: Fn(&str) -> Option<u64>>(p: P, s: Seq<char>, i: int, e: int)
    requires
        0 <= i < e <= s.len(),
        is_letter(s[i]),
        forall|k: int| i <= k < e ==> is_letter(#[trigger] s[k]) || is_digit(s[k]),
        e < s.len() ==> !is_letter(s[e]) && !is_digit(s[e]),
    ensures
        token_at(p, s, i) == Ok::<(Tok, int), Bad>((word_token(s.subrange(i, e)), e)),
{
    lemma_word_run(s, i);
    let w = word_end(s, i);
    if w < e {
        assert(is_letter(s[w]) || is_digit(s[w]));
    }
    if e < w {
        assert(is_letter(s[e]) || is_digit(s[e]));
    }
}

/// A number goes on over digits and, where a dot and a digit follow, over these digits too.
pub proof fn numbers_go_on_over_digits(s: Seq<char>, i: int, e: int)
    requires
        0 <= i < e <= s.len(),
        forall|k: int| i <= k < e ==> is_digit(#[trigger] s[k]),
        e < s.len() ==> !is_digit(s[e]),
    ensures
        !(e + 1 < s.len() && s[e] == '.' && is_digit(s[e + 1])) ==> number_end(s, i) == e,
        e + 1 < s.len() && s[e] == '.' && is_digit(s[e + 1]) ==> number_end(s, i) > e + 1 && (forall|k: int|
            e < k < number_end(s, i) ==> is_digit(#[trigger] s[k])) && (number_end(s, i) < s.len() ==> !is_digit(
            s[number_end(s, i)],
        )),
{
    lemma_digit_run(s, i);
    let w = digits_end(s, i);
    if w < e {
        assert(is_digit(s[w]));
    }
    if e < w {
        assert(is_digit(s[e]));
    }
    if e + 1 < s.len() {
        lemma_digit_run(s, e + 1);
    }
}

/// Operators of two characters are taken whole, others and marks by one character; white space is passed over.
pub proof fn signs_are_told_by_their_characters<P: Fn(&str) -> Option<u64>>(p: P, s: Seq<char>, i: int)
    requires
        0 <= i < s.len(),
    ensures
        i + 1 < s.len() && (s[i] == '<' || s[i] == '>' || s[i] == '!') && s[i + 1] == '=' ==> token_at(p, s, i) == Ok::<
            (Tok, int),
            Bad,
        >((Tok::Op(s.subrange(i, i + 2)), i + 2)),
        i + 1 < s.len() && s[i] == '<' && s[i + 1] == '>' ==> token_at(p, s, i) == Ok::<(Tok, int), Bad>(
            (Tok::Op(s.subrange(i, i + 2)), i + 2),
        ),
        s[i] == '=' || s[i] == '+' || s[i] == '-' || s[i] == '*' || s[i] == '/' || s[i] == '.' ==> token_at(p, s, i)
            == Ok::<(Tok, int), Bad>((Tok::Op(s.subrange(i, i + 1)), i + 1)),
        s[i] == '(' ==> token_at(p, s, i) == Ok::<(Tok, int), Bad>((Tok::LParen, i + 1)),
        s[i] == ')' ==> token_at(p, s, i) == Ok::<(Tok, int), Bad>((Tok::RParen, i + 1)),
        s[i] == ',' ==> token_at(p, s, i) == Ok::<(Tok, int), Bad>((Tok::Comma, i + 1)),
        s[i] == ';' ==> token_at(p, s, i) == Ok::<(Tok, int), Bad>((Tok::Semicolon, i + 1)),
        is_space(s[i]) ==> tokens_in(p, s, i) == tokens_in(p, s, i + 1),
{
}

} // verus!
