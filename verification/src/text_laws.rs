//! What texts are cut into, and how numbers are read back.

use crate::text::{
    decimal, is_digit, is_space, lemma_decimal_digits, read_i64, signed_decimal, trim_end,
    trim_start, trimmed, word_len, words,
};
use vstd::prelude::*;

verus! {

/// The text holds nothing but white space.
pub open spec fn is_blank(text: Seq<char>) -> bool {
    forall|i: int| 0 <= i < text.len() ==> is_space(#[trigger] text[i])
}

/// Trimming takes white space away at both ends and nothing else, and leaves none there.
pub proof fn trimming_takes_white_space_only(text: Seq<char>)
    ensures
        exists|a: Seq<char>, b: Seq<char>| #[trigger] is_blank(a) && #[trigger] is_blank(b) && text == a + trimmed(text) + b,
        trimmed(text).len() > 0 ==> !is_space(trimmed(text)[0]) && !is_space(trimmed(text).last()),
{
    lemma_trim_start(text);
    let t = trim_start(text);
    lemma_trim_end(t);
    let a = text.take(text.len() - t.len());
    let b = t.skip(trimmed(text).len() as int);
    assert(text =~= a + trimmed(text) + b);
    assert(is_blank(a) && is_blank(b));
    if trimmed(text).len() > 0 {
        assert(trimmed(text)[0] == t[0]);
    }
}

proof fn lemma_trim_start(text: Seq<char>)
    ensures
        trim_start(text).len() <= text.len(),
        trim_start(text) == text.skip(text.len() - trim_start(text).len()),
        is_blank(text.take(text.len() - trim_start(text).len())),
        trim_start(text).len() > 0 ==> !is_space(trim_start(text)[0]),
    decreases text.len(),
{
    if text.len() > 0 && is_space(text[0]) {
        let rest = text.skip(1);
        lemma_trim_start(rest);
        let n = rest.len() - trim_start(rest).len();
        assert(text.skip(n + 1) =~= rest.skip(n));
        assert forall|i: int| 0 <= i < n + 1 implies is_space(#[trigger] text.take(n + 1)[i]) by {
            if i > 0 {
                assert(text.take(n + 1)[i] == rest.take(n)[i - 1]);
            }
        }
    } else {
        assert(text.skip(0) =~= text);
    }
}

proof fn lemma_trim_end(text: Seq<char>)
    ensures
        trim_end(text).len() <= text.len(),
        trim_end(text) == text.take(trim_end(text).len() as int),
        is_blank(text.skip(trim_end(text).len() as int)),
        trim_end(text).len() > 0 ==> !is_space(trim_end(text).last()),
    decreases text.len(),
{
    if text.len() > 0 && is_space(text.last()) {
        let rest = text.drop_last();
        lemma_trim_end(rest);
        let n = trim_end(rest).len() as int;
        assert(text.take(n) =~= rest.take(n));
        assert forall|i: int| 0 <= i < text.len() - n implies is_space(#[trigger] text.skip(n)[i]) by {
            if i < rest.len() - n {
                assert(text.skip(n)[i] == rest.skip(n)[i]);
            } else {
                assert(text.skip(n)[i] == text.last());
            }
        }
    } else {
        assert(text.take(text.len() as int) =~= text);
    }
}

/// A run of characters that are not white space.
pub open spec fn is_whole_word(text: Seq<char>) -> bool {
    text.len() > 0 && forall|i: int| 0 <= i < text.len() ==> !is_space(#[trigger] text[i])
}

proof fn lemma_word_len(text: Seq<char>)
    ensures
        word_len(text) <= text.len(),
        forall|i: int| 0 <= i < word_len(text) ==> !is_space(#[trigger] text[i]),
        word_len(text) < text.len() ==> is_space(text[word_len(text) as int]),
    decreases text.len(),
{
    if text.len() > 0 && !is_space(text[0]) {
        let rest = text.skip(1);
        lemma_word_len(rest);
        assert forall|i: int| 0 <= i < word_len(text) implies !is_space(#[trigger] text[i]) by {
            if i > 0 {
                assert(text[i] == rest[i - 1]);
            }
        }
        if word_len(text) < text.len() {
            assert(text[word_len(text) as int] == rest[word_len(rest) as int]);
        }
    }
}

/// A word in front of white space, or of nothing, is the first word of a text; white space in front changes
/// nothing, and what follows is cut in the same way.
pub proof fn words_are_cut_at_white_space(word: Seq<char>, space: char, rest: Seq<char>)
    requires
        is_whole_word(word),
        is_space(space),
    ensures
        words(Seq::empty()) == Seq::<Seq<char>>::empty(),
        words(word) == seq![word],
        words(word + seq![space] + rest) == seq![word] + words(rest),
        words(seq![space] + rest) == words(rest),
{
    assert((seq![space] + rest).skip(1) =~= rest);
    assert((seq![space] + rest)[0] == space);
    let text = word + seq![space] + rest;
    lemma_word_len(text);
    assert(text[0] == word[0]);
    let n = word_len(text) as int;
    assert(text[word.len() as int] == space);
    if n < word.len() {
        assert(text[n] == word[n]);
    }
    assert(n == word.len());
    assert(text.take(n) =~= word);
    assert(text.skip(n) =~= seq![space] + rest);
    assert(!is_space(word[0]));
    assert(words(seq![space] + rest) == words(rest));
    assert(words(text) == seq![text.take(n)] + words(text.skip(n)));
    lemma_word_len(word);
    assert(word_len(word) == word.len());
    assert(word.take(word.len() as int) =~= word);
    assert(word.skip(word.len() as int) =~= Seq::empty());
    assert(words(Seq::empty()) =~= Seq::<Seq<char>>::empty());
    assert(words(word) == seq![word.take(word.len() as int)] + words(word.skip(word.len() as int)));
    assert(words(word) =~= seq![word]);
}

/// A signed number that is written in decimal is read back as it was.
pub proof fn signed_numbers_are_read_back(n: i64)
    ensures
        read_i64(signed_decimal(n as int)) == Some(n),
{
    if n < 0 {
        let m = (-n) as nat;
        lemma_decimal_digits(m);
        let text = seq!['-'] + decimal(m);
        assert(text.skip(1) =~= decimal(m));
        assert(text[0] == '-');
    } else {
        lemma_decimal_digits(n as nat);
        let d = decimal(n as nat);
        assert(is_digit(d[0]));
    }
}

} // verus!
