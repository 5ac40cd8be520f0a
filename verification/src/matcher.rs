//! Comparison of a submitted answer with the expected one.
//!
//! Both texts are normalized: a few accented vowels lose their accent, and
//! only letters, numbers and whitespace are kept. The submitted text is then
//! searched in the expected one by a lenient fuzzy search, and any match at
//! all, whatever its score, makes the answer right.

use vstd::prelude::*;
use crate::text::{char_is_alphanumeric, char_is_whitespace, is_alphanumeric, is_whitespace,
    push_char};

verus! {

/// Whether the fuzzy search of `sublime_fuzzy`, with its default scoring and
/// without regard to case, finds `query` in `target`.
pub uninterp spec fn fuzzy_match_found(query: Seq<char>, target: Seq<char>) -> bool;

/// Trusted: `sublime_fuzzy::best_match`. Whether it returns a match depends on
/// the two strings alone, and is what `fuzzy_match_found` names. The search
/// takes memory that grows with the square of the length of the query.
#[verifier::external_body]
fn best_match_found(query: &str, target: &str) -> (found: bool)
    ensures
        found == fuzzy_match_found(query@, target@),
{
    sublime_fuzzy::best_match(query, target).is_some()
}

/// A character without its accent: e for the accented forms of e that are
/// known here, in both cases, and every other character as it is.
pub open spec fn unaccented(c: char) -> char {
    if c == '\u{e9}' || c == '\u{ea}' || c == '\u{e8}' {
        'e'
    } else if c == '\u{c9}' || c == '\u{ca}' || c == '\u{c8}' {
        'E'
    } else {
        c
    }
}

/// Whether normalization keeps a character: letters, numbers and whitespace.
pub open spec fn is_kept(c: char) -> bool {
    char_is_alphanumeric(c) || char_is_whitespace(c)
}

/// The normalized form of a text: accents removed, then only the kept
/// characters, in their order and case.
pub open spec fn normalized(text: Seq<char>) -> Seq<char> {
    text.map_values(|c: char| unaccented(c)).filter(|c: char| is_kept(c))
}

/// Whether `given` is a right answer where `expected` is asked for.
pub open spec fn is_right_answer(given: Seq<char>, expected: Seq<char>) -> bool {
    fuzzy_match_found(normalized(given), normalized(expected))
}

/// Normalizing a text character by character: a character that is kept once
/// its accent is gone is added, any other is dropped.
pub proof fn lemma_normalized_push(text: Seq<char>, c: char)
    ensures
        normalized(text.push(c)) == if is_kept(unaccented(c)) {
            normalized(text).push(unaccented(c))
        } else {
            normalized(text)
        },
{
    let f = |c: char| unaccented(c);
    let p = |c: char| is_kept(c);
    text.lemma_push_map_commute(f, c);
    text.map_values(f).lemma_filter_push(f(c), p);
}

/// The empty text is its own normalized form.
pub proof fn lemma_normalized_empty()
    ensures
        normalized(Seq::<char>::empty()) == Seq::<char>::empty(),
{
    reveal(Seq::filter);
}

/// Removes the accent of a character.
pub fn remove_accent(c: char) -> (plain: char)
    ensures
        plain == unaccented(c),
{
    if c == '\u{e9}' || c == '\u{ea}' || c == '\u{e8}' {
        'e'
    } else if c == '\u{c9}' || c == '\u{ca}' || c == '\u{c8}' {
        'E'
    } else {
        c
    }
}

/// Normalizes a text.
pub fn normalize(text: &str) -> (plain: String)
    ensures
        plain@ == normalized(text@),
{
    let mut plain = String::new();
    proof {
        lemma_normalized_empty();
    }
    for c in it: text.chars()
        invariant
            it.seq() == text@,
            plain@ == normalized(text@.take(it.index() as int)),
    {
        let ghost seen = text@.take(it.index() as int);
        proof {
            lemma_normalized_push(seen, c);
            assert(text@.take(it.index() + 1) =~= seen.push(c));
        }
        let plain_c = remove_accent(c);
        if is_alphanumeric(plain_c) || is_whitespace(plain_c) {
            push_char(&mut plain, plain_c);
        }
    }
    proof {
        assert(text@.take(text@.len() as int) =~= text@);
    }
    plain
}

/// Decides whether a submitted answer is right, given what the fuzzy search
/// found on the normalized texts.
pub fn answers_match(given: &str, expected: &str) -> (right: bool)
    ensures
        right == is_right_answer(given@, expected@),
{
    let given_plain = normalize(given);
    let expected_plain = normalize(expected);
    best_match_found(given_plain.as_str(), expected_plain.as_str())
}

} // verus!
