//! `text-transform`: the case of text before it is shaped.

use vstd::prelude::*;

use crate::chars;
use crate::style::TextCase;

verus! {

/// What `char::is_alphanumeric` says of a character.
pub uninterp spec fn is_word_char(c: char) -> bool;

/// What `char::to_uppercase` makes of a character.
pub uninterp spec fn upper_char(c: char) -> Seq<char>;

/// What `str::to_uppercase` makes of a text.
pub uninterp spec fn upper_text(s: Seq<char>) -> Seq<char>;

/// What `str::to_lowercase` makes of a text.
pub uninterp spec fn lower_text(s: Seq<char>) -> Seq<char>;

/// Calls `char::is_alphanumeric`, whose answer depends on the character alone.
#[verifier::external_body]
fn word_char(c: char) -> (r: bool)
    ensures
        r == is_word_char(c),
{
    c.is_alphanumeric()
}

/// Calls `char::to_uppercase` and collects what it gives, which depends on the character
/// alone.
#[verifier::external_body]
fn uppercase_char(c: char) -> (r: Vec<char>)
    ensures
        r@ == upper_char(c),
{
    c.to_uppercase().collect()
}

/// Calls `str::to_uppercase`, whose result depends on the text alone.
#[verifier::external_body]
fn uppercase_text(s: &str) -> (r: String)
    ensures
        r@ == upper_text(s@),
{
    s.to_uppercase()
}

/// Calls `str::to_lowercase`, whose result depends on the text alone.
#[verifier::external_body]
fn lowercase_text(s: &str) -> (r: String)
    ensures
        r@ == lower_text(s@),
{
    s.to_lowercase()
}

/// A word starts at the `k`th character: it is part of one, and the one before is not.
pub open spec fn starts_word(words: Seq<bool>, k: int) -> bool {
    words[k] && (k == 0 || !words[k - 1])
}

/// The first `n` characters with the first of each word in upper case, given which
/// characters are part of words.
pub open spec fn capitalized_by(s: Seq<char>, words: Seq<bool>, n: int) -> Seq<char>
    decreases n,
{
    if n <= 0 {
        Seq::empty()
    } else if starts_word(words, n - 1) {
        capitalized_by(s, words, n - 1) + upper_char(s[n - 1])
    } else {
        capitalized_by(s, words, n - 1).push(s[n - 1])
    }
}

/// A text with the first of each word in upper case. Words are made of letters and digits.
pub open spec fn capitalized(s: Seq<char>) -> Seq<char> {
    capitalized_by(s, s.map_values(|c: char| is_word_char(c)), s.len() as int)
}

/// Capitalizes text: the first letter or digit of each word goes to upper case.
pub fn capitalize_text(input: &str) -> (r: String)
    ensures
        r@ == capitalized(input@),
{
    let text: Vec<char> = chars::to_chars(input);
    let mut words: Vec<bool> = Vec::new();
    let mut w: usize = 0;
    while w < text.len()
        invariant
            w <= text@.len(),
            words@.len() == w,
            forall|j: int| 0 <= j < w ==> #[trigger] words@[j] == is_word_char(text@[j]),
        decreases text.len() - w,
    {
        words.push(word_char(text[w]));
        w = w + 1;
    }
    assert(words@ =~= input@.map_values(|c: char| is_word_char(c)));
    capitalize_words(&text, &words)
}

/// Capitalizes text, given which characters are part of words.
pub fn capitalize_words(text: &Vec<char>, words: &Vec<bool>) -> (r: String)
    requires
        words@.len() == text@.len(),
    ensures
        r@ == capitalized_by(text@, words@, text@.len() as int),
{
    let mut out: String = String::new();
    let mut k: usize = 0;
    while k < text.len()
        invariant
            k <= text@.len() == words@.len(),
            out@ == capitalized_by(text@, words@, k as int),
        decreases text.len() - k,
    {
        if words[k] && (k == 0 || !words[k - 1]) {
            let up: Vec<char> = uppercase_char(text[k]);
            let ghost before = out@;
            chars::push_slice(&mut out, up.as_slice(), 0, up.len());
            assert(up@.subrange(0, up@.len() as int) =~= up@);
            assert(out@ =~= before + up@);
        } else {
            out.push(text[k]);
        }
        k = k + 1;
    }
    out
}

/// A text in the given case.
pub open spec fn in_case(s: Seq<char>, case: TextCase) -> Seq<char> {
    match case {
        TextCase::Unchanged => s,
        TextCase::Uppercase => upper_text(s),
        TextCase::Lowercase => lower_text(s),
        TextCase::Capitalize => capitalized(s),
    }
}

/// A text in the given case.
pub fn transform_text(text: &str, case: TextCase) -> (r: String)
    ensures
        r@ == in_case(text@, case),
{
    match case {
        TextCase::Unchanged => text.to_owned(),
        TextCase::Uppercase => uppercase_text(text),
        TextCase::Lowercase => lowercase_text(text),
        TextCase::Capitalize => capitalize_text(text),
    }
}

/// A text without words is not changed by capitalization.
pub proof fn capitalizing_without_words_is_identity(s: Seq<char>, words: Seq<bool>, n: int)
    requires
        0 <= n <= s.len(),
        words.len() == s.len(),
        forall|k: int| 0 <= k < words.len() ==> !#[trigger] words[k],
    ensures
        capitalized_by(s, words, n) == s.take(n),
    decreases n,
{
    if n > 0 {
        capitalizing_without_words_is_identity(s, words, n - 1);
        assert(!words[n - 1]);
        assert(s.take(n) =~= s.take(n - 1).push(s[n - 1]));
    } else {
        assert(s.take(0) =~= Seq::<char>::empty());
    }
}

/// Capitalizing changes the first character of every word to upper case and keeps every other
/// character, all in their order.
pub proof fn only_first_letters_are_capitalized(s: Seq<char>, words: Seq<bool>, n: int, k: int)
    requires
        0 <= k < n <= s.len(),
        words.len() == s.len(),
    ensures
        ({
            let all = capitalized_by(s, words, n);
            let at = capitalized_by(s, words, k).len() as int;
            let part = if words[k] && (k == 0 || !words[k - 1]) {
                upper_char(s[k])
            } else {
                seq![s[k]]
            };
            &&& at + part.len() <= all.len()
            &&& all.take(at) == capitalized_by(s, words, k)
            &&& all.subrange(at, at + part.len()) == part
            &&& k + 1 == n ==> all.len() == at + part.len()
        }),
    decreases n,
{
    let all = capitalized_by(s, words, n);
    let before = capitalized_by(s, words, k);
    let at = before.len() as int;
    if k + 1 == n {
        assert(all.take(at) =~= before);
        if words[k] && (k == 0 || !words[k - 1]) {
            assert(all.subrange(at, all.len() as int) =~= upper_char(s[k]));
        } else {
            assert(all.subrange(at, all.len() as int) =~= seq![s[k]]);
        }
    } else {
        only_first_letters_are_capitalized(s, words, n - 1, k);
        let fewer = capitalized_by(s, words, n - 1);
        let part = if words[k] && (k == 0 || !words[k - 1]) {
            upper_char(s[k])
        } else {
            seq![s[k]]
        };
        assert(all.take(at) =~= fewer.take(at));
        assert(all.subrange(at, at + part.len()) =~= fewer.subrange(at, at + part.len()));
    }
}

} // verus!
