//! Tokenization of document text.
//!
//! The splitting rule, applied identically when indexing and when
//! searching: a token is a maximal run of word characters, a word
//! character being an ASCII letter or digit.  Comparison is exact, with no
//! case folding.

use vstd::prelude::*;
use vstd::string::StrSliceExecFns;

verus! {

/// A word character: an ASCII letter or digit.
pub open spec fn is_word_char(c: char) -> bool {
    (48 <= c as u32 && c as u32 <= 57) || (65 <= c as u32 && c as u32 <= 90) || (97 <= c as u32
        && c as u32 <= 122)
}

/// A well-formed search word: nonempty and made of word characters only.
/// No other word can be a token of any text.
pub open spec fn is_word(word: Seq<char>) -> bool {
    word.len() > 0 && forall|j: int| 0 <= j < word.len() ==> is_word_char(#[trigger] word[j])
}

/// `word` stands in `text` at position `i` as a maximal run of word
/// characters: the characters match, and no word character borders the
/// run on either side.
pub open spec fn is_token_at(text: Seq<char>, word: Seq<char>, i: int) -> bool {
    &&& 0 <= i
    &&& i + word.len() <= text.len()
    &&& text.subrange(i, i + word.len() as int) == word
    &&& (i == 0 || !is_word_char(text[i - 1]))
    &&& (i + word.len() == text.len() || !is_word_char(text[i + word.len()]))
}

/// `text` contains `word` as a token under the splitting rule.
pub open spec fn contains_word(text: Seq<char>, word: Seq<char>) -> bool {
    is_word(word) && exists|i: int| is_token_at(text, word, i)
}

/// Whether `c` is a word character.
fn char_is_word(c: char) -> (r: bool)
    ensures
        r == is_word_char(c),
{
    let u = c as u32;
    (48 <= u && u <= 57) || (65 <= u && u <= 90) || (97 <= u && u <= 122)
}

/// The characters of `s`, in order.
pub fn str_chars(s: &str) -> (r: Vec<char>)
    ensures
        r@ == s@,
{
    let n = s.unicode_len();
    let mut r: Vec<char> = Vec::new();
    let mut i: usize = 0;
    while i < n
        invariant
            i <= n,
            n == s@.len(),
            r@ == s@.take(i as int),
        decreases n - i,
    {
        let c = s.get_char(i);
        r.push(c);
        proof {
            assert(s@.take(i as int).push(s@[i as int]) =~= s@.take(i as int + 1));
        }
        i = i + 1;
    }
    proof {
        assert(s@.take(n as int) =~= s@);
    }
    r
}

/// Whether `word` is a well-formed search word.
fn word_ok(word: &[char]) -> (r: bool)
    ensures
        r == is_word(word@),
{
    if word.len() == 0 {
        return false;
    }
    let mut j: usize = 0;
    while j < word.len()
        invariant
            j <= word@.len(),
            forall|q: int| 0 <= q < j ==> is_word_char(#[trigger] word@[q]),
        decreases word@.len() - j,
    {
        if !char_is_word(word[j]) {
            return false;
        }
        j = j + 1;
    }
    true
}

/// Whether `word` stands in `text` at position `i` as a maximal run.
fn token_at(text: &[char], word: &[char], i: usize) -> (r: bool)
    requires
        i + word@.len() <= text@.len(),
    ensures
        r == is_token_at(text@, word@, i as int),
{
    if i > 0 && char_is_word(text[i - 1]) {
        return false;
    }
    let end = i + word.len();
    if end < text.len() && char_is_word(text[end]) {
        return false;
    }
    let mut j: usize = 0;
    while j < word.len()
        invariant
            j <= word@.len(),
            i + word@.len() <= text@.len(),
            end == i + word@.len(),
            i == 0 || !is_word_char(text@[i as int - 1]),
            end == text@.len() || !is_word_char(text@[end as int]),
            forall|q: int| 0 <= q < j ==> text@[i + q] == word@[q],
        decreases word@.len() - j,
    {
        if text[i + j] != word[j] {
            proof {
                assert(text@.subrange(i as int, i as int + word@.len() as int)[j as int] == text@[i
                    as int + j as int]);
            }
            return false;
        }
        j = j + 1;
    }
    proof {
        assert(text@.subrange(i as int, i as int + word@.len() as int) =~= word@);
    }
    true
}

/// Whether `text` contains `word` as a token under the splitting rule.
pub fn text_contains_word(text: &[char], word: &[char]) -> (r: bool)
    ensures
        r == contains_word(text@, word@),
{
    if !word_ok(word) {
        return false;
    }
    if word.len() > text.len() {
        return false;
    }
    let last = text.len() - word.len();
    let mut i: usize = 0;
    while i <= last
        invariant
            word@.len() <= text@.len(),
            last == text@.len() - word@.len(),
            last < usize::MAX,
            i <= last + 1,
            is_word(word@),
            forall|q: int| 0 <= q < i ==> !is_token_at(text@, word@, q),
        decreases last + 1 - i,
    {
        if token_at(text, word, i) {
            return true;
        }
        i = i + 1;
    }
    proof {
        assert forall|q: int| !is_token_at(text@, word@, q) by {
            if 0 <= q < i {
            } else {
            }
        }
    }
    false
}

} // verus!
