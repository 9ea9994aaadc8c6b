//! Characters of a word: letter case, punctuation and the order of words.

use vstd::prelude::*;

verus! {

/// Whether `c` has the Unicode property `Uppercase`.
pub uninterp spec fn char_is_uppercase(c: char) -> bool;

/// Whether `c` has the Unicode property `Lowercase`.
pub uninterp spec fn char_is_lowercase(c: char) -> bool;

/// The lower-case spelling of `text` by the Unicode case mappings.
pub uninterp spec fn lowercase_text(text: Seq<char>) -> Seq<char>;

/// The upper-case mapping of `c`, which may be several characters long.
pub uninterp spec fn uppercase_chars(c: char) -> Seq<char>;

/// `char::is_uppercase` of std: the answer is a function of the character
/// alone, named [`char_is_uppercase`]; nothing more is claimed of it.
pub assume_specification[ char::is_uppercase ](c: char) -> (upper: bool)
    ensures
        upper == char_is_uppercase(c),
;

/// `char::is_lowercase` of std: the answer is a function of the character
/// alone, named [`char_is_lowercase`]; nothing more is claimed of it.
pub assume_specification[ char::is_lowercase ](c: char) -> (lower: bool)
    ensures
        lower == char_is_lowercase(c),
;

/// `str::to_lowercase` of std: the new string is a function of the
/// characters of `text` alone, named [`lowercase_text`].
pub assume_specification[ str::to_lowercase ](text: &str) -> (lower: String)
    ensures
        lower@ == lowercase_text(text@),
;

/// `char::to_uppercase` of std, its characters gathered in a string: they
/// are a function of `c` alone, named [`uppercase_chars`].
#[verifier::external_body]
pub(crate) fn to_uppercase_string(c: char) -> (upper: String)
    ensures
        upper@ == uppercase_chars(c),
{
    c.to_uppercase().collect()
}

/// ASCII punctuation: the four blocks of the ASCII table between the
/// control characters, the digits and the letters.
pub open spec fn ascii_punctuation(c: char) -> bool {
    ||| '!' <= c <= '/'
    ||| ':' <= c <= '@'
    ||| '[' <= c <= '`'
    ||| '{' <= c <= '~'
}

/// Tells whether `c` is an ASCII punctuation character.
pub fn is_ascii_punctuation(c: char) -> (punct: bool)
    ensures
        punct == ascii_punctuation(c),
{
    ('!' <= c && c <= '/') || (':' <= c && c <= '@') || ('[' <= c && c <= '`') || ('{' <= c
        && c <= '~')
}

/// The characters of `text`, one by one.
pub fn chars_of(text: &str) -> (chars: Vec<char>)
    ensures
        chars@ == text@,
{
    let mut chars: Vec<char> = Vec::new();
    for c in it: text.chars()
        invariant
            chars@ == it.seq().take(it.index()),
            it.seq() == text@,
    {
        chars.push(c);
    }
    chars
}

/// The order of words: character by character by code point, a word
/// before every longer word that starts with it. A word precedes itself.
pub open spec fn word_precedes(left: Seq<char>, right: Seq<char>) -> bool
    decreases left.len(),
{
    if left.len() == 0 {
        true
    } else if right.len() == 0 {
        false
    } else if left[0] != right[0] {
        left[0] < right[0]
    } else {
        word_precedes(left.skip(1), right.skip(1))
    }
}

/// Every word precedes itself.
pub proof fn lemma_precedes_reflexive(word: Seq<char>)
    ensures
        word_precedes(word, word),
    decreases word.len(),
{
    if word.len() > 0 {
        lemma_precedes_reflexive(word.skip(1));
    }
}

/// Of two words, one precedes the other.
pub proof fn lemma_precedes_total(left: Seq<char>, right: Seq<char>)
    ensures
        word_precedes(left, right) || word_precedes(right, left),
    decreases left.len(),
{
    if left.len() > 0 && right.len() > 0 && left[0] == right[0] {
        lemma_precedes_total(left.skip(1), right.skip(1));
    }
}

/// Two words that precede each other are the same word.
pub proof fn lemma_precedes_antisymmetric(left: Seq<char>, right: Seq<char>)
    requires
        word_precedes(left, right),
        word_precedes(right, left),
    ensures
        left == right,
    decreases left.len(),
{
    if left.len() > 0 && right.len() > 0 {
        lemma_precedes_antisymmetric(left.skip(1), right.skip(1));
        assert(left =~= seq![left[0]] + left.skip(1));
    }
}

/// A word precedes what the words after it precede.
pub proof fn lemma_precedes_transitive(first: Seq<char>, second: Seq<char>, third: Seq<char>)
    requires
        word_precedes(first, second),
        word_precedes(second, third),
    ensures
        word_precedes(first, third),
    decreases first.len(),
{
    if first.len() > 0 && second.len() > 0 && third.len() > 0 {
        if first[0] == second[0] && second[0] == third[0] {
            lemma_precedes_transitive(first.skip(1), second.skip(1), third.skip(1));
        }
    }
}

/// Tells whether `left` precedes `right` in the order of words.
pub fn precedes(left: &str, right: &str) -> (before: bool)
    ensures
        before == word_precedes(left@, right@),
{
    let a = chars_of(left);
    let b = chars_of(right);
    let mut at: usize = 0;
    proof {
        assert(a@.skip(0) =~= a@);
        assert(b@.skip(0) =~= b@);
    }
    loop
        invariant
            a@ == left@,
            b@ == right@,
            at <= a.len(),
            at <= b.len(),
            word_precedes(left@, right@) == word_precedes(a@.skip(at as int), b@.skip(at as int)),
        decreases a.len() - at,
    {
        if at == a.len() {
            return true;
        }
        if at == b.len() {
            return false;
        }
        proof {
            assert(a@.skip(at as int).skip(1) =~= a@.skip(at + 1));
            assert(b@.skip(at as int).skip(1) =~= b@.skip(at + 1));
        }
        if a[at] != b[at] {
            return a[at] < b[at];
        }
        at += 1;
    }
}

} // verus!
