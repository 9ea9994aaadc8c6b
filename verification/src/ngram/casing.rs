//! Casing resolution: of a word that the corpus holds both capitalised and
//! in lower case, one spelling is kept.
//!
//! Every word of the mapping that starts with a letter is looked at. An
//! upper-case start reveals a pair if the lower-case spelling of the word is
//! in the mapping too; a lower-case start reveals one if the capitalised
//! spelling is. Pairs are told apart by their lower-case spelling. Where
//! several words reveal a pair with the same lower-case spelling, the pair
//! of the first of them in the order of words stands. Of each pair that
//! stands the capitalised spelling is kept if its share of the matches of
//! both is beyond the configured fraction, else the lower-case spelling.
//! Words that reveal no pair are kept as they are.
//!
//! Which pair a word reveals is a matter of Unicode case mappings. What is
//! done with the pairs is not: [`resolve_pairs`] takes them as plain values.

use crate::chars::{
    char_is_lowercase, char_is_uppercase, lemma_precedes_antisymmetric, lemma_precedes_reflexive,
    lemma_precedes_total, lemma_precedes_transitive, lowercase_text, precedes,
    to_uppercase_string, uppercase_chars, word_precedes,
};
use crate::ngram::frequency_table::{held_before, FrequencyTable};
use crate::ngram::ngram_analyzer::AnalyzerConfig;
use vstd::prelude::*;
use vstd::string::*;

verus! {

/// Whether `word` reveals a pair whose lower-case spelling is `lower`.
pub open spec fn reveals_by(
    pairing: spec_fn(Seq<char>) -> Option<(Seq<char>, Seq<char>)>,
    word: Seq<char>,
    lower: Seq<char>,
) -> bool {
    match pairing(word) {
        Some(pair) => pair.0 == lower,
        None => false,
    }
}

/// Whether the pair that `word` reveals stands: no word that reveals a pair
/// with the same lower-case spelling comes before `word`.
pub open spec fn leads_by(
    pairing: spec_fn(Seq<char>) -> Option<(Seq<char>, Seq<char>)>,
    word: Seq<char>,
) -> bool {
    match pairing(word) {
        Some(pair) => forall|other: Seq<char>| #[trigger]
            reveals_by(pairing, other, pair.0) ==> word_precedes(word, other),
        None => false,
    }
}

/// Whether the capitalised spelling is kept: its share of the matches of
/// both spellings is more than the configured fraction.
pub open spec fn upper_wins(config: AnalyzerConfig, lower: nat, upper: nat) -> bool {
    upper * config.casing_denominator > config.casing_numerator * (lower + upper)
}

/// The spelling that is kept of a pair.
pub open spec fn canonical_of(
    counts: Map<Seq<char>, nat>,
    config: AnalyzerConfig,
    pair: (Seq<char>, Seq<char>),
) -> Seq<char> {
    if upper_wins(config, counts[pair.0], counts[pair.1]) {
        pair.1
    } else {
        pair.0
    }
}

/// Whether the pair that `from` reveals stands and `word` is the spelling
/// kept of it.
pub open spec fn chosen_by(
    counts: Map<Seq<char>, nat>,
    config: AnalyzerConfig,
    pairing: spec_fn(Seq<char>) -> Option<(Seq<char>, Seq<char>)>,
    from: Seq<char>,
    word: Seq<char>,
) -> bool {
    leads_by(pairing, from) && match pairing(from) {
        Some(pair) => canonical_of(counts, config, pair) == word,
        None => false,
    }
}

/// Whether `word` is kept: it reveals no pair, or it is the spelling kept
/// of a pair that stands.
pub open spec fn kept_by(
    counts: Map<Seq<char>, nat>,
    config: AnalyzerConfig,
    pairing: spec_fn(Seq<char>) -> Option<(Seq<char>, Seq<char>)>,
    word: Seq<char>,
) -> bool {
    pairing(word) is None || exists|from: Seq<char>| #[trigger]
        chosen_by(counts, config, pairing, from, word)
}

/// The mapping resolved by a pairing: the words of `counts` that are kept,
/// with their counts.
pub open spec fn resolved_by(
    counts: Map<Seq<char>, nat>,
    config: AnalyzerConfig,
    pairing: spec_fn(Seq<char>) -> Option<(Seq<char>, Seq<char>)>,
) -> Map<Seq<char>, nat> {
    counts.restrict(Set::new(|word: Seq<char>| kept_by(counts, config, pairing, word)))
}

/// Whether `pairs` names the pairs that stand: for every row, the row of
/// the capitalised spelling of the pair whose lower-case spelling the row
/// holds, if a word reveals such a pair.
pub open spec fn standing(
    words: Seq<Seq<char>>,
    pairing: spec_fn(Seq<char>) -> Option<(Seq<char>, Seq<char>)>,
    pairs: Seq<Option<usize>>,
) -> bool {
    &&& pairs.len() == words.len()
    &&& forall|lower: int|
        0 <= lower < words.len() ==> match #[trigger] pairs[lower] {
            Some(upper) => upper < words.len() && exists|from: Seq<char>| #[trigger]
                leads_by(pairing, from) && pairing(from) == Some(
                    (words[lower], words[upper as int]),
                ),
            None => forall|from: Seq<char>| !#[trigger] reveals_by(pairing, from, words[lower]),
        }
}

/// Whether the word starts with an upper-case letter.
pub open spec fn starts_uppercase(word: Seq<char>) -> bool {
    word.len() > 0 && char_is_uppercase(word[0])
}

/// Whether the word starts with a lower-case letter.
pub open spec fn starts_lowercase(word: Seq<char>) -> bool {
    word.len() > 0 && !char_is_uppercase(word[0]) && char_is_lowercase(word[0])
}

/// The word with its first character in upper case.
pub open spec fn capitalized(word: Seq<char>) -> Seq<char> {
    if word.len() == 0 {
        word
    } else {
        uppercase_chars(word[0]) + word.skip(1)
    }
}

/// The pair that `word` reveals among the words of `counts`, lower-case
/// spelling first.
pub open spec fn pair_of(counts: Map<Seq<char>, nat>, word: Seq<char>) -> Option<
    (Seq<char>, Seq<char>),
> {
    if starts_uppercase(word) {
        if counts.contains_key(lowercase_text(word)) {
            Some((lowercase_text(word), word))
        } else {
            None
        }
    } else if starts_lowercase(word) {
        if counts.contains_key(capitalized(word)) {
            Some((word, capitalized(word)))
        } else {
            None
        }
    } else {
        None
    }
}

/// The pairs that the words of `counts` reveal by their casing.
pub open spec fn pairing_of(counts: Map<Seq<char>, nat>) -> spec_fn(Seq<char>) -> Option<
    (Seq<char>, Seq<char>),
> {
    |word: Seq<char>|
        if counts.contains_key(word) {
            pair_of(counts, word)
        } else {
            None
        }
}

/// The resolved mapping: the words that reveal no pair and, of every pair
/// that stands, the spelling that is kept, with their counts.
pub open spec fn resolved(counts: Map<Seq<char>, nat>, config: AnalyzerConfig) -> Map<
    Seq<char>,
    nat,
> {
    resolved_by(counts, config, pairing_of(counts))
}

/// The pair of words that row `row` reveals where `revealed` gives the rows
/// of the two spellings; none where a row is out of range.
pub open spec fn row_pair(
    words: Seq<Seq<char>>,
    revealed: Seq<Option<(usize, usize)>>,
    row: int,
) -> Option<(Seq<char>, Seq<char>)> {
    if 0 <= row < revealed.len() && row < words.len() {
        match revealed[row] {
            Some(rows) => if rows.0 < words.len() && rows.1 < words.len() {
                Some((words[rows.0 as int], words[rows.1 as int]))
            } else {
                None
            },
            None => None,
        }
    } else {
        None
    }
}

/// The pairs that the words reveal where `revealed` gives, row by row, the
/// rows of the two spellings.
pub open spec fn pairing_by_rows(
    words: Seq<Seq<char>>,
    revealed: Seq<Option<(usize, usize)>>,
) -> spec_fn(Seq<char>) -> Option<(Seq<char>, Seq<char>)> {
    |word: Seq<char>|
        if words.contains(word) {
            row_pair(words, revealed, words.index_of(word))
        } else {
            None
        }
}

/// Whether the casings of the words of the mapping agree: wherever a
/// capitalised word and its lower-case spelling, or a lower-case word and
/// its capitalised spelling, are both in the mapping, each of the two is the
/// other's spelling in the opposite case.
pub open spec fn casing_consistent(counts: Map<Seq<char>, nat>) -> bool {
    forall|word: Seq<char>| #[trigger]
        counts.contains_key(word) ==> {
            &&& starts_uppercase(word) && counts.contains_key(lowercase_text(word))
                ==> starts_lowercase(lowercase_text(word)) && capitalized(lowercase_text(word))
                == word
            &&& starts_lowercase(word) && counts.contains_key(capitalized(word))
                ==> starts_uppercase(capitalized(word)) && lowercase_text(capitalized(word))
                == word
        }
}

/// Whether `lower` and `upper` are two spellings of one word that differ in
/// the case of the first letter.
pub open spec fn casing_pair(lower: Seq<char>, upper: Seq<char>) -> bool {
    lower != upper && ((starts_uppercase(upper) && lowercase_text(upper) == lower) || (
    starts_lowercase(lower) && capitalized(lower) == upper))
}

/// With the usual fraction of three quarters the capitalised spelling is
/// kept exactly where it has more than three times the matches of the
/// lower-case spelling.
pub proof fn lemma_standard_share(lower: nat, upper: nat)
    ensures
        upper_wins(AnalyzerConfig::standard(), lower, upper) <==> upper > 3 * lower,
{
}

/// Every word of a resolved mapping is a word of the mapping that was
/// resolved, with the count it had there.
pub proof fn lemma_resolved_keeps_counts(
    counts: Map<Seq<char>, nat>,
    config: AnalyzerConfig,
    word: Seq<char>,
)
    requires
        resolved(counts, config).contains_key(word),
    ensures
        counts.contains_key(word),
        resolved(counts, config)[word] == counts[word],
{
}

/// A word of the mapping that reveals no pair is in the resolved mapping.
pub proof fn lemma_unpaired_kept(counts: Map<Seq<char>, nat>, config: AnalyzerConfig, word: Seq<char>)
    requires
        counts.contains_key(word),
        pair_of(counts, word) is None,
    ensures
        resolved(counts, config).contains_key(word),
{
}

/// Of every pair that stands, the spelling that is kept is in the resolved
/// mapping.
pub proof fn lemma_canonical_kept(
    counts: Map<Seq<char>, nat>,
    config: AnalyzerConfig,
    from: Seq<char>,
)
    requires
        leads_by(pairing_of(counts), from),
    ensures
        pairing_of(counts)(from) is Some,
        resolved(counts, config).contains_key(
            canonical_of(counts, config, pairing_of(counts)(from)->0),
        ),
{
    let pairing = pairing_of(counts);
    let word = canonical_of(counts, config, pairing(from)->0);
    assert(chosen_by(counts, config, pairing, from, word));
}

/// Where the casings of the words of a mapping agree, the resolved mapping
/// never holds both spellings of a word.
pub proof fn lemma_one_casing_kept(
    counts: Map<Seq<char>, nat>,
    config: AnalyzerConfig,
    lower: Seq<char>,
    upper: Seq<char>,
)
    requires
        casing_consistent(counts),
        casing_pair(lower, upper),
    ensures
        !(resolved(counts, config).contains_key(lower) && resolved(counts, config).contains_key(
            upper,
        )),
{
    let kept_counts = resolved(counts, config);
    let pairing = pairing_of(counts);
    if kept_counts.contains_key(lower) && kept_counts.contains_key(upper) {
        assert(counts.contains_key(lower) && counts.contains_key(upper));
        assert(kept_by(counts, config, pairing, lower) && kept_by(counts, config, pairing, upper));
        assert(starts_uppercase(upper) && lowercase_text(upper) == lower);
        assert(starts_lowercase(lower) && capitalized(lower) == upper);
        assert(pairing(upper) == Some((lower, upper)));
        assert(pairing(lower) == Some((lower, upper)));
        let from_upper = choose|from: Seq<char>| #[trigger]
            chosen_by(counts, config, pairing, from, upper);
        let from_lower = choose|from: Seq<char>| #[trigger]
            chosen_by(counts, config, pairing, from, lower);
        assert(counts.contains_key(from_upper) && counts.contains_key(from_lower));
        let pair_upper = pairing(from_upper)->0;
        let pair_lower = pairing(from_lower)->0;
        assert(pair_upper == (lower, upper));
        assert(pair_lower == (lower, upper));
    }
}

/// Tells whether the capitalised spelling is kept.
pub fn is_upper_kept(config: &AnalyzerConfig, lower: u32, upper: u32) -> (kept: bool)
    ensures
        kept == upper_wins(*config, lower as nat, upper as nat),
{
    let both: u128 = lower as u128 + upper as u128;
    assert(upper as u128 * config.casing_denominator as u128 <= 0xffff_ffff * 0xffff_ffff)
        by (nonlinear_arith)
        requires
            upper <= 0xffff_ffff,
            config.casing_denominator <= 0xffff_ffff,
    ;
    assert(config.casing_numerator as u128 * both <= 0xffff_ffff * 0x1_ffff_fffe)
        by (nonlinear_arith)
        requires
            config.casing_numerator <= 0xffff_ffff,
            both <= 0x1_ffff_fffe,
    ;
    upper as u128 * config.casing_denominator as u128 > config.casing_numerator as u128 * both
}

/// The word with its first character in upper case.
pub fn capitalize(word: &str) -> (upper: String)
    ensures
        upper@ == capitalized(word@),
{
    if word.unicode_len() == 0 {
        return word.to_owned();
    }
    let mut upper = to_uppercase_string(word.get_char(0));
    let rest = word.substring_char(1, word.unicode_len());
    upper.append(rest);
    proof {
        assert(word@.subrange(1, word@.len() as int) =~= word@.skip(1));
    }
    upper
}

/// The outcome of casing resolution.
pub struct Resolution {
    /// The words that are kept, with their counts.
    pub frequencies: FrequencyTable,
    /// The pairs that stand: for every row of the mapping that was
    /// resolved, the row of the capitalised spelling of the pair whose
    /// lower-case spelling the row holds, if there is such a pair.
    pub pairs: Vec<Option<usize>>,
}

/// The rows of the pair that the word of row `row` reveals by its casing,
/// lower-case spelling first.
fn pair_rows(global: &FrequencyTable, row: usize) -> (pair: Option<(usize, usize)>)
    requires
        global.wf(),
        row < global.words().len(),
    ensures
        match pair {
            Some(rows) => rows.0 < global.words().len() && rows.1 < global.words().len()
                && pair_of(global@, global.words()[row as int]) == Some(
                (global.words()[rows.0 as int], global.words()[rows.1 as int]),
            ),
            None => pair_of(global@, global.words()[row as int]) is None,
        },
{
    let word = global.word_at(row);
    if word.unicode_len() == 0 {
        return None;
    }
    let first = word.get_char(0);
    if first.is_uppercase() {
        let lower = word.to_lowercase();
        match global.row_of(lower.as_str()) {
            Some(lower_row) => Some((lower_row, row)),
            None => None,
        }
    } else if first.is_lowercase() {
        let upper = capitalize(word);
        match global.row_of(upper.as_str()) {
            Some(upper_row) => Some((row, upper_row)),
            None => None,
        }
    } else {
        None
    }
}

/// The pairs that the words of `global` reveal by their casing: for every
/// row, the rows of the two spellings, lower-case spelling first.
pub fn revealed_pairs(global: &FrequencyTable) -> (revealed: Vec<Option<(usize, usize)>>)
    requires
        global.wf(),
    ensures
        revealed@.len() == global.words().len(),
        forall|row: int|
            0 <= row < revealed@.len() ==> row_pair(global.words(), revealed@, row) == pair_of(
                global@,
                #[trigger] global.words()[row],
            ),
{
    let rows = global.len();
    let mut revealed: Vec<Option<(usize, usize)>> = Vec::new();
    let mut row: usize = 0;
    while row < rows
        invariant
            row <= rows,
            rows == global.words().len(),
            global.wf(),
            revealed@.len() == row,
            forall|r: int|
                0 <= r < row ==> row_pair(global.words(), revealed@, r) == pair_of(
                    global@,
                    #[trigger] global.words()[r],
                ),
        decreases rows - row,
    {
        let ghost before = revealed@;
        let pair = pair_rows(global, row);
        revealed.push(pair);
        proof {
            assert forall|r: int| 0 <= r < row + 1 implies row_pair(
                global.words(),
                revealed@,
                r,
            ) == pair_of(global@, #[trigger] global.words()[r]) by {
                if r < row {
                    assert(revealed@[r] == before[r]);
                    assert(row_pair(global.words(), before, r) == pair_of(
                        global@,
                        global.words()[r],
                    ));
                }
            }
        }
        row += 1;
    }
    revealed
}

/// The rows of the pair that `revealed` gives for row `row`, if both are
/// rows of the mapping.
fn pair_at(revealed: &[Option<(usize, usize)>], rows: usize, row: usize) -> (pair: Option<
    (usize, usize),
>)
    ensures
        match pair {
            Some(found) => row < revealed@.len() && revealed@[row as int] == Some(found)
                && found.0 < rows && found.1 < rows,
            None => row >= revealed@.len() || match revealed@[row as int] {
                Some(found) => !(found.0 < rows && found.1 < rows),
                None => true,
            },
        },
{
    if row < revealed.len() {
        match revealed[row] {
            Some(found) => if found.0 < rows && found.1 < rows {
                Some(found)
            } else {
                None
            },
            None => None,
        }
    } else {
        None
    }
}

/// What is known of the pair with the lower-case spelling of row `lower`
/// after the first `seen` rows were looked at: `leader` is the row of the
/// first word in order among them that reveals it, and `upper` the row of
/// the capitalised spelling in that word's pair.
spec fn leader_known(
    words: Seq<Seq<char>>,
    pairing: spec_fn(Seq<char>) -> Option<(Seq<char>, Seq<char>)>,
    seen: int,
    lower: int,
    leader: Option<usize>,
    upper: usize,
) -> bool {
    match leader {
        Some(k) => k < seen && k < words.len() && upper < words.len() && pairing(words[k as int])
            == Some((words[lower], words[upper as int])) && forall|j: int|
            0 <= j < seen && j < words.len() && reveals_by(pairing, #[trigger] words[j], words[lower])
                ==> word_precedes(words[k as int], words[j]),
        None => forall|j: int|
            0 <= j < seen && j < words.len() ==> !reveals_by(
                pairing,
                #[trigger] words[j],
                words[lower],
            ),
    }
}

/// Whether `word` is the spelling kept of one of the pairs whose lower-case
/// spelling is in the first `done` rows.
spec fn chosen_before(
    words: Seq<Seq<char>>,
    counts: Map<Seq<char>, nat>,
    config: AnalyzerConfig,
    pairing: spec_fn(Seq<char>) -> Option<(Seq<char>, Seq<char>)>,
    leaders: Seq<Option<usize>>,
    done: int,
    word: Seq<char>,
) -> bool {
    exists|lower: int|
        0 <= lower < done && lower < leaders.len() && (#[trigger] leaders[lower]) is Some
            && chosen_by(counts, config, pairing, words[leaders[lower]->0 as int], word)
}

/// Whether a pairing knows no word but those of `words`, and pairs the word
/// of every row as `revealed` says.
spec fn pairs_rows(
    words: Seq<Seq<char>>,
    revealed: Seq<Option<(usize, usize)>>,
    pairing: spec_fn(Seq<char>) -> Option<(Seq<char>, Seq<char>)>,
) -> bool {
    &&& forall|row: int|
        0 <= row < words.len() ==> pairing(#[trigger] words[row]) == row_pair(
            words,
            revealed,
            row,
        )
    &&& forall|word: Seq<char>| !words.contains(word) ==> (#[trigger] pairing(word)) is None
}

proof fn lemma_pairing_by_rows(words: Seq<Seq<char>>, revealed: Seq<Option<(usize, usize)>>)
    requires
        words.no_duplicates(),
    ensures
        pairs_rows(words, revealed, pairing_by_rows(words, revealed)),
{
    let pairing = pairing_by_rows(words, revealed);
    assert forall|row: int| 0 <= row < words.len() implies pairing(#[trigger] words[row])
        == row_pair(words, revealed, row) by {
        assert(words.contains(words[row]));
        let found = words.index_of(words[row]);
        assert(words[found] == words[row]);
    }
}

proof fn lemma_leader_leads(
    words: Seq<Seq<char>>,
    revealed: Seq<Option<(usize, usize)>>,
    pairing: spec_fn(Seq<char>) -> Option<(Seq<char>, Seq<char>)>,
    lower: int,
    leader: Option<usize>,
    upper: usize,
)
    requires
        pairs_rows(words, revealed, pairing),
        0 <= lower < words.len(),
        leader is Some,
        leader_known(words, pairing, words.len() as int, lower, leader, upper),
    ensures
        leads_by(pairing, words[leader->0 as int]),
        pairing(words[leader->0 as int]) == Some((words[lower], words[upper as int])),
{
    let k = leader->0 as int;
    assert forall|other: Seq<char>| #[trigger]
        reveals_by(pairing, other, words[lower]) implies word_precedes(words[k], other) by {
        assert(words.contains(other));
        let j = choose|j: int| 0 <= j < words.len() && words[j] == other;
        assert(reveals_by(pairing, words[j], words[lower]));
    }
}

proof fn lemma_chosen_before_next(
    words: Seq<Seq<char>>,
    counts: Map<Seq<char>, nat>,
    config: AnalyzerConfig,
    pairing: spec_fn(Seq<char>) -> Option<(Seq<char>, Seq<char>)>,
    leaders: Seq<Option<usize>>,
    done: int,
    word: Seq<char>,
)
    requires
        0 <= done < leaders.len(),
    ensures
        chosen_before(words, counts, config, pairing, leaders, done + 1, word) <==> (
        chosen_before(words, counts, config, pairing, leaders, done, word) || (leaders[done] is Some
            && chosen_by(counts, config, pairing, words[leaders[done]->0 as int], word))),
{
    if chosen_before(words, counts, config, pairing, leaders, done + 1, word) {
        let l = choose|l: int|
            0 <= l < done + 1 && l < leaders.len() && (#[trigger] leaders[l]) is Some
                && chosen_by(counts, config, pairing, words[leaders[l]->0 as int], word);
        if l < done {
            assert(chosen_before(words, counts, config, pairing, leaders, done, word));
        }
    }
    if chosen_before(words, counts, config, pairing, leaders, done, word) {
        let l = choose|l: int|
            0 <= l < done && l < leaders.len() && (#[trigger] leaders[l]) is Some && chosen_by(
                counts,
                config,
                pairing,
                words[leaders[l]->0 as int],
                word,
            );
        assert(leaders[l] is Some);
    }
    if leaders[done] is Some && chosen_by(
        counts,
        config,
        pairing,
        words[leaders[done]->0 as int],
        word,
    ) {
        assert(leaders[done] is Some);
    }
}

/// Resolves the words of `global` by the pairs that `revealed` gives, row
/// by row, as the rows of the two spellings, lower-case spelling first. A
/// pair with a row that the mapping does not have counts as none.
pub fn resolve_pairs(
    global: &FrequencyTable,
    revealed: &[Option<(usize, usize)>],
    config: &AnalyzerConfig,
) -> (resolution: Resolution)
    requires
        global.wf(),
    ensures
        resolution.frequencies.wf(),
        resolution.frequencies@ == resolved_by(
            global@,
            *config,
            pairing_by_rows(global.words(), revealed@),
        ),
        standing(
            global.words(),
            pairing_by_rows(global.words(), revealed@),
            resolution.pairs@,
        ),
{
    let rows = global.len();
    let mut table = FrequencyTable::new();
    let mut leaders: Vec<Option<usize>> = Vec::new();
    let mut uppers: Vec<usize> = Vec::new();
    let mut fill: usize = 0;
    while fill < rows
        invariant
            fill <= rows,
            leaders@.len() == fill,
            uppers@.len() == fill,
            forall|lower: int| 0 <= lower < fill ==> (#[trigger] leaders@[lower]) is None,
        decreases rows - fill,
    {
        leaders.push(None);
        uppers.push(0);
        fill += 1;
    }
    let ghost words = global.words();
    let ghost counts = global@;
    let ghost pairing = pairing_by_rows(words, revealed@);
    proof {
        global.lemma_enumerated();
        lemma_pairing_by_rows(words, revealed@);
    }
    let mut row: usize = 0;
    while row < rows
        invariant
            row <= rows,
            rows == words.len(),
            words == global.words(),
            counts == global@,
            pairing == pairing_by_rows(words, revealed@),
            pairs_rows(words, revealed@, pairing),
            global.wf(),
            global.enumerated(),
            table.wf(),
            leaders@.len() == rows,
            uppers@.len() == rows,
            forall|lower: int|
                0 <= lower < rows ==> leader_known(
                    words,
                    pairing,
                    row as int,
                    lower,
                    #[trigger] leaders@[lower],
                    uppers@[lower],
                ),
            table@ =~= Map::new(
                |word: Seq<char>|
                    counts.contains_key(word) && held_before(words, row as int, word) && pairing(
                        word,
                    ) is None,
                |word: Seq<char>| counts[word],
            ),
        decreases rows - row,
    {
        let word = global.word_at(row);
        let ghost old_leaders = leaders@;
        let ghost old_uppers = uppers@;
        proof {
            assert(pairing(words[row as int]) == row_pair(words, revealed@, row as int));
        }
        match pair_at(revealed, rows, row) {
            None => {
                table.insert_absent(word, global.count_at(row));
                proof {
                    assert forall|lower: int| 0 <= lower < rows implies leader_known(
                        words,
                        pairing,
                        row + 1,
                        lower,
                        #[trigger] leaders@[lower],
                        uppers@[lower],
                    ) by {
                        assert(leader_known(
                            words,
                            pairing,
                            row as int,
                            lower,
                            leaders@[lower],
                            uppers@[lower],
                        ));
                    }
                }
            },
            Some(pair) => {
                let replace = match leaders[pair.0] {
                    None => true,
                    Some(leader) => !precedes(global.word_at(leader), word),
                };
                if replace {
                    leaders.set(pair.0, Some(row));
                    uppers.set(pair.0, pair.1);
                }
                proof {
                    assert forall|lower: int| 0 <= lower < rows implies leader_known(
                        words,
                        pairing,
                        row + 1,
                        lower,
                        #[trigger] leaders@[lower],
                        uppers@[lower],
                    ) by {
                        assert(leader_known(
                            words,
                            pairing,
                            row as int,
                            lower,
                            old_leaders[lower],
                            old_uppers[lower],
                        ));
                        if lower == pair.0 {
                            lemma_precedes_reflexive(words[row as int]);
                            match old_leaders[lower] {
                                Some(leader) => {
                                    if replace {
                                        lemma_precedes_total(
                                            words[leader as int],
                                            words[row as int],
                                        );
                                        assert forall|j: int|
                                            0 <= j < row + 1 && j < words.len() && reveals_by(
                                                pairing,
                                                #[trigger] words[j],
                                                words[lower],
                                            ) implies word_precedes(words[row as int], words[j]) by {
                                            if j < row {
                                                lemma_precedes_transitive(
                                                    words[row as int],
                                                    words[leader as int],
                                                    words[j],
                                                );
                                            }
                                        }
                                    }
                                },
                                None => {},
                            }
                        } else {
                            assert(words[lower] != words[pair.0 as int]);
                            assert(!reveals_by(pairing, words[row as int], words[lower]));
                        }
                    }
                }
            },
        }
        row += 1;
    }
    proof {
        assert forall|word: Seq<char>| counts.contains_key(word) implies held_before(
            words,
            rows as int,
            word,
        ) by {
            assert(words.contains(word));
            let at = choose|at: int| 0 <= at < words.len() && words[at] == word;
            assert(words[at] == word);
        }
    }
    let mut pairs: Vec<Option<usize>> = Vec::new();
    let mut lower: usize = 0;
    while lower < rows
        invariant
            lower <= rows,
            rows == words.len(),
            words == global.words(),
            counts == global@,
            pairing == pairing_by_rows(words, revealed@),
            pairs_rows(words, revealed@, pairing),
            global.wf(),
            global.enumerated(),
            table.wf(),
            leaders@.len() == rows,
            uppers@.len() == rows,
            pairs@.len() == lower,
            forall|l: int|
                0 <= l < rows ==> leader_known(
                    words,
                    pairing,
                    rows as int,
                    l,
                    #[trigger] leaders@[l],
                    uppers@[l],
                ),
            forall|l: int|
                0 <= l < lower ==> #[trigger] pairs@[l] == match leaders@[l] {
                    Some(_) => Some(uppers@[l]),
                    None => None,
                },
            table@ =~= Map::new(
                |word: Seq<char>|
                    counts.contains_key(word) && (pairing(word) is None || chosen_before(
                        words,
                        counts,
                        *config,
                        pairing,
                        leaders@,
                        lower as int,
                        word,
                    )),
                |word: Seq<char>| counts[word],
            ),
        decreases rows - lower,
    {
        match leaders[lower] {
            Some(leader) => {
                let upper = uppers[lower];
                proof {
                    assert(leader_known(
                        words,
                        pairing,
                        rows as int,
                        lower as int,
                        leaders@[lower as int],
                        uppers@[lower as int],
                    ));
                    lemma_leader_leads(
                        words,
                        revealed@,
                        pairing,
                        lower as int,
                        leaders@[lower as int],
                        upper,
                    );
                }
                let pick = if is_upper_kept(config, global.count_at(lower), global.count_at(upper)) {
                    upper
                } else {
                    lower
                };
                table.insert_absent(global.word_at(pick), global.count_at(pick));
                pairs.push(Some(upper));
                proof {
                    let picked = words[pick as int];
                    assert(chosen_by(counts, *config, pairing, words[leader as int], picked));
                    assert forall|word: Seq<char>|
                        chosen_before(words, counts, *config, pairing, leaders@, lower + 1, word)
                            <==> (chosen_before(
                            words,
                            counts,
                            *config,
                            pairing,
                            leaders@,
                            lower as int,
                            word,
                        ) || word == picked) by {
                        lemma_chosen_before_next(
                            words,
                            counts,
                            *config,
                            pairing,
                            leaders@,
                            lower as int,
                            word,
                        );
                    }
                }
            },
            None => {
                pairs.push(None);
                proof {
                    assert forall|word: Seq<char>|
                        chosen_before(words, counts, *config, pairing, leaders@, lower + 1, word)
                            <==> chosen_before(
                            words,
                            counts,
                            *config,
                            pairing,
                            leaders@,
                            lower as int,
                            word,
                        ) by {
                        lemma_chosen_before_next(
                            words,
                            counts,
                            *config,
                            pairing,
                            leaders@,
                            lower as int,
                            word,
                        );
                    }
                }
            },
        }
        lower += 1;
    }
    proof {
        assert forall|word: Seq<char>| counts.contains_key(word) implies (kept_by(
            counts,
            *config,
            pairing,
            word,
        ) <==> (pairing(word) is None || chosen_before(
            words,
            counts,
            *config,
            pairing,
            leaders@,
            rows as int,
            word,
        ))) by {
            if exists|from: Seq<char>| #[trigger] chosen_by(counts, *config, pairing, from, word) {
                let from = choose|from: Seq<char>| #[trigger]
                    chosen_by(counts, *config, pairing, from, word);
                let pair = pairing(from)->0;
                assert(words.contains(from));
                let j = choose|j: int| 0 <= j < words.len() && words[j] == from;
                assert(pairing(words[j]) == row_pair(words, revealed@, j));
                let found = revealed@[j]->0;
                let l = found.0 as int;
                assert(words[l] == pair.0);
                assert(leader_known(words, pairing, rows as int, l, leaders@[l], uppers@[l]));
                assert(reveals_by(pairing, words[j], words[l]));
                assert(leaders@[l] is Some);
                lemma_leader_leads(words, revealed@, pairing, l, leaders@[l], uppers@[l]);
                let k = leaders@[l]->0 as int;
                assert(reveals_by(pairing, from, pair.0));
                assert(word_precedes(words[k], from));
                assert(reveals_by(pairing, words[k], pair.0));
                assert(word_precedes(from, words[k]));
                lemma_precedes_antisymmetric(from, words[k]);
                assert(chosen_by(counts, *config, pairing, words[k], word));
                assert(chosen_before(words, counts, *config, pairing, leaders@, rows as int, word));
            }
            if chosen_before(words, counts, *config, pairing, leaders@, rows as int, word) {
                let l = choose|l: int|
                    0 <= l < rows && l < leaders@.len() && (#[trigger] leaders@[l]) is Some
                        && chosen_by(counts, *config, pairing, words[leaders@[l]->0 as int], word);
                assert(chosen_by(counts, *config, pairing, words[leaders@[l]->0 as int], word));
            }
        }
        assert(table@ =~= resolved_by(counts, *config, pairing));
        assert forall|l: int| 0 <= l < words.len() implies match #[trigger] pairs@[l] {
            Some(upper) => upper < words.len() && exists|from: Seq<char>| #[trigger]
                leads_by(pairing, from) && pairing(from) == Some((words[l], words[upper as int])),
            None => forall|from: Seq<char>| !#[trigger] reveals_by(pairing, from, words[l]),
        } by {
            assert(leader_known(words, pairing, rows as int, l, leaders@[l], uppers@[l]));
            match leaders@[l] {
                Some(leader) => {
                    lemma_leader_leads(words, revealed@, pairing, l, leaders@[l], uppers@[l]);
                    assert(leads_by(pairing, words[leader as int]));
                },
                None => {
                    assert forall|from: Seq<char>| !#[trigger] reveals_by(
                        pairing,
                        from,
                        words[l],
                    ) by {
                        if reveals_by(pairing, from, words[l]) {
                            assert(words.contains(from));
                            let j = choose|j: int| 0 <= j < words.len() && words[j] == from;
                            assert(reveals_by(pairing, words[j], words[l]));
                        }
                    }
                },
            }
        }
    }
    Resolution { frequencies: table, pairs }
}

/// Resolves the casing of the words of `global`: the mapping that comes
/// back holds, with their counts, the words that reveal no pair and, of
/// every pair that stands, the spelling that is kept.
pub fn resolve_casing(global: &FrequencyTable, config: &AnalyzerConfig) -> (resolution: Resolution)
    requires
        global.wf(),
    ensures
        resolution.frequencies.wf(),
        resolution.frequencies@ == resolved(global@, *config),
        standing(global.words(), pairing_of(global@), resolution.pairs@),
{
    let revealed = revealed_pairs(global);
    proof {
        global.lemma_enumerated();
        let words = global.words();
        let by_rows = pairing_by_rows(words, revealed@);
        let by_case = pairing_of(global@);
        lemma_pairing_by_rows(words, revealed@);
        assert forall|word: Seq<char>| #[trigger] by_rows(word) == by_case(word) by {
            if words.contains(word) {
                let row = choose|row: int| 0 <= row < words.len() && words[row] == word;
                assert(by_rows(words[row]) == row_pair(words, revealed@, row));
            }
        }
        assert(by_rows =~= by_case);
    }
    resolve_pairs(global, revealed.as_slice(), config)
}

} // verus!
