//! Tallying the lines of a partition: the match counts of every word, added
//! up over the records that are recent and frequent enough.

use crate::error::Error;
use crate::ngram::frequency_table::{fits, lemma_merged_fits, merged, recorded, FrequencyTable};
use crate::ngram::ngram_analyzer::AnalyzerConfig;
use crate::parser::{parse_corpus_entry, parsed_record};
use vstd::prelude::*;

verus! {

/// The text of every line.
pub open spec fn texts(lines: Seq<String>) -> Seq<Seq<char>> {
    Seq::new(lines.len(), |i: int| lines[i]@)
}

/// What a line adds to the tally: the word and the match count of its
/// record, if it holds one that is recent and frequent enough.
pub open spec fn tallied(line: Seq<char>, config: AnalyzerConfig) -> Option<(Seq<char>, nat)> {
    match parsed_record(line) {
        Some(record) => if record.frequency >= config.threshold && record.year
            >= config.year_threshold {
            Some((record.word, record.frequency))
        } else {
            None
        },
        None => None,
    }
}

/// Whether the line adds to the count of `word`.
pub open spec fn carries(line: Seq<char>, config: AnalyzerConfig, word: Seq<char>) -> bool {
    match tallied(line, config) {
        Some(pair) => pair.0 == word,
        None => false,
    }
}

/// The matches that the line adds to the count of `word`.
pub open spec fn matches_in(line: Seq<char>, config: AnalyzerConfig, word: Seq<char>) -> nat {
    match tallied(line, config) {
        Some(pair) => if pair.0 == word {
            pair.1
        } else {
            0
        },
        None => 0,
    }
}

/// The matches of `word` over all lines.
pub open spec fn word_total(lines: Seq<Seq<char>>, config: AnalyzerConfig, word: Seq<char>) -> nat
    decreases lines.len(),
{
    if lines.len() == 0 {
        0
    } else {
        word_total(lines.drop_last(), config, word) + matches_in(lines.last(), config, word)
    }
}

/// Whether some line adds to the count of `word`.
pub open spec fn word_seen(lines: Seq<Seq<char>>, config: AnalyzerConfig, word: Seq<char>) -> bool {
    exists|i: int| 0 <= i < lines.len() && carries(#[trigger] lines[i], config, word)
}

/// The tally of the lines: every word that some counted record holds, with
/// the sum of the match counts of its records.
pub open spec fn tally(lines: Seq<Seq<char>>, config: AnalyzerConfig) -> Map<Seq<char>, nat> {
    Map::new(
        |word: Seq<char>| word_seen(lines, config, word),
        |word: Seq<char>| word_total(lines, config, word),
    )
}

/// The tallies of the chunks, added up one after the other.
pub open spec fn reduced(chunks: Seq<Seq<Seq<char>>>, config: AnalyzerConfig) -> Map<
    Seq<char>,
    nat,
>
    decreases chunks.len(),
{
    if chunks.len() == 0 {
        Map::empty()
    } else {
        merged(reduced(chunks.drop_last(), config), tally(chunks.last(), config))
    }
}

/// Whether `outcome` is the tally of `lines`: the table of the tally where
/// every count can be held, and the overflow error where one cannot.
pub open spec fn tallies(
    outcome: Result<FrequencyTable, Error>,
    lines: Seq<Seq<char>>,
    config: AnalyzerConfig,
) -> bool {
    &&& outcome is Ok <==> fits(tally(lines, config))
    &&& match outcome {
        Ok(table) => table.wf() && table@ == tally(lines, config),
        Err(e) => e == Error::CountOverflow,
    }
}

proof fn lemma_total_concat(
    left: Seq<Seq<char>>,
    right: Seq<Seq<char>>,
    config: AnalyzerConfig,
    word: Seq<char>,
)
    ensures
        word_total(left + right, config, word) == word_total(left, config, word) + word_total(
            right,
            config,
            word,
        ),
    decreases right.len(),
{
    if right.len() > 0 {
        assert((left + right).drop_last() =~= left + right.drop_last());
        lemma_total_concat(left, right.drop_last(), config, word);
    }
}

/// A word that no counted record holds has no matches.
pub proof fn lemma_unseen_total(lines: Seq<Seq<char>>, config: AnalyzerConfig, word: Seq<char>)
    requires
        !word_seen(lines, config, word),
    ensures
        word_total(lines, config, word) == 0,
    decreases lines.len(),
{
    if lines.len() > 0 {
        lemma_unseen_total(lines.drop_last(), config, word);
    }
}

proof fn lemma_seen_concat(
    left: Seq<Seq<char>>,
    right: Seq<Seq<char>>,
    config: AnalyzerConfig,
    word: Seq<char>,
)
    ensures
        word_seen(left + right, config, word) <==> (word_seen(left, config, word) || word_seen(
            right,
            config,
            word,
        )),
{
    let both = left + right;
    if word_seen(left, config, word) {
        let i = choose|i: int| 0 <= i < left.len() && carries(#[trigger] left[i], config, word);
        assert(both[i] == left[i]);
    }
    if word_seen(right, config, word) {
        let i = choose|i: int| 0 <= i < right.len() && carries(#[trigger] right[i], config, word);
        assert(both[i + left.len()] == right[i]);
    }
}

/// The tally of a sequence of lines cut in two is the sum of the tallies of
/// the two parts, wherever the cut is.
pub proof fn lemma_tally_concat(
    left: Seq<Seq<char>>,
    right: Seq<Seq<char>>,
    config: AnalyzerConfig,
)
    ensures
        tally(left + right, config) == merged(tally(left, config), tally(right, config)),
{
    let whole = tally(left + right, config);
    let sum = merged(tally(left, config), tally(right, config));
    assert forall|word: Seq<char>|
        #![trigger whole.contains_key(word)]
        #![trigger sum.contains_key(word)]
        whole.contains_key(word) == sum.contains_key(word) && (whole.contains_key(word)
            ==> whole[word] == sum[word]) by {
        lemma_seen_concat(left, right, config, word);
        lemma_total_concat(left, right, config, word);
        if !word_seen(left, config, word) {
            lemma_unseen_total(left, config, word);
        }
        if !word_seen(right, config, word) {
            lemma_unseen_total(right, config, word);
        }
    }
}

/// However a sequence of lines is cut into chunks, the tallies of the
/// chunks add up to the tally of the whole sequence.
pub proof fn lemma_chunking_irrelevant(chunks: Seq<Seq<Seq<char>>>, config: AnalyzerConfig)
    ensures
        reduced(chunks, config) == tally(chunks.flatten(), config),
    decreases chunks.len(),
{
    chunks.lemma_flatten_and_flatten_alt_are_equivalent();
    if chunks.len() > 0 {
        let front = chunks.drop_last();
        front.lemma_flatten_and_flatten_alt_are_equivalent();
        lemma_chunking_irrelevant(front, config);
        lemma_tally_concat(front.flatten(), chunks.last(), config);
    }
}

/// Two ways of cutting the same lines into chunks give the same tally.
pub proof fn lemma_rechunked(
    chunks: Seq<Seq<Seq<char>>>,
    others: Seq<Seq<Seq<char>>>,
    config: AnalyzerConfig,
)
    requires
        chunks.flatten() == others.flatten(),
    ensures
        reduced(chunks, config) == reduced(others, config),
{
    lemma_chunking_irrelevant(chunks, config);
    lemma_chunking_irrelevant(others, config);
}

/// The tally after one more line.
pub proof fn lemma_tally_next(lines: Seq<Seq<char>>, line: Seq<char>, config: AnalyzerConfig)
    ensures
        tally(lines.push(line), config) == match tallied(line, config) {
            Some(pair) => recorded(tally(lines, config), pair.0, pair.1),
            None => tally(lines, config),
        },
{
    let one = seq![line];
    assert(lines.push(line) =~= lines + one);
    lemma_tally_concat(lines, one, config);
    assert forall|word: Seq<char>| word_seen(one, config, word) == carries(line, config, word) by {
        if carries(line, config, word) {
            assert(carries(one[0], config, word));
        }
    }
    assert forall|word: Seq<char>| word_total(one, config, word) == matches_in(
        line,
        config,
        word,
    ) by {
        assert(word_total(one.drop_last(), config, word) == 0);
    }
}

/// Where the tally of all lines can be held, so can the tally of the lines
/// between `from` and `to`.
pub proof fn lemma_part_fits(lines: Seq<Seq<char>>, from: int, to: int, config: AnalyzerConfig)
    requires
        0 <= from <= to <= lines.len(),
        fits(tally(lines, config)),
    ensures
        fits(tally(lines.subrange(from, to), config)),
{
    let head = lines.subrange(0, to);
    let tail = lines.subrange(to, lines.len() as int);
    assert(lines =~= head + tail);
    lemma_tally_concat(head, tail, config);
    lemma_merged_fits(tally(head, config), tally(tail, config));
    let skipped = lines.subrange(0, from);
    let part = lines.subrange(from, to);
    assert(head =~= skipped + part);
    lemma_tally_concat(skipped, part, config);
    lemma_merged_fits(tally(skipped, config), tally(part, config));
}

/// Tallies the lines one after the other. Lines that hold no well-formed
/// record are passed over.
pub fn tally_lines(lines: &[String], config: &AnalyzerConfig) -> (outcome: Result<
    FrequencyTable,
    Error,
>)
    ensures
        tallies(outcome, texts(lines@), *config),
{
    let ghost all = texts(lines@);
    let mut table = FrequencyTable::new();
    let mut at: usize = 0;
    while at < lines.len()
        invariant
            at <= lines.len(),
            all == texts(lines@),
            table.wf(),
            table@ == tally(all.take(at as int), *config),
        decreases lines.len() - at,
    {
        proof {
            assert(all.take(at + 1) =~= all.take(at as int).push(all[at as int]));
            lemma_tally_next(all.take(at as int), all[at as int], *config);
        }
        match parse_corpus_entry(lines[at].as_str()) {
            Ok(entry) => {
                if entry.frequency() >= config.threshold && entry.year() >= config.year_threshold {
                    match table.add(entry.word(), entry.frequency()) {
                        Ok(_) => {},
                        Err(e) => {
                            proof {
                                let reached = tally(all.take(at + 1), *config);
                                assert(reached.contains_key(entry@.word));
                                if fits(tally(all, *config)) {
                                    lemma_part_fits(all, 0, at + 1, *config);
                                }
                            }
                            return Err(e);
                        },
                    }
                }
            },
            Err(_) => {},
        }
        at += 1;
    }
    proof {
        assert(all.take(at as int) =~= all);
        table.lemma_enumerated();
    }
    Ok(table)
}

} // verus!
