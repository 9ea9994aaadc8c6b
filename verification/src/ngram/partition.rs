//! Reducing one partition: its lines are tallied in chunks by parallel
//! workers, the chunk tallies are added up, and words of the wrong shape
//! are dropped from the sum.

use crate::chars::{ascii_punctuation, char_is_uppercase, is_ascii_punctuation};
use crate::error::Error;
use crate::ngram::frequency_table::{fits, held_before, FrequencyTable};
use crate::ngram::ngram_analyzer::AnalyzerConfig;
use crate::ngram::tally::{lemma_part_fits, lemma_tally_concat, tallies, tally, tally_lines, texts};
use rayon::iter::ParallelIterator;
use rayon::slice::ParallelSlice;
use vstd::prelude::*;
use vstd::string::*;

verus! {

/// The number of chunks of `size` lines that `lines` lines are cut into,
/// the last of which may be shorter.
pub open spec fn chunk_count(lines: int, size: int) -> int {
    (lines + size - 1) / size
}

/// The line at which chunk `i` starts: the end of the lines for a chunk
/// beyond the last.
pub open spec fn chunk_start(lines: int, size: int, i: int) -> int {
    if i * size < lines {
        i * size
    } else {
        lines
    }
}

/// Chunk `i` of the lines, cut into chunks of `size` lines.
pub open spec fn chunk(lines: Seq<Seq<char>>, size: int, i: int) -> Seq<Seq<char>> {
    lines.subrange(
        chunk_start(lines.len() as int, size, i),
        chunk_start(lines.len() as int, size, i + 1),
    )
}

proof fn lemma_chunk_bounds(lines: int, size: int, i: int)
    requires
        0 <= lines,
        0 < size,
        0 <= i,
    ensures
        0 <= chunk_start(lines, size, i) <= chunk_start(lines, size, i + 1) <= lines,
        chunk_count(lines, size) <= i ==> chunk_start(lines, size, i) == lines,
{
    assert(0 <= i * size && (i + 1) * size == i * size + size) by (nonlinear_arith)
        requires
            0 <= i,
            0 < size,
    ;
    if chunk_count(lines, size) <= i {
        assert(i * size >= lines) by (nonlinear_arith)
            requires
                (lines + size - 1) / size <= i,
                0 < size,
                0 <= lines,
        ;
    }
}

/// `par_chunks`, `map` and `collect` of rayon: the lines are cut into
/// consecutive chunks of `size` lines, the last one possibly shorter; every
/// chunk is tallied by [`tally_lines`] on some worker thread; the outcomes
/// come back in the order of the chunks.
#[verifier::external_body]
fn tally_chunks(lines: &[String], size: usize, config: &AnalyzerConfig) -> (outcomes: Vec<
    Result<FrequencyTable, Error>,
>)
    requires
        size > 0,
    ensures
        outcomes@.len() == chunk_count(lines@.len() as int, size as int),
        forall|i: int|
            0 <= i < outcomes@.len() ==> tallies(
                #[trigger] outcomes@[i],
                chunk(texts(lines@), size as int, i),
                *config,
            ),
{
    lines.par_chunks(size).map(|part| tally_lines(part, config)).collect()
}

/// Tallies the lines in chunks of `config.chunk_lines` lines, each chunk on
/// a worker of its own, and adds the chunk tallies up. The outcome is the
/// tally of the lines whatever the chunk size.
pub fn tally_block(lines: &[String], config: &AnalyzerConfig) -> (outcome: Result<
    FrequencyTable,
    Error,
>)
    ensures
        tallies(outcome, texts(lines@), *config),
{
    let size = config.chunk_lines;
    if size == 0 || lines.len() <= size {
        return tally_lines(lines, config);
    }
    let outcomes = tally_chunks(lines, size, config);
    let ghost all = texts(lines@);
    let ghost total = all.len() as int;
    let mut table = FrequencyTable::new();
    let mut i: usize = 0;
    while i < outcomes.len()
        invariant
            size > 0,
            i <= outcomes.len(),
            all == texts(lines@),
            total == all.len(),
            table.wf(),
            outcomes@.len() == chunk_count(total, size as int),
            forall|j: int|
                0 <= j < outcomes@.len() ==> tallies(
                    #[trigger] outcomes@[j],
                    chunk(all, size as int, j),
                    *config,
                ),
            table@ == tally(all.take(chunk_start(total, size as int, i as int)), *config),
        decreases outcomes.len() - i,
    {
        let ghost from = chunk_start(total, size as int, i as int);
        let ghost to = chunk_start(total, size as int, i + 1);
        proof {
            lemma_chunk_bounds(total, size as int, i as int);
            assert(all.take(to) =~= all.take(from) + chunk(all, size as int, i as int));
            lemma_tally_concat(all.take(from), chunk(all, size as int, i as int), *config);
            if fits(tally(all, *config)) {
                lemma_part_fits(all, from, to, *config);
                lemma_part_fits(all, 0, to, *config);
            }
        }
        match &outcomes[i] {
            Ok(part) => {
                match table.merge(part) {
                    Ok(sum) => {
                        table = sum;
                    },
                    Err(e) => {
                        return Err(e);
                    },
                }
            },
            Err(e) => {
                return Err(*e);
            },
        }
        i += 1;
    }
    proof {
        lemma_chunk_bounds(total, size as int, i as int);
        assert(all.take(total) =~= all);
        table.lemma_enumerated();
    }
    Ok(table)
}

/// Whether a character after the first is an upper-case letter.
pub open spec fn inner_uppercase(word: Seq<char>) -> bool {
    exists|i: int| 1 <= i < word.len() && char_is_uppercase(#[trigger] word[i])
}

/// Whether the word is two characters long and ends in ASCII punctuation.
pub open spec fn punctuation_pair(word: Seq<char>) -> bool {
    word.len() == 2 && ascii_punctuation(word[1])
}

/// The shape of a word that is kept: all in lower case but for its first
/// character, and no pair that ends in punctuation.
pub open spec fn admissible(word: Seq<char>) -> bool {
    !inner_uppercase(word) && !punctuation_pair(word)
}

/// The mapping without the words of another shape.
pub open spec fn admitted(counts: Map<Seq<char>, nat>) -> Map<Seq<char>, nat> {
    counts.restrict(Set::new(|word: Seq<char>| admissible(word)))
}

/// The words that are kept are the words of the right shape, and each keeps
/// its count.
pub proof fn lemma_admitted(counts: Map<Seq<char>, nat>, word: Seq<char>)
    ensures
        admitted(counts).contains_key(word) <==> counts.contains_key(word) && !inner_uppercase(
            word,
        ) && !punctuation_pair(word),
        admitted(counts).contains_key(word) ==> admitted(counts)[word] == counts[word],
{
}

/// Tells whether a character after the first is an upper-case letter.
pub fn has_inner_uppercase(word: &str) -> (found: bool)
    ensures
        found == inner_uppercase(word@),
{
    // The position in the word never exceeds the number of its characters.
    let total = word.unicode_len();
    let ghost text = word@;
    let mut at: usize = 0;
    for c in chars: word.chars()
        invariant
            text == word@,
            chars.seq() == text,
            total == text.len(),
            at == chars.index(),
            at <= total,
            forall|i: int| 1 <= i < at ==> !char_is_uppercase(#[trigger] text[i]),
    {
        if at >= 1 && c.is_uppercase() {
            return true;
        }
        at += 1;
    }
    false
}

/// Tells whether the word is two characters long and ends in ASCII
/// punctuation.
pub fn is_punctuation_pair(word: &str) -> (pair: bool)
    ensures
        pair == punctuation_pair(word@),
{
    word.unicode_len() == 2 && is_ascii_punctuation(word.get_char(1))
}

/// Tells whether a word has the shape that is kept.
pub fn is_admissible(word: &str) -> (kept: bool)
    ensures
        kept == admissible(word@),
{
    !has_inner_uppercase(word) && !is_punctuation_pair(word)
}

/// Drops the words of another shape: those with an upper-case letter after
/// the first character, and the pairs that end in ASCII punctuation.
pub fn retain_admissible(table: &FrequencyTable) -> (kept: FrequencyTable)
    requires
        table.wf(),
    ensures
        kept.wf(),
        kept@ == admitted(table@),
        forall|word: Seq<char>| #[trigger]
            kept@.contains_key(word) ==> !inner_uppercase(word) && !punctuation_pair(word),
{
    let mut kept = FrequencyTable::new();
    let rows = table.len();
    let mut row: usize = 0;
    proof {
        table.lemma_enumerated();
    }
    while row < rows
        invariant
            row <= rows,
            rows == table.words().len(),
            table.wf(),
            table.enumerated(),
            kept.wf(),
            kept@ =~= Map::new(
                |word: Seq<char>|
                    table@.contains_key(word) && admissible(word) && held_before(
                        table.words(),
                        row as int,
                        word,
                    ),
                |word: Seq<char>| table@[word],
            ),
        decreases rows - row,
    {
        let word = table.word_at(row);
        let count = table.count_at(row);
        if is_admissible(word) {
            kept.insert_absent(word, count);
        }
        row += 1;
    }
    proof {
        assert forall|word: Seq<char>| table@.contains_key(word) implies held_before(
            table.words(),
            rows as int,
            word,
        ) by {
            assert(table.words().contains(word));
        }
    }
    kept
}

/// The tally of a partition: the tally of its lines without the words of
/// another shape.
pub open spec fn partition_tally(lines: Seq<Seq<char>>, config: AnalyzerConfig) -> Map<
    Seq<char>,
    nat,
> {
    admitted(tally(lines, config))
}

/// Reduces a partition to its tally. It fails where the matches of one
/// word, of whatever shape, add up to more than a count can hold.
pub fn tally_partition(lines: &[String], config: &AnalyzerConfig) -> (outcome: Result<
    FrequencyTable,
    Error,
>)
    ensures
        outcome is Ok <==> fits(tally(texts(lines@), *config)),
        match outcome {
            Ok(table) => table.wf() && table@ == partition_tally(texts(lines@), *config),
            Err(e) => e == Error::CountOverflow,
        },
{
    match tally_block(lines, config) {
        Ok(table) => Ok(retain_admissible(&table)),
        Err(e) => Err(e),
    }
}

} // verus!
