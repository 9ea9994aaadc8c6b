//! The analysis of a language: its settings and its pipeline.

use crate::corpus_list::CorpusList;
use crate::error::Error;
use crate::ngram::casing::{resolve_casing, resolved};
use crate::ngram::frequency_table::{
    fits, lemma_merged_associates, lemma_merged_commutes, lemma_merged_empty, lemma_merged_fits,
    merged, FrequencyTable,
};
use crate::ngram::partition::{admissible, partition_tally, tally_partition};
use crate::ngram::tally::{lemma_unseen_total, tally, texts, word_seen, word_total};
use vstd::prelude::*;

verus! {

/// The settings of an analysis.
#[derive(Clone, Copy, Debug)]
pub struct AnalyzerConfig {
    /// The smallest match count with which a record is counted.
    pub threshold: u32,
    /// The first year of publication whose records are counted.
    pub year_threshold: u32,
    /// Numerator of the share of the matches that the capitalised form of a
    /// word must exceed to be kept in place of the lower-case form.
    pub casing_numerator: u32,
    /// Denominator of that share.
    pub casing_denominator: u32,
    /// The number of lines that one worker tallies at a time; zero tallies
    /// all lines on the calling thread.
    pub chunk_lines: usize,
}

impl AnalyzerConfig {
    /// The usual settings: every match count, the years from 2000 on, a
    /// share of three quarters and chunks of 65536 lines.
    pub open spec fn standard() -> AnalyzerConfig {
        AnalyzerConfig {
            threshold: 0,
            year_threshold: 2000,
            casing_numerator: 3,
            casing_denominator: 4,
            chunk_lines: 65536,
        }
    }
}

impl Default for AnalyzerConfig {
    fn default() -> (config: AnalyzerConfig)
        ensures
            config == AnalyzerConfig::standard(),
    {
        AnalyzerConfig {
            threshold: 0,
            year_threshold: 2000,
            casing_numerator: 3,
            casing_denominator: 4,
            chunk_lines: 65536,
        }
    }
}

/// The text of every line of every partition.
pub open spec fn partition_texts(partitions: Seq<Vec<String>>) -> Seq<Seq<Seq<char>>> {
    Seq::new(partitions.len(), |i: int| texts(partitions[i]@))
}

/// The tally of a corpus: the tallies of its partitions, added up in their
/// order.
pub open spec fn corpus_tally(partitions: Seq<Seq<Seq<char>>>, config: AnalyzerConfig) -> Map<
    Seq<char>,
    nat,
>
    decreases partitions.len(),
{
    if partitions.len() == 0 {
        Map::empty()
    } else {
        merged(
            corpus_tally(partitions.drop_last(), config),
            partition_tally(partitions.last(), config),
        )
    }
}

/// Whether every count that the analysis of the corpus comes by can be
/// held: the counts of the words of each partition, of whatever shape, and
/// the counts of the corpus.
pub open spec fn corpus_fits(partitions: Seq<Seq<Seq<char>>>, config: AnalyzerConfig) -> bool {
    &&& forall|i: int|
        0 <= i < partitions.len() ==> fits(tally(#[trigger] partitions[i], config))
    &&& fits(corpus_tally(partitions, config))
}

/// Where the tally of a corpus can be held, so can the tally of its first
/// partitions.
proof fn lemma_corpus_prefix_fits(
    partitions: Seq<Seq<Seq<char>>>,
    first: int,
    config: AnalyzerConfig,
)
    requires
        0 <= first <= partitions.len(),
        fits(corpus_tally(partitions, config)),
    ensures
        fits(corpus_tally(partitions.take(first), config)),
    decreases partitions.len() - first,
{
    if first < partitions.len() {
        lemma_corpus_prefix_fits(partitions, first + 1, config);
        let longer = partitions.take(first + 1);
        assert(longer.drop_last() =~= partitions.take(first));
        lemma_merged_fits(
            corpus_tally(partitions.take(first), config),
            partition_tally(longer.last(), config),
        );
    } else {
        assert(partitions.take(first) =~= partitions);
    }
}

/// The matches of `word` over all partitions.
pub open spec fn corpus_total(
    partitions: Seq<Seq<Seq<char>>>,
    config: AnalyzerConfig,
    word: Seq<char>,
) -> nat
    decreases partitions.len(),
{
    if partitions.len() == 0 {
        0
    } else {
        corpus_total(partitions.drop_last(), config, word) + word_total(
            partitions.last(),
            config,
            word,
        )
    }
}

/// The tally of a corpus holds the words of the right shape that a counted
/// record of some partition holds, each with the matches of all its
/// records.
pub proof fn lemma_corpus_words(
    partitions: Seq<Seq<Seq<char>>>,
    config: AnalyzerConfig,
    word: Seq<char>,
)
    ensures
        corpus_tally(partitions, config).contains_key(word) <==> admissible(word) && exists|
            i: int,
        |
            0 <= i < partitions.len() && word_seen(#[trigger] partitions[i], config, word),
        corpus_tally(partitions, config).contains_key(word) ==> corpus_tally(
            partitions,
            config,
        )[word] == corpus_total(partitions, config, word),
    decreases partitions.len(),
{
    if partitions.len() > 0 {
        let front = partitions.drop_last();
        let last = partitions.last();
        lemma_corpus_words(front, config, word);
        if !word_seen(last, config, word) {
            lemma_unseen_total(last, config, word);
        }
        if exists|i: int|
            0 <= i < partitions.len() && word_seen(#[trigger] partitions[i], config, word) {
            let i = choose|i: int|
                0 <= i < partitions.len() && word_seen(#[trigger] partitions[i], config, word);
            if i < front.len() {
                assert(word_seen(front[i], config, word));
            }
        }
        if !corpus_tally(front, config).contains_key(word) && admissible(word) {
            lemma_corpus_unseen_total(front, config, word);
        }
    }
}

/// A word that no counted record of any partition holds has no matches.
proof fn lemma_corpus_unseen_total(
    partitions: Seq<Seq<Seq<char>>>,
    config: AnalyzerConfig,
    word: Seq<char>,
)
    requires
        forall|i: int|
            0 <= i < partitions.len() ==> !word_seen(#[trigger] partitions[i], config, word),
    ensures
        corpus_total(partitions, config, word) == 0,
    decreases partitions.len(),
{
    if partitions.len() > 0 {
        lemma_corpus_unseen_total(partitions.drop_last(), config, word);
        lemma_unseen_total(partitions.last(), config, word);
    }
}

/// The tally of a corpus cut in two is the sum of the tallies of the two
/// parts.
pub proof fn lemma_corpus_concat(
    first: Seq<Seq<Seq<char>>>,
    second: Seq<Seq<Seq<char>>>,
    config: AnalyzerConfig,
)
    ensures
        corpus_tally(first + second, config) == merged(
            corpus_tally(first, config),
            corpus_tally(second, config),
        ),
    decreases second.len(),
{
    if second.len() == 0 {
        assert(first + second =~= first);
        lemma_merged_empty(corpus_tally(first, config));
    } else {
        assert((first + second).drop_last() =~= first + second.drop_last());
        lemma_corpus_concat(first, second.drop_last(), config);
        lemma_merged_associates(
            corpus_tally(first, config),
            corpus_tally(second.drop_last(), config),
            partition_tally(second.last(), config),
        );
    }
}

/// The tally of a corpus does not depend on which of its partitions come
/// first.
pub proof fn lemma_corpus_order(
    first: Seq<Seq<Seq<char>>>,
    second: Seq<Seq<Seq<char>>>,
    config: AnalyzerConfig,
)
    ensures
        corpus_tally(first + second, config) == corpus_tally(second + first, config),
{
    lemma_corpus_concat(first, second, config);
    lemma_corpus_concat(second, first, config);
    lemma_merged_commutes(corpus_tally(first, config), corpus_tally(second, config));
}

/// The word frequencies of a language.
pub struct NgramFrequencies {
    /// The count of every word that was kept.
    pub frequencies: FrequencyTable,
}

/// Analyses the corpus of one language.
pub struct NgramAnalyzer {
    corpus_list: CorpusList,
    config: AnalyzerConfig,
}

impl NgramAnalyzer {
    /// The settings of the analysis.
    pub closed spec fn spec_config(&self) -> AnalyzerConfig {
        self.config
    }

    /// The corpus that is analysed.
    pub closed spec fn spec_corpus_list(&self) -> CorpusList {
        self.corpus_list
    }

    /// An analyzer with the usual settings for the corpus `corpus_list`.
    pub fn new(corpus_list: CorpusList) -> (analyzer: Self)
        ensures
            analyzer.spec_config() == AnalyzerConfig::standard(),
            analyzer.spec_corpus_list() == corpus_list,
    {
        Self { corpus_list, config: AnalyzerConfig::default() }
    }

    /// An analyzer with the settings `config` for the corpus `corpus_list`.
    pub fn with_config(corpus_list: CorpusList, config: AnalyzerConfig) -> (analyzer: Self)
        ensures
            analyzer.spec_config() == config,
            analyzer.spec_corpus_list() == corpus_list,
    {
        Self { corpus_list, config }
    }

    /// The settings of the analysis.
    pub fn config(&self) -> (config: &AnalyzerConfig)
        ensures
            *config == self.spec_config(),
    {
        &self.config
    }

    /// The corpus that is analysed.
    pub fn corpus_list(&self) -> (corpus_list: &CorpusList)
        ensures
            *corpus_list == self.spec_corpus_list(),
    {
        &self.corpus_list
    }

    /// Analyses the partitions of the corpus, given by their lines in the
    /// order of the corpus list: every partition is tallied, the tallies are
    /// added up, and the casing of the words of the sum is resolved.
    pub fn analyze(&self, partitions: &[Vec<String>]) -> (outcome: Result<NgramFrequencies, Error>)
        ensures
            outcome is Ok <==> corpus_fits(partition_texts(partitions@), self.spec_config()),
            match outcome {
                Ok(found) => found.frequencies.wf() && found.frequencies@ == resolved(
                    corpus_tally(partition_texts(partitions@), self.spec_config()),
                    self.spec_config(),
                ),
                Err(e) => e == Error::CountOverflow,
            },
    {
        let ghost all = partition_texts(partitions@);
        let ghost config = self.config;
        let mut global = FrequencyTable::new();
        let mut at: usize = 0;
        while at < partitions.len()
            invariant
                at <= partitions.len(),
                all == partition_texts(partitions@),
                config == self.config,
                global.wf(),
                global@ == corpus_tally(all.take(at as int), config),
                forall|i: int| 0 <= i < at ==> fits(tally(#[trigger] all[i], config)),
            decreases partitions.len() - at,
        {
            proof {
                let longer = all.take(at + 1);
                assert(longer.drop_last() =~= all.take(at as int));
                if fits(corpus_tally(all, config)) {
                    lemma_corpus_prefix_fits(all, at + 1, config);
                }
            }
            match tally_partition(partitions[at].as_slice(), &self.config) {
                Ok(local) => {
                    match global.merge(&local) {
                        Ok(sum) => {
                            global = sum;
                        },
                        Err(e) => {
                            return Err(e);
                        },
                    }
                },
                Err(e) => {
                    return Err(e);
                },
            }
            at += 1;
        }
        proof {
            assert(all.take(at as int) =~= all);
            global.lemma_enumerated();
        }
        Ok(NgramFrequencies { frequencies: resolve_casing(&global, &self.config).frequencies })
    }
}

} // verus!
