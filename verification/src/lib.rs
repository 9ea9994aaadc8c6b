//! Word-frequency analysis of n-gram corpus partitions.
//!
//! A corpus is a list of partitions, each a sequence of tab-separated lines
//! `word<TAB>year<TAB>match-count`. The library parses the lines, tallies the
//! match counts per word, merges the partitions of a language and finally
//! keeps a single casing of every word that occurs both capitalised and in
//! lower case.
//!
//! - [`parser`]: the line format.
//! - [`ngram::tally`]: the tally of a sequence of lines, and the laws by
//!   which tallies of chunks add up.
//! - [`ngram::partition`]: the tally of a partition, in parallel chunks, and
//!   the shapes of words that are kept.
//! - [`ngram::frequency_table`]: the mapping from words to counts.
//! - [`ngram::casing`]: casing resolution.
//! - [`ngram::ngram_analyzer`]: the analysis of a corpus from its lines.
//! - [`ngram::ngram_downloader`], [`corpus_list`]: the partitions of a corpus.
//! - [`chars`]: letter case, punctuation and the order of words.
//! - [`error`]: the ways a run can fail.

pub mod chars;
pub mod corpus_list;
pub mod error;
pub mod ngram;
pub mod parser;

pub use corpus_list::{CorpusList, CorpusListContainer};
