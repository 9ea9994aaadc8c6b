//! Languages, partitions and the frequency analysis over them.

pub mod casing;
pub mod frequency_table;
pub mod ngram_analyzer;
pub mod ngram_downloader;
pub mod ngram_lang;
pub mod partition;
pub mod tally;

pub use frequency_table::FrequencyTable;
pub use ngram_analyzer::{AnalyzerConfig, NgramAnalyzer, NgramFrequencies};
pub use ngram_downloader::{Corpus, NgramDownloader, PARTITIONS};
pub use ngram_lang::NgramLang;
