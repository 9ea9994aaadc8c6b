//! The partition manifest: the partitions of every language.

use crate::ngram::Corpus;
use crate::ngram::NgramLang;
use vstd::prelude::*;

verus! {

/// The partitions of the corpus of one language, in the order in which they
/// are analysed.
#[derive(Debug)]
pub struct CorpusList {
    /// The language of the corpus.
    pub lang: NgramLang,
    /// The partitions of the corpus.
    pub list: Vec<Corpus>,
}

/// The corpora of all languages.
#[derive(Debug)]
pub struct CorpusListContainer {
    /// One list of partitions for each language.
    pub corpus_lists: Vec<CorpusList>,
}

} // verus!
