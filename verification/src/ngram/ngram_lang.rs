//! The languages a corpus exists for.

use vstd::prelude::*;

verus! {

/// A language of the n-gram corpus.
#[derive(Debug, Clone, Copy, PartialEq, Eq, Structural)]
pub enum NgramLang {
    /// English
    En,
    /// American English
    EnUs,
    /// British English
    EnGb,
    /// German
    De,
    /// French
    Fr,
    /// Spanish
    Es,
}

impl NgramLang {
    /// The identifier of the language in corpus file names.
    pub open spec fn lang_str(self) -> Seq<char> {
        match self {
            NgramLang::En => "eng"@,
            NgramLang::EnUs => "eng-us"@,
            NgramLang::EnGb => "eng-gb"@,
            NgramLang::De => "ger"@,
            NgramLang::Fr => "fre"@,
            NgramLang::Es => "spa"@,
        }
    }

    /// Get ngram language identification string
    pub fn to_ngram_lang_str(&self) -> (id: &'static str)
        ensures
            id@ == self.lang_str(),
    {
        match self {
            Self::En => "eng",
            Self::EnUs => "eng-us",
            Self::EnGb => "eng-gb",
            Self::De => "ger",
            Self::Fr => "fre",
            Self::Es => "spa",
        }
    }
}

} // verus!
