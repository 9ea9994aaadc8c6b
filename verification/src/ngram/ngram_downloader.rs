//! The partitions of a language's corpus: where each is fetched from and
//! where it is kept.

use crate::ngram::ngram_lang::NgramLang;
use vstd::prelude::*;
use vstd::string::*;

verus! {

/// The number of partitions of a corpus: one for each letter from `a` to
/// `z`, and one for everything else.
pub const PARTITIONS: usize = 27;

/// One partition of a corpus.
#[derive(Debug)]
pub struct Corpus {
    /// The address that the partition is fetched from.
    pub url: String,
    /// The local file that holds the decompressed partition.
    pub filename: String,
}

impl Corpus {
    /// A partition that is fetched from `url` and kept in `filename`.
    pub fn new(url: String, filename: String) -> (corpus: Corpus)
        ensures
            corpus.url@ == url@,
            corpus.filename@ == filename@,
    {
        Corpus { url, filename }
    }
}

/// The name of partition `i` within its corpus.
pub open spec fn partition_id(i: int) -> Seq<char> {
    if i == 0 {
        "a"@
    } else if i == 1 {
        "b"@
    } else if i == 2 {
        "c"@
    } else if i == 3 {
        "d"@
    } else if i == 4 {
        "e"@
    } else if i == 5 {
        "f"@
    } else if i == 6 {
        "g"@
    } else if i == 7 {
        "h"@
    } else if i == 8 {
        "i"@
    } else if i == 9 {
        "j"@
    } else if i == 10 {
        "k"@
    } else if i == 11 {
        "l"@
    } else if i == 12 {
        "m"@
    } else if i == 13 {
        "n"@
    } else if i == 14 {
        "o"@
    } else if i == 15 {
        "p"@
    } else if i == 16 {
        "q"@
    } else if i == 17 {
        "r"@
    } else if i == 18 {
        "s"@
    } else if i == 19 {
        "t"@
    } else if i == 20 {
        "u"@
    } else if i == 21 {
        "v"@
    } else if i == 22 {
        "w"@
    } else if i == 23 {
        "x"@
    } else if i == 24 {
        "y"@
    } else if i == 25 {
        "z"@
    } else {
        "other"@
    }
}

/// The address of the partition named `id` of the corpus of `lang`.
pub open spec fn partition_url(lang: NgramLang, id: Seq<char>) -> Seq<char> {
    "https://storage.googleapis.com/books/ngrams/books/googlebooks-"@ + lang.lang_str()
        + "-all-1gram-20120701-"@ + id + ".gz"@
}

/// The local file of the partition named `id` of the corpus of `lang`.
pub open spec fn partition_filename(lang: NgramLang, id: Seq<char>) -> Seq<char> {
    "1gram-"@ + lang.lang_str() + "-20120701-"@ + id + ".txt"@
}

fn id_of(i: usize) -> (id: &'static str)
    ensures
        id@ == partition_id(i as int),
{
    if i == 0 {
        "a"
    } else if i == 1 {
        "b"
    } else if i == 2 {
        "c"
    } else if i == 3 {
        "d"
    } else if i == 4 {
        "e"
    } else if i == 5 {
        "f"
    } else if i == 6 {
        "g"
    } else if i == 7 {
        "h"
    } else if i == 8 {
        "i"
    } else if i == 9 {
        "j"
    } else if i == 10 {
        "k"
    } else if i == 11 {
        "l"
    } else if i == 12 {
        "m"
    } else if i == 13 {
        "n"
    } else if i == 14 {
        "o"
    } else if i == 15 {
        "p"
    } else if i == 16 {
        "q"
    } else if i == 17 {
        "r"
    } else if i == 18 {
        "s"
    } else if i == 19 {
        "t"
    } else if i == 20 {
        "u"
    } else if i == 21 {
        "v"
    } else if i == 22 {
        "w"
    } else if i == 23 {
        "x"
    } else if i == 24 {
        "y"
    } else if i == 25 {
        "z"
    } else {
        "other"
    }
}

/// Finds the partitions of the corpus of one language.
pub struct NgramDownloader {
    lang: NgramLang,
}

impl NgramDownloader {
    /// The language whose corpus is fetched.
    pub closed spec fn spec_lang(&self) -> NgramLang {
        self.lang
    }

    /// A downloader for the corpus of `lang`.
    pub fn new(lang: NgramLang) -> (downloader: Self)
        ensures
            downloader.spec_lang() == lang,
    {
        Self { lang }
    }

    /// The language whose corpus is fetched.
    pub fn lang(&self) -> (lang: NgramLang)
        ensures
            lang == self.spec_lang(),
    {
        self.lang
    }

    /// The partitions of the corpus in their order: where each is fetched
    /// from and the file it is kept in.
    pub fn corpus_list(&self) -> (list: Vec<Corpus>)
        ensures
            list@.len() == PARTITIONS,
            forall|i: int|
                0 <= i < PARTITIONS ==> (#[trigger] list@[i]).url@ == partition_url(
                    self.spec_lang(),
                    partition_id(i),
                ) && list@[i].filename@ == partition_filename(self.spec_lang(), partition_id(i)),
    {
        let lang = self.lang.to_ngram_lang_str();
        let mut list: Vec<Corpus> = Vec::new();
        let mut i: usize = 0;
        while i < PARTITIONS
            invariant
                i <= PARTITIONS,
                lang@ == self.spec_lang().lang_str(),
                list@.len() == i,
                forall|j: int|
                    0 <= j < i ==> (#[trigger] list@[j]).url@ == partition_url(
                        self.spec_lang(),
                        partition_id(j),
                    ) && list@[j].filename@ == partition_filename(
                        self.spec_lang(),
                        partition_id(j),
                    ),
            decreases PARTITIONS - i,
        {
            let id = id_of(i);
            let mut url = String::from_str(
                "https://storage.googleapis.com/books/ngrams/books/googlebooks-",
            );
            url.append(lang);
            url.append("-all-1gram-20120701-");
            url.append(id);
            url.append(".gz");
            let mut filename = String::from_str("1gram-");
            filename.append(lang);
            filename.append("-20120701-");
            filename.append(id);
            filename.append(".txt");
            list.push(Corpus::new(url, filename));
            i += 1;
        }
        list
    }
}

} // verus!
