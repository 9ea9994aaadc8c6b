use gramoxide::error::Error;
use gramoxide::ngram::{
    AnalyzerConfig, Corpus, NgramAnalyzer, NgramDownloader, NgramLang, PARTITIONS,
};
use gramoxide::{CorpusList, CorpusListContainer};

fn lines(text: &[&str]) -> Vec<String> {
    text.iter().map(|line| line.to_string()).collect()
}

fn analyzer(lang: NgramLang) -> NgramAnalyzer {
    let list = NgramDownloader::new(lang).corpus_list();
    NgramAnalyzer::new(CorpusList { lang, list })
}

fn analyze(analyzer: &NgramAnalyzer, partitions: &[Vec<String>]) -> Vec<(String, u32)> {
    let mut entries = analyzer.analyze(partitions).ok().unwrap().frequencies.entries();
    entries.sort();
    entries
}

fn expect(entries: &[(&str, u32)]) -> Vec<(String, u32)> {
    let mut entries: Vec<(String, u32)> =
        entries.iter().map(|(word, count)| (word.to_string(), *count)).collect();
    entries.sort();
    entries
}

#[test]
fn end_to_end() {
    let partitions = vec![lines(&["cat\t2005\t50", "Cat\t2005\t5"]), lines(&["dog\t1999\t1000"])];
    assert_eq!(analyze(&analyzer(NgramLang::En), &partitions), expect(&[("cat", 50)]));
}

#[test]
fn partitions_are_merged_before_casing_is_resolved() {
    let partitions = vec![
        lines(&["nato\t2005\t5", "Nato\t2005\t10", "HeLLo\t2001\t3", "p.\t2001\t3"]),
        lines(&["Nato\t2007\t85", "1984\t2007\t2", "broken line"]),
        lines(&[]),
    ];
    assert_eq!(analyze(&analyzer(NgramLang::De), &partitions), expect(&[("Nato", 95), ("1984", 2)]));
}

#[test]
fn order_of_partitions_does_not_change_the_counts() {
    let first = lines(&["cat\t2005\t50", "Cat\t2005\t5", "emu\t2001\t1"]);
    let second = lines(&["dog\t2001\t1000", "emu\t2002\t2", "Cat\t2005\t500"]);
    let analyzer = analyzer(NgramLang::Fr);
    let one = analyze(&analyzer, &[first.clone(), second.clone()]);
    let other = analyze(&analyzer, &[second, first]);
    assert_eq!(one, other);
    assert_eq!(one, expect(&[("Cat", 505), ("dog", 1000), ("emu", 3)]));
}

#[test]
fn no_partitions_no_words() {
    assert!(analyze(&analyzer(NgramLang::Es), &[]).is_empty());
}

#[test]
fn analysis_fails_where_a_count_does_not_fit() {
    let analyzer = analyzer(NgramLang::En);
    let partitions = vec![lines(&["cat\t2005\t4294967295"]), lines(&["cat\t2005\t1"])];
    assert_eq!(analyzer.analyze(&partitions).err(), Some(Error::CountOverflow));
    let partitions = vec![lines(&["HeLLo\t2005\t4294967295", "HeLLo\t2005\t1"])];
    assert_eq!(analyzer.analyze(&partitions).err(), Some(Error::CountOverflow));
    let partitions = vec![lines(&["HeLLo\t2005\t4294967295"]), lines(&["HeLLo\t2005\t1"])];
    assert!(analyze(&analyzer, &partitions).is_empty());
}

#[test]
fn settings_are_kept() {
    let config = AnalyzerConfig {
        threshold: 10,
        year_threshold: 1900,
        casing_numerator: 1,
        casing_denominator: 2,
        chunk_lines: 1,
    };
    let list = CorpusList { lang: NgramLang::EnGb, list: Vec::new() };
    let analyzer = NgramAnalyzer::with_config(list, config);
    assert_eq!(analyzer.config().threshold, 10);
    assert_eq!(analyzer.config().year_threshold, 1900);
    assert_eq!(analyzer.corpus_list().lang, NgramLang::EnGb);
    let partitions = vec![lines(&["cat\t1950\t10", "Cat\t1950\t11", "cat\t1899\t100", "Cat\t1950\t9"])];
    assert_eq!(analyze(&analyzer, &partitions), expect(&[("Cat", 11)]));
    let standard = NgramAnalyzer::new(CorpusList { lang: NgramLang::EnGb, list: Vec::new() });
    assert_eq!(standard.config().year_threshold, 2000);
    assert_eq!(standard.config().threshold, 0);
}

#[test]
fn language_identifiers() {
    assert_eq!(NgramLang::En.to_ngram_lang_str(), "eng");
    assert_eq!(NgramLang::EnUs.to_ngram_lang_str(), "eng-us");
    assert_eq!(NgramLang::EnGb.to_ngram_lang_str(), "eng-gb");
    assert_eq!(NgramLang::De.to_ngram_lang_str(), "ger");
    assert_eq!(NgramLang::Fr.to_ngram_lang_str(), "fre");
    assert_eq!(NgramLang::Es.to_ngram_lang_str(), "spa");
}

#[test]
fn corpus_list_names_every_partition() {
    let downloader = NgramDownloader::new(NgramLang::EnUs);
    assert_eq!(downloader.lang(), NgramLang::EnUs);
    let list = downloader.corpus_list();
    assert_eq!(list.len(), PARTITIONS);
    assert_eq!(list.len(), 27);
    assert_eq!(
        list[0].url,
        "https://storage.googleapis.com/books/ngrams/books/googlebooks-eng-us-all-1gram-20120701-a.gz"
    );
    assert_eq!(list[0].filename, "1gram-eng-us-20120701-a.txt");
    assert_eq!(
        list[26].url,
        "https://storage.googleapis.com/books/ngrams/books/googlebooks-eng-us-all-1gram-20120701-other.gz"
    );
    assert_eq!(list[26].filename, "1gram-eng-us-20120701-other.txt");
    for (i, letter) in ('a'..='z').enumerate() {
        assert_eq!(list[i].filename, format!("1gram-eng-us-20120701-{}.txt", letter));
        assert_eq!(
            list[i].url,
            format!(
                "https://storage.googleapis.com/books/ngrams/books/googlebooks-eng-us-all-1gram-20120701-{}.gz",
                letter
            )
        );
    }
}

#[test]
fn manifest_holds_the_lists() {
    let corpus = Corpus::new("https://example.org/a.gz".to_string(), "a.txt".to_string());
    assert_eq!(corpus.url, "https://example.org/a.gz");
    assert_eq!(corpus.filename, "a.txt");
    let container = CorpusListContainer {
        corpus_lists: vec![CorpusList { lang: NgramLang::Es, list: vec![corpus] }],
    };
    assert_eq!(container.corpus_lists.len(), 1);
    assert_eq!(container.corpus_lists[0].lang, NgramLang::Es);
    assert_eq!(container.corpus_lists[0].list[0].filename, "a.txt");
}

#[test]
fn errors_say_what_failed() {
    assert!(!Error::ParseFailure.is_fatal());
    assert!(Error::PartitionUnreadable.is_fatal());
    assert!(Error::AcquisitionFailed.is_fatal());
    assert!(Error::SerializationFailed.is_fatal());
    assert!(Error::CountOverflow.is_fatal());
    assert_eq!(Error::ParseFailure.message(), "malformed corpus line");
    assert_eq!(Error::PartitionUnreadable.message(), "partition cannot be read");
    assert_eq!(Error::AcquisitionFailed.message(), "partition cannot be acquired");
    assert_eq!(Error::SerializationFailed.message(), "serialization failed");
    assert_eq!(Error::CountOverflow.message(), "match count too large");
}
