use gramoxide::error::Error;
use gramoxide::parser::{parse_corpus_entry, CorpusParser};

fn fields(line: &str) -> Option<(String, u32, u32)> {
    match parse_corpus_entry(line) {
        Ok(entry) => Some((entry.word().to_string(), entry.year(), entry.frequency())),
        Err(_) => None,
    }
}

#[test]
fn parses_a_plain_record() {
    assert_eq!(fields("cat\t2005\t50"), Some(("cat".to_string(), 2005, 50)));
}

#[test]
fn ignores_trailing_fields() {
    assert_eq!(fields("cat\t2005\t50\t7"), Some(("cat".to_string(), 2005, 50)));
    assert_eq!(fields("cat\t2005\t50\t"), Some(("cat".to_string(), 2005, 50)));
    assert_eq!(fields("cat\t2005\t50\tnot a number\tmore"), Some(("cat".to_string(), 2005, 50)));
}

#[test]
fn keeps_every_character_of_the_word() {
    assert_eq!(fields("New York\t1999\t3"), Some(("New York".to_string(), 1999, 3)));
    assert_eq!(fields("Äpfel_NOUN\t2001\t12"), Some(("Äpfel_NOUN".to_string(), 2001, 12)));
    assert_eq!(fields("p.\t2001\t12"), Some(("p.".to_string(), 2001, 12)));
}

#[test]
fn accepts_leading_zeros_and_zero() {
    assert_eq!(fields("a\t0002005\t000"), Some(("a".to_string(), 2005, 0)));
}

#[test]
fn accepts_the_largest_number() {
    assert_eq!(fields("a\t4294967295\t4294967295"), Some(("a".to_string(), u32::MAX, u32::MAX)));
}

#[test]
fn rejects_numbers_that_do_not_fit() {
    assert_eq!(fields("a\t4294967296\t1"), None);
    assert_eq!(fields("a\t2005\t4294967296"), None);
    assert_eq!(fields("a\t2005\t99999999999999999999999999"), None);
}

#[test]
fn rejects_missing_fields() {
    assert_eq!(fields(""), None);
    assert_eq!(fields("cat"), None);
    assert_eq!(fields("cat\t2005"), None);
    assert_eq!(fields("cat\t2005\t"), None);
    assert_eq!(fields("cat\t\t50"), None);
}

#[test]
fn rejects_an_empty_word() {
    assert_eq!(fields("\t2005\t50"), None);
}

#[test]
fn rejects_other_separators() {
    assert_eq!(fields("cat 2005 50"), None);
    assert_eq!(fields("cat,2005,50"), None);
    assert_eq!(fields("cat\t2005 50"), None);
}

#[test]
fn rejects_what_is_not_a_number() {
    assert_eq!(fields("cat\ttwo\t50"), None);
    assert_eq!(fields("cat\t2005\t5o"), None);
    assert_eq!(fields("cat\t-2005\t50"), None);
    assert_eq!(fields("cat\t+2005\t50"), None);
    assert_eq!(fields("cat\t2005\t50 "), None);
    assert_eq!(fields("cat\t２００５\t50"), None);
}

#[test]
fn a_failure_is_a_parse_failure() {
    assert_eq!(parse_corpus_entry("cat").err(), Some(Error::ParseFailure));
    assert_eq!(CorpusParser::parse_entry("cat\tx\t1").err(), Some(Error::ParseFailure));
}

#[test]
fn parser_and_free_function_agree() {
    let entry = CorpusParser::parse_entry("dog\t1999\t1000").ok().unwrap();
    assert_eq!(entry.word(), "dog");
    assert_eq!(entry.year(), 1999);
    assert_eq!(entry.frequency(), 1000);
}
