use gramoxide::error::Error;
use gramoxide::ngram::FrequencyTable;

fn table(entries: &[(&str, u32)]) -> FrequencyTable {
    let mut table = FrequencyTable::new();
    for (word, count) in entries {
        assert!(table.add(word, *count).is_ok());
    }
    table
}

fn sorted(table: &FrequencyTable) -> Vec<(String, u32)> {
    let mut entries = table.entries();
    entries.sort();
    entries
}

fn expect(entries: &[(&str, u32)]) -> Vec<(String, u32)> {
    let mut entries: Vec<(String, u32)> =
        entries.iter().map(|(word, count)| (word.to_string(), *count)).collect();
    entries.sort();
    entries
}

#[test]
fn a_new_table_is_empty() {
    let table = FrequencyTable::new();
    assert_eq!(table.len(), 0);
    assert_eq!(table.get("cat"), None);
    assert!(table.entries().is_empty());
}

#[test]
fn add_sums_the_counts_of_a_word() {
    let table = table(&[("cat", 50), ("dog", 1), ("cat", 5), ("cat", 0)]);
    assert_eq!(table.len(), 2);
    assert_eq!(table.get("cat"), Some(55));
    assert_eq!(table.get("dog"), Some(1));
    assert_eq!(table.get("Cat"), None);
}

#[test]
fn add_keeps_a_word_with_no_matches() {
    let table = table(&[("cat", 0)]);
    assert_eq!(table.get("cat"), Some(0));
    assert_eq!(table.len(), 1);
}

#[test]
fn add_fails_where_the_sum_does_not_fit() {
    let mut table = table(&[("cat", u32::MAX - 1), ("dog", 3)]);
    assert_eq!(table.add("cat", 2), Err(Error::CountOverflow));
    assert_eq!(table.get("cat"), Some(u32::MAX - 1));
    assert_eq!(table.add("cat", 1), Ok(()));
    assert_eq!(table.get("cat"), Some(u32::MAX));
    assert_eq!(table.get("dog"), Some(3));
}

#[test]
fn rows_enumerate_the_words() {
    let table = table(&[("b", 2), ("a", 1), ("b", 3)]);
    assert_eq!(table.len(), 2);
    let mut seen = Vec::new();
    for row in 0..table.len() {
        seen.push((table.word_at(row).to_string(), table.count_at(row)));
        assert_eq!(table.row_of(table.word_at(row)), Some(row));
    }
    seen.sort();
    assert_eq!(seen, expect(&[("a", 1), ("b", 5)]));
    assert_eq!(table.row_of("c"), None);
}

#[test]
fn insert_absent_never_overwrites() {
    let mut table = table(&[("cat", 50)]);
    table.insert_absent("cat", 7);
    table.insert_absent("dog", 9);
    table.insert_absent("dog", 10);
    assert_eq!(sorted(&table), expect(&[("cat", 50), ("dog", 9)]));
}

#[test]
fn merge_adds_matching_words() {
    let left = table(&[("cat", 50), ("dog", 1)]);
    let right = table(&[("dog", 2), ("emu", 3)]);
    let sum = left.merge(&right).ok().unwrap();
    assert_eq!(sorted(&sum), expect(&[("cat", 50), ("dog", 3), ("emu", 3)]));
}

#[test]
fn merge_gives_the_same_counts_in_either_order() {
    let first = [("cat", 50), ("dog", 1), ("Cat", 4)];
    let second = [("dog", 2), ("emu", 3), ("cat", 1)];
    let one = table(&[("ant", 9)]).merge(&table(&first)).ok().unwrap().merge(&table(&second));
    let other = table(&[("ant", 9)]).merge(&table(&second)).ok().unwrap().merge(&table(&first));
    let one = one.ok().unwrap();
    let other = other.ok().unwrap();
    assert_eq!(sorted(&one), sorted(&other));
    assert_eq!(sorted(&one), expect(&[("ant", 9), ("cat", 51), ("dog", 3), ("emu", 3), ("Cat", 4)]));
}

#[test]
fn merge_with_an_empty_table_changes_nothing() {
    let left = table(&[("cat", 50)]);
    let sum = left.merge(&FrequencyTable::new()).ok().unwrap();
    assert_eq!(sorted(&sum), expect(&[("cat", 50)]));
    let sum = FrequencyTable::new().merge(&sum).ok().unwrap();
    assert_eq!(sorted(&sum), expect(&[("cat", 50)]));
}

#[test]
fn merge_fails_where_a_sum_does_not_fit() {
    let left = table(&[("cat", u32::MAX), ("dog", 1)]);
    let right = table(&[("dog", 2), ("cat", 1)]);
    assert_eq!(left.merge(&right).err(), Some(Error::CountOverflow));
    let left = table(&[("cat", u32::MAX - 1)]);
    let right = table(&[("cat", 1)]);
    assert_eq!(left.merge(&right).ok().unwrap().get("cat"), Some(u32::MAX));
}
