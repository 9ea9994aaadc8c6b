use gramoxide::chars::{is_ascii_punctuation, precedes};
use gramoxide::ngram::casing::{
    capitalize, is_upper_kept, resolve_casing, resolve_pairs, revealed_pairs,
};
use gramoxide::ngram::{AnalyzerConfig, FrequencyTable};

fn table(entries: &[(&str, u32)]) -> FrequencyTable {
    let mut table = FrequencyTable::new();
    for (word, count) in entries {
        assert!(table.add(word, *count).is_ok());
    }
    table
}

fn resolve(entries: &[(&str, u32)]) -> Vec<(String, u32)> {
    let resolution = resolve_casing(&table(entries), &AnalyzerConfig::default());
    let mut entries = resolution.frequencies.entries();
    entries.sort();
    entries
}

fn expect(entries: &[(&str, u32)]) -> Vec<(String, u32)> {
    let mut entries: Vec<(String, u32)> =
        entries.iter().map(|(word, count)| (word.to_string(), *count)).collect();
    entries.sort();
    entries
}

#[test]
fn lowercase_wins() {
    assert_eq!(resolve(&[("apple", 100), ("Apple", 10)]), expect(&[("apple", 100)]));
    assert_eq!(resolve(&[("Apple", 10), ("apple", 100)]), expect(&[("apple", 100)]));
}

#[test]
fn uppercase_wins() {
    assert_eq!(resolve(&[("nato", 5), ("Nato", 95)]), expect(&[("Nato", 95)]));
    assert_eq!(resolve(&[("Nato", 95), ("nato", 5)]), expect(&[("Nato", 95)]));
}

#[test]
fn boundary_share_keeps_lowercase() {
    assert_eq!(resolve(&[("word", 25), ("Word", 75)]), expect(&[("word", 25)]));
    assert_eq!(resolve(&[("word", 1), ("Word", 3)]), expect(&[("word", 1)]));
    assert_eq!(resolve(&[("word", 25), ("Word", 76)]), expect(&[("Word", 76)]));
    assert_eq!(resolve(&[("word", 0), ("Word", 0)]), expect(&[("word", 0)]));
    assert_eq!(resolve(&[("word", 0), ("Word", 1)]), expect(&[("Word", 1)]));
}

#[test]
fn large_counts_do_not_overflow() {
    assert_eq!(
        resolve(&[("word", u32::MAX), ("Word", u32::MAX)]),
        expect(&[("word", u32::MAX)])
    );
    assert_eq!(
        resolve(&[("word", 1431655765), ("Word", u32::MAX)]),
        expect(&[("word", 1431655765)])
    );
    assert_eq!(
        resolve(&[("word", 1431655764), ("Word", u32::MAX)]),
        expect(&[("Word", u32::MAX)])
    );
}

#[test]
fn share_follows_the_settings() {
    let half = AnalyzerConfig { casing_numerator: 1, casing_denominator: 2, ..AnalyzerConfig::default() };
    assert!(is_upper_kept(&half, 10, 11));
    assert!(!is_upper_kept(&half, 10, 10));
    let standard = AnalyzerConfig::default();
    assert!(!is_upper_kept(&standard, 10, 30));
    assert!(is_upper_kept(&standard, 10, 31));
    let never = AnalyzerConfig { casing_numerator: 1, casing_denominator: 0, ..AnalyzerConfig::default() };
    assert!(!is_upper_kept(&never, 0, u32::MAX));
}

#[test]
fn words_without_a_counterpart_survive() {
    assert_eq!(
        resolve(&[("Paris", 7), ("table", 9), ("Nato", 1), ("nato", 1)]),
        expect(&[("Paris", 7), ("table", 9), ("nato", 1)])
    );
}

#[test]
fn words_that_start_with_no_letter_pass_through() {
    assert_eq!(
        resolve(&[("1984", 3), ("_x", 2), ("", 1), ("-ish", 4), ("Ab", 1), ("ab", 1)]),
        expect(&[("1984", 3), ("_x", 2), ("", 1), ("-ish", 4), ("ab", 1)])
    );
}

#[test]
fn never_both_spellings() {
    let words = [("apple", 100), ("Apple", 10), ("nato", 5), ("Nato", 95), ("Éire", 40), ("éire", 2), ("x", 1)];
    let kept = resolve(&words);
    assert_eq!(kept, expect(&[("apple", 100), ("Nato", 95), ("Éire", 40), ("x", 1)]));
    for (word, _) in &kept {
        let mut chars = word.chars();
        let first = chars.next().unwrap();
        let rest: String = chars.collect();
        let other: String = if first.is_uppercase() {
            first.to_lowercase().chain(rest.chars()).collect()
        } else {
            first.to_uppercase().chain(rest.chars()).collect()
        };
        if other != *word {
            assert!(kept.iter().all(|(kept_word, _)| *kept_word != other));
        }
    }
}

#[test]
fn resolution_does_not_depend_on_the_order_of_rows() {
    let one = [("Sun", 10), ("sun", 10), ("\u{17f}un", 1), ("Kelvin", 3), ("\u{212a}elvin", 30), ("kelvin", 4)];
    let mut other = one;
    other.reverse();
    let mut third = one;
    third.swap(0, 2);
    third.swap(3, 5);
    assert_eq!(resolve(&one), resolve(&other));
    assert_eq!(resolve(&one), resolve(&third));
}

#[test]
fn first_word_in_order_stands_for_a_pair() {
    let kept = resolve(&[("kelvin", 4), ("\u{212a}elvin", 30), ("Kelvin", 3)]);
    assert_eq!(kept, expect(&[("kelvin", 4)]));
    let kept = resolve(&[("kelvin", 4), ("\u{212a}elvin", 3), ("Kelvin", 30)]);
    assert_eq!(kept, expect(&[("Kelvin", 30)]));
}

#[test]
fn capitalize_uses_the_full_mapping() {
    assert_eq!(capitalize("apple"), "Apple");
    assert_eq!(capitalize("éire"), "Éire");
    assert_eq!(capitalize("ßa"), "SSa");
    assert_eq!(capitalize("x"), "X");
    assert_eq!(capitalize("1a"), "1a");
    assert_eq!(capitalize(""), "");
}

#[test]
fn both_spellings_stay_where_casings_disagree() {
    let kept = resolve(&[("Sun", 10), ("sun", 10), ("\u{17f}un", 1)]);
    assert_eq!(kept, expect(&[("Sun", 10), ("sun", 10)]));
}

#[test]
fn pairs_are_revealed_by_casing() {
    let global = table(&[("apple", 100), ("Apple", 10), ("Paris", 7), ("1984", 3), ("kiwi", 2)]);
    let revealed = revealed_pairs(&global);
    assert_eq!(revealed.len(), 5);
    let apple = global.row_of("apple").unwrap();
    let upper = global.row_of("Apple").unwrap();
    assert_eq!(revealed[apple], Some((apple, upper)));
    assert_eq!(revealed[upper], Some((apple, upper)));
    assert_eq!(revealed[global.row_of("Paris").unwrap()], None);
    assert_eq!(revealed[global.row_of("1984").unwrap()], None);
    assert_eq!(revealed[global.row_of("kiwi").unwrap()], None);
}

#[test]
fn pairs_that_stand_are_named() {
    let global = table(&[("nato", 5), ("Nato", 95), ("x", 1), ("kelvin", 4), ("\u{212a}elvin", 30), ("Kelvin", 3)]);
    let resolution = resolve_casing(&global, &AnalyzerConfig::default());
    let row = |word: &str| global.row_of(word).unwrap();
    assert_eq!(resolution.pairs.len(), global.len());
    assert_eq!(resolution.pairs[row("nato")], Some(row("Nato")));
    assert_eq!(resolution.pairs[row("Nato")], None);
    assert_eq!(resolution.pairs[row("x")], None);
    assert_eq!(resolution.pairs[row("kelvin")], Some(row("Kelvin")));
    assert_eq!(resolution.pairs[row("Kelvin")], None);
    assert_eq!(resolution.pairs[row("\u{212a}elvin")], None);
}

#[test]
fn resolve_pairs_takes_any_pairing() {
    let global = table(&[("a", 1), ("b", 9), ("c", 4), ("d", 2)]);
    let config = AnalyzerConfig::default();
    let row = |word: &str| global.row_of(word).unwrap();
    let mut revealed = vec![None; 4];
    revealed[row("a")] = Some((row("a"), row("b")));
    revealed[row("c")] = Some((row("a"), row("c")));
    let resolution = resolve_pairs(&global, &revealed, &config);
    let mut entries = resolution.frequencies.entries();
    entries.sort();
    assert_eq!(entries, expect(&[("b", 9), ("d", 2)]));
    assert_eq!(resolution.pairs[row("a")], Some(row("b")));
    assert_eq!(resolution.pairs[row("c")], None);

    revealed[row("a")] = None;
    let resolution = resolve_pairs(&global, &revealed, &config);
    let mut entries = resolution.frequencies.entries();
    entries.sort();
    assert_eq!(entries, expect(&[("a", 1), ("b", 9), ("c", 4), ("d", 2)]));
    assert_eq!(resolution.pairs[row("a")], Some(row("c")));

    revealed[row("c")] = Some((row("a"), 17));
    revealed[row("d")] = Some((4, row("d")));
    let resolution = resolve_pairs(&global, &revealed, &config);
    assert_eq!(resolution.frequencies.len(), 4);
    assert_eq!(resolution.pairs, vec![None; 4]);

    let resolution = resolve_pairs(&global, &[], &config);
    assert_eq!(resolution.frequencies.len(), 4);
    let resolution = resolve_pairs(&FrequencyTable::new(), &revealed, &config);
    assert_eq!(resolution.frequencies.len(), 0);
    assert!(resolution.pairs.is_empty());
}

#[test]
fn order_of_words() {
    assert!(precedes("", ""));
    assert!(precedes("", "a"));
    assert!(!precedes("a", ""));
    assert!(precedes("Apple", "apple"));
    assert!(!precedes("apple", "Apple"));
    assert!(precedes("app", "apple"));
    assert!(!precedes("apple", "app"));
    assert!(precedes("apple", "apple"));
    assert!(precedes("apple", "applf"));
    assert!(precedes("zebra", "éa"));
    let mut words = vec!["b", "a", "B", "ab", "", "é", "aa"];
    let mut by_std = words.clone();
    by_std.sort();
    words.sort_by(|left, right| {
        if precedes(left, right) && precedes(right, left) {
            std::cmp::Ordering::Equal
        } else if precedes(left, right) {
            std::cmp::Ordering::Less
        } else {
            std::cmp::Ordering::Greater
        }
    });
    assert_eq!(words, by_std);
}

#[test]
fn ascii_punctuation_is_four_blocks() {
    for c in '\0'..='\u{ff}' {
        assert_eq!(is_ascii_punctuation(c), c.is_ascii_punctuation());
    }
    assert!(!is_ascii_punctuation('…'));
}
