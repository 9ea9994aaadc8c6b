//! The line format of a corpus partition.
//!
//! A record is `word<TAB>year<TAB>match-count`, optionally followed by a
//! tab and further fields, which are ignored. The word is any non-empty run
//! of characters other than the tab; year and match count are written in
//! decimal digits and must fit in 32 bits.

use crate::error::Error;
use vstd::prelude::*;

verus! {

/// What one line of a partition says: a word, the year of publication and
/// the number of matches in that year.
pub ghost struct Record {
    pub word: Seq<char>,
    pub year: nat,
    pub frequency: nat,
}

/// The character that separates the fields of a record.
pub open spec fn separator() -> char {
    '\t'
}

/// Whether `c` is a decimal digit.
pub open spec fn is_digit(c: char) -> bool {
    '0' <= c <= '9'
}

/// The end of the field that starts at `start`: the place of the next
/// separator, or the end of the line.
pub open spec fn field_end(line: Seq<char>, start: int) -> int
    decreases line.len() - start,
{
    if start < 0 || start >= line.len() {
        line.len() as int
    } else if line[start] == separator() {
        start
    } else {
        field_end(line, start + 1)
    }
}

/// The number that a run of digits denotes.
pub open spec fn decimal_value(digits: Seq<char>) -> nat
    decreases digits.len(),
{
    if digits.len() == 0 {
        0
    } else {
        10 * decimal_value(digits.drop_last()) + (digits.last() as u32 - '0' as u32) as nat
    }
}

/// The value of a numeric field: the field is a non-empty run of digits
/// whose value fits in 32 bits.
pub open spec fn number(field: Seq<char>) -> Option<nat> {
    if field.len() > 0 && (forall|i: int| 0 <= i < field.len() ==> is_digit(#[trigger] field[i]))
        && decimal_value(field) <= u32::MAX {
        Some(decimal_value(field))
    } else {
        None
    }
}

/// The record that `line` holds, if it is well formed.
pub open spec fn parsed_record(line: Seq<char>) -> Option<Record> {
    let word_end = field_end(line, 0);
    let year_end = field_end(line, word_end + 1);
    let count_end = field_end(line, year_end + 1);
    if 0 < word_end < line.len() && year_end < line.len() {
        match (
            number(line.subrange(word_end + 1, year_end)),
            number(line.subrange(year_end + 1, count_end)),
        ) {
            (Some(year), Some(frequency)) => Some(
                Record { word: line.subrange(0, word_end), year, frequency },
            ),
            _ => None,
        }
    } else {
        None
    }
}

/// A field ends at or after its start and within the line.
pub proof fn lemma_field_end_bounds(line: Seq<char>, start: int)
    requires
        0 <= start <= line.len(),
    ensures
        start <= field_end(line, start) <= line.len(),
        field_end(line, start) < line.len() ==> line[field_end(line, start)] == separator(),
        forall|i: int| start <= i < field_end(line, start) ==> line[i] != separator(),
    decreases line.len() - start,
{
    if start < line.len() && line[start] != separator() {
        lemma_field_end_bounds(line, start + 1);
    }
}

/// A run of digits denotes at least as much as any of its prefixes.
proof fn lemma_decimal_value_grows(digits: Seq<char>, prefix: int)
    requires
        0 <= prefix <= digits.len(),
        forall|i: int| 0 <= i < digits.len() ==> is_digit(#[trigger] digits[i]),
    ensures
        decimal_value(digits.take(prefix)) <= decimal_value(digits),
    decreases digits.len() - prefix,
{
    if prefix < digits.len() {
        let longer = digits.take(prefix + 1);
        assert(longer.drop_last() =~= digits.take(prefix));
        lemma_decimal_value_grows(digits, prefix + 1);
    } else {
        assert(digits.take(prefix) =~= digits);
    }
}

/// One parsed record of a partition.
pub struct CorpusEntry {
    word: String,
    year: u32,
    frequency: u32,
}

impl View for CorpusEntry {
    type V = Record;

    closed spec fn view(&self) -> Record {
        Record { word: self.word@, year: self.year as nat, frequency: self.frequency as nat }
    }
}

impl CorpusEntry {
    /// The word of the record.
    pub fn word(&self) -> (word: &str)
        ensures
            word@ == self@.word,
    {
        self.word.as_str()
    }

    /// The year of publication.
    pub fn year(&self) -> (year: u32)
        ensures
            year == self@.year,
    {
        self.year
    }

    /// The number of matches in that year.
    pub fn frequency(&self) -> (frequency: u32)
        ensures
            frequency == self@.frequency,
    {
        self.frequency
    }
}

/// A field that holds a character other than a digit, or whose first digits
/// already denote more than 32 bits hold, is no number.
proof fn lemma_not_a_number(field: Seq<char>, prefix: int)
    requires
        0 < prefix <= field.len(),
        !is_digit(field[prefix - 1]) || decimal_value(field.take(prefix)) > u32::MAX,
    ensures
        number(field) is None,
{
    if forall|i: int| 0 <= i < field.len() ==> is_digit(#[trigger] field[i]) {
        lemma_decimal_value_grows(field, prefix);
    }
}

/// A field without a separator before `end` ends at `end` or later; it
/// ends at `end` where the line ends there or holds a separator there.
proof fn lemma_field_end_from(line: Seq<char>, start: int, end: int)
    requires
        0 <= start <= end <= line.len(),
        forall|i: int| start <= i < end ==> line[i] != separator(),
    ensures
        field_end(line, start) >= end,
        end == line.len() || line[end] == separator() ==> field_end(line, start) == end,
{
    lemma_field_end_bounds(line, start);
}

/// The value of a run of digits with one more digit.
proof fn lemma_decimal_value_next(line: Seq<char>, start: int, end: int)
    requires
        0 <= start <= end < line.len(),
        is_digit(line[end]),
    ensures
        decimal_value(line.subrange(start, end + 1)) == 10 * decimal_value(
            line.subrange(start, end),
        ) + (line[end] as u32 - '0' as u32),
{
    let longer = line.subrange(start, end + 1);
    assert(longer.drop_last() =~= line.subrange(start, end));
}

/// The grammar of a partition line.
pub struct CorpusParser;

impl CorpusParser {
    /// Parses one line of a partition.
    pub fn parse_entry(line: &str) -> (parsed: Result<CorpusEntry, Error>)
        ensures
            match parsed {
                Ok(entry) => parsed_record(line@) == Some(entry@),
                Err(e) => e == Error::ParseFailure && parsed_record(line@) is None,
            },
    {
        // The position in the line never exceeds the number of its characters.
        let total = line.unicode_len();
        let ghost text = line@;
        // The field that is being read: the word, the year or the match count.
        let mut field: u8 = 0;
        let mut word_end: usize = 0;
        let mut year_end: usize = 0;
        let mut year: u64 = 0;
        let mut count: u64 = 0;
        let mut at: usize = 0;
        for c in chars: line.chars()
            invariant
                text == line@,
                chars.seq() == text,
                total == text.len(),
                at == chars.index(),
                at <= total,
                field <= 2,
                field == 0 ==> year == 0 && forall|i: int|
                    0 <= i < at ==> #[trigger] text[i] != separator(),
                field >= 1 ==> word_end == field_end(text, 0) && 0 < word_end < at,
                field <= 1 ==> count == 0 && year_end == 0,
                field == 1 ==> year == decimal_value(text.subrange(word_end + 1, at as int))
                    && forall|i: int| word_end < i < at ==> is_digit(#[trigger] text[i]),
                field == 2 ==> year_end == field_end(text, word_end + 1) && word_end < year_end
                    < at && number(text.subrange(word_end + 1, year_end as int)) == Some(
                    year as nat,
                ) && count == decimal_value(text.subrange(year_end + 1, at as int))
                    && forall|i: int| year_end < i < at ==> is_digit(#[trigger] text[i]),
                year <= u32::MAX,
                count <= u32::MAX,
        {
            let ghost start = if field == 1 {
                word_end + 1
            } else {
                year_end + 1
            };
            if c == '\t' {
                if field == 0 {
                    proof {
                        lemma_field_end_from(text, 0, at as int);
                    }
                    if at == 0 {
                        return Err(Error::ParseFailure);
                    }
                    word_end = at;
                    field = 1;
                } else {
                    proof {
                        lemma_field_end_from(text, start, at as int);
                    }
                    if field == 1 {
                        if at == word_end + 1 {
                            return Err(Error::ParseFailure);
                        }
                        year_end = at;
                        field = 2;
                    } else {
                        if at == year_end + 1 {
                            return Err(Error::ParseFailure);
                        }
                        let word = line.substring_char(0, word_end).to_owned();
                        return Ok(CorpusEntry { word, year: year as u32, frequency: count as u32 });
                    }
                }
            } else if field != 0 {
                let ghost end = field_end(text, start);
                proof {
                    lemma_field_end_bounds(text, start);
                }
                if c < '0' || c > '9' {
                    proof {
                        lemma_not_a_number(text.subrange(start, end), at + 1 - start);
                    }
                    return Err(Error::ParseFailure);
                }
                let digit: u64 = (c as u32 - '0' as u32) as u64;
                let value: u64 = 10 * (if field == 1 {
                    year
                } else {
                    count
                }) + digit;
                proof {
                    lemma_decimal_value_next(text, start, at as int);
                    assert(text.subrange(start, end).take(at + 1 - start) =~= text.subrange(
                        start,
                        at + 1,
                    ));
                }
                if value > 0xffff_ffff {
                    proof {
                        lemma_not_a_number(text.subrange(start, end), at + 1 - start);
                    }
                    return Err(Error::ParseFailure);
                }
                if field == 1 {
                    year = value;
                } else {
                    count = value;
                }
            }
            at += 1;
        }
        proof {
            if field == 0 {
                lemma_field_end_from(text, 0, at as int);
            } else if field == 1 {
                lemma_field_end_from(text, word_end + 1, at as int);
            } else {
                lemma_field_end_from(text, year_end + 1, at as int);
            }
        }
        if field == 2 && at > year_end + 1 {
            let word = line.substring_char(0, word_end).to_owned();
            Ok(CorpusEntry { word, year: year as u32, frequency: count as u32 })
        } else {
            Err(Error::ParseFailure)
        }
    }
}

/// Parses one line of a partition: `word<TAB>year<TAB>match-count`, with
/// anything after a further tab ignored.
pub fn parse_corpus_entry(line: &str) -> (parsed: Result<CorpusEntry, Error>)
    ensures
        match parsed {
            Ok(entry) => parsed_record(line@) == Some(entry@),
            Err(e) => e == Error::ParseFailure && parsed_record(line@) is None,
        },
{
    CorpusParser::parse_entry(line)
}

} // verus!
