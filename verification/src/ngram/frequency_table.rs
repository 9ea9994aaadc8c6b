//! The mapping from words to accumulated match counts.

use crate::error::Error;
use vstd::hash_map::StringHashMap;
use vstd::prelude::*;

verus! {

/// The count that `counts` holds for `word`: zero where it holds none.
pub open spec fn count_in(counts: Map<Seq<char>, nat>, word: Seq<char>) -> nat {
    if counts.contains_key(word) {
        counts[word]
    } else {
        0
    }
}

/// `counts` after `count` more matches of `word` were seen.
pub open spec fn recorded(counts: Map<Seq<char>, nat>, word: Seq<char>, count: nat) -> Map<
    Seq<char>,
    nat,
> {
    counts.insert(word, count_in(counts, word) + count)
}

/// The sum of two mappings: every word of either, with its counts added.
pub open spec fn merged(left: Map<Seq<char>, nat>, right: Map<Seq<char>, nat>) -> Map<
    Seq<char>,
    nat,
> {
    Map::new(
        |word: Seq<char>| left.contains_key(word) || right.contains_key(word),
        |word: Seq<char>| count_in(left, word) + count_in(right, word),
    )
}

/// Whether every count of the mapping can be held by a table.
pub open spec fn fits(counts: Map<Seq<char>, nat>) -> bool {
    forall|word: Seq<char>| #[trigger] counts.contains_key(word) ==> counts[word] <= u32::MAX
}

/// Adding two mappings gives the same sum in either order.
pub proof fn lemma_merged_commutes(left: Map<Seq<char>, nat>, right: Map<Seq<char>, nat>)
    ensures
        merged(left, right) == merged(right, left),
{
}

/// Adding two mappings to a third gives the same sum in either order.
pub proof fn lemma_merge_order(
    global: Map<Seq<char>, nat>,
    first: Map<Seq<char>, nat>,
    second: Map<Seq<char>, nat>,
)
    ensures
        merged(merged(global, first), second) == merged(merged(global, second), first),
{
}

/// Adding three mappings gives the same sum however they are grouped.
pub proof fn lemma_merged_associates(
    first: Map<Seq<char>, nat>,
    second: Map<Seq<char>, nat>,
    third: Map<Seq<char>, nat>,
)
    ensures
        merged(merged(first, second), third) == merged(first, merged(second, third)),
{
}

/// Adding the empty mapping changes nothing.
pub proof fn lemma_merged_empty(counts: Map<Seq<char>, nat>)
    ensures
        merged(counts, Map::empty()) == counts,
        merged(Map::empty(), counts) == counts,
{
}

/// No count of a sum is below the count of either part.
pub proof fn lemma_merged_grows(
    left: Map<Seq<char>, nat>,
    right: Map<Seq<char>, nat>,
    word: Seq<char>,
)
    ensures
        count_in(merged(left, right), word) >= count_in(left, word),
        count_in(merged(left, right), word) >= count_in(right, word),
{
}

/// Counts only grow in a sum: where the sum can be held, so can both parts.
pub proof fn lemma_merged_fits(left: Map<Seq<char>, nat>, right: Map<Seq<char>, nat>)
    requires
        fits(merged(left, right)),
    ensures
        fits(left),
        fits(right),
{
    let sum = merged(left, right);
    assert forall|word: Seq<char>| #[trigger] left.contains_key(word) implies left[word]
        <= u32::MAX by {
        assert(sum.contains_key(word));
    }
    assert forall|word: Seq<char>| #[trigger] right.contains_key(word) implies right[word]
        <= u32::MAX by {
        assert(sum.contains_key(word));
    }
}

/// Whether one of the first `rows` words of `words` is `word`.
pub open spec fn held_before(words: Seq<Seq<char>>, rows: int, word: Seq<char>) -> bool {
    exists|row: int| 0 <= row < rows && row < words.len() && #[trigger] words[row] == word
}

/// The link between the rows of a table and its index: row `i` holds the
/// word that the index sends to `i`, and the index knows no other word.
spec fn indexed(words: Seq<String>, counts: Seq<u32>, index: Map<Seq<char>, usize>) -> bool {
    &&& words.len() == counts.len()
    &&& forall|i: int|
        0 <= i < words.len() ==> index.contains_key((#[trigger] words[i])@) && index[words[i]@]
            == i
    &&& forall|word: Seq<char>| #[trigger]
        index.contains_key(word) ==> index[word] < words.len() && words[index[word] as int]@
            == word
}

/// The mapping that rows and index stand for.
spec fn counts_of(counts: Seq<u32>, index: Map<Seq<char>, usize>) -> Map<Seq<char>, nat> {
    Map::new(
        |word: Seq<char>| index.contains_key(word),
        |word: Seq<char>| counts[index[word] as int] as nat,
    )
}

/// The part of a table that its first `rows` rows hold.
spec fn counts_up_to(counts: Seq<u32>, index: Map<Seq<char>, usize>, rows: int) -> Map<
    Seq<char>,
    nat,
> {
    Map::new(
        |word: Seq<char>| index.contains_key(word) && index[word] < rows,
        |word: Seq<char>| counts[index[word] as int] as nat,
    )
}

/// Appends a row for a word that the index does not know yet.
fn append_row(
    words: &mut Vec<String>,
    counts: &mut Vec<u32>,
    index: &mut StringHashMap<usize>,
    word: &str,
    count: u32,
)
    requires
        indexed(old(words)@, old(counts)@, old(index)@),
        !old(index)@.contains_key(word@),
    ensures
        indexed(final(words)@, final(counts)@, final(index)@),
        counts_of(final(counts)@, final(index)@) == counts_of(old(counts)@, old(index)@).insert(
            word@,
            count as nat,
        ),
{
    let row = words.len();
    words.push(word.to_owned());
    counts.push(count);
    index.insert(word.to_owned(), row);
}

/// A mapping from words to match counts.
///
/// Its view is the mathematical mapping. The words are also enumerated, each
/// once, in an order that no contract fixes: see [`FrequencyTable::words`].
pub struct FrequencyTable {
    words: Vec<String>,
    counts: Vec<u32>,
    index: StringHashMap<usize>,
}

impl View for FrequencyTable {
    type V = Map<Seq<char>, nat>;

    closed spec fn view(&self) -> Map<Seq<char>, nat> {
        counts_of(self.counts@, self.index@)
    }
}

impl FrequencyTable {
    /// Whether rows and index agree. Every table that this library hands
    /// out is well formed.
    pub closed spec fn wf(&self) -> bool {
        indexed(self.words@, self.counts@, self.index@)
    }

    /// The words of the table, one per row.
    pub closed spec fn words(&self) -> Seq<Seq<char>> {
        Seq::new(self.words@.len(), |i: int| self.words@[i]@)
    }

    /// Whether the rows enumerate the words of the mapping, each once, and no
    /// count is beyond what a row can hold.
    pub open spec fn enumerated(&self) -> bool {
        &&& self.words().no_duplicates()
        &&& forall|word: Seq<char>| self@.contains_key(word) <==> self.words().contains(word)
        &&& self@.dom().finite()
        &&& self@.dom().len() == self.words().len()
        &&& fits(self@)
    }

    /// A well-formed table enumerates its words and holds no count that is
    /// too large.
    pub proof fn lemma_enumerated(&self)
        requires
            self.wf(),
        ensures
            self.enumerated(),
    {
        let words = self.words();
        assert forall|word: Seq<char>| self@.contains_key(word) implies words.contains(
            word,
        ) by {
            assert(words[self.index@[word] as int] == word);
        }
        assert(self@.dom() =~= words.to_set());
        words.unique_seq_to_set();
    }

    /// An empty table.
    pub fn new() -> (table: Self)
        ensures
            table.wf(),
            table@ == Map::<Seq<char>, nat>::empty(),
            table.words() == Seq::<Seq<char>>::empty(),
    {
        let table = FrequencyTable {
            words: Vec::new(),
            counts: Vec::new(),
            index: StringHashMap::new(),
        };
        table
    }

    /// The number of words in the table.
    pub fn len(&self) -> (rows: usize)
        requires
            self.wf(),
        ensures
            rows == self.words().len(),
            rows == self@.dom().len(),
    {
        proof {
            self.lemma_enumerated();
        }
        self.words.len()
    }

    /// The word of row `row`.
    pub fn word_at(&self, row: usize) -> (word: &str)
        requires
            row < self.words().len(),
        ensures
            word@ == self.words()[row as int],
    {
        self.words[row].as_str()
    }

    /// The count of the word of row `row`.
    pub fn count_at(&self, row: usize) -> (count: u32)
        requires
            self.wf(),
            row < self.words().len(),
        ensures
            self@.contains_key(self.words()[row as int]),
            count == self@[self.words()[row as int]],
    {
        self.counts[row]
    }

    /// The count of `word`, if the table holds the word.
    pub fn get(&self, word: &str) -> (count: Option<u32>)
        requires
            self.wf(),
        ensures
            match count {
                Some(c) => self@.contains_key(word@) && self@[word@] == c,
                None => !self@.contains_key(word@),
            },
    {
        match self.index.get(word) {
            Some(row) => Some(self.counts[*row]),
            None => None,
        }
    }

    /// The row that holds `word`, if the table holds the word.
    pub fn row_of(&self, word: &str) -> (row: Option<usize>)
        requires
            self.wf(),
        ensures
            match row {
                Some(r) => r < self.words().len() && self.words()[r as int] == word@
                    && self@.contains_key(word@),
                None => !self@.contains_key(word@),
            },
    {
        match self.index.get(word) {
            Some(row) => Some(*row),
            None => None,
        }
    }

    /// Adds `count` matches of `word`. Where the sum is more than a count
    /// can hold, the table stays as it is.
    pub fn add(&mut self, word: &str, count: u32) -> (outcome: Result<(), Error>)
        requires
            old(self).wf(),
        ensures
            final(self).wf(),
            outcome is Ok <==> count_in(old(self)@, word@) + count <= u32::MAX,
            match outcome {
                Ok(_) => final(self)@ == recorded(old(self)@, word@, count as nat),
                Err(e) => e == Error::CountOverflow && final(self)@ == old(self)@,
            },
    {
        let found = match self.index.get(word) {
            Some(row) => Some(*row),
            None => None,
        };
        match found {
            Some(row) => {
                let held = self.counts[row];
                match held.checked_add(count) {
                    Some(sum) => {
                        self.counts.set(row, sum);
                        Ok(())
                    },
                    None => Err(Error::CountOverflow),
                }
            },
            None => {
                append_row(&mut self.words, &mut self.counts, &mut self.index, word, count);
                Ok(())
            },
        }
    }

    /// Gives `word` the count `count` unless the table holds the word
    /// already.
    pub fn insert_absent(&mut self, word: &str, count: u32)
        requires
            old(self).wf(),
        ensures
            final(self).wf(),
            final(self)@ == if old(self)@.contains_key(word@) {
                old(self)@
            } else {
                old(self)@.insert(word@, count as nat)
            },
    {
        if !self.index.contains_key(word) {
            append_row(&mut self.words, &mut self.counts, &mut self.index, word, count);
        }
    }

    /// The sum of this table and `other`: every word of either, with its
    /// counts added. It fails where a sum is more than a count can hold.
    pub fn merge(self, other: &FrequencyTable) -> (outcome: Result<FrequencyTable, Error>)
        requires
            self.wf(),
            other.wf(),
        ensures
            outcome is Ok <==> fits(merged(self@, other@)),
            match outcome {
                Ok(table) => table.wf() && table@ == merged(self@, other@),
                Err(e) => e == Error::CountOverflow,
            },
    {
        let ghost start = self@;
        let mut table = self;
        let rows = other.words.len();
        let mut row: usize = 0;
        while row < rows
            invariant
                table.wf(),
                other.wf(),
                rows == other.words@.len(),
                row <= rows,
                start == self@,
                table@ == merged(start, counts_up_to(other.counts@, other.index@, row as int)),
            decreases rows - row,
        {
            let ghost word = other.words@[row as int]@;
            match table.add(other.words[row].as_str(), other.counts[row]) {
                Ok(_) => {},
                Err(e) => {
                    proof {
                        let sum = merged(start, other@);
                        assert(sum.contains_key(word));
                    }
                    return Err(e);
                },
            }
            row += 1;
        }
        proof {
            assert(counts_up_to(other.counts@, other.index@, rows as int) =~= other@);
        }
        Ok(table)
    }

    /// The words of the table with their counts, row by row.
    pub fn entries(&self) -> (entries: Vec<(String, u32)>)
        requires
            self.wf(),
        ensures
            entries@.len() == self.words().len(),
            forall|row: int|
                0 <= row < entries@.len() ==> (#[trigger] entries@[row]).0@ == self.words()[row]
                    && self@.contains_key(self.words()[row]) && entries@[row].1
                    == self@[self.words()[row]],
    {
        let mut entries: Vec<(String, u32)> = Vec::new();
        let rows = self.words.len();
        let mut row: usize = 0;
        while row < rows
            invariant
                self.wf(),
                rows == self.words@.len(),
                row <= rows,
                entries@.len() == row,
                forall|r: int|
                    0 <= r < row ==> (#[trigger] entries@[r]).0@ == self.words()[r]
                        && self@.contains_key(self.words()[r]) && entries@[r].1
                        == self@[self.words()[r]],
            decreases rows - row,
        {
            entries.push((self.words[row].clone(), self.counts[row]));
            row += 1;
        }
        entries
    }
}

} // verus!
