//! Counting words into a frequency table, one occurrence at a time.

use vstd::prelude::*;
use vstd::hash_map::StringHashMap;
use crate::frequency::{
    bump, count_in, counts_fit, distinct_words, entries_of, entry_index, has_entry,
    lemma_occurrences_prefix, lemma_tally_count, lemma_tally_push, lowered, occurrences,
    positive_counts, tally, Entry,
};
use crate::rank::{
    counts_of, ints, lemma_ranking_sorted, nats, rank_order, rank_positions, ranking,
};
use crate::unicode::lowercase_of;

verus! {

/// Why counting stopped.
#[derive(Clone, Copy, Debug, PartialEq, Eq, Structural)]
pub enum CountError {
    /// A word occurs more often than a 32-bit count can tell.
    Overflow,
}

impl CountError {
    /// The error in words.
    pub fn message(&self) -> (text: String)
        ensures
            text@ == "a word occurs more often than a 32-bit count can tell"@,
    {
        "a word occurs more often than a 32-bit count can tell".to_owned()
    }
}

/// A frequency table under construction: the words counted so far, in the
/// order in which they were first seen, each with its count.
pub struct FrequencyTable {
    index: StringHashMap<usize>,
    words: Vec<String>,
    counts: Vec<u32>,
}

impl View for FrequencyTable {
    type V = Seq<Entry>;

    closed spec fn view(&self) -> Seq<Entry> {
        Seq::new(
            self.words@.len(),
            |i: int| Entry { word: self.words@[i]@, count: self.counts@[i] as nat },
        )
    }
}

impl FrequencyTable {
    /// The table is consistent: every word it holds has one entry, which can
    /// be found again by the word. Every table that this module hands out is.
    pub closed spec fn wf(&self) -> bool {
        &&& self.words@.len() == self.counts@.len()
        &&& forall|i: int|
            0 <= i < self.words@.len() ==> {
                &&& self.index@.contains_key(#[trigger] self.words@[i]@)
                &&& self.index@[self.words@[i]@] == i
                &&& self.counts@[i] >= 1
            }
        &&& forall|k: Seq<char>| #[trigger]
            self.index@.contains_key(k) ==> {
                &&& self.index@[k] < self.words@.len()
                &&& self.words@[self.index@[k] as int]@ == k
            }
    }

    /// An empty table.
    pub fn new() -> (table: Self)
        ensures
            table.wf(),
            table@ == Seq::<Entry>::empty(),
    {
        let table = FrequencyTable {
            index: StringHashMap::new(),
            words: Vec::new(),
            counts: Vec::new(),
        };
        assert(table@ =~= Seq::<Entry>::empty());
        table
    }

    /// Counts one more occurrence of the word `key`, taken as it is. Where the
    /// count of `key` cannot grow any more, the table stays as it is and the
    /// error says so.
    pub fn add(&mut self, key: String) -> (done: Result<(), CountError>)
        requires
            old(self).wf(),
        ensures
            final(self).wf(),
            done is Ok <==> count_in(old(self)@, key@) < u32::MAX,
            done is Ok ==> final(self)@ == bump(old(self)@, key@),
            done is Err ==> final(self)@ == old(self)@,
    {
        match self.index.get(key.as_str()) {
            Some(found) => {
                let i = *found;
                let c = self.counts[i];
                assert(old(self)@[i as int].word == key@);
                assert(has_entry(old(self)@, key@));
                assert(entry_index(old(self)@, key@) == i);
                if c == u32::MAX {
                    return Err(CountError::Overflow);
                }
                self.counts.set(i, c + 1);
                assert(self@ =~= bump(old(self)@, key@));
            },
            None => {
                let n = self.words.len();
                assert(!has_entry(old(self)@, key@));
                self.index.insert(key.clone(), n);
                self.words.push(key);
                self.counts.push(1);
                assert(self@ =~= bump(old(self)@, key@));
            },
        }
        Ok(())
    }

    /// Counts one more occurrence of the word `token`, under its lowercase
    /// form: words that differ only in case share one entry. Where the count
    /// of that form cannot grow any more, the table stays as it is and the
    /// error says so.
    pub fn record(&mut self, token: &str) -> (done: Result<(), CountError>)
        requires
            old(self).wf(),
        ensures
            final(self).wf(),
            done is Ok <==> count_in(old(self)@, lowercase_of(token@)) < u32::MAX,
            done is Ok ==> final(self)@ == bump(old(self)@, lowercase_of(token@)),
            done is Err ==> final(self)@ == old(self)@,
    {
        self.add(token.to_lowercase())
    }

    /// The number of distinct words counted so far.
    pub fn len(&self) -> (n: usize)
        ensures
            n == self@.len(),
    {
        self.words.len()
    }

    /// The ranked list of the table: its words with their counts, sorted by
    /// falling count. Words counted equally often stay in the order in which
    /// they were first seen.
    pub fn ranked(&self) -> (list: Vec<(String, u32)>)
        requires
            self.wf(),
        ensures
            entries_of(list@) == ranking(self@),
            forall|i: int, j: int| 0 <= i < j < list@.len() ==> list@[i].1 >= list@[j].1,
    {
        let order = rank_positions(&self.counts);
        let mut list: Vec<(String, u32)> = Vec::new();
        let mut k: usize = 0;
        proof {
            assert(counts_of(self@) =~= nats(self.counts@));
            assert(entries_of(list@) =~= ranking(self@).take(0));
        }
        while k < order.len()
            invariant
                self.wf(),
                k <= order@.len(),
                order@.len() == self.counts@.len(),
                forall|i: int|
                    0 <= i < order@.len() ==> #[trigger] order@[i] < self.counts@.len(),
                ints(order@) == rank_order(counts_of(self@)),
                entries_of(list@) == ranking(self@).take(k as int),
            decreases order@.len() - k,
        {
            let p = order[k];
            let ghost before = entries_of(list@);
            list.push((self.words[p].clone(), self.counts[p]));
            proof {
                assert(ints(order@)[k as int] == p);
                assert(ranking(self@)[k as int] == self@[p as int]);
                assert(entries_of(list@) =~= before.push(self@[p as int]));
                assert(ranking(self@).take(k + 1) =~= ranking(self@).take(k as int).push(
                    self@[p as int],
                ));
            }
            k = k + 1;
        }
        proof {
            assert(ranking(self@).take(k as int) =~= ranking(self@));
            lemma_ranking_sorted(self@);
            assert forall|i: int, j: int| 0 <= i < j < list@.len() implies list@[i].1
                >= list@[j].1 by {
                assert(entries_of(list@)[i].count >= entries_of(list@)[j].count);
            }
        }
        list
    }

    /// In a consistent table no word has two entries, and no entry counts
    /// nothing.
    pub proof fn lemma_wf_entries(&self)
        requires
            self.wf(),
        ensures
            distinct_words(self@),
            positive_counts(self@),
            forall|i: int| 0 <= i < self@.len() ==> (#[trigger] self@[i]).count <= u32::MAX,
    {
        assert forall|i: int, j: int| 0 <= i < j < self@.len() implies self@[i].word
            != self@[j].word by {
            assert(self.index@[self.words@[i]@] == i);
            assert(self.index@[self.words@[j]@] == j);
        }
    }
}

/// Counts the words of `tokens` without regard to case: the table holds one
/// entry for each distinct lowercase form, in the order in which the forms
/// first occur, with the number of tokens that have that form. Counting
/// fails where one form occurs more often than a 32-bit count can tell, and
/// only there.
pub fn count_tokens(tokens: &Vec<String>) -> (counted: Result<FrequencyTable, CountError>)
    ensures
        counted is Ok <==> counts_fit(lowered(tokens.deep_view())),
        counted matches Ok(table) ==> table.wf() && table@ == tally(lowered(tokens.deep_view())),
{
    let ghost words = lowered(tokens.deep_view());
    let mut table = FrequencyTable::new();
    let mut i: usize = 0;
    assert(words.take(0) =~= Seq::<Seq<char>>::empty());
    assert(tally(Seq::<Seq<char>>::empty()) =~= Seq::<Entry>::empty());
    while i < tokens.len()
        invariant
            i <= tokens@.len(),
            words == lowered(tokens.deep_view()),
            table.wf(),
            table@ == tally(words.take(i as int)),
        decreases tokens@.len() - i,
    {
        let token = tokens[i].as_str();
        let ghost key = lowercase_of(token@);
        proof {
            assert(words[i as int] == key);
            assert(words.take(i as int).push(key) =~= words.take(i + 1));
            lemma_tally_count(words.take(i as int), key);
            lemma_tally_push(words.take(i as int), key);
        }
        match table.record(token) {
            Ok(()) => {},
            Err(e) => {
                proof {
                    let more = words.take(i + 1);
                    assert(more.drop_last() =~= words.take(i as int));
                    assert(occurrences(more, key) == occurrences(words.take(i as int), key) + 1);
                    lemma_occurrences_prefix(words, i + 1, key);
                    assert(occurrences(words, key) > u32::MAX);
                }
                return Err(e);
            },
        }
        i = i + 1;
    }
    proof {
        assert(words.take(i as int) =~= words);
        table.lemma_wf_entries();
        assert forall|w: Seq<char>| occurrences(words, w) <= u32::MAX by {
            lemma_tally_count(words, w);
        }
    }
    Ok(table)
}

} // verus!
