//! What a frequency table is: one entry for each distinct word, in the order
//! in which the words were first seen, with the number of its occurrences.

use vstd::prelude::*;
use vstd::seq_lib::group_to_multiset_ensures;
use crate::unicode::lowercase_of;

verus! {

/// A word together with the number of times it was counted.
pub struct Entry {
    /// The word, in the form under which it is counted.
    pub word: Seq<char>,
    /// How many times it was counted.
    pub count: nat,
}

/// How many times `word` occurs in `words`.
pub open spec fn occurrences(words: Seq<Seq<char>>, word: Seq<char>) -> nat
    decreases words.len(),
{
    if words.len() == 0 {
        0
    } else {
        occurrences(words.drop_last(), word) + if words.last() == word {
            1nat
        } else {
            0nat
        }
    }
}

/// The distinct words of `words`, each at the place of its first occurrence.
pub open spec fn first_seen(words: Seq<Seq<char>>) -> Seq<Seq<char>>
    decreases words.len(),
{
    if words.len() == 0 {
        Seq::empty()
    } else if words.drop_last().contains(words.last()) {
        first_seen(words.drop_last())
    } else {
        first_seen(words.drop_last()).push(words.last())
    }
}

/// The frequency table of `words`: one entry for each distinct word, in the
/// order in which the words first occur, with the number of its occurrences.
pub open spec fn tally(words: Seq<Seq<char>>) -> Seq<Entry> {
    first_seen(words).map_values(|w: Seq<char>| Entry { word: w, count: occurrences(words, w) })
}

/// Whether `entries` holds an entry for `word`.
pub open spec fn has_entry(entries: Seq<Entry>, word: Seq<char>) -> bool {
    exists|i: int| 0 <= i < entries.len() && (#[trigger] entries[i]).word == word
}

/// The place of an entry for `word` in `entries`, where there is one.
pub open spec fn entry_index(entries: Seq<Entry>, word: Seq<char>) -> int {
    choose|i: int| 0 <= i < entries.len() && (#[trigger] entries[i]).word == word
}

/// The count that `entries` holds for `word`: zero where it has no entry.
pub open spec fn count_in(entries: Seq<Entry>, word: Seq<char>) -> nat {
    if has_entry(entries, word) {
        entries[entry_index(entries, word)].count
    } else {
        0
    }
}

/// No two entries are for the same word.
pub open spec fn distinct_words(entries: Seq<Entry>) -> bool {
    forall|i: int, j: int|
        0 <= i < j < entries.len() ==> (#[trigger] entries[i]).word != (#[trigger] entries[j]).word
}

/// Every entry counts at least one occurrence.
pub open spec fn positive_counts(entries: Seq<Entry>) -> bool {
    forall|i: int| 0 <= i < entries.len() ==> (#[trigger] entries[i]).count >= 1
}

/// The table after one more occurrence of `word` is counted: its entry is
/// raised by one, or a new entry with count one is added at the end.
pub open spec fn bump(entries: Seq<Entry>, word: Seq<char>) -> Seq<Entry> {
    if has_entry(entries, word) {
        let i = entry_index(entries, word);
        entries.update(i, Entry { word, count: entries[i].count + 1 })
    } else {
        entries.push(Entry { word, count: 1 })
    }
}

/// The entries that a list of words with their counts stands for.
pub open spec fn entries_of(list: Seq<(String, u32)>) -> Seq<Entry> {
    list.map_values(|e: (String, u32)| Entry { word: e.0@, count: e.1 as nat })
}

/// The sum of all counts.
pub open spec fn total(entries: Seq<Entry>) -> nat
    decreases entries.len(),
{
    if entries.len() == 0 {
        0
    } else {
        total(entries.drop_last()) + entries.last().count
    }
}

/// Whether every word of `words` occurs no more often than a 32-bit count
/// can tell.
pub open spec fn counts_fit(words: Seq<Seq<char>>) -> bool {
    forall|w: Seq<char>| occurrences(words, w) <= u32::MAX
}

/// The lowercase forms of `tokens`, one for one.
pub open spec fn lowered(tokens: Seq<Seq<char>>) -> Seq<Seq<char>> {
    tokens.map_values(|t: Seq<char>| lowercase_of(t))
}

/// A word occurs at least once exactly where it is among the words.
pub proof fn lemma_occurrences_positive(words: Seq<Seq<char>>, word: Seq<char>)
    ensures
        occurrences(words, word) >= 1 <==> words.contains(word),
    decreases words.len(),
{
    if words.len() > 0 {
        let front = words.drop_last();
        lemma_occurrences_positive(front, word);
        if front.contains(word) {
            let i = choose|i: int| 0 <= i < front.len() && front[i] == word;
            assert(words[i] == word);
        }
        if words.contains(word) && words.last() != word {
            let i = choose|i: int| 0 <= i < words.len() && words[i] == word;
            assert(front[i] == word);
        }
        if words.last() == word {
            assert(words[words.len() - 1] == word);
        }
    }
}

/// `occurrences` counts as a multiset does.
pub proof fn lemma_occurrences_is_count(words: Seq<Seq<char>>, word: Seq<char>)
    ensures
        occurrences(words, word) == words.to_multiset().count(word),
    decreases words.len(),
{
    broadcast use group_to_multiset_ensures;

    if words.len() == 0 {
        assert(words.to_multiset().len() == 0);
    } else {
        lemma_occurrences_is_count(words.drop_last(), word);
        assert(words =~= words.drop_last().push(words.last()));
    }
}

/// `first_seen` keeps every word of `words`, adds none, and repeats none.
pub proof fn lemma_first_seen(words: Seq<Seq<char>>)
    ensures
        first_seen(words).no_duplicates(),
        first_seen(words).len() <= words.len(),
        forall|w: Seq<char>| #[trigger] first_seen(words).contains(w) <==> words.contains(w),
    decreases words.len(),
{
    let seen = first_seen(words);
    if words.len() > 0 {
        let front = words.drop_last();
        let last = words.last();
        let before = first_seen(front);
        lemma_first_seen(front);
        assert(words =~= front.push(last));
        assert forall|w: Seq<char>| words.contains(w) <==> (front.contains(w) || w == last) by {
            if front.contains(w) {
                let j = choose|j: int| 0 <= j < front.len() && front[j] == w;
                assert(words[j] == w);
            }
            if w == last {
                assert(words[words.len() - 1] == w);
            }
            if words.contains(w) {
                let j = choose|j: int| 0 <= j < words.len() && words[j] == w;
                if j < front.len() {
                    assert(front[j] == w);
                }
            }
        }
        if front.contains(last) {
            assert(seen == before);
            assert(before.contains(last));
        } else {
            assert(seen == before.push(last));
            assert(!before.contains(last));
            assert forall|w: Seq<char>| seen.contains(w) <==> (before.contains(w) || w == last) by {
                if before.contains(w) {
                    let i = choose|i: int| 0 <= i < before.len() && before[i] == w;
                    assert(seen[i] == w);
                }
                if w == last {
                    assert(seen[seen.len() - 1] == w);
                }
                if seen.contains(w) {
                    let i = choose|i: int| 0 <= i < seen.len() && seen[i] == w;
                    if i < before.len() {
                        assert(before[i] == w);
                    }
                }
            }
            assert forall|i: int, j: int| 0 <= i < seen.len() && 0 <= j < seen.len() && i != j
                implies seen[i] != seen[j] by {
                if i == before.len() {
                    assert(before[j] == seen[j]);
                } else if j == before.len() {
                    assert(before[i] == seen[i]);
                }
            }
        }
    }
}

/// Counting one more word is one `bump` of the table.
pub proof fn lemma_tally_push(words: Seq<Seq<char>>, word: Seq<char>)
    ensures
        tally(words.push(word)) == bump(tally(words), word),
{
    let more = words.push(word);
    let seen = first_seen(words);
    let table = tally(words);
    assert(more.drop_last() =~= words);
    lemma_first_seen(words);
    lemma_occurrences_positive(words, word);
    if words.contains(word) {
        assert(seen.contains(word));
        let i = choose|i: int| 0 <= i < seen.len() && seen[i] == word;
        assert(table[i].word == word);
        assert(first_seen(more) == seen);
        let j = entry_index(table, word);
        assert(table[j].word == seen[j]);
        let bumped = bump(table, word);
        assert(bumped.len() == tally(more).len());
        assert forall|k: int| 0 <= k < bumped.len() implies bumped[k] == tally(more)[k] by {
            assert(table[k].word == seen[k]);
            if k != j {
                assert(seen[k] != seen[j]);
            }
        }
        assert(tally(more) =~= bumped);
    } else {
        assert(first_seen(more) == seen.push(word));
        assert(!seen.contains(word));
        if has_entry(table, word) {
            let j = entry_index(table, word);
            assert(seen[j] == table[j].word);
            assert(seen.contains(word));
        }
        let bumped = bump(table, word);
        assert(bumped.len() == tally(more).len());
        assert forall|k: int| 0 <= k < bumped.len() implies bumped[k] == tally(more)[k] by {
            if k < seen.len() {
                assert(table[k].word == seen[k]);
                assert(seen.contains(seen[k]));
            }
        }
        assert(tally(more) =~= bumped);
    }
}

/// Replacing one entry changes the sum of the counts by the difference of
/// the two counts.
proof fn lemma_total_update(entries: Seq<Entry>, i: int, entry: Entry)
    requires
        0 <= i < entries.len(),
    ensures
        total(entries.update(i, entry)) == total(entries) - entries[i].count + entry.count,
    decreases entries.len(),
{
    let changed = entries.update(i, entry);
    if i == entries.len() - 1 {
        assert(changed.drop_last() =~= entries.drop_last());
    } else {
        assert(changed.drop_last() =~= entries.drop_last().update(i, entry));
        lemma_total_update(entries.drop_last(), i, entry);
    }
}

/// Counting one more word raises the sum of the counts by one.
pub proof fn lemma_bump_total(entries: Seq<Entry>, word: Seq<char>)
    ensures
        total(bump(entries, word)) == total(entries) + 1,
{
    if has_entry(entries, word) {
        let i = entry_index(entries, word);
        lemma_total_update(entries, i, Entry { word, count: entries[i].count + 1 });
    } else {
        assert(bump(entries, word).drop_last() =~= entries);
    }
}

/// The counts of a frequency table add up to the number of words counted.
pub proof fn lemma_tally_total(words: Seq<Seq<char>>)
    ensures
        total(tally(words)) == words.len(),
    decreases words.len(),
{
    if words.len() == 0 {
        assert(tally(words) =~= Seq::<Entry>::empty());
    } else {
        lemma_tally_total(words.drop_last());
        lemma_tally_push(words.drop_last(), words.last());
        lemma_bump_total(tally(words.drop_last()), words.last());
        assert(words.drop_last().push(words.last()) =~= words);
    }
}

/// The table holds for each word the number of its occurrences.
pub proof fn lemma_tally_count(words: Seq<Seq<char>>, word: Seq<char>)
    ensures
        has_entry(tally(words), word) <==> words.contains(word),
        count_in(tally(words), word) == occurrences(words, word),
{
    let seen = first_seen(words);
    let table = tally(words);
    lemma_first_seen(words);
    lemma_occurrences_positive(words, word);
    if words.contains(word) {
        assert(seen.contains(word));
        let i = choose|i: int| 0 <= i < seen.len() && seen[i] == word;
        assert(table[i].word == word);
        let j = entry_index(table, word);
        assert(table[j].word == seen[j]);
    } else {
        assert(!seen.contains(word));
        if has_entry(table, word) {
            let j = entry_index(table, word);
            assert(seen[j] == table[j].word);
            assert(seen.contains(word));
        }
    }
}

/// In a frequency table no word has two entries, and every entry counts at
/// least one occurrence.
pub proof fn lemma_tally_entries(words: Seq<Seq<char>>)
    ensures
        distinct_words(tally(words)),
        positive_counts(tally(words)),
{
    let seen = first_seen(words);
    lemma_first_seen(words);
    assert forall|i: int| 0 <= i < tally(words).len() implies (#[trigger] tally(words)[i]).count
        >= 1 by {
        assert(seen.contains(seen[i]));
        lemma_occurrences_positive(words, seen[i]);
    }
    assert forall|i: int, j: int| 0 <= i < j < tally(words).len() implies (#[trigger] tally(
        words,
    )[i]).word != (#[trigger] tally(words)[j]).word by {
        assert(seen[i] != seen[j]);
    }
}

/// The counts do not depend on the order in which the words are counted: two
/// sequences of the same words, in whatever order, give every word the same
/// count.
pub proof fn lemma_counts_ignore_order(first: Seq<Seq<char>>, second: Seq<Seq<char>>)
    requires
        first.to_multiset() == second.to_multiset(),
    ensures
        forall|w: Seq<char>| count_in(tally(first), w) == count_in(tally(second), w),
{
    assert forall|w: Seq<char>| count_in(tally(first), w) == count_in(tally(second), w) by {
        lemma_tally_count(first, w);
        lemma_tally_count(second, w);
        lemma_occurrences_is_count(first, w);
        lemma_occurrences_is_count(second, w);
    }
}

/// A word occurs in the first `n` words no more often than in all of them.
pub proof fn lemma_occurrences_prefix(words: Seq<Seq<char>>, n: int, word: Seq<char>)
    requires
        0 <= n <= words.len(),
    ensures
        occurrences(words.take(n), word) <= occurrences(words, word),
    decreases words.len(),
{
    if n == words.len() {
        assert(words.take(n) =~= words);
    } else {
        assert(words.drop_last().take(n) =~= words.take(n));
        lemma_occurrences_prefix(words.drop_last(), n, word);
    }
}

/// Words are told apart by their lowercase form alone: tokens that all have
/// one lowercase form share one entry, which counts them all.
pub proof fn lemma_one_form_one_entry(tokens: Seq<Seq<char>>, form: Seq<char>)
    requires
        tokens.len() >= 1,
        forall|i: int| 0 <= i < tokens.len() ==> lowercase_of(#[trigger] tokens[i]) == form,
    ensures
        tally(lowered(tokens)) == seq![Entry { word: form, count: tokens.len() }],
    decreases tokens.len(),
{
    let words = lowered(tokens);
    let front = lowered(tokens.drop_last());
    assert(words =~= front.push(form));
    lemma_tally_push(front, form);
    if tokens.len() == 1 {
        assert(front =~= Seq::<Seq<char>>::empty());
        assert(tally(front) =~= Seq::<Entry>::empty());
        assert(!has_entry(tally(front), form));
        assert(bump(tally(front), form) =~= seq![Entry { word: form, count: 1 }]);
    } else {
        lemma_one_form_one_entry(tokens.drop_last(), form);
        let before = seq![Entry { word: form, count: (tokens.len() - 1) as nat }];
        assert(before[0].word == form);
        assert(entry_index(before, form) == 0);
        assert(bump(before, form) =~= seq![Entry { word: form, count: tokens.len() }]);
    }
}

/// Nothing counted, nothing in the table.
pub proof fn lemma_tally_nothing()
    ensures
        tally(Seq::<Seq<char>>::empty()) == Seq::<Entry>::empty(),
        counts_fit(Seq::<Seq<char>>::empty()),
{
    assert(tally(Seq::<Seq<char>>::empty()) =~= Seq::<Entry>::empty());
}

} // verus!
