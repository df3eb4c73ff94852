//! From a text to its report: tokenize, count, rank, render.

use vstd::prelude::*;
use crate::args::CliArgs;
use crate::frequency::{
    counts_fit, entries_of, lemma_tally_nothing, lemma_tally_total, lowered, tally, total, Entry,
};
use crate::table::{count_tokens, CountError, FrequencyTable};
use crate::rank::{lemma_ranking_same_entries, lemma_ranking_total, ranking};
use crate::render::{render_table, shown, table_text};
use crate::tokenize::{lemma_no_letters_no_tokens, tokenize_input, tokens_of};
use crate::unicode::alphabetic;

verus! {

/// The words of `text` as they are counted: its tokens, in lowercase.
pub open spec fn counted_words(text: Seq<char>) -> Seq<Seq<char>> {
    lowered(tokens_of(text))
}

/// The ranked list of the words of `text`: every distinct word, in
/// lowercase, with the number of its occurrences, sorted by falling count;
/// words that occur equally often stand in the order in which they first
/// occur in the text.
pub open spec fn ranked_words(text: Seq<char>) -> Seq<Entry> {
    ranking(tally(counted_words(text)))
}

/// A text without an alphabetic character has no tokens, and its frequency
/// table and its ranked list are empty.
pub proof fn lemma_no_letters_nothing_counted(text: Seq<char>)
    requires
        forall|k: int| 0 <= k < text.len() ==> !alphabetic(#[trigger] text[k]),
    ensures
        tokens_of(text) == Seq::<Seq<char>>::empty(),
        counts_fit(counted_words(text)),
        tally(counted_words(text)) == Seq::<Entry>::empty(),
        ranked_words(text) == Seq::<Entry>::empty(),
{
    lemma_no_letters_no_tokens(text);
    lemma_tally_nothing();
    assert(counted_words(text) =~= Seq::<Seq<char>>::empty());
    lemma_ranking_same_entries(Seq::<Entry>::empty());
    assert(ranked_words(text) =~= Seq::<Entry>::empty());
}

/// Counts the words of `text` without regard to case and ranks them by
/// falling count. The counts of the list add up to the number of words in the
/// text. Counting fails where one word occurs more often than a 32-bit count
/// can tell, and only there.
pub fn count_words(text: &str) -> (counted: Result<Vec<(String, u32)>, CountError>)
    ensures
        counted is Ok <==> counts_fit(counted_words(text@)),
        counted matches Ok(list) ==> {
            &&& entries_of(list@) == ranked_words(text@)
            &&& total(entries_of(list@)) == tokens_of(text@).len()
            &&& forall|i: int, j: int| 0 <= i < j < list@.len() ==> list@[i].1 >= list@[j].1
        },
{
    let tokens = tokenize_input(text);
    match count_tokens(&tokens) {
        Ok(table) => {
            let list = table.ranked();
            proof {
                let words = counted_words(text@);
                lemma_tally_total(words);
                lemma_ranking_total(tally(words));
            }
            Ok(list)
        },
        Err(e) => Err(e),
    }
}

/// Ranks the words of `table` and renders the report: the first `limit`
/// entries of the ranked list, or all where there are fewer, and the table
/// that shows them.
pub fn rank_and_report(table: &FrequencyTable, limit: usize) -> (out: (Vec<(String, u32)>, String))
    requires
        table.wf(),
    ensures
        entries_of(out.0@) == ranking(table@).take(shown(table@.len(), limit as nat) as int),
        out.1@ == table_text(ranking(table@), limit as nat),
{
    let mut list = table.ranked();
    let text = render_table(&list, limit);
    proof {
        lemma_ranking_same_entries(table@);
    }
    let ghost all = list@;
    list.truncate(limit);
    proof {
        let rows = shown(table@.len(), limit as nat) as int;
        assert(list@ =~= all.take(rows));
        assert(entries_of(list@) =~= entries_of(all).take(rows));
    }
    (list, text)
}

/// The report for `text` under `args`: its words counted, ranked, and the
/// first `args.number` of them rendered as a table.
pub fn report(text: &str, args: &CliArgs) -> (out: Result<String, CountError>)
    ensures
        out is Ok <==> counts_fit(counted_words(text@)),
        out matches Ok(table) ==> table@ == table_text(ranked_words(text@), args.number as nat),
{
    match count_words(text) {
        Ok(list) => Ok(render_table(&list, args.number)),
        Err(e) => Err(e),
    }
}

} // verus!
