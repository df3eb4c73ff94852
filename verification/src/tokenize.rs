//! Splitting a text into words: the maximal runs of alphabetic characters.

use vstd::prelude::*;
use crate::unicode::alphabetic;

verus! {

/// The length of the longest run of alphabetic characters of `text` that
/// starts at position `from`; zero where `from` is no position of an
/// alphabetic character.
pub open spec fn run_len(text: Seq<char>, from: int) -> nat
    decreases text.len() - from,
{
    if 0 <= from < text.len() && alphabetic(text[from]) {
        1 + run_len(text, from + 1)
    } else {
        0
    }
}

/// The words of `text` that begin at position `from` or later, in the order
/// in which they appear, given that no word straddles `from`.
pub open spec fn tokens_from(text: Seq<char>, from: int) -> Seq<Seq<char>>
    decreases text.len() - from,
    via tokens_from_terminates
{
    if from < 0 || from >= text.len() {
        Seq::empty()
    } else if !alphabetic(text[from]) {
        tokens_from(text, from + 1)
    } else {
        let n = run_len(text, from);
        seq![text.subrange(from, from + n)] + tokens_from(text, from + n)
    }
}

#[via_fn]
proof fn tokens_from_terminates(text: Seq<char>, from: int) {
    lemma_run_within(text, from);
}

/// A run ends within the text, and is not empty where it starts at an
/// alphabetic character.
pub proof fn lemma_run_within(text: Seq<char>, from: int)
    ensures
        0 <= from <= text.len() ==> from + run_len(text, from) <= text.len(),
        0 <= from < text.len() && alphabetic(text[from]) ==> run_len(text, from) >= 1,
    decreases text.len() - from,
{
    if 0 <= from < text.len() && alphabetic(text[from]) {
        lemma_run_within(text, from + 1);
    }
}

/// The words of `text`: its maximal runs of alphabetic characters, from left
/// to right. Every other character separates words and belongs to none.
pub open spec fn tokens_of(text: Seq<char>) -> Seq<Seq<char>> {
    tokens_from(text, 0)
}

/// A stretch of alphabetic characters that ends at a separator, or at the end
/// of the text, is a whole run.
pub proof fn lemma_run_between(text: Seq<char>, start: int, end: int)
    requires
        0 <= start <= end <= text.len(),
        forall|k: int| start <= k < end ==> alphabetic(#[trigger] text[k]),
        end < text.len() ==> !alphabetic(text[end]),
    ensures
        run_len(text, start) == end - start,
    decreases end - start,
{
    if start < end {
        lemma_run_between(text, start + 1, end);
    }
}

/// Whether `s` is a word: it holds alphabetic characters only, and at least
/// one.
pub open spec fn is_word(s: Seq<char>) -> bool {
    s.len() >= 1 && forall|k: int| 0 <= k < s.len() ==> alphabetic(#[trigger] s[k])
}

/// Every token that `tokens_from` finds is a word.
pub proof fn lemma_tokens_from_are_words(text: Seq<char>, from: int)
    requires
        0 <= from,
    ensures
        forall|i: int|
            0 <= i < tokens_from(text, from).len() ==> is_word(
                #[trigger] tokens_from(text, from)[i],
            ),
    decreases text.len() - from,
{
    if from < text.len() {
        if !alphabetic(text[from]) {
            lemma_tokens_from_are_words(text, from + 1);
            assert(tokens_from(text, from) == tokens_from(text, from + 1));
        } else {
            lemma_run_within(text, from);
            let n = run_len(text, from);
            let first = text.subrange(from, from + n);
            let rest = tokens_from(text, from + n);
            lemma_run_is_alphabetic(text, from);
            lemma_tokens_from_are_words(text, from + n);
            assert(tokens_from(text, from) == seq![first] + rest);
            assert(is_word(first)) by {
                assert forall|k: int| 0 <= k < first.len() implies alphabetic(
                    #[trigger] first[k],
                ) by {
                    assert(first[k] == text[from + k]);
                }
            }
            assert forall|i: int| 0 <= i < tokens_from(text, from).len() implies is_word(
                #[trigger] tokens_from(text, from)[i],
            ) by {
                if i > 0 {
                    assert(tokens_from(text, from)[i] == rest[i - 1]);
                }
            }
        }
    }
}

/// Every character of a run is alphabetic.
pub proof fn lemma_run_is_alphabetic(text: Seq<char>, from: int)
    ensures
        forall|k: int| from <= k < from + run_len(text, from) ==> alphabetic(#[trigger] text[k]),
    decreases text.len() - from,
{
    if 0 <= from < text.len() && alphabetic(text[from]) {
        lemma_run_is_alphabetic(text, from + 1);
    }
}

/// Every token is a word: it holds alphabetic characters only, and at least
/// one.
pub proof fn lemma_tokens_are_words(text: Seq<char>)
    ensures
        forall|i: int| 0 <= i < tokens_of(text).len() ==> is_word(#[trigger] tokens_of(text)[i]),
{
    lemma_tokens_from_are_words(text, 0);
}

/// A text without an alphabetic character has no tokens.
pub proof fn lemma_no_letters_no_tokens(text: Seq<char>)
    requires
        forall|k: int| 0 <= k < text.len() ==> !alphabetic(#[trigger] text[k]),
    ensures
        tokens_of(text) == Seq::<Seq<char>>::empty(),
{
    lemma_no_letters_from(text, 0);
}

/// Behind no place of a text without an alphabetic character is there a
/// token.
proof fn lemma_no_letters_from(text: Seq<char>, from: int)
    requires
        0 <= from,
        forall|k: int| 0 <= k < text.len() ==> !alphabetic(#[trigger] text[k]),
    ensures
        tokens_from(text, from) == Seq::<Seq<char>>::empty(),
    decreases text.len() - from,
{
    if from < text.len() {
        lemma_no_letters_from(text, from + 1);
    }
}

/// A word by itself is its own single token.
pub proof fn lemma_one_word(word: Seq<char>)
    requires
        is_word(word),
    ensures
        tokens_of(word) == seq![word],
{
    lemma_run_between(word, 0, word.len() as int);
    assert(word.subrange(0, word.len() as int) =~= word);
    assert(tokens_from(word, word.len() as int) == Seq::<Seq<char>>::empty());
    assert(seq![word] + Seq::<Seq<char>>::empty() =~= seq![word]);
}

/// A run does not depend on what stands before it.
proof fn lemma_run_shift(before: Seq<char>, rest: Seq<char>, from: int)
    requires
        0 <= from,
    ensures
        run_len(before + rest, before.len() + from) == run_len(rest, from),
    decreases rest.len() - from,
{
    let text = before + rest;
    if from < rest.len() {
        assert(text[before.len() + from] == rest[from]);
        if alphabetic(rest[from]) {
            lemma_run_shift(before, rest, from + 1);
        }
    }
}

/// The tokens behind a place do not depend on what stands before it.
proof fn lemma_tokens_shift(before: Seq<char>, rest: Seq<char>, from: int)
    requires
        0 <= from,
    ensures
        tokens_from(before + rest, before.len() + from) == tokens_from(rest, from),
    decreases rest.len() - from,
{
    let text = before + rest;
    if from < rest.len() {
        assert(text[before.len() + from] == rest[from]);
        if !alphabetic(rest[from]) {
            lemma_tokens_shift(before, rest, from + 1);
        } else {
            let n = run_len(rest, from);
            lemma_run_shift(before, rest, from);
            lemma_run_within(rest, from);
            lemma_tokens_shift(before, rest, from + n);
            assert(text.subrange(before.len() + from, before.len() + from + n) =~= rest.subrange(
                from,
                from + n,
            ));
        }
    }
}

/// A run ends at a separator at the latest.
proof fn lemma_run_stops(left: Seq<char>, sep: char, right: Seq<char>, from: int)
    requires
        !alphabetic(sep),
        0 <= from <= left.len(),
    ensures
        run_len(left + seq![sep] + right, from) == run_len(left, from),
    decreases left.len() - from,
{
    let text = left + seq![sep] + right;
    if from < left.len() {
        assert(text[from] == left[from]);
        if alphabetic(left[from]) {
            lemma_run_stops(left, sep, right, from + 1);
        }
    } else {
        assert(text[from] == sep);
    }
}

/// From a place before a separator on, the tokens are those that end before
/// the separator, then all those behind it.
proof fn lemma_tokens_before_separator(left: Seq<char>, sep: char, right: Seq<char>, from: int)
    requires
        !alphabetic(sep),
        0 <= from <= left.len(),
    ensures
        tokens_from(left + seq![sep] + right, from) == tokens_from(left, from) + tokens_of(right),
    decreases left.len() - from,
{
    let text = left + seq![sep] + right;
    if from < left.len() {
        assert(text[from] == left[from]);
        if !alphabetic(left[from]) {
            lemma_tokens_before_separator(left, sep, right, from + 1);
        } else {
            let n = run_len(left, from);
            lemma_run_stops(left, sep, right, from);
            lemma_run_within(left, from);
            lemma_tokens_before_separator(left, sep, right, from + n);
            assert(text.subrange(from, from + n) =~= left.subrange(from, from + n));
            assert(seq![left.subrange(from, from + n)] + (tokens_from(left, from + n) + tokens_of(
                right,
            )) =~= (seq![left.subrange(from, from + n)] + tokens_from(left, from + n)) + tokens_of(
                right,
            ));
        }
    } else {
        assert(text[from] == sep);
        lemma_tokens_shift(left + seq![sep], right, 0);
        assert(tokens_from(left, from) + tokens_of(right) =~= tokens_of(right));
    }
}

/// A separator parts the text: the tokens of the whole are the tokens of what
/// stands before the separator, then the tokens of what stands behind it.
pub proof fn lemma_separator_splits(left: Seq<char>, sep: char, right: Seq<char>)
    requires
        !alphabetic(sep),
    ensures
        tokens_of(left + seq![sep] + right) == tokens_of(left) + tokens_of(right),
{
    lemma_tokens_before_separator(left, sep, right, 0);
}

/// The words complete once the open run `run` is closed: `done`, and behind
/// it the run, unless it is empty.
pub open spec fn with_run(done: Seq<Seq<char>>, run: Seq<char>) -> Seq<Seq<char>> {
    if run.len() > 0 {
        done.push(run)
    } else {
        done
    }
}

/// A tokenizer at work, fed one character at a time: the words that are
/// complete, and the run of letters that is still open.
pub struct Tokenizer {
    tokens: Vec<String>,
    current: String,
}

impl Tokenizer {
    /// The words that are complete, in the order in which they were fed.
    pub closed spec fn done(&self) -> Seq<Seq<char>> {
        self.tokens.deep_view()
    }

    /// The letters fed since the last separator.
    pub closed spec fn pending(&self) -> Seq<char> {
        self.current@
    }

    /// A tokenizer that has been fed nothing.
    pub fn new() -> (fresh: Self)
        ensures
            fresh.done() == Seq::<Seq<char>>::empty(),
            fresh.pending() == Seq::<char>::empty(),
    {
        let fresh = Tokenizer { tokens: Vec::new(), current: String::new() };
        assert(fresh.done() =~= Seq::<Seq<char>>::empty());
        fresh
    }

    /// Takes the next character `c` of the text; `letter` says whether it
    /// belongs to a word. A letter lengthens the open run. Any other character
    /// closes the run, which is then a complete word unless it is empty, and
    /// is itself dropped.
    pub fn feed(&mut self, c: char, letter: bool)
        ensures
            letter ==> {
                &&& final(self).done() == old(self).done()
                &&& final(self).pending() == old(self).pending().push(c)
            },
            !letter ==> {
                &&& final(self).done() == with_run(old(self).done(), old(self).pending())
                &&& final(self).pending() == Seq::<char>::empty()
            },
    {
        if letter {
            self.current.push(c);
        } else if !self.current.as_str().is_empty() {
            let mut word = String::new();
            std::mem::swap(&mut self.current, &mut word);
            self.tokens.push(word);
            assert(self.done() =~= old(self).done().push(old(self).pending()));
        }
    }

    /// Ends the text: the open run is closed, and the words are handed out.
    pub fn finish(self) -> (tokens: Vec<String>)
        ensures
            tokens.deep_view() == with_run(self.done(), self.pending()),
    {
        let mut tokens = self.tokens;
        if !self.current.as_str().is_empty() {
            tokens.push(self.current);
            assert(tokens.deep_view() =~= self.done().push(self.pending()));
        }
        tokens
    }
}

/// Splits `text` into its words: the maximal runs of alphabetic characters,
/// in the order in which they appear. Every other character (digits,
/// punctuation, white space, symbols) only separates words.
pub fn tokenize_input(text: &str) -> (tokens: Vec<String>)
    ensures
        tokens.deep_view() == tokens_of(text@),
{
    let mut tokenizer = Tokenizer::new();
    let ghost mut start: int = 0;
    for c in it: text.chars()
        invariant
            it.seq() == text@,
            0 <= start <= it.index(),
            tokenizer.pending() == text@.subrange(start, it.index()),
            forall|k: int| start <= k < it.index() ==> alphabetic(#[trigger] text@[k]),
            tokenizer.done() + tokens_from(text@, start) == tokens_of(text@),
    {
        let letter = c.is_alphabetic();
        let ghost here = it.index();
        let ghost done = tokenizer.done();
        tokenizer.feed(c, letter);
        proof {
            if !letter {
                let word = text@.subrange(start, here);
                let rest = tokens_from(text@, here + 1);
                lemma_run_between(text@, start, here);
                assert(tokens_from(text@, here) == rest);
                if word.len() > 0 {
                    assert(tokens_from(text@, start) == seq![word] + rest);
                    assert(done.push(word) + rest =~= done + (seq![word] + rest));
                }
                start = here + 1;
            }
        }
    }
    proof {
        let end = text@.len() as int;
        let word = text@.subrange(start, end);
        let none = Seq::<Seq<char>>::empty();
        lemma_run_between(text@, start, end);
        assert(tokens_from(text@, end) == none);
        if word.len() > 0 {
            assert(tokens_from(text@, start) == seq![word] + none);
            assert(tokenizer.done().push(word) =~= tokenizer.done() + (seq![word] + none));
        } else {
            assert(tokenizer.done() + none =~= tokenizer.done());
        }
    }
    tokenizer.finish()
}

} // verus!
