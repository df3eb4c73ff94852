use zipf::{count_tokens, count_words, tokenize_input, FrequencyTable};

fn list(items: &[(&str, u32)]) -> Vec<(String, u32)> {
    items.iter().map(|(w, c)| (w.to_string(), *c)).collect()
}

fn sum(ranked: &[(String, u32)]) -> u64 {
    ranked.iter().map(|e| e.1 as u64).sum()
}

#[test]
fn counts_the_quick_brown_fox() {
    let ranked = count_words("The the the the quick quick quick brown brown fox.").unwrap();
    assert_eq!(ranked, list(&[("the", 4), ("quick", 3), ("brown", 2), ("fox", 1)]));
}

#[test]
fn case_does_not_tell_words_apart() {
    let tokens = tokenize_input("The THE the");
    assert_eq!(tokens.len(), 3);
    let table = count_tokens(&tokens).unwrap();
    assert_eq!(table.len(), 1);
    assert_eq!(table.ranked(), list(&[("the", 3)]));
    assert_eq!(count_words("The THE the").unwrap(), list(&[("the", 3)]));
}

#[test]
fn lowercase_goes_beyond_ascii() {
    assert_eq!(count_words("Élan élan ÉLAN").unwrap(), list(&[("élan", 3)]));
    assert_eq!(count_words("ΟΔΟΣ οδος").unwrap(), list(&[("οδος", 2)]));
}

#[test]
fn text_without_letters_gives_an_empty_table() {
    let tokens = tokenize_input("12 + 30 = 42!");
    assert!(tokens.is_empty());
    let table = count_tokens(&tokens).unwrap();
    assert_eq!(table.len(), 0);
    assert_eq!(table.ranked(), Vec::<(String, u32)>::new());
    assert_eq!(count_words("12 + 30 = 42!").unwrap(), Vec::<(String, u32)>::new());
    assert_eq!(count_words("").unwrap(), Vec::<(String, u32)>::new());
}

#[test]
fn counts_add_up_to_the_number_of_tokens() {
    let text = "It was the best of times, it was the worst of times, it was the age of wisdom";
    let tokens = tokenize_input(text);
    assert_eq!(tokens.len(), 18);
    let ranked = count_words(text).unwrap();
    assert_eq!(sum(&ranked), 18);
    let table = count_tokens(&tokens).unwrap();
    assert_eq!(sum(&table.ranked()), tokens.len() as u64);
}

#[test]
fn ranked_list_never_rises() {
    let text = "a b c a b a d e e e e f f g a";
    let ranked = count_words(text).unwrap();
    for pair in ranked.windows(2) {
        assert!(pair[0].1 >= pair[1].1);
    }
    assert_eq!(
        ranked,
        list(&[("a", 4), ("e", 4), ("b", 2), ("f", 2), ("c", 1), ("d", 1), ("g", 1)])
    );
}

#[test]
fn equal_counts_keep_the_order_of_first_appearance() {
    assert_eq!(count_words("b a b a c").unwrap(), list(&[("b", 2), ("a", 2), ("c", 1)]));
    assert_eq!(
        count_words("zeta Alpha mid alpha ZETA").unwrap(),
        list(&[("zeta", 2), ("alpha", 2), ("mid", 1)])
    );
    assert_eq!(
        count_words("one two three four five").unwrap(),
        list(&[("one", 1), ("two", 1), ("three", 1), ("four", 1), ("five", 1)])
    );
}

#[test]
fn each_word_has_one_entry() {
    let ranked = count_words("x y x y x y z").unwrap();
    assert_eq!(ranked.len(), 3);
    assert_eq!(ranked, list(&[("x", 3), ("y", 3), ("z", 1)]));
}

#[test]
fn a_rising_sequence_of_counts_is_turned_around() {
    let mut text = String::new();
    for (i, w) in ["a", "b", "c", "d", "e", "f", "g", "h", "i"].iter().enumerate() {
        for _ in 0..=i {
            text.push_str(w);
            text.push(' ');
        }
    }
    let ranked = count_words(&text).unwrap();
    assert_eq!(
        ranked,
        list(&[
            ("i", 9),
            ("h", 8),
            ("g", 7),
            ("f", 6),
            ("e", 5),
            ("d", 4),
            ("c", 3),
            ("b", 2),
            ("a", 1)
        ])
    );
    assert_eq!(sum(&ranked), 45);
}

#[test]
fn table_grows_word_by_word() {
    let mut table = FrequencyTable::new();
    assert_eq!(table.len(), 0);
    assert_eq!(table.record("Fox"), Ok(()));
    assert_eq!(table.len(), 1);
    assert_eq!(table.record("hen"), Ok(()));
    assert_eq!(table.record("FOX"), Ok(()));
    assert_eq!(table.len(), 2);
    assert_eq!(table.ranked(), list(&[("fox", 2), ("hen", 1)]));
    assert_eq!(table.record("hen"), Ok(()));
    assert_eq!(table.record("hen"), Ok(()));
    assert_eq!(table.ranked(), list(&[("hen", 3), ("fox", 2)]));
}

#[test]
fn add_takes_the_key_as_it_is() {
    let mut table = FrequencyTable::new();
    assert_eq!(table.add("Fox".to_string()), Ok(()));
    assert_eq!(table.add("fox".to_string()), Ok(()));
    assert_eq!(table.add("Fox".to_string()), Ok(()));
    assert_eq!(table.len(), 2);
    assert_eq!(table.ranked(), list(&[("Fox", 2), ("fox", 1)]));
}

#[test]
fn word_by_word_and_all_at_once_agree() {
    let text = "Peter Piper picked a peck of pickled peppers; a peck of pickled peppers Peter Piper picked";
    let tokens = tokenize_input(text);
    let mut table = FrequencyTable::new();
    for token in &tokens {
        assert_eq!(table.record(token), Ok(()));
    }
    assert_eq!(table.ranked(), count_tokens(&tokens).unwrap().ranked());
    assert_eq!(table.ranked(), count_words(text).unwrap());
}

#[test]
fn many_distinct_words_are_ranked() {
    let mut text = String::new();
    let mut expected: Vec<(String, u32)> = Vec::new();
    for i in 0..300u32 {
        let mut word = String::new();
        let mut n = i;
        loop {
            word.push((b'a' + (n % 26) as u8) as char);
            n /= 26;
            if n == 0 {
                break;
            }
        }
        let times = i % 7 + 1;
        for _ in 0..times {
            text.push_str(&word);
            text.push('\n');
        }
        expected.push((word, times));
    }
    expected.sort_by(|a, b| b.1.cmp(&a.1));
    assert_eq!(count_words(&text).unwrap(), expected);
}

#[test]
fn positions_are_ranked_by_falling_count() {
    assert_eq!(zipf::rank_positions(&vec![]), Vec::<usize>::new());
    assert_eq!(zipf::rank_positions(&vec![7]), vec![0]);
    assert_eq!(zipf::rank_positions(&vec![1, 2, 3]), vec![2, 1, 0]);
    assert_eq!(zipf::rank_positions(&vec![3, 1, 2, 1, 3, 0]), vec![0, 4, 2, 1, 3, 5]);
    assert_eq!(zipf::rank_positions(&vec![5, 5, 5, 5]), vec![0, 1, 2, 3]);
    assert_eq!(zipf::rank_positions(&vec![0, u32::MAX, 0, u32::MAX]), vec![1, 3, 0, 2]);
}

#[test]
fn ranking_agrees_with_a_stable_sort() {
    let counts: Vec<u32> = (0..1000u32).map(|i| (i * 7919) % 13).collect();
    let mut expected: Vec<usize> = (0..counts.len()).collect();
    expected.sort_by(|a, b| counts[*b].cmp(&counts[*a]));
    assert_eq!(zipf::rank_positions(&counts), expected);
}

#[test]
fn overflow_has_a_message() {
    assert_eq!(
        zipf::CountError::Overflow.message(),
        "a word occurs more often than a 32-bit count can tell"
    );
}

#[test]
fn counts_do_not_depend_on_the_order_of_the_words() {
    let mut one = count_words("a b b c c c").unwrap();
    let mut other = count_words("c b c a c b").unwrap();
    assert_eq!(one, list(&[("c", 3), ("b", 2), ("a", 1)]));
    assert_eq!(other, list(&[("c", 3), ("b", 2), ("a", 1)]));
    one.sort();
    other.sort();
    assert_eq!(one, other);
}
