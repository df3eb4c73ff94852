use zipf::tokenize_input;

fn words(items: &[&str]) -> Vec<String> {
    items.iter().map(|s| s.to_string()).collect()
}

#[test]
fn splits_at_every_character_that_is_not_alphabetic() {
    assert_eq!(
        tokenize_input("The the the the quick quick quick brown brown fox."),
        words(&["The", "the", "the", "the", "quick", "quick", "quick", "brown", "brown", "fox"])
    );
}

#[test]
fn keeps_the_case_of_each_token() {
    assert_eq!(tokenize_input("The THE the"), words(&["The", "THE", "the"]));
}

#[test]
fn empty_text_has_no_tokens() {
    assert_eq!(tokenize_input(""), Vec::<String>::new());
}

#[test]
fn text_without_letters_has_no_tokens() {
    assert_eq!(tokenize_input("1234 5678 ... !? \t\n 42"), Vec::<String>::new());
    assert_eq!(tokenize_input(" "), Vec::<String>::new());
    assert_eq!(tokenize_input("💝 + 💝 = 2"), Vec::<String>::new());
}

#[test]
fn digits_and_punctuation_separate_words() {
    assert_eq!(tokenize_input("abc123def"), words(&["abc", "def"]));
    assert_eq!(tokenize_input("don't stop-me_now"), words(&["don", "t", "stop", "me", "now"]));
    assert_eq!(tokenize_input("a,b;c"), words(&["a", "b", "c"]));
}

#[test]
fn runs_of_separators_yield_no_empty_token() {
    assert_eq!(tokenize_input("  one \n\n two...three  "), words(&["one", "two", "three"]));
    assert_eq!(tokenize_input("...x"), words(&["x"]));
    assert_eq!(tokenize_input("x..."), words(&["x"]));
}

#[test]
fn a_single_word_is_one_token() {
    assert_eq!(tokenize_input("word"), words(&["word"]));
    assert_eq!(tokenize_input("x"), words(&["x"]));
}

#[test]
fn letters_of_any_script_belong_to_words() {
    assert_eq!(tokenize_input("naïve café"), words(&["naïve", "café"]));
    assert_eq!(tokenize_input("京都 and Ελλάδα"), words(&["京都", "and", "Ελλάδα"]));
    assert_eq!(tokenize_input("straße№7"), words(&["straße"]));
}

#[test]
fn tokens_come_in_the_order_of_the_text() {
    assert_eq!(tokenize_input("c b a b c"), words(&["c", "b", "a", "b", "c"]));
}

#[test]
fn tokenizing_twice_gives_the_same_tokens() {
    let text = "Again and again, and AGAIN.";
    assert_eq!(tokenize_input(text), tokenize_input(text));
}

#[test]
fn tokenizer_takes_the_class_of_each_character_from_the_caller() {
    let mut tokenizer = zipf::Tokenizer::new();
    for (c, letter) in [('a', true), ('b', true), (' ', false), ('1', false), ('c', true)] {
        tokenizer.feed(c, letter);
    }
    assert_eq!(tokenizer.finish(), words(&["ab", "c"]));

    let mut digits = zipf::Tokenizer::new();
    for c in "ab 12 c3".chars() {
        digits.feed(c, c.is_ascii_digit());
    }
    assert_eq!(digits.finish(), words(&["12", "3"]));
}

#[test]
fn tokenizer_fed_nothing_has_no_words() {
    assert_eq!(zipf::Tokenizer::new().finish(), Vec::<String>::new());
    let mut tokenizer = zipf::Tokenizer::new();
    tokenizer.feed('-', false);
    tokenizer.feed('-', false);
    assert_eq!(tokenizer.finish(), Vec::<String>::new());
}

#[test]
fn tokenizer_closes_the_open_run_at_the_end() {
    let mut tokenizer = zipf::Tokenizer::new();
    tokenizer.feed('x', true);
    tokenizer.feed('y', true);
    assert_eq!(tokenizer.finish(), words(&["xy"]));
}
