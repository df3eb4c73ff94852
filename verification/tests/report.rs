use zipf::{count_tokens, rank_and_report, render_table, report, tokenize_input, CliArgs, Verbosity};

fn list(items: &[(&str, u32)]) -> Vec<(String, u32)> {
    items.iter().map(|(w, c)| (w.to_string(), *c)).collect()
}

fn args(number: usize) -> CliArgs {
    CliArgs { verbose: Verbosity::Error, path: None, number }
}

const HEADER: &str = "No.  Word           Count\n";

#[test]
fn header_has_fixed_columns() {
    assert_eq!(render_table(&Vec::new(), 20), format!("{:<5}{:<15}{}\n", "No.", "Word", "Count"));
    assert_eq!(render_table(&Vec::new(), 20), HEADER);
}

#[test]
fn quick_brown_fox_top_three() {
    let text = "The the the the quick quick quick brown brown fox.";
    let expected = "No.  Word           Count\n\
                    1    the            4\n\
                    2    quick          3\n\
                    3    brown          2\n";
    assert_eq!(report(text, &args(3)).unwrap(), expected);
    let table = count_tokens(&tokenize_input(text)).unwrap();
    let (shown, rendered) = rank_and_report(&table, 3);
    assert_eq!(shown, list(&[("the", 4), ("quick", 3), ("brown", 2)]));
    assert_eq!(rendered, expected);
}

#[test]
fn empty_input_shows_the_header_only() {
    assert_eq!(report("", &args(20)).unwrap(), HEADER);
    let table = count_tokens(&tokenize_input("")).unwrap();
    let (shown, rendered) = rank_and_report(&table, 20);
    assert!(shown.is_empty());
    assert_eq!(rendered, HEADER);
}

#[test]
fn limit_zero_shows_the_header_only() {
    assert_eq!(report("some words, some more words", &args(0)).unwrap(), HEADER);
    assert_eq!(render_table(&list(&[("some", 2), ("words", 2), ("more", 1)]), 0), HEADER);
    let table = count_tokens(&tokenize_input("some words, some more words")).unwrap();
    let (shown, rendered) = rank_and_report(&table, 0);
    assert!(shown.is_empty());
    assert_eq!(rendered, HEADER);
}

#[test]
fn limit_beyond_the_list_shows_every_word_once() {
    let expected = "No.  Word           Count\n\
                    1    hello          2\n\
                    2    world          1\n";
    assert_eq!(report("hello world hello", &args(20)).unwrap(), expected);
    assert_eq!(report("hello world hello", &args(2)).unwrap(), expected);
    assert_eq!(report("hello world hello", &args(usize::MAX)).unwrap(), expected);
    let table = count_tokens(&tokenize_input("hello world hello")).unwrap();
    let (shown, _) = rank_and_report(&table, 20);
    assert_eq!(shown, list(&[("hello", 2), ("world", 1)]));
}

#[test]
fn rendering_twice_gives_the_same_text() {
    let ranked = list(&[("alpha", 12), ("beta", 7), ("gamma", 7), ("delta", 1)]);
    let first = render_table(&ranked, 3);
    let second = render_table(&ranked, 3);
    assert_eq!(first, second);
    assert_eq!(
        first,
        "No.  Word           Count\n\
         1    alpha          12\n\
         2    beta           7\n\
         3    gamma          7\n"
    );
}

#[test]
fn rows_are_formatted_like_the_standard_formatter() {
    let ranked = list(&[("the", 4), ("quick", 3), ("brown", 2), ("fox", 1)]);
    let mut expected = format!("{:<5}{:<15}{}\n", "No.", "Word", "Count");
    for (i, (word, count)) in ranked.iter().enumerate() {
        expected.push_str(&format!("{:<5}{:<15}{}\n", i + 1, word, count));
    }
    assert_eq!(render_table(&ranked, 20), expected);
}

#[test]
fn a_long_word_is_kept_whole() {
    let ranked = list(&[("internationalization", 1), ("fifteen_letters", 2), ("sixteen__letters", 3)]);
    assert_eq!(
        render_table(&ranked, 20),
        "No.  Word           Count\n\
         1    internationalization1\n\
         2    fifteen_letters2\n\
         3    sixteen__letters3\n"
    );
}

#[test]
fn width_counts_characters_not_bytes() {
    let ranked = list(&[("élan", 3), ("京都", 1)]);
    assert_eq!(
        render_table(&ranked, 20),
        "No.  Word           Count\n\
         1    élan           3\n\
         2    京都             1\n"
    );
    assert_eq!(render_table(&ranked, 20), {
        let mut s = String::from(HEADER);
        s.push_str(&format!("{:<5}{:<15}{}\n", 1, "élan", 3));
        s.push_str(&format!("{:<5}{:<15}{}\n", 2, "京都", 1));
        s
    });
}

#[test]
fn counts_are_written_in_decimal() {
    let ranked = list(&[("max", u32::MAX), ("round", 1000), ("ten", 10), ("nine", 9), ("none", 0)]);
    assert_eq!(
        render_table(&ranked, 5),
        "No.  Word           Count\n\
         1    max            4294967295\n\
         2    round          1000\n\
         3    ten            10\n\
         4    nine           9\n\
         5    none           0\n"
    );
}

#[test]
fn ranks_count_from_one_and_outgrow_their_column() {
    let ranked: Vec<(String, u32)> = (0..100_000).map(|_| ("w".to_string(), 1)).collect();
    let rendered = render_table(&ranked, 100_000);
    let lines: Vec<&str> = rendered.lines().collect();
    assert_eq!(lines.len(), 100_001);
    assert_eq!(lines[1], "1    w              1");
    assert_eq!(lines[10], "10   w              1");
    assert_eq!(lines[999], "999  w              1");
    assert_eq!(lines[9_999], "9999 w              1");
    assert_eq!(lines[10_000], "10000w              1");
    assert_eq!(lines[100_000], "100000w              1");
    assert!(rendered.ends_with('\n'));
}

#[test]
fn the_limit_cuts_the_list_not_the_ranking() {
    let text = "d c c b b b a a a a";
    assert_eq!(
        report(text, &args(2)).unwrap(),
        "No.  Word           Count\n\
         1    a              4\n\
         2    b              3\n"
    );
    let table = count_tokens(&tokenize_input(text)).unwrap();
    let (shown, _) = rank_and_report(&table, 2);
    assert_eq!(shown, list(&[("a", 4), ("b", 3)]));
}

#[test]
fn default_number_of_rows_is_twenty() {
    assert_eq!(zipf::args::DEFAULT_NUMBER, 20);
    let text = "a b c d e f g h i j k l m n o p q r s t u v w x y z";
    let rendered = report(text, &args(zipf::args::DEFAULT_NUMBER)).unwrap();
    assert_eq!(rendered.lines().count(), 21);
    assert_eq!(rendered.lines().last(), Some("20   t              1"));
}

#[test]
fn progress_is_reported_from_info_on() {
    assert!(!Verbosity::Off.reports_progress());
    assert!(!Verbosity::Error.reports_progress());
    assert!(!Verbosity::Warn.reports_progress());
    assert!(Verbosity::Info.reports_progress());
    assert!(Verbosity::Debug.reports_progress());
    assert!(Verbosity::Trace.reports_progress());
}

#[test]
fn verbosity_does_not_change_the_report() {
    let text = "to be or not to be";
    let quiet = CliArgs { verbose: Verbosity::Off, path: None, number: 20 };
    let loud = CliArgs {
        verbose: Verbosity::Trace,
        path: Some(std::path::PathBuf::from("input.txt")),
        number: 20,
    };
    assert_eq!(report(text, &quiet), report(text, &loud));
    assert_eq!(
        report(text, &quiet).unwrap(),
        "No.  Word           Count\n\
         1    to             2\n\
         2    be             2\n\
         3    or             1\n\
         4    not            1\n"
    );
}
