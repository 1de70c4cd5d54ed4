use crossword::text::split_lines;
use crossword::word::Word;
use crossword::words::{WordListError, Words};

fn word(text: &str) -> Word {
    let mut s = String::from(text);
    Word::new(&mut s).unwrap()
}

fn spelled(bucket: Option<&Vec<Word>>) -> Vec<String> {
    match bucket {
        Some(words) => words.iter().map(|w| w.to_string()).collect(),
        None => Vec::new(),
    }
}

#[test]
fn lines_of_text() {
    let rows: Vec<String> = split_lines("ab\ncd").iter().map(|r| r.iter().collect()).collect();
    assert_eq!(rows, vec!["ab", "cd"]);
}

#[test]
fn lines_end_at_line_feed_or_carriage_return_line_feed() {
    let lines = |text: &str| -> Vec<String> {
        split_lines(text).iter().map(|r| r.iter().collect()).collect()
    };
    assert_eq!(lines(""), Vec::<String>::new());
    assert_eq!(lines("\n"), vec![""]);
    assert_eq!(lines("a\n"), vec!["a"]);
    assert_eq!(lines("a\n\nb"), vec!["a", "", "b"]);
    assert_eq!(lines("a\r\nb\r\n"), vec!["a", "b"]);
    assert_eq!(lines("a\rb"), vec!["a\rb"]);
    assert_eq!(lines("a\r"), vec!["a\r"]);
    assert_eq!(lines("a\r\r\n"), vec!["a\r"]);
    for text in ["", "\n", "x", "x\n", "x\ny", "x\r\ny\n", "\r\n\r\n", "a\rb\n\n", "\r"] {
        let expected: Vec<String> = text.lines().map(String::from).collect();
        assert_eq!(lines(text), expected);
    }
}

#[test]
fn words_are_kept_by_length() {
    let words = Words::new(String::from("cat\nby\ndog\na\nat")).unwrap();
    assert_eq!(words.longest_size(), 3);
    assert_eq!(spelled(words.words_with_length(1)), vec!["A"]);
    assert_eq!(spelled(words.words_with_length(2)), vec!["AT", "BY"]);
    assert_eq!(spelled(words.words_with_length(3)), vec!["CAT", "DOG"]);
}

#[test]
fn words_of_a_length_without_words_are_absent() {
    let words = Words::new(String::from("cat\na")).unwrap();
    assert!(words.words_with_length(0).is_none());
    assert!(words.words_with_length(2).is_none());
    assert!(words.words_with_length(4).is_none());
    assert!(words.words_with_length(100).is_none());
    assert!(words.words_with_length(3).is_some());
}

#[test]
fn a_word_that_comes_twice_is_kept_once() {
    let words = Words::new(String::from("at\nAT\nas\nAt")).unwrap();
    assert_eq!(spelled(words.words_with_length(2)), vec!["AS", "AT"]);
}

#[test]
fn empty_word_list() {
    let words = Words::new(String::new()).unwrap();
    assert_eq!(words.longest_size(), 0);
    assert!(words.words_with_length(0).is_none());
    assert!(words.words_with_length(1).is_none());
}

#[test]
fn word_list_with_a_line_that_is_no_word() {
    assert_eq!(Words::new(String::from("cat\nd0g\nb-d")).err(), Some(WordListError { line: 1 }));
    assert_eq!(Words::new(String::from("c t")).err(), Some(WordListError { line: 0 }));
    assert_eq!(Words::new(String::from("a\r\nb\r")).err(), Some(WordListError { line: 1 }));
}

#[test]
fn reserve_takes_the_word_at_its_place() {
    let mut words = Words::new(String::from("ox\nat\nas")).unwrap();
    let taken = words.reserve(2, 1).unwrap();
    assert_eq!(taken.to_string(), "AT");
    assert_eq!(spelled(words.words_with_length(2)), vec!["AS", "OX"]);
    assert!(words.reserve(2, 2).is_none());
    assert!(words.reserve(3, 0).is_none());
    assert_eq!(spelled(words.words_with_length(2)), vec!["AS", "OX"]);
}

#[test]
fn return_word_puts_the_word_back_in_order() {
    let mut words = Words::new(String::from("ox\nat\nas")).unwrap();
    let taken = words.reserve(2, 0).unwrap();
    assert_eq!(taken.to_string(), "AS");
    words.return_word(taken);
    assert_eq!(spelled(words.words_with_length(2)), vec!["AS", "AT", "OX"]);
    words.return_word(word("AT"));
    assert_eq!(spelled(words.words_with_length(2)), vec!["AS", "AT", "OX"]);
}

#[test]
fn reserving_the_last_word_empties_the_bucket() {
    let mut words = Words::new(String::from("ox")).unwrap();
    assert!(words.reserve(2, 0).is_some());
    assert!(words.words_with_length(2).is_none());
    assert!(words.words_with_length_mut(2).is_none());
    assert_eq!(words.longest_size(), 2);
    words.return_word(word("ox"));
    assert_eq!(spelled(words.words_with_length(2)), vec!["OX"]);
}

#[test]
fn words_with_length_mut_hands_out_the_bucket() {
    let mut words = Words::new(String::from("ox\nat")).unwrap();
    {
        let bucket = words.words_with_length_mut(2).unwrap();
        assert_eq!(bucket.len(), 2);
        bucket.remove(0);
    }
    assert_eq!(spelled(words.words_with_length(2)), vec!["OX"]);
    assert!(words.words_with_length_mut(5).is_none());
}

#[test]
fn inventory_is_shown_by_length() {
    let words = Words::new(String::from("cat\nby\ndog\na\nat")).unwrap();
    assert_eq!(words.to_string(), "  1 --> {A}\n  2 --> {AT, BY}\n  3 --> {CAT, DOG}\n");
    assert_eq!(Words::new(String::new()).unwrap().to_string(), "");
}

#[test]
fn inventory_is_shown_with_lengths_of_two_digits() {
    let mut words = Words::new(String::from("crosswords\nox")).unwrap();
    assert_eq!(words.to_string(), "  2 --> {OX}\n 10 --> {CROSSWORDS}\n");
    assert!(words.reserve(2, 0).is_some());
    assert_eq!(words.to_string(), " 10 --> {CROSSWORDS}\n");
    assert_eq!(format!("{:3} --> {{{}}}\n", 10, "CROSSWORDS"), words.to_string());
}

#[test]
fn an_empty_line_is_the_empty_word() {
    let words = Words::new(String::from("a\n\nb")).unwrap();
    assert_eq!(spelled(words.words_with_length(0)), vec![""]);
    assert_eq!(spelled(words.words_with_length(1)), vec!["A", "B"]);
    assert_eq!(words.to_string(), "  0 --> {}\n  1 --> {A, B}\n");
}
