use crossword::character::Character;
use crossword::word::Word;

fn word(text: &str) -> Word {
    let mut s = String::from(text);
    Word::new(&mut s).unwrap()
}

#[test]
fn word_new_reads_capitals() {
    let mut text = String::from("CAT");
    let w = Word::new(&mut text).unwrap();
    assert_eq!(w.len(), 3);
    assert_eq!(w.get(0).to_char(), 'C');
    assert_eq!(w.get(1).to_char(), 'A');
    assert_eq!(w.get(2).to_char(), 'T');
    assert_eq!(text, "CAT");
}

#[test]
fn word_new_turns_the_text_into_capitals() {
    let mut text = String::from("cAt");
    let w = Word::new(&mut text).unwrap();
    assert_eq!(text, "CAT");
    assert_eq!(w.to_string(), "CAT");
    assert!(w.equals(&word("CAT")));
}

#[test]
fn word_new_refuses_what_is_no_letter() {
    let mut text = String::from("ca-t");
    assert!(Word::new(&mut text).is_none());
    assert_eq!(text, "CA-T");
    let mut digits = String::from("A1");
    assert!(Word::new(&mut digits).is_none());
    let mut accent = String::from("café");
    assert!(Word::new(&mut accent).is_none());
    assert_eq!(accent, "CAFé");
}

#[test]
fn empty_word() {
    let mut text = String::new();
    let w = Word::new(&mut text).unwrap();
    assert_eq!(w.len(), 0);
    assert_eq!(w.to_string(), "");
}

#[test]
fn word_from_chars() {
    let w = Word::from_chars(&vec!['d', 'O', 'g']).unwrap();
    assert_eq!(w.to_string(), "DOG");
    assert!(Word::from_chars(&vec!['d', '_', 'g']).is_none());
}

#[test]
fn word_from_letters() {
    let letters = vec![Character::from_char('O').unwrap(), Character::from_char('X').unwrap()];
    let w = Word::from_letters(letters);
    assert_eq!(w.to_string(), "OX");
    assert_eq!(w, word("ox"));
}

#[test]
fn word_equality() {
    assert!(word("AT").equals(&word("AT")));
    assert!(!word("AT").equals(&word("AS")));
    assert!(!word("AT").equals(&word("ATE")));
    assert_eq!(word("AT"), word("at"));
}

#[test]
fn word_order_is_dictionary_order() {
    assert!(word("AS").precedes(&word("AT")));
    assert!(!word("AT").precedes(&word("AS")));
    assert!(!word("AT").precedes(&word("AT")));
    assert!(word("AT").precedes(&word("ATE")));
    assert!(!word("ATE").precedes(&word("AT")));
    assert!(word("").precedes(&word("A")));
    assert!(word("AZ").precedes(&word("B")));
    assert_eq!(word("AS") < word("AT"), word("AS").precedes(&word("AT")));
    assert_eq!(word("B") < word("AZ"), word("B").precedes(&word("AZ")));
}

#[test]
fn word_duplicate_is_equal() {
    let w = word("HELLO");
    let copy = w.duplicate();
    assert!(copy.equals(&w));
    assert_eq!(copy.to_string(), "HELLO");
}
