use crossword::character::Character;
use crossword::field::Field;

fn l(c: char) -> Character {
    Character::from_char(c).unwrap()
}

#[test]
fn unconstrained_domain_counts_26() {
    let field = Field::new_any_character();
    assert_eq!(field.len(), 26);
    for v in 0..26u8 {
        assert!(field.contains(Character::from_index(v).unwrap()));
    }
}

#[test]
fn blocked_domain_counts_minus_one() {
    let field = Field::new_blocker();
    assert_eq!(field.len(), -1);
    assert!(field.len() < 0);
}

#[test]
fn insert_then_remove_leaves_the_other_25() {
    for v in 0..26u8 {
        let letter = Character::from_index(v).unwrap();
        let mut field = Field::new_any_character();
        field.insert(letter);
        assert_eq!(field.len(), 26);
        field.remove(letter);
        assert_eq!(field.len(), 25);
        for w in 0..26u8 {
            assert_eq!(field.contains(Character::from_index(w).unwrap()), w != v);
        }
    }
}

#[test]
fn remove_of_absent_letter_changes_nothing() {
    let mut field = Field::new_empty();
    field.insert(l('Q'));
    let before = field;
    field.remove(l('R'));
    assert_eq!(field, before);
}

#[test]
fn insert_keeps_a_blocked_cell_without_flag() {
    let mut field = Field::new_blocker();
    field.insert(l('A'));
    assert!(!field.is_blocker());
    assert_eq!(field.len(), 0);
    assert!(field.contains(l('A')));
    assert_eq!(field.bits(), 1);
}

#[test]
fn bits_show_flag_and_letters() {
    assert_eq!(Field::new_empty().bits(), 0x8000_0000);
    assert_eq!(Field::new_any_character().bits(), 0x83FF_FFFF);
    let mut field = Field::new_empty();
    field.insert(l('A'));
    field.insert(l('Z'));
    assert_eq!(field.bits(), 0x8000_0000 | 1 | (1 << 25));
}

#[test]
fn next_is_the_smallest_letter() {
    let mut field = Field::new_empty();
    field.insert(l('T'));
    field.insert(l('C'));
    field.insert(l('Z'));
    assert_eq!(field.next().to_char(), 'C');
    field.remove(l('C'));
    assert_eq!(field.next().to_char(), 'T');
}

#[test]
fn iteration_hands_out_letters_in_rising_order() {
    let mut field = Field::new_empty();
    field.insert(l('Z'));
    field.insert(l('A'));
    field.insert(l('T'));
    let mut it = field.iter();
    assert_eq!(it.next().map(|c| c.to_char()), Some('A'));
    assert_eq!(it.next().map(|c| c.to_char()), Some('T'));
    assert_eq!(it.next().map(|c| c.to_char()), Some('Z'));
    assert_eq!(it.next(), None);
    assert_eq!(it.next(), None);
    assert_eq!(field.len(), 3);
}

#[test]
fn iteration_over_blocked_and_empty_domains_is_empty() {
    assert_eq!(Field::new_blocker().iter().next(), None);
    assert_eq!(Field::new_empty().iter().next(), None);
    assert!(Field::new_blocker().to_vec().is_empty());
}

#[test]
fn to_vec_lists_the_letters() {
    let mut field = Field::new_empty();
    field.insert(l('D'));
    field.insert(l('B'));
    let letters: Vec<char> = field.to_vec().iter().map(|c| c.to_char()).collect();
    assert_eq!(letters, vec!['B', 'D']);
    assert_eq!(Field::new_any_character().to_vec().len(), 26);
}

#[test]
fn domain_from_symbol() {
    let open = Field::from_char('_').unwrap();
    assert_eq!(open, Field::new_any_character());
    let blocked = Field::from_char('#').unwrap();
    assert_eq!(blocked, Field::new_blocker());
    let given = Field::from_char('K').unwrap();
    assert_eq!(given.len(), 1);
    assert!(given.contains(l('K')));
    assert!(!given.is_blocker());
}

#[test]
fn domain_from_small_letter_is_the_capital() {
    assert_eq!(Field::from_char('k'), Field::from_char('K'));
    assert_eq!(Field::from_char('a').unwrap().next().to_char(), 'A');
}

#[test]
fn domain_from_unknown_symbol_is_refused() {
    assert!(Field::from_char('1').is_none());
    assert!(Field::from_char(' ').is_none());
    assert!(Field::from_char('-').is_none());
    assert!(Field::from_char('ß').is_none());
}

#[test]
fn rendering_of_each_kind_of_domain() {
    assert_eq!(Field::new_blocker().to_string(), "#");
    assert_eq!(Field::new_empty().to_string(), "∅");
    assert_eq!(Field::new_any_character().to_string(), "_");
    let mut field = Field::new_empty();
    field.insert(l('T'));
    assert_eq!(field.to_string(), "T");
    field.insert(l('A'));
    assert_eq!(field.to_string(), "{A, T}");
    field.insert(l('Z'));
    assert_eq!(field.to_string(), "{A, T, Z}");
}

#[test]
fn rendering_of_25_letters_lists_them() {
    let mut field = Field::new_any_character();
    field.remove(l('A'));
    let text = field.to_string();
    assert!(text.starts_with("{B, C, "));
    assert!(text.ends_with(", Y, Z}"));
    assert_eq!(text.chars().count(), 2 + 25 + 24 * 2);
}
