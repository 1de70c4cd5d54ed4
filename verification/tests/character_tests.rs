use crossword::character::{capitalize, Character};
use crossword::field_character::FieldCharacter;

#[test]
fn letter_from_capital() {
    let a = Character::from_char('A').unwrap();
    let z = Character::from_char('Z').unwrap();
    assert_eq!(a.value(), 0);
    assert_eq!(z.value(), 25);
    assert_eq!(Character::from_char('M').unwrap().value(), 12);
}

#[test]
fn letter_from_other_symbols_is_refused() {
    assert!(Character::from_char('a').is_none());
    assert!(Character::from_char('@').is_none());
    assert!(Character::from_char('[').is_none());
    assert!(Character::from_char('_').is_none());
    assert!(Character::from_char('é').is_none());
}

#[test]
fn letter_from_index() {
    assert_eq!(Character::from_index(0).unwrap().to_char(), 'A');
    assert_eq!(Character::from_index(25).unwrap().to_char(), 'Z');
    assert!(Character::from_index(26).is_none());
    assert!(Character::from_index(255).is_none());
    assert_eq!(Character::at(3).to_char(), 'D');
}

#[test]
fn letter_round_trip() {
    for code in b'A'..=b'Z' {
        let c = code as char;
        let letter = Character::from_char(c).unwrap();
        assert_eq!(letter.to_char(), c);
        assert_eq!(Character::from_index(letter.value()), Some(letter));
    }
}

#[test]
fn letters_order_as_the_alphabet() {
    let b = Character::from_char('B').unwrap();
    let c = Character::from_char('C').unwrap();
    assert!(b < c);
    assert!(c > b);
    assert_eq!(b, Character::from_index(1).unwrap());
}

#[test]
fn capitalize_folds_small_letters_only() {
    assert_eq!(capitalize('a'), 'A');
    assert_eq!(capitalize('z'), 'Z');
    assert_eq!(capitalize('Q'), 'Q');
    assert_eq!(capitalize('#'), '#');
    assert_eq!(capitalize('_'), '_');
    assert_eq!(capitalize('{'), '{');
    assert_eq!(capitalize('`'), '`');
}

#[test]
fn field_character_is_the_same_letter() {
    let letter: FieldCharacter = FieldCharacter::from_char('K').unwrap();
    assert_eq!(letter, Character::from_index(10).unwrap());
}
