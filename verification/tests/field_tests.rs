use crossword::character::Character;
use crossword::field::Field;

fn letter(c: char) -> Character {
    Character::from_char(c).unwrap()
}

#[test]
fn blocker_constructor() {
    let field = Field::new_blocker();

    assert_eq!(field.bits(), 0);
}

#[test]
fn is_blocker_true() {
    let field = Field::new_blocker();

    assert!(field.is_blocker());
}

#[test]
fn is_blocker_false() {
    let field = Field::new_any_character();

    assert!(!field.is_blocker());
}

#[test]
fn len_empty() {
    let field = Field::new_empty();
    assert_eq!(field.len(), 0);
}

#[test]
fn len_blocker() {
    let field = Field::new_blocker();
    assert_eq!(field.len(), -1);
}

#[test]
fn len_any_character() {
    let field = Field::new_any_character();
    assert_eq!(field.len(), 26);
}

#[test]
fn simple_insert() {
    let mut field = Field::new_empty();
    field.insert(letter('D'));

    assert_eq!(field.len(), 1);
}

#[test]
fn multiple_inserts_of_the_same_character() {
    let mut field = Field::new_empty();
    field.insert(letter('D'));
    field.insert(letter('D'));
    field.insert(letter('D'));

    assert_eq!(field.len(), 1);
}

#[test]
fn multiple_inserts_of_different_characters() {
    let mut field = Field::new_empty();
    field.insert(letter('A'));
    field.insert(letter('T'));
    field.insert(letter('Z'));

    assert_eq!(field.len(), 3);
}

#[test]
fn contains_test_true() {
    let mut field = Field::new_empty();
    field.insert(letter('D'));
    assert!(field.contains(letter('D')));
}

#[test]
fn contains_test_false() {
    let mut field = Field::new_empty();
    field.insert(letter('D'));
    assert!(!field.contains(letter('C')));
}

#[test]
fn test_remove() {
    let mut field = Field::new_empty();
    field.insert(letter('A'));
    field.insert(letter('T'));
    field.insert(letter('Z'));

    assert_eq!(field.len(), 3);

    field.remove(letter('X'));
    assert_eq!(field.len(), 3);

    field.remove(letter('T'));
    assert_eq!(field.len(), 2);

    field.remove(letter('A'));
    assert_eq!(field.len(), 1);

    field.remove(letter('Z'));
    assert_eq!(field.len(), 0);
}

#[test]
fn iter_test() {
    let mut field = Field::new_empty();
    field.insert(letter('A'));
    field.insert(letter('T'));
    field.insert(letter('Z'));

    let mut set = std::collections::HashSet::new();
    let mut it = field.iter();
    while let Some(fc) = it.next() {
        set.insert(fc.to_char());
    }

    assert!(set.contains(&'A'));
    assert!(set.contains(&'T'));
    assert!(set.contains(&'Z'));
}
