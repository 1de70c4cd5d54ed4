use crossword::crossword::Crossword;
use crossword::slots::{extract_word_fields, filter_out_fields_without_possible_words, WordField};
use crossword::words::Words;

fn slots_of(text: &str) -> Vec<WordField> {
    let crossword = Crossword::from_str(text).ok().unwrap();
    extract_word_fields(crossword.board())
}

fn shapes(slots: &Vec<WordField>) -> Vec<((usize, usize), (usize, usize))> {
    slots.iter().map(|s| (s.position, s.size)).collect()
}

#[test]
fn slots_of_an_open_three_by_three_grid() {
    let slots = slots_of("___\n___\n___");
    assert_eq!(slots.len(), 6);
    assert_eq!(
        shapes(&slots),
        vec![
            ((0, 0), (1, 3)),
            ((1, 0), (1, 3)),
            ((2, 0), (1, 3)),
            ((0, 0), (3, 1)),
            ((0, 1), (3, 1)),
            ((0, 2), (3, 1)),
        ]
    );
    assert!(slots.iter().all(|s| s.len() == 3));
    assert!(slots.iter().all(|s| s.selected_word.is_none()));
}

#[test]
fn slots_of_a_grid_with_a_blocked_cell() {
    let slots = slots_of("____\n___#\n____");
    let lengths: Vec<usize> = slots.iter().map(|s| s.len()).collect();
    assert_eq!(lengths, vec![4, 3, 4, 3, 3, 3, 1, 1]);
    assert_eq!(
        shapes(&slots),
        vec![
            ((0, 0), (1, 4)),
            ((1, 0), (1, 3)),
            ((2, 0), (1, 4)),
            ((0, 0), (3, 1)),
            ((0, 1), (3, 1)),
            ((0, 2), (3, 1)),
            ((0, 3), (1, 1)),
            ((2, 3), (1, 1)),
        ]
    );
}

#[test]
fn slots_without_words_of_their_length_are_dropped() {
    let slots = slots_of("____\n___#\n____");
    let words = Words::new(String::from("cat\ndog\nbird")).unwrap();
    let kept = filter_out_fields_without_possible_words(slots, &words);
    let lengths: Vec<usize> = kept.iter().map(|s| s.len()).collect();
    assert_eq!(lengths, vec![4, 3, 4, 3, 3, 3]);
    let slots = slots_of("____\n___#\n____");
    let words = Words::new(String::from("a\ncat")).unwrap();
    let kept = filter_out_fields_without_possible_words(slots, &words);
    assert_eq!(
        shapes(&kept),
        vec![
            ((1, 0), (1, 3)),
            ((0, 0), (3, 1)),
            ((0, 1), (3, 1)),
            ((0, 2), (3, 1)),
            ((0, 3), (1, 1)),
            ((2, 3), (1, 1)),
        ]
    );
}

#[test]
fn slots_longer_than_any_word_are_dropped() {
    let slots = slots_of("____");
    let words = Words::new(String::from("cat")).unwrap();
    let kept = filter_out_fields_without_possible_words(slots, &words);
    assert!(kept.is_empty());
    let slots = slots_of("____");
    let none = Words::new(String::new()).unwrap();
    assert!(filter_out_fields_without_possible_words(slots, &none).is_empty());
}

#[test]
fn slots_of_a_blocked_grid() {
    assert!(slots_of("##\n##").is_empty());
}

#[test]
fn slots_between_blocked_cells() {
    let slots = slots_of("#_#__#");
    assert_eq!(
        shapes(&slots),
        vec![
            ((0, 1), (1, 1)),
            ((0, 3), (1, 2)),
            ((0, 1), (1, 1)),
            ((0, 3), (1, 1)),
            ((0, 4), (1, 1)),
        ]
    );
}

#[test]
fn given_cells_are_open_cells() {
    let slots = slots_of("A_\n#B");
    assert_eq!(
        shapes(&slots),
        vec![((0, 0), (1, 2)), ((1, 1), (1, 1)), ((0, 0), (1, 1)), ((0, 1), (2, 1))]
    );
}

#[test]
fn slot_duplicate_keeps_place_size_and_word() {
    let slots = slots_of("__");
    let copy = slots[0].duplicate();
    assert_eq!(copy.position, (0, 0));
    assert_eq!(copy.size, (1, 2));
    assert!(copy.selected_word.is_none());
}
