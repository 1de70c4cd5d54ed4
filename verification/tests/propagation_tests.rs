use crossword::board::Board;
use crossword::character::Character;
use crossword::crossword::Crossword;
use crossword::field::Field;
use crossword::propagation::{propagate_once, restrict_board, Contradiction};
use crossword::slots::WordField;
use crossword::word::Word;
use crossword::words::Words;

fn word(text: &str) -> Word {
    let mut s = String::from(text);
    Word::new(&mut s).unwrap()
}

fn empty_row(n: usize) -> Board {
    Board::from_rows(vec![vec![Field::new_empty(); n]]).ok().unwrap()
}

fn row_slot(n: usize, chosen: Option<Word>) -> WordField {
    WordField { position: (0, 0), size: (1, n), selected_word: chosen }
}

fn shown(board: &Board) -> Vec<Vec<String>> {
    (0..board.nrows())
        .map(|r| (0..board.ncols()).map(|c| board.get(r, c).to_string()).collect())
        .collect()
}

#[test]
fn one_pass_gives_each_cell_the_letters_at_its_place() {
    let mut board = empty_row(3);
    let slots = vec![row_slot(3, None)];
    let words = Words::new(String::from("CAT\nDOG")).unwrap();
    assert!(propagate_once(&mut board, &slots, &words));
    assert_eq!(shown(&board), vec![vec!["{C, D}", "{A, O}", "{G, T}"]]);
    let c = Character::from_char('C').unwrap();
    let d = Character::from_char('D').unwrap();
    assert_eq!(board.get(0, 0).len(), 2);
    assert!(board.get(0, 0).contains(c) && board.get(0, 0).contains(d));
}

#[test]
fn propagation_reaches_the_same_board_as_one_pass() {
    let mut once = empty_row(3);
    let mut fixed = empty_row(3);
    let slots = vec![row_slot(3, None)];
    let words = Words::new(String::from("CAT\nDOG")).unwrap();
    assert!(propagate_once(&mut once, &slots, &words));
    assert_eq!(restrict_board(&mut fixed, &slots, &words), Ok(()));
    assert!(once.equals(&fixed));
}

#[test]
fn propagation_twice_changes_nothing() {
    let mut board = empty_row(3);
    let slots = vec![row_slot(3, None)];
    let words = Words::new(String::from("CAT\nDOG\nCOT")).unwrap();
    assert_eq!(restrict_board(&mut board, &slots, &words), Ok(()));
    let first = board.duplicate();
    assert_eq!(restrict_board(&mut board, &slots, &words), Ok(()));
    assert!(board.equals(&first));
    assert!(propagate_once(&mut board, &slots, &words));
    assert!(board.equals(&first));
}

#[test]
fn propagation_only_adds_letters_to_cells_without_a_word() {
    let crossword = Crossword::from_str("C__").ok().unwrap();
    let mut board = crossword.board().duplicate();
    let slots = vec![row_slot(3, None)];
    let words = Words::new(String::from("DOG")).unwrap();
    assert_eq!(restrict_board(&mut board, &slots, &words), Ok(()));
    assert_eq!(shown(&board), vec![vec!["{C, D}", "_", "_"]]);
}

#[test]
fn a_chosen_word_resolves_its_cells() {
    let mut board = empty_row(3);
    let slots = vec![row_slot(3, Some(word("CAT")))];
    let words = Words::new(String::from("CAT\nDOG")).unwrap();
    assert_eq!(restrict_board(&mut board, &slots, &words), Ok(()));
    assert_eq!(shown(&board), vec![vec!["C", "A", "T"]]);
}

#[test]
fn a_chosen_word_that_no_cell_can_hold_is_a_contradiction() {
    let mut board = empty_row(3);
    let slots = vec![row_slot(3, Some(word("CAT")))];
    let words = Words::new(String::from("DOG")).unwrap();
    assert_eq!(restrict_board(&mut board, &slots, &words), Err(Contradiction));
    let mut board = empty_row(3);
    assert!(!propagate_once(&mut board, &slots, &words));
}

#[test]
fn a_chosen_word_against_a_given_letter_is_a_contradiction() {
    let crossword = Crossword::from_str("C_X").ok().unwrap();
    let mut board = crossword.board().duplicate();
    let slots = vec![row_slot(3, Some(word("CAT")))];
    let words = Words::new(String::new()).unwrap();
    assert_eq!(restrict_board(&mut board, &slots, &words), Err(Contradiction));
}

#[test]
fn crossing_words_that_differ_are_a_contradiction() {
    let crossword = Crossword::from_str("__\n__").ok().unwrap();
    let across = WordField { position: (0, 0), size: (1, 2), selected_word: Some(word("AS")) };
    let down = WordField { position: (0, 0), size: (2, 1), selected_word: Some(word("OX")) };
    let words = Words::new(String::new()).unwrap();
    let mut board = crossword.board().duplicate();
    assert_eq!(restrict_board(&mut board, &vec![across, down], &words), Err(Contradiction));
    let across = WordField { position: (0, 0), size: (1, 2), selected_word: Some(word("AS")) };
    let down = WordField { position: (0, 0), size: (2, 1), selected_word: Some(word("AT")) };
    let mut board = crossword.board().duplicate();
    assert_eq!(restrict_board(&mut board, &vec![across, down], &words), Ok(()));
    assert_eq!(shown(&board), vec![vec!["A", "S"], vec!["T", "_"]]);
}

#[test]
fn crossing_slots_offer_the_letters_of_both() {
    let mut board =
        Board::from_rows(vec![vec![Field::new_empty(); 2], vec![Field::new_empty(); 2]])
            .ok()
            .unwrap();
    let slots = vec![
        WordField { position: (0, 0), size: (1, 2), selected_word: None },
        WordField { position: (1, 0), size: (1, 2), selected_word: None },
        WordField { position: (0, 0), size: (2, 1), selected_word: None },
        WordField { position: (0, 1), size: (2, 1), selected_word: None },
    ];
    let words = Words::new(String::from("AT\nAS\nOX")).unwrap();
    assert_eq!(restrict_board(&mut board, &slots, &words), Ok(()));
    assert_eq!(
        shown(&board),
        vec![vec!["{A, O}", "{A, O, S, T, X}"], vec!["{A, O, S, T, X}", "{S, T, X}"]]
    );
}

#[test]
fn a_slot_without_words_of_its_length_offers_nothing() {
    let mut board = empty_row(3);
    let slots = vec![row_slot(3, None)];
    let words = Words::new(String::from("AT")).unwrap();
    assert_eq!(restrict_board(&mut board, &slots, &words), Ok(()));
    assert_eq!(shown(&board), vec![vec!["∅", "∅", "∅"]]);
}
