use crossword::board::{Board, PuzzleError};
use crossword::character::Character;
use crossword::crossword::Crossword;
use crossword::field::Field;

fn given(c: char) -> Field {
    Field::from_char(c).unwrap()
}

#[test]
fn board_from_rows_holds_the_rows() {
    let board = Board::from_rows(vec![
        vec![given('A'), given('#'), given('_')],
        vec![given('_'), given('B'), given('C')],
    ])
    .ok()
    .unwrap();
    assert_eq!(board.nrows(), 2);
    assert_eq!(board.ncols(), 3);
    assert_eq!(board.get(0, 0), given('A'));
    assert_eq!(board.get(0, 1), Field::new_blocker());
    assert_eq!(board.get(0, 2), Field::new_any_character());
    assert_eq!(board.get(1, 0), Field::new_any_character());
    assert_eq!(board.get(1, 1), given('B'));
    assert_eq!(board.get(1, 2), given('C'));
}

#[test]
fn board_without_rows_is_refused() {
    assert_eq!(Board::from_rows(Vec::new()).err(), Some(PuzzleError::NoRows));
}

#[test]
fn board_with_ragged_rows_is_refused() {
    let rows = vec![vec![given('_'), given('_')], vec![given('_'), given('_')], vec![given('_')]];
    assert_eq!(Board::from_rows(rows).err(), Some(PuzzleError::Ragged(2)));
    let rows = vec![vec![], vec![given('_')]];
    assert_eq!(Board::from_rows(rows).err(), Some(PuzzleError::Ragged(1)));
}

#[test]
fn board_of_rows_without_cells() {
    let board = Board::from_rows(vec![vec![], vec![]]).ok().unwrap();
    assert_eq!(board.nrows(), 2);
    assert_eq!(board.ncols(), 0);
}

#[test]
fn board_set_changes_one_cell() {
    let mut board =
        Board::from_rows(vec![vec![given('_'), given('_')], vec![given('_'), given('_')]])
            .ok()
            .unwrap();
    board.set(1, 0, given('X'));
    assert_eq!(board.get(1, 0), given('X'));
    assert_eq!(board.get(0, 0), Field::new_any_character());
    assert_eq!(board.get(0, 1), Field::new_any_character());
    assert_eq!(board.get(1, 1), Field::new_any_character());
}

#[test]
fn board_duplicate_is_a_copy_of_its_own() {
    let mut board = Board::from_rows(vec![vec![given('_'), given('#')]]).ok().unwrap();
    let copy = board.duplicate();
    assert!(board.equals(&copy));
    assert!(copy.equals(&board));
    board.set(0, 0, given('Q'));
    assert!(!board.equals(&copy));
    assert_eq!(copy.get(0, 0), Field::new_any_character());
    assert_eq!(copy.get(0, 1), Field::new_blocker());
}

#[test]
fn boards_of_different_shape_differ() {
    let wide = Board::from_rows(vec![vec![given('_'), given('_')]]).ok().unwrap();
    let tall = Board::from_rows(vec![vec![given('_')], vec![given('_')]]).ok().unwrap();
    assert!(!wide.equals(&tall));
    assert!(!tall.equals(&wide));
}

#[test]
fn crossword_from_text() {
    let crossword = Crossword::from_str("_a#\nB__\n").ok().unwrap();
    let board = crossword.board();
    assert_eq!(board.nrows(), 2);
    assert_eq!(board.ncols(), 3);
    assert_eq!(board.get(0, 0), Field::new_any_character());
    assert_eq!(board.get(0, 0).len(), 26);
    assert_eq!(board.get(0, 1).len(), 1);
    assert!(board.get(0, 1).contains(Character::from_char('A').unwrap()));
    assert!(board.get(0, 2).is_blocker());
    assert_eq!(board.get(1, 0).to_string(), "B");
    assert_eq!(board.get(1, 1).to_string(), "_");
}

#[test]
fn crossword_from_text_with_carriage_returns() {
    let crossword = Crossword::from_str("__\r\n#_\r\n").ok().unwrap();
    assert_eq!(crossword.board().nrows(), 2);
    assert_eq!(crossword.board().ncols(), 2);
    assert!(crossword.board().get(1, 0).is_blocker());
}

#[test]
fn crossword_from_empty_text_is_refused() {
    assert_eq!(Crossword::from_str("").err(), Some(PuzzleError::NoRows));
}

#[test]
fn crossword_from_ragged_text_is_refused() {
    assert_eq!(Crossword::from_str("___\n__\n___").err(), Some(PuzzleError::Ragged(1)));
    assert_eq!(Crossword::from_str("__\n\n").err(), Some(PuzzleError::Ragged(1)));
}

#[test]
fn crossword_from_text_with_unknown_symbol_is_refused() {
    assert_eq!(Crossword::from_str("__\n_?").err(), Some(PuzzleError::Symbol(1, 1)));
    assert_eq!(Crossword::from_str("_ _\n?").err(), Some(PuzzleError::Symbol(0, 1)));
    assert_eq!(Crossword::from_str("__\n_\n_1").err(), Some(PuzzleError::Symbol(2, 1)));
}
