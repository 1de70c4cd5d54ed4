use crossword::board::Board;
use crossword::crossword::Crossword;
use crossword::field::Field;
use crossword::propagation::restrict_board;
use crossword::search::solve;
use crossword::slots::WordField;
use crossword::word::Word;
use crossword::words::Words;

fn spelled(bucket: Option<&Vec<Word>>) -> Vec<String> {
    match bucket {
        Some(words) => words.iter().map(|w| w.to_string()).collect(),
        None => Vec::new(),
    }
}

fn chosen(slots: &Vec<WordField>) -> Vec<Option<String>> {
    slots.iter().map(|s| s.selected_word.as_ref().map(|w| w.to_string())).collect()
}

fn shown(board: &Board) -> Vec<String> {
    (0..board.nrows())
        .map(|r| (0..board.ncols()).map(|c| board.get(r, c).to_string()).collect::<String>())
        .collect()
}

#[test]
fn two_by_two_grid_with_three_words() {
    let mut crossword = Crossword::from_str("__\n__").ok().unwrap();
    let mut words = Words::new(String::from("AT\nAS\nOX")).unwrap();
    let outcome = crossword.solve(&mut words);
    assert!(outcome.solved);
    let board = crossword.board();
    for r in 0..2 {
        for c in 0..2 {
            assert_eq!(board.get(r, c).len(), 1);
        }
    }
    let rows = shown(board);
    assert_eq!(rows, vec!["AS", "AT"]);
    for row in rows.iter() {
        assert!(["AT", "AS", "OX"].contains(&row.as_str()));
    }
    assert_eq!(outcome.word_fields.len(), 4);
    assert_eq!(
        chosen(&outcome.word_fields),
        vec![Some(String::from("AS")), Some(String::from("AT")), None, None]
    );
    assert_eq!(spelled(words.words_with_length(2)), vec!["OX"]);
}

#[test]
fn words_in_play_stay_the_same() {
    let mut crossword = Crossword::from_str("__\n__").ok().unwrap();
    let mut words = Words::new(String::from("AT\nAS\nOX\nCAT\nA")).unwrap();
    let outcome = crossword.solve(&mut words);
    for (length, all) in [(1, vec!["A"]), (2, vec!["AS", "AT", "OX"]), (3, vec!["CAT"])] {
        let mut in_play = spelled(words.words_with_length(length));
        for slot in outcome.word_fields.iter() {
            if slot.len() == length {
                if let Some(w) = &slot.selected_word {
                    in_play.push(w.to_string());
                }
            }
        }
        in_play.sort();
        assert_eq!(in_play, all);
    }
}

#[test]
fn a_single_slot_takes_the_first_word() {
    let mut crossword = Crossword::from_str("___").ok().unwrap();
    let mut words = Words::new(String::from("DOG\nCAT\nA")).unwrap();
    let outcome = crossword.solve(&mut words);
    assert!(outcome.solved);
    assert_eq!(shown(crossword.board()), vec!["CAT"]);
    assert_eq!(
        chosen(&outcome.word_fields),
        vec![Some(String::from("CAT")), None, Some(String::from("A")), None]
    );
    assert_eq!(spelled(words.words_with_length(3)), vec!["DOG"]);
    assert!(words.words_with_length(1).is_none());
}

#[test]
fn offered_letters_join_a_given_letter() {
    let mut crossword = Crossword::from_str("D__").ok().unwrap();
    let mut words = Words::new(String::from("CAT\nCOT\nDOG")).unwrap();
    let outcome = crossword.solve(&mut words);
    assert!(outcome.solved);
    assert_eq!(shown(crossword.board()), vec!["CAT"]);
    assert_eq!(chosen(&outcome.word_fields), vec![Some(String::from("CAT"))]);
    assert_eq!(spelled(words.words_with_length(3)), vec!["COT", "DOG"]);
}

#[test]
fn crossing_words_are_found() {
    let mut crossword = Crossword::from_str("___\n_##\n_##").ok().unwrap();
    let mut words = Words::new(String::from("CAT\nCOW")).unwrap();
    let outcome = crossword.solve(&mut words);
    assert!(outcome.solved);
    assert_eq!(shown(crossword.board()), vec!["CAT", "O##", "W##"]);
    assert_eq!(
        chosen(&outcome.word_fields),
        vec![Some(String::from("CAT")), Some(String::from("COW"))]
    );
    assert!(words.words_with_length(3).is_none());
}

#[test]
fn a_grid_with_too_few_words_is_not_solved() {
    let mut crossword = Crossword::from_str("__\n__").ok().unwrap();
    let mut words = Words::new(String::from("AS")).unwrap();
    let outcome = crossword.solve(&mut words);
    assert!(!outcome.solved);
    assert_eq!(chosen(&outcome.word_fields), vec![Some(String::from("AS")), None, None, None]);
    assert!(words.words_with_length(2).is_none());
    assert_eq!(shown(crossword.board()), vec!["AS", "__"]);
}

#[test]
fn a_grid_without_slots_is_solved() {
    let mut crossword = Crossword::from_str("##\n##").ok().unwrap();
    let mut words = Words::new(String::from("AT")).unwrap();
    let outcome = crossword.solve(&mut words);
    assert!(outcome.solved);
    assert!(outcome.word_fields.is_empty());
    assert_eq!(spelled(words.words_with_length(2)), vec!["AT"]);
}

#[test]
fn solving_without_words_leaves_the_board() {
    let mut crossword = Crossword::from_str("A_").ok().unwrap();
    let mut words = Words::new(String::new()).unwrap();
    let outcome = crossword.solve(&mut words);
    assert!(outcome.solved);
    assert!(outcome.word_fields.is_empty());
    assert_eq!(shown(crossword.board()), vec!["A_"]);
}

#[test]
fn search_on_its_own_board_and_slots() {
    let mut board = Board::from_rows(vec![vec![Field::new_empty(); 2]]).ok().unwrap();
    let mut slots = vec![WordField { position: (0, 0), size: (1, 2), selected_word: None }];
    let mut words = Words::new(String::from("OX\nAT")).unwrap();
    assert!(restrict_board(&mut board, &slots, &words).is_ok());
    assert_eq!(shown(&board), vec!["{A, O}{T, X}"]);
    assert!(solve(&mut board, &mut slots, &mut words));
    assert_eq!(shown(&board), vec!["AT"]);
    assert_eq!(chosen(&slots), vec![Some(String::from("AT"))]);
    assert_eq!(spelled(words.words_with_length(2)), vec!["OX"]);
}

#[test]
fn a_word_is_used_once() {
    let mut crossword = Crossword::from_str("__#__").ok().unwrap();
    let mut words = Words::new(String::from("AT")).unwrap();
    let outcome = crossword.solve(&mut words);
    assert!(!outcome.solved);
    assert_eq!(shown(crossword.board()), vec!["AT#__"]);
    assert_eq!(
        chosen(&outcome.word_fields),
        vec![Some(String::from("AT")), None]
    );
    assert!(words.words_with_length(2).is_none());
}
