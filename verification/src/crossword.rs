//! The crossword: a board read from text, and its solution.

use vstd::prelude::*;
use crate::board::{grid_wf, rectangular, Board, PuzzleError};
use crate::field::{is_cell_symbol, stands_for, Field};
use crate::propagation::{demanded, demands_before, lemma_fit_same_shape, propagated, restrict_board};
use crate::search::{all_resolved, exclusive, pool, searched, solve};
use crate::slots::{
    all_fit, extract_word_fields, extraction, filter_out_fields_without_possible_words, live_slots,
    same_slot, same_slots, WordField,
};
use crate::text::{lines, row_views, split_lines};
use crate::words::{available, Words};

verus! {

/// True when every symbol of the first `row` lines, and the first `column`
/// symbols of line `row`, describe a cell.
pub open spec fn symbols_valid(text: Seq<Seq<char>>, row: int, column: int) -> bool {
    forall|r: int, c: int|
        0 <= r < text.len() && 0 <= c < text[r].len() && (r < row || (r == row && c < column))
            ==> is_cell_symbol(#[trigger] text[r][c])
}

/// True when `rows` are the cells that the lines of `text` describe, symbol
/// by symbol.
pub open spec fn describes(text: Seq<Seq<char>>, rows: Seq<Seq<Field>>) -> bool {
    &&& rows.len() == text.len()
    &&& forall|r: int| 0 <= r < text.len() ==> (#[trigger] rows[r]).len() == text[r].len()
    &&& forall|r: int, c: int|
        0 <= r < text.len() && 0 <= c < text[r].len() ==> stands_for(
            text[r][c],
            #[trigger] rows[r][c],
        )
}

/// True when solving the grid `rows` with the inventory `inventory` ends
/// with the grid `end_rows`, the slots `end_slots` and the inventory
/// `end_inventory`: the slots of the grid are found, those for whose length
/// there is no word are dropped, the grid is propagated once through, and
/// the search runs from there.
pub open spec fn solved_from(
    rows: Seq<Seq<Field>>,
    inventory: Seq<Seq<Seq<u8>>>,
    end_rows: Seq<Seq<Field>>,
    end_slots: Seq<WordField>,
    end_inventory: Seq<Seq<Seq<u8>>>,
) -> bool {
    exists|found: Seq<WordField>, kept: Seq<WordField>, first: Seq<Seq<Field>>|
        #![trigger extraction(rows, found), propagated(rows, kept, inventory, first)]
        {
            &&& extraction(rows, found)
            &&& same_slots(kept, live_slots(found, inventory))
            &&& propagated(rows, kept, inventory, first)
            &&& searched(first, kept, inventory, end_rows, end_slots, end_inventory)
        }
}

/// A crossword puzzle: the board with the domains of its cells.
pub struct Crossword {
    board: Board,
}

impl View for Crossword {
    type V = Seq<Seq<Field>>;

    closed spec fn view(&self) -> Seq<Seq<Field>> {
        self.board@
    }
}

/// What a solve leaves behind.
pub struct Outcome {
    /// True when every cell of every slot holds exactly one letter.
    pub solved: bool,
    /// The slots that took part, with the words chosen for them.
    pub word_fields: Vec<WordField>,
}

impl Crossword {
    /// The board has a row, is rectangular, and holds domains.
    pub open spec fn wf(&self) -> bool {
        grid_wf(self@)
    }

    /// Reads a puzzle: one line for each row, and in each line `_` for an
    /// open cell, `#` for a blocked cell and a letter, small or capital,
    /// for a cell that is given.
    ///
    /// The first symbol that describes no cell is refused; then a text
    /// without lines; then the first line that differs in length from the
    /// first line.
    pub fn from_str(raw: &str) -> (r: Result<Crossword, PuzzleError>)
        ensures
            match r {
                Ok(crossword) => {
                    &&& symbols_valid(lines(raw@), lines(raw@).len() as int, 0)
                    &&& lines(raw@).len() > 0
                    &&& rectangular(lines(raw@))
                    &&& describes(lines(raw@), crossword@)
                    &&& crossword.wf()
                },
                Err(PuzzleError::Symbol(row, column)) => {
                    &&& row < lines(raw@).len()
                    &&& column < lines(raw@)[row as int].len()
                    &&& !is_cell_symbol(lines(raw@)[row as int][column as int])
                    &&& symbols_valid(lines(raw@), row as int, column as int)
                },
                Err(PuzzleError::NoRows) => lines(raw@).len() == 0,
                Err(PuzzleError::Ragged(row)) => {
                    &&& symbols_valid(lines(raw@), lines(raw@).len() as int, 0)
                    &&& 0 < row < lines(raw@).len()
                    &&& lines(raw@)[row as int].len() != lines(raw@)[0].len()
                    &&& forall|k: int|
                        0 <= k < row ==> (#[trigger] lines(raw@)[k]).len() == lines(raw@)[0].len()
                },
            },
    {
        let text = split_lines(raw);
        let ghost all = lines(raw@);
        let mut rows: Vec<Vec<Field>> = Vec::new();
        let mut r: usize = 0;
        while r < text.len()
            invariant
                r <= text@.len(),
                all == lines(raw@),
                row_views(text@) == all,
                rows@.len() == r,
                symbols_valid(all, r as int, 0),
                forall|k: int| 0 <= k < r ==> (#[trigger] rows@[k])@.len() == all[k].len(),
                forall|k: int, c: int|
                    0 <= k < r && 0 <= c < all[k].len() ==> stands_for(
                        all[k][c],
                        #[trigger] rows@[k]@[c],
                    ),
            decreases text@.len() - r,
        {
            let line = &text[r];
            assert(line@ == row_views(text@)[r as int]);
            let mut row: Vec<Field> = Vec::new();
            let mut c: usize = 0;
            while c < line.len()
                invariant
                    c <= line@.len(),
                    r < all.len(),
                    all == lines(raw@),
                    line@ == all[r as int],
                    row@.len() == c,
                    symbols_valid(all, r as int, c as int),
                    forall|j: int| 0 <= j < c ==> stands_for(all[r as int][j], #[trigger] row@[j]),
                decreases line@.len() - c,
            {
                match Field::from_char(line[c]) {
                    Some(field) => {
                        row.push(field);
                    },
                    None => {
                        return Err(PuzzleError::Symbol(r, c));
                    },
                }
                c = c + 1;
            }
            let ghost before = rows@;
            rows.push(row);
            proof {
                assert forall|k: int, j: int|
                    0 <= k < r + 1 && 0 <= j < all[k].len() implies stands_for(
                    all[k][j],
                    #[trigger] rows@[k]@[j],
                ) by {
                    if k < r {
                        assert(rows@[k] == before[k]);
                    }
                }
                assert forall|k: int| 0 <= k < r + 1 implies (#[trigger] rows@[k])@.len()
                    == all[k].len() by {
                    if k < r {
                        assert(rows@[k] == before[k]);
                    }
                }
            }
            r = r + 1;
        }
        let ghost cells = row_views(rows@);
        proof {
            assert(cells.len() == all.len());
            assert forall|k: int| 0 <= k < all.len() implies (#[trigger] cells[k]).len()
                == all[k].len() by {
                assert(rows@[k]@.len() == all[k].len());
            }
            assert forall|k: int, j: int|
                0 <= k < all.len() && 0 <= j < all[k].len() implies stands_for(
                all[k][j],
                #[trigger] cells[k][j],
            ) by {
                assert(stands_for(all[k][j], rows@[k]@[j]));
            }
        }
        match Board::from_rows(rows) {
            Ok(board) => {
                proof {
                    assert forall|k: int| 0 <= k < all.len() implies (#[trigger] all[k]).len()
                        == all[0].len() by {
                        assert(cells[k].len() == cells[0].len());
                    }
                }
                Ok(Crossword { board })
            },
            Err(e) => {
                proof {
                    if let PuzzleError::Ragged(row) = e {
                        assert(cells[row as int].len() == all[row as int].len());
                        assert(cells[0].len() == all[0].len());
                        assert forall|k: int| 0 <= k < row implies (#[trigger] all[k]).len()
                            == all[0].len() by {
                            assert(cells[k].len() == all[k].len());
                        }
                    }
                }
                Err(e)
            },
        }
    }

    /// The board of the crossword.
    pub fn board(&self) -> (board: &Board)
        ensures
            board@ == self@,
    {
        &self.board
    }

    /// Solves the crossword with the words of the inventory.
    ///
    /// The slots of the board are found; those for whose length the
    /// inventory holds no word are dropped. The board is propagated once
    /// through, and the search then fills the slots. Words that the search
    /// chose leave the inventory.
    ///
    /// The outcome holds the slots with their words, and tells whether
    /// every cell of every slot now holds exactly one letter.
    pub fn solve(&mut self, words: &mut Words) -> (outcome: Outcome)
        requires
            old(self).wf(),
            old(words).wf(),
        ensures
            solved_from(
                old(self)@,
                old(words)@,
                final(self)@,
                outcome.word_fields@,
                final(words)@,
            ),
            outcome.solved == all_resolved(final(self)@, outcome.word_fields@),
            final(self).wf(),
            final(words).wf(),
            all_fit(outcome.word_fields@, final(self)@),
            propagated(final(self)@, outcome.word_fields@, final(words)@, final(self)@),
            exclusive(outcome.word_fields@, final(words)@),
            forall|n: int, w: Seq<u8>|
                #![trigger pool(outcome.word_fields@, final(words)@, n).contains(w)]
                pool(outcome.word_fields@, final(words)@, n).contains(w) <==> available(
                    old(words)@,
                    n,
                ).contains(w),
    {
        let ghost rows = self.board@;
        let ghost inventory = words@;
        let found = extract_word_fields(&self.board);
        let ghost found_slots = found@;
        proof {
            assert forall|k: int| 0 <= k < found@.len() implies (#[trigger] found@[k]).wf() by {
                assert(found@[k].fits(rows));
            }
        }
        let mut word_fields = filter_out_fields_without_possible_words(found, words);
        let ghost kept = word_fields@;
        proof {
            assert forall|k: int| 0 <= k < kept.len() implies (#[trigger] kept[k]).fits(rows)
                && kept[k].word() is None && kept[k].length() < inventory.len() by {
                let j = choose|j: int|
                    0 <= j < found_slots.len() && same_slot(kept[k], #[trigger] found_slots[j]);
                assert(found_slots[j].fits(rows));
                assert(found_slots[j].selected_word is None);
                assert(available(inventory, kept[k].length()).len() > 0);
            }
            assert forall|r: int, c: int| demanded(kept, r, c) =~= Set::<u8>::empty() by {
                assert forall|l: u8| !demanded(kept, r, c).contains(l) by {
                    if demanded(kept, r, c).contains(l) {
                        let (k, i) = choose|k: int, i: int|
                            demands_before(kept, kept.len() as int, 0, r, c, k, i, l);
                        assert(kept[k].word() is None);
                    }
                }
            }
        }
        let first = restrict_board(&mut self.board, &word_fields, words);
        let ghost propagated_rows = self.board@;
        proof {
            assert(first is Ok);
            lemma_fit_same_shape(kept, rows, propagated_rows);
            assert(exclusive(kept, inventory));
        }
        let solved = solve(&mut self.board, &mut word_fields, words);
        proof {
            assert(same_slots(kept, live_slots(found_slots, inventory)));
            assert forall|n: int, w: Seq<u8>|
                #![trigger pool(word_fields@, words@, n).contains(w)]
                pool(word_fields@, words@, n).contains(w) <==> available(inventory, n).contains(
                    w,
                ) by {
                assert(pool(kept, inventory, n) == pool(word_fields@, words@, n));
                if exists|k: int| crate::search::holds_word(kept, n, w, k) {
                    let k = choose|k: int| crate::search::holds_word(kept, n, w, k);
                    assert(kept[k].word() is None);
                }
            }
        }
        Outcome { solved, word_fields }
    }
}

} // verus!
