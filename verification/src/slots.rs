//! Slots: the runs of open cells that take a word.

use vstd::prelude::*;
use crate::board::{grid_wf, width, Board};
use crate::field::Field;
use crate::word::Word;
use crate::words::{available, Words};

verus! {

/// A slot of the grid: a run of cells in one row or one column, and the
/// word that was chosen for it, if any.
///
/// `position` is the row and the column of the first cell. `size` is the
/// number of rows and the number of columns that the slot spans, one of
/// them being one.
#[derive(Debug)]
pub struct WordField {
    pub position: (usize, usize),
    pub size: (usize, usize),
    pub selected_word: Option<Word>,
}

impl WordField {
    /// The number of cells of the slot.
    pub open spec fn length(self) -> int {
        self.size.0 + self.size.1 - 1
    }

    /// The letters of the chosen word, if a word is chosen.
    pub open spec fn word(self) -> Option<Seq<u8>> {
        match self.selected_word {
            Some(w) => Some(w@),
            None => None,
        }
    }

    /// The slot spans one row or one column and has a cell.
    pub open spec fn wf(self) -> bool {
        &&& self.size.0 >= 1
        &&& self.size.1 >= 1
        &&& (self.size.0 == 1 || self.size.1 == 1)
    }

    /// The row and the column of cell `i` of the slot.
    pub open spec fn cell(self, i: int) -> (int, int) {
        if self.size.0 == 1 {
            (self.position.0 as int, self.position.1 + i)
        } else {
            (self.position.0 + i, self.position.1 as int)
        }
    }

    /// The slot lies inside the grid, and a chosen word has as many letters
    /// as the slot has cells.
    pub open spec fn fits(self, rows: Seq<Seq<Field>>) -> bool {
        &&& self.wf()
        &&& self.position.0 + self.size.0 <= rows.len()
        &&& self.position.1 + self.size.1 <= width(rows)
        &&& (self.selected_word matches Some(w) ==> w@.len() == self.length())
    }

    /// The number of cells of the slot.
    pub fn len(&self) -> (n: usize)
        requires
            1 <= self.size.0 + self.size.1 <= usize::MAX + 1,
        ensures
            n == self.length(),
    {
        let (x, y) = self.size;
        if x >= 1 {
            x - 1 + y
        } else {
            y - 1 + x
        }
    }

    /// A copy of the slot.
    pub fn duplicate(&self) -> (slot: WordField)
        ensures
            slot.position == self.position,
            slot.size == self.size,
            slot.word() == self.word(),
    {
        let selected_word = match &self.selected_word {
            Some(w) => Some(w.duplicate()),
            None => None,
        };
        WordField { position: self.position, size: self.size, selected_word }
    }
}

/// True when every slot of `slots` fits the grid.
pub open spec fn all_fit(slots: Seq<WordField>, rows: Seq<Seq<Field>>) -> bool {
    forall|k: int| 0 <= k < slots.len() ==> (#[trigger] slots[k]).fits(rows)
}

/// The number of lines of the grid in one direction: rows when
/// `horizontal`, columns when not.
pub open spec fn line_count(rows: Seq<Seq<Field>>, horizontal: bool) -> int {
    if horizontal {
        rows.len() as int
    } else {
        width(rows)
    }
}

/// The number of cells of a line in that direction.
pub open spec fn line_len(rows: Seq<Seq<Field>>, horizontal: bool) -> int {
    if horizontal {
        width(rows)
    } else {
        rows.len() as int
    }
}

/// True when cell `j` of line `index` is not blocked.
pub open spec fn line_open(rows: Seq<Seq<Field>>, horizontal: bool, index: int, j: int) -> bool {
    if horizontal {
        !rows[index][j].is_blocked()
    } else {
        !rows[j][index].is_blocked()
    }
}

/// True when the `n` cells from `start` on in line `index` are a run: they
/// are open, and the run cannot be made longer at either end.
pub open spec fn is_run(
    rows: Seq<Seq<Field>>,
    horizontal: bool,
    index: int,
    start: int,
    n: int,
) -> bool {
    &&& 0 <= index < line_count(rows, horizontal)
    &&& 0 <= start
    &&& 1 <= n
    &&& start + n <= line_len(rows, horizontal)
    &&& forall|j: int| start <= j < start + n ==> line_open(rows, horizontal, index, j)
    &&& (start == 0 || !line_open(rows, horizontal, index, start - 1))
    &&& (start + n == line_len(rows, horizontal) || !line_open(
        rows,
        horizontal,
        index,
        start + n,
    ))
}

/// The line that a slot of the given direction lies in.
pub open spec fn slot_line(slot: WordField, horizontal: bool) -> int {
    if horizontal {
        slot.position.0 as int
    } else {
        slot.position.1 as int
    }
}

/// The place in its line where a slot of the given direction begins.
pub open spec fn slot_start(slot: WordField, horizontal: bool) -> int {
    if horizontal {
        slot.position.1 as int
    } else {
        slot.position.0 as int
    }
}

/// The number of cells of a slot along the given direction.
pub open spec fn slot_span(slot: WordField, horizontal: bool) -> int {
    if horizontal {
        slot.size.1 as int
    } else {
        slot.size.0 as int
    }
}

/// True when the slot is a run of the given direction without a word.
pub open spec fn slot_is_run(rows: Seq<Seq<Field>>, horizontal: bool, slot: WordField) -> bool {
    &&& slot.selected_word is None
    &&& (if horizontal {
        slot.size.0 == 1
    } else {
        slot.size.1 == 1
    })
    &&& is_run(
        rows,
        horizontal,
        slot_line(slot, horizontal),
        slot_start(slot, horizontal),
        slot_span(slot, horizontal),
    )
}

/// True for a run that lies in a line before `line`, or in `line` itself
/// and ends before place `pos`.
pub open spec fn run_before(index: int, start: int, n: int, line: int, pos: int) -> bool {
    index < line || (index == line && start + n < pos)
}

/// True when the slots from `base` up to `end` are exactly the runs of the
/// given direction that lie before place `pos` of line `line`, in the order
/// of their lines and, within a line, of their beginnings.
pub open spec fn listed(
    rows: Seq<Seq<Field>>,
    horizontal: bool,
    slots: Seq<WordField>,
    base: int,
    end: int,
    line: int,
    pos: int,
) -> bool {
    &&& 0 <= base <= end <= slots.len()
    &&& forall|k: int|
        base <= k < end ==> slot_is_run(rows, horizontal, #[trigger] slots[k]) && run_before(
            slot_line(slots[k], horizontal),
            slot_start(slots[k], horizontal),
            slot_span(slots[k], horizontal),
            line,
            pos,
        )
    &&& forall|a: int, b: int|
        base <= a < b < end ==> slot_line(#[trigger] slots[a], horizontal) < slot_line(
            #[trigger] slots[b],
            horizontal,
        ) || (slot_line(slots[a], horizontal) == slot_line(slots[b], horizontal) && slot_start(
            slots[a],
            horizontal,
        ) < slot_start(slots[b], horizontal))
    &&& forall|index: int, start: int, n: int|
        #[trigger] is_run(rows, horizontal, index, start, n) && run_before(
            index,
            start,
            n,
            line,
            pos,
        ) ==> exists|k: int|
            base <= k < end && slot_line(#[trigger] slots[k], horizontal) == index && slot_start(
                slots[k],
                horizontal,
            ) == start && slot_span(slots[k], horizontal) == n
}

/// True when the first `m` slots are the runs of the rows, rows from the
/// top and runs from the left, and the others the runs of the columns,
/// columns from the left and runs from the top; none with a word.
pub open spec fn splits_at(rows: Seq<Seq<Field>>, slots: Seq<WordField>, m: int) -> bool {
    listed(rows, true, slots, 0, m, rows.len() as int, 0) && listed(
        rows,
        false,
        slots,
        m,
        slots.len() as int,
        width(rows),
        0,
    )
}

/// True when `slots` is what extraction finds in the grid: first every run
/// of every row, rows from the top and runs from the left, then every run
/// of every column, columns from the left and runs from the top; none with
/// a word.
pub open spec fn extraction(rows: Seq<Seq<Field>>, slots: Seq<WordField>) -> bool {
    exists|m: int| splits_at(rows, slots, m)
}

/// Adds the runs of one line to `slots`.
fn scan_line(
    board: &Board,
    horizontal: bool,
    index: usize,
    slots: &mut Vec<WordField>,
    Ghost(base): Ghost<int>,
)
    requires
        board.wf(),
        index < line_count(board@, horizontal),
        listed(board@, horizontal, old(slots)@, base, old(slots)@.len() as int, index as int, 0),
        all_fit(old(slots)@, board@),
    ensures
        final(slots)@.len() >= old(slots)@.len(),
        final(slots)@.take(old(slots)@.len() as int) == old(slots)@,
        listed(board@, horizontal, final(slots)@, base, final(slots)@.len() as int, index + 1, 0),
        all_fit(final(slots)@, board@),
{
    let nrows = board.nrows();
    let ncols = board.ncols();
    let len = if horizontal {
        ncols
    } else {
        nrows
    };
    let ghost rows = board@;
    let mut start: Option<usize> = None;
    let mut i: usize = 0;
    while i < len
        invariant
            board.wf(),
            rows == board@,
            nrows == rows.len(),
            ncols == width(rows),
            len == line_len(rows, horizontal),
            index < line_count(rows, horizontal),
            i <= len,
            slots@.len() >= old(slots)@.len(),
            slots@.take(old(slots)@.len() as int) == old(slots)@,
            listed(rows, horizontal, slots@, base, slots@.len() as int, index as int, i as int),
            all_fit(slots@, rows),
            match start {
                Some(s) => s < i && (forall|j: int|
                    s <= j < i ==> line_open(rows, horizontal, index as int, j)) && (s == 0
                    || !line_open(rows, horizontal, index as int, s - 1)),
                None => i == 0 || !line_open(rows, horizontal, index as int, i - 1),
            },
        decreases len - i,
    {
        let field = if horizontal {
            board.get(index, i)
        } else {
            assert(rows[i as int].len() == rows[0].len());
            board.get(i, index)
        };
        if field.is_blocker() {
            if let Some(s) = start {
                let slot = if horizontal {
                    WordField { position: (index, s), size: (1, i - s), selected_word: None }
                } else {
                    WordField { position: (s, index), size: (i - s, 1), selected_word: None }
                };
                proof {
                    lemma_append_run(
                        rows,
                        horizontal,
                        slots@,
                        base,
                        slot,
                        index as int,
                        s as int,
                        i as int,
                    );
                }
                let ghost before = slots@;
                slots.push(slot);
                proof {
                    assert(slots@.take(old(slots)@.len() as int) =~= before.take(
                        old(slots)@.len() as int,
                    ));
                }
                start = None;
            } else {
                proof {
                    lemma_skip_blocked(rows, horizontal, slots@, base, index as int, i as int);
                }
            }
        } else {
            proof {
                lemma_skip_open(rows, horizontal, slots@, base, index as int, i as int);
            }
            if start.is_none() {
                start = Some(i);
            }
        }
        i = i + 1;
    }
    if let Some(s) = start {
        let slot = if horizontal {
            WordField { position: (index, s), size: (1, len - s), selected_word: None }
        } else {
            WordField { position: (s, index), size: (len - s, 1), selected_word: None }
        };
        proof {
            lemma_append_run(rows, horizontal, slots@, base, slot, index as int, s as int, len as int);
        }
        let ghost before = slots@;
        slots.push(slot);
        proof {
            assert(slots@.take(old(slots)@.len() as int) =~= before.take(old(slots)@.len() as int));
            lemma_next_line(rows, horizontal, slots@, base, index as int, len + 1);
        }
    } else {
        proof {
            lemma_skip_blocked(rows, horizontal, slots@, base, index as int, len as int);
            lemma_next_line(rows, horizontal, slots@, base, index as int, len + 1);
        }
    }
}

/// At a blocked cell, or at the end of the line, that no run leads up to,
/// the list is complete one place further.
proof fn lemma_skip_blocked(
    rows: Seq<Seq<Field>>,
    horizontal: bool,
    slots: Seq<WordField>,
    base: int,
    index: int,
    i: int,
)
    requires
        listed(rows, horizontal, slots, base, slots.len() as int, index, i),
        0 <= i <= line_len(rows, horizontal),
        i == 0 || !line_open(rows, horizontal, index, i - 1),
    ensures
        listed(rows, horizontal, slots, base, slots.len() as int, index, i + 1),
{
    assert forall|idx: int, start: int, n: int|
        #[trigger] is_run(rows, horizontal, idx, start, n) && run_before(
            idx,
            start,
            n,
            index,
            i + 1,
        ) implies exists|k: int|
        base <= k < slots.len() && slot_line(#[trigger] slots[k], horizontal) == idx && slot_start(
            slots[k],
            horizontal,
        ) == start && slot_span(slots[k], horizontal) == n by {
        if idx == index && start + n == i {
            assert(line_open(rows, horizontal, index, i - 1));
        } else {
            assert(run_before(idx, start, n, index, i));
        }
    }
}

/// At an open cell no run ends, so the list is complete one place further.
proof fn lemma_skip_open(
    rows: Seq<Seq<Field>>,
    horizontal: bool,
    slots: Seq<WordField>,
    base: int,
    index: int,
    i: int,
)
    requires
        listed(rows, horizontal, slots, base, slots.len() as int, index, i),
        0 <= i < line_len(rows, horizontal),
        line_open(rows, horizontal, index, i),
    ensures
        listed(rows, horizontal, slots, base, slots.len() as int, index, i + 1),
{
    assert forall|idx: int, start: int, n: int|
        #[trigger] is_run(rows, horizontal, idx, start, n) && run_before(
            idx,
            start,
            n,
            index,
            i + 1,
        ) implies exists|k: int|
        base <= k < slots.len() && slot_line(#[trigger] slots[k], horizontal) == idx && slot_start(
            slots[k],
            horizontal,
        ) == start && slot_span(slots[k], horizontal) == n by {
        if idx == index && start + n == i {
        } else {
            assert(run_before(idx, start, n, index, i));
        }
    }
}

/// Once a line is done, the list is complete up to the start of the next.
proof fn lemma_next_line(
    rows: Seq<Seq<Field>>,
    horizontal: bool,
    slots: Seq<WordField>,
    base: int,
    index: int,
    pos: int,
)
    requires
        listed(rows, horizontal, slots, base, slots.len() as int, index, pos),
        pos == line_len(rows, horizontal) + 1,
    ensures
        listed(rows, horizontal, slots, base, slots.len() as int, index + 1, 0),
{
    assert forall|idx: int, start: int, n: int|
        #[trigger] is_run(rows, horizontal, idx, start, n) && run_before(
            idx,
            start,
            n,
            index + 1,
            0,
        ) implies exists|k: int|
        base <= k < slots.len() && slot_line(#[trigger] slots[k], horizontal) == idx && slot_start(
            slots[k],
            horizontal,
        ) == start && slot_span(slots[k], horizontal) == n by {
        assert(run_before(idx, start, n, index, pos));
    }
}

/// The run that ends at place `i` of line `index` is added to the list.
proof fn lemma_append_run(
    rows: Seq<Seq<Field>>,
    horizontal: bool,
    slots: Seq<WordField>,
    base: int,
    slot: WordField,
    index: int,
    s: int,
    i: int,
)
    requires
        grid_wf(rows),
        listed(rows, horizontal, slots, base, slots.len() as int, index, i),
        all_fit(slots, rows),
        0 <= index < line_count(rows, horizontal),
        0 <= s < i <= line_len(rows, horizontal),
        forall|j: int| s <= j < i ==> line_open(rows, horizontal, index, j),
        s == 0 || !line_open(rows, horizontal, index, s - 1),
        i == line_len(rows, horizontal) || !line_open(rows, horizontal, index, i),
        slot.selected_word is None,
        slot_line(slot, horizontal) == index,
        slot_start(slot, horizontal) == s,
        slot_span(slot, horizontal) == i - s,
        if horizontal {
            slot.size.0 == 1
        } else {
            slot.size.1 == 1
        },
    ensures
        listed(rows, horizontal, slots.push(slot), base, (slots.len() + 1) as int, index, i + 1),
        all_fit(slots.push(slot), rows),
{
    let after = slots.push(slot);
    assert(is_run(rows, horizontal, index, s, i - s));
    assert(slot_is_run(rows, horizontal, slot));
    assert forall|k: int| base <= k < after.len() implies slot_is_run(
        rows,
        horizontal,
        #[trigger] after[k],
    ) && run_before(
        slot_line(after[k], horizontal),
        slot_start(after[k], horizontal),
        slot_span(after[k], horizontal),
        index,
        i + 1,
    ) by {
        if k < slots.len() {
            assert(after[k] == slots[k]);
        }
    }
    assert forall|a: int, b: int| base <= a < b < after.len() implies slot_line(
        #[trigger] after[a],
        horizontal,
    ) < slot_line(#[trigger] after[b], horizontal) || (slot_line(after[a], horizontal) == slot_line(
        after[b],
        horizontal,
    ) && slot_start(after[a], horizontal) < slot_start(after[b], horizontal)) by {
        assert(after[a] == slots[a]);
        if b < slots.len() {
            assert(after[b] == slots[b]);
        } else {
            let prev = slots[a];
            assert(slot_is_run(rows, horizontal, prev));
            if slot_line(prev, horizontal) == index {
                let e = slot_start(prev, horizontal) + slot_span(prev, horizontal);
                assert(e < i);
                assert(!line_open(rows, horizontal, index, e));
                if e >= s {
                    assert(line_open(rows, horizontal, index, e));
                }
            }
        }
    }
    assert forall|idx: int, start: int, n: int|
        #[trigger] is_run(rows, horizontal, idx, start, n) && run_before(
            idx,
            start,
            n,
            index,
            i + 1,
        ) implies exists|k: int|
        base <= k < after.len() && slot_line(#[trigger] after[k], horizontal) == idx && slot_start(
            after[k],
            horizontal,
        ) == start && slot_span(after[k], horizontal) == n by {
        if idx == index && start + n == i {
            if start < s {
                assert(line_open(rows, horizontal, index, s - 1));
            } else if start > s {
                assert(line_open(rows, horizontal, index, start - 1));
            }
            assert(after[slots.len() as int] == slot);
        } else {
            assert(run_before(idx, start, n, index, i));
            let k = choose|k: int|
                base <= k < slots.len() && slot_line(#[trigger] slots[k], horizontal) == idx
                    && slot_start(slots[k], horizontal) == start && slot_span(
                    slots[k],
                    horizontal,
                ) == n;
            assert(after[k] == slots[k]);
        }
    }
    assert(slot.fits(rows));
    assert forall|k: int| 0 <= k < after.len() implies (#[trigger] after[k]).fits(rows) by {
        if k < slots.len() {
            assert(after[k] == slots[k]);
        }
    }
}

/// Two complete lists of the runs of one direction agree slot for slot:
/// the slots at the same place of both lists lie in the same line, begin at
/// the same place and have the same number of cells.
proof fn lemma_listed_same_at(
    rows: Seq<Seq<Field>>,
    horizontal: bool,
    a: Seq<WordField>,
    base_a: int,
    end_a: int,
    b: Seq<WordField>,
    base_b: int,
    end_b: int,
    line: int,
    k: int,
)
    requires
        listed(rows, horizontal, a, base_a, end_a, line, 0),
        listed(rows, horizontal, b, base_b, end_b, line, 0),
        0 <= k,
        base_a + k < end_a,
        base_b + k < end_b,
    ensures
        slot_line(a[base_a + k], horizontal) == slot_line(b[base_b + k], horizontal),
        slot_start(a[base_a + k], horizontal) == slot_start(b[base_b + k], horizontal),
        slot_span(a[base_a + k], horizontal) == slot_span(b[base_b + k], horizontal),
    decreases k,
{
    let x = a[base_a + k];
    let y = b[base_b + k];
    assert(slot_is_run(rows, horizontal, x));
    assert(slot_is_run(rows, horizontal, y));
    assert(is_run(
        rows,
        horizontal,
        slot_line(x, horizontal),
        slot_start(x, horizontal),
        slot_span(x, horizontal),
    ));
    let jb = choose|j: int|
        base_b <= j < end_b && slot_line(#[trigger] b[j], horizontal) == slot_line(x, horizontal)
            && slot_start(b[j], horizontal) == slot_start(x, horizontal) && slot_span(
            b[j],
            horizontal,
        ) == slot_span(x, horizontal);
    if jb - base_b < k {
        lemma_listed_same_at(rows, horizontal, a, base_a, end_a, b, base_b, end_b, line, jb - base_b);
        assert(slot_line(a[base_a + (jb - base_b)], horizontal) == slot_line(b[jb], horizontal));
        assert(false);
    }
    assert(is_run(
        rows,
        horizontal,
        slot_line(y, horizontal),
        slot_start(y, horizontal),
        slot_span(y, horizontal),
    ));
    let ja = choose|j: int|
        base_a <= j < end_a && slot_line(#[trigger] a[j], horizontal) == slot_line(y, horizontal)
            && slot_start(a[j], horizontal) == slot_start(y, horizontal) && slot_span(
            a[j],
            horizontal,
        ) == slot_span(y, horizontal);
    if ja - base_a < k {
        lemma_listed_same_at(rows, horizontal, a, base_a, end_a, b, base_b, end_b, line, ja - base_a);
        assert(slot_line(b[base_b + (ja - base_a)], horizontal) == slot_line(a[ja], horizontal));
        assert(false);
    }
    if jb > base_b + k {
        assert(slot_line(b[base_b + k], horizontal) < slot_line(b[jb], horizontal) || (slot_line(
            b[base_b + k],
            horizontal,
        ) == slot_line(b[jb], horizontal) && slot_start(b[base_b + k], horizontal) < slot_start(
            b[jb],
            horizontal,
        )));
    }
    if ja > base_a + k {
        assert(slot_line(a[base_a + k], horizontal) < slot_line(a[ja], horizontal) || (slot_line(
            a[base_a + k],
            horizontal,
        ) == slot_line(a[ja], horizontal) && slot_start(a[base_a + k], horizontal) < slot_start(
            a[ja],
            horizontal,
        )));
    }
}

/// Two complete lists of the runs of one direction are equally long.
proof fn lemma_listed_same_count(
    rows: Seq<Seq<Field>>,
    horizontal: bool,
    a: Seq<WordField>,
    base_a: int,
    end_a: int,
    b: Seq<WordField>,
    base_b: int,
    end_b: int,
    line: int,
)
    requires
        listed(rows, horizontal, a, base_a, end_a, line, 0),
        listed(rows, horizontal, b, base_b, end_b, line, 0),
    ensures
        end_a - base_a <= end_b - base_b,
{
    if end_a - base_a > end_b - base_b {
        let k = end_b - base_b;
        let x = a[base_a + k];
        assert(slot_is_run(rows, horizontal, x));
        assert(is_run(
            rows,
            horizontal,
            slot_line(x, horizontal),
            slot_start(x, horizontal),
            slot_span(x, horizontal),
        ));
        let jb = choose|j: int|
            base_b <= j < end_b && slot_line(#[trigger] b[j], horizontal) == slot_line(
                x,
                horizontal,
            ) && slot_start(b[j], horizontal) == slot_start(x, horizontal) && slot_span(
                b[j],
                horizontal,
            ) == slot_span(x, horizontal);
        lemma_listed_same_at(rows, horizontal, a, base_a, end_a, b, base_b, end_b, line, jb - base_b);
        assert(slot_line(a[base_a + (jb - base_b)], horizontal) == slot_line(b[jb], horizontal));
        assert(false);
    }
}

/// Extraction has one result only: two lists that are both what extraction
/// finds in a grid hold the same slots.
pub proof fn lemma_extraction_unique(rows: Seq<Seq<Field>>, a: Seq<WordField>, b: Seq<WordField>)
    requires
        extraction(rows, a),
        extraction(rows, b),
    ensures
        same_slots(a, b),
{
    let ma = choose|m: int| splits_at(rows, a, m);
    let mb = choose|m: int| splits_at(rows, b, m);
    let height = rows.len() as int;
    let across = width(rows);
    lemma_listed_same_count(rows, true, a, 0, ma, b, 0, mb, height);
    lemma_listed_same_count(rows, true, b, 0, mb, a, 0, ma, height);
    lemma_listed_same_count(rows, false, a, ma, a.len() as int, b, mb, b.len() as int, across);
    lemma_listed_same_count(rows, false, b, mb, b.len() as int, a, ma, a.len() as int, across);
    assert forall|j: int| 0 <= j < a.len() implies (#[trigger] a[j]).position == b[j].position
        && a[j].size == b[j].size && a[j].word() == b[j].word() by {
        if j < ma {
            lemma_listed_same_at(rows, true, a, 0, ma, b, 0, mb, height, j);
            assert(slot_is_run(rows, true, a[j]));
            assert(slot_is_run(rows, true, b[j]));
        } else {
            lemma_listed_same_at(
                rows,
                false,
                a,
                ma,
                a.len() as int,
                b,
                mb,
                b.len() as int,
                across,
                j - ma,
            );
            assert(slot_is_run(rows, false, a[j]));
            assert(slot_is_run(rows, false, b[j]));
        }
    }
}

/// Finds the slots of a board: every run of open cells of every row, rows
/// from the top and runs from the left, and then every run of every column,
/// columns from the left and runs from the top. No slot has a word yet.
pub fn extract_word_fields(board: &Board) -> (slots: Vec<WordField>)
    requires
        board.wf(),
    ensures
        extraction(board@, slots@),
        all_fit(slots@, board@),
        forall|k: int| 0 <= k < slots@.len() ==> (#[trigger] slots@[k]).selected_word is None,
{
    let mut slots: Vec<WordField> = Vec::new();
    let nrows = board.nrows();
    let ncols = board.ncols();
    let mut r: usize = 0;
    while r < nrows
        invariant
            board.wf(),
            nrows == board@.len(),
            r <= nrows,
            listed(board@, true, slots@, 0, slots@.len() as int, r as int, 0),
            all_fit(slots@, board@),
        decreases nrows - r,
    {
        scan_line(board, true, r, &mut slots, Ghost(0));
        r = r + 1;
    }
    let ghost m = slots@.len() as int;
    let ghost row_slots = slots@;
    let mut c: usize = 0;
    while c < ncols
        invariant
            board.wf(),
            ncols == width(board@),
            c <= ncols,
            m == row_slots.len(),
            slots@.len() >= m,
            slots@.take(m) == row_slots,
            listed(board@, true, row_slots, 0, m, board@.len() as int, 0),
            listed(board@, false, slots@, m, slots@.len() as int, c as int, 0),
            all_fit(slots@, board@),
        decreases ncols - c,
    {
        let ghost before = slots@;
        scan_line(board, false, c, &mut slots, Ghost(m));
        proof {
            assert(slots@.take(m) =~= slots@.take(before.len() as int).take(m));
        }
        c = c + 1;
    }
    proof {
        let rows = board@;
        assert forall|k: int| 0 <= k < m implies slots@[k] == row_slots[k] by {
            assert(slots@.take(m)[k] == slots@[k]);
        }
        assert(listed(rows, true, slots@, 0, m, rows.len() as int, 0)) by {
            assert forall|k: int| 0 <= k < m implies slot_is_run(rows, true, #[trigger] slots@[k])
                && run_before(
                slot_line(slots@[k], true),
                slot_start(slots@[k], true),
                slot_span(slots@[k], true),
                rows.len() as int,
                0,
            ) by {
                assert(slots@[k] == row_slots[k]);
            }
            assert forall|a: int, b: int| 0 <= a < b < m implies slot_line(
                #[trigger] slots@[a],
                true,
            ) < slot_line(#[trigger] slots@[b], true) || (slot_line(slots@[a], true) == slot_line(
                slots@[b],
                true,
            ) && slot_start(slots@[a], true) < slot_start(slots@[b], true)) by {
                assert(slots@[a] == row_slots[a]);
                assert(slots@[b] == row_slots[b]);
            }
            assert forall|index: int, start: int, n: int|
                #[trigger] is_run(rows, true, index, start, n) && run_before(
                    index,
                    start,
                    n,
                    rows.len() as int,
                    0,
                ) implies exists|k: int|
                0 <= k < m && slot_line(#[trigger] slots@[k], true) == index && slot_start(
                    slots@[k],
                    true,
                ) == start && slot_span(slots@[k], true) == n by {
                let k = choose|k: int|
                    0 <= k < m && slot_line(#[trigger] row_slots[k], true) == index && slot_start(
                        row_slots[k],
                        true,
                    ) == start && slot_span(row_slots[k], true) == n;
                assert(slots@[k] == row_slots[k]);
            }
        }
        assert(splits_at(rows, slots@, m));
        assert forall|k: int| 0 <= k < slots@.len() implies (
        #[trigger] slots@[k]).selected_word is None by {
            if k < m {
                assert(slot_is_run(rows, true, slots@[k]));
            } else {
                assert(slot_is_run(rows, false, slots@[k]));
            }
        }
    }
    slots
}

/// True when both slots lie at the same place, have the same size and the
/// same word.
pub open spec fn same_slot(a: WordField, b: WordField) -> bool {
    a.position == b.position && a.size == b.size && a.word() == b.word()
}

/// True when both lists hold slots at the same places, of the same sizes
/// and with the same words.
pub open spec fn same_slots(a: Seq<WordField>, b: Seq<WordField>) -> bool {
    &&& a.len() == b.len()
    &&& forall|j: int|
        0 <= j < a.len() ==> (#[trigger] a[j]).position == b[j].position && a[j].size == b[j].size
            && a[j].word() == b[j].word()
}

/// The slots of `slots` for whose length the inventory holds a word, in
/// their order.
pub open spec fn live_slots(slots: Seq<WordField>, inventory: Seq<Seq<Seq<u8>>>) -> Seq<
    WordField,
> {
    slots.filter(|slot: WordField| available(inventory, slot.length()).len() > 0)
}

/// Drops the slots that no word can fill: those for whose length the
/// inventory holds no word. The others are kept in their order.
pub fn filter_out_fields_without_possible_words(word_fields: Vec<WordField>, words: &Words) -> (kept:
    Vec<WordField>)
    requires
        forall|k: int| 0 <= k < word_fields@.len() ==> (#[trigger] word_fields@[k]).wf(),
    ensures
        kept@.len() == live_slots(word_fields@, words@).len(),
        forall|k: int|
            0 <= k < kept@.len() ==> available(words@, (#[trigger] kept@[k]).length()).len() > 0
                && exists|j: int|
                0 <= j < word_fields@.len() && same_slot(kept@[k], #[trigger] word_fields@[j]),
        forall|k: int|
            0 <= k < kept@.len() ==> {
                &&& (#[trigger] kept@[k]).position == live_slots(word_fields@, words@)[k].position
                &&& kept@[k].size == live_slots(word_fields@, words@)[k].size
                &&& kept@[k].word() == live_slots(word_fields@, words@)[k].word()
            },
{
    let mut kept: Vec<WordField> = Vec::new();
    let mut i: usize = 0;
    let ghost keep = |slot: WordField| available(words@, slot.length()).len() > 0;
    while i < word_fields.len()
        invariant
            i <= word_fields@.len(),
            keep == |slot: WordField| available(words@, slot.length()).len() > 0,
            forall|k: int| 0 <= k < word_fields@.len() ==> (#[trigger] word_fields@[k]).wf(),
            forall|k: int|
                0 <= k < kept@.len() ==> available(words@, (#[trigger] kept@[k]).length()).len() > 0
                    && exists|j: int|
                    0 <= j < word_fields@.len() && same_slot(kept@[k], #[trigger] word_fields@[j]),
            kept@.len() == word_fields@.take(i as int).filter(keep).len(),
            forall|k: int|
                0 <= k < kept@.len() ==> {
                    &&& (#[trigger] kept@[k]).position == word_fields@.take(i as int).filter(
                        keep,
                    )[k].position
                    &&& kept@[k].size == word_fields@.take(i as int).filter(keep)[k].size
                    &&& kept@[k].word() == word_fields@.take(i as int).filter(keep)[k].word()
                },
        decreases word_fields@.len() - i,
    {
        let slot = &word_fields[i];
        proof {
            assert(slot.wf());
            let sofar = word_fields@.take(i + 1);
            assert(sofar.drop_last() =~= word_fields@.take(i as int));
            assert(sofar.last() == *slot);
            reveal(Seq::filter);
        }
        if words.words_with_length(slot.len()).is_some() {
            let copy = slot.duplicate();
            let ghost before = kept@;
            kept.push(copy);
            proof {
                assert(same_slot(copy, word_fields@[i as int]));
                assert forall|k: int| 0 <= k < kept@.len() implies available(
                    words@,
                    (#[trigger] kept@[k]).length(),
                ).len() > 0 && exists|j: int|
                    0 <= j < word_fields@.len() && same_slot(kept@[k], #[trigger] word_fields@[j]) by {
                    if k < before.len() {
                        assert(kept@[k] == before[k]);
                    }
                }
            }
        }
        i = i + 1;
    }
    proof {
        assert(word_fields@.take(i as int) =~= word_fields@);
    }
    kept
}

} // verus!
