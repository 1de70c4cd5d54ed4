//! Constraint propagation: the domains of the cells are made to agree with
//! the words that are left and with the words that are chosen.

use vstd::prelude::*;
use crate::board::{grid_wf, lemma_with_cell_wf, width, Board};
use crate::field::Field;
use crate::slots::{all_fit, same_slots, WordField};
use crate::word::Word;
use crate::words::{available, word_views, Words};

verus! {

/// True when some word of the bucket has letter `l` at place `i`.
pub open spec fn in_column(bucket: Seq<Seq<u8>>, i: int, j: int, l: u8) -> bool {
    0 <= j < bucket.len() && bucket[j][i] == l
}

/// The letters that the words of a bucket have at place `i`.
pub open spec fn column_letters(bucket: Seq<Seq<u8>>, i: int) -> Set<u8> {
    Set::new(|l: u8| exists|j: int| in_column(bucket, i, j, l))
}

/// True when cell `i` of the slot is the cell at `(r, c)`.
pub open spec fn covers(slot: WordField, i: int, r: int, c: int) -> bool {
    0 <= i < slot.length() && slot.cell(i) == (r, c)
}

/// True when the slot, through one of its first `limit` cells, offers
/// letter `l` to the cell at `(r, c)`: the cell is cell `i` of the slot and
/// a word of the bucket has `l` at place `i`.
pub open spec fn slot_offers(
    slot: WordField,
    bucket: Seq<Seq<u8>>,
    limit: int,
    r: int,
    c: int,
    i: int,
    l: u8,
) -> bool {
    i < limit && covers(slot, i, r, c) && column_letters(bucket, i).contains(l)
}

/// The letters that a slot offers to the cell at `(r, c)` through its first
/// `limit` cells.
pub open spec fn slot_offer(slot: WordField, bucket: Seq<Seq<u8>>, limit: int, r: int, c: int) -> Set<
    u8,
> {
    Set::new(|l: u8| exists|i: int| slot_offers(slot, bucket, limit, r, c, i, l))
}

/// True when slot `k` offers letter `l` to the cell at `(r, c)` with a word
/// of its length that the inventory still holds.
pub open spec fn offers(
    slots: Seq<WordField>,
    inventory: Seq<Seq<Seq<u8>>>,
    limit: int,
    r: int,
    c: int,
    k: int,
    l: u8,
) -> bool {
    0 <= k < limit && k < slots.len() && slot_offer(
        slots[k],
        available(inventory, slots[k].length()),
        slots[k].length(),
        r,
        c,
    ).contains(l)
}

/// The letters that the first `limit` slots offer to the cell at `(r, c)`:
/// for each of these slots that covers the cell, the letters that the words
/// of the slot's length have at the cell's place in the slot.
pub open spec fn offered(
    slots: Seq<WordField>,
    inventory: Seq<Seq<Seq<u8>>>,
    limit: int,
    r: int,
    c: int,
) -> Set<u8> {
    Set::new(|l: u8| exists|k: int| offers(slots, inventory, limit, r, c, k, l))
}

/// True when the word chosen for slot `k` demands letter `l` at the cell at
/// `(r, c)`, which is cell `i` of the slot.
pub open spec fn demands(slots: Seq<WordField>, k: int, i: int, r: int, c: int, l: u8) -> bool {
    &&& 0 <= k < slots.len()
    &&& covers(slots[k], i, r, c)
    &&& slots[k].word() matches Some(w)
    &&& w[i] == l
}

/// True when a demand of letter `l` at `(r, c)` comes from a slot before
/// slot `limit`, or from one of the first `place` cells of slot `limit`.
pub open spec fn demands_before(
    slots: Seq<WordField>,
    limit: int,
    place: int,
    r: int,
    c: int,
    k: int,
    i: int,
    l: u8,
) -> bool {
    demands(slots, k, i, r, c, l) && (k < limit || (k == limit && i < place))
}

/// The letters that chosen words demand at the cell at `(r, c)`, as far as
/// they come from before cell `place` of slot `limit`.
pub open spec fn demanded_before(
    slots: Seq<WordField>,
    limit: int,
    place: int,
    r: int,
    c: int,
) -> Set<u8> {
    Set::new(|l: u8| exists|k: int, i: int| demands_before(slots, limit, place, r, c, k, i, l))
}

/// The letters that the chosen words demand at the cell at `(r, c)`.
pub open spec fn demanded(slots: Seq<WordField>, r: int, c: int) -> Set<u8> {
    demanded_before(slots, slots.len() as int, 0, r, c)
}

/// The letters of the cell at `(r, c)` together with those offered to it.
pub open spec fn widened(
    rows: Seq<Seq<Field>>,
    slots: Seq<WordField>,
    inventory: Seq<Seq<Seq<u8>>>,
    r: int,
    c: int,
) -> Set<u8> {
    rows[r][c].letters().union(offered(slots, inventory, slots.len() as int, r, c))
}

/// True when `(r, c)` is a cell of the grid.
pub open spec fn in_grid(rows: Seq<Seq<Field>>, r: int, c: int) -> bool {
    0 <= r < rows.len() && 0 <= c < rows[r].len()
}

/// True when both grids have the same number of rows and, row by row, of
/// cells.
pub open spec fn same_shape(a: Seq<Seq<Field>>, b: Seq<Seq<Field>>) -> bool {
    a.len() == b.len() && forall|r: int| 0 <= r < a.len() ==> (#[trigger] a[r]).len() == b[r].len()
}

/// True when the chosen words can stand together on the grid: whatever
/// letter is demanded at a cell is the only one demanded there, and is
/// among the cell's letters once the offered letters are added.
pub open spec fn consistent(
    rows: Seq<Seq<Field>>,
    slots: Seq<WordField>,
    inventory: Seq<Seq<Seq<u8>>>,
) -> bool {
    forall|r: int, c: int, l: u8|
        in_grid(rows, r, c) && #[trigger] demanded(slots, r, c).contains(l) ==> widened(
            rows,
            slots,
            inventory,
            r,
            c,
        ).contains(l) && demanded(slots, r, c) == set![l]
}

/// True when `after` is the cell at `(r, c)` after one pass: where a letter
/// is demanded, an open cell with just the demanded letter; elsewhere the
/// cell as it was with the offered letters added.
pub open spec fn propagated_cell(
    rows: Seq<Seq<Field>>,
    slots: Seq<WordField>,
    inventory: Seq<Seq<Seq<u8>>>,
    r: int,
    c: int,
    after: Field,
) -> bool {
    &&& after.wf()
    &&& if demanded(slots, r, c) == Set::<u8>::empty() {
        &&& after.is_open() == rows[r][c].is_open()
        &&& after.letters() == widened(rows, slots, inventory, r, c)
    } else {
        &&& after.is_open()
        &&& after.letters() == demanded(slots, r, c)
    }
}

/// True when `after` is the grid `rows` after one pass of propagation.
pub open spec fn propagated(
    rows: Seq<Seq<Field>>,
    slots: Seq<WordField>,
    inventory: Seq<Seq<Seq<u8>>>,
    after: Seq<Seq<Field>>,
) -> bool {
    &&& same_shape(rows, after)
    &&& forall|r: int, c: int|
        in_grid(rows, r, c) ==> propagated_cell(rows, slots, inventory, r, c, #[trigger] after[r][c])
}

/// Adds to a domain the letters that the words of a bucket have at place
/// `idx`.
fn offer_letters(field: &mut Field, bucket: &Vec<Word>, idx: usize)
    requires
        forall|j: int| 0 <= j < bucket@.len() ==> idx < (#[trigger] bucket@[j])@.len(),
    ensures
        final(field).is_open() == old(field).is_open(),
        final(field).letters() == old(field).letters().union(
            column_letters(word_views(bucket@), idx as int),
        ),
        final(field).wf(),
{
    let ghost views = word_views(bucket@);
    let mut j: usize = 0;
    proof {
        use_type_invariant(&*field);
        assert(field.letters() =~= old(field).letters().union(
            column_letters(views.take(0), idx as int),
        ));
    }
    while j < bucket.len()
        invariant
            j <= bucket@.len(),
            views == word_views(bucket@),
            forall|k: int| 0 <= k < bucket@.len() ==> idx < (#[trigger] bucket@[k])@.len(),
            field.is_open() == old(field).is_open(),
            field.wf(),
            field.letters() == old(field).letters().union(
                column_letters(views.take(j as int), idx as int),
            ),
        decreases bucket@.len() - j,
    {
        let letter = bucket[j].get(idx);
        let ghost before = field.letters();
        field.insert(letter);
        proof {
            let small = views.take(j as int);
            let large = views.take(j + 1);
            assert(views[j as int][idx as int] == letter.index());
            assert(column_letters(large, idx as int) =~= column_letters(small, idx as int).insert(
                letter.index(),
            )) by {
                assert forall|l: u8|
                    column_letters(large, idx as int).contains(l) implies column_letters(
                    small,
                    idx as int,
                ).insert(letter.index()).contains(l) by {
                    let w = choose|w: int| in_column(large, idx as int, w, l);
                    if w < j {
                        assert(in_column(small, idx as int, w, l));
                    }
                }
                assert forall|l: u8|
                    column_letters(small, idx as int).insert(letter.index()).contains(
                        l,
                    ) implies column_letters(large, idx as int).contains(l) by {
                    if column_letters(small, idx as int).contains(l) {
                        let w = choose|w: int| in_column(small, idx as int, w, l);
                        assert(in_column(large, idx as int, w, l));
                    } else {
                        assert(in_column(large, idx as int, j as int, l));
                    }
                }
            }
            assert(field.letters() =~= old(field).letters().union(
                column_letters(large, idx as int),
            ));
        }
        j = j + 1;
    }
    proof {
        assert(views.take(j as int) =~= views);
    }
}

/// The row and the column of cell `idx` of a slot.
fn cell_of(slot: &WordField, idx: usize) -> (place: (usize, usize))
    requires
        slot.wf(),
        idx < slot.length(),
        slot.position.0 + slot.size.0 <= usize::MAX,
        slot.position.1 + slot.size.1 <= usize::MAX,
    ensures
        slot.cell(idx as int) == (place.0 as int, place.1 as int),
{
    if slot.size.0 == 1 {
        (slot.position.0, slot.position.1 + idx)
    } else {
        (slot.position.0 + idx, slot.position.1)
    }
}

/// Offers the words of a bucket to the cells of a slot.
fn offer_slot(board: &mut Board, slot: &WordField, bucket: &Vec<Word>)
    requires
        old(board).wf(),
        slot.fits(old(board)@),
        forall|j: int| 0 <= j < bucket@.len() ==> (#[trigger] bucket@[j])@.len() == slot.length(),
    ensures
        final(board).wf(),
        same_shape(old(board)@, final(board)@),
        forall|r: int, c: int|
            in_grid(old(board)@, r, c) ==> {
                &&& (#[trigger] final(board)@[r][c]).is_open() == old(board)@[r][c].is_open()
                &&& final(board)@[r][c].letters() == old(board)@[r][c].letters().union(
                    slot_offer(*slot, word_views(bucket@), slot.length(), r, c),
                )
            },
{
    let ghost start = board@;
    let ghost views = word_views(bucket@);
    let nrows = board.nrows();
    let ncols = board.ncols();
    let len = slot.len();
    let mut idx: usize = 0;
    proof {
        assert forall|r: int, c: int| in_grid(start, r, c) implies (
        #[trigger] board@[r][c]).letters() == start[r][c].letters().union(
            slot_offer(*slot, views, 0, r, c),
        ) by {
            assert(start[r][c].letters().union(slot_offer(*slot, views, 0, r, c))
                =~= start[r][c].letters());
        }
    }
    while idx < len
        invariant
            idx <= len,
            len == slot.length(),
            nrows == start.len(),
            ncols == width(start),
            start == old(board)@,
            views == word_views(bucket@),
            grid_wf(start),
            slot.fits(start),
            forall|j: int|
                0 <= j < bucket@.len() ==> (#[trigger] bucket@[j])@.len() == slot.length(),
            board.wf(),
            same_shape(start, board@),
            forall|r: int, c: int|
                in_grid(start, r, c) ==> {
                    &&& (#[trigger] board@[r][c]).is_open() == start[r][c].is_open()
                    &&& board@[r][c].letters() == start[r][c].letters().union(
                        slot_offer(*slot, views, idx as int, r, c),
                    )
                },
        decreases len - idx,
    {
        let (row, col) = cell_of(slot, idx);
        let ghost before = board@;
        assert(before[row as int].len() == start[row as int].len());
        assert(start[row as int].len() == start[0].len());
        let mut field = board.get(row, col);
        offer_letters(&mut field, bucket, idx);
        board.set(row, col, field);
        proof {
            lemma_with_cell_wf(before, row as int, col as int, field);
            let next: int = idx + 1;
            assert forall|r: int, c: int| in_grid(start, r, c) implies {
                &&& (#[trigger] board@[r][c]).is_open() == start[r][c].is_open()
                &&& board@[r][c].letters() == start[r][c].letters().union(
                    slot_offer(*slot, views, next, r, c),
                )
            } by {
                let small = slot_offer(*slot, views, idx as int, r, c);
                let large = slot_offer(*slot, views, next, r, c);
                if r == row && c == col {
                    assert(board@[r][c] == field);
                    assert(large =~= small.union(column_letters(views, idx as int))) by {
                        assert forall|l: u8| large.contains(l) implies small.union(
                            column_letters(views, idx as int),
                        ).contains(l) by {
                            let i = choose|i: int| slot_offers(*slot, views, next, r, c, i, l);
                            if i < idx {
                                assert(slot_offers(*slot, views, idx as int, r, c, i, l));
                            }
                        }
                        assert forall|l: u8|
                            small.union(column_letters(views, idx as int)).contains(
                                l,
                            ) implies large.contains(l) by {
                            if small.contains(l) {
                                let i = choose|i: int|
                                    slot_offers(*slot, views, idx as int, r, c, i, l);
                                assert(slot_offers(*slot, views, next, r, c, i, l));
                            } else {
                                assert(slot_offers(*slot, views, next, r, c, idx as int, l));
                            }
                        }
                    }
                    assert(board@[r][c].letters() =~= start[r][c].letters().union(large));
                } else {
                    assert(board@[r][c] == before[r][c]);
                    assert(large =~= small) by {
                        assert forall|l: u8| large.contains(l) implies small.contains(l) by {
                            let i = choose|i: int| slot_offers(*slot, views, next, r, c, i, l);
                            assert(slot_offers(*slot, views, idx as int, r, c, i, l));
                        }
                        assert forall|l: u8| small.contains(l) implies large.contains(l) by {
                            let i = choose|i: int|
                                slot_offers(*slot, views, idx as int, r, c, i, l);
                            assert(slot_offers(*slot, views, next, r, c, i, l));
                        }
                    }
                }
            }
        }
        idx = idx + 1;
    }
}

/// Offers the words that are left to the cells of every slot: each cell
/// gets the letters that the words of its slots' lengths have at its place.
fn offer_all(board: &mut Board, slots: &Vec<WordField>, words: &Words)
    requires
        old(board).wf(),
        all_fit(slots@, old(board)@),
        words.wf(),
    ensures
        final(board).wf(),
        same_shape(old(board)@, final(board)@),
        forall|r: int, c: int|
            in_grid(old(board)@, r, c) ==> {
                &&& (#[trigger] final(board)@[r][c]).is_open() == old(board)@[r][c].is_open()
                &&& final(board)@[r][c].letters() == widened(old(board)@, slots@, words@, r, c)
            },
{
    let ghost start = board@;
    let ghost inventory = words@;
    let mut k: usize = 0;
    proof {
        assert forall|r: int, c: int| in_grid(start, r, c) implies (
        #[trigger] board@[r][c]).letters() == start[r][c].letters().union(
            offered(slots@, inventory, 0, r, c),
        ) by {
            assert(start[r][c].letters().union(offered(slots@, inventory, 0, r, c))
                =~= start[r][c].letters());
        }
    }
    while k < slots.len()
        invariant
            k <= slots@.len(),
            start == old(board)@,
            inventory == words@,
            grid_wf(start),
            all_fit(slots@, start),
            words.wf(),
            board.wf(),
            same_shape(start, board@),
            forall|r: int, c: int|
                in_grid(start, r, c) ==> {
                    &&& (#[trigger] board@[r][c]).is_open() == start[r][c].is_open()
                    &&& board@[r][c].letters() == start[r][c].letters().union(
                        offered(slots@, inventory, k as int, r, c),
                    )
                },
        decreases slots@.len() - k,
    {
        let slot = &slots[k];
        let ghost before = board@;
        let ghost next: int = k + 1;
        assert(slot.fits(start));
        assert(before[0].len() == start[0].len());
        let len = slot.len();
        let ghost bucket = available(inventory, len as int);
        match words.words_with_length(len) {
            Some(found) => {
                proof {
                    assert forall|j: int| 0 <= j < found@.len() implies (
                    #[trigger] found@[j])@.len() == slot.length() by {
                        assert(word_views(found@)[j] == found@[j]@);
                        assert(inventory[len as int][j].len() == len);
                    }
                }
                offer_slot(board, slot, found);
            },
            None => {
                proof {
                    assert forall|r: int, c: int| in_grid(start, r, c) implies slot_offer(
                        *slot,
                        bucket,
                        slot.length(),
                        r,
                        c,
                    ) =~= Set::<u8>::empty() by {
                        assert forall|l: u8|
                            !slot_offer(*slot, bucket, slot.length(), r, c).contains(l) by {
                            if slot_offer(*slot, bucket, slot.length(), r, c).contains(l) {
                                let i = choose|i: int|
                                    slot_offers(*slot, bucket, slot.length(), r, c, i, l);
                                let j = choose|j: int| in_column(bucket, i, j, l);
                                assert(in_column(bucket, i, j, l));
                            }
                        }
                    }
                }
            },
        }
        proof {
            assert forall|r: int, c: int| in_grid(start, r, c) implies {
                &&& (#[trigger] board@[r][c]).is_open() == start[r][c].is_open()
                &&& board@[r][c].letters() == start[r][c].letters().union(
                    offered(slots@, inventory, next, r, c),
                )
            } by {
                let small = offered(slots@, inventory, k as int, r, c);
                let large = offered(slots@, inventory, next, r, c);
                let own = slot_offer(*slot, bucket, slot.length(), r, c);
                assert(in_grid(before, r, c));
                assert(large =~= small.union(own)) by {
                    assert forall|l: u8| large.contains(l) implies small.union(own).contains(l) by {
                        let w = choose|w: int| offers(slots@, inventory, next, r, c, w, l);
                        if w < k {
                            assert(offers(slots@, inventory, k as int, r, c, w, l));
                        }
                    }
                    assert forall|l: u8| small.union(own).contains(l) implies large.contains(l) by {
                        if small.contains(l) {
                            let w = choose|w: int| offers(slots@, inventory, k as int, r, c, w, l);
                            assert(offers(slots@, inventory, next, r, c, w, l));
                        } else {
                            assert(offers(slots@, inventory, next, r, c, k as int, l));
                        }
                    }
                }
                assert(board@[r][c].letters() =~= start[r][c].letters().union(large));
            }
        }
        k = k + 1;
    }
}

/// True when the chosen words agree with the grid as it stands: whatever
/// letter is demanded at a cell is among the cell's letters and is the only
/// one demanded there.
pub open spec fn agreeable(rows: Seq<Seq<Field>>, slots: Seq<WordField>) -> bool {
    forall|r: int, c: int, l: u8|
        in_grid(rows, r, c) && #[trigger] demanded(slots, r, c).contains(l)
            ==> rows[r][c].letters().contains(l) && demanded(slots, r, c) == set![l]
}

/// True when `after` is the cell `before` once the demands `demand` have
/// been enforced: unchanged without a demand, and else an open cell with
/// the demanded letters.
pub open spec fn settled_cell(before: Field, demand: Set<u8>, after: Field) -> bool {
    &&& after.wf()
    &&& if demand == Set::<u8>::empty() {
        after == before
    } else {
        after.is_open() && after.letters() == demand
    }
}

/// What holds of one cell while the chosen words are enforced: it is
/// settled for the demands met so far, and these agree with the cell as it
/// was at the start.
spec fn enforced_cell(before: Field, demand: Set<u8>, now: Field) -> bool {
    &&& settled_cell(before, demand, now)
    &&& forall|l: u8| demand.contains(l) ==> before.letters().contains(l) && demand == set![l]
}

/// What holds while the chosen words are enforced, when everything before
/// cell `place` of slot `limit` has been dealt with.
spec fn enforced(
    start: Seq<Seq<Field>>,
    slots: Seq<WordField>,
    limit: int,
    place: int,
    now: Seq<Seq<Field>>,
) -> bool {
    forall|r: int, c: int|
        in_grid(start, r, c) ==> #[trigger] enforced_cell(
            start[r][c],
            demanded_before(slots, limit, place, r, c),
            now[r][c],
        )
}

/// One more cell of a slot with a word adds that cell's demand.
proof fn lemma_demand_step(slots: Seq<WordField>, limit: int, place: int, r: int, c: int)
    requires
        0 <= limit < slots.len(),
        slots[limit].word() is Some,
        0 <= place < slots[limit].length(),
    ensures
        demanded_before(slots, limit, place + 1, r, c) == if slots[limit].cell(place) == (r, c) {
            demanded_before(slots, limit, place, r, c).insert(slots[limit].word()->0[place])
        } else {
            demanded_before(slots, limit, place, r, c)
        },
{
    let next = place + 1;
    let small = demanded_before(slots, limit, place, r, c);
    let large = demanded_before(slots, limit, next, r, c);
    let letter = slots[limit].word()->0[place];
    let hit = slots[limit].cell(place) == (r, c);
    assert forall|l: u8| large.contains(l) implies small.contains(l) || (hit && l == letter) by {
        let (k, i) = choose|k: int, i: int| demands_before(slots, limit, next, r, c, k, i, l);
        if k < limit || i < place {
            assert(demands_before(slots, limit, place, r, c, k, i, l));
        }
    }
    assert forall|l: u8| small.contains(l) implies large.contains(l) by {
        let (k, i) = choose|k: int, i: int| demands_before(slots, limit, place, r, c, k, i, l);
        assert(demands_before(slots, limit, next, r, c, k, i, l));
    }
    if hit {
        assert(demands_before(slots, limit, next, r, c, limit, place, letter));
        assert(large =~= small.insert(letter));
    } else {
        assert(large =~= small);
    }
}

/// Past the last cell of a slot, or past a slot without a word, the demands
/// are those up to the next slot.
proof fn lemma_demand_next(slots: Seq<WordField>, limit: int, place: int, r: int, c: int)
    requires
        0 <= limit < slots.len(),
        slots[limit].word() is None || place >= slots[limit].length(),
    ensures
        demanded_before(slots, limit + 1, 0, r, c) == demanded_before(slots, limit, place, r, c),
{
    let next = limit + 1;
    let small = demanded_before(slots, limit, place, r, c);
    let large = demanded_before(slots, next, 0, r, c);
    assert forall|l: u8| large.contains(l) implies small.contains(l) by {
        let (k, i) = choose|k: int, i: int| demands_before(slots, next, 0, r, c, k, i, l);
        assert(demands_before(slots, limit, place, r, c, k, i, l));
    }
    assert forall|l: u8| small.contains(l) implies large.contains(l) by {
        let (k, i) = choose|k: int, i: int| demands_before(slots, limit, place, r, c, k, i, l);
        assert(demands_before(slots, next, 0, r, c, k, i, l));
    }
    assert(large =~= small);
}

/// A demand that has been met on the way is among all the demands.
proof fn lemma_demand_kept(slots: Seq<WordField>, limit: int, place: int, r: int, c: int, l: u8)
    requires
        demanded_before(slots, limit, place, r, c).contains(l),
    ensures
        demanded(slots, r, c).contains(l),
{
    let (k, i) = choose|k: int, i: int| demands_before(slots, limit, place, r, c, k, i, l);
    assert(demands_before(slots, slots.len() as int, 0, r, c, k, i, l));
}

/// Enforces the chosen words: each cell of a slot with a word must hold the
/// word's letter and is then resolved to it. Stops with `false` at the
/// first cell that does not hold the letter.
fn enforce_chosen(board: &mut Board, slots: &Vec<WordField>) -> (ok: bool)
    requires
        old(board).wf(),
        all_fit(slots@, old(board)@),
    ensures
        final(board).wf(),
        same_shape(old(board)@, final(board)@),
        ok == agreeable(old(board)@, slots@),
        ok ==> forall|r: int, c: int|
            in_grid(old(board)@, r, c) ==> settled_cell(
                old(board)@[r][c],
                demanded(slots@, r, c),
                #[trigger] final(board)@[r][c],
            ),
{
    let ghost start = board@;
    let nrows = board.nrows();
    let ncols = board.ncols();
    let mut k: usize = 0;
    proof {
        assert forall|r: int, c: int| in_grid(start, r, c) implies demanded_before(
            slots@,
            0,
            0,
            r,
            c,
        ) =~= Set::<u8>::empty() by {
            assert forall|l: u8| !demanded_before(slots@, 0, 0, r, c).contains(l) by {
                if demanded_before(slots@, 0, 0, r, c).contains(l) {
                    let (w, i) = choose|w: int, i: int|
                        demands_before(slots@, 0, 0, r, c, w, i, l);
                    assert(demands_before(slots@, 0, 0, r, c, w, i, l));
                }
            }
        }
        assert forall|r: int, c: int| in_grid(start, r, c) implies #[trigger] enforced_cell(
            start[r][c],
            demanded_before(slots@, 0, 0, r, c),
            board@[r][c],
        ) by {
            assert(demanded_before(slots@, 0, 0, r, c) =~= Set::<u8>::empty());
            assert(start[r][c].wf());
        }
    }
    while k < slots.len()
        invariant
            k <= slots@.len(),
            start == old(board)@,
            nrows == start.len(),
            ncols == width(start),
            grid_wf(start),
            all_fit(slots@, start),
            board.wf(),
            same_shape(start, board@),
            enforced(start, slots@, k as int, 0, board@),
        decreases slots@.len() - k,
    {
        let slot = &slots[k];
        assert(slot.fits(start));
        let ghost place: int = 0;
        if let Some(word) = &slot.selected_word {
            let len = slot.len();
            let mut idx: usize = 0;
            while idx < len
                invariant
                    idx <= len,
                    len == slot.length(),
                    k < slots@.len(),
                    *slot == slots@[k as int],
                    slot.selected_word == Some(*word),
                    start == old(board)@,
                    nrows == start.len(),
                    ncols == width(start),
                    grid_wf(start),
                    all_fit(slots@, start),
                    slot.fits(start),
                    board.wf(),
                    same_shape(start, board@),
                    enforced(start, slots@, k as int, idx as int, board@),
                decreases len - idx,
            {
                let (row, col) = cell_of(slot, idx);
                let ghost before = board@;
                let ghost met = demanded_before(slots@, k as int, idx as int, row as int, col as int);
                assert(before[row as int].len() == start[row as int].len());
                assert(start[row as int].len() == start[0].len());
                assert(in_grid(start, row as int, col as int));
                let field = board.get(row, col);
                let letter = word.get(idx);
                proof {
                    assert(demands_before(
                        slots@,
                        slots@.len() as int,
                        0,
                        row as int,
                        col as int,
                        k as int,
                        idx as int,
                        letter.index(),
                    ));
                    assert(demanded(slots@, row as int, col as int).contains(letter.index()));
                }
                if field.contains(letter) {
                    let mut resolved = Field::new_empty();
                    resolved.insert(letter);
                    board.set(row, col, resolved);
                    proof {
                        let next: int = idx + 1;
                        lemma_with_cell_wf(before, row as int, col as int, resolved);
                        assert(resolved.letters() =~= set![letter.index()]);
                        assert forall|r: int, c: int| in_grid(start, r, c) implies #[trigger] enforced_cell(
                            start[r][c],
                            demanded_before(slots@, k as int, next, r, c),
                            board@[r][c],
                        ) by {
                            lemma_demand_step(slots@, k as int, idx as int, r, c);
                            let old_demand = demanded_before(slots@, k as int, idx as int, r, c);
                            let new_demand = demanded_before(slots@, k as int, next, r, c);
                            assert(enforced_cell(start[r][c], old_demand, before[r][c]));
                            if r == row && c == col {
                                assert(board@[r][c] == resolved);
                                assert(new_demand == old_demand.insert(letter.index()));
                                if old_demand =~= Set::<u8>::empty() {
                                    assert(before[r][c] == start[r][c]);
                                    assert(new_demand =~= set![letter.index()]);
                                } else {
                                    assert(before[r][c].letters() == old_demand);
                                    assert(old_demand.contains(letter.index()));
                                    assert(old_demand == set![letter.index()]);
                                    assert(new_demand =~= set![letter.index()]);
                                }
                                assert(new_demand.contains(letter.index()));
                                assert(!(new_demand =~= Set::<u8>::empty()));
                            } else {
                                assert(board@[r][c] == before[r][c]);
                                assert(new_demand == old_demand);
                            }
                        }
                    }
                } else {
                    proof {
                        let r = row as int;
                        let c = col as int;
                        assert(enforced_cell(start[r][c], met, before[r][c]));
                        if met =~= Set::<u8>::empty() {
                            assert(!start[r][c].letters().contains(letter.index()));
                        } else {
                            assert(before[r][c].letters() == met);
                            let other = choose|l: u8| met.contains(l);
                            if forall|l: u8| !met.contains(l) {
                                assert(met =~= Set::<u8>::empty());
                            }
                            assert(met.contains(other));
                            lemma_demand_kept(slots@, k as int, idx as int, r, c, other);
                            assert(other != letter.index());
                            assert(!set![letter.index()].contains(other));
                        }
                        assert(!agreeable(start, slots@));
                    }
                    return false;
                }
                idx = idx + 1;
            }
            proof {
                place = len as int;
            }
        }
        proof {
            let next: int = k + 1;
            assert(slot.word() is None || place >= slot.length());
            assert forall|r: int, c: int| in_grid(start, r, c) implies #[trigger] enforced_cell(
                start[r][c],
                demanded_before(slots@, next, 0, r, c),
                board@[r][c],
            ) by {
                lemma_demand_next(slots@, k as int, place, r, c);
                assert(enforced_cell(
                    start[r][c],
                    demanded_before(slots@, k as int, place, r, c),
                    board@[r][c],
                ));
            }
        }
        k = k + 1;
    }
    proof {
        assert forall|r: int, c: int, l: u8|
            in_grid(start, r, c) && #[trigger] demanded(slots@, r, c).contains(l) implies start[r][c].letters().contains(
            l,
        ) && demanded(slots@, r, c) == set![l] by {
            assert(enforced_cell(start[r][c], demanded(slots@, r, c), board@[r][c]));
        }
        assert forall|r: int, c: int| in_grid(start, r, c) implies settled_cell(
            start[r][c],
            demanded(slots@, r, c),
            #[trigger] board@[r][c],
        ) by {
            assert(enforced_cell(start[r][c], demanded(slots@, r, c), board@[r][c]));
        }
    }
    true
}

/// Slots that fit a grid fit every grid of the same shape.
pub proof fn lemma_fit_same_shape(slots: Seq<WordField>, a: Seq<Seq<Field>>, b: Seq<Seq<Field>>)
    requires
        all_fit(slots, a),
        same_shape(a, b),
        a.len() > 0,
    ensures
        all_fit(slots, b),
{
    assert(a[0].len() == b[0].len());
    assert forall|k: int| 0 <= k < slots.len() implies (#[trigger] slots[k]).fits(b) by {
        assert(slots[k].fits(a));
    }
}

/// Lists with the same slots offer and demand the same letters at a cell.
proof fn lemma_same_slots_cell(
    a: Seq<WordField>,
    b: Seq<WordField>,
    inventory: Seq<Seq<Seq<u8>>>,
    r: int,
    c: int,
)
    requires
        same_slots(a, b),
    ensures
        offered(a, inventory, a.len() as int, r, c) == offered(b, inventory, b.len() as int, r, c),
        demanded(a, r, c) == demanded(b, r, c),
{
    let n = a.len() as int;
    assert forall|k: int, l: u8|
        offers(a, inventory, n, r, c, k, l) == offers(b, inventory, n, r, c, k, l) by {
        if 0 <= k < n {
            assert(a[k].position == b[k].position && a[k].size == b[k].size);
            let bucket = available(inventory, a[k].length());
            let limit = a[k].length();
            if slot_offer(a[k], bucket, limit, r, c).contains(l) {
                let i = choose|i: int| slot_offers(a[k], bucket, limit, r, c, i, l);
                assert(slot_offers(b[k], bucket, limit, r, c, i, l));
            }
            if slot_offer(b[k], bucket, limit, r, c).contains(l) {
                let i = choose|i: int| slot_offers(b[k], bucket, limit, r, c, i, l);
                assert(slot_offers(a[k], bucket, limit, r, c, i, l));
            }
        }
    }
    assert forall|l: u8|
        offered(a, inventory, n, r, c).contains(l) == offered(b, inventory, n, r, c).contains(
            l,
        ) by {
        if offered(a, inventory, n, r, c).contains(l) {
            let k = choose|k: int| offers(a, inventory, n, r, c, k, l);
            assert(offers(b, inventory, n, r, c, k, l));
        }
        if offered(b, inventory, n, r, c).contains(l) {
            let k = choose|k: int| offers(b, inventory, n, r, c, k, l);
            assert(offers(a, inventory, n, r, c, k, l));
        }
    }
    assert(offered(a, inventory, n, r, c) =~= offered(b, inventory, n, r, c));
    assert forall|k: int, i: int, l: u8|
        demands_before(a, n, 0, r, c, k, i, l) == demands_before(b, n, 0, r, c, k, i, l) by {
        if 0 <= k < n {
            assert(a[k].position == b[k].position && a[k].size == b[k].size && a[k].word()
                == b[k].word());
        }
    }
    assert forall|l: u8| demanded(a, r, c).contains(l) == demanded(b, r, c).contains(l) by {
        if demanded(a, r, c).contains(l) {
            let (k, i) = choose|k: int, i: int| demands_before(a, n, 0, r, c, k, i, l);
            assert(demands_before(b, n, 0, r, c, k, i, l));
        }
        if demanded(b, r, c).contains(l) {
            let (k, i) = choose|k: int, i: int| demands_before(b, n, 0, r, c, k, i, l);
            assert(demands_before(a, n, 0, r, c, k, i, l));
        }
    }
    assert(demanded(a, r, c) =~= demanded(b, r, c));
}

/// Propagation looks at the places, the sizes and the words of the slots
/// only: lists with the same slots offer and demand the same letters, are
/// consistent alike, and lead to the same grid.
pub proof fn lemma_same_slots(
    rows: Seq<Seq<Field>>,
    a: Seq<WordField>,
    b: Seq<WordField>,
    inventory: Seq<Seq<Seq<u8>>>,
)
    requires
        same_slots(a, b),
    ensures
        forall|r: int, c: int|
            #[trigger] offered(a, inventory, a.len() as int, r, c) == offered(
                b,
                inventory,
                b.len() as int,
                r,
                c,
            ),
        forall|r: int, c: int| #[trigger] demanded(a, r, c) == demanded(b, r, c),
        consistent(rows, a, inventory) == consistent(rows, b, inventory),
        forall|after: Seq<Seq<Field>>|
            #[trigger] propagated(rows, a, inventory, after) == propagated(
                rows,
                b,
                inventory,
                after,
            ),
{
    assert forall|r: int, c: int|
        #[trigger] offered(a, inventory, a.len() as int, r, c) == offered(
            b,
            inventory,
            b.len() as int,
            r,
            c,
        ) by {
        lemma_same_slots_cell(a, b, inventory, r, c);
    }
    assert forall|r: int, c: int| #[trigger] demanded(a, r, c) == demanded(b, r, c) by {
        lemma_same_slots_cell(a, b, inventory, r, c);
    }
    if consistent(rows, a, inventory) {
        assert forall|r: int, c: int, l: u8|
            in_grid(rows, r, c) && #[trigger] demanded(b, r, c).contains(l) implies widened(
            rows,
            b,
            inventory,
            r,
            c,
        ).contains(l) && demanded(b, r, c) == set![l] by {
            lemma_same_slots_cell(a, b, inventory, r, c);
            assert(demanded(a, r, c).contains(l));
        }
    }
    if consistent(rows, b, inventory) {
        assert forall|r: int, c: int, l: u8|
            in_grid(rows, r, c) && #[trigger] demanded(a, r, c).contains(l) implies widened(
            rows,
            a,
            inventory,
            r,
            c,
        ).contains(l) && demanded(a, r, c) == set![l] by {
            lemma_same_slots_cell(a, b, inventory, r, c);
            assert(demanded(b, r, c).contains(l));
        }
    }
    assert forall|after: Seq<Seq<Field>>|
        #[trigger] propagated(rows, a, inventory, after) == propagated(
            rows,
            b,
            inventory,
            after,
        ) by {
        if propagated(rows, a, inventory, after) {
            assert forall|r: int, c: int| in_grid(rows, r, c) implies propagated_cell(
                rows,
                b,
                inventory,
                r,
                c,
                #[trigger] after[r][c],
            ) by {
                lemma_same_slots_cell(a, b, inventory, r, c);
                assert(propagated_cell(rows, a, inventory, r, c, after[r][c]));
            }
        }
        if propagated(rows, b, inventory, after) {
            assert forall|r: int, c: int| in_grid(rows, r, c) implies propagated_cell(
                rows,
                a,
                inventory,
                r,
                c,
                #[trigger] after[r][c],
            ) by {
                lemma_same_slots_cell(a, b, inventory, r, c);
                assert(propagated_cell(rows, b, inventory, r, c, after[r][c]));
            }
        }
    }
}

/// A pass of propagation has one result only.
pub proof fn lemma_propagated_unique(
    rows: Seq<Seq<Field>>,
    slots: Seq<WordField>,
    inventory: Seq<Seq<Seq<u8>>>,
    a: Seq<Seq<Field>>,
    b: Seq<Seq<Field>>,
)
    requires
        propagated(rows, slots, inventory, a),
        propagated(rows, slots, inventory, b),
    ensures
        a == b,
{
    assert forall|r: int| 0 <= r < a.len() implies a[r] == b[r] by {
        assert(a[r].len() == rows[r].len());
        assert(b[r].len() == rows[r].len());
        assert forall|c: int| 0 <= c < a[r].len() implies a[r][c] == b[r][c] by {
            assert(in_grid(rows, r, c));
            assert(propagated_cell(rows, slots, inventory, r, c, a[r][c]));
            assert(propagated_cell(rows, slots, inventory, r, c, b[r][c]));
            a[r][c].lemma_extensional(b[r][c]);
        }
        assert(a[r] =~= b[r]);
    }
    assert(a =~= b);
}

/// The result of a pass that met no contradiction is a fixed point: the
/// chosen words stay consistent with it, and a further pass leaves it as it
/// is.
pub proof fn lemma_pass_fixed(
    rows: Seq<Seq<Field>>,
    slots: Seq<WordField>,
    inventory: Seq<Seq<Seq<u8>>>,
    once: Seq<Seq<Field>>,
)
    requires
        consistent(rows, slots, inventory),
        propagated(rows, slots, inventory, once),
    ensures
        consistent(once, slots, inventory),
        propagated(once, slots, inventory, once),
{
    assert forall|r: int, c: int| in_grid(once, r, c) implies propagated_cell(
        once,
        slots,
        inventory,
        r,
        c,
        #[trigger] once[r][c],
    ) by {
        assert(in_grid(rows, r, c));
        assert(propagated_cell(rows, slots, inventory, r, c, once[r][c]));
        if demanded(slots, r, c) == Set::<u8>::empty() {
            assert(widened(once, slots, inventory, r, c) =~= widened(rows, slots, inventory, r, c));
        }
    }
    assert forall|r: int, c: int, l: u8|
        in_grid(once, r, c) && #[trigger] demanded(slots, r, c).contains(l) implies widened(
        once,
        slots,
        inventory,
        r,
        c,
    ).contains(l) && demanded(slots, r, c) == set![l] by {
        assert(in_grid(rows, r, c));
        assert(propagated_cell(rows, slots, inventory, r, c, once[r][c]));
        assert(demanded(slots, r, c) != Set::<u8>::empty());
    }
}

/// Propagation is idempotent: a pass over the result of a pass changes
/// nothing, and a pass over a grid that a pass leaves as it is gives that
/// grid again.
pub proof fn lemma_propagation_idempotent(
    rows: Seq<Seq<Field>>,
    slots: Seq<WordField>,
    inventory: Seq<Seq<Seq<u8>>>,
    once: Seq<Seq<Field>>,
    twice: Seq<Seq<Field>>,
)
    requires
        consistent(rows, slots, inventory),
        propagated(rows, slots, inventory, once),
        propagated(once, slots, inventory, twice),
    ensures
        twice == once,
        once == rows ==> twice == rows,
{
    lemma_pass_fixed(rows, slots, inventory, once);
    lemma_propagated_unique(once, slots, inventory, once, twice);
}

/// One pass of propagation. Every cell first gets the letters that the
/// words still in the inventory have at its place in the slots that cover
/// it. Then every cell of a slot with a chosen word is resolved to the
/// word's letter. The pass fails, with `false`, when a chosen word asks for
/// a letter that its cell does not hold.
pub fn propagate_once(board: &mut Board, slots: &Vec<WordField>, words: &Words) -> (ok: bool)
    requires
        old(board).wf(),
        all_fit(slots@, old(board)@),
        words.wf(),
    ensures
        final(board).wf(),
        same_shape(old(board)@, final(board)@),
        ok == consistent(old(board)@, slots@, words@),
        ok ==> propagated(old(board)@, slots@, words@, final(board)@),
{
    let ghost start = board@;
    offer_all(board, slots, words);
    let ghost mid = board@;
    proof {
        lemma_fit_same_shape(slots@, start, mid);
    }
    let ok = enforce_chosen(board, slots);
    proof {
        assert(same_shape(start, board@)) by {
            assert forall|r: int| 0 <= r < start.len() implies (#[trigger] start[r]).len()
                == board@[r].len() by {
                assert(mid[r].len() == board@[r].len());
            }
        }
        if consistent(start, slots@, words@) {
            assert forall|r: int, c: int, l: u8|
                in_grid(mid, r, c) && #[trigger] demanded(slots@, r, c).contains(
                    l,
                ) implies mid[r][c].letters().contains(l) && demanded(slots@, r, c) == set![l] by {
                assert(in_grid(start, r, c));
                assert(mid[r][c].letters() == widened(start, slots@, words@, r, c));
            }
        }
        if agreeable(mid, slots@) {
            assert forall|r: int, c: int, l: u8|
                in_grid(start, r, c) && #[trigger] demanded(slots@, r, c).contains(
                    l,
                ) implies widened(start, slots@, words@, r, c).contains(l) && demanded(
                slots@,
                r,
                c,
            ) == set![l] by {
                assert(in_grid(mid, r, c));
                assert(mid[r][c].letters() == widened(start, slots@, words@, r, c));
            }
        }
        if ok {
            assert forall|r: int, c: int| in_grid(start, r, c) implies propagated_cell(
                start,
                slots@,
                words@,
                r,
                c,
                #[trigger] board@[r][c],
            ) by {
                assert(in_grid(mid, r, c));
                assert(mid[r][c].letters() == widened(start, slots@, words@, r, c));
                assert(settled_cell(mid[r][c], demanded(slots@, r, c), board@[r][c]));
            }
        }
    }
    ok
}

/// A chosen word asks for a letter that a cell of its slot cannot have.
#[derive(Copy, Clone, Debug, PartialEq, Eq, Structural)]
pub struct Contradiction;

/// Propagates until the board stops changing. Each pass first adds to every
/// cell the letters that the words still in the inventory have at its place
/// in the slots that cover it, and then resolves every cell of a slot with
/// a chosen word to the word's letter. The passes are repeated until one
/// leaves the board as it was.
///
/// The result is `Err` exactly when the chosen words are not consistent
/// with the board and the inventory; the board then holds no result. On
/// `Ok` the board is the result of one pass over the board as it was, and a
/// further pass would leave it as it is.
pub fn restrict_board(board: &mut Board, word_fields: &Vec<WordField>, words: &Words) -> (r:
    Result<(), Contradiction>)
    requires
        old(board).wf(),
        all_fit(word_fields@, old(board)@),
        words.wf(),
    ensures
        final(board).wf(),
        same_shape(old(board)@, final(board)@),
        r is Ok <==> consistent(old(board)@, word_fields@, words@),
        r is Ok ==> propagated(old(board)@, word_fields@, words@, final(board)@),
        r is Ok ==> propagated(final(board)@, word_fields@, words@, final(board)@),
{
    let ghost start = board@;
    let ghost mut passes: nat = 0;
    loop
        invariant
            start == old(board)@,
            grid_wf(start),
            words.wf(),
            all_fit(word_fields@, start),
            board.wf(),
            same_shape(start, board@),
            passes <= 1,
            passes == 0 ==> board@ == start,
            passes == 1 ==> consistent(start, word_fields@, words@) && propagated(
                start,
                word_fields@,
                words@,
                board@,
            ),
        decreases 2 - passes,
    {
        let before_restrictions = board.duplicate();
        let ghost before = board@;
        proof {
            lemma_fit_same_shape(word_fields@, start, before);
            if passes == 1 {
                lemma_pass_fixed(start, word_fields@, words@, before);
            }
        }
        let ok = propagate_once(board, word_fields, words);
        proof {
            assert(same_shape(start, board@)) by {
                assert forall|r: int| 0 <= r < start.len() implies (#[trigger] start[r]).len()
                    == board@[r].len() by {
                    assert(before[r].len() == board@[r].len());
                }
            }
        }
        if !ok {
            return Err(Contradiction);
        }
        proof {
            if passes == 1 {
                lemma_propagated_unique(before, word_fields@, words@, before, board@);
            }
            lemma_pass_fixed(before, word_fields@, words@, board@);
        }
        if before_restrictions.equals(board) {
            return Ok(());
        }
        proof {
            passes = 1;
        }
    }
}

} // verus!
