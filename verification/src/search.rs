//! The search: words are tried on the slots one after the other, each
//! trial is checked by propagation, and a trial that fails is undone.

use vstd::prelude::*;
use crate::board::{grid_wf, width, Board};
use crate::dense_map::DenseMap;
use crate::field::Field;
use crate::propagation::{
    consistent, lemma_fit_same_shape, lemma_propagated_unique, lemma_same_slots, propagated,
    restrict_board, same_shape,
};
use crate::slots::{all_fit, same_slots, WordField};
use crate::words::{
    available, inventory_wf, lemma_placed_after_remove, lemma_removed_wf, sorted, Words,
};

verus! {

/// The state of a search between two steps.
pub struct SearchState {
    /// The grid.
    pub rows: Seq<Seq<Field>>,
    /// The slots with the words chosen so far.
    pub slots: Seq<WordField>,
    /// The words that are still free, by length.
    pub inventory: Seq<Seq<Seq<u8>>>,
    /// The slot from which the next slot without a word is looked for.
    pub cursor: int,
    /// For each length, how many words at the front of its bucket have been
    /// tried in vain for the slot that is being filled.
    pub tried: Seq<usize>,
}

/// The first slot from `cursor` on that has no word; the number of slots
/// where there is none.
pub open spec fn candidate(slots: Seq<WordField>, cursor: int) -> int
    decreases slots.len() - cursor,
{
    if cursor < 0 || cursor >= slots.len() {
        slots.len() as int
    } else if slots[cursor].word() is None {
        cursor
    } else {
        candidate(slots, cursor + 1)
    }
}

/// True when `b` is the list `a` with the word of slot `k` set to `word`.
pub open spec fn reassigned(
    a: Seq<WordField>,
    k: int,
    word: Option<Seq<u8>>,
    b: Seq<WordField>,
) -> bool {
    &&& a.len() == b.len()
    &&& forall|j: int|
        0 <= j < a.len() ==> (#[trigger] a[j]).position == b[j].position && a[j].size == b[j].size
            && b[j].word() == if j == k {
            word
        } else {
            a[j].word()
        }
}

/// The search is over when no slot from the cursor on lacks a word.
pub open spec fn finished(s: SearchState) -> bool {
    candidate(s.slots, s.cursor) >= s.slots.len()
}

/// One step of the search, from state `a` to state `b`.
///
/// The step looks at the first slot from the cursor on that has no word,
/// and at the words of its length that are free, past those already tried.
/// Where no such word is left, the cursor moves on by one slot and the
/// count of tried words of that length starts again. Otherwise the next
/// word is tried on the slot. If the chosen words are then consistent, the
/// word stays, the grid becomes the propagated grid, the cursor goes back
/// to the first slot and the count starts again. If not, everything is as
/// before but for the count, which goes up by one.
pub open spec fn advances(a: SearchState, b: SearchState) -> bool {
    let k = candidate(a.slots, a.cursor);
    let n = a.slots[k].length();
    let bucket = available(a.inventory, n);
    let t = a.tried[n] as int;
    &&& !finished(a)
    &&& if t >= bucket.len() {
        &&& b.rows == a.rows
        &&& same_slots(a.slots, b.slots)
        &&& b.inventory == a.inventory
        &&& b.cursor == a.cursor + 1
        &&& b.tried == a.tried.update(n, 0)
    } else {
        let left = a.inventory.update(n, bucket.remove(t));
        exists|trial: Seq<WordField>|
            #![trigger reassigned(a.slots, k, Some(bucket[t]), trial)]
            reassigned(a.slots, k, Some(bucket[t]), trial) && if consistent(a.rows, trial, left) {
                &&& propagated(a.rows, trial, left, b.rows)
                &&& same_slots(trial, b.slots)
                &&& b.inventory == left
                &&& b.cursor == 0
                &&& b.tried == a.tried.update(n, 0)
            } else {
                &&& b.rows == a.rows
                &&& same_slots(a.slots, b.slots)
                &&& b.inventory == a.inventory
                &&& b.cursor == a.cursor
                &&& b.tried == a.tried.update(n, (t + 1) as usize)
            }
    }
}

/// True when `trace` is a whole search: each state but the first comes from
/// the one before by a step, and the last state is finished.
pub open spec fn is_search(trace: Seq<SearchState>) -> bool {
    &&& trace.len() > 0
    &&& forall|i: int| 0 <= i < trace.len() - 1 ==> advances(#[trigger] trace[i], trace[i + 1])
    &&& finished(trace.last())
}

/// True when every cell of every slot holds a count of exactly one letter.
pub open spec fn all_resolved(rows: Seq<Seq<Field>>, slots: Seq<WordField>) -> bool {
    forall|k: int, i: int|
        0 <= k < slots.len() && 0 <= i < slots[k].length() ==> rows[#[trigger] slots[k].cell(
            i,
        ).0][slots[k].cell(i).1].count() == 1
}

/// True when some slot of `n` cells holds the word `w`.
pub open spec fn holds_word(slots: Seq<WordField>, n: int, w: Seq<u8>, k: int) -> bool {
    0 <= k < slots.len() && slots[k].length() == n && slots[k].word() == Some(w)
}

/// The words of `n` letters that are in play: those free in the inventory
/// and those chosen for a slot of `n` cells.
pub open spec fn pool(slots: Seq<WordField>, inventory: Seq<Seq<Seq<u8>>>, n: int) -> Set<Seq<u8>> {
    Set::new(
        |w: Seq<u8>| available(inventory, n).contains(w) || exists|k: int| holds_word(slots, n, w, k),
    )
}

/// True when no word is in two places: a word chosen for a slot is not
/// free in the inventory, and no two slots of one length hold the same
/// word.
pub open spec fn exclusive(slots: Seq<WordField>, inventory: Seq<Seq<Seq<u8>>>) -> bool {
    &&& forall|k: int|
        0 <= k < slots.len() && (#[trigger] slots[k]).word() is Some ==> !available(
            inventory,
            slots[k].length(),
        ).contains(slots[k].word()->0)
    &&& forall|j: int, k: int|
        0 <= j < k < slots.len() && slots[j].length() == slots[k].length() && (
        #[trigger] slots[j]).word() is Some && (#[trigger] slots[k]).word() is Some
            ==> slots[j].word() != slots[k].word()
}

/// The number of slots without a word.
pub open spec fn unassigned(slots: Seq<WordField>) -> nat
    decreases slots.len(),
{
    if slots.len() == 0 {
        0
    } else {
        unassigned(slots.drop_last()) + if slots.last().word() is None {
            1nat
        } else {
            0nat
        }
    }
}

/// Lists that agree on which slots have a word have as many slots without
/// one, but for a slot `k` that has a word only in the second list.
proof fn lemma_unassigned(a: Seq<WordField>, b: Seq<WordField>, k: int)
    requires
        a.len() == b.len(),
        forall|j: int|
            0 <= j < a.len() && j != k ==> ((#[trigger] a[j]).word() is None <==> b[j].word() is None),
        0 <= k < a.len() ==> a[k].word() is None && b[k].word() is Some,
    ensures
        unassigned(a) == unassigned(b) + if 0 <= k < a.len() {
            1nat
        } else {
            0nat
        },
    decreases a.len(),
{
    if a.len() > 0 {
        let last = a.len() - 1;
        assert forall|j: int| 0 <= j < a.drop_last().len() && j != k implies ((
        #[trigger] a.drop_last()[j]).word() is None <==> b.drop_last()[j].word() is None) by {
            assert(a.drop_last()[j] == a[j]);
            assert(b.drop_last()[j] == b[j]);
        }
        if k == last {
            lemma_unassigned(a.drop_last(), b.drop_last(), -1);
        } else {
            if 0 <= k < last {
                assert(a.drop_last()[k] == a[k]);
                assert(b.drop_last()[k] == b[k]);
            }
            lemma_unassigned(a.drop_last(), b.drop_last(), k);
            assert(a.last() == a[last]);
            assert(b.last() == b[last]);
        }
    }
}

/// What `candidate` finds: a slot without a word, with none before it from
/// the cursor on.
pub proof fn lemma_candidate(slots: Seq<WordField>, cursor: int)
    requires
        0 <= cursor,
    ensures
        cursor <= candidate(slots, cursor) || candidate(slots, cursor) == slots.len(),
        candidate(slots, cursor) <= slots.len(),
        candidate(slots, cursor) < slots.len() ==> slots[candidate(slots, cursor)].word() is None,
        forall|j: int| cursor <= j < candidate(slots, cursor) ==> (#[trigger] slots[j]).word() is Some,
    decreases slots.len() - cursor,
{
    if cursor < slots.len() && slots[cursor].word() is Some {
        lemma_candidate(slots, cursor + 1);
    }
}

/// The first slot from `from` on that has no word.
fn next_unassigned(word_fields: &Vec<WordField>, from: usize) -> (k: usize)
    ensures
        k == candidate(word_fields@, from as int),
        k <= word_fields@.len(),
{
    let mut k = from;
    proof {
        lemma_candidate(word_fields@, from as int);
    }
    while k < word_fields.len() && word_fields[k].selected_word.is_some()
        invariant
            from <= k,
            candidate(word_fields@, from as int) == candidate(word_fields@, k as int),
        decreases word_fields@.len() - k,
    {
        k = k + 1;
    }
    if k >= word_fields.len() {
        word_fields.len()
    } else {
        k
    }
}

/// True when every cell of every slot holds exactly one letter.
fn slots_resolved(board: &Board, word_fields: &Vec<WordField>) -> (solved: bool)
    requires
        board.wf(),
        all_fit(word_fields@, board@),
    ensures
        solved == all_resolved(board@, word_fields@),
{
    let nrows = board.nrows();
    let ncols = board.ncols();
    let mut k: usize = 0;
    while k < word_fields.len()
        invariant
            board.wf(),
            all_fit(word_fields@, board@),
            nrows == board@.len(),
            ncols == width(board@),
            k <= word_fields@.len(),
            forall|a: int, i: int|
                0 <= a < k && 0 <= i < word_fields@[a].length() ==> board@[#[trigger] word_fields@[a].cell(
                    i,
                ).0][word_fields@[a].cell(i).1].count() == 1,
        decreases word_fields@.len() - k,
    {
        let slot = &word_fields[k];
        assert(slot.fits(board@));
        let len = slot.len();
        let mut idx: usize = 0;
        while idx < len
            invariant
                board.wf(),
                slot.fits(board@),
                *slot == word_fields@[k as int],
                k < word_fields@.len(),
                nrows == board@.len(),
                ncols == width(board@),
                len == slot.length(),
                idx <= len,
                forall|i: int|
                    0 <= i < idx ==> board@[#[trigger] slot.cell(i).0][slot.cell(i).1].count() == 1,
            decreases len - idx,
        {
            let (row, col) = if slot.size.0 == 1 {
                (slot.position.0, slot.position.1 + idx)
            } else {
                (slot.position.0 + idx, slot.position.1)
            };
            assert(slot.cell(idx as int) == (row as int, col as int));
            assert(board@[row as int].len() == board@[0].len());
            if board.get(row, col).len() != 1 {
                return false;
            }
            idx = idx + 1;
        }
        k = k + 1;
    }
    true
}

/// The counts of tried words at the start of a search: zero for every
/// length up to the largest that the inventory has a bucket for.
pub open spec fn fresh_counts(inventory: Seq<Seq<Seq<u8>>>) -> Seq<usize> {
    Seq::new(
        if inventory.len() == 0 {
            1nat
        } else {
            inventory.len()
        },
        |i: int| 0usize,
    )
}

/// True when a search that starts with the first grid, slots and inventory
/// ends with the second.
pub open spec fn searched(
    rows: Seq<Seq<Field>>,
    slots: Seq<WordField>,
    inventory: Seq<Seq<Seq<u8>>>,
    end_rows: Seq<Seq<Field>>,
    end_slots: Seq<WordField>,
    end_inventory: Seq<Seq<Seq<u8>>>,
) -> bool {
    exists|trace: Seq<SearchState>|
        #![trigger is_search(trace)]
        {
            &&& is_search(trace)
            &&& trace[0] == (SearchState {
                rows,
                slots,
                inventory,
                cursor: 0,
                tried: fresh_counts(inventory),
            })
            &&& trace.last().rows == end_rows
            &&& trace.last().slots == end_slots
            &&& trace.last().inventory == end_inventory
        }
}

/// How many words are left to try for the slot that is being filled.
pub open spec fn room(s: SearchState) -> nat {
    let k = candidate(s.slots, s.cursor);
    if 0 <= k < s.slots.len() {
        let n = s.slots[k].length();
        let left = available(s.inventory, n).len() - s.tried[n];
        if left > 0 {
            left as nat
        } else {
            0
        }
    } else {
        0
    }
}

/// Lists with the same slots put the same words into play.
proof fn lemma_pool_same(a: Seq<WordField>, b: Seq<WordField>, inventory: Seq<Seq<Seq<u8>>>, n: int)
    requires
        same_slots(a, b),
    ensures
        pool(a, inventory, n) == pool(b, inventory, n),
{
    assert forall|w: Seq<u8>| pool(a, inventory, n).contains(w) <==> pool(b, inventory, n).contains(
        w,
    ) by {
        if exists|k: int| holds_word(a, n, w, k) {
            let k = choose|k: int| holds_word(a, n, w, k);
            assert(a[k].word() == b[k].word());
            assert(holds_word(b, n, w, k));
        }
        if exists|k: int| holds_word(b, n, w, k) {
            let k = choose|k: int| holds_word(b, n, w, k);
            assert(a[k].word() == b[k].word());
            assert(holds_word(a, n, w, k));
        }
    }
    assert(pool(a, inventory, n) =~= pool(b, inventory, n));
}

/// Taking a free word for a slot without a word keeps the words in play,
/// and keeps every word in one place.
proof fn lemma_pool_trial(
    a: Seq<WordField>,
    trial: Seq<WordField>,
    inventory: Seq<Seq<Seq<u8>>>,
    k: int,
    t: int,
)
    requires
        0 <= k < a.len(),
        a[k].word() is None,
        0 <= a[k].length() < inventory.len(),
        sorted(inventory[a[k].length()]),
        0 <= t < inventory[a[k].length()].len(),
        reassigned(a, k, Some(inventory[a[k].length()][t]), trial),
    ensures
        forall|n: int|
            pool(a, inventory, n) == pool(
                trial,
                inventory.update(a[k].length(), inventory[a[k].length()].remove(t)),
                n,
            ),
        exclusive(a, inventory) ==> exclusive(
            trial,
            inventory.update(a[k].length(), inventory[a[k].length()].remove(t)),
        ),
{
    let n0 = a[k].length();
    let bucket = inventory[n0];
    let w = bucket[t];
    let rest = bucket.remove(t);
    let left = inventory.update(n0, rest);
    lemma_placed_after_remove(bucket, t);
    assert(trial[k].length() == n0);
    assert forall|x: Seq<u8>| rest.contains(x) implies bucket.contains(x) by {
        let i = choose|i: int| 0 <= i < rest.len() && rest[i] == x;
        if i < t {
            assert(bucket[i] == x);
        } else {
            assert(bucket[i + 1] == x);
        }
    }
    assert forall|x: Seq<u8>| bucket.contains(x) && x != w implies rest.contains(x) by {
        let i = choose|i: int| 0 <= i < bucket.len() && bucket[i] == x;
        if i < t {
            assert(rest[i] == x);
        } else {
            assert(rest[i - 1] == x);
        }
    }
    assert(bucket.contains(w));
    assert forall|n: int| pool(a, inventory, n) == pool(trial, left, n) by {
        assert forall|x: Seq<u8>| pool(a, inventory, n).contains(x) <==> pool(
            trial,
            left,
            n,
        ).contains(x) by {
            if exists|j: int| holds_word(a, n, x, j) {
                let j = choose|j: int| holds_word(a, n, x, j);
                assert(a[j].position == trial[j].position);
                assert(holds_word(trial, n, x, j));
            }
            if exists|j: int| holds_word(trial, n, x, j) {
                let j = choose|j: int| holds_word(trial, n, x, j);
                assert(a[j].position == trial[j].position);
                if j != k {
                    assert(holds_word(a, n, x, j));
                }
            }
            if n == n0 {
                assert(available(left, n) == rest);
                if x == w {
                    assert(holds_word(trial, n, x, k));
                }
            } else {
                assert(available(left, n) == available(inventory, n));
            }
        }
        assert(pool(a, inventory, n) =~= pool(trial, left, n));
    }
    if exclusive(a, inventory) {
        assert forall|j: int| 0 <= j < trial.len() && (#[trigger] trial[j]).word() is Some implies !available(
            left,
            trial[j].length(),
        ).contains(trial[j].word()->0) by {
            assert(a[j].position == trial[j].position);
            if j != k {
                assert(a[j].word() is Some);
                if trial[j].length() == n0 {
                    assert(available(left, n0) == rest);
                } else {
                    assert(available(left, trial[j].length()) == available(
                        inventory,
                        trial[j].length(),
                    ));
                }
            } else {
                assert(available(left, n0) == rest);
            }
        }
        assert forall|i: int, j: int|
            0 <= i < j < trial.len() && trial[i].length() == trial[j].length() && (
            #[trigger] trial[i]).word() is Some && (#[trigger] trial[j]).word() is Some implies trial[i].word()
            != trial[j].word() by {
            assert(a[i].position == trial[i].position);
            assert(a[j].position == trial[j].position);
            if i == k {
                assert(a[j].word() is Some);
                assert(!available(inventory, a[j].length()).contains(a[j].word()->0));
            } else if j == k {
                assert(a[i].word() is Some);
                assert(!available(inventory, a[i].length()).contains(a[i].word()->0));
            }
        }
    }
}

/// A step of the search neither loses a word nor makes one up: for each
/// length, the words free in the inventory together with the words chosen
/// for slots of that length are the same before and after. Nor does a step
/// put a word in two places.
pub proof fn lemma_step_conserves(a: SearchState, b: SearchState)
    requires
        advances(a, b),
        0 <= a.cursor,
        inventory_wf(a.inventory),
        forall|k: int| 0 <= k < a.slots.len() ==> (#[trigger] a.slots[k]).length() < a.inventory.len(),
        forall|k: int| 0 <= k < a.slots.len() ==> 0 <= (#[trigger] a.slots[k]).length(),
    ensures
        forall|n: int| pool(a.slots, a.inventory, n) == pool(b.slots, b.inventory, n),
        exclusive(a.slots, a.inventory) ==> exclusive(b.slots, b.inventory),
{
    lemma_candidate(a.slots, a.cursor);
    let k = candidate(a.slots, a.cursor);
    let n0 = a.slots[k].length();
    let bucket = available(a.inventory, n0);
    let t = a.tried[n0] as int;
    if t >= bucket.len() {
        assert forall|n: int| pool(a.slots, a.inventory, n) == pool(b.slots, b.inventory, n) by {
            lemma_pool_same(a.slots, b.slots, a.inventory, n);
        }
        lemma_exclusive_same(a.slots, b.slots, a.inventory);
    } else {
        let left = a.inventory.update(n0, bucket.remove(t));
        let trial = choose|trial: Seq<WordField>|
            #![trigger reassigned(a.slots, k, Some(bucket[t]), trial)]
            reassigned(a.slots, k, Some(bucket[t]), trial) && if consistent(a.rows, trial, left) {
                &&& propagated(a.rows, trial, left, b.rows)
                &&& same_slots(trial, b.slots)
                &&& b.inventory == left
                &&& b.cursor == 0
                &&& b.tried == a.tried.update(n0, 0)
            } else {
                &&& b.rows == a.rows
                &&& same_slots(a.slots, b.slots)
                &&& b.inventory == a.inventory
                &&& b.cursor == a.cursor
                &&& b.tried == a.tried.update(n0, (t + 1) as usize)
            };
        if consistent(a.rows, trial, left) {
            lemma_pool_trial(a.slots, trial, a.inventory, k, t);
            assert forall|n: int| pool(a.slots, a.inventory, n) == pool(b.slots, b.inventory, n) by {
                lemma_pool_same(trial, b.slots, left, n);
            }
            lemma_exclusive_same(trial, b.slots, left);
        } else {
            assert forall|n: int| pool(a.slots, a.inventory, n) == pool(b.slots, b.inventory, n) by {
                lemma_pool_same(a.slots, b.slots, a.inventory, n);
            }
            lemma_exclusive_same(a.slots, b.slots, a.inventory);
        }
    }
}

/// A state has one next state only: two steps from the same state lead to
/// the same grid, the same slots, the same inventory, the same cursor and
/// the same counts.
pub proof fn lemma_step_deterministic(a: SearchState, b: SearchState, other: SearchState)
    requires
        advances(a, b),
        advances(a, other),
    ensures
        b.rows == other.rows,
        same_slots(b.slots, other.slots),
        b.inventory == other.inventory,
        b.cursor == other.cursor,
        b.tried == other.tried,
{
    let k = candidate(a.slots, a.cursor);
    let n0 = a.slots[k].length();
    let bucket = available(a.inventory, n0);
    let t = a.tried[n0] as int;
    if t >= bucket.len() {
        assert forall|j: int| 0 <= j < b.slots.len() implies (#[trigger] b.slots[j]).position
            == other.slots[j].position && b.slots[j].size == other.slots[j].size
            && b.slots[j].word() == other.slots[j].word() by {
            assert(a.slots[j].position == b.slots[j].position);
            assert(a.slots[j].position == other.slots[j].position);
        }
    } else {
        let left = a.inventory.update(n0, bucket.remove(t));
        let first = choose|trial: Seq<WordField>|
            #![trigger reassigned(a.slots, k, Some(bucket[t]), trial)]
            reassigned(a.slots, k, Some(bucket[t]), trial) && if consistent(a.rows, trial, left) {
                &&& propagated(a.rows, trial, left, b.rows)
                &&& same_slots(trial, b.slots)
                &&& b.inventory == left
                &&& b.cursor == 0
                &&& b.tried == a.tried.update(n0, 0)
            } else {
                &&& b.rows == a.rows
                &&& same_slots(a.slots, b.slots)
                &&& b.inventory == a.inventory
                &&& b.cursor == a.cursor
                &&& b.tried == a.tried.update(n0, (t + 1) as usize)
            };
        let second = choose|trial: Seq<WordField>|
            #![trigger reassigned(a.slots, k, Some(bucket[t]), trial)]
            reassigned(a.slots, k, Some(bucket[t]), trial) && if consistent(a.rows, trial, left) {
                &&& propagated(a.rows, trial, left, other.rows)
                &&& same_slots(trial, other.slots)
                &&& other.inventory == left
                &&& other.cursor == 0
                &&& other.tried == a.tried.update(n0, 0)
            } else {
                &&& other.rows == a.rows
                &&& same_slots(a.slots, other.slots)
                &&& other.inventory == a.inventory
                &&& other.cursor == a.cursor
                &&& other.tried == a.tried.update(n0, (t + 1) as usize)
            };
        assert(same_slots(first, second)) by {
            assert forall|j: int| 0 <= j < first.len() implies (#[trigger] first[j]).position
                == second[j].position && first[j].size == second[j].size && first[j].word()
                == second[j].word() by {
                assert(a.slots[j].position == first[j].position);
                assert(a.slots[j].position == second[j].position);
            }
        }
        lemma_same_slots(a.rows, first, second, left);
        if consistent(a.rows, first, left) {
            assert(propagated(a.rows, first, left, other.rows));
            lemma_propagated_unique(a.rows, first, left, b.rows, other.rows);
            assert forall|j: int| 0 <= j < b.slots.len() implies (#[trigger] b.slots[j]).position
                == other.slots[j].position && b.slots[j].size == other.slots[j].size
                && b.slots[j].word() == other.slots[j].word() by {
                assert(first[j].position == b.slots[j].position);
                assert(second[j].position == other.slots[j].position);
                assert(first[j].position == second[j].position);
            }
        } else {
            assert forall|j: int| 0 <= j < b.slots.len() implies (#[trigger] b.slots[j]).position
                == other.slots[j].position && b.slots[j].size == other.slots[j].size
                && b.slots[j].word() == other.slots[j].word() by {
                assert(a.slots[j].position == b.slots[j].position);
                assert(a.slots[j].position == other.slots[j].position);
            }
        }
    }
}

/// What a state of a search has to meet for its steps to make sense: the
/// inventory is well formed, the cursor is not negative, and the inventory
/// has a bucket for the length of every slot.
pub open spec fn state_wf(s: SearchState) -> bool {
    &&& inventory_wf(s.inventory)
    &&& 0 <= s.cursor
    &&& forall|k: int|
        0 <= k < s.slots.len() ==> 0 <= (#[trigger] s.slots[k]).length() < s.inventory.len()
}

/// A step leads from a state that makes sense to one that does.
pub proof fn lemma_step_keeps(a: SearchState, b: SearchState)
    requires
        state_wf(a),
        advances(a, b),
    ensures
        state_wf(b),
{
    lemma_candidate(a.slots, a.cursor);
    let k = candidate(a.slots, a.cursor);
    let n0 = a.slots[k].length();
    let bucket = available(a.inventory, n0);
    let t = a.tried[n0] as int;
    if t >= bucket.len() {
        assert forall|j: int| 0 <= j < b.slots.len() implies 0 <= (#[trigger] b.slots[j]).length()
            < b.inventory.len() by {
            assert(a.slots[j].size == b.slots[j].size);
        }
    } else {
        let left = a.inventory.update(n0, bucket.remove(t));
        lemma_removed_wf(a.inventory, n0, t);
        let trial = choose|trial: Seq<WordField>|
            #![trigger reassigned(a.slots, k, Some(bucket[t]), trial)]
            reassigned(a.slots, k, Some(bucket[t]), trial) && if consistent(a.rows, trial, left) {
                &&& propagated(a.rows, trial, left, b.rows)
                &&& same_slots(trial, b.slots)
                &&& b.inventory == left
                &&& b.cursor == 0
                &&& b.tried == a.tried.update(n0, 0)
            } else {
                &&& b.rows == a.rows
                &&& same_slots(a.slots, b.slots)
                &&& b.inventory == a.inventory
                &&& b.cursor == a.cursor
                &&& b.tried == a.tried.update(n0, (t + 1) as usize)
            };
        assert forall|j: int| 0 <= j < b.slots.len() implies 0 <= (#[trigger] b.slots[j]).length()
            < b.inventory.len() by {
            assert(a.slots[j].size == trial[j].size);
            if consistent(a.rows, trial, left) {
                assert(trial[j].size == b.slots[j].size);
            } else {
                assert(a.slots[j].size == b.slots[j].size);
            }
        }
    }
}

/// At every point of a search the words in play are those it began with:
/// for each length, the words free in the inventory together with the words
/// chosen for slots of that length are the same set as at the start. And
/// where no word was in two places at the start, none is at any point.
pub proof fn lemma_search_conserves(trace: Seq<SearchState>, i: int)
    requires
        0 <= i < trace.len(),
        forall|j: int| 0 <= j < trace.len() - 1 ==> advances(#[trigger] trace[j], trace[j + 1]),
        state_wf(trace[0]),
    ensures
        state_wf(trace[i]),
        forall|n: int|
            pool(trace[0].slots, trace[0].inventory, n) == pool(
                trace[i].slots,
                trace[i].inventory,
                n,
            ),
        exclusive(trace[0].slots, trace[0].inventory) ==> exclusive(
            trace[i].slots,
            trace[i].inventory,
        ),
    decreases i,
{
    if i > 0 {
        lemma_search_conserves(trace, i - 1);
        let a = trace[i - 1];
        let b = trace[i];
        assert(advances(a, b));
        lemma_step_keeps(a, b);
        lemma_step_conserves(a, b);
    }
}

/// Lists with the same slots keep every word in one place alike.
proof fn lemma_exclusive_same(a: Seq<WordField>, b: Seq<WordField>, inventory: Seq<Seq<Seq<u8>>>)
    requires
        same_slots(a, b),
    ensures
        exclusive(a, inventory) ==> exclusive(b, inventory),
{
    if exclusive(a, inventory) {
        assert forall|k: int| 0 <= k < b.len() && (#[trigger] b[k]).word() is Some implies !available(
            inventory,
            b[k].length(),
        ).contains(b[k].word()->0) by {
            assert(a[k].position == b[k].position);
        }
        assert forall|j: int, k: int|
            0 <= j < k < b.len() && b[j].length() == b[k].length() && (#[trigger] b[j]).word() is Some
                && (#[trigger] b[k]).word() is Some implies b[j].word() != b[k].word() by {
            assert(a[j].position == b[j].position);
            assert(a[k].position == b[k].position);
        }
    }
}

/// The count of tried words before any word was tried.
fn no_word_tried() -> (count: usize)
    ensures
        count == 0,
{
    0
}

/// The state that the search is in, as a value.
spec fn state_of(
    rows: Seq<Seq<Field>>,
    slots: Seq<WordField>,
    inventory: Seq<Seq<Seq<u8>>>,
    cursor: int,
    tried: Seq<usize>,
) -> SearchState {
    SearchState { rows, slots, inventory, cursor, tried }
}

/// What the search keeps true from step to step.
spec fn search_inv(start: SearchState, trace: Seq<SearchState>, now: SearchState) -> bool {
    &&& trace.len() > 0
    &&& trace[0] == start
    &&& trace.last() == now
    &&& forall|i: int| 0 <= i < trace.len() - 1 ==> advances(#[trigger] trace[i], trace[i + 1])
    &&& grid_wf(now.rows)
    &&& same_shape(start.rows, now.rows)
    &&& all_fit(now.slots, now.rows)
    &&& inventory_wf(now.inventory)
    &&& now.inventory.len() == start.inventory.len()
    &&& now.slots.len() == start.slots.len()
    &&& forall|k: int|
        0 <= k < now.slots.len() ==> (#[trigger] now.slots[k]).position == start.slots[k].position
            && now.slots[k].size == start.slots[k].size
    &&& forall|k: int| 0 <= k < now.slots.len() ==> (#[trigger] now.slots[k]).length() < now.inventory.len()
    &&& now.tried.len() == fresh_counts(start.inventory).len()
    &&& 0 <= now.cursor <= now.slots.len()
    &&& forall|n: int| pool(start.slots, start.inventory, n) == pool(now.slots, now.inventory, n)
    &&& (exclusive(start.slots, start.inventory) ==> exclusive(now.slots, now.inventory))
    &&& (propagated(start.rows, start.slots, start.inventory, start.rows) ==> propagated(
        now.rows,
        now.slots,
        now.inventory,
        now.rows,
    ))
}

/// A step keeps what the search keeps true.
proof fn lemma_search_step(start: SearchState, trace: Seq<SearchState>, a: SearchState, b: SearchState)
    requires
        search_inv(start, trace, a),
        advances(a, b),
        grid_wf(b.rows),
        same_shape(a.rows, b.rows),
        all_fit(b.slots, b.rows),
        inventory_wf(b.inventory),
        b.inventory.len() == a.inventory.len(),
        b.slots.len() == a.slots.len(),
        forall|k: int|
            0 <= k < b.slots.len() ==> (#[trigger] b.slots[k]).position == a.slots[k].position
                && b.slots[k].size == a.slots[k].size,
        b.tried.len() == a.tried.len(),
        0 <= b.cursor <= b.slots.len(),
        propagated(a.rows, a.slots, a.inventory, a.rows) ==> propagated(
            b.rows,
            b.slots,
            b.inventory,
            b.rows,
        ),
        propagated(b.rows, b.slots, b.inventory, b.rows) || (b.rows == a.rows && b.slots == a.slots
            && b.inventory == a.inventory),
    ensures
        search_inv(start, trace.push(b), b),
{
    let longer = trace.push(b);
    assert forall|i: int| 0 <= i < longer.len() - 1 implies advances(
        #[trigger] longer[i],
        longer[i + 1],
    ) by {
        if i < trace.len() - 1 {
            assert(longer[i] == trace[i]);
            assert(longer[i + 1] == trace[i + 1]);
        } else {
            assert(longer[i] == a);
        }
    }
    assert forall|k: int| 0 <= k < a.slots.len() implies 0 <= (#[trigger] a.slots[k]).length() by {
        assert(a.slots[k].fits(a.rows));
    }
    lemma_step_conserves(a, b);
    assert(same_shape(start.rows, b.rows)) by {
        assert forall|r: int| 0 <= r < start.rows.len() implies (#[trigger] start.rows[r]).len()
            == b.rows[r].len() by {
            assert(a.rows[r].len() == b.rows[r].len());
        }
    }
    assert forall|k: int| 0 <= k < b.slots.len() implies (#[trigger] b.slots[k]).length()
        < b.inventory.len() by {
        assert(a.slots[k].length() < a.inventory.len());
    }
    assert forall|k: int| 0 <= k < b.slots.len() implies (#[trigger] b.slots[k]).position
        == start.slots[k].position && b.slots[k].size == start.slots[k].size by {
        assert(a.slots[k].position == start.slots[k].position);
    }
}

/// Fills the slots with words.
///
/// The search goes step by step. Each step looks, from a cursor on, for the
/// first slot without a word, and tries on it the next word of its length
/// that is free in the inventory and has not been tried for it. The word is
/// taken out of the inventory and the board is propagated on a copy. If the
/// chosen words are consistent, the word stays and the copy becomes the
/// board; if not, the word goes back and the next one is tried. A slot
/// whose words have all failed is passed over for the time being. The
/// search ends when no slot from the cursor on lacks a word, which it always
/// comes to: a step either gives one more slot a word, or moves the cursor
/// on, or uses up one more word for the slot in hand.
///
/// The result tells whether every cell of every slot then holds exactly one
/// letter.
pub fn solve(board: &mut Board, word_fields: &mut Vec<WordField>, words: &mut Words) -> (solved:
    bool)
    requires
        old(board).wf(),
        all_fit(old(word_fields)@, old(board)@),
        old(words).wf(),
        forall|k: int|
            0 <= k < old(word_fields)@.len() ==> (#[trigger] old(word_fields)@[k]).length() < old(
                words,
            )@.len(),
    ensures
        searched(
            old(board)@,
            old(word_fields)@,
            old(words)@,
            final(board)@,
            final(word_fields)@,
            final(words)@,
        ),
        solved == all_resolved(final(board)@, final(word_fields)@),
        final(board).wf(),
        same_shape(old(board)@, final(board)@),
        final(words).wf(),
        all_fit(final(word_fields)@, final(board)@),
        final(word_fields)@.len() == old(word_fields)@.len(),
        forall|k: int|
            0 <= k < final(word_fields)@.len() ==> (#[trigger] final(word_fields)@[k]).position == old(
                word_fields,
            )@[k].position && final(word_fields)@[k].size == old(word_fields)@[k].size,
        forall|n: int|
            pool(old(word_fields)@, old(words)@, n) == pool(final(word_fields)@, final(words)@, n),
        exclusive(old(word_fields)@, old(words)@) ==> exclusive(
            final(word_fields)@,
            final(words)@,
        ),
        propagated(old(board)@, old(word_fields)@, old(words)@, old(board)@) ==> propagated(
            final(board)@,
            final(word_fields)@,
            final(words)@,
            final(board)@,
        ),
{
    let mut skip_fields: usize = 0;
    let mut skip_words_map: DenseMap<usize> = DenseMap::new_with_max_key(
        words.longest_size(),
        no_word_tried,
    );
    let ghost start = state_of(
        board@,
        word_fields@,
        words@,
        0,
        fresh_counts(words@),
    );
    let ghost mut trace: Seq<SearchState> = seq![start];
    proof {
        assert(skip_words_map@ =~= fresh_counts(words@));
        assert(same_shape(start.rows, start.rows));
    }
    loop
        invariant
            start == state_of(
                old(board)@,
                old(word_fields)@,
                old(words)@,
                0,
                fresh_counts(old(words)@),
            ),
            search_inv(
                start,
                trace,
                state_of(board@, word_fields@, words@, skip_fields as int, skip_words_map@),
            ),
        decreases
                unassigned(word_fields@),
                word_fields@.len() - skip_fields,
                room(state_of(board@, word_fields@, words@, skip_fields as int, skip_words_map@)),
    {
        let ghost a = state_of(board@, word_fields@, words@, skip_fields as int, skip_words_map@);
        let k = next_unassigned(word_fields, skip_fields);
        proof {
            lemma_candidate(a.slots, a.cursor);
        }
        if k >= word_fields.len() {
            let solved = slots_resolved(board, word_fields);
            proof {
                assert(finished(trace.last()));
                assert(is_search(trace));
            }
            return solved;
        }
        assert(a.slots[k as int].fits(a.rows));
        let word_size = word_fields[k].len();
        let skip = *skip_words_map.get(word_size);
        let position = word_fields[k].position;
        let size = word_fields[k].size;
        let ghost bucket = available(a.inventory, word_size as int);
        match words.reserve(word_size, skip) {
            None => {
                skip_fields = skip_fields + 1;
                skip_words_map.set(word_size, 0);
                proof {
                    let b = state_of(
                        board@,
                        word_fields@,
                        words@,
                        skip_fields as int,
                        skip_words_map@,
                    );
                    assert(advances(a, b));
                    lemma_search_step(start, trace, a, b);
                    trace = trace.push(b);
                }
            },
            Some(word) => {
                let ghost left = words@;
                let ghost letters = word@;
                assert(letters == bucket[skip as int]);
                assert(letters.len() == word_size);
                let reserved = word.duplicate();
                word_fields.set(k, WordField { position, size, selected_word: Some(word) });
                let ghost trial = word_fields@;
                let mut board_candidate = board.duplicate();
                proof {
                    assert(reassigned(a.slots, k as int, Some(letters), trial));
                    assert forall|j: int| 0 <= j < trial.len() implies (#[trigger] trial[j]).fits(
                        a.rows,
                    ) by {
                        if j != k {
                            assert(trial[j] == a.slots[j]);
                        }
                    }
                    lemma_placed_after_remove(bucket, skip as int);
                }
                match restrict_board(&mut board_candidate, word_fields, words) {
                    Err(_) => {
                        skip_words_map.set(word_size, skip + 1);
                        words.return_word(reserved);
                        word_fields.set(k, WordField { position, size, selected_word: None });
                        proof {
                            assert(word_fields@ =~= a.slots);
                            assert(words@ =~= a.inventory);
                            let b = state_of(
                                board@,
                                word_fields@,
                                words@,
                                skip_fields as int,
                                skip_words_map@,
                            );
                            assert(!consistent(a.rows, trial, left));
                            assert(advances(a, b));
                            lemma_search_step(start, trace, a, b);
                            trace = trace.push(b);
                            assert(room(b) < room(a));
                        }
                    },
                    Ok(()) => {
                        *board = board_candidate;
                        skip_fields = 0;
                        skip_words_map.set(word_size, 0);
                        proof {
                            let b = state_of(
                                board@,
                                word_fields@,
                                words@,
                                skip_fields as int,
                                skip_words_map@,
                            );
                            assert(consistent(a.rows, trial, left));
                            assert(same_slots(trial, b.slots));
                            assert(advances(a, b));
                            lemma_fit_same_shape(trial, a.rows, b.rows);
                            lemma_search_step(start, trace, a, b);
                            trace = trace.push(b);
                            lemma_unassigned(a.slots, trial, k as int);
                        }
                    },
                }
            },
        }
    }
}

} // verus!
