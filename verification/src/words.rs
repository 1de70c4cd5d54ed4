//! The inventory of words that may still be placed, kept by length.

use vstd::prelude::*;
use crate::dense_map::DenseMap;
use crate::text::{lines, split_lines};
use crate::word::{
    all_capitals, capitals, lemma_lex_irreflexive, lemma_lex_total, lemma_lex_transitive,
    letters_of, lex_less, spelling, Word,
};

verus! {

/// The views of the words of a bucket.
pub open spec fn word_views(words: Seq<Word>) -> Seq<Seq<u8>> {
    words.map_values(|w: Word| w@)
}

/// A bucket is sorted when its words stand in strictly rising dictionary
/// order, so that no word stands in it twice.
pub open spec fn sorted(bucket: Seq<Seq<u8>>) -> bool {
    forall|i: int, j: int| 0 <= i < j < bucket.len() ==> lex_less(bucket[i], bucket[j])
}

/// An inventory is well formed when every bucket is sorted and bucket `k`
/// holds words of `k` letters only.
pub open spec fn inventory_wf(inventory: Seq<Seq<Seq<u8>>>) -> bool {
    forall|k: int|
        0 <= k < inventory.len() ==> sorted(#[trigger] inventory[k]) && forall|i: int|
            0 <= i < inventory[k].len() ==> (#[trigger] inventory[k][i]).len() == k
}

/// The words of `length` letters that the inventory holds, in their order;
/// none where the inventory has no bucket for that length.
pub open spec fn available(inventory: Seq<Seq<Seq<u8>>>, length: int) -> Seq<Seq<u8>> {
    if 0 <= length < inventory.len() {
        inventory[length]
    } else {
        Seq::empty()
    }
}

/// The first position from `i` on whose word does not come before `word`.
pub open spec fn rank_from(bucket: Seq<Seq<u8>>, word: Seq<u8>, i: int) -> int
    decreases bucket.len() - i,
{
    if i < 0 || i >= bucket.len() || !lex_less(bucket[i], word) {
        i
    } else {
        rank_from(bucket, word, i + 1)
    }
}

/// The place of `word` in a sorted bucket: the number of words of the
/// bucket that come before it.
pub open spec fn rank(bucket: Seq<Seq<u8>>, word: Seq<u8>) -> int {
    rank_from(bucket, word, 0)
}

/// The bucket with `word` in it: unchanged where the word is there already,
/// and else with the word put in at its place.
pub open spec fn placed(bucket: Seq<Seq<u8>>, word: Seq<u8>) -> Seq<Seq<u8>> {
    let p = rank(bucket, word);
    if p < bucket.len() && bucket[p] == word {
        bucket
    } else {
        bucket.insert(p, word)
    }
}

/// The inventory with `word` added: it gets buckets up to the word's length
/// where it has fewer, and the word is put into the bucket of its length.
pub open spec fn added(inventory: Seq<Seq<Seq<u8>>>, word: Seq<u8>) -> Seq<Seq<Seq<u8>>> {
    let grown = if inventory.len() > word.len() {
        inventory
    } else {
        inventory + Seq::new(
            (word.len() + 1 - inventory.len()) as nat,
            |i: int| Seq::<Seq<u8>>::empty(),
        )
    };
    grown.update(word.len() as int, placed(grown[word.len() as int], word))
}

/// The inventory that holds exactly the given words, added one by one.
pub open spec fn inventory_of(words: Seq<Seq<u8>>) -> Seq<Seq<Seq<u8>>>
    decreases words.len(),
{
    if words.len() == 0 {
        Seq::empty()
    } else {
        added(inventory_of(words.drop_last()), words.last())
    }
}

/// True when a line of a word list is a word: it holds letters only.
pub open spec fn is_word_line(line: Seq<char>) -> bool {
    all_capitals(capitals(line))
}

/// The words that the lines of a word list spell.
pub open spec fn words_of(lines: Seq<Seq<char>>) -> Seq<Seq<u8>> {
    lines.map_values(|line: Seq<char>| letters_of(capitals(line)))
}

/// What `rank_from` finds: everything from `i` up to it comes before the
/// word, and the word at it, if there is one, does not.
pub proof fn lemma_rank_from(bucket: Seq<Seq<u8>>, word: Seq<u8>, i: int)
    requires
        0 <= i <= bucket.len(),
    ensures
        i <= rank_from(bucket, word, i) <= bucket.len(),
        forall|k: int| i <= k < rank_from(bucket, word, i) ==> lex_less(#[trigger] bucket[k], word),
        rank_from(bucket, word, i) < bucket.len() ==> !lex_less(
            bucket[rank_from(bucket, word, i)],
            word,
        ),
    decreases bucket.len() - i,
{
    if i < bucket.len() && lex_less(bucket[i], word) {
        lemma_rank_from(bucket, word, i + 1);
    }
}

/// A position with everything before it coming before the word, and the
/// word at it not, is the rank of the word.
pub proof fn lemma_rank_is(bucket: Seq<Seq<u8>>, word: Seq<u8>, p: int)
    requires
        0 <= p <= bucket.len(),
        forall|k: int| 0 <= k < p ==> lex_less(#[trigger] bucket[k], word),
        p < bucket.len() ==> !lex_less(bucket[p], word),
    ensures
        rank(bucket, word) == p,
{
    lemma_rank_from(bucket, word, 0);
    let r = rank(bucket, word);
    if r < p {
        assert(lex_less(bucket[r], word));
    } else if p < r {
        assert(lex_less(bucket[p], word));
    }
}

/// Putting a word into a sorted bucket leaves it sorted, keeps every word
/// that was there, and adds no word but the one put in.
pub proof fn lemma_placed(bucket: Seq<Seq<u8>>, word: Seq<u8>)
    requires
        sorted(bucket),
    ensures
        sorted(placed(bucket, word)),
        placed(bucket, word).contains(word),
        forall|w: Seq<u8>| placed(bucket, word).contains(w) <==> (w == word || bucket.contains(w)),
        bucket.contains(word) <==> placed(bucket, word) == bucket,
{
    let p = rank(bucket, word);
    lemma_rank_from(bucket, word, 0);
    let after = placed(bucket, word);
    if p < bucket.len() && bucket[p] == word {
        assert(bucket.contains(word));
    } else {
        assert(after[p] == word);
        assert forall|i: int, j: int| 0 <= i < j < after.len() implies lex_less(
            after[i],
            after[j],
        ) by {
            if j == p {
                assert(after[i] == bucket[i]);
            } else if i == p {
                assert(after[j] == bucket[j - 1]);
                lemma_lex_total(bucket[p], word);
                if j - 1 > p {
                    lemma_lex_transitive(word, bucket[p], bucket[j - 1]);
                }
            } else {
                let a = if i < p {
                    i
                } else {
                    i - 1
                };
                let b = if j < p {
                    j
                } else {
                    j - 1
                };
                assert(after[i] == bucket[a] && after[j] == bucket[b]);
            }
        }
        assert forall|w: Seq<u8>| after.contains(w) <==> (w == word || bucket.contains(w)) by {
            if after.contains(w) {
                let i = choose|i: int| 0 <= i < after.len() && after[i] == w;
                if i < p {
                    assert(bucket[i] == w);
                } else if i > p {
                    assert(bucket[i - 1] == w);
                }
            }
            if bucket.contains(w) {
                let i = choose|i: int| 0 <= i < bucket.len() && bucket[i] == w;
                if i < p {
                    assert(after[i] == w);
                } else {
                    assert(after[i + 1] == w);
                }
            }
        }
        if bucket.contains(word) {
            let i = choose|i: int| 0 <= i < bucket.len() && bucket[i] == word;
            lemma_lex_irreflexive(word);
            if i < p {
                assert(lex_less(bucket[i], word));
            } else if i > p {
                assert(lex_less(bucket[p], bucket[i]));
            }
        }
        assert(after.len() != bucket.len());
    }
}

/// Taking a word out of a sorted bucket and putting it back gives the
/// bucket as it was, and what is left in between is sorted and lacks
/// the word.
pub proof fn lemma_placed_after_remove(bucket: Seq<Seq<u8>>, q: int)
    requires
        sorted(bucket),
        0 <= q < bucket.len(),
    ensures
        sorted(bucket.remove(q)),
        !bucket.remove(q).contains(bucket[q]),
        rank(bucket.remove(q), bucket[q]) == q,
        placed(bucket.remove(q), bucket[q]) == bucket,
{
    let word = bucket[q];
    let rest = bucket.remove(q);
    assert forall|i: int, j: int| 0 <= i < j < rest.len() implies lex_less(rest[i], rest[j]) by {
        let a = if i < q {
            i
        } else {
            i + 1
        };
        let b = if j < q {
            j
        } else {
            j + 1
        };
        assert(rest[i] == bucket[a] && rest[j] == bucket[b]);
    }
    lemma_lex_irreflexive(word);
    if rest.contains(word) {
        let i = choose|i: int| 0 <= i < rest.len() && rest[i] == word;
        if i < q {
            assert(lex_less(bucket[i], bucket[q]));
        } else {
            assert(lex_less(bucket[q], bucket[i + 1]));
        }
    }
    assert forall|k: int| 0 <= k < q implies lex_less(#[trigger] rest[k], word) by {
        assert(rest[k] == bucket[k]);
    }
    if q < rest.len() {
        assert(rest[q] == bucket[q + 1]);
        lemma_lex_total(rest[q], word);
    }
    lemma_rank_is(rest, word, q);
    assert(rest.insert(q, word) =~= bucket);
}

/// Adding a word to a well-formed inventory leaves it well formed.
pub proof fn lemma_added_wf(inventory: Seq<Seq<Seq<u8>>>, word: Seq<u8>)
    requires
        inventory_wf(inventory),
    ensures
        inventory_wf(added(inventory, word)),
        added(inventory, word).len() == if inventory.len() > word.len() {
            inventory.len()
        } else {
            word.len() + 1
        },
{
    let grown = if inventory.len() > word.len() {
        inventory
    } else {
        inventory + Seq::new(
            (word.len() + 1 - inventory.len()) as nat,
            |i: int| Seq::<Seq<u8>>::empty(),
        )
    };
    let n = word.len() as int;
    assert(inventory_wf(grown));
    lemma_placed(grown[n], word);
    let after = added(inventory, word);
    assert forall|k: int| 0 <= k < after.len() implies sorted(#[trigger] after[k]) && forall|
        i: int,
    |
        0 <= i < after[k].len() ==> (#[trigger] after[k][i]).len() == k by {
        if k == n {
            assert forall|i: int| 0 <= i < after[k].len() implies (#[trigger] after[k][i]).len()
                == k by {
                let w = after[k][i];
                assert(after[k].contains(w));
                if w != word {
                    assert(grown[n].contains(w));
                    let j = choose|j: int| 0 <= j < grown[n].len() && grown[n][j] == w;
                    assert(grown[n][j].len() == n);
                }
            }
        } else {
            assert(after[k] == grown[k]);
        }
    }
}

/// Taking a word out of a bucket of a well-formed inventory leaves the
/// inventory well formed.
pub proof fn lemma_removed_wf(inventory: Seq<Seq<Seq<u8>>>, n: int, t: int)
    requires
        inventory_wf(inventory),
        0 <= n < inventory.len(),
        0 <= t < inventory[n].len(),
    ensures
        inventory_wf(inventory.update(n, inventory[n].remove(t))),
{
    lemma_placed_after_remove(inventory[n], t);
    let after = inventory.update(n, inventory[n].remove(t));
    assert forall|k: int| 0 <= k < after.len() implies sorted(#[trigger] after[k]) && forall|
        i: int,
    |
        0 <= i < after[k].len() ==> (#[trigger] after[k][i]).len() == k by {
        if k == n {
            assert forall|i: int| 0 <= i < after[k].len() implies (#[trigger] after[k][i]).len()
                == k by {
                let j = if i < t {
                    i
                } else {
                    i + 1
                };
                assert(after[k][i] == inventory[k][j]);
            }
        } else {
            assert(after[k] == inventory[k]);
        }
    }
}

/// What the inventory of a list of words holds: it is well formed, it has
/// a bucket for the length of every word of the list, and a word is in the
/// bucket of its length exactly when it is in the list.
pub proof fn lemma_inventory_of(words: Seq<Seq<u8>>)
    ensures
        inventory_wf(inventory_of(words)),
        forall|i: int| 0 <= i < words.len() ==> (#[trigger] words[i]).len() < inventory_of(words).len(),
        forall|w: Seq<u8>|
            #![trigger words.contains(w)]
            available(inventory_of(words), w.len() as int).contains(w) <==> words.contains(w),
    decreases words.len(),
{
    if words.len() == 0 {
        assert forall|w: Seq<u8>|
            #![trigger words.contains(w)]
            available(inventory_of(words), w.len() as int).contains(w) <==> words.contains(w) by {
            assert(available(inventory_of(words), w.len() as int) =~= Seq::<Seq<u8>>::empty());
        }
    } else {
        let front = words.drop_last();
        let last = words.last();
        let before = inventory_of(front);
        lemma_inventory_of(front);
        lemma_added_wf(before, last);
        let grown = if before.len() > last.len() {
            before
        } else {
            before + Seq::new(
                (last.len() + 1 - before.len()) as nat,
                |i: int| Seq::<Seq<u8>>::empty(),
            )
        };
        let n = last.len() as int;
        let after = added(before, last);
        assert(inventory_wf(grown));
        lemma_placed(grown[n], last);
        assert forall|i: int| 0 <= i < words.len() implies (#[trigger] words[i]).len()
            < after.len() by {
            if i < front.len() {
                assert(front[i] == words[i]);
            }
        }
        assert forall|w: Seq<u8>|
            #![trigger words.contains(w)]
            available(after, w.len() as int).contains(w) <==> words.contains(w) by {
            let k = w.len() as int;
            assert(front.contains(w) <==> available(before, k).contains(w));
            assert(available(grown, k).contains(w) <==> available(before, k).contains(w)) by {
                if k < before.len() {
                } else if k < grown.len() {
                    assert(grown[k] =~= Seq::<Seq<u8>>::empty());
                }
            }
            if k == n {
                assert(available(after, k) == placed(grown[n], last));
            } else {
                assert(available(after, k) == available(grown, k));
            }
            if words.contains(w) {
                let i = choose|i: int| 0 <= i < words.len() && words[i] == w;
                if i < front.len() {
                    assert(front[i] == w);
                }
            }
            if front.contains(w) {
                let i = choose|i: int| 0 <= i < front.len() && front[i] == w;
                assert(words[i] == w);
            }
            assert(words[words.len() - 1] == last);
        }
    }
}

/// The character that writes the digit `d`.
pub open spec fn digit_char(d: int) -> char {
    ('0' as u8 + d) as char
}

/// The decimal digits of `n`.
pub open spec fn decimal(n: nat) -> Seq<char>
    decreases n,
{
    if n < 10 {
        seq![digit_char(n as int)]
    } else {
        decimal(n / 10).push(digit_char((n % 10) as int))
    }
}

/// `text` with blanks in front of it, as many as it lacks to `width`
/// characters.
pub open spec fn padded(text: Seq<char>, width: nat) -> Seq<char> {
    if text.len() >= width {
        text
    } else {
        Seq::new((width - text.len()) as nat, |i: int| ' ') + text
    }
}

/// The words of a bucket in capitals, separated by a comma and a blank.
pub open spec fn joined_words(bucket: Seq<Seq<u8>>) -> Seq<char>
    decreases bucket.len(),
{
    if bucket.len() == 0 {
        Seq::empty()
    } else if bucket.len() == 1 {
        spelling(bucket[0])
    } else {
        joined_words(bucket.drop_last()) + seq![',', ' '] + spelling(bucket.last())
    }
}

/// The line that shows a bucket: the length, set to the right in three
/// places, an arrow, and the words between braces.
pub open spec fn bucket_line(length: nat, bucket: Seq<Seq<u8>>) -> Seq<char> {
    padded(decimal(length), 3) + seq![' ', '-', '-', '>', ' ', '{'] + joined_words(bucket)
        + seq!['}', '\n']
}

/// The lines that show the first `k` buckets of an inventory, one for each
/// bucket that holds a word.
pub open spec fn listing_upto(inventory: Seq<Seq<Seq<u8>>>, k: nat) -> Seq<char>
    decreases k,
{
    if k == 0 {
        Seq::empty()
    } else {
        let last = (k - 1) as nat;
        listing_upto(inventory, last) + if inventory[last as int].len() > 0 {
            bucket_line(last, inventory[last as int])
        } else {
            Seq::empty()
        }
    }
}

/// The decimal digits of `n`.
fn decimal_chars(n: usize) -> (digits: Vec<char>)
    ensures
        digits@ == decimal(n as nat),
    decreases n,
{
    let mut digits = if n >= 10 {
        decimal_chars(n / 10)
    } else {
        Vec::new()
    };
    let d: u8 = (n % 10) as u8;
    digits.push((48 + d) as char);
    proof {
        if n < 10 {
            assert(digits@ =~= seq![digit_char(n as int)]);
        }
    }
    digits
}

/// The first line of a word list that is no word.
#[derive(Copy, Clone, Debug, PartialEq, Eq, Structural)]
pub struct WordListError {
    /// The number of the line, counted from zero.
    pub line: usize,
}

/// The words that may still be placed, one sorted bucket for each length.
///
/// The view is the sequence of the buckets, bucket `k` holding the words of
/// `k` letters in dictionary order.
#[derive(Clone, Debug)]
pub struct Words {
    data: DenseMap<Vec<Word>>,
}

impl View for Words {
    type V = Seq<Seq<Seq<u8>>>;

    closed spec fn view(&self) -> Seq<Seq<Seq<u8>>> {
        self.data@.map_values(|bucket: Vec<Word>| word_views(bucket@))
    }
}

/// Puts a word into a sorted bucket, unless it is there already.
fn place(bucket: &mut Vec<Word>, word: Word)
    ensures
        word_views(final(bucket)@) == placed(word_views(old(bucket)@), word@),
{
    let ghost views = word_views(bucket@);
    let mut p: usize = 0;
    while p < bucket.len() && bucket[p].precedes(&word)
        invariant
            p <= bucket@.len(),
            views == word_views(bucket@),
            rank(views, word@) == rank_from(views, word@, p as int),
        decreases bucket@.len() - p,
    {
        p = p + 1;
    }
    if p < bucket.len() && bucket[p].equals(&word) {
    } else {
        bucket.insert(p, word);
        proof {
            assert(word_views(bucket@) =~= views.insert(p as int, word@));
        }
    }
}

impl Words {
    /// Every bucket is sorted and holds words of its own length only.
    pub open spec fn wf(&self) -> bool {
        inventory_wf(self@)
    }

    /// Reads a word list: one word on each line, small letters counting as
    /// capitals. Each word goes into the bucket of its length; a word that
    /// comes twice is kept once. A line that holds anything but letters is
    /// refused, and the first such line is named.
    pub fn new(string: String) -> (r: Result<Words, WordListError>)
        ensures
            match r {
                Ok(words) => {
                    &&& forall|k: int|
                        0 <= k < lines(string@).len() ==> is_word_line(#[trigger] lines(string@)[k])
                    &&& words@ == inventory_of(words_of(lines(string@)))
                    &&& words.wf()
                },
                Err(e) => {
                    &&& e.line < lines(string@).len()
                    &&& !is_word_line(lines(string@)[e.line as int])
                    &&& forall|k: int| 0 <= k < e.line ==> is_word_line(#[trigger] lines(string@)[k])
                },
            },
    {
        let rows = split_lines(string.as_str());
        let ghost all = lines(string@);
        let mut words = Words { data: DenseMap::new() };
        let mut i: usize = 0;
        proof {
            assert(words@ =~= Seq::<Seq<Seq<u8>>>::empty());
            assert(words_of(all).take(0) =~= Seq::<Seq<u8>>::empty());
        }
        while i < rows.len()
            invariant
                i <= rows@.len(),
                all == lines(string@),
                rows@.len() == all.len(),
                forall|k: int| 0 <= k < rows@.len() ==> (#[trigger] rows@[k])@ == all[k],
                forall|k: int| 0 <= k < i ==> is_word_line(#[trigger] all[k]),
                words@ == inventory_of(words_of(all).take(i as int)),
                words.wf(),
            decreases rows@.len() - i,
        {
            let ghost before = words@;
            assert(rows@[i as int]@ == all[i as int]);
            match Word::from_chars(&rows[i]) {
                None => {
                    return Err(WordListError { line: i });
                },
                Some(word) => {
                    proof {
                        let sofar = words_of(all).take(i + 1);
                        assert(sofar.drop_last() =~= words_of(all).take(i as int));
                        assert(sofar.last() == word@);
                        lemma_added_wf(before, word@);
                    }
                    words.add(word);
                },
            }
            i = i + 1;
        }
        proof {
            assert(words_of(all).take(i as int) =~= words_of(all));
        }
        Ok(words)
    }

    /// Adds a word to the inventory, with new buckets where its length has
    /// none yet.
    fn add(&mut self, word: Word)
        ensures
            final(self)@ == added(old(self)@, word@),
    {
        let n = word.len();
        let ghost before = self@;
        self.data.set_max_key(n, || -> (bucket: Vec<Word>)
            ensures
                bucket@ == Seq::<Word>::empty(),
            { Vec::new() });
        let ghost grown = self@;
        proof {
            let expected = if before.len() > n {
                before
            } else {
                before + Seq::new((n + 1 - before.len()) as nat, |i: int| Seq::<Seq<u8>>::empty())
            };
            assert(grown.len() == expected.len());
            assert forall|k: int| 0 <= k < grown.len() implies grown[k] == expected[k] by {
                if k < before.len() {
                    assert(self.data@.take(before.len() as int)[k] == self.data@[k]);
                } else {
                    assert(self.data@[k]@ == Seq::<Word>::empty());
                    assert(word_views(self.data@[k]@) =~= Seq::<Seq<u8>>::empty());
                }
            }
            assert(grown =~= expected);
        }
        let bucket = self.data.get_mut(n);
        place(bucket, word);
        proof {
            assert(self@ =~= grown.update(n as int, placed(grown[n as int], word@)));
        }
    }

    /// The words of `length` letters that may still be placed, or `None`
    /// where there is none.
    pub fn words_with_length(&self, length: usize) -> (r: Option<&Vec<Word>>)
        ensures
            r is Some <==> available(self@, length as int).len() > 0,
            r matches Some(bucket) ==> word_views(bucket@) == available(self@, length as int),
    {
        if length >= self.data.len() {
            return None;
        }
        let bucket = self.data.get(length);
        if bucket.len() == 0 {
            return None;
        }
        Some(bucket)
    }

    /// The bucket of the words of `length` letters, to be changed in place,
    /// or `None` where no word of that length is left.
    pub fn words_with_length_mut(&mut self, length: usize) -> (r: Option<&mut Vec<Word>>)
        ensures
            r is Some <==> available(old(self)@, length as int).len() > 0,
            r is None ==> final(self)@ == old(self)@,
            r matches Some(bucket) ==> {
                &&& word_views(bucket@) == available(old(self)@, length as int)
                &&& final(self)@ == old(self)@.update(length as int, word_views(final(bucket)@))
            },
    {
        if length >= self.data.len() {
            return None;
        }
        if self.data.get(length).len() == 0 {
            return None;
        }
        let bucket = self.data.get_mut(length);
        Some(bucket)
    }

    /// Takes the word at place `skip` among the words of `length` letters
    /// out of the inventory and hands it over; `None`, and nothing changed,
    /// where fewer words of that length are left.
    pub fn reserve(&mut self, length: usize, skip: usize) -> (r: Option<Word>)
        ensures
            r is Some <==> skip < available(old(self)@, length as int).len(),
            r is Some ==> skip < usize::MAX,
            r is None ==> final(self)@ == old(self)@,
            r matches Some(word) ==> {
                &&& word@ == available(old(self)@, length as int)[skip as int]
                &&& final(self)@ == old(self)@.update(
                    length as int,
                    old(self)@[length as int].remove(skip as int),
                )
            },
            old(self).wf() ==> final(self).wf(),
    {
        let ghost before = self@;
        match self.words_with_length_mut(length) {
            None => None,
            Some(bucket) => {
                if skip < bucket.len() {
                    let ghost views = word_views(bucket@);
                    let word = bucket[skip].duplicate();
                    bucket.remove(skip);
                    proof {
                        assert(word_views(bucket@) =~= views.remove(skip as int));
                        if inventory_wf(before) {
                            lemma_removed_wf(before, length as int, skip as int);
                        }
                    }
                    Some(word)
                } else {
                    proof {
                        assert(before.update(length as int, word_views(bucket@)) =~= before);
                    }
                    None
                }
            },
        }
    }

    /// Gives a word back to the bucket of its length, which the inventory
    /// has. A word that is there already is not added again.
    pub fn return_word(&mut self, word: Word)
        requires
            word@.len() < old(self)@.len(),
        ensures
            final(self)@ == old(self)@.update(
                word@.len() as int,
                placed(old(self)@[word@.len() as int], word@),
            ),
            final(self)@ == added(old(self)@, word@),
            old(self).wf() ==> final(self).wf(),
    {
        let ghost before = self@;
        let n = word.len();
        let ghost letters = word@;
        let bucket = self.data.get_mut(n);
        place(bucket, word);
        proof {
            assert(self@ =~= before.update(n as int, placed(before[n as int], letters)));
            if inventory_wf(before) {
                lemma_added_wf(before, letters);
            }
        }
    }

    /// The text that shows the inventory: for each length that has words a
    /// line with the length and the words of that length, in their order.
    pub fn to_string(&self) -> (text: String)
        ensures
            text@ == listing_upto(self@, self@.len()),
    {
        let mut text = String::new();
        let mut k: usize = 0;
        while k < self.data.len()
            invariant
                k <= self@.len(),
                self.data@.len() == self@.len(),
                text@ == listing_upto(self@, k as nat),
            decreases self@.len() - k,
        {
            let bucket = self.data.get(k);
            let ghost views = word_views(bucket@);
            let ghost before = text@;
            assert(views == self@[k as int]);
            if bucket.len() > 0 {
                let digits = decimal_chars(k);
                let mut pad = digits.len();
                while pad < 3
                    invariant
                        digits@.len() <= pad,
                        pad <= 3 || pad == digits@.len(),
                        text@ == before + Seq::new((pad - digits@.len()) as nat, |i: int| ' '),
                    decreases 3 - pad,
                {
                    text.push(' ');
                    proof {
                        assert(text@ =~= before + Seq::new(
                            (pad + 1 - digits@.len()) as nat,
                            |i: int| ' ',
                        ));
                    }
                    pad = pad + 1;
                }
                let ghost blanks = text@;
                let mut d: usize = 0;
                while d < digits.len()
                    invariant
                        d <= digits@.len(),
                        text@ == blanks + digits@.take(d as int),
                    decreases digits@.len() - d,
                {
                    text.push(digits[d]);
                    proof {
                        assert(text@ =~= blanks + digits@.take(d + 1));
                    }
                    d = d + 1;
                }
                proof {
                    assert(digits@.take(d as int) =~= digits@);
                    assert(text@ =~= before + padded(decimal(k as nat), 3));
                }
                text.push(' ');
                text.push('-');
                text.push('-');
                text.push('>');
                text.push(' ');
                text.push('{');
                let ghost head = text@;
                let mut j: usize = 0;
                while j < bucket.len()
                    invariant
                        j <= bucket@.len(),
                        views == word_views(bucket@),
                        text@ == head + joined_words(views.take(j as int)),
                    decreases bucket@.len() - j,
                {
                    if j > 0 {
                        text.push(',');
                        text.push(' ');
                    }
                    let word = bucket[j].to_string();
                    text.push_str(word.as_str());
                    proof {
                        let shown = views.take(j + 1);
                        assert(shown.drop_last() =~= views.take(j as int));
                        assert(shown.last() == views[j as int]);
                        if j == 0 {
                            assert(joined_words(views.take(0)) =~= Seq::<char>::empty());
                        }
                        assert(text@ =~= head + joined_words(shown));
                    }
                    j = j + 1;
                }
                proof {
                    assert(views.take(j as int) =~= views);
                }
                text.push('}');
                text.push('\n');
                proof {
                    assert(text@ =~= before + bucket_line(k as nat, views));
                }
            } else {
                proof {
                    assert(before + Seq::<char>::empty() =~= before);
                }
            }
            k = k + 1;
        }
        text
    }

    /// The largest length that the inventory has a bucket for, and zero for
    /// an inventory without buckets.
    pub fn longest_size(&self) -> (n: usize)
        ensures
            n == if self@.len() == 0 {
                0
            } else {
                self@.len() - 1
            },
            n < usize::MAX,
    {
        if self.data.len() == 0 {
            0
        } else {
            self.data.max_key()
        }
    }
}

} // verus!
