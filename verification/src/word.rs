//! Words: sequences of letters, and their order.

use vstd::prelude::*;
use crate::character::{
    capital_at, capital_index, capitalize, is_capital, to_capital, Character,
};

verus! {

/// `text` with every small ASCII letter turned into its capital.
pub open spec fn capitals(text: Seq<char>) -> Seq<char> {
    text.map_values(|c: char| to_capital(c))
}

/// True when every character of `text` is one of `A` to `Z`.
pub open spec fn all_capitals(text: Seq<char>) -> bool {
    forall|i: int| 0 <= i < text.len() ==> is_capital(#[trigger] text[i])
}

/// The alphabet positions of the capitals of `text`.
pub open spec fn letters_of(text: Seq<char>) -> Seq<u8> {
    text.map_values(|c: char| capital_index(c))
}

/// The capitals that write `letters`.
pub open spec fn spelling(letters: Seq<u8>) -> Seq<char> {
    letters.map_values(|l: u8| capital_at(l))
}

/// Dictionary order from position `i` on: `a` comes before `b` when, at the
/// first position from `i` on where they differ, `a` has the smaller letter
/// or has ended.
pub open spec fn lex_less_from(a: Seq<u8>, b: Seq<u8>, i: int) -> bool
    decreases a.len() - i,
{
    if i < 0 || i >= b.len() {
        false
    } else if i >= a.len() {
        true
    } else if a[i] < b[i] {
        true
    } else if a[i] > b[i] {
        false
    } else {
        lex_less_from(a, b, i + 1)
    }
}

/// Dictionary order: `a` comes strictly before `b`.
pub open spec fn lex_less(a: Seq<u8>, b: Seq<u8>) -> bool {
    lex_less_from(a, b, 0)
}

/// True when `a` and `b` agree on their first `k` letters and `a` then
/// either ends while `b` goes on, or has the smaller letter.
pub open spec fn parts_at(a: Seq<u8>, b: Seq<u8>, k: int) -> bool {
    &&& 0 <= k <= a.len()
    &&& k < b.len()
    &&& forall|j: int| 0 <= j < k ==> a[j] == b[j]
    &&& (k == a.len() || a[k] < b[k])
}

/// `str::make_ascii_uppercase` on the text of a `String`: it maps the ASCII
/// letters `a` to `z` to `A` to `Z` in place and leaves every other
/// character as it is.
#[verifier::external_body]
fn make_ascii_uppercase(text: &mut String)
    ensures
        final(text)@ == capitals(old(text)@),
{
    text.make_ascii_uppercase();
}

/// A word: a sequence of letters. Its view is the sequence of the letters'
/// positions in the alphabet.
#[derive(Clone, Debug, PartialEq, Eq, PartialOrd, Ord, Hash)]
pub struct Word {
    data: Vec<Character>,
}

impl View for Word {
    type V = Seq<u8>;

    closed spec fn view(&self) -> Seq<u8> {
        self.data@.map_values(|c: Character| c.index())
    }
}

impl Word {
    /// Reads a word. The text is first turned into capitals, in place; the
    /// word is made of its letters. Text that then holds anything but the
    /// capitals `A` to `Z` gives `None`.
    pub fn new(string: &mut String) -> (r: Option<Word>)
        ensures
            final(string)@ == capitals(old(string)@),
            r is Some <==> all_capitals(capitals(old(string)@)),
            r matches Some(word) ==> word@ == letters_of(capitals(old(string)@)),
    {
        let ghost given = string@;
        make_ascii_uppercase(string);
        let ghost text = string@;
        let mut data: Vec<Character> = Vec::new();
        for c in it: string.as_str().chars()
            invariant
                it.seq() == text,
                string@ == text,
                text == capitals(given),
                given == old(string)@,
                data@.len() == it.index(),
                forall|k: int|
                    0 <= k < it.index() ==> is_capital(#[trigger] text[k]) && data@[k].index()
                        == capital_index(text[k]),
        {
            match Character::from_char(c) {
                Some(letter) => {
                    data.push(letter);
                },
                None => {
                    proof {
                        assert(!is_capital(text[it.index()]));
                    }
                    return None;
                },
            }
        }
        let word = Word { data };
        proof {
            assert(word@ =~= letters_of(text));
        }
        Some(word)
    }

    /// Reads a word from characters, small letters counting as capitals.
    /// Characters that hold anything but letters give `None`.
    pub fn from_chars(chars: &Vec<char>) -> (r: Option<Word>)
        ensures
            r is Some <==> all_capitals(capitals(chars@)),
            r matches Some(word) ==> word@ == letters_of(capitals(chars@)),
    {
        let mut data: Vec<Character> = Vec::new();
        let mut i: usize = 0;
        while i < chars.len()
            invariant
                i <= chars@.len(),
                data@.len() == i,
                forall|k: int|
                    0 <= k < i ==> is_capital(#[trigger] capitals(chars@)[k]) && data@[k].index()
                        == capital_index(capitals(chars@)[k]),
            decreases chars@.len() - i,
        {
            match Character::from_char(capitalize(chars[i])) {
                Some(letter) => {
                    data.push(letter);
                },
                None => {
                    proof {
                        assert(!is_capital(capitals(chars@)[i as int]));
                    }
                    return None;
                },
            }
            i = i + 1;
        }
        let word = Word { data };
        proof {
            assert(word@ =~= letters_of(capitals(chars@)));
        }
        Some(word)
    }

    /// The word made of the given letters.
    pub fn from_letters(letters: Vec<Character>) -> (word: Word)
        ensures
            word@.len() == letters@.len(),
            forall|i: int| 0 <= i < letters@.len() ==> word@[i] == (#[trigger] letters@[i]).index(),
    {
        Word { data: letters }
    }

    /// The number of letters.
    pub fn len(&self) -> (n: usize)
        ensures
            n == self@.len(),
    {
        self.data.len()
    }

    /// The letter at position `idx`.
    pub fn get(&self, idx: usize) -> (character: Character)
        requires
            idx < self@.len(),
        ensures
            character.index() == self@[idx as int],
            character.is_letter(),
    {
        let character = self.data[idx];
        proof {
            use_type_invariant(character);
        }
        character
    }

    /// True when both words have the same letters.
    pub fn equals(&self, other: &Word) -> (r: bool)
        ensures
            r == (self@ == other@),
    {
        if self.data.len() != other.data.len() {
            proof {
                assert(self@.len() != other@.len());
            }
            return false;
        }
        let mut i: usize = 0;
        while i < self.data.len()
            invariant
                i <= self.data@.len(),
                self.data@.len() == other.data@.len(),
                forall|k: int| 0 <= k < i ==> self@[k] == other@[k],
            decreases self.data@.len() - i,
        {
            if self.data[i].value() != other.data[i].value() {
                proof {
                    assert(self@[i as int] != other@[i as int]);
                }
                return false;
            }
            i = i + 1;
        }
        proof {
            assert(self@ =~= other@);
        }
        true
    }

    /// True when this word comes strictly before `other` in dictionary
    /// order.
    pub fn precedes(&self, other: &Word) -> (r: bool)
        ensures
            r == lex_less(self@, other@),
    {
        let mut i: usize = 0;
        while i < self.data.len() && i < other.data.len()
            invariant
                i <= self.data@.len(),
                i <= other.data@.len(),
                lex_less(self@, other@) == lex_less_from(self@, other@, i as int),
            decreases self.data@.len() - i,
        {
            let a = self.data[i].value();
            let b = other.data[i].value();
            if a < b {
                return true;
            }
            if a > b {
                return false;
            }
            i = i + 1;
        }
        i < other.data.len()
    }

    /// A copy of the word.
    pub fn duplicate(&self) -> (word: Word)
        ensures
            word@ == self@,
    {
        let mut data: Vec<Character> = Vec::new();
        let mut i: usize = 0;
        while i < self.data.len()
            invariant
                i <= self.data@.len(),
                data@ == self.data@.take(i as int),
            decreases self.data@.len() - i,
        {
            data.push(self.data[i]);
            proof {
                assert(data@ =~= self.data@.take(i + 1));
            }
            i = i + 1;
        }
        proof {
            assert(self.data@.take(i as int) =~= self.data@);
        }
        Word { data }
    }

    /// The word written in capitals.
    pub fn to_string(&self) -> (text: String)
        ensures
            text@ == spelling(self@),
    {
        let mut text = String::new();
        let mut i: usize = 0;
        while i < self.data.len()
            invariant
                i <= self.data@.len(),
                text@ == spelling(self@.take(i as int)),
            decreases self.data@.len() - i,
        {
            text.push(self.data[i].to_char());
            proof {
                assert(text@ =~= spelling(self@.take(i + 1)));
            }
            i = i + 1;
        }
        proof {
            assert(self@.take(i as int) =~= self@);
        }
        text
    }
}

/// What dictionary order means: `a` comes before `b` exactly when there is
/// a place up to which they agree and at which `a` has ended while `b` goes
/// on, or has the smaller letter.
pub proof fn lemma_lex_less_means(a: Seq<u8>, b: Seq<u8>)
    ensures
        lex_less(a, b) <==> exists|k: int| parts_at(a, b, k),
{
    if lex_less(a, b) {
        lemma_parting_found(a, b, 0);
    }
    if exists|k: int| parts_at(a, b, k) {
        let k = choose|k: int| parts_at(a, b, k);
        lemma_parting_decides(a, b, 0, k);
    }
}

proof fn lemma_parting_found(a: Seq<u8>, b: Seq<u8>, i: int)
    requires
        0 <= i <= a.len(),
        forall|j: int| 0 <= j < i ==> a[j] == b[j],
        lex_less_from(a, b, i),
    ensures
        exists|k: int| parts_at(a, b, k),
    decreases a.len() - i,
{
    if i < a.len() && a[i] == b[i] {
        lemma_parting_found(a, b, i + 1);
    } else {
        assert(parts_at(a, b, i));
    }
}

proof fn lemma_parting_decides(a: Seq<u8>, b: Seq<u8>, i: int, k: int)
    requires
        0 <= i <= k,
        parts_at(a, b, k),
    ensures
        lex_less_from(a, b, i),
    decreases k - i,
{
    if i < k {
        lemma_parting_decides(a, b, i + 1, k);
    }
}

/// No word comes before itself.
pub proof fn lemma_lex_irreflexive(a: Seq<u8>)
    ensures
        !lex_less(a, a),
{
    lemma_irreflexive_from(a, 0);
}

proof fn lemma_irreflexive_from(a: Seq<u8>, i: int)
    requires
        0 <= i,
    ensures
        !lex_less_from(a, a, i),
    decreases a.len() - i,
{
    if i < a.len() {
        lemma_irreflexive_from(a, i + 1);
    }
}

/// Dictionary order is transitive.
pub proof fn lemma_lex_transitive(a: Seq<u8>, b: Seq<u8>, c: Seq<u8>)
    requires
        lex_less(a, b),
        lex_less(b, c),
    ensures
        lex_less(a, c),
{
    lemma_transitive_from(a, b, c, 0);
}

proof fn lemma_transitive_from(a: Seq<u8>, b: Seq<u8>, c: Seq<u8>, i: int)
    requires
        0 <= i,
        lex_less_from(a, b, i),
        lex_less_from(b, c, i),
    ensures
        lex_less_from(a, c, i),
    decreases a.len() - i,
{
    if i < a.len() && a[i] == b[i] && b[i] == c[i] {
        lemma_transitive_from(a, b, c, i + 1);
    }
}

/// Of two words, exactly one holds: the first comes before the second, they
/// are the same word, or the second comes before the first.
pub proof fn lemma_lex_total(a: Seq<u8>, b: Seq<u8>)
    ensures
        lex_less(a, b) || a == b || lex_less(b, a),
        !(lex_less(a, b) && lex_less(b, a)),
        a == b ==> !lex_less(a, b),
{
    lemma_total_from(a, b, 0);
    lemma_lex_irreflexive(a);
}

proof fn lemma_total_from(a: Seq<u8>, b: Seq<u8>, i: int)
    requires
        0 <= i <= a.len(),
        i <= b.len(),
        forall|k: int| 0 <= k < i ==> a[k] == b[k],
    ensures
        lex_less_from(a, b, i) || a == b || lex_less_from(b, a, i),
        !(lex_less_from(a, b, i) && lex_less_from(b, a, i)),
    decreases a.len() - i,
{
    if i < a.len() && i < b.len() {
        if a[i] == b[i] {
            lemma_total_from(a, b, i + 1);
        }
    } else if i == a.len() && i == b.len() {
        assert(a =~= b);
    }
}

} // verus!
