//! The domain of one cell: the letters still possible there, or the mark of
//! a blocked cell.

use vstd::prelude::*;
use crate::character::{capital_at, capital_index, capitalize, is_capital, to_capital, Character};

verus! {

/// True when the bit at `position` of `bits` is one.
pub open spec fn bit_is_set(bits: u32, position: u32) -> bool {
    (bits >> position) & 1 == 1
}

/// How many of the lowest `n` bits of `bits` are one.
pub open spec fn ones_below(bits: u32, n: nat) -> nat
    decreases n,
{
    if n == 0 {
        0
    } else {
        ones_below(bits, (n - 1) as nat) + if bit_is_set(bits, (n - 1) as u32) {
            1nat
        } else {
            0nat
        }
    }
}

/// `u32::count_ones` returns the number of one bits among the 32 bits of its
/// argument.
pub assume_specification[ u32::count_ones ](bits: u32) -> (r: u32)
    ensures
        r == ones_below(bits, 32),
;

/// True when `l` is the smallest member of `s`.
pub open spec fn is_least(s: Set<u8>, l: u8) -> bool {
    s.contains(l) && forall|m: u8| s.contains(m) ==> l <= m
}

/// The smallest member of `s`.
pub open spec fn least(s: Set<u8>) -> u8 {
    choose|l: u8| is_least(s, l)
}

/// The `n` smallest members of `s`, smallest first.
pub open spec fn ascending(s: Set<u8>, n: nat) -> Seq<u8>
    decreases n,
{
    if n == 0 {
        Seq::empty()
    } else {
        seq![least(s)] + ascending(s.remove(least(s)), (n - 1) as nat)
    }
}

/// The capitals of `letters`, separated by a comma and a blank.
pub open spec fn joined(letters: Seq<u8>) -> Seq<char>
    decreases letters.len(),
{
    if letters.len() == 0 {
        Seq::empty()
    } else if letters.len() == 1 {
        seq![capital_at(letters[0])]
    } else {
        joined(letters.drop_last()) + seq![',', ' ', capital_at(letters.last())]
    }
}

/// True for the symbols that describe a cell: `_` for an open cell, `#` for
/// a blocked one, and a letter, small or capital, for a cell that is given.
pub open spec fn is_cell_symbol(c: char) -> bool {
    c == '_' || c == '#' || is_capital(to_capital(c))
}

/// True when `field` is the domain that the symbol `c` stands for: an
/// unconstrained cell for `_`, a blocked cell for `#`, and for a letter the
/// open cell with just that letter.
pub open spec fn stands_for(c: char, field: Field) -> bool {
    &&& field.wf()
    &&& c == '_' ==> field.is_unconstrained()
    &&& c == '#' ==> field.is_blocked()
    &&& c != '_' && c != '#' ==> field.is_open() && field.letters() == set![
        capital_index(to_capital(c)),
    ]
}

/// The set of all 26 letter positions.
pub open spec fn all_letters() -> Set<u8> {
    Set::new(|l: u8| l < 26)
}

/// The domain of one cell of the grid.
///
/// A domain holds a set of letters and a flag that tells an open cell from a
/// blocked one. A blocked cell has no flag and no letters; an open cell with
/// all 26 letters is unconstrained, one with a single letter is resolved.
#[derive(Copy, Clone, Debug, PartialEq, Eq, Structural)]
pub struct Field {
    data: u32,
}

impl Field {
    /// Only the flag and the 26 letter positions are ever used.
    #[verifier::type_invariant]
    pub closed spec fn wf(self) -> bool {
        self.data & 0x7C00_0000 == 0
    }

    /// The flag of an open cell.
    pub closed spec fn is_open(self) -> bool {
        self.data & 0x8000_0000 != 0
    }

    /// The positions in the alphabet of the letters that the domain holds.
    pub closed spec fn letters(self) -> Set<u8> {
        Set::new(|l: u8| l < 26 && bit_is_set(self.data, l as u32))
    }

    /// The bit pattern that stores the domain: bit 31 is the flag of an open
    /// cell, bit `l` below 26 says that letter `l` is present.
    pub closed spec fn encoding(self) -> u32 {
        self.data
    }

    /// Neither flag nor letters: the state of a blocked cell.
    pub open spec fn is_blocked(self) -> bool {
        !self.is_open() && self.letters() == Set::<u8>::empty()
    }

    /// An open cell with all 26 letters.
    pub open spec fn is_unconstrained(self) -> bool {
        self.is_open() && self.letters() == all_letters()
    }

    /// An open cell with exactly one letter.
    pub open spec fn is_resolved(self) -> bool {
        self.is_open() && self.letters().len() == 1
    }

    /// The count that `len` reports: the number of letters of an open cell,
    /// and one less than the number of letters where the flag is missing, so
    /// `-1` for a blocked cell.
    pub open spec fn count(self) -> int {
        if self.is_open() {
            self.letters().len() as int
        } else {
            self.letters().len() - 1
        }
    }

    /// The letters of a domain are a finite set of positions below 26.
    pub proof fn lemma_letters_bounded(self)
        ensures
            self.letters().finite(),
            self.letters().subset_of(all_letters()),
            self.letters().len() <= 26,
            forall|l: u8| self.letters().contains(l) ==> l < 26,
            -1 <= self.count() <= 26,
    {
        lemma_letters_below(self.data, 26);
        assert(self.letters() =~= letters_below(self.data, 26));
        lemma_ones_bound(self.data, 26);
    }

    /// Two domains with the same flag and the same letters are equal.
    pub proof fn lemma_extensional(self, other: Field)
        requires
            self.wf(),
            other.wf(),
            self.is_open() == other.is_open(),
            self.letters() == other.letters(),
        ensures
            self == other,
    {
        let a = self.data;
        let b = other.data;
        assert forall|l: u32| l < 32 implies (#[trigger] bit_is_set(a, l) <==> bit_is_set(b, l)) by {
            if l < 26 {
                let k = l as u8;
                assert(k as u32 == l);
                assert(self.letters().contains(k) <==> other.letters().contains(k));
                assert(self.letters().contains(k) <==> bit_is_set(a, k as u32));
                assert(other.letters().contains(k) <==> bit_is_set(b, k as u32));
            } else {
                assert(a & 0x7C00_0000 == 0 ==> (26 <= l < 31 ==> !bit_is_set(a, l)))
                    by (bit_vector);
                assert(b & 0x7C00_0000 == 0 ==> (26 <= l < 31 ==> !bit_is_set(b, l)))
                    by (bit_vector);
                assert(l == 31 ==> (bit_is_set(a, l) <==> a & 0x8000_0000 != 0)) by (bit_vector);
                assert(l == 31 ==> (bit_is_set(b, l) <==> b & 0x8000_0000 != 0)) by (bit_vector);
            }
        }
        lemma_all_bits(a, b);
    }

    /// The set of all letters has 26 members.
    pub proof fn lemma_all_letters()
        ensures
            all_letters().finite(),
            all_letters().len() == 26,
    {
        let full: u32 = 0x03FF_FFFF;
        assert(forall|l: u32| l < 26 ==> #[trigger] bit_is_set(0x03FF_FFFFu32, l)) by (bit_vector);
        lemma_letters_below(full, 26);
        lemma_ones_full(full, 26);
        assert(all_letters() =~= letters_below(full, 26)) by {
            assert forall|l: u8| all_letters().contains(l) implies letters_below(
                full,
                26,
            ).contains(l) by {
                assert(bit_is_set(full, l as u32));
            }
        }
    }

    /// An open cell without any letter.
    pub fn new_empty() -> (field: Field)
        ensures
            field.is_open(),
            field.letters() == Set::<u8>::empty(),
            field.count() == 0,
            field.wf(),
    {
        proof {
            assert(0x8000_0000u32 & 0x7C00_0000 == 0) by (bit_vector);
        }
        let field = Field { data: 0x8000_0000 };
        proof {
            assert(0x8000_0000u32 & 0x8000_0000 != 0) by (bit_vector);
            assert(forall|l: u32| l < 26 ==> !#[trigger] bit_is_set(0x8000_0000u32, l))
                by (bit_vector);
            assert(field.letters() =~= Set::<u8>::empty());
        }
        field
    }

    /// A blocked cell.
    pub fn new_blocker() -> (field: Field)
        ensures
            field.is_blocked(),
            field.count() == -1,
            field.encoding() == 0,
            field.wf(),
    {
        proof {
            assert(0u32 & 0x7C00_0000 == 0) by (bit_vector);
        }
        let field = Field { data: 0 };
        proof {
            assert(0u32 & 0x8000_0000 == 0) by (bit_vector);
            assert(forall|l: u32| l < 26 ==> !#[trigger] bit_is_set(0u32, l)) by (bit_vector);
            assert(field.letters() =~= Set::<u8>::empty());
        }
        field
    }

    /// True for a domain without flag and without letters.
    pub fn is_blocker(&self) -> (r: bool)
        ensures
            r == self.is_blocked(),
            r == (self.encoding() == 0),
    {
        proof {
            use_type_invariant(self);
            lemma_zero_iff_no_bits(self.data);
            if self.is_blocked() {
                assert forall|l: u32| l < 26 implies !#[trigger] bit_is_set(self.data, l) by {
                    assert(!self.letters().contains(l as u8));
                }
            }
            if self.data == 0 {
                assert(self.letters() =~= Set::<u8>::empty());
            }
        }
        self.data == 0
    }

    /// An open cell in which every letter is still possible.
    pub fn new_any_character() -> (field: Field)
        ensures
            field.is_unconstrained(),
            field.count() == 26,
            field.wf(),
    {
        proof {
            assert(0x83FF_FFFFu32 & 0x7C00_0000 == 0) by (bit_vector);
        }
        let field = Field { data: 0x83FF_FFFF };
        proof {
            assert(0x83FF_FFFFu32 & 0x8000_0000 != 0) by (bit_vector);
            assert(forall|l: u32| l < 26 ==> #[trigger] bit_is_set(0x83FF_FFFFu32, l))
                by (bit_vector);
            assert(field.letters() =~= all_letters()) by {
                assert forall|l: u8| all_letters().contains(l) implies field.letters().contains(
                    l,
                ) by {
                    assert(bit_is_set(0x83FF_FFFFu32, l as u32));
                }
            }
            Self::lemma_all_letters();
        }
        field
    }

    /// The number of letters that are still possible, and `-1` for a blocked
    /// cell.
    pub fn len(&self) -> (r: isize)
        ensures
            r == self.count(),
            self.is_blocked() ==> r == -1,
            self.is_unconstrained() ==> r == 26,
            self.is_open() ==> r == self.letters().len(),
    {
        proof {
            use_type_invariant(self);
            lemma_high_bits(self.data);
            lemma_letters_below(self.data, 26);
            assert(self.letters() =~= letters_below(self.data, 26));
            lemma_ones_bound(self.data, 26);
            Self::lemma_all_letters();
        }
        (self.data.count_ones() as isize) - 1
    }

    /// Adds a letter to the domain. The flag is left as it is.
    pub fn insert(&mut self, character: Character)
        ensures
            final(self).letters() == old(self).letters().insert(character.index()),
            final(self).is_open() == old(self).is_open(),
            final(self).wf(),
    {
        let v = character.value();
        proof {
            use_type_invariant(&*self);
            lemma_or_bit(self.data, v as u32);
        }
        let ghost before = *self;
        self.data = self.data | (1u32 << (v as u32));
        proof {
            assert(self.letters() =~= before.letters().insert(v)) by {
                assert forall|l: u8| self.letters().contains(l) <==> before.letters().insert(
                    v,
                ).contains(l) by {
                    if l < 26 {
                        assert(bit_is_set(self.data, l as u32) <==> (l as u32 == v as u32
                            || bit_is_set(before.data, l as u32)));
                    }
                }
            }
        }
    }

    /// True when the domain holds the letter.
    pub fn contains(&self, character: Character) -> (r: bool)
        ensures
            r == self.letters().contains(character.index()),
    {
        let v = character.value();
        proof {
            lemma_test_bit(self.data, v as u32);
        }
        (self.data & (1u32 << (v as u32))) != 0
    }

    /// Takes a letter out of the domain; nothing changes where the letter is
    /// not present. The flag is left as it is.
    pub fn remove(&mut self, character: Character)
        ensures
            final(self).letters() == old(self).letters().remove(character.index()),
            final(self).is_open() == old(self).is_open(),
            !old(self).letters().contains(character.index()) ==> *final(self) == *old(self),
            final(self).wf(),
    {
        let v = character.value();
        proof {
            use_type_invariant(&*self);
            lemma_clear_bit(self.data, v as u32);
        }
        let ghost before = *self;
        self.data = self.data & !(1u32 << (v as u32));
        proof {
            assert(self.letters() =~= before.letters().remove(v)) by {
                assert forall|l: u8| self.letters().contains(l) <==> before.letters().remove(
                    v,
                ).contains(l) by {
                    if l < 26 {
                        assert(bit_is_set(self.data, l as u32) <==> (l as u32 != v as u32
                            && bit_is_set(before.data, l as u32)));
                    }
                }
            }
            if !before.letters().contains(v) {
                assert(self.letters() =~= before.letters());
                self.lemma_extensional(before);
            }
        }
    }

    /// The bit pattern that stores the domain.
    pub fn bits(&self) -> (r: u32)
        ensures
            r == self.encoding(),
            (r == 0) == self.is_blocked(),
            bit_is_set(r, 31) == self.is_open(),
            forall|l: u8| l < 26 ==> (#[trigger] bit_is_set(r, l as u32) <==> self.letters().contains(l)),
            forall|p: u32| 26 <= p < 31 ==> !#[trigger] bit_is_set(r, p),
    {
        let r = self.data;
        proof {
            use_type_invariant(self);
            lemma_zero_iff_no_bits(r);
            assert(bit_is_set(r, 31) <==> r & 0x8000_0000 != 0) by (bit_vector);
            assert(r & 0x7C00_0000 == 0 ==> forall|p: u32|
                26 <= p < 31 ==> !#[trigger] bit_is_set(r, p)) by (bit_vector);
            if self.is_blocked() {
                assert forall|l: u32| l < 26 implies !#[trigger] bit_is_set(r, l) by {
                    assert(!self.letters().contains(l as u8));
                }
            }
            if r == 0 {
                assert(self.letters() =~= Set::<u8>::empty());
            }
        }
        r
    }
}

proof fn lemma_ones_bound(data: u32, n: nat)
    ensures
        ones_below(data, n) <= n,
    decreases n,
{
    if n > 0 {
        lemma_ones_bound(data, (n - 1) as nat);
    }
}

proof fn lemma_ones_full(data: u32, n: nat)
    requires
        n <= 32,
        forall|l: u32| l < n ==> #[trigger] bit_is_set(data, l),
    ensures
        ones_below(data, n) == n,
    decreases n,
{
    if n > 0 {
        lemma_ones_full(data, (n - 1) as nat);
        assert(bit_is_set(data, (n - 1) as u32));
    }
}

impl Field {
    /// What iterating over the domain hands out: its letters from the
    /// smallest up, as many as `len` counts.
    pub open spec fn listing(self) -> Seq<u8> {
        ascending(
            self.letters(),
            if self.count() > 0 {
                self.count() as nat
            } else {
                0
            },
        )
    }

    /// The text that shows the domain: `#` for a blocked cell, `∅` for an
    /// open cell without letters, the letter of a resolved cell, `_` for an
    /// unconstrained cell, and otherwise the letters between braces.
    pub open spec fn rendering(self) -> Seq<char> {
        let n = self.count();
        if n == -1 {
            seq!['#']
        } else if n == 0 {
            seq!['∅']
        } else if n == 1 {
            seq![capital_at(least(self.letters()))]
        } else if n == 26 {
            seq!['_']
        } else {
            seq!['{'] + joined(self.listing()) + seq!['}']
        }
    }

    /// The smallest letter of the domain.
    pub fn next(&self) -> (character: Character)
        requires
            self.letters().len() > 0,
        ensures
            is_least(self.letters(), character.index()),
            character.index() == least(self.letters()),
            character.is_letter(),
    {
        let zeros = self.data.trailing_zeros();
        proof {
            self.lemma_letters_bounded();
            vstd::std_specs::bits::axiom_u32_trailing_zeros(self.data);
            let witness = self.letters().choose();
            assert(self.letters().contains(witness));
            assert(bit_is_set(self.data, witness as u32));
            if zeros > witness as u32 {
                assert((self.data >> (witness as u32)) & 1u32 == 0u32);
            }
            assert(zeros < 26);
            assert(bit_is_set(self.data, zeros));
            assert(self.letters().contains(zeros as u8));
            assert forall|m: u8| self.letters().contains(m) implies zeros as u8 <= m by {
                if m < zeros as u8 {
                    assert((self.data >> (m as u32)) & 1u32 == 0u32);
                }
            }
            lemma_least_unique(self.letters(), zeros as u8);
        }
        Character::at(zeros as u8)
    }

    /// An iterator over the letters of the domain, smallest first.
    pub fn iter(&self) -> (it: FieldIter)
        ensures
            it.rest() == *self,
    {
        FieldIter { field: *self }
    }

    /// The letters that iterating over the domain hands out, in that order.
    pub fn to_vec(&self) -> (out: Vec<Character>)
        ensures
            out@.len() == self.listing().len(),
            forall|i: int| 0 <= i < out@.len() ==> (#[trigger] out@[i]).index() == self.listing()[i],
    {
        let mut it = self.iter();
        let mut out: Vec<Character> = Vec::new();
        let ghost mut given: Seq<u8> = Seq::empty();
        loop
            invariant
                given + it.rest().listing() == self.listing(),
                given.len() == out@.len(),
                forall|i: int| 0 <= i < out@.len() ==> (#[trigger] out@[i]).index() == given[i],
            ensures
                given == self.listing(),
            decreases it.rest().count() + 2,
        {
            let ghost before = it.rest();
            proof {
                before.lemma_letters_bounded();
            }
            match it.next() {
                None => {
                    proof {
                        assert(before.listing() =~= Seq::<u8>::empty());
                        assert(given + Seq::<u8>::empty() =~= given);
                    }
                    break ;
                },
                Some(c) => {
                    proof {
                        lemma_least_unique(before.letters(), c.index());
                        assert(before.listing() =~= seq![c.index()] + it.rest().listing());
                        assert(given.push(c.index()) + it.rest().listing() =~= given
                            + before.listing());
                        given = given.push(c.index());
                    }
                    out.push(c);
                },
            }
        }
        out
    }

    /// The domain that a symbol of the puzzle text stands for: `_` is an
    /// unconstrained cell, `#` a blocked cell, a letter a cell resolved to
    /// that letter. Small letters count as their capitals. Any other symbol
    /// gives `None`.
    pub fn from_char(c: char) -> (r: Option<Field>)
        ensures
            r is Some <==> is_cell_symbol(c),
            r matches Some(field) ==> stands_for(c, field),
    {
        if c == '_' {
            Some(Field::new_any_character())
        } else if c == '#' {
            Some(Field::new_blocker())
        } else {
            match Character::from_char(capitalize(c)) {
                Some(letter) => {
                    let mut field = Field::new_empty();
                    field.insert(letter);
                    proof {
                        assert(field.letters() =~= set![capital_index(to_capital(c))]);
                    }
                    Some(field)
                },
                None => None,
            }
        }
    }

    /// The text that shows the domain.
    pub fn to_string(&self) -> (text: String)
        ensures
            text@ == self.rendering(),
    {
        let n = self.len();
        let mut text = String::new();
        if n == -1 {
            text.push('#');
        } else if n == 0 {
            text.push('∅');
        } else if n == 1 {
            proof {
                self.lemma_letters_bounded();
            }
            let letter = self.next();
            text.push(letter.to_char());
        } else if n == 26 {
            text.push('_');
        } else {
            let letters = self.to_vec();
            text.push('{');
            let mut i: usize = 0;
            while i < letters.len()
                invariant
                    i <= letters@.len(),
                    letters@.len() == self.listing().len(),
                    forall|k: int|
                        0 <= k < letters@.len() ==> (#[trigger] letters@[k]).index()
                            == self.listing()[k],
                    text@ == seq!['{'] + joined(self.listing().take(i as int)),
                decreases letters@.len() - i,
            {
                if i > 0 {
                    text.push(',');
                    text.push(' ');
                }
                text.push(letters[i].to_char());
                proof {
                    let shown = self.listing().take(i + 1);
                    assert(shown.drop_last() =~= self.listing().take(i as int));
                    assert(shown.last() == self.listing()[i as int]);
                    if i == 0 {
                        assert(joined(self.listing().take(0)) =~= Seq::<char>::empty());
                    }
                    assert(text@ =~= seq!['{'] + joined(shown));
                }
                i = i + 1;
            }
            proof {
                assert(self.listing().take(i as int) =~= self.listing());
            }
            text.push('}');
        }
        assert(text@ =~= self.rendering());
        text
    }
}

/// Putting a letter into an unconstrained domain and taking it out again
/// leaves exactly the other 25 letters.
pub proof fn lemma_insert_then_remove(domain: Field, letter: Character)
    requires
        domain.is_unconstrained(),
        letter.is_letter(),
    ensures
        domain.letters().insert(letter.index()).remove(letter.index()) == all_letters().remove(
            letter.index(),
        ),
        domain.letters().insert(letter.index()).remove(letter.index()).len() == 25,
        forall|l: u8|
            l < 26 && l != letter.index() ==> domain.letters().insert(letter.index()).remove(
                letter.index(),
            ).contains(l),
{
    letter.lemma_index_bound();
    Field::lemma_all_letters();
    let after = domain.letters().insert(letter.index()).remove(letter.index());
    assert(after =~= all_letters().remove(letter.index()));
    assert(all_letters().contains(letter.index()));
}

/// A set of positions that is not empty has a smallest member.
pub proof fn lemma_has_least(s: Set<u8>, member: u8)
    requires
        s.contains(member),
    ensures
        is_least(s, least(s)),
        least(s) <= member,
    decreases member,
{
    if exists|m: u8| s.contains(m) && m < member {
        let m = choose|m: u8| s.contains(m) && m < member;
        lemma_has_least(s, m);
    } else {
        assert(is_least(s, member));
    }
}

/// The `n` smallest members of a finite set are members of it and come in
/// strictly rising order; taken as many as the set has, they are all its
/// members.
pub proof fn lemma_ascending(s: Set<u8>, n: nat)
    requires
        s.finite(),
        n <= s.len(),
    ensures
        ascending(s, n).len() == n,
        forall|i: int| 0 <= i < n ==> s.contains(#[trigger] ascending(s, n)[i]),
        forall|i: int, j: int| 0 <= i < j < n ==> ascending(s, n)[i] < ascending(s, n)[j],
        n == s.len() ==> forall|l: u8| s.contains(l) ==> ascending(s, n).contains(l),
    decreases n,
{
    if n > 0 {
        let witness = s.choose();
        assert(s.contains(witness));
        lemma_has_least(s, witness);
        let l = least(s);
        let rest = s.remove(l);
        lemma_ascending(rest, (n - 1) as nat);
        let tail = ascending(rest, (n - 1) as nat);
        let all = ascending(s, n);
        assert(all =~= seq![l] + tail);
        assert forall|i: int| 0 <= i < n implies s.contains(#[trigger] all[i]) by {
            if i > 0 {
                assert(rest.contains(tail[i - 1]));
            }
        }
        assert forall|i: int, j: int| 0 <= i < j < n implies all[i] < all[j] by {
            assert(rest.contains(tail[j - 1]));
            if i > 0 {
                assert(tail[i - 1] < tail[j - 1]);
            }
        }
        if n == s.len() {
            assert forall|m: u8| s.contains(m) implies all.contains(m) by {
                if m == l {
                    assert(all[0] == m);
                } else {
                    assert(rest.contains(m));
                    let i = choose|i: int| 0 <= i < tail.len() && tail[i] == m;
                    assert(all[i + 1] == m);
                }
            }
        }
    } else if s.len() == 0 {
        assert forall|m: u8| !s.contains(m) by {
            if s.contains(m) {
                assert(s.len() > 0);
            }
        }
    }
}

/// Iterating over an open cell hands out each of its letters, once, from
/// the smallest up.
pub proof fn lemma_listing(field: Field)
    requires
        field.is_open(),
    ensures
        field.listing().len() == field.letters().len(),
        forall|l: u8| field.letters().contains(l) <==> field.listing().contains(l),
        forall|i: int, j: int|
            0 <= i < j < field.listing().len() ==> field.listing()[i] < field.listing()[j],
{
    field.lemma_letters_bounded();
    lemma_ascending(field.letters(), field.letters().len());
    assert forall|l: u8| field.listing().contains(l) implies field.letters().contains(l) by {
        let i = choose|i: int| 0 <= i < field.listing().len() && field.listing()[i] == l;
        assert(field.letters().contains(field.listing()[i]));
    }
}

/// Walks through the letters of a domain, smallest first.
pub struct FieldIter {
    field: Field,
}

impl FieldIter {
    /// The domain that holds the letters not handed out yet.
    pub closed spec fn rest(self) -> Field {
        self.field
    }

    /// Hands out the smallest letter that is left, and `None` once the count
    /// of the rest is no longer positive.
    pub fn next(&mut self) -> (r: Option<Character>)
        ensures
            r is None <==> old(self).rest().count() <= 0,
            r is None ==> final(self).rest() == old(self).rest(),
            r matches Some(c) ==> {
                &&& is_least(old(self).rest().letters(), c.index())
                &&& final(self).rest().letters() == old(self).rest().letters().remove(c.index())
                &&& final(self).rest().is_open() == old(self).rest().is_open()
                &&& final(self).rest().count() == old(self).rest().count() - 1
                &&& c.is_letter()
            },
    {
        proof {
            self.field.lemma_letters_bounded();
        }
        if self.field.len() <= 0 {
            return None;
        }
        let next_value = self.field.next();
        self.field.remove(next_value);
        Some(next_value)
    }
}

/// A set has at most one smallest member.
proof fn lemma_least_unique(s: Set<u8>, l: u8)
    requires
        is_least(s, l),
    ensures
        least(s) == l,
{
    let chosen = least(s);
    assert(is_least(s, chosen));
    assert(chosen <= l && l <= chosen);
}


spec fn letters_below(data: u32, n: nat) -> Set<u8> {
    Set::new(|l: u8| l < n && l < 26 && bit_is_set(data, l as u32))
}

proof fn lemma_letters_below(data: u32, n: nat)
    requires
        n <= 26,
    ensures
        letters_below(data, n).finite(),
        letters_below(data, n).len() == ones_below(data, n),
    decreases n,
{
    if n == 0 {
        assert(letters_below(data, 0) =~= Set::<u8>::empty());
    } else {
        let m = (n - 1) as nat;
        lemma_letters_below(data, m);
        let prev = letters_below(data, m);
        if bit_is_set(data, m as u32) {
            assert(letters_below(data, n) =~= prev.insert(m as u8));
            assert(!prev.contains(m as u8));
        } else {
            assert(letters_below(data, n) =~= prev);
        }
    }
}

proof fn lemma_high_bits(data: u32)
    requires
        data & 0x7C00_0000 == 0,
    ensures
        ones_below(data, 32) == ones_below(data, 26) + if data & 0x8000_0000 != 0 {
            1nat
        } else {
            0nat
        },
{
    assert(data & 0x7C00_0000 == 0 ==> !bit_is_set(data, 26) && !bit_is_set(data, 27)
        && !bit_is_set(data, 28) && !bit_is_set(data, 29) && !bit_is_set(data, 30))
        by (bit_vector);
    assert(bit_is_set(data, 31) <==> data & 0x8000_0000 != 0) by (bit_vector);
    reveal_with_fuel(ones_below, 7);
}

proof fn lemma_or_bit(data: u32, v: u32)
    requires
        v < 26,
    ensures
        forall|l: u32|
            l < 32 ==> (#[trigger] bit_is_set(data | (1u32 << v), l) <==> (l == v || bit_is_set(
                data,
                l,
            ))),
        (data | (1u32 << v)) & 0x7C00_0000 == data & 0x7C00_0000,
        (data | (1u32 << v)) & 0x8000_0000 == data & 0x8000_0000,
{
    assert(forall|l: u32|
        l < 32 ==> (#[trigger] bit_is_set(data | (1u32 << v), l) <==> (l == v || bit_is_set(
            data,
            l,
        )))) by (bit_vector)
        requires
            v < 26,
    ;
    assert((data | (1u32 << v)) & 0x7C00_0000 == data & 0x7C00_0000) by (bit_vector)
        requires
            v < 26,
    ;
    assert((data | (1u32 << v)) & 0x8000_0000 == data & 0x8000_0000) by (bit_vector)
        requires
            v < 26,
    ;
}

proof fn lemma_clear_bit(data: u32, v: u32)
    requires
        v < 26,
    ensures
        forall|l: u32|
            l < 32 ==> (#[trigger] bit_is_set(data & !(1u32 << v), l) <==> (l != v && bit_is_set(
                data,
                l,
            ))),
        (data & !(1u32 << v)) & 0x7C00_0000 == data & 0x7C00_0000,
        (data & !(1u32 << v)) & 0x8000_0000 == data & 0x8000_0000,
{
    assert(forall|l: u32|
        l < 32 ==> (#[trigger] bit_is_set(data & !(1u32 << v), l) <==> (l != v && bit_is_set(
            data,
            l,
        )))) by (bit_vector)
        requires
            v < 26,
    ;
    assert((data & !(1u32 << v)) & 0x7C00_0000 == data & 0x7C00_0000) by (bit_vector)
        requires
            v < 26,
    ;
    assert((data & !(1u32 << v)) & 0x8000_0000 == data & 0x8000_0000) by (bit_vector)
        requires
            v < 26,
    ;
}

proof fn lemma_test_bit(data: u32, v: u32)
    requires
        v < 26,
    ensures
        (data & (1u32 << v)) != 0 <==> bit_is_set(data, v),
{
    assert((data & (1u32 << v)) != 0 <==> bit_is_set(data, v)) by (bit_vector)
        requires
            v < 26,
    ;
}

proof fn lemma_zero_iff_no_bits(data: u32)
    requires
        data & 0x7C00_0000 == 0,
    ensures
        data == 0 <==> (data & 0x8000_0000 == 0 && forall|l: u32|
            l < 26 ==> !#[trigger] bit_is_set(data, l)),
{
    assert(data == 0 ==> data & 0x8000_0000 == 0 && forall|l: u32|
        l < 26 ==> !#[trigger] bit_is_set(data, l)) by (bit_vector);
    if data & 0x8000_0000 == 0 && forall|l: u32| l < 26 ==> !#[trigger] bit_is_set(data, l) {
        assert(forall|l: u32| l < 32 ==> !#[trigger] bit_is_set(0u32, l)) by (bit_vector);
        assert(data & 0x7C00_0000 == 0 && data & 0x8000_0000 == 0 ==> forall|l: u32|
            26 <= l < 32 ==> !#[trigger] bit_is_set(data, l)) by (bit_vector);
        lemma_all_bits(data, 0);
    }
}

/// A pattern whose 32 bits are all zero is zero; `other` may be any pattern
/// that agrees with `data` on every bit.
proof fn lemma_all_bits(data: u32, other: u32)
    requires
        forall|l: u32| l < 32 ==> (#[trigger] bit_is_set(data, l) <==> bit_is_set(other, l)),
    ensures
        data == other,
{
    assert(bit_is_set(data, 0) <==> bit_is_set(other, 0));
    assert(bit_is_set(data, 1) <==> bit_is_set(other, 1));
    assert(bit_is_set(data, 2) <==> bit_is_set(other, 2));
    assert(bit_is_set(data, 3) <==> bit_is_set(other, 3));
    assert(bit_is_set(data, 4) <==> bit_is_set(other, 4));
    assert(bit_is_set(data, 5) <==> bit_is_set(other, 5));
    assert(bit_is_set(data, 6) <==> bit_is_set(other, 6));
    assert(bit_is_set(data, 7) <==> bit_is_set(other, 7));
    assert(bit_is_set(data, 8) <==> bit_is_set(other, 8));
    assert(bit_is_set(data, 9) <==> bit_is_set(other, 9));
    assert(bit_is_set(data, 10) <==> bit_is_set(other, 10));
    assert(bit_is_set(data, 11) <==> bit_is_set(other, 11));
    assert(bit_is_set(data, 12) <==> bit_is_set(other, 12));
    assert(bit_is_set(data, 13) <==> bit_is_set(other, 13));
    assert(bit_is_set(data, 14) <==> bit_is_set(other, 14));
    assert(bit_is_set(data, 15) <==> bit_is_set(other, 15));
    assert(bit_is_set(data, 16) <==> bit_is_set(other, 16));
    assert(bit_is_set(data, 17) <==> bit_is_set(other, 17));
    assert(bit_is_set(data, 18) <==> bit_is_set(other, 18));
    assert(bit_is_set(data, 19) <==> bit_is_set(other, 19));
    assert(bit_is_set(data, 20) <==> bit_is_set(other, 20));
    assert(bit_is_set(data, 21) <==> bit_is_set(other, 21));
    assert(bit_is_set(data, 22) <==> bit_is_set(other, 22));
    assert(bit_is_set(data, 23) <==> bit_is_set(other, 23));
    assert(bit_is_set(data, 24) <==> bit_is_set(other, 24));
    assert(bit_is_set(data, 25) <==> bit_is_set(other, 25));
    assert(bit_is_set(data, 26) <==> bit_is_set(other, 26));
    assert(bit_is_set(data, 27) <==> bit_is_set(other, 27));
    assert(bit_is_set(data, 28) <==> bit_is_set(other, 28));
    assert(bit_is_set(data, 29) <==> bit_is_set(other, 29));
    assert(bit_is_set(data, 30) <==> bit_is_set(other, 30));
    assert(bit_is_set(data, 31) <==> bit_is_set(other, 31));
    assert(((bit_is_set(data, 0) <==> bit_is_set(other, 0)) && (bit_is_set(data, 1)
        <==> bit_is_set(other, 1)) && (bit_is_set(data, 2) <==> bit_is_set(other, 2)) && (
    bit_is_set(data, 3) <==> bit_is_set(other, 3)) && (bit_is_set(data, 4) <==> bit_is_set(
        other,
        4,
    )) && (bit_is_set(data, 5) <==> bit_is_set(other, 5)) && (bit_is_set(data, 6) <==> bit_is_set(
        other,
        6,
    )) && (bit_is_set(data, 7) <==> bit_is_set(other, 7)) && (bit_is_set(data, 8) <==> bit_is_set(
        other,
        8,
    )) && (bit_is_set(data, 9) <==> bit_is_set(other, 9)) && (bit_is_set(data, 10)
        <==> bit_is_set(other, 10)) && (bit_is_set(data, 11) <==> bit_is_set(other, 11)) && (
    bit_is_set(data, 12) <==> bit_is_set(other, 12)) && (bit_is_set(data, 13) <==> bit_is_set(
        other,
        13,
    )) && (bit_is_set(data, 14) <==> bit_is_set(other, 14)) && (bit_is_set(data, 15)
        <==> bit_is_set(other, 15)) && (bit_is_set(data, 16) <==> bit_is_set(other, 16)) && (
    bit_is_set(data, 17) <==> bit_is_set(other, 17)) && (bit_is_set(data, 18) <==> bit_is_set(
        other,
        18,
    )) && (bit_is_set(data, 19) <==> bit_is_set(other, 19)) && (bit_is_set(data, 20)
        <==> bit_is_set(other, 20)) && (bit_is_set(data, 21) <==> bit_is_set(other, 21)) && (
    bit_is_set(data, 22) <==> bit_is_set(other, 22)) && (bit_is_set(data, 23) <==> bit_is_set(
        other,
        23,
    )) && (bit_is_set(data, 24) <==> bit_is_set(other, 24)) && (bit_is_set(data, 25)
        <==> bit_is_set(other, 25)) && (bit_is_set(data, 26) <==> bit_is_set(other, 26)) && (
    bit_is_set(data, 27) <==> bit_is_set(other, 27)) && (bit_is_set(data, 28) <==> bit_is_set(
        other,
        28,
    )) && (bit_is_set(data, 29) <==> bit_is_set(other, 29)) && (bit_is_set(data, 30)
        <==> bit_is_set(other, 30)) && (bit_is_set(data, 31) <==> bit_is_set(other, 31)))
        ==> data == other) by (bit_vector);
}

} // verus!
