//! Letters of the crossword alphabet.

use vstd::prelude::*;

verus! {

/// Number of letters in the alphabet.
pub const ALPHABET_SIZE: u8 = 26;

/// True when `c` is one of the capital letters `A` to `Z`.
pub open spec fn is_capital(c: char) -> bool {
    'A' <= c && c <= 'Z'
}

/// Position in the alphabet of the capital letter `c`, counted from zero.
pub open spec fn capital_index(c: char) -> u8 {
    (c as u32 - 'A' as u32) as u8
}

/// The capital letter at position `index` of the alphabet.
pub open spec fn capital_at(index: u8) -> char {
    (index + 'A' as u8) as char
}

/// `c` with the small letters `a` to `z` turned into capitals; any other
/// character is left as it is.
pub open spec fn to_capital(c: char) -> char {
    if 'a' <= c && c <= 'z' {
        (c as u32 - 32) as char
    } else {
        c
    }
}

/// Folds a small ASCII letter to its capital.
pub fn capitalize(c: char) -> (r: char)
    ensures
        r == to_capital(c),
{
    if 'a' <= c && c <= 'z' {
        let code: u8 = c as u8;
        (code - 32) as char
    } else {
        c
    }
}

/// One of the 26 letters, held as its position in the alphabet.
///
/// Every value of this type is a letter: the position is always below 26.
/// The order of the values is the order of the alphabet.
#[derive(Copy, Clone, Debug, PartialEq, Eq, PartialOrd, Ord, Hash, Structural)]
pub struct Character {
    value: u8,
}

impl Character {
    /// The position is inside the alphabet.
    #[verifier::type_invariant]
    pub closed spec fn is_letter(self) -> bool {
        self.value < ALPHABET_SIZE
    }

    /// Position of the letter in the alphabet, `0` for `A` up to `25` for `Z`.
    pub closed spec fn index(self) -> u8 {
        self.value
    }

    /// The letter at position `value`, or `None` when `value` is not below 26.
    pub fn from_index(value: u8) -> (r: Option<Character>)
        ensures
            r is Some <==> value < ALPHABET_SIZE,
            r matches Some(c) ==> c.index() == value && c.is_letter(),
    {
        if value < ALPHABET_SIZE {
            Some(Character { value })
        } else {
            None
        }
    }

    /// The letter at position `value`, which is below 26.
    pub fn at(value: u8) -> (c: Character)
        requires
            value < ALPHABET_SIZE,
        ensures
            c.index() == value,
            c.is_letter(),
    {
        Character { value }
    }

    /// The letter written as the capital `c`, or `None` when `c` is not one
    /// of `A` to `Z`.
    pub fn from_char(c: char) -> (r: Option<Character>)
        ensures
            r is Some <==> is_capital(c),
            r matches Some(l) ==> l.index() == capital_index(c) && l.is_letter(),
    {
        if 'A' <= c && c <= 'Z' {
            let code: u32 = c as u32;
            let value: u8 = (code - 65) as u8;
            Some(Character { value })
        } else {
            None
        }
    }

    /// Position of the letter in the alphabet.
    pub fn value(self) -> (v: u8)
        ensures
            v == self.index(),
            v < ALPHABET_SIZE,
    {
        proof {
            use_type_invariant(self);
        }
        self.value
    }

    /// The capital that writes this letter.
    pub fn to_char(self) -> (c: char)
        ensures
            c == capital_at(self.index()),
            is_capital(c),
            capital_index(c) == self.index(),
    {
        proof {
            use_type_invariant(self);
        }
        (self.value + 65) as char
    }

    /// Two letters at the same position are the same letter.
    pub proof fn lemma_index_injective(self, other: Character)
        requires
            self.index() == other.index(),
        ensures
            self == other,
    {
    }

    /// A letter's position is below 26.
    pub proof fn lemma_index_bound(self)
        requires
            self.is_letter(),
        ensures
            self.index() < ALPHABET_SIZE,
    {
    }
}

/// Reading a capital and writing it back gives the same capital, and the
/// other way round for positions.
pub proof fn lemma_capital_round_trip(c: char, index: u8)
    ensures
        is_capital(c) ==> capital_at(capital_index(c)) == c && capital_index(c) < ALPHABET_SIZE,
        index < ALPHABET_SIZE ==> is_capital(capital_at(index)) && capital_index(capital_at(index))
            == index,
{
}

} // verus!
