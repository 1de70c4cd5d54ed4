//! The letter as a domain stores it.

use vstd::prelude::*;
use crate::character::Character;

verus! {

/// The letter that a domain holds: the same letter, at the same position in
/// the alphabet, as a letter of a word.
pub type FieldCharacter = Character;

} // verus!
