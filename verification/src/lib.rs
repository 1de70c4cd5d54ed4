//! A solver for crossword puzzles: letter domains per cell, slots of open
//! cells, a word inventory by length, constraint propagation and search.

pub mod board;
pub mod character;
pub mod crossword;
pub mod dense_map;
pub mod field;
pub mod field_character;
pub mod metrics;
pub mod propagation;
pub mod search;
pub mod slots;
pub mod text;
pub mod word;
pub mod words;
