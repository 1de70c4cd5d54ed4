//! Counters of what a search did.

use vstd::prelude::*;
use crate::dense_map::DenseMap;

verus! {

/// The count of a counter that has counted nothing.
fn nothing_counted() -> (count: u32)
    ensures
        count == 0,
{
    0
}

/// Counters of what a search did: its steps, the slots it passed over, the
/// words it chose, and, for each length, the words that it tried in vain.
#[derive(Clone, Debug)]
pub struct Metrics {
    pub iterations: u32,
    pub fields_skipped: u32,
    pub words_selected: u32,
    pub words_skipped: DenseMap<u32>,
}

impl Metrics {
    /// Counters that are all zero, with one counter of words tried in vain
    /// for each length from zero to `max_word_length`.
    pub fn new(max_word_length: usize) -> (metrics: Metrics)
        requires
            max_word_length < usize::MAX,
        ensures
            metrics.iterations == 0,
            metrics.fields_skipped == 0,
            metrics.words_selected == 0,
            metrics.words_skipped@ == Seq::new((max_word_length + 1) as nat, |k: int| 0u32),
    {
        let metrics = Metrics {
            iterations: 0,
            fields_skipped: 0,
            words_selected: 0,
            words_skipped: DenseMap::new_with_max_key(max_word_length, nothing_counted),
        };
        proof {
            assert(metrics.words_skipped@ =~= Seq::new(
                (max_word_length + 1) as nat,
                |k: int| 0u32,
            ));
        }
        metrics
    }
}

} // verus!
