//! A map from small integers to values, stored as one value per key.

use vstd::prelude::*;

verus! {

/// A map whose keys are `0`, `1`, and so on up to a largest key, with one
/// value for each of them. Its view is the sequence of its values, the
/// value of key `k` at position `k`.
#[derive(Clone, Debug)]
pub struct DenseMap<T> {
    data: Vec<T>,
}

impl<T> View for DenseMap<T> {
    type V = Seq<T>;

    closed spec fn view(&self) -> Seq<T> {
        self.data@
    }
}

impl<T> DenseMap<T> {
    /// A map without keys.
    pub fn new() -> (map: DenseMap<T>)
        ensures
            map@ == Seq::<T>::empty(),
    {
        DenseMap { data: Vec::new() }
    }

    /// A map with the keys `0` to `max_key`, each value made by `default`.
    pub fn new_with_max_key<F>(max_key: usize, default: F) -> (map: DenseMap<T>) where
        F: FnMut() -> T,

        requires
            max_key < usize::MAX,
            default.requires(()),
        ensures
            map@.len() == max_key + 1,
            forall|k: int| 0 <= k <= max_key ==> default.ensures((), #[trigger] map@[k]),
    {
        let mut map = DenseMap { data: Vec::with_capacity(max_key + 1) };
        map.set_max_key(max_key, default);
        proof {
            assert(map@.take(0) =~= Seq::<T>::empty());
        }
        map
    }

    /// Makes `max_key` a key of the map: where it is none yet, the keys up
    /// to `max_key` are added, each with a value made by `default`. The keys
    /// that the map has keep their values, and no key is taken away.
    pub fn set_max_key<F>(&mut self, max_key: usize, default: F) where F: FnMut() -> T
        requires
            default.requires(()),
        ensures
            final(self)@.len() == if max_key + 1 >= old(self)@.len() {
                max_key + 1
            } else {
                old(self)@.len() as int
            },
            final(self)@.take(old(self)@.len() as int) == old(self)@,
            forall|k: int|
                old(self)@.len() <= k < final(self)@.len() ==> default.ensures(
                    (),
                    #[trigger] final(self)@[k],
                ),
    {
        let ghost make = default;
        let mut default = default;
        while self.data.len() <= max_key
            invariant
                default == make,
                default.requires(()),
                old(self)@.len() <= self.data@.len(),
                self.data@.len() <= max_key + 1 || self.data@.len() == old(self)@.len(),
                self.data@.take(old(self)@.len() as int) == old(self)@,
                forall|k: int|
                    old(self)@.len() <= k < self.data@.len() ==> default.ensures(
                        (),
                        #[trigger] self.data@[k],
                    ),
            decreases max_key + 1 - self.data@.len(),
        {
            let ghost before = self.data@;
            let value = default();
            self.data.push(value);
            proof {
                assert(self.data@.take(old(self)@.len() as int) =~= before.take(
                    old(self)@.len() as int,
                ));
            }
        }
    }

    /// The number of keys.
    pub fn len(&self) -> (n: usize)
        ensures
            n == self@.len(),
    {
        self.data.len()
    }

    /// An iterator over the values, in the order of their keys.
    pub fn iter(&self) -> (it: std::slice::Iter<'_, T>)
        ensures
            vstd::std_specs::slice::into_iter_elts(it) == self@,
    {
        self.data.as_slice().iter()
    }

    /// The largest key of a map that has keys.
    pub fn max_key(&self) -> (key: usize)
        requires
            self@.len() > 0,
        ensures
            key == self@.len() - 1,
    {
        self.data.len() - 1
    }

    /// The value of key `idx`.
    pub fn get(&self, idx: usize) -> (value: &T)
        requires
            idx < self@.len(),
        ensures
            *value == self@[idx as int],
    {
        &self.data[idx]
    }

    /// The value of key `idx`, to be changed in place.
    pub fn get_mut(&mut self, idx: usize) -> (value: &mut T)
        requires
            idx < old(self)@.len(),
        ensures
            *value == old(self)@[idx as int],
            final(self)@ == old(self)@.update(idx as int, *final(value)),
    {
        &mut self.data[idx]
    }

    /// Gives key `idx` the value `value`.
    pub fn set(&mut self, idx: usize, value: T)
        requires
            idx < old(self)@.len(),
        ensures
            final(self)@ == old(self)@.update(idx as int, value),
    {
        self.data[idx] = value;
    }
}

} // verus!
