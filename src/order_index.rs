use vstd::prelude::*;

verus! {

/// A map from a marker's value to its position, kept in bevy's `HashMap`.
#[verifier::external_body]
pub struct OrderIndex {
    map: bevy::utils::HashMap<u64, usize>,
}

/// The entries that an `OrderIndex` holds.
pub uninterp spec fn index_entries(m: OrderIndex) -> Map<u64, usize>;

impl OrderIndex {
    /// Relies on bevy's `HashMap::default` (hashbrown): a new map holds no entry.
    #[verifier::external_body]
    pub fn new() -> (r: OrderIndex)
        ensures
            index_entries(r) =~= Map::empty(),
    {
        OrderIndex { map: bevy::utils::HashMap::default() }
    }

    /// Relies on bevy's `HashMap::insert` (hashbrown): the key maps to the value
    /// afterwards and every other entry stays.
    #[verifier::external_body]
    pub fn insert(&mut self, key: u64, value: usize)
        ensures
            index_entries(*final(self)) == index_entries(*old(self)).insert(key, value),
    {
        self.map.insert(key, value);
    }

    /// Relies on bevy's `HashMap::get` (hashbrown): the value stored under the key,
    /// if there is one.
    #[verifier::external_body]
    pub fn get(&self, key: u64) -> (r: Option<usize>)
        ensures
            r == (if index_entries(*self).contains_key(key) {
                Some(index_entries(*self)[key])
            } else {
                None::<usize>
            }),
    {
        self.map.get(&key).copied()
    }
}

} // verus!
