use vstd::prelude::*;

verus! {

/// A hash table from a 64-bit key to a group offset, backed by hashbrown.
#[verifier::external_body]
pub struct KeyTable {
    map: hashbrown::HashMap<u64, u32>,
}

/// The contents of a `KeyTable`.
pub uninterp spec fn key_table_map(t: KeyTable) -> Map<u64, u32>;

impl KeyTable {
    /// Relies on hashbrown::HashMap::with_capacity: a new map is empty.
    #[verifier::external_body]
    pub fn with_capacity(capacity: usize) -> (r: KeyTable)
        ensures
            key_table_map(r).dom() == Set::<u64>::empty(),
    {
        KeyTable { map: hashbrown::HashMap::with_capacity(capacity) }
    }

    /// Relies on hashbrown::HashMap::get: the value stored under `k`, if any.
    #[verifier::external_body]
    pub fn get(&self, k: u64) -> (r: Option<u32>)
        ensures
            key_table_map(*self).contains_key(k) <==> r.is_some(),
            r.is_some() ==> r.unwrap() == key_table_map(*self)[k],
    {
        self.map.get(&k).copied()
    }

    /// Relies on hashbrown::HashMap::insert: `k` maps to `v` afterwards, other keys are kept.
    #[verifier::external_body]
    pub fn insert(&mut self, k: u64, v: u32)
        ensures
            key_table_map(*final(self)) == key_table_map(*old(self)).insert(k, v),
    {
        self.map.insert(k, v);
    }
}

/// A hash table from a row hash to the (representative row, group offset)
/// pairs of the groups whose rows have that hash, backed by hashbrown.
#[verifier::external_body]
pub struct IdxHashTable {
    map: hashbrown::HashMap<u64, Vec<(u32, u32)>>,
}

/// The contents of an `IdxHashTable`.
pub uninterp spec fn idx_hash_table_map(t: IdxHashTable) -> Map<u64, Seq<(u32, u32)>>;

impl IdxHashTable {
    /// Relies on hashbrown::HashMap::with_capacity: a new map is empty.
    #[verifier::external_body]
    pub fn with_capacity(capacity: usize) -> (r: IdxHashTable)
        ensures
            idx_hash_table_map(r).dom() == Set::<u64>::empty(),
    {
        IdxHashTable { map: hashbrown::HashMap::with_capacity(capacity) }
    }

    /// Relies on hashbrown::HashMap::get: a copy of the list stored under `h`, if any.
    #[verifier::external_body]
    pub fn get(&self, h: u64) -> (r: Option<Vec<(u32, u32)>>)
        ensures
            idx_hash_table_map(*self).contains_key(h) <==> r.is_some(),
            r.is_some() ==> r.unwrap()@ == idx_hash_table_map(*self)[h],
    {
        self.map.get(&h).cloned()
    }

    /// Relies on hashbrown::HashMap::insert: `h` maps to `v` afterwards, other hashes are kept.
    #[verifier::external_body]
    pub fn insert(&mut self, h: u64, v: Vec<(u32, u32)>)
        ensures
            idx_hash_table_map(*final(self)) == idx_hash_table_map(*old(self)).insert(h, v@),
    {
        self.map.insert(h, v);
    }
}

} // verus!
