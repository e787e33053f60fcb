use vstd::prelude::*;

verus! {

/// Location of an entity: the bits of its shard's key and its position in the shard.
pub type EntityCoords = (u64, usize);

/// Map from entity ids to their locations, kept in a `hashbrown` hash map.
#[verifier::external_body]
pub struct EntityIndex {
    map: hashbrown::HashMap<u32, EntityCoords>,
}

/// The entries of an entity index.
pub uninterp spec fn entity_index_contents(index: EntityIndex) -> Map<u32, EntityCoords>;

impl EntityIndex {
    /// The entries of the index.
    pub open spec fn contents(&self) -> Map<u32, EntityCoords> {
        entity_index_contents(*self)
    }

    /// `hashbrown::HashMap::new`: an empty map.
    #[verifier::external_body]
    pub(crate) fn new() -> (fresh: EntityIndex)
        ensures
            entity_index_contents(fresh).dom() == Set::<u32>::empty(),
    {
        EntityIndex { map: hashbrown::HashMap::new() }
    }

    /// `hashbrown::HashMap::get`: the value stored under `key`, if any.
    #[verifier::external_body]
    pub(crate) fn get(&self, key: u32) -> (value: Option<EntityCoords>)
        ensures
            value == (if entity_index_contents(*self).contains_key(key) {
                Some(entity_index_contents(*self)[key])
            } else {
                None
            }),
    {
        self.map.get(&key).copied()
    }

    /// `hashbrown::HashMap::insert`: stores `value` under `key`, returning the value it replaced.
    #[verifier::external_body]
    pub(crate) fn insert(&mut self, key: u32, value: EntityCoords) -> (previous: Option<EntityCoords>)
        ensures
            entity_index_contents(*final(self)) == entity_index_contents(*old(self)).insert(key, value),
            previous == (if entity_index_contents(*old(self)).contains_key(key) {
                Some(entity_index_contents(*old(self))[key])
            } else {
                None
            }),
    {
        self.map.insert(key, value)
    }

    /// `hashbrown::HashMap::remove`: removes the entry of `key`, returning its value.
    #[verifier::external_body]
    pub(crate) fn remove(&mut self, key: u32) -> (removed: Option<EntityCoords>)
        ensures
            entity_index_contents(*final(self)) == entity_index_contents(*old(self)).remove(key),
            removed == (if entity_index_contents(*old(self)).contains_key(key) {
                Some(entity_index_contents(*old(self))[key])
            } else {
                None
            }),
    {
        self.map.remove(&key)
    }

    /// `hashbrown::HashMap::len`: the number of entries.
    #[verifier::external_body]
    pub(crate) fn len(&self) -> (count: usize)
        ensures
            count == entity_index_contents(*self).dom().len(),
    {
        self.map.len()
    }
}

/// Map from shard keys to positions in a list, kept in a `hashbrown` hash map.
#[verifier::external_body]
pub struct ShardIndex {
    map: hashbrown::HashMap<u64, usize>,
}

/// The entries of a shard index.
pub uninterp spec fn shard_index_contents(index: ShardIndex) -> Map<u64, usize>;

impl ShardIndex {
    /// The entries of the index.
    pub open spec fn contents(&self) -> Map<u64, usize> {
        shard_index_contents(*self)
    }

    /// `hashbrown::HashMap::new`: an empty map.
    #[verifier::external_body]
    pub(crate) fn new() -> (fresh: ShardIndex)
        ensures
            shard_index_contents(fresh).dom() == Set::<u64>::empty(),
    {
        ShardIndex { map: hashbrown::HashMap::new() }
    }

    /// `hashbrown::HashMap::get`: the value stored under `key`, if any.
    #[verifier::external_body]
    pub(crate) fn get(&self, key: u64) -> (value: Option<usize>)
        ensures
            value == (if shard_index_contents(*self).contains_key(key) {
                Some(shard_index_contents(*self)[key])
            } else {
                None
            }),
    {
        self.map.get(&key).copied()
    }

    /// `hashbrown::HashMap::insert`: stores `value` under `key`, returning the value it replaced.
    #[verifier::external_body]
    pub(crate) fn insert(&mut self, key: u64, value: usize) -> (previous: Option<usize>)
        ensures
            shard_index_contents(*final(self)) == shard_index_contents(*old(self)).insert(key, value),
            previous == (if shard_index_contents(*old(self)).contains_key(key) {
                Some(shard_index_contents(*old(self))[key])
            } else {
                None
            }),
    {
        self.map.insert(key, value)
    }
}

} // verus!
