//! Persistent ordered maps, shared cheaply between world snapshots.
use vstd::prelude::*;
use archery::ArcK;
use rpds::RedBlackTreeMap;
use crate::world::Entity;
use crate::tile_map::Chunk;

verus! {

/// The keys of `dom` in ascending order, those below `n`.
pub open spec fn keys_below(dom: Set<u64>, n: nat) -> Seq<u64>
    decreases n,
{
    if n == 0 {
        Seq::empty()
    } else {
        let rest = keys_below(dom, (n - 1) as nat);
        if dom.contains((n - 1) as u64) {
            rest.push((n - 1) as u64)
        } else {
            rest
        }
    }
}

/// All keys of `dom`, in ascending order.
pub open spec fn sorted_keys(dom: Set<u64>) -> Seq<u64> {
    keys_below(dom, 0x1_0000_0000_0000_0000)
}

/// The entities of a world, keyed by entity number.
#[verifier::external_body]
pub struct EntityMap {
    inner: RedBlackTreeMap<u64, Entity, ArcK>,
}

/// What an entity map holds.
pub uninterp spec fn entity_map_contents(m: EntityMap) -> Map<u64, Entity>;

impl EntityMap {
    pub open spec fn contents(self) -> Map<u64, Entity> {
        entity_map_contents(self)
    }

    /// Relies on `RedBlackTreeMap::new_with_ptr_kind`: a fresh map is empty.
    #[verifier::external_body]
    pub(crate) fn empty() -> (r: EntityMap)
        ensures
            entity_map_contents(r) =~= Map::empty(),
    {
        EntityMap { inner: RedBlackTreeMap::new_with_ptr_kind() }
    }

    /// Relies on `RedBlackTreeMap::clone`: the copy shares the same entries.
    #[verifier::external_body]
    pub(crate) fn share(&self) -> (r: EntityMap)
        ensures
            entity_map_contents(r) == entity_map_contents(*self),
    {
        EntityMap { inner: self.inner.clone() }
    }

    /// Relies on `RedBlackTreeMap::get`: the value under `k`, if any.
    #[verifier::external_body]
    pub(crate) fn get(&self, k: u64) -> (r: Option<&Entity>)
        ensures
            entity_map_contents(*self).contains_key(k) ==> r == Some(&entity_map_contents(*self)[k]),
            !entity_map_contents(*self).contains_key(k) ==> r.is_none(),
    {
        self.inner.get(&k)
    }

    /// Relies on `RedBlackTreeMap::insert_mut`: `k` maps to `v` afterwards,
    /// replacing what it mapped to.
    #[verifier::external_body]
    pub(crate) fn insert(&mut self, k: u64, v: Entity)
        ensures
            entity_map_contents(*final(self)) == entity_map_contents(*old(self)).insert(k, v),
    {
        self.inner.insert_mut(k, v)
    }

    /// Relies on `RedBlackTreeMap::remove_mut`: `k` is absent afterwards.
    #[verifier::external_body]
    pub(crate) fn remove(&mut self, k: u64)
        ensures
            entity_map_contents(*final(self)) == entity_map_contents(*old(self)).remove(k),
    {
        self.inner.remove_mut(&k);
    }

    /// Relies on `RedBlackTreeMap::keys`, which walks the tree in key order.
    #[verifier::external_body]
    pub(crate) fn keys(&self) -> (r: Vec<u64>)
        ensures
            r@ == sorted_keys(entity_map_contents(*self).dom()),
    {
        self.inner.keys().copied().collect()
    }
}

/// The chunks of a tile map, keyed by chunk coordinates.
#[verifier::external_body]
pub struct ChunkMap {
    inner: RedBlackTreeMap<(i32, i32), Chunk, ArcK>,
}

/// What a chunk map holds.
pub uninterp spec fn chunk_map_contents(m: ChunkMap) -> Map<(i32, i32), Chunk>;

impl ChunkMap {
    pub open spec fn contents(self) -> Map<(i32, i32), Chunk> {
        chunk_map_contents(self)
    }

    /// Relies on `RedBlackTreeMap::new_with_ptr_kind`: a fresh map is empty.
    #[verifier::external_body]
    pub(crate) fn empty() -> (r: ChunkMap)
        ensures
            chunk_map_contents(r) =~= Map::empty(),
    {
        ChunkMap { inner: RedBlackTreeMap::new_with_ptr_kind() }
    }

    /// Relies on `RedBlackTreeMap::clone`: the copy shares the same entries.
    #[verifier::external_body]
    pub(crate) fn share(&self) -> (r: ChunkMap)
        ensures
            chunk_map_contents(r) == chunk_map_contents(*self),
    {
        ChunkMap { inner: self.inner.clone() }
    }

    /// Relies on `RedBlackTreeMap::get`: the value under `k`, if any.
    #[verifier::external_body]
    pub(crate) fn get(&self, k: (i32, i32)) -> (r: Option<&Chunk>)
        ensures
            chunk_map_contents(*self).contains_key(k) ==> r == Some(&chunk_map_contents(*self)[k]),
            !chunk_map_contents(*self).contains_key(k) ==> r.is_none(),
    {
        self.inner.get(&k)
    }

    /// Relies on `RedBlackTreeMap::insert_mut`: `k` maps to `v` afterwards,
    /// replacing what it mapped to.
    #[verifier::external_body]
    pub(crate) fn insert(&mut self, k: (i32, i32), v: Chunk)
        ensures
            chunk_map_contents(*final(self)) == chunk_map_contents(*old(self)).insert(k, v),
    {
        self.inner.insert_mut(k, v)
    }

    /// Relies on `RedBlackTreeMap::keys`, which walks the tree in key order
    /// and so yields each key once.
    #[verifier::external_body]
    pub(crate) fn keys(&self) -> (r: Vec<(i32, i32)>)
        ensures
            r@.no_duplicates(),
            r@.to_set() == chunk_map_contents(*self).dom(),
    {
        self.inner.keys().copied().collect()
    }
}

} // verus!
