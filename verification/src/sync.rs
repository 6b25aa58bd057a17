//! Keeping a sub world's entities in step with those of the main world.
use crate::world::entity::Entity;
use crate::world::event::{entity_key, entity_key_of};
use crate::world::resource::Resource;
use std::collections::HashMap;
use vstd::prelude::*;

verus! {

broadcast use vstd::std_specs::hash::group_hash_axioms;

/// For each entity of the main world that has a counterpart in the sub
/// world, that counterpart; keyed by the main entity's key.
pub struct EntityWorldMap(HashMap<u64, Entity>);

/// What is left of `map`, and the counterparts taken out of it, once the
/// entities of `despawned` are dropped from it one after the other; an
/// entity without a counterpart, or one already dropped, takes nothing.
pub open spec fn drop_despawned(map: Map<u64, Entity>, despawned: Seq<Entity>) -> (Map<u64, Entity>, Seq<Entity>)
    decreases despawned.len(),
{
    if despawned.len() == 0 {
        (map, Seq::empty())
    } else {
        let (before, taken) = drop_despawned(map, despawned.drop_last());
        let key = entity_key(despawned.last());
        if before.contains_key(key) {
            (before.remove(key), taken.push(before[key]))
        } else {
            (before, taken)
        }
    }
}

impl EntityWorldMap {
    /// The counterparts, keyed by the main entity's key.
    pub closed spec fn mapping(&self) -> Map<u64, Entity> {
        self.0@
    }

    /// The counterpart of `main`, if it has one.
    pub fn get(&self, main: Entity) -> (r: Option<Entity>)
        ensures
            r == self.mapping().get(entity_key(main)),
    {
        match self.0.get(&entity_key_of(main)) {
            Some(sub) => Some(*sub),
            None => None,
        }
    }

    /// Records `sub` as the counterpart of `main`.
    pub fn insert(&mut self, main: Entity, sub: Entity)
        ensures
            final(self).mapping() == old(self).mapping().insert(entity_key(main), sub),
    {
        self.0.insert(entity_key_of(main), sub);
    }

    /// Drops the despawned main entities from the map, and gives back, in
    /// order, the counterparts that are to be despawned with them.
    pub fn take_despawned(&mut self, despawned: &[Entity]) -> (r: Vec<Entity>)
        ensures
            final(self).mapping() == drop_despawned(old(self).mapping(), despawned@).0,
            r@ == drop_despawned(old(self).mapping(), despawned@).1,
    {
        let ghost start = self.0@;
        let mut taken: Vec<Entity> = Vec::new();
        let mut i: usize = 0;
        while i < despawned.len()
            invariant
                i <= despawned@.len(),
                self.0@ == drop_despawned(start, despawned@.take(i as int)).0,
                taken@ == drop_despawned(start, despawned@.take(i as int)).1,
            decreases despawned@.len() - i,
        {
            let entity = despawned[i];
            proof {
                assert(despawned@.take(i + 1).drop_last() =~= despawned@.take(i as int));
                assert(despawned@.take(i + 1).last() == entity);
            }
            if let Some(sub) = self.0.remove(&entity_key_of(entity)) {
                taken.push(sub);
            }
            i = i + 1;
        }
        proof {
            assert(despawned@.take(i as int) =~= despawned@);
        }
        taken
    }
}

impl Default for EntityWorldMap {
    fn default() -> (r: EntityWorldMap)
        ensures
            r.mapping() == Map::<u64, Entity>::empty(),
    {
        EntityWorldMap(HashMap::new())
    }
}

impl Resource for EntityWorldMap {

}

/// Marks an entity of a sub world with the main world entity it stands for.
#[derive(Clone, Copy, PartialEq, Eq, Hash)]
pub struct MainEntity(pub Entity);

impl core::ops::Deref for MainEntity {
    type Target = Entity;

    fn deref(&self) -> (r: &Entity)
        ensures
            *r == self.0,
    {
        &self.0
    }
}

impl crate::world::component::Component for MainEntity {

}

} // verus!
