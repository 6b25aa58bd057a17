use std::collections::HashMap;
use vstd::prelude::*;
use vstd::std_specs::cmp::PartialOrdSpecImpl;

verus! {

broadcast use vstd::std_specs::hash::group_hash_axioms;

/// A handle to an entity: an id, and the generation of that id, which
/// changes each time the id is handed out again.
///
/// Handles compare by generation first, then by id.
#[derive(Debug, Clone, Copy, PartialEq, Eq, Structural, Hash)]
pub struct Entity {
    id: u32,
    generation: u32,
}

impl Entity {
    pub closed spec fn spec_id(self) -> u32 {
        self.id
    }

    pub closed spec fn spec_generation(self) -> u32 {
        self.generation
    }

    pub fn new(id: u32, generation: u32) -> (r: Entity)
        ensures
            r.spec_id() == id,
            r.spec_generation() == generation,
    {
        Entity { id, generation }
    }

    pub fn root(id: u32) -> (r: Entity)
        ensures
            r.spec_id() == id,
            r.spec_generation() == 0,
    {
        Entity { id, generation: 0 }
    }

    pub fn id(&self) -> (r: u32)
        ensures
            r == self.spec_id(),
    {
        self.id
    }

    pub fn generation(&self) -> (r: u32)
        ensures
            r == self.spec_generation(),
    {
        self.generation
    }
}

/// Whether `a` orders before `b`: by generation, then by id.
pub open spec fn entity_lt(a: Entity, b: Entity) -> bool {
    a.spec_generation() < b.spec_generation() || (a.spec_generation() == b.spec_generation()
        && a.spec_id() < b.spec_id())
}

/// How `a` orders against `b`: by generation, then by id.
pub open spec fn entity_order(a: Entity, b: Entity) -> core::cmp::Ordering {
    if a.spec_generation() < b.spec_generation() {
        core::cmp::Ordering::Less
    } else if a.spec_generation() > b.spec_generation() {
        core::cmp::Ordering::Greater
    } else if a.spec_id() < b.spec_id() {
        core::cmp::Ordering::Less
    } else if a.spec_id() > b.spec_id() {
        core::cmp::Ordering::Greater
    } else {
        core::cmp::Ordering::Equal
    }
}

impl PartialOrd for Entity {
    fn partial_cmp(&self, other: &Self) -> (r: Option<core::cmp::Ordering>) {
        if self.generation < other.generation {
            Some(core::cmp::Ordering::Less)
        } else if self.generation > other.generation {
            Some(core::cmp::Ordering::Greater)
        } else if self.id < other.id {
            Some(core::cmp::Ordering::Less)
        } else if self.id > other.id {
            Some(core::cmp::Ordering::Greater)
        } else {
            Some(core::cmp::Ordering::Equal)
        }
    }
}

impl PartialOrdSpecImpl for Entity {
    open spec fn obeys_partial_cmp_spec() -> bool {
        true
    }

    open spec fn partial_cmp_spec(&self, other: &Self) -> Option<core::cmp::Ordering> {
        Some(entity_order(*self, *other))
    }
}

/// The generation recorded for `id`, zero when none is.
pub open spec fn generation_of(generations: Map<u32, u32>, id: u32) -> u32 {
    if generations.contains_key(id) {
        generations[id]
    } else {
        0
    }
}

/// Hands out entity handles, reusing released ids with a new generation.
pub struct Entities {
    current: u32,
    free: Vec<u32>,
    generations: HashMap<u32, u32>,
}

impl Entities {
    /// The next id never handed out.
    pub closed spec fn next_id(&self) -> u32 {
        self.current
    }

    /// The released ids, the last released first to be reused.
    pub closed spec fn free_ids(&self) -> Seq<u32> {
        self.free@
    }

    /// The latest generation handed out for each id.
    pub closed spec fn generation_map(&self) -> Map<u32, u32> {
        self.generations@
    }

    /// Whether `e` is a handle that was handed out: its generation is one of
    /// those given to its id so far.
    pub open spec fn issued(&self, e: Entity) -> bool {
        &&& self.generation_map().contains_key(e.spec_id())
        &&& 1 <= e.spec_generation() <= self.generation_map()[e.spec_id()]
    }

    /// Every id that was handed out or released lies below the next new id.
    pub open spec fn sound(&self) -> bool {
        &&& forall|id: u32| #[trigger] self.generation_map().contains_key(id) ==> id < self.next_id()
        &&& forall|i: int| 0 <= i < self.free_ids().len() ==> #[trigger] self.free_ids()[i] < self.next_id()
    }

    pub fn new() -> (r: Entities)
        ensures
            r.next_id() == 0,
            r.free_ids() == Seq::<u32>::empty(),
            r.generation_map() == Map::<u32, u32>::empty(),
            r.sound(),
    {
        Entities { current: 0, free: Vec::new(), generations: HashMap::new() }
    }

    /// Hands out a handle: the last released id with its next generation,
    /// or else a new id with generation one.
    pub fn spawn(&mut self) -> (r: Entity)
        requires
            old(self).free_ids().len() > 0 ==> generation_of(
                old(self).generation_map(),
                old(self).free_ids().last(),
            ) < u32::MAX,
            old(self).free_ids().len() == 0 ==> old(self).next_id() < u32::MAX,
        ensures
            old(self).free_ids().len() > 0 ==> {
                let id = old(self).free_ids().last();
                let generation = (generation_of(old(self).generation_map(), id) + 1) as u32;
                &&& r.spec_id() == id && r.spec_generation() == generation
                &&& final(self).free_ids() == old(self).free_ids().drop_last()
                &&& final(self).generation_map() == old(self).generation_map().insert(id, generation)
                &&& final(self).next_id() == old(self).next_id()
            },
            old(self).free_ids().len() == 0 ==> {
                &&& r.spec_id() == old(self).next_id() && r.spec_generation() == 1
                &&& final(self).free_ids() == old(self).free_ids()
                &&& final(self).generation_map() == old(self).generation_map().insert(
                    old(self).next_id(),
                    1,
                )
                &&& final(self).next_id() == old(self).next_id() + 1
            },
            final(self).issued(r),
            old(self).sound() ==> {
                &&& final(self).sound()
                &&& !old(self).issued(r)
                &&& forall|e: Entity| old(self).issued(e) ==> #[trigger] final(self).issued(e)
            },
    {
        if let Some(id) = self.free.pop() {
            let generation: u32 = match self.generations.get(&id) {
                Some(generation) => *generation,
                None => 0,
            };
            let generation: u32 = generation + 1;
            self.generations.insert(id, generation);

            Entity::new(id, generation)
        } else {
            let id: u32 = self.current;
            let generation: u32 = 1;
            self.generations.insert(id, generation);
            self.current += 1;

            Entity::new(id, generation)
        }
    }

    /// Releases the id of `entity` for reuse.
    pub fn despawn(&mut self, entity: Entity)
        ensures
            final(self).free_ids() == old(self).free_ids().push(entity.spec_id()),
            final(self).generation_map() == old(self).generation_map(),
            final(self).next_id() == old(self).next_id(),
            old(self).sound() && entity.spec_id() < old(self).next_id() ==> final(self).sound(),
    {
        self.free.push(entity.id);
    }

    pub fn clear(&mut self)
        ensures
            final(self).next_id() == 0,
            final(self).free_ids() == Seq::<u32>::empty(),
            final(self).generation_map() == Map::<u32, u32>::empty(),
            final(self).sound(),
    {
        self.current = 0;
        self.free.clear();
        self.generations.clear();
    }
}

} // verus!
