use super::entity::Entity;
use super::resource::Resource;
use std::collections::HashMap;
use vstd::prelude::*;

verus! {

broadcast use vstd::std_specs::hash::group_hash_axioms;

/// A type that can be sent as an event.
pub trait Event: Send + Sync + Sized + 'static {

}

/// The key under which the events of an entity are listed.
pub open spec fn entity_key(e: Entity) -> u64 {
    (e.spec_generation() * 0x1_0000_0000 + e.spec_id()) as u64
}

pub fn entity_key_of(e: Entity) -> (r: u64)
    ensures
        r == entity_key(e),
{
    (e.generation() as u64) * 0x1_0000_0000 + (e.id() as u64)
}

/// No two entities share a key.
pub proof fn lemma_entity_key_injective(a: Entity, b: Entity)
    ensures
        entity_key(a) == entity_key(b) ==> a.spec_id() == b.spec_id() && a.spec_generation()
            == b.spec_generation(),
{
}

/// Events in the order they were sent, and for each entity the positions of
/// the events triggered on it.
pub struct EventStorage<E: Event> {
    pub(crate) events: Vec<E>,
    pub(crate) entities: HashMap<u64, Vec<usize>>,
}

impl<E: Event> EventStorage<E> {
    /// Every position listed under an entity names an event that was sent.
    #[verifier::type_invariant]
    spec fn positions_in_range(&self) -> bool {
        forall|k: u64, i: int|
            #![trigger self.entities@[k]@[i]]
            self.entities@.contains_key(k) && 0 <= i < self.entities@[k]@.len() ==> self.entities@[k]@[i]
                < self.events@.len()
    }

    /// The events, in the order they were sent.
    pub closed spec fn event_seq(&self) -> Seq<E> {
        self.events@
    }

    /// For each entity key, the positions of the events triggered on it.
    pub closed spec fn positions(&self) -> Map<u64, Seq<usize>> {
        self.entities@.map_values(|v: Vec<usize>| v@)
    }
}

impl<E: Event> Default for EventStorage<E> {
    fn default() -> (r: Self)
        ensures
            r.event_seq() == Seq::<E>::empty(),
            r.positions() == Map::<u64, Seq<usize>>::empty(),
    {
        let r = EventStorage { events: Vec::new(), entities: HashMap::new() };
        assert(r.positions() =~= Map::<u64, Seq<usize>>::empty());
        r
    }
}

/// The events sent this frame, and those sent the frame before, which are
/// the ones read.
pub struct Events<E: Event> {
    pub(crate) write: EventStorage<E>,
    pub(crate) read: EventStorage<E>,
}

impl<E: Event> Events<E> {
    /// The events being written.
    pub closed spec fn written(&self) -> EventStorage<E> {
        self.write
    }

    /// The events being read.
    pub closed spec fn readable(&self) -> EventStorage<E> {
        self.read
    }

    pub fn new() -> (r: Self)
        ensures
            r.written().event_seq() == Seq::<E>::empty(),
            r.written().positions() == Map::<u64, Seq<usize>>::empty(),
            r.readable().event_seq() == Seq::<E>::empty(),
            r.readable().positions() == Map::<u64, Seq<usize>>::empty(),
    {
        Events { write: EventStorage::default(), read: EventStorage::default() }
    }

    /// The written events become the ones read, and writing starts over.
    pub fn update(&mut self)
        ensures
            final(self).readable() == old(self).written(),
            final(self).written().event_seq() == Seq::<E>::empty(),
            final(self).written().positions() == Map::<u64, Seq<usize>>::empty(),
    {
        let mut fresh = EventStorage::default();
        std::mem::swap(&mut fresh, &mut self.write);
        self.read = fresh;
    }

    /// The positions, among the events read, of those triggered on
    /// `entity`.
    pub fn entity(&self, entity: Entity) -> (r: &[usize])
        ensures
            r@ == (if self.readable().positions().contains_key(entity_key(entity)) {
                self.readable().positions()[entity_key(entity)]
            } else {
                Seq::<usize>::empty()
            }),
            forall|i: int| 0 <= i < r@.len() ==> #[trigger] r@[i] < self.readable().event_seq().len(),
    {
        proof {
            use_type_invariant(&self.read);
        }
        match self.read.entities.get(&entity_key_of(entity)) {
            Some(events) => events.as_slice(),
            None => &[],
        }
    }

    /// Goes through the events read, in the order they were sent.
    pub fn reader(&self) -> (r: EventReader<'_, E>)
        ensures
            r.source() == self.readable().event_seq(),
            r.position() == 0,
    {
        EventReader::new(self)
    }

    /// A writer of events for this frame.
    pub fn writer(&mut self) -> (r: EventWriter<'_, E>)
        ensures
            r.storage() == old(self).written(),
    {
        EventWriter::new(&mut self.write)
    }
}

impl<E: Event> Resource for Events<E> {

}

/// Goes through the events read, in order.
pub struct EventReader<'state, E: Event> {
    events: &'state Events<E>,
    index: usize,
}

impl<'state, E: Event> EventReader<'state, E> {
    /// The events gone through.
    pub closed spec fn source(&self) -> Seq<E> {
        self.events.read.events@
    }

    /// How many events were handed out so far.
    pub closed spec fn position(&self) -> usize {
        self.index
    }

    pub(crate) fn new(events: &'state Events<E>) -> (r: Self)
        ensures
            r.source() == events.readable().event_seq(),
            r.position() == 0,
    {
        EventReader { events, index: 0 }
    }

    /// The next event read, if any is left.
    pub fn next(&mut self) -> (r: Option<&'state E>)
        ensures
            final(self).source() == old(self).source(),
            old(self).position() < old(self).source().len() ==> {
                &&& r is Some
                &&& *r.unwrap() == old(self).source()[old(self).position() as int]
                &&& final(self).position() == old(self).position() + 1
            },
            old(self).position() >= old(self).source().len() ==> r is None && final(self).position()
                == old(self).position(),
    {
        if self.index < self.events.read.events.len() {
            let event = &self.events.read.events[self.index];
            self.index += 1;
            Some(event)
        } else {
            None
        }
    }
}

/// Goes through the events read at given positions, in order.
pub struct EntityEvents<'state, E: Event> {
    events: &'state Events<E>,
    indicies: &'state [usize],
    at: usize,
}

impl<'state, E: Event> EntityEvents<'state, E> {
    /// Every position to go through names an event read.
    #[verifier::type_invariant]
    spec fn positions_in_range(&self) -> bool {
        forall|i: int| 0 <= i < self.indicies@.len() ==> #[trigger] self.indicies@[i] < self.events.read.events@.len()
    }

    /// The events read.
    pub closed spec fn source(&self) -> Seq<E> {
        self.events.read.events@
    }

    /// The positions still to go through.
    pub closed spec fn remaining(&self) -> Seq<usize> {
        if self.at <= self.indicies@.len() {
            self.indicies@.skip(self.at as int)
        } else {
            Seq::<usize>::empty()
        }
    }

    /// Goes through the events read at `indicies`, each of which must name
    /// one of them (reading an event that is not there panics).
    pub fn new(events: &'state Events<E>, indicies: &'state [usize]) -> (r: Self)
        requires
            forall|i: int| 0 <= i < indicies@.len() ==> #[trigger] indicies@[i] < events.readable().event_seq().len(),
        ensures
            r.source() == events.readable().event_seq(),
            r.remaining() == indicies@,
    {
        let r = EntityEvents { events, indicies, at: 0 };
        assert(r.remaining() =~= indicies@);
        r
    }

    /// The event at the next position, if any is left.
    pub fn next(&mut self) -> (r: Option<&'state E>)
        ensures
            final(self).source() == old(self).source(),
            old(self).remaining().len() == 0 ==> r is None && final(self).remaining() == old(self).remaining(),
            old(self).remaining().len() > 0 ==> {
                &&& r is Some
                &&& *r.unwrap() == old(self).source()[old(self).remaining()[0] as int]
                &&& final(self).remaining() == old(self).remaining().drop_first()
            },
    {
        proof {
            use_type_invariant(&*self);
        }
        if self.at < self.indicies.len() {
            let index = self.indicies[self.at];
            self.at += 1;
            proof {
                assert(old(self).remaining()[0] == index);
                assert(self.indicies@.skip(self.at as int) =~= old(self).remaining().drop_first());
            }
            Some(&self.events.read.events[index])
        } else {
            None
        }
    }
}

/// Sends events into a storage.
pub struct EventWriter<'state, E: Event> {
    storage: &'state mut EventStorage<E>,
}

impl<'state, E: Event> EventWriter<'state, E> {
    /// The storage written to, as it stands.
    pub closed spec fn storage(&self) -> EventStorage<E> {
        *self.storage
    }

    pub fn new(storage: &'state mut EventStorage<E>) -> (r: Self)
        ensures
            r.storage() == *old(storage),
    {
        EventWriter { storage }
    }

    /// Takes the storage out, leaving an empty one in its place.
    fn take_storage(&mut self) -> (r: (Vec<E>, HashMap<u64, Vec<usize>>))
        ensures
            r.0@ == old(self).storage().event_seq(),
            r.1@.map_values(|v: Vec<usize>| v@) == old(self).storage().positions(),
            forall|k: u64, i: int|
                #![trigger r.1@[k]@[i]]
                r.1@.contains_key(k) && 0 <= i < r.1@[k]@.len() ==> r.1@[k]@[i] < r.0@.len(),
    {
        let mut storage = EventStorage::default();
        std::mem::swap(&mut storage, self.storage);
        proof {
            use_type_invariant(&storage);
        }
        let EventStorage { events, entities } = storage;
        (events, entities)
    }

    pub fn send(&mut self, event: E)
        ensures
            final(self).storage().event_seq() == old(self).storage().event_seq().push(event),
            final(self).storage().positions() == old(self).storage().positions(),
    {
        let (mut events, entities) = self.take_storage();
        events.push(event);
        *self.storage = EventStorage { events, entities };
    }

    /// Sends `event`, listing it under `entity` as well.
    pub fn trigger(&mut self, entity: Entity, event: E)
        ensures
            final(self).storage().event_seq() == old(self).storage().event_seq().push(event),
            final(self).storage().positions() == old(self).storage().positions().insert(
                entity_key(entity),
                (if old(self).storage().positions().contains_key(entity_key(entity)) {
                    old(self).storage().positions()[entity_key(entity)]
                } else {
                    Seq::<usize>::empty()
                }).push(old(self).storage().event_seq().len() as usize),
            ),
    {
        let (mut events, mut entities) = self.take_storage();
        let ghost old_entities = entities@;
        let index = events.len();
        events.push(event);
        let key = entity_key_of(entity);
        let mut list = match entities.remove(&key) {
            Some(list) => list,
            None => Vec::new(),
        };
        list.push(index);
        entities.insert(key, list);
        proof {
            assert(entities@.map_values(|v: Vec<usize>| v@) =~= old(self).storage().positions().insert(
                entity_key(entity),
                (if old(self).storage().positions().contains_key(entity_key(entity)) {
                    old(self).storage().positions()[entity_key(entity)]
                } else {
                    Seq::<usize>::empty()
                }).push(index),
            ));
            assert forall|k: u64, i: int|
                #![trigger entities@[k]@[i]]
                entities@.contains_key(k) && 0 <= i < entities@[k]@.len() implies entities@[k]@[i]
                    < events@.len() by {
                if k != key {
                    assert(old_entities.contains_key(k));
                    assert(entities@[k] == old_entities[k]);
                    assert(old_entities[k]@[i] < events@.len() - 1);
                } else if i < entities@[k]@.len() - 1 {
                    assert(old_entities.contains_key(k));
                    assert(entities@[k]@[i] == old_entities[k]@[i]);
                    assert(old_entities[k]@[i] < events@.len() - 1);
                }
            }
        }
        *self.storage = EventStorage { events, entities };
    }

    /// Sends each of `events`, in order.
    pub fn send_batch(&mut self, events: Vec<E>)
        ensures
            final(self).storage().event_seq() == old(self).storage().event_seq() + events@,
            final(self).storage().positions() == old(self).storage().positions(),
    {
        let mut batch = events;
        let (mut stored, entities) = self.take_storage();
        stored.append(&mut batch);
        *self.storage = EventStorage { events: stored, entities };
    }
}

} // verus!
