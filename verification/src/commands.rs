//! The deferred changes that systems queue for the world (spawning and
//! despawning entities, adding and removing components, rearranging the
//! parent and child links between entities), and what a despawn decides.
use crate::hierarchy::{kept, Children};
use crate::world::component::Component;
use crate::world::entity::Entity;
use crate::world::event::{entity_key, entity_key_of, Event};
use std::collections::HashMap;
use std::marker::PhantomData;
use vstd::prelude::*;

verus! {

broadcast use vstd::std_specs::hash::group_hash_axioms;

/// Commands queued for the world, kept in the order they were added; they
/// are handed out in that order when the queue is run.
pub struct CommandBuffer<C> {
    commands: Vec<C>,
}

impl<C> CommandBuffer<C> {
    /// The commands queued, the first added first.
    pub closed spec fn queued(&self) -> Seq<C> {
        self.commands@
    }

    pub fn new() -> (r: Self)
        ensures
            r.queued() == Seq::<C>::empty(),
    {
        CommandBuffer { commands: Vec::new() }
    }

    /// Queues `command` after the ones already queued.
    pub fn add(&mut self, command: C)
        ensures
            final(self).queued() == old(self).queued().push(command),
    {
        self.commands.push(command);
    }

    /// Queues the commands of `commands`, in their order, after the ones
    /// already queued.
    pub fn extend(&mut self, commands: CommandBuffer<C>)
        ensures
            final(self).queued() == old(self).queued() + commands.queued(),
    {
        let mut more = commands.commands;
        self.commands.append(&mut more);
    }

    /// Hands out every queued command, the first added first, and leaves
    /// the queue empty: the order in which running the queue applies them.
    pub fn drain(&mut self) -> (r: Vec<C>)
        ensures
            r@ == old(self).queued(),
            final(self).queued() == Seq::<C>::empty(),
    {
        let mut taken: Vec<C> = Vec::new();
        std::mem::swap(&mut taken, &mut self.commands);
        taken
    }

    /// The number of commands queued.
    pub fn len(&self) -> (r: usize)
        ensures
            r == self.queued().len(),
    {
        self.commands.len()
    }

    pub fn is_empty(&self) -> (r: bool)
        ensures
            r == (self.queued().len() == 0),
    {
        self.commands.len() == 0
    }
}

/// Asks for an empty entity to be spawned.
#[derive(Debug, Clone, Copy, PartialEq, Eq, Structural)]
pub struct Spawn;

/// Sent for each entity that a despawn took away.
pub struct Despawned(pub Entity);

impl Event for Despawned {

}

/// Asks for an entity to be despawned together with all of its
/// descendants, and taken off its parent's children.
#[derive(Debug, Clone, Copy, PartialEq, Eq)]
pub struct Despawn(pub Entity);

/// The entities that a despawn takes away, in order, when `live` maps each
/// live entity's key to its children and `stack` holds the entities still
/// to visit, the last one first: a live entity is taken, and its children
/// are put on the stack; an entity that is no longer live is passed over.
pub open spec fn despawn_run(live: Map<u64, Seq<Entity>>, stack: Seq<Entity>) -> Seq<Entity>
    decreases live.dom().len(), stack.len(),
    when live.dom().finite()
{
    if stack.len() == 0 {
        Seq::empty()
    } else {
        let e = stack.last();
        let key = entity_key(e);
        if live.contains_key(key) {
            seq![e] + despawn_run(live.remove(key), stack.drop_last() + live[key])
        } else {
            despawn_run(live, stack.drop_last())
        }
    }
}

impl Despawn {
    /// The entities to despawn, in the order they go, given the live
    /// entities of the world (by `entity_key_of`) with their children: the
    /// entity itself first, then, depth first, its descendants, each taken
    /// once.
    pub fn plan(&self, live: &HashMap<u64, Vec<Entity>>) -> (r: Vec<Entity>)
        ensures
            r@ == despawn_run(live@.map_values(|v: Vec<Entity>| v@), seq![self.0]),
    {
        let mut remaining = live.clone();
        let mut stack: Vec<Entity> = Vec::new();
        stack.push(self.0);
        let mut out: Vec<Entity> = Vec::new();
        let ghost start = live@.map_values(|v: Vec<Entity>| v@);
        proof {
            assert(remaining@.map_values(|v: Vec<Entity>| v@) == start);
            assert(remaining@.map_values(|v: Vec<Entity>| v@).dom() =~= remaining@.dom());
            assert(out@ + despawn_run(start, stack@) =~= despawn_run(start, stack@));
        }
        while stack.len() > 0
            invariant
                start.dom().finite(),
                remaining@.dom().finite(),
                remaining@.map_values(|v: Vec<Entity>| v@).dom() == remaining@.dom(),
                despawn_run(start, seq![self.0]) == out@ + despawn_run(
                    remaining@.map_values(|v: Vec<Entity>| v@),
                    stack@,
                ),
            decreases remaining@.dom().len(), stack@.len(),
        {
            let ghost before = remaining@.map_values(|v: Vec<Entity>| v@);
            let ghost before_stack = stack@;
            let ghost before_out = out@;
            let e = stack.pop().unwrap();
            let key = entity_key_of(e);
            proof {
                assert(before_stack.last() == e);
                assert(before_stack.drop_last() == stack@);
            }
            match remaining.remove(&key) {
                Some(children) => {
                    let ghost kids = children@;
                    out.push(e);
                    let mut children = children;
                    stack.append(&mut children);
                    proof {
                        assert(before.contains_key(key));
                        assert(before[key] == kids);
                        assert(remaining@.map_values(|v: Vec<Entity>| v@) =~= before.remove(key));
                        assert(remaining@.map_values(|v: Vec<Entity>| v@).dom() =~= remaining@.dom());
                        assert(despawn_run(before, before_stack) == seq![e] + despawn_run(
                            before.remove(key),
                            before_stack.drop_last() + kids,
                        ));
                        assert(stack@ =~= before_stack.drop_last() + kids);
                        assert(out@ =~= before_out + seq![e]);
                        assert(before_out + (seq![e] + despawn_run(before.remove(key), stack@)) =~= out@
                            + despawn_run(before.remove(key), stack@));
                    }
                },
                None => {
                    proof {
                        assert(!before.contains_key(key));
                        assert(remaining@.map_values(|v: Vec<Entity>| v@) =~= before);
                        assert(remaining@.map_values(|v: Vec<Entity>| v@).dom() =~= remaining@.dom());
                        assert(despawn_run(before, before_stack) == despawn_run(before, stack@));
                    }
                },
            }
        }
        proof {
            assert(despawn_run(remaining@.map_values(|v: Vec<Entity>| v@), stack@) == Seq::<Entity>::empty());
            assert(out@ + Seq::<Entity>::empty() =~= out@);
        }
        out
    }

    /// Takes the despawned entity off a list of children: keeps every other
    /// child, in order.
    pub fn detach(&self, siblings: &mut Children)
        ensures
            final(siblings).entities() == old(siblings).entities().filter(other_than(self.0)),
    {
        let root = self.0;
        let other = |c: &Entity| -> (keep: bool)
            ensures
                keep == (*c != root),
            { *c != root };
        siblings.retain(other);
        proof {
            let s = old(siblings).entities();
            let keep = choose|keep: Seq<bool>|
                #[trigger] kept(s, keep) == siblings.entities() && keep.len() == s.len() && forall|i: int|
                    0 <= i < keep.len() ==> call_ensures(other, (&s[i],), #[trigger] keep[i]);
            assert forall|i: int| 0 <= i < keep.len() implies #[trigger] keep[i] == (s[i] != root) by {
                assert(call_ensures(other, (&s[i],), keep[i]));
            }
            lemma_kept_filter(s, keep, root);
        }
    }
}

/// Whether an entity is not `root`.
pub open spec fn other_than(root: Entity) -> spec_fn(Entity) -> bool {
    |c: Entity| c != root
}

/// Keeping the entries flagged as differing from `root` is filtering
/// `root` out.
proof fn lemma_kept_filter(s: Seq<Entity>, keep: Seq<bool>, root: Entity)
    requires
        keep.len() == s.len(),
        forall|i: int| 0 <= i < keep.len() ==> #[trigger] keep[i] == (s[i] != root),
    ensures
        kept(s, keep) == s.filter(other_than(root)),
    decreases s.len(),
{
    reveal(Seq::filter);
    if s.len() == 0 {
        assert(s.filter(other_than(root)) =~= Seq::<Entity>::empty());
    } else {
        let k2 = keep.drop_last();
        assert forall|i: int| 0 <= i < k2.len() implies #[trigger] k2[i] == (s.drop_last()[i] != root) by {
            assert(k2[i] == keep[i]);
        }
        lemma_kept_filter(s.drop_last(), k2, root);
        assert(keep.last() == keep[keep.len() - 1]);
        assert(keep[keep.len() - 1] == (s[s.len() - 1] != root));
        assert(other_than(root)(s.last()) == (s.last() != root));
        let sub = s.drop_last().filter(other_than(root));
        assert(s.filter(other_than(root)) == (if other_than(root)(s.last()) {
            sub.push(s.last())
        } else {
            sub
        }));
        assert(kept(s, keep) == (if keep.last() {
            kept(s.drop_last(), k2).push(s.last())
        } else {
            kept(s.drop_last(), k2)
        }));
    }
}

/// Asks for `component` to be added to `entity`, replacing one of the
/// same type.
pub struct AddComponent<C: Component> {
    pub entity: Entity,
    pub component: C,
}

impl<C: Component> AddComponent<C> {
    pub fn new(entity: Entity, component: C) -> (r: Self)
        ensures
            r.entity == entity,
            r.component == component,
    {
        AddComponent { entity, component }
    }
}

/// Asks for the component of type `C` to be removed from an entity.
pub struct RemoveComponent<C: Component>(pub Entity, PhantomData<C>);

impl<C: Component> RemoveComponent<C> {
    /// The entity the component is taken from.
    pub closed spec fn target(&self) -> Entity {
        self.0
    }

    pub fn new(entity: Entity) -> (r: Self)
        ensures
            r.target() == entity,
    {
        RemoveComponent(entity, PhantomData)
    }

    /// The entity the component is taken from.
    pub fn entity(&self) -> (r: Entity)
        ensures
            r == self.target(),
    {
        self.0
    }
}

/// Asks for `child` to become a child of `parent`, leaving its former
/// parent.
pub struct AddChild {
    pub parent: Entity,
    pub child: Entity,
}

impl AddChild {
    pub fn new(parent: Entity, child: Entity) -> (r: Self)
        ensures
            r.parent == parent,
            r.child == child,
    {
        AddChild { parent, child }
    }
}

/// Asks for `children` to be put in front of the children of `parent`.
pub struct AddChildren {
    pub parent: Entity,
    pub children: Vec<Entity>,
}

impl AddChildren {
    pub fn new(parent: Entity, children: Vec<Entity>) -> (r: Self)
        ensures
            r.parent == parent,
            r.children@ == children@,
    {
        AddChildren { parent, children }
    }
}

/// Asks for `children` to be put among the children of `parent`, from
/// position `index` on.
pub struct InsertChildren {
    pub parent: Entity,
    pub children: Vec<Entity>,
    pub index: usize,
}

impl InsertChildren {
    pub fn new(parent: Entity, children: Vec<Entity>, index: usize) -> (r: Self)
        ensures
            r.parent == parent,
            r.children@ == children@,
            r.index == index,
    {
        InsertChildren { parent, children, index }
    }
}

/// Asks for `child` to be taken off the children of `parent`.
pub struct RemoveChild {
    pub parent: Entity,
    pub child: Entity,
}

impl RemoveChild {
    pub fn new(parent: Entity, child: Entity) -> (r: Self)
        ensures
            r.parent == parent,
            r.child == child,
    {
        RemoveChild { parent, child }
    }
}

/// Asks for each of `children` to be taken off the children of `parent`.
pub struct RemoveChildren {
    pub parent: Entity,
    pub children: Vec<Entity>,
}

impl RemoveChildren {
    pub fn new(parent: Entity, children: Vec<Entity>) -> (r: Self)
        ensures
            r.parent == parent,
            r.children@ == children@,
    {
        RemoveChildren { parent, children }
    }
}

/// Asks for every child to be taken off an entity.
#[derive(Clone, Copy, PartialEq, Eq)]
pub struct RemoveAllChildren(pub Entity);

/// Asks for `entity` to become a child of `parent`.
pub struct SetParent {
    pub parent: Entity,
    pub entity: Entity,
}

/// Asks for an entity to be taken off its parent's children.
pub struct RemoveParent(pub Entity);

} // verus!
