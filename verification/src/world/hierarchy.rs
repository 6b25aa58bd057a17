use super::component::Component;
use super::entity::Entity;
use vstd::prelude::*;

verus! {

/// The parent of an entity.
#[derive(Debug, Clone, Copy, PartialEq, Eq, Structural)]
pub struct Parent(Entity);

impl Parent {
    pub closed spec fn entity(self) -> Entity {
        self.0
    }

    pub fn new(entity: Entity) -> (r: Parent)
        ensures
            r.entity() == entity,
    {
        Parent(entity)
    }

    pub fn get(&self) -> (r: Entity)
        ensures
            r == self.entity(),
    {
        self.0
    }
}

impl core::ops::Deref for Parent {
    type Target = Entity;

    fn deref(&self) -> (r: &Entity)
        ensures
            *r == self.entity(),
    {
        &self.0
    }
}

impl Component for Parent {

}

/// The children of an entity, in order.
pub struct Children<Q = (), F = ()>(Vec<Entity>, core::marker::PhantomData<(Q, F)>);

impl<Q, F> Children<Q, F> {
    pub closed spec fn entities(&self) -> Seq<Entity> {
        self.0@
    }
}

impl Children {
    pub fn new() -> (r: Children)
        ensures
            r.entities() == Seq::<Entity>::empty(),
    {
        Children(Vec::new(), core::marker::PhantomData)
    }

    pub fn with_child(child: Entity) -> (r: Children)
        ensures
            r.entities() == seq![child],
    {
        Children(vec![child], core::marker::PhantomData)
    }

    pub fn get(&self) -> (r: &[Entity])
        ensures
            r@ == self.entities(),
    {
        self.0.as_slice()
    }

    /// The children, in order.
    pub fn iter(&self) -> (r: Vec<&Entity>)
        ensures
            r@.len() == self.entities().len(),
            forall|i: int| 0 <= i < r@.len() ==> *(#[trigger] r@[i]) == self.entities()[i],
    {
        let mut r: Vec<&Entity> = Vec::new();
        let mut i: usize = 0;
        while i < self.0.len()
            invariant
                i <= self.0@.len(),
                r@.len() == i,
                forall|k: int| 0 <= k < i ==> *(#[trigger] r@[k]) == self.0@[k],
            decreases self.0@.len() - i,
        {
            r.push(&self.0[i]);
            i = i + 1;
        }
        r
    }
}

impl core::ops::Deref for Children {
    type Target = [Entity];

    fn deref(&self) -> (r: &[Entity])
        ensures
            r@ == self.entities(),
    {
        self.0.as_slice()
    }
}

impl Component for Children {

}

/// A request to make `child` a child of `parent`.
pub struct AddChild {
    pub parent: Entity,
    pub child: Entity,
}

/// A request to make each of `children` a child of `parent`.
pub struct AddChildren {
    pub parent: Entity,
    pub children: Vec<Entity>,
}

} // verus!
