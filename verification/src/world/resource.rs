use crate::sparse::SparseIndex;
use vstd::prelude::*;

verus! {

/// A type that can be stored as a resource of a world.
pub trait Resource: Sized + 'static {

}

/// The index of a registered resource type.
#[derive(Debug, Clone, Copy, PartialEq, Eq, Structural, PartialOrd, Ord, Hash)]
pub struct ResourceId(pub u32);

impl SparseIndex for ResourceId {
    open spec fn key(self) -> usize {
        self.0 as usize
    }

    open spec fn max_key() -> nat {
        if usize::MAX < u32::MAX {
            usize::MAX as nat
        } else {
            u32::MAX as nat
        }
    }

    fn to_usize(self) -> (r: usize) {
        self.0 as usize
    }

    fn from_usize(index: usize) -> (r: ResourceId)
        ensures
            r.0 == index as u32,
    {
        ResourceId(index as u32)
    }
}

/// Where a resource of type `R` is stored.
pub struct ResourceIndex<R: Resource>(usize, core::marker::PhantomData<R>);

impl<R: Resource> ResourceIndex<R> {
    pub closed spec fn index(&self) -> usize {
        self.0
    }

    pub fn get(&self) -> (r: usize)
        ensures
            r == self.index(),
    {
        self.0
    }
}

impl<R: Resource> Clone for ResourceIndex<R> {
    fn clone(&self) -> (r: Self)
        ensures
            r.index() == self.index(),
    {
        ResourceIndex(self.0, core::marker::PhantomData)
    }
}

impl<R: Resource> Copy for ResourceIndex<R> {

}

/// Shared access to a resource that stays on its thread.
pub struct NonSend<'a, R: Resource>(&'a R);

impl<'a, R: Resource> NonSend<'a, R> {
    pub closed spec fn resource(&self) -> R {
        *self.0
    }

    pub fn new(resource: &'a R) -> (r: Self)
        ensures
            r.resource() == *resource,
    {
        NonSend(resource)
    }
}

impl<'a, R: Resource> core::ops::Deref for NonSend<'a, R> {
    type Target = R;

    fn deref(&self) -> (r: &R)
        ensures
            *r == self.resource(),
    {
        self.0
    }
}

impl<'a, R: Resource> AsRef<R> for NonSend<'a, R> {
    fn as_ref(&self) -> (r: &R)
        ensures
            *r == self.resource(),
    {
        self.0
    }
}

/// Exclusive access to a resource that stays on its thread.
pub struct NonSendMut<'a, R: Resource>(&'a mut R);

impl<'a, R: Resource> NonSendMut<'a, R> {
    pub closed spec fn resource(&self) -> R {
        *self.0
    }

    pub fn new(resource: &'a mut R) -> (r: Self)
        ensures
            r.resource() == *old(resource),
    {
        NonSendMut(resource)
    }
}

impl<'a, R: Resource> core::ops::Deref for NonSendMut<'a, R> {
    type Target = R;

    fn deref(&self) -> (r: &R)
        ensures
            *r == self.resource(),
    {
        self.0
    }
}

impl<'a, R: Resource> core::ops::DerefMut for NonSendMut<'a, R> {
    fn deref_mut(&mut self) -> (r: &mut R)
        ensures
            *r == old(self).resource(),
            final(self).resource() == *final(r),
    {
        self.0
    }
}

impl<'a, R: Resource> AsRef<R> for NonSendMut<'a, R> {
    fn as_ref(&self) -> (r: &R)
        ensures
            *r == self.resource(),
    {
        self.0
    }
}

impl<'a, R: Resource> AsMut<R> for NonSendMut<'a, R> {
    fn as_mut(&mut self) -> (r: &mut R)
        ensures
            *r == old(self).resource(),
            final(self).resource() == *final(r),
    {
        self.0
    }
}

/// A copy of a resource, taken when a system starts.
pub struct Cloned<R: Resource + Clone>(R);

impl<R: Resource + Clone> Cloned<R> {
    pub closed spec fn resource(&self) -> R {
        self.0
    }

    pub fn new(resource: R) -> (r: Self)
        ensures
            r.resource() == resource,
    {
        Cloned(resource)
    }
}

impl<R: Resource + Clone> core::ops::Deref for Cloned<R> {
    type Target = R;

    fn deref(&self) -> (r: &R)
        ensures
            *r == self.resource(),
    {
        &self.0
    }
}

impl<R: Resource + Clone> AsRef<R> for Cloned<R> {
    fn as_ref(&self) -> (r: &R)
        ensures
            *r == self.resource(),
    {
        &self.0
    }
}

impl<R: Resource + Clone> core::ops::DerefMut for Cloned<R> {
    fn deref_mut(&mut self) -> (r: &mut R)
        ensures
            *r == old(self).resource(),
            final(self).resource() == *final(r),
    {
        &mut self.0
    }
}

impl<R: Resource + Clone> Clone for Cloned<R> {
    fn clone(&self) -> (r: Self)
        ensures
            cloned::<R>(self.resource(), r.resource()),
    {
        Cloned(self.0.clone())
    }
}

impl<R: Resource + Clone> AsMut<R> for Cloned<R> {
    fn as_mut(&mut self) -> (r: &mut R)
        ensures
            *r == old(self).resource(),
            final(self).resource() == *final(r),
    {
        &mut self.0
    }
}

} // verus!
