use crate::sparse::SparseIndex;
use vstd::prelude::*;

verus! {

/// A type that can be stored as a component of an entity.
pub trait Component: Send + Sync + 'static {

}

/// The index of a registered component type.
#[derive(Debug, Clone, Copy, PartialEq, Eq, Structural, PartialOrd, Ord, Hash)]
pub struct ComponentId(pub u32);

impl SparseIndex for ComponentId {
    open spec fn key(self) -> usize {
        self.0 as usize
    }

    open spec fn max_key() -> nat {
        if usize::MAX < u32::MAX {
            usize::MAX as nat
        } else {
            u32::MAX as nat
        }
    }

    fn to_usize(self) -> (r: usize) {
        self.0 as usize
    }

    fn from_usize(index: usize) -> (r: ComponentId)
        ensures
            r.0 == index as u32,
    {
        ComponentId(index as u32)
    }
}

/// Receives the components of a kit, one at a time.
pub trait ComponentWriter<'a> {
    fn write<C: Component>(&mut self, component: C);
}

/// Receives the component types of a kit that are to be removed, one at a
/// time.
pub trait ComponentRemover<'a> {
    fn remove<C: Component>(&mut self);
}

} // verus!
