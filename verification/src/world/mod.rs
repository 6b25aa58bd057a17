//! Entities, their components and events, and the bookkeeping of who may
//! read or write what.

pub mod entity;
pub mod component;
pub mod hierarchy;
pub mod resource;
pub mod access;
pub mod event;
pub mod archetype;
pub mod mode;
pub mod table;

use vstd::prelude::*;

verus! {

/// The number a world is known by.
#[derive(Debug, Clone, Copy, PartialEq, Eq, Structural)]
pub struct WorldId(pub u32);

} // verus!
