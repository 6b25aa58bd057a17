//! Core data structures of an entity-component-system runtime: frame
//! counters, sparse arrays and sets, entity allocation, dependency graphs,
//! access bookkeeping and the entity hierarchy.

pub mod frame;
pub mod sparse;
pub mod bitset;
pub mod dag;
pub mod world;
pub mod hierarchy;
pub mod commands;
pub mod text;
pub mod ext;
pub mod time;
pub mod sync;
pub mod plugin;
pub mod blob;
pub mod style;
pub mod task;
