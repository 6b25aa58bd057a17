# ecs

The core data structures of an entity-component-system runtime, written in
Verus with their contracts proved.

- `src/frame.rs`: the wrapping frame clock used for change detection.
- `src/sparse.rs`: sparse arrays and dense sparse sets keyed by `SparseIndex`.
- `src/bitset.rs`: the `fixedbitset` calls the library makes, and per-slot
  read/write flags.
- `src/dag.rs`: a dependency graph with a topological sort that reports
  cycles.
- `src/world/`: entities and their allocation, component and resource ids,
  access bookkeeping (which systems may run together), events, archetypes
  with their queries and edges, archetype tables (columns of packed
  component bytes, kept with `indexmap`), and world modes.
- `src/hierarchy.rs`: parent and children components.
- `src/commands.rs`: the command queue and the deferred commands that
  systems queue.
- `src/plugin.rs`, `src/task.rs`, `src/blob.rs`, `src/style.rs`: the order of
  plugin rounds, task pool thread names and which sub apps go to the pool,
  packed byte storage, and layout style values.
- `src/text.rs`: splitting text into words, whitespace runs and line breaks.
- `src/ext.rs`, `src/time.rs`, `src/sync.rs`: alignment, a fixed-step clock,
  and the map between main and sub world entities.
- `app/`: what the library leaves to its host: type names, running plugin
  code in the rounds the library decides, reading the clock, and threads.

`tests/` runs the library on concrete values.
