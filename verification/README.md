# kudo

An archetype-based entity component system whose logic is verified with Verus.

Entities are handles (`Entity`: index and generation) handed out by `Entities`.
Each entity's components live in the `Archetype` that holds exactly its set of
component types; a component type is a `u64` id and a component value is a
`ComponentValue<V>`. `World` ties archetypes, entities and the `StorageLookup`
together, and its contracts speak of it as a map from entities to their
components.

Modules under `src/`:

- `entities`, `sparse_set`: handle allocation and a dense map with integer keys.
- `archetype`, `world`: component storage; spawning, adding, removing,
  despawning, cloning entities and merging worlds.
- `storage_lookup`, `storage_graph`: finding the archetypes that have (or lack)
  given component types.
- `queries`, `multi_query`, `single_query`, `exclusive_world_query`: what a
  query borrows, and reading and writing through it.
- `function_system`: systems as functions of a world and their parameters,
  with the borrows they take and when they may run.
- `scheduler`: the dependency graph between tasks that share resources, and
  which task is due when one finishes.
- `system_scheduler`: systems as tasks of that graph, by the channels they borrow.
- `hierarchy`: parent and child links between entities.
- `iterators`, `clone_store`, `errors`: supporting types.

`app/` keeps what the library cannot hold: per-thread default cloners, and the
running of the task graph on the `ktasks` executor.
