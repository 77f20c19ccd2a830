pub mod archetype;
pub mod clone_store;
pub mod entities;
pub mod errors;
pub mod exclusive_world_query;
pub mod function_system;
pub mod hierarchy;
pub mod iterators;
pub mod multi_query;
pub mod queries;
pub mod scheduler;
pub mod single_query;
pub mod sparse_set;
pub mod storage_graph;
pub mod storage_lookup;
pub mod system_scheduler;
pub mod world;

pub use archetype::{Archetype, ComponentChannelStorage, ComponentValue, EntityMigrator, WorldClone};
pub use clone_store::{CloneStore, CloneStoreBuilder};
pub use entities::{Entities, Entity, EntityLocation, Inner};
pub use errors::{ComponentAlreadyBorrowed, ComponentDoesNotExist, Error, FetchError};
pub use exclusive_world_query::{ExclusiveWorld, ExclusiveWorldQueryInfo};
pub use function_system::{FunctionSystem, SystemArg, SystemInfo, SystemParam};
pub use hierarchy::{despawn_hierachy, iterate_descendents, remove_child, set_parent, HierarchyNode, HIERARCHY_TYPE_ID};
pub use iterators::ChainedIterator;
pub use multi_query::Query;
pub use queries::{BorrowRequest, QueryInfo, QueryInfoTrait, QueryParameter, ReadOrWrite, ResourceBorrows};
pub use single_query::{Single, SingleMut, SingleQueryInfo};
pub use sparse_set::SparseSet;
pub use system_scheduler::{ScheduledSystem, SystemScheduler};
pub use storage_graph::{InsertHandle, Requirement, RequirementType, StorageGraph, StorageMatch};
pub use scheduler::{wake_tasks, NextUp, Scheduler, Task, TaskInfo};
pub use storage_lookup::{ArchetypeMatch, ComponentArchetypeInfo, ComponentInfo, Filter, FilterType, StorageLookup};
pub use world::{Cloners, World};
