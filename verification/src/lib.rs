//! A small entity-component-system runtime: a columnar, type-erased data
//! store addressed by entity identifiers, an archetype index that lets
//! queries iterate exactly the matching entities, and a dependency-graph
//! scheduler that layers user systems into parallel execution groups while
//! preserving the meaning of their insertion order.

pub mod archetype;
pub mod entity_manager;
pub mod erased_data_vec;
pub mod query;
pub mod resources;
pub mod schedule;
pub mod sparse_set;
pub mod storage;
pub mod system;
pub mod type_registrar;
pub mod world;
pub mod world_container;

pub use archetype::Archetype;
pub use archetype::ArchetypeId;
pub use archetype::ArchetypeManager;
pub use entity_manager::Entity;
pub use entity_manager::EntityAllocator;
pub use entity_manager::EntityInfo;
pub use erased_data_vec::array_layout;
pub use erased_data_vec::ErasedVec;
pub use query::AccessMode;
pub use query::QueryState;
pub use schedule::GraphResourceOwnership;
pub use schedule::GraphScheduler;
pub use schedule::Schedule;
pub use schedule::Schedules;
pub use schedule::SystemGraphChange;
pub use schedule::SystemGraphEdge;
pub use schedule::SystemNodeMeta;
pub use resources::ResourceData;
pub use resources::Resources;
pub use sparse_set::SparseIndex;
pub use sparse_set::SparseSet;
pub use storage::TableStorage;
pub use system::add_dependencies;
pub use type_registrar::TypeRegistrar;
pub use type_registrar::UniqueTypeId;
pub use world::IntoLabel;
pub use world::Label;
pub use world_container::ComponentId;
pub use world_container::WorldContainer;
