//! An entity system for composition-style program architecture.
//!
//! Game objects are plain unique identifiers ("entities"); the data that
//! makes up an object is split into plain values ("components") that are
//! associated with an entity at run time. Logic then queries all components
//! of one kind, or the components of one entity, instead of walking an
//! inheritance hierarchy.
//!
//! [`EntityManager`] issues entity identifiers and tracks named entities.
//! [`ComponentManager`] owns every component: a registry of per-type stores
//! ([`ComponentStore`]) keyed by a caller-chosen [`TypeKey`], together with a
//! per-entity index of locators into those stores. All queries and every
//! mutation go through the manager, whose contracts describe the whole
//! structure as a map from type key to the insertion-ordered sequence of
//! (entity, component) records of that type.

mod entity;
mod index;
mod laws;
mod manager;
mod store;

pub use entity::create_step;
pub use entity::lemma_create_ids_pairwise_distinct;
pub use index::EntityIndex;
pub use laws::apply_op;
pub use laws::apply_ops;
pub use laws::lemma_insert_is_op;
pub use laws::lemma_insert_visible_for_entity;
pub use laws::lemma_mutation_visible;
pub use laws::lemma_remove_is_op;
pub use laws::lemma_remove_then_insert_starts_fresh;
pub use laws::lemma_store_tracks_history;
pub use laws::live_records;
pub use laws::StoreOp;
pub use store::lemma_components_update;
pub use entity::EntityId;
pub use entity::EntityManager;
pub use manager::ComponentManager;
pub use store::components_for;
pub use store::positions_of;
pub use store::ComponentStore;
pub use store::EntityMeta;
pub use store::TypeKey;
