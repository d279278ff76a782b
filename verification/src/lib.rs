//! The runtime core of an entity-component scene graph.
//!
//! A [`World`](world::World) is the arena that owns every entity, scene and
//! component. [`Entity`](entity::Entity), [`Scene`](scene::Scene) and
//! [`ComponentRef`](component::ComponentRef) are handles into it: two handles
//! are equal exactly when they name the same slot. Entities form a forest. A
//! scene owns a list of root entities and a registry with one
//! [`ComponentManager`](component_manager::ComponentManager) per manager
//! identifier; it creates a manager when the first component of its kind
//! becomes live in the scene and destroys it when the last one leaves.
//!
//! Every operation is specified over [`WorldView`](model::WorldView), the
//! mathematical model of a world: `model` defines the model, its operations
//! and what it means for it to be well formed; `world`, `registry`, `scene`
//! and `entity` hold the executable code; `basic` holds a component and a
//! manager that are ready to use; `laws` states what holds of the operations
//! together. The remaining modules hold the lemmas that the proofs rest on.
pub mod basic;
pub mod cascade_lemmas;
pub mod component;
pub mod component_manager;
pub mod entity;
pub mod forest_lemmas;
pub mod identifier;
pub mod laws;
pub mod lists;
pub mod model;
mod registry;
pub mod registry_lemmas;
pub mod scene;
pub mod wf_lemmas;
pub mod world;
