//! The entity-component world: entities, components, resources, the hierarchy, deferred
//! commands, queries and the access systems declare.
pub mod entity;
pub mod maps;
pub mod world;
pub mod entity_ref;
pub mod hierarchy;
pub mod command;
pub mod system;
pub mod query;
