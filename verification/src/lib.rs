//! A small game-engine core: an entity-component world with a parent/children hierarchy
//! and deferred commands, input state, and the render bookkeeping that decides what is
//! visible and which pipelines are compiled.
pub mod ecs;
pub mod input;
pub mod render;
