//! Rendering: what is visible, and the bookkeeping of draw functions and pipelines.
pub mod visibility;
pub mod draw;
pub mod resource;
pub mod shader;
pub mod pipeline_cache;
pub mod graph;
pub mod view;
pub mod camera;
pub mod pipeline;
pub mod renderer;
