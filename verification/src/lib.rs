//! A render-graph core: handle-based resource registries, pass builders,
//! dependency-driven execution ordering and resource lifetime analysis.
pub mod slots;
pub mod types;
pub mod registry;
pub mod order;
pub mod graph;
pub mod lifetime;
pub mod camera;
pub mod app_loop;
