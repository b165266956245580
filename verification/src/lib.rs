//! alengine: the verified core of a small WebGPU engine: an archetype-based
//! entity component system, the topology of the generated meshes, and the
//! input, overlay and scene bookkeeping of the renderer.

pub mod ecs;
pub mod models;
pub mod models_3d;
pub mod render;
