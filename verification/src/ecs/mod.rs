//! Entity component system: entities, archetypes, the world and its components.
//!
//! World → all archetypes; Archetype → entities sharing one set of component
//! types, stored column by column; Entity → index and generation;
//! Component → plain data; System → logic over the components.

pub mod archetype;
pub mod components;
pub mod entity;
pub mod migration;
pub mod systems;
pub mod world;
pub mod world_laws;
