//! The renderer's own logic: GPU constants, debug-overlay geometry and
//! shaders, map tile triangulation, camera modes and input bookkeeping.

pub mod camera;
pub mod constants;
pub mod geo;

pub mod grid;
pub mod input;
pub mod overlay;

