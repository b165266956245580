//! Systems: the logic that runs over the world's components each frame.

pub mod camera_system;
