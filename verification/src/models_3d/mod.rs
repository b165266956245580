//! Procedurally generated meshes.

pub mod ico_sphere;
