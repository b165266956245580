//! Components: plain data attached to entities.

pub mod point_cloud;
pub mod tags;
