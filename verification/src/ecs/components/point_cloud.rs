//! The discrete states of point-cloud rendering.

use vstd::prelude::*;

verus! {

/// How the points of a cloud are coloured.
#[derive(Copy, Clone, PartialEq, Eq, Structural, Debug)]
pub enum ColorMode {
    /// Grey levels from the lidar return intensity.
    Intensity,
    /// A colour per LAS class (ground, vegetation, building, ...).
    Classification,
    /// A gradient along the height.
    Height,
    /// The colour recorded by the scanner.
    Rgb,
    /// A colour from the estimated normal.
    Normal,
}

/// The loading state of a level-of-detail octree node.
#[derive(Copy, Clone, PartialEq, Eq, Structural, Debug)]
pub enum NodeState {
    /// Not requested yet.
    Unloaded,
    /// Being fetched.
    Loading,
    /// Its GPU buffer is ready to be bound.
    Ready,
    /// Its buffer was released.
    Evicted,
}

} // verus!
