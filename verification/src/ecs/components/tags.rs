//! Tags: zero-sized components that only mark entities.

use vstd::prelude::*;

verus! {

/// The entity is visible this frame (inside the view frustum).
#[derive(Copy, Clone, PartialEq, Eq, Structural, Debug)]
pub struct Visible;

/// The entity was rejected by frustum culling.
#[derive(Copy, Clone, PartialEq, Eq, Structural, Debug)]
pub struct Culled;

/// The entity is selected by the user.
#[derive(Copy, Clone, PartialEq, Eq, Structural, Debug)]
pub struct Selected;

/// The entity never moves, so its world matrix is computed once.
#[derive(Copy, Clone, PartialEq, Eq, Structural, Debug)]
pub struct Static;

/// The entity's data is still being streamed in.
#[derive(Copy, Clone, PartialEq, Eq, Structural, Debug)]
pub struct Loading;

} // verus!
