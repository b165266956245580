//! The camera system's resource: which entity is the active camera.

use vstd::prelude::*;
use crate::ecs::entity::Entity;

verus! {

/// The entity whose camera component and world transform give the view.
#[derive(Copy, Clone, PartialEq, Eq, Structural, Debug)]
pub struct ActiveCamera(pub Entity);

} // verus!
