//! Camera modes.

use vstd::prelude::*;

verus! {

/// How the camera is driven: orbiting a target, or flying first-person.
#[derive(Copy, Clone, PartialEq, Eq, Structural, Debug)]
pub enum CameraMode {
    Orbit,
    Fps,
}

impl CameraMode {
    /// The other mode.
    pub open spec fn other(self) -> CameraMode {
        match self {
            CameraMode::Orbit => CameraMode::Fps,
            CameraMode::Fps => CameraMode::Orbit,
        }
    }

    /// Switches to the other mode.
    pub fn toggled(self) -> (m: CameraMode)
        ensures
            m == self.other(),
    {
        match self {
            CameraMode::Orbit => CameraMode::Fps,
            CameraMode::Fps => CameraMode::Orbit,
        }
    }

    /// The name of the mode: "orbit" or "fps".
    pub fn name(self) -> (s: &'static str)
        ensures
            s@ == (match self {
                CameraMode::Orbit => "orbit"@,
                CameraMode::Fps => "fps"@,
            }),
    {
        match self {
            CameraMode::Orbit => "orbit",
            CameraMode::Fps => "fps",
        }
    }
}

/// Toggling twice gives back the mode one started from.
pub proof fn lemma_toggle_twice(m: CameraMode)
    ensures
        m.other().other() == m,
        m.other() != m,
{
}

} // verus!
