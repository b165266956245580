//! Mouse and keyboard state, and the camera actions it calls for.

use vstd::prelude::*;
use crate::render::camera::CameraMode;

verus! {

/// Whether `a` and `b` hold the same characters: their UTF-8 encodings are
/// compared byte by byte, and an encoding determines its characters.
fn str_eq(a: &str, b: &str) -> (r: bool)
    ensures
        r == (a@ == b@),
{
    let x = a.as_bytes();
    let y = b.as_bytes();
    proof {
        vstd::utf8::encode_utf8_decode_utf8(a@);
        vstd::utf8::encode_utf8_decode_utf8(b@);
        assert(x@ == vstd::utf8::encode_utf8(a@));
        assert(y@ == vstd::utf8::encode_utf8(b@));
    }
    if x.len() != y.len() {
        return false;
    }
    let mut i: usize = 0;
    while i < x.len()
        invariant
            x@ == vstd::utf8::encode_utf8(a@),
            y@ == vstd::utf8::encode_utf8(b@),
            x@.len() == y@.len(),
            i <= x@.len(),
            forall|k: int| 0 <= k < i ==> x@[k] == y@[k],
        decreases x@.len() - i,
    {
        if x[i] != y[i] {
            return false;
        }
        i = i + 1;
    }
    assert(x@ =~= y@);
    true
}

/// The keys that move the first-person camera.
#[derive(Copy, Clone, PartialEq, Eq, Structural, Debug)]
pub enum MovementKey {
    Forward,
    Backward,
    Left,
    Right,
    Up,
    Down,
}

/// The movement key bound to the key code `code`: W or Up arrow moves
/// forward, S or Down arrow backward, A or Left arrow left, D or Right arrow
/// right, Space up and either Shift down.
pub open spec fn key_for(code: Seq<char>) -> Option<MovementKey> {
    if code == "KeyW"@ || code == "ArrowUp"@ {
        Some(MovementKey::Forward)
    } else if code == "KeyS"@ || code == "ArrowDown"@ {
        Some(MovementKey::Backward)
    } else if code == "KeyA"@ || code == "ArrowLeft"@ {
        Some(MovementKey::Left)
    } else if code == "KeyD"@ || code == "ArrowRight"@ {
        Some(MovementKey::Right)
    } else if code == "Space"@ {
        Some(MovementKey::Up)
    } else if code == "ShiftLeft"@ || code == "ShiftRight"@ {
        Some(MovementKey::Down)
    } else {
        None
    }
}

/// What the camera should do this frame.
#[derive(Copy, Clone, PartialEq, Eq, Structural, Debug)]
pub struct CameraActions {
    /// Orbit around the target (orbit mode) or look around (first-person).
    pub rotate: bool,
    /// Pan the target (orbit mode only).
    pub pan: bool,
    /// First-person movement along the forward, right and up axes: -1, 0 or 1.
    pub forward: i8,
    pub right: i8,
    pub up: i8,
}

/// -1, 0 or 1 along an axis: the positive key wins when both are held.
pub open spec fn axis(positive: bool, negative: bool) -> i8 {
    if positive {
        1i8
    } else if negative {
        -1i8
    } else {
        0i8
    }
}

/// Which mouse buttons and movement keys are held.
#[derive(Copy, Clone, PartialEq, Eq, Structural, Debug)]
pub struct InputState {
    pub left_down: bool,
    pub middle_down: bool,
    pub right_down: bool,
    pub key_w: bool,
    pub key_s: bool,
    pub key_a: bool,
    pub key_d: bool,
    pub key_q: bool,
    pub key_e: bool,
}

impl InputState {
    /// Nothing held.
    pub fn new() -> (s: Self)
        ensures
            s == (InputState {
                left_down: false,
                middle_down: false,
                right_down: false,
                key_w: false,
                key_s: false,
                key_a: false,
                key_d: false,
                key_q: false,
                key_e: false,
            }),
    {
        InputState {
            left_down: false,
            middle_down: false,
            right_down: false,
            key_w: false,
            key_s: false,
            key_a: false,
            key_d: false,
            key_q: false,
            key_e: false,
        }
    }

    /// The state with movement key `k` held (`down`) or released.
    pub open spec fn with_key(self, k: MovementKey, down: bool) -> InputState {
        match k {
            MovementKey::Forward => InputState { key_w: down, ..self },
            MovementKey::Backward => InputState { key_s: down, ..self },
            MovementKey::Left => InputState { key_a: down, ..self },
            MovementKey::Right => InputState { key_d: down, ..self },
            MovementKey::Up => InputState { key_q: down, ..self },
            MovementKey::Down => InputState { key_e: down, ..self },
        }
    }

    /// Takes the held buttons from a mouse-move event's bitmask
    /// (1 = left, 2 = right, 4 = middle).
    pub fn on_mouse_buttons(&mut self, buttons: u32)
        ensures
            *final(self) == (InputState {
                left_down: buttons & 1 != 0,
                right_down: buttons & 2 != 0,
                middle_down: buttons & 4 != 0,
                ..*old(self)
            }),
    {
        self.left_down = (buttons & 1) != 0;
        self.right_down = (buttons & 2) != 0;
        self.middle_down = (buttons & 4) != 0;
    }

    /// A mouse button was pressed or released (0 = left, 1 = middle,
    /// 2 = right; other buttons are ignored).
    pub fn on_mouse_button(&mut self, button: u32, down: bool)
        ensures
            *final(self) == (if button == 0 {
                InputState { left_down: down, ..*old(self) }
            } else if button == 1 {
                InputState { middle_down: down, ..*old(self) }
            } else if button == 2 {
                InputState { right_down: down, ..*old(self) }
            } else {
                *old(self)
            }),
    {
        match button {
            0 => self.left_down = down,
            1 => self.middle_down = down,
            2 => self.right_down = down,
            _ => {},
        }
    }

    /// The state after key `code` is pressed (`down`) or released; keys that
    /// are not bound change nothing.
    pub open spec fn after_key(self, code: Seq<char>, down: bool) -> InputState {
        match key_for(code) {
            Some(k) => self.with_key(k, down),
            None => self,
        }
    }

    /// A key was pressed or released; keys that are not bound are ignored.
    pub fn on_key(&mut self, code: &str, down: bool)
        ensures
            *final(self) == old(self).after_key(code@, down),
            code@ == "KeyW"@ || code@ == "ArrowUp"@ ==> *final(self) == (InputState { key_w: down, ..*old(self) }),
            code@ == "KeyS"@ || code@ == "ArrowDown"@ ==> *final(self) == (InputState { key_s: down, ..*old(self) }),
            code@ == "KeyA"@ || code@ == "ArrowLeft"@ ==> *final(self) == (InputState { key_a: down, ..*old(self) }),
            code@ == "KeyD"@ || code@ == "ArrowRight"@ ==> *final(self) == (InputState { key_d: down, ..*old(self) }),
            code@ == "Space"@ ==> *final(self) == (InputState { key_q: down, ..*old(self) }),
            code@ == "ShiftLeft"@ || code@ == "ShiftRight"@ ==> *final(self) == (InputState { key_e: down, ..*old(self) }),
    {
        proof {
            lemma_key_bindings(*old(self), down);
        }
        if str_eq(code, "KeyW") || str_eq(code, "ArrowUp") {
            self.key_w = down;
        } else if str_eq(code, "KeyS") || str_eq(code, "ArrowDown") {
            self.key_s = down;
        } else if str_eq(code, "KeyA") || str_eq(code, "ArrowLeft") {
            self.key_a = down;
        } else if str_eq(code, "KeyD") || str_eq(code, "ArrowRight") {
            self.key_d = down;
        } else if str_eq(code, "Space") {
            self.key_q = down;
        } else if str_eq(code, "ShiftLeft") || str_eq(code, "ShiftRight") {
            self.key_e = down;
        }
    }

    /// The camera actions of this frame in mode `mode`: in orbit mode the left
    /// button orbits and the right or middle button pans; in first-person mode
    /// the left button looks around and the keys move along the three axes.
    pub fn camera_actions(&self, mode: CameraMode) -> (a: CameraActions)
        ensures
            mode == CameraMode::Fps ==> (self.key_w ==> a.forward == 1) && (!self.key_w && self.key_s ==> a.forward == -1)
                && (!self.key_w && !self.key_s ==> a.forward == 0),
            mode == CameraMode::Fps ==> (self.key_d ==> a.right == 1) && (!self.key_d && self.key_a ==> a.right == -1)
                && (!self.key_d && !self.key_a ==> a.right == 0),
            mode == CameraMode::Fps ==> (self.key_q ==> a.up == 1) && (!self.key_q && self.key_e ==> a.up == -1) && (
            !self.key_q && !self.key_e ==> a.up == 0),
            a == (match mode {
                CameraMode::Orbit => CameraActions {
                    rotate: self.left_down,
                    pan: self.right_down || self.middle_down,
                    forward: 0,
                    right: 0,
                    up: 0,
                },
                CameraMode::Fps => CameraActions {
                    rotate: self.left_down,
                    pan: false,
                    forward: axis(self.key_w, self.key_s),
                    right: axis(self.key_d, self.key_a),
                    up: axis(self.key_q, self.key_e),
                },
            }),
    {
        proof {
            lemma_axis(self.key_w, self.key_s);
            lemma_axis(self.key_d, self.key_a);
            lemma_axis(self.key_q, self.key_e);
        }
        match mode {
            CameraMode::Orbit => CameraActions {
                rotate: self.left_down,
                pan: self.right_down || self.middle_down,
                forward: 0,
                right: 0,
                up: 0,
            },
            CameraMode::Fps => CameraActions {
                rotate: self.left_down,
                pan: false,
                forward: signed_axis(self.key_w, self.key_s),
                right: signed_axis(self.key_d, self.key_a),
                up: signed_axis(self.key_q, self.key_e),
            },
        }
    }
}

fn signed_axis(positive: bool, negative: bool) -> (v: i8)
    ensures
        v == axis(positive, negative),
{
    if positive {
        1
    } else if negative {
        -1
    } else {
        0
    }
}

/// Along a movement axis the camera moves by 1 whenever the positive key is
/// held, by -1 when only the negative key is held, and not at all when
/// neither is.
pub proof fn lemma_axis(positive: bool, negative: bool)
    ensures
        positive ==> axis(positive, negative) == 1,
        !positive && negative ==> axis(positive, negative) == -1,
        !positive && !negative ==> axis(positive, negative) == 0,
{
}

/// Each bound key code sets exactly its own movement key, and no other field
/// of the input state: W and the up arrow the forward key, S and the down
/// arrow the backward key, A and the left arrow the left key, D and the right
/// arrow the right key, Space the up key and either Shift the down key.
pub proof fn lemma_key_bindings(s: InputState, down: bool)
    ensures
        s.after_key("KeyW"@, down) == (InputState { key_w: down, ..s }),
        s.after_key("ArrowUp"@, down) == (InputState { key_w: down, ..s }),
        s.after_key("KeyS"@, down) == (InputState { key_s: down, ..s }),
        s.after_key("ArrowDown"@, down) == (InputState { key_s: down, ..s }),
        s.after_key("KeyA"@, down) == (InputState { key_a: down, ..s }),
        s.after_key("ArrowLeft"@, down) == (InputState { key_a: down, ..s }),
        s.after_key("KeyD"@, down) == (InputState { key_d: down, ..s }),
        s.after_key("ArrowRight"@, down) == (InputState { key_d: down, ..s }),
        s.after_key("Space"@, down) == (InputState { key_q: down, ..s }),
        s.after_key("ShiftLeft"@, down) == (InputState { key_e: down, ..s }),
        s.after_key("ShiftRight"@, down) == (InputState { key_e: down, ..s }),
{
    reveal_strlit("KeyW");
    reveal_strlit("ArrowUp");
    reveal_strlit("KeyS");
    reveal_strlit("ArrowDown");
    reveal_strlit("KeyA");
    reveal_strlit("ArrowLeft");
    reveal_strlit("KeyD");
    reveal_strlit("ArrowRight");
    reveal_strlit("Space");
    reveal_strlit("ShiftLeft");
    reveal_strlit("ShiftRight");
    assert("ArrowUp"@.len() != "KeyW"@.len());
    assert("KeyS"@[3] != "KeyW"@[3]);
    assert("KeyS"@.len() != "ArrowUp"@.len());
    assert("ArrowDown"@.len() != "KeyW"@.len());
    assert("ArrowDown"@.len() != "ArrowUp"@.len());
    assert("ArrowDown"@.len() != "KeyS"@.len());
    assert("KeyA"@[3] != "KeyW"@[3]);
    assert("KeyA"@.len() != "ArrowUp"@.len());
    assert("KeyA"@[3] != "KeyS"@[3]);
    assert("KeyA"@.len() != "ArrowDown"@.len());
    assert("ArrowLeft"@.len() != "KeyW"@.len());
    assert("ArrowLeft"@.len() != "ArrowUp"@.len());
    assert("ArrowLeft"@.len() != "KeyS"@.len());
    assert("ArrowLeft"@[5] != "ArrowDown"@[5]);
    assert("ArrowLeft"@.len() != "KeyA"@.len());
    assert("KeyD"@[3] != "KeyW"@[3]);
    assert("KeyD"@.len() != "ArrowUp"@.len());
    assert("KeyD"@[3] != "KeyS"@[3]);
    assert("KeyD"@.len() != "ArrowDown"@.len());
    assert("KeyD"@[3] != "KeyA"@[3]);
    assert("KeyD"@.len() != "ArrowLeft"@.len());
    assert("ArrowRight"@.len() != "KeyW"@.len());
    assert("ArrowRight"@.len() != "ArrowUp"@.len());
    assert("ArrowRight"@.len() != "KeyS"@.len());
    assert("ArrowRight"@.len() != "ArrowDown"@.len());
    assert("ArrowRight"@.len() != "KeyA"@.len());
    assert("ArrowRight"@.len() != "ArrowLeft"@.len());
    assert("ArrowRight"@.len() != "KeyD"@.len());
    assert("Space"@.len() != "KeyW"@.len());
    assert("Space"@.len() != "ArrowUp"@.len());
    assert("Space"@.len() != "KeyS"@.len());
    assert("Space"@.len() != "ArrowDown"@.len());
    assert("Space"@.len() != "KeyA"@.len());
    assert("Space"@.len() != "ArrowLeft"@.len());
    assert("Space"@.len() != "KeyD"@.len());
    assert("Space"@.len() != "ArrowRight"@.len());
    assert("ShiftLeft"@.len() != "KeyW"@.len());
    assert("ShiftLeft"@.len() != "ArrowUp"@.len());
    assert("ShiftLeft"@.len() != "KeyS"@.len());
    assert("ShiftLeft"@[0] != "ArrowDown"@[0]);
    assert("ShiftLeft"@.len() != "KeyA"@.len());
    assert("ShiftLeft"@[0] != "ArrowLeft"@[0]);
    assert("ShiftLeft"@.len() != "KeyD"@.len());
    assert("ShiftLeft"@.len() != "ArrowRight"@.len());
    assert("ShiftLeft"@.len() != "Space"@.len());
    assert("ShiftRight"@.len() != "KeyW"@.len());
    assert("ShiftRight"@.len() != "ArrowUp"@.len());
    assert("ShiftRight"@.len() != "KeyS"@.len());
    assert("ShiftRight"@.len() != "ArrowDown"@.len());
    assert("ShiftRight"@.len() != "KeyA"@.len());
    assert("ShiftRight"@.len() != "ArrowLeft"@.len());
    assert("ShiftRight"@.len() != "KeyD"@.len());
    assert("ShiftRight"@[0] != "ArrowRight"@[0]);
    assert("ShiftRight"@.len() != "Space"@.len());
    assert("ShiftRight"@.len() != "ShiftLeft"@.len());
}

} // verus!
