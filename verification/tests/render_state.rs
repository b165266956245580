use alengine::render::camera::CameraMode;
use alengine::render::constants::{NORMAL_ATTRIBUTE_OFFSET, POSITION_ATTRIBUTE_OFFSET, VERTEX_STRIDE};
use alengine::render::grid::{axis_shader, grid_shader, AXIS_FRAGMENT, FULLSCREEN_HEADER, GRID_FRAGMENT};
use alengine::render::input::{CameraActions, InputState};
use alengine::render::overlay::OverlayVisibility;

#[test]
fn camera_mode_names_and_toggle() {
    assert_eq!(CameraMode::Orbit.name(), "orbit");
    assert_eq!(CameraMode::Fps.name(), "fps");
    assert_eq!(CameraMode::Orbit.toggled(), CameraMode::Fps);
    assert_eq!(CameraMode::Orbit.toggled().toggled(), CameraMode::Orbit);
}

#[test]
fn mouse_bitmask_sets_buttons() {
    let mut s = InputState::new();
    s.on_mouse_buttons(1 | 4);
    assert!(s.left_down);
    assert!(!s.right_down);
    assert!(s.middle_down);
    s.on_mouse_buttons(2);
    assert!(!s.left_down && s.right_down && !s.middle_down);
}

#[test]
fn mouse_button_events() {
    let mut s = InputState::new();
    s.on_mouse_button(0, true);
    s.on_mouse_button(2, true);
    assert!(s.left_down && s.right_down && !s.middle_down);
    s.on_mouse_button(1, true);
    assert!(s.middle_down);
    s.on_mouse_button(0, false);
    assert!(!s.left_down);
    let before = s;
    s.on_mouse_button(7, true);
    assert_eq!(s, before);
}

#[test]
fn key_bindings() {
    let mut s = InputState::new();
    s.on_key("KeyW", true);
    s.on_key("ArrowLeft", true);
    s.on_key("Space", true);
    assert!(s.key_w && s.key_a && s.key_q);
    s.on_key("ShiftRight", true);
    assert!(s.key_e);
    s.on_key("ArrowUp", false);
    assert!(!s.key_w);
    let before = s;
    s.on_key("KeyZ", true);
    assert_eq!(s, before);
}

#[test]
fn orbit_actions() {
    let mut s = InputState::new();
    s.on_mouse_button(0, true);
    s.on_mouse_button(1, true);
    s.on_key("KeyW", true);
    assert_eq!(
        s.camera_actions(CameraMode::Orbit),
        CameraActions { rotate: true, pan: true, forward: 0, right: 0, up: 0 }
    );
}

#[test]
fn fps_actions_positive_key_wins() {
    let mut s = InputState::new();
    s.on_key("KeyW", true);
    s.on_key("KeyS", true);
    s.on_key("KeyA", true);
    s.on_key("ShiftLeft", true);
    assert_eq!(
        s.camera_actions(CameraMode::Fps),
        CameraActions { rotate: false, pan: false, forward: 1, right: -1, up: -1 }
    );
}

#[test]
fn overlay_defaults_and_toggles() {
    let mut v = OverlayVisibility::new();
    assert_eq!(v.visible_planes(), vec![1]);
    assert_eq!(v.visible_axes(), vec![0, 1, 2]);
    assert!(v.origin_visible);
    v.set_plane_xy_visible(true);
    v.set_plane_yz_visible(true);
    v.set_plane_xz_visible(false);
    assert_eq!(v.visible_planes(), vec![0, 2]);
    v.set_axis_y_visible(false);
    assert_eq!(v.visible_axes(), vec![0, 2]);
    v.set_axis_x_visible(false);
    v.set_axis_z_visible(false);
    assert!(v.visible_axes().is_empty());
    v.set_origin_visible(false);
    assert!(!v.origin_visible);
}

#[test]
fn fullscreen_shaders_share_the_header() {
    let g = grid_shader();
    let a = axis_shader();
    assert_eq!(g, format!("{}{}", FULLSCREEN_HEADER, GRID_FRAGMENT));
    assert_eq!(a, format!("{}{}", FULLSCREEN_HEADER, AXIS_FRAGMENT));
    assert!(g.contains("fn fs_main"));
    assert!(a.contains("params.info.x"));
}

#[test]
fn vertex_layout_constants() {
    assert_eq!(POSITION_ATTRIBUTE_OFFSET, 0);
    assert_eq!(NORMAL_ATTRIBUTE_OFFSET, 12);
    assert_eq!(VERTEX_STRIDE, 24);
}
