use goetia::input::Input;

const KEY_W: u32 = 17;
const KEY_SPACE: u32 = 57;

#[test]
fn press_edges_fire_once_per_press() {
    let mut i = Input::new();
    i.key_event(KEY_W, true);
    assert!(i.key_down(KEY_W));
    assert!(i.key_pressed(KEY_W));
    i.end_frame();
    assert!(i.key_down(KEY_W));
    assert!(!i.key_pressed(KEY_W));
    // key repeat while held: no new edge
    i.key_event(KEY_W, true);
    assert!(!i.key_pressed(KEY_W));
    i.key_event(KEY_W, false);
    assert!(!i.key_down(KEY_W));
    assert!(i.key_released(KEY_W));
    i.end_frame();
    assert!(!i.key_released(KEY_W));
    assert!(!i.key_down(KEY_SPACE));
}

#[test]
fn mouse_buttons() {
    let mut i = Input::new();
    i.mouse_event(0, true);
    assert!(i.mouse_down(0));
    assert!(i.mouse_pressed(0));
    i.end_frame();
    i.mouse_event(0, true);
    assert!(!i.mouse_pressed(0));
    i.mouse_event(0, false);
    assert!(!i.mouse_down(0));
    assert!(!i.mouse_down(7));
    assert!(!i.mouse_pressed(7));
}
