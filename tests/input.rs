use project_tails::input::{Input, KeyEvent};

#[test]
fn fresh_input_has_no_keys() {
    let i = Input::new();
    assert!(!i.key_pressed(4));
    assert!(!i.key_held(4));
}

#[test]
fn key_down_is_pressed_once_then_held() {
    let mut i = Input::new();
    i.update(&[KeyEvent::Down(7)]);
    assert!(i.key_pressed(7));
    assert!(i.key_held(7));
    i.update(&[]);
    assert!(!i.key_pressed(7));
    assert!(i.key_held(7));
    // a repeated down while held is not a new press
    i.update(&[KeyEvent::Down(7)]);
    assert!(!i.key_pressed(7));
    assert!(i.key_held(7));
}

#[test]
fn key_up_releases() {
    let mut i = Input::new();
    i.update(&[KeyEvent::Down(1), KeyEvent::Down(2)]);
    i.update(&[KeyEvent::Up(1)]);
    assert!(!i.key_held(1));
    assert!(!i.key_pressed(1));
    assert!(i.key_held(2));
    // up then down in one update counts as a press
    i.update(&[KeyEvent::Up(2), KeyEvent::Down(2)]);
    assert!(i.key_pressed(2));
    assert!(i.key_held(2));
    assert!(!i.key_pressed(3));
}
