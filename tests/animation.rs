use project_tails::animation::Animation;
use std::time::Duration;

#[test]
fn starts_at_first_frame() {
    let a = Animation::new("Tails/Idle".to_string(), 5, Duration::from_millis(200));
    assert_eq!(a.frame(), 0);
    assert_eq!(a.spritesheet(), "Tails/Idle");
}

#[test]
fn frames_wrap_round() {
    let mut a = Animation::new("sheet".to_string(), 3, Duration::from_millis(200));
    a.advance_frame();
    a.advance_frame();
    assert_eq!(a.frame(), 2);
    a.advance_frame();
    assert_eq!(a.frame(), 0);
}

#[test]
fn update_after_delay_advances() {
    let mut a = Animation::new("sheet".to_string(), 2, Duration::from_millis(0));
    let mut tries = 0;
    while a.frame() == 0 && tries < 1_000_000 {
        a.update();
        tries += 1;
    }
    assert_eq!(a.frame(), 1);
}

#[test]
fn update_before_delay_keeps_frame() {
    let mut a = Animation::new("sheet".to_string(), 2, Duration::from_secs(3600));
    a.update();
    assert_eq!(a.frame(), 0);
}

#[test]
fn frame_window_picks_frame_column() {
    let mut a = Animation::new("sheet".to_string(), 5, Duration::from_millis(200));
    assert_eq!(a.frame_window(250, 40), (0, 0, 50, 40));
    a.advance_frame();
    a.advance_frame();
    assert_eq!(a.frame_window(250, 40), (100, 0, 50, 40));
    assert_eq!(a.frame_window(253, 40), (100, 0, 50, 40));
}
