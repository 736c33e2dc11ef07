use project_tails::act::{ActError, EntityRecord};
use project_tails::entity_data::{parse_object_line, ObjectError};

#[test]
fn object_line_with_animations() {
    let o = parse_object_line("OBJ BEE a b c d e f g Bee/Fly.png 100 4 Bee/Die.png -1 2 EA").unwrap();
    assert_eq!(o.kind, "BEE");
    assert_eq!(o.animations.len(), 2);
    assert_eq!(o.animations[0].image, "Bee/Fly");
    assert_eq!(o.animations[0].delay_ms, 100);
    assert_eq!(o.animations[0].frames, 4);
    assert_eq!(o.animations[1].image, "Bee/Die");
    assert_eq!(o.animations[1].delay_ms, 0);
    assert_eq!(o.animations[1].frames, 2);
}

#[test]
fn object_line_without_animations() {
    let o = parse_object_line("OBJ RING 1 2 3 4 5 6 7 EA").unwrap();
    assert_eq!(o.kind, "RING");
    assert!(o.animations.is_empty());
}

#[test]
fn negative_frame_time_wraps() {
    let o = parse_object_line("OBJ X 1 2 3 4 5 6 7 a.png -2 1 EA").unwrap();
    assert_eq!(o.animations[0].delay_ms, u64::MAX - 1);
}

#[test]
fn object_line_errors() {
    assert_eq!(parse_object_line("THING X").err(), Some(ObjectError::NotAnObject));
    assert_eq!(parse_object_line("").err(), Some(ObjectError::NotAnObject));
    assert_eq!(parse_object_line("OBJ").err(), Some(ObjectError::MissingField));
    assert_eq!(parse_object_line("OBJ X 1 2 3 4 5 6 7").err(), Some(ObjectError::MissingField));
    assert_eq!(parse_object_line("OBJ X 1 2 3 4 5 6 7 a.png").err(), Some(ObjectError::MissingField));
    assert_eq!(parse_object_line("OBJ X 1 2 3 4 5 6 7 png 1 1 EA").err(), Some(ObjectError::ShortImageName));
    assert_eq!(parse_object_line("OBJ X 1 2 3 4 5 6 7 a.png x 1 EA").err(), Some(ObjectError::BadNumber));
    assert_eq!(parse_object_line("OBJ X 1 2 3 4 5 6 7 a.png 1 -1 EA").err(), Some(ObjectError::BadNumber));
    assert_eq!(
        parse_object_line("OBJ X 1 2 3 4 5 6 7 a.png 2147483648 1 EA").err(),
        Some(ObjectError::BadNumber)
    );
    assert_eq!(parse_object_line("OBJ X 1 2 3 4 5 6 7 a.png -2147483648 1 EA").unwrap().animations[0].delay_ms,
        u64::MAX - (1u64 << 31) + 1);
}

#[test]
fn entity_line_words() {
    let e = EntityRecord::parse_line("  12.5 -3 RING big  ").unwrap();
    assert_eq!(e.x, "12.5");
    assert_eq!(e.y, "-3");
    assert_eq!(e.kind, "RING");
    assert_eq!(e.flags, vec!["big".to_string()]);
    assert_eq!(e.to_line(), "12.5 -3 RING big ");
    assert_eq!(EntityRecord::parse_line("1 2").err(), Some(ActError::MissingEntityKind));
}
