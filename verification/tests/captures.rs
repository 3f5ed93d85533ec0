use fuzzy_regex::captures::{CaptureState, CaptureStateBuilder};

#[test]
fn capture_new_has_unset_slots() {
    let caps = CaptureState::new(2);
    assert_eq!(caps.slots().len(), 3);
    assert!(caps.slots().iter().all(|s| s.is_none()));
    assert!(caps.names().is_empty());
    assert!(caps.handler_overrides().is_empty());
}

#[test]
fn capture_start_then_end() {
    let mut caps = CaptureState::new(2);
    caps.start_capture(1, 4);
    assert_eq!(caps.get(1), Some((4, 4)));
    caps.end_capture(1, 9);
    assert_eq!(caps.get(1), Some((4, 9)));
    // Closing a group that was never opened leaves it unset.
    caps.end_capture(2, 5);
    assert_eq!(caps.get(2), None);
    // Unknown groups are ignored.
    caps.start_capture(7, 1);
    assert_eq!(caps.get(7), None);
    assert_eq!(caps.slots().len(), 3);
}

#[test]
fn capture_full_match_and_clear() {
    let mut caps = CaptureState::new(1);
    caps.set_full_match(2, 6);
    caps.start_capture(1, 3);
    assert_eq!(caps.get(0), Some((2, 6)));
    caps.clear();
    assert_eq!(caps.slots().len(), 2);
    assert_eq!(caps.get(0), None);
    assert_eq!(caps.get(1), None);
}

#[test]
fn capture_named_groups() {
    let mut caps = CaptureState::new(2);
    caps.register_name("year".to_string(), 1);
    caps.register_name("month".to_string(), 2);
    caps.start_capture(1, 0);
    caps.end_capture(1, 4);
    assert_eq!(caps.get_named("year"), Some((0, 4)));
    assert_eq!(caps.get_named("month"), None);
    assert_eq!(caps.get_named("day"), None);
    // Registering a name again moves it to the new group.
    caps.register_name("year".to_string(), 2);
    assert_eq!(caps.get_named("year"), None);
}

#[test]
fn capture_with_offset_shifts_every_slot() {
    let mut caps = CaptureState::new(2);
    caps.set_full_match(1, 5);
    caps.start_capture(2, 2);
    caps.end_capture(2, 3);
    let shifted = caps.with_offset(10);
    assert_eq!(shifted.get(0), Some((11, 15)));
    assert_eq!(shifted.get(1), None);
    assert_eq!(shifted.get(2), Some((12, 13)));
}

#[test]
fn capture_builder_registers_names() {
    let caps = CaptureStateBuilder::new(2)
        .with_name("a".to_string(), 1)
        .with_name("b".to_string(), 2)
        .build();
    assert_eq!(caps.slots().len(), 3);
    let mut caps = caps;
    caps.start_capture(2, 1);
    caps.end_capture(2, 2);
    assert_eq!(caps.get_named("b"), Some((1, 2)));
    assert_eq!(caps.get_named("a"), None);
}

#[test]
fn capture_get_text_plain() {
    let mut caps = CaptureState::new(1);
    caps.set_full_match(0, 11);
    caps.start_capture(1, 6);
    caps.end_capture(1, 11);
    assert_eq!(caps.get_text(1, "hello world"), Some("world".to_string()));
    assert_eq!(caps.get_text(0, "hello world"), Some("hello world".to_string()));
}

#[test]
fn capture_get_text_unset_group() {
    let caps = CaptureState::new(1);
    assert_eq!(caps.get_text(1, "hello"), None);
}

#[test]
fn capture_get_text_with_override() {
    let mut caps = CaptureState::new(0);
    caps.set_full_match(0, 11);
    caps.set_handler_overrides(vec![(6, 11, "there".to_string())]);
    assert_eq!(caps.handler_overrides().len(), 1);
    assert_eq!(caps.get_text(0, "hello world"), Some("hello there".to_string()));
}

#[test]
fn capture_get_text_override_outside_group_is_ignored() {
    let mut caps = CaptureState::new(1);
    caps.start_capture(1, 0);
    caps.end_capture(1, 5);
    caps.set_handler_overrides(vec![(6, 11, "X".to_string())]);
    assert_eq!(caps.get_text(1, "hello world"), Some("hello".to_string()));
}

#[test]
fn capture_builder_last_name_wins() {
    let caps = CaptureStateBuilder::new(2)
        .with_name("a".to_string(), 1)
        .with_name("b".to_string(), 2)
        .with_name("a".to_string(), 3)
        .build();
    assert_eq!(caps.slots().len(), 3);
    assert!(caps.slots().iter().all(|x| x.is_none()));
    assert_eq!(caps.names().len(), 2);
    let a = caps.names().iter().find(|(n, _)| n == "a").map(|(_, i)| *i);
    let b = caps.names().iter().find(|(n, _)| n == "b").map(|(_, i)| *i);
    assert_eq!(a, Some(3));
    assert_eq!(b, Some(2));
}
