use animator::animation::AnimError;
use animator::animation::Animation;
use animator::animation::Frame;

fn frame_of(lines: &[&str]) -> Frame {
    Frame { content: lines.iter().map(|s| s.to_string()).collect() }
}

fn store_of(names: &[&str]) -> Animation {
    let mut a = Animation::new();
    for n in names {
        a.add_frame(frame_of(&[n]));
    }
    a
}

fn first_lines(a: &Animation) -> Vec<String> {
    a.frames.iter().map(|f| f.content[0].clone()).collect()
}

#[test]
fn new_store_defaults() {
    let a = Animation::new();
    assert_eq!(a.frame_count(), 0);
    assert_eq!(a.cursor(), 0);
    assert_eq!(a.speed_ms(), 500);
}

#[test]
fn add_frame_appends() {
    let mut a = store_of(&["A"]);
    a.add_frame(frame_of(&["B"]));
    assert_eq!(a.frame_count(), 2);
    assert_eq!(a.cursor(), 0);
    assert_eq!(first_lines(&a), vec!["A".to_string(), "B".to_string()]);
}

#[test]
fn insert_shifts_tail() {
    let mut a = store_of(&["A", "B"]);
    assert!(a.insert_frame(1, frame_of(&["X"])).is_ok());
    assert_eq!(first_lines(&a), vec!["A".to_string(), "X".to_string(), "B".to_string()]);
}

#[test]
fn insert_at_end_is_append() {
    let mut a = store_of(&["A"]);
    assert!(a.insert_frame(1, frame_of(&["B"])).is_ok());
    assert_eq!(first_lines(&a), vec!["A".to_string(), "B".to_string()]);
}

#[test]
fn insert_out_of_range_is_reported() {
    let mut a = store_of(&["A", "B"]);
    assert_eq!(a.insert_frame(3, frame_of(&["X"])), Err(AnimError::IndexOutOfRange));
    assert_eq!(a.frame_count(), 2);
    assert_eq!(first_lines(&a), vec!["A".to_string(), "B".to_string()]);
}

#[test]
fn delete_last_remaining_frame_is_noop() {
    let mut a = store_of(&["A"]);
    assert!(a.delete_frame(0).is_ok());
    assert_eq!(a.frame_count(), 1);
    assert_eq!(first_lines(&a), vec!["A".to_string()]);
}

#[test]
fn delete_never_empties_the_store() {
    let mut a = store_of(&["A", "B", "C"]);
    for _ in 0..5 {
        let _ = a.delete_frame(0);
        assert!(a.frame_count() >= 1);
    }
    assert_eq!(a.frame_count(), 1);
}

#[test]
fn delete_out_of_range_is_reported() {
    let mut a = store_of(&["A", "B"]);
    assert_eq!(a.delete_frame(2), Err(AnimError::IndexOutOfRange));
    assert_eq!(a.frame_count(), 2);
}

#[test]
fn cursor_clamped_on_delete() {
    let mut a = store_of(&["A", "B", "C"]);
    a.current_frame = 2;
    assert!(a.delete_frame(2).is_ok());
    assert_eq!(a.cursor(), 1);
    assert_eq!(a.frame_count(), 2);
}

#[test]
fn delete_before_cursor_keeps_cursor_value() {
    let mut a = store_of(&["A", "B", "C"]);
    a.current_frame = 1;
    assert!(a.delete_frame(0).is_ok());
    assert_eq!(a.cursor(), 1);
    assert_eq!(first_lines(&a), vec!["B".to_string(), "C".to_string()]);
}

#[test]
fn delete_current_uses_cursor() {
    let mut a = store_of(&["A", "B", "C"]);
    a.current_frame = 1;
    assert!(a.delete_current().is_ok());
    assert_eq!(first_lines(&a), vec!["A".to_string(), "C".to_string()]);
}

#[test]
fn move_is_remove_then_insert() {
    let mut a = store_of(&["A", "B", "C", "D"]);
    assert!(a.move_frame(0, 2).is_ok());
    assert_eq!(
        first_lines(&a),
        vec!["B".to_string(), "C".to_string(), "A".to_string(), "D".to_string()]
    );
}

#[test]
fn move_out_of_range_is_reported() {
    let mut a = store_of(&["A", "B"]);
    assert_eq!(a.move_frame(0, 2), Err(AnimError::IndexOutOfRange));
    assert_eq!(a.move_frame(5, 0), Err(AnimError::IndexOutOfRange));
    assert_eq!(first_lines(&a), vec!["A".to_string(), "B".to_string()]);
}

#[test]
fn cyclic_advancement_visits_each_frame_once() {
    let mut a = store_of(&["A", "B", "C"]);
    a.current_frame = 1;
    let f1 = a.next_frame().unwrap();
    let f2 = a.next_frame().unwrap();
    let f3 = a.next_frame().unwrap();
    assert_eq!(f1.content, vec!["B".to_string()]);
    assert_eq!(f2.content, vec!["C".to_string()]);
    assert_eq!(f3.content, vec!["A".to_string()]);
    assert_eq!(a.cursor(), 1);
}

#[test]
fn next_frame_on_empty_store_is_reported() {
    let mut a = Animation::new();
    assert_eq!(a.next_frame().err(), Some(AnimError::EmptyAnimation));
}

#[test]
fn peek_current_does_not_advance() {
    let a = store_of(&["A", "B"]);
    let f = a.peek_current().unwrap();
    assert_eq!(f.content, vec!["A".to_string()]);
    assert_eq!(a.cursor(), 0);
}

#[test]
fn speed_rejection_keeps_old_speed() {
    let mut a = Animation::new();
    assert_eq!(a.set_speed(0), Err(AnimError::InvalidSpeed));
    assert_eq!(a.speed_ms(), 500);
    assert_eq!(a.set_speed(-5), Err(AnimError::InvalidSpeed));
    assert_eq!(a.speed_ms(), 500);
    assert!(a.set_speed(250).is_ok());
    assert_eq!(a.speed_ms(), 250);
}

#[test]
fn get_and_set_frame() {
    let mut a = store_of(&["A", "B"]);
    let f = a.get_frame(1).unwrap();
    assert_eq!(f.content, vec!["B".to_string()]);
    assert!(a.set_frame(1, frame_of(&["Z"])).is_ok());
    assert_eq!(first_lines(&a), vec!["A".to_string(), "Z".to_string()]);
    assert_eq!(a.get_frame(2).err(), Some(AnimError::IndexOutOfRange));
    assert_eq!(a.set_frame(2, frame_of(&["Q"])).err(), Some(AnimError::IndexOutOfRange));
}

#[test]
fn frame_line_editing() {
    let mut f = Frame::new();
    assert_eq!(f.line_count(), 0);
    f.add_line("one".to_string());
    f.add_line("two".to_string());
    assert_eq!(f.line_count(), 2);
    assert!(f.replace_line(1, "TWO".to_string()).is_ok());
    assert_eq!(f.content, vec!["one".to_string(), "TWO".to_string()]);
    assert_eq!(f.replace_line(2, "x".to_string()), Err(AnimError::IndexOutOfRange));
    assert!(f.remove_line(0).is_ok());
    assert_eq!(f.content, vec!["TWO".to_string()]);
    assert_eq!(f.remove_line(1), Err(AnimError::IndexOutOfRange));
    let copy = f.duplicate();
    assert_eq!(copy.content, f.content);
}
