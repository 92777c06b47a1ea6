use animator::animation::AnimError;
use animator::animation::Animation;
use animator::animation::Frame;
use animator::codec::deserialize;
use animator::codec::serialize;
use animator::input::parse_u64;

fn frame_of(lines: &[&str]) -> Frame {
    Frame { content: lines.iter().map(|s| s.to_string()).collect() }
}

fn example_store() -> Animation {
    let mut a = Animation::new();
    a.add_frame(frame_of(&["  o  ", " /|\\ ", " / \\ "]));
    a.add_frame(frame_of(&["  o  ", " /|\\ ", " | | "]));
    a
}

fn same_state(a: &Animation, b: &Animation) -> bool {
    a.current_frame == b.current_frame && a.speed == b.speed && a.frames.len() == b.frames.len()
        && a.frames.iter().zip(b.frames.iter()).all(|(x, y)| x.content == y.content)
}

#[test]
fn serialize_writes_the_documented_text() {
    let a = example_store();
    let text = serialize(&a);
    assert_eq!(
        text,
        "{\"frames\":[{\"content\":[\"  o  \",\" /|\\\\ \",\" / \\\\ \"]},{\"content\":[\"  o  \",\" /|\\\\ \",\" | | \"]}],\"current_frame\":0,\"speed\":500}"
    );
}

#[test]
fn round_trip_reproduces_the_store() {
    let mut a = example_store();
    a.current_frame = 1;
    assert!(a.set_speed(120).is_ok());
    let text = serialize(&a);
    let b = deserialize(&text).unwrap();
    assert!(same_state(&a, &b));
}

#[test]
fn round_trip_keeps_special_characters() {
    let mut a = Animation::new();
    a.add_frame(frame_of(&["say \"hi\"", "back\\slash", "tab\there", "line\nbreak"]));
    a.add_frame(frame_of(&["control\u{1}char", "caf\u{e9} \u{1F600}", ""]));
    let text = serialize(&a);
    let b = deserialize(&text).unwrap();
    assert!(same_state(&a, &b));
}

#[test]
fn round_trip_of_a_fresh_store() {
    let a = Animation::new();
    let b = deserialize(&serialize(&a)).unwrap();
    assert!(same_state(&a, &b));
}

#[test]
fn serialized_text_is_plain_json() {
    let mut a = Animation::new();
    a.add_frame(frame_of(&["say \"hi\"", "a\nb", "caf\u{e9}"]));
    a.add_frame(frame_of(&["x"]));
    a.current_frame = 1;
    let text = serialize(&a);
    let v: serde_json::Value = serde_json::from_str(&text).unwrap();
    assert_eq!(v["current_frame"].as_u64(), Some(1));
    assert_eq!(v["speed"].as_u64(), Some(500));
    let frames = v["frames"].as_array().unwrap();
    assert_eq!(frames.len(), 2);
    let lines = frames[0]["content"].as_array().unwrap();
    assert_eq!(lines[0].as_str(), Some("say \"hi\""));
    assert_eq!(lines[1].as_str(), Some("a\nb"));
    assert_eq!(lines[2].as_str(), Some("caf\u{e9}"));
}

#[test]
fn reads_what_other_writers_escape_with_short_escapes() {
    let text = "{\"frames\":[{\"content\":[\"a\\nb\\tc\"]}],\"current_frame\":0,\"speed\":40}";
    let a = deserialize(text).unwrap();
    assert_eq!(a.frames[0].content, vec!["a\nb\tc".to_string()]);
    assert_eq!(a.speed, 40);
}

#[test]
fn malformed_text_is_reported() {
    assert_eq!(deserialize("{not json").err(), Some(AnimError::MalformedData));
}

#[test]
fn empty_text_is_malformed() {
    assert_eq!(deserialize("").err(), Some(AnimError::MalformedData));
}

#[test]
fn trailing_text_is_malformed() {
    let text = "{\"frames\":[],\"current_frame\":0,\"speed\":500}x";
    assert_eq!(deserialize(text).err(), Some(AnimError::MalformedData));
}

#[test]
fn unterminated_string_is_malformed() {
    let text = "{\"frames\":[{\"content\":[\"abc]}],\"current_frame\":0,\"speed\":1}";
    assert_eq!(deserialize(text).err(), Some(AnimError::MalformedData));
}

#[test]
fn wrong_field_name_is_a_schema_mismatch() {
    let text = "{\"frame\":[],\"current_frame\":0,\"speed\":500}";
    assert_eq!(deserialize(text).err(), Some(AnimError::SchemaMismatch));
}

#[test]
fn frames_of_the_wrong_shape_are_a_schema_mismatch() {
    let text = "{\"frames\":5,\"current_frame\":0,\"speed\":500}";
    assert_eq!(deserialize(text).err(), Some(AnimError::SchemaMismatch));
}

#[test]
fn negative_count_is_a_schema_mismatch() {
    let text = "{\"frames\":[],\"current_frame\":-1,\"speed\":500}";
    assert_eq!(deserialize(text).err(), Some(AnimError::SchemaMismatch));
}

#[test]
fn oversized_speed_is_a_schema_mismatch() {
    let text = "{\"frames\":[],\"current_frame\":0,\"speed\":99999999999999999999999}";
    assert_eq!(deserialize(text).err(), Some(AnimError::SchemaMismatch));
}

#[test]
fn decode_hands_back_invariant_breaking_values() {
    let text = "{\"frames\":[{\"content\":[\"x\"]}],\"current_frame\":5,\"speed\":0}";
    let decoded = deserialize(text).unwrap();
    assert_eq!(decoded.current_frame, 5);
    assert_eq!(decoded.speed, 0);
}

#[test]
fn loading_revalidates_zero_speed() {
    let text = "{\"frames\":[{\"content\":[\"x\"]}],\"current_frame\":0,\"speed\":0}";
    let decoded = deserialize(text).unwrap();
    let r = Animation::from_loaded(decoded.frames, decoded.current_frame, decoded.speed);
    assert_eq!(r.err(), Some(AnimError::InvalidSpeed));
}

#[test]
fn loading_revalidates_the_cursor() {
    let text = "{\"frames\":[{\"content\":[\"x\"]}],\"current_frame\":5,\"speed\":500}";
    let decoded = deserialize(text).unwrap();
    let r = Animation::from_loaded(decoded.frames, decoded.current_frame, decoded.speed);
    assert_eq!(r.err(), Some(AnimError::IndexOutOfRange));
}

#[test]
fn a_loading_caller_may_repair_instead() {
    let text = "{\"frames\":[{\"content\":[\"x\"]}],\"current_frame\":5,\"speed\":500}";
    let decoded = deserialize(text).unwrap();
    let repaired_cursor = decoded.current_frame.min(decoded.frames.len() - 1);
    let a = Animation::from_loaded(decoded.frames, repaired_cursor, decoded.speed).unwrap();
    assert_eq!(a.cursor(), 0);
}

#[test]
fn object_without_fields_is_a_schema_mismatch() {
    assert_eq!(deserialize("{}").err(), Some(AnimError::SchemaMismatch));
}

#[test]
fn missing_trailing_fields_are_a_schema_mismatch() {
    let only_frames = "{\"frames\":[]}";
    assert_eq!(deserialize(only_frames).err(), Some(AnimError::SchemaMismatch));
    let no_speed = "{\"frames\":[],\"current_frame\":0}";
    assert_eq!(deserialize(no_speed).err(), Some(AnimError::SchemaMismatch));
}

#[test]
fn frame_without_content_is_a_schema_mismatch() {
    let text = "{\"frames\":[{}],\"current_frame\":0,\"speed\":500}";
    assert_eq!(deserialize(text).err(), Some(AnimError::SchemaMismatch));
}

#[test]
fn parse_u64_reads_plain_decimals() {
    assert_eq!(parse_u64("123"), Some(123));
    assert_eq!(parse_u64("0"), Some(0));
    assert_eq!(parse_u64(""), None);
    assert_eq!(parse_u64("12a"), None);
    assert_eq!(parse_u64("-5"), None);
    assert_eq!(parse_u64("18446744073709551615"), Some(u64::MAX));
    assert_eq!(parse_u64("18446744073709551616"), None);
}
