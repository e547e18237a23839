use taskstore::model::{Task, TaskBuilder};

#[test]
fn test_task_new() {
    let task = TaskBuilder::new().id(0).name("Example Task").build();

    assert_eq!(task.id, 0);
    assert_eq!(task.name, "Example Task");
}

#[test]
fn test_task_serialize() {
    let task = TaskBuilder::new().id(0).name("Example Task").build();
    let json = task.to_json();

    assert_eq!(json, r#"{"id":0,"name":"Example Task"}"#);
}

#[test]
fn test_task_deserialize() {
    let json = r#"{"id":0,"name":"Example Task"}"#;
    let task: Task = Task::from_json(json).unwrap();

    assert_eq!(task.id, 0);
    assert_eq!(task.name, "Example Task");
}

#[test]
fn test_task_accessors() {
    let task = TaskBuilder::new().id(7).name("chores").build();

    assert_eq!(task.id(), 7);
    assert_eq!(task.name(), "chores");
}

#[test]
fn test_builder_starts_empty() {
    let task = TaskBuilder::new().build();

    assert_eq!(task.id, 0);
    assert_eq!(task.name, "");
}

#[test]
fn test_task_clone_equal() {
    let task = TaskBuilder::new().id(3).name("copy me").build();
    let copy = task.clone();

    assert_eq!(copy.id, 3);
    assert_eq!(copy.name, "copy me");
}

#[test]
fn test_serialize_empty_name() {
    let task = TaskBuilder::new().id(12).name("").build();

    assert_eq!(task.to_json(), r#"{"id":12,"name":""}"#);
}

#[test]
fn test_serialize_escapes_quote_and_backslash() {
    let task = TaskBuilder::new().id(1).name("a\"b\\c").build();

    assert_eq!(task.to_json(), "{\"id\":1,\"name\":\"a\\\"b\\\\c\"}");
}

#[test]
fn test_round_trip_escaped_name() {
    let task = TaskBuilder::new().id(9).name("say \"hi\" \\ bye").build();
    let back = Task::from_json(&task.to_json()).unwrap();

    assert_eq!(back.id, 9);
    assert_eq!(back.name, "say \"hi\" \\ bye");
}

#[test]
fn test_round_trip_largest_id() {
    let task = TaskBuilder::new().id(u32::MAX).name("last").build();
    let json = task.to_json();

    assert_eq!(json, r#"{"id":4294967295,"name":"last"}"#);
    let back = Task::from_json(&json).unwrap();
    assert_eq!(back.id, u32::MAX);
    assert_eq!(back.name, "last");
}

#[test]
fn test_deserialize_rejects_bad_head() {
    assert!(Task::from_json(r#"{"di":0,"name":"x"}"#).is_none());
    assert!(Task::from_json("").is_none());
}

#[test]
fn test_deserialize_rejects_leading_zero() {
    assert!(Task::from_json(r#"{"id":007,"name":"x"}"#).is_none());
}

#[test]
fn test_deserialize_rejects_missing_digits() {
    assert!(Task::from_json(r#"{"id":,"name":"x"}"#).is_none());
}

#[test]
fn test_deserialize_rejects_too_large_id() {
    assert!(Task::from_json(r#"{"id":4294967296,"name":"x"}"#).is_none());
}

#[test]
fn test_deserialize_rejects_unterminated_name() {
    assert!(Task::from_json(r#"{"id":0,"name":"x"#).is_none());
}

#[test]
fn test_deserialize_rejects_bad_escape() {
    assert!(Task::from_json(r#"{"id":0,"name":"\n"}"#).is_none());
}

#[test]
fn test_deserialize_rejects_trailing_text() {
    assert!(Task::from_json(r#"{"id":0,"name":"x"} "#).is_none());
}
